use wikidex::triton::{stream_step, InferOutput, LlmClientError};

#[test]
fn server_error_wins() {
    assert_eq!(
        stream_step("boom", &InferOutput::Text(vec!["x".to_string()])),
        Err(LlmClientError::EmptyResponse)
    );
}

#[test]
fn missing_or_invalid_output() {
    assert_eq!(stream_step("", &InferOutput::Missing), Err(LlmClientError::EmptyInferResponse));
    assert_eq!(stream_step("", &InferOutput::InvalidUtf8), Err(LlmClientError::Utf8Error));
}

#[test]
fn text_is_concatenated() {
    assert_eq!(
        stream_step("", &InferOutput::Text(vec!["Hel".to_string(), "lo é".to_string()])),
        Ok(Some("Hello é".to_string()))
    );
    assert_eq!(
        stream_step("", &InferOutput::Text(vec!["".to_string(), "".to_string()])),
        Ok(None)
    );
    assert_eq!(stream_step("", &InferOutput::Text(vec![])), Ok(None));
}

#[test]
fn request_inputs() {
    let r = wikidex::triton::triton_request("Hé?", 2048, &vec!["</s>".to_string(), "é".to_string()]);
    assert_eq!(r.model_name, "ensemble");
    assert_eq!(r.input_shape, vec![1, 1]);
    assert_eq!(r.text_input, "Hé?".as_bytes().to_vec());
    assert_eq!(r.max_tokens, 2048);
    assert_eq!(r.bad_words, vec![Vec::<u8>::new()]);
    assert_eq!(r.stop_words, vec![b"</s>".to_vec(), vec![0xc3, 0xa9]]);
    assert_eq!(r.beam_width, 1);
    assert!(r.stream);
    assert_eq!(r.output, "text_output");
}
