use vstd::prelude::*;
use vstd::utf8::encode_utf8;
use crate::text::{chars_of_str, string_from_chars};

verus! {

/// Why a streamed answer from the inference server failed.
#[derive(Debug, Clone, Copy, PartialEq, Eq, Structural)]
pub enum LlmClientError {
    /// The server reported an error for the request.
    EmptyResponse,
    /// A streamed message carried no inference response.
    EmptyInferResponse,
    /// The output tensor did not hold valid UTF-8.
    Utf8Error,
}

/// The decoded output of one streamed inference response.
#[derive(Debug, Clone, PartialEq, Eq)]
pub enum InferOutput {
    /// The message carried no inference response.
    Missing,
    /// The output tensor could not be decoded as UTF-8.
    InvalidUtf8,
    /// The strings of the output tensor.
    Text(Vec<String>),
}

/// Concatenation of strings.
pub open spec fn concat_views(pieces: Seq<String>) -> Seq<char>
    decreases pieces.len(),
{
    if pieces.len() == 0 {
        Seq::empty()
    } else {
        concat_views(pieces.drop_last()) + pieces.last()@
    }
}

/// Decides what one streamed response contributes: an error when the server reports one or
/// the output is missing or not UTF-8; otherwise the concatenated text, to be sent only when
/// it is not empty.
pub fn stream_step(error_message: &str, output: &InferOutput) -> (r: Result<
    Option<String>,
    LlmClientError,
>)
    ensures
        error_message@.len() > 0 ==> r == Err::<Option<String>, LlmClientError>(
            LlmClientError::EmptyResponse,
        ),
        error_message@.len() == 0 ==> match output {
            InferOutput::Missing => r == Err::<Option<String>, LlmClientError>(
                LlmClientError::EmptyInferResponse,
            ),
            InferOutput::InvalidUtf8 => r == Err::<Option<String>, LlmClientError>(
                LlmClientError::Utf8Error,
            ),
            InferOutput::Text(pieces) => match r {
                Ok(None) => concat_views(pieces@).len() == 0,
                Ok(Some(s)) => concat_views(pieces@).len() > 0 && s@ == concat_views(pieces@),
                Err(_) => false,
            },
        },
{
    if !error_message.is_empty() {
        return Err(LlmClientError::EmptyResponse);
    }
    match output {
        InferOutput::Missing => Err(LlmClientError::EmptyInferResponse),
        InferOutput::InvalidUtf8 => Err(LlmClientError::Utf8Error),
        InferOutput::Text(pieces) => {
            let mut all: Vec<char> = Vec::new();
            let mut i: usize = 0;
            while i < pieces.len()
                invariant
                    i <= pieces.len(),
                    all@ == concat_views(pieces@.take(i as int)),
                decreases pieces.len() - i,
            {
                let mut c = chars_of_str(pieces[i].as_str());
                let ghost before = all@;
                let ghost cv = c@;
                all.append(&mut c);
                assert(pieces@.take(i + 1).drop_last() =~= pieces@.take(i as int));
                assert(all@ == before + cv);
                i += 1;
            }
            assert(pieces@.take(pieces.len() as int) =~= pieces@);
            if all.len() == 0 {
                Ok(None)
            } else {
                Ok(Some(string_from_chars(&all)))
            }
        },
    }
}

/// The inputs of a streaming inference request that are not floating-point numbers. The
/// request also sets `top_p` and `temperature` to 1 and `presence_penalty` to 0. Every input
/// has the shape `input_shape`.
#[derive(Debug, Clone, PartialEq, Eq)]
pub struct TritonRequest {
    pub model_name: String,
    pub input_shape: Vec<i64>,
    pub text_input: Vec<u8>,
    pub max_tokens: i32,
    pub bad_words: Vec<Vec<u8>>,
    pub stop_words: Vec<Vec<u8>>,
    pub beam_width: i32,
    pub stream: bool,
    pub output: String,
}

/// The request for streaming an answer to `prompt`: the `ensemble` model, the prompt and
/// each stop phrase as UTF-8 bytes, one empty bad word, beam width 1, streaming on, and the
/// `text_output` tensor as output; every input has the shape `[1, 1]`.
pub fn triton_request(prompt: &str, max_tokens: u16, stop_phrases: &Vec<String>) -> (r:
    TritonRequest)
    ensures
        r.model_name@ == "ensemble"@,
        r.input_shape@ == seq![1i64, 1i64],
        r.text_input@ == encode_utf8(prompt@),
        r.max_tokens == max_tokens as i32,
        r.bad_words.len() == 1 && r.bad_words[0]@.len() == 0,
        r.stop_words.len() == stop_phrases.len(),
        forall|i: int|
            0 <= i < r.stop_words.len() ==> (#[trigger] r.stop_words[i])@ == encode_utf8(
                stop_phrases[i]@,
            ),
        r.beam_width == 1,
        r.stream,
        r.output@ == "text_output"@,
{
    let mut stop_words: Vec<Vec<u8>> = Vec::new();
    let mut i: usize = 0;
    while i < stop_phrases.len()
        invariant
            i <= stop_phrases.len(),
            stop_words.len() == i,
            forall|j: int|
                0 <= j < i ==> (#[trigger] stop_words[j])@ == encode_utf8(stop_phrases[j]@),
        decreases stop_phrases.len() - i,
    {
        stop_words.push(stop_phrases[i].as_str().as_bytes_vec());
        i += 1;
    }
    let mut input_shape: Vec<i64> = Vec::new();
    input_shape.push(1);
    input_shape.push(1);
    assert(input_shape@ =~= seq![1i64, 1i64]);
    let mut bad_words: Vec<Vec<u8>> = Vec::new();
    bad_words.push(Vec::new());
    TritonRequest {
        model_name: String::from_str("ensemble"),
        input_shape,
        text_input: prompt.as_bytes_vec(),
        max_tokens: max_tokens as i32,
        bad_words,
        stop_words,
        beam_width: 1,
        stream: true,
        output: String::from_str("text_output"),
    }
}

} // verus!
