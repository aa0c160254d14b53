use wikidex::engine::{
    Document, Engine, PartialLlmMessage, LlmMessage, LlmRole, Message, QueryEngineError, Source, StreamEvent, TokenValue,
    TokenValues,
};

fn source(index: i64) -> Source {
    Source {
        ordinal: 0,
        index,
        citation: format!("citation {}", index),
        url: format!("http://example.org/{}", index),
        origin_text: format!("text {}", index),
    }
}

#[test]
fn formatter_builds_a_citation_link() {
    assert_eq!(Engine::formatter(3, 4), "[7](http://localhost/#7)");
    assert_eq!(Engine::formatter(0, 0), "[0](http://localhost/#0)");
    assert_eq!(Engine::formatter(120, 5), "[125](http://localhost/#125)");
}

#[test]
fn user_query_is_the_last_user_message() {
    let messages = vec![
        Message::User("first".to_string()),
        Message::Assistant("answer".to_string(), vec![]),
        Message::User("second".to_string()),
    ];
    assert_eq!(Engine::user_query(&messages), Ok("second".to_string()));
}

#[test]
fn user_query_errors() {
    assert_eq!(Engine::user_query(&vec![]), Err(QueryEngineError::EmptyConversation));
    let messages = vec![
        Message::User("first".to_string()),
        Message::Assistant("answer".to_string(), vec![source(1)]),
    ];
    assert_eq!(Engine::user_query(&messages), Err(QueryEngineError::LastMessageIsNotUser));
}

#[test]
fn llm_messages_keep_roles_and_contents() {
    let messages = vec![
        Message::User("q".to_string()),
        Message::Assistant("a".to_string(), vec![source(5)]),
    ];
    assert_eq!(
        Engine::llm_messages(&messages),
        vec![
            LlmMessage { role: LlmRole::User, content: "q".to_string() },
            LlmMessage { role: LlmRole::Assistant, content: "a".to_string() },
        ]
    );
}

#[test]
fn answer_links_sources_in_order() {
    let sources = vec![source(12), source(-3)];
    let r = Engine::answer(LlmRole::Assistant, "  See 12 and -3.\n", sources.clone(), 2);
    assert_eq!(
        r,
        Ok(Message::Assistant(
            "See [3](http://localhost/#3) and [4](http://localhost/#4).".to_string(),
            sources
        ))
    );
}

#[test]
fn answer_replaces_inside_earlier_links_too() {
    let sources = vec![source(12), source(3)];
    let r = Engine::answer(LlmRole::Assistant, "See 12 and 3.", sources.clone(), 2);
    assert_eq!(
        r,
        Ok(Message::Assistant(
            "See [[4](http://localhost/#4)](http://localhost/#[4](http://localhost/#4)) and [4](http://localhost/#4).".to_string(),
            sources
        ))
    );
}

#[test]
fn answer_in_another_role_is_an_error() {
    assert_eq!(
        Engine::answer(LlmRole::User, "text", vec![], 0),
        Err(QueryEngineError::InvalidAgentResponse)
    );
    assert_eq!(
        Engine::answer(LlmRole::System, "text", vec![source(1)], 0),
        Err(QueryEngineError::InvalidAgentResponse)
    );
}

#[test]
fn link_sources_counts_ordinals_from_the_first() {
    let content: Vec<char> = "7 then 8".chars().collect();
    let r = Engine::link_sources(&content, &vec![source(7), source(8)], 10);
    assert_eq!(
        r.into_iter().collect::<String>(),
        "[10](http://localhost/#10) then [11](http://localhost/#11)"
    );
}

#[test]
fn stream_sends_each_document_once() {
    let mut taken = vec![false, false];
    let e = Engine::stream_events(
        TokenValues::Unit(TokenValue::Transform("12 ".to_string(), 1)),
        &mut taken,
        2,
        false,
    );
    assert_eq!(
        e,
        vec![
            StreamEvent::Source { position: 1, ordinal: 4 },
            StreamEvent::Content("12 ".to_string())
        ]
    );
    assert_eq!(taken, vec![false, true]);
    let e = Engine::stream_events(
        TokenValues::Unit(TokenValue::Transform("again".to_string(), 1)),
        &mut taken,
        2,
        false,
    );
    assert_eq!(e, vec![StreamEvent::Content("again".to_string())]);
}

#[test]
fn stream_flush_links_the_position() {
    let mut taken = vec![false, false];
    let e = Engine::stream_events(
        TokenValues::Twofer(
            TokenValue::NoOp("a ".to_string()),
            TokenValue::Transform("see 0".to_string(), 0),
        ),
        &mut taken,
        2,
        true,
    );
    assert_eq!(
        e,
        vec![
            StreamEvent::Content("a ".to_string()),
            StreamEvent::Source { position: 0, ordinal: 2 },
            StreamEvent::Content("see [2](http://localhost/#2)".to_string())
        ]
    );
    assert_eq!(taken, vec![true, false]);
}

#[test]
fn stream_skips_nothing() {
    let mut taken = vec![false];
    assert!(Engine::stream_events(TokenValues::Nothing, &mut taken, 0, false).is_empty());
    assert!(Engine::stream_events(TokenValues::Unit(TokenValue::Nothing), &mut taken, 0, false)
        .is_empty());
    assert_eq!(
        Engine::stream_events(
            TokenValues::Twofer(TokenValue::Nothing, TokenValue::NoTransform("[x".to_string())),
            &mut taken,
            0,
            false
        ),
        vec![StreamEvent::Content("[x".to_string())]
    );
    assert_eq!(taken, vec![false]);
}

#[test]
fn sources_are_numbered_from_the_count_so_far() {
    let docs = vec![
        Document {
            index: 12,
            text: "first".to_string(),
            citation: "A".to_string(),
            url: "http://a".to_string(),
        },
        Document {
            index: -3,
            text: "second".to_string(),
            citation: "B".to_string(),
            url: "http://b".to_string(),
        },
    ];
    assert_eq!(
        Engine::sources(docs, 2),
        vec![
            Source {
                ordinal: 2,
                index: 12,
                citation: "A".to_string(),
                url: "http://a".to_string(),
                origin_text: "first".to_string()
            },
            Source {
                ordinal: 3,
                index: -3,
                citation: "B".to_string(),
                url: "http://b".to_string(),
                origin_text: "second".to_string()
            },
        ]
    );
}

#[test]
fn finishing_a_stream_flushes_then_ends() {
    let mut taken = vec![true, false];
    let e = Engine::finish_stream(
        TokenValues::Unit(TokenValue::Transform("see 1".to_string(), 1)),
        &mut taken,
        3,
    );
    assert_eq!(
        e,
        vec![
            StreamEvent::Source { position: 1, ordinal: 4 },
            StreamEvent::Content("see [4](http://localhost/#4)".to_string()),
            StreamEvent::Done
        ]
    );
    assert_eq!(taken, vec![true, true]);
    assert_eq!(Engine::finish_stream(TokenValues::Nothing, &mut taken, 3), vec![StreamEvent::Done]);
}

#[test]
fn retrieval_settings() {
    assert_eq!(wikidex::engine::NUM_DOCUMENTS_TO_RETRIEVE, 4);
    assert_eq!(wikidex::engine::MAX_TOKENS, 2048);
}

#[test]
fn forwarding_stops_at_a_piece_without_content() {
    assert_eq!(
        Engine::next_content(Some(PartialLlmMessage {
            role: Some(LlmRole::Assistant),
            content: Some("tok".to_string())
        })),
        Some("tok".to_string())
    );
    assert_eq!(
        Engine::next_content(Some(PartialLlmMessage { role: None, content: None })),
        None
    );
    assert_eq!(Engine::next_content(None), None);
}

#[test]
fn answer_in_another_role_with_many_sources() {
    let sources: Vec<Source> = (0..3).map(source).collect();
    assert_eq!(
        Engine::answer(LlmRole::User, "x", sources, usize::MAX - 1),
        Err(QueryEngineError::InvalidAgentResponse)
    );
}
