use wikidex::engine::{LlmMessage, LlmRole};
use wikidex::table::{table_document, table_request, DescribedTable, LlmServiceError};

#[test]
fn table_request_asks_for_a_description() {
    let r = table_request("<table></table>");
    assert_eq!(
        r.system,
        "Interpret and summarize the following HTML table in a concise, plain English description."
    );
    assert_eq!(
        r.conversation,
        vec![LlmMessage { role: LlmRole::User, content: "<table></table>".to_string() }]
    );
}

#[test]
fn table_document_uses_the_last_message() {
    let reply = vec![
        LlmMessage { role: LlmRole::User, content: "<table></table>".to_string() },
        LlmMessage { role: LlmRole::Assistant, content: "An empty table.".to_string() },
    ];
    let doc = table_document("<table></table>", &reply).unwrap();
    assert_eq!(doc.text, "");
    assert_eq!(
        doc.tables,
        vec![DescribedTable {
            description: "An empty table.".to_string(),
            table: "<table></table>".to_string()
        }]
    );
}

#[test]
fn table_document_without_reply_is_an_error() {
    assert_eq!(table_document("<table/>", &vec![]), Err(LlmServiceError::EmptyResponse));
}
