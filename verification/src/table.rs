use vstd::prelude::*;
use crate::engine::{LlmMessage, LlmRole};

verus! {

/// Why a table could not be described.
#[derive(Debug, Clone, Copy, PartialEq, Eq, Structural)]
pub enum LlmServiceError {
    /// The model's reply held no message.
    EmptyResponse,
}

/// A request to the language model: the system prompt and the conversation.
#[derive(Debug, Clone, PartialEq, Eq)]
pub struct LlmInput {
    pub system: String,
    pub conversation: Vec<LlmMessage>,
}

/// A table together with the model's plain-English description of it.
#[derive(Debug, Clone, PartialEq, Eq)]
pub struct DescribedTable {
    pub description: String,
    pub table: String,
}

/// A document without a label: its text and the tables it holds.
#[derive(Debug, Clone, PartialEq, Eq)]
pub struct UnlabledDocument {
    pub text: String,
    pub tables: Vec<DescribedTable>,
}

/// The system prompt for describing a table.
pub open spec fn table_prompt() -> Seq<char> {
    "Interpret and summarize the following HTML table in a concise, plain English description."@
}

/// The request that asks the model to describe `table`: the table prompt as system
/// message, and the table as the user's only message.
pub fn table_request(table: &str) -> (r: LlmInput)
    ensures
        r.system@ == table_prompt(),
        r.conversation.len() == 1,
        r.conversation[0].role == LlmRole::User,
        r.conversation[0].content@ == table@,
{
    let system = String::from_str(
        "Interpret and summarize the following HTML table in a concise, plain English description.",
    );
    let mut conversation: Vec<LlmMessage> = Vec::new();
    conversation.push(LlmMessage { role: LlmRole::User, content: String::from_str(table) });
    LlmInput { system, conversation }
}

/// The document for `table` from the model's reply: no text, and the table described by
/// the content of the reply's last message; an error when the reply holds no message.
pub fn table_document(table: &str, reply: &Vec<LlmMessage>) -> (r: Result<
    UnlabledDocument,
    LlmServiceError,
>)
    ensures
        reply.len() == 0 ==> r == Err::<UnlabledDocument, LlmServiceError>(
            LlmServiceError::EmptyResponse,
        ),
        reply.len() > 0 ==> match r {
            Ok(doc) => {
                &&& doc.text@.len() == 0
                &&& doc.tables.len() == 1
                &&& doc.tables[0].description@ == reply[reply.len() - 1].content@
                &&& doc.tables[0].table@ == table@
            },
            Err(_) => false,
        },
{
    if reply.len() == 0 {
        return Err(LlmServiceError::EmptyResponse);
    }
    let description = reply[reply.len() - 1].content.clone();
    let mut tables: Vec<DescribedTable> = Vec::new();
    tables.push(DescribedTable { description, table: String::from_str(table) });
    Ok(UnlabledDocument { text: String::new(), tables })
}

} // verus!
