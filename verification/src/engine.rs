use vstd::prelude::*;
use crate::text::{
    chars_of_str, decimal, decimal_chars, lemma_decimal_nonempty, replace_all, replace_chars,
    signed_decimal, signed_decimal_chars, string_from_chars, trim, trim_chars,
};

verus! {

/// Why a conversation could not be answered.
#[derive(Debug, Clone, Copy, PartialEq, Eq, Structural)]
pub enum QueryEngineError {
    /// The conversation holds no message.
    EmptyConversation,
    /// The last message of the conversation is not the user's.
    LastMessageIsNotUser,
    /// The language model answered in a role other than the assistant's.
    InvalidAgentResponse,
}

/// The author of a message sent to or received from the language model.
#[derive(Debug, Clone, Copy, PartialEq, Eq, Structural)]
pub enum LlmRole {
    System,
    User,
    Assistant,
}

/// A message in the form the language model takes.
#[derive(Debug, Clone, PartialEq, Eq)]
pub struct LlmMessage {
    pub role: LlmRole,
    pub content: String,
}

/// A document cited in an answer.
#[derive(Debug, Clone, PartialEq, Eq)]
pub struct Source {
    pub ordinal: usize,
    pub index: i64,
    pub citation: String,
    pub url: String,
    pub origin_text: String,
}

/// A retrieved document, with its provenance already formatted as a citation and a URL.
#[derive(Debug, Clone, PartialEq, Eq)]
pub struct Document {
    pub index: i64,
    pub text: String,
    pub citation: String,
    pub url: String,
}

/// A message of a conversation: the user's question, or the assistant's answer with the
/// sources it cites.
#[derive(Debug, Clone, PartialEq, Eq)]
pub enum Message {
    User(String),
    Assistant(String, Vec<Source>),
}

/// Answers conversations from retrieved documents.
pub struct Engine;

/// How many documents are retrieved for a query.
pub const NUM_DOCUMENTS_TO_RETRIEVE: usize = 4;

/// The most tokens the language model may produce for an answer.
pub const MAX_TOKENS: u16 = 2048;

/// The markdown link that cites the source with ordinal `n`:
/// `[n](http://localhost/#n)`.
pub open spec fn citation_link(n: nat) -> Seq<char> {
    seq!['['] + decimal(n) + "](http://localhost/#"@ + decimal(n) + seq![')']
}

/// The query of a conversation: the content of its last message, which must be the user's.
pub open spec fn user_query_of(messages: Seq<Message>) -> Result<Seq<char>, QueryEngineError> {
    if messages.len() == 0 {
        Err(QueryEngineError::EmptyConversation)
    } else {
        match messages.last() {
            Message::User(q) => Ok(q@),
            Message::Assistant(..) => Err(QueryEngineError::LastMessageIsNotUser),
        }
    }
}

/// The role and content that a conversation message is sent to the language model with.
pub open spec fn llm_view(m: Message) -> (LlmRole, Seq<char>) {
    match m {
        Message::User(c) => (LlmRole::User, c@),
        Message::Assistant(c, _) => (LlmRole::Assistant, c@),
    }
}

/// Replaces, in order, the decimal index of each source by the citation link of its ordinal,
/// the ordinals counting up from `ordinal`.
pub open spec fn link_sources_from(content: Seq<char>, indices: Seq<i64>, ordinal: nat) -> Seq<
    char,
>
    decreases indices.len(),
{
    if indices.len() == 0 {
        content
    } else {
        link_sources_from(
            replace_all(content, signed_decimal(indices[0] as int), citation_link(ordinal)),
            indices.drop_first(),
            ordinal + 1,
        )
    }
}

/// The indices of the sources.
pub open spec fn source_indices(sources: Seq<Source>) -> Seq<i64> {
    sources.map_values(|s: Source| s.index)
}

/// The citation link for ordinal `n`.
fn citation_link_chars(n: usize) -> (r: Vec<char>)
    ensures
        r@ == citation_link(n as nat),
{
    let digits = decimal_chars(n as u64);
    let middle = chars_of_str("](http://localhost/#");
    let mut r: Vec<char> = Vec::new();
    r.push('[');
    let mut a = digits.clone();
    let ghost d = digits@;
    assert(a@ =~= d);
    r.append(&mut a);
    let mut b = middle;
    let ghost mid = b@;
    r.append(&mut b);
    let mut c = digits;
    r.append(&mut c);
    r.push(')');
    assert(r@ =~= seq!['['] + d + mid + d + seq![')']);
    r
}

/// The source made from the `i`-th retrieved document when the conversation already cites
/// `num_sources` sources.
pub open spec fn source_of(d: Document, i: int, num_sources: int) -> Source {
    Source {
        ordinal: (i + num_sources) as usize,
        index: d.index,
        citation: d.citation,
        url: d.url,
        origin_text: d.text,
    }
}

impl Engine {
    /// The sources for the retrieved documents, in order, numbered from `num_sources`.
    pub fn sources(documents: Vec<Document>, num_sources: usize) -> (r: Vec<Source>)
        requires
            documents.len() + num_sources <= usize::MAX + 1,
        ensures
            r.len() == documents.len(),
            forall|i: int|
                0 <= i < r.len() ==> #[trigger] r[i] == source_of(documents[i], i, num_sources as int),
    {
        let mut r: Vec<Source> = Vec::new();
        let mut rest = documents;
        let ghost docs = rest@;
        let mut i: usize = 0;
        assert(docs.len() == rest.len());
        assert(docs.skip(0) =~= docs);
        while rest.len() > 0
            invariant
                docs.len() + num_sources <= usize::MAX + 1,
                docs.len() <= usize::MAX,
                i + rest@.len() == docs.len(),
                rest@ == docs.skip(i as int),
                r.len() == i,
                forall|j: int| 0 <= j < i ==> #[trigger] r[j] == source_of(docs[j], j, num_sources as int),
            decreases rest@.len(),
        {
            let d = rest.remove(0);
            assert(d == docs[i as int]);
            assert(rest@ =~= docs.skip(i + 1));
            r.push(Source {
                ordinal: i + num_sources,
                index: d.index,
                citation: d.citation,
                url: d.url,
                origin_text: d.text,
            });
            i += 1;
        }
        r
    }

    /// The citation link for the document at `index`, numbered from `modifier`:
    /// `[i](http://localhost/#i)` with `i = index + modifier`.
    pub fn formatter(index: usize, modifier: usize) -> (s: String)
        requires
            index + modifier <= usize::MAX,
        ensures
            s@ == citation_link((index + modifier) as nat),
    {
        let link = citation_link_chars(index + modifier);
        string_from_chars(&link)
    }

    /// The user's query: the last message of the conversation, which must come from the
    /// user.
    pub fn user_query(messages: &Vec<Message>) -> (r: Result<String, QueryEngineError>)
        ensures
            match r {
                Ok(q) => user_query_of(messages@) == Ok::<Seq<char>, QueryEngineError>(q@),
                Err(e) => user_query_of(messages@) == Err::<Seq<char>, QueryEngineError>(e),
            },
    {
        if messages.len() == 0 {
            return Err(QueryEngineError::EmptyConversation);
        }
        match &messages[messages.len() - 1] {
            Message::User(q) => Ok(q.clone()),
            Message::Assistant(..) => Err(QueryEngineError::LastMessageIsNotUser),
        }
    }

    /// The conversation as the language model takes it: each message with its author's role.
    pub fn llm_messages(messages: &Vec<Message>) -> (r: Vec<LlmMessage>)
        ensures
            r.len() == messages.len(),
            forall|i: int|
                0 <= i < r.len() ==> (r[i].role, r[i].content@) == llm_view(#[trigger] messages[i]),
    {
        let mut r: Vec<LlmMessage> = Vec::new();
        let mut i: usize = 0;
        while i < messages.len()
            invariant
                i <= messages.len(),
                r.len() == i,
                forall|j: int|
                    0 <= j < i ==> (r[j].role, r[j].content@) == llm_view(#[trigger] messages[j]),
            decreases messages.len() - i,
        {
            let m = match &messages[i] {
                Message::User(c) => LlmMessage { role: LlmRole::User, content: c.clone() },
                Message::Assistant(c, _) => LlmMessage {
                    role: LlmRole::Assistant,
                    content: c.clone(),
                },
            };
            r.push(m);
            i += 1;
        }
        r
    }

    /// Replaces, in the answer, the index of each source by the citation link of its
    /// ordinal; ordinals count up from `first_ordinal` in the order of `sources`.
    pub fn link_sources(content: &Vec<char>, sources: &Vec<Source>, first_ordinal: usize) -> (r:
        Vec<char>)
        requires
            first_ordinal + sources.len() <= usize::MAX,
        ensures
            r@ == link_sources_from(content@, source_indices(sources@), first_ordinal as nat),
    {
        let mut text = copy_all(content);
        let mut ordinal = first_ordinal;
        let mut i: usize = 0;
        assert(source_indices(sources@).skip(0) =~= source_indices(sources@));
        while i < sources.len()
            invariant
                i <= sources.len(),
                ordinal == first_ordinal + i,
                first_ordinal + sources.len() <= usize::MAX,
                link_sources_from(content@, source_indices(sources@), first_ordinal as nat)
                    == link_sources_from(
                    text@,
                    source_indices(sources@).skip(i as int),
                    ordinal as nat,
                ),
            decreases sources.len() - i,
        {
            let pat = signed_decimal_chars(sources[i].index);
            proof {
                lemma_signed_decimal_nonempty(sources@[i as int].index as int);
                let rest = source_indices(sources@).skip(i as int);
                assert(rest[0] == sources@[i as int].index);
                assert(rest.drop_first() =~= source_indices(sources@).skip(i + 1));
            }
            let rep = citation_link_chars(ordinal);
            text = replace_chars(&text, &pat, &rep);
            ordinal += 1;
            i += 1;
        }
        assert(source_indices(sources@).skip(i as int) =~= Seq::<i64>::empty());
        text
    }

    /// The answer to a conversation from what the language model returned: in the
    /// assistant's role, the trimmed content with each source's index replaced by its
    /// citation link (ordinals from `num_sources + 1`), together with the sources; in any
    /// other role, an error.
    pub fn answer(role: LlmRole, content: &str, sources: Vec<Source>, num_sources: usize) -> (r:
        Result<Message, QueryEngineError>)
        requires
            num_sources + 1 <= usize::MAX,
            role == LlmRole::Assistant ==> num_sources + 1 + sources.len() <= usize::MAX,
        ensures
            role == LlmRole::Assistant ==> (match r {
                Ok(Message::Assistant(text, cited)) => text@ == link_sources_from(
                    trim(content@),
                    source_indices(sources@),
                    (num_sources + 1) as nat,
                ) && cited == sources,
                _ => false,
            }),
            role != LlmRole::Assistant ==> r == Err::<Message, QueryEngineError>(
                QueryEngineError::InvalidAgentResponse,
            ),
    {
        let first_ordinal = num_sources + 1;
        match role {
            LlmRole::Assistant => {
                let chars = chars_of_str(content);
                let trimmed = trim_chars(&chars);
                let linked = Self::link_sources(&trimmed, &sources, first_ordinal);
                Ok(Message::Assistant(string_from_chars(&linked), sources))
            },
            _ => Err(QueryEngineError::InvalidAgentResponse),
        }
    }
}

/// Signed decimal notation is never empty.
proof fn lemma_signed_decimal_nonempty(i: int)
    ensures
        signed_decimal(i).len() > 0,
{
    if i < 0 {
        lemma_decimal_nonempty((-i) as nat);
    } else {
        lemma_decimal_nonempty(i as nat);
    }
}

fn copy_all(v: &Vec<char>) -> (r: Vec<char>)
    ensures
        r@ == v@,
{
    let r = crate::text::copy_range(v, 0, v.len());
    assert(v@.subrange(0, v@.len() as int) =~= v@);
    r
}

/// A piece of the model's streamed answer, as the citation accumulator classifies it.
#[derive(Debug, Clone, PartialEq, Eq)]
pub enum TokenValue {
    /// Nothing to send.
    Nothing,
    /// Text to send as it is.
    NoOp(String),
    /// Text that cites the retrieved document at the given position.
    Transform(String, usize),
    /// Text that looked like a citation but is not one.
    NoTransform(String),
}

/// What the accumulator hands back for one token: nothing, one value or two.
#[derive(Debug, Clone, PartialEq, Eq)]
pub enum TokenValues {
    Nothing,
    Unit(TokenValue),
    Twofer(TokenValue, TokenValue),
}

/// What to send to the client.
#[derive(Debug, Clone, PartialEq, Eq)]
pub enum StreamEvent {
    /// A piece of the answer's text.
    Content(String),
    /// The retrieved document at `position`, to be sent as a source numbered `ordinal`.
    Source { position: usize, ordinal: usize },
    /// The answer is complete.
    Done,
}

/// A stream event as mathematical values.
pub enum EventView {
    Content(Seq<char>),
    Source(nat, nat),
    Done,
}

/// The view of a stream event.
pub open spec fn event_view(e: StreamEvent) -> EventView {
    match e {
        StreamEvent::Content(c) => EventView::Content(c@),
        StreamEvent::Source { position, ordinal } => EventView::Source(
            position as nat,
            ordinal as nat,
        ),
        StreamEvent::Done => EventView::Done,
    }
}

/// The views of stream events.
pub open spec fn event_views(es: Seq<StreamEvent>) -> Seq<EventView> {
    es.map_values(|e: StreamEvent| event_view(e))
}

/// The values to handle, in order.
pub open spec fn token_list(values: TokenValues) -> Seq<TokenValue> {
    match values {
        TokenValues::Nothing => seq![],
        TokenValues::Unit(TokenValue::Nothing) => seq![],
        TokenValues::Unit(u) => seq![u],
        TokenValues::Twofer(a, b) => seq![a, b],
    }
}

/// The events for one value and which documents have been sent afterwards. A citation sends
/// its document the first time only, numbered `position + num_sources + 1` while streaming;
/// at the final flush it is numbered `position + num_sources`, and the position in its text
/// is replaced by the citation link of that number.
pub open spec fn value_events(v: TokenValue, taken: Seq<bool>, num_sources: nat, flushing: bool) -> (
    Seq<EventView>,
    Seq<bool>,
) {
    match v {
        TokenValue::Nothing => (seq![], taken),
        TokenValue::NoOp(c) => (seq![EventView::Content(c@)], taken),
        TokenValue::NoTransform(c) => (seq![EventView::Content(c@)], taken),
        TokenValue::Transform(c, pos) => {
            let ordinal: nat = if flushing {
                (pos + num_sources) as nat
            } else {
                (pos + num_sources + 1) as nat
            };
            let text = if flushing {
                replace_all(c@, decimal(pos as nat), citation_link(ordinal))
            } else {
                c@
            };
            let source: Seq<EventView> = if !taken[pos as int] {
                seq![EventView::Source(pos as nat, ordinal)]
            } else {
                seq![]
            };
            (source + seq![EventView::Content(text)], taken.update(pos as int, true))
        },
    }
}

/// The value can be handled without indexing past the documents or overflowing a number.
pub open spec fn value_ok(v: TokenValue, taken: Seq<bool>, num_sources: nat, flushing: bool) -> bool {
    match v {
        TokenValue::Transform(_, pos) => {
            &&& pos < taken.len()
            &&& flushing ==> pos + num_sources <= usize::MAX
            &&& !flushing && !taken[pos as int] ==> pos + num_sources + 1 <= usize::MAX
        },
        _ => true,
    }
}

/// The events for a list of values, and which documents have been sent afterwards.
pub open spec fn events_from(vs: Seq<TokenValue>, taken: Seq<bool>, num_sources: nat, flushing: bool) -> (
    Seq<EventView>,
    Seq<bool>,
)
    decreases vs.len(),
{
    if vs.len() == 0 {
        (seq![], taken)
    } else {
        let first = value_events(vs[0], taken, num_sources, flushing);
        let rest = events_from(vs.drop_first(), first.1, num_sources, flushing);
        (first.0 + rest.0, rest.1)
    }
}

/// Every value of the list can be handled in turn.
pub open spec fn values_ok(vs: Seq<TokenValue>, taken: Seq<bool>, num_sources: nat, flushing: bool) -> bool
    decreases vs.len(),
{
    vs.len() == 0 || (value_ok(vs[0], taken, num_sources, flushing) && values_ok(
        vs.drop_first(),
        value_events(vs[0], taken, num_sources, flushing).1,
        num_sources,
        flushing,
    ))
}

impl Engine {
    /// Decides what to send for the values of one streamed token (or of the final flush):
    /// text as it comes, and each cited document once. `taken[i]` records that the document
    /// at position `i` has been sent.
    pub fn stream_events(
        values: TokenValues,
        taken: &mut Vec<bool>,
        num_sources: usize,
        flushing: bool,
    ) -> (r: Vec<StreamEvent>)
        requires
            values_ok(token_list(values), old(taken)@, num_sources as nat, flushing),
        ensures
            (event_views(r@), final(taken)@) == events_from(
                token_list(values),
                old(taken)@,
                num_sources as nat,
                flushing,
            ),
    {
        let ghost list = token_list(values);
        let mut vs: Vec<TokenValue> = Vec::new();
        match values {
            TokenValues::Nothing => {},
            TokenValues::Unit(TokenValue::Nothing) => {},
            TokenValues::Unit(u) => {
                vs.push(u);
            },
            TokenValues::Twofer(a, b) => {
                vs.push(a);
                vs.push(b);
            },
        }
        assert(vs@ =~= list);
        let mut events: Vec<StreamEvent> = Vec::new();
        let mut i: usize = 0;
        assert(list.skip(0) =~= list);
        while i < vs.len()
            invariant
                vs@ == list,
                i <= vs.len(),
                values_ok(list.skip(i as int), taken@, num_sources as nat, flushing),
                events_from(list, old(taken)@, num_sources as nat, flushing) == (
                    event_views(events@) + events_from(
                        list.skip(i as int),
                        taken@,
                        num_sources as nat,
                        flushing,
                    ).0,
                    events_from(list.skip(i as int), taken@, num_sources as nat, flushing).1,
                ),
            decreases vs.len() - i,
        {
            let ghost before = event_views(events@);
            let ghost t0 = taken@;
            let ghost rest = list.skip(i as int);
            assert(rest[0] == vs@[i as int]);
            assert(rest.drop_first() =~= list.skip(i + 1));
            match &vs[i] {
                TokenValue::Nothing => {},
                TokenValue::NoOp(c) => {
                    events.push(StreamEvent::Content(c.clone()));
                },
                TokenValue::NoTransform(c) => {
                    events.push(StreamEvent::Content(c.clone()));
                },
                TokenValue::Transform(c, pos) => {
                    let pos = *pos;
                    let content = if flushing {
                        let chars = chars_of_str(c.as_str());
                        let pat = decimal_chars(pos as u64);
                        proof {
                            lemma_decimal_nonempty(pos as nat);
                        }
                        let rep = citation_link_chars(pos + num_sources);
                        let replaced = replace_chars(&chars, &pat, &rep);
                        string_from_chars(&replaced)
                    } else {
                        c.clone()
                    };
                    if !taken[pos] {
                        let ordinal = if flushing {
                            pos + num_sources
                        } else {
                            pos + num_sources + 1
                        };
                        events.push(StreamEvent::Source { position: pos, ordinal });
                    }
                    taken.set(pos, true);
                    events.push(StreamEvent::Content(content));
                },
            }
            assert(event_views(events@) =~= before + value_events(
                rest[0],
                t0,
                num_sources as nat,
                flushing,
            ).0);
            i += 1;
        }
        assert(list.skip(i as int) =~= Seq::<TokenValue>::empty());
        assert(event_views(events@) + Seq::<EventView>::empty() =~= event_views(events@));
        events
    }
}

/// A piece of the language model's streamed reply.
#[derive(Debug, Clone, PartialEq, Eq)]
pub struct PartialLlmMessage {
    pub role: Option<LlmRole>,
    pub content: Option<String>,
}

impl Engine {
    /// What the forwarding loop hands to the accumulator for what it received: the content
    /// of a received piece; `None`, which ends the loop, when the channel is closed or the
    /// piece carries no content.
    pub fn next_content(received: Option<PartialLlmMessage>) -> (r: Option<String>)
        ensures
            r == match received {
                Some(m) => m.content,
                None => None,
            },
    {
        match received {
            Some(PartialLlmMessage { content: Some(content), .. }) => Some(content),
            _ => None,
        }
    }
}

impl Engine {
    /// Ends a stream: what the final flush of the accumulator gives, then the end of the
    /// answer.
    pub fn finish_stream(values: TokenValues, taken: &mut Vec<bool>, num_sources: usize) -> (r:
        Vec<StreamEvent>)
        requires
            values_ok(token_list(values), old(taken)@, num_sources as nat, true),
        ensures
            (event_views(r@), final(taken)@) == ({
                let flushed = events_from(token_list(values), old(taken)@, num_sources as nat, true);
                (flushed.0.push(EventView::Done), flushed.1)
            }),
    {
        let mut events = Self::stream_events(values, taken, num_sources, true);
        let ghost before = event_views(events@);
        events.push(StreamEvent::Done);
        assert(event_views(events@) =~= before.push(EventView::Done));
        events
    }
}

/// A retrieved document is sent at most once: every source event names a document not sent
/// before, marks it sent, no two source events name the same document, and a document once
/// sent stays sent.
pub proof fn lemma_sources_sent_once(
    vs: Seq<TokenValue>,
    taken: Seq<bool>,
    num_sources: nat,
    flushing: bool,
)
    requires
        values_ok(vs, taken, num_sources, flushing),
    ensures
        ({
            let (events, after) = events_from(vs, taken, num_sources, flushing);
            &&& after.len() == taken.len()
            &&& forall|p: int| 0 <= p < taken.len() && taken[p] ==> after[p]
            &&& forall|i: int|
                0 <= i < events.len() ==> match #[trigger] events[i] {
                    EventView::Source(p, _) => p < taken.len() && !taken[p as int] && after[p as int],
                    _ => true,
                }
            &&& forall|i: int, j: int|
                0 <= i < j < events.len() ==> match (#[trigger] events[i], #[trigger] events[j]) {
                    (EventView::Source(p, _), EventView::Source(q, _)) => p != q,
                    _ => true,
                }
        }),
    decreases vs.len(),
{
    if vs.len() > 0 {
        let first = value_events(vs[0], taken, num_sources, flushing);
        lemma_sources_sent_once(vs.drop_first(), first.1, num_sources, flushing);
        let rest = events_from(vs.drop_first(), first.1, num_sources, flushing);
        let events = first.0 + rest.0;
        assert(events_from(vs, taken, num_sources, flushing) == (events, rest.1));
        assert forall|i: int| 0 <= i < events.len() implies match #[trigger] events[i] {
            EventView::Source(p, _) => p < taken.len() && !taken[p as int] && rest.1[p as int],
            _ => true,
        } by {
            if i >= first.0.len() {
                assert(events[i] == rest.0[i - first.0.len()]);
            }
        }
        assert forall|i: int, j: int| 0 <= i < j < events.len() implies match (
            #[trigger] events[i],
            #[trigger] events[j],
        ) {
            (EventView::Source(p, _), EventView::Source(q, _)) => p != q,
            _ => true,
        } by {
            if j < first.0.len() {
            } else if i < first.0.len() {
                assert(events[j] == rest.0[j - first.0.len()]);
            } else {
                assert(events[i] == rest.0[i - first.0.len()]);
                assert(events[j] == rest.0[j - first.0.len()]);
            }
        }
    }
}


/// A conversation whose last message is the user's has that message as its query, whatever
/// came before it; one that ends with the assistant's message has none; and a conversation is
/// reported empty exactly when it holds no message.
pub proof fn lemma_user_query_is_last(messages: Seq<Message>, q: String, c: String, cited: Vec<Source>)
    ensures
        user_query_of(messages.push(Message::User(q))) == Ok::<Seq<char>, QueryEngineError>(q@),
        user_query_of(messages.push(Message::Assistant(c, cited))) == Err::<
            Seq<char>,
            QueryEngineError,
        >(QueryEngineError::LastMessageIsNotUser),
        (user_query_of(messages) == Err::<Seq<char>, QueryEngineError>(
            QueryEngineError::EmptyConversation,
        )) <==> messages.len() == 0,
{
    assert(messages.push(Message::User(q)).last() == Message::User(q));
    assert(messages.push(Message::Assistant(c, cited)).last() == Message::Assistant(c, cited));
}

/// The sources linked one after another: the source at place `i` has its index replaced by
/// the citation link numbered `ordinal + i`.
pub open spec fn link_each(content: Seq<char>, indices: Seq<i64>, ordinal: nat) -> Seq<char>
    decreases indices.len(),
{
    if indices.len() == 0 {
        content
    } else {
        replace_all(
            link_each(content, indices.drop_last(), ordinal),
            signed_decimal(indices.last() as int),
            citation_link((ordinal + indices.len() - 1) as nat),
        )
    }
}

/// Adding a source at the end replaces its index, in what the sources before it gave, by the
/// link numbered after all of them, whether or not their indices occur in the text.
pub proof fn lemma_link_sources_last(content: Seq<char>, indices: Seq<i64>, x: i64, ordinal: nat)
    ensures
        link_sources_from(content, indices.push(x), ordinal) == replace_all(
            link_sources_from(content, indices, ordinal),
            signed_decimal(x as int),
            citation_link(ordinal + indices.len()),
        ),
    decreases indices.len(),
{
    if indices.len() == 0 {
        assert(indices.push(x)[0] == x);
        assert(indices.push(x).drop_first() =~= Seq::<i64>::empty());
        let c2 = replace_all(content, signed_decimal(x as int), citation_link(ordinal));
        assert(link_sources_from(c2, Seq::<i64>::empty(), ordinal + 1) == c2);
        assert(link_sources_from(content, indices, ordinal) == content);
    } else {
        let c2 = replace_all(content, signed_decimal(indices[0] as int), citation_link(ordinal));
        assert(indices.push(x)[0] == indices[0]);
        assert(indices.push(x).drop_first() =~= indices.drop_first().push(x));
        lemma_link_sources_last(c2, indices.drop_first(), x, ordinal + 1);
        assert(ordinal + 1 + indices.drop_first().len() == ordinal + indices.len());
        assert(link_sources_from(content, indices, ordinal) == link_sources_from(
            c2,
            indices.drop_first(),
            ordinal + 1,
        ));
    }
}

/// Linking numbers the sources by their place alone: the source at place `i` gets the
/// ordinal `ordinal + i`, whatever the text holds.
pub proof fn lemma_link_sources_in_order(content: Seq<char>, indices: Seq<i64>, ordinal: nat)
    ensures
        link_sources_from(content, indices, ordinal) == link_each(content, indices, ordinal),
    decreases indices.len(),
{
    if indices.len() > 0 {
        let init = indices.drop_last();
        lemma_link_sources_in_order(content, init, ordinal);
        assert(init.push(indices.last()) =~= indices);
        lemma_link_sources_last(content, init, indices.last(), ordinal);
    }
}

/// The text that a value carries, for a value that is plain text.
pub open spec fn plain_text(v: TokenValue) -> Seq<char> {
    match v {
        TokenValue::NoOp(c) => c@,
        TokenValue::NoTransform(c) => c@,
        _ => Seq::empty(),
    }
}

/// The value is plain text: neither nothing nor a citation.
pub open spec fn is_plain(v: TokenValue) -> bool {
    v is NoOp || v is NoTransform
}

/// Plain text goes out as it comes, while streaming and at the flush alike: one content event
/// per value, with its text, in order, and no document is marked sent.
pub proof fn lemma_plain_text_sent(vs: Seq<TokenValue>, taken: Seq<bool>, num_sources: nat, flushing: bool)
    requires
        forall|i: int| 0 <= i < vs.len() ==> is_plain(#[trigger] vs[i]),
    ensures
        events_from(vs, taken, num_sources, flushing) == (
            vs.map_values(|v: TokenValue| EventView::Content(plain_text(v))),
            taken,
        ),
    decreases vs.len(),
{
    if vs.len() > 0 {
        assert(is_plain(vs[0]));
        let rest = vs.drop_first();
        assert forall|i: int| 0 <= i < rest.len() implies is_plain(#[trigger] rest[i]) by {
            assert(rest[i] == vs[i + 1]);
        }
        lemma_plain_text_sent(rest, taken, num_sources, flushing);
        assert(seq![EventView::Content(plain_text(vs[0]))] + rest.map_values(
            |v: TokenValue| EventView::Content(plain_text(v)),
        ) =~= vs.map_values(|v: TokenValue| EventView::Content(plain_text(v))));
    }
}

/// A citation sends its document only if it was not sent before, numbered after the
/// documents already listed; its text follows, unchanged while streaming, and at the final
/// flush with its position replaced by the link of that number whether or not the document
/// was sent before. Afterwards the document counts as sent.
pub proof fn lemma_citation_events(
    c: String,
    pos: usize,
    taken: Seq<bool>,
    num_sources: nat,
    flushing: bool,
)
    requires
        pos < taken.len(),
    ensures
        ({
            let (events, after) = value_events(
                TokenValue::Transform(c, pos),
                taken,
                num_sources,
                flushing,
            );
            let ordinal: nat = if flushing {
                (pos + num_sources) as nat
            } else {
                (pos + num_sources + 1) as nat
            };
            &&& events.len() == if taken[pos as int] { 1int } else { 2int }
            &&& !taken[pos as int] ==> events[0] == EventView::Source(pos as nat, ordinal)
            &&& flushing ==> events.last() == EventView::Content(
                replace_all(c@, decimal(pos as nat), citation_link(ordinal)),
            )
            &&& !flushing ==> events.last() == EventView::Content(c@)
            &&& after == taken.update(pos as int, true)
        }),
{
}

/// At the final flush the text of a citation does not depend on which documents were sent
/// before: only whether a source event comes first does.
pub proof fn lemma_flush_text_independent_of_sent(
    c: String,
    pos: usize,
    taken1: Seq<bool>,
    taken2: Seq<bool>,
    num_sources: nat,
)
    requires
        pos < taken1.len(),
        pos < taken2.len(),
    ensures
        value_events(TokenValue::Transform(c, pos), taken1, num_sources, true).0.last()
            == value_events(TokenValue::Transform(c, pos), taken2, num_sources, true).0.last(),
        value_events(TokenValue::Transform(c, pos), taken1, num_sources, true).0.last()
            == EventView::Content(
            replace_all(c@, decimal(pos as nat), citation_link((pos + num_sources) as nat)),
        ),
{
}

} // verus!
