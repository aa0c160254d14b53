# wikidex

The verified core of a retrieval-augmented question-answering service over Wikipedia.

- `src/splitter.rs` — the recursive character text splitter that cuts articles into chunks
  for indexing, with its mathematical model (`SplitterModel`); `try_split_text` refuses
  exactly the inputs on which merging would underflow.
- `src/laws.rs` — properties of the splitter proved over that model: kept separators lose
  nothing, dropped separators leave none behind and joining with them restores the text,
  merging moves a prefix of the buffer,
  splitting without overlap is lossless, chunks are bounded when the last separator is
  empty, short texts stay whole, empty texts give no chunks, kept separators give no empty
  chunk, chunks never hold more bytes than the
  text.
- `src/engine.rs` — the decisions of the conversation engine: the user's query, the
  messages for the language model, source numbering, citation links in answers, and what
  to send for each streamed token and where forwarding stops.
- `src/table.rs`, `src/triton.rs` — requests and replies around the language model,
  including the non-float inputs of the streaming inference request.
- `src/text.rs` — UTF-8 lengths, decimal notation, trimming and replacing on characters.
- `app/main.rs` — a command line that splits a file or prints a citation link.
