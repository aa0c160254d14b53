use vstd::prelude::*;
use std::collections::VecDeque;
use crate::text::{
    occurs_at, capped, capped_utf8_len, copy_range, find_from, lemma_next_match, next_match, utf8_len,
};

verus! {

/// The pieces of `text` from position `last` on, cut after (`keep`) or around (`!keep`)
/// each leftmost non-overlapping occurrence of the non-empty `sep`; a trailing empty piece
/// is not produced.
pub open spec fn pieces_from(text: Seq<char>, sep: Seq<char>, keep: bool, last: int) -> Seq<
    Seq<char>,
>
    decreases text.len() - last,
{
    if sep.len() == 0 || last < 0 || last > text.len() {
        seq![]
    } else {
        match next_match(text, sep, last) {
            Some(start) => {
                proof {
                    lemma_next_match(text, sep, last);
                }
                let piece = if keep {
                    text.subrange(last, start + sep.len())
                } else {
                    text.subrange(last, start)
                };
                seq![piece] + pieces_from(text, sep, keep, start + sep.len())
            },
            None => if last < text.len() {
                seq![text.subrange(last, text.len() as int)]
            } else {
                seq![]
            },
        }
    }
}

/// The pieces joined with `sep` between each two.
pub open spec fn join_with(pieces: Seq<Seq<char>>, sep: Seq<char>) -> Seq<char>
    decreases pieces.len(),
{
    if pieces.len() == 0 {
        Seq::empty()
    } else if pieces.len() == 1 {
        pieces[0]
    } else {
        pieces[0] + sep + join_with(pieces.drop_first(), sep)
    }
}

/// Whether, from position `last` on, the last leftmost non-overlapping occurrence of the
/// non-empty `sep` ends exactly at the end of `text`.
pub open spec fn match_ends_text_from(text: Seq<char>, sep: Seq<char>, last: int) -> bool
    decreases text.len() - last,
{
    if sep.len() == 0 || last < 0 || last > text.len() {
        false
    } else {
        match next_match(text, sep, last) {
            Some(start) => {
                proof {
                    lemma_next_match(text, sep, last);
                }
                if start + sep.len() == text.len() {
                    true
                } else {
                    match_ends_text_from(text, sep, start + sep.len())
                }
            },
            None => false,
        }
    }
}

/// Concatenates pieces from the front of `buf` onto `merged` until the byte length of the
/// result reaches `threshold` or `buf` runs out; gives the result and what is left of `buf`.
pub open spec fn merge_from(merged: Seq<char>, buf: Seq<Seq<char>>, threshold: int) -> (
    Seq<char>,
    Seq<Seq<char>>,
)
    decreases buf.len(),
{
    if buf.len() == 0 {
        (merged, buf)
    } else {
        let m = merged + buf[0];
        if utf8_len(m) >= threshold {
            (m, buf.drop_first())
        } else {
            merge_from(m, buf.drop_first(), threshold)
        }
    }
}

/// Sum of the UTF-8 byte lengths of `items`.
pub open spec fn total_len(items: Seq<Seq<char>>) -> nat
    decreases items.len(),
{
    if items.len() == 0 {
        0
    } else {
        total_len(items.drop_last()) + utf8_len(items.last())
    }
}

/// Each character of `text` as a one-character piece.
pub open spec fn char_pieces(text: Seq<char>) -> Seq<Seq<char>> {
    Seq::new(text.len(), |i: int| seq![text[i]])
}

/// Views of a sequence of character vectors.
pub open spec fn views(v: Seq<Vec<char>>) -> Seq<Seq<char>> {
    v.map_values(|x: Vec<char>| x@)
}

/// The total byte length of the pieces in `buf`, capped at `usize::MAX`.
fn buffer_len(buf: &VecDeque<Vec<char>>) -> (n: usize)
    ensures
        n == capped(total_len(views(buf@)) as int),
{
    let mut acc: usize = 0;
    let mut i: usize = 0;
    while i < buf.len()
        invariant
            i <= buf@.len(),
            acc == capped(total_len(views(buf@).take(i as int)) as int),
        decreases buf@.len() - i,
    {
        let n = capped_utf8_len(&buf[i]);
        proof {
            let t = views(buf@).take(i + 1);
            assert(t.drop_last() =~= views(buf@).take(i as int));
            assert(t.last() == buf@[i as int]@);
        }
        acc = acc.saturating_add(n);
        i += 1;
    }
    assert(views(buf@).take(buf@.len() as int) =~= views(buf@));
    acc
}

/// Each character of `text` as a one-character vector.
fn split_chars(text: &Vec<char>) -> (r: Vec<Vec<char>>)
    ensures
        views(r@) == char_pieces(text@),
{
    let mut r: Vec<Vec<char>> = Vec::new();
    let mut i: usize = 0;
    while i < text.len()
        invariant
            i <= text.len(),
            views(r@) =~= char_pieces(text@).take(i as int),
        decreases text.len() - i,
    {
        let ghost before = views(r@);
        let mut one: Vec<char> = Vec::new();
        one.push(text[i]);
        assert(one@ =~= seq![text@[i as int]]);
        r.push(one);
        assert(views(r@) =~= before.push(one@));
        assert(char_pieces(text@).take(i + 1) =~= char_pieces(text@).take(i as int).push(
            seq![text@[i as int]],
        ));
        i += 1;
    }
    assert(char_pieces(text@).take(text.len() as int) =~= char_pieces(text@));
    r
}

} // verus!

verus! {

/// Splits text into chunks, trying each separator in turn.
pub struct RecursiveCharacterTextSplitter {
    chunk_size: usize,
    chunk_overlap: usize,
    separators: Vec<String>,
    keep_separator: bool,
}

/// The configuration of a splitter as mathematical values.
pub struct SplitterModel {
    pub chunk_size: nat,
    pub chunk_overlap: nat,
    pub separators: Seq<Seq<char>>,
    pub keep_separator: bool,
}

/// The separators used when none are given: paragraph break, line break, space, and the
/// empty separator, which cuts the text into single characters.
pub open spec fn default_separators() -> Seq<Seq<char>> {
    seq![seq!['\n', '\n'], seq!['\n'], seq![' '], Seq::<char>::empty()]
}

impl SplitterModel {
    /// The byte length at which merging the buffer stops.
    pub open spec fn threshold(self) -> int {
        self.chunk_size - self.chunk_overlap
    }

    /// Merges the front of the buffer into one chunk; gives the chunk and the rest.
    pub open spec fn merge(self, buf: Seq<Seq<char>>) -> (Seq<char>, Seq<Seq<char>>) {
        merge_from(Seq::<char>::empty(), buf, self.threshold())
    }

    /// The pieces that `text` is cut into with the separator at `idx`.
    pub open spec fn level_parts(self, text: Seq<char>, idx: nat) -> Seq<Seq<char>> {
        let sep = self.separators[idx as int];
        if sep.len() == 0 {
            char_pieces(text)
        } else {
            pieces_from(text, sep, self.keep_separator, 0)
        }
    }

    /// Handles one piece: a piece of at least `chunk_size` bytes first flushes one merge of
    /// the buffer and is then split with the next separator; a smaller piece joins the
    /// buffer, and one merge is flushed once the buffer holds `chunk_size` bytes or more.
    /// The state is the chunks so far and the buffer.
    pub open spec fn step(
        self,
        st: (Seq<Seq<char>>, Seq<Seq<char>>),
        part: Seq<char>,
        idx: nat,
    ) -> (Seq<Seq<char>>, Seq<Seq<char>>)
        decreases self.separators.len() - idx, 0int, 0int,
    {
        let chunks = st.0;
        let buf = st.1;
        if idx >= self.separators.len() {
            st
        } else if utf8_len(part) >= self.chunk_size {
            let flushed = if buf.len() > 0 {
                (chunks.push(self.merge(buf).0), self.merge(buf).1)
            } else {
                (chunks, buf)
            };
            (flushed.0 + self.rsplit(part, idx + 1), flushed.1)
        } else {
            let b = buf.push(part);
            if total_len(b) >= self.chunk_size {
                (chunks.push(self.merge(b).0), self.merge(b).1)
            } else {
                (chunks, b)
            }
        }
    }

    /// The state after handling the first `n` of `parts`.
    pub open spec fn fold(self, parts: Seq<Seq<char>>, n: nat, idx: nat) -> (
        Seq<Seq<char>>,
        Seq<Seq<char>>,
    )
        decreases self.separators.len() - idx, 0int, n,
    {
        if n == 0 || n > parts.len() {
            (Seq::empty(), Seq::empty())
        } else {
            self.step(self.fold(parts, (n - 1) as nat, idx), parts[n - 1], idx)
        }
    }

    /// The chunks of `text` split with the separators from `idx` on.
    pub open spec fn rsplit(self, text: Seq<char>, idx: nat) -> Seq<Seq<char>>
        decreases self.separators.len() - idx, 1int, 0int,
    {
        if idx >= self.separators.len() {
            seq![text]
        } else {
            let parts = self.level_parts(text, idx);
            let st = self.fold(parts, parts.len(), idx);
            if st.1.len() > 0 {
                st.0.push(self.merge(st.1).0)
            } else {
                st.0
            }
        }
    }

    /// The chunks that `split_text` gives for `text`.
    pub open spec fn split(self, text: Seq<char>) -> Seq<Seq<char>> {
        self.rsplit(text, 0)
    }

    /// Whether handling `part` merges the buffer, at this level or while splitting the part
    /// further.
    pub open spec fn step_merges(
        self,
        st: (Seq<Seq<char>>, Seq<Seq<char>>),
        part: Seq<char>,
        idx: nat,
    ) -> bool
        decreases self.separators.len() - idx, 0int, 0int,
    {
        if idx >= self.separators.len() {
            false
        } else if utf8_len(part) >= self.chunk_size {
            st.1.len() > 0 || self.merges(part, idx + 1)
        } else {
            total_len(st.1.push(part)) >= self.chunk_size
        }
    }

    /// Whether handling the first `n` of `parts` merges the buffer.
    pub open spec fn fold_merges(self, parts: Seq<Seq<char>>, n: nat, idx: nat) -> bool
        decreases self.separators.len() - idx, 0int, n,
    {
        if n == 0 || n > parts.len() {
            false
        } else {
            self.fold_merges(parts, (n - 1) as nat, idx) || self.step_merges(
                self.fold(parts, (n - 1) as nat, idx),
                parts[n - 1],
                idx,
            )
        }
    }

    /// Whether splitting `text` with the separators from `idx` on merges a buffer at all;
    /// merging computes `chunk_size - chunk_overlap`.
    pub open spec fn merges(self, text: Seq<char>, idx: nat) -> bool
        decreases self.separators.len() - idx, 1int, 0int,
    {
        if idx >= self.separators.len() {
            false
        } else {
            let parts = self.level_parts(text, idx);
            self.fold_merges(parts, parts.len(), idx) || self.fold(parts, parts.len(), idx).1.len()
                > 0
        }
    }

    /// The inputs on which splitting does not underflow: either the overlap is at most the
    /// chunk size, or no buffer is ever merged.
    pub open spec fn can_split(self, text: Seq<char>) -> bool {
        self.chunk_overlap <= self.chunk_size || !self.merges(text, 0)
    }
}

/// Once some step has merged, the fold over a longer prefix has merged too.
proof fn lemma_fold_merges_mono(m: SplitterModel, parts: Seq<Seq<char>>, n: nat, k: nat, idx: nat)
    requires
        n <= k <= parts.len(),
        m.fold_merges(parts, n, idx),
    ensures
        m.fold_merges(parts, k, idx),
    decreases k - n,
{
    if n < k {
        lemma_fold_merges_mono(m, parts, n, (k - 1) as nat, idx);
    }
}

impl View for RecursiveCharacterTextSplitter {
    type V = SplitterModel;

    closed spec fn view(&self) -> SplitterModel {
        SplitterModel {
            chunk_size: self.chunk_size as nat,
            chunk_overlap: self.chunk_overlap as nat,
            separators: self.separators@.map_values(|s: String| s@),
            keep_separator: self.keep_separator,
        }
    }
}

/// Views of a sequence of strings.
pub open spec fn string_views(v: Seq<String>) -> Seq<Seq<char>> {
    v.map_values(|s: String| s@)
}

/// The chunks as strings.
fn chunk_strings(chunks: &Vec<Vec<char>>) -> (r: Vec<String>)
    ensures
        string_views(r@) == views(chunks@),
{
    let mut r: Vec<String> = Vec::new();
    let mut i: usize = 0;
    while i < chunks.len()
        invariant
            i <= chunks.len(),
            string_views(r@) =~= views(chunks@).take(i as int),
        decreases chunks.len() - i,
    {
        let s = crate::text::string_from_chars(&chunks[i]);
        let ghost before = string_views(r@);
        r.push(s);
        assert(string_views(r@) =~= before.push(s@));
        assert(views(chunks@).take(i + 1) =~= views(chunks@).take(i as int).push(chunks@[i as int]@));
        i += 1;
    }
    assert(views(chunks@).take(chunks.len() as int) =~= views(chunks@));
    r
}

impl RecursiveCharacterTextSplitter {
    /// Creates a splitter. Without `separators`, the default list is used: `"\n\n"`,
    /// `"\n"`, `" "` and `""`.
    pub fn new(
        chunk_size: usize,
        chunk_overlap: usize,
        separators: Option<Vec<String>>,
        keep_separator: bool,
    ) -> (s: Self)
        ensures
            s@ == (SplitterModel {
                chunk_size: chunk_size as nat,
                chunk_overlap: chunk_overlap as nat,
                separators: match separators {
                    Some(v) => string_views(v@),
                    None => default_separators(),
                },
                keep_separator,
            }),
    {
        let separators = match separators {
            Some(v) => v,
            None => {
                let mut v: Vec<String> = Vec::new();
                v.push("\n\n".to_string());
                v.push("\n".to_string());
                v.push(" ".to_string());
                v.push("".to_string());
                proof {
                    broadcast use vstd::string::to_string_from_display_ensures_for_str;

                    reveal_strlit("\n\n");
                    reveal_strlit("\n");
                    reveal_strlit(" ");
                    reveal_strlit("");
                    assert(string_views(v@) =~~= default_separators());
                }
                v
            },
        };
        let s = RecursiveCharacterTextSplitter {
            chunk_size,
            chunk_overlap,
            separators,
            keep_separator,
        };
        s
    }

    /// Splits `text` into chunks.
    pub fn split_text(&self, text: &str) -> (r: Vec<String>)
        requires
            self@.can_split(text@),
        ensures
            string_views(r@) == self@.split(text@),
    {
        let chars = crate::text::chars_of_str(text);
        match self.recursive_split(&chars, 0) {
            Some(chunks) => chunk_strings(&chunks),
            None => Vec::new(),
        }
    }

    /// Splits `text` into chunks, or gives `None` when splitting it would compute
    /// `chunk_size - chunk_overlap` with an overlap larger than the chunk size.
    pub fn try_split_text(&self, text: &str) -> (r: Option<Vec<String>>)
        ensures
            r is None <==> !self@.can_split(text@),
            r matches Some(chunks) ==> string_views(chunks@) == self@.split(text@),
    {
        let chars = crate::text::chars_of_str(text);
        match self.recursive_split(&chars, 0) {
            Some(chunks) => Some(chunk_strings(&chunks)),
            None => None,
        }
    }

    /// Pops pieces from the front of `buffer` and concatenates them, stopping as soon as the
    /// merged text is at least `chunk_size - chunk_overlap` bytes long. The threshold is
    /// computed only once a piece has been popped.
    fn merge_buffer(&self, buffer: &mut VecDeque<Vec<char>>) -> (merged: Vec<char>)
        requires
            old(buffer)@.len() > 0 ==> self@.chunk_overlap <= self@.chunk_size,
        ensures
            (merged@, views(final(buffer)@)) == self@.merge(views(old(buffer)@)),
            views(old(buffer)@).flatten() == merged@ + views(final(buffer)@).flatten(),
            exists|k: int|
                0 <= k <= old(buffer)@.len() && views(final(buffer)@) == views(
                    old(buffer)@,
                ).subrange(k, old(buffer)@.len() as int),
            old(buffer)@.len() > 0 ==> final(buffer)@.len() < old(buffer)@.len(),
    {
        let ghost start = views(buffer@);
        proof {
            crate::laws::lemma_merge_moves_prefix(Seq::<char>::empty(), start, self@.threshold());
            assert(Seq::<char>::empty() + start.flatten() =~= start.flatten());
        }
        let mut merged: Vec<char> = match buffer.pop_front() {
            Some(first) => first,
            None => {
                assert(views(buffer@) =~= start);
                return Vec::new();
            },
        };
        assert(views(buffer@) =~= start.drop_first());
        assert(Seq::<char>::empty() + start[0] =~= merged@);
        let threshold = self.chunk_size - self.chunk_overlap;
        let mut merged_len: usize = capped_utf8_len(&merged);
        if merged_len >= threshold {
            return merged;
        }
        loop
            invariant
                start == views(old(buffer)@),
                start.flatten() == self@.merge(start).0 + self@.merge(start).1.flatten(),
                threshold == self@.threshold(),
                merged_len == capped(utf8_len(merged@) as int),
                self@.merge(start) == merge_from(merged@, views(buffer@), threshold as int),
                views(buffer@).len() < start.len(),
                views(buffer@) == start.subrange(start.len() - views(buffer@).len(), start.len() as int),
            decreases buffer@.len(),
        {
            let ghost before = views(buffer@);
            match buffer.pop_front() {
                Some(mut chunk) => {
                    assert(views(buffer@) =~= before.drop_first());
                    assert(views(buffer@) =~= start.subrange(
                        start.len() - views(buffer@).len(),
                        start.len() as int,
                    ));
                    let n = capped_utf8_len(&chunk);
                    let ghost old_merged = merged@;
                    merged.append(&mut chunk);
                    proof {
                        crate::text::lemma_encode_concat(old_merged, before[0]);
                    }
                    merged_len = merged_len.saturating_add(n);
                    if merged_len >= threshold {
                        return merged;
                    }
                },
                None => {
                    return merged;
                },
            }
        }
    }

    /// Splits `text` with the separators from `separator_index` on; gives `None` exactly
    /// when a buffer has to be merged while the overlap exceeds the chunk size, the case in
    /// which computing `chunk_size - chunk_overlap` would underflow.
    fn recursive_split(&self, text: &Vec<char>, separator_index: usize) -> (r: Option<
        Vec<Vec<char>>,
    >)
        ensures
            r is None <==> !(self@.chunk_overlap <= self@.chunk_size) && self@.merges(
                text@,
                separator_index as nat,
            ),
            r matches Some(chunks) ==> views(chunks@) == self@.rsplit(
                text@,
                separator_index as nat,
            ),
        decreases self.separators@.len() - separator_index,
    {
        if separator_index >= self.separators.len() {
            let mut r: Vec<Vec<char>> = Vec::new();
            r.push(copy_range(text, 0, text.len()));
            assert(text@.subrange(0, text@.len() as int) =~= text@);
            assert(views(r@) =~= seq![text@]);
            return Some(r);
        }
        let separator = crate::text::chars_of_str(self.separators[separator_index].as_str());
        proof {
            assert(self@.separators[separator_index as int] == separator@);
        }
        let parts = if separator.len() == 0 {
            split_chars(text)
        } else {
            self.split_text_with_separator(text, &separator)
        };
        let ghost pv = views(parts@);
        let ghost idx = separator_index as nat;
        assert(pv == self@.level_parts(text@, idx));
        let fits = self.chunk_overlap <= self.chunk_size;
        let mut chunks: Vec<Vec<char>> = Vec::new();
        let mut buffer: VecDeque<Vec<char>> = VecDeque::new();
        let mut i: usize = 0;
        assert((views(chunks@), views(buffer@)) =~= self@.fold(pv, 0, idx));
        while i < parts.len()
            invariant
                fits == (self@.chunk_overlap <= self@.chunk_size),
                idx == separator_index as nat,
                !fits ==> !self@.fold_merges(pv, i as nat, idx),
                separator_index < self.separators.len(),
                pv == views(parts@),
                pv == self@.level_parts(text@, idx),
                i <= parts.len(),
                (views(chunks@), views(buffer@)) == self@.fold(pv, i as nat, idx),
            decreases parts.len() - i,
        {
            let ghost st = (views(chunks@), views(buffer@));
            let part = &parts[i];
            assert(part@ == pv[i as int]);
            // Lengths are capped at `usize::MAX`; since `chunk_size` is a `usize`, comparing the
            // capped length with it gives the same answer as comparing the true length.
            let part_len = capped_utf8_len(part);
            if part_len >= self.chunk_size {
                assert(utf8_len(part@) >= self@.chunk_size);
                if buffer.len() > 0 {
                    if !fits {
                        proof {
                            assert(self@.step_merges(st, pv[i as int], idx));
                            assert(self@.fold_merges(pv, (i + 1) as nat, idx));
                            lemma_fold_merges_mono(self@, pv, (i + 1) as nat, pv.len(), idx);
                        }
                        return None;
                    }
                    let merged = self.merge_buffer(&mut buffer);
                    chunks.push(merged);
                }
                let ghost flushed = views(chunks@);
                let mut sub = match self.recursive_split(part, separator_index + 1) {
                    Some(sub) => sub,
                    None => {
                        proof {
                            assert(self@.step_merges(st, pv[i as int], idx));
                            assert(self@.fold_merges(pv, (i + 1) as nat, idx));
                            lemma_fold_merges_mono(self@, pv, (i + 1) as nat, pv.len(), idx);
                        }
                        return None;
                    },
                };
                let ghost subv = views(sub@);
                chunks.append(&mut sub);
                assert(views(chunks@) =~= flushed + subv);
                assert((views(chunks@), views(buffer@)) == self@.step(st, pv[i as int], idx));
            } else {
                assert(utf8_len(part@) < self@.chunk_size);
                buffer.push_back(copy_range(part, 0, part.len()));
                assert(part@.subrange(0, part@.len() as int) =~= part@);
                assert(views(buffer@) =~= st.1.push(pv[i as int]));
                let ghost b = views(buffer@);
                let total = buffer_len(&buffer);
                if total >= self.chunk_size {
                    if !fits {
                        proof {
                            assert(self@.step_merges(st, pv[i as int], idx));
                            assert(self@.fold_merges(pv, (i + 1) as nat, idx));
                            lemma_fold_merges_mono(self@, pv, (i + 1) as nat, pv.len(), idx);
                        }
                        return None;
                    }
                    let merged = self.merge_buffer(&mut buffer);
                    chunks.push(merged);
                    assert(views(chunks@) =~= st.0.push(self@.merge(b).0));
                } else {
                    assert(total_len(b) < self@.chunk_size);
                }
                assert((views(chunks@), views(buffer@)) == self@.step(st, pv[i as int], idx));
            }
            assert(!fits ==> !self@.step_merges(st, pv[i as int], idx));
            assert(!fits ==> !self@.fold_merges(pv, (i + 1) as nat, idx));
            i += 1;
        }
        assert(pv.len() == i);
        if buffer.len() > 0 {
            if !fits {
                return None;
            }
            let merged = self.merge_buffer(&mut buffer);
            chunks.push(merged);
        }
        Some(chunks)
    }

    /// Splits `text` around each leftmost non-overlapping occurrence of `separator`,
    /// keeping the separator at the end of its piece when `keep_separator` is set.
    fn split_text_with_separator(&self, text: &Vec<char>, separator: &Vec<char>) -> (r: Vec<
        Vec<char>,
    >)
        requires
            separator.len() > 0,
        ensures
            views(r@) == pieces_from(text@, separator@, self@.keep_separator, 0),
            self@.keep_separator ==> views(r@).flatten() == text@,
            !self@.keep_separator ==> text@ == join_with(views(r@), separator@) + if match_ends_text_from(
                text@,
                separator@,
                0,
            ) {
                separator@
            } else {
                Seq::<char>::empty()
            },
            !self@.keep_separator ==> forall|i: int, j: int|
                0 <= i < r.len() ==> !#[trigger] occurs_at(views(r@)[i], separator@, j),
    {
        let mut results: Vec<Vec<char>> = Vec::new();
        let mut last: usize = 0;
        loop
            invariant
                separator.len() > 0,
                last <= text.len(),
                pieces_from(text@, separator@, self@.keep_separator, 0) == views(results@)
                    + pieces_from(text@, separator@, self@.keep_separator, last as int),
            decreases text.len() - last,
        {
            let ghost old_results = views(results@);
            match find_from(text, separator, last) {
                Some(start) => {
                    proof {
                        lemma_next_match(text@, separator@, last as int);
                    }
                    let end = start + separator.len();
                    let piece = if self.keep_separator {
                        copy_range(text, last, end)
                    } else {
                        copy_range(text, last, start)
                    };
                    results.push(piece);
                    proof {
                        assert(views(results@) =~= old_results.push(piece@));
                        assert(pieces_from(text@, separator@, self@.keep_separator, last as int)
                            == seq![piece@] + pieces_from(
                            text@,
                            separator@,
                            self@.keep_separator,
                            end as int,
                        ));
                        assert(old_results.push(piece@) + pieces_from(
                            text@,
                            separator@,
                            self@.keep_separator,
                            end as int,
                        ) =~= old_results + (seq![piece@] + pieces_from(
                            text@,
                            separator@,
                            self@.keep_separator,
                            end as int,
                        )));
                    }
                    last = end;
                },
                None => {
                    if last < text.len() {
                        let piece = copy_range(text, last, text.len());
                        results.push(piece);
                        assert(views(results@) =~= old_results.push(piece@));
                    }
                    assert(views(results@) =~= old_results + pieces_from(
                        text@,
                        separator@,
                        self@.keep_separator,
                        last as int,
                    ));
                    proof {
                        if self@.keep_separator {
                            crate::laws::lemma_pieces_keep_lossless(text@, separator@);
                        } else {
                            crate::laws::lemma_pieces_drop_join(text@, separator@);
                            crate::laws::lemma_pieces_drop_sep(text@, separator@);
                        }
                    }
                    return results;
                },
            }
        }
    }
}

} // verus!
