use vstd::prelude::*;
use vstd::seq_lib::lemma_flatten_concat;
use crate::splitter::{
    SplitterModel, char_pieces, join_with, match_ends_text_from, merge_from, pieces_from,
    total_len,
};
use crate::text::{lemma_next_match, next_match, occurs_at};
use crate::text::{lemma_encode_concat, utf8_len};

verus! {

/// Flattening a sequence that starts with `a`.
proof fn lemma_flatten_cons(a: Seq<char>, rest: Seq<Seq<char>>)
    ensures
        (seq![a] + rest).flatten() == a + rest.flatten(),
{
    let s = seq![a] + rest;
    assert(s.first() == a);
    assert(s.drop_first() =~= rest);
}

/// The sum of the byte lengths of pieces is the byte length of their concatenation.
pub proof fn lemma_total_len_flatten(items: Seq<Seq<char>>)
    ensures
        total_len(items) == utf8_len(items.flatten()),
    decreases items.len(),
{
    if items.len() > 0 {
        lemma_total_len_flatten(items.drop_last());
        assert(items =~= items.drop_last().push(items.last()));
        items.drop_last().lemma_flatten_push(items.last());
        lemma_encode_concat(items.drop_last().flatten(), items.last());
    }
}

/// Cutting a text into single characters loses nothing.
pub proof fn lemma_char_pieces_flatten(text: Seq<char>)
    ensures
        char_pieces(text).flatten() == text,
    decreases text.len(),
{
    if text.len() > 0 {
        let d = text.drop_last();
        lemma_char_pieces_flatten(d);
        assert(char_pieces(text) =~= char_pieces(d).push(seq![text.last()]));
        char_pieces(d).lemma_flatten_push(seq![text.last()]);
        assert(d + seq![text.last()] =~= text);
    }
}

/// With the separator kept, the pieces from position `last` on are exactly the rest of the
/// text.
proof fn lemma_pieces_keep_flatten_from(text: Seq<char>, sep: Seq<char>, last: int)
    requires
        sep.len() > 0,
        0 <= last <= text.len(),
    ensures
        pieces_from(text, sep, true, last).flatten() == text.subrange(last, text.len() as int),
    decreases text.len() - last,
{
    lemma_next_match(text, sep, last);
    match next_match(text, sep, last) {
        Some(start) => {
            let end = start + sep.len();
            lemma_pieces_keep_flatten_from(text, sep, end);
            lemma_flatten_cons(text.subrange(last, end), pieces_from(text, sep, true, end));
            assert(text.subrange(last, end) + text.subrange(end, text.len() as int)
                =~= text.subrange(last, text.len() as int));
        },
        None => {
            if last < text.len() {
                lemma_flatten_cons(text.subrange(last, text.len() as int), Seq::empty());
                assert(text.subrange(last, text.len() as int) + Seq::<Seq<char>>::empty().flatten()
                    =~= text.subrange(last, text.len() as int));
            } else {
                assert(text.subrange(last, text.len() as int) =~= Seq::<char>::empty());
            }
        },
    }
}

/// When the separator is kept, splitting around it loses nothing: the pieces concatenate
/// back to the text.
pub proof fn lemma_pieces_keep_lossless(text: Seq<char>, sep: Seq<char>)
    requires
        sep.len() > 0,
    ensures
        pieces_from(text, sep, true, 0).flatten() == text,
{
    lemma_pieces_keep_flatten_from(text, sep, 0);
    assert(text.subrange(0, text.len() as int) =~= text);
}

/// A piece cut from position `last` contains no occurrence of the separator.
proof fn lemma_pieces_drop_sep_from(text: Seq<char>, sep: Seq<char>, last: int)
    requires
        sep.len() > 0,
        0 <= last <= text.len(),
    ensures
        forall|i: int, j: int|
            0 <= i < pieces_from(text, sep, false, last).len() ==> !#[trigger] occurs_at(
                pieces_from(text, sep, false, last)[i],
                sep,
                j,
            ),
    decreases text.len() - last,
{
    lemma_next_match(text, sep, last);
    let ps = pieces_from(text, sep, false, last);
    match next_match(text, sep, last) {
        Some(start) => {
            let end = start + sep.len();
            lemma_pieces_drop_sep_from(text, sep, end);
            let piece = text.subrange(last, start);
            assert forall|j: int| !occurs_at(piece, sep, j) by {
                if occurs_at(piece, sep, j) {
                    assert(text.subrange(last + j, last + j + sep.len()) =~= piece.subrange(
                        j,
                        j + sep.len(),
                    ));
                    assert(occurs_at(text, sep, last + j));
                }
            }
            assert forall|i: int, j: int| 0 <= i < ps.len() implies !#[trigger] occurs_at(
                ps[i],
                sep,
                j,
            ) by {
                if i > 0 {
                    assert(ps[i] == pieces_from(text, sep, false, end)[i - 1]);
                }
            }
        },
        None => {
            if last < text.len() {
                let piece = text.subrange(last, text.len() as int);
                assert forall|j: int| !occurs_at(piece, sep, j) by {
                    if occurs_at(piece, sep, j) {
                        assert(text.subrange(last + j, last + j + sep.len()) =~= piece.subrange(
                            j,
                            j + sep.len(),
                        ));
                        assert(occurs_at(text, sep, last + j));
                    }
                }
            }
        },
    }
}

/// When the separator is dropped, no piece contains an occurrence of it.
pub proof fn lemma_pieces_drop_sep(text: Seq<char>, sep: Seq<char>)
    requires
        sep.len() > 0,
    ensures
        forall|i: int, j: int|
            0 <= i < pieces_from(text, sep, false, 0).len() ==> !#[trigger] occurs_at(
                pieces_from(text, sep, false, 0)[i],
                sep,
                j,
            ),
{
    lemma_pieces_drop_sep_from(text, sep, 0);
}

/// Merging moves a prefix of the buffer onto the merged text: nothing is lost or
/// reordered, and what is left is a suffix of the buffer.
pub proof fn lemma_merge_moves_prefix(acc: Seq<char>, buf: Seq<Seq<char>>, threshold: int)
    ensures
        acc + buf.flatten() == merge_from(acc, buf, threshold).0 + merge_from(
            acc,
            buf,
            threshold,
        ).1.flatten(),
        exists|k: int|
            0 <= k <= buf.len() && merge_from(acc, buf, threshold).1 == buf.subrange(
                k,
                buf.len() as int,
            ),
        buf.len() > 0 ==> merge_from(acc, buf, threshold).1.len() < buf.len(),
    decreases buf.len(),
{
    if buf.len() == 0 {
        assert(buf.subrange(0, 0) =~= buf);
    } else {
        let m = acc + buf[0];
        lemma_flatten_cons(buf[0], buf.drop_first());
        assert(seq![buf[0]] + buf.drop_first() =~= buf);
        assert(acc + buf.flatten() =~= m + buf.drop_first().flatten());
        if utf8_len(m) >= threshold {
            assert(buf.drop_first() =~= buf.subrange(1, buf.len() as int));
        } else {
            lemma_merge_moves_prefix(m, buf.drop_first(), threshold);
            let k = choose|k: int|
                0 <= k <= buf.drop_first().len() && merge_from(m, buf.drop_first(), threshold).1
                    == buf.drop_first().subrange(k, buf.drop_first().len() as int);
            assert(buf.drop_first().subrange(k, buf.drop_first().len() as int) =~= buf.subrange(
                k + 1,
                buf.len() as int,
            ));
        }
    }
}

/// Merging a buffer whose strict prefixes all stay below the threshold takes the whole
/// buffer.
proof fn lemma_merge_all(acc: Seq<char>, buf: Seq<Seq<char>>, t: int)
    requires
        buf.len() > 0 ==> utf8_len(acc + buf.drop_last().flatten()) < t,
    ensures
        merge_from(acc, buf, t) == (acc + buf.flatten(), Seq::<Seq<char>>::empty()),
    decreases buf.len(),
{
    if buf.len() == 0 {
        assert(acc + buf.flatten() =~= acc);
        assert(buf =~= Seq::<Seq<char>>::empty());
    } else {
        let m = acc + buf[0];
        let rest = buf.drop_first();
        lemma_flatten_cons(buf[0], rest);
        assert(seq![buf[0]] + rest =~= buf);
        assert(acc + buf.flatten() =~= m + rest.flatten());
        if rest.len() == 0 {
            assert(rest =~= Seq::<Seq<char>>::empty());
            assert(m + rest.flatten() =~= m);
            if utf8_len(m) >= t {
                assert(merge_from(acc, buf, t) == (m, rest));
            } else {
                assert(merge_from(acc, buf, t) == merge_from(m, rest, t));
                assert(merge_from(m, rest, t) == (m, rest));
            }
        } else {
            // the strict prefix of `rest` continues the strict prefix of `buf`
            lemma_flatten_cons(buf[0], rest.drop_last());
            assert(seq![buf[0]] + rest.drop_last() =~= buf.drop_last());
            assert(m + rest.drop_last().flatten() =~= acc + buf.drop_last().flatten());
            lemma_encode_concat(m, rest.drop_last().flatten());
            assert(utf8_len(m) < t);
            assert(merge_from(acc, buf, t) == merge_from(m, rest, t));
            lemma_merge_all(m, rest, t);
        }
    }
}

/// The byte length of a buffer without its last piece is at most that of the buffer.
proof fn lemma_total_len_drop_last(items: Seq<Seq<char>>)
    requires
        items.len() > 0,
    ensures
        total_len(items.drop_last()) <= total_len(items),
        utf8_len(items.drop_last().flatten()) == total_len(items.drop_last()),
{
    lemma_total_len_flatten(items.drop_last());
}

/// Flattening the first `n + 1` pieces.
proof fn lemma_flatten_take_succ(parts: Seq<Seq<char>>, n: int)
    requires
        0 <= n < parts.len(),
    ensures
        parts.take(n + 1).flatten() == parts.take(n).flatten() + parts[n],
{
    assert(parts.take(n + 1) =~= parts.take(n).push(parts[n]));
    parts.take(n).lemma_flatten_push(parts[n]);
}

/// With no overlap and the separators kept, the chunks emitted while folding over the
/// first `n` pieces, followed by the buffer, are those pieces; the buffer stays below the
/// chunk size.
proof fn lemma_fold_lossless(m: SplitterModel, parts: Seq<Seq<char>>, n: nat, idx: nat)
    requires
        m.chunk_overlap == 0,
        m.keep_separator,
        idx < m.separators.len(),
        n <= parts.len(),
    ensures
        m.fold(parts, n, idx).0.flatten() + m.fold(parts, n, idx).1.flatten() == parts.take(
            n as int,
        ).flatten(),
        m.fold(parts, n, idx).1.len() == 0 || total_len(m.fold(parts, n, idx).1) < m.chunk_size,
    decreases m.separators.len() - idx, 0int, n,
{
    if n == 0 {
        assert(parts.take(0) =~= Seq::<Seq<char>>::empty());
        assert(Seq::<Seq<char>>::empty().flatten() + Seq::<Seq<char>>::empty().flatten()
            =~= Seq::<char>::empty());
    } else {
        let k = (n - 1) as nat;
        lemma_fold_lossless(m, parts, k, idx);
        let st = m.fold(parts, k, idx);
        let part = parts[k as int];
        assert(m.fold(parts, n, idx) == m.step(st, part, idx));
        lemma_flatten_take_succ(parts, k as int);
        let t = m.threshold();
        assert(t == m.chunk_size);
        if utf8_len(part) >= m.chunk_size {
            let flushed = if st.1.len() > 0 {
                lemma_total_len_drop_last(st.1);
                assert(Seq::<char>::empty() + st.1.drop_last().flatten()
                    =~= st.1.drop_last().flatten());
                lemma_merge_all(Seq::<char>::empty(), st.1, t);
                assert(Seq::<char>::empty() + st.1.flatten() =~= st.1.flatten());
                st.0.lemma_flatten_push(st.1.flatten());
                (st.0.push(m.merge(st.1).0), m.merge(st.1).1)
            } else {
                assert(st.1.flatten() =~= Seq::<char>::empty());
                assert(st.0.flatten() + st.1.flatten() =~= st.0.flatten());
                (st.0, st.1)
            };
            assert(flushed.1 =~= Seq::<Seq<char>>::empty());
            lemma_rsplit_lossless(m, part, idx + 1);
            lemma_flatten_concat(flushed.0, m.rsplit(part, idx + 1));
            let res = m.fold(parts, n, idx);
            assert(res == (flushed.0 + m.rsplit(part, idx + 1), flushed.1));
            assert(res.1.flatten() =~= Seq::<char>::empty());
            assert(res.0.flatten() + res.1.flatten() =~= parts.take(n as int).flatten());
        } else {
            let b = st.1.push(part);
            st.1.lemma_flatten_push(part);
            assert(b.drop_last() =~= st.1);
            lemma_total_len_flatten(st.1);
            if total_len(b) >= m.chunk_size {
                assert(Seq::<char>::empty() + b.drop_last().flatten() =~= st.1.flatten());
                lemma_merge_all(Seq::<char>::empty(), b, t);
                assert(Seq::<char>::empty() + b.flatten() =~= b.flatten());
                st.0.lemma_flatten_push(b.flatten());
                let res = m.fold(parts, n, idx);
                assert(res.1.flatten() =~= Seq::<char>::empty());
                assert(res.0.flatten() + res.1.flatten() =~= parts.take(n as int).flatten());
            } else {
                assert(st.0.flatten() + b.flatten() =~= parts.take(n as int).flatten());
            }
        }
    }
}

/// With no overlap and the separators kept, the chunks of a text at any separator level
/// concatenate back to the text.
proof fn lemma_rsplit_lossless(m: SplitterModel, text: Seq<char>, idx: nat)
    requires
        m.chunk_overlap == 0,
        m.keep_separator,
    ensures
        m.rsplit(text, idx).flatten() == text,
    decreases m.separators.len() - idx, 1int, 0int,
{
    if idx >= m.separators.len() {
        lemma_flatten_cons(text, Seq::empty());
        assert(seq![text] + Seq::<Seq<char>>::empty() =~= seq![text]);
        assert(text + Seq::<Seq<char>>::empty().flatten() =~= text);
    } else {
        let parts = m.level_parts(text, idx);
        let sep = m.separators[idx as int];
        if sep.len() == 0 {
            lemma_char_pieces_flatten(text);
        } else {
            lemma_pieces_keep_lossless(text, sep);
        }
        lemma_fold_lossless(m, parts, parts.len(), idx);
        assert(parts.take(parts.len() as int) =~= parts);
        let st = m.fold(parts, parts.len(), idx);
        if st.1.len() > 0 {
            lemma_total_len_drop_last(st.1);
            assert(Seq::<char>::empty() + st.1.drop_last().flatten() =~= st.1.drop_last().flatten());
            lemma_merge_all(Seq::<char>::empty(), st.1, m.threshold());
            assert(Seq::<char>::empty() + st.1.flatten() =~= st.1.flatten());
            st.0.lemma_flatten_push(st.1.flatten());
        } else {
            assert(st.1.flatten() =~= Seq::<char>::empty());
            assert(st.0.flatten() + st.1.flatten() =~= st.0.flatten());
        }
    }
}

/// The text of the first `n` of `parts` in order, where a part of at least `chunk_size`
/// bytes stands for its own ordered text at the next separator level. It speaks of no
/// buffer and no merge: only of the pieces each level cuts and which of them are large.
pub open spec fn ordered_from(m: SplitterModel, parts: Seq<Seq<char>>, n: nat, idx: nat) -> Seq<
    char,
>
    decreases m.separators.len() - idx, 0int, n,
{
    if n == 0 || n > parts.len() {
        Seq::empty()
    } else {
        ordered_from(m, parts, (n - 1) as nat, idx) + if idx < m.separators.len() && utf8_len(
            parts[n - 1],
        ) >= m.chunk_size {
            ordered_text(m, parts[n - 1], idx + 1)
        } else {
            parts[n - 1]
        }
    }
}

/// `text` as its pieces at level `idx` give it, in order: with kept separators the text
/// itself, with dropped ones the text without them.
pub open spec fn ordered_text(m: SplitterModel, text: Seq<char>, idx: nat) -> Seq<char>
    decreases m.separators.len() - idx, 1int, 0int,
{
    if idx >= m.separators.len() {
        text
    } else {
        let parts = m.level_parts(text, idx);
        ordered_from(m, parts, parts.len(), idx)
    }
}

proof fn lemma_fold_ordered(m: SplitterModel, parts: Seq<Seq<char>>, n: nat, idx: nat)
    requires
        m.chunk_overlap == 0,
        idx < m.separators.len(),
        n <= parts.len(),
    ensures
        m.fold(parts, n, idx).0.flatten() + m.fold(parts, n, idx).1.flatten() == ordered_from(
            m,
            parts,
            n,
            idx,
        ),
        m.fold(parts, n, idx).1.len() == 0 || total_len(m.fold(parts, n, idx).1) < m.chunk_size,
    decreases m.separators.len() - idx, 0int, n,
{
    if n == 0 {
        assert(parts.take(0) =~= Seq::<Seq<char>>::empty());
        assert(Seq::<Seq<char>>::empty().flatten() + Seq::<Seq<char>>::empty().flatten()
            =~= Seq::<char>::empty());
    } else {
        let k = (n - 1) as nat;
        lemma_fold_ordered(m, parts, k, idx);
        let st = m.fold(parts, k, idx);
        let part = parts[k as int];
        assert(m.fold(parts, n, idx) == m.step(st, part, idx));
        let t = m.threshold();
        assert(t == m.chunk_size);
        if utf8_len(part) >= m.chunk_size {
            let flushed = if st.1.len() > 0 {
                lemma_total_len_drop_last(st.1);
                assert(Seq::<char>::empty() + st.1.drop_last().flatten()
                    =~= st.1.drop_last().flatten());
                lemma_merge_all(Seq::<char>::empty(), st.1, t);
                assert(Seq::<char>::empty() + st.1.flatten() =~= st.1.flatten());
                st.0.lemma_flatten_push(st.1.flatten());
                (st.0.push(m.merge(st.1).0), m.merge(st.1).1)
            } else {
                assert(st.1.flatten() =~= Seq::<char>::empty());
                assert(st.0.flatten() + st.1.flatten() =~= st.0.flatten());
                (st.0, st.1)
            };
            assert(flushed.1 =~= Seq::<Seq<char>>::empty());
            lemma_rsplit_ordered(m, part, idx + 1);
            lemma_flatten_concat(flushed.0, m.rsplit(part, idx + 1));
            let res = m.fold(parts, n, idx);
            assert(res == (flushed.0 + m.rsplit(part, idx + 1), flushed.1));
            assert(res.1.flatten() =~= Seq::<char>::empty());
            assert(res.0.flatten() + res.1.flatten() =~= ordered_from(m, parts, n, idx));
        } else {
            let b = st.1.push(part);
            st.1.lemma_flatten_push(part);
            assert(b.drop_last() =~= st.1);
            lemma_total_len_flatten(st.1);
            if total_len(b) >= m.chunk_size {
                assert(Seq::<char>::empty() + b.drop_last().flatten() =~= st.1.flatten());
                lemma_merge_all(Seq::<char>::empty(), b, t);
                assert(Seq::<char>::empty() + b.flatten() =~= b.flatten());
                st.0.lemma_flatten_push(b.flatten());
                let res = m.fold(parts, n, idx);
                assert(res.1.flatten() =~= Seq::<char>::empty());
                assert(res.0.flatten() + res.1.flatten() =~= ordered_from(m, parts, n, idx));
            } else {
                assert(st.0.flatten() + b.flatten() =~= ordered_from(m, parts, n, idx));
            }
        }
    }
}

/// With no overlap, the chunks of a text at any separator level concatenate to its text in
/// order.
proof fn lemma_rsplit_ordered(m: SplitterModel, text: Seq<char>, idx: nat)
    requires
        m.chunk_overlap == 0,
    ensures
        m.rsplit(text, idx).flatten() == ordered_text(m, text, idx),
    decreases m.separators.len() - idx, 1int, 0int,
{
    if idx >= m.separators.len() {
        lemma_flatten_cons(text, Seq::empty());
        assert(seq![text] + Seq::<Seq<char>>::empty() =~= seq![text]);
        assert(text + Seq::<Seq<char>>::empty().flatten() =~= text);
    } else {
        let parts = m.level_parts(text, idx);
        lemma_fold_ordered(m, parts, parts.len(), idx);
        let st = m.fold(parts, parts.len(), idx);
        if st.1.len() > 0 {
            lemma_total_len_drop_last(st.1);
            assert(Seq::<char>::empty() + st.1.drop_last().flatten() =~= st.1.drop_last().flatten());
            lemma_merge_all(Seq::<char>::empty(), st.1, m.threshold());
            assert(Seq::<char>::empty() + st.1.flatten() =~= st.1.flatten());
            st.0.lemma_flatten_push(st.1.flatten());
        } else {
            assert(st.1.flatten() =~= Seq::<char>::empty());
            assert(st.0.flatten() + st.1.flatten() =~= st.0.flatten());
        }
    }
}

/// With no chunk overlap, chunks come out in text order whatever `keep_separator` is: they
/// concatenate to the pieces of each level in order (the text itself with kept separators,
/// the text without its separators otherwise), so a piece buffered before a part of at least
/// `chunk_size` bytes comes out before that part's chunks.
pub proof fn lemma_split_in_order(m: SplitterModel, text: Seq<char>)
    requires
        m.chunk_overlap == 0,
    ensures
        m.split(text).flatten() == ordered_text(m, text, 0),
{
    lemma_rsplit_ordered(m, text, 0);
}

/// With no chunk overlap and the separators kept, splitting loses nothing: the chunks
/// concatenate back to the text, in order.
pub proof fn lemma_split_lossless(m: SplitterModel, text: Seq<char>)
    requires
        m.chunk_overlap == 0,
        m.keep_separator,
    ensures
        m.split(text).flatten() == text,
{
    lemma_rsplit_lossless(m, text, 0);
}

/// A chunk is short: a single character, or fewer bytes than the merge threshold plus the
/// chunk size.
pub open spec fn short_chunk(m: SplitterModel, c: Seq<char>) -> bool {
    c.len() == 1 || utf8_len(c) < m.threshold() + m.chunk_size
}

/// Merging pieces that are each shorter than `cs` bytes gives fewer than `t + cs` bytes and
/// leaves pieces shorter than `cs` bytes.
proof fn lemma_merge_bound(acc: Seq<char>, buf: Seq<Seq<char>>, t: int, cs: int)
    requires
        t >= 0,
        cs >= 0,
        (acc.len() == 0 && buf.len() > 0) || utf8_len(acc) < t,
        forall|i: int| 0 <= i < buf.len() ==> utf8_len(#[trigger] buf[i]) < cs,
    ensures
        utf8_len(merge_from(acc, buf, t).0) < t + cs,
        forall|i: int|
            0 <= i < merge_from(acc, buf, t).1.len() ==> utf8_len(
                #[trigger] merge_from(acc, buf, t).1[i],
            ) < cs,
    decreases buf.len(),
{
    if buf.len() > 0 {
        let m = acc + buf[0];
        let rest = buf.drop_first();
        lemma_encode_concat(acc, buf[0]);
        if acc.len() == 0 {
            assert(utf8_len(acc) == 0);
        }
        assert forall|i: int| 0 <= i < rest.len() implies utf8_len(#[trigger] rest[i]) < cs by {
            assert(rest[i] == buf[i + 1]);
        }
        if utf8_len(m) < t {
            assert(merge_from(acc, buf, t) == merge_from(m, rest, t));
            lemma_merge_bound(m, rest, t, cs);
        } else {
            assert(merge_from(acc, buf, t) == (m, rest));
        }
    }
}

/// While folding at a level, every emitted chunk is short and every buffered piece is
/// shorter than the chunk size, provided the last separator is the empty one.
proof fn lemma_fold_bound(m: SplitterModel, parts: Seq<Seq<char>>, n: nat, idx: nat)
    requires
        m.chunk_overlap <= m.chunk_size,
        m.separators.len() > 0,
        m.separators.last().len() == 0,
        idx < m.separators.len(),
        n <= parts.len(),
        idx + 1 == m.separators.len() ==> forall|i: int|
            0 <= i < parts.len() ==> (#[trigger] parts[i]).len() == 1,
    ensures
        forall|i: int|
            0 <= i < m.fold(parts, n, idx).0.len() ==> short_chunk(
                m,
                #[trigger] m.fold(parts, n, idx).0[i],
            ),
        forall|i: int|
            0 <= i < m.fold(parts, n, idx).1.len() ==> utf8_len(#[trigger] m.fold(parts, n, idx).1[i])
                < m.chunk_size,
    decreases m.separators.len() - idx, 0int, n,
{
    if n > 0 {
        let k = (n - 1) as nat;
        lemma_fold_bound(m, parts, k, idx);
        let st = m.fold(parts, k, idx);
        let part = parts[k as int];
        let t = m.threshold();
        let cs = m.chunk_size as int;
        assert(m.fold(parts, n, idx) == m.step(st, part, idx));
        if utf8_len(part) >= m.chunk_size {
            if st.1.len() > 0 {
                lemma_merge_bound(Seq::<char>::empty(), st.1, t, cs);
            }
            let flushed = if st.1.len() > 0 {
                (st.0.push(m.merge(st.1).0), m.merge(st.1).1)
            } else {
                (st.0, st.1)
            };
            let sub = m.rsplit(part, idx + 1);
            if idx + 1 < m.separators.len() {
                lemma_rsplit_bound(m, part, idx + 1);
            } else {
                assert(sub == seq![part]);
                assert(part.len() == 1);
            }
            let res = m.fold(parts, n, idx);
            assert(res == (flushed.0 + sub, flushed.1));
            assert forall|i: int| 0 <= i < res.0.len() implies short_chunk(m, #[trigger] res.0[i]) by {
                if i < flushed.0.len() {
                    assert(res.0[i] == flushed.0[i]);
                } else {
                    assert(res.0[i] == sub[i - flushed.0.len()]);
                }
            }
        } else {
            let b = st.1.push(part);
            assert forall|i: int| 0 <= i < b.len() implies utf8_len(#[trigger] b[i]) < cs by {
                if i < st.1.len() {
                    assert(b[i] == st.1[i]);
                }
            }
            if total_len(b) >= m.chunk_size {
                lemma_merge_bound(Seq::<char>::empty(), b, t, cs);
            }
        }
    }
}

/// At a separator level before the end, every chunk is short, provided the last separator is
/// the empty one.
proof fn lemma_rsplit_bound(m: SplitterModel, text: Seq<char>, idx: nat)
    requires
        m.chunk_overlap <= m.chunk_size,
        m.separators.len() > 0,
        m.separators.last().len() == 0,
        idx < m.separators.len(),
    ensures
        forall|i: int|
            0 <= i < m.rsplit(text, idx).len() ==> short_chunk(m, #[trigger] m.rsplit(text, idx)[i]),
    decreases m.separators.len() - idx, 1int, 0int,
{
    let parts = m.level_parts(text, idx);
    if idx + 1 == m.separators.len() {
        assert(m.separators[idx as int] == m.separators.last());
        assert forall|i: int| 0 <= i < parts.len() implies (#[trigger] parts[i]).len() == 1 by {
            assert(parts[i] == seq![text[i]]);
        }
    }
    lemma_fold_bound(m, parts, parts.len(), idx);
    let st = m.fold(parts, parts.len(), idx);
    if st.1.len() > 0 {
        lemma_merge_bound(Seq::<char>::empty(), st.1, m.threshold(), m.chunk_size as int);
        let r = m.rsplit(text, idx);
        assert(r == st.0.push(m.merge(st.1).0));
        assert forall|i: int| 0 <= i < r.len() implies short_chunk(m, #[trigger] r[i]) by {
            if i < st.0.len() {
                assert(r[i] == st.0[i]);
            }
        }
    }
}

/// When the last separator is the empty one (as in the default list), every chunk is either
/// a single character or shorter than `2 * chunk_size - chunk_overlap` bytes.
pub proof fn lemma_split_bounded(m: SplitterModel, text: Seq<char>)
    requires
        m.chunk_overlap <= m.chunk_size,
        m.separators.len() > 0,
        m.separators.last().len() == 0,
    ensures
        forall|i: int|
            0 <= i < m.split(text).len() ==> (#[trigger] m.split(text)[i]).len() == 1 || utf8_len(
                m.split(text)[i],
            ) < 2 * m.chunk_size - m.chunk_overlap,
{
    lemma_rsplit_bound(m, text, 0);
    assert forall|i: int| 0 <= i < m.split(text).len() implies (#[trigger] m.split(text)[i]).len()
        == 1 || utf8_len(m.split(text)[i]) < 2 * m.chunk_size - m.chunk_overlap by {
        assert(short_chunk(m, m.split(text)[i]));
    }
}

/// The pieces of a prefix weigh no more than all pieces, and each piece weighs no more than
/// the prefix that ends with it.
proof fn lemma_total_len_take(items: Seq<Seq<char>>, n: int)
    requires
        0 < n <= items.len(),
    ensures
        total_len(items.take(n)) <= total_len(items),
        utf8_len(items[n - 1]) <= total_len(items.take(n)),
{
    assert(items =~= items.take(n) + items.skip(n));
    lemma_flatten_concat(items.take(n), items.skip(n));
    lemma_encode_concat(items.take(n).flatten(), items.skip(n).flatten());
    lemma_total_len_flatten(items);
    lemma_total_len_flatten(items.take(n));
    assert(items.take(n).drop_last() =~= items.take(n - 1));
}

/// When all pieces together are shorter than the chunk size, folding only buffers them.
proof fn lemma_fold_small(m: SplitterModel, parts: Seq<Seq<char>>, n: nat, idx: nat)
    requires
        idx < m.separators.len(),
        total_len(parts) < m.chunk_size,
        n <= parts.len(),
    ensures
        m.fold(parts, n, idx) == (Seq::<Seq<char>>::empty(), parts.take(n as int)),
    decreases n,
{
    if n == 0 {
        assert(parts.take(0) =~= Seq::<Seq<char>>::empty());
    } else {
        let k = (n - 1) as nat;
        lemma_fold_small(m, parts, k, idx);
        lemma_total_len_take(parts, n as int);
        assert(parts.take(n as int) =~= parts.take(k as int).push(parts[k as int]));
        assert(m.fold(parts, n, idx) == m.step(m.fold(parts, k, idx), parts[k as int], idx));
    }
}

/// A non-empty text shorter than `chunk_size - chunk_overlap` bytes comes back as a single
/// chunk when the separators are kept.
pub proof fn lemma_split_small_text(m: SplitterModel, text: Seq<char>)
    requires
        m.keep_separator,
        m.separators.len() > 0,
        text.len() > 0,
        utf8_len(text) < m.chunk_size - m.chunk_overlap,
    ensures
        m.split(text) == seq![text],
{
    let parts = m.level_parts(text, 0);
    let sep = m.separators[0];
    if sep.len() == 0 {
        lemma_char_pieces_flatten(text);
    } else {
        lemma_pieces_keep_lossless(text, sep);
    }
    lemma_total_len_flatten(parts);
    lemma_fold_small(m, parts, parts.len(), 0);
    assert(parts.take(parts.len() as int) =~= parts);
    if parts.len() == 0 {
        assert(parts.flatten() =~= Seq::<char>::empty());
    }
    lemma_total_len_drop_last(parts);
    assert(Seq::<char>::empty() + parts.drop_last().flatten() =~= parts.drop_last().flatten());
    lemma_merge_all(Seq::<char>::empty(), parts, m.threshold());
    assert(Seq::<char>::empty() + parts.flatten() =~= text);
    assert(Seq::<Seq<char>>::empty().push(text) =~= seq![text]);
}

/// An empty text gives no chunks (with at least one separator).
pub proof fn lemma_split_empty(m: SplitterModel)
    requires
        m.separators.len() > 0,
    ensures
        m.split(Seq::<char>::empty()) == Seq::<Seq<char>>::empty(),
{
    let text = Seq::<char>::empty();
    let parts = m.level_parts(text, 0);
    assert(parts =~= Seq::<Seq<char>>::empty());
}

/// From a position inside the text, there is at least one piece.
proof fn lemma_pieces_nonempty(text: Seq<char>, sep: Seq<char>, keep: bool, last: int)
    requires
        sep.len() > 0,
        0 <= last < text.len(),
    ensures
        pieces_from(text, sep, keep, last).len() > 0,
{
}

/// From position `last` on, the pieces cut around the separator, joined with it, give back
/// the rest of the text, short of a separator that ends the text.
proof fn lemma_pieces_drop_join_from(text: Seq<char>, sep: Seq<char>, last: int)
    requires
        sep.len() > 0,
        0 <= last <= text.len(),
    ensures
        text.subrange(last, text.len() as int) == join_with(pieces_from(text, sep, false, last), sep)
            + if match_ends_text_from(text, sep, last) {
            sep
        } else {
            Seq::<char>::empty()
        },
    decreases text.len() - last,
{
    lemma_next_match(text, sep, last);
    let ps = pieces_from(text, sep, false, last);
    match next_match(text, sep, last) {
        Some(start) => {
            let e = start + sep.len();
            let p = text.subrange(last, start);
            assert(text.subrange(start, e) == sep);
            if e == text.len() {
                assert(pieces_from(text, sep, false, e) =~= Seq::<Seq<char>>::empty());
                assert(ps =~= seq![p]);
                assert(text.subrange(last, text.len() as int) =~= p + sep);
            } else {
                lemma_pieces_nonempty(text, sep, false, e);
                lemma_pieces_drop_join_from(text, sep, e);
                let rest = pieces_from(text, sep, false, e);
                assert(ps == seq![p] + rest);
                assert(ps.drop_first() =~= rest);
                assert(join_with(ps, sep) == p + sep + join_with(rest, sep));
                let tail = if match_ends_text_from(text, sep, e) {
                    sep
                } else {
                    Seq::<char>::empty()
                };
                assert(text.subrange(last, text.len() as int) =~= p + sep + text.subrange(
                    e,
                    text.len() as int,
                ));
                assert(p + sep + (join_with(rest, sep) + tail) =~= p + sep + join_with(rest, sep)
                    + tail);
            }
        },
        None => {
            if last < text.len() {
                assert(ps =~= seq![text.subrange(last, text.len() as int)]);
                assert(text.subrange(last, text.len() as int) + Seq::<char>::empty()
                    =~= text.subrange(last, text.len() as int));
            } else {
                assert(text.subrange(last, text.len() as int) =~= Seq::<char>::empty());
                assert(ps =~= Seq::<Seq<char>>::empty());
                assert(Seq::<char>::empty() + Seq::<char>::empty() =~= Seq::<char>::empty());
            }
        },
    }
}

/// When the separator is dropped, the pieces joined with the separator give back the text,
/// short of one separator exactly when the last occurrence of the separator ends the text.
pub proof fn lemma_pieces_drop_join(text: Seq<char>, sep: Seq<char>)
    requires
        sep.len() > 0,
    ensures
        text == join_with(pieces_from(text, sep, false, 0), sep) + if match_ends_text_from(
            text,
            sep,
            0,
        ) {
            sep
        } else {
            Seq::<char>::empty()
        },
{
    lemma_pieces_drop_join_from(text, sep, 0);
    assert(text.subrange(0, text.len() as int) =~= text);
}

/// The byte length of a concatenation of two lists of pieces.
proof fn lemma_total_len_concat(a: Seq<Seq<char>>, b: Seq<Seq<char>>)
    ensures
        total_len(a + b) == total_len(a) + total_len(b),
{
    lemma_flatten_concat(a, b);
    lemma_encode_concat(a.flatten(), b.flatten());
    lemma_total_len_flatten(a);
    lemma_total_len_flatten(b);
    lemma_total_len_flatten(a + b);
}

/// Joining with a separator is at least as long as concatenating.
proof fn lemma_join_total_len(pieces: Seq<Seq<char>>, sep: Seq<char>)
    ensures
        total_len(pieces) <= utf8_len(join_with(pieces, sep)),
    decreases pieces.len(),
{
    lemma_total_len_flatten(pieces);
    if pieces.len() == 1 {
        pieces.lemma_flatten_one_element();
    } else if pieces.len() > 1 {
        let rest = pieces.drop_first();
        lemma_join_total_len(rest, sep);
        lemma_total_len_flatten(rest);
        lemma_encode_concat(pieces[0], rest.flatten());
        lemma_encode_concat(pieces[0], sep);
        lemma_encode_concat(pieces[0] + sep, join_with(rest, sep));
    }
}

/// The pieces of a level weigh no more than the text.
proof fn lemma_level_parts_total(m: SplitterModel, text: Seq<char>, idx: nat)
    requires
        idx < m.separators.len(),
    ensures
        total_len(m.level_parts(text, idx)) <= utf8_len(text),
{
    let sep = m.separators[idx as int];
    let parts = m.level_parts(text, idx);
    lemma_total_len_flatten(parts);
    if sep.len() == 0 {
        lemma_char_pieces_flatten(text);
    } else if m.keep_separator {
        lemma_pieces_keep_lossless(text, sep);
    } else {
        lemma_pieces_drop_join(text, sep);
        lemma_join_total_len(parts, sep);
        let tail = if match_ends_text_from(text, sep, 0) {
            sep
        } else {
            Seq::<char>::empty()
        };
        lemma_encode_concat(join_with(parts, sep), tail);
    }
}

/// Merging keeps the byte count: the merged text and the rest weigh what the buffer did.
proof fn lemma_merge_total(buf: Seq<Seq<char>>, t: int)
    ensures
        utf8_len(merge_from(Seq::<char>::empty(), buf, t).0) + total_len(
            merge_from(Seq::<char>::empty(), buf, t).1,
        ) == total_len(buf),
{
    let r = merge_from(Seq::<char>::empty(), buf, t);
    lemma_merge_moves_prefix(Seq::<char>::empty(), buf, t);
    assert(Seq::<char>::empty() + buf.flatten() =~= buf.flatten());
    lemma_encode_concat(r.0, r.1.flatten());
    lemma_total_len_flatten(buf);
    lemma_total_len_flatten(r.1);
}

/// Folding over the first `n` pieces emits and buffers no more bytes than those pieces hold.
proof fn lemma_fold_shorter(m: SplitterModel, parts: Seq<Seq<char>>, n: nat, idx: nat)
    requires
        idx < m.separators.len(),
        n <= parts.len(),
    ensures
        total_len(m.fold(parts, n, idx).0) + total_len(m.fold(parts, n, idx).1) <= total_len(
            parts.take(n as int),
        ),
    decreases m.separators.len() - idx, 0int, n,
{
    if n > 0 {
        let k = (n - 1) as nat;
        lemma_fold_shorter(m, parts, k, idx);
        let st = m.fold(parts, k, idx);
        let part = parts[k as int];
        assert(m.fold(parts, n, idx) == m.step(st, part, idx));
        assert(parts.take(n as int).drop_last() =~= parts.take(k as int));
        assert(total_len(parts.take(n as int)) == total_len(parts.take(k as int)) + utf8_len(part));
        if utf8_len(part) >= m.chunk_size {
            if st.1.len() > 0 {
                lemma_merge_total(st.1, m.threshold());
                assert(st.0.push(m.merge(st.1).0).drop_last() =~= st.0);
            }
            let flushed = if st.1.len() > 0 {
                (st.0.push(m.merge(st.1).0), m.merge(st.1).1)
            } else {
                (st.0, st.1)
            };
            assert(total_len(flushed.0) + total_len(flushed.1) == total_len(st.0) + total_len(
                st.1,
            ));
            lemma_rsplit_shorter(m, part, idx + 1);
            lemma_total_len_concat(flushed.0, m.rsplit(part, idx + 1));
        } else {
            let b = st.1.push(part);
            assert(b.drop_last() =~= st.1);
            if total_len(b) >= m.chunk_size {
                lemma_merge_total(b, m.threshold());
                assert(st.0.push(m.merge(b).0).drop_last() =~= st.0);
            }
        }
    } else {
        assert(parts.take(0) =~= Seq::<Seq<char>>::empty());
    }
}

/// The chunks of a text at any separator level weigh no more than the text.
proof fn lemma_rsplit_shorter(m: SplitterModel, text: Seq<char>, idx: nat)
    ensures
        total_len(m.rsplit(text, idx)) <= utf8_len(text),
    decreases m.separators.len() - idx, 1int, 0int,
{
    if idx >= m.separators.len() {
        assert(seq![text].drop_last() =~= Seq::<Seq<char>>::empty());
        assert(total_len(Seq::<Seq<char>>::empty()) == 0);
        assert(total_len(seq![text]) == utf8_len(text));
    } else {
        let parts = m.level_parts(text, idx);
        lemma_level_parts_total(m, text, idx);
        lemma_fold_shorter(m, parts, parts.len(), idx);
        assert(parts.take(parts.len() as int) =~= parts);
        let st = m.fold(parts, parts.len(), idx);
        if st.1.len() > 0 {
            lemma_merge_total(st.1, m.threshold());
            let r = st.0.push(m.merge(st.1).0);
            assert(r.drop_last() =~= st.0);
            assert(total_len(r) == total_len(st.0) + utf8_len(m.merge(st.1).0));
            assert(m.rsplit(text, idx) == r);
        } else {
            assert(m.rsplit(text, idx) == st.0);
        }
    }
}

/// Splitting never produces more text than it was given: the chunks together are at most
/// as many bytes as the text.
pub proof fn lemma_split_never_longer(m: SplitterModel, text: Seq<char>)
    ensures
        total_len(m.split(text)) <= utf8_len(text),
        utf8_len(m.split(text).flatten()) <= utf8_len(text),
{
    lemma_rsplit_shorter(m, text, 0);
    lemma_total_len_flatten(m.split(text));
}

/// Kept-separator pieces are never empty.
proof fn lemma_pieces_keep_nonempty_from(text: Seq<char>, sep: Seq<char>, last: int)
    requires
        sep.len() > 0,
        0 <= last <= text.len(),
    ensures
        forall|i: int|
            0 <= i < pieces_from(text, sep, true, last).len() ==> (#[trigger] pieces_from(
                text,
                sep,
                true,
                last,
            )[i]).len() > 0,
    decreases text.len() - last,
{
    lemma_next_match(text, sep, last);
    let ps = pieces_from(text, sep, true, last);
    match next_match(text, sep, last) {
        Some(start) => {
            let e = start + sep.len();
            lemma_pieces_keep_nonempty_from(text, sep, e);
            assert forall|i: int| 0 <= i < ps.len() implies (#[trigger] ps[i]).len() > 0 by {
                if i > 0 {
                    assert(ps[i] == pieces_from(text, sep, true, e)[i - 1]);
                }
            }
        },
        None => {},
    }
}

/// Merging pieces that are not empty gives a non-empty text and leaves non-empty pieces.
proof fn lemma_merge_nonempty(acc: Seq<char>, buf: Seq<Seq<char>>, t: int)
    requires
        buf.len() > 0 || acc.len() > 0,
        forall|i: int| 0 <= i < buf.len() ==> (#[trigger] buf[i]).len() > 0,
    ensures
        merge_from(acc, buf, t).0.len() > 0,
        forall|i: int|
            0 <= i < merge_from(acc, buf, t).1.len() ==> (#[trigger] merge_from(acc, buf, t).1[i]).len()
                > 0,
    decreases buf.len(),
{
    if buf.len() > 0 {
        let m = acc + buf[0];
        let rest = buf.drop_first();
        assert forall|i: int| 0 <= i < rest.len() implies (#[trigger] rest[i]).len() > 0 by {
            assert(rest[i] == buf[i + 1]);
        }
        if utf8_len(m) < t {
            assert(merge_from(acc, buf, t) == merge_from(m, rest, t));
            lemma_merge_nonempty(m, rest, t);
        } else {
            assert(merge_from(acc, buf, t) == (m, rest));
        }
    }
}

/// With kept separators, folding over non-empty pieces emits and buffers only non-empty
/// pieces.
proof fn lemma_fold_nonempty(m: SplitterModel, parts: Seq<Seq<char>>, n: nat, idx: nat)
    requires
        m.keep_separator,
        idx < m.separators.len(),
        n <= parts.len(),
        forall|i: int| 0 <= i < parts.len() ==> (#[trigger] parts[i]).len() > 0,
    ensures
        forall|i: int|
            0 <= i < m.fold(parts, n, idx).0.len() ==> (#[trigger] m.fold(parts, n, idx).0[i]).len()
                > 0,
        forall|i: int|
            0 <= i < m.fold(parts, n, idx).1.len() ==> (#[trigger] m.fold(parts, n, idx).1[i]).len()
                > 0,
    decreases m.separators.len() - idx, 0int, n,
{
    if n > 0 {
        let k = (n - 1) as nat;
        lemma_fold_nonempty(m, parts, k, idx);
        let st = m.fold(parts, k, idx);
        let part = parts[k as int];
        let t = m.threshold();
        assert(m.fold(parts, n, idx) == m.step(st, part, idx));
        if utf8_len(part) >= m.chunk_size {
            if st.1.len() > 0 {
                lemma_merge_nonempty(Seq::<char>::empty(), st.1, t);
            }
            let flushed = if st.1.len() > 0 {
                (st.0.push(m.merge(st.1).0), m.merge(st.1).1)
            } else {
                (st.0, st.1)
            };
            assert forall|i: int| 0 <= i < flushed.0.len() implies (#[trigger] flushed.0[i]).len()
                > 0 by {
                if i < st.0.len() {
                    assert(flushed.0[i] == st.0[i]);
                }
            }
            lemma_rsplit_nonempty(m, part, idx + 1);
            let sub = m.rsplit(part, idx + 1);
            let res = m.fold(parts, n, idx);
            assert(res == (flushed.0 + sub, flushed.1));
            assert forall|i: int| 0 <= i < res.0.len() implies (#[trigger] res.0[i]).len() > 0 by {
                if i < flushed.0.len() {
                    assert(res.0[i] == flushed.0[i]);
                } else {
                    assert(res.0[i] == sub[i - flushed.0.len()]);
                }
            }
        } else {
            let b = st.1.push(part);
            assert forall|i: int| 0 <= i < b.len() implies (#[trigger] b[i]).len() > 0 by {
                if i < st.1.len() {
                    assert(b[i] == st.1[i]);
                }
            }
            if total_len(b) >= m.chunk_size {
                lemma_merge_nonempty(Seq::<char>::empty(), b, t);
                let res = m.fold(parts, n, idx);
                assert forall|i: int| 0 <= i < res.0.len() implies (#[trigger] res.0[i]).len() > 0 by {
                    if i < st.0.len() {
                        assert(res.0[i] == st.0[i]);
                    }
                }
            }
        }
    }
}

/// With kept separators, a non-empty text, or any text at a separator level, gives only
/// non-empty chunks.
proof fn lemma_rsplit_nonempty(m: SplitterModel, text: Seq<char>, idx: nat)
    requires
        m.keep_separator,
        text.len() > 0 || idx < m.separators.len(),
    ensures
        forall|i: int|
            0 <= i < m.rsplit(text, idx).len() ==> (#[trigger] m.rsplit(text, idx)[i]).len() > 0,
    decreases m.separators.len() - idx, 1int, 0int,
{
    if idx < m.separators.len() {
        let parts = m.level_parts(text, idx);
        let sep = m.separators[idx as int];
        if sep.len() == 0 {
            assert forall|i: int| 0 <= i < parts.len() implies (#[trigger] parts[i]).len() > 0 by {
                assert(parts[i] == seq![text[i]]);
            }
        } else {
            lemma_pieces_keep_nonempty_from(text, sep, 0);
        }
        lemma_fold_nonempty(m, parts, parts.len(), idx);
        let st = m.fold(parts, parts.len(), idx);
        if st.1.len() > 0 {
            lemma_merge_nonempty(Seq::<char>::empty(), st.1, m.threshold());
            let r = m.rsplit(text, idx);
            assert(r == st.0.push(m.merge(st.1).0));
            assert forall|i: int| 0 <= i < r.len() implies (#[trigger] r[i]).len() > 0 by {
                if i < st.0.len() {
                    assert(r[i] == st.0[i]);
                }
            }
        }
    }
}

/// With the separators kept, no chunk is empty (unless the text is empty and there is no
/// separator at all, when the single chunk is the empty text).
pub proof fn lemma_split_chunks_nonempty(m: SplitterModel, text: Seq<char>)
    requires
        m.keep_separator,
        text.len() > 0 || m.separators.len() > 0,
    ensures
        forall|i: int| 0 <= i < m.split(text).len() ==> (#[trigger] m.split(text)[i]).len() > 0,
{
    lemma_rsplit_nonempty(m, text, 0);
}

} // verus!
