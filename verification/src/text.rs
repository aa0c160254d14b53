use vstd::prelude::*;
use vstd::utf8::*;

verus! {

/// Number of bytes in the UTF-8 encoding of `s`; this is what `str::len` returns.
pub open spec fn utf8_len(s: Seq<char>) -> nat {
    encode_utf8(s).len()
}

/// The width in bytes of the UTF-8 encoding of one character.
pub open spec fn char_width(c: char) -> nat {
    encode_scalar(c as u32).len()
}

/// The encoding of a concatenation is the concatenation of the encodings.
pub proof fn lemma_encode_concat(a: Seq<char>, b: Seq<char>)
    ensures
        encode_utf8(a + b) == encode_utf8(a) + encode_utf8(b),
        utf8_len(a + b) == utf8_len(a) + utf8_len(b),
    decreases a.len(),
{
    if a.len() == 0 {
        assert(a + b =~= b);
        assert(encode_utf8(a) + encode_utf8(b) =~= encode_utf8(b));
    } else {
        lemma_encode_concat(a.drop_first(), b);
        assert((a + b).drop_first() =~= a.drop_first() + b);
        assert((a + b)[0] == a[0]);
        assert(encode_utf8(a + b) =~= encode_scalar(a[0] as u32) + (encode_utf8(a.drop_first())
            + encode_utf8(b)));
    }
}

/// Byte length after appending one character.
pub proof fn lemma_utf8_len_push(s: Seq<char>, c: char)
    ensures
        utf8_len(s.push(c)) == utf8_len(s) + char_width(c),
{
    lemma_encode_concat(s, seq![c]);
    assert(s.push(c) =~= s + seq![c]);
    assert(seq![c].drop_first() =~= Seq::<char>::empty());
    assert(encode_utf8(seq![c]) =~= encode_scalar(c as u32) + encode_utf8(Seq::<char>::empty()));
}

/// Byte width of a character's UTF-8 encoding.
pub fn char_utf8_len(c: char) -> (n: usize)
    ensures
        n == char_width(c),
        1 <= n <= 4,
{
    proof {
        char_is_scalar(c);
    }
    let v = c as u32;
    if v < 0x80 {
        1
    } else if v < 0x800 {
        2
    } else if v < 0x10000 {
        3
    } else {
        4
    }
}

/// Collects the characters of a string slice.
pub fn chars_of_str(s: &str) -> (v: Vec<char>)
    ensures
        v@ == s@,
{
    let mut v: Vec<char> = Vec::new();
    for c in it: s.chars()
        invariant
            v@ == it.seq().take(it.index() as int),
    {
        v.push(c);
    }
    v
}

/// `n`, capped at `usize::MAX`.
pub open spec fn capped(n: int) -> int {
    if n > usize::MAX {
        usize::MAX as int
    } else {
        n
    }
}

/// The UTF-8 byte length of `v`, capped at `usize::MAX`.
pub fn capped_utf8_len(v: &Vec<char>) -> (n: usize)
    ensures
        n == capped(utf8_len(v@) as int),
{
    let mut acc: usize = 0;
    let mut i: usize = 0;
    while i < v.len()
        invariant
            i <= v.len(),
            acc == capped(utf8_len(v@.take(i as int)) as int),
        decreases v.len() - i,
    {
        let w = char_utf8_len(v[i]);
        proof {
            assert(v@.take(i + 1) =~= v@.take(i as int).push(v@[i as int]));
            lemma_utf8_len_push(v@.take(i as int), v@[i as int]);
        }
        acc = acc.saturating_add(w);
        i += 1;
    }
    assert(v@.take(v.len() as int) =~= v@);
    acc
}

/// Appends one character to a string.
///
/// Trusted: calls `String::push`, whose documentation says that it appends the given
/// `char` to the end of the string; the contract states exactly that of the view.
#[verifier::external_body]
fn push_char(s: &mut String, c: char)
    ensures
        final(s)@ == old(s)@.push(c),
{
    s.push(c);
}

/// Builds a string from a sequence of characters.
pub fn string_from_chars(v: &Vec<char>) -> (s: String)
    ensures
        s@ == v@,
{
    let mut s = String::new();
    let mut i: usize = 0;
    while i < v.len()
        invariant
            i <= v.len(),
            s@ == v@.take(i as int),
        decreases v.len() - i,
    {
        push_char(&mut s, v[i]);
        assert(v@.take(i + 1) =~= v@.take(i as int).push(v@[i as int]));
        i += 1;
    }
    assert(v@.take(v.len() as int) =~= v@);
    s
}

/// `sep` occurs in `text` starting at character position `i`.
pub open spec fn occurs_at(text: Seq<char>, sep: Seq<char>, i: int) -> bool {
    &&& 0 <= i
    &&& i + sep.len() <= text.len()
    &&& text.subrange(i, i + sep.len()) == sep
}

/// The leftmost occurrence of `sep` in `text` at or after position `from`.
pub open spec fn next_match(text: Seq<char>, sep: Seq<char>, from: int) -> Option<int>
    decreases text.len() + 1 - from,
{
    if from < 0 || from + sep.len() > text.len() {
        None
    } else if occurs_at(text, sep, from) {
        Some(from)
    } else {
        next_match(text, sep, from + 1)
    }
}

/// `next_match` finds the leftmost occurrence, and there is none when it finds nothing.
pub proof fn lemma_next_match(text: Seq<char>, sep: Seq<char>, from: int)
    requires
        0 <= from,
    ensures
        match next_match(text, sep, from) {
            Some(i) => from <= i && occurs_at(text, sep, i) && forall|j: int|
                from <= j < i ==> !occurs_at(text, sep, j),
            None => forall|j: int| from <= j ==> !occurs_at(text, sep, j),
        },
    decreases text.len() + 1 - from,
{
    if from + sep.len() > text.len() {
    } else if occurs_at(text, sep, from) {
    } else {
        lemma_next_match(text, sep, from + 1);
    }
}

/// Copies the characters `from..to` of `v`.
pub fn copy_range(v: &Vec<char>, from: usize, to: usize) -> (r: Vec<char>)
    requires
        from <= to <= v.len(),
    ensures
        r@ == v@.subrange(from as int, to as int),
{
    let mut r: Vec<char> = Vec::new();
    let mut i = from;
    while i < to
        invariant
            from <= i <= to <= v.len(),
            r@ == v@.subrange(from as int, i as int),
        decreases to - i,
    {
        r.push(v[i]);
        i += 1;
    }
    r
}

/// Whether `sep` occurs in `text` at position `i`.
pub fn matches_at(text: &Vec<char>, sep: &Vec<char>, i: usize) -> (b: bool)
    requires
        i + sep.len() <= text.len(),
    ensures
        b == occurs_at(text@, sep@, i as int),
{
    let mut k: usize = 0;
    while k < sep.len()
        invariant
            k <= sep.len(),
            i + sep.len() <= text.len(),
            forall|j: int| 0 <= j < k ==> text@[i + j] == sep@[j],
        decreases sep.len() - k,
    {
        if text[i + k] != sep[k] {
            assert(text@.subrange(i as int, i + sep.len())[k as int] != sep@[k as int]);
            return false;
        }
        k += 1;
    }
    assert(text@.subrange(i as int, i + sep.len()) =~= sep@);
    true
}

/// The leftmost occurrence of `sep` in `text` at or after `from`.
pub fn find_from(text: &Vec<char>, sep: &Vec<char>, from: usize) -> (r: Option<usize>)
    ensures
        match r {
            Some(i) => next_match(text@, sep@, from as int) == Some(i as int),
            None => next_match(text@, sep@, from as int) is None,
        },
{
    if sep.len() > text.len() {
        return None;
    }
    let last_start = text.len() - sep.len();
    let mut i = from;
    if from > last_start {
        return None;
    }
    loop
        invariant
            last_start + sep.len() == text.len(),
            from <= i <= last_start,
            next_match(text@, sep@, from as int) == next_match(text@, sep@, i as int),
        decreases last_start - i,
    {
        if matches_at(text, sep, i) {
            return Some(i);
        }
        if i == last_start {
            assert(next_match(text@, sep@, i as int) == next_match(text@, sep@, i + 1));
            assert(next_match(text@, sep@, i + 1) is None);
            return None;
        }
        i += 1;
    }
}

/// The character of a decimal digit.
pub open spec fn digit(d: nat) -> char {
    ((48 + d) as u8) as char
}

/// The decimal notation of `n`, as `Display` writes it.
pub open spec fn decimal(n: nat) -> Seq<char>
    decreases n,
{
    if n < 10 {
        seq![digit(n)]
    } else {
        decimal(n / 10).push(digit(n % 10))
    }
}

/// The decimal notation of a signed integer, with a leading minus sign when negative.
pub open spec fn signed_decimal(i: int) -> Seq<char> {
    if i < 0 {
        seq!['-'] + decimal((-i) as nat)
    } else {
        decimal(i as nat)
    }
}

/// Decimal notation is never empty.
pub proof fn lemma_decimal_nonempty(n: nat)
    ensures
        decimal(n).len() > 0,
    decreases n,
{
    if n >= 10 {
        lemma_decimal_nonempty(n / 10);
    }
}

fn digit_char(d: u64) -> (c: char)
    requires
        d < 10,
    ensures
        c == digit(d as nat),
{
    let b: u8 = 48u8 + (d as u8);
    b as char
}

/// The decimal notation of `n`.
pub fn decimal_chars(n: u64) -> (r: Vec<char>)
    ensures
        r@ == decimal(n as nat),
{
    let mut q = n;
    let mut acc: Vec<char> = Vec::new();
    while q >= 10
        invariant
            decimal(n as nat) == decimal(q as nat) + acc@,
        decreases q,
    {
        let d = q % 10;
        let ghost before = acc@;
        acc.insert(0, digit_char(d));
        assert(acc@ =~= seq![digit(d as nat)] + before);
        assert(decimal(q as nat) == decimal((q / 10) as nat).push(digit(d as nat)));
        assert(decimal(q as nat) + before =~= decimal((q / 10) as nat) + acc@);
        q = q / 10;
    }
    let ghost before = acc@;
    acc.insert(0, digit_char(q));
    assert(acc@ =~= decimal(q as nat) + before);
    acc
}

/// The decimal notation of a signed integer.
pub fn signed_decimal_chars(i: i64) -> (r: Vec<char>)
    ensures
        r@ == signed_decimal(i as int),
{
    if i < 0 {
        let magnitude: u64 = ((-(i + 1)) as u64) + 1;
        let digits = decimal_chars(magnitude);
        let mut r: Vec<char> = Vec::new();
        r.push('-');
        let mut digits = digits;
        let ghost d = digits@;
        r.append(&mut digits);
        assert(r@ =~= seq!['-'] + d);
        r
    } else {
        decimal_chars(i as u64)
    }
}

/// Whether `c` has the Unicode `White_Space` property, which is what `char::is_whitespace`
/// and `str::trim` test.
pub open spec fn is_white_space(c: char) -> bool {
    let v = c as u32;
    ||| 0x9 <= v <= 0xD
    ||| v == 0x20
    ||| v == 0x85
    ||| v == 0xA0
    ||| v == 0x1680
    ||| 0x2000 <= v <= 0x200A
    ||| v == 0x2028
    ||| v == 0x2029
    ||| v == 0x202F
    ||| v == 0x205F
    ||| v == 0x3000
}

/// `s` without its leading white space.
pub open spec fn trim_start(s: Seq<char>) -> Seq<char>
    decreases s.len(),
{
    if s.len() > 0 && is_white_space(s[0]) {
        trim_start(s.drop_first())
    } else {
        s
    }
}

/// `s` without its trailing white space.
pub open spec fn trim_end(s: Seq<char>) -> Seq<char>
    decreases s.len(),
{
    if s.len() > 0 && is_white_space(s.last()) {
        trim_end(s.drop_last())
    } else {
        s
    }
}

/// `s` without leading and trailing white space, as `str::trim` gives it.
pub open spec fn trim(s: Seq<char>) -> Seq<char> {
    trim_end(trim_start(s))
}

fn white_space(c: char) -> (b: bool)
    ensures
        b == is_white_space(c),
{
    let v = c as u32;
    (0x9 <= v && v <= 0xD) || v == 0x20 || v == 0x85 || v == 0xA0 || v == 0x1680 || (0x2000 <= v
        && v <= 0x200A) || v == 0x2028 || v == 0x2029 || v == 0x202F || v == 0x205F || v == 0x3000
}

/// Removes leading and trailing white space.
pub fn trim_chars(v: &Vec<char>) -> (r: Vec<char>)
    ensures
        r@ == trim(v@),
{
    let n = v.len();
    let mut i: usize = 0;
    assert(v@.subrange(0, n as int) =~= v@);
    while i < n && white_space(v[i])
        invariant
            n == v.len(),
            i <= n,
            trim_start(v@) == trim_start(v@.subrange(i as int, n as int)),
        decreases n - i,
    {
        assert(v@.subrange(i as int, n as int).drop_first() =~= v@.subrange(i + 1, n as int));
        i += 1;
    }
    assert(trim_start(v@) == v@.subrange(i as int, n as int));
    let mut j: usize = n;
    while j > i && white_space(v[j - 1])
        invariant
            n == v.len(),
            i <= j <= n,
            trim(v@) == trim_end(v@.subrange(i as int, j as int)),
        decreases j - i,
    {
        assert(v@.subrange(i as int, j as int).drop_last() =~= v@.subrange(i as int, j - 1));
        j -= 1;
    }
    copy_range(v, i, j)
}

/// `text` from position `last` on, with each leftmost non-overlapping occurrence of the
/// non-empty `pat` replaced by `rep`.
pub open spec fn replace_from(text: Seq<char>, pat: Seq<char>, rep: Seq<char>, last: int) -> Seq<
    char,
>
    decreases text.len() - last,
{
    if pat.len() == 0 || last < 0 || last > text.len() {
        Seq::empty()
    } else {
        match next_match(text, pat, last) {
            Some(start) => {
                proof {
                    lemma_next_match(text, pat, last);
                }
                text.subrange(last, start) + rep + replace_from(text, pat, rep, start + pat.len())
            },
            None => text.subrange(last, text.len() as int),
        }
    }
}

/// `text` with every occurrence of the non-empty `pat` replaced by `rep`, as `str::replace`
/// gives it.
pub open spec fn replace_all(text: Seq<char>, pat: Seq<char>, rep: Seq<char>) -> Seq<char> {
    replace_from(text, pat, rep, 0)
}

/// Appends the characters `from..to` of `v` to `out`.
fn push_range(out: &mut Vec<char>, v: &Vec<char>, from: usize, to: usize)
    requires
        from <= to <= v.len(),
    ensures
        final(out)@ == old(out)@ + v@.subrange(from as int, to as int),
{
    let mut i = from;
    while i < to
        invariant
            from <= i <= to <= v.len(),
            out@ == old(out)@ + v@.subrange(from as int, i as int),
        decreases to - i,
    {
        out.push(v[i]);
        i += 1;
    }
}

/// Replaces every occurrence of the non-empty `pat` in `text` by `rep`.
pub fn replace_chars(text: &Vec<char>, pat: &Vec<char>, rep: &Vec<char>) -> (r: Vec<char>)
    requires
        pat.len() > 0,
    ensures
        r@ == replace_all(text@, pat@, rep@),
{
    let mut out: Vec<char> = Vec::new();
    let mut last: usize = 0;
    loop
        invariant
            pat.len() > 0,
            last <= text.len(),
            replace_all(text@, pat@, rep@) == out@ + replace_from(text@, pat@, rep@, last as int),
        decreases text.len() - last,
    {
        let ghost before = out@;
        match find_from(text, pat, last) {
            Some(start) => {
                proof {
                    lemma_next_match(text@, pat@, last as int);
                }
                push_range(&mut out, text, last, start);
                push_range(&mut out, rep, 0, rep.len());
                assert(rep@.subrange(0, rep@.len() as int) =~= rep@);
                let end = start + pat.len();
                assert(before + replace_from(text@, pat@, rep@, last as int) =~= out@
                    + replace_from(text@, pat@, rep@, end as int));
                last = end;
            },
            None => {
                push_range(&mut out, text, last, text.len());
                return out;
            },
        }
    }
}

} // verus!
