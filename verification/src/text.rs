//! Text helpers over the character sequences that strings denote.

use vstd::prelude::*;
use vstd::utf8::*;

verus! {

broadcast use vstd::seq_lib::group_seq_properties;

// ---------------------------------------------------------------------------
// What strings denote
// ---------------------------------------------------------------------------

/// The character sequences that a run of strings denotes.
pub open spec fn texts(v: Seq<String>) -> Seq<Seq<char>> {
    Seq::new(v.len(), |i: int| v[i]@)
}

/// The number of bytes of the UTF-8 form of `s`.
pub open spec fn blen(s: Seq<char>) -> nat {
    encode_utf8(s).len()
}

/// The pieces of `s` between its separators; there is always at least one piece.
pub open spec fn split_on<T>(s: Seq<T>, sep: T) -> Seq<Seq<T>>
    decreases s.len(),
{
    if s.len() == 0 {
        seq![Seq::<T>::empty()]
    } else {
        let r = split_on(s.drop_last(), sep);
        if s.last() == sep {
            r.push(Seq::<T>::empty())
        } else {
            r.update(r.len() - 1, r.last().push(s.last()))
        }
    }
}

/// The pieces put one after the other with `sep` between neighbours.
pub open spec fn join_with<T>(pieces: Seq<Seq<T>>, sep: T) -> Seq<T>
    decreases pieces.len(),
{
    if pieces.len() == 0 {
        Seq::empty()
    } else if pieces.len() == 1 {
        pieces[0]
    } else {
        join_with(pieces.drop_last(), sep).push(sep) + pieces.last()
    }
}

/// Whether `c` has the Unicode property `White_Space`.
pub open spec fn is_white_space(c: char) -> bool {
    ||| '\u{9}' <= c <= '\u{d}'
    ||| c == ' '
    ||| c == '\u{85}'
    ||| c == '\u{a0}'
    ||| c == '\u{1680}'
    ||| '\u{2000}' <= c <= '\u{200a}'
    ||| c == '\u{2028}'
    ||| c == '\u{2029}'
    ||| c == '\u{202f}'
    ||| c == '\u{205f}'
    ||| c == '\u{3000}'
}

/// `s` without its leading white space.
pub open spec fn trim_start(s: Seq<char>) -> Seq<char>
    decreases s.len(),
{
    if s.len() > 0 && is_white_space(s[0]) {
        trim_start(s.drop_first())
    } else {
        s
    }
}

/// `s` without its trailing white space.
pub open spec fn trim_end(s: Seq<char>) -> Seq<char>
    decreases s.len(),
{
    if s.len() > 0 && is_white_space(s.last()) {
        trim_end(s.drop_last())
    } else {
        s
    }
}

/// `s` without white space at either end.
pub open spec fn trim(s: Seq<char>) -> Seq<char> {
    trim_end(trim_start(s))
}

/// `c` with `A` to `Z` turned into `a` to `z`.
pub open spec fn ascii_lower(c: char) -> char {
    if 'A' <= c <= 'Z' {
        (c as u32 + 32) as char
    } else {
        c
    }
}

/// `s` with every `A` to `Z` turned into `a` to `z`.
pub open spec fn ascii_lower_all(s: Seq<char>) -> Seq<char> {
    Seq::new(s.len(), |i: int| ascii_lower(s[i]))
}

/// Whether `pat` stands in `s` at position `i`.
pub open spec fn occurs_at<T>(s: Seq<T>, pat: Seq<T>, i: int) -> bool {
    0 <= i && i + pat.len() <= s.len() && s.subrange(i, i + pat.len()) == pat
}

/// Whether `pat` stands anywhere in `s`.
pub open spec fn occurs_in<T>(s: Seq<T>, pat: Seq<T>) -> bool {
    exists|i: int| occurs_at(s, pat, i)
}

/// Whether `s` begins with `pat`.
pub open spec fn begins_with<T>(s: Seq<T>, pat: Seq<T>) -> bool {
    pat.len() <= s.len() && s.subrange(0, pat.len() as int) == pat
}

/// Whether `s` ends with `pat`.
pub open spec fn finishes_with<T>(s: Seq<T>, pat: Seq<T>) -> bool {
    pat.len() <= s.len() && s.subrange(s.len() - pat.len(), s.len() as int) == pat
}

/// The position of the first `c` in `s` at or after `from`, if there is one.
pub open spec fn first_from<T>(s: Seq<T>, c: T, from: int) -> Option<int>
    decreases s.len() - from,
{
    if from < 0 || from >= s.len() {
        None
    } else if s[from] == c {
        Some(from)
    } else {
        first_from(s, c, from + 1)
    }
}

// ---------------------------------------------------------------------------
// Facts about encodings and pieces
// ---------------------------------------------------------------------------

/// The encoding of two texts put together is their encodings put together.
pub proof fn lemma_encode_concat(a: Seq<char>, b: Seq<char>)
    ensures
        encode_utf8(a + b) == encode_utf8(a) + encode_utf8(b),
        blen(a + b) == blen(a) + blen(b),
    decreases a.len(),
{
    if a.len() == 0 {
        assert(a + b == b);
        assert(encode_utf8(a) == Seq::<u8>::empty());
        assert(Seq::<u8>::empty() + encode_utf8(b) == encode_utf8(b));
    } else {
        let t = a.drop_first();
        lemma_encode_concat(t, b);
        assert((a + b).drop_first() == t + b);
        assert((a + b)[0] == a[0]);
        assert(encode_scalar(a[0] as u32) + (encode_utf8(t) + encode_utf8(b)) == (encode_scalar(
            a[0] as u32,
        ) + encode_utf8(t)) + encode_utf8(b));
    }
}

/// The encoding of a text with one more character.
pub proof fn lemma_encode_push(a: Seq<char>, c: char)
    ensures
        encode_utf8(a.push(c)) == encode_utf8(a) + encode_scalar(c as u32),
        blen(a.push(c)) == blen(a) + blen(seq![c]),
        encode_utf8(seq![c]) == encode_scalar(c as u32),
{
    lemma_encode_concat(a, seq![c]);
    assert(a.push(c) == a + seq![c]);
    reveal_with_fuel(encode_utf8, 2);
    assert(seq![c].drop_first() == Seq::<char>::empty());
    assert(encode_utf8(Seq::<char>::empty()) == Seq::<u8>::empty());
    assert(encode_scalar(c as u32) + Seq::<u8>::empty() == encode_scalar(c as u32));
}

/// A character takes one to four bytes.
pub proof fn lemma_char_len(c: char)
    ensures
        1 <= blen(seq![c]) <= 4,
        (c as u32) < 0x80 <==> blen(seq![c]) == 1,
        (c as u32) < 0x800 <==> blen(seq![c]) <= 2,
        (c as u32) < 0x10000 <==> blen(seq![c]) <= 3,
{
    lemma_encode_push(Seq::empty(), c);
    char_is_scalar(c);
}

/// A text has at least as many bytes as characters.
pub proof fn lemma_blen_bounds(s: Seq<char>)
    ensures
        s.len() <= blen(s) <= 4 * s.len(),
    decreases s.len(),
{
    if s.len() > 0 {
        lemma_blen_bounds(s.drop_last());
        lemma_encode_push(s.drop_last(), s.last());
        lemma_char_len(s.last());
        assert(s.drop_last().push(s.last()) == s);
    }
}

/// Two texts with the same bytes are the same text.
pub proof fn lemma_encode_injective(a: Seq<char>, b: Seq<char>)
    requires
        encode_utf8(a) == encode_utf8(b),
    ensures
        a == b,
{
    encode_utf8_decode_utf8(a);
    encode_utf8_decode_utf8(b);
}

/// There is always a piece, and no piece holds the separator.
pub proof fn lemma_split_pieces<T>(s: Seq<T>, sep: T)
    ensures
        split_on(s, sep).len() >= 1,
        forall|i: int| 0 <= i < split_on(s, sep).len() ==> !#[trigger] split_on(s, sep)[i].contains(
            sep,
        ),
    decreases s.len(),
{
    if s.len() > 0 {
        lemma_split_pieces(s.drop_last(), sep);
        let r = split_on(s.drop_last(), sep);
        assert forall|i: int| 0 <= i < split_on(s, sep).len() implies !#[trigger] split_on(s, sep)[i].contains(sep) by {
            if s.last() != sep && i == r.len() - 1 {
                let p = r.last().push(s.last());
                assert forall|j: int| 0 <= j < p.len() implies p[j] != sep by {
                    if j < r.last().len() {
                        assert(r[r.len() - 1].contains(r.last()[j]));
                    }
                }
            } else if i < r.len() {
                assert(split_on(s, sep)[i] == r[i]);
            }
        }
    }
}

/// Joining the pieces again gives the text back.
pub proof fn lemma_join_split<T>(s: Seq<T>, sep: T)
    ensures
        join_with(split_on(s, sep), sep) == s,
    decreases s.len(),
{
    reveal_with_fuel(join_with, 2);
    if s.len() > 0 {
        let d = s.drop_last();
        lemma_join_split(d, sep);
        lemma_split_pieces(d, sep);
        let r = split_on(d, sep);
        if s.last() == sep {
            let q = r.push(Seq::<T>::empty());
            assert(q.drop_last() == r);
            assert(join_with(q, sep) == d.push(sep) + Seq::<T>::empty());
            assert(d.push(sep) + Seq::<T>::empty() == s);
        } else {
            let q = r.update(r.len() - 1, r.last().push(s.last()));
            assert(q.drop_last() == r.drop_last());
            if r.len() == 1 {
                assert(q[0] == r[0].push(s.last()));
                assert(r[0] == d);
                assert(d.push(s.last()) == s);
            } else {
                let head = join_with(r.drop_last(), sep).push(sep);
                assert(join_with(r, sep) == head + r.last());
                assert(join_with(q, sep) == head + r.last().push(s.last()));
                assert(head + r.last().push(s.last()) == (head + r.last()).push(s.last()));
                assert(d.push(s.last()) == s);
            }
        }
    }
}

/// A start of `s` is split into the first pieces of `s`, the last of them cut short.
pub proof fn lemma_split_prefix<T>(s: Seq<T>, sep: T, n: int)
    requires
        0 <= n <= s.len(),
    ensures
        ({
            let p = split_on(s.take(n), sep);
            let q = split_on(s, sep);
            &&& 1 <= p.len() <= q.len()
            &&& p.drop_last() == q.take(p.len() - 1)
            &&& begins_with(q[p.len() - 1], p.last())
        }),
    decreases s.len(),
{
    lemma_split_pieces(s.take(n), sep);
    lemma_split_pieces(s, sep);
    if n == s.len() {
        assert(s.take(n) == s);
        assert(split_on(s, sep).drop_last() == split_on(s, sep).take(split_on(s, sep).len() - 1));
        assert(split_on(s, sep).last().subrange(0, split_on(s, sep).last().len() as int) == split_on(s, sep).last());
    } else {
        let d = s.drop_last();
        assert(d.take(n) == s.take(n));
        lemma_split_prefix(d, sep, n);
        let p = split_on(s.take(n), sep);
        let r = split_on(d, sep);
        let q = split_on(s, sep);
        assert(p.drop_last() == q.take(p.len() - 1)) by {
            assert forall|i: int| 0 <= i < p.len() - 1 implies p[i] == q[i] by {
                assert(p.drop_last()[i] == r.take(p.len() - 1)[i]);
            }
        }
        assert(begins_with(q[p.len() - 1], p.last())) by {
            if s.last() != sep && p.len() == r.len() {
                assert(q[p.len() - 1] == r.last().push(s.last()));
                assert(r.last().push(s.last()).subrange(0, p.last().len() as int) == r.last().subrange(0, p.last().len() as int));
            } else {
                assert(q[p.len() - 1] == r[p.len() - 1]);
            }
        }
    }
}

/// Splitting what was joined gives the pieces back, when none holds the separator.
pub proof fn lemma_split_join<T>(pieces: Seq<Seq<T>>, sep: T)
    requires
        pieces.len() >= 1,
        forall|i: int| 0 <= i < pieces.len() ==> !#[trigger] pieces[i].contains(sep),
    ensures
        split_on(join_with(pieces, sep), sep) == pieces,
    decreases pieces.len(),
{
    reveal_with_fuel(join_with, 2);
    if pieces.len() == 1 {
        lemma_split_without(pieces[0], sep);
        assert(pieces == seq![pieces[0]]);
    } else {
        let d = pieces.drop_last();
        assert forall|i: int| 0 <= i < d.len() implies !#[trigger] d[i].contains(sep) by {
            assert(!pieces[i].contains(sep));
        }
        lemma_split_join(d, sep);
        let j = join_with(d, sep);
        assert(!pieces[pieces.len() - 1].contains(sep));
        lemma_split_append(j.push(sep), pieces.last(), sep);
        assert(j.push(sep).drop_last() == j);
        assert(split_on(j.push(sep), sep) == d.push(Seq::<T>::empty()));
        let e = d.push(Seq::<T>::empty());
        assert(e.update(e.len() - 1, e.last() + pieces.last()) == pieces) by {
            assert(Seq::<T>::empty() + pieces.last() == pieces.last());
        }
    }
}

/// A text without the separator is its own single piece.
pub proof fn lemma_split_without<T>(s: Seq<T>, sep: T)
    requires
        !s.contains(sep),
    ensures
        split_on(s, sep) == seq![s],
{
    lemma_split_append(Seq::empty(), s, sep);
    assert(Seq::<T>::empty() + s == s);
    assert(split_on(Seq::<T>::empty(), sep) == seq![Seq::<T>::empty()]);
    assert(seq![Seq::<T>::empty()].update(0, Seq::<T>::empty() + s) == seq![s]);
}

/// Text without the separator only makes the last piece longer.
pub proof fn lemma_split_append<T>(a: Seq<T>, b: Seq<T>, sep: T)
    requires
        !b.contains(sep),
    ensures
        split_on(a + b, sep) == split_on(a, sep).update(
            split_on(a, sep).len() - 1,
            split_on(a, sep).last() + b,
        ),
    decreases b.len(),
{
    lemma_split_pieces(a, sep);
    let r = split_on(a, sep);
    if b.len() == 0 {
        assert(a + b == a);
        assert(r.last() + b == r.last());
        assert(r.update(r.len() - 1, r.last()) == r);
    } else {
        let d = b.drop_last();
        assert(!d.contains(sep)) by {
            assert forall|i: int| 0 <= i < d.len() implies d[i] != sep by {
                assert(b.contains(b[i]));
            }
        }
        lemma_split_append(a, d, sep);
        assert((a + b).drop_last() == a + d);
        assert(b.contains(b.last()));
        assert((r.last() + d).push(b.last()) == r.last() + b);
        let m = r.update(r.len() - 1, r.last() + d);
        assert(m.update(m.len() - 1, m.last().push(b.last())) == r.update(r.len() - 1, r.last() + b));
    }
}

// ---------------------------------------------------------------------------
// Executable helpers
// ---------------------------------------------------------------------------

/// `String::from_iter`: the string made of the given characters in order.
#[verifier::external_body]
pub(crate) fn string_from_chars(chars: &Vec<char>) -> (s: String)
    ensures
        s@ == chars@,
{
    String::from_iter(chars.iter())
}

/// What `String::from_utf8_lossy` makes of some bytes.
pub uninterp spec fn lossy(bytes: Seq<u8>) -> Seq<char>;

/// `String::from_utf8_lossy`: the text of the bytes. Bytes that are valid UTF-8 are kept as they
/// are; nothing more is said of what stands for others.
#[verifier::external_body]
pub(crate) fn from_utf8_lossy(bytes: &[u8]) -> (r: String)
    ensures
        r@ == lossy(bytes@),
        valid_utf8(bytes@) ==> encode_utf8(r@) == bytes@,
{
    String::from_utf8_lossy(bytes).into_owned()
}

/// The same texts once more.
pub fn clone_texts(v: &Vec<String>) -> (r: Vec<String>)
    ensures
        texts(r@) == texts(v@),
{
    let mut r: Vec<String> = Vec::new();
    let mut i: usize = 0;
    while i < v.len()
        invariant
            i <= v@.len(),
            texts(r@) == texts(v@).take(i as int),
        decreases v@.len() - i,
    {
        let ghost before = texts(r@);
        r.push(v[i].clone());
        proof {
            assert(texts(r@) =~= before.push(texts(v@)[i as int]));
            assert(texts(v@).take(i + 1) =~= before.push(texts(v@)[i as int]));
        }
        i += 1;
    }
    proof {
        assert(texts(v@).take(v@.len() as int) =~= texts(v@));
    }
    r
}

/// The characters of `s`.
pub fn chars_of(s: &str) -> (v: Vec<char>)
    ensures
        v@ == s@,
{
    let mut v: Vec<char> = Vec::new();
    for c in it: s.chars()
        invariant
            v@ == s@.take(it.index()),
            it.seq() == s@,
    {
        v.push(c);
    }
    proof {
        assert(s@.take(s@.len() as int) == s@);
    }
    v
}

/// The string made of `chars[from..to]`.
pub fn substring(chars: &Vec<char>, from: usize, to: usize) -> (s: String)
    requires
        from <= to <= chars.len(),
    ensures
        s@ == chars@.subrange(from as int, to as int),
{
    let mut v: Vec<char> = Vec::new();
    let mut i: usize = from;
    while i < to
        invariant
            from <= i <= to <= chars.len(),
            v@ == chars@.subrange(from as int, i as int),
        decreases to - i,
    {
        v.push(chars[i]);
        i += 1;
    }
    string_from_chars(&v)
}

/// The bytes that `c` takes in UTF-8.
pub fn len_utf8(c: char) -> (n: usize)
    ensures
        n == blen(seq![c]),
        1 <= n <= 4,
{
    proof {
        lemma_char_len(c);
    }
    let u: u32 = c as u32;
    if u < 0x80 {
        1
    } else if u < 0x800 {
        2
    } else if u < 0x10000 {
        3
    } else {
        4
    }
}

/// Whether `c` has the Unicode property `White_Space`.
pub fn is_whitespace(c: char) -> (r: bool)
    ensures
        r == is_white_space(c),
{
    ('\u{9}' <= c && c <= '\u{d}') || c == ' ' || c == '\u{85}' || c == '\u{a0}' || c == '\u{1680}'
        || ('\u{2000}' <= c && c <= '\u{200a}') || c == '\u{2028}' || c == '\u{2029}' || c
        == '\u{202f}' || c == '\u{205f}' || c == '\u{3000}'
}

/// Whether two strings hold the same text.
pub fn str_eq(a: &str, b: &str) -> (r: bool)
    ensures
        r == (a@ == b@),
{
    let x = a.as_bytes();
    let y = b.as_bytes();
    let r = bytes_eq(x, y);
    proof {
        if r {
            lemma_encode_injective(a@, b@);
        }
    }
    r
}

/// Whether two byte strings are the same.
pub fn bytes_eq(x: &[u8], y: &[u8]) -> (r: bool)
    ensures
        r == (x@ == y@),
{
    if x.len() != y.len() {
        return false;
    }
    let mut i: usize = 0;
    while i < x.len()
        invariant
            x.len() == y.len(),
            i <= x.len(),
            forall|j: int| 0 <= j < i ==> x@[j] == y@[j],
        decreases x.len() - i,
    {
        if x[i] != y[i] {
            return false;
        }
        i += 1;
    }
    proof {
        assert(x@ =~= y@);
    }
    true
}

/// The pieces of `s` between its separators, as `str::split` gives them.
pub fn split_str(s: &str, sep: char) -> (v: Vec<String>)
    ensures
        texts(v@) == split_on(s@, sep),
{
    let chars = chars_of(s);
    split_chars(&chars, sep)
}

/// The pieces of `chars` between its separators.
pub fn split_chars(chars: &Vec<char>, sep: char) -> (v: Vec<String>)
    ensures
        texts(v@) == split_on(chars@, sep),
{
    let mut v: Vec<String> = Vec::new();
    let mut cur: Vec<char> = Vec::new();
    let mut i: usize = 0;
    proof {
        assert(texts(v@).push(cur@) == seq![Seq::<char>::empty()]);
    }
    while i < chars.len()
        invariant
            i <= chars.len(),
            texts(v@).push(cur@) == split_on(chars@.take(i as int), sep),
        decreases chars.len() - i,
    {
        let c = chars[i];
        let ghost before = texts(v@);
        let ghost piece = cur@;
        proof {
            assert(chars@.take(i + 1).drop_last() == chars@.take(i as int));
            lemma_split_pieces(chars@.take(i as int), sep);
        }
        if c == sep {
            v.push(string_from_chars(&cur));
            cur = Vec::new();
            proof {
                assert(texts(v@) == before.push(piece));
            }
        } else {
            cur.push(c);
            proof {
                assert(before.push(cur@) == before.push(piece).update(before.len() as int, piece.push(c)));
            }
        }
        i += 1;
    }
    proof {
        assert(chars@.take(chars@.len() as int) == chars@);
    }
    let ghost before = texts(v@);
    let ghost piece = cur@;
    v.push(string_from_chars(&cur));
    proof {
        assert(texts(v@) == before.push(piece));
    }
    v
}

/// The pieces put together with `sep` between neighbours.
pub fn join_strs(pieces: &[String], sep: char) -> (s: String)
    ensures
        s@ == join_with(texts(pieces@), sep),
{
    let mut out: Vec<char> = Vec::new();
    let mut i: usize = 0;
    while i < pieces.len()
        invariant
            i <= pieces.len(),
            out@ == join_with(texts(pieces@).take(i as int), sep),
        decreases pieces.len() - i,
    {
        let ghost t = texts(pieces@).take(i + 1);
        proof {
            assert(t.drop_last() == texts(pieces@).take(i as int));
            assert(t.last() == pieces@[i as int]@);
        }
        if i > 0 {
            out.push(sep);
        }
        let ghost head = out@;
        push_all(&mut out, pieces[i].as_str());
        proof {
            if i == 0 {
                assert(head == Seq::<char>::empty());
                assert(t[0] == pieces@[0]@);
                assert(Seq::<char>::empty() + t[0] == t[0]);
            }
        }
        i += 1;
    }
    proof {
        assert(texts(pieces@).take(pieces@.len() as int) == texts(pieces@));
    }
    string_from_chars(&out)
}

/// Adds the characters of `s` at the end of `out`.
pub fn push_all(out: &mut Vec<char>, s: &str)
    ensures
        final(out)@ == old(out)@ + s@,
{
    let mut more = chars_of(s);
    out.append(&mut more);
}

/// `str::trim`: the text without white space at either end.
pub fn trim_str(s: &str) -> (r: String)
    ensures
        r@ == trim(s@),
{
    let chars = chars_of(s);
    let n: usize = chars.len();
    let mut from: usize = 0;
    proof {
        assert(chars@.skip(0) == chars@);
    }
    while from < n && is_whitespace(chars[from])
        invariant
            n == chars.len(),
            from <= n,
            trim_start(chars@.skip(from as int)) == trim_start(chars@),
        decreases n - from,
    {
        proof {
            assert(chars@.skip(from as int).drop_first() == chars@.skip(from + 1));
        }
        from += 1;
    }
    let ghost rest = chars@.skip(from as int);
    proof {
        assert(trim_start(chars@) == rest);
        assert(rest == chars@.subrange(from as int, n as int));
    }
    let to = trimmed_end(&chars, from, n);
    substring(&chars, from, to)
}

/// `str::trim_end`: the text without trailing white space.
pub fn trim_end_str(s: &str) -> (r: String)
    ensures
        r@ == trim_end(s@),
{
    let chars = chars_of(s);
    proof {
        assert(chars@.subrange(0, chars@.len() as int) == chars@);
    }
    let to = trimmed_end(&chars, 0, chars.len());
    substring(&chars, 0, to)
}

/// Where `chars[from..to]` ends once its trailing white space is left out.
fn trimmed_end(chars: &Vec<char>, from: usize, to: usize) -> (end: usize)
    requires
        from <= to <= chars.len(),
    ensures
        from <= end <= to,
        chars@.subrange(from as int, end as int) == trim_end(
            chars@.subrange(from as int, to as int),
        ),
{
    let mut end: usize = to;
    while end > from && is_whitespace(chars[end - 1])
        invariant
            from <= end <= to <= chars.len(),
            trim_end(chars@.subrange(from as int, end as int)) == trim_end(
                chars@.subrange(from as int, to as int),
            ),
        decreases end - from,
    {
        proof {
            assert(chars@.subrange(from as int, end as int).drop_last() == chars@.subrange(
                from as int,
                end - 1,
            ));
        }
        end -= 1;
    }
    end
}

/// Whether `pat` stands in `chars` at position `i`.
pub fn matches_at(chars: &Vec<char>, pat: &Vec<char>, i: usize) -> (r: bool)
    ensures
        r == occurs_at(chars@, pat@, i as int),
{
    if pat.len() > chars.len() || i > chars.len() - pat.len() {
        return false;
    }
    let mut j: usize = 0;
    while j < pat.len()
        invariant
            i + pat.len() <= chars.len(),
            j <= pat.len(),
            forall|k: int| 0 <= k < j ==> chars@[i + k] == pat@[k],
        decreases pat.len() - j,
    {
        if chars[i + j] != pat[j] {
            proof {
                assert(chars@.subrange(i as int, i + pat@.len())[j as int] == chars@[i + j]);
            }
            return false;
        }
        j += 1;
    }
    proof {
        assert(chars@.subrange(i as int, i + pat@.len()) == pat@);
    }
    true
}

/// `str::contains` with a string pattern.
pub fn str_contains(s: &str, pat: &str) -> (r: bool)
    ensures
        r == occurs_in(s@, pat@),
{
    let chars = chars_of(s);
    let p = chars_of(pat);
    let mut i: usize = 0;
    loop
        invariant
            chars@ == s@,
            p@ == pat@,
            i <= chars.len(),
            forall|k: int| 0 <= k < i ==> !occurs_at(s@, pat@, k),
        decreases chars.len() - i,
    {
        if matches_at(&chars, &p, i) {
            proof {
                assert(occurs_at(s@, pat@, i as int));
            }
            return true;
        }
        if i == chars.len() {
            return false;
        }
        i += 1;
    }
}

/// `str::starts_with` with a string pattern.
pub fn str_starts_with(s: &str, pat: &str) -> (r: bool)
    ensures
        r == begins_with(s@, pat@),
{
    let chars = chars_of(s);
    let p = chars_of(pat);
    matches_at(&chars, &p, 0)
}

/// `str::strip_prefix` with a string pattern.
pub fn strip_prefix(s: &str, pat: &str) -> (r: Option<String>)
    ensures
        match r {
            Some(rest) => begins_with(s@, pat@) && rest@ == s@.skip(pat@.len() as int),
            None => !begins_with(s@, pat@),
        },
{
    let chars = chars_of(s);
    let p = chars_of(pat);
    if matches_at(&chars, &p, 0) {
        proof {
            assert(s@.skip(pat@.len() as int) == s@.subrange(pat@.len() as int, s@.len() as int));
        }
        Some(substring(&chars, p.len(), chars.len()))
    } else {
        None
    }
}

/// `str::ends_with` with a string pattern.
pub fn str_ends_with(s: &str, pat: &str) -> (r: bool)
    ensures
        r == finishes_with(s@, pat@),
{
    let chars = chars_of(s);
    let p = chars_of(pat);
    if p.len() > chars.len() {
        return false;
    }
    matches_at(&chars, &p, chars.len() - p.len())
}

/// `str::find` with a character, from position `from` on, in characters.
pub fn find_char(chars: &Vec<char>, c: char, from: usize) -> (r: Option<usize>)
    ensures
        match r {
            Some(i) => first_from(chars@, c, from as int) == Some(i as int) && from <= i
                < chars.len() && chars@[i as int] == c,
            None => first_from(chars@, c, from as int) is None,
        },
{
    let mut i: usize = from;
    while i < chars.len()
        invariant
            from <= i,
            first_from(chars@, c, i as int) == first_from(chars@, c, from as int),
        decreases chars.len() - i,
    {
        if chars[i] == c {
            return Some(i);
        }
        i += 1;
    }
    None
}

/// `c` with `A` to `Z` turned into `a` to `z`.
pub fn to_ascii_lower(c: char) -> (r: char)
    ensures
        r == ascii_lower(c),
{
    match c {
        'A' => 'a',
        'B' => 'b',
        'C' => 'c',
        'D' => 'd',
        'E' => 'e',
        'F' => 'f',
        'G' => 'g',
        'H' => 'h',
        'I' => 'i',
        'J' => 'j',
        'K' => 'k',
        'L' => 'l',
        'M' => 'm',
        'N' => 'n',
        'O' => 'o',
        'P' => 'p',
        'Q' => 'q',
        'R' => 'r',
        'S' => 's',
        'T' => 't',
        'U' => 'u',
        'V' => 'v',
        'W' => 'w',
        'X' => 'x',
        'Y' => 'y',
        'Z' => 'z',
        other => other,
    }
}

/// `str::to_ascii_lowercase`.
pub fn to_ascii_lowercase(s: &str) -> (r: String)
    ensures
        r@ == ascii_lower_all(s@),
{
    let chars = chars_of(s);
    let mut out: Vec<char> = Vec::new();
    let mut i: usize = 0;
    while i < chars.len()
        invariant
            i <= chars.len(),
            out@ == ascii_lower_all(chars@.take(i as int)),
        decreases chars.len() - i,
    {
        out.push(to_ascii_lower(chars[i]));
        i += 1;
        proof {
            assert(out@ == ascii_lower_all(chars@.take(i as int)));
        }
    }
    proof {
        assert(chars@.take(chars@.len() as int) == chars@);
    }
    string_from_chars(&out)
}

// ---------------------------------------------------------------------------
// Lines
// ---------------------------------------------------------------------------

/// A line without the carriage return that it ends with, if it does.
pub open spec fn without_cr(line: Seq<char>) -> Seq<char> {
    if line.len() > 0 && line.last() == '\r' {
        line.drop_last()
    } else {
        line
    }
}

/// A trimmed text starts and ends with something else than white space.
pub proof fn lemma_trimmed(s: Seq<char>)
    ensures
        trim(s).len() > 0 ==> !is_white_space(trim(s)[0]) && !is_white_space(trim(s).last()),
{
    lemma_trim_start(s);
    lemma_trim_end(trim_start(s));
}

proof fn lemma_trim_start(s: Seq<char>)
    ensures
        trim_start(s).len() > 0 ==> !is_white_space(trim_start(s)[0]),
    decreases s.len(),
{
    if s.len() > 0 && is_white_space(s[0]) {
        lemma_trim_start(s.drop_first());
    }
}

proof fn lemma_trim_end(s: Seq<char>)
    ensures
        trim_end(s).len() > 0 ==> !is_white_space(trim_end(s).last()) && trim_end(s)[0] == s[0],
    decreases s.len(),
{
    if s.len() > 0 && is_white_space(s.last()) {
        lemma_trim_end(s.drop_last());
    }
}

/// The lines of `s`, as `str::lines` gives them: a line ends with a newline or with a carriage
/// return and a newline, which the last line may lack.
pub open spec fn lines(s: Seq<char>) -> Seq<Seq<char>> {
    let p = split_on(s, '\n');
    let ended = p.drop_last().map_values(|l: Seq<char>| without_cr(l));
    if p.last().len() == 0 {
        ended
    } else {
        ended.push(p.last())
    }
}

/// The lines of `s`.
pub fn lines_of(s: &str) -> (v: Vec<String>)
    ensures
        texts(v@) == lines(s@),
{
    let pieces = split_str(s, '\n');
    let ghost p = split_on(s@, '\n');
    proof {
        lemma_split_pieces(s@, '\n');
    }
    let mut v: Vec<String> = Vec::new();
    let mut i: usize = 0;
    let n: usize = pieces.len() - 1;
    let ghost ended = p.drop_last().map_values(|l: Seq<char>| without_cr(l));
    while i < n
        invariant
            i <= n,
            n == pieces.len() - 1,
            texts(pieces@) == p,
            ended == p.drop_last().map_values(|l: Seq<char>| without_cr(l)),
            texts(v@) =~= ended.take(i as int),
        decreases n - i,
    {
        let chars = chars_of(pieces[i].as_str());
        let ghost before = texts(v@);
        proof {
            assert(chars@ == p[i as int]);
            assert(ended[i as int] == without_cr(p[i as int]));
        }
        let mut end: usize = chars.len();
        if end > 0 && chars[end - 1] == '\r' {
            end -= 1;
        }
        let line = substring(&chars, 0, end);
        proof {
            assert(line@ =~= without_cr(chars@));
        }
        v.push(line);
        proof {
            assert(texts(v@) =~= before.push(line@));
            assert(ended.take(i + 1) =~= ended.take(i as int).push(ended[i as int]));
        }
        i += 1;
    }
    proof {
        assert(ended.take(n as int) =~= ended);
        assert(p.last() == pieces@[n as int]@);
    }
    if !pieces[n].as_str().is_empty() {
        let ghost before = texts(v@);
        v.push(pieces[n].clone());
        proof {
            assert(texts(v@) =~= before.push(p.last()));
        }
    }
    v
}

// ---------------------------------------------------------------------------
// Numbers
// ---------------------------------------------------------------------------

/// The digits of `n`.
pub open spec fn decimal(n: nat) -> Seq<char>
    decreases n,
{
    if n < 10 {
        seq![('0' as u32 + n) as char]
    } else {
        decimal(n / 10).push(('0' as u32 + n % 10) as char)
    }
}

/// The number that the digits `s` stand for.
pub open spec fn decimal_value(s: Seq<char>) -> int
    decreases s.len(),
{
    if s.len() == 0 {
        0
    } else {
        decimal_value(s.drop_last()) * 10 + (s.last() as int - '0' as int)
    }
}

pub open spec fn is_digit(c: char) -> bool {
    '0' <= c <= '9'
}

pub open spec fn all_digits(s: Seq<char>) -> bool {
    forall|i: int| 0 <= i < s.len() ==> is_digit(#[trigger] s[i])
}

/// The number up to `max` that the digits `d` stand for.
pub open spec fn digits_number(d: Seq<char>, max: int) -> Option<int> {
    if d.len() > 0 && all_digits(d) && decimal_value(d) <= max {
        Some(decimal_value(d))
    } else {
        None
    }
}

/// The number up to `max` that `s` is written as: digits, with or without a plus sign.
pub open spec fn number(s: Seq<char>, max: int) -> Option<int> {
    if s.len() > 0 && s[0] == '+' {
        digits_number(s.skip(1), max)
    } else {
        digits_number(s, max)
    }
}

fn decimal_chars(n: usize) -> (v: Vec<char>)
    ensures
        v@ == decimal(n as nat),
    decreases n,
{
    let d: u8 = 48 + (n % 10) as u8;
    let c: char = d as char;
    if n < 10 {
        let mut v: Vec<char> = Vec::new();
        v.push(c);
        proof {
            assert(v@ =~= seq![c]);
        }
        v
    } else {
        let mut v = decimal_chars(n / 10);
        v.push(c);
        v
    }
}

/// `n` written in decimal.
pub fn decimal_string(n: usize) -> (r: String)
    ensures
        r@ == decimal(n as nat),
{
    let v = decimal_chars(n);
    string_from_chars(&v)
}

proof fn lemma_value_prefix(s: Seq<char>, k: int)
    requires
        0 <= k <= s.len(),
        all_digits(s),
    ensures
        0 <= decimal_value(s.take(k)) <= decimal_value(s),
    decreases s.len(),
{
    if s.len() > 0 {
        let d = s.drop_last();
        assert(is_digit(s[s.len() - 1]));
        assert forall|i: int| 0 <= i < d.len() implies is_digit(#[trigger] d[i]) by {
            assert(is_digit(s[i]));
        }
        if k < s.len() {
            lemma_value_prefix(d, k);
            assert(d.take(k) =~= s.take(k));
        } else {
            assert(s.take(k) =~= s);
            lemma_value_prefix(d, d.len() as int);
            assert(d.take(d.len() as int) =~= d);
        }
    } else {
        assert(s.take(k) =~= s);
    }
}

/// `value` with one more digit, if that is at most `max`.
fn with_digit(value: usize, v: usize, max: usize) -> (r: Option<usize>)
    requires
        v < 10,
    ensures
        match r {
            Some(n) => n == value * 10 + v && n <= max,
            None => value * 10 + v > max,
        },
{
    if value > (usize::MAX - v) / 10 {
        return None;
    }
    let next: usize = value * 10 + v;
    if next > max {
        None
    } else {
        Some(next)
    }
}

fn parse_digits(d: &Vec<char>, max: usize) -> (r: Option<usize>)
    ensures
        match r {
            Some(n) => digits_number(d@, max as int) == Some(n as int),
            None => digits_number(d@, max as int) is None,
        },
{
    if d.len() == 0 {
        return None;
    }
    proof {
        assert(d@.take(0) =~= Seq::<char>::empty());
    }
    let mut value: usize = 0;
    let mut i: usize = 0;
    while i < d.len()
        invariant
            i <= d.len(),
            value == decimal_value(d@.take(i as int)),
            value <= max,
            forall|k: int| 0 <= k < i ==> is_digit(#[trigger] d@[k]),
        decreases d.len() - i,
    {
        let c: char = d[i];
        proof {
            assert(d@.take(i + 1).drop_last() =~= d@.take(i as int));
            assert(d@.take(i + 1).last() == c);
        }
        if !('0' <= c && c <= '9') {
            proof {
                assert(!is_digit(d@[i as int]));
            }
            return None;
        }
        let v: usize = c as usize - 48;
        proof {
            if all_digits(d@) {
                lemma_value_prefix(d@, i + 1);
            }
        }
        match with_digit(value, v, max) {
            Some(next) => {
                value = next;
            },
            None => {
                return None;
            },
        }
        i += 1;
    }
    proof {
        assert(d@.take(d@.len() as int) =~= d@);
    }
    Some(value)
}

/// The number up to `max` that `s` is written as, as `str::parse` reads it for an unsigned type
/// with that maximum.
pub fn parse_number(s: &str, max: usize) -> (r: Option<usize>)
    ensures
        match r {
            Some(n) => number(s@, max as int) == Some(n as int),
            None => number(s@, max as int) is None,
        },
{
    let mut chars = chars_of(s);
    if chars.len() > 0 && chars[0] == '+' {
        let _ = chars.remove(0);
        proof {
            assert(chars@ =~= s@.skip(1));
        }
    }
    parse_digits(&chars, max)
}

// ---------------------------------------------------------------------------
// Laws
// ---------------------------------------------------------------------------

/// Of the characters of ASCII, tab to carriage return and the space are white space.
pub proof fn lemma_ascii_white_space(c: char)
    requires
        (c as u32) < 0x80,
    ensures
        is_white_space(c) <==> c == ' ' || c == '\t' || c == '\n' || c == '\u{b}' || c == '\u{c}'
            || c == '\r',
{
}

/// Every character of a text is white space.
pub open spec fn blank(s: Seq<char>) -> bool {
    forall|i: int| 0 <= i < s.len() ==> is_white_space(#[trigger] s[i])
}

/// Trimming takes white space away at either end and nothing else: a text is white space, what
/// trimming leaves of it, and white space.
pub proof fn lemma_trim_parts(s: Seq<char>) -> (cut: (int, int))
    ensures
        0 <= cut.0 <= cut.1 <= s.len(),
        trim(s) == s.subrange(cut.0, cut.1),
        blank(s.take(cut.0)),
        blank(s.skip(cut.1)),
        trim_start(s) == s.skip(cut.0),
{
    let a = lemma_trim_start_cut(s);
    let t = trim_start(s);
    let b = lemma_trim_end_cut(t);
    let (i, j) = (a, a + b);
    assert(trim(s) =~= s.subrange(i, j));
    assert forall|k: int| 0 <= k < s.skip(j).len() implies is_white_space(#[trigger] s.skip(j)[k]) by {
        assert(t.skip(b)[k] == s.skip(j)[k]);
        assert(is_white_space(t.skip(b)[k]));
    }
    (i, j)
}

proof fn lemma_trim_start_cut(s: Seq<char>) -> (n: int)
    ensures
        0 <= n <= s.len(),
        trim_start(s) == s.skip(n),
        blank(s.take(n)),
    decreases s.len(),
{
    if s.len() > 0 && is_white_space(s[0]) {
        let d = s.drop_first();
        let m = lemma_trim_start_cut(d);
        assert(d.skip(m) =~= s.skip(m + 1));
        assert forall|i: int| 0 <= i < m + 1 implies is_white_space(#[trigger] s.take(m + 1)[i]) by {
            if i > 0 {
                assert(d.take(m)[i - 1] == s[i]);
                assert(is_white_space(d.take(m)[i - 1]));
            }
        }
        m + 1
    } else {
        assert(s.skip(0) =~= s);
        0
    }
}

proof fn lemma_trim_end_cut(s: Seq<char>) -> (n: int)
    ensures
        0 <= n <= s.len(),
        trim_end(s) == s.take(n),
        blank(s.skip(n)),
    decreases s.len(),
{
    if s.len() > 0 && is_white_space(s.last()) {
        let d = s.drop_last();
        let m = lemma_trim_end_cut(d);
        assert(d.take(m) =~= s.take(m));
        assert forall|i: int| 0 <= i < s.skip(m).len() implies is_white_space(
            #[trigger] s.skip(m)[i],
        ) by {
            if m + i < d.len() {
                assert(d.skip(m)[i] == s.skip(m)[i]);
                assert(is_white_space(d.skip(m)[i]));
            }
        }
        m
    } else {
        assert(s.take(s.len() as int) =~= s);
        s.len() as int
    }
}

/// A text that neither starts nor ends with white space is left as it is.
pub proof fn lemma_trim_keeps(s: Seq<char>)
    requires
        s.len() > 0 ==> !is_white_space(s[0]) && !is_white_space(s.last()),
    ensures
        trim(s) == s,
        trim_end(s) == s,
{
}

/// Lower case of ASCII: the 26 capital letters become the letter 32 further on, and all else
/// stays.
pub proof fn lemma_ascii_lower(c: char)
    ensures
        'A' <= c <= 'Z' ==> ascii_lower(c) as u32 == c as u32 + 32 && 'a' <= ascii_lower(c) <= 'z',
        !('A' <= c <= 'Z') ==> ascii_lower(c) == c,
        ascii_lower(ascii_lower(c)) == ascii_lower(c),
{
}

/// The first place of a character: it stands there and nowhere before; without one it stands
/// nowhere.
pub proof fn lemma_first_from<T>(s: Seq<T>, c: T, from: int)
    requires
        0 <= from,
    ensures
        match first_from(s, c, from) {
            Some(i) => from <= i < s.len() && s[i] == c && forall|k: int|
                from <= k < i ==> s[k] != c,
            None => forall|k: int| from <= k < s.len() ==> s[k] != c,
        },
    decreases s.len() - from,
{
    if from < s.len() && s[from] != c {
        lemma_first_from(s, c, from + 1);
    }
}

/// The digits of a number are read back as that number.
pub proof fn lemma_number_read_back(n: nat, max: int)
    requires
        n <= max,
    ensures
        number(decimal(n), max) == Some(n as int),
        all_digits(decimal(n)),
        decimal(n).len() > 0,
{
    lemma_decimal_value(n);
    assert(is_digit(decimal(n)[0]));
}

proof fn lemma_decimal_value(n: nat)
    ensures
        decimal(n).len() > 0,
        all_digits(decimal(n)),
        decimal_value(decimal(n)) == n,
    decreases n,
{
    let d = decimal(n);
    if n < 10 {
        reveal_with_fuel(decimal_value, 2);
        assert(d.drop_last() =~= Seq::<char>::empty());
    } else {
        lemma_decimal_value(n / 10);
        assert(d.drop_last() =~= decimal(n / 10));
        assert forall|i: int| 0 <= i < d.len() implies is_digit(#[trigger] d[i]) by {
            if i < d.len() - 1 {
                assert(is_digit(decimal(n / 10)[i]));
            }
        }
    }
}

/// Each piece with an end behind it, put together.
pub open spec fn ended_with<T>(pieces: Seq<Seq<T>>, end: T) -> Seq<T>
    decreases pieces.len(),
{
    if pieces.len() == 0 {
        Seq::empty()
    } else {
        ended_with(pieces.drop_last(), end) + pieces.last().push(end)
    }
}

/// Splitting ended pieces gives them back, and an empty piece behind the last end.
pub proof fn lemma_split_ended<T>(pieces: Seq<Seq<T>>, end: T)
    requires
        forall|i: int| 0 <= i < pieces.len() ==> !(#[trigger] pieces[i]).contains(end),
    ensures
        split_on(ended_with(pieces, end), end) == pieces.push(Seq::empty()),
    decreases pieces.len(),
{
    if pieces.len() == 0 {
        assert(split_on(Seq::<T>::empty(), end) =~= pieces.push(Seq::empty()));
    } else {
        let d = pieces.drop_last();
        let p = pieces.last();
        assert forall|i: int| 0 <= i < d.len() implies !(#[trigger] d[i]).contains(end) by {
            assert(!pieces[i].contains(end));
        }
        lemma_split_ended(d, end);
        let a = ended_with(d, end);
        assert(!pieces[pieces.len() - 1].contains(end));
        lemma_split_append(a, p, end);
        let e = d.push(Seq::<T>::empty());
        assert(Seq::<T>::empty() + p =~= p);
        assert(e.update(e.len() - 1, e.last() + p) =~= pieces);
        assert(a + p.push(end) =~= (a + p).push(end));
        assert((a + p).push(end).drop_last() =~= a + p);
    }
}

/// Lines that were written, each with a newline behind it, are read back. A carriage return
/// before the newline is no part of the line.
pub proof fn lemma_lines_read_back(ls: Seq<Seq<char>>)
    requires
        forall|i: int|
            0 <= i < ls.len() ==> !(#[trigger] ls[i]).contains('\n') && !(ls[i].len() > 0
                && ls[i].last() == '\r'),
    ensures
        lines(ended_with(ls, '\n')) == ls,
        lines(ended_with(ls.map_values(|l: Seq<char>| l.push('\r')), '\n')) == ls,
{
    lemma_split_ended(ls, '\n');
    let p = ls.push(Seq::<char>::empty());
    assert(p.drop_last() =~= ls);
    assert(ls.map_values(|l: Seq<char>| without_cr(l)) =~= ls);
    let cr = ls.map_values(|l: Seq<char>| l.push('\r'));
    assert forall|i: int| 0 <= i < cr.len() implies !(#[trigger] cr[i]).contains('\n') by {
        assert(cr[i] == ls[i].push('\r'));
        assert(!ls[i].contains('\n'));
        if cr[i].contains('\n') {
            let k = choose|k: int| 0 <= k < cr[i].len() && cr[i][k] == '\n';
            assert(ls[i][k] == '\n');
        }
    }
    lemma_split_ended(cr, '\n');
    let q = cr.push(Seq::<char>::empty());
    assert(q.drop_last() =~= cr);
    assert forall|i: int| 0 <= i < ls.len() implies without_cr(#[trigger] cr[i]) == ls[i] by {
        assert(ls[i].push('\r').drop_last() =~= ls[i]);
    }
    assert(cr.map_values(|l: Seq<char>| without_cr(l)) =~= ls);
}

/// The pieces of two texts with a separator between them are those of the first and then those
/// of the second.
pub proof fn lemma_split_at<T>(a: Seq<T>, b: Seq<T>, sep: T)
    ensures
        split_on(a.push(sep) + b, sep) == split_on(a, sep) + split_on(b, sep),
    decreases b.len(),
{
    let p = split_on(a, sep);
    if b.len() == 0 {
        assert(a.push(sep) + b =~= a.push(sep));
        assert(a.push(sep).drop_last() =~= a);
        assert(p.push(Seq::<T>::empty()) =~= p + seq![Seq::<T>::empty()]);
    } else {
        let d = b.drop_last();
        let s = a.push(sep) + b;
        lemma_split_at(a, d, sep);
        lemma_split_pieces(d, sep);
        assert(s.drop_last() =~= a.push(sep) + d);
        let q = split_on(d, sep);
        let r = p + q;
        assert(r.last() == q.last());
        if b.last() == sep {
            assert(r.push(Seq::<T>::empty()) =~= p + q.push(Seq::<T>::empty()));
        } else {
            assert(r.update(r.len() - 1, r.last().push(b.last())) =~= p + q.update(
                q.len() - 1,
                q.last().push(b.last()),
            ));
        }
    }
}

/// The characters that count as white space, all of them.
pub proof fn lemma_white_space(c: char)
    ensures
        is_white_space(c) <==> {
            let v = c as u32;
            (0x9 <= v <= 0xd) || v == 0x20 || v == 0x85 || v == 0xa0 || v == 0x1680 || (0x2000 <= v
                <= 0x200a) || v == 0x2028 || v == 0x2029 || v == 0x202f || v == 0x205f || v == 0x3000
        },
{
}

/// Trimming is done once: nothing is left to trim, and white space put around a text changes
/// nothing.
pub proof fn lemma_trim_once(s: Seq<char>)
    ensures
        trim(trim(s)) == trim(s),
        trim(s).len() <= s.len(),
        trim(s).len() == s.len() ==> trim(s) == s,
{
    let cut = lemma_trim_parts(s);
    lemma_trimmed(s);
    lemma_trim_keeps(trim(s));
    if trim(s).len() == s.len() {
        assert(s.subrange(cut.0, cut.1) =~= s);
    }
}

/// What is no number is not read as one: a sign alone, something else than a digit, and a number
/// that is too large.
pub proof fn lemma_number_refused(s: Seq<char>, n: nat, max: int)
    requires
        0 <= max,
    ensures
        number(Seq::empty(), max) is None,
        number(seq!['+'], max) is None,
        (exists|i: int| 0 < i < s.len() && !is_digit(#[trigger] s[i])) ==> number(s, max) is None,
        s.len() > 0 && !is_digit(s[0]) && s[0] != '+' ==> number(s, max) is None,
        n > max ==> number(decimal(n), max) is None,
        n <= max ==> number(seq!['+'] + decimal(n), max) == Some(n as int),
        number(s, max) matches Some(v) ==> 0 <= v <= max,
{
    assert(seq!['+'].skip(1) =~= Seq::<char>::empty());
    if exists|i: int| 0 < i < s.len() && !is_digit(#[trigger] s[i]) {
        let i = choose|i: int| 0 < i < s.len() && !is_digit(#[trigger] s[i]);
        assert(s.skip(1)[i - 1] == s[i]);
    }
    lemma_decimal_value(n);
    assert(is_digit(decimal(n)[0]));
    let p = seq!['+'] + decimal(n);
    assert(p.skip(1) =~= decimal(n));
    if all_digits(s) {
        lemma_value_nonneg(s);
    }
    if s.len() > 0 && all_digits(s.skip(1)) {
        lemma_value_nonneg(s.skip(1));
    }
}

proof fn lemma_value_nonneg(s: Seq<char>)
    requires
        all_digits(s),
    ensures
        decimal_value(s) >= 0,
    decreases s.len(),
{
    if s.len() > 0 {
        let d = s.drop_last();
        assert forall|i: int| 0 <= i < d.len() implies is_digit(#[trigger] d[i]) by {
            assert(is_digit(s[i]));
        }
        lemma_value_nonneg(d);
        assert(is_digit(s[s.len() - 1]));
    }
}

} // verus!
