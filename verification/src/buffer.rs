//! Byte positions in a text: character boundaries, lines, slices, splices and UTF-16 offsets.
//!
//! An offset is a number of bytes of the UTF-8 form of the text, newlines included.

use crate::text;
use vstd::prelude::*;
use vstd::utf8::*;

verus! {

broadcast use vstd::seq_lib::group_seq_properties;

// ---------------------------------------------------------------------------
// Boundaries
// ---------------------------------------------------------------------------

/// Offset `i` lies between two characters of `b`, or at one of its ends.
pub open spec fn boundary(b: Seq<u8>, i: int) -> bool {
    0 <= i <= b.len() && (i == b.len() || !is_continuation_byte(b[i]))
}

/// `start..end` are whole characters of `b`.
pub open spec fn char_range(b: Seq<u8>, start: int, end: int) -> bool {
    boundary(b, start) && boundary(b, end) && start <= end
}

/// What a text has at the start of a character is what `is_char_boundary` says.
pub proof fn lemma_boundary(s: Seq<char>, i: int)
    ensures
        valid_utf8(encode_utf8(s)),
        boundary(encode_utf8(s), i) == is_char_boundary(encode_utf8(s), i),
{
    let b = encode_utf8(s);
    encode_utf8_valid_utf8(s);
    is_char_boundary_start_end_of_seq(b);
    if 0 <= i < b.len() {
        is_char_boundary_iff_not_is_continuation_byte(b, i);
    }
}

/// The ends of a text are boundaries.
pub proof fn lemma_ends(s: Seq<char>)
    ensures
        boundary(encode_utf8(s), 0),
        boundary(encode_utf8(s), text::blen(s) as int),
{
    encode_utf8_valid_utf8(s);
    is_char_boundary_start_end_of_seq(encode_utf8(s));
    lemma_boundary(s, 0);
}

/// The offset after the first `n` characters is a boundary.
pub proof fn lemma_prefix_boundary(s: Seq<char>, n: int)
    requires
        0 <= n <= s.len(),
    ensures
        boundary(encode_utf8(s), text::blen(s.take(n)) as int),
        encode_utf8(s).subrange(0, text::blen(s.take(n)) as int) == encode_utf8(s.take(n)),
        encode_utf8(s).subrange(text::blen(s.take(n)) as int, text::blen(s) as int)
            == encode_utf8(s.skip(n)),
{
    let a = s.take(n);
    let c = s.skip(n);
    assert(s == a + c);
    text::lemma_encode_concat(a, c);
    lemma_ends(c);
    let b = encode_utf8(s);
    let i = text::blen(a) as int;
    if i < b.len() {
        assert(b[i] == encode_utf8(c)[0]);
    }
    assert(b.subrange(0, i) == encode_utf8(a));
    assert(b.subrange(i, b.len() as int) == encode_utf8(c));
}

/// A boundary is the offset after some number of characters.
pub proof fn lemma_boundary_is_prefix(s: Seq<char>, i: int) -> (n: int)
    requires
        boundary(encode_utf8(s), i),
    ensures
        0 <= n <= s.len(),
        text::blen(s.take(n)) == i,
{
    let b = encode_utf8(s);
    lemma_boundary(s, i);
    valid_utf8_split(b, i);
    decode_utf8_split(b, i);
    encode_utf8_decode_utf8(s);
    let p = b.subrange(0, i);
    let a = decode_utf8(p);
    decode_utf8_encode_utf8(p);
    assert(s.take(a.len() as int) == a);
    a.len() as int
}

/// Next to an ASCII byte there is a boundary on either side.
pub proof fn lemma_ascii_boundary(s: Seq<char>, i: int)
    requires
        0 <= i < text::blen(s),
        encode_utf8(s)[i] < 0x80,
    ensures
        boundary(encode_utf8(s), i),
        boundary(encode_utf8(s), i + 1),
{
    let b = encode_utf8(s);
    let n = lemma_boundary_is_prefix(s, i);
    assert(n < s.len()) by {
        if n == s.len() {
            assert(s.take(n) == s);
        }
    }
    let c = s[n];
    lemma_prefix_boundary(s, n);
    lemma_prefix_boundary(s, n + 1);
    assert(s.take(n + 1) == s.take(n).push(c));
    text::lemma_encode_push(s.take(n), c);
    text::lemma_char_len(c);
    // The byte at `i` is the first byte of `c`, so `c` takes one byte.
    let e = encode_scalar(c as u32);
    assert(encode_utf8(s.take(n + 1))[i] == e[0]);
    assert(b[i] == e[0]) by {
        assert(b.subrange(0, text::blen(s.take(n + 1)) as int)[i] == b[i]);
    }
    lemma_leading_byte(c);
}

/// A character whose first byte is ASCII takes one byte.
pub proof fn lemma_leading_byte(c: char)
    ensures
        encode_scalar(c as u32).len() > 0,
        encode_scalar(c as u32)[0] < 0x80 ==> encode_scalar(c as u32).len() == 1,
        (c as u32) < 0x80 ==> encode_scalar(c as u32) == seq![c as u8],
        (c as u32) >= 0x80 ==> forall|k: int|
            0 <= k < encode_scalar(c as u32).len() ==> #[trigger] encode_scalar(c as u32)[k]
                >= 0x80,
{
    let v = c as u32;
    char_is_scalar(c);
    assert((0xC0u8 | (((v >> 6) & 0x1F) as u8)) >= 0x80) by (bit_vector);
    assert((0xE0u8 | (((v >> 12) & 0x0F) as u8)) >= 0x80) by (bit_vector);
    assert((0xF0u8 | (((v >> 18) & 0x7) as u8)) >= 0x80) by (bit_vector);
    assert((0x80u8 | ((v & 0x3F) as u8)) >= 0x80) by (bit_vector);
    assert((0x80u8 | (((v >> 6) & 0x3F) as u8)) >= 0x80) by (bit_vector);
    assert((0x80u8 | (((v >> 12) & 0x3F) as u8)) >= 0x80) by (bit_vector);
    assert(v < 0x80 ==> (v & 0x7F) == v) by (bit_vector);
}

// ---------------------------------------------------------------------------
// Slices and splices
// ---------------------------------------------------------------------------

/// `b` with the part from `start` on replaced, up to `end`, by `t`.
pub open spec fn spliced(b: Seq<u8>, start: int, end: int, t: Seq<u8>) -> Seq<u8> {
    b.subrange(0, start) + t + b.subrange(end, b.len() as int)
}

/// The text before `start`, then `new_text`, then the text from `end` on.
pub fn splice(content: &str, start: usize, end: usize, new_text: &str) -> (r: String)
    requires
        boundary(encode_utf8(content@), start as int),
        boundary(encode_utf8(content@), end as int),
    ensures
        encode_utf8(r@) == spliced(
            encode_utf8(content@),
            start as int,
            end as int,
            encode_utf8(new_text@),
        ),
        boundary(encode_utf8(r@), start as int),
        boundary(encode_utf8(r@), start + text::blen(new_text@)),
{
    proof {
        lemma_boundary(content@, start as int);
        lemma_boundary(content@, end as int);
    }
    let (a, _) = content.split_at(start);
    let (_, c) = content.split_at(end);
    let r = String::from_str(a).concat(new_text).concat(c);
    proof {
        text::lemma_encode_concat(a@ + new_text@, c@);
        text::lemma_encode_concat(a@, new_text@);
        let all = a@ + new_text@ + c@;
        assert(all.take(a@.len() as int) == a@);
        lemma_prefix_boundary(all, a@.len() as int);
        assert(all.take((a@ + new_text@).len() as int) == a@ + new_text@);
        lemma_prefix_boundary(all, (a@ + new_text@).len() as int);
    }
    r
}

/// The text of `start..end`.
pub fn slice(content: &str, start: usize, end: usize) -> (r: String)
    requires
        char_range(encode_utf8(content@), start as int, end as int),
    ensures
        encode_utf8(r@) == encode_utf8(content@).subrange(start as int, end as int),
{
    proof {
        lemma_boundary(content@, end as int);
    }
    let (a, _) = content.split_at(end);
    proof {
        let b = encode_utf8(content@);
        assert(encode_utf8(a@) == b.subrange(0, end as int));
        assert(boundary(encode_utf8(a@), start as int));
        lemma_boundary(a@, start as int);
    }
    let (_, m) = a.split_at(start);
    proof {
        let b = encode_utf8(content@);
        assert(b.subrange(0, end as int).subrange(start as int, end as int) == b.subrange(
            start as int,
            end as int,
        ));
    }
    m.to_owned()
}

/// Whether the byte offset `i` is the start of a character or the end of the text.
pub fn is_boundary(bytes: &[u8], i: usize) -> (r: bool)
    ensures
        r == boundary(bytes@, i as int),
{
    if i < bytes.len() {
        let b: u8 = bytes[i];
        !(0x80 <= b && b <= 0xbf)
    } else {
        i == bytes.len()
    }
}

/// The text of `start..end`, if these are whole characters.
pub fn get(content: &str, start: usize, end: usize) -> (r: Option<String>)
    ensures
        match r {
            Some(s) => char_range(encode_utf8(content@), start as int, end as int) && encode_utf8(
                s@,
            ) == encode_utf8(content@).subrange(start as int, end as int),
            None => !char_range(encode_utf8(content@), start as int, end as int),
        },
{
    let bytes = content.as_bytes();
    if start <= end && is_boundary(bytes, start) && is_boundary(bytes, end) {
        Some(slice(content, start, end))
    } else {
        None
    }
}

/// The number of bytes of `s`.
pub fn byte_len(s: &str) -> (n: usize)
    ensures
        n == text::blen(s@),
{
    s.as_bytes().len()
}

// ---------------------------------------------------------------------------
// Lines
// ---------------------------------------------------------------------------

/// The byte of a newline.
pub const NL: u8 = 10;

/// How many newlines lie before offset `off`.
pub open spec fn newlines(b: Seq<u8>, off: int) -> int
    decreases off,
{
    if off <= 0 {
        0
    } else {
        newlines(b, off - 1) + (if b[off - 1] == NL {
            1int
        } else {
            0
        })
    }
}

/// Where the line that `off` lies on begins.
pub open spec fn line_begin(b: Seq<u8>, off: int) -> int
    decreases off,
{
    if off <= 0 {
        0
    } else if b[off - 1] == NL {
        off
    } else {
        line_begin(b, off - 1)
    }
}

/// Where the line that `off` lies on ends, its newline left out.
pub open spec fn line_finish(b: Seq<u8>, off: int) -> int
    decreases b.len() - off,
{
    if off >= b.len() {
        b.len() as int
    } else if b[off] == NL {
        off
    } else {
        line_finish(b, off + 1)
    }
}

/// Where line `k` starts; past the last line, one more than the length.
pub open spec fn line_start(b: Seq<u8>, k: int) -> int
    decreases k,
{
    if k <= 0 {
        0
    } else {
        let p = line_start(b, k - 1);
        if p > b.len() {
            p
        } else {
            line_finish(b, p) + 1
        }
    }
}

/// The line that offset `off` lies on; past the end of the text, the last line.
pub open spec fn line_of(b: Seq<u8>, off: int) -> int {
    newlines(
        b,
        if off <= b.len() {
            off
        } else {
            b.len() as int
        },
    )
}

/// How many lines the text has.
pub open spec fn line_total(b: Seq<u8>) -> int {
    newlines(b, b.len() as int) + 1
}

pub proof fn lemma_newlines_mono(b: Seq<u8>, i: int, j: int)
    requires
        0 <= i <= j <= b.len(),
    ensures
        0 <= newlines(b, i) <= newlines(b, j) <= newlines(b, i) + (j - i),
    decreases j,
{
    if i < j {
        lemma_newlines_mono(b, i, j - 1);
    } else {
        lemma_newlines_bounds(b, i);
    }
}

proof fn lemma_newlines_bounds(b: Seq<u8>, i: int)
    requires
        0 <= i <= b.len(),
    ensures
        0 <= newlines(b, i) <= i,
    decreases i,
{
    if i > 0 {
        lemma_newlines_bounds(b, i - 1);
    }
}

/// The start of a line: no newline lies between it and the offset.
pub proof fn lemma_line_begin(b: Seq<u8>, off: int)
    requires
        0 <= off <= b.len(),
    ensures
        0 <= line_begin(b, off) <= off,
        line_begin(b, off) > 0 ==> b[line_begin(b, off) - 1] == NL,
        forall|i: int| line_begin(b, off) <= i < off ==> b[i] != NL,
        newlines(b, line_begin(b, off)) == newlines(b, off),
        line_begin(b, line_begin(b, off)) == line_begin(b, off),
    decreases off,
{
    if off > 0 && b[off - 1] != NL {
        lemma_line_begin(b, off - 1);
    }
}

/// The end of a line: no newline lies between the offset and it.
pub proof fn lemma_line_finish(b: Seq<u8>, off: int)
    requires
        0 <= off <= b.len(),
    ensures
        off <= line_finish(b, off) <= b.len(),
        line_finish(b, off) < b.len() ==> b[line_finish(b, off)] == NL,
        forall|i: int| off <= i < line_finish(b, off) ==> b[i] != NL,
        newlines(b, line_finish(b, off)) == newlines(b, off),
        line_begin(b, line_finish(b, off)) == line_begin(b, off),
    decreases b.len() - off,
{
    if off < b.len() && b[off] != NL {
        lemma_line_finish(b, off + 1);
        assert(newlines(b, off + 1) == newlines(b, off));
        assert(line_begin(b, off + 1) == line_begin(b, off));
    }
}

/// The starts of the lines that exist are offsets of the text, and the line that begins at
/// the start of line `k` is line `k`.
pub proof fn lemma_line_start(b: Seq<u8>, k: int)
    requires
        0 <= k < line_total(b),
    ensures
        0 <= line_start(b, k) <= b.len(),
        newlines(b, line_start(b, k)) == k,
        line_begin(b, line_start(b, k)) == line_start(b, k),
        k + 1 < line_total(b) ==> line_finish(b, line_start(b, k)) < b.len(),
    decreases k,
{
    if k > 0 {
        lemma_line_start(b, k - 1);
        let p = line_start(b, k - 1);
        lemma_line_finish(b, p);
        let f = line_finish(b, p);
        assert(newlines(b, f + 1) == newlines(b, f) + 1);
    }
    let q = line_start(b, k);
    lemma_line_finish(b, q);
    let g = line_finish(b, q);
    if g == b.len() {
        assert(newlines(b, b.len() as int) == k);
    }
}

/// The line of an offset and the start of a line undo each other: the start of the line that
/// an offset lies on is where that line begins.
pub proof fn lemma_line_round_trip(b: Seq<u8>, off: int)
    requires
        0 <= off <= b.len(),
    ensures
        0 <= newlines(b, off) < line_total(b),
        line_start(b, newlines(b, off)) == line_begin(b, off),
    decreases off,
{
    lemma_newlines_mono(b, off, b.len() as int);
    let k = newlines(b, off);
    lemma_line_start(b, k);
    lemma_line_begin(b, off);
    let p = line_start(b, k);
    let q = line_begin(b, off);
    if p < q {
        lemma_newlines_mono(b, p, q - 1);
        assert(newlines(b, q) == newlines(b, q - 1) + 1);
    } else if q < p {
        // `p` is a line start, so a newline lies right before it.
        if p > 0 {
            lemma_line_begin(b, p);
            assert(b[p - 1] == NL);
            lemma_newlines_mono(b, q, p - 1);
            assert(newlines(b, p) == newlines(b, p - 1) + 1);
        }
    }
}

/// The newlines of two runs of bytes put together.
proof fn lemma_newlines_concat(a: Seq<u8>, b: Seq<u8>, n: int)
    requires
        0 <= n <= b.len(),
    ensures
        newlines(a + b, a.len() + n) == newlines(a, a.len() as int) + newlines(b, n),
    decreases n,
{
    if n == 0 {
        lemma_newlines_prefix(a, a + b, a.len() as int);
    } else {
        lemma_newlines_concat(a, b, n - 1);
        assert((a + b)[a.len() + n - 1] == b[n - 1]);
    }
}

/// Only the bytes before an offset count.
proof fn lemma_newlines_prefix(a: Seq<u8>, b: Seq<u8>, n: int)
    requires
        0 <= n <= a.len(),
        n <= b.len(),
        forall|i: int| 0 <= i < n ==> #[trigger] a[i] == b[i],
    ensures
        newlines(a, n) == newlines(b, n),
    decreases n,
{
    if n > 0 {
        lemma_newlines_prefix(a, b, n - 1);
    }
}

/// Bytes without a newline among them have none.
proof fn lemma_no_newlines(b: Seq<u8>, n: int)
    requires
        0 <= n <= b.len(),
        forall|i: int| 0 <= i < b.len() ==> #[trigger] b[i] != NL,
    ensures
        newlines(b, n) == 0,
    decreases n,
{
    if n > 0 {
        lemma_no_newlines(b, n - 1);
    }
}

/// A text has as many lines as pieces between its newlines.
pub proof fn lemma_line_total(s: Seq<char>)
    ensures
        line_total(encode_utf8(s)) == text::split_on(s, '\n').len(),
    decreases s.len(),
{
    if s.len() == 0 {
        assert(text::blen(s) == 0);
    } else {
        let d = s.drop_last();
        let c = s.last();
        lemma_line_total(d);
        text::lemma_split_pieces(d, '\n');
        text::lemma_encode_push(d, c);
        assert(d.push(c) == s);
        let e = encode_scalar(c as u32);
        lemma_newlines_concat(encode_utf8(d), e, e.len() as int);
        lemma_newline_bytes(c);
        if c != '\n' {
            lemma_no_newlines(e, e.len() as int);
        }
    }
}

/// Of all characters only the newline has a newline byte.
proof fn lemma_newline_bytes(c: char)
    ensures
        ({
            let e = encode_scalar(c as u32);
            if c == '\n' {
                newlines(e, e.len() as int) == 1
            } else {
                forall|i: int| 0 <= i < e.len() ==> #[trigger] e[i] != NL
            }
        }),
{
    let e = encode_scalar(c as u32);
    let v = c as u32;
    lemma_leading_byte(c);
    char_is_scalar(c);
    if c == '\n' {
        assert(e =~= seq![10u8]);
        reveal_with_fuel(newlines, 2);
    } else {
        assert forall|i: int| 0 <= i < e.len() implies #[trigger] e[i] != NL by {
            if v < 0x80 {
                assert(e =~= seq![c as u8]);
                assert(i == 0);
                assert(v != 10);
                assert(v < 0x80 && v != 10 ==> v as u8 != 10) by (bit_vector);
            } else {
                assert(encode_scalar(c as u32)[i] >= 0x80);
            }
        }
    }
}

/// Lines and offsets: the start of a line lies on that line, the line of an offset starts at or
/// before it, and a newline lies on the line that it ends.
pub proof fn lemma_lines(content: Seq<char>, line: int, off: int)
    requires
        0 <= line < text::split_on(content, '\n').len(),
        0 <= off <= text::blen(content),
    ensures
        ({
            let b = encode_utf8(content);
            let start = line_start(b, line_of(b, off));
            &&& line_of(b, line_start(b, line)) == line
            &&& 0 <= line_of(b, off) < text::split_on(content, '\n').len()
            &&& start <= off
            &&& off < b.len() && b[off] == NL ==> line_finish(b, start) == off
        }),
{
    let b = encode_utf8(content);
    lemma_line_total(content);
    lemma_line_start(b, line);
    lemma_line_round_trip(b, off);
    lemma_line_begin(b, off);
    let start = line_begin(b, off);
    lemma_line_finish(b, start);
    if off < b.len() && b[off] == NL {
        let f = line_finish(b, start);
        if f < off {
            assert(b[f] == NL);
        }
    }
}

/// The offset right after a newline byte, the newline itself, and both ends of a line are
/// boundaries.
pub proof fn lemma_line_boundaries(s: Seq<char>, off: int)
    requires
        0 <= off <= text::blen(s),
    ensures
        boundary(encode_utf8(s), line_begin(encode_utf8(s), off)),
        boundary(encode_utf8(s), line_finish(encode_utf8(s), off)),
{
    let b = encode_utf8(s);
    lemma_ends(s);
    lemma_line_begin(b, off);
    lemma_line_finish(b, off);
    let p = line_begin(b, off);
    let f = line_finish(b, off);
    if p > 0 {
        lemma_ascii_boundary(s, p - 1);
    }
    if f < b.len() {
        lemma_ascii_boundary(s, f);
    }
}

/// Where the line that `off` lies on begins.
pub fn find_line_begin(bytes: &[u8], off: usize) -> (r: usize)
    requires
        off <= bytes@.len(),
    ensures
        r == line_begin(bytes@, off as int),
        r <= off,
{
    let mut i: usize = off;
    while i > 0 && bytes[i - 1] != NL
        invariant
            i <= off <= bytes@.len(),
            line_begin(bytes@, i as int) == line_begin(bytes@, off as int),
        decreases i,
    {
        i -= 1;
    }
    i
}

/// Where the line that `off` lies on ends, its newline left out.
pub fn find_line_finish(bytes: &[u8], off: usize) -> (r: usize)
    requires
        off <= bytes@.len(),
    ensures
        r == line_finish(bytes@, off as int),
        off <= r <= bytes@.len(),
{
    let mut i: usize = off;
    while i < bytes.len() && bytes[i] != NL
        invariant
            off <= i <= bytes@.len(),
            line_finish(bytes@, i as int) == line_finish(bytes@, off as int),
        decreases bytes@.len() - i,
    {
        i += 1;
    }
    i
}

/// How many newlines lie before `off`.
pub fn count_newlines(bytes: &[u8], off: usize) -> (n: usize)
    requires
        off <= bytes@.len(),
    ensures
        n == newlines(bytes@, off as int),
{
    let mut i: usize = 0;
    let mut n: usize = 0;
    while i < off
        invariant
            i <= off <= bytes@.len(),
            n == newlines(bytes@, i as int),
            n <= i,
        decreases off - i,
    {
        if bytes[i] == NL {
            n += 1;
        }
        i += 1;
    }
    n
}

/// The 0-based line that offset `off` lies on.
pub fn line_of_offset(content: &str, off: usize) -> (r: usize)
    ensures
        r == line_of(encode_utf8(content@), off as int),
{
    let bytes = content.as_bytes();
    let at: usize = if off <= bytes.len() {
        off
    } else {
        bytes.len()
    };
    count_newlines(bytes, at)
}

/// The offset at which line `line` starts; past the last line, one more than the length.
pub fn line_byte_start(content: &str, line: usize) -> (r: usize)
    requires
        text::blen(content@) < usize::MAX || line < line_total(encode_utf8(content@)),
    ensures
        r == line_start(encode_utf8(content@), line as int),
        r <= text::blen(content@) + 1,
{
    let bytes = content.as_bytes();
    let mut p: usize = 0;
    let mut k: usize = 0;
    while k < line
        invariant
            k <= line,
            bytes@ == encode_utf8(content@),
            text::blen(content@) < usize::MAX || line < line_total(encode_utf8(content@)),
            p == line_start(bytes@, k as int),
            p <= bytes@.len() + 1,
        decreases line - k,
    {
        proof {
            if line < line_total(bytes@) {
                lemma_line_start(bytes@, k as int);
            }
        }
        if p <= bytes.len() {
            p = find_line_finish(bytes, p) + 1;
        }
        k += 1;
    }
    p
}

/// The offset at which line `k`, which exists, starts.
pub fn start_of_line(bytes: &[u8], k: usize) -> (r: usize)
    requires
        k < line_total(bytes@),
    ensures
        r == line_start(bytes@, k as int),
        r <= bytes@.len(),
{
    let n: usize = bytes.len();
    let mut p: usize = 0;
    let mut j: usize = 0;
    while j < k
        invariant
            n == bytes@.len(),
            j <= k < line_total(bytes@),
            p == line_start(bytes@, j as int),
            p <= bytes@.len(),
        decreases k - j,
    {
        proof {
            lemma_line_start(bytes@, j as int);
            lemma_line_start(bytes@, j + 1);
        }
        p = find_line_finish(bytes, p) + 1;
        j += 1;
    }
    p
}

/// The offsets at which the lines start, in order.
pub fn all_line_starts(content: &str) -> (r: Vec<usize>)
    ensures
        r@.len() == line_total(encode_utf8(content@)),
        forall|k: int|
            0 <= k < r@.len() ==> (#[trigger] r@[k]) == line_start(encode_utf8(content@), k),
{
    let bytes = content.as_bytes();
    let ghost b = encode_utf8(content@);
    let mut starts: Vec<usize> = Vec::new();
    starts.push(0);
    let mut i: usize = 0;
    while i < bytes.len()
        invariant
            i <= bytes@.len(),
            bytes@ == b,
            starts@.len() == newlines(b, i as int) + 1,
            forall|k: int| 0 <= k < starts@.len() ==> (#[trigger] starts@[k]) == line_start(b, k),
        decreases bytes@.len() - i,
    {
        if bytes[i] == NL {
            proof {
                lemma_line_round_trip(b, i + 1);
            }
            starts.push(i + 1);
        }
        i += 1;
    }
    starts
}

/// The largest number of bytes in one line, newlines left out.
pub open spec fn longest_line(b: Seq<u8>, k: int) -> int
    decreases k,
{
    if k <= 0 {
        0
    } else {
        let p = line_start(b, k - 1);
        let n = line_finish(b, p) - p;
        let r = longest_line(b, k - 1);
        if n > r {
            n
        } else {
            r
        }
    }
}

/// The number of bytes of the longest line.
pub fn max_line_len(content: &str) -> (r: usize)
    ensures
        r == longest_line(encode_utf8(content@), line_total(encode_utf8(content@))),
{
    let bytes = content.as_bytes();
    let starts = all_line_starts(content);
    let ghost b = encode_utf8(content@);
    let mut best: usize = 0;
    let mut k: usize = 0;
    while k < starts.len()
        invariant
            k <= starts@.len(),
            bytes@ == b,
            starts@.len() == line_total(b),
            forall|j: int| 0 <= j < starts@.len() ==> (#[trigger] starts@[j]) == line_start(b, j),
            best == longest_line(b, k as int),
        decreases starts@.len() - k,
    {
        proof {
            lemma_line_start(b, k as int);
        }
        let p: usize = starts[k];
        let n: usize = find_line_finish(bytes, p) - p;
        if n > best {
            best = n;
        }
        k += 1;
    }
    best
}

// ---------------------------------------------------------------------------
// UTF-16 offsets
// ---------------------------------------------------------------------------

/// The UTF-16 units that a character takes.
pub open spec fn units(c: char) -> int {
    if (c as u32) < 0x10000 {
        1
    } else {
        2
    }
}

/// The UTF-16 units that a text takes.
pub open spec fn utf16_len(s: Seq<char>) -> int
    decreases s.len(),
{
    if s.len() == 0 {
        0
    } else {
        utf16_len(s.drop_last()) + units(s.last())
    }
}

/// The offset in UTF-16 units of the first character boundary at or after byte `off`.
pub open spec fn to_utf16(s: Seq<char>, off: int) -> int
    decreases s.len(),
{
    if s.len() == 0 || off <= 0 {
        0
    } else {
        units(s[0]) + to_utf16(s.drop_first(), off - text::blen(seq![s[0]]))
    }
}

/// The offset in bytes of the first character boundary at or after UTF-16 unit `off`.
pub open spec fn from_utf16(s: Seq<char>, off: int) -> int
    decreases s.len(),
{
    if s.len() == 0 || off <= 0 {
        0
    } else {
        text::blen(seq![s[0]]) + from_utf16(s.drop_first(), off - units(s[0]))
    }
}

/// The number of bytes of a text, from its first character.
proof fn lemma_blen_first(s: Seq<char>)
    requires
        s.len() > 0,
    ensures
        text::blen(s) == text::blen(seq![s[0]]) + text::blen(s.drop_first()),
{
    assert(s == seq![s[0]] + s.drop_first());
    text::lemma_encode_concat(seq![s[0]], s.drop_first());
}

/// The number of units of a text, from its first character.
proof fn lemma_utf16_first(s: Seq<char>)
    requires
        s.len() > 0,
    ensures
        utf16_len(s) == units(s[0]) + utf16_len(s.drop_first()),
    decreases s.len(),
{
    if s.len() == 1 {
        assert(s.drop_last() == Seq::<char>::empty());
        assert(s.drop_first() == Seq::<char>::empty());
    } else {
        lemma_utf16_first(s.drop_last());
        assert(s.drop_last().drop_first() == s.drop_first().drop_last());
    }
}

/// At the boundary after `n` characters the byte offset and the UTF-16 offset are turned into
/// each other.
pub proof fn lemma_utf16_round_trip(s: Seq<char>, n: int)
    requires
        0 <= n <= s.len(),
    ensures
        to_utf16(s, text::blen(s.take(n)) as int) == utf16_len(s.take(n)),
        from_utf16(s, utf16_len(s.take(n))) == text::blen(s.take(n)),
        0 <= utf16_len(s.take(n)),
    decreases s.len(),
{
    if n > 0 {
        let t = s.take(n);
        assert(t[0] == s[0]);
        assert(t.drop_first() == s.drop_first().take(n - 1));
        lemma_blen_first(t);
        lemma_utf16_first(t);
        text::lemma_char_len(s[0]);
        lemma_utf16_round_trip(s.drop_first(), n - 1);
    } else {
        assert(s.take(0) == Seq::<char>::empty());
    }
}

/// A byte offset made from a UTF-16 offset is a boundary.
pub proof fn lemma_from_utf16_boundary(s: Seq<char>, off: int) -> (n: int)
    ensures
        0 <= n <= s.len(),
        from_utf16(s, off) == text::blen(s.take(n)),
        boundary(encode_utf8(s), from_utf16(s, off)),
    decreases s.len(),
{
    if s.len() == 0 || off <= 0 {
        lemma_ends(s);
        assert(s.take(0) == Seq::<char>::empty());
        0
    } else {
        let m = lemma_from_utf16_boundary(s.drop_first(), off - units(s[0]));
        let n = m + 1;
        assert(s.take(n).drop_first() == s.drop_first().take(m));
        assert(s.take(n)[0] == s[0]);
        lemma_blen_first(s.take(n));
        lemma_prefix_boundary(s, n);
        n
    }
}

/// The byte offset of the first character boundary at or after UTF-16 unit `off`.
pub fn offset_from_utf16(content: &str, off: usize) -> (r: usize)
    ensures
        r == from_utf16(content@, off as int),
        boundary(encode_utf8(content@), r as int),
{
    let chars = text::chars_of(content);
    let total: usize = byte_len(content);
    let mut u8o: usize = 0;
    let mut left: usize = off;
    let mut i: usize = 0;
    proof {
        assert(chars@.skip(0) == chars@);
        assert(chars@.take(0) == Seq::<char>::empty());
    }
    while i < chars.len() && left > 0
        invariant
            i <= chars@.len(),
            chars@ == content@,
            total == text::blen(content@),
            u8o == text::blen(chars@.take(i as int)),
            u8o + from_utf16(chars@.skip(i as int), left as int) == from_utf16(
                content@,
                off as int,
            ),
        decreases chars@.len() - i,
    {
        let c = chars[i];
        let n: usize = text::len_utf8(c);
        proof {
            let t = chars@.skip(i as int);
            assert(t[0] == c);
            assert(t.drop_first() == chars@.skip(i + 1));
            assert(chars@.take(i + 1) == chars@.take(i as int).push(c));
            text::lemma_encode_push(chars@.take(i as int), c);
            text::lemma_encode_concat(chars@.take(i + 1), chars@.skip(i + 1));
            assert(chars@ == chars@.take(i + 1) + chars@.skip(i + 1));
        }
        let w: usize = if (c as u32) < 0x10000 {
            1
        } else {
            2
        };
        u8o = u8o + n;
        proof {
            // Past the offset nothing more is walked over.
            assert(left < w ==> from_utf16(chars@.skip(i + 1), left - w) == 0 && from_utf16(
                chars@.skip(i + 1),
                0,
            ) == 0);
        }
        left = if left < w {
            0
        } else {
            left - w
        };
        i += 1;
    }
    proof {
        let _ = lemma_from_utf16_boundary(content@, off as int);
    }
    u8o
}

/// The UTF-16 offset of the first character boundary at or after byte `off`.
pub fn offset_to_utf16(content: &str, off: usize) -> (r: usize)
    ensures
        r == to_utf16(content@, off as int),
{
    let chars = text::chars_of(content);
    let total: usize = byte_len(content);
    let mut u16o: usize = 0;
    let mut left: usize = off;
    let mut i: usize = 0;
    proof {
        assert(chars@.skip(0) == chars@);
        assert(chars@.take(0) == Seq::<char>::empty());
    }
    while i < chars.len() && left > 0
        invariant
            i <= chars@.len(),
            chars@ == content@,
            total == text::blen(content@),
            u16o <= text::blen(chars@.take(i as int)),
            u16o + to_utf16(chars@.skip(i as int), left as int) == to_utf16(content@, off as int),
        decreases chars@.len() - i,
    {
        let c = chars[i];
        let n: usize = text::len_utf8(c);
        proof {
            let t = chars@.skip(i as int);
            assert(t[0] == c);
            assert(t.drop_first() == chars@.skip(i + 1));
            assert(chars@.take(i + 1) == chars@.take(i as int).push(c));
            text::lemma_encode_push(chars@.take(i as int), c);
            text::lemma_encode_concat(chars@.take(i + 1), chars@.skip(i + 1));
            assert(chars@ == chars@.take(i + 1) + chars@.skip(i + 1));
            text::lemma_char_len(c);
        }
        let w: usize = if (c as u32) < 0x10000 {
            1
        } else {
            2
        };
        u16o = u16o + w;
        proof {
            assert(left < n ==> to_utf16(chars@.skip(i + 1), left - n) == 0 && to_utf16(
                chars@.skip(i + 1),
                0,
            ) == 0);
        }
        left = if left < n {
            0
        } else {
            left - n
        };
        i += 1;
    }
    u16o
}

/// The longest line is as long as one of the lines, and no line is longer.
pub proof fn lemma_longest_line(b: Seq<u8>, k: int)
    requires
        0 <= k <= line_total(b),
    ensures
        forall|l: int|
            0 <= l < k ==> line_finish(b, #[trigger] line_start(b, l)) - line_start(b, l)
                <= longest_line(b, k),
        longest_line(b, k) == 0 || exists|l: int|
            0 <= l < k && line_finish(b, #[trigger] line_start(b, l)) - line_start(b, l)
                == longest_line(b, k),
    decreases k,
{
    if k > 0 {
        lemma_longest_line(b, k - 1);
        let p = line_start(b, k - 1);
        assert(line_finish(b, p) - p <= longest_line(b, k));
    }
}

/// A text with a part replaced: what stands before it and behind it stays.
pub proof fn lemma_spliced(b: Seq<u8>, start: int, end: int, t: Seq<u8>)
    requires
        0 <= start <= end <= b.len(),
    ensures
        spliced(b, start, end, t).len() == b.len() - (end - start) + t.len(),
        spliced(b, start, end, t).take(start) == b.take(start),
        spliced(b, start, end, t).subrange(start, start + t.len()) == t,
        spliced(b, start, end, t).skip(start + t.len()) == b.skip(end),
        spliced(spliced(b, start, end, t), start, start + t.len(), b.subrange(start, end)) == b,
{
    let s = spliced(b, start, end, t);
    assert(s.take(start) =~= b.take(start));
    assert(s.subrange(start, start + t.len()) =~= t);
    assert(s.skip(start + t.len()) =~= b.skip(end));
    assert(spliced(s, start, start + t.len(), b.subrange(start, end)) =~= b);
}

/// A character takes two UTF-16 units if it takes four bytes, and else one.
pub proof fn lemma_units(s: Seq<char>, c: char)
    ensures
        units(c) == 2 <==> text::blen(seq![c]) == 4,
        units(c) == 1 <==> text::blen(seq![c]) < 4,
        utf16_len(s.push(c)) == utf16_len(s) + units(c),
        utf16_len(Seq::empty()) == 0,
{
    text::lemma_char_len(c);
    assert(s.push(c).drop_last() =~= s);
}

} // verus!
