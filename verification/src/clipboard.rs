//! Files on the system clipboard: their addresses, and where they are copied to.

use crate::path;
use crate::text;
use vstd::prelude::*;
use vstd::utf8::*;

verus! {

broadcast use vstd::seq_lib::group_seq_properties;

/// The value of a hexadecimal digit.
pub open spec fn hex_value(b: u8) -> Option<int> {
    if 0x30 <= b <= 0x39 {
        Some(b - 0x30)
    } else if 0x61 <= b <= 0x66 {
        Some(b - 0x61 + 10)
    } else if 0x41 <= b <= 0x46 {
        Some(b - 0x41 + 10)
    } else {
        None
    }
}

/// A percent sign and two hexadecimal digits stand at `i`.
pub open spec fn escape_at(b: Seq<u8>, i: int) -> bool {
    0 <= i && i + 2 < b.len() && b[i] == 0x25 && hex_value(b[i + 1]) is Some && hex_value(
        b[i + 2],
    ) is Some
}

/// The bytes from `i` on, with each percent sign and its two hexadecimal digits turned into the
/// byte that they stand for.
pub open spec fn percent_decoded(b: Seq<u8>, i: int) -> Seq<u8>
    decreases b.len() - i,
{
    if i < 0 || i >= b.len() {
        Seq::empty()
    } else if escape_at(b, i) {
        seq![(hex_value(b[i + 1])->0 * 16 + hex_value(b[i + 2])->0) as u8] + percent_decoded(
            b,
            i + 3,
        )
    } else {
        seq![b[i]] + percent_decoded(b, i + 1)
    }
}

/// The path part of a `file:` address, still encoded: what follows the host.
pub open spec fn url_path(url: Seq<char>) -> Option<Seq<char>> {
    if !text::begins_with(url, "file://"@) {
        None
    } else {
        let rest = url.skip("file://"@.len() as int);
        match text::first_from(rest, '/', 0) {
            Some(i) => Some(rest.skip(i)),
            None => Some(rest),
        }
    }
}

/// The path that a `file:` address names.
pub open spec fn file_path(url: Seq<char>) -> Option<Seq<char>> {
    match url_path(url) {
        Some(p) => Some(text::lossy(percent_decoded(encode_utf8(p), 0))),
        None => None,
    }
}

/// The paths of those addresses that name files.
pub open spec fn file_paths(urls: Seq<Seq<char>>) -> Seq<Seq<char>>
    decreases urls.len(),
{
    if urls.len() == 0 {
        Seq::empty()
    } else {
        let r = file_paths(urls.drop_last());
        match file_path(urls.last()) {
            Some(p) => r.push(p),
            None => r,
        }
    }
}

/// What holds no percent sign stays as it is.
pub proof fn lemma_plain_decoded(b: Seq<u8>, i: int)
    requires
        0 <= i <= b.len(),
        forall|k: int| 0 <= k < b.len() ==> b[k] != 0x25,
    ensures
        percent_decoded(b, i) == b.skip(i),
    decreases b.len() - i,
{
    if i < b.len() {
        lemma_plain_decoded(b, i + 1);
        assert(seq![b[i]] + b.skip(i + 1) =~= b.skip(i));
    } else {
        assert(b.skip(i) =~= Seq::<u8>::empty());
    }
}

/// `e` is a percent encoding of `s`: every percent sign of `s`, and whichever other bytes, are
/// written as a percent sign and two hexadecimal digits of either case.
pub open spec fn percent_encodes(e: Seq<u8>, s: Seq<u8>) -> bool
    decreases s.len(),
{
    if s.len() == 0 {
        e.len() == 0
    } else {
        ||| e.len() > 0 && e[0] == s[0] && s[0] != 0x25 && percent_encodes(e.skip(1), s.skip(1))
        ||| escape_at(e, 0) && hex_value(e[1])->0 * 16 + hex_value(e[2])->0 == s[0]
            && percent_encodes(e.skip(3), s.skip(1))
    }
}

/// Decoding undoes percent encoding.
pub proof fn lemma_encoded_decoded(e: Seq<u8>, s: Seq<u8>)
    requires
        percent_encodes(e, s),
    ensures
        percent_decoded(e, 0) == s,
{
    assert(e.skip(0) =~= e);
    lemma_decoded_from(e, 0, s);
}

proof fn lemma_decoded_from(e: Seq<u8>, i: int, s: Seq<u8>)
    requires
        0 <= i <= e.len(),
        percent_encodes(e.skip(i), s),
    ensures
        percent_decoded(e, i) == s,
    decreases s.len(),
{
    let t = e.skip(i);
    if s.len() > 0 {
        assert(t[0] == e[i]);
        if t[0] == s[0] && s[0] != 0x25 && percent_encodes(t.skip(1), s.skip(1)) {
            assert(t.skip(1) =~= e.skip(i + 1));
            lemma_decoded_from(e, i + 1, s.skip(1));
            assert(seq![e[i]] + s.skip(1) =~= s);
        } else {
            assert(t[1] == e[i + 1] && t[2] == e[i + 2]);
            assert(t.skip(3) =~= e.skip(i + 3));
            lemma_decoded_from(e, i + 3, s.skip(1));
            assert(seq![s[0]] + s.skip(1) =~= s);
        }
    }
}

fn hex_val(b: u8) -> (r: Option<u8>)
    ensures
        match r {
            Some(v) => hex_value(b) == Some(v as int) && v < 16,
            None => hex_value(b) is None,
        },
{
    if 0x30 <= b && b <= 0x39 {
        Some(b - 0x30)
    } else if 0x61 <= b && b <= 0x66 {
        Some(b - 0x61 + 10)
    } else if 0x41 <= b && b <= 0x46 {
        Some(b - 0x41 + 10)
    } else {
        None
    }
}

/// The byte that an escape at `i` stands for.
fn escape_byte(b: &[u8], i: usize) -> (r: Option<u8>)
    requires
        i < b@.len(),
    ensures
        match r {
            Some(v) => escape_at(b@, i as int) && v == (hex_value(b@[i + 1])->0 * 16 + hex_value(
                b@[i + 2],
            )->0) as u8,
            None => !escape_at(b@, i as int),
        },
{
    if b[i] == 0x25 && b.len() - i > 2 {
        match (hex_val(b[i + 1]), hex_val(b[i + 2])) {
            (Some(h), Some(l)) => Some(h * 16 + l),
            _ => None,
        }
    } else {
        None
    }
}

/// The bytes of `s` with its percent escapes decoded.
pub fn decode_percent(s: &str) -> (out: Vec<u8>)
    ensures
        out@ == percent_decoded(encode_utf8(s@), 0),
{
    let b = s.as_bytes();
    let ghost all = percent_decoded(b@, 0);
    let mut out: Vec<u8> = Vec::new();
    let mut i: usize = 0;
    proof {
        assert(out@ + all =~= all);
    }
    while i < b.len()
        invariant
            i <= b@.len(),
            b@ == encode_utf8(s@),
            all == percent_decoded(b@, 0),
            out@ + percent_decoded(b@, i as int) == all,
        decreases b.len() - i,
    {
        let ghost before = out@;
        match escape_byte(b, i) {
            Some(v) => {
                out.push(v);
                proof {
                    assert(before + (seq![v] + percent_decoded(b@, i + 3)) =~= out@
                        + percent_decoded(b@, i + 3));
                }
                i += 3;
            },
            None => {
                let v: u8 = b[i];
                out.push(v);
                proof {
                    assert(before + (seq![v] + percent_decoded(b@, i + 1)) =~= out@
                        + percent_decoded(b@, i + 1));
                }
                i += 1;
            },
        }
    }
    proof {
        assert(out@ + Seq::<u8>::empty() =~= out@);
    }
    out
}

/// `s` with its percent escapes decoded.
pub fn percent_decode(s: &str) -> (r: String)
    ensures
        r@ == text::lossy(percent_decoded(encode_utf8(s@), 0)),
        valid_utf8(percent_decoded(encode_utf8(s@), 0)) ==> encode_utf8(r@) == percent_decoded(
            encode_utf8(s@),
            0,
        ),
        forall|t: Seq<char>|
            percent_encodes(encode_utf8(s@), #[trigger] encode_utf8(t)) ==> r@ == t,
{
    let b = decode_percent(s);
    let r = text::from_utf8_lossy(b.as_slice());
    proof {
        lemma_decoded_text(s@, r@);
    }
    r
}

/// The text that a percent encoding of a text is decoded to.
proof fn lemma_decoded_text(s: Seq<char>, r: Seq<char>)
    requires
        valid_utf8(percent_decoded(encode_utf8(s), 0)) ==> encode_utf8(r) == percent_decoded(
            encode_utf8(s),
            0,
        ),
    ensures
        forall|t: Seq<char>|
            percent_encodes(encode_utf8(s), #[trigger] encode_utf8(t)) ==> r == t,
{
    assert forall|t: Seq<char>|
        percent_encodes(encode_utf8(s), #[trigger] encode_utf8(t)) implies r == t by {
        lemma_encoded_decoded(encode_utf8(s), encode_utf8(t));
        encode_utf8_valid_utf8(t);
        text::lemma_encode_injective(r, t);
    }
}

/// The path part of a `file:` address, still encoded.
pub fn url_path_of(url: &str) -> (r: Option<String>)
    ensures
        match r {
            Some(p) => url_path(url@) == Some(p@),
            None => url_path(url@) is None,
        },
{
    match text::strip_prefix(url, "file://") {
        None => None,
        Some(rest) => {
            let chars = text::chars_of(rest.as_str());
            match text::find_char(&chars, '/', 0) {
                Some(i) => {
                    let p = text::substring(&chars, i, chars.len());
                    proof {
                        assert(chars@.subrange(i as int, chars@.len() as int) =~= chars@.skip(
                            i as int,
                        ));
                    }
                    Some(p)
                },
                None => Some(rest),
            }
        },
    }
}

/// The path that a `file:` address names: without scheme and host, and decoded.
pub fn file_url_to_path(url: &str) -> (r: Option<String>)
    ensures
        match r {
            Some(p) => {
                &&& file_path(url@) == Some(p@)
                &&& valid_utf8(percent_decoded(encode_utf8(url_path(url@)->0), 0))
                    ==> encode_utf8(p@) == percent_decoded(encode_utf8(url_path(url@)->0), 0)
                &&& forall|t: Seq<char>|
                    percent_encodes(encode_utf8(url_path(url@)->0), #[trigger] encode_utf8(t))
                        ==> p@ == t
            },
            None => url_path(url@) is None,
        },
{
    match url_path_of(url) {
        Some(p) => Some(percent_decode(p.as_str())),
        None => None,
    }
}

/// The paths of those addresses on the clipboard that name files.
pub fn read_files(urls: &Vec<String>) -> (out: Vec<String>)
    ensures
        text::texts(out@) == file_paths(text::texts(urls@)),
{
    let ghost us = text::texts(urls@);
    let mut out: Vec<String> = Vec::new();
    let mut i: usize = 0;
    proof {
        assert(text::texts(out@) =~= file_paths(us.take(0)));
    }
    while i < urls.len()
        invariant
            i <= urls.len(),
            us == text::texts(urls@),
            text::texts(out@) == file_paths(us.take(i as int)),
        decreases urls.len() - i,
    {
        proof {
            assert(us.take(i + 1).drop_last() =~= us.take(i as int));
            assert(us[i as int] == urls@[i as int]@);
        }
        if let Some(p) = file_url_to_path(urls[i].as_str()) {
            let ghost before = text::texts(out@);
            out.push(p);
            proof {
                assert(text::texts(out@) =~= before.push(p@));
            }
        }
        i += 1;
    }
    proof {
        assert(us.take(us.len() as int) =~= us);
    }
    out
}

/// Where `src` goes when it is copied into `dest_dir`: it keeps its file name.
pub fn dest_for(src: &str, dest_dir: &str) -> (r: Option<String>)
    ensures
        match r {
            Some(p) => path::file_name(src@) is Some && p@ == path::join(
                dest_dir@,
                path::file_name(src@)->0,
            ),
            None => path::file_name(src@) is None,
        },
{
    match path::file_name_of(src) {
        Some(n) => Some(path::join_paths(dest_dir, n.as_str())),
        None => None,
    }
}

/// The digits of hexadecimal numbers and what they stand for: nothing else has a value.
pub proof fn lemma_hex_value(b: u8, d: int)
    ensures
        hex_value(b) == Some(d) <==> (0 <= d < 10 && b == '0' as u8 + d) || (10 <= d < 16 && (b
            == 'a' as u8 + (d - 10) || b == 'A' as u8 + (d - 10))),
        hex_value(b) matches Some(v) ==> 0 <= v < 16,
{
}

/// The path of an address begins at the slash behind the host, and an address of another scheme
/// names no file.
pub proof fn lemma_url_path(host: Seq<char>, p: Seq<char>, url: Seq<char>)
    requires
        !host.contains('/'),
    ensures
        url_path("file://"@ + host + seq!['/'] + p) == Some(seq!['/'] + p),
        url_path("file://"@ + host) == Some(host),
        url_path(url) is Some <==> text::begins_with(url, "file://"@),
{
    let f = "file://"@;
    let n = f.len() as int;
    let u = f + host + seq!['/'] + p;
    let rest = host + seq!['/'] + p;
    assert(u.subrange(0, n) =~= f);
    assert(u.skip(n) =~= rest);
    text::lemma_first_from(rest, '/', 0);
    let k = host.len() as int;
    assert(rest[k] == '/');
    assert forall|i: int| 0 <= i < k implies rest[i] != '/' by {
        assert(rest[i] == host[i]);
        assert(host.contains(host[i]));
    }
    assert(text::first_from(rest, '/', 0) == Some(k));
    assert(rest.skip(k) =~= seq!['/'] + p);
    let v = f + host;
    assert(v.subrange(0, n) =~= f);
    assert(v.skip(n) =~= host);
    text::lemma_first_from(host, '/', 0);
    assert forall|i: int| 0 <= i < host.len() implies host[i] != '/' by {
        assert(host.contains(host[i]));
    }
}

/// The paths come in the order of their addresses, and an address that names no file is passed
/// over.
pub proof fn lemma_file_paths(urls: Seq<Seq<char>>, url: Seq<char>)
    ensures
        file_paths(Seq::empty()).len() == 0,
        file_path(url) is None ==> file_paths(urls.push(url)) == file_paths(urls),
        file_path(url) matches Some(p) ==> file_paths(urls.push(url)) == file_paths(urls).push(p),
        file_path(url) is None <==> !text::begins_with(url, "file://"@),
{
    assert(urls.push(url).drop_last() =~= urls);
}

} // verus!
