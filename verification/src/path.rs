//! Slash-separated paths: their components, names, extensions and order.
//!
//! A path is a string. Its components are what lies between the slashes, with empty pieces
//! and inner `.` pieces left out; a leading slash counts as the component `/`, and a leading
//! `.` piece as the component `.`.

use crate::text;
use vstd::prelude::*;

verus! {

broadcast use vstd::seq_lib::group_seq_properties;

// ---------------------------------------------------------------------------
// Model
// ---------------------------------------------------------------------------

/// The pieces that name something: neither empty nor `.`.
pub open spec fn named_pieces(pieces: Seq<Seq<char>>) -> Seq<Seq<char>>
    decreases pieces.len(),
{
    if pieces.len() == 0 {
        Seq::empty()
    } else {
        let r = named_pieces(pieces.drop_last());
        if pieces.last().len() == 0 || pieces.last() == seq!['.'] {
            r
        } else {
            r.push(pieces.last())
        }
    }
}

/// What a path begins with before its named pieces: `/`, `.` or nothing.
pub open spec fn path_head(s: Seq<char>) -> Seq<Seq<char>> {
    if s.len() > 0 && s[0] == '/' {
        seq![seq!['/']]
    } else if text::split_on(s, '/')[0] == seq!['.'] {
        seq![seq!['.']]
    } else {
        Seq::empty()
    }
}

/// The components of the path `s`.
pub open spec fn components(s: Seq<char>) -> Seq<Seq<char>> {
    path_head(s) + named_pieces(text::split_on(s, '/'))
}

/// Whether a component is an ordinary name.
pub open spec fn is_name(c: Seq<char>) -> bool {
    c != seq!['/'] && c != seq!['.'] && c != seq!['.', '.']
}

/// The last component of the path, if it is an ordinary name.
pub open spec fn file_name(s: Seq<char>) -> Option<Seq<char>> {
    let c = components(s);
    if c.len() > 0 && is_name(c.last()) {
        Some(c.last())
    } else {
        None
    }
}

/// The position of the last `c` in `s` before `end`, if there is one.
pub open spec fn last_before(s: Seq<char>, c: char, end: int) -> Option<int>
    decreases end,
{
    if end <= 0 || end > s.len() {
        None
    } else if s[end - 1] == c {
        Some(end - 1)
    } else {
        last_before(s, c, end - 1)
    }
}

/// What follows the last dot of a file name, unless that dot is its first character.
pub open spec fn name_extension(name: Seq<char>) -> Option<Seq<char>> {
    match last_before(name, '.', name.len() as int) {
        Some(i) => if i > 0 {
            Some(name.skip(i + 1))
        } else {
            None
        },
        None => None,
    }
}

/// The extension of the path's file name.
pub open spec fn extension(s: Seq<char>) -> Option<Seq<char>> {
    match file_name(s) {
        Some(name) => name_extension(name),
        None => None,
    }
}

/// Whether the path `s` lies at or below the path `base`, by whole components.
pub open spec fn lies_under(s: Seq<char>, base: Seq<char>) -> bool {
    text::begins_with(components(s), components(base))
}

/// The path `rel` seen from `base`: an absolute `rel` replaces `base`.
pub open spec fn join(base: Seq<char>, rel: Seq<char>) -> Seq<char> {
    if rel.len() > 0 && rel[0] == '/' {
        rel
    } else if base.len() == 0 || base.last() == '/' {
        base + rel
    } else {
        base.push('/') + rel
    }
}

// ---------------------------------------------------------------------------
// Order
// ---------------------------------------------------------------------------

/// Lexicographic order over an order of the items.
pub open spec fn lex_less<T>(a: Seq<T>, b: Seq<T>, lt: spec_fn(T, T) -> bool) -> bool
    decreases a.len(),
{
    if b.len() == 0 {
        false
    } else if a.len() == 0 {
        true
    } else if a[0] == b[0] {
        lex_less(a.drop_first(), b.drop_first(), lt)
    } else {
        lt(a[0], b[0])
    }
}

pub open spec fn char_less() -> spec_fn(char, char) -> bool {
    |x: char, y: char| x < y
}

/// The order of texts by their characters.
pub open spec fn text_less(a: Seq<char>, b: Seq<char>) -> bool {
    lex_less(a, b, char_less())
}

/// Where a component stands among the kinds: `/`, then `.`, then `..`, then names.
pub open spec fn component_rank(c: Seq<char>) -> int {
    if c == seq!['/'] {
        0
    } else if c == seq!['.'] {
        1
    } else if c == seq!['.', '.'] {
        2
    } else {
        3
    }
}

pub open spec fn component_less() -> spec_fn(Seq<char>, Seq<char>) -> bool {
    |x: Seq<char>, y: Seq<char>|
        component_rank(x) < component_rank(y) || (component_rank(x) == component_rank(y)
            && text_less(x, y))
}

/// The order of paths by their components.
pub open spec fn path_less(a: Seq<Seq<char>>, b: Seq<Seq<char>>) -> bool {
    lex_less(a, b, component_less())
}

/// `lt` orders its items strictly and totally.
pub open spec fn strict_order<T>(lt: spec_fn(T, T) -> bool) -> bool {
    &&& forall|x: T| !#[trigger] lt(x, x)
    &&& forall|x: T, y: T, z: T| #[trigger] lt(x, y) && #[trigger] lt(y, z) ==> lt(x, z)
    &&& forall|x: T, y: T| #[trigger] lt(x, y) || x == y || lt(y, x)
}

proof fn lemma_lex_irreflexive<T>(a: Seq<T>, lt: spec_fn(T, T) -> bool)
    requires
        strict_order(lt),
    ensures
        !lex_less(a, a, lt),
    decreases a.len(),
{
    if a.len() > 0 {
        lemma_lex_irreflexive(a.drop_first(), lt);
    }
}

proof fn lemma_lex_transitive<T>(a: Seq<T>, b: Seq<T>, c: Seq<T>, lt: spec_fn(T, T) -> bool)
    requires
        strict_order(lt),
        lex_less(a, b, lt),
        lex_less(b, c, lt),
    ensures
        lex_less(a, c, lt),
    decreases a.len(),
{
    if a.len() > 0 {
        if a[0] == b[0] && b[0] == c[0] {
            lemma_lex_transitive(a.drop_first(), b.drop_first(), c.drop_first(), lt);
        } else if a[0] != b[0] && b[0] != c[0] {
            assert(lt(a[0], b[0]) && lt(b[0], c[0]));
            assert(lt(a[0], c[0]));
            assert(!lt(a[0], a[0]));
        }
    }
}

proof fn lemma_lex_total<T>(a: Seq<T>, b: Seq<T>, lt: spec_fn(T, T) -> bool)
    requires
        strict_order(lt),
    ensures
        lex_less(a, b, lt) || a == b || lex_less(b, a, lt),
    decreases a.len(),
{
    if a.len() > 0 && b.len() > 0 {
        if a[0] == b[0] {
            lemma_lex_total(a.drop_first(), b.drop_first(), lt);
            if a.drop_first() == b.drop_first() {
                assert(a == seq![a[0]] + a.drop_first());
                assert(b == seq![b[0]] + b.drop_first());
            }
        } else {
            assert(lt(a[0], b[0]) || a[0] == b[0] || lt(b[0], a[0]));
        }
    } else if a.len() == 0 && b.len() == 0 {
        assert(a == b);
    }
}

/// A strict total order of the items orders their sequences strictly and totally.
proof fn lemma_lex_strict<T>(lt: spec_fn(T, T) -> bool)
    requires
        strict_order(lt),
    ensures
        strict_order(|a: Seq<T>, b: Seq<T>| lex_less(a, b, lt)),
{
    let f = |a: Seq<T>, b: Seq<T>| lex_less(a, b, lt);
    assert forall|x: Seq<T>| !#[trigger] f(x, x) by {
        lemma_lex_irreflexive(x, lt);
    }
    assert forall|x: Seq<T>, y: Seq<T>, z: Seq<T>| #[trigger] f(x, y) && #[trigger] f(y, z) implies f(x, z) by {
        lemma_lex_transitive(x, y, z, lt);
    }
    assert forall|x: Seq<T>, y: Seq<T>| #[trigger] f(x, y) || x == y || f(y, x) by {
        lemma_lex_total(x, y, lt);
    }
}

/// Texts are ordered strictly and totally.
pub proof fn lemma_text_order()
    ensures
        strict_order(|a: Seq<char>, b: Seq<char>| text_less(a, b)),
{
    lemma_lex_strict(char_less());
    let f = |a: Seq<char>, b: Seq<char>| lex_less(a, b, char_less());
    let g = |a: Seq<char>, b: Seq<char>| text_less(a, b);
    assert(f =~= g);
}

/// Paths, as sequences of components, are ordered strictly and totally.
pub proof fn lemma_path_order()
    ensures
        strict_order(|a: Seq<Seq<char>>, b: Seq<Seq<char>>| path_less(a, b)),
{
    lemma_text_order();
    let t = |a: Seq<char>, b: Seq<char>| text_less(a, b);
    let c = component_less();
    assert forall|x: Seq<char>| !#[trigger] c(x, x) by {
        assert(!t(x, x));
    }
    assert forall|x: Seq<char>, y: Seq<char>, z: Seq<char>| #[trigger] c(x, y) && #[trigger] c(y, z) implies c(x, z) by {
        if t(x, y) && t(y, z) {
            assert(t(x, z));
        }
    }
    assert forall|x: Seq<char>, y: Seq<char>| #[trigger] c(x, y) || x == y || c(y, x) by {
        assert(t(x, y) || x == y || t(y, x));
    }
    lemma_lex_strict(c);
    let f = |a: Seq<Seq<char>>, b: Seq<Seq<char>>| lex_less(a, b, component_less());
    let g = |a: Seq<Seq<char>>, b: Seq<Seq<char>>| path_less(a, b);
    assert(f =~= g);
}

// ---------------------------------------------------------------------------
// Executable functions
// ---------------------------------------------------------------------------

/// The components of the path `s`.
pub fn components_of(s: &str) -> (r: Vec<String>)
    ensures
        text::texts(r@) == components(s@),
{
    let chars = text::chars_of(s);
    let pieces = text::split_chars(&chars, '/');
    let ghost ps = text::split_on(s@, '/');
    proof {
        text::lemma_split_pieces(s@, '/');
        reveal_strlit(".");
        assert("."@ == seq!['.']);
    }
    let mut out: Vec<String> = Vec::new();
    if chars.len() > 0 && chars[0] == '/' {
        proof {
            reveal_strlit("/");
            assert("/"@ == seq!['/']);
        }
        out.push("/".to_owned());
        proof {
            assert(text::texts(out@) == path_head(s@));
        }
    } else {
        proof {
            assert(ps[0] == pieces@[0]@);
        }
        if text::str_eq(pieces[0].as_str(), ".") {
            out.push(".".to_owned());
        }
        proof {
            assert(text::texts(out@) == path_head(s@));
        }
    }
    let mut i: usize = 0;
    proof {
        assert(named_pieces(ps.take(0)) == Seq::<Seq<char>>::empty());
    }
    while i < pieces.len()
        invariant
            i <= pieces.len(),
            ps == text::texts(pieces@),
            "."@ == seq!['.'],
            text::texts(out@) == path_head(s@) + named_pieces(ps.take(i as int)),
        decreases pieces.len() - i,
    {
        proof {
            assert(ps.take(i + 1).drop_last() == ps.take(i as int));
            assert(ps.take(i + 1).last() == pieces@[i as int]@);
        }
        let ghost before = text::texts(out@);
        let piece = pieces[i].as_str();
        if !piece.is_empty() && !text::str_eq(piece, ".") {
            out.push(piece.to_owned());
            proof {
                assert(text::texts(out@) == before.push(piece@));
            }
        }
        i += 1;
    }
    proof {
        assert(ps.take(ps.len() as int) == ps);
    }
    out
}

/// Whether a component is an ordinary name.
fn is_name_str(c: &str) -> (r: bool)
    ensures
        r == is_name(c@),
{
    proof {
        reveal_strlit("/");
        reveal_strlit(".");
        reveal_strlit("..");
        assert("/"@ == seq!['/']);
        assert("."@ == seq!['.']);
        assert(".."@ == seq!['.', '.']);
    }
    !text::str_eq(c, "/") && !text::str_eq(c, ".") && !text::str_eq(c, "..")
}

/// The last component of the path, if it is an ordinary name.
pub fn file_name_of(s: &str) -> (r: Option<String>)
    ensures
        match r {
            Some(n) => file_name(s@) == Some(n@),
            None => file_name(s@) is None,
        },
{
    let c = components_of(s);
    if c.len() > 0 {
        let last = c[c.len() - 1].as_str();
        if is_name_str(last) {
            return Some(last.to_owned());
        }
    }
    None
}

/// The position of the last `c` in `chars` before `end`.
pub fn rfind_char(chars: &Vec<char>, c: char, end: usize) -> (r: Option<usize>)
    requires
        end <= chars.len(),
    ensures
        match r {
            Some(i) => last_before(chars@, c, end as int) == Some(i as int) && i < end
                && chars@[i as int] == c,
            None => last_before(chars@, c, end as int) is None,
        },
{
    let mut i: usize = end;
    while i > 0
        invariant
            i <= end <= chars.len(),
            last_before(chars@, c, i as int) == last_before(chars@, c, end as int),
        decreases i,
    {
        if chars[i - 1] == c {
            return Some(i - 1);
        }
        i -= 1;
    }
    None
}

/// The extension of the path's file name.
pub fn extension_of(s: &str) -> (r: Option<String>)
    ensures
        match r {
            Some(e) => extension(s@) == Some(e@),
            None => extension(s@) is None,
        },
{
    match file_name_of(s) {
        None => None,
        Some(name) => {
            let chars = text::chars_of(name.as_str());
            match rfind_char(&chars, '.', chars.len()) {
                None => None,
                Some(i) => {
                    if i > 0 {
                        proof {
                            assert(chars@.subrange(i + 1, chars@.len() as int) == chars@.skip(i + 1));
                        }
                        Some(text::substring(&chars, i + 1, chars.len()))
                    } else {
                        None
                    }
                },
            }
        },
    }
}

/// The path `rel` seen from `base`.
pub fn join_paths(base: &str, rel: &str) -> (r: String)
    ensures
        r@ == join(base@, rel@),
{
    let b = text::chars_of(base);
    let mut l = text::chars_of(rel);
    if l.len() > 0 && l[0] == '/' {
        return rel.to_owned();
    }
    let mut out = b;
    if out.len() > 0 && out[out.len() - 1] != '/' {
        out.push('/');
    }
    out.append(&mut l);
    text::string_from_chars(&out)
}

/// Whether the path `s` lies at or below the path `base`, by whole components.
pub fn starts_with(s: &str, base: &str) -> (r: bool)
    ensures
        r == lies_under(s@, base@),
{
    let a = components_of(s);
    let b = components_of(base);
    if b.len() > a.len() {
        return false;
    }
    let ghost at = text::texts(a@);
    let ghost bt = text::texts(b@);
    let mut i: usize = 0;
    while i < b.len()
        invariant
            i <= b.len() <= a.len(),
            at == text::texts(a@),
            bt == text::texts(b@),
            at == components(s@),
            bt == components(base@),
            forall|j: int| 0 <= j < i ==> at[j] == bt[j],
        decreases b.len() - i,
    {
        if !text::str_eq(a[i].as_str(), b[i].as_str()) {
            proof {
                assert(at.subrange(0, bt.len() as int)[i as int] == at[i as int]);
            }
            return false;
        }
        i += 1;
    }
    proof {
        assert(at.subrange(0, bt.len() as int) == bt);
    }
    true
}

/// Whether text `a` comes before text `b`.
pub fn text_before(a: &str, b: &str) -> (r: bool)
    ensures
        r == text_less(a@, b@),
{
    let x = text::chars_of(a);
    let y = text::chars_of(b);
    let mut i: usize = 0;
    proof {
        assert(x@.skip(0) == x@);
        assert(y@.skip(0) == y@);
    }
    while i < x.len() && i < y.len()
        invariant
            i <= x.len(),
            i <= y.len(),
            x@ == a@,
            y@ == b@,
            text_less(x@, y@) == text_less(x@.skip(i as int), y@.skip(i as int)),
        decreases x.len() - i,
    {
        proof {
            assert(x@.skip(i as int)[0] == x@[i as int]);
            assert(y@.skip(i as int)[0] == y@[i as int]);
        }
        if x[i] != y[i] {
            return x[i] < y[i];
        }
        proof {
            assert(x@.skip(i as int).drop_first() == x@.skip(i + 1));
            assert(y@.skip(i as int).drop_first() == y@.skip(i + 1));
        }
        i += 1;
    }
    i < y.len()
}

/// Where a component stands among the kinds.
fn rank_of(c: &str) -> (r: u8)
    ensures
        r == component_rank(c@),
{
    proof {
        reveal_strlit("/");
        reveal_strlit(".");
        reveal_strlit("..");
        assert("/"@ == seq!['/']);
        assert("."@ == seq!['.']);
        assert(".."@ == seq!['.', '.']);
    }
    if text::str_eq(c, "/") {
        0
    } else if text::str_eq(c, ".") {
        1
    } else if text::str_eq(c, "..") {
        2
    } else {
        3
    }
}

/// Whether the path with components `a` comes before the one with components `b`.
pub fn path_before(a: &Vec<String>, b: &Vec<String>) -> (r: bool)
    ensures
        r == path_less(text::texts(a@), text::texts(b@)),
{
    let ghost x = text::texts(a@);
    let ghost y = text::texts(b@);
    let mut i: usize = 0;
    proof {
        assert(x.skip(0) == x);
        assert(y.skip(0) == y);
    }
    while i < a.len() && i < b.len()
        invariant
            i <= a.len(),
            i <= b.len(),
            x == text::texts(a@),
            y == text::texts(b@),
            path_less(x, y) == path_less(x.skip(i as int), y.skip(i as int)),
        decreases a.len() - i,
    {
        let c = a[i].as_str();
        let d = b[i].as_str();
        proof {
            assert(x.skip(i as int)[0] == c@);
            assert(y.skip(i as int)[0] == d@);
        }
        if !text::str_eq(c, d) {
            let m: u8 = rank_of(c);
            let n: u8 = rank_of(d);
            return m < n || (m == n && text_before(c, d));
        }
        proof {
            assert(x.skip(i as int).drop_first() == x.skip(i + 1));
            assert(y.skip(i as int).drop_first() == y.skip(i + 1));
        }
        i += 1;
    }
    i < b.len()
}

/// The path with some components.
pub open spec fn text_of(c: Seq<Seq<char>>) -> Seq<char> {
    if c.len() > 0 && c[0] == seq!['/'] {
        seq!['/'] + text::join_with(c.skip(1), '/')
    } else {
        text::join_with(c, '/')
    }
}

/// The directory that a path lies in; the root and the empty path lie in none.
pub open spec fn parent(s: Seq<char>) -> Option<Seq<char>> {
    let c = components(s);
    if c.len() == 0 || c.last() == seq!['/'] {
        None
    } else {
        Some(text_of(c.drop_last()))
    }
}

/// The directory that a path lies in.
pub fn parent_of(s: &str) -> (r: Option<String>)
    ensures
        match r {
            Some(p) => parent(s@) == Some(p@),
            None => parent(s@) is None,
        },
{
    let mut c = components_of(s);
    let ghost cs = components(s@);
    proof {
        reveal_strlit("/");
        assert("/"@ =~= seq!['/']);
        assert(cs.len() == c@.len());
    }
    if c.len() == 0 {
        return None;
    }
    proof {
        assert(cs.last() == c@[c@.len() - 1]@);
    }
    if text::str_eq(c[c.len() - 1].as_str(), "/") {
        return None;
    }
    let _ = c.pop();
    let ghost d = cs.drop_last();
    proof {
        assert(text::texts(c@) =~= d);
    }
    if c.len() > 0 && text::str_eq(c[0].as_str(), "/") {
        proof {
            assert(d[0] == c@[0]@);
        }
        let _ = c.remove(0);
        proof {
            assert(text::texts(c@) =~= d.skip(1));
        }
        let mut out = String::from_str("/");
        let rest = text::join_strs(c.as_slice(), '/');
        out.append(rest.as_str());
        Some(out)
    } else {
        proof {
            if d.len() > 0 {
                assert(d[0] == c@[0]@);
            }
        }
        Some(text::join_strs(c.as_slice(), '/'))
    }
}

/// Whether two sequences of components are the same.
pub fn same_components(a: &Vec<String>, b: &Vec<String>) -> (r: bool)
    ensures
        r == (text::texts(a@) == text::texts(b@)),
{
    if a.len() != b.len() {
        proof {
            assert(text::texts(a@).len() != text::texts(b@).len());
        }
        return false;
    }
    let mut i: usize = 0;
    while i < a.len()
        invariant
            i <= a.len(),
            a.len() == b.len(),
            forall|k: int| 0 <= k < i ==> (#[trigger] a@[k])@ == b@[k]@,
        decreases a.len() - i,
    {
        if !text::str_eq(a[i].as_str(), b[i].as_str()) {
            proof {
                assert(text::texts(a@)[i as int] != text::texts(b@)[i as int]);
            }
            return false;
        }
        i += 1;
    }
    proof {
        assert(text::texts(a@) =~= text::texts(b@));
    }
    true
}

/// Whether two paths are the same path: they have the same components.
pub open spec fn same(a: Seq<char>, b: Seq<char>) -> bool {
    components(a) == components(b)
}

/// Whether two paths are the same path.
pub fn same_path(a: &str, b: &str) -> (r: bool)
    ensures
        r == same(a@, b@),
{
    let x = components_of(a);
    let y = components_of(b);
    same_components(&x, &y)
}

/// The first position from `i` on at which `p` stands among some paths.
pub open spec fn position_from(paths: Seq<Seq<char>>, p: Seq<char>, i: int) -> Option<int>
    decreases paths.len() - i,
{
    if i < 0 || i >= paths.len() {
        None
    } else if same(paths[i], p) {
        Some(i)
    } else {
        position_from(paths, p, i + 1)
    }
}

/// The first position at which `p` stands among some paths.
pub fn position_of(paths: &Vec<String>, p: &str) -> (r: Option<usize>)
    ensures
        match r {
            Some(i) => position_from(text::texts(paths@), p@, 0) == Some(i as int) && i
                < paths@.len(),
            None => position_from(text::texts(paths@), p@, 0) is None,
        },
{
    let ghost ps = text::texts(paths@);
    let mut i: usize = 0;
    while i < paths.len()
        invariant
            i <= paths@.len(),
            ps == text::texts(paths@),
            position_from(ps, p@, 0) == position_from(ps, p@, i as int),
        decreases paths@.len() - i,
    {
        proof {
            assert(ps[i as int] == paths@[i as int]@);
        }
        if same_path(paths[i].as_str(), p) {
            return Some(i);
        }
        i += 1;
    }
    None
}

// ---------------------------------------------------------------------------
// Sorting
// ---------------------------------------------------------------------------

pub open spec fn keys_view(keys: Seq<Vec<String>>) -> Seq<Seq<Seq<char>>> {
    Seq::new(keys.len(), |i: int| text::texts(keys[i]@))
}

/// Position `k` put among `order`, behind every position whose key is not greater.
pub open spec fn place(keys: Seq<Seq<Seq<char>>>, order: Seq<int>, k: int) -> Seq<int>
    decreases order.len(),
{
    if order.len() > 0 && path_less(keys[k], keys[order.last()]) {
        place(keys, order.drop_last(), k).push(order.last())
    } else {
        order.push(k)
    }
}

/// The first `n` positions of `keys` in the order of their keys, equal keys in their own order.
pub open spec fn sort_order(keys: Seq<Seq<Seq<char>>>, n: int) -> Seq<int>
    decreases n,
{
    if n <= 0 {
        Seq::empty()
    } else {
        place(keys, sort_order(keys, n - 1), n - 1)
    }
}

/// `order` lists smaller keys first and equal keys in their own order.
pub open spec fn in_order(keys: Seq<Seq<Seq<char>>>, order: Seq<int>) -> bool {
    forall|i: int, j: int|
        0 <= i < j < order.len() ==> {
            let a = keys[#[trigger] order[i]];
            let b = keys[#[trigger] order[j]];
            path_less(a, b) || (a == b && order[i] < order[j])
        }
}

/// Every position in `order` is below `n`.
pub open spec fn below(order: Seq<int>, n: int) -> bool {
    forall|i: int| 0 <= i < order.len() ==> 0 <= #[trigger] order[i] < n
}

proof fn lemma_place(keys: Seq<Seq<Seq<char>>>, order: Seq<int>, k: int)
    requires
        0 <= k,
        in_order(keys, order),
        below(order, k),
    ensures
        in_order(keys, place(keys, order, k)),
        below(place(keys, order, k), k + 1),
        place(keys, order, k).len() == order.len() + 1,
        place(keys, order, k).contains(k),
        forall|x: int| order.contains(x) ==> place(keys, order, k).contains(x),
        forall|i: int|
            0 <= i < order.len() + 1 ==> (#[trigger] place(keys, order, k)[i]) == k || order.contains(
                place(keys, order, k)[i],
            ),
    decreases order.len(),
{
    lemma_path_order();
    let lt = |a: Seq<Seq<char>>, b: Seq<Seq<char>>| path_less(a, b);
    let r = place(keys, order, k);
    let key = keys[k];
    if order.len() > 0 && path_less(key, keys[order.last()]) {
        let d = order.drop_last();
        let l = order.last();
        assert(order[order.len() - 1] == l);
        assert forall|i: int, j: int| 0 <= i < j < d.len() implies {
            let a = keys[#[trigger] d[i]];
            let b = keys[#[trigger] d[j]];
            path_less(a, b) || (a == b && d[i] < d[j])
        } by {
            assert(order[i] == d[i] && order[j] == d[j]);
        }
        assert forall|i: int| 0 <= i < d.len() implies 0 <= #[trigger] d[i] < k by {
            assert(order[i] == d[i]);
        }
        lemma_place(keys, d, k);
        let p = place(keys, d, k);
        assert(r =~= p.push(l));
        assert(p.contains(k));
        let w = choose|w: int| 0 <= w < p.len() && p[w] == k;
        assert(r[w] == k);
        assert(r[p.len() as int] == l);
        assert forall|x: int| order.contains(x) implies r.contains(x) by {
            let v = choose|v: int| 0 <= v < order.len() && order[v] == x;
            if v < d.len() {
                assert(d[v] == x);
                assert(d.contains(x));
                assert(p.contains(x));
                let u = choose|u: int| 0 <= u < p.len() && p[u] == x;
                assert(r[u] == x);
            }
        }
        assert forall|i: int| 0 <= i < r.len() implies (#[trigger] r[i]) == k || order.contains(
            r[i],
        ) by {
            if i < p.len() {
                assert(r[i] == p[i]);
                if p[i] != k {
                    let v = choose|v: int| 0 <= v < d.len() && d[v] == p[i];
                    assert(order[v] == r[i]);
                }
            }
        }
        assert forall|i: int, j: int| 0 <= i < j < r.len() implies {
            let a = keys[#[trigger] r[i]];
            let b = keys[#[trigger] r[j]];
            path_less(a, b) || (a == b && r[i] < r[j])
        } by {
            assert(r[i] == p[i]);
            if j < p.len() {
                assert(r[j] == p[j]);
            } else if p[i] != k {
                let v = choose|v: int| 0 <= v < d.len() && d[v] == p[i];
                assert(order[v] == p[i]);
            }
        }
        assert forall|i: int| 0 <= i < r.len() implies 0 <= #[trigger] r[i] < k + 1 by {
            if i < p.len() {
                assert(r[i] == p[i]);
            }
        }
    } else {
        assert(r[order.len() as int] == k);
        assert forall|x: int| order.contains(x) implies r.contains(x) by {
            let v = choose|v: int| 0 <= v < order.len() && order[v] == x;
            assert(r[v] == x);
        }
        assert forall|i: int, j: int| 0 <= i < j < r.len() implies {
            let a = keys[#[trigger] r[i]];
            let b = keys[#[trigger] r[j]];
            path_less(a, b) || (a == b && r[i] < r[j])
        } by {
            assert(r[i] == order[i]);
            if j < order.len() {
                assert(r[j] == order[j]);
            } else {
                let a = keys[order[i]];
                let b = keys[order.last()];
                assert(lt(b, key) || b == key || lt(key, b));
                if i < order.len() - 1 {
                    assert(order[order.len() - 1] == order.last());
                    assert(path_less(a, b) || a == b);
                    if lt(a, b) && lt(b, key) {
                        assert(lt(a, key));
                    }
                }
            }
        }
    }
}

/// Sorting lists every position once, smaller keys first and equal keys in their own order.
pub proof fn lemma_sort_order(keys: Seq<Seq<Seq<char>>>, n: int)
    requires
        0 <= n,
    ensures
        sort_order(keys, n).len() == n,
        below(sort_order(keys, n), n),
        in_order(keys, sort_order(keys, n)),
        forall|k: int| 0 <= k < n ==> sort_order(keys, n).contains(k),
    decreases n,
{
    if n > 0 {
        lemma_sort_order(keys, n - 1);
        lemma_place(keys, sort_order(keys, n - 1), n - 1);
        assert forall|k: int| 0 <= k < n implies sort_order(keys, n).contains(k) by {
            if k < n - 1 {
                assert(sort_order(keys, n - 1).contains(k));
            }
        }
    }
}

pub open spec fn ints(v: Seq<usize>) -> Seq<int> {
    Seq::new(v.len(), |i: int| v[i] as int)
}

/// Every position from `i` on in `order` has a greater key than `k`.
spec fn greater_from(keys: Seq<Seq<Seq<char>>>, order: Seq<int>, k: int, i: int) -> bool {
    forall|j: int| i <= j < order.len() ==> path_less(keys[k], keys[#[trigger] order[j]])
}

/// `order` with `k` at its place in `order`, where every position from `i` on has a greater key.
proof fn lemma_place_at(keys: Seq<Seq<Seq<char>>>, order: Seq<int>, k: int, i: int)
    requires
        0 <= i <= order.len(),
        greater_from(keys, order, k, i),
        i > 0 ==> !path_less(keys[k], keys[order[i - 1]]),
    ensures
        place(keys, order, k) == order.insert(i, k),
    decreases order.len(),
{
    if i < order.len() {
        let d = order.drop_last();
        let l = order[order.len() - 1];
        assert(order.last() == l);
        assert(path_less(keys[k], keys[l]));
        assert(greater_from(keys, d, k, i)) by {
            assert forall|j: int| i <= j < d.len() implies path_less(
                keys[k],
                keys[#[trigger] d[j]],
            ) by {
                assert(order[j] == d[j]);
            }
        }
        if i > 0 {
            assert(d[i - 1] == order[i - 1]);
        }
        lemma_place_at(keys, d, k, i);
        assert(d.insert(i, k).push(l) =~= order.insert(i, k));
    } else {
        assert(order.insert(i, k) =~= order.push(k));
    }
}

/// The stable order of the keys.
pub fn sorted_positions(keys: &Vec<Vec<String>>) -> (order: Vec<usize>)
    ensures
        ints(order@) == sort_order(keys_view(keys@), keys@.len() as int),
        forall|i: int| 0 <= i < order@.len() ==> (#[trigger] order@[i]) < keys@.len(),
{
    let ghost ks = keys_view(keys@);
    let mut order: Vec<usize> = Vec::new();
    let mut k: usize = 0;
    proof {
        assert(ints(order@) =~= Seq::<int>::empty());
    }
    while k < keys.len()
        invariant
            k <= keys.len(),
            ks == keys_view(keys@),
            ints(order@) == sort_order(ks, k as int),
            forall|i: int| 0 <= i < order@.len() ==> (#[trigger] order@[i]) < k,
        decreases keys.len() - k,
    {
        let mut i: usize = order.len();
        let ghost key = ks[k as int];
        while i > 0 && path_before(&keys[k], &keys[order[i - 1]])
            invariant
                k < keys.len(),
                ks == keys_view(keys@),
                key == ks[k as int],
                i <= order.len(),
                forall|i: int| 0 <= i < order@.len() ==> (#[trigger] order@[i]) < k,
                forall|j: int| i <= j < order.len() ==> path_less(key, ks[#[trigger] order@[j] as int]),
            decreases i,
        {
            i -= 1;
        }
        let ghost before = order@;
        order.insert(i, k);
        proof {
            let o = ints(before);
            assert forall|j: int| i <= j < o.len() implies path_less(ks[k as int], ks[#[trigger] o[j]]) by {
                assert(o[j] == before[j] as int);
            }
            lemma_place_at(ks, o, k as int, i as int);
            assert(ints(order@) =~= o.insert(i as int, k as int));
            assert forall|x: int| 0 <= x < order@.len() implies (#[trigger] order@[x]) < k + 1 by {
                if x < i {
                    assert(order@[x] == before[x]);
                } else if x > i {
                    assert(order@[x] == before[x - 1]);
                }
            }
        }
        k += 1;
    }
    order
}

/// The components of each path.
pub open spec fn keys_of(paths: Seq<Seq<char>>) -> Seq<Seq<Seq<char>>> {
    Seq::new(paths.len(), |i: int| components(paths[i]))
}

/// The positions of the paths in the order of the paths.
pub open spec fn path_order(paths: Seq<Seq<char>>) -> Seq<int> {
    sort_order(keys_of(paths), paths.len() as int)
}

/// The positions of the paths in the order of the paths.
pub fn order_of(paths: &Vec<String>) -> (order: Vec<usize>)
    ensures
        ints(order@) == path_order(text::texts(paths@)),
        order@.len() == paths@.len(),
        forall|i: int| 0 <= i < order@.len() ==> (#[trigger] order@[i]) < paths@.len(),
{
    let ghost ks = keys_of(text::texts(paths@));
    let mut keys: Vec<Vec<String>> = Vec::new();
    let mut i: usize = 0;
    while i < paths.len()
        invariant
            i <= paths.len(),
            ks == keys_of(text::texts(paths@)),
            keys_view(keys@) =~= ks.take(i as int),
        decreases paths.len() - i,
    {
        let ghost before = keys_view(keys@);
        let c = components_of(paths[i].as_str());
        proof {
            assert(text::texts(paths@)[i as int] == paths@[i as int]@);
        }
        keys.push(c);
        proof {
            assert(keys_view(keys@) =~= before.push(text::texts(c@)));
            assert(ks.take(i + 1) =~= ks.take(i as int).push(ks[i as int]));
        }
        i += 1;
    }
    proof {
        assert(ks.take(ks.len() as int) =~= ks);
        assert(keys_view(keys@).len() == keys@.len());
    }
    let order = sorted_positions(&keys);
    proof {
        lemma_sort_order(ks, ks.len() as int);
        assert(ints(order@).len() == order@.len());
    }
    order
}

// ---------------------------------------------------------------------------
// Laws of paths
// ---------------------------------------------------------------------------

/// A piece of a path that names something.
pub open spec fn named(c: Seq<char>) -> bool {
    c.len() > 0 && c != seq!['.'] && !c.contains('/')
}

/// What the components of a path can be: names, with `/` or `.` before them or not.
pub open spec fn path_like(c: Seq<Seq<char>>) -> bool {
    forall|i: int|
        0 <= i < c.len() ==> named(#[trigger] c[i]) || (i == 0 && (c[i] == seq!['/'] || c[i]
            == seq!['.']))
}

proof fn lemma_named_pieces(p: Seq<Seq<char>>)
    requires
        forall|i: int| 0 <= i < p.len() ==> !(#[trigger] p[i]).contains('/'),
    ensures
        forall|i: int| 0 <= i < named_pieces(p).len() ==> named(#[trigger] named_pieces(p)[i]),
        (forall|i: int| 0 <= i < p.len() ==> named(#[trigger] p[i])) ==> named_pieces(p) == p,
    decreases p.len(),
{
    if p.len() > 0 {
        let d = p.drop_last();
        assert forall|i: int| 0 <= i < d.len() implies !(#[trigger] d[i]).contains('/') by {
            assert(!p[i].contains('/'));
        }
        lemma_named_pieces(d);
        let r = named_pieces(p);
        assert(!p[p.len() - 1].contains('/'));
        assert forall|i: int| 0 <= i < r.len() implies named(#[trigger] r[i]) by {
            if i < named_pieces(d).len() {
                assert(r[i] == named_pieces(d)[i]);
            }
        }
        if forall|i: int| 0 <= i < p.len() ==> named(#[trigger] p[i]) {
            assert forall|i: int| 0 <= i < d.len() implies named(#[trigger] d[i]) by {
                assert(named(p[i]));
            }
            assert(named(p[p.len() - 1]));
            assert(d.push(p.last()) =~= p);
        }
    } else {
        assert(named_pieces(p) =~= p);
    }
}

proof fn lemma_named_concat(a: Seq<Seq<char>>, b: Seq<Seq<char>>)
    ensures
        named_pieces(a + b) == named_pieces(a) + named_pieces(b),
    decreases b.len(),
{
    if b.len() == 0 {
        assert(a + b =~= a);
        assert(named_pieces(a) + named_pieces(b) =~= named_pieces(a));
    } else {
        let d = b.drop_last();
        lemma_named_concat(a, d);
        assert((a + b).drop_last() =~= a + d);
        assert((named_pieces(a) + named_pieces(d)).push(b.last()) =~= named_pieces(a)
            + named_pieces(d).push(b.last()));
    }
}

/// The components of a path are names, but for the first.
pub proof fn lemma_path_like(s: Seq<char>)
    ensures
        path_like(components(s)),
{
    let p = text::split_on(s, '/');
    text::lemma_split_pieces(s, '/');
    lemma_named_pieces(p);
    let c = components(s);
    let h = path_head(s);
    let n = named_pieces(p);
    assert forall|i: int| 0 <= i < c.len() implies named(#[trigger] c[i]) || (i == 0 && (c[i]
        == seq!['/'] || c[i] == seq!['.'])) by {
        if i >= h.len() {
            assert(c[i] == n[i - h.len()]);
        } else {
            assert(c[i] == h[i]);
        }
    }
}

/// A path is read back from its components: of names with slashes between them these names, with
/// a slash before them the root and these names.
pub proof fn lemma_components_read_back(c: Seq<Seq<char>>)
    requires
        path_like(c),
    ensures
        components(text_of(c)) == c,
{
    let slash = seq!['/'];
    let dot = seq!['.'];
    if c.len() == 0 {
        let e = Seq::<char>::empty();
        assert(text_of(c) =~= e);
        reveal_with_fuel(named_pieces, 2);
        assert(text::split_on(e, '/') =~= seq![e]);
        assert(seq![e].drop_last() =~= Seq::<Seq<char>>::empty());
        assert(components(e) =~= c);
    } else if c[0] == slash {
        let t = c.skip(1);
        assert forall|i: int| 0 <= i < t.len() implies named(#[trigger] t[i]) by {
            assert(named(c[i + 1]));
        }
        let j = text::join_with(t, '/');
        let e = Seq::<char>::empty();
        text::lemma_split_at(e, j, '/');
        assert(e.push('/') + j =~= slash + j);
        assert(text::split_on(e, '/') =~= seq![e]);
        reveal_with_fuel(named_pieces, 2);
        assert(seq![e].drop_last() =~= Seq::<Seq<char>>::empty());
        assert(named_pieces(seq![e]) =~= Seq::<Seq<char>>::empty());
        lemma_named_concat(seq![e], text::split_on(j, '/'));
        if t.len() == 0 {
            assert(j =~= e);
            assert(text::split_on(j, '/') =~= seq![e]);
        } else {
            text::lemma_split_join(t, '/');
            lemma_named_pieces(t);
        }
        assert(named_pieces(text::split_on(j, '/')) =~= t);
        assert(components(slash + j) =~= seq![slash] + t);
        assert(seq![slash] + t =~= c);
    } else {
        assert forall|i: int| 0 <= i < c.len() implies !(#[trigger] c[i]).contains('/') by {
            assert(named(c[i]) || c[i] == dot);
        }
        text::lemma_split_join(c, '/');
        let j = text::join_with(c, '/');
        lemma_join_first(c);
        if c[0] == dot {
            let t = c.skip(1);
            assert forall|i: int| 0 <= i < t.len() implies named(#[trigger] t[i]) by {
                assert(named(c[i + 1]));
            }
            assert(seq![dot] + t =~= c);
            lemma_named_concat(seq![dot], t);
            reveal_with_fuel(named_pieces, 2);
            assert(seq![dot].drop_last() =~= Seq::<Seq<char>>::empty());
            assert(named_pieces(seq![dot]) =~= Seq::<Seq<char>>::empty());
            lemma_named_pieces(t);
            assert(named_pieces(c) =~= t);
            assert(components(j) =~= c);
        } else {
            assert forall|i: int| 0 <= i < c.len() implies named(#[trigger] c[i]) by {
                assert(c[i] != slash || i == 0);
            }
            lemma_named_pieces(c);
            assert(named(c[0]));
            assert(components(j) =~= c);
        }
    }
}

proof fn lemma_join_first(c: Seq<Seq<char>>)
    requires
        c.len() > 0,
        c[0].len() > 0,
    ensures
        text::join_with(c, '/').len() > 0,
        text::join_with(c, '/')[0] == c[0][0],
    decreases c.len(),
{
    if c.len() > 1 {
        assert(c.drop_last()[0] == c[0]);
        lemma_join_first(c.drop_last());
    }
}

/// A path put behind another has the components of both, in order; an absolute path takes the
/// other one's place.
pub proof fn lemma_join(base: Seq<char>, rel: Seq<char>)
    ensures
        rel.len() > 0 && rel[0] == '/' ==> join(base, rel) == rel,
        base.len() > 0 && !(rel.len() > 0 && rel[0] == '/') ==> components(join(base, rel))
            == components(base) + named_pieces(text::split_on(rel, '/')),
        base.len() == 0 ==> join(base, rel) == rel,
{
    if base.len() == 0 {
        assert(base + rel =~= rel);
    } else if !(rel.len() > 0 && rel[0] == '/') {
        let e = Seq::<char>::empty();
        let q = text::split_on(rel, '/');
        if base.last() == '/' {
            let b = base.drop_last();
            assert(b.push('/') =~= base);
            text::lemma_split_at(b, rel, '/');
            text::lemma_split_at(b, e, '/');
            assert(base + e =~= base);
            lemma_named_concat(text::split_on(b, '/'), q);
            lemma_named_concat(text::split_on(b, '/'), text::split_on(e, '/'));
            reveal_with_fuel(named_pieces, 2);
            assert(text::split_on(e, '/') =~= seq![e]);
            assert(seq![e].drop_last() =~= Seq::<Seq<char>>::empty());
            assert(named_pieces(seq![e]) =~= Seq::<Seq<char>>::empty());
            text::lemma_split_pieces(b, '/');
            let p = text::split_on(b, '/');
            assert((p + q)[0] == p[0]);
            assert((p + seq![e])[0] == p[0]);
            assert((base + rel)[0] == base[0]);
            assert(path_head(base + rel) == path_head(base));
        } else {
            text::lemma_split_at(base, rel, '/');
            lemma_named_concat(text::split_on(base, '/'), q);
            text::lemma_split_pieces(base, '/');
            let p = text::split_on(base, '/');
            assert((p + q)[0] == p[0]);
            assert((base.push('/') + rel)[0] == base[0]);
            assert(path_head(base.push('/') + rel) == path_head(base));
        }
        assert(components(join(base, rel)) =~= components(base) + named_pieces(q));
    }
}

/// A name put behind a directory: the path lies in the directory, is called by the name, and its
/// parent is the directory.
pub proof fn lemma_join_name(base: Seq<char>, name: Seq<char>)
    requires
        named(name),
        base.len() > 0,
    ensures
        components(join(base, name)) == components(base).push(name),
        name != seq!['.', '.'] ==> file_name(join(base, name)) == Some(name),
        parent(join(base, name)) is Some,
        same(parent(join(base, name))->0, base),
        lies_under(join(base, name), base),
{
    text::lemma_split_without(name, '/');
    assert(named_pieces(seq![name]) =~= seq![name]) by {
        reveal_with_fuel(named_pieces, 2);
        assert(seq![name].drop_last() =~= Seq::<Seq<char>>::empty());
    }
    assert(!(name[0] == '/')) by {
        assert(name.contains(name[0]));
    }
    lemma_join(base, name);
    let c = components(base);
    let d = components(join(base, name));
    assert(d =~= c.push(name));
    assert(d.drop_last() =~= c);
    assert(name != seq!['/']) by {
        if name == seq!['/'] {
            assert(name[0] == '/');
        }
    }
    lemma_path_like(base);
    lemma_components_read_back(c);
    assert(d.subrange(0, c.len() as int) =~= c);
}

/// Below is an order of paths: a path lies at or below itself, what lies below something that
/// lies below a third lies below the third, and two paths that lie below each other are the same.
pub proof fn lemma_under_order(a: Seq<char>, b: Seq<char>, c: Seq<char>)
    ensures
        lies_under(a, a),
        lies_under(a, b) && lies_under(b, c) ==> lies_under(a, c),
        lies_under(a, b) && lies_under(b, a) ==> same(a, b),
        lies_under(a, b) <==> exists|rest: Seq<Seq<char>>| components(a) == #[trigger] (components(
            b,
        ) + rest),
{
    let (x, y, z) = (components(a), components(b), components(c));
    assert(x.subrange(0, x.len() as int) =~= x);
    if lies_under(a, b) {
        let rest = x.skip(y.len() as int);
        assert(x =~= x.subrange(0, y.len() as int) + rest);
        assert(x == y + rest);
        if lies_under(b, c) {
            assert(x.subrange(0, z.len() as int) =~= y.subrange(0, z.len() as int));
        }
        if lies_under(b, a) {
            assert(x =~= y);
        }
    }
    if exists|rest: Seq<Seq<char>>| x == #[trigger] (y + rest) {
        let rest = choose|rest: Seq<Seq<char>>| x == #[trigger] (y + rest);
        assert(x.subrange(0, y.len() as int) =~= y);
    }
}

/// The extension of a name is what stands behind its last dot; a name that has no dot but at its
/// start has none.
pub proof fn lemma_extension(stem: Seq<char>, ext: Seq<char>)
    requires
        !ext.contains('.'),
    ensures
        stem.len() > 0 ==> name_extension(stem.push('.') + ext) == Some(ext),
        name_extension(ext) is None,
        name_extension(seq!['.'] + ext) is None,
{
    let n = stem.push('.') + ext;
    lemma_last_before(n, '.', n.len() as int, stem.len() as int);
    assert(n.skip(stem.len() as int + 1) =~= ext);
    assert forall|k: int| 0 <= k < ext.len() implies ext[k] != '.' by {
        assert(ext.contains(ext[k]));
    }
    lemma_none_before(ext, '.', ext.len() as int);
    let h = seq!['.'] + ext;
    lemma_last_before(h, '.', h.len() as int, 0);
}

proof fn lemma_last_before(s: Seq<char>, c: char, end: int, at: int)
    requires
        0 <= at < end <= s.len(),
        s[at] == c,
        !s.skip(at + 1).contains(c),
    ensures
        last_before(s, c, end) == Some(at),
    decreases end,
{
    if at < end - 1 {
        assert(s.skip(at + 1)[end - 1 - (at + 1)] == s[end - 1]);
        assert(s[end - 1] != c) by {
            if s[end - 1] == c {
                assert(s.skip(at + 1).contains(c));
            }
        }
        lemma_last_before(s, c, end - 1, at);
    }
}

proof fn lemma_none_before(s: Seq<char>, c: char, end: int)
    requires
        0 <= end <= s.len(),
        forall|k: int| 0 <= k < s.len() ==> s[k] != c,
    ensures
        last_before(s, c, end) is None,
    decreases end,
{
    if end > 0 {
        lemma_none_before(s, c, end - 1);
    }
}

/// Which of two sequences comes first is decided where they first differ; one that the other
/// begins with comes first.
pub proof fn lemma_lex<T>(
    p: Seq<T>,
    x: T,
    s: Seq<T>,
    y: T,
    t: Seq<T>,
    lt: spec_fn(T, T) -> bool,
)
    requires
        x != y,
    ensures
        lex_less(p.push(x) + s, p.push(y) + t, lt) == lt(x, y),
        lex_less(p, p.push(y) + t, lt),
        !lex_less(p.push(x) + s, p, lt),
    decreases p.len(),
{
    let a = p.push(x) + s;
    let b = p.push(y) + t;
    if p.len() > 0 {
        let d = p.drop_first();
        lemma_lex(d, x, s, y, t, lt);
        assert(a.drop_first() =~= d.push(x) + s);
        assert(b.drop_first() =~= d.push(y) + t);
        assert(a[0] == p[0] && b[0] == p[0]);
    } else {
        assert(a[0] == x && b[0] == y);
    }
}

/// A directory comes before what lies in it, and names of one directory stand by their
/// characters.
pub proof fn lemma_path_order_is(dir: Seq<Seq<char>>, x: Seq<char>, y: Seq<char>)
    requires
        is_name(x),
        is_name(y),
        x != y,
    ensures
        path_less(dir, dir.push(x)),
        path_less(dir.push(x), dir.push(y)) <==> text_less(x, y),
        forall|u: Seq<char>| !text_less(u, Seq::empty()),
{
    let e = Seq::<Seq<char>>::empty();
    lemma_lex(dir, x, e, y, e, component_less());
    lemma_lex(dir, y, e, x, e, component_less());
    assert(dir.push(x) + e =~= dir.push(x));
    assert(dir.push(y) + e =~= dir.push(y));
}

/// The position of a path is the first at which the path stands, and there is one if it stands
/// anywhere.
pub proof fn lemma_position(paths: Seq<Seq<char>>, p: Seq<char>, i: int)
    requires
        0 <= i,
    ensures
        match position_from(paths, p, i) {
            Some(k) => i <= k < paths.len() && same(paths[k], p) && forall|j: int|
                i <= j < k ==> !same(#[trigger] paths[j], p),
            None => forall|j: int| i <= j < paths.len() ==> !same(#[trigger] paths[j], p),
        },
    decreases paths.len() - i,
{
    if i < paths.len() && !same(paths[i], p) {
        lemma_position(paths, p, i + 1);
    }
}

/// The root comes before all else, then the directory itself, then the one above it, then names.
pub proof fn lemma_component_order(c: Seq<char>)
    requires
        is_name(c),
    ensures
        component_less()(seq!['/'], seq!['.']),
        component_less()(seq!['.'], seq!['.', '.']),
        component_less()(seq!['.', '.'], c),
        component_less()(seq!['/'], c),
        !component_less()(c, seq!['/']),
        !component_less()(c, seq!['.', '.']),
{
    assert(seq!['/'][0] != seq!['.'][0]);
    assert(seq!['.'].len() != seq!['.', '.'].len());
    assert(seq!['/'].len() != seq!['.', '.'].len());
}

/// The extension of a path is that of its name, wherever the file lies.
pub proof fn lemma_path_extension(base: Seq<char>, stem: Seq<char>, ext: Seq<char>)
    requires
        base.len() > 0,
        stem.len() > 0,
        !ext.contains('.'),
        ext.len() > 0,
        named(stem.push('.') + ext),
    ensures
        extension(join(base, stem.push('.') + ext)) == Some(ext),
{
    let n = stem.push('.') + ext;
    lemma_extension(stem, ext);
    assert(n != seq!['.', '.']) by {
        if n == seq!['.', '.'] {
            assert(n.len() == 2);
            assert(ext[0] == n[stem.len() as int + 1]);
            assert(ext.contains(ext[0]));
        }
    }
    lemma_join_name(base, n);
}

/// Only the empty path and the root lie in no directory.
pub proof fn lemma_no_parent(s: Seq<char>)
    ensures
        parent(s) is None <==> components(s).len() == 0 || components(s).last() == seq!['/'],
        parent(s) matches Some(p) ==> components(p) == components(s).drop_last(),
{
    let c = components(s);
    if c.len() > 0 && c.last() != seq!['/'] {
        lemma_path_like(s);
        let d = c.drop_last();
        assert forall|i: int| 0 <= i < d.len() implies named(#[trigger] d[i]) || (i == 0 && (d[i]
            == seq!['/'] || d[i] == seq!['.'])) by {
            assert(d[i] == c[i]);
        }
        lemma_components_read_back(d);
    }
}

} // verus!
