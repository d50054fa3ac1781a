//! A set of texts and a map from texts to texts, kept in the order of the texts.

use crate::path;
use crate::text;
use vstd::prelude::*;

verus! {

broadcast use vstd::seq_lib::group_seq_properties;

/// The texts stand in strictly rising order.
pub open spec fn ascending(keys: Seq<Seq<char>>) -> bool {
    forall|i: int, j: int|
        0 <= i < j < keys.len() ==> path::text_less(#[trigger] keys[i], #[trigger] keys[j])
}

proof fn lemma_order(a: Seq<char>, b: Seq<char>, c: Seq<char>)
    ensures
        !path::text_less(a, a),
        path::text_less(a, b) && path::text_less(b, c) ==> path::text_less(a, c),
        path::text_less(a, b) || a == b || path::text_less(b, a),
{
    path::lemma_text_order();
    let f = |a: Seq<char>, b: Seq<char>| path::text_less(a, b);
    assert(!f(a, a));
    if f(a, b) && f(b, c) {
        assert(f(a, c));
    }
    assert(f(a, b) || a == b || f(b, a));
}

/// How many keys come before `key`, and whether `key` is the one that follows them.
fn locate(keys: &Vec<String>, key: &str) -> (r: (usize, bool))
    requires
        ascending(text::texts(keys@)),
    ensures
        r.0 <= keys@.len(),
        forall|i: int| 0 <= i < r.0 ==> path::text_less((#[trigger] keys@[i])@, key@),
        r.1 ==> r.0 < keys@.len() && keys@[r.0 as int]@ == key@,
        !r.1 ==> forall|i: int|
            r.0 <= i < keys@.len() ==> path::text_less(key@, (#[trigger] keys@[i])@),
{
    let ghost ks = text::texts(keys@);
    let mut i: usize = 0;
    while i < keys.len()
        invariant
            i <= keys@.len(),
            ks == text::texts(keys@),
            ascending(ks),
            forall|k: int| 0 <= k < i ==> path::text_less((#[trigger] keys@[k])@, key@),
        decreases keys.len() - i,
    {
        if !path::text_before(keys[i].as_str(), key) {
            let found = text::str_eq(keys[i].as_str(), key);
            proof {
                lemma_order(keys@[i as int]@, key@, key@);
                if !found {
                    assert forall|k: int| i <= k < keys@.len() implies path::text_less(
                        key@,
                        (#[trigger] keys@[k])@,
                    ) by {
                        if k > i {
                            assert(path::text_less(ks[i as int], ks[k]));
                            lemma_order(key@, ks[i as int], ks[k]);
                        }
                    }
                }
            }
            return (i, found);
        }
        i += 1;
    }
    (i, false)
}

proof fn lemma_insert_ascending(keys: Seq<Seq<char>>, i: int, key: Seq<char>)
    requires
        ascending(keys),
        0 <= i <= keys.len(),
        forall|k: int| 0 <= k < i ==> path::text_less(#[trigger] keys[k], key),
        forall|k: int| i <= k < keys.len() ==> path::text_less(key, #[trigger] keys[k]),
    ensures
        ascending(keys.insert(i, key)),
{
    let n = keys.insert(i, key);
    assert forall|x: int, y: int| 0 <= x < y < n.len() implies path::text_less(
        #[trigger] n[x],
        #[trigger] n[y],
    ) by {
        let a = if x < i {
            x
        } else {
            x - 1
        };
        let b = if y < i {
            y
        } else {
            y - 1
        };
        if x != i {
            assert(n[x] == keys[a]);
        }
        if y != i {
            assert(n[y] == keys[b]);
        }
    }
}

// ---------------------------------------------------------------------------
// Set
// ---------------------------------------------------------------------------

/// A set of texts.
#[derive(Debug)]
pub struct TextSet {
    keys: Vec<String>,
}

impl View for TextSet {
    type V = Set<Seq<char>>;

    closed spec fn view(&self) -> Set<Seq<char>> {
        Set::new(|k: Seq<char>| text::texts(self.keys@).contains(k))
    }
}

impl TextSet {
    #[verifier::type_invariant]
    spec fn sorted(self) -> bool {
        ascending(text::texts(self.keys@))
    }

    pub fn new() -> (r: Self)
        ensures
            r@ == Set::<Seq<char>>::empty(),
    {
        let r = TextSet { keys: Vec::new() };
        proof {
            assert(r@ =~= Set::<Seq<char>>::empty());
        }
        r
    }

    pub fn contains(&self, key: &str) -> (r: bool)
        ensures
            r == self@.contains(key@),
    {
        proof {
            use_type_invariant(&*self);
        }
        let (i, found) = locate(&self.keys, key);
        proof {
            let ks = text::texts(self.keys@);
            if found {
                assert(ks[i as int] == key@);
            } else if ks.contains(key@) {
                let k = choose|k: int| 0 <= k < ks.len() && ks[k] == key@;
                assert(self.keys@[k]@ == key@);
                lemma_order(key@, key@, key@);
            }
        }
        found
    }

    pub fn insert(&mut self, key: &str)
        ensures
            final(self)@ == old(self)@.insert(key@),
    {
        proof {
            use_type_invariant(&*self);
        }
        let (i, found) = locate(&self.keys, key);
        let ghost ks = text::texts(self.keys@);
        if found {
            proof {
                assert(ks[i as int] == key@);
                assert(self@ =~= old(self)@.insert(key@));
            }
        } else {
            let mut keys: Vec<String> = Vec::new();
            std::mem::swap(&mut keys, &mut self.keys);
            keys.insert(i, String::from_str(key));
            proof {
                assert(text::texts(keys@) =~= ks.insert(i as int, key@));
                lemma_insert_ascending(ks, i as int, key@);
                lemma_insert_contains(ks, i as int, key@);
            }
            self.keys = keys;
            proof {
                assert(self@ =~= old(self)@.insert(key@));
            }
        }
    }

    pub fn remove(&mut self, key: &str)
        ensures
            final(self)@ == old(self)@.remove(key@),
    {
        proof {
            use_type_invariant(&*self);
        }
        let (i, found) = locate(&self.keys, key);
        let ghost ks = text::texts(self.keys@);
        if found {
            let mut keys: Vec<String> = Vec::new();
            std::mem::swap(&mut keys, &mut self.keys);
            let _ = keys.remove(i);
            proof {
                let ns = text::texts(keys@);
                assert(ns =~= ks.remove(i as int));
                lemma_remove_ascending(ks, i as int);
                assert(ks[i as int] == key@);
            }
            self.keys = keys;
            proof {
                assert(self@ =~= old(self)@.remove(key@));
            }
        } else {
            proof {
                if ks.contains(key@) {
                    let k = choose|k: int| 0 <= k < ks.len() && ks[k] == key@;
                    assert(self.keys@[k]@ == key@);
                    lemma_order(key@, key@, key@);
                }
                assert(self@ =~= old(self)@.remove(key@));
            }
        }
    }

    /// The texts, in order.
    pub fn to_vec(&self) -> (r: Vec<String>)
        ensures
            ascending(text::texts(r@)),
            forall|k: Seq<char>| text::texts(r@).contains(k) <==> self@.contains(k),
    {
        proof {
            use_type_invariant(&*self);
        }
        self.keys.clone()
    }
}

proof fn lemma_insert_contains(keys: Seq<Seq<char>>, i: int, key: Seq<char>)
    requires
        0 <= i <= keys.len(),
    ensures
        forall|k: Seq<char>|
            keys.insert(i, key).contains(k) <==> (k == key || keys.contains(k)),
{
    let n = keys.insert(i, key);
    assert(n[i] == key);
    assert forall|k: Seq<char>| keys.contains(k) implies n.contains(k) by {
        let x = choose|x: int| 0 <= x < keys.len() && keys[x] == k;
        assert(n[if x < i {
            x
        } else {
            x + 1
        }] == k);
    }
    assert forall|k: Seq<char>| n.contains(k) implies k == key || keys.contains(k) by {
        let x = choose|x: int| 0 <= x < n.len() && n[x] == k;
        if x < i {
            assert(keys[x] == k);
        } else if x > i {
            assert(keys[x - 1] == k);
        }
    }
}

proof fn lemma_remove_ascending(keys: Seq<Seq<char>>, i: int)
    requires
        ascending(keys),
        0 <= i < keys.len(),
    ensures
        ascending(keys.remove(i)),
        forall|k: Seq<char>|
            keys.remove(i).contains(k) <==> (k != keys[i] && keys.contains(k)),
{
    let n = keys.remove(i);
    assert forall|x: int, y: int| 0 <= x < y < n.len() implies path::text_less(
        #[trigger] n[x],
        #[trigger] n[y],
    ) by {
        let a = if x < i {
            x
        } else {
            x + 1
        };
        let b = if y < i {
            y
        } else {
            y + 1
        };
        assert(n[x] == keys[a] && n[y] == keys[b]);
    }
    assert forall|k: Seq<char>| k != keys[i] && keys.contains(k) implies n.contains(k) by {
        let x = choose|x: int| 0 <= x < keys.len() && keys[x] == k;
        assert(n[if x < i {
            x
        } else {
            x - 1
        }] == k);
    }
    assert forall|k: Seq<char>| n.contains(k) implies k != keys[i] && keys.contains(k) by {
        let x = choose|x: int| 0 <= x < n.len() && n[x] == k;
        let a = if x < i {
            x
        } else {
            x + 1
        };
        assert(keys[a] == k);
        lemma_order(k, keys[i], k);
        if a < i {
            assert(path::text_less(keys[a], keys[i]));
        } else {
            assert(path::text_less(keys[i], keys[a]));
        }
    }
}

// ---------------------------------------------------------------------------
// Map
// ---------------------------------------------------------------------------

/// A map from texts to texts.
#[derive(Debug)]
pub struct TextMap {
    keys: Vec<String>,
    values: Vec<String>,
}

/// The value at the place where `k` stands among the keys.
pub open spec fn value_at(keys: Seq<Seq<char>>, values: Seq<Seq<char>>, k: Seq<char>) -> Seq<char> {
    values[choose|i: int| 0 <= i < keys.len() && keys[i] == k]
}

impl View for TextMap {
    type V = Map<Seq<char>, Seq<char>>;

    closed spec fn view(&self) -> Map<Seq<char>, Seq<char>> {
        Map::new(
            |k: Seq<char>| text::texts(self.keys@).contains(k),
            |k: Seq<char>| value_at(text::texts(self.keys@), text::texts(self.values@), k),
        )
    }
}

proof fn lemma_value_at(keys: Seq<Seq<char>>, values: Seq<Seq<char>>, i: int)
    requires
        ascending(keys),
        0 <= i < keys.len(),
    ensures
        value_at(keys, values, keys[i]) == values[i],
{
    let k = keys[i];
    let j = choose|j: int| 0 <= j < keys.len() && keys[j] == k;
    assert(keys[j] == k);
    lemma_order(k, k, k);
    if i < j {
        assert(path::text_less(keys[i], keys[j]));
    } else if j < i {
        assert(path::text_less(keys[j], keys[i]));
    }
}

impl TextMap {
    #[verifier::type_invariant]
    spec fn sorted(self) -> bool {
        ascending(text::texts(self.keys@)) && self.keys@.len() == self.values@.len()
    }

    pub fn new() -> (r: Self)
        ensures
            r@ == Map::<Seq<char>, Seq<char>>::empty(),
    {
        let r = TextMap { keys: Vec::new(), values: Vec::new() };
        proof {
            assert(r@ =~= Map::<Seq<char>, Seq<char>>::empty());
        }
        r
    }

    pub fn get(&self, key: &str) -> (r: Option<String>)
        ensures
            match r {
                Some(v) => self@.dom().contains(key@) && self@[key@] == v@,
                None => !self@.dom().contains(key@),
            },
    {
        proof {
            use_type_invariant(&*self);
        }
        let (i, found) = locate(&self.keys, key);
        let ghost ks = text::texts(self.keys@);
        if found {
            proof {
                assert(ks[i as int] == key@);
                lemma_value_at(ks, text::texts(self.values@), i as int);
            }
            Some(self.values[i].clone())
        } else {
            proof {
                if ks.contains(key@) {
                    let k = choose|k: int| 0 <= k < ks.len() && ks[k] == key@;
                    assert(self.keys@[k]@ == key@);
                    lemma_order(key@, key@, key@);
                }
            }
            None
        }
    }

    pub fn insert(&mut self, key: &str, value: &str)
        ensures
            final(self)@ == old(self)@.insert(key@, value@),
    {
        proof {
            use_type_invariant(&*self);
        }
        let (i, found) = locate(&self.keys, key);
        let ghost ks = text::texts(self.keys@);
        let ghost vs = text::texts(self.values@);
        let mut fresh = TextMap { keys: Vec::new(), values: Vec::new() };
        std::mem::swap(&mut fresh, self);
        let TextMap { mut keys, mut values } = fresh;
        if found {
            values.set(i, String::from_str(value));
            proof {
                assert(ks[i as int] == key@);
                assert(text::texts(values@) =~= vs.update(i as int, value@));
            }
        } else {
            keys.insert(i, String::from_str(key));
            values.insert(i, String::from_str(value));
            proof {
                assert(text::texts(keys@) =~= ks.insert(i as int, key@));
                assert(text::texts(values@) =~= vs.insert(i as int, value@));
                lemma_insert_ascending(ks, i as int, key@);
                lemma_insert_contains(ks, i as int, key@);
            }
        }
        *self = TextMap { keys, values };
        proof {
            let nk = text::texts(keys@);
            let nv = text::texts(values@);
            let want = old(self)@.insert(key@, value@);
            assert forall|k: Seq<char>| self@.dom().contains(k) implies self@[k] == want[k] by {
                let x = choose|x: int| 0 <= x < nk.len() && nk[x] == k;
                lemma_value_at(nk, nv, x);
                if found {
                    lemma_value_at(ks, vs, x);
                    if x == i {
                        assert(nv[x] == value@);
                    } else {
                        lemma_order(key@, key@, key@);
                        if x < i {
                            assert(path::text_less(ks[x], ks[i as int]));
                        } else {
                            assert(path::text_less(ks[i as int], ks[x]));
                        }
                    }
                } else if x < i {
                    assert(ks[x] == k);
                    lemma_value_at(ks, vs, x);
                    lemma_order(key@, key@, key@);
                    assert(path::text_less(ks[x], key@));
                } else if x > i {
                    assert(ks[x - 1] == k);
                    lemma_value_at(ks, vs, x - 1);
                    lemma_order(key@, key@, key@);
                    assert(path::text_less(key@, ks[x - 1]));
                }
            }
            assert(self@ =~= want);
        }
    }

    pub fn clear(&mut self)
        ensures
            final(self)@ == Map::<Seq<char>, Seq<char>>::empty(),
    {
        *self = TextMap { keys: Vec::new(), values: Vec::new() };
        proof {
            assert(self@ =~= Map::<Seq<char>, Seq<char>>::empty());
        }
    }

    /// The keys, in order.
    pub fn keys(&self) -> (r: Vec<String>)
        ensures
            ascending(text::texts(r@)),
            forall|k: Seq<char>| text::texts(r@).contains(k) <==> self@.dom().contains(k),
    {
        proof {
            use_type_invariant(&*self);
        }
        self.keys.clone()
    }
}

} // verus!
