//! A set of paths, in which two ways to write a path are one.

use crate::path;
use crate::text;
use vstd::prelude::*;

verus! {

broadcast use vstd::seq_lib::group_seq_properties;

/// A set of paths.
#[derive(Debug)]
pub struct PathSet {
    /// The components of each path.
    keys: Vec<Vec<String>>,
}

/// `keys` holds nothing twice.
pub open spec fn distinct(keys: Seq<Seq<Seq<char>>>) -> bool {
    forall|i: int, j: int|
        0 <= i < j < keys.len() ==> #[trigger] keys[i] != #[trigger] keys[j]
}

impl View for PathSet {
    type V = Set<Seq<Seq<char>>>;

    closed spec fn view(&self) -> Set<Seq<Seq<char>>> {
        Set::new(|k: Seq<Seq<char>>| path::keys_view(self.keys@).contains(k))
    }
}

/// The components of the directories that a path lies in: of `a/b/c` those of `a/b`, of `a` and
/// of the empty path; an absolute path lies in no empty path.
pub open spec fn ancestors(c: Seq<Seq<char>>) -> Set<Seq<Seq<char>>> {
    Set::new(
        |a: Seq<Seq<char>>|
            exists|k: int| #[trigger] is_ancestor(c, k) && a == c.take(k),
    )
}

pub open spec fn is_ancestor(c: Seq<Seq<char>>, k: int) -> bool {
    0 <= k < c.len() && (k > 0 || c[0] != seq!['/'])
}

/// The components of some paths.
pub open spec fn path_set(paths: Seq<Seq<char>>) -> Set<Seq<Seq<char>>> {
    Set::new(|k: Seq<Seq<char>>| path::keys_of(paths).contains(k))
}

impl PathSet {
    #[verifier::type_invariant]
    spec fn no_repeats(self) -> bool {
        distinct(path::keys_view(self.keys@))
    }

    pub fn new() -> (r: Self)
        ensures
            r@ == Set::<Seq<Seq<char>>>::empty(),
    {
        let r = PathSet { keys: Vec::new() };
        proof {
            assert(r@ =~= Set::<Seq<Seq<char>>>::empty());
        }
        r
    }

    fn find(&self, key: &Vec<String>) -> (r: Option<usize>)
        ensures
            match r {
                Some(i) => i < self.keys@.len() && path::keys_view(self.keys@)[i as int]
                    == text::texts(key@),
                None => !self@.contains(text::texts(key@)),
            },
    {
        let ghost ks = path::keys_view(self.keys@);
        let mut i: usize = 0;
        while i < self.keys.len()
            invariant
                i <= self.keys@.len(),
                ks == path::keys_view(self.keys@),
                forall|k: int| 0 <= k < i ==> #[trigger] ks[k] != text::texts(key@),
            decreases self.keys@.len() - i,
        {
            if path::same_components(&self.keys[i], key) {
                return Some(i);
            }
            i += 1;
        }
        None
    }

    pub fn contains(&self, p: &str) -> (r: bool)
        ensures
            r == self@.contains(path::components(p@)),
    {
        let key = path::components_of(p);
        let found = self.find(&key);
        proof {
            if let Some(i) = found {
                assert(path::keys_view(self.keys@)[i as int] == path::components(p@));
            }
        }
        found.is_some()
    }

    fn insert_key(&mut self, key: Vec<String>)
        ensures
            final(self)@ == old(self)@.insert(text::texts(key@)),
    {
        proof {
            use_type_invariant(&*self);
        }
        let ghost ks = path::keys_view(self.keys@);
        let ghost kt = text::texts(key@);
        match self.find(&key) {
            Some(i) => {
                proof {
                    assert(ks[i as int] == kt);
                    assert(self@ =~= old(self)@.insert(kt));
                }
            },
            None => {
                let mut keys: Vec<Vec<String>> = Vec::new();
                std::mem::swap(&mut keys, &mut self.keys);
                keys.push(key);
                proof {
                    let ns = path::keys_view(keys@);
                    assert(ns =~= ks.push(kt));
                    assert(ns[ks.len() as int] == kt);
                    assert forall|i: int, j: int| 0 <= i < j < ns.len() implies #[trigger] ns[i]
                        != #[trigger] ns[j] by {
                        assert(ns[i] == ks[i]);
                        if j < ks.len() {
                            assert(ns[j] == ks[j]);
                        } else {
                            assert(ks.contains(ks[i]));
                        }
                    }
                    assert forall|k: Seq<Seq<char>>| ns.contains(k) <==> (k == kt || ks.contains(
                        k,
                    )) by {
                        if ks.contains(k) {
                            let x = choose|x: int| 0 <= x < ks.len() && ks[x] == k;
                            assert(ns[x] == k);
                        }
                        if ns.contains(k) && k != kt {
                            let x = choose|x: int| 0 <= x < ns.len() && ns[x] == k;
                            assert(ks[x] == k);
                        }
                    }
                }
                self.keys = keys;
                proof {
                    assert(self@ =~= old(self)@.insert(kt));
                }
            },
        }
    }

    pub fn insert(&mut self, p: &str)
        ensures
            final(self)@ == old(self)@.insert(path::components(p@)),
    {
        let key = path::components_of(p);
        self.insert_key(key);
    }

    /// Takes a path out. Returns whether it was there.
    pub fn remove(&mut self, p: &str) -> (r: bool)
        ensures
            final(self)@ == old(self)@.remove(path::components(p@)),
            r == old(self)@.contains(path::components(p@)),
    {
        proof {
            use_type_invariant(&*self);
        }
        let key = path::components_of(p);
        let ghost ks = path::keys_view(self.keys@);
        let ghost kt = path::components(p@);
        match self.find(&key) {
            Some(i) => {
                let mut keys: Vec<Vec<String>> = Vec::new();
                std::mem::swap(&mut keys, &mut self.keys);
                let _ = keys.remove(i);
                proof {
                    let ns = path::keys_view(keys@);
                    assert(ns =~= ks.remove(i as int));
                    assert(ks[i as int] == kt);
                    assert forall|a: int, b: int| 0 <= a < b < ns.len() implies #[trigger] ns[a]
                        != #[trigger] ns[b] by {
                        let x = if a < i {
                            a
                        } else {
                            a + 1
                        };
                        let y = if b < i {
                            b
                        } else {
                            b + 1
                        };
                        assert(ns[a] == ks[x] && ns[b] == ks[y]);
                    }
                    assert forall|k: Seq<Seq<char>>| ns.contains(k) <==> (k != kt && ks.contains(
                        k,
                    )) by {
                        if ns.contains(k) {
                            let x = choose|x: int| 0 <= x < ns.len() && ns[x] == k;
                            let y = if x < i {
                                x
                            } else {
                                x + 1
                            };
                            assert(ks[y] == k);
                        }
                        if k != kt && ks.contains(k) {
                            let y = choose|y: int| 0 <= y < ks.len() && ks[y] == k;
                            let x = if y < i {
                                y
                            } else {
                                y - 1
                            };
                            assert(ns[x] == k);
                        }
                    }
                }
                self.keys = keys;
                proof {
                    assert(self@ =~= old(self)@.remove(kt));
                    assert(old(self)@.contains(kt));
                }
                true
            },
            None => {
                proof {
                    assert(self@ =~= old(self)@.remove(kt));
                }
                false
            },
        }
    }

    /// Puts a path in if it is not there, and takes it out if it is.
    pub fn toggle(&mut self, p: &str)
        ensures
            final(self)@ == if old(self)@.contains(path::components(p@)) {
                old(self)@.remove(path::components(p@))
            } else {
                old(self)@.insert(path::components(p@))
            },
    {
        if !self.remove(p) {
            proof {
                assert(self@ =~= old(self)@);
            }
            self.insert(p);
        }
    }

    pub fn is_empty(&self) -> (r: bool)
        ensures
            r == (self@ == Set::<Seq<Seq<char>>>::empty()),
    {
        proof {
            let ks = path::keys_view(self.keys@);
            if self.keys@.len() > 0 {
                assert(ks.contains(ks[0]));
                assert(self@.contains(ks[0]));
            } else {
                assert(self@ =~= Set::<Seq<Seq<char>>>::empty());
            }
        }
        self.keys.len() == 0
    }

    /// Puts in every directory that a path lies in.
    pub fn insert_ancestors(&mut self, p: &str)
        ensures
            final(self)@ == old(self)@.union(ancestors(path::components(p@))),
    {
        let key = path::components_of(p);
        let ghost c = path::components(p@);
        let n: usize = key.len();
        if n == 0 {
            proof {
                assert(self@ =~= old(self)@.union(ancestors(c)));
            }
            return;
        }
        proof {
            reveal_strlit("/");
            assert("/"@ =~= seq!['/']);
            assert(c[0] == key@[0]@);
        }
        let absolute = text::str_eq(key[0].as_str(), "/");
        let mut k: usize = if absolute {
            1
        } else {
            0
        };
        let ghost base = self@;
        while k < n
            invariant
                k <= n,
                n == key@.len(),
                c == text::texts(key@),
                absolute == (c[0] == seq!['/']),
                absolute ==> k >= 1,
                n > 0,
                self@ =~= base.union(
                    Set::new(
                        |a: Seq<Seq<char>>|
                            exists|j: int| #[trigger] is_ancestor(c, j) && j < k && a == c.take(j),
                    ),
                ),
            decreases n - k,
        {
            let mut dir: Vec<String> = Vec::new();
            let mut i: usize = 0;
            while i < k
                invariant
                    i <= k <= key@.len(),
                    text::texts(dir@) =~= text::texts(key@).take(i as int),
                decreases k - i,
            {
                let ghost before = text::texts(dir@);
                dir.push(key[i].clone());
                proof {
                    assert(text::texts(dir@) =~= before.push(key@[i as int]@));
                }
                i += 1;
            }
            let ghost before = self@;
            self.insert_key(dir);
            proof {
                assert(is_ancestor(c, k as int));
                let now = Set::new(
                    |a: Seq<Seq<char>>|
                        exists|j: int| #[trigger] is_ancestor(c, j) && j < k + 1 && a == c.take(j),
                );
                assert(self@ =~= base.union(now)) by {
                    assert forall|a: Seq<Seq<char>>| self@.contains(a) <==> base.union(
                        now,
                    ).contains(a) by {
                        if a == c.take(k as int) {
                            assert(now.contains(a));
                        } else if now.contains(a) {
                            let j = choose|j: int| #[trigger]
                                is_ancestor(c, j) && j < k + 1 && a == c.take(j);
                            assert(is_ancestor(c, j) && j < k);
                        }
                    }
                }
            }
            k += 1;
        }
        proof {
            let all = Set::new(
                |a: Seq<Seq<char>>|
                    exists|j: int| #[trigger] is_ancestor(c, j) && j < k && a == c.take(j),
            );
            assert(all =~= ancestors(c)) by {
                assert forall|a: Seq<Seq<char>>| ancestors(c).contains(a) implies all.contains(
                    a,
                ) by {
                    let j = choose|j: int| #[trigger] is_ancestor(c, j) && a == c.take(j);
                    assert(is_ancestor(c, j) && j < k);
                }
            }
        }
    }
}

impl Clone for PathSet {
    fn clone(&self) -> (r: Self)
        ensures
            r@ == self@,
    {
        proof {
            use_type_invariant(&*self);
        }
        let ghost ks = path::keys_view(self.keys@);
        let mut keys: Vec<Vec<String>> = Vec::new();
        let mut i: usize = 0;
        while i < self.keys.len()
            invariant
                i <= self.keys@.len(),
                ks == path::keys_view(self.keys@),
                path::keys_view(keys@) =~= ks.take(i as int),
            decreases self.keys@.len() - i,
        {
            let ghost before = path::keys_view(keys@);
            let key = text::clone_texts(&self.keys[i]);
            keys.push(key);
            proof {
                assert(path::keys_view(keys@) =~= before.push(ks[i as int]));
            }
            i += 1;
        }
        proof {
            assert(ks.take(ks.len() as int) =~= ks);
        }
        PathSet { keys }
    }
}

/// The set of some paths.
pub fn set_of(paths: &Vec<String>) -> (r: PathSet)
    ensures
        r@ == path_set(text::texts(paths@)),
{
    let ghost ps = text::texts(paths@);
    let mut r = PathSet::new();
    let mut i: usize = 0;
    proof {
        assert(r@ =~= path_set(ps.take(0)));
    }
    while i < paths.len()
        invariant
            i <= paths@.len(),
            ps == text::texts(paths@),
            r@ == path_set(ps.take(i as int)),
        decreases paths@.len() - i,
    {
        r.insert(paths[i].as_str());
        proof {
            lemma_path_set_push(ps, i as int);
            assert(ps[i as int] == paths@[i as int]@);
        }
        i += 1;
    }
    proof {
        assert(ps.take(ps.len() as int) =~= ps);
    }
    r
}

pub proof fn lemma_path_set_push(ps: Seq<Seq<char>>, i: int)
    requires
        0 <= i < ps.len(),
    ensures
        path_set(ps.take(i + 1)) == path_set(ps.take(i)).insert(path::components(ps[i])),
{
    let a = path::keys_of(ps.take(i + 1));
    let b = path::keys_of(ps.take(i));
    assert forall|k: Seq<Seq<char>>| a.contains(k) <==> (k == path::components(ps[i])
        || b.contains(k)) by {
        if a.contains(k) {
            let x = choose|x: int| 0 <= x < a.len() && a[x] == k;
            if x < i {
                assert(b[x] == k);
            }
        }
        if b.contains(k) {
            let x = choose|x: int| 0 <= x < b.len() && b[x] == k;
            assert(a[x] == k);
        }
        assert(a[i] == path::components(ps[i]));
    }
    assert(path_set(ps.take(i + 1)) =~= path_set(ps.take(i)).insert(path::components(ps[i])));
}

/// A path lies in the directory that holds it, and in those that this one lies in; every such
/// directory is shorter than the path, and the path begins with it.
pub proof fn lemma_ancestors(c: Seq<Seq<char>>, a: Seq<Seq<char>>)
    requires
        c.len() > 0,
        c.len() > 1 || c[0] != seq!['/'],
    ensures
        ancestors(c).contains(c.drop_last()),
        ancestors(c).contains(a) <==> a == c.drop_last() || ancestors(c.drop_last()).contains(a),
        ancestors(c).contains(a) ==> a.len() < c.len() && c.take(a.len() as int) == a,
        !ancestors(c).contains(c),
        !ancestors(Seq::empty()).contains(a),
        !ancestors(seq![seq!['/']]).contains(a),
{
    let d = c.drop_last();
    let n = c.len() - 1;
    assert(c.take(n) =~= d);
    assert(is_ancestor(c, n));
    if ancestors(c).contains(a) {
        let k = choose|k: int| #[trigger] is_ancestor(c, k) && a == c.take(k);
        if k < n {
            assert(d.take(k) =~= c.take(k));
            assert(is_ancestor(d, k));
        }
    }
    if ancestors(d).contains(a) {
        let k = choose|k: int| #[trigger] is_ancestor(d, k) && a == d.take(k);
        assert(d.take(k) =~= c.take(k));
        assert(is_ancestor(c, k));
    }
    if ancestors(c).contains(c) {
        let k = choose|k: int| #[trigger] is_ancestor(c, k) && c == c.take(k);
        assert(c.take(k).len() == k);
    }
}

} // verus!
