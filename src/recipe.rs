//! The recipe set: a partial, symmetric, append-only map from pairs of items
//! to the item they combine into.
use std::collections::HashMap;
use vstd::prelude::*;

use crate::pair::{encode, lemma_encode_injective, Pair};

verus! {

/// Every pair in `m` maps to the same result in both orders.
pub open spec fn symmetric(m: Map<(u32, u32), u32>) -> bool {
    forall|a: u32, b: u32|
        #[trigger] m.contains_key((a, b)) ==> m.contains_key((b, a)) && m[(b, a)] == m[(a, b)]
}

/// Every id in `m`, on either side, is below `n`.
pub open spec fn ids_below(m: Map<(u32, u32), u32>, n: nat) -> bool {
    forall|a: u32, b: u32|
        #[trigger] m.contains_key((a, b)) ==> a < n && b < n && m[(a, b)] < n
}

/// What a lookup of `(a, b)` gives: `None` when the pair was never evaluated.
pub open spec fn lookup(m: Map<(u32, u32), u32>, a: u32, b: u32) -> Option<u32> {
    if m.contains_key((a, b)) {
        Some(m[(a, b)])
    } else {
        None
    }
}

/// The map after `(a, b) -> w` was recorded in both orders.
pub open spec fn with_recipe(m: Map<(u32, u32), u32>, a: u32, b: u32, w: u32) -> Map<(u32, u32), u32> {
    m.insert((a, b), w).insert((b, a), w)
}

/// A partial symmetric function from pairs of items to items.
pub struct RecipeSet {
    map: HashMap<u64, u32>,
    entries: Vec<(u32, u32, u32)>,
    limit: u64,
}

impl RecipeSet {
    /// The recipes, keyed by ordered pair; both orders of each are present.
    pub closed spec fn view(&self) -> Map<(u32, u32), u32> {
        Map::new(
            |p: (u32, u32)| self.map@.contains_key(encode(p.0, p.1)),
            |p: (u32, u32)| self.map@[encode(p.0, p.1)],
        )
    }

    /// A bound above every id that occurs in the recipes.
    pub closed spec fn limit_spec(&self) -> nat {
        self.limit as nat
    }

    /// The recipes in the order they were first recorded, each once, as
    /// `(a, b, w)` for the order in which it was recorded.
    pub closed spec fn entries_spec(&self) -> Seq<(u32, u32, u32)> {
        self.entries@
    }

    pub closed spec fn inner_wf(&self) -> bool {
        &&& forall|k: u64| #[trigger]
            self.map@.contains_key(k) ==> exists|a: u32, b: u32| k == encode(a, b)
        &&& self.limit <= 4294967296
        &&& self.entries@.len() <= self.map@.len()
    }

    pub open spec fn wf(&self) -> bool {
        &&& self.inner_wf()
        &&& symmetric(self@)
        &&& ids_below(self@, self.limit_spec())
        &&& self.limit_spec() <= 4294967296
        &&& forall|i: int|
            0 <= i < self.entries_spec().len() ==> {
                let e = #[trigger] self.entries_spec()[i];
                self@.contains_key((e.0, e.1)) && self@[(e.0, e.1)] == e.2
            }
        &&& forall|a: u32, b: u32|
            #[trigger] self@.contains_key((a, b)) ==> exists|i: int|
                0 <= i < self.entries_spec().len() && {
                    let e = #[trigger] self.entries_spec()[i];
                    (e.0 == a && e.1 == b) || (e.0 == b && e.1 == a)
                }
    }

    pub fn new() -> (r: RecipeSet)
        ensures
            r.wf(),
            r@ == Map::<(u32, u32), u32>::empty(),
            r.entries_spec().len() == 0,
    {
        let r = RecipeSet { map: HashMap::new(), entries: Vec::new(), limit: 0 };
        assert(r@ =~= Map::<(u32, u32), u32>::empty());
        r
    }

    /// `None` if the pair was never evaluated, `Some(NOTHING)` if it combines
    /// into nothing, `Some(w)` otherwise.
    pub fn get(&self, a: u32, b: u32) -> (r: Option<u32>)
        requires
            self.wf(),
        ensures
            r == lookup(self@, a, b),
    {
        let k = Pair::new(a, b).as_u64();
        match self.map.get(&k) {
            Some(w) => Some(*w),
            None => None,
        }
    }

    /// Whether the pair was evaluated.
    pub fn contains(&self, a: u32, b: u32) -> (r: bool)
        requires
            self.wf(),
        ensures
            r == self@.contains_key((a, b)),
    {
        let k = Pair::new(a, b).as_u64();
        self.map.contains_key(&k)
    }

    /// A bound above every id in the recipes.
    pub fn limit(&self) -> (r: u64)
        requires
            self.wf(),
        ensures
            r == self.limit_spec(),
            ids_below(self@, r as nat),
    {
        self.limit
    }

    /// The number of distinct recipes (a pair and its swap count once).
    pub fn num_recipes(&self) -> (r: usize)
        requires
            self.wf(),
        ensures
            r == self.entries_spec().len(),
    {
        self.entries.len()
    }

    /// The `i`-th recipe in the order of recording.
    pub fn entry(&self, i: usize) -> (r: (u32, u32, u32))
        requires
            self.wf(),
            i < self.entries_spec().len(),
        ensures
            r == self.entries_spec()[i as int],
            self@.contains_key((r.0, r.1)),
            self@[(r.0, r.1)] == r.2,
    {
        self.entries[i]
    }

    /// Records `a + b -> w` in both orders. A pair that already has a
    /// different result keeps it, and that result comes back as the error.
    pub fn insert(&mut self, a: u32, b: u32, w: u32) -> (r: Result<(), u32>)
        requires
            old(self).wf(),
        ensures
            final(self).wf(),
            match lookup(old(self)@, a, b) {
                Some(x) => {
                    &&& final(self)@ == old(self)@
                    &&& final(self).entries_spec() == old(self).entries_spec()
                    &&& r == if x == w { Ok::<(), u32>(()) } else { Err(x) }
                },
                None => {
                    &&& final(self)@ == with_recipe(old(self)@, a, b, w)
                    &&& final(self).entries_spec() == old(self).entries_spec().push((a, b, w))
                    &&& r == Ok::<(), u32>(())
                },
            },
            final(self).limit_spec() >= old(self).limit_spec(),
            final(self).limit_spec() > a && final(self).limit_spec() > b
                && (lookup(old(self)@, a, b) is None ==> final(self).limit_spec() > w),
    {
        let k = Pair::new(a, b).as_u64();
        let k2 = Pair::new(b, a).as_u64();
        match self.map.get(&k) {
            Some(x) => {
                let x = *x;
                proof {
                    self.lemma_limit_covers(a, b);
                }
                if x == w {
                    Ok(())
                } else {
                    Err(x)
                }
            },
            None => {
                let ghost old_map = self.map@;
                let ghost old_view = self@;
                assert(!old_view.contains_key((b, a)));
                self.map.insert(k, w);
                self.map.insert(k2, w);
                self.entries.push((a, b, w));
                let mut lim = self.limit;
                if lim <= a as u64 {
                    lim = a as u64 + 1;
                }
                if lim <= b as u64 {
                    lim = b as u64 + 1;
                }
                if lim <= w as u64 {
                    lim = w as u64 + 1;
                }
                self.limit = lim;
                proof {
                    assert(self@ =~= with_recipe(old_view, a, b, w)) by {
                        assert forall|p: (u32, u32)| #[trigger] self@.contains_key(p)
                            == with_recipe(old_view, a, b, w).contains_key(p) by {
                            lemma_encode_injective(p.0, p.1, a, b);
                            lemma_encode_injective(p.0, p.1, b, a);
                        }
                        assert forall|p: (u32, u32)| #[trigger] self@.contains_key(p)
                            implies self@[p] == with_recipe(old_view, a, b, w)[p] by {
                            lemma_encode_injective(p.0, p.1, a, b);
                            lemma_encode_injective(p.0, p.1, b, a);
                        }
                    }
                    assert(self.map@.len() >= old_map.len() + 1) by {
                        assert(self.map@ == old_map.insert(k, w).insert(k2, w));
                        assert(!old_map.contains_key(k));
                    }
                    assert forall|kk: u64| #[trigger]
                        self.map@.contains_key(kk) implies exists|x: u32, y: u32| kk == encode(x, y) by {
                        if kk != k && kk != k2 {
                            assert(old_map.contains_key(kk));
                        }
                    }
                    let n = self.entries@.len();
                    assert forall|i: int| 0 <= i < self.entries_spec().len() implies {
                        let e = #[trigger] self.entries_spec()[i];
                        self@.contains_key((e.0, e.1)) && self@[(e.0, e.1)] == e.2
                    } by {
                        if i < n - 1 {
                            assert(self.entries_spec()[i] == old(self).entries_spec()[i]);
                        }
                    }
                    assert forall|x: u32, y: u32| #[trigger] self@.contains_key((x, y)) implies exists|i: int|
                        0 <= i < self.entries_spec().len() && {
                            let e = #[trigger] self.entries_spec()[i];
                            (e.0 == x && e.1 == y) || (e.0 == y && e.1 == x)
                        } by {
                        if old_view.contains_key((x, y)) {
                            let i = choose|i: int| 0 <= i < old(self).entries_spec().len() && {
                                let e = #[trigger] old(self).entries_spec()[i];
                                (e.0 == x && e.1 == y) || (e.0 == y && e.1 == x)
                            };
                            assert(self.entries_spec()[i] == old(self).entries_spec()[i]);
                        } else {
                            assert(self.entries_spec()[n - 1] == (a, b, w));
                        }
                    }
                }
                Ok(())
            },
        }
    }

    proof fn lemma_limit_covers(&self, a: u32, b: u32)
        requires
            self.wf(),
            self@.contains_key((a, b)),
        ensures
            self.limit_spec() > a && self.limit_spec() > b,
    {
    }
}

} // verus!
