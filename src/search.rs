//! The minimal-generating-set search: a priority-driven relaxation over the
//! combination graph that keeps, for each item, its smallest cardinality and
//! the family of generating sets of that size.
use vstd::prelude::*;

use crate::pair::NOTHING;
use crate::path::{available, outputs, path_saturated, valid_path};
use crate::recipe::{ids_below, lookup, RecipeSet};
use crate::seqs::{ascending, candidate_len_bound};
use crate::uniform_family::{family_wf, merge_all, FamilyModel, UniformFamily, UNREACHED};

verus! {

/// The combination graph: for each item `u1`, the arcs `(u2, u3)` of the
/// recipes `u1 + u2 -> u3` whose result is an item.
pub struct Graph {
    adj: Vec<Vec<(u32, u32)>>,
    recipes: Ghost<Map<(u32, u32), u32>>,
}

impl Graph {
    /// The recipes the graph was built from.
    pub closed spec fn recipes(&self) -> Map<(u32, u32), u32> {
        self.recipes@
    }

    pub closed spec fn arcs(&self) -> Seq<Seq<(u32, u32)>> {
        self.adj@.map_values(|v: Vec<(u32, u32)>| v@)
    }

    /// Every arc names ids below the vertex count.
    pub open spec fn bounded(&self) -> bool {
        forall|u: int, k: int|
            0 <= u < self.arcs().len() && 0 <= k < self.arcs()[u].len() ==> {
                let a = #[trigger] self.arcs()[u][k];
                &&& (a.0 as int) < self.arcs().len()
                &&& (a.1 as int) < self.arcs().len()
            }
    }

    /// Some arc out of `u` is `(v, w)`.
    pub open spec fn has_arc(&self, u: u32, v: u32, w: u32) -> bool {
        &&& (u as int) < self.arcs().len()
        &&& exists|k: int| 0 <= k < self.arcs()[u as int].len() && self.arcs()[u as int][k] == (v, w)
    }

    /// Every recipe with an item as result gives an arc.
    pub open spec fn complete(&self, m: Map<(u32, u32), u32>) -> bool {
        forall|a: u32, b: u32|
            #[trigger] m.contains_key((a, b)) && m[(a, b)] != NOTHING ==> self.has_arc(a, b, m[(a, b)])
    }

    /// Every arc comes from a recipe with an item as result, over ids below the vertex count.
    pub open spec fn sound(&self, m: Map<(u32, u32), u32>) -> bool {
        forall|u: int, k: int|
            0 <= u < self.arcs().len() && 0 <= k < self.arcs()[u].len() ==> {
                let a = #[trigger] self.arcs()[u][k];
                &&& lookup(m, u as u32, a.0) == Some(a.1)
                &&& a.1 != NOTHING
                &&& (a.0 as int) < self.arcs().len()
                &&& (a.1 as int) < self.arcs().len()
            }
    }

    /// The graph of the recipes over ids below `n`.
    pub fn from_recipes(n: usize, recipe: &RecipeSet) -> (g: Graph)
        requires
            recipe.wf(),
            ids_below(recipe@, n as nat),
            n <= 4294967296,
        ensures
            g.arcs().len() == n,
            g.sound(recipe@),
            g.complete(recipe@),
            g.bounded(),
            g.recipes() == recipe@,
    {
        let mut adj: Vec<Vec<(u32, u32)>> = Vec::new();
        let mut i: usize = 0;
        while i < n
            invariant
                i <= n,
                adj@.len() == i,
                forall|u: int| 0 <= u < i ==> (#[trigger] adj@[u])@.len() == 0,
            decreases n - i,
        {
            adj.push(Vec::new());
            i += 1;
        }
        let mut g = Graph { adj, recipes: Ghost(recipe@) };
        proof {
            assert forall|u: int| 0 <= u < g.arcs().len() implies (#[trigger] g.arcs()[u]).len() == 0 by {
                assert(g.arcs()[u] == g.adj@[u]@);
            }
        }
        let mut e: usize = 0;
        while e < recipe.num_recipes()
            invariant
                recipe.wf(),
                ids_below(recipe@, n as nat),
                g.arcs().len() == n,
                g.sound(recipe@),
                g.recipes() == recipe@,
                e <= recipe.entries_spec().len(),
                forall|i: int| 0 <= i < e ==> {
                    let t = #[trigger] recipe.entries_spec()[i];
                    t.2 != NOTHING ==> g.has_arc(t.0, t.1, t.2) && g.has_arc(t.1, t.0, t.2)
                },
            decreases recipe.entries_spec().len() - e,
        {
            let (a, b, w) = recipe.entry(e);
            if w != NOTHING {
                proof {
                    assert(recipe@.contains_key((b, a)));
                }
                g.add_arc(a, b, w, Ghost(recipe@));
                if a != b {
                    g.add_arc(b, a, w, Ghost(recipe@));
                }
            }
            e += 1;
        }
        proof {
            let m = recipe@;
            assert forall|a: u32, b: u32| #[trigger] m.contains_key((a, b)) && m[(a, b)] != NOTHING
                implies g.has_arc(a, b, m[(a, b)]) by {
                let i = choose|i: int| 0 <= i < recipe.entries_spec().len() && {
                    let t = #[trigger] recipe.entries_spec()[i];
                    (t.0 == a && t.1 == b) || (t.0 == b && t.1 == a)
                };
                let t = recipe.entries_spec()[i];
                assert(m.contains_key((t.0, t.1)) && m[(t.0, t.1)] == t.2);
                assert(m[(b, a)] == m[(a, b)]);
            }
        }
        g
    }

    fn add_arc(&mut self, u: u32, v: u32, w: u32, Ghost(m): Ghost<Map<(u32, u32), u32>>)
        requires
            old(self).sound(m),
            lookup(m, u, v) == Some(w),
            w != NOTHING,
            (u as int) < old(self).arcs().len(),
            (v as int) < old(self).arcs().len(),
            (w as int) < old(self).arcs().len(),
        ensures
            final(self).sound(m),
            final(self).arcs().len() == old(self).arcs().len(),
            final(self).recipes() == old(self).recipes(),
            final(self).has_arc(u, v, w),
            forall|x: u32, y: u32, z: u32| old(self).has_arc(x, y, z) ==> #[trigger] final(self).has_arc(x, y, z),
    {
        let ghost a0 = self.arcs();
        let mut list: Vec<(u32, u32)> = Vec::new();
        self.adj.set_and_swap(u as usize, &mut list);
        list.push((v, w));
        self.adj.set_and_swap(u as usize, &mut list);
        proof {
            let a1 = self.arcs();
            assert forall|x: int, k: int| 0 <= x < a1.len() && 0 <= k < a1[x].len() implies {
                let a = #[trigger] a1[x][k];
                &&& lookup(m, x as u32, a.0) == Some(a.1)
                &&& a.1 != NOTHING
                &&& (a.0 as int) < a1.len()
                &&& (a.1 as int) < a1.len()
            } by {
                if x != u as int {
                    assert(a1[x] == a0[x]);
                } else if k < a0[x].len() {
                    assert(a1[x][k] == a0[x][k]);
                } else {
                    assert(a1[x][k] == (v, w));
                }
            }
            assert(a1[u as int][a0[u as int].len() as int] == (v, w));
            assert forall|x: u32, y: u32, z: u32| old(self).has_arc(x, y, z) implies #[trigger] self.has_arc(x, y, z) by {
                let k = choose|k: int| 0 <= k < a0[x as int].len() && a0[x as int][k] == (y, z);
                if x != u {
                    assert(a1[x as int] == a0[x as int]);
                } else {
                    assert(a1[x as int][k] == a0[x as int][k]);
                }
            }
        }
    }

    pub fn num_vertices(&self) -> (r: usize)
        ensures
            r == self.arcs().len(),
    {
        self.adj.len()
    }

    /// The arcs `(u2, u3)` out of `u`.
    pub fn arcs_from(&self, u: u32) -> (r: &Vec<(u32, u32)>)
        requires
            (u as int) < self.arcs().len(),
        ensures
            r@ == self.arcs()[u as int],
    {
        &self.adj[u as usize]
    }
}

/// The width bound the potential is measured against: at least one.
pub open spec fn width(max_count: usize) -> nat {
    if max_count == 0 { 1 } else { max_count as nat }
}

/// How far a family may still improve: a smaller cardinality, or more
/// members at the same one.
pub open spec fn potential(f: FamilyModel, mc: nat) -> nat {
    let c: nat = if f.0 == UNREACHED { 4294967297 } else { f.0 as nat };
    c * (mc + 1) + (if f.1.len() <= mc { (mc - f.1.len()) as nat } else { 0 })
}

pub open spec fn total_potential(fs: Seq<FamilyModel>, mc: nat) -> nat
    decreases fs.len(),
{
    if fs.len() == 0 {
        0
    } else {
        total_potential(fs.drop_last(), mc) + potential(fs.last(), mc)
    }
}

proof fn lemma_total_update(fs: Seq<FamilyModel>, mc: nat, i: int, f: FamilyModel)
    requires
        0 <= i < fs.len(),
    ensures
        total_potential(fs.update(i, f), mc) + potential(fs[i], mc) == total_potential(fs, mc) + potential(f, mc),
    decreases fs.len(),
{
    let gs = fs.update(i, f);
    if i < fs.len() - 1 {
        assert(gs.drop_last() =~= fs.drop_last().update(i, f));
        lemma_total_update(fs.drop_last(), mc, i, f);
    } else {
        assert(gs.drop_last() =~= fs.drop_last());
    }
}

proof fn lemma_add_one_potential(f: FamilyModel, cand: Seq<u32>, max_len: usize, mc: nat)
    requires
        f.1.len() <= mc,
        max_len <= mc,
        mc >= 1,
        cand.len() <= 4294967296,
        f.0 != UNREACHED ==> f.0 <= 4294967296,
    ensures
        ({
            let (g, ch) = crate::uniform_family::add_one(f, cand, max_len);
            &&& potential(g, mc) <= potential(f, mc)
            &&& ch ==> potential(g, mc) < potential(f, mc)
            &&& g.1.len() <= mc
            &&& g.0 != UNREACHED ==> g.0 <= 4294967296
        }),
{
    let (g, ch) = crate::uniform_family::add_one(f, cand, max_len);
    let fc: nat = if f.0 == UNREACHED { 4294967297 } else { f.0 as nat };
    let pf = potential(f, mc);
    assert(pf == fc * (mc + 1) + (mc - f.1.len()));
    if f.0 < cand.len() || cand.len() >= UNREACHED {
        assert(g == f);
    } else if cand.len() < f.0 {
        let c = cand.len();
        assert(c < fc);
        assert(g.0 == c as usize);
        assert(g.1.len() <= 1);
        assert(potential(g, mc) == c * (mc + 1) + (mc - g.1.len()));
        assert(c * (mc + 1) + mc < fc * (mc + 1)) by (nonlinear_arith)
            requires
                c < fc,
                mc >= 1,
        ;
    } else {
        assert(fc == f.0 as nat);
        assert(g.0 == f.0);
        if ch {
            crate::uniform_family::lemma_insert_pos_bound(f.1, cand);
            assert(g.1.len() == f.1.len() + 1);
            assert(f.1.len() < max_len);
        } else {
            assert(g == f);
        }
        assert(potential(g, mc) == fc * (mc + 1) + (mc - g.1.len()));
    }
}

proof fn lemma_merge_one_potential(f: FamilyModel, s1: Seq<u32>, s2: Seq<Seq<u32>>, u3: u32, max_len: usize, mc: nat)
    requires
        f.1.len() <= mc,
        max_len <= mc,
        mc >= 1,
        f.0 != UNREACHED ==> f.0 <= 4294967296,
        ascending(s1),
        forall|i: int| 0 <= i < s2.len() ==> ascending(#[trigger] s2[i]),
    ensures
        ({
            let (g, ch) = crate::uniform_family::merge_one(f, s1, s2, u3, max_len);
            &&& potential(g, mc) <= potential(f, mc)
            &&& ch ==> potential(g, mc) < potential(f, mc)
            &&& g.1.len() <= mc
            &&& g.0 != UNREACHED ==> g.0 <= 4294967296
        }),
    decreases s2.len(),
{
    if s2.len() > 0 {
        lemma_merge_one_potential(f, s1, s2.drop_last(), u3, max_len, mc);
        let (g, a) = crate::uniform_family::merge_one(f, s1, s2.drop_last(), u3, max_len);
        candidate_len_bound(s1, s2.last(), u3);
        lemma_add_one_potential(g, crate::uniform_family::candidate(s1, s2.last(), u3), max_len, mc);
    }
}

proof fn lemma_merge_all_potential(f: FamilyModel, s1: Seq<Seq<u32>>, s2: Seq<Seq<u32>>, u3: u32, max_len: usize, mc: nat)
    requires
        f.1.len() <= mc,
        max_len <= mc,
        mc >= 1,
        f.0 != UNREACHED ==> f.0 <= 4294967296,
        forall|i: int| 0 <= i < s1.len() ==> ascending(#[trigger] s1[i]),
        forall|i: int| 0 <= i < s2.len() ==> ascending(#[trigger] s2[i]),
    ensures
        ({
            let (g, ch) = merge_all(f, s1, s2, u3, max_len);
            &&& potential(g, mc) <= potential(f, mc)
            &&& ch ==> potential(g, mc) < potential(f, mc)
            &&& g.1.len() <= mc
            &&& g.0 != UNREACHED ==> g.0 <= 4294967296
        }),
    decreases s1.len(),
{
    if s1.len() > 0 {
        lemma_merge_all_potential(f, s1.drop_last(), s2, u3, max_len, mc);
        let (g, a) = merge_all(f, s1.drop_last(), s2, u3, max_len);
        lemma_merge_one_potential(g, s1.last(), s2, u3, max_len, mc);
    }
}

/// Every member of the family holds `x`.
pub open spec fn all_hold(f: FamilyModel, x: u32) -> bool {
    forall|i: int| 0 <= i < f.1.len() ==> (#[trigger] f.1[i]).contains(x)
}

/// Every member of the family satisfies `p`.
pub open spec fn all_satisfy(f: FamilyModel, p: spec_fn(Seq<u32>) -> bool) -> bool {
    forall|i: int| 0 <= i < f.1.len() ==> p(#[trigger] f.1[i])
}

proof fn lemma_add_one_keeps(f: FamilyModel, cand: Seq<u32>, max_len: usize, p: spec_fn(Seq<u32>) -> bool)
    requires
        all_satisfy(f, p),
        p(cand),
    ensures
        all_satisfy(crate::uniform_family::add_one(f, cand, max_len).0, p),
{
    let (g, ch) = crate::uniform_family::add_one(f, cand, max_len);
    if !(f.0 < cand.len() || cand.len() >= UNREACHED) {
        let shrink = cand.len() < f.0;
        let base: FamilyModel = if shrink { (cand.len() as usize, Seq::empty()) } else { f };
        if !(max_len <= base.1.len() || base.1.contains(cand)) {
            let q = crate::uniform_family::insert_pos(base.1, cand) as int;
            crate::uniform_family::lemma_insert_pos_bound(base.1, cand);
            assert forall|i: int| 0 <= i < g.1.len() implies p(#[trigger] g.1[i]) by {
                if i < q {
                    assert(g.1[i] == base.1[i]);
                } else if i > q {
                    assert(g.1[i] == base.1[i - 1]);
                }
            }
        }
    }
}

proof fn lemma_merge_one_keeps(f: FamilyModel, s1: Seq<u32>, s2: Seq<Seq<u32>>, u3: u32, max_len: usize, p: spec_fn(Seq<u32>) -> bool)
    requires
        all_satisfy(f, p),
        forall|j: int| 0 <= j < s2.len() ==> p(crate::uniform_family::candidate(s1, #[trigger] s2[j], u3)),
    ensures
        all_satisfy(crate::uniform_family::merge_one(f, s1, s2, u3, max_len).0, p),
    decreases s2.len(),
{
    if s2.len() > 0 {
        assert forall|j: int| 0 <= j < s2.drop_last().len() implies p(crate::uniform_family::candidate(s1, #[trigger] s2.drop_last()[j], u3)) by {
            assert(s2.drop_last()[j] == s2[j]);
        }
        lemma_merge_one_keeps(f, s1, s2.drop_last(), u3, max_len, p);
        let (g, a) = crate::uniform_family::merge_one(f, s1, s2.drop_last(), u3, max_len);
        assert(s2.last() == s2[s2.len() - 1]);
        lemma_add_one_keeps(g, crate::uniform_family::candidate(s1, s2.last(), u3), max_len, p);
    }
}

proof fn lemma_merge_all_keeps(f: FamilyModel, s1: Seq<Seq<u32>>, s2: Seq<Seq<u32>>, u3: u32, max_len: usize, p: spec_fn(Seq<u32>) -> bool)
    requires
        all_satisfy(f, p),
        forall|i: int, j: int| 0 <= i < s1.len() && 0 <= j < s2.len()
            ==> p(crate::uniform_family::candidate(#[trigger] s1[i], #[trigger] s2[j], u3)),
    ensures
        all_satisfy(merge_all(f, s1, s2, u3, max_len).0, p),
    decreases s1.len(),
{
    if s1.len() > 0 {
        assert forall|i: int, j: int| 0 <= i < s1.drop_last().len() && 0 <= j < s2.len()
            implies p(crate::uniform_family::candidate(#[trigger] s1.drop_last()[i], #[trigger] s2[j], u3)) by {
            assert(s1.drop_last()[i] == s1[i]);
        }
        lemma_merge_all_keeps(f, s1.drop_last(), s2, u3, max_len, p);
        let (g, a) = merge_all(f, s1.drop_last(), s2, u3, max_len);
        assert forall|j: int| 0 <= j < s2.len() implies p(crate::uniform_family::candidate(s1.last(), #[trigger] s2[j], u3)) by {
            assert(s1.last() == s1[s1.len() - 1]);
        }
        lemma_merge_one_keeps(g, s1.last(), s2, u3, max_len, p);
    }
}

/// `t` holds every item of `allowed` that two of its members combine into.
pub open spec fn closed_in(m: Map<(u32, u32), u32>, allowed: Set<u32>, t: Set<u32>) -> bool {
    forall|a: u32, b: u32|
        #![trigger lookup(m, a, b), t.contains(a), t.contains(b)]
        t.contains(a) && t.contains(b) && lookup(m, a, b) is Some && allowed.contains(lookup(m, a, b)->0)
            ==> t.contains(lookup(m, a, b)->0)
}

/// What the source items make when only items of `allowed` may be made.
pub open spec fn made(m: Map<(u32, u32), u32>, src: Set<u32>, allowed: Set<u32>) -> Set<u32> {
    Set::new(|x: u32| forall|t: Set<u32>| #[trigger] closed_in(m, allowed, t) && src.subset_of(t) ==> t.contains(x))
}

/// A generating set: free of source items, and every member made from the
/// source when the set's own items may be made.
pub open spec fn generating(m: Map<(u32, u32), u32>, src: Set<u32>, s: Seq<u32>) -> bool {
    &&& forall|k: int| 0 <= k < s.len() ==> !src.contains(#[trigger] s[k])
    &&& forall|k: int| 0 <= k < s.len() ==> made(m, src, s.to_set()).contains(#[trigger] s[k])
}

proof fn lemma_made_closed(m: Map<(u32, u32), u32>, src: Set<u32>, allowed: Set<u32>)
    ensures
        closed_in(m, allowed, made(m, src, allowed)),
        src.subset_of(made(m, src, allowed)),
{
    let r = made(m, src, allowed);
    assert forall|a: u32, b: u32|
        #![trigger lookup(m, a, b), r.contains(a), r.contains(b)]
        r.contains(a) && r.contains(b) && lookup(m, a, b) is Some && allowed.contains(lookup(m, a, b)->0)
            implies r.contains(lookup(m, a, b)->0) by {
        assert forall|t: Set<u32>| #[trigger] closed_in(m, allowed, t) && src.subset_of(t) implies t.contains(lookup(m, a, b)->0) by {
            assert(t.contains(a) && t.contains(b));
        }
    }
}

proof fn lemma_made_monotone(m: Map<(u32, u32), u32>, src: Set<u32>, a1: Set<u32>, a2: Set<u32>)
    requires
        a1.subset_of(a2),
    ensures
        made(m, src, a1).subset_of(made(m, src, a2)),
{
    assert forall|x: u32| made(m, src, a1).contains(x) implies made(m, src, a2).contains(x) by {
        assert forall|t: Set<u32>| #[trigger] closed_in(m, a2, t) && src.subset_of(t) implies t.contains(x) by {
            assert(closed_in(m, a1, t));
        }
    }
}

/// The candidate built over a recipe `u1 + u2 -> u3` from generating sets of
/// `u1` and `u2` is a generating set.
proof fn lemma_candidate_generating(
    m: Map<(u32, u32), u32>,
    src: Set<u32>,
    s1: Seq<u32>,
    s2: Seq<u32>,
    u1: u32,
    u2: u32,
    u3: u32,
)
    requires
        generating(m, src, s1),
        generating(m, src, s2),
        src.contains(u1) || s1.contains(u1),
        src.contains(u2) || s2.contains(u2),
        lookup(m, u1, u2) == Some(u3),
        !src.contains(u3),
    ensures
        generating(m, src, crate::uniform_family::candidate(s1, s2, u3)),
{
    let un = crate::seqs::union(s1, s2);
    let c = crate::uniform_family::candidate(s1, s2, u3);
    crate::seqs::lemma_union_contains(s1, s2);
    crate::seqs::lemma_union_contains(un, seq![u3]);
    assert(seq![u3][0] == u3);
    assert forall|x: u32| c.contains(x) <==> (s1.contains(x) || s2.contains(x) || x == u3) by {
        if seq![u3].contains(x) {
            let k = choose|k: int| 0 <= k < 1 && seq![u3][k] == x;
        }
    }
    let cs = c.to_set();
    assert(s1.to_set().subset_of(cs));
    assert(s2.to_set().subset_of(cs));
    lemma_made_monotone(m, src, s1.to_set(), cs);
    lemma_made_monotone(m, src, s2.to_set(), cs);
    lemma_made_closed(m, src, cs);
    let r = made(m, src, cs);
    assert forall|x: u32| s1.contains(x) implies r.contains(x) by {
        let k = choose|k: int| 0 <= k < s1.len() && s1[k] == x;
        assert(made(m, src, s1.to_set()).contains(s1[k]));
    }
    assert forall|x: u32| s2.contains(x) implies r.contains(x) by {
        let k = choose|k: int| 0 <= k < s2.len() && s2[k] == x;
        assert(made(m, src, s2.to_set()).contains(s2[k]));
    }
    assert(r.contains(u1) && r.contains(u2));
    assert(cs.contains(u3));
    assert(r.contains(u3));
    assert forall|k: int| 0 <= k < c.len() implies !src.contains(#[trigger] c[k]) && r.contains(c[k]) by {
        assert(c.contains(c[k]));
        if s1.contains(c[k]) {
            let j = choose|j: int| 0 <= j < s1.len() && s1[j] == c[k];
        } else if s2.contains(c[k]) {
            let j = choose|j: int| 0 <= j < s2.len() && s2[j] == c[k];
        }
    }
}

/// A reached family has a member.
pub open spec fn filled(f: FamilyModel) -> bool {
    f.0 != UNREACHED ==> f.1.len() >= 1
}

proof fn lemma_add_one_filled(f: FamilyModel, cand: Seq<u32>, max_len: usize)
    requires
        filled(f),
        max_len >= 1,
    ensures
        filled(crate::uniform_family::add_one(f, cand, max_len).0),
{
    if !(f.0 < cand.len() || cand.len() >= UNREACHED) {
        let shrink = cand.len() < f.0;
        let base: FamilyModel = if shrink { (cand.len() as usize, Seq::empty()) } else { f };
        if !(max_len <= base.1.len() || base.1.contains(cand)) {
            crate::uniform_family::lemma_insert_pos_bound(base.1, cand);
        }
    }
}

proof fn lemma_merge_all_filled(f: FamilyModel, s1: Seq<Seq<u32>>, s2: Seq<Seq<u32>>, u3: u32, max_len: usize)
    requires
        filled(f),
        max_len >= 1,
    ensures
        filled(merge_all(f, s1, s2, u3, max_len).0),
    decreases s1.len(),
{
    if s1.len() > 0 {
        lemma_merge_all_filled(f, s1.drop_last(), s2, u3, max_len);
        let (g, a) = merge_all(f, s1.drop_last(), s2, u3, max_len);
        lemma_merge_one_filled(g, s1.last(), s2, u3, max_len);
    }
}

proof fn lemma_merge_one_filled(f: FamilyModel, s1: Seq<u32>, s2: Seq<Seq<u32>>, u3: u32, max_len: usize)
    requires
        filled(f),
        max_len >= 1,
    ensures
        filled(crate::uniform_family::merge_one(f, s1, s2, u3, max_len).0),
    decreases s2.len(),
{
    if s2.len() > 0 {
        lemma_merge_one_filled(f, s1, s2.drop_last(), u3, max_len);
        let (g, a) = crate::uniform_family::merge_one(f, s1, s2.drop_last(), u3, max_len);
        lemma_add_one_filled(g, crate::uniform_family::candidate(s1, s2.last(), u3), max_len);
    }
}

/// The families after offering `u1` (of cardinality `c1` when the offers
/// began) with each of the `arcs` out of it in order. An arc `(u2, u3)` is
/// skipped when `u2` is cheaper-unknown (`c1 < card(u2)`) or `u3` is already
/// as cheap as `c1`; otherwise `u3`'s family takes the merge of the families
/// of `u1` and `u2` (read while `u3`'s own is set aside).
pub open spec fn relax_spec(fams: Seq<FamilyModel>, u1: u32, c1: usize, arcs: Seq<(u32, u32)>, max_count: usize) -> Seq<FamilyModel>
    decreases arcs.len(),
{
    if arcs.len() == 0 {
        fams
    } else {
        let f = relax_spec(fams, u1, c1, arcs.drop_last(), max_count);
        let (u2, u3) = arcs.last();
        if c1 < f[u2 as int].0 || f[u3 as int].0 <= c1 {
            f
        } else {
            let g = f.update(u3 as int, (UNREACHED, Seq::<Seq<u32>>::empty()));
            f.update(u3 as int, merge_all(f[u3 as int], g[u1 as int].1, g[u2 as int].1, u3, max_count).0)
        }
    }
}

/// The search state: the cardinality bound, the family width bound, the
/// pending items by cardinality, the cardinality each was last queued at,
/// and each item's family.
pub struct Search {
    max_card: usize,
    max_count: usize,
    queue: Vec<(usize, u32)>,
    in_que: Vec<usize>,
    sets: Vec<UniformFamily>,
}

impl Search {
    /// The families, by item.
    pub closed spec fn families(&self) -> Seq<FamilyModel> {
        self.sets@.map_values(|f: UniformFamily| f@)
    }

    pub closed spec fn max_count_spec(&self) -> usize {
        self.max_count
    }

    pub closed spec fn max_card_spec(&self) -> usize {
        self.max_card
    }

    pub closed spec fn pending(&self) -> nat {
        self.queue@.len()
    }

    pub open spec fn wf(&self) -> bool {
        &&& self.families().len() <= 4294967296
        &&& forall|u: int| 0 <= u < self.families().len() ==> family_wf(#[trigger] self.families()[u])
            && self.families()[u].1.len() <= width(self.max_count_spec())
        &&& forall|u: int| 0 <= u < self.families().len() && (#[trigger] self.families()[u]).0 != 0
            ==> all_hold(self.families()[u], u as u32)
        &&& self.max_count_spec() >= 1 ==> forall|u: int| 0 <= u < self.families().len() ==> filled(#[trigger] self.families()[u])
        &&& self.inner_wf()
    }

    pub closed spec fn inner_wf(&self) -> bool {
        &&& self.in_que@.len() == self.sets@.len()
        &&& forall|k: int| 0 <= k < self.queue@.len() ==> ((#[trigger] self.queue@[k]).1 as int) < self.sets@.len()
    }

    /// Every member of every family is a generating set for the recipes `m`
    /// from the sources `src`, and only a source has cardinality 0.
    pub open spec fn sound_for(&self, m: Map<(u32, u32), u32>, src: Set<u32>) -> bool {
        forall|u: int| 0 <= u < self.families().len() ==> {
            &&& (#[trigger] self.families()[u]).0 == 0 ==> src.contains(u as u32)
            &&& all_satisfy(self.families()[u], |t: Seq<u32>| generating(m, src, t))
        }
    }

    /// Every source has the family of the empty set.
    pub open spec fn sources_settled(&self, src: Set<u32>) -> bool {
        forall|u: int| 0 <= u < self.families().len() && src.contains(u as u32)
            ==> #[trigger] self.families()[u] == (0usize, seq![Seq::<u32>::empty()])
    }

    /// What is left to do: pending entries, and the room the families have to improve.
    pub open spec fn measure(&self) -> nat {
        2 * total_potential(self.families(), width(self.max_count_spec())) + self.pending()
    }

    /// A search over `num_items` items, every one unreached, keeping at most
    /// `max_count` sets per family and no item above cardinality `max_card`
    /// queued.
    pub fn new(num_items: usize, max_count: usize, max_card: usize) -> (r: Search)
        requires
            num_items <= 4294967296,
        ensures
            r.wf(),
            r.families() == Seq::new(num_items as nat, |u: int| (UNREACHED, Seq::<Seq<u32>>::empty())),
            r.max_count_spec() == max_count,
            r.max_card_spec() == max_card,
            forall|m: Map<(u32, u32), u32>, src: Set<u32>| r.sound_for(m, src),
    {
        let mut sets: Vec<UniformFamily> = Vec::new();
        let mut in_que: Vec<usize> = Vec::new();
        let mut i: usize = 0;
        while i < num_items
            invariant
                i <= num_items,
                sets@.len() == i,
                in_que@.len() == i,
                forall|u: int| 0 <= u < i ==> (#[trigger] sets@[u])@ == (UNREACHED, Seq::<Seq<u32>>::empty()),
            decreases num_items - i,
        {
            sets.push(UniformFamily::new());
            in_que.push(UNREACHED);
            i += 1;
        }
        let r = Search { max_card, max_count, queue: Vec::new(), in_que, sets };
        assert(r.families() =~= Seq::new(num_items as nat, |u: int| (UNREACHED, Seq::<Seq<u32>>::empty())));
        assert forall|m: Map<(u32, u32), u32>, src: Set<u32>| r.sound_for(m, src) by {
            assert forall|u: int| 0 <= u < r.families().len() implies {
                &&& (#[trigger] r.families()[u]).0 == 0 ==> src.contains(u as u32)
                &&& all_satisfy(r.families()[u], |t: Seq<u32>| generating(m, src, t))
            } by {
                assert(r.families()[u].1.len() == 0);
            }
        }
        r
    }

    /// Whether `u` was reached.
    pub fn reached(&self, u: u32) -> (r: bool)
        requires
            (u as int) < self.families().len(),
        ensures
            r == (self.families()[u as int].0 != UNREACHED),
    {
        !self.sets[u as usize].is_empty()
    }

    /// The family of `u`.
    pub fn sets(&self, u: u32) -> (r: &UniformFamily)
        requires
            (u as int) < self.families().len(),
        ensures
            r@ == self.families()[u as int],
    {
        &self.sets[u as usize]
    }

    /// The smallest cardinality found for `u` (`usize::MAX` if unreached).
    pub fn min_card(&self, u: u32) -> (r: usize)
        requires
            (u as int) < self.families().len(),
        ensures
            r == self.families()[u as int].0,
    {
        self.sets[u as usize].card()
    }

    /// Starts from the `source` items, each with the family of the empty
    /// set, and relaxes over `graph` until nothing is pending.
    pub fn search_from_source(&mut self, source: &[u32], graph: &Graph)
        requires
            old(self).wf(),
            graph.arcs().len() == old(self).families().len(),
            graph.bounded(),
            graph.sound(graph.recipes()),
            forall|k: int| 0 <= k < source@.len() ==> ((#[trigger] source@[k]) as int) < old(self).families().len(),
        ensures
            old(self).sound_for(graph.recipes(), source@.to_set()) ==> final(self).sound_for(graph.recipes(), source@.to_set()),
            final(self).wf(),
            final(self).families().len() == old(self).families().len(),
            final(self).max_count_spec() == old(self).max_count_spec(),
            forall|k: int| 0 <= k < source@.len() ==> final(self).families()[#[trigger] source@[k] as int]
                == (0usize, seq![Seq::<u32>::empty()]),
    {
        let ghost track = old(self).sound_for(graph.recipes(), source@.to_set());
        let mut k: usize = 0;
        while k < source.len()
            invariant
                self.wf(),
                self.families().len() == old(self).families().len(),
                self.max_count == old(self).max_count,
                graph.arcs().len() == self.families().len(),
                graph.bounded(),
                forall|j: int| 0 <= j < source@.len() ==> ((#[trigger] source@[j]) as int) < self.families().len(),
                k <= source@.len(),
                forall|j: int| 0 <= j < k ==> self.families()[#[trigger] source@[j] as int]
                    == (0usize, seq![Seq::<u32>::empty()]),
                track ==> self.sound_for(graph.recipes(), source@.to_set()),
                track == old(self).sound_for(graph.recipes(), source@.to_set()),
            decreases source@.len() - k,
        {
            let u = source[k];
            let mut f = UniformFamily::new();
            let ghost fs0 = self.families();
            self.sets.set_and_swap(u as usize, &mut f);
            f.set_single_empty();
            self.sets.set_and_swap(u as usize, &mut f);
            proof {
                let src = source@.to_set();
                let m = graph.recipes();
                assert(self.families() =~= fs0.update(u as int, (0usize, seq![Seq::<u32>::empty()])));
                assert(source@[k as int] == u);
                assert(src.contains(u));
                if track {
                    assert forall|v: int| 0 <= v < self.families().len() implies {
                        &&& (#[trigger] self.families()[v]).0 == 0 ==> src.contains(v as u32)
                        &&& all_satisfy(self.families()[v], |t: Seq<u32>| generating(m, src, t))
                    } by {
                        if v == u as int {
                            let e = Seq::<u32>::empty();
                            assert(self.families()[v].1 == seq![e]);
                            assert(generating(m, src, e));
                            assert(self.families()[v].1[0] == e);
                        } else {
                            assert(self.families()[v] == fs0[v]);
                        }
                    }
                }
            }
            self.push(u, 0);
            k += 1;
        }
        let ghost before = self.families();
        proof {
            let src = source@.to_set();
            assert forall|u: int| 0 <= u < self.families().len() && src.contains(u as u32)
                implies #[trigger] self.families()[u] == (0usize, seq![Seq::<u32>::empty()]) by {
                let j = choose|j: int| 0 <= j < source@.len() && source@[j] == u as u32;
                assert(self.families()[source@[j] as int] == (0usize, seq![Seq::<u32>::empty()]));
            }
        }
        self.search(graph, Ghost(source@.to_set()), Ghost(track));
        proof {
            assert forall|j: int| 0 <= j < source@.len() implies self.families()[#[trigger] source@[j] as int]
                == (0usize, seq![Seq::<u32>::empty()]) by {
                assert(before[source@[j] as int].0 == 0);
            }
        }
    }

    /// Takes the pending entry of least cardinality, the largest item first
    /// among equals.
    fn pop_min(&mut self) -> (r: (usize, u32))
        requires
            old(self).wf(),
            old(self).pending() > 0,
        ensures
            final(self).wf(),
            final(self).families() == old(self).families(),
            final(self).pending() + 1 == old(self).pending(),
            (r.1 as int) < final(self).families().len(),
            final(self).max_count == old(self).max_count,
            final(self).in_que == old(self).in_que,
    {
        let ghost q0 = self.queue@;
        let r = heap_pop(&mut self.queue);
        proof {
            assert(q0.contains(r));
            assert forall|j: int| 0 <= j < self.queue@.len() implies ((#[trigger] self.queue@[j]).1 as int) < self.sets@.len() by {
                assert(q0.contains(self.queue@[j]));
            }
        }
        r
    }

    fn search(&mut self, graph: &Graph, Ghost(src): Ghost<Set<u32>>, Ghost(track): Ghost<bool>)
        requires
            old(self).wf(),
            graph.arcs().len() == old(self).families().len(),
            graph.bounded(),
            graph.sound(graph.recipes()),
            track ==> old(self).sound_for(graph.recipes(), src),
            old(self).sources_settled(src),
        ensures
            track ==> final(self).sound_for(graph.recipes(), src),
            final(self).sources_settled(src),
            final(self).wf(),
            final(self).families().len() == old(self).families().len(),
            final(self).max_count_spec() == old(self).max_count_spec(),
            forall|u: int| 0 <= u < old(self).families().len() && (#[trigger] old(self).families()[u]).0 == 0
                ==> final(self).families()[u] == old(self).families()[u],
    {
        while self.queue.len() > 0
            invariant
                self.wf(),
                self.families().len() == old(self).families().len(),
                self.max_count == old(self).max_count,
                graph.arcs().len() == self.families().len(),
                graph.bounded(),
                forall|u: int| 0 <= u < old(self).families().len() && (#[trigger] old(self).families()[u]).0 == 0
                    ==> self.families()[u] == old(self).families()[u],
                graph.sound(graph.recipes()),
                track ==> self.sound_for(graph.recipes(), src),
                self.sources_settled(src),
            decreases self.measure(),
        {
            let (c, u) = self.pop_min();
            let cur = self.in_que[u as usize];
            self.in_que.set(u as usize, UNREACHED);
            if c == cur {
                self.relax_from(u, graph, Ghost(src), Ghost(track));
            }
        }
    }

    /// Offers `u1` with every arc out of it.
    fn relax_from(&mut self, u1: u32, graph: &Graph, Ghost(src): Ghost<Set<u32>>, Ghost(track): Ghost<bool>)
        requires
            old(self).wf(),
            (u1 as int) < old(self).families().len(),
            graph.arcs().len() == old(self).families().len(),
            graph.bounded(),
            graph.sound(graph.recipes()),
            track ==> old(self).sound_for(graph.recipes(), src),
            old(self).sources_settled(src),
        ensures
            track ==> final(self).sound_for(graph.recipes(), src),
            final(self).sources_settled(src),
            final(self).wf(),
            final(self).families().len() == old(self).families().len(),
            final(self).max_count == old(self).max_count,
            final(self).measure() <= old(self).measure(),
            forall|u: int| 0 <= u < old(self).families().len() && (#[trigger] old(self).families()[u]).0 == 0
                ==> final(self).families()[u] == old(self).families()[u],
            final(self).families() == relax_spec(old(self).families(), u1, old(self).families()[u1 as int].0,
                graph.arcs()[u1 as int], old(self).max_count),
    {
        let c1 = self.min_card(u1);
        let arcs = graph.arcs_from(u1);
        proof {
            assert(arcs@.take(0) =~= Seq::<(u32, u32)>::empty());
        }
        let mut k: usize = 0;
        while k < arcs.len()
            invariant
                self.wf(),
                self.families().len() == old(self).families().len(),
                self.max_count == old(self).max_count,
                graph.arcs().len() == self.families().len(),
                graph.bounded(),
                (u1 as int) < self.families().len(),
                arcs@ == graph.arcs()[u1 as int],
                self.measure() <= old(self).measure(),
                forall|u: int| 0 <= u < old(self).families().len() && (#[trigger] old(self).families()[u]).0 == 0
                    ==> self.families()[u] == old(self).families()[u],
                graph.sound(graph.recipes()),
                track ==> self.sound_for(graph.recipes(), src),
                self.sources_settled(src),
                k <= arcs@.len(),
                c1 == old(self).families()[u1 as int].0,
                self.families() == relax_spec(old(self).families(), u1, c1, arcs@.take(k as int), self.max_count),
            decreases arcs@.len() - k,
        {
            let (u2, u3) = arcs[k];
            proof {
                assert(graph.arcs()[u1 as int][k as int] == (u2, u3));
                assert(arcs@.take(k + 1).drop_last() =~= arcs@.take(k as int));
                assert(arcs@.take(k + 1).last() == (u2, u3));
            }
            k += 1;
            if c1 < self.min_card(u2) || self.min_card(u3) <= c1 {
                continue;
            }
            let ghost fs0 = self.families();
            let ghost mc = width(self.max_count);
            let mut f3 = UniformFamily::new();
            self.sets.set_and_swap(u3 as usize, &mut f3);
            let ghost f3old = f3@;
            proof {
                assert(f3old == fs0[u3 as int]);
                assert(self.families() =~= fs0.update(u3 as int, (UNREACHED, Seq::<Seq<u32>>::empty())));
                assert(family_wf(self.families()[u1 as int]));
                assert(family_wf(self.families()[u2 as int]));
                assert(self.sets@[u1 as int]@ == self.families()[u1 as int]);
                assert(self.sets@[u2 as int]@ == self.families()[u2 as int]);
            }
            let updated = f3.add_merge(&self.sets[u1 as usize], &self.sets[u2 as usize], u3, self.max_count);
            proof {
                let s1 = self.families()[u1 as int].1;
                let s2 = self.families()[u2 as int].1;
                lemma_merge_all_potential(f3old, s1, s2, u3, self.max_count, mc);
                if self.max_count >= 1 {
                    lemma_merge_all_filled(f3old, s1, s2, u3, self.max_count);
                }
                assert(fs0[u3 as int].0 != 0);
                let holds = |t: Seq<u32>| t.contains(u3);
                assert forall|i: int, j: int| 0 <= i < s1.len() && 0 <= j < s2.len()
                    implies holds(crate::uniform_family::candidate(#[trigger] s1[i], #[trigger] s2[j], u3)) by {
                    crate::seqs::lemma_union_contains(crate::seqs::union(s1[i], s2[j]), seq![u3]);
                    assert(seq![u3][0] == u3);
                }
                assert(all_satisfy(f3old, holds));
                lemma_merge_all_keeps(f3old, s1, s2, u3, self.max_count, holds);
                let m = graph.recipes();
                let gen = |t: Seq<u32>| generating(m, src, t);
                assert(lookup(m, u1, u2) == Some(u3));
                if track {
                    assert(!src.contains(u3)) by {
                        if src.contains(u3) {
                            assert(fs0[u3 as int] == (0usize, seq![Seq::<u32>::empty()]));
                        }
                    }
                    assert forall|i: int, j: int| 0 <= i < s1.len() && 0 <= j < s2.len()
                        implies gen(crate::uniform_family::candidate(#[trigger] s1[i], #[trigger] s2[j], u3)) by {
                        assert(gen(s1[i]));
                        assert(gen(s2[j]));
                        if fs0[u1 as int].0 != 0 {
                            assert(s1[i].contains(u1));
                        }
                        if fs0[u2 as int].0 != 0 {
                            assert(s2[j].contains(u2));
                        }
                        lemma_candidate_generating(m, src, s1[i], s2[j], u1, u2, u3);
                    }
                    assert(all_satisfy(f3old, gen));
                    lemma_merge_all_keeps(f3old, s1, s2, u3, self.max_count, gen);
                }
            }
            let c3 = f3.card();
            let ghost f3new = f3@;
            self.sets.set_and_swap(u3 as usize, &mut f3);
            proof {
                assert(self.families() =~= fs0.update(u3 as int, f3new));
                lemma_total_update(fs0, mc, u3 as int, f3new);
                let m = graph.recipes();
                assert(f3new.0 != 0) by {
                    if f3new.0 == 0 {
                        assert(f3new.1[0].len() == 0);
                        assert(f3new.1[0].contains(u3));
                    }
                }
                if track {
                    assert forall|v: int| 0 <= v < self.families().len() implies {
                        &&& (#[trigger] self.families()[v]).0 == 0 ==> src.contains(v as u32)
                        &&& all_satisfy(self.families()[v], |t: Seq<u32>| generating(m, src, t))
                    } by {
                        if v != u3 as int {
                            assert(self.families()[v] == fs0[v]);
                        }
                    }
                }
                assert forall|v: int| 0 <= v < self.families().len() && src.contains(v as u32)
                    implies #[trigger] self.families()[v] == (0usize, seq![Seq::<u32>::empty()]) by {
                    if v != u3 as int {
                        assert(self.families()[v] == fs0[v]);
                    } else {
                        assert(fs0[v] == (0usize, seq![Seq::<u32>::empty()]));
                    }
                }
                assert forall|u: int| 0 <= u < old(self).families().len() && (#[trigger] old(self).families()[u]).0 == 0
                    implies self.families()[u] == old(self).families()[u] by {
                    if u == u3 as int {
                        assert(fs0[u].0 > c1);
                    }
                }
                assert forall|u: int| 0 <= u < self.families().len() && (#[trigger] self.families()[u]).0 != 0
                    implies all_hold(self.families()[u], u as u32) by {
                    if u != u3 as int {
                        assert(self.families()[u] == fs0[u]);
                    }
                }
                assert forall|u: int| 0 <= u < self.families().len() implies family_wf(#[trigger] self.families()[u])
                    && self.families()[u].1.len() <= width(self.max_count_spec()) by {
                    if u != u3 as int {
                        assert(self.families()[u] == fs0[u]);
                    }
                }
            }
            if updated {
                self.push(u3, c3);
            }
        }
        proof {
            assert(arcs@.take(k as int) =~= arcs@);
        }
    }

    fn push(&mut self, u3: u32, c3: usize)
        requires
            old(self).wf(),
            (u3 as int) < old(self).families().len(),
        ensures
            final(self).wf(),
            final(self).families() == old(self).families(),
            final(self).pending() <= old(self).pending() + 1,
            final(self).max_count == old(self).max_count,
    {
        if c3 <= self.max_card && c3 < self.in_que[u3 as usize] {
            self.in_que.set(u3 as usize, c3);
            heap_push(&mut self.queue, (c3, u3));
            proof {
                assert forall|j: int| 0 <= j < self.queue@.len() implies ((#[trigger] self.queue@[j]).1 as int) < self.sets@.len() by {
                    assert(old(self).queue@.contains(self.queue@[j]) || self.queue@[j] == (c3, u3));
                }
            }
        }
    }
}

/// Pending-entry order: the smaller cardinality first, the larger item
/// first among equal cardinalities.
pub open spec fn before(a: (usize, u32), b: (usize, u32)) -> bool {
    a.0 < b.0 || (a.0 == b.0 && a.1 > b.1)
}

fn comes_before(a: (usize, u32), b: (usize, u32)) -> (r: bool)
    ensures
        r == before(a, b),
{
    a.0 < b.0 || (a.0 == b.0 && a.1 > b.1)
}

fn swap_entries(q: &mut Vec<(usize, u32)>, i: usize, j: usize)
    requires
        i < old(q)@.len(),
        j < old(q)@.len(),
    ensures
        final(q)@ == old(q)@.update(i as int, old(q)@[j as int]).update(j as int, old(q)@[i as int]),
{
    let a = q[i];
    let b = q[j];
    q.set(i, b);
    q.set(j, a);
}

proof fn lemma_swap_members(q: Seq<(usize, u32)>, i: int, j: int)
    requires
        0 <= i < q.len(),
        0 <= j < q.len(),
    ensures
        ({
            let r = q.update(i, q[j]).update(j, q[i]);
            &&& r.len() == q.len()
            &&& forall|k: int| 0 <= k < r.len() ==> q.contains(#[trigger] r[k])
        }),
{
    let r = q.update(i, q[j]).update(j, q[i]);
    assert forall|k: int| 0 <= k < r.len() implies q.contains(#[trigger] r[k]) by {
        if k == j {
            assert(r[k] == q[i]);
        } else if k == i {
            assert(r[k] == q[j]);
        } else {
            assert(r[k] == q[k]);
        }
    }
}

/// Adds an entry to the binary heap of pending entries.
fn heap_push(q: &mut Vec<(usize, u32)>, x: (usize, u32))
    ensures
        final(q)@.len() == old(q)@.len() + 1,
        forall|k: int| 0 <= k < final(q)@.len() ==> old(q)@.contains(#[trigger] final(q)@[k]) || final(q)@[k] == x,
{
    let ghost q0 = old(q)@;
    q.push(x);
    let mut i: usize = q.len() - 1;
    while i > 0
        invariant
            i < q@.len(),
            q@.len() == q0.len() + 1,
            forall|k: int| 0 <= k < q@.len() ==> q0.contains(#[trigger] q@[k]) || q@[k] == x,
        decreases i,
    {
        let p = (i - 1) / 2;
        if !comes_before(q[i], q[p]) {
            break;
        }
        let ghost qa = q@;
        swap_entries(q, i, p);
        proof {
            lemma_swap_members(qa, i as int, p as int);
            assert forall|k: int| 0 <= k < q@.len() implies q0.contains(#[trigger] q@[k]) || q@[k] == x by {
                assert(qa.contains(q@[k]));
                let t = choose|t: int| 0 <= t < qa.len() && qa[t] == q@[k];
            }
        }
        i = p;
    }
}

/// Takes the first entry in pending order from the binary heap.
fn heap_pop(q: &mut Vec<(usize, u32)>) -> (r: (usize, u32))
    requires
        old(q)@.len() > 0,
    ensures
        final(q)@.len() + 1 == old(q)@.len(),
        old(q)@.contains(r),
        forall|k: int| 0 <= k < final(q)@.len() ==> old(q)@.contains(#[trigger] final(q)@[k]),
{
    let ghost q0 = old(q)@;
    let last = q.len() - 1;
    swap_entries(q, 0, last);
    proof {
        lemma_swap_members(q0, 0, last as int);
    }
    let r = q.pop().unwrap();
    proof {
        assert(q0.update(0, q0[last as int]).update(last as int, q0[0])[last as int] == r);
    }
    let n = q.len();
    let mut i: usize = 0;
    loop
        invariant
            q@.len() == n,
            n + 1 == q0.len(),
            forall|k: int| 0 <= k < q@.len() ==> q0.contains(#[trigger] q@[k]),
        decreases n - i,
    {
        let l = if i <= (usize::MAX - 1) / 2 { 2 * i + 1 } else { n };
        if l >= n {
            break;
        }
        let mut c = l;
        if l + 1 < n && comes_before(q[l + 1], q[l]) {
            c = l + 1;
        }
        if !comes_before(q[c], q[i]) {
            break;
        }
        let ghost qa = q@;
        swap_entries(q, i, c);
        proof {
            lemma_swap_members(qa, i as int, c as int);
            assert forall|k: int| 0 <= k < q@.len() implies q0.contains(#[trigger] q@[k]) by {
                assert(qa.contains(q@[k]));
                let t = choose|t: int| 0 <= t < qa.len() && qa[t] == q@[k];
            }
        }
        i = c;
    }
    r
}

/// Every member of every family has exactly the family's cardinality, is
/// ascending, and, away from the source items, holds the item itself.
pub proof fn lemma_family_sizes(s: &Search, u: int)
    requires
        s.wf(),
        0 <= u < s.families().len(),
    ensures
        forall|i: int| 0 <= i < s.families()[u].1.len() ==> (#[trigger] s.families()[u].1[i]).len() == s.families()[u].0
            && ascending(s.families()[u].1[i]),
        s.families()[u].0 != 0 ==> forall|i: int| 0 <= i < s.families()[u].1.len() ==> (#[trigger] s.families()[u].1[i]).contains(u as u32),
{
    assert(family_wf(s.families()[u]));
}

/// A member of a family, replayed through the path reconstruction from the
/// sources, is made exactly: a path that is valid towards the member and can
/// go no further makes every item of the member and nothing else.
pub proof fn lemma_family_round_trip(
    s: &Search,
    m: Map<(u32, u32), u32>,
    source: Seq<u32>,
    u: int,
    i: int,
    path: Seq<[u32; 3]>,
)
    requires
        s.sound_for(m, source.to_set()),
        0 <= u < s.families().len(),
        0 <= i < s.families()[u].1.len(),
        valid_path(source, s.families()[u].1[i].to_set(), m, path),
        path_saturated(source, s.families()[u].1[i].to_set(), m, path),
    ensures
        outputs(path).to_set() == s.families()[u].1[i].to_set(),
{
    let f = s.families()[u];
    let set = f.1[i];
    let ss = set.to_set();
    let src = source.to_set();
    assert(all_satisfy(f, |t: Seq<u32>| generating(m, src, t)));
    assert(generating(m, src, set));
    let o = outputs(path);
    let t = src.union(o.to_set());
    assert(closed_in(m, ss, t)) by {
        assert forall|a: u32, b: u32|
            #![trigger lookup(m, a, b), t.contains(a), t.contains(b)]
            t.contains(a) && t.contains(b) && lookup(m, a, b) is Some && ss.contains(lookup(m, a, b)->0)
                implies t.contains(lookup(m, a, b)->0) by {
            assert(available(source, path, a) && available(source, path, b));
            assert(o.contains(lookup(m, a, b)->0));
        }
    }
    assert(src.subset_of(t));
    assert forall|x: u32| ss.contains(x) implies o.to_set().contains(x) by {
        let k = choose|k: int| 0 <= k < set.len() && set[k] == x;
        assert(made(m, src, ss).contains(set[k]));
        assert(t.contains(x));
        assert(!src.contains(set[k]));
    }
    assert forall|x: u32| o.to_set().contains(x) implies ss.contains(x) by {
        let k = choose|k: int| 0 <= k < o.len() && o[k] == x;
        assert(path[k]@[2] == x);
    }
    assert(o.to_set() =~= ss);
}

} // verus!
