//! Rebuilding an ordered list of combination steps that makes a generating set.
use std::collections::HashSet;
use vstd::prelude::*;

use crate::recipe::{lookup, RecipeSet};

verus! {

/// The results of the steps of a path, in order.
pub open spec fn outputs(path: Seq<[u32; 3]>) -> Seq<u32> {
    path.map_values(|s: [u32; 3]| s@[2])
}

/// Whether `x` is at hand after the steps of `path`: a source item or a result.
pub open spec fn available(init: Seq<u32>, path: Seq<[u32; 3]>, x: u32) -> bool {
    init.contains(x) || outputs(path).contains(x)
}

/// A path towards `target`: each step combines two items at hand before it
/// into a target item that no earlier step made.
pub open spec fn valid_path(init: Seq<u32>, target: Set<u32>, m: Map<(u32, u32), u32>, path: Seq<[u32; 3]>) -> bool {
    &&& forall|k: int|
        0 <= k < path.len() ==> {
            let s = #[trigger] path[k];
            &&& lookup(m, s@[0], s@[1]) == Some(s@[2])
            &&& target.contains(s@[2])
            &&& available(init, path.take(k), s@[0])
            &&& available(init, path.take(k), s@[1])
        }
    &&& outputs(path).no_duplicates()
}

/// No further step is possible: every target item that two items at hand
/// combine into has been made.
pub open spec fn path_saturated(init: Seq<u32>, target: Set<u32>, m: Map<(u32, u32), u32>, path: Seq<[u32; 3]>) -> bool {
    forall|a: u32, b: u32|
        #![trigger lookup(m, a, b)]
        available(init, path, a) && available(init, path, b) && lookup(m, a, b) is Some
            && target.contains(lookup(m, a, b)->0) ==> outputs(path).contains(lookup(m, a, b)->0)
}

/// The pairs of `w` with each item of `xs`, the last item first.
pub open spec fn with_each(w: u32, xs: Seq<u32>) -> Seq<(u32, u32)> {
    Seq::new(xs.len(), |k: int| (w, xs[xs.len() - 1 - k]))
}

/// The first candidate pairs: each of the first `i` source items with itself
/// and the source items before it, the latest first.
pub open spec fn seed_candidates(init: Seq<u32>, i: int) -> Seq<(u32, u32)>
    decreases i,
{
    if i <= 0 || i > init.len() {
        Seq::empty()
    } else {
        seed_candidates(init, i - 1) + with_each(init[i - 1], init.take(i))
    }
}

/// The reconstruction state: the candidate pairs, the position of the next
/// one, and the steps so far (each `[a, b, c]`).
pub type PathState = (Seq<(u32, u32)>, int, Seq<Seq<u32>>);

/// The results of the steps so far.
pub open spec fn step_outputs(steps: Seq<Seq<u32>>) -> Seq<u32> {
    steps.map_values(|t: Seq<u32>| t[2])
}

/// The reconstruction is over: every target item is made, or no candidate is left.
pub open spec fn path_done(target: Set<u32>, s: PathState) -> bool {
    target.subset_of(step_outputs(s.2).to_set()) || s.1 >= s.0.len()
}

/// One step: the next candidate pair is tried; if it makes a target item not
/// yet made, that step is added, and the new item is queued with every result
/// so far (latest first) and every source item (last first).
pub open spec fn path_step(m: Map<(u32, u32), u32>, init: Seq<u32>, target: Set<u32>, s: PathState) -> PathState {
    if path_done(target, s) || s.1 < 0 {
        s
    } else {
        let (u, v) = s.0[s.1];
        match lookup(m, u, v) {
            Some(w) => if target.contains(w) && !step_outputs(s.2).contains(w) {
                let p2 = s.2.push(seq![u, v, w]);
                (s.0 + with_each(w, step_outputs(p2)) + with_each(w, init), s.1 + 1, p2)
            } else {
                (s.0, s.1 + 1, s.2)
            },
            None => (s.0, s.1 + 1, s.2),
        }
    }
}

/// The state after `k` steps from the seed pairs.
pub open spec fn path_steps(m: Map<(u32, u32), u32>, init: Seq<u32>, target: Set<u32>, k: nat) -> PathState
    decreases k,
{
    if k == 0 {
        (seed_candidates(init, init.len() as int), 0, Seq::empty())
    } else {
        path_step(m, init, target, path_steps(m, init, target, (k - 1) as nat))
    }
}

proof fn lemma_done_stays(m: Map<(u32, u32), u32>, init: Seq<u32>, target: Set<u32>, k: nat, j: nat)
    requires
        path_done(target, path_steps(m, init, target, k)),
    ensures
        path_steps(m, init, target, k + j) == path_steps(m, init, target, k),
    decreases j,
{
    if j > 0 {
        lemma_done_stays(m, init, target, k, (j - 1) as nat);
        assert(path_steps(m, init, target, k + j) == path_step(m, init, target, path_steps(m, init, target, (k + j - 1) as nat)));
    }
}

/// The reconstruction has one outcome: every finished run ends with the same
/// steps, so the path that `get_path` returns is the one the fixed candidate
/// order gives.
pub proof fn lemma_path_unique(m: Map<(u32, u32), u32>, init: Seq<u32>, target: Set<u32>, k1: nat, k2: nat)
    requires
        path_done(target, path_steps(m, init, target, k1)),
        path_done(target, path_steps(m, init, target, k2)),
    ensures
        path_steps(m, init, target, k1).2 == path_steps(m, init, target, k2).2,
{
    if k1 <= k2 {
        lemma_done_stays(m, init, target, k1, (k2 - k1) as nat);
    } else {
        lemma_done_stays(m, init, target, k2, (k1 - k2) as nat);
    }
}

/// The steps of a path, as sequences.
pub open spec fn step_view(path: Seq<[u32; 3]>) -> Seq<Seq<u32>> {
    path.map_values(|s: [u32; 3]| s@)
}

proof fn lemma_step_outputs(path: Seq<[u32; 3]>)
    ensures
        step_outputs(step_view(path)) == outputs(path),
{
    assert(step_outputs(step_view(path)) =~= outputs(path));
}

/// Some entry of the queue is the pair `[a, b]`.
#[verifier::opaque]
pub open spec fn has_pair(q: Seq<(u32, u32)>, a: u32, b: u32) -> bool {
    exists|i: int| 0 <= i < q.len() && q[i] == (a, b)
}

/// `r` starts with `q`.
pub open spec fn extends(r: Seq<(u32, u32)>, q: Seq<(u32, u32)>) -> bool {
    q.len() <= r.len() && forall|i: int| 0 <= i < q.len() ==> r[i] == q[i]
}

proof fn lemma_has_pair_extends(q: Seq<(u32, u32)>, r: Seq<(u32, u32)>, a: u32, b: u32)
    requires
        extends(r, q),
        has_pair(q, a, b),
    ensures
        has_pair(r, a, b),
{
    reveal(has_pair);
    let i = choose|i: int| 0 <= i < q.len() && q[i] == (a, b);
    assert(r[i] == q[i]);
}

proof fn lemma_has_pair_push(q: Seq<(u32, u32)>, e: (u32, u32), a: u32, b: u32)
    requires
        e == (a, b),
    ensures
        has_pair(q.push(e), a, b),
{
    reveal(has_pair);
    assert(q.push(e)[q.len() as int] == e);
}

/// Every entry of the queue pairs two items at hand.
pub open spec fn queue_available(init: Seq<u32>, path: Seq<[u32; 3]>, q: Seq<(u32, u32)>) -> bool {
    forall|k: int| 0 <= k < q.len() ==> available(init, path, #[trigger] q[k].0) && available(init, path, q[k].1)
}

/// Every two items at hand stand in the queue, in one order or the other.
pub open spec fn queue_complete(init: Seq<u32>, path: Seq<[u32; 3]>, q: Seq<(u32, u32)>) -> bool {
    forall|a: u32, b: u32|
        #![trigger available(init, path, a), available(init, path, b)]
        available(init, path, a) && available(init, path, b) ==> has_pair(q, a, b) || has_pair(q, b, a)
}

proof fn lemma_outputs_push(path: Seq<[u32; 3]>, s: [u32; 3])
    ensures
        outputs(path.push(s)) == outputs(path).push(s@[2]),
{
    assert(outputs(path.push(s)) =~= outputs(path).push(s@[2]));
}

proof fn lemma_seq_push_contains(s: Seq<u32>, x: u32, y: u32)
    ensures
        s.push(x).contains(y) <==> (s.contains(y) || x == y),
{
    if s.push(x).contains(y) && x != y {
        let k = choose|k: int| 0 <= k < s.push(x).len() && s.push(x)[k] == y;
        assert(s[k] == y);
    }
    if s.contains(y) {
        let k = choose|k: int| 0 <= k < s.len() && s[k] == y;
        assert(s.push(x)[k] == y);
    }
    if x == y {
        assert(s.push(x)[s.len() as int] == y);
    }
}

proof fn lemma_available_push(init: Seq<u32>, p0: Seq<[u32; 3]>, step: [u32; 3], x: u32)
    ensures
        available(init, p0.push(step), x) <==> (available(init, p0, x) || x == step@[2]),
{
    lemma_outputs_push(p0, step);
    lemma_seq_push_contains(outputs(p0), step@[2], x);
}

proof fn lemma_valid_path_push(init: Seq<u32>, target: Set<u32>, m: Map<(u32, u32), u32>, p0: Seq<[u32; 3]>, step: [u32; 3])
    requires
        valid_path(init, target, m, p0),
        lookup(m, step@[0], step@[1]) == Some(step@[2]),
        target.contains(step@[2]),
        !outputs(p0).contains(step@[2]),
        available(init, p0, step@[0]),
        available(init, p0, step@[1]),
    ensures
        valid_path(init, target, m, p0.push(step)),
{
    let path = p0.push(step);
    lemma_outputs_push(p0, step);
    assert(path.take(p0.len() as int) =~= p0);
    assert forall|k: int| 0 <= k < path.len() implies {
        let s = #[trigger] path[k];
        &&& lookup(m, s@[0], s@[1]) == Some(s@[2])
        &&& target.contains(s@[2])
        &&& available(init, path.take(k), s@[0])
        &&& available(init, path.take(k), s@[1])
    } by {
        if k < p0.len() {
            assert(path[k] == p0[k]);
            assert(path.take(k) =~= p0.take(k));
        }
    }
    let o = outputs(path);
    assert forall|x: int, y: int| 0 <= x < y < o.len() implies o[x] != o[y] by {
        assert(o[x] == outputs(p0)[x]);
        if y == p0.len() {
            assert(outputs(p0).contains(o[x]));
        } else {
            assert(o[y] == outputs(p0)[y]);
        }
    }
}

/// The pairs among the source items, each item with itself and with those
/// before it, the latest first.
fn init_pairs(init: &[u32]) -> (queue: Vec<(u32, u32)>)
    ensures
        forall|k: int| 0 <= k < queue@.len() ==> init@.contains(#[trigger] queue@[k].0) && init@.contains(queue@[k].1),
        forall|x: int, y: int|
            0 <= y <= x < init@.len() ==> has_pair(queue@, #[trigger] init@[x], #[trigger] init@[y]),
        queue@ == seed_candidates(init@, init@.len() as int),
{
    let mut queue: Vec<(u32, u32)> = Vec::new();
    let mut i: usize = 0;
    while i < init.len()
        invariant
            i <= init@.len(),
            forall|k: int| 0 <= k < queue@.len() ==> init@.contains(#[trigger] queue@[k].0) && init@.contains(queue@[k].1),
            forall|x: int, y: int|
                0 <= y <= x < i ==> has_pair(queue@, #[trigger] init@[x], #[trigger] init@[y]),
            queue@ == seed_candidates(init@, i as int),
        decreases init@.len() - i,
    {
        let u = init[i];
        let ghost qs = queue@;
        let mut j: usize = i + 1;
        proof {
            assert(queue@ =~= qs + Seq::new((i + 1 - j) as nat, |k: int| (u, init@[i - k])));
        }
        while j > 0
            invariant
                i < init@.len(),
                j <= i + 1,
                u == init@[i as int],
                forall|k: int| 0 <= k < queue@.len() ==> init@.contains(#[trigger] queue@[k].0) && init@.contains(queue@[k].1),
                forall|x: int, y: int|
                    0 <= y <= x < i ==> has_pair(queue@, #[trigger] init@[x], #[trigger] init@[y]),
                forall|y: int| j <= y <= i ==> has_pair(queue@, u, #[trigger] init@[y]),
                queue@ == qs + Seq::new((i + 1 - j) as nat, |k: int| (u, init@[i - k])),
            decreases j,
        {
            j -= 1;
            let v = init[j];
            let ghost q0 = queue@;
            let e = (u, v);
            queue.push(e);
            proof {
                                assert(init@[j as int] == v);
                lemma_has_pair_push(q0, e, u, v);
                assert(extends(queue@, q0));
                assert forall|x: int, y: int|
                    0 <= y <= x < i implies has_pair(queue@, #[trigger] init@[x], #[trigger] init@[y]) by {
                    lemma_has_pair_extends(q0, queue@, init@[x], init@[y]);
                }
                assert forall|y: int| j <= y <= i implies has_pair(queue@, u, #[trigger] init@[y]) by {
                    if y != j {
                        lemma_has_pair_extends(q0, queue@, u, init@[y]);
                    }
                }
                assert forall|k: int| 0 <= k < queue@.len() implies init@.contains(#[trigger] queue@[k].0)
                    && init@.contains(queue@[k].1) by {
                    if k < q0.len() {
                        assert(queue@[k] == q0[k]);
                    } else {
                        assert(queue@[k] == e);
                        assert(init@[i as int] == u);
                        assert(init@.contains(u));
                        assert(init@.contains(v));
                    }
                }
                assert(queue@ =~= qs + Seq::new((i + 1 - j) as nat, |k: int| (u, init@[i - k])));
            }
        }
        proof {
            assert(init@.take(i + 1).len() == i + 1);
            assert(with_each(u, init@.take(i + 1)) =~= Seq::new((i + 1) as nat, |k: int| (u, init@[i - k])));
            assert(queue@ =~= seed_candidates(init@, i + 1));
        }
        i += 1;
    }
    queue
}

/// The items of `set`, as a hash set.
fn to_hash_set(set: &[u32]) -> (r: HashSet<u32>)
    ensures
        r@ == set@.to_set(),
{
    let mut pending: HashSet<u32> = HashSet::new();
    let mut t: usize = 0;
    while t < set.len()
        invariant
            t <= set@.len(),
            pending@ == set@.take(t as int).to_set(),
        decreases set@.len() - t,
    {
        proof {
            assert(set@.take(t + 1) == set@.take(t as int).push(set@[t as int]));
            assert(set@.take(t + 1).to_set() =~= set@.take(t as int).to_set().insert(set@[t as int])) by {
                assert forall|x: u32| set@.take(t + 1).to_set().contains(x) <==>
                    set@.take(t as int).to_set().insert(set@[t as int]).contains(x) by {
                    lemma_seq_push_contains(set@.take(t as int), set@[t as int], x);
                }
            }
        }
        pending.insert(set[t]);
        t += 1;
    }
    proof {
        assert(set@.take(t as int) =~= set@);
    }
    pending
}

/// An ordered list of steps `[a, b, c]`, meaning `a + b -> c`, that makes
/// the items of `set` from `init`. Candidate pairs are tried in a fixed
/// order: the pairs of `init`, then, each time an item is made, that item
/// with every result so far (latest first) and with every source item (last
/// first); the first pair that makes a pending item settles it. The path
/// falls short of `set` exactly when no further step is possible.
#[verifier::rlimit(40)]
pub fn get_path(init: &[u32], set: &[u32], recipe: &RecipeSet) -> (path: Vec<[u32; 3]>)
    requires
        recipe.wf(),
    ensures
        valid_path(init@, set@.to_set(), recipe@, path@),
        path_saturated(init@, set@.to_set(), recipe@, path@),
        exists|k: nat| #![trigger path_steps(recipe@, init@, set@.to_set(), k)]
            path_done(set@.to_set(), path_steps(recipe@, init@, set@.to_set(), k))
            && path_steps(recipe@, init@, set@.to_set(), k).2 == step_view(path@),
{
    let ghost target = set@.to_set();
    let ghost m = recipe@;
    let mut queue = init_pairs(init);
    let mut pending = to_hash_set(set);
    let mut path: Vec<[u32; 3]> = Vec::new();
    let mut qh: usize = 0;
    let ghost mut steps: nat = 0;
    proof {
        assert(step_view(path@) =~= Seq::<Seq<u32>>::empty());
        assert(outputs(path@) =~= Seq::<u32>::empty());
        assert forall|a: u32, b: u32|
            #![trigger available(init@, path@, a), available(init@, path@, b)]
            available(init@, path@, a) && available(init@, path@, b) implies has_pair(queue@, a, b) || has_pair(queue@, b, a) by {
            let x = choose|x: int| 0 <= x < init@.len() && init@[x] == a;
            let y = choose|y: int| 0 <= y < init@.len() && init@[y] == b;
            if y <= x {
                assert(has_pair(queue@, init@[x], init@[y]));
            } else {
                assert(has_pair(queue@, init@[y], init@[x]));
            }
        }
        assert(pending@ =~= target.difference(outputs(path@).to_set()));
    }
    while !pending.is_empty() && qh < queue.len()
        invariant
            recipe.wf(),
            m == recipe@,
            target == set@.to_set(),
            qh <= queue@.len(),
            valid_path(init@, target, m, path@),
            pending@ == target.difference(outputs(path@).to_set()),
            queue_available(init@, path@, queue@),
            queue_complete(init@, path@, queue@),
            forall|k: int| 0 <= k < qh ==> {
                let w = lookup(m, (#[trigger] queue@[k]).0, queue@[k].1);
                w is Some && target.contains(w->0) ==> outputs(path@).contains(w->0)
            },
            path_steps(m, init@, target, steps) == (queue@, qh as int, step_view(path@)),
        decreases pending@.len(), queue@.len() - qh,
    {
        proof {
            lemma_step_outputs(path@);
            assert(!path_done(target, (queue@, qh as int, step_view(path@)))) by {
                assert(pending@.len() > 0 || !pending@.is_empty());
                let x = choose|x: u32| pending@.contains(x);
                assert(target.contains(x) && !outputs(path@).to_set().contains(x));
            }
        }
        let ghost s0 = (queue@, qh as int, step_view(path@));
        let (u, v) = queue[qh];
        qh += 1;
        match recipe.get(u, v) {
            Some(w) => {
                let ghost p0 = path@;
                let ghost pend0 = pending@;
                if pending.remove(&w) {
                    let step = [u, v, w];
                    proof {
                        assert(step@[0] == u && step@[1] == v && step@[2] == w);
                        assert(!outputs(p0).contains(w)) by {
                            if outputs(p0).contains(w) {
                                assert(outputs(p0).to_set().contains(w));
                            }
                        }
                        lemma_valid_path_push(init@, target, m, p0, step);
                    }
                    path.push(step);
                    proof {
                        lemma_outputs_push(p0, step);
                        assert forall|x: u32| available(init@, p0, x) implies available(init@, path@, x) by {
                            lemma_available_push(init@, p0, step, x);
                        }
                        assert(pending@ =~= target.difference(outputs(path@).to_set())) by {
                            assert forall|x: u32| outputs(path@).to_set().contains(x) <==> (outputs(p0).to_set().contains(x) || x == w) by {
                                lemma_seq_push_contains(outputs(p0), w, x);
                            }
                        }
                        assert(pending@.len() < pend0.len()) by {
                            assert(pend0.contains(w));
                            assert(pending@ == pend0.remove(w));
                        }
                        assert(outputs(path@).contains(w)) by {
                            lemma_seq_push_contains(outputs(p0), w, w);
                        }
                        assert forall|k: int| 0 <= k < qh implies {
                            let w2 = lookup(m, (#[trigger] queue@[k]).0, queue@[k].1);
                            w2 is Some && target.contains(w2->0) ==> outputs(path@).contains(w2->0)
                        } by {
                            let w2 = lookup(m, queue@[k].0, queue@[k].1);
                            if w2 is Some {
                                lemma_seq_push_contains(outputs(p0), w, w2->0);
                            }
                        }
                    }
                    proof {
                        assert(path@.take(p0.len() as int) =~= p0);
                        assert(path@.last() == step);
                    }
                    push_pairs(&mut queue, w, &path, init, Ghost(p0));
                    proof {
                        lemma_step_outputs(p0);
                        lemma_step_outputs(path@);
                        assert(step_view(path@) =~= step_view(p0).push(seq![u, v, w]));
                        assert(!step_outputs(step_view(p0)).contains(w));
                        assert(path_step(m, init@, target, s0) == (queue@, qh as int, step_view(path@)));
                    }
                } else {
                    proof {
                        assert(!target.contains(w) || outputs(path@).contains(w)) by {
                            if target.contains(w) {
                                assert(!pend0.contains(w));
                                assert(outputs(path@).to_set().contains(w));
                            }
                        }
                        assert(pending@ == pend0) by {
                            assert(pending@ =~= pend0.remove(w));
                        }
                        lemma_step_outputs(path@);
                        assert(path_step(m, init@, target, s0) == (queue@, qh as int, step_view(path@)));
                    }
                }
            },
            None => {},
        }
        proof {
            steps = steps + 1;
        }
    }
    proof {
        assert forall|a: u32, b: u32|
            #![trigger lookup(m, a, b)]
            available(init@, path@, a) && available(init@, path@, b) && lookup(m, a, b) is Some
                && target.contains(lookup(m, a, b)->0) implies outputs(path@).contains(lookup(m, a, b)->0) by {
            let w = lookup(m, a, b)->0;
            if pending@.is_empty() {
                assert(!pending@.contains(w));
                assert(outputs(path@).to_set().contains(w));
            } else {
                assert(lookup(m, a, b) == lookup(m, b, a));
                reveal(has_pair);
                assert(has_pair(queue@, a, b) || has_pair(queue@, b, a));
                if has_pair(queue@, a, b) {
                    let k = choose|k: int| 0 <= k < queue@.len() && queue@[k] == (a, b);
                    assert(queue@[k].0 == a);
                } else {
                    let k = choose|k: int| 0 <= k < queue@.len() && queue@[k] == (b, a);
                    assert(queue@[k].0 == b);
                }
            }
        }
        lemma_step_outputs(path@);
        assert(path_done(target, path_steps(m, init@, target, steps))) by {
            if pending@.is_empty() {
                assert forall|x: u32| target.contains(x) implies step_outputs(step_view(path@)).to_set().contains(x) by {
                    assert(!pending@.contains(x));
                }
            }
        }
    }
    path
}

/// Appends the pairs of the new result `w` with every result (latest first)
/// and with every source item (last first).
fn push_pairs(queue: &mut Vec<(u32, u32)>, w: u32, path: &Vec<[u32; 3]>, init: &[u32], Ghost(p0): Ghost<Seq<[u32; 3]>>)
    requires
        path@.len() == p0.len() + 1,
        path@.take(p0.len() as int) == p0,
        path@.last()@[2] == w,
        queue_available(init@, path@, old(queue)@),
        queue_complete(init@, p0, old(queue)@),
    ensures
        extends(final(queue)@, old(queue)@),
        queue_available(init@, path@, final(queue)@),
        queue_complete(init@, path@, final(queue)@),
        final(queue)@ == old(queue)@ + with_each(w, outputs(path@)) + with_each(w, init@),
{
    let ghost q0 = queue@;
    let ghost outs = outputs(path@);
    proof {
        assert(path@ =~= p0.push(path@.last()));
        lemma_outputs_push(p0, path@.last());
        assert(available(init@, path@, w)) by {
            lemma_available_push(init@, p0, path@.last(), w);
        }
    }
    let mut k: usize = path.len();
    while k > 0
        invariant
            k <= path@.len(),
            outs == outputs(path@),
            extends(queue@, q0),
            queue_available(init@, path@, queue@),
            forall|y: int| k <= y < path@.len() ==> has_pair(queue@, w, #[trigger] outs[y]),
            available(init@, path@, w),
            queue@ == q0 + Seq::new((outs.len() - k) as nat, |t: int| (w, outs[outs.len() - 1 - t])),
            outs.len() == path@.len(),
        decreases k,
    {
        k -= 1;
        let x = path[k][2];
        let ghost qa = queue@;
        let e = (w, x);
        queue.push(e);
        proof {
            assert(outs[k as int] == x);
            assert(queue@ =~= q0 + Seq::new((outs.len() - k) as nat, |t: int| (w, outs[outs.len() - 1 - t])));
            assert(available(init@, path@, x));
            lemma_has_pair_push(qa, e, w, x);
            assert(extends(queue@, qa));
            assert forall|y: int| k <= y < path@.len() implies has_pair(queue@, w, #[trigger] outs[y]) by {
                if y != k {
                    lemma_has_pair_extends(qa, queue@, w, outs[y]);
                }
            }
            assert forall|i: int| 0 <= i < queue@.len() implies available(init@, path@, #[trigger] queue@[i].0)
                && available(init@, path@, queue@[i].1) by {
                if i < qa.len() {
                    assert(queue@[i] == qa[i]);
                    assert(available(init@, path@, qa[i].0) && available(init@, path@, qa[i].1));
                } else {
                    assert(queue@[i] == e);
                }
            }
        }
    }
    let ghost q1 = queue@;
    proof {
        assert(q1 =~= q0 + with_each(w, outs));
    }
    let mut j: usize = init.len();
    while j > 0
        invariant
            j <= init@.len(),
            outs == outputs(path@),
            extends(queue@, q0),
            queue_available(init@, path@, queue@),
            forall|y: int| 0 <= y < path@.len() ==> has_pair(queue@, w, #[trigger] outs[y]),
            forall|y: int| j <= y < init@.len() ==> has_pair(queue@, w, #[trigger] init@[y]),
            available(init@, path@, w),
            q1 == q0 + with_each(w, outs),
            queue@ == q1 + Seq::new((init@.len() - j) as nat, |t: int| (w, init@[init@.len() - 1 - t])),
        decreases j,
    {
        j -= 1;
        let x = init[j];
        let ghost qa = queue@;
        let e = (w, x);
        queue.push(e);
        proof {
            assert(init@[j as int] == x);
            assert(queue@ =~= q1 + Seq::new((init@.len() - j) as nat, |t: int| (w, init@[init@.len() - 1 - t])));
            assert(init@.contains(x));
            assert(available(init@, path@, x));
            lemma_has_pair_push(qa, e, w, x);
            assert(extends(queue@, qa));
            assert forall|y: int| 0 <= y < path@.len() implies has_pair(queue@, w, #[trigger] outs[y]) by {
                lemma_has_pair_extends(qa, queue@, w, outs[y]);
            }
            assert forall|y: int| j <= y < init@.len() implies has_pair(queue@, w, #[trigger] init@[y]) by {
                if y != j {
                    lemma_has_pair_extends(qa, queue@, w, init@[y]);
                }
            }
            assert forall|i: int| 0 <= i < queue@.len() implies available(init@, path@, #[trigger] queue@[i].0)
                && available(init@, path@, queue@[i].1) by {
                if i < qa.len() {
                    assert(queue@[i] == qa[i]);
                    assert(available(init@, path@, qa[i].0) && available(init@, path@, qa[i].1));
                } else {
                    assert(queue@[i] == e);
                }
            }
        }
    }
    proof {
        assert(queue@ =~= q0 + with_each(w, outputs(path@)) + with_each(w, init@));
        assert forall|a: u32, b: u32|
            #![trigger available(init@, path@, a), available(init@, path@, b)]
            available(init@, path@, a) && available(init@, path@, b) implies has_pair(queue@, a, b) || has_pair(queue@, b, a) by {
            lemma_available_push(init@, p0, path@.last(), a);
            lemma_available_push(init@, p0, path@.last(), b);
            if a != w && b != w {
                assert(available(init@, p0, a) && available(init@, p0, b));
                if has_pair(q0, a, b) {
                    lemma_has_pair_extends(q0, queue@, a, b);
                } else {
                    lemma_has_pair_extends(q0, queue@, b, a);
                }
            } else {
                let other = if a == w { b } else { a };
                if outs.contains(other) {
                    let y = choose|y: int| 0 <= y < outs.len() && outs[y] == other;
                    assert(has_pair(queue@, w, outs[y]));
                } else {
                    let y = choose|y: int| 0 <= y < init@.len() && init@[y] == other;
                    assert(has_pair(queue@, w, init@[y]));
                }
            }
        }
    }
}

/// The other ways to make the result of step `i` from two earlier results:
/// each `[x, y, w]` with `x` the result of a step `j < i` and `y` that of a
/// step `k <= j`, latest first, where `x + y -> w` and `w` is what step `i`
/// makes.
pub fn alternatives(path: &[[u32; 3]], i: usize, recipe: &RecipeSet) -> (r: Vec<[u32; 3]>)
    requires
        recipe.wf(),
        i < path@.len(),
    ensures
        forall|t: int| 0 <= t < r@.len() ==> {
            let a = #[trigger] r@[t];
            &&& a@[2] == path@[i as int]@[2]
            &&& lookup(recipe@, a@[0], a@[1]) == Some(a@[2])
            &&& exists|j: int, k: int| 0 <= k <= j < i && a@[0] == path@[j]@[2] && a@[1] == path@[k]@[2]
        },
        forall|j: int, k: int|
            0 <= k <= j < i && lookup(recipe@, path@[j]@[2], path@[k]@[2]) == Some(path@[i as int]@[2])
                ==> exists|t: int| 0 <= t < r@.len() && (#[trigger] r@[t])@ == seq![#[trigger] path@[j]@[2], #[trigger] path@[k]@[2], path@[i as int]@[2]],
{
    let w = path[i][2];
    let mut r: Vec<[u32; 3]> = Vec::new();
    let mut j: usize = i;
    while j > 0
        invariant
            recipe.wf(),
            i < path@.len(),
            j <= i,
            w == path@[i as int]@[2],
            forall|t: int| 0 <= t < r@.len() ==> {
                let a = #[trigger] r@[t];
                &&& a@[2] == w
                &&& lookup(recipe@, a@[0], a@[1]) == Some(a@[2])
                &&& exists|jj: int, k: int| 0 <= k <= jj < i && a@[0] == path@[jj]@[2] && a@[1] == path@[k]@[2]
            },
            forall|jj: int, k: int|
                j <= jj < i && 0 <= k <= jj && lookup(recipe@, path@[jj]@[2], path@[k]@[2]) == Some(w)
                    ==> exists|t: int| 0 <= t < r@.len() && (#[trigger] r@[t])@ == seq![#[trigger] path@[jj]@[2], #[trigger] path@[k]@[2], w],
        decreases j,
    {
        j -= 1;
        let mut k: usize = j + 1;
        while k > 0
            invariant
                recipe.wf(),
                i < path@.len(),
                j < i,
                k <= j + 1,
                w == path@[i as int]@[2],
                forall|t: int| 0 <= t < r@.len() ==> {
                    let a = #[trigger] r@[t];
                    &&& a@[2] == w
                    &&& lookup(recipe@, a@[0], a@[1]) == Some(a@[2])
                    &&& exists|jj: int, kk: int| 0 <= kk <= jj < i && a@[0] == path@[jj]@[2] && a@[1] == path@[kk]@[2]
                },
                forall|jj: int, kk: int|
                    j + 1 <= jj < i && 0 <= kk <= jj && lookup(recipe@, path@[jj]@[2], path@[kk]@[2]) == Some(w)
                        ==> exists|t: int| 0 <= t < r@.len() && (#[trigger] r@[t])@ == seq![#[trigger] path@[jj]@[2], #[trigger] path@[kk]@[2], w],
                forall|kk: int|
                    k <= kk <= j && lookup(recipe@, path@[j as int]@[2], path@[kk]@[2]) == Some(w)
                        ==> exists|t: int| 0 <= t < r@.len() && (#[trigger] r@[t])@ == seq![path@[j as int]@[2], #[trigger] path@[kk]@[2], w],
            decreases k,
        {
            k -= 1;
            let x = path[j][2];
            let y = path[k][2];
            if recipe.get(x, y) == Some(w) {
                let a = [x, y, w];
                let ghost r0 = r@;
                r.push(a);
                proof {
                    assert(r@[r0.len() as int] == a);
                    assert(a@ == seq![x, y, w]);
                    assert forall|t: int| 0 <= t < r@.len() implies {
                        let b = #[trigger] r@[t];
                        &&& b@[2] == w
                        &&& lookup(recipe@, b@[0], b@[1]) == Some(b@[2])
                        &&& exists|jj: int, kk: int| 0 <= kk <= jj < i && b@[0] == path@[jj]@[2] && b@[1] == path@[kk]@[2]
                    } by {
                        if t < r0.len() {
                            assert(r@[t] == r0[t]);
                        } else {
                            assert(a@[0] == path@[j as int]@[2] && a@[1] == path@[k as int]@[2]);
                        }
                    }
                    assert forall|jj: int, kk: int|
                        j + 1 <= jj < i && 0 <= kk <= jj && lookup(recipe@, path@[jj]@[2], path@[kk]@[2]) == Some(w)
                            implies exists|t: int| 0 <= t < r@.len() && (#[trigger] r@[t])@ == seq![#[trigger] path@[jj]@[2], #[trigger] path@[kk]@[2], w] by {
                        let t = choose|t: int| 0 <= t < r0.len() && (#[trigger] r0[t])@ == seq![path@[jj]@[2], path@[kk]@[2], w];
                        assert(r@[t] == r0[t]);
                    }
                    assert forall|kk: int|
                        k <= kk <= j && lookup(recipe@, path@[j as int]@[2], path@[kk]@[2]) == Some(w)
                            implies exists|t: int| 0 <= t < r@.len() && (#[trigger] r@[t])@ == seq![path@[j as int]@[2], #[trigger] path@[kk]@[2], w] by {
                        if kk == k {
                            assert(r@[r0.len() as int]@ == seq![path@[j as int]@[2], path@[kk]@[2], w]);
                        } else {
                            let t = choose|t: int| 0 <= t < r0.len() && (#[trigger] r0[t])@ == seq![path@[j as int]@[2], path@[kk]@[2], w];
                            assert(r@[t] == r0[t]);
                        }
                    }
                }
            }
        }
    }
    r
}

} // verus!
