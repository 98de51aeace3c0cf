//! Reachability under combination, and the search for the largest subsets
//! of a pool that can be discarded while a target stays reachable.
use vstd::prelude::*;

use crate::recipe::{ids_below, lookup, RecipeSet};

verus! {

/// Whether `w` is an id with its flag set.
pub open spec fn flagged(avail: Seq<bool>, w: u32) -> bool {
    (w as int) < avail.len() && avail[w as int]
}

/// `s` holds every flagged item that two of its members combine into.
pub open spec fn closed_under(m: Map<(u32, u32), u32>, avail: Seq<bool>, s: Set<u32>) -> bool {
    forall|a: u32, b: u32|
        #![trigger lookup(m, a, b), s.contains(a), s.contains(b)]
        s.contains(a) && s.contains(b) && lookup(m, a, b) is Some && flagged(avail, lookup(m, a, b)->0)
            ==> s.contains(lookup(m, a, b)->0)
}

/// What `init` reaches: the least set that holds `init` and is closed under
/// combination into flagged items.
pub open spec fn reach(m: Map<(u32, u32), u32>, init: Set<u32>, avail: Seq<bool>) -> Set<u32> {
    Set::new(|x: u32| forall|s: Set<u32>| #[trigger] closed_under(m, avail, s) && init.subset_of(s) ==> s.contains(x))
}

/// Two members of `s` combine into `w`.
pub open spec fn produced(m: Map<(u32, u32), u32>, s: Set<u32>, w: u32) -> bool {
    exists|a: u32, b: u32| #![trigger lookup(m, a, b), s.contains(a), s.contains(b)]
        s.contains(a) && s.contains(b) && lookup(m, a, b) == Some(w)
}

/// Every target item that is flagged gets made from what `init` reaches.
pub open spec fn reachable(m: Map<(u32, u32), u32>, init: Set<u32>, avail: Seq<bool>, target: Seq<u32>) -> bool {
    forall|k: int| 0 <= k < target.len() ==> !(flagged(avail, #[trigger] target[k]) && !produced(m, reach(m, init, avail), target[k]))
}

/// The number of set flags.
pub open spec fn count_set(b: Seq<bool>) -> nat
    decreases b.len(),
{
    if b.len() == 0 {
        0
    } else {
        count_set(b.drop_last()) + if b.last() { 1nat } else { 0nat }
    }
}

proof fn lemma_count_clear(b: Seq<bool>, i: int)
    requires
        0 <= i < b.len(),
        b[i],
    ensures
        count_set(b.update(i, false)) + 1 == count_set(b),
    decreases b.len(),
{
    let c = b.update(i, false);
    if i < b.len() - 1 {
        assert(c.drop_last() =~= b.drop_last().update(i, false));
        lemma_count_clear(b.drop_last(), i);
    } else {
        assert(c.drop_last() =~= b.drop_last());
    }
}

proof fn lemma_reach_closed(m: Map<(u32, u32), u32>, init: Set<u32>, avail: Seq<bool>)
    ensures
        closed_under(m, avail, reach(m, init, avail)),
        init.subset_of(reach(m, init, avail)),
{
    let r = reach(m, init, avail);
    assert forall|a: u32, b: u32|
        #![trigger lookup(m, a, b), r.contains(a), r.contains(b)]
        r.contains(a) && r.contains(b) && lookup(m, a, b) is Some && flagged(avail, lookup(m, a, b)->0)
            implies r.contains(lookup(m, a, b)->0) by {
        assert forall|s: Set<u32>| #[trigger] closed_under(m, avail, s) && init.subset_of(s) implies s.contains(lookup(m, a, b)->0) by {
            assert(s.contains(a) && s.contains(b));
        }
    }
}

proof fn lemma_reach_least(m: Map<(u32, u32), u32>, init: Set<u32>, avail: Seq<bool>, s: Set<u32>)
    requires
        closed_under(m, avail, s),
        init.subset_of(s),
    ensures
        reach(m, init, avail).subset_of(s),
{
}

/// Extends `queue` with every flagged item that the queued items reach,
/// clearing the flag of each item it adds.
fn closure(queue: &mut Vec<u32>, remain: &mut Vec<bool>, recipe: &RecipeSet)
    requires
        recipe.wf(),
        ids_below(recipe@, old(remain)@.len() as nat),
    ensures
        final(queue)@.len() >= old(queue)@.len(),
        final(queue)@.take(old(queue)@.len() as int) == old(queue)@,
        final(queue)@.to_set() == reach(recipe@, old(queue)@.to_set(), old(remain)@),
        final(remain)@.len() == old(remain)@.len(),
        forall|x: u32| (x as int) < old(remain)@.len() ==> #[trigger] final(remain)@[x as int] == (old(remain)@[x as int]
            && !produced(recipe@, final(queue)@.to_set(), x)),
        forall|k: int| old(queue)@.len() <= k < final(queue)@.len() ==> old(remain)@[#[trigger] final(queue)@[k] as int]
            && !final(remain)@[final(queue)@[k] as int],
        forall|x: int| 0 <= x < old(remain)@.len() ==> #[trigger] final(remain)@[x] == (old(remain)@[x]
            && !(exists|k: int| old(queue)@.len() <= k < final(queue)@.len() && final(queue)@[k] as int == x)),
        forall|k: int| old(queue)@.len() <= k < final(queue)@.len() ==> (#[trigger] final(queue)@[k] as int) < old(remain)@.len(),
        forall|k1: int, k2: int| old(queue)@.len() <= k1 < k2 < final(queue)@.len() ==> #[trigger] final(queue)@[k1] != #[trigger] final(queue)@[k2],
{
    let ghost m = recipe@;
    let ghost q0 = queue@;
    let ghost a0 = remain@;
    let ghost init = q0.to_set();
    let ghost r = reach(m, init, a0);
    proof {
        lemma_reach_closed(m, init, a0);
    }
    let mut qh: usize = 0;
    while qh < queue.len()
        invariant
            recipe.wf(),
            m == recipe@,
            ids_below(m, a0.len() as nat),
            remain@.len() == a0.len(),
            qh <= queue@.len(),
            queue@.len() >= q0.len(),
            queue@.take(q0.len() as int) == q0,
            closed_under(m, a0, r),
            init.subset_of(r),
            forall|k: int| 0 <= k < queue@.len() ==> r.contains(#[trigger] queue@[k]),
            forall|k: int| q0.len() <= k < queue@.len() ==> a0[#[trigger] queue@[k] as int] && !remain@[queue@[k] as int]
                && produced(m, queue@.to_set(), queue@[k]),
            forall|k: int| q0.len() <= k < queue@.len() ==> (#[trigger] queue@[k] as int) < a0.len(),
            forall|k1: int, k2: int| q0.len() <= k1 < k2 < queue@.len() ==> #[trigger] queue@[k1] != #[trigger] queue@[k2],
            forall|x: int| 0 <= x < a0.len() ==> #[trigger] remain@[x] == (a0[x]
                && !(exists|k: int| q0.len() <= k < queue@.len() && queue@[k] as int == x)),
            forall|i: int, j: int| 0 <= i < qh && 0 <= j < qh ==> {
                let w = lookup(m, #[trigger] queue@[i], #[trigger] queue@[j]);
                w is Some && flagged(a0, w->0) ==> !remain@[w->0 as int]
            },
        decreases count_set(remain@) + queue@.len() - qh,
    {
        let u = queue[qh];
        qh += 1;
        let ghost c0 = count_set(remain@) + queue@.len();
        let mut i: usize = 0;
        while i < qh
            invariant
                c0 == count_set(remain@) + queue@.len(),
                recipe.wf(),
                m == recipe@,
                ids_below(m, a0.len() as nat),
                remain@.len() == a0.len(),
                0 < qh <= queue@.len(),
                i <= qh,
                u == queue@[qh - 1],
                queue@.len() >= q0.len(),
                queue@.take(q0.len() as int) == q0,
                closed_under(m, a0, r),
                forall|k: int| 0 <= k < queue@.len() ==> r.contains(#[trigger] queue@[k]),
                forall|k: int| q0.len() <= k < queue@.len() ==> a0[#[trigger] queue@[k] as int] && !remain@[queue@[k] as int]
                    && produced(m, queue@.to_set(), queue@[k]),
                forall|k: int| q0.len() <= k < queue@.len() ==> (#[trigger] queue@[k] as int) < a0.len(),
                forall|k1: int, k2: int| q0.len() <= k1 < k2 < queue@.len() ==> #[trigger] queue@[k1] != #[trigger] queue@[k2],
                forall|x: int| 0 <= x < a0.len() ==> #[trigger] remain@[x] == (a0[x]
                    && !(exists|k: int| q0.len() <= k < queue@.len() && queue@[k] as int == x)),
                forall|ii: int, j: int| 0 <= ii < qh - 1 && 0 <= j < qh - 1 ==> {
                    let w = lookup(m, #[trigger] queue@[ii], #[trigger] queue@[j]);
                    w is Some && flagged(a0, w->0) ==> !remain@[w->0 as int]
                },
                forall|j: int| 0 <= j < i ==> {
                    let w = lookup(m, u, #[trigger] queue@[j]);
                    w is Some && flagged(a0, w->0) ==> !remain@[w->0 as int]
                },
            decreases qh - i,
        {
            let v = queue[i];
            match recipe.get(u, v) {
                Some(w) => {
                    if remain[w as usize] {
                        let ghost qa = queue@;
                        let ghost ra = remain@;
                        proof {
                            lemma_count_clear(ra, w as int);
                            assert(qa.to_set().contains(u) && qa.to_set().contains(v)) by {
                                assert(qa[qh - 1] == u);
                                assert(qa[i as int] == v);
                            }
                        }
                        remain.set(w as usize, false);
                        queue.push(w);
                        proof {
                            let qn = queue@;
                            assert(qn.take(q0.len() as int) =~= qa.take(q0.len() as int));
                            assert forall|y: u32| qa.to_set().contains(y) implies qn.to_set().contains(y) by {
                                let k = choose|k: int| 0 <= k < qa.len() && qa[k] == y;
                                assert(qn[k] == y);
                            }
                            assert(qn.to_set().contains(u) && qn.to_set().contains(v));
                            assert(r.contains(u) && r.contains(v));
                            assert(r.contains(w));
                            assert(qn[qa.len() as int] == w);
                            assert forall|k: int| q0.len() <= k < qn.len() implies a0[#[trigger] qn[k] as int] && !remain@[qn[k] as int]
                                && produced(m, qn.to_set(), qn[k]) by {
                                if k < qa.len() {
                                    assert(qn[k] == qa[k]);
                                    let y = qa[k];
                                    let (a, b) = choose|a: u32, b: u32| qa.to_set().contains(a) && qa.to_set().contains(b) && lookup(m, a, b) == Some(y);
                                    assert(qn.to_set().contains(a) && qn.to_set().contains(b));
                                } else {
                                    assert(lookup(m, u, v) == Some(w));
                                }
                            }
                            assert forall|x: int| 0 <= x < a0.len() implies #[trigger] remain@[x] == (a0[x]
                                && !(exists|k: int| q0.len() <= k < qn.len() && qn[k] as int == x)) by {
                                if x == w as int {
                                    assert(qn[qa.len() as int] as int == x);
                                } else {
                                    if exists|k: int| q0.len() <= k < qn.len() && qn[k] as int == x {
                                        let k = choose|k: int| q0.len() <= k < qn.len() && qn[k] as int == x;
                                        assert(qa[k] == qn[k]);
                                    }
                                    if exists|k: int| q0.len() <= k < qa.len() && qa[k] as int == x {
                                        let k = choose|k: int| q0.len() <= k < qa.len() && qa[k] as int == x;
                                        assert(qa[k] == qn[k]);
                                    }
                                }
                            }
                            assert forall|k1: int, k2: int| q0.len() <= k1 < k2 < qn.len() implies #[trigger] qn[k1] != #[trigger] qn[k2] by {
                                if k2 == qa.len() {
                                    assert(qn[k1] == qa[k1]);
                                    if qa[k1] == w {
                                        assert(exists|k: int| q0.len() <= k < qa.len() && qa[k] as int == w as int);
                                    }
                                } else {
                                    assert(qn[k1] == qa[k1] && qn[k2] == qa[k2]);
                                }
                            }
                            assert forall|k: int| q0.len() <= k < qn.len() implies (#[trigger] qn[k] as int) < a0.len() by {
                                if k < qa.len() {
                                    assert(qn[k] == qa[k]);
                                }
                            }
                            assert forall|k: int| 0 <= k < qn.len() implies r.contains(#[trigger] qn[k]) by {
                                if k < qa.len() {
                                    assert(qn[k] == qa[k]);
                                }
                            }
                            assert forall|ii: int, j: int| 0 <= ii < qh - 1 && 0 <= j < qh - 1 implies {
                                let w2 = lookup(m, #[trigger] qn[ii], #[trigger] qn[j]);
                                w2 is Some && flagged(a0, w2->0) ==> !remain@[w2->0 as int]
                            } by {
                                assert(qn[ii] == qa[ii] && qn[j] == qa[j]);
                            }
                            assert forall|j: int| 0 <= j < i + 1 implies {
                                let w2 = lookup(m, u, #[trigger] qn[j]);
                                w2 is Some && flagged(a0, w2->0) ==> !remain@[w2->0 as int]
                            } by {
                                assert(qn[j] == qa[j]);
                            }
                        }
                    } else {
                        proof {
                            assert(queue@[i as int] == v);
                        }
                    }
                },
                None => {
                    proof {
                        assert(queue@[i as int] == v);
                    }
                },
            }
            i += 1;
        }
        proof {
            let q = queue@;
            assert forall|ii: int, j: int| 0 <= ii < qh && 0 <= j < qh implies {
                let w = lookup(m, #[trigger] q[ii], #[trigger] q[j]);
                w is Some && flagged(a0, w->0) ==> !remain@[w->0 as int]
            } by {
                if ii == qh - 1 {
                } else if j == qh - 1 {
                    assert(lookup(m, q[ii], q[j]) == lookup(m, q[j], q[ii]));
                }
            }
        }
    }
    proof {
        let q = queue@;
        let qs = q.to_set();
        assert(init.subset_of(qs)) by {
            assert forall|y: u32| init.contains(y) implies qs.contains(y) by {
                let k = choose|k: int| 0 <= k < q0.len() && q0[k] == y;
                assert(q.take(q0.len() as int)[k] == y);
                assert(q[k] == y);
            }
        }
        assert(closed_under(m, a0, qs)) by {
            assert forall|a: u32, b: u32|
                #![trigger lookup(m, a, b), qs.contains(a), qs.contains(b)]
                qs.contains(a) && qs.contains(b) && lookup(m, a, b) is Some && flagged(a0, lookup(m, a, b)->0)
                    implies qs.contains(lookup(m, a, b)->0) by {
                let i = choose|i: int| 0 <= i < q.len() && q[i] == a;
                let j = choose|j: int| 0 <= j < q.len() && q[j] == b;
                let w = lookup(m, a, b)->0;
                assert(!remain@[w as int]);
                let k = choose|k: int| q0.len() <= k < q.len() && q[k] as int == w as int;
                assert(q[k] == w);
            }
        }
        lemma_reach_least(m, init, a0, qs);
        assert(qs =~= r) by {
            assert forall|y: u32| qs.contains(y) implies r.contains(y) by {
                let k = choose|k: int| 0 <= k < q.len() && q[k] == y;
            }
        }
        assert forall|x: u32| (x as int) < a0.len() implies #[trigger] remain@[x as int] == (a0[x as int]
            && !produced(m, qs, x)) by {
            if exists|k: int| q0.len() <= k < q.len() && q[k] as int == x as int {
                let k = choose|k: int| q0.len() <= k < q.len() && q[k] as int == x as int;
                assert(q[k] == x);
                assert(produced(m, qs, q[k]));
            }
            if a0[x as int] && produced(m, qs, x) {
                let (a, b) = choose|a: u32, b: u32| qs.contains(a) && qs.contains(b) && lookup(m, a, b) == Some(x);
                let i = choose|i: int| 0 <= i < q.len() && q[i] == a;
                let j = choose|j: int| 0 <= j < q.len() && q[j] == b;
                assert(lookup(m, q[i], q[j]) == Some(x));
                assert(flagged(a0, x));
            }
        }
    }
}

/// Some entry of `items` is `x`.
pub open spec fn listed(items: Seq<u32>, x: int) -> bool {
    exists|k: int| 0 <= k < items.len() && items[k] as int == x
}

/// The flags `base` with the items of `r` cleared.
pub open spec fn without(base: Seq<bool>, r: Seq<u32>) -> Seq<bool> {
    Seq::new(base.len(), |x: int| base[x] && !listed(r, x))
}

/// Flags over `n` ids: set exactly on `items`.
pub open spec fn flags_of(n: nat, items: Seq<u32>) -> Seq<bool> {
    Seq::new(n, |x: int| listed(items, x))
}

/// The target items that the reached set `r` does not make, in order.
pub open spec fn missing_targets(m: Map<(u32, u32), u32>, r: Set<u32>, target: Seq<u32>) -> Seq<u32> {
    target.filter(|t: u32| !produced(m, r, t))
}

/// Whether every target item is made once `queue` is closed under the
/// flags; the queue and the flags come back as they were.
fn is_reachable(target: &[u32], queue: &mut Vec<u32>, remain: &mut Vec<bool>, recipe: &RecipeSet) -> (r: bool)
    requires
        recipe.wf(),
        ids_below(recipe@, old(remain)@.len() as nat),
        forall|k: int| 0 <= k < target@.len() ==> (#[trigger] target@[k] as int) < old(remain)@.len(),
    ensures
        r == reachable(recipe@, old(queue)@.to_set(), old(remain)@, target@),
        final(queue)@ == old(queue)@,
        final(remain)@ == old(remain)@,
{
    let ghost q0 = queue@;
    let ghost a0 = remain@;
    let head = queue.len();
    closure(queue, remain, recipe);
    let ghost a1 = remain@;
    let ghost q1 = queue@;
    let mut ok = true;
    let mut k: usize = 0;
    while k < target.len()
        invariant
            k <= target@.len(),
            remain@ == a1,
            a1.len() == a0.len(),
            forall|j: int| 0 <= j < target@.len() ==> (#[trigger] target@[j] as int) < a0.len(),
            ok == forall|j: int| 0 <= j < k ==> !a1[#[trigger] target@[j] as int],
        decreases target@.len() - k,
    {
        if remain[target[k] as usize] {
            ok = false;
        }
        k += 1;
    }
    let mut i: usize = head;
    while i < queue.len()
        invariant
            queue@ == q1,
            q1.len() >= q0.len(),
            head == q0.len(),
            head <= i <= q1.len(),
            remain@.len() == a0.len(),
            forall|j: int| head <= j < q1.len() ==> a0[#[trigger] q1[j] as int],
            forall|j: int| head <= j < q1.len() ==> (#[trigger] q1[j] as int) < a0.len(),
            forall|k1: int, k2: int| head <= k1 < k2 < q1.len() ==> #[trigger] q1[k1] != #[trigger] q1[k2],
            forall|x: int| 0 <= x < a0.len() ==> #[trigger] remain@[x] == (a0[x]
                && !(exists|j: int| i <= j < q1.len() && q1[j] as int == x)),
        decreases q1.len() - i,
    {
        let u = queue[i];
        remain.set(u as usize, true);
        proof {
            assert forall|x: int| 0 <= x < a0.len() implies #[trigger] remain@[x] == (a0[x]
                && !(exists|j: int| i + 1 <= j < q1.len() && q1[j] as int == x)) by {
                if exists|j: int| i <= j < q1.len() && q1[j] as int == x {
                    let j = choose|j: int| i <= j < q1.len() && q1[j] as int == x;
                    if j != i {
                        assert(i + 1 <= j);
                    }
                }
                if x == u as int {
                    if exists|j: int| i + 1 <= j < q1.len() && q1[j] as int == x {
                        let j = choose|j: int| i + 1 <= j < q1.len() && q1[j] as int == x;
                        assert(q1[i as int] != q1[j]);
                    }
                }
            }
        }
        i += 1;
    }
    queue.truncate(head);
    proof {
        assert(queue@ =~= q0);
        assert(remain@ =~= a0);
        let r0 = reach(recipe@, q0.to_set(), a0);
        assert(q1.to_set() == r0);
        assert(ok == reachable(recipe@, q0.to_set(), a0, target@)) by {
            assert forall|j: int| 0 <= j < target@.len() implies (!a1[#[trigger] target@[j] as int]
                <==> !(flagged(a0, target@[j]) && !produced(recipe@, r0, target@[j]))) by {
                let t = target@[j];
                assert(a1[t as int] == (a0[t as int] && !produced(recipe@, q1.to_set(), t)));
            }
        }
    }
    ok
}

/// Sets the flag of every item of `items` to `val`.
fn set_flags(remain: &mut Vec<bool>, items: &[u32], val: bool)
    requires
        forall|k: int| 0 <= k < items@.len() ==> (#[trigger] items@[k] as int) < old(remain)@.len(),
    ensures
        final(remain)@ == Seq::new(old(remain)@.len(), |x: int| if listed(items@, x) { val } else { old(remain)@[x] }),
{
    let ghost r0 = remain@;
    let mut k: usize = 0;
    while k < items.len()
        invariant
            k <= items@.len(),
            remain@.len() == r0.len(),
            forall|j: int| 0 <= j < items@.len() ==> (#[trigger] items@[j] as int) < r0.len(),
            forall|x: int| 0 <= x < r0.len() ==> #[trigger] remain@[x] == if listed(items@.take(k as int), x) { val } else { r0[x] },
        decreases items@.len() - k,
    {
        remain.set(items[k] as usize, val);
        proof {
            assert forall|x: int| 0 <= x < r0.len() implies #[trigger] remain@[x] == if listed(items@.take(k + 1), x) { val } else { r0[x] } by {
                let t0 = items@.take(k as int);
                let t1 = items@.take(k + 1);
                if listed(t0, x) {
                    let j = choose|j: int| 0 <= j < t0.len() && t0[j] as int == x;
                    assert(t1[j] == t0[j]);
                }
                if listed(t1, x) && x != items@[k as int] as int {
                    let j = choose|j: int| 0 <= j < t1.len() && t1[j] as int == x;
                    assert(t0[j] == t1[j]);
                }
                if x == items@[k as int] as int {
                    assert(t1[k as int] as int == x);
                }
            }
        }
        k += 1;
    }
    proof {
        assert(items@.take(k as int) =~= items@);
        assert(remain@ =~= Seq::new(r0.len(), |x: int| if listed(items@, x) { val } else { r0[x] }));
    }
}

proof fn lemma_listed_concat(a: Seq<u32>, b: Seq<u32>, x: int)
    ensures
        listed(a + b, x) == (listed(a, x) || listed(b, x)),
{
    let c = a + b;
    if listed(c, x) {
        let k = choose|k: int| 0 <= k < c.len() && c[k] as int == x;
        if k < a.len() {
            assert(a[k] == c[k]);
        } else {
            assert(b[k - a.len()] == c[k]);
        }
    }
    if listed(a, x) {
        let k = choose|k: int| 0 <= k < a.len() && a[k] as int == x;
        assert(c[k] == a[k]);
    }
    if listed(b, x) {
        let k = choose|k: int| 0 <= k < b.len() && b[k] as int == x;
        assert(c[k + a.len()] == b[k]);
    }
}

/// The target items that `init` cannot make when only target and extra
/// items may be made, in target order. `remain` is scratch space of all
/// `false` flags, one per id, and comes back so.
pub fn get_unreachable(init: &[u32], extra: &[u32], target: &[u32], remain: &mut Vec<bool>, recipe: &RecipeSet) -> (r: Vec<u32>)
    requires
        recipe.wf(),
        ids_below(recipe@, old(remain)@.len() as nat),
        forall|k: int| 0 <= k < target@.len() ==> (#[trigger] target@[k] as int) < old(remain)@.len(),
        forall|k: int| 0 <= k < extra@.len() ==> (#[trigger] extra@[k] as int) < old(remain)@.len(),
        forall|x: int| 0 <= x < old(remain)@.len() ==> !(#[trigger] old(remain)@[x]),
    ensures
        final(remain)@ == old(remain)@,
        r@ == missing_targets(recipe@, reach(recipe@, init@.to_set(), flags_of(old(remain)@.len() as nat, target@ + extra@)), target@),
{
    let ghost m = recipe@;
    let ghost n = remain@.len();
    let ghost r0 = remain@;
    let mut queue = vstd::slice::slice_to_vec(init);
    set_flags(remain, target, true);
    set_flags(remain, extra, true);
    let ghost avail = flags_of(n as nat, target@ + extra@);
    proof {
        assert(remain@ =~= avail) by {
            assert forall|x: int| 0 <= x < n implies remain@[x] == avail[x] by {
                lemma_listed_concat(target@, extra@, x);
            }
        }
    }
    closure(&mut queue, remain, recipe);
    let ghost reached = queue@.to_set();
    let ghost a1 = remain@;
    let ghost pred = |t: u32| !produced(m, reached, t);
    assert(missing_targets(m, reached, target@) == target@.filter(pred));
    let mut res: Vec<u32> = Vec::new();
    let mut k: usize = 0;
    proof {
        reveal(Seq::filter);
        assert(target@.take(0).filter(pred) =~= Seq::<u32>::empty());
    }
    while k < target.len()
        invariant
            k <= target@.len(),
            remain@ == a1,
            a1.len() == n,
            avail == flags_of(n as nat, target@ + extra@),
            pred == (|t: u32| !produced(m, reached, t)),
            reached == queue@.to_set(),
            m == recipe@,
            forall|j: int| 0 <= j < target@.len() ==> (#[trigger] target@[j] as int) < n,
            forall|x: u32| (x as int) < n ==> #[trigger] a1[x as int] == (avail[x as int] && !produced(m, reached, x)),
            res@ == target@.take(k as int).filter(pred),
        decreases target@.len() - k,
    {
        let t = target[k];
        proof {
            reveal(Seq::filter);
            assert(target@.take(k + 1).drop_last() =~= target@.take(k as int));
            assert(target@.take(k + 1).last() == t);
            assert(avail[t as int]) by {
                assert(target@[k as int] == t);
                lemma_listed_concat(target@, extra@, t as int);
                assert((target@ + extra@)[k as int] == t);
            }
        }
        if remain[t as usize] {
            res.push(t);
        }
        k += 1;
    }
    set_flags(remain, target, false);
    set_flags(remain, extra, false);
    proof {
        assert(target@.take(k as int) =~= target@);
        assert(remain@ =~= r0) by {
            assert forall|x: int| 0 <= x < n implies remain@[x] == r0[x] by {
                if !listed(target@, x) && !listed(extra@, x) {
                    lemma_listed_concat(target@, extra@, x);
                    assert(!avail[x]);
                }
            }
        }
    }
    res
}

/// The sets in `out` as sequences.
pub open spec fn sets_view(out: Seq<Vec<u32>>) -> Seq<Seq<u32>> {
    out.map_values(|v: Vec<u32>| v@)
}

/// All sets have one size.
pub open spec fn uniform(out: Seq<Seq<u32>>) -> bool {
    forall|i: int, j: int| 0 <= i < out.len() && 0 <= j < out.len() ==> (#[trigger] out[i]).len() == (#[trigger] out[j]).len()
}

/// A removal that keeps the target reachable from `init` (the empty removal
/// always counts), made of pool items, and right-maximal: no pool item after
/// its last one can be removed as well.
pub open spec fn good_removal(
    m: Map<(u32, u32), u32>,
    init: Set<u32>,
    base: Seq<bool>,
    target: Seq<u32>,
    pool: Seq<u32>,
    r: Seq<u32>,
) -> bool {
    &&& r.len() > 0 ==> reachable(m, init, without(base, r), target)
    &&& forall|k: int| 0 <= k < r.len() ==> pool.contains(#[trigger] r[k])
    &&& exists|st: int| right_maximal_from(m, init, base, target, pool, r, st)
}

/// No pool item from position `st` on can be removed besides `r`, where `st`
/// is just after the last item of `r` in the pool (0 for the empty removal).
pub open spec fn right_maximal_from(
    m: Map<(u32, u32), u32>,
    init: Set<u32>,
    base: Seq<bool>,
    target: Seq<u32>,
    pool: Seq<u32>,
    r: Seq<u32>,
    st: int,
) -> bool {
    &&& 0 <= st <= pool.len()
    &&& r.len() == 0 ==> st == 0
    &&& r.len() > 0 ==> st > 0 && pool[st - 1] == r.last()
    &&& forall|k: int| st <= k < pool.len() ==> !reachable(m, init, without(base, r.push(#[trigger] pool[k])), target)
}

/// The size of the recorded removals (-1 when none is).
pub open spec fn out_len(out: Seq<Seq<u32>>) -> int {
    if out.len() == 0 { -1 } else { out[0].len() as int }
}

/// Strictly increasing positions below `n`.
pub open spec fn increasing(ix: Seq<int>, n: int) -> bool {
    &&& forall|k: int| 0 <= k < ix.len() ==> 0 <= #[trigger] ix[k] < n
    &&& forall|a: int, b: int| 0 <= a < b < ix.len() ==> ix[a] < ix[b]
}

/// The items of `e` at the positions `ix`.
pub open spec fn pick(e: Seq<u32>, ix: Seq<int>) -> Seq<u32> {
    ix.map_values(|k: int| e[k])
}

/// No item of `pool` is a target item.
pub open spec fn disjoint(pool: Seq<u32>, target: Seq<u32>) -> bool {
    forall|k: int, j: int| 0 <= k < pool.len() && 0 <= j < target.len() ==> pool[k] != target[j]
}

/// Positions in `extra` starting at `i` are, past the first, positions in
/// the part of `extra` after `i`.
proof fn lemma_shift(extra: Seq<u32>, rest: Seq<u32>, i: int, ix: Seq<int>, d0: Seq<u32>, u: u32) -> (ix2: Seq<int>)
    requires
        0 <= i < extra.len(),
        rest == extra.subrange(i + 1, extra.len() as int),
        u == extra[i],
        increasing(ix, extra.len() as int),
        ix.len() > 0,
        ix[0] == i,
    ensures
        ix2.len() + 1 == ix.len(),
        increasing(ix2, rest.len() as int),
        d0.push(u) + pick(rest, ix2) == d0 + pick(extra, ix),
{
    let ix2 = ix.drop_first().map_values(|k: int| k - i - 1);
    assert forall|a: int, b: int| 0 <= a < b < ix2.len() implies ix2[a] < ix2[b] by {
        assert(ix[a + 1] < ix[b + 1]);
    }
    assert forall|k: int| 0 <= k < ix2.len() implies 0 <= #[trigger] ix2[k] < rest.len() by {
        assert(ix[0] < ix[k + 1]);
    }
    assert(d0.push(u) + pick(rest, ix2) =~= d0 + pick(extra, ix)) by {
        assert forall|k: int| 0 <= k < ix2.len() implies pick(rest, ix2)[k] == extra[ix[k + 1]] by {
            assert(ix[0] < ix[k + 1]);
            assert(rest[ix[k + 1] - i - 1] == extra[ix[k + 1]]);
        }
        assert(pick(extra, ix)[0] == u);
    }
    ix2
}

/// Removing fewer items keeps a reachable target reachable, as long as no
/// target item is removed.
proof fn lemma_valid_mono(m: Map<(u32, u32), u32>, init: Set<u32>, base: Seq<bool>, target: Seq<u32>, small: Seq<u32>, big: Seq<u32>)
    requires
        forall|x: int| listed(small, x) ==> listed(big, x),
        forall|j: int| 0 <= j < target.len() ==> !listed(big, #[trigger] target[j] as int),
        reachable(m, init, without(base, big), target),
    ensures
        reachable(m, init, without(base, small), target),
{
    let ab = without(base, big);
    let a_small = without(base, small);
    let rb = reach(m, init, ab);
    let rs = reach(m, init, a_small);
    assert(rb.subset_of(rs)) by {
        lemma_reach_closed(m, init, a_small);
        assert(closed_under(m, ab, rs)) by {
            assert forall|a: u32, b: u32|
                #![trigger lookup(m, a, b), rs.contains(a), rs.contains(b)]
                rs.contains(a) && rs.contains(b) && lookup(m, a, b) is Some && flagged(ab, lookup(m, a, b)->0)
                    implies rs.contains(lookup(m, a, b)->0) by {
                let w = lookup(m, a, b)->0;
                assert(flagged(a_small, w));
            }
        }
        lemma_reach_least(m, init, ab, rs);
    }
    assert forall|k: int| 0 <= k < target.len() implies !(flagged(a_small, #[trigger] target[k]) && !produced(m, rs, target[k])) by {
        let t = target[k];
        if flagged(a_small, t) {
            assert(!listed(big, t as int));
            assert(flagged(ab, t));
            assert(produced(m, rb, t));
            let (a, b) = choose|a: u32, b: u32| rb.contains(a) && rb.contains(b) && lookup(m, a, b) == Some(t);
            assert(rs.contains(a) && rs.contains(b));
        }
    }
}

/// Records `removed` as a right-maximal removal: kept if no recorded one is
/// larger, and the recorded ones dropped if it is larger than them.
fn record(out: &mut Vec<Vec<u32>>, removed: &Vec<u32>)
    requires
        uniform(sets_view(old(out)@)),
    ensures
        uniform(sets_view(final(out)@)),
        final(out)@.len() > 0,
        forall|i: int| 0 <= i < final(out)@.len() ==> (#[trigger] final(out)@[i])@ == removed@
            || exists|j: int| 0 <= j < old(out)@.len() && old(out)@[j]@ == final(out)@[i]@,
        out_len(sets_view(final(out)@)) >= removed@.len(),
        out_len(sets_view(final(out)@)) >= out_len(sets_view(old(out)@)),
        out_len(sets_view(final(out)@)) == removed@.len() ==> sets_view(final(out)@).contains(removed@),
        out_len(sets_view(final(out)@)) == out_len(sets_view(old(out)@)) ==> forall|r: Seq<u32>|
            sets_view(old(out)@).contains(r) ==> #[trigger] sets_view(final(out)@).contains(r),
{
    if out.len() == 0 || out[0].len() < removed.len() {
        out.clear();
    }
    if out.len() == 0 || out[0].len() == removed.len() {
        let ghost o0 = out@;
        out.push(vstd::slice::slice_to_vec(removed.as_slice()));
        proof {
            let o = out@;
            assert forall|i: int| 0 <= i < o.len() implies (#[trigger] o[i])@ == removed@
                || exists|j: int| 0 <= j < old(out)@.len() && old(out)@[j]@ == o[i]@ by {
                if i < o0.len() && o0.len() > 0 {
                    assert(o[i] == o0[i]);
                    assert(o0.len() == old(out)@.len());
                    assert(old(out)@[i] == o0[i]);
                }
            }
            assert forall|i: int, j: int| 0 <= i < o.len() && 0 <= j < o.len() implies (#[trigger] sets_view(o)[i]).len() == (#[trigger] sets_view(o)[j]).len() by {
                if o0.len() > 0 {
                    assert(sets_view(o0)[0].len() == removed@.len());
                    if i < o0.len() {
                        assert(sets_view(o0)[i].len() == sets_view(o0)[0].len());
                    }
                    if j < o0.len() {
                        assert(sets_view(o0)[j].len() == sets_view(o0)[0].len());
                    }
                }
            }
            assert(sets_view(o) =~= sets_view(o0).push(removed@));
            assert(sets_view(o)[o0.len() as int] == removed@);
            if o0.len() > 0 {
                assert(sets_view(o)[0] == sets_view(o0)[0]);
            }
            if out_len(sets_view(o)) == out_len(sets_view(old(out)@)) {
                assert(o0 == old(out)@);
                assert forall|r: Seq<u32>| sets_view(old(out)@).contains(r) implies #[trigger] sets_view(o).contains(r) by {
                    let k = choose|k: int| 0 <= k < sets_view(o0).len() && sets_view(o0)[k] == r;
                    assert(sets_view(o)[k] == r);
                }
            }
        }
    }
}

/// Tries each pool item in order as the next removal; recurses on the rest of
/// the pool after each removal that keeps the target reachable, and records
/// `removed` when none does.
fn dfs(
    target: &[u32],
    extra: &[u32],
    queue: &mut Vec<u32>,
    remain: &mut Vec<bool>,
    removed: &mut Vec<u32>,
    recipe: &RecipeSet,
    out: &mut Vec<Vec<u32>>,
    Ghost(base): Ghost<Seq<bool>>,
    Ghost(pool): Ghost<Seq<u32>>,
    Ghost(start): Ghost<int>,
)
    requires
        0 <= start <= pool.len(),
        extra@ == pool.skip(start),
        old(removed)@.len() == 0 ==> start == 0,
        old(removed)@.len() > 0 ==> start > 0 && pool[start - 1] == old(removed)@.last(),
        recipe.wf(),
        ids_below(recipe@, old(remain)@.len() as nat),
        forall|k: int| 0 <= k < target@.len() ==> (#[trigger] target@[k] as int) < old(remain)@.len(),
        forall|k: int| 0 <= k < extra@.len() ==> (#[trigger] extra@[k] as int) < old(remain)@.len() && old(remain)@[extra@[k] as int]
            && pool.contains(extra@[k]),
        extra@.no_duplicates(),
        base.len() == old(remain)@.len(),
        old(remain)@ == without(base, old(removed)@),
        old(removed)@.len() > 0 ==> reachable(recipe@, old(queue)@.to_set(), old(remain)@, target@),
        forall|k: int| 0 <= k < old(removed)@.len() ==> pool.contains(#[trigger] old(removed)@[k]),
        uniform(sets_view(old(out)@)),
        forall|i: int| 0 <= i < old(out)@.len() ==> good_removal(recipe@, old(queue)@.to_set(), base, target@, pool, #[trigger] old(out)@[i]@),
    ensures
        final(queue)@ == old(queue)@,
        final(remain)@ == old(remain)@,
        final(removed)@ == old(removed)@,
        final(out)@.len() > 0,
        uniform(sets_view(final(out)@)),
        forall|i: int| 0 <= i < final(out)@.len() ==> good_removal(recipe@, old(queue)@.to_set(), base, target@, pool, #[trigger] final(out)@[i]@),
        out_len(sets_view(final(out)@)) >= old(removed)@.len(),
        out_len(sets_view(final(out)@)) >= out_len(sets_view(old(out)@)),
        disjoint(pool, target@) ==> forall|ix: Seq<int>| increasing(ix, extra@.len() as int)
            && reachable(recipe@, old(queue)@.to_set(), without(base, old(removed)@ + pick(extra@, ix)), target@)
            ==> old(removed)@.len() + ix.len() <= out_len(sets_view(final(out)@)),
        out_len(sets_view(final(out)@)) == out_len(sets_view(old(out)@)) ==> forall|r: Seq<u32>|
            sets_view(old(out)@).contains(r) ==> #[trigger] sets_view(final(out)@).contains(r),
        disjoint(pool, target@) ==> forall|ix: Seq<int>| increasing(ix, extra@.len() as int)
            && reachable(recipe@, old(queue)@.to_set(), without(base, old(removed)@ + pick(extra@, ix)), target@)
            && old(removed)@.len() + ix.len() == out_len(sets_view(final(out)@))
            ==> #[trigger] sets_view(final(out)@).contains(old(removed)@ + pick(extra@, ix)),
    decreases extra@.len(),
{
    let ghost q0 = queue@;
    let ghost r0 = remain@;
    let ghost d0 = removed@;
    let ghost qs = q0.to_set();
    let mut right_maximal = true;
    let mut i: usize = 0;
    while i < extra.len()
        invariant
            recipe.wf(),
            ids_below(recipe@, r0.len() as nat),
            forall|k: int| 0 <= k < target@.len() ==> (#[trigger] target@[k] as int) < r0.len(),
            forall|k: int| 0 <= k < extra@.len() ==> (#[trigger] extra@[k] as int) < r0.len() && r0[extra@[k] as int]
                && pool.contains(extra@[k]),
            extra@.no_duplicates(),
            base.len() == r0.len(),
            r0 == without(base, d0),
            forall|k: int| 0 <= k < d0.len() ==> pool.contains(#[trigger] d0[k]),
            queue@ == q0,
            qs == q0.to_set(),
            remain@ == r0,
            removed@ == d0,
            i <= extra@.len(),
            uniform(sets_view(out@)),
            forall|j: int| 0 <= j < out@.len() ==> good_removal(recipe@, qs, base, target@, pool, #[trigger] out@[j]@),
            !right_maximal ==> out@.len() > 0,
            !right_maximal ==> out_len(sets_view(out@)) >= d0.len() + 1,
            out_len(sets_view(out@)) >= out_len(sets_view(old(out)@)),
            disjoint(pool, target@) ==> forall|ix: Seq<int>| increasing(ix, extra@.len() as int) && ix.len() > 0 && ix[0] < i
                && reachable(recipe@, qs, without(base, d0 + pick(extra@, ix)), target@)
                ==> d0.len() + ix.len() <= out_len(sets_view(out@)),
            disjoint(pool, target@) ==> forall|ix: Seq<int>| increasing(ix, extra@.len() as int) && ix.len() > 0 && ix[0] < i
                && reachable(recipe@, qs, without(base, d0 + pick(extra@, ix)), target@)
                && d0.len() + ix.len() == out_len(sets_view(out@))
                ==> #[trigger] sets_view(out@).contains(d0 + pick(extra@, ix)),
            disjoint(pool, target@) && right_maximal ==> forall|ix: Seq<int>| increasing(ix, extra@.len() as int) && ix.len() > 0 && ix[0] < i
                ==> !reachable(recipe@, qs, without(base, d0 + pick(extra@, ix)), target@),
            out_len(sets_view(out@)) == out_len(sets_view(old(out)@)) ==> forall|r: Seq<u32>|
                sets_view(old(out)@).contains(r) ==> #[trigger] sets_view(out@).contains(r),
            right_maximal ==> forall|k: int| 0 <= k < i ==> !reachable(recipe@, qs, without(base, d0.push(#[trigger] extra@[k])), target@),
            0 <= start <= pool.len(),
            extra@ == pool.skip(start),
            d0.len() == 0 ==> start == 0,
            d0.len() > 0 ==> start > 0 && pool[start - 1] == d0.last(),
        decreases extra@.len() - i,
    {
        let u = extra[i];
        remain.set(u as usize, false);
        let ghost d1 = d0.push(u);
        proof {
            assert(remain@ =~= without(base, d1)) by {
                assert forall|x: int| 0 <= x < base.len() implies remain@[x] == without(base, d1)[x] by {
                    if listed(d1, x) && x != u as int {
                        let k = choose|k: int| 0 <= k < d1.len() && d1[k] as int == x;
                        assert(d0[k] == d1[k]);
                    }
                    if listed(d0, x) {
                        let k = choose|k: int| 0 <= k < d0.len() && d0[k] as int == x;
                        assert(d1[k] == d0[k]);
                    }
                    if x == u as int {
                        assert(d1[d0.len() as int] == u);
                    }
                }
            }
        }
        let ok = is_reachable(target, queue, remain, recipe);
        proof {
            if right_maximal && !ok {
                assert forall|k: int| 0 <= k < i + 1 implies !reachable(recipe@, qs, without(base, d0.push(#[trigger] extra@[k])), target@) by {
                    if k == i {
                        assert(extra@[k] == u);
                    }
                }
            }
        }
        if ok {
            right_maximal = false;
            removed.push(u);
            let rest = vstd::slice::slice_subrange(extra, i + 1, extra.len());
            proof {
                assert(removed@ == d1);
                assert forall|k: int| 0 <= k < rest@.len() implies (#[trigger] rest@[k] as int) < remain@.len()
                    && remain@[rest@[k] as int] && pool.contains(rest@[k]) by {
                    assert(rest@[k] == extra@[i + 1 + k]);
                    assert(extra@[i + 1 + k] != extra@[i as int]);
                }
                assert(rest@.no_duplicates()) by {
                    assert forall|a: int, b: int| 0 <= a < b < rest@.len() implies rest@[a] != rest@[b] by {
                        assert(rest@[a] == extra@[i + 1 + a] && rest@[b] == extra@[i + 1 + b]);
                    }
                }
                assert forall|k: int| 0 <= k < d1.len() implies pool.contains(#[trigger] d1[k]) by {
                    if k < d0.len() {
                        assert(d1[k] == d0[k]);
                    }
                }
            }
            proof {
                assert(rest@ =~= pool.skip(start + i + 1));
                assert(extra@[i as int] == pool[start + i]);
                assert(d1.last() == u);
            }
            let ghost ob = sets_view(out@);
            dfs(target, rest, queue, remain, removed, recipe, out, Ghost(base), Ghost(pool), Ghost(start + i + 1));
            proof {
                if disjoint(pool, target@) {
                    assert forall|ix: Seq<int>| increasing(ix, extra@.len() as int) && ix.len() > 0 && ix[0] < i + 1
                        && reachable(recipe@, qs, without(base, d0 + pick(extra@, ix)), target@)
                        implies d0.len() + ix.len() <= out_len(sets_view(out@)) by {
                        if ix[0] == i {
                            let ix2 = lemma_shift(extra@, rest@, i as int, ix, d0, u);
                        }
                    }
                    assert forall|ix: Seq<int>| increasing(ix, extra@.len() as int) && ix.len() > 0 && ix[0] < i + 1
                        && reachable(recipe@, qs, without(base, d0 + pick(extra@, ix)), target@)
                        && d0.len() + ix.len() == out_len(sets_view(out@))
                        implies #[trigger] sets_view(out@).contains(d0 + pick(extra@, ix)) by {
                        if ix[0] == i {
                            let ix2 = lemma_shift(extra@, rest@, i as int, ix, d0, u);
                            assert(sets_view(out@).contains(d1 + pick(rest@, ix2)));
                        } else {
                            assert(d0.len() + ix.len() <= out_len(ob));
                            assert(out_len(sets_view(out@)) == out_len(ob));
                            assert(ob.contains(d0 + pick(extra@, ix)));
                        }
                    }
                }
            }
            removed.pop();
            proof {
                assert(removed@ =~= d0);
            }
        }
        remain.set(u as usize, true);
        proof {
            assert(remain@ =~= r0);
            if disjoint(pool, target@) && !ok {
                assert forall|ix: Seq<int>| increasing(ix, extra@.len() as int) && ix.len() > 0 && ix[0] == i
                    implies !reachable(recipe@, qs, without(base, d0 + pick(extra@, ix)), target@) by {
                    let big = d0 + pick(extra@, ix);
                    assert(pick(extra@, ix)[0] == u);
                    assert(big[d0.len() as int] == u);
                    assert forall|x: int| listed(d1, x) implies listed(big, x) by {
                        let k = choose|k: int| 0 <= k < d1.len() && d1[k] as int == x;
                        if k < d0.len() {
                            assert(big[k] == d0[k]);
                        }
                    }
                    if reachable(recipe@, qs, without(base, big), target@) {
                        assert forall|j: int| 0 <= j < target@.len() implies !listed(big, #[trigger] target@[j] as int) by {
                            if listed(big, target@[j] as int) {
                                let k = choose|k: int| 0 <= k < big.len() && big[k] as int == target@[j] as int;
                                if k < d0.len() {
                                    assert(big[k] == d0[k]);
                                    assert(pool.contains(d0[k]));
                                } else {
                                    assert(big[k] == extra@[ix[k - d0.len()]]);
                                    assert(pool.contains(extra@[ix[k - d0.len()]]));
                                }
                            }
                        }
                        lemma_valid_mono(recipe@, qs, base, target@, d1, big);
                    }
                }
            }
        }
        i += 1;
    }
    if right_maximal {
        let ghost o0 = out@;
        record(out, removed);
        proof {
            assert(removed@ == d0);
        }
        proof {
            assert forall|j: int| 0 <= j < out@.len() implies good_removal(recipe@, qs, base, target@, pool, #[trigger] out@[j]@) by {
                if out@[j]@ != removed@ {
                    let jj = choose|jj: int| 0 <= jj < o0.len() && o0[jj]@ == out@[j]@;
                    assert(good_removal(recipe@, qs, base, target@, pool, o0[jj]@));
                } else {
                    assert(without(base, removed@) == r0);
                    assert(right_maximal_from(recipe@, qs, base, target@, pool, removed@, start)) by {
                        assert forall|k: int| start <= k < pool.len() implies !reachable(recipe@, qs, without(base, removed@.push(#[trigger] pool[k])), target@) by {
                            assert(extra@[k - start] == pool[k]);
                        }
                    }
                }
            }
        }
    }
}

/// Fills the empty `out` with the largest removals, among the right-maximal
/// ones a depth-first search over the pool `extra` meets, that keep every
/// target item reachable from `init`; each is a list of pool items in pool
/// order. When no pool item is a target item, these are exactly the
/// removals of maximum size, each listed. `remain` is scratch space of all
/// `false` flags, one per id, and comes back so.
pub fn get_max_removal(
    init: &[u32],
    target: &[u32],
    extra: &[u32],
    remain: &mut Vec<bool>,
    recipe: &RecipeSet,
    out: &mut Vec<Vec<u32>>,
)
    requires
        recipe.wf(),
        ids_below(recipe@, old(remain)@.len() as nat),
        forall|k: int| 0 <= k < target@.len() ==> (#[trigger] target@[k] as int) < old(remain)@.len(),
        forall|k: int| 0 <= k < extra@.len() ==> (#[trigger] extra@[k] as int) < old(remain)@.len(),
        extra@.no_duplicates(),
        forall|x: int| 0 <= x < old(remain)@.len() ==> !(#[trigger] old(remain)@[x]),
        old(out)@.len() == 0,
    ensures
        final(remain)@ == old(remain)@,
        final(out)@.len() > 0,
        uniform(sets_view(final(out)@)),
        forall|i: int| 0 <= i < final(out)@.len() ==> good_removal(
            recipe@,
            init@.to_set(),
            flags_of(old(remain)@.len() as nat, target@ + extra@),
            target@,
            extra@,
            #[trigger] final(out)@[i]@,
        ),
        disjoint(extra@, target@) ==> forall|ix: Seq<int>| increasing(ix, extra@.len() as int)
            && reachable(recipe@, init@.to_set(), without(flags_of(old(remain)@.len() as nat, target@ + extra@), pick(extra@, ix)), target@)
            ==> ix.len() <= out_len(sets_view(final(out)@)),
        disjoint(extra@, target@) ==> forall|ix: Seq<int>| increasing(ix, extra@.len() as int)
            && reachable(recipe@, init@.to_set(), without(flags_of(old(remain)@.len() as nat, target@ + extra@), pick(extra@, ix)), target@)
            && ix.len() == out_len(sets_view(final(out)@))
            ==> #[trigger] sets_view(final(out)@).contains(pick(extra@, ix)),
{
    let ghost n = remain@.len();
    let ghost r0 = remain@;
    let mut queue = vstd::slice::slice_to_vec(init);
    set_flags(remain, target, true);
    set_flags(remain, extra, true);
    let ghost avail = flags_of(n as nat, target@ + extra@);
    let mut removed: Vec<u32> = Vec::new();
    proof {
        assert(remain@ =~= avail) by {
            assert forall|x: int| 0 <= x < n implies remain@[x] == avail[x] by {
                lemma_listed_concat(target@, extra@, x);
            }
        }
        assert(without(avail, removed@) =~= avail);
        assert forall|k: int| 0 <= k < extra@.len() implies (#[trigger] extra@[k] as int) < remain@.len()
            && remain@[extra@[k] as int] && extra@.contains(extra@[k]) by {
            lemma_listed_concat(target@, extra@, extra@[k] as int);
        }
        assert(sets_view(out@) =~= Seq::<Seq<u32>>::empty());
    }
    proof {
        assert(extra@ =~= extra@.skip(0));
    }
    dfs(target, extra, &mut queue, remain, &mut removed, recipe, out, Ghost(avail), Ghost(extra@), Ghost(0));
    proof {
        assert forall|ix: Seq<int>| #[trigger] pick(extra@, ix) == Seq::<u32>::empty() + pick(extra@, ix) by {
            assert(pick(extra@, ix) =~= Seq::<u32>::empty() + pick(extra@, ix));
        }
    }
    set_flags(remain, target, false);
    set_flags(remain, extra, false);
    proof {
        assert(remain@ =~= r0) by {
            assert forall|x: int| 0 <= x < n implies remain@[x] == r0[x] by {
                if !listed(target@, x) && !listed(extra@, x) {
                    lemma_listed_concat(target@, extra@, x);
                    assert(!avail[x]);
                }
            }
        }
    }
}

/// The pool items that a removal keeps, followed by the added items `ex`.
pub fn kept_items(extra: &[u32], removed: &[u32], ex: &[u32]) -> (r: Vec<u32>)
    ensures
        r@ == extra@.filter(|u: u32| !removed@.contains(u)) + ex@,
{
    let ghost pred = |u: u32| !removed@.contains(u);
    let mut r: Vec<u32> = Vec::new();
    let mut i: usize = 0;
    proof {
        reveal(Seq::filter);
        assert(extra@.take(0).filter(pred) =~= Seq::<u32>::empty());
    }
    while i < extra.len()
        invariant
            i <= extra@.len(),
            pred == (|u: u32| !removed@.contains(u)),
            r@ == extra@.take(i as int).filter(pred),
        decreases extra@.len() - i,
    {
        let u = extra[i];
        proof {
            reveal(Seq::filter);
            assert(extra@.take(i + 1).drop_last() =~= extra@.take(i as int));
            assert(extra@.take(i + 1).last() == u);
        }
        let mut found = false;
        let mut j: usize = 0;
        while j < removed.len()
            invariant
                j <= removed@.len(),
                found == exists|k: int| 0 <= k < j && removed@[k] == u,
            decreases removed@.len() - j,
        {
            if removed[j] == u {
                found = true;
            }
            j += 1;
        }
        if !found {
            r.push(u);
        }
        i += 1;
    }
    proof {
        assert(extra@.take(i as int) =~= extra@);
    }
    let mut k: usize = 0;
    let ghost base = r@;
    while k < ex.len()
        invariant
            k <= ex@.len(),
            r@ == base + ex@.take(k as int),
        decreases ex@.len() - k,
    {
        r.push(ex[k]);
        proof {
            assert(ex@.take(k + 1) =~= ex@.take(k as int).push(ex@[k as int]));
        }
        k += 1;
    }
    proof {
        assert(ex@.take(k as int) =~= ex@);
    }
    r
}

/// Whether two sequences of ids are equal.
fn same_items(a: &[u32], b: &[u32]) -> (r: bool)
    ensures
        r == (a@ == b@),
{
    if a.len() != b.len() {
        return false;
    }
    let mut i: usize = 0;
    while i < a.len()
        invariant
            a@.len() == b@.len(),
            i <= a@.len(),
            forall|k: int| 0 <= k < i ==> a@[k] == b@[k],
        decreases a@.len() - i,
    {
        if a[i] != b[i] {
            return false;
        }
        i += 1;
    }
    assert(a@ =~= b@);
    true
}

/// Offers `set` to a collection of the smallest sets seen so far: a smaller
/// set replaces them all, one of their size joins them unless already there,
/// a larger one is ignored.
pub fn keep_smallest(min_sets: &mut Vec<Vec<u32>>, set: Vec<u32>)
    requires
        uniform(sets_view(old(min_sets)@)),
        sets_view(old(min_sets)@).no_duplicates(),
    ensures
        uniform(sets_view(final(min_sets)@)),
        sets_view(final(min_sets)@).no_duplicates(),
        ({
            let old_s = sets_view(old(min_sets)@);
            let new_s = sets_view(final(min_sets)@);
            if old_s.len() == 0 || old_s[0].len() > set@.len() {
                new_s == seq![set@]
            } else if old_s[0].len() == set@.len() {
                new_s.to_set() == old_s.to_set().insert(set@)
            } else {
                new_s == old_s
            }
        }),
{
    if min_sets.len() == 0 || min_sets[0].len() > set.len() {
        min_sets.clear();
        min_sets.push(set);
        proof {
            assert(sets_view(min_sets@) =~= seq![min_sets@[0]@]);
        }
        return;
    }
    if min_sets[0].len() != set.len() {
        return;
    }
    let ghost o = sets_view(min_sets@);
    let mut k: usize = 0;
    while k < min_sets.len()
        invariant
            k <= min_sets@.len(),
            o == sets_view(min_sets@),
            min_sets@ == old(min_sets)@,
            uniform(o),
            o.no_duplicates(),
            o.len() > 0,
            o[0].len() == set@.len(),
            forall|j: int| 0 <= j < k ==> o[j] != set@,
        decreases min_sets@.len() - k,
    {
        if same_items(min_sets[k].as_slice(), set.as_slice()) {
            proof {
                assert(o[k as int] == set@);
                assert(o.contains(set@));
                assert(o.to_set() =~= o.to_set().insert(set@));
            }
            return;
        }
        k += 1;
    }
    let ghost sv = set@;
    min_sets.push(set);
    proof {
        let n = sets_view(min_sets@);
        assert(n =~= o.push(sv));
        assert forall|y: Seq<u32>| n.to_set().contains(y) <==> o.to_set().insert(sv).contains(y) by {
            if n.contains(y) {
                let k = choose|k: int| 0 <= k < n.len() && n[k] == y;
                if k < o.len() {
                    assert(o[k] == y);
                }
            }
            if o.contains(y) {
                let k = choose|k: int| 0 <= k < o.len() && o[k] == y;
                assert(n[k] == y);
            }
            if y == sv {
                assert(n[o.len() as int] == y);
            }
        }
        assert(n.to_set() =~= o.to_set().insert(sv));
        assert forall|i: int, j: int| 0 <= i < n.len() && 0 <= j < n.len() implies (#[trigger] n[i]).len() == (#[trigger] n[j]).len() by {
            assert(o[0].len() == sv.len());
            if i < o.len() {
                assert(o[i].len() == o[0].len());
            }
            if j < o.len() {
                assert(o[j].len() == o[0].len());
            }
        }
        assert forall|i: int, j: int| 0 <= i < n.len() && 0 <= j < n.len() && i != j implies n[i] != n[j] by {
            if i < o.len() && j < o.len() {
                assert(o[i] != o[j]);
            }
        }
    }
}

} // verus!
