//! Enumeration of the sets that a seed reaches by adding, one at a time,
//! items that two present items combine into; and the collection of the pairs
//! that such sets still leave unevaluated, with a parallel fan-out.
use rayon::iter::{IndexedParallelIterator, IntoParallelIterator, ParallelIterator};
use std::collections::HashSet;
use vstd::prelude::*;

use crate::enumeration::queued;
use crate::pair::{encode, lemma_encode_injective, Pair, NOTHING};
use crate::recipe::{ids_below, lookup, RecipeSet};

verus! {

/// The number of unset flags.
pub open spec fn free_count(b: Seq<bool>) -> nat
    decreases b.len(),
{
    if b.len() == 0 {
        0
    } else {
        free_count(b.drop_last()) + if b.last() { 0nat } else { 1nat }
    }
}

proof fn lemma_free_count_set(b: Seq<bool>, i: int)
    requires
        0 <= i < b.len(),
        !b[i],
    ensures
        free_count(b.update(i, true)) + 1 == free_count(b),
    decreases b.len(),
{
    let c = b.update(i, true);
    if i < b.len() - 1 {
        assert(c.drop_last() =~= b.drop_last().update(i, true));
        lemma_free_count_set(b.drop_last(), i);
    } else {
        assert(c.drop_last() =~= b.drop_last());
    }
}

/// The candidate queue of the enumeration: the items found so far, those
/// before `head` already taken, with a flag per id that blocks an item from
/// being queued twice.
pub struct Queue {
    buf: Vec<u32>,
    head: usize,
    blocked: Vec<bool>,
    base: Ghost<Seq<bool>>,
}

impl Queue {
    pub closed spec fn buf_view(&self) -> Seq<u32> {
        self.buf@
    }

    pub closed spec fn head_spec(&self) -> usize {
        self.head
    }

    pub closed spec fn blocked_view(&self) -> Seq<bool> {
        self.blocked@
    }

    /// The flags the queue started from: the reserved id and the seed.
    pub closed spec fn base_view(&self) -> Seq<bool> {
        self.base@
    }

    /// How much enumeration is left below this queue.
    pub open spec fn measure(&self) -> nat {
        (self.buf_view().len() - self.head_spec()) as nat + free_count(self.blocked_view())
    }

    pub closed spec fn wf(&self) -> bool {
        &&& self.blocked@.len() == self.base@.len()
        &&& self.head <= self.buf@.len()
        &&& forall|k: int| 0 <= k < self.buf@.len() ==> (#[trigger] self.buf@[k]) < self.blocked@.len()
            && !self.base@[self.buf@[k] as int]
        &&& self.buf@.no_duplicates()
        &&& forall|x: int| 0 <= x < self.blocked@.len() ==> #[trigger] self.blocked@[x]
            == (self.base@[x] || queued(self.buf@, x))
    }

    /// An empty queue whose starting flags are `blocked`.
    pub fn with_flags(blocked: Vec<bool>) -> (r: Queue)
        ensures
            r.wf(),
            r.buf_view() == Seq::<u32>::empty(),
            r.head_spec() == 0,
            r.blocked_view() == blocked@,
            r.base_view() == blocked@,
    {
        let ghost b = blocked@;
        let r = Queue { buf: Vec::new(), head: 0, blocked, base: Ghost(b) };
        proof {
            assert forall|x: int| 0 <= x < r.blocked@.len() implies #[trigger] r.blocked@[x]
                == (r.base@[x] || queued(r.buf@, x)) by {
                assert(!queued(r.buf@, x));
            }
        }
        r
    }

    /// An empty queue over ids below `n`, with the reserved id and `init` blocked.
    pub fn new(n: usize, init: &[u32]) -> (r: Queue)
        requires
            n >= 1,
            forall|k: int| 0 <= k < init@.len() ==> (#[trigger] init@[k]) < n,
        ensures
            r.wf(),
            r.buf_view() == Seq::<u32>::empty(),
            r.head_spec() == 0,
            r.blocked_view().len() == n,
            r.blocked_view()[NOTHING as int],
            forall|k: int| 0 <= k < init@.len() ==> r.blocked_view()[#[trigger] init@[k] as int],
            r.base_view() == seed_flags(n as nat, init@),
    {
        let blocked = base_flags(n, init);
        let ghost b = blocked@;
        assert(b =~= seed_flags(n as nat, init@));
        let r = Queue { buf: Vec::new(), head: 0, blocked, base: Ghost(b) };
        proof {
            assert forall|x: int| 0 <= x < r.blocked@.len() implies #[trigger] r.blocked@[x]
                == (r.base@[x] || queued(r.buf@, x)) by {
                assert(!queued(r.buf@, x));
            }
        }
        r
    }

    /// A queue resumed from a snapshot `(buf, head)` of an enumeration from
    /// `init`. `None` when the snapshot cannot come from one: an id at or
    /// above `n`, repeated, reserved or in `init`, or `head` past the end.
    pub fn from_buf(buf: Vec<u32>, head: usize, n: usize, init: &[u32]) -> (r: Option<Queue>)
        requires
            n >= 1,
            forall|k: int| 0 <= k < init@.len() ==> (#[trigger] init@[k]) < n,
        ensures
            r is Some <==> snapshot_ok(buf@, head, n, init@),
            r matches Some(q) ==> {
                &&& q.wf()
                &&& q.buf_view() == buf@
                &&& q.head_spec() == head
                &&& q.blocked_view().len() == n
                &&& q.base_view() == seed_flags(n as nat, init@)
            },
    {
        if head > buf.len() {
            return None;
        }
        let mut blocked = base_flags(n, init);
        let ghost b = blocked@;
        assert(b =~= seed_flags(n as nat, init@));
        let mut k: usize = 0;
        while k < buf.len()
            invariant
                k <= buf@.len(),
                blocked@.len() == b.len(),
                b.len() == n,
                forall|j: int| 0 <= j < k ==> (#[trigger] buf@[j]) < n && !b[buf@[j] as int],
                forall|x: int| 0 <= x < n ==> #[trigger] b[x] == (x == NOTHING as int || queued(init@, x)),
                head <= buf@.len(),
                buf@.take(k as int).no_duplicates(),
                forall|x: int| 0 <= x < n ==> #[trigger] blocked@[x] == (b[x] || queued(buf@.take(k as int), x)),
            decreases buf@.len() - k,
        {
            let u = buf[k];
            if u as usize >= n || blocked[u as usize] {
                proof {
                    if (u as int) < n {
                        if queued(buf@.take(k as int), u as int) {
                            let j = choose|j: int| 0 <= j < k && buf@.take(k as int)[j] as int == u as int;
                            assert(buf@[j] == buf@[k as int]);
                        }
                    }
                    assert(buf@[k as int] == u);
                }
                return None;
            }
            blocked.set(u as usize, true);
            proof {
                let t0 = buf@.take(k as int);
                let t1 = buf@.take(k + 1);
                assert(t1 == t0.push(u));
                assert(!queued(t0, u as int));
                assert forall|x: int| 0 <= x < n implies #[trigger] blocked@[x] == (b[x] || queued(t1, x)) by {
                    if queued(t1, x) && x != u as int {
                        let j = choose|j: int| 0 <= j < t1.len() && t1[j] as int == x;
                        assert(t0[j] as int == x);
                    }
                    if queued(t0, x) {
                        let j = choose|j: int| 0 <= j < t0.len() && t0[j] as int == x;
                        assert(t1[j] as int == x);
                    }
                    if x == u as int {
                        assert(t1[k as int] == u);
                    }
                }
                assert(t1.no_duplicates()) by {
                    assert forall|i: int, j: int| 0 <= i < j < t1.len() implies t1[i] != t1[j] by {
                        if j == k {
                            assert(t0[i] == t1[i]);
                            if t1[i] == u {
                                assert(queued(t0, u as int));
                            }
                        } else {
                            assert(t0[i] == t1[i] && t0[j] == t1[j]);
                        }
                    }
                }
            }
            k += 1;
        }
        proof {
            assert(buf@.take(k as int) =~= buf@);
        }
        Some(Queue { buf, head, blocked, base: Ghost(b) })
    }

    /// The candidates not yet taken.
    pub fn as_slice(&self) -> (r: &[u32])
        requires
            self.wf(),
        ensures
            r@ == self.buf_view().subrange(self.head_spec() as int, self.buf_view().len() as int),
    {
        vstd::slice::slice_subrange(self.buf.as_slice(), self.head, self.buf.len())
    }

    /// All candidates found, taken or not.
    pub fn buf(&self) -> (r: &Vec<u32>)
        ensures
            r@ == self.buf_view(),
    {
        &self.buf
    }

    /// The position of the next candidate.
    pub fn head(&self) -> (r: usize)
        ensures
            r == self.head_spec(),
    {
        self.head
    }

    /// Takes the next candidate.
    pub fn dequeue(&mut self) -> (r: Option<u32>)
        requires
            old(self).wf(),
        ensures
            final(self).wf(),
            final(self).buf_view() == old(self).buf_view(),
            final(self).blocked_view() == old(self).blocked_view(),
            final(self).base_view() == old(self).base_view(),
            old(self).head_spec() < old(self).buf_view().len() ==> {
                &&& r == Some(old(self).buf_view()[old(self).head_spec() as int])
                &&& final(self).head_spec() == old(self).head_spec() + 1
            },
            old(self).head_spec() >= old(self).buf_view().len() ==> {
                &&& r is None
                &&& final(self).head_spec() == old(self).head_spec()
            },
    {
        if self.head >= self.buf.len() {
            return None;
        }
        self.head = self.head + 1;
        Some(self.buf[self.head - 1])
    }

    /// Queues `u` unless it is blocked, and blocks it.
    pub fn enqueue(&mut self, u: u32)
        requires
            old(self).wf(),
            (u as int) < old(self).blocked_view().len(),
        ensures
            final(self).wf(),
            final(self).buf_view() == if old(self).blocked_view()[u as int] {
                old(self).buf_view()
            } else {
                old(self).buf_view().push(u)
            },
            final(self).blocked_view() == old(self).blocked_view().update(u as int, true),
            final(self).base_view() == old(self).base_view(),
            final(self).head_spec() == old(self).head_spec(),
            final(self).measure() == old(self).measure(),
    {
        if !self.blocked[u as usize] {
            let ghost q0 = self.buf@;
            let ghost b0 = self.blocked@;
            self.blocked.set(u as usize, true);
            self.buf.push(u);
            proof {
                lemma_free_count_set(b0, u as int);
                assert(!self.base@[u as int]);
                assert(!q0.contains(u)) by {
                    if q0.contains(u) {
                        let k = choose|k: int| 0 <= k < q0.len() && q0[k] == u;
                        assert(queued(q0, u as int));
                    }
                }
                assert forall|x: int| 0 <= x < self.blocked@.len() implies #[trigger] self.blocked@[x]
                    == (self.base@[x] || queued(self.buf@, x)) by {
                    if queued(self.buf@, x) && x != u as int {
                        let k = choose|k: int| 0 <= k < self.buf@.len() && self.buf@[k] as int == x;
                        assert(q0[k] as int == x);
                    }
                    if queued(q0, x) {
                        let k = choose|k: int| 0 <= k < q0.len() && q0[k] as int == x;
                        assert(self.buf@[k] as int == x);
                    }
                    if x == u as int {
                        assert(self.buf@[q0.len() as int] == u);
                    }
                }
            }
        } else {
            proof {
                assert(self.blocked@ =~= self.blocked@.update(u as int, true));
            }
        }
    }

    /// The number of candidates found.
    pub fn tail(&self) -> (r: usize)
        ensures
            r == self.buf_view().len(),
    {
        self.buf.len()
    }

    /// Drops the candidates from position `tail` on and unblocks them.
    pub fn truncate(&mut self, tail: usize)
        requires
            old(self).wf(),
            old(self).head_spec() <= tail <= old(self).buf_view().len(),
        ensures
            final(self).wf(),
            final(self).buf_view() == old(self).buf_view().take(tail as int),
            final(self).head_spec() == old(self).head_spec(),
            final(self).base_view() == old(self).base_view(),
    {
        let ghost q0 = self.buf@;
        let mut k: usize = tail;
        proof {
            assert forall|x: int| 0 <= x < self.blocked@.len() implies #[trigger] self.blocked@[x]
                == (self.base@[x] || queued(q0.take(tail as int), x)
                    || queued(q0.subrange(k as int, q0.len() as int), x)) by {
                if queued(q0, x) {
                    let j = choose|j: int| 0 <= j < q0.len() && q0[j] as int == x;
                    if j < tail {
                        assert(q0.take(tail as int)[j] as int == x);
                    } else {
                        assert(q0.subrange(k as int, q0.len() as int)[j - k] as int == x);
                    }
                }
                if queued(q0.take(tail as int), x) {
                    let j = choose|j: int| 0 <= j < tail && q0.take(tail as int)[j] as int == x;
                    assert(q0[j] as int == x);
                }
                if queued(q0.subrange(k as int, q0.len() as int), x) {
                    let j = choose|j: int| 0 <= j < q0.len() - k && q0.subrange(k as int, q0.len() as int)[j] as int == x;
                    assert(q0[k + j] as int == x);
                }
            }
        }
        while k < self.buf.len()
            invariant
                self.buf@ == q0,
                tail <= k <= q0.len(),
                self.head == old(self).head,
                self.head <= tail,
                self.blocked@.len() == self.base@.len(),
                self.base@ == old(self).base@,
                forall|j: int| 0 <= j < q0.len() ==> (#[trigger] q0[j]) < self.blocked@.len() && !self.base@[q0[j] as int],
                q0.no_duplicates(),
                forall|x: int| 0 <= x < self.blocked@.len() ==> #[trigger] self.blocked@[x]
                    == (self.base@[x] || queued(q0.take(tail as int), x)
                        || queued(q0.subrange(k as int, q0.len() as int), x)),
            decreases q0.len() - k,
        {
            let u = self.buf[k];
            self.blocked.set(u as usize, false);
            proof {
                assert forall|x: int| 0 <= x < self.blocked@.len() implies #[trigger] self.blocked@[x]
                    == (self.base@[x] || queued(q0.take(tail as int), x)
                        || queued(q0.subrange(k + 1, q0.len() as int), x)) by {
                    let a = q0.subrange(k as int, q0.len() as int);
                    let b = q0.subrange(k + 1, q0.len() as int);
                    if queued(b, x) {
                        let j = choose|j: int| 0 <= j < b.len() && b[j] as int == x;
                        assert(a[j + 1] as int == x);
                    }
                    if queued(a, x) && x != u as int {
                        let j = choose|j: int| 0 <= j < a.len() && a[j] as int == x;
                        assert(j != 0);
                        assert(b[j - 1] as int == x);
                    }
                    if x == u as int {
                        assert(q0[k as int] == u);
                        if queued(q0.take(tail as int), x) {
                            let j = choose|j: int| 0 <= j < tail && q0.take(tail as int)[j] as int == x;
                            assert(q0[j] == u);
                        }
                        if queued(b, x) {
                            let j = choose|j: int| 0 <= j < b.len() && b[j] as int == x;
                            assert(q0[k + 1 + j] == u);
                        }
                    }
                }
            }
            k += 1;
        }
        self.buf.truncate(tail);
        proof {
            assert(self.buf@ =~= q0.take(tail as int));
            assert forall|x: int| 0 <= x < self.blocked@.len() implies #[trigger] self.blocked@[x]
                == (self.base@[x] || queued(self.buf@, x)) by {
                assert(q0.subrange(k as int, q0.len() as int).len() == 0);
            }
            assert forall|j: int| 0 <= j < self.buf@.len() implies (#[trigger] self.buf@[j]) < self.blocked@.len()
                && !self.base@[self.buf@[j] as int] by {
                assert(self.buf@[j] == q0[j]);
            }
        }
    }

    /// Puts the head back to an earlier position.
    fn rewind(&mut self, head: usize)
        requires
            old(self).wf(),
            head <= old(self).buf_view().len(),
        ensures
            final(self).wf(),
            final(self).buf_view() == old(self).buf_view(),
            final(self).blocked_view() == old(self).blocked_view(),
            final(self).base_view() == old(self).base_view(),
            final(self).head_spec() == head,
    {
        self.head = head;
    }

    /// The blocked flags are exactly the starting flags plus the candidates
    /// found: truncating unblocks what it drops, and a new queue blocks only
    /// the reserved id and the seed.
    pub proof fn lemma_blocked(&self)
        requires
            self.wf(),
        ensures
            self.blocked_view() == Seq::new(self.base_view().len(), |x: int| self.base_view()[x] || queued(self.buf_view(), x)),
    {
        assert(self.blocked_view() =~= Seq::new(self.base_view().len(), |x: int| self.base_view()[x] || queued(self.buf_view(), x)));
    }

    /// The queue is determined by its candidates, head and starting flags.
    proof fn lemma_determined(&self, other: &Queue)
        requires
            self.wf(),
            other.wf(),
            self.buf_view() == other.buf_view(),
            self.base_view() == other.base_view(),
        ensures
            self.blocked_view() == other.blocked_view(),
    {
        assert(self.blocked@ =~= other.blocked@);
    }
}

/// The starting flags of an enumeration from `init` over `n` ids: the
/// reserved id and the seed are blocked.
pub open spec fn seed_flags(n: nat, init: Seq<u32>) -> Seq<bool> {
    Seq::new(n, |x: int| x == NOTHING as int || queued(init, x))
}

/// Flags over ids below `n`: the reserved id and `init` set.
fn base_flags(n: usize, init: &[u32]) -> (r: Vec<bool>)
    requires
        n >= 1,
        forall|k: int| 0 <= k < init@.len() ==> (#[trigger] init@[k]) < n,
    ensures
        r@.len() == n,
        r@[NOTHING as int],
        forall|k: int| 0 <= k < init@.len() ==> r@[#[trigger] init@[k] as int],
        forall|x: int| 0 <= x < n ==> #[trigger] r@[x] == (x == NOTHING as int || queued(init@, x)),
{
    let mut blocked: Vec<bool> = vec![false; n];
    blocked.set(NOTHING as usize, true);
    let mut k: usize = 0;
    proof {
        assert forall|x: int| 0 <= x < n implies #[trigger] blocked@[x] == (x == NOTHING as int || queued(init@.take(0), x)) by {
        }
    }
    while k < init.len()
        invariant
            k <= init@.len(),
            blocked@.len() == n,
            blocked@[NOTHING as int],
            forall|j: int| 0 <= j < init@.len() ==> (#[trigger] init@[j]) < n,
            forall|j: int| 0 <= j < k ==> blocked@[#[trigger] init@[j] as int],
            forall|x: int| 0 <= x < n ==> #[trigger] blocked@[x] == (x == NOTHING as int || queued(init@.take(k as int), x)),
        decreases init@.len() - k,
    {
        blocked.set(init[k] as usize, true);
        proof {
            let t0 = init@.take(k as int);
            let t1 = init@.take(k + 1);
            assert forall|x: int| 0 <= x < n implies #[trigger] blocked@[x] == (x == NOTHING as int || queued(t1, x)) by {
                if queued(t0, x) {
                    let j = choose|j: int| 0 <= j < t0.len() && t0[j] as int == x;
                    assert(t1[j] == t0[j]);
                }
                if queued(t1, x) && x != init@[k as int] as int {
                    let j = choose|j: int| 0 <= j < t1.len() && t1[j] as int == x;
                    assert(t0[j] == t1[j]);
                }
                if x == init@[k as int] as int {
                    assert(t1[k as int] == init@[k as int]);
                }
            }
        }
        k += 1;
    }
    proof {
        assert(init@.take(k as int) =~= init@);
    }
    blocked
}

/// A snapshot `(buf, head)` that an enumeration from `init` over ids below
/// `n` can produce: `head` within `buf`, and the ids of `buf` distinct, below
/// `n`, not reserved and not in `init`.
pub open spec fn snapshot_ok(buf: Seq<u32>, head: usize, n: usize, init: Seq<u32>) -> bool {
    &&& head <= buf.len()
    &&& buf.no_duplicates()
    &&& forall|k: int| 0 <= k < buf.len() ==> (#[trigger] buf[k]) < n && buf[k] != NOTHING && !queued(init, buf[k] as int)
}

/// One point of the enumeration, as a visitor sees it: the candidates found,
/// the position of the next one, and the current set.
pub type Visit = (Seq<u32>, int, Seq<u32>);

/// The candidates after offering `u` combined with each member of `set` from
/// position `j` on: a result joins the queue unless blocked by `base` or
/// already queued.
pub open spec fn enq_from(m: Map<(u32, u32), u32>, base: Seq<bool>, buf: Seq<u32>, u: u32, set: Seq<u32>, j: int) -> Seq<u32>
    decreases set.len() - j,
{
    if j < 0 || j >= set.len() {
        buf
    } else {
        let b1 = match lookup(m, u, set[j]) {
            Some(w) => if base[w as int] || queued(buf, w as int) { buf } else { buf.push(w) },
            None => buf,
        };
        enq_from(m, base, b1, u, set, j + 1)
    }
}

/// The points the enumeration visits from the queue `buf` (next candidate at
/// `head`) and the set `set`, in order, descending until the set has `stop`
/// items.
pub open spec fn visits(m: Map<(u32, u32), u32>, base: Seq<bool>, buf: Seq<u32>, head: int, set: Seq<u32>, stop: nat) -> Seq<Visit>
    decreases stop - set.len(), 1nat, 0nat,
{
    if set.len() >= stop {
        seq![(buf, head, set)]
    } else {
        seq![(buf, head, set)] + visits_from(m, base, buf, head, set, stop)
    }
}

/// The points visited below each candidate from position `i` on, in order.
pub open spec fn visits_from(m: Map<(u32, u32), u32>, base: Seq<bool>, buf: Seq<u32>, i: int, set: Seq<u32>, stop: nat) -> Seq<Visit>
    decreases stop - set.len(), 0nat, buf.len() - i,
{
    if set.len() >= stop || i < 0 || i >= buf.len() {
        Seq::empty()
    } else {
        let u = buf[i];
        let s2 = set.push(u);
        visits(m, base, enq_from(m, base, buf, u, s2, 0), i + 1, s2, stop) + visits_from(m, base, buf, i + 1, set, stop)
    }
}

/// Called at each set the enumeration reaches, with the queue and the set;
/// it stops the descent once the set has `stop_len` items.
pub trait LeafVisitor {
    /// What the visitor keeps true, for the recipes and starting flags it was made for.
    spec fn inv(&self, recipes: Map<(u32, u32), u32>, base: Seq<bool>) -> bool;

    /// The points visited so far.
    spec fn seen(&self) -> Seq<Visit>;

    /// The set size at which the descent stops.
    spec fn stop_len(&self) -> nat;

    fn visit(&mut self, queue: &Queue, set: &[u32], recipe: &RecipeSet) -> (stop: bool)
        requires
            old(self).inv(recipe@, queue.base_view()),
            queue.wf(),
            recipe.wf(),
        ensures
            final(self).inv(recipe@, queue.base_view()),
            stop == (set@.len() >= old(self).stop_len()),
            final(self).stop_len() == old(self).stop_len(),
            final(self).seen() == old(self).seen().push((queue.buf_view(), queue.head_spec() as int, set@)),
    ;
}

/// Visits every set that grows from `set` by taking queued candidates in
/// order, each adding what it combines into with the set, down to where the
/// visitor stops. The queue and the set come back as they were.
pub fn enum_set_rec<V: LeafVisitor>(queue: &mut Queue, set: &mut Vec<u32>, recipe: &RecipeSet, cb: &mut V)
    requires
        old(queue).wf(),
        recipe.wf(),
        ids_below(recipe@, old(queue).blocked_view().len() as nat),
        old(cb).inv(recipe@, old(queue).base_view()),
    ensures
        final(queue).wf(),
        final(queue).buf_view() == old(queue).buf_view(),
        final(queue).head_spec() == old(queue).head_spec(),
        final(queue).blocked_view() == old(queue).blocked_view(),
        final(queue).base_view() == old(queue).base_view(),
        final(set)@ == old(set)@,
        final(cb).inv(recipe@, old(queue).base_view()),
        final(cb).stop_len() == old(cb).stop_len(),
        final(cb).seen() == old(cb).seen() + visits(recipe@, old(queue).base_view(), old(queue).buf_view(),
            old(queue).head_spec() as int, old(set)@, old(cb).stop_len()),
    decreases old(queue).measure(),
{
    let ghost m = recipe@;
    let ghost base = queue.base_view();
    let ghost stop = cb.stop_len();
    let ghost seen0 = cb.seen();
    let ghost v0 = (queue.buf_view(), queue.head_spec() as int, set@);
    if cb.visit(queue, set.as_slice(), recipe) {
        proof {
            assert(cb.seen() =~= seen0 + visits(m, base, v0.0, v0.1, v0.2, stop));
        }
        return;
    }
    let ghost q0 = *queue;
    let ghost s0 = set@;
    let head = queue.head;
    let tail = queue.tail();
    let ghost m0 = queue.measure();
    proof {
        assert(seen0 + visits(m, base, v0.0, v0.1, v0.2, stop)
            =~= cb.seen() + visits_from(m, base, q0.buf_view(), head as int, s0, stop));
    }
    while queue.head < queue.buf.len()
        invariant
            queue.wf(),
            recipe.wf(),
            ids_below(recipe@, queue.blocked_view().len() as nat),
            cb.inv(recipe@, base),
            m == recipe@,
            base == q0.base_view(),
            stop == cb.stop_len(),
            s0.len() < stop,
            v0 == (q0.buf_view(), head as int, s0),
            seen0 + visits(m, base, v0.0, v0.1, v0.2, stop)
                == cb.seen() + visits_from(m, base, q0.buf_view(), queue.head_spec() as int, s0, stop),
            queue.buf_view() == q0.buf_view(),
            queue.base_view() == q0.base_view(),
            queue.blocked_view() == q0.blocked_view(),
            head <= queue.head_spec() <= tail,
            tail == q0.buf_view().len(),
            q0.head_spec() == head,
            m0 == q0.measure(),
            m0 == old(queue).measure(),
            set@ == s0,
        decreases tail - queue.head_spec(),
    {
        let ghost h = queue.head_spec();
        let u = queue.dequeue().unwrap();
        set.push(u);
        let mut j: usize = 0;
        while j < set.len()
            invariant
                queue.wf(),
                recipe.wf(),
                ids_below(recipe@, queue.blocked_view().len() as nat),
                queue.blocked_view().len() == q0.blocked_view().len(),
                queue.base_view() == q0.base_view(),
                queue.head_spec() == h + 1,
                queue.buf_view().len() >= tail,
                queue.buf_view().take(tail as int) == q0.buf_view(),
                queue.measure() + (h + 1 - head) == m0,
                h + 1 <= tail,
                m0 == old(queue).measure(),
                set@ == s0.push(u),
                j <= set@.len(),
                m == recipe@,
                base == queue.base_view(),
                enq_from(m, base, q0.buf_view(), u, s0.push(u), 0) == enq_from(m, base, queue.buf_view(), u, s0.push(u), j as int),
            decreases set@.len() - j,
        {
            match recipe.get(u, set[j]) {
                Some(w) => {
                    let ghost b0 = queue.buf_view();
                    proof {
                        assert(queue.blocked_view()[w as int] == (base[w as int] || queued(b0, w as int)));
                    }
                    queue.enqueue(w);
                    proof {
                        assert(queue.buf_view().take(tail as int) =~= b0.take(tail as int));
                    }
                },
                None => {},
            }
            j += 1;
        }
        proof {
            assert(q0.buf_view()[h as int] == u);
            let s2 = s0.push(u);
            assert(visits_from(m, base, q0.buf_view(), h as int, s0, stop)
                == visits(m, base, enq_from(m, base, q0.buf_view(), u, s2, 0), h + 1, s2, stop)
                    + visits_from(m, base, q0.buf_view(), h + 1, s0, stop));
        }
        let ghost seen1 = cb.seen();
        enum_set_rec(queue, set, recipe, cb);
        proof {
            assert(cb.seen() + visits_from(m, base, q0.buf_view(), h + 1, s0, stop)
                =~= seen1 + visits_from(m, base, q0.buf_view(), h as int, s0, stop));
        }
        set.pop();
        proof {
            assert(set@ =~= s0);
        }
        queue.truncate(tail);
        proof {
            queue.lemma_determined(&q0);
        }
    }
    proof {
        assert(visits_from(m, base, q0.buf_view(), queue.head_spec() as int, s0, stop) =~= Seq::<Visit>::empty());
        assert(cb.seen() =~= seen0 + visits(m, base, v0.0, v0.1, v0.2, stop));
    }
    queue.rewind(head);
}

/// The candidates found from the seed before the first item is added: each
/// seed item combined with each seed item, in order.
pub open spec fn seed_queue(m: Map<(u32, u32), u32>, base: Seq<bool>, init: Seq<u32>, i: int) -> Seq<u32>
    decreases i,
{
    if i <= 0 || i > init.len() {
        Seq::empty()
    } else {
        enq_from(m, base, seed_queue(m, base, init, i - 1), init[i - 1], init, 0)
    }
}

/// The points an enumeration from `init` over `n` ids visits, descending
/// until the set has `stop` items.
pub open spec fn enumeration(m: Map<(u32, u32), u32>, n: nat, init: Seq<u32>, stop: nat) -> Seq<Visit> {
    let base = seed_flags(n, init);
    visits(m, base, seed_queue(m, base, init, init.len() as int), 0, init, stop)
}

/// Visits every set that grows from `init` (see [`enum_set_rec`]), over ids below `n`.
pub fn enum_set<V: LeafVisitor>(n: usize, init: &[u32], recipe: &RecipeSet, cb: &mut V)
    requires
        n >= 1,
        forall|k: int| 0 <= k < init@.len() ==> (#[trigger] init@[k]) < n,
        recipe.wf(),
        ids_below(recipe@, n as nat),
        old(cb).inv(recipe@, seed_flags(n as nat, init@)),
    ensures
        final(cb).inv(recipe@, seed_flags(n as nat, init@)),
        final(cb).stop_len() == old(cb).stop_len(),
        final(cb).seen() == old(cb).seen() + enumeration(recipe@, n as nat, init@, old(cb).stop_len()),
{
    let ghost m = recipe@;
    let ghost base = seed_flags(n as nat, init@);
    let mut queue = Queue::new(n, init);
    let mut i: usize = 0;
    while i < init.len()
        invariant
            queue.wf(),
            queue.blocked_view().len() == n,
            queue.base_view() == base,
            queue.head_spec() == 0,
            recipe.wf(),
            m == recipe@,
            ids_below(recipe@, n as nat),
            i <= init@.len(),
            queue.buf_view() == seed_queue(m, base, init@, i as int),
        decreases init@.len() - i,
    {
        let ghost b0 = queue.buf_view();
        let mut j: usize = 0;
        while j < init.len()
            invariant
                queue.wf(),
                queue.blocked_view().len() == n,
                queue.base_view() == base,
                queue.head_spec() == 0,
                recipe.wf(),
                m == recipe@,
                ids_below(recipe@, n as nat),
                i < init@.len(),
                j <= init@.len(),
                enq_from(m, base, b0, init@[i as int], init@, 0) == enq_from(m, base, queue.buf_view(), init@[i as int], init@, j as int),
            decreases init@.len() - j,
        {
            match recipe.get(init[i], init[j]) {
                Some(w) => {
                    proof {
                        assert(queue.blocked_view()[w as int] == (base[w as int] || queued(queue.buf_view(), w as int)));
                    }
                    queue.enqueue(w);
                },
                None => {},
            }
            j += 1;
        }
        i += 1;
    }
    let mut set = vstd::slice::slice_to_vec(init);
    enum_set_rec(&mut queue, &mut set, recipe, cb);
}

/// None of the pairs was evaluated, and no pair occurs twice.
pub open spec fn fresh_pairs(m: Map<(u32, u32), u32>, s: Seq<Pair>) -> bool {
    &&& forall|k: int| 0 <= k < s.len() ==> !m.contains_key(#[trigger] s[k]@)
    &&& forall|i: int, j: int| 0 <= i < j < s.len() ==> (#[trigger] s[i]).code() != (#[trigger] s[j]).code()
}

/// A deduplicating collection of unevaluated pairs, in order of discovery.
struct NewPairs {
    seen: HashSet<u64>,
    pairs: Vec<Pair>,
}

impl NewPairs {
    spec fn inv(&self, m: Map<(u32, u32), u32>) -> bool {
        &&& fresh_pairs(m, self.pairs@)
        &&& forall|k: int| 0 <= k < self.pairs@.len() ==> self.seen@.contains(#[trigger] self.pairs@[k].code())
        &&& forall|c: u64| #[trigger] self.seen@.contains(c) ==> exists|k: int|
            0 <= k < self.pairs@.len() && (#[trigger] self.pairs@[k]).code() == c
    }

    fn new() -> (r: NewPairs)
        ensures
            forall|m: Map<(u32, u32), u32>| r.inv(m),
            r.pairs@.len() == 0,
            r.seen@ == Set::<u64>::empty(),
    {
        NewPairs { seen: HashSet::new(), pairs: Vec::new() }
    }

    fn add(&mut self, p: Pair, Ghost(m): Ghost<Map<(u32, u32), u32>>)
        requires
            old(self).inv(m),
            !m.contains_key(p@),
        ensures
            final(self).inv(m),
            forall|k: int| 0 <= k < old(self).pairs@.len() ==> final(self).pairs@[k] == old(self).pairs@[k],
            final(self).pairs@.len() >= old(self).pairs@.len(),
            exists|k: int| 0 <= k < final(self).pairs@.len() && (#[trigger] final(self).pairs@[k]).code() == p.code(),
            forall|k: int| 0 <= k < final(self).pairs@.len() ==> #[trigger] final(self).pairs@[k] == p
                || exists|j: int| 0 <= j < old(self).pairs@.len() && old(self).pairs@[j] == final(self).pairs@[k],
            final(self).seen@ == old(self).seen@.insert(p.code()),
    {
        let c = p.as_u64();
        if self.seen.contains(&c) {
            proof {
                let k = choose|k: int| 0 <= k < self.pairs@.len() && (#[trigger] self.pairs@[k]).code() == c;
                assert(self.seen@ =~= self.seen@.insert(c));
            }
            return;
        }
        self.seen.insert(c);
        self.pairs.push(p);
        proof {
            let n = self.pairs@.len() - 1;
            assert(self.pairs@[n] == p);
            assert forall|i: int| 0 <= i < n implies (#[trigger] self.pairs@[i]).code() != c by {
                assert(self.pairs@[i] == old(self).pairs@[i]);
                assert(old(self).seen@.contains(old(self).pairs@[i].code()));
            }
            assert forall|cc: u64| #[trigger] self.seen@.contains(cc) implies exists|k: int|
                0 <= k < self.pairs@.len() && (#[trigger] self.pairs@[k]).code() == cc by {
                if cc != c {
                    let k = choose|k: int| 0 <= k < old(self).pairs@.len() && (#[trigger] old(self).pairs@[k]).code() == cc;
                    assert(self.pairs@[k] == old(self).pairs@[k]);
                }
            }
            assert forall|k: int| 0 <= k < self.pairs@.len() implies self.seen@.contains(#[trigger] self.pairs@[k].code()) by {
                if k < n {
                    assert(self.pairs@[k] == old(self).pairs@[k]);
                }
            }
            assert forall|k: int| 0 <= k < self.pairs@.len() implies #[trigger] self.pairs@[k] == p
                || exists|j: int| 0 <= j < old(self).pairs@.len() && old(self).pairs@[j] == self.pairs@[k] by {
                if k < n {
                    assert(old(self).pairs@[k] == self.pairs@[k]);
                }
            }
        }
    }
}

/// The codes of the pairs in `s`.
pub open spec fn codes(s: Seq<Pair>) -> Set<u64> {
    Set::new(|c: u64| exists|k: int| 0 <= k < s.len() && (#[trigger] s[k]).code() == c)
}

/// The candidates not yet taken at a point.
pub open spec fn candidates(v: Visit) -> Seq<u32> {
    v.0.subrange(v.1, v.0.len() as int)
}

/// The unevaluated pairs met at a point with at least `stop` items: each
/// remaining candidate with each member of the set and with itself.
pub open spec fn point_codes(m: Map<(u32, u32), u32>, v: Visit, stop: nat) -> Set<u64> {
    if v.2.len() >= stop {
        Set::new(|c: u64| exists|u: u32, x: u32|
            #![trigger encode(u, x)]
            candidates(v).contains(u) && (v.2.contains(x) || x == u) && !m.contains_key((u, x)) && c == encode(u, x))
    } else {
        Set::empty()
    }
}

/// The unevaluated pairs met at the points of `t` with at least `stop` items.
pub open spec fn trace_codes(m: Map<(u32, u32), u32>, t: Seq<Visit>, stop: nat) -> Set<u64>
    decreases t.len(),
{
    if t.len() == 0 {
        Set::empty()
    } else {
        trace_codes(m, t.drop_last(), stop).union(point_codes(m, t.last(), stop))
    }
}

/// The number of points of `t` with at least `stop` items, saturating at `u64::MAX`.
pub open spec fn trace_count(t: Seq<Visit>, stop: nat) -> nat
    decreases t.len(),
{
    if t.len() == 0 {
        0
    } else {
        let c = trace_count(t.drop_last(), stop);
        if t.last().2.len() >= stop {
            if c + 1 <= u64::MAX { c + 1 } else { u64::MAX as nat }
        } else {
            c
        }
    }
}

/// The points of `t` with at least `stop` items, in order.
pub open spec fn leaves(t: Seq<Visit>, stop: nat) -> Seq<Visit>
    decreases t.len(),
{
    if t.len() == 0 {
        Seq::empty()
    } else if t.last().2.len() >= stop {
        leaves(t.drop_last(), stop).push(t.last())
    } else {
        leaves(t.drop_last(), stop)
    }
}

/// The set size at which an enumeration from a seed of `init_len` items stops
/// with `depth` items added (capped at `usize::MAX`).
pub open spec fn stop_at(init_len: nat, depth: nat) -> nat {
    if init_len + depth <= usize::MAX as nat { init_len + depth } else { usize::MAX as nat }
}

fn stop_after(init_len: usize, depth: usize) -> (r: usize)
    ensures
        r as nat == stop_at(init_len as nat, depth as nat),
{
    if depth <= usize::MAX - init_len { init_len + depth } else { usize::MAX }
}

/// What completing a snapshot gives: the unevaluated pairs and the number of
/// sets at `stop` items below it, or nothing for a snapshot that cannot come
/// from an enumeration from `init` over `n` ids.
pub open spec fn snapshot_codes(m: Map<(u32, u32), u32>, n: nat, init: Seq<u32>, v: Visit, stop: nat) -> Set<u64> {
    if 0 <= v.1 <= usize::MAX && snapshot_ok(v.0, v.1 as usize, n as usize, init) {
        trace_codes(m, visits(m, seed_flags(n, init), v.0, v.1, v.2, stop), stop)
    } else {
        Set::empty()
    }
}

pub open spec fn snapshot_count(m: Map<(u32, u32), u32>, n: nat, init: Seq<u32>, v: Visit, stop: nat) -> nat {
    if 0 <= v.1 <= usize::MAX && snapshot_ok(v.0, v.1 as usize, n as usize, init) {
        trace_count(visits(m, seed_flags(n, init), v.0, v.1, v.2, stop), stop)
    } else {
        0
    }
}

/// The union of the snapshot results over `vs`.
pub open spec fn fan_codes(m: Map<(u32, u32), u32>, n: nat, init: Seq<u32>, vs: Seq<Visit>, stop: nat) -> Set<u64>
    decreases vs.len(),
{
    if vs.len() == 0 {
        Set::empty()
    } else {
        fan_codes(m, n, init, vs.drop_last(), stop).union(snapshot_codes(m, n, init, vs.last(), stop))
    }
}

/// The saturating sum of the snapshot counts over `vs`.
pub open spec fn fan_count(m: Map<(u32, u32), u32>, n: nat, init: Seq<u32>, vs: Seq<Visit>, stop: nat) -> nat
    decreases vs.len(),
{
    if vs.len() == 0 {
        0
    } else {
        let c = fan_count(m, n, init, vs.drop_last(), stop) + snapshot_count(m, n, init, vs.last(), stop);
        if c <= u64::MAX { c } else { u64::MAX as nat }
    }
}

/// A point of the enumeration to resume from: the candidates found, the
/// position of the next one, and the current set.
pub type Snapshot = (Vec<u32>, usize, Vec<u32>);

pub open spec fn snap_view(s: Snapshot) -> Visit {
    (s.0@, s.1 as int, s.2@)
}

/// Records a snapshot at every set with `stop` items, and stops there.
struct PrefixCollector {
    stop: usize,
    states: Vec<Snapshot>,
    trace: Ghost<Seq<Visit>>,
}

impl LeafVisitor for PrefixCollector {
    closed spec fn inv(&self, recipes: Map<(u32, u32), u32>, base: Seq<bool>) -> bool {
        self.states@.map_values(|x: Snapshot| snap_view(x)) == leaves(self.trace@, self.stop as nat)
    }

    closed spec fn seen(&self) -> Seq<Visit> {
        self.trace@
    }

    closed spec fn stop_len(&self) -> nat {
        self.stop as nat
    }

    fn visit(&mut self, queue: &Queue, set: &[u32], recipe: &RecipeSet) -> (stop: bool) {
        let ghost v = (queue.buf_view(), queue.head_spec() as int, set@);
        let ghost t0 = self.trace@;
        let ghost s0 = self.states@;
        self.trace = Ghost(self.trace@.push(v));
        if set.len() < self.stop {
            proof {
                assert(self.trace@.drop_last() =~= t0);
            }
            return false;
        }
        let buf = vstd::slice::slice_to_vec(queue.buf().as_slice());
        let snap = (buf, queue.head(), vstd::slice::slice_to_vec(set));
        self.states.push(snap);
        proof {
            assert(self.trace@.drop_last() =~= t0);
            assert(snap_view(snap) == v);
            assert(self.states@.map_values(|x: Snapshot| snap_view(x))
                =~= s0.map_values(|x: Snapshot| snap_view(x)).push(v));
        }
        true
    }
}

/// At every set with `stop` items, records the unevaluated pairs of each
/// remaining candidate with each member and with itself, counts the set, and
/// stops there.
struct PairCollector {
    stop: usize,
    pairs: NewPairs,
    count: u64,
    trace: Ghost<Seq<Visit>>,
}

impl LeafVisitor for PairCollector {
    closed spec fn inv(&self, recipes: Map<(u32, u32), u32>, base: Seq<bool>) -> bool {
        &&& self.pairs.inv(recipes)
        &&& self.pairs.seen@ == trace_codes(recipes, self.trace@, self.stop as nat)
        &&& self.count as nat == trace_count(self.trace@, self.stop as nat)
    }

    closed spec fn seen(&self) -> Seq<Visit> {
        self.trace@
    }

    closed spec fn stop_len(&self) -> nat {
        self.stop as nat
    }

    fn visit(&mut self, queue: &Queue, set: &[u32], recipe: &RecipeSet) -> (stop: bool) {
        let ghost m = recipe@;
        let ghost v = (queue.buf_view(), queue.head_spec() as int, set@);
        let ghost t0 = self.trace@;
        let ghost c0 = self.pairs.seen@;
        self.trace = Ghost(self.trace@.push(v));
        proof {
            assert(self.trace@.drop_last() =~= t0);
        }
        if set.len() < self.stop {
            proof {
                assert(trace_codes(m, self.trace@, self.stop as nat) =~= c0);
            }
            return false;
        }
        let cand = queue.as_slice();
        let ghost target = point_codes(m, v, self.stop as nat);
        let mut i: usize = 0;
        while i < cand.len()
            invariant
                recipe.wf(),
                m == recipe@,
                self.pairs.inv(m),
                self.stop == old(self).stop,
                self.count == old(self).count,
                self.trace@ == t0.push(v),
                cand@ == candidates(v),
                set@ == v.2,
                v.2.len() >= self.stop,
                target == point_codes(m, v, self.stop as nat),
                i <= cand@.len(),
                self.pairs.seen@ == c0.union(Set::new(|c: u64| exists|u: u32, x: u32|
                    #![trigger encode(u, x)]
                    cand@.take(i as int).contains(u) && (v.2.contains(x) || x == u) && !m.contains_key((u, x)) && c == encode(u, x))),
            decreases cand@.len() - i,
        {
            let u = cand[i];
            let ghost before = self.pairs.seen@;
            let mut j: usize = 0;
            while j < set.len()
                invariant
                    recipe.wf(),
                    m == recipe@,
                    self.pairs.inv(m),
                    self.stop == old(self).stop,
                    self.count == old(self).count,
                    self.trace@ == t0.push(v),
                    set@ == v.2,
                    j <= set@.len(),
                    self.pairs.seen@ == before.union(Set::new(|c: u64| exists|x: u32|
                        #![trigger encode(u, x)]
                        set@.take(j as int).contains(x) && !m.contains_key((u, x)) && c == encode(u, x))),
                decreases set@.len() - j,
            {
                let x = set[j];
                let ghost sj = self.pairs.seen@;
                if !recipe.contains(u, x) {
                    self.pairs.add(Pair::new(u, x), Ghost(m));
                }
                proof {
                    assert forall|c: u64| #[trigger] self.pairs.seen@.contains(c) <==> before.union(Set::new(|c: u64| exists|y: u32|
                        #![trigger encode(u, y)]
                        set@.take(j + 1).contains(y) && !m.contains_key((u, y)) && c == encode(u, y))).contains(c) by {
                        assert(set@.take(j + 1) =~= set@.take(j as int).push(x));
                        if exists|y: u32| #![trigger encode(u, y)] set@.take(j + 1).contains(y) && !m.contains_key((u, y)) && c == encode(u, y) {
                            let y = choose|y: u32| #![trigger encode(u, y)] set@.take(j + 1).contains(y) && !m.contains_key((u, y)) && c == encode(u, y);
                            if y != x {
                                let k = choose|k: int| 0 <= k < j + 1&& #[trigger] set@.take(j + 1)[k] == y;
                                assert(set@.take(j as int)[k] == y);
                            }
                        }
                        if exists|y: u32| #![trigger encode(u, y)] set@.take(j as int).contains(y) && !m.contains_key((u, y)) && c == encode(u, y) {
                            let y = choose|y: u32| #![trigger encode(u, y)] set@.take(j as int).contains(y) && !m.contains_key((u, y)) && c == encode(u, y);
                            let k = choose|k: int| 0 <= k < j&& #[trigger] set@.take(j as int)[k] == y;
                            assert(set@.take(j + 1)[k] == y);
                        }
                        assert(set@.take(j + 1)[j as int] == x);
                    }
                    assert(self.pairs.seen@ =~= before.union(Set::new(|c: u64| exists|y: u32|
                        #![trigger encode(u, y)]
                        set@.take(j + 1).contains(y) && !m.contains_key((u, y)) && c == encode(u, y))));
                }
                j += 1;
            }
            let ghost sb = self.pairs.seen@;
            if !recipe.contains(u, u) {
                self.pairs.add(Pair::new(u, u), Ghost(m));
            }
            proof {
                let ti = cand@.take(i as int);
                let ti1 = cand@.take(i + 1);
                assert(ti1 =~= ti.push(u));
                assert(set@.take(set@.len() as int) =~= set@);
                assert forall|c: u64| #[trigger] self.pairs.seen@.contains(c) <==> c0.union(Set::new(|c: u64| exists|w: u32, x: u32|
                    #![trigger encode(w, x)]
                    ti1.contains(w) && (v.2.contains(x) || x == w) && !m.contains_key((w, x)) && c == encode(w, x))).contains(c) by {
                    if exists|w: u32, x: u32| #![trigger encode(w, x)]
                        ti1.contains(w) && (v.2.contains(x) || x == w) && !m.contains_key((w, x)) && c == encode(w, x) {
                        let (w, x) = choose|w: u32, x: u32| #![trigger encode(w, x)]
                            ti1.contains(w) && (v.2.contains(x) || x == w) && !m.contains_key((w, x)) && c == encode(w, x);
                        if w != u {
                            let k = choose|k: int| 0 <= k < i + 1&& #[trigger] ti1[k] == w;
                            assert(ti[k] == w);
                        } else if x != u {
                            assert(set@.take(set@.len() as int).contains(x));
                        }
                    }
                    if exists|w: u32, x: u32| #![trigger encode(w, x)]
                        ti.contains(w) && (v.2.contains(x) || x == w) && !m.contains_key((w, x)) && c == encode(w, x) {
                        let (w, x) = choose|w: u32, x: u32| #![trigger encode(w, x)]
                            ti.contains(w) && (v.2.contains(x) || x == w) && !m.contains_key((w, x)) && c == encode(w, x);
                        let k = choose|k: int| 0 <= k < i&& #[trigger] ti[k] == w;
                        assert(ti1[k] == w);
                    }
                    if exists|x: u32| #![trigger encode(u, x)] set@.take(set@.len() as int).contains(x) && !m.contains_key((u, x)) && c == encode(u, x) {
                        let x = choose|x: u32| #![trigger encode(u, x)] set@.take(set@.len() as int).contains(x) && !m.contains_key((u, x)) && c == encode(u, x);
                        assert(ti1[i as int] == u);
                    }
                    assert(ti1[i as int] == u);
                }
                assert(self.pairs.seen@ =~= c0.union(Set::new(|c: u64| exists|w: u32, x: u32|
                    #![trigger encode(w, x)]
                    ti1.contains(w) && (v.2.contains(x) || x == w) && !m.contains_key((w, x)) && c == encode(w, x))));
            }
            i += 1;
        }
        proof {
            assert(cand@.take(i as int) =~= candidates(v));
            assert(c0 == trace_codes(m, t0, self.stop as nat));
            assert(trace_codes(m, self.trace@, self.stop as nat) == c0.union(point_codes(m, v, self.stop as nat)));
            assert(self.pairs.seen@ =~= trace_codes(m, self.trace@, self.stop as nat));
        }
        if self.count < u64::MAX {
            self.count = self.count + 1;
        }
        true
    }
}

/// Completes one snapshot of an enumeration from `init` to `depth` items
/// beyond the seed: the unevaluated pairs met at that depth, and the number
/// of sets there. A snapshot that no enumeration from `init` over ids below
/// `n` can produce gives nothing.
pub fn complete_state(state: Snapshot, n: usize, init: &[u32], depth: usize, recipe: &RecipeSet) -> (r: (Vec<Pair>, u64))
    requires
        n >= 1,
        depth >= 1,
        forall|k: int| 0 <= k < init@.len() ==> (#[trigger] init@[k]) < n,
        recipe.wf(),
        ids_below(recipe@, n as nat),
    ensures
        fresh_pairs(recipe@, r.0@),
        codes(r.0@) == snapshot_codes(recipe@, n as nat, init@, snap_view(state), stop_at(init@.len(), (depth - 1) as nat)),
        r.1 as nat == snapshot_count(recipe@, n as nat, init@, snap_view(state), stop_at(init@.len(), (depth - 1) as nat)),
{
    let ghost v = snap_view(state);
    let (buf, head, set) = state;
    let stop = stop_after(init.len(), depth - 1);
    match Queue::from_buf(buf, head, n, init) {
        None => {
            proof {
                assert(codes(Seq::<Pair>::empty()) =~= Set::<u64>::empty());
            }
            (Vec::new(), 0)
        },
        Some(queue) => {
            let mut queue = queue;
            let mut set = set;
            let mut c = PairCollector { stop, pairs: NewPairs::new(), count: 0, trace: Ghost(Seq::empty()) };
            proof {
                assert(c.pairs.seen@ =~= trace_codes(recipe@, Seq::empty(), stop as nat));
            }
            enum_set_rec(&mut queue, &mut set, recipe, &mut c);
            proof {
                assert(c.trace@ =~= visits(recipe@, seed_flags(n as nat, init@), v.0, v.1, v.2, stop as nat));
                assert(codes(c.pairs.pairs@) =~= c.pairs.seen@);
            }
            (c.pairs.pairs, c.count)
        },
    }
}

/// Relies on rayon's `into_par_iter`, `map` and `collect_into_vec` over a
/// `Vec`: each snapshot is completed by `complete_state`, and the results
/// come back one per snapshot, in the snapshots' order.
#[verifier::external_body]
fn complete_all(states: Vec<Snapshot>, n: usize, init: &[u32], depth: usize, recipe: &RecipeSet) -> (r: Vec<(Vec<Pair>, u64)>)
    requires
        n >= 1,
        depth >= 1,
        forall|k: int| 0 <= k < init@.len() ==> (#[trigger] init@[k]) < n,
        recipe.wf(),
        ids_below(recipe@, n as nat),
    ensures
        r@.len() == states@.len(),
        forall|i: int| 0 <= i < r@.len() ==> {
            &&& fresh_pairs(recipe@, (#[trigger] r@[i]).0@)
            &&& codes(r@[i].0@) == snapshot_codes(recipe@, n as nat, init@, snap_view(states@[i]), stop_at(init@.len(), (depth - 1) as nat))
            &&& r@[i].1 as nat == snapshot_count(recipe@, n as nat, init@, snap_view(states@[i]), stop_at(init@.len(), (depth - 1) as nat))
        },
{
    let mut out = Vec::new();
    states.into_par_iter().map(|s| complete_state(s, n, init, depth, recipe)).collect_into_vec(&mut out);
    out
}

/// The pairs among `init`, itself included, that were never evaluated.
#[verifier::rlimit(40)]
fn seed_pairs(init: &[u32], recipe: &RecipeSet) -> (r: Vec<Pair>)
    requires
        recipe.wf(),
    ensures
        fresh_pairs(recipe@, r@),
        forall|k: int| 0 <= k < r@.len() ==> init@.contains((#[trigger] r@[k])@.0) && init@.contains(r@[k]@.1),
        forall|a: int, b: int|
            0 <= a < init@.len() && 0 <= b < init@.len() && !recipe@.contains_key((init@[a], init@[b]))
                ==> exists|k: int| 0 <= k < r@.len() && (#[trigger] r@[k])@ == (#[trigger] init@[a], #[trigger] init@[b]),
{
    let mut acc = NewPairs::new();
    let mut i: usize = 0;
    while i < init.len()
        invariant
            recipe.wf(),
            i <= init@.len(),
            acc.inv(recipe@),
            forall|k: int| 0 <= k < acc.pairs@.len() ==> init@.contains((#[trigger] acc.pairs@[k])@.0) && init@.contains(acc.pairs@[k]@.1),
            forall|a: int, b: int|
                0 <= a < i && 0 <= b < init@.len() && !recipe@.contains_key((init@[a], init@[b]))
                    ==> exists|k: int| 0 <= k < acc.pairs@.len() && (#[trigger] acc.pairs@[k])@ == (#[trigger] init@[a], #[trigger] init@[b]),
        decreases init@.len() - i,
    {
        let mut j: usize = 0;
        while j < init.len()
            invariant
                recipe.wf(),
                i < init@.len(),
                j <= init@.len(),
                acc.inv(recipe@),
                forall|k: int| 0 <= k < acc.pairs@.len() ==> init@.contains((#[trigger] acc.pairs@[k])@.0) && init@.contains(acc.pairs@[k]@.1),
                forall|a: int, b: int|
                    0 <= a < i && 0 <= b < init@.len() && !recipe@.contains_key((init@[a], init@[b]))
                        ==> exists|k: int| 0 <= k < acc.pairs@.len() && (#[trigger] acc.pairs@[k])@ == (#[trigger] init@[a], #[trigger] init@[b]),
                forall|b: int|
                    0 <= b < j && !recipe@.contains_key((init@[i as int], init@[b]))
                        ==> exists|k: int| 0 <= k < acc.pairs@.len() && (#[trigger] acc.pairs@[k])@ == (init@[i as int], #[trigger] init@[b]),
            decreases init@.len() - j,
        {
            let u = init[i];
            let v = init[j];
            if !recipe.contains(u, v) {
                let p = Pair::new(u, v);
                let ghost old_pairs = acc.pairs@;
                acc.add(p, Ghost(recipe@));
                proof {
                    assert(init@.contains(u) && init@.contains(v)) by {
                        assert(init@[i as int] == u && init@[j as int] == v);
                    }
                    let k0 = choose|k: int| 0 <= k < acc.pairs@.len() && (#[trigger] acc.pairs@[k]).code() == p.code();
                    assert(acc.pairs@[k0]@ == p@);
                    assert forall|k: int| 0 <= k < acc.pairs@.len() implies init@.contains((#[trigger] acc.pairs@[k])@.0)
                        && init@.contains(acc.pairs@[k]@.1) by {
                        if acc.pairs@[k] != p {
                            let jj = choose|jj: int| 0 <= jj < old_pairs.len() && old_pairs[jj] == acc.pairs@[k];
                        }
                    }
                    assert forall|a: int, b: int|
                        0 <= a < i && 0 <= b < init@.len() && !recipe@.contains_key((init@[a], init@[b]))
                            implies exists|k: int| 0 <= k < acc.pairs@.len() && (#[trigger] acc.pairs@[k])@ == (#[trigger] init@[a], #[trigger] init@[b]) by {
                        let k = choose|k: int| 0 <= k < old_pairs.len() && (#[trigger] old_pairs[k])@ == (init@[a], init@[b]);
                        assert(acc.pairs@[k] == old_pairs[k]);
                    }
                    assert forall|b: int|
                        0 <= b < j + 1 && !recipe@.contains_key((init@[i as int], init@[b]))
                            implies exists|k: int| 0 <= k < acc.pairs@.len() && (#[trigger] acc.pairs@[k])@ == (init@[i as int], #[trigger] init@[b]) by {
                        if b < j {
                            let k = choose|k: int| 0 <= k < old_pairs.len() && (#[trigger] old_pairs[k])@ == (init@[i as int], init@[b]);
                            assert(acc.pairs@[k] == old_pairs[k]);
                        } else {
                            assert(acc.pairs@[k0]@ == (init@[i as int], init@[b]));
                        }
                    }
                }
            }
            j += 1;
        }
        i += 1;
    }
    acc.pairs
}

/// A queue state an enumeration from `init` over `n` ids can reach.
pub open spec fn state_ok(n: nat, init: Seq<u32>, buf: Seq<u32>, head: int) -> bool {
    &&& n <= usize::MAX
    &&& 0 <= head <= buf.len()
    &&& head <= usize::MAX
    &&& snapshot_ok(buf, head as usize, n as usize, init)
}

proof fn lemma_enq_ok(m: Map<(u32, u32), u32>, n: nat, init: Seq<u32>, buf: Seq<u32>, u: u32, set: Seq<u32>, j: int)
    requires
        ids_below(m, n),
        n <= usize::MAX,
        buf.no_duplicates(),
        forall|k: int| 0 <= k < buf.len() ==> (#[trigger] buf[k]) < n && buf[k] != NOTHING && !queued(init, buf[k] as int),
    ensures
        ({
            let b = enq_from(m, seed_flags(n, init), buf, u, set, j);
            &&& b.no_duplicates()
            &&& forall|k: int| 0 <= k < b.len() ==> (#[trigger] b[k]) < n && b[k] != NOTHING && !queued(init, b[k] as int)
            &&& b.len() >= buf.len()
        }),
    decreases set.len() - j,
{
    let base = seed_flags(n, init);
    if 0 <= j < set.len() {
        match lookup(m, u, set[j]) {
            Some(w) => {
                if !(base[w as int] || queued(buf, w as int)) {
                    let b1 = buf.push(w);
                    assert(m.contains_key((u, set[j])));
                    assert forall|k: int| 0 <= k < b1.len() implies (#[trigger] b1[k]) < n && b1[k] != NOTHING && !queued(init, b1[k] as int) by {
                        if k < buf.len() {
                            assert(b1[k] == buf[k]);
                        }
                    }
                    assert(b1.no_duplicates()) by {
                        assert forall|a: int, b: int| 0 <= a < b < b1.len() implies b1[a] != b1[b] by {
                            if b == buf.len() {
                                assert(b1[a] == buf[a]);
                                if buf[a] == w {
                                    assert(queued(buf, w as int));
                                }
                            } else {
                                assert(b1[a] == buf[a] && b1[b] == buf[b]);
                            }
                        }
                    }
                    lemma_enq_ok(m, n, init, b1, u, set, j + 1);
                } else {
                    lemma_enq_ok(m, n, init, buf, u, set, j + 1);
                }
            },
            None => {
                lemma_enq_ok(m, n, init, buf, u, set, j + 1);
            },
        }
    }
}

proof fn lemma_trace_codes_concat(m: Map<(u32, u32), u32>, a: Seq<Visit>, b: Seq<Visit>, stop: nat)
    ensures
        trace_codes(m, a + b, stop) == trace_codes(m, a, stop).union(trace_codes(m, b, stop)),
        leaves(a + b, stop) == leaves(a, stop) + leaves(b, stop),
        trace_count(a + b, stop) == sat(trace_count(a, stop) + trace_count(b, stop)),
    decreases b.len(),
{
    lemma_trace_count_bound(a, stop);
    lemma_trace_count_bound(b, stop);
    if b.len() == 0 {
        assert(a + b =~= a);
        assert(trace_codes(m, a, stop).union(Set::empty()) =~= trace_codes(m, a, stop));
        assert(leaves(a, stop) + Seq::<Visit>::empty() =~= leaves(a, stop));
    } else {
        assert((a + b).drop_last() =~= a + b.drop_last());
        assert((a + b).last() == b.last());
        lemma_trace_codes_concat(m, a, b.drop_last(), stop);
        assert(trace_codes(m, a + b, stop) =~= trace_codes(m, a, stop).union(trace_codes(m, b, stop)));
        if b.last().2.len() >= stop {
            assert(leaves(a, stop) + leaves(b.drop_last(), stop).push(b.last())
                =~= (leaves(a, stop) + leaves(b.drop_last(), stop)).push(b.last()));
        }
    }
}

proof fn lemma_fan_codes_concat(m: Map<(u32, u32), u32>, n: nat, init: Seq<u32>, a: Seq<Visit>, b: Seq<Visit>, stop: nat)
    ensures
        fan_codes(m, n, init, a + b, stop) == fan_codes(m, n, init, a, stop).union(fan_codes(m, n, init, b, stop)),
        fan_count(m, n, init, a + b, stop) == sat(fan_count(m, n, init, a, stop) + fan_count(m, n, init, b, stop)),
    decreases b.len(),
{
    lemma_fan_count_bound(m, n, init, a, stop);
    lemma_fan_count_bound(m, n, init, b, stop);
    if b.len() == 0 {
        assert(a + b =~= a);
        assert(fan_codes(m, n, init, a, stop).union(Set::empty()) =~= fan_codes(m, n, init, a, stop));
    } else {
        assert((a + b).drop_last() =~= a + b.drop_last());
        assert((a + b).last() == b.last());
        lemma_fan_codes_concat(m, n, init, a, b.drop_last(), stop);
        assert(fan_codes(m, n, init, a + b, stop) =~= fan_codes(m, n, init, a, stop).union(fan_codes(m, n, init, b, stop)));
    }
}

/// `x`, saturated at `u64::MAX`.
pub open spec fn sat(x: nat) -> nat {
    if x <= u64::MAX { x } else { u64::MAX as nat }
}

proof fn lemma_trace_count_bound(t: Seq<Visit>, stop: nat)
    ensures
        trace_count(t, stop) <= u64::MAX,
    decreases t.len(),
{
    if t.len() > 0 {
        lemma_trace_count_bound(t.drop_last(), stop);
    }
}

proof fn lemma_fan_count_bound(m: Map<(u32, u32), u32>, n: nat, init: Seq<u32>, vs: Seq<Visit>, stop: nat)
    ensures
        fan_count(m, n, init, vs, stop) <= u64::MAX,
    decreases vs.len(),
{
    if vs.len() > 0 {
        lemma_fan_count_bound(m, n, init, vs.drop_last(), stop);
    }
}

/// Splitting the enumeration of a reachable state at `split` items and
/// completing each point there to `stop` items gives what the enumeration to
/// `stop` items gives.
proof fn lemma_split_visits(m: Map<(u32, u32), u32>, n: nat, init: Seq<u32>, buf: Seq<u32>, head: int, set: Seq<u32>, split: nat, stop: nat)
    requires
        ids_below(m, n),
        state_ok(n, init, buf, head),
        split <= stop,
    ensures
        trace_codes(m, visits(m, seed_flags(n, init), buf, head, set, stop), stop)
            == fan_codes(m, n, init, leaves(visits(m, seed_flags(n, init), buf, head, set, split), split), stop),
        trace_count(visits(m, seed_flags(n, init), buf, head, set, stop), stop)
            == fan_count(m, n, init, leaves(visits(m, seed_flags(n, init), buf, head, set, split), split), stop),
    decreases split - set.len(), 1nat, 0nat,
{
    let base = seed_flags(n, init);
    let full = visits(m, base, buf, head, set, stop);
    let v = (buf, head, set);
    if set.len() >= split {
        assert(seq![v].drop_last() =~= Seq::<Visit>::empty());
        assert(seq![v].last() == v);
        assert(leaves(Seq::<Visit>::empty(), split) == Seq::<Visit>::empty());
        assert(leaves(seq![v], split) =~= seq![v]);
        assert(fan_codes(m, n, init, Seq::<Visit>::empty(), stop).union(snapshot_codes(m, n, init, v, stop))
            =~= snapshot_codes(m, n, init, v, stop));
        lemma_trace_count_bound(full, stop);
        assert(fan_count(m, n, init, Seq::<Visit>::empty(), stop) == 0);
        assert(fan_count(m, n, init, seq![v], stop) == snapshot_count(m, n, init, v, stop));
    } else {
        lemma_split_from(m, n, init, buf, head, set, split, stop);
        let rest_full = visits_from(m, base, buf, head, set, stop);
        let rest_split = visits_from(m, base, buf, head, set, split);
        lemma_trace_codes_concat(m, seq![v], rest_full, stop);
        lemma_trace_codes_concat(m, seq![v], rest_split, split);
        assert(seq![v].drop_last() =~= Seq::<Visit>::empty());
        assert(seq![v].last() == v);
        assert(point_codes(m, v, stop) == Set::<u64>::empty());
        assert(trace_codes(m, Seq::<Visit>::empty(), stop) == Set::<u64>::empty());
        assert(trace_codes(m, seq![v], stop) =~= Set::<u64>::empty());
        assert(leaves(Seq::<Visit>::empty(), split) == Seq::<Visit>::empty());
        assert(leaves(seq![v], split) =~= Seq::<Visit>::empty());
        assert(Seq::<Visit>::empty() + leaves(rest_split, split) =~= leaves(rest_split, split));
        assert(Set::<u64>::empty().union(trace_codes(m, rest_full, stop)) =~= trace_codes(m, rest_full, stop));
        assert(trace_count(Seq::<Visit>::empty(), stop) == 0);
        assert(trace_count(seq![v], stop) == 0);
        lemma_trace_count_bound(rest_full, stop);
    }
}

proof fn lemma_split_from(m: Map<(u32, u32), u32>, n: nat, init: Seq<u32>, buf: Seq<u32>, i: int, set: Seq<u32>, split: nat, stop: nat)
    requires
        ids_below(m, n),
        state_ok(n, init, buf, i) || i >= buf.len(),
        buf.no_duplicates(),
        forall|k: int| 0 <= k < buf.len() ==> (#[trigger] buf[k]) < n && buf[k] != NOTHING && !queued(init, buf[k] as int),
        n <= usize::MAX,
        0 <= i,
        set.len() < split,
        split <= stop,
    ensures
        trace_codes(m, visits_from(m, seed_flags(n, init), buf, i, set, stop), stop)
            == fan_codes(m, n, init, leaves(visits_from(m, seed_flags(n, init), buf, i, set, split), split), stop),
        trace_count(visits_from(m, seed_flags(n, init), buf, i, set, stop), stop)
            == fan_count(m, n, init, leaves(visits_from(m, seed_flags(n, init), buf, i, set, split), split), stop),
    decreases split - set.len(), 0nat, buf.len() - i,
{
    let base = seed_flags(n, init);
    if i >= buf.len() {
        assert(fan_codes(m, n, init, Seq::<Visit>::empty(), stop) =~= Set::<u64>::empty());
    } else {
        let u = buf[i];
        let s2 = set.push(u);
        let b2 = enq_from(m, base, buf, u, s2, 0);
        lemma_enq_ok(m, n, init, buf, u, s2, 0);
        assert(buf.len() <= usize::MAX) by {
            assert(buf.len() <= n) by {
                crate::set_enum::lemma_distinct_below(buf, n);
            }
        }
        lemma_split_visits(m, n, init, b2, i + 1, s2, split, stop);
        lemma_split_from(m, n, init, buf, i + 1, set, split, stop);
        let c_full = visits(m, base, b2, i + 1, s2, stop);
        let c_split = visits(m, base, b2, i + 1, s2, split);
        let r_full = visits_from(m, base, buf, i + 1, set, stop);
        let r_split = visits_from(m, base, buf, i + 1, set, split);
        lemma_trace_codes_concat(m, c_full, r_full, stop);
        lemma_trace_codes_concat(m, c_split, r_split, split);
        lemma_fan_codes_concat(m, n, init, leaves(c_split, split), leaves(r_split, split), stop);
    }
}

/// Distinct ids below `n` number at most `n`.
pub proof fn lemma_distinct_below(s: Seq<u32>, n: nat)
    requires
        s.no_duplicates(),
        forall|k: int| 0 <= k < s.len() ==> (#[trigger] s[k]) < n,
    ensures
        s.len() <= n,
{
    let st = s.to_set();
    s.unique_seq_to_set();
    let r = Set::new(|x: u32| (x as nat) < n);
    assert(st.subset_of(r));
    let ints = Set::new(|i: int| 0 <= i < n);
    vstd::set_lib::lemma_int_range(0, n as int);
    assert(ints =~= vstd::set_lib::set_int_range(0, n as int));
    let f = |x: u32| x as int;
    assert(st.map(f).subset_of(ints)) by {
        assert forall|i: int| st.map(f).contains(i) implies ints.contains(i) by {
            let x = choose|x: u32| st.contains(x) && f(x) == i;
        }
    }
    vstd::set_lib::lemma_map_size(st, st.map(f), f);
    vstd::set_lib::lemma_len_subset(st.map(f), ints);
}

/// The fan-out result does not depend on where the enumeration is split: it
/// is what the serial enumeration to `stop` items gives.
pub proof fn lemma_split_any(m: Map<(u32, u32), u32>, n: nat, init: Seq<u32>, split: nat, stop: nat)
    requires
        ids_below(m, n),
        1 <= n <= usize::MAX,
        split <= stop,
    ensures
        fan_codes(m, n, init, leaves(enumeration(m, n, init, split), split), stop)
            == trace_codes(m, enumeration(m, n, init, stop), stop),
        fan_count(m, n, init, leaves(enumeration(m, n, init, split), split), stop)
            == trace_count(enumeration(m, n, init, stop), stop),
{
    let base = seed_flags(n, init);
    let b = seed_queue(m, base, init, init.len() as int);
    lemma_seed_ok(m, n, init, init.len() as int);
    lemma_distinct_below(b, n);
    lemma_split_visits(m, n, init, b, 0, init, split, stop);
}

proof fn lemma_seed_ok(m: Map<(u32, u32), u32>, n: nat, init: Seq<u32>, i: int)
    requires
        ids_below(m, n),
        n <= usize::MAX,
    ensures
        ({
            let b = seed_queue(m, seed_flags(n, init), init, i);
            &&& b.no_duplicates()
            &&& forall|k: int| 0 <= k < b.len() ==> (#[trigger] b[k]) < n && b[k] != NOTHING && !queued(init, b[k] as int)
        }),
    decreases i,
{
    if 0 < i <= init.len() {
        lemma_seed_ok(m, n, init, i - 1);
        lemma_enq_ok(m, n, init, seed_queue(m, seed_flags(n, init), init, i - 1), init[i - 1], init, 0);
    }
}

/// The codes of the unevaluated pairs that the serial enumeration from
/// `init` meets at every set with `depth - 1` items added: each remaining
/// candidate with each member of the set and with itself.
pub open spec fn new_pair_codes(m: Map<(u32, u32), u32>, n: nat, init: Seq<u32>, depth: nat) -> Set<u64> {
    let stop = stop_at(init.len(), (depth - 1) as nat);
    trace_codes(m, enumeration(m, n, init, stop), stop)
}

/// The number of sets with `depth - 1` items added that the serial
/// enumeration from `init` meets, saturating at `u64::MAX`.
pub open spec fn new_set_count(m: Map<(u32, u32), u32>, n: nat, init: Seq<u32>, depth: nat) -> nat {
    let stop = stop_at(init.len(), (depth - 1) as nat);
    trace_count(enumeration(m, n, init, stop), stop)
}

/// The prefix depth at which the enumeration is split: `prefix`, at most
/// `depth`, at least 1.
pub open spec fn split_depth(depth: nat, prefix: nat) -> nat {
    let p = if prefix < depth { prefix } else { depth };
    if p == 0 { 1 } else { p }
}

/// The snapshots the fan-out completes: the points of the enumeration from
/// `init` that have `split - 1` items added.
pub open spec fn split_points(m: Map<(u32, u32), u32>, n: nat, init: Seq<u32>, split: nat) -> Seq<Visit> {
    let stop = stop_at(init.len(), (split - 1) as nat);
    leaves(enumeration(m, n, init, stop), stop)
}

/// The pairs still unevaluated at `depth` items beyond the seed, and the
/// number of sets there, with the enumeration split after `prefix` items and
/// the parts completed in parallel: at depth 0, the unevaluated pairs among
/// the seed and one set; beyond, for every set with `depth - 1` items added,
/// each unevaluated pair of a remaining candidate with a member or itself,
/// and the number of those sets.
#[verifier::rlimit(100)]
pub fn collect_new_pairs_with_prefix(depth: usize, prefix: usize, n: usize, init: &[u32], recipe: &RecipeSet) -> (r: (Vec<Pair>, u64))
    requires
        n >= 1,
        forall|k: int| 0 <= k < init@.len() ==> (#[trigger] init@[k]) < n,
        recipe.wf(),
        ids_below(recipe@, n as nat),
    ensures
        fresh_pairs(recipe@, r.0@),
        depth == 0 ==> r.1 == 1,
        depth == 0 ==> forall|k: int| 0 <= k < r.0@.len() ==> init@.contains((#[trigger] r.0@[k])@.0) && init@.contains(r.0@[k]@.1),
        depth == 0 ==> forall|a: int, b: int|
            0 <= a < init@.len() && 0 <= b < init@.len() && !recipe@.contains_key((init@[a], init@[b]))
                ==> exists|k: int| 0 <= k < r.0@.len() && (#[trigger] r.0@[k])@ == (#[trigger] init@[a], #[trigger] init@[b]),
        depth > 0 ==> codes(r.0@) == new_pair_codes(recipe@, n as nat, init@, depth as nat),
        depth > 0 ==> r.1 as nat == new_set_count(recipe@, n as nat, init@, depth as nat),
{
    if depth == 0 {
        let p = seed_pairs(init, recipe);
        proof {
            assert forall|a: int, b: int|
                0 <= a < init@.len() && 0 <= b < init@.len() && !recipe@.contains_key((init@[a], init@[b]))
                    implies exists|k: int| 0 <= k < p@.len() && (#[trigger] p@[k])@ == (#[trigger] init@[a], #[trigger] init@[b]) by {
                assert(init@[a] == init@[a] && init@[b] == init@[b]);
            }
        }
        return (p, 1);
    }
    let ghost m = recipe@;
    let mut pd = if prefix < depth { prefix } else { depth };
    if pd == 0 {
        pd = 1;
    }
    let pstop = stop_after(init.len(), pd - 1);
    let mut pc = PrefixCollector { stop: pstop, states: Vec::new(), trace: Ghost(Seq::empty()) };
    proof {
        assert(pc.states@.map_values(|x: Snapshot| snap_view(x)) =~= leaves(Seq::<Visit>::empty(), pstop as nat));
    }
    enum_set(n, init, recipe, &mut pc);
    let ghost pts = split_points(m, n as nat, init@, pd as nat);
    let ghost stop = stop_at(init@.len(), (depth - 1) as nat);
    proof {
        assert(pc.trace@ =~= enumeration(m, n as nat, init@, pstop as nat));
        assert(pc.states@.map_values(|x: Snapshot| snap_view(x)) == pts);
    }
    let ghost sv = pc.states@;
    let results = complete_all(pc.states, n, init, depth, recipe);
    let mut acc = NewPairs::new();
    let mut count: u64 = 0;
    let mut i: usize = 0;
    proof {
        assert(acc.seen@ =~= fan_codes(m, n as nat, init@, pts.take(0), stop));
    }
    while i < results.len()
        invariant
            recipe.wf(),
            m == recipe@,
            acc.inv(m),
            results@.len() == sv.len(),
            sv.map_values(|x: Snapshot| snap_view(x)) == pts,
            i <= results@.len(),
            forall|k: int| 0 <= k < results@.len() ==> {
                &&& fresh_pairs(m, (#[trigger] results@[k]).0@)
                &&& codes(results@[k].0@) == snapshot_codes(m, n as nat, init@, snap_view(sv[k]), stop)
                &&& results@[k].1 as nat == snapshot_count(m, n as nat, init@, snap_view(sv[k]), stop)
            },
            acc.seen@ == fan_codes(m, n as nat, init@, pts.take(i as int), stop),
            count as nat == fan_count(m, n as nat, init@, pts.take(i as int), stop),
        decreases results@.len() - i,
    {
        let part = &results[i].0;
        let ghost a0 = acc.seen@;
        let mut j: usize = 0;
        while j < part.len()
            invariant
                recipe.wf(),
                acc.inv(m),
                fresh_pairs(m, part@),
                j <= part@.len(),
                acc.seen@ == a0.union(codes(part@.take(j as int))),
            decreases part@.len() - j,
        {
            acc.add(part[j], Ghost(m));
            proof {
                assert(codes(part@.take(j + 1)) =~= codes(part@.take(j as int)).insert(part@[j as int].code())) by {
                    assert forall|c: u64| codes(part@.take(j + 1)).contains(c) implies codes(part@.take(j as int)).insert(part@[j as int].code()).contains(c) by {
                        let k = choose|k: int| 0 <= k < j + 1 && (#[trigger] part@.take(j + 1)[k]).code() == c;
                        if k < j {
                            assert(part@.take(j as int)[k] == part@.take(j + 1)[k]);
                        }
                    }
                    assert forall|c: u64| codes(part@.take(j as int)).insert(part@[j as int].code()).contains(c) implies codes(part@.take(j + 1)).contains(c) by {
                        if c == part@[j as int].code() {
                            assert(part@.take(j + 1)[j as int] == part@[j as int]);
                        } else {
                            let k = choose|k: int| 0 <= k < j && (#[trigger] part@.take(j as int)[k]).code() == c;
                            assert(part@.take(j as int)[k] == part@.take(j + 1)[k]);
                        }
                    }
                }
                assert(acc.seen@ =~= a0.union(codes(part@.take(j + 1))));
            }
            j += 1;
        }
        let c = results[i].1;
        count = if count <= u64::MAX - c { count + c } else { u64::MAX };
        proof {
            assert(part@.take(j as int) =~= part@);
            assert(pts.take(i + 1).drop_last() =~= pts.take(i as int));
            assert(pts[i as int] == snap_view(sv[i as int]));
            assert(acc.seen@ =~= fan_codes(m, n as nat, init@, pts.take(i + 1), stop));
        }
        i += 1;
    }
    proof {
        assert(pts.take(i as int) =~= pts);
        assert(codes(acc.pairs@) =~= acc.seen@);
        lemma_split_any(m, n as nat, init@, pstop as nat, stop);
    }
    (acc.pairs, count)
}

/// The pairs still unevaluated at `depth` items beyond the seed, and the
/// number of sets there; the enumeration is split after at most five items.
pub fn collect_new_pairs(depth: usize, n: usize, init: &[u32], recipe: &RecipeSet) -> (r: (Vec<Pair>, u64))
    requires
        n >= 1,
        forall|k: int| 0 <= k < init@.len() ==> (#[trigger] init@[k]) < n,
        recipe.wf(),
        ids_below(recipe@, n as nat),
    ensures
        fresh_pairs(recipe@, r.0@),
        depth == 0 ==> r.1 == 1,
        depth == 0 ==> forall|k: int| 0 <= k < r.0@.len() ==> init@.contains((#[trigger] r.0@[k])@.0) && init@.contains(r.0@[k]@.1),
        depth == 0 ==> forall|a: int, b: int|
            0 <= a < init@.len() && 0 <= b < init@.len() && !recipe@.contains_key((init@[a], init@[b]))
                ==> exists|k: int| 0 <= k < r.0@.len() && (#[trigger] r.0@[k])@ == (#[trigger] init@[a], #[trigger] init@[b]),
        depth > 0 ==> codes(r.0@) == new_pair_codes(recipe@, n as nat, init@, depth as nat),
        depth > 0 ==> r.1 as nat == new_set_count(recipe@, n as nat, init@, depth as nat),
{
    collect_new_pairs_with_prefix(depth, MAX_PREFIX, n, init, recipe)
}

/// The items a point adds to a seed of `init_len` items.
pub open spec fn added(v: Visit, init_len: nat) -> Seq<u32> {
    if v.2.len() >= init_len { v.2.skip(init_len as int) } else { Seq::empty() }
}

/// Records every set up to `stop` items.
struct ExtensionCollector {
    stop: usize,
    sets: Vec<Vec<u32>>,
    trace: Ghost<Seq<Visit>>,
}

impl LeafVisitor for ExtensionCollector {
    closed spec fn inv(&self, recipes: Map<(u32, u32), u32>, base: Seq<bool>) -> bool {
        self.sets@.map_values(|x: Vec<u32>| x@) == self.trace@.map_values(|v: Visit| v.2)
    }

    closed spec fn seen(&self) -> Seq<Visit> {
        self.trace@
    }

    closed spec fn stop_len(&self) -> nat {
        self.stop as nat
    }

    fn visit(&mut self, queue: &Queue, set: &[u32], recipe: &RecipeSet) -> (stop: bool) {
        let ghost v = (queue.buf_view(), queue.head_spec() as int, set@);
        let ghost s0 = self.sets@;
        let ghost t0 = self.trace@;
        self.trace = Ghost(self.trace@.push(v));
        self.sets.push(vstd::slice::slice_to_vec(set));
        proof {
            assert(s0.map_values(|x: Vec<u32>| x@) == t0.map_values(|w: Visit| w.2));
            assert forall|j: int| 0 <= j < s0.len() implies (#[trigger] s0[j])@ == t0[j].2 by {
                assert(s0.map_values(|x: Vec<u32>| x@)[j] == t0.map_values(|w: Visit| w.2)[j]);
            }
            assert(self.sets@.map_values(|x: Vec<u32>| x@) =~= self.trace@.map_values(|w: Visit| w.2));
        }
        set.len() >= self.stop
    }
}

/// The items added to `init`, in visiting order, at every set of the
/// enumeration with at most `depth` of them, the empty addition first.
pub fn collect_extensions(depth: usize, n: usize, init: &[u32], recipe: &RecipeSet) -> (r: Vec<Vec<u32>>)
    requires
        n >= 1,
        forall|k: int| 0 <= k < init@.len() ==> (#[trigger] init@[k]) < n,
        recipe.wf(),
        ids_below(recipe@, n as nat),
    ensures
        r@.map_values(|x: Vec<u32>| x@) == enumeration(recipe@, n as nat, init@, stop_at(init@.len(), depth as nat))
            .map_values(|v: Visit| added(v, init@.len())),
{
    let stop = stop_after(init.len(), depth);
    let mut c = ExtensionCollector { stop, sets: Vec::new(), trace: Ghost(Seq::empty()) };
    proof {
        assert(c.sets@.map_values(|x: Vec<u32>| x@) =~= Seq::<Visit>::empty().map_values(|v: Visit| v.2));
    }
    enum_set(n, init, recipe, &mut c);
    let ghost t = enumeration(recipe@, n as nat, init@, stop as nat);
    proof {
        assert(c.trace@ =~= t);
        assert(c.sets@.map_values(|x: Vec<u32>| x@) == t.map_values(|v: Visit| v.2));
        assert(c.sets@.map_values(|x: Vec<u32>| x@).len() == c.sets@.len());
        assert(t.map_values(|v: Visit| v.2).len() == t.len());
        assert(c.sets@.len() == t.len());
        assert forall|j: int| 0 <= j < t.len() implies (#[trigger] c.sets@[j])@ == t[j].2 by {
            assert(c.sets@.map_values(|x: Vec<u32>| x@)[j] == t.map_values(|v: Visit| v.2)[j]);
        }
    }
    let il = init.len();
    let mut r: Vec<Vec<u32>> = Vec::new();
    let mut k: usize = 0;
    while k < c.sets.len()
        invariant
            k <= c.sets@.len(),
            c.sets@.len() == t.len(),
            forall|j: int| 0 <= j < t.len() ==> (#[trigger] c.sets@[j])@ == t[j].2,
            il == init@.len(),
            r@.len() == k,
            forall|j: int| 0 <= j < k ==> (#[trigger] r@[j])@ == added(t[j], il as nat),
        decreases c.sets@.len() - k,
    {
        let s = c.sets[k].as_slice();
        let a = if s.len() < il { s.len() } else { il };
        let e = vstd::slice::slice_to_vec(vstd::slice::slice_subrange(s, a, s.len()));
        proof {
            assert(e@ =~= added(t[k as int], il as nat));
        }
        r.push(e);
        k += 1;
    }
    proof {
        assert(r@.map_values(|x: Vec<u32>| x@) =~= t.map_values(|v: Visit| added(v, init@.len())));
    }
    r
}

/// The universe is too small: an id at or above its size occurs.
#[derive(Clone, Copy, PartialEq, Eq, Debug)]
pub struct CapacityExceeded {
    /// The size of the universe that was given.
    pub n: usize,
}

/// All ids of `init` and of the recipes lie below `n`, and `n` is not zero.
pub open spec fn fits(n: usize, init: Seq<u32>, recipe: &RecipeSet) -> bool {
    &&& n >= 1
    &&& forall|k: int| 0 <= k < init.len() ==> (#[trigger] init[k]) < n
    &&& recipe.limit_spec() <= n
}

/// Whether all ids lie below `n`.
pub fn check_fits(n: usize, init: &[u32], recipe: &RecipeSet) -> (r: bool)
    requires
        recipe.wf(),
    ensures
        r == fits(n, init@, recipe),
        r ==> ids_below(recipe@, n as nat),
{
    if n == 0 || recipe.limit() > n as u64 {
        return false;
    }
    let mut k: usize = 0;
    while k < init.len()
        invariant
            k <= init@.len(),
            forall|j: int| 0 <= j < k ==> (#[trigger] init@[j]) < n,
        decreases init@.len() - k,
    {
        if init[k] as usize >= n {
            return false;
        }
        k += 1;
    }
    true
}

/// [`collect_new_pairs`], after checking that every id lies below `n`; the
/// error when one does not.
pub fn try_collect_new_pairs(depth: usize, n: usize, init: &[u32], recipe: &RecipeSet) -> (r: Result<(Vec<Pair>, u64), CapacityExceeded>)
    requires
        recipe.wf(),
    ensures
        r is Err <==> !fits(n, init@, recipe),
        r matches Err(e) ==> e.n == n,
        r matches Ok(res) ==> {
            &&& fresh_pairs(recipe@, res.0@)
            &&& depth > 0 ==> codes(res.0@) == new_pair_codes(recipe@, n as nat, init@, depth as nat)
            &&& depth > 0 ==> res.1 as nat == new_set_count(recipe@, n as nat, init@, depth as nat)
            &&& depth == 0 ==> res.1 == 1
            &&& depth == 0 ==> forall|k: int| 0 <= k < res.0@.len() ==> init@.contains((#[trigger] res.0@[k])@.0) && init@.contains(res.0@[k]@.1)
            &&& depth == 0 ==> forall|a: int, b: int|
                0 <= a < init@.len() && 0 <= b < init@.len() && !recipe@.contains_key((init@[a], init@[b]))
                    ==> exists|k: int| 0 <= k < res.0@.len() && (#[trigger] res.0@[k])@ == (#[trigger] init@[a], #[trigger] init@[b])
        },
{
    if !check_fits(n, init, recipe) {
        return Err(CapacityExceeded { n });
    }
    Ok(collect_new_pairs(depth, n, init, recipe))
}

/// The deepest point at which the enumeration is split for the parallel fan-out.
pub const MAX_PREFIX: usize = 5;

} // verus!
