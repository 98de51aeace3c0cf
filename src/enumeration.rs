//! Redelmeier's enumeration as a resumable iterator: each call of `next`
//! extends or backtracks the current set by one item.
use vstd::prelude::*;

use crate::set_enum::Queue;

verus! {

/// Some entry of `q` is `x`.
pub open spec fn queued(q: Seq<u32>, x: int) -> bool {
    exists|k: int| 0 <= k < q.len() && q[k] as int == x
}

/// The frame pushed above a taken candidate at position `i`: it resumes
/// after `i`, and stops descending once `max_depth` frames stand.
pub open spec fn child_frame(i: usize, qt: usize, frames: nat, max_depth: usize) -> (usize, usize) {
    if frames < max_depth { ((i + 1) as usize, qt) } else { (usize::MAX, qt) }
}

/// One step of the enumeration from the queue and the stack of frames
/// `(next position, queue length when the frame began)`: the candidate the
/// topmost frame with one left takes (frames without one are dropped, with
/// the candidates they queued), the queue and stack after it, and the path
/// after dropping one item per dropped frame below another and adding the
/// candidate taken.
pub open spec fn advance(queue: Seq<u32>, stack: Seq<(usize, usize)>, path: Seq<u32>, max_depth: usize)
    -> (Option<u32>, Seq<u32>, Seq<(usize, usize)>, Seq<u32>)
    decreases stack.len(),
{
    if stack.len() == 0 {
        (None, queue, stack, path)
    } else {
        let (i, pqt) = stack.last();
        let rest = stack.drop_last();
        if (i as int) < queue.len() {
            let st = rest.push(((i + 1) as usize, pqt));
            (Some(queue[i as int]), queue, st.push(child_frame(i, queue.len() as usize, st.len(), max_depth)),
                path.push(queue[i as int]))
        } else {
            advance(queue.take(pqt as int), rest, if rest.len() > 0 { path.drop_last() } else { path }, max_depth)
        }
    }
}

/// Enumerates, by Redelmeier's method, the sets that grow from the items a
/// caller enqueues, up to `max_depth` items.
pub struct SetEnumeration {
    queue: Queue,
    stack: Vec<(usize, usize)>,
    max_depth: usize,
}

impl SetEnumeration {
    /// The candidates queued so far.
    pub closed spec fn queue_view(&self) -> Seq<u32> {
        self.queue.buf_view()
    }

    /// The blocked flags.
    pub closed spec fn blocked_view(&self) -> Seq<bool> {
        self.queue.blocked_view()
    }

    /// The flags the enumeration was made with.
    pub closed spec fn base_view(&self) -> Seq<bool> {
        self.queue.base_view()
    }

    /// The number of items in the current set.
    pub closed spec fn depth(&self) -> nat {
        if self.stack@.len() == 0 { 0 } else { (self.stack@.len() - 1) as nat }
    }

    /// The enumeration is over.
    pub closed spec fn finished(&self) -> bool {
        self.stack@.len() == 0
    }

    /// The frames: the next position and the queue length when each began.
    pub closed spec fn stack_view(&self) -> Seq<(usize, usize)> {
        self.stack@
    }

    pub closed spec fn max_depth_spec(&self) -> usize {
        self.max_depth
    }

    pub closed spec fn wf(&self) -> bool {
        &&& self.queue.wf()
        &&& self.queue.head_spec() == 0
        &&& forall|k: int| 0 <= k < self.stack@.len() ==> (#[trigger] self.stack@[k]).1 <= self.queue.buf_view().len()
        &&& forall|k: int, l: int| 0 <= k < l < self.stack@.len() ==> (#[trigger] self.stack@[k]).1 <= (#[trigger] self.stack@[l]).1
        &&& self.stack@.len() > 0 ==> self.stack@[0].1 == 0
        &&& self.stack@.len() == 0 ==> self.queue.buf_view().len() == 0
    }

    /// A fresh enumeration: nothing queued, the given items blocked.
    pub fn new(max_depth: usize, blocked: Vec<bool>) -> (r: SetEnumeration)
        ensures
            r.wf(),
            r.queue_view() == Seq::<u32>::empty(),
            r.blocked_view() == blocked@,
            r.base_view() == blocked@,
            r.depth() == 0,
            !r.finished(),
            r.max_depth_spec() == max_depth,
    {
        let mut stack: Vec<(usize, usize)> = Vec::new();
        stack.push((0, 0));
        SetEnumeration { queue: Queue::with_flags(blocked), stack, max_depth }
    }

    /// Queues `u` unless it is blocked, and blocks it.
    pub fn enqueue(&mut self, u: u32)
        requires
            old(self).wf(),
            !old(self).finished(),
            (u as int) < old(self).blocked_view().len(),
        ensures
            final(self).wf(),
            final(self).queue_view() == if old(self).blocked_view()[u as int] {
                old(self).queue_view()
            } else {
                old(self).queue_view().push(u)
            },
            final(self).blocked_view() == old(self).blocked_view().update(u as int, true),
            final(self).base_view() == old(self).base_view(),
            final(self).depth() == old(self).depth(),
            final(self).finished() == old(self).finished(),
            final(self).max_depth_spec() == old(self).max_depth_spec(),
    {
        self.queue.enqueue(u);
    }

    /// Moves to the next set: adds the next queued candidate, or backtracks
    /// and then adds one. Returns the item added, with `path` holding the
    /// current set; returns `None` when every set has been visited, with the
    /// queue empty and the blocked flags as they were at the start.
    pub fn next(&mut self, path: &mut Vec<u32>) -> (r: Option<u32>)
        requires
            old(self).wf(),
            old(path)@.len() == old(self).depth(),
        ensures
            final(self).wf(),
            final(self).base_view() == old(self).base_view(),
            final(self).max_depth_spec() == old(self).max_depth_spec(),
            final(path)@.len() == final(self).depth(),
            r is Some ==> !final(self).finished(),
            r is Some ==> final(path)@.len() > 0 && final(path)@.last() == r->0,
            r is Some ==> final(self).queue_view().contains(r->0),
            r is None ==> final(self).finished() && final(path)@.len() == 0,
            r is None ==> final(self).queue_view() == Seq::<u32>::empty(),
            r is None ==> final(self).blocked_view() == final(self).base_view(),
            (r, final(self).queue_view(), final(self).stack_view(), final(path)@)
                == advance(old(self).queue_view(), old(self).stack_view(), old(path)@, old(self).max_depth_spec()),
    {
        let ghost target = advance(self.queue.buf_view(), self.stack@, path@, self.max_depth);
        while self.stack.len() > 0
            invariant
                self.wf(),
                self.queue.base_view() == old(self).queue.base_view(),
                self.max_depth == old(self).max_depth,
                path@.len() == self.depth(),
                target == advance(old(self).queue.buf_view(), old(self).stack@, old(path)@, old(self).max_depth),
                target == advance(self.queue.buf_view(), self.stack@, path@, self.max_depth),
            decreases self.stack@.len(),
        {
            let ghost q1 = self.queue.buf_view();
            let ghost s1 = self.stack@;
            let ghost pa1 = path@;
            let top = self.stack.pop().unwrap();
            let i = top.0;
            let pqt = top.1;
            let qt = self.queue.tail();
            if i < qt {
                let u = self.queue.buf()[i];
                path.push(u);
                self.stack.push((i + 1, pqt));
                if self.stack.len() < self.max_depth {
                    self.stack.push((i + 1, qt));
                } else {
                    self.stack.push((usize::MAX, qt));
                }
                proof {
                    assert(q1.contains(u)) by {
                        assert(q1[i as int] == u);
                    }
                    let st = self.stack@;
                    assert forall|k: int, l: int| 0 <= k < l < st.len() implies (#[trigger] st[k]).1 <= (#[trigger] st[l]).1 by {
                        if l >= st.len() - 2 {
                            assert(st[k].1 <= pqt || k >= st.len() - 2);
                        }
                    }
                    assert(self.stack@ =~= s1.drop_last().push(((i + 1) as usize, pqt)).push(
                        child_frame(i, q1.len() as usize, s1.len() as nat, self.max_depth)));
                    assert(path@ =~= pa1.push(u));
                }
                return Some(u);
            }
            self.queue.truncate(pqt);
            if self.stack.len() > 0 {
                path.pop();
            }
            proof {
                assert(s1.last() == top);
                assert(self.stack@ == s1.drop_last());
                assert forall|k: int| 0 <= k < self.stack@.len() implies (#[trigger] self.stack@[k]).1 <= self.queue.buf_view().len() by {
                    assert(self.stack@[k] == s1[k]);
                    assert(s1[k].1 <= s1[s1.len() - 1].1);
                }
            }
        }
        proof {
            self.queue.lemma_blocked();
            assert(self.queue.blocked_view() =~= self.queue.base_view());
        }
        None
    }
}

} // verus!
