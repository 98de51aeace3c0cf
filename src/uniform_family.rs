//! A family of generating sets of one cardinality: the smallest found so far,
//! with every distinct set of that size that was found, up to a width bound.
use vstd::prelude::*;

use crate::seqs::{
    ascending, compare, lemma_ascending_len, lemma_lex_order, lemma_union_ascending,
    lemma_with_item_len, lex_lt, merge_card, merge_ex, union, with_item,
};

verus! {

/// A family as a value: its cardinality (`usize::MAX` when nothing was
/// reached) and its members in ascending lexicographic order.
pub type FamilyModel = (usize, Seq<Seq<u32>>);

/// The cardinality that marks an unreached item.
pub const UNREACHED: usize = usize::MAX;

/// Members pairwise in strict lexicographic order.
pub open spec fn lex_sorted(m: Seq<Seq<u32>>) -> bool {
    forall|i: int, j: int| 0 <= i < j < m.len() ==> lex_lt(m[i], m[j])
}

/// A well-formed family: every member an ascending sequence of exactly
/// `card` ids, the members sorted and distinct; the empty family when
/// unreached, the family of the empty set when the cardinality is 0.
pub open spec fn family_wf(f: FamilyModel) -> bool {
    &&& f.0 == UNREACHED ==> f.1.len() == 0
    &&& f.0 == 0 ==> f.1 == seq![Seq::<u32>::empty()]
    &&& f.0 != UNREACHED ==> f.0 <= 4294967296
    &&& forall|i: int| 0 <= i < f.1.len() ==> (#[trigger] f.1[i]).len() == f.0 && ascending(f.1[i])
    &&& lex_sorted(f.1)
}

/// Where `x` goes in the sorted `m`: after the members before it.
pub open spec fn insert_pos(m: Seq<Seq<u32>>, x: Seq<u32>) -> nat
    decreases m.len(),
{
    if m.len() == 0 || !lex_lt(m[0], x) {
        0
    } else {
        1 + insert_pos(m.drop_first(), x)
    }
}

/// The insertion point lies within the members.
pub proof fn lemma_insert_pos_bound(m: Seq<Seq<u32>>, x: Seq<u32>)
    ensures
        insert_pos(m, x) <= m.len(),
    decreases m.len(),
{
    if m.len() > 0 {
        lemma_insert_pos_bound(m.drop_first(), x);
    }
}

/// The candidate set made from a set of each side and the result item:
/// their sorted union, with the result added.
pub open spec fn candidate(s1: Seq<u32>, s2: Seq<u32>, u3: u32) -> Seq<u32> {
    with_item(union(s1, s2), u3)
}

/// One candidate offered to a family: a larger one (or one too long to
/// count) is ignored; a smaller one
/// replaces the family; one of the family's size joins it unless the family
/// is full or holds it already. The flag says whether the family changed.
pub open spec fn add_one(f: FamilyModel, cand: Seq<u32>, max_len: usize) -> (FamilyModel, bool) {
    if f.0 < cand.len() || cand.len() >= UNREACHED {
        (f, false)
    } else {
        let shrink = cand.len() < f.0;
        let base: FamilyModel = if shrink { (cand.len() as usize, Seq::empty()) } else { f };
        if max_len <= base.1.len() || base.1.contains(cand) {
            (base, shrink)
        } else {
            ((base.0, base.1.insert(insert_pos(base.1, cand) as int, cand)), true)
        }
    }
}

/// The candidates of `s1` with each member of `s2`, offered in order.
pub open spec fn merge_one(f: FamilyModel, s1: Seq<u32>, s2: Seq<Seq<u32>>, u3: u32, max_len: usize) -> (FamilyModel, bool)
    decreases s2.len(),
{
    if s2.len() == 0 {
        (f, false)
    } else {
        let (g, a) = merge_one(f, s1, s2.drop_last(), u3, max_len);
        let (h, b) = add_one(g, candidate(s1, s2.last(), u3), max_len);
        (h, a || b)
    }
}

/// The candidates of every member of `s1` with every member of `s2`, in order.
pub open spec fn merge_all(f: FamilyModel, s1: Seq<Seq<u32>>, s2: Seq<Seq<u32>>, u3: u32, max_len: usize) -> (FamilyModel, bool)
    decreases s1.len(),
{
    if s1.len() == 0 {
        (f, false)
    } else {
        let (g, a) = merge_all(f, s1.drop_last(), s2, u3, max_len);
        let (h, b) = merge_one(g, s1.last(), s2, u3, max_len);
        (h, a || b)
    }
}

/// A family of equal-size generating sets for one item.
pub struct UniformFamily {
    card: usize,
    sets: Vec<Vec<u32>>,
}

impl UniformFamily {
    pub closed spec fn view(&self) -> FamilyModel {
        (self.card, self.sets@.map_values(|v: Vec<u32>| v@))
    }

    pub open spec fn wf(&self) -> bool {
        family_wf(self@)
    }

    /// The family of an unreached item.
    pub fn new() -> (r: UniformFamily)
        ensures
            r@ == (UNREACHED, Seq::<Seq<u32>>::empty()),
            r.wf(),
    {
        let r = UniformFamily { card: UNREACHED, sets: Vec::new() };
        assert(r@.1 =~= Seq::<Seq<u32>>::empty());
        r
    }

    pub fn card(&self) -> (r: usize)
        ensures
            r == self@.0,
    {
        self.card
    }

    /// Makes the family that of an unreached item.
    pub fn clear(&mut self)
        ensures
            final(self)@ == (UNREACHED, Seq::<Seq<u32>>::empty()),
            final(self).wf(),
    {
        self.card = UNREACHED;
        self.sets.clear();
        assert(self@.1 =~= Seq::<Seq<u32>>::empty());
    }

    /// Makes the family that of a source item: the empty set alone.
    pub fn set_single_empty(&mut self)
        ensures
            final(self)@ == (0usize, seq![Seq::<u32>::empty()]),
            final(self).wf(),
    {
        self.card = 0;
        self.sets.clear();
        self.sets.push(Vec::new());
        assert(self@.1 =~= seq![Seq::<u32>::empty()]);
    }

    /// Whether the item is unreached.
    pub fn is_empty(&self) -> (r: bool)
        ensures
            r == (self@.0 == UNREACHED),
    {
        self.card == UNREACHED
    }

    /// The number of members.
    pub fn len(&self) -> (r: usize)
        ensures
            r == self@.1.len(),
    {
        self.sets.len()
    }

    /// The members, in ascending lexicographic order.
    pub fn iter(&self) -> (r: &[Vec<u32>])
        ensures
            r@.len() == self@.1.len(),
            forall|i: int| 0 <= i < r@.len() ==> (#[trigger] r@[i])@ == self@.1[i],
    {
        self.sets.as_slice()
    }

    /// Brings the members into ascending order without duplicates. They are
    /// kept so at every step, so the family stays as it is.
    pub fn sort_dedup(&mut self)
        requires
            old(self).wf(),
        ensures
            final(self)@ == old(self)@,
            lex_sorted(final(self)@.1),
    {
    }

    /// Offers the candidates of `set1` with every member of `sets2`, with
    /// `u3` added, keeping at most `max_len` members. Returns whether the
    /// family changed.
    pub fn add_merge_1(&mut self, set1: &[u32], sets2: &UniformFamily, u3: u32, max_len: usize) -> (r: bool)
        requires
            old(self).wf(),
            sets2.wf(),
            ascending(set1@),
        ensures
            final(self).wf(),
            (final(self)@, r) == merge_one(old(self)@, set1@, sets2@.1, u3, max_len),
    {
        let ghost f0 = self@;
        let ghost s2 = sets2@.1;
        let mut updated = false;
        let in1 = has(set1, u3);
        let mut j: usize = 0;
        proof {
            lemma_ascending_len(set1@);
            assert(s2.take(0) =~= Seq::<Seq<u32>>::empty());
        }
        while j < sets2.sets.len()
            invariant
                j <= s2.len(),
                s2 == sets2@.1,
                sets2.wf(),
                ascending(set1@),
                set1@.len() <= 4294967296,
                in1 == set1@.contains(u3),
                self.wf(),
                (self@, updated) == merge_one(f0, set1@, s2.take(j as int), u3, max_len),
            decreases s2.len() - j,
        {
            let set2 = sets2.sets[j].as_slice();
            let ghost cand = candidate(set1@, set2@, u3);
            proof {
                assert(set2@ == s2[j as int]);
                lemma_ascending_len(set2@);
                lemma_union_ascending(set1@, set2@);
                lemma_with_item_len(union(set1@, set2@), u3);
                lemma_union_ascending(union(set1@, set2@), seq![u3]);
                assert(ascending(seq![u3]));
                assert(seq![u3].contains(u3)) by {
                    assert(seq![u3][0] == u3);
                }
                assert(cand.contains(u3));
                lemma_ascending_len(cand);
                assert(s2.take(j + 1).drop_last() =~= s2.take(j as int));
                assert(s2.take(j + 1).last() == s2[j as int]);
            }
            let in3 = in1 || has(set2, u3);
            let c3: u64 = merge_card(set1, set2) + if in3 { 0 } else { 1 };
            assert(c3 == cand.len());
            if (self.card as u64) < c3 || c3 >= UNREACHED as u64 {
                j += 1;
                continue;
            }
            if c3 < self.card as u64 {
                self.card = c3 as usize;
                self.sets.clear();
                updated = true;
                proof {
                    assert(self@.1 =~= Seq::<Seq<u32>>::empty());
                }
            }
            if max_len <= self.sets.len() {
                j += 1;
                continue;
            }
            let mut out: Vec<u32> = Vec::new();
            merge_ex(set1, set2, u3, &mut out);
            proof {
                assert(out@ =~= cand);
            }
            let inserted = insert_member(&mut self.sets, out, self.card);
            if inserted {
                updated = true;
            }
            j += 1;
        }
        proof {
            assert(s2.take(j as int) =~= s2);
        }
        updated
    }

    /// Offers the candidates of every member of `sets1` with every member of
    /// `sets2`, with `u3` added, keeping at most `max_len` members. Returns
    /// whether the family changed.
    pub fn add_merge(&mut self, sets1: &UniformFamily, sets2: &UniformFamily, u3: u32, max_len: usize) -> (r: bool)
        requires
            old(self).wf(),
            sets1.wf(),
            sets2.wf(),
        ensures
            final(self).wf(),
            (final(self)@, r) == merge_all(old(self)@, sets1@.1, sets2@.1, u3, max_len),
    {
        let ghost f0 = self@;
        let ghost s1 = sets1@.1;
        let mut updated = false;
        let mut i: usize = 0;
        proof {
            assert(s1.take(0) =~= Seq::<Seq<u32>>::empty());
        }
        while i < sets1.sets.len()
            invariant
                i <= s1.len(),
                s1 == sets1@.1,
                sets1.wf(),
                sets2.wf(),
                self.wf(),
                (self@, updated) == merge_all(f0, s1.take(i as int), sets2@.1, u3, max_len),
            decreases s1.len() - i,
        {
            let set1 = sets1.sets[i].as_slice();
            proof {
                assert(set1@ == s1[i as int]);
                assert(s1.take(i + 1).drop_last() =~= s1.take(i as int));
                assert(s1.take(i + 1).last() == s1[i as int]);
            }
            let u = self.add_merge_1(set1, sets2, u3, max_len);
            if u {
                updated = true;
            }
            i += 1;
        }
        proof {
            assert(s1.take(i as int) =~= s1);
        }
        updated
    }
}

impl Default for UniformFamily {
    fn default() -> (r: UniformFamily)
        ensures
            r@ == (UNREACHED, Seq::<Seq<u32>>::empty()),
    {
        UniformFamily::new()
    }
}

/// Whether `s` holds `x`.
fn has(s: &[u32], x: u32) -> (r: bool)
    ensures
        r == s@.contains(x),
{
    let mut i: usize = 0;
    while i < s.len()
        invariant
            i <= s@.len(),
            forall|k: int| 0 <= k < i ==> s@[k] != x,
        decreases s@.len() - i,
    {
        if s[i] == x {
            return true;
        }
        i += 1;
    }
    false
}

proof fn lemma_insert_pos_skip(m: Seq<Seq<u32>>, x: Seq<u32>, p: int)
    requires
        0 <= p < m.len(),
        lex_lt(m[p], x),
    ensures
        insert_pos(m.skip(p), x) == 1 + insert_pos(m.skip(p + 1), x),
{
    assert(m.skip(p).drop_first() =~= m.skip(p + 1));
}

proof fn lemma_insert_position(card: usize, m: Seq<Seq<u32>>, x: Seq<u32>, p: int)
    requires
        family_wf((card, m)),
        card != UNREACHED,
        x.len() == card,
        ascending(x),
        0 <= p <= m.len(),
        forall|k: int| 0 <= k < p ==> lex_lt(#[trigger] m[k], x),
        p < m.len() ==> !lex_lt(m[p], x),
    ensures
        m.contains(x) == (p < m.len() && m[p] == x),
        !m.contains(x) ==> family_wf((card, m.insert(p, x))),
{
    let found = p < m.len() && m[p] == x;
    if !found && p < m.len() {
        lemma_lex_order(m[p], x, x);
        assert(lex_lt(x, m[p]));
    }
    assert forall|k: int| p < k < m.len() implies lex_lt(x, #[trigger] m[k]) by {
        lemma_lex_order(x, m[p], m[k]);
        lemma_lex_order(m[p], x, m[k]);
    }
    if m.contains(x) {
        let k = choose|k: int| 0 <= k < m.len() && m[k] == x;
        lemma_lex_order(x, x, x);
        if k < p {
            assert(lex_lt(m[k], x));
        }
        if k > p {
            assert(lex_lt(x, m[k]));
        }
    }
    if found {
        assert(m.contains(x));
    }
    if !m.contains(x) {
        let m2 = m.insert(p, x);
        assert forall|i: int, j: int| 0 <= i < j < m2.len() implies lex_lt(m2[i], m2[j]) by {
            if j < p {
                assert(m2[i] == m[i] && m2[j] == m[j]);
            } else if j == p {
                assert(m2[i] == m[i]);
            } else if i < p {
                assert(m2[i] == m[i] && m2[j] == m[j - 1]);
                lemma_lex_order(m[i], x, m[j - 1]);
            } else if i == p {
                assert(m2[j] == m[j - 1]);
            } else {
                assert(m2[i] == m[i - 1] && m2[j] == m[j - 1]);
            }
        }
        assert forall|i: int| 0 <= i < m2.len() implies (#[trigger] m2[i]).len() == card && ascending(m2[i]) by {
            if i < p {
                assert(m2[i] == m[i]);
            } else if i > p {
                assert(m2[i] == m[i - 1]);
            }
        }
        if card == 0 {
            assert(m.len() == 1 && m[0].len() == 0 && x.len() == 0);
            assert(x =~= m[0]);
            assert(m.contains(x));
        }
    }
}

/// Adds `x` to the sorted members unless it is there; returns whether it was added.
fn insert_member(sets: &mut Vec<Vec<u32>>, x: Vec<u32>, card: usize) -> (r: bool)
    requires
        family_wf((card, old(sets)@.map_values(|v: Vec<u32>| v@))),
        card != UNREACHED,
        card != 0,
        x@.len() == card,
        ascending(x@),
    ensures
        ({
            let m = old(sets)@.map_values(|v: Vec<u32>| v@);
            &&& r == !m.contains(x@)
            &&& final(sets)@.map_values(|v: Vec<u32>| v@) == if r {
                m.insert(insert_pos(m, x@) as int, x@)
            } else {
                m
            }
        }),
        family_wf((card, final(sets)@.map_values(|v: Vec<u32>| v@))),
{
    let ghost m = sets@.map_values(|v: Vec<u32>| v@);
    let mut p: usize = 0;
    let mut stop = false;
    proof {
        assert(m.skip(0) =~= m);
    }
    while p < sets.len() && !stop
        invariant
            p <= m.len(),
            stop ==> p < m.len() && !lex_lt(m[p as int], x@),
            m == sets@.map_values(|v: Vec<u32>| v@),
            forall|k: int| 0 <= k < p ==> lex_lt(#[trigger] m[k], x@),
            insert_pos(m, x@) == p + insert_pos(m.skip(p as int), x@),
            family_wf((card, m)),
            x@.len() == card,
        decreases m.len() - p + (if stop { 0int } else { 1int }),
    {
        let (lt, _) = compare(sets[p].as_slice(), x.as_slice());
        if !lt {
            stop = true;
        } else {
            proof {
                lemma_insert_pos_skip(m, x@, p as int);
            }
            p += 1;
        }
    }
    let found = if p < sets.len() {
        let (_, eq) = compare(sets[p].as_slice(), x.as_slice());
        eq
    } else {
        false
    };
    proof {
        lemma_insert_position(card, m, x@, p as int);
        if p < m.len() {
            assert(m.skip(p as int)[0] == m[p as int]);
        }
        assert(insert_pos(m.skip(p as int), x@) == 0);
    }
    if found {
        return false;
    }
    let ghost xv = x@;
    sets.insert(p, x);
    proof {
        assert(sets@.map_values(|v: Vec<u32>| v@) =~= m.insert(p as int, xv));
    }
    true
}

} // verus!
