//! Sorted sequences of item ids: the sorted union of two of them, and the
//! lexicographic order among sequences of one length.
use vstd::prelude::*;

verus! {

/// Strictly ascending: sorted and free of duplicates.
pub open spec fn ascending(s: Seq<u32>) -> bool {
    forall|i: int, j: int| 0 <= i < j < s.len() ==> s[i] < s[j]
}

/// The sorted union of two ascending sequences, by the usual two-way merge.
pub open spec fn union(a: Seq<u32>, b: Seq<u32>) -> Seq<u32>
    decreases a.len() + b.len(),
{
    if a.len() == 0 {
        b
    } else if b.len() == 0 {
        a
    } else if a[0] < b[0] {
        seq![a[0]] + union(a.drop_first(), b)
    } else if b[0] < a[0] {
        seq![b[0]] + union(a, b.drop_first())
    } else {
        seq![a[0]] + union(a.drop_first(), b.drop_first())
    }
}

/// `s` with `x` added in its sorted place, unless it is there already.
pub open spec fn with_item(s: Seq<u32>, x: u32) -> Seq<u32> {
    union(s, seq![x])
}

/// Strict lexicographic order on sequences (compared up to the shorter length).
pub open spec fn lex_lt(a: Seq<u32>, b: Seq<u32>) -> bool
    decreases a.len(),
{
    if a.len() == 0 || b.len() == 0 {
        false
    } else if a[0] != b[0] {
        a[0] < b[0]
    } else {
        lex_lt(a.drop_first(), b.drop_first())
    }
}

pub proof fn lemma_union_contains(a: Seq<u32>, b: Seq<u32>)
    ensures
        forall|x: u32| #[trigger] union(a, b).contains(x) <==> (a.contains(x) || b.contains(x)),
    decreases a.len() + b.len(),
{
    if a.len() == 0 || b.len() == 0 {
    } else if a[0] < b[0] {
        lemma_union_contains(a.drop_first(), b);
        assert forall|x: u32| #[trigger] union(a, b).contains(x) <==> (a.contains(x) || b.contains(x)) by {
            lemma_cons_contains(a, x);
            lemma_cons_contains(seq![a[0]] + union(a.drop_first(), b), x);
            assert((seq![a[0]] + union(a.drop_first(), b)).drop_first() =~= union(a.drop_first(), b));
        }
    } else if b[0] < a[0] {
        lemma_union_contains(a, b.drop_first());
        assert forall|x: u32| #[trigger] union(a, b).contains(x) <==> (a.contains(x) || b.contains(x)) by {
            lemma_cons_contains(b, x);
            lemma_cons_contains(seq![b[0]] + union(a, b.drop_first()), x);
            assert((seq![b[0]] + union(a, b.drop_first())).drop_first() =~= union(a, b.drop_first()));
        }
    } else {
        lemma_union_contains(a.drop_first(), b.drop_first());
        assert forall|x: u32| #[trigger] union(a, b).contains(x) <==> (a.contains(x) || b.contains(x)) by {
            lemma_cons_contains(a, x);
            lemma_cons_contains(b, x);
            lemma_cons_contains(seq![a[0]] + union(a.drop_first(), b.drop_first()), x);
            assert((seq![a[0]] + union(a.drop_first(), b.drop_first())).drop_first()
                =~= union(a.drop_first(), b.drop_first()));
        }
    }
}

proof fn lemma_cons_contains(s: Seq<u32>, x: u32)
    requires
        s.len() > 0,
    ensures
        s.contains(x) <==> (s[0] == x || s.drop_first().contains(x)),
{
    if s.contains(x) && s[0] != x {
        let i = choose|i: int| 0 <= i < s.len() && s[i] == x;
        assert(s.drop_first()[i - 1] == x);
    }
    if s.drop_first().contains(x) {
        let i = choose|i: int| 0 <= i < s.drop_first().len() && s.drop_first()[i] == x;
        assert(s[i + 1] == x);
    }
    if s[0] == x {
        assert(s.contains(x));
    }
}

/// The sorted union of ascending sequences is ascending, and holds what both hold.
pub proof fn lemma_union_ascending(a: Seq<u32>, b: Seq<u32>)
    requires
        ascending(a),
        ascending(b),
    ensures
        ascending(union(a, b)),
        forall|x: u32| #[trigger] union(a, b).contains(x) <==> (a.contains(x) || b.contains(x)),
    decreases a.len() + b.len(),
{
    lemma_union_contains(a, b);
    if a.len() == 0 || b.len() == 0 {
    } else {
        let h: u32 = if a[0] <= b[0] { a[0] } else { b[0] };
        let ra = if a[0] <= b[0] { a.drop_first() } else { a };
        let rb = if b[0] <= a[0] { b.drop_first() } else { b };
        lemma_union_ascending(ra, rb);
        let r = union(ra, rb);
        assert(union(a, b) == seq![h] + r);
        assert forall|x: u32| r.contains(x) implies h < x by {
            if ra.contains(x) {
                let i = choose|i: int| 0 <= i < ra.len() && ra[i] == x;
                if a[0] <= b[0] {
                    assert(a[i + 1] == x);
                } else {
                    assert(b[0] < a[0] && a[i] == x);
                }
            } else {
                let i = choose|i: int| 0 <= i < rb.len() && rb[i] == x;
                if b[0] <= a[0] {
                    assert(b[i + 1] == x);
                } else {
                    assert(a[0] < b[0] && b[i] == x);
                }
            }
        }
        let u = union(a, b);
        assert forall|i: int, j: int| 0 <= i < j < u.len() implies u[i] < u[j] by {
            if i == 0 {
                assert(r.contains(u[j])) by {
                    assert(r[j - 1] == u[j]);
                }
            } else {
                assert(u[i] == r[i - 1] && u[j] == r[j - 1]);
            }
        }
    }
}

/// The size of the sorted union of an ascending `s` and `{x}`.
pub proof fn lemma_with_item_len(s: Seq<u32>, x: u32)
    requires
        ascending(s),
    ensures
        with_item(s, x).len() == s.len() + (if s.contains(x) { 0int } else { 1int }),
    decreases s.len(),
{
    let t = seq![x];
    assert(t.drop_first().len() == 0);
    if s.len() == 0 {
    } else if s[0] < x {
        assert(ascending(s.drop_first()));
        lemma_with_item_len(s.drop_first(), x);
        lemma_cons_contains(s, x);
    } else if x < s[0] {
        assert(union(s, t.drop_first()) == s);
        assert(union(s, t) == seq![x] + s);
        assert(!s.contains(x)) by {
            if s.contains(x) {
                let i = choose|i: int| 0 <= i < s.len() && s[i] == x;
                if i > 0 {
                    assert(s[0] < s[i]);
                }
            }
        }
    } else {
        assert(union(s.drop_first(), t.drop_first()) == s.drop_first());
        assert(union(s, t) =~= s);
        assert(s.contains(x)) by {
            assert(s[0] == x);
        }
    }
}

/// An ascending sequence of 32-bit ids has at most 2^32 members.
pub proof fn lemma_ascending_len(s: Seq<u32>)
    requires
        ascending(s),
    ensures
        s.len() <= 4294967296,
{
    assert forall|i: int| 0 <= i < s.len() implies s[i] >= i by {
        lemma_ascending_at_least(s, i);
    }
    if s.len() > 4294967296 {
        assert(s[4294967296] >= 4294967296);
    }
}

proof fn lemma_ascending_at_least(s: Seq<u32>, i: int)
    requires
        ascending(s),
        0 <= i < s.len(),
    ensures
        s[i] >= i,
    decreases i,
{
    if i > 0 {
        lemma_ascending_at_least(s, i - 1);
    }
}

proof fn lemma_union_step(a: Seq<u32>, b: Seq<u32>, i: int, j: int)
    requires
        0 <= i < a.len(),
        0 <= j < b.len(),
    ensures
        a[i] < b[j] ==> union(a.skip(i), b.skip(j)) == seq![a[i]] + union(a.skip(i + 1), b.skip(j)),
        b[j] < a[i] ==> union(a.skip(i), b.skip(j)) == seq![b[j]] + union(a.skip(i), b.skip(j + 1)),
        a[i] == b[j] ==> union(a.skip(i), b.skip(j)) == seq![a[i]] + union(a.skip(i + 1), b.skip(j + 1)),
{
    assert(a.skip(i).drop_first() =~= a.skip(i + 1));
    assert(b.skip(j).drop_first() =~= b.skip(j + 1));
}

/// Appends the sorted union of `a` and `b` to `out`.
pub fn merge(a: &[u32], b: &[u32], out: &mut Vec<u32>)
    ensures
        final(out)@ == old(out)@ + union(a@, b@),
{
    let ghost start = out@;
    let mut i: usize = 0;
    let mut j: usize = 0;
    assert(a@.skip(0) =~= a@ && b@.skip(0) =~= b@);
    while i < a.len() && j < b.len()
        invariant
            i <= a@.len(),
            j <= b@.len(),
            start + union(a@, b@) == out@ + union(a@.skip(i as int), b@.skip(j as int)),
        decreases a@.len() + b@.len() - i - j,
    {
        proof {
            lemma_union_step(a@, b@, i as int, j as int);
        }
        if a[i] < b[j] {
            out.push(a[i]);
            i += 1;
        } else if b[j] < a[i] {
            out.push(b[j]);
            j += 1;
        } else {
            out.push(a[i]);
            i += 1;
            j += 1;
        }
        proof {
            assert(start + union(a@, b@) == out@ + union(a@.skip(i as int), b@.skip(j as int)));
        }
    }
    while i < a.len()
        invariant
            i <= a@.len(),
            j <= b@.len(),
            i == a@.len() || j == b@.len(),
            start + union(a@, b@) == out@ + union(a@.skip(i as int), b@.skip(j as int)),
        decreases a@.len() - i,
    {
        proof {
            assert(b@.skip(j as int).len() == 0);
            assert(a@.skip(i as int).drop_first() =~= a@.skip(i + 1));
            assert(union(a@.skip(i as int), b@.skip(j as int)) == a@.skip(i as int));
            assert(union(a@.skip(i + 1), b@.skip(j as int)) == a@.skip(i + 1));
            assert(a@.skip(i as int) =~= seq![a@[i as int]] + a@.skip(i + 1));
        }
        out.push(a[i]);
        i += 1;
        proof {
            assert(start + union(a@, b@) == out@ + union(a@.skip(i as int), b@.skip(j as int)));
        }
    }
    while j < b.len()
        invariant
            i == a@.len(),
            j <= b@.len(),
            start + union(a@, b@) == out@ + union(a@.skip(i as int), b@.skip(j as int)),
        decreases b@.len() - j,
    {
        proof {
            assert(a@.skip(i as int).len() == 0);
            assert(b@.skip(j as int) =~= seq![b@[j as int]] + b@.skip(j + 1));
        }
        out.push(b[j]);
        j += 1;
        proof {
            assert(start + union(a@, b@) == out@ + union(a@.skip(i as int), b@.skip(j as int)));
        }
    }
    proof {
        assert(a@.skip(i as int).len() == 0 && b@.skip(j as int).len() == 0);
        assert(out@ =~= start + union(a@, b@));
    }
}

/// The size of the sorted union of `a` and `b`.
pub fn merge_card(a: &[u32], b: &[u32]) -> (r: u64)
    requires
        ascending(a@),
        ascending(b@),
    ensures
        r == union(a@, b@).len(),
        r <= a@.len() + b@.len(),
{
    proof {
        lemma_ascending_len(a@);
        lemma_ascending_len(b@);
    }
    let mut i: usize = 0;
    let mut j: usize = 0;
    let mut c: u64 = 0;
    assert(a@.skip(0) =~= a@ && b@.skip(0) =~= b@);
    while i < a.len() && j < b.len()
        invariant
            i <= a@.len(),
            j <= b@.len(),
            c <= i + j,
            a@.len() <= 4294967296,
            b@.len() <= 4294967296,
            union(a@, b@).len() == c + union(a@.skip(i as int), b@.skip(j as int)).len(),
        decreases a@.len() + b@.len() - i - j,
    {
        proof {
            lemma_union_step(a@, b@, i as int, j as int);
        }
        if a[i] < b[j] {
            i += 1;
        } else if b[j] < a[i] {
            j += 1;
        } else {
            i += 1;
            j += 1;
        }
        c += 1;
    }
    proof {
        if i == a@.len() {
            assert(a@.skip(i as int).len() == 0);
        } else {
            assert(b@.skip(j as int).len() == 0);
        }
    }
    c + (a.len() - i) as u64 + (b.len() - j) as u64
}

/// Appends to `out` the sorted union of `a`, `b` and `{u}`.
pub fn merge_ex(a: &[u32], b: &[u32], u: u32, out: &mut Vec<u32>)
    ensures
        final(out)@ == old(out)@ + with_item(union(a@, b@), u),
{
    let mut tmp: Vec<u32> = Vec::new();
    merge(a, b, &mut tmp);
    assert(tmp@ =~= union(a@, b@));
    let one: Vec<u32> = vec![u];
    assert(one@ =~= seq![u]);
    merge(tmp.as_slice(), one.as_slice(), out);
}

proof fn lemma_lex_irreflexive(a: Seq<u32>)
    ensures
        !lex_lt(a, a),
    decreases a.len(),
{
    if a.len() > 0 {
        lemma_lex_irreflexive(a.drop_first());
    }
}

proof fn lemma_lex_trans(a: Seq<u32>, b: Seq<u32>, c: Seq<u32>)
    ensures
        lex_lt(a, b) && lex_lt(b, c) ==> lex_lt(a, c),
    decreases a.len(),
{
    if a.len() > 0 && b.len() > 0 && c.len() > 0 {
        lemma_lex_trans(a.drop_first(), b.drop_first(), c.drop_first());
    }
}

proof fn lemma_lex_two(a: Seq<u32>, b: Seq<u32>)
    ensures
        a.len() == b.len() && a != b ==> lex_lt(a, b) || lex_lt(b, a),
        lex_lt(a, b) ==> !lex_lt(b, a),
    decreases a.len(),
{
    if a.len() > 0 && b.len() > 0 {
        lemma_lex_two(a.drop_first(), b.drop_first());
    }
    if a.len() == b.len() && a != b && a.len() > 0 {
        if a[0] == b[0] {
            assert(a.drop_first() != b.drop_first()) by {
                if a.drop_first() == b.drop_first() {
                    assert(a =~= b) by {
                        assert forall|k: int| 0 <= k < a.len() implies a[k] == b[k] by {
                            if k > 0 {
                                assert(a[k] == a.drop_first()[k - 1]);
                                assert(b[k] == b.drop_first()[k - 1]);
                            }
                        }
                    }
                }
            }
        }
    }
    if a.len() == b.len() && a.len() == 0 {
        assert(a =~= b);
    }
}

/// The lexicographic order is irreflexive, transitive and, on sequences of one
/// length, total.
pub proof fn lemma_lex_order(a: Seq<u32>, b: Seq<u32>, c: Seq<u32>)
    ensures
        !lex_lt(a, a),
        lex_lt(a, b) && lex_lt(b, c) ==> lex_lt(a, c),
        a.len() == b.len() && a != b ==> lex_lt(a, b) || lex_lt(b, a),
        lex_lt(a, b) ==> !lex_lt(b, a),
{
    lemma_lex_irreflexive(a);
    lemma_lex_trans(a, b, c);
    lemma_lex_two(a, b);
}

/// Whether `a` comes before `b`, and whether they are equal; both of one length.
pub fn compare(a: &[u32], b: &[u32]) -> (r: (bool, bool))
    requires
        a@.len() == b@.len(),
    ensures
        r.0 == lex_lt(a@, b@),
        r.1 == (a@ == b@),
{
    let mut i: usize = 0;
    assert(a@.skip(0) =~= a@ && b@.skip(0) =~= b@);
    while i < a.len()
        invariant
            a@.len() == b@.len(),
            i <= a@.len(),
            a@.take(i as int) == b@.take(i as int),
            lex_lt(a@, b@) == lex_lt(a@.skip(i as int), b@.skip(i as int)),
        decreases a@.len() - i,
    {
        proof {
            assert(a@.skip(i as int).drop_first() =~= a@.skip(i + 1));
            assert(b@.skip(i as int).drop_first() =~= b@.skip(i + 1));
        }
        if a[i] != b[i] {
            proof {
                if a@ == b@ {
                    assert(a@[i as int] == b@[i as int]);
                }
            }
            return (a[i] < b[i], false);
        }
        proof {
            assert(a@.take(i + 1) =~= a@.take(i as int).push(a@[i as int]));
            assert(b@.take(i + 1) =~= b@.take(i as int).push(b@[i as int]));
        }
        i += 1;
    }
    proof {
        assert(a@ =~= a@.take(i as int));
        assert(b@ =~= b@.take(i as int));
    }
    (false, true)
}

/// The candidate made from two ascending sequences and one more id is
/// ascending, holds at least that id, and so has between 1 and 2^32 members.
pub proof fn candidate_len_bound(a: Seq<u32>, b: Seq<u32>, u: u32)
    requires
        ascending(a),
        ascending(b),
    ensures
        ascending(with_item(union(a, b), u)),
        1 <= with_item(union(a, b), u).len() <= 4294967296,
{
    lemma_union_ascending(a, b);
    lemma_union_ascending(union(a, b), seq![u]);
    assert(seq![u].contains(u)) by {
        assert(seq![u][0] == u);
    }
    assert(with_item(union(a, b), u).contains(u));
    lemma_ascending_len(with_item(union(a, b), u));
}

} // verus!
