//! Mathematical model of the canonical range map: a sequence of
//! `(start, end)` pairs, half-open, strictly ascending and non-touching.

use vstd::prelude::*;

verus! {

/// Well-formedness of a canonical range sequence: every stored pair is a
/// non-empty half-open range, and consecutive ranges are separated by at
/// least one uncovered integer (`end < next_start` strictly).
/// Opaque, like `covers`: callers reason through the lemmas below.
#[verifier::opaque]
pub open spec fn wf_seq(m: Seq<(u64, u64)>) -> bool {
    &&& forall|i: int| 0 <= i < m.len() ==> (#[trigger] m[i]).0 < m[i].1
    &&& forall|i: int| 0 <= i && i + 1 < m.len() ==> (#[trigger] m[i]).1 < m[i + 1].0
}

/// Well-formedness everywhere except that the range at `pos` may reach
/// into its successors: all pairs are non-empty, consecutive ranges are
/// separated except possibly at `pos`, and the start right after `pos`
/// still lies strictly above the start at `pos`.
#[verifier::opaque]
pub open spec fn wf_except_after(m: Seq<(u64, u64)>, pos: int) -> bool {
    &&& forall|i: int| 0 <= i < m.len() ==> (#[trigger] m[i]).0 < m[i].1
    &&& forall|i: int|
        0 <= i && i + 1 < m.len() && i != pos ==> (#[trigger] m[i]).1 < m[i + 1].0
    &&& pos + 1 < m.len() ==> m[pos].0 < m[pos + 1].0
}

/// The empty sequence is canonical.
pub proof fn lemma_wf_empty(m: Seq<(u64, u64)>)
    requires
        m.len() == 0,
    ensures
        wf_seq(m),
{
    reveal(wf_seq);
}

/// Every stored range of a well-formed sequence is non-empty, and
/// consecutive ranges are separated.
pub proof fn lemma_wf_valid(m: Seq<(u64, u64)>, i: int)
    requires
        wf_seq(m),
        0 <= i < m.len(),
    ensures
        m[i].0 < m[i].1,
        i + 1 < m.len() ==> m[i].1 < m[i + 1].0,
{
    reveal(wf_seq);
}

/// Whether the integer `v` lies inside some stored half-open range.
/// Opaque: callers reason through the lemmas below, which keeps the
/// nested quantifier out of their way.
#[verifier::opaque]
pub open spec fn covers(m: Seq<(u64, u64)>, v: int) -> bool {
    exists|i: int| 0 <= i < m.len() && (#[trigger] m[i]).0 <= v < m[i].1
}

/// A stored range that contains `v` witnesses coverage.
pub proof fn lemma_covers_witness(m: Seq<(u64, u64)>, i: int, v: int)
    requires
        0 <= i < m.len(),
        m[i].0 <= v < m[i].1,
    ensures
        covers(m, v),
{
    reveal(covers);
}

/// An empty sequence covers nothing.
pub proof fn lemma_covers_empty(m: Seq<(u64, u64)>, v: int)
    requires
        m.len() == 0,
    ensures
        !covers(m, v),
{
    reveal(covers);
}

/// The number of integers covered by the sequence: the sum of the widths
/// of the stored ranges.
pub open spec fn total(m: Seq<(u64, u64)>) -> int
    decreases m.len(),
{
    if m.len() == 0 {
        0
    } else {
        total(m.drop_last()) + m.last().1 - m.last().0
    }
}

/// Widths add over concatenation.
pub proof fn lemma_total_split(a: Seq<(u64, u64)>, b: Seq<(u64, u64)>)
    ensures
        total(a + b) == total(a) + total(b),
    decreases b.len(),
{
    if b.len() == 0 {
        assert(a + b =~= a);
    } else {
        assert((a + b).drop_last() =~= a + b.drop_last());
        assert((a + b).last() == b.last());
        lemma_total_split(a, b.drop_last());
    }
}

/// The total width of a single-element sequence is that range's width.
pub proof fn lemma_total_singleton(p: (u64, u64))
    ensures
        total(seq![p]) == p.1 - p.0,
{
    let s = seq![p];
    assert(s.drop_last() =~= Seq::<(u64, u64)>::empty());
    assert(total(s.drop_last()) == 0);
    assert(s.last() == p);
}

/// Decomposition of the total width around one index.
pub proof fn lemma_total_parts(m: Seq<(u64, u64)>, i: int)
    requires
        0 <= i < m.len(),
    ensures
        total(m) == total(m.subrange(0, i)) + (m[i].1 - m[i].0) + total(
            m.subrange(i + 1, m.len() as int),
        ),
{
    let a = m.subrange(0, i);
    let p = seq![m[i]];
    let c = m.subrange(i + 1, m.len() as int);
    assert(m =~= a + p + c);
    lemma_total_split(a + p, c);
    lemma_total_split(a, p);
    lemma_total_singleton(m[i]);
}

/// Inserting a range adds its width to the total.
pub proof fn lemma_total_insert(m: Seq<(u64, u64)>, k: int, p: (u64, u64))
    requires
        0 <= k <= m.len(),
    ensures
        total(m.insert(k, p)) == total(m) + p.1 - p.0,
{
    let t = m.insert(k, p);
    lemma_total_parts(t, k);
    assert(t.subrange(0, k) =~= m.subrange(0, k));
    assert(t.subrange(k + 1, t.len() as int) =~= m.subrange(k, m.len() as int));
    lemma_total_split(m.subrange(0, k), m.subrange(k, m.len() as int));
    assert(m =~= m.subrange(0, k) + m.subrange(k, m.len() as int));
}

/// Removing a range subtracts its width from the total.
pub proof fn lemma_total_remove(m: Seq<(u64, u64)>, k: int)
    requires
        0 <= k < m.len(),
    ensures
        total(m.remove(k)) == total(m) - (m[k].1 - m[k].0),
{
    let t = m.remove(k);
    lemma_total_parts(m, k);
    lemma_total_split(m.subrange(0, k), m.subrange(k + 1, m.len() as int));
    assert(t =~= m.subrange(0, k) + m.subrange(k + 1, m.len() as int));
}

/// Replacing a range changes the total by the difference of the widths.
pub proof fn lemma_total_update(m: Seq<(u64, u64)>, k: int, p: (u64, u64))
    requires
        0 <= k < m.len(),
    ensures
        total(m.update(k, p)) == total(m) - (m[k].1 - m[k].0) + (p.1 - p.0),
{
    let t = m.update(k, p);
    lemma_total_parts(m, k);
    lemma_total_parts(t, k);
    assert(t.subrange(0, k) =~= m.subrange(0, k));
    assert(t.subrange(k + 1, t.len() as int) =~= m.subrange(k + 1, m.len() as int));
}

/// Every width is non-negative, so the total is at least any one width.
pub proof fn lemma_total_nonneg(m: Seq<(u64, u64)>)
    requires
        forall|i: int| 0 <= i < m.len() ==> (#[trigger] m[i]).0 < m[i].1,
    ensures
        total(m) >= 0,
    decreases m.len(),
{
    if m.len() > 0 {
        lemma_total_nonneg(m.drop_last());
    }
}

/// The total is at least the width of any single stored range.
pub proof fn lemma_total_entry_bound(m: Seq<(u64, u64)>, i: int)
    requires
        forall|i: int| 0 <= i < m.len() ==> (#[trigger] m[i]).0 < m[i].1,
        0 <= i < m.len(),
    ensures
        total(m) >= m[i].1 - m[i].0,
{
    lemma_total_parts(m, i);
    lemma_total_nonneg(m.subrange(0, i));
    lemma_total_nonneg(m.subrange(i + 1, m.len() as int));
}

/// Starts and ends are strictly increasing across any two indices.
pub proof fn lemma_wf_sorted(m: Seq<(u64, u64)>, i: int, j: int)
    requires
        wf_seq(m),
        0 <= i < j < m.len(),
    ensures
        m[i].1 < m[j].0,
        m[i].0 < m[j].0,
        m[i].1 < m[j].1,
    decreases j - i,
{
    reveal(wf_seq);
    if j > i + 1 {
        lemma_wf_sorted(m, i, j - 1);
    }
}

/// A well-formed sequence covers at most the span from its first start to
/// its last end, so the total never exceeds the element domain size.
pub proof fn lemma_total_bound(m: Seq<(u64, u64)>)
    requires
        wf_seq(m),
    ensures
        total(m) <= u64::MAX,
        total(m) >= 0,
        m.len() > 0 ==> total(m) <= m.last().1 - m[0].0,
    decreases m.len(),
{
    reveal(wf_seq);
    lemma_total_nonneg(m);
    if m.len() == 1 {
        assert(m.drop_last() =~= Seq::<(u64, u64)>::empty());
        assert(total(m.drop_last()) == 0);
    } else if m.len() > 1 {
        let d = m.drop_last();
        assert(forall|i: int| 0 <= i < d.len() ==> #[trigger] d[i] == m[i]);
        lemma_total_bound(d);
        assert(d.last() == m[m.len() - 2]);
        assert(d[0] == m[0]);
        assert(m[m.len() - 2].1 < m.last().0);
        assert(total(m) == total(d) + m.last().1 - m.last().0);
    }
}

/// Coverage after inserting one range: exactly the old coverage plus the
/// new range's span.
pub proof fn lemma_covers_insert(m: Seq<(u64, u64)>, k: int, p: (u64, u64), v: int)
    requires
        0 <= k <= m.len(),
    ensures
        covers(m.insert(k, p), v) <==> (covers(m, v) || (p.0 <= v < p.1)),
{
    reveal(covers);
    let t = m.insert(k, p);
    m.insert_ensures(k, p);
    if covers(t, v) {
        let i = choose|i: int| 0 <= i < t.len() && (#[trigger] t[i]).0 <= v < t[i].1;
        if i < k {
            assert(m[i].0 <= v < m[i].1);
        } else if i > k {
            assert(m[i - 1].0 <= v < m[i - 1].1);
        }
    }
    if covers(m, v) {
        let i = choose|i: int| 0 <= i < m.len() && (#[trigger] m[i]).0 <= v < m[i].1;
        if i < k {
            assert(t[i].0 <= v < t[i].1);
        } else {
            assert(t[i + 1].0 <= v < t[i + 1].1);
        }
    }
    if p.0 <= v < p.1 {
        assert(t[k].0 <= v < t[k].1);
    }
}

/// Coverage after removing one range: what the rest covered, together with
/// the removed range's own span, is exactly the old coverage.
pub proof fn lemma_covers_remove(m: Seq<(u64, u64)>, k: int, v: int)
    requires
        0 <= k < m.len(),
    ensures
        (covers(m.remove(k), v) || (m[k].0 <= v < m[k].1)) <==> covers(m, v),
{
    reveal(covers);
    let t = m.remove(k);
    m.remove_ensures(k);
    if covers(t, v) {
        let i = choose|i: int| 0 <= i < t.len() && (#[trigger] t[i]).0 <= v < t[i].1;
        if i < k {
            assert(m[i].0 <= v < m[i].1);
        } else {
            assert(m[i + 1].0 <= v < m[i + 1].1);
        }
    }
    if covers(m, v) && !(m[k].0 <= v < m[k].1) {
        let i = choose|i: int| 0 <= i < m.len() && (#[trigger] m[i]).0 <= v < m[i].1;
        if i < k {
            assert(t[i].0 <= v < t[i].1);
        } else {
            assert(t[i - 1].0 <= v < t[i - 1].1);
        }
    }
}

/// Coverage after updating one range of a well-formed sequence in place.
pub proof fn lemma_covers_update(m: Seq<(u64, u64)>, k: int, p: (u64, u64), v: int)
    requires
        wf_seq(m),
        0 <= k < m.len(),
    ensures
        covers(m.update(k, p), v) <==> ((covers(m, v) && !(m[k].0 <= v < m[k].1)) || (p.0 <= v
            < p.1)),
{
    reveal(covers);
    reveal(wf_seq);
    let t = m.update(k, p);
    if covers(t, v) && !(p.0 <= v < p.1) {
        let i = choose|i: int| 0 <= i < t.len() && (#[trigger] t[i]).0 <= v < t[i].1;
        assert(i != k);
        assert(m[i].0 <= v < m[i].1);
        if m[k].0 <= v < m[k].1 {
            // two distinct well-formed ranges cannot both cover v
            if i < k {
                lemma_wf_sorted(m, i, k);
            } else {
                lemma_wf_sorted(m, k, i);
            }
        }
    }
    if covers(m, v) && !(m[k].0 <= v < m[k].1) {
        let i = choose|i: int| 0 <= i < m.len() && (#[trigger] m[i]).0 <= v < m[i].1;
        assert(i != k);
        assert(t[i].0 <= v < t[i].1);
    }
    if p.0 <= v < p.1 {
        assert(t[k].0 <= v < t[k].1);
    }
}

/// A sequence in which no stored range contains `v` does not cover `v`.
pub proof fn lemma_covers_none(m: Seq<(u64, u64)>, v: int)
    requires
        forall|i: int| 0 <= i < m.len() ==> !((#[trigger] m[i]).0 <= v < m[i].1),
    ensures
        !covers(m, v),
{
    reveal(covers);
}

/// A prefix of a well-formed sequence is well-formed.
pub proof fn lemma_wf_subrange(m: Seq<(u64, u64)>, a: int, b: int)
    requires
        wf_seq(m),
        0 <= a <= b <= m.len(),
    ensures
        wf_seq(m.subrange(a, b)),
{
    reveal(wf_seq);
}

/// Extending a prefix by one range extends its total by that width.
pub proof fn lemma_total_take_step(m: Seq<(u64, u64)>, i: int)
    requires
        0 <= i < m.len(),
    ensures
        total(m.subrange(0, i + 1)) == total(m.subrange(0, i)) + m[i].1 - m[i].0,
{
    assert(m.subrange(0, i + 1).drop_last() =~= m.subrange(0, i));
    assert(m.subrange(0, i + 1).last() == m[i]);
}

/// Extending a prefix by one range extends its coverage by that span.
pub proof fn lemma_covers_take_step(m: Seq<(u64, u64)>, i: int, v: int)
    requires
        0 <= i < m.len(),
    ensures
        covers(m.subrange(0, i + 1), v) <==> (covers(m.subrange(0, i), v) || (m[i].0 <= v
            < m[i].1)),
{
    assert(m.subrange(0, i + 1) =~= m.subrange(0, i).insert(i, m[i]));
    lemma_covers_insert(m.subrange(0, i), i, m[i], v);
}

/// The set of integers covered by a canonical range sequence.
pub open spec fn covered_set(m: Seq<(u64, u64)>) -> Set<int> {
    Set::new(|v: int| covers(m, v))
}

/// The tracked length counts exactly the distinct covered integers: the
/// sum of the stored widths is the cardinality of the covered set.
pub proof fn lemma_len_is_cardinality(m: Seq<(u64, u64)>)
    requires
        wf_seq(m),
    ensures
        covered_set(m).finite(),
        total(m) == covered_set(m).len(),
    decreases m.len(),
{
    reveal(wf_seq);
    reveal(covers);
    if m.len() == 0 {
        assert(covered_set(m) =~= Set::<int>::empty());
    } else {
        let d = m.drop_last();
        let p = m.last();
        assert(forall|i: int| 0 <= i < d.len() ==> #[trigger] d[i] == m[i]);
        lemma_len_is_cardinality(d);
        let rs = Set::new(|v: int| p.0 <= v < p.1);
        vstd::set_lib::lemma_int_range(p.0 as int, p.1 as int);
        assert(rs =~= vstd::set_lib::set_int_range(p.0 as int, p.1 as int));
        assert(rs.finite());
        assert(rs.len() == p.1 - p.0);
        assert forall|v: int| covered_set(d).contains(v) implies !rs.contains(v) by {
            let i = choose|i: int| 0 <= i < d.len() && (#[trigger] d[i]).0 <= v < d[i].1;
            if i < m.len() - 2 {
                lemma_wf_sorted(m, i, m.len() - 2);
            }
            assert(m[m.len() - 2].1 < p.0);
        }
        assert(covered_set(d).disjoint(rs));
        assert forall|v: int| covered_set(m).contains(v) implies (covered_set(d) + rs).contains(
            v,
        ) by {
            let i = choose|i: int| 0 <= i < m.len() && (#[trigger] m[i]).0 <= v < m[i].1;
            if i < m.len() - 1 {
                assert(d[i].0 <= v < d[i].1);
            }
        }
        assert(covered_set(m) =~= covered_set(d) + rs);
        vstd::set::axiom_set_union_finite(covered_set(d), rs);
        vstd::set_lib::lemma_set_disjoint_lens(covered_set(d), rs);
    }
}

/// The first stored range of a canonical sequence begins at the least
/// covered integer, so a sequence covering no less begins no later.
proof fn lemma_first_start_le(a: Seq<(u64, u64)>, b: Seq<(u64, u64)>)
    requires
        wf_seq(a),
        wf_seq(b),
        a.len() > 0,
        forall|v: int| covers(a, v) ==> covers(b, v),
    ensures
        b.len() > 0,
        b[0].0 <= a[0].0,
{
    reveal(wf_seq);
    reveal(covers);
    assert(covers(a, a[0].0 as int));
    let j = choose|j: int| 0 <= j < b.len() && (#[trigger] b[j]).0 <= a[0].0 < b[j].1;
    if j > 0 {
        lemma_wf_sorted(b, 0, j);
    }
}

/// Among canonical sequences with the same first start, the one covered
/// by the other has its first end no later.
proof fn lemma_first_end_le(a: Seq<(u64, u64)>, b: Seq<(u64, u64)>)
    requires
        wf_seq(a),
        wf_seq(b),
        a.len() > 0,
        b.len() > 0,
        a[0].0 == b[0].0,
        forall|v: int| covers(a, v) ==> covers(b, v),
    ensures
        a[0].1 <= b[0].1,
{
    reveal(wf_seq);
    reveal(covers);
    if a[0].1 > b[0].1 {
        // the integer b[0].1 is covered by a's first range but by none of b's
        let v = b[0].1 as int;
        assert(a[0].0 <= v < a[0].1);
        assert(covers(a, v));
        let j = choose|j: int| 0 <= j < b.len() && (#[trigger] b[j]).0 <= v < b[j].1;
        if j > 0 {
            lemma_wf_sorted(b, 0, j);
        }
    }
}

/// Canonical form is unique: two well-formed sequences covering exactly
/// the same integers are equal.
pub proof fn lemma_canonical_unique(a: Seq<(u64, u64)>, b: Seq<(u64, u64)>)
    requires
        wf_seq(a),
        wf_seq(b),
        forall|v: int| covers(a, v) <==> covers(b, v),
    ensures
        a == b,
    decreases a.len(),
{
    reveal(wf_seq);
    reveal(covers);
    if a.len() == 0 && b.len() == 0 {
        assert(a =~= b);
    } else if a.len() == 0 {
        assert(covers(b, b[0].0 as int));
        assert(false);
    } else if b.len() == 0 {
        assert(covers(a, a[0].0 as int));
        assert(false);
    } else {
        lemma_first_start_le(a, b);
        lemma_first_start_le(b, a);
        lemma_first_end_le(a, b);
        lemma_first_end_le(b, a);
        assert(a[0] == b[0]);
        let at = a.subrange(1, a.len() as int);
        let bt = b.subrange(1, b.len() as int);
        assert(forall|i: int| 0 <= i < at.len() ==> #[trigger] at[i] == a[i + 1]);
        assert(forall|i: int| 0 <= i < bt.len() ==> #[trigger] bt[i] == b[i + 1]);
        assert forall|v: int| covers(at, v) <==> covers(bt, v) by {
            if covers(at, v) {
                let i = choose|i: int| 0 <= i < at.len() && (#[trigger] at[i]).0 <= v < at[i].1;
                assert(a[i + 1].0 <= v < a[i + 1].1);
                lemma_wf_sorted(a, 0, i + 1);
                assert(covers(b, v));
                let j = choose|j: int| 0 <= j < b.len() && (#[trigger] b[j]).0 <= v < b[j].1;
                assert(j != 0);
                assert(bt[j - 1].0 <= v < bt[j - 1].1);
            }
            if covers(bt, v) {
                let i = choose|i: int| 0 <= i < bt.len() && (#[trigger] bt[i]).0 <= v < bt[i].1;
                assert(b[i + 1].0 <= v < b[i + 1].1);
                lemma_wf_sorted(b, 0, i + 1);
                assert(covers(a, v));
                let j = choose|j: int| 0 <= j < a.len() && (#[trigger] a[j]).0 <= v < a[j].1;
                assert(j != 0);
                assert(at[j - 1].0 <= v < at[j - 1].1);
            }
        }
        lemma_canonical_unique(at, bt);
        assert(a.len() == b.len());
        assert forall|i: int| 0 <= i < a.len() implies a[i] == b[i] by {
            if i > 0 {
                assert(at[i - 1] == bt[i - 1]);
            }
        }
        assert(a =~= b);
    }
}

/// One absorption step of the merge scan: removing the range right after
/// `pos` (which starts at or before `end`, the end of the range at `pos`)
/// keeps the running coverage account, where `prev` and `cur` are the
/// folded maximum end before and after the step.
pub proof fn lemma_absorb_step(
    orig: Seq<(u64, u64)>,
    pre: Seq<(u64, u64)>,
    pos: int,
    end: u64,
    prev: u64,
    cur: u64,
)
    requires
        0 <= pos,
        pos + 1 < pre.len(),
        wf_except_after(pre, pos),
        pre[pos].1 == end,
        pre[pos + 1].0 <= end,
        end <= prev,
        prev <= end || prev < pre[pos + 1].0,
        cur == (if pre[pos + 1].1 > prev {
            pre[pos + 1].1
        } else {
            prev
        }),
        forall|v: int| covers(orig, v) <==> (covers(pre, v) || (end <= v < prev)),
    ensures
        ({
            let t = pre.remove(pos + 1);
            &&& wf_except_after(t, pos)
            &&& t[pos] == pre[pos]
            &&& end <= cur
            &&& (pos + 1 < t.len() ==> (cur <= end || cur < t[pos + 1].0))
            &&& total(t) == total(pre) - (pre[pos + 1].1 - pre[pos + 1].0)
            &&& pre[pos + 1].0 < pre[pos + 1].1
            &&& total(pre) >= pre[pos + 1].1 - pre[pos + 1].0
            &&& (forall|v: int| covers(orig, v) <==> (covers(t, v) || (end <= v < cur)))
        }),
{
    reveal(wf_except_after);
    lemma_total_entry_bound(pre, pos + 1);
    let t = pre.remove(pos + 1);
    pre.remove_ensures(pos + 1);
    lemma_total_remove(pre, pos + 1);
    assert(forall|i: int| 0 <= i <= pos ==> #[trigger] t[i] == pre[i]);
    assert(forall|i: int| pos < i < t.len() ==> #[trigger] t[i] == pre[i + 1]);
    assert forall|i: int| 0 <= i && i + 1 < t.len() && i != pos implies (#[trigger] t[i]).1
        < t[i + 1].0 by {
        if i < pos {
            assert(t[i] == pre[i]);
            assert(t[i + 1] == pre[i + 1]);
        } else {
            assert(t[i] == pre[i + 1]);
            assert(t[i + 1] == pre[i + 2]);
        }
    }
    if pos + 1 < t.len() {
        assert(t[pos + 1] == pre[pos + 2]);
        assert(pre[pos + 1].1 < pre[pos + 2].0);
        assert(pre[pos].0 < pre[pos + 1].0);
        assert(pre[pos + 1].0 < pre[pos + 1].1);
    }
    assert forall|v: int| covers(orig, v) <==> (covers(t, v) || (end <= v < cur)) by {
        lemma_covers_remove(pre, pos + 1, v);
        if pre[pos + 1].0 <= v < pre[pos + 1].1 && v < end {
            assert(pre[pos].0 < pre[pos + 1].0);
            assert(t[pos].0 <= v < t[pos].1);
            lemma_covers_witness(t, pos, v);
        }
        if end <= v < cur && prev <= v {
            assert(pre[pos + 1].0 <= v < pre[pos + 1].1);
            lemma_covers_witness(pre, pos + 1, v);
        }
    }
}

/// The final extension step of the merge scan: once no following range
/// starts at or before `end`, setting the end at `pos` to the folded
/// maximum `cur` restores full well-formedness, and the result covers
/// exactly what the original sequence covered.
pub proof fn lemma_extend_step(
    orig: Seq<(u64, u64)>,
    pre: Seq<(u64, u64)>,
    pos: int,
    end: u64,
    cur: u64,
)
    requires
        0 <= pos < pre.len(),
        wf_except_after(pre, pos),
        pre[pos].1 == end,
        pos + 1 < pre.len() ==> end < pre[pos + 1].0,
        end <= cur,
        pos + 1 < pre.len() ==> (cur <= end || cur < pre[pos + 1].0),
        forall|v: int| covers(orig, v) <==> (covers(pre, v) || (end <= v < cur)),
    ensures
        wf_seq(pre),
        ({
            let t = pre.update(pos, (pre[pos].0, cur));
            &&& wf_seq(t)
            &&& total(t) == total(pre) + (cur - end)
            &&& (forall|v: int| covers(t, v) <==> covers(orig, v))
        }),
{
    reveal(wf_seq);
    reveal(wf_except_after);
    assert forall|i: int| 0 <= i && i + 1 < pre.len() implies (#[trigger] pre[i]).1 < pre[i
        + 1].0 by {}
    let p = (pre[pos].0, cur);
    let t = pre.update(pos, p);
    lemma_total_update(pre, pos, p);
    assert forall|i: int| 0 <= i && i + 1 < t.len() implies (#[trigger] t[i]).1 < t[i + 1].0 by {
        if i + 1 == pos {
            assert(t[i] == pre[i]);
        } else if i == pos {
            assert(t[i + 1] == pre[i + 1]);
        } else {
            assert(t[i] == pre[i]);
            assert(t[i + 1] == pre[i + 1]);
        }
    }
    assert forall|v: int| covers(t, v) <==> covers(orig, v) by {
        lemma_covers_update(pre, pos, p, v);
        if pre[pos].0 <= v < end {
            assert(pre[pos].0 <= v < pre[pos].1);
            lemma_covers_witness(pre, pos, v);
        }
        if end <= v < cur {
            assert(p.0 <= v < p.1);
        }
    }
}

/// Setting up a brand-new entry: inserting `[start, end)` at `idx`, where
/// the predecessor ends strictly before `start` and the successor starts
/// strictly after it, yields a sequence that is well-formed except that
/// the new entry may reach into its successors, and that covers exactly
/// the old coverage plus the new span.
#[verifier::rlimit(100)]
pub proof fn lemma_insert_setup(orig: Seq<(u64, u64)>, idx: int, start: u64, end: u64)
    requires
        0 <= idx <= orig.len(),
        start < end,
        wf_seq(orig),
        idx > 0 ==> orig[idx - 1].1 < start,
        idx < orig.len() ==> start < orig[idx].0,
    ensures
        ({
            let t = orig.insert(idx, (start, end));
            &&& wf_except_after(t, idx)
            &&& t[idx] == (start, end)
            &&& total(t) == total(orig) + (end - start)
            &&& (forall|v: int| covers(t, v) <==> (covers(orig, v) || (start <= v < end)))
        }),
{
    reveal(wf_seq);
    reveal(wf_except_after);
    let t = orig.insert(idx, (start, end));
    orig.insert_ensures(idx, (start, end));
    lemma_total_insert(orig, idx, (start, end));
    assert(forall|i: int| 0 <= i < idx ==> #[trigger] t[i] == orig[i]);
    assert(forall|i: int| idx < i < t.len() ==> #[trigger] t[i] == orig[i - 1]);
    assert(t[idx] == (start, end));
    assert forall|i: int| 0 <= i && i + 1 < t.len() && i != idx implies (#[trigger] t[i]).1
        < t[i + 1].0 by {
        if i + 1 < idx {
            assert(t[i] == orig[i]);
            assert(t[i + 1] == orig[i + 1]);
        } else if i + 1 == idx {
            assert(t[i] == orig[i]);
        } else {
            assert(t[i] == orig[i - 1]);
            assert(t[i + 1] == orig[i]);
        }
    }
    assert forall|v: int| covers(t, v) <==> (covers(orig, v) || (start <= v < end)) by {
        lemma_covers_insert(orig, idx, (start, end), v);
    }
}

/// Setting up an in-place extension: when the new range `[start, end)`
/// overlaps or touches the predecessor at `idx - 1` and reaches past its
/// end, raising that end to `end` gives a sequence well-formed except at
/// `idx - 1`, covering exactly the old coverage plus the new span.
pub proof fn lemma_extend_setup(orig: Seq<(u64, u64)>, idx: int, start: u64, end: u64)
    requires
        wf_seq(orig),
        0 < idx <= orig.len(),
        start < end,
        orig[idx - 1].0 <= start,
        start <= orig[idx - 1].1,
        orig[idx - 1].1 < end,
        idx < orig.len() ==> start < orig[idx].0,
    ensures
        ({
            let t = orig.update(idx - 1, (orig[idx - 1].0, end));
            &&& wf_except_after(t, idx - 1)
            &&& t[idx - 1].1 == end
            &&& total(t) == total(orig) + (end - orig[idx - 1].1)
            &&& (forall|v: int| covers(t, v) <==> (covers(orig, v) || (start <= v < end)))
        }),
{
    reveal(wf_seq);
    reveal(wf_except_after);
    let p = (orig[idx - 1].0, end);
    let t = orig.update(idx - 1, p);
    lemma_total_update(orig, idx - 1, p);
    assert forall|i: int| 0 <= i && i + 1 < t.len() && i != idx - 1 implies (#[trigger] t[i]).1
        < t[i + 1].0 by {
        if i + 1 == idx - 1 {
            assert(t[i] == orig[i]);
        } else {
            assert(t[i] == orig[i]);
            assert(t[i + 1] == orig[i + 1]);
        }
    }
    if idx < orig.len() {
        assert(t[idx - 1].0 == orig[idx - 1].0);
        assert(orig[idx - 1].0 <= start);
        assert(start < orig[idx].0);
        assert(t[idx] == orig[idx]);
    }
    assert forall|v: int| covers(t, v) <==> (covers(orig, v) || (start <= v < end)) by {
        lemma_covers_update(orig, idx - 1, p, v);
        if orig[idx - 1].0 <= v < orig[idx - 1].1 {
            lemma_covers_witness(orig, idx - 1, v);
        }
        if start <= v < end {
            assert(p.0 <= v < p.1);
        }
        if orig[idx - 1].1 <= v < end {
            assert(p.0 <= v < p.1);
        }
    }
}

} // verus!
