//! Lazy fusion of an arbitrary stream of inclusive ranges, arriving in
//! non-decreasing order of start, into the minimal sequence of merged,
//! pairwise disjoint and non-touching inclusive ranges; and a decorator
//! that keeps a running covered-element count over a stream already known
//! to be sorted and disjoint.

use vstd::prelude::*;

verus! {

/// Overflow-safe gap test on inclusive ranges: `a` and `b` are separated
/// by at least one uncovered integer.  Formulated with `>= min + 2` and
/// `- 2` so that no subtraction can underflow near the minimum value.
pub open spec fn gap_apart(a: (u64, u64), b: (u64, u64)) -> bool {
    ||| (b.0 >= 2 && a.1 <= b.0 - 2)
    ||| (a.0 >= 2 && b.1 <= a.0 - 2)
}

/// The canonical fusion of the input ranges from index `i` on, given the
/// optional pending accumulated range: empty inputs are skipped, inputs
/// that overlap or touch the pending range are merged into it, and the
/// pending range is emitted when a gap is found or the input ends.
pub open spec fn fuse_from(
    pending: Option<(u64, u64)>,
    m: Seq<(u64, u64)>,
    i: int,
) -> Seq<(u64, u64)>
    decreases m.len() - i,
{
    if !(0 <= i < m.len()) {
        match pending {
            Option::None => Seq::empty(),
            Option::Some(p) => seq![p],
        }
    } else {
        let nx = m[i];
        if nx.0 > nx.1 {
            fuse_from(pending, m, i + 1)
        } else {
            match pending {
                Option::None => fuse_from(Some(nx), m, i + 1),
                Option::Some(p) => if gap_apart(p, nx) {
                    seq![p] + fuse_from(Some(nx), m, i + 1)
                } else {
                    fuse_from(
                        Some(
                            (
                                if p.0 < nx.0 {
                                    p.0
                                } else {
                                    nx.0
                                },
                                if p.1 > nx.1 {
                                    p.1
                                } else {
                                    nx.1
                                },
                            ),
                        ),
                        m,
                        i + 1,
                    )
                },
            }
        }
    }
}

/// Converts a stream of inclusive ranges, assumed to arrive in
/// non-decreasing order of start but with no order on ends, possibly
/// overlapping or empty, into the minimal sequence of merged, pairwise
/// disjoint and non-touching inclusive ranges, one output at a time.
/// Holds exactly one optional pending range, plus the two derived
/// constants `min_value + 2` and `2` used by the overflow-safe gap test.
/// The designated maximum for an inclusive end is `u64::MAX` itself:
/// the wide length type is strictly wider than the element type, so
/// even the range covering the whole domain has a representable count,
/// and no input end can exceed the bound.
pub struct UnsortedDisjoint {
    ranges: Vec<(u64, u64)>,
    idx: usize,
    pending: Option<(u64, u64)>,
    min_value_plus_2: u64,
    two: u64,
}

impl UnsortedDisjoint {
    /// The fused ranges still to be produced.
    pub closed spec fn outputs(&self) -> Seq<(u64, u64)> {
        fuse_from(self.pending, self.ranges@, self.idx as int)
    }

    /// The input ranges not yet consumed.
    pub closed spec fn remaining_inputs(&self) -> int {
        self.ranges@.len() - self.idx as int
    }

    /// Whether a pending range is held.
    pub closed spec fn has_pending(&self) -> bool {
        self.pending is Some
    }

    /// The cursor stays in bounds and the derived constants hold their
    /// values.
    pub closed spec fn inv(&self) -> bool {
        &&& self.idx <= self.ranges@.len()
        &&& self.min_value_plus_2 == 2
        &&& self.two == 2
    }

    /// Take the whole input stream, to be consumed lazily.
    pub fn new(ranges: Vec<(u64, u64)>) -> (r: UnsortedDisjoint)
        ensures
            r.inv(),
            r.outputs() == fuse_from(None, ranges@, 0),
            r.remaining_inputs() == ranges@.len(),
            !r.has_pending(),
    {
        UnsortedDisjoint { ranges, idx: 0, pending: None, min_value_plus_2: 2, two: 2 }
    }

    /// The next maximal fused range, if any: one produced item may
    /// consume several input items, but never looks past the first gap.
    pub fn next(&mut self) -> (r: Option<(u64, u64)>)
        requires
            old(self).inv(),
        ensures
            final(self).inv(),
            old(self).outputs().len() == 0 ==> (r is None && final(self).outputs().len() == 0),
            old(self).outputs().len() > 0 ==> (r == Some(old(self).outputs()[0])
                && final(self).outputs() == old(self).outputs().drop_first()),
    {
        loop
            invariant
                self.inv(),
                self.outputs() == old(self).outputs(),
            decreases 2 * (self.ranges@.len() - self.idx as int) + (if self.pending is Some {
                1int
            } else {
                0int
            }),
        {
            let ghost pre = *self;
            if self.idx < self.ranges.len() {
                let nxs = self.ranges[self.idx].0;
                let nxe = self.ranges[self.idx].1;
                self.idx = self.idx + 1;
                if nxs > nxe {
                    proof {
                        assert(self.outputs() == pre.outputs());
                    }
                    continue ;
                }
                match self.pending {
                    None => {
                        self.pending = Some((nxs, nxe));
                        proof {
                            assert(self.outputs() == pre.outputs());
                        }
                    },
                    Some(p) => {
                        let ps = p.0;
                        let pe = p.1;
                        if (nxs >= self.min_value_plus_2 && pe <= nxs - self.two) || (ps
                            >= self.min_value_plus_2 && nxe <= ps - self.two) {
                            self.pending = Some((nxs, nxe));
                            proof {
                                assert(gap_apart((ps, pe), (nxs, nxe)));
                                assert(pre.outputs() == seq![(ps, pe)] + self.outputs());
                                assert(pre.outputs()[0] == (ps, pe));
                                assert(pre.outputs().drop_first() =~= self.outputs());
                            }
                            return Some((ps, pe));
                        } else {
                            let s = if ps < nxs {
                                ps
                            } else {
                                nxs
                            };
                            let e = if pe > nxe {
                                pe
                            } else {
                                nxe
                            };
                            self.pending = Some((s, e));
                            proof {
                                assert(!gap_apart((ps, pe), (nxs, nxe)));
                                assert(self.outputs() == pre.outputs());
                            }
                        }
                    },
                }
            } else {
                match self.pending {
                    Some(p) => {
                        self.pending = None;
                        proof {
                            assert(pre.outputs() =~= seq![p]);
                            assert(self.outputs() =~= Seq::<(u64, u64)>::empty());
                            assert(pre.outputs().drop_first() =~= self.outputs());
                        }
                        return Some(p);
                    },
                    None => {
                        proof {
                            assert(self.outputs() =~= Seq::<(u64, u64)>::empty());
                        }
                        return None;
                    },
                }
            }
        }
    }

    /// Consume the iterator and render every fused range in the
    /// inclusive `start..=end` form, joined by `", "`.
    pub fn to_string(self) -> (r: String)
        requires
            self.inv(),
        ensures
            r@ == crate::text::join_seq(
                crate::text::rendered_pairs_inclusive(self.outputs()),
                ", "@,
            ),
    {
        let ghost all = self.outputs();
        let mut it = self;
        let mut parts: Vec<String> = Vec::new();
        let mut done = false;
        proof {
            assert(all.subrange(0, 0) =~= Seq::<(u64, u64)>::empty());
            assert(crate::text::string_views(parts@)
                =~~= crate::text::rendered_pairs_inclusive(all.subrange(0, 0)));
        }
        while !done
            invariant
                it.inv(),
                parts@.len() <= all.len(),
                crate::text::string_views(parts@) == crate::text::rendered_pairs_inclusive(
                    all.subrange(0, parts@.len() as int),
                ),
                all.subrange(parts@.len() as int, all.len() as int) == it.outputs(),
                done ==> it.outputs().len() == 0,
            decreases it.outputs().len() + (if done {
                0int
            } else {
                1int
            }),
        {
            let ghost k = parts@.len() as int;
            let ghost pre_out = it.outputs();
            let res = it.next();
            match res {
                Some(p) => {
                    let ghost pre_parts = parts@;
                    let piece = crate::text::format_pair_inclusive(p.0, p.1);
                    parts.push(piece);
                    proof {
                        assert(pre_out.len() > 0);
                        assert(pre_out[0] == all.subrange(k, all.len() as int)[0]);
                        assert(p == all[k]);
                        assert(all.subrange(k + 1, all.len() as int) =~= pre_out.drop_first());
                        let lhs = crate::text::string_views(parts@);
                        let rhs = crate::text::rendered_pairs_inclusive(
                            all.subrange(0, k + 1),
                        );
                        assert(lhs == parts@.map_values(|s: String| s@));
                        assert(rhs == all.subrange(0, k + 1).map_values(
                            (|q: (u64, u64)| crate::text::render_pair_inclusive(q)),
                        ));
                        assert(lhs.len() == parts@.len());
                        assert(rhs.len() == k + 1);
                        assert(crate::text::string_views(pre_parts).len() == pre_parts.len());
                        assert(crate::text::rendered_pairs_inclusive(
                            all.subrange(0, k),
                        ).len() == k);
                        assert(pre_parts.len() == k);
                        assert(parts@.len() == k + 1);
                        assert forall|j: int| 0 <= j < lhs.len() implies lhs[j] == rhs[j] by {
                            assert(lhs[j] == parts@[j]@);
                            assert(rhs[j] == crate::text::render_pair_inclusive(
                                all.subrange(0, k + 1)[j],
                            ));
                            if j < k {
                                assert(parts@[j] == pre_parts[j]);
                                assert(crate::text::string_views(pre_parts)[j]
                                    == pre_parts[j]@);
                                assert(crate::text::rendered_pairs_inclusive(
                                    all.subrange(0, k),
                                )[j] == crate::text::render_pair_inclusive(
                                    all.subrange(0, k)[j],
                                ));
                            } else {
                                assert(parts@[j] == piece);
                            }
                        }
                        assert(lhs =~= rhs);
                    }
                },
                None => {
                    done = true;
                },
            }
        }
        proof {
            assert(it.outputs().len() == 0);
            assert(parts@.len() == all.len());
            assert(all.subrange(0, all.len() as int) =~= all);
        }
        crate::text::join_with(&parts, ", ")
    }

    /// A size estimate for the fused output still to come: at least one
    /// range is still produced while any input or a pending range
    /// remains non-trivially, and at most one output per remaining input
    /// plus one for a still-pending range.  An estimate only, not an
    /// exact count.
    pub fn size_hint(&self) -> (r: (usize, Option<usize>))
        requires
            self.inv(),
            self.remaining_inputs() < usize::MAX,
        ensures
            r.0 == (if self.remaining_inputs() == 0 {
                0int
            } else {
                1int
            }),
            r.1 == Some(
                (self.remaining_inputs() + (if self.has_pending() {
                    1int
                } else {
                    0int
                })) as usize,
            ),
    {
        let rem = self.ranges.len() - self.idx;
        let lower: usize = if rem == 0 {
            0
        } else {
            1
        };
        let upper: usize = if self.pending.is_some() {
            rem + 1
        } else {
            rem
        };
        (lower, Some(upper))
    }
}

/// A sequence of inclusive ranges that is sorted and disjoint in the
/// fused sense: every range is non-empty, and consecutive ranges are
/// separated by at least one uncovered integer.
pub open spec fn wf_sorted_disjoint_inclusive(m: Seq<(u64, u64)>) -> bool {
    &&& forall|i: int| 0 <= i < m.len() ==> (#[trigger] m[i]).0 <= m[i].1
    &&& forall|i: int| 0 <= i && i + 1 < m.len() ==> (#[trigger] m[i]).1 + 2 <= m[i + 1].0
}

/// The number of integers covered by the first `i` inclusive ranges.
pub open spec fn inc_total(m: Seq<(u64, u64)>, i: int) -> int
    decreases i,
{
    if i <= 0 {
        0
    } else {
        inc_total(m, i - 1) + (m[i - 1].1 - m[i - 1].0 + 1)
    }
}

/// Over a sorted-disjoint prefix the running count never exceeds one more
/// than the last produced end, so it fits the wide length type.
pub proof fn lemma_inc_total_bound(m: Seq<(u64, u64)>, i: int)
    requires
        wf_sorted_disjoint_inclusive(m),
        0 <= i <= m.len(),
    ensures
        0 <= inc_total(m, i),
        i > 0 ==> inc_total(m, i) <= m[i - 1].1 + 1,
    decreases i,
{
    if i > 0 {
        lemma_inc_total_bound(m, i - 1);
    }
}

/// Relies on num_traits::zero: the additive identity of `u128` is `0`.
#[verifier::external_body]
fn wide_len_zero() -> (r: u128)
    ensures
        r == 0,
{
    num_traits::zero()
}

/// Decorates a stream of inclusive ranges already known to be sorted and
/// disjoint with a running total of the elements covered by the ranges
/// produced so far, kept in the wide length type.
pub struct SortedDisjointWithLenSoFar {
    ranges: Vec<(u64, u64)>,
    idx: usize,
    len: u128,
}

impl SortedDisjointWithLenSoFar {
    /// The whole decorated input stream.
    pub closed spec fn inputs(&self) -> Seq<(u64, u64)> {
        self.ranges@
    }

    /// How many ranges have been produced so far.
    pub closed spec fn consumed(&self) -> int {
        self.idx as int
    }

    /// The running covered-element count, as a mathematical integer.
    pub closed spec fn spec_len_so_far(&self) -> int {
        self.len as int
    }

    /// The input is sorted-disjoint, the cursor is in bounds, and the
    /// running count equals the covered count of the produced prefix.
    pub closed spec fn inv(&self) -> bool {
        &&& wf_sorted_disjoint_inclusive(self.ranges@)
        &&& self.idx <= self.ranges@.len()
        &&& self.len as int == inc_total(self.ranges@, self.idx as int)
    }

    /// Decorate a sorted-disjoint stream, with the running count at zero.
    pub fn new(ranges: Vec<(u64, u64)>) -> (r: SortedDisjointWithLenSoFar)
        requires
            wf_sorted_disjoint_inclusive(ranges@),
        ensures
            r.inv(),
            r.inputs() == ranges@,
            r.consumed() == 0,
            r.spec_len_so_far() == 0,
    {
        SortedDisjointWithLenSoFar { ranges, idx: 0, len: wide_len_zero() }
    }

    /// The covered-element count of the ranges produced so far; the
    /// still-unproduced remainder is not counted.
    pub fn len_so_far(&self) -> (r: u128)
        requires
            self.inv(),
        ensures
            r as int == self.spec_len_so_far(),
            r as int == inc_total(self.inputs(), self.consumed()),
    {
        self.len
    }

    /// The next range as a `(start, end)` pair, its inclusive width added
    /// to the running count.
    pub fn next(&mut self) -> (r: Option<(u64, u64)>)
        requires
            old(self).inv(),
        ensures
            final(self).inv(),
            final(self).inputs() == old(self).inputs(),
            old(self).consumed() == old(self).inputs().len() ==> (r is None && *final(self)
                == *old(self)),
            old(self).consumed() < old(self).inputs().len() ==> (r == Some(
                old(self).inputs()[old(self).consumed()],
            ) && final(self).consumed() == old(self).consumed() + 1
                && final(self).spec_len_so_far() == old(self).spec_len_so_far() + (old(
                self,
            ).inputs()[old(self).consumed()].1 - old(self).inputs()[old(self).consumed()].0
                + 1)),
    {
        if self.idx < self.ranges.len() {
            let s = self.ranges[self.idx].0;
            let e = self.ranges[self.idx].1;
            proof {
                lemma_inc_total_bound(self.ranges@, self.idx as int + 1);
            }
            self.len = self.len + (((e - s) as u128) + 1);
            self.idx = self.idx + 1;
            Some((s, e))
        } else {
            None
        }
    }

    /// The exact number of ranges still to come, passed through from the
    /// underlying sorted-disjoint sequence.
    pub fn size_hint(&self) -> (r: (usize, Option<usize>))
        requires
            self.inv(),
        ensures
            r.0 == self.inputs().len() - self.consumed(),
            r.1 == Some((self.inputs().len() - self.consumed()) as usize),
    {
        let rem = self.ranges.len() - self.idx;
        (rem, Some(rem))
    }
}

/// Starts are non-decreasing across any two indices, not just adjacent
/// ones.
proof fn lemma_sorted_starts_trans(m: Seq<(u64, u64)>, i: int, j: int)
    requires
        sorted_starts(m),
        0 <= i <= j < m.len(),
    ensures
        m[i].0 <= m[j].0,
    decreases j - i,
{
    if j > i {
        lemma_sorted_starts_trans(m, i, j - 1);
    }
}

/// Fusion correctness for start-ordered input: the emitted ranges are
/// non-empty, pairwise disjoint and non-touching, and in ascending
/// order — no two emitted ranges could still have merged.  The pending
/// range, when one is held, must start no later than every remaining
/// input, which holds of every state the fusion iterator reaches.
pub proof fn lemma_fuse_from_sorted_disjoint(
    pending: Option<(u64, u64)>,
    m: Seq<(u64, u64)>,
    i: int,
)
    requires
        sorted_starts(m),
        0 <= i <= m.len(),
        pending matches Some(p) ==> p.0 <= p.1,
        pending matches Some(p) ==> (forall|j: int|
            i <= j < m.len() ==> p.0 <= (#[trigger] m[j]).0),
    ensures
        wf_sorted_disjoint_inclusive(fuse_from(pending, m, i)),
        pending matches Some(p) ==> (forall|k: int|
            0 <= k < fuse_from(pending, m, i).len() ==> p.0 <= (#[trigger] fuse_from(
                pending,
                m,
                i,
            )[k]).0),
    decreases m.len() - i,
{
    let out = fuse_from(pending, m, i);
    if !(0 <= i < m.len()) {
        match pending {
            Option::None => {},
            Option::Some(p) => {
                assert(out =~= seq![p]);
            },
        }
    } else {
        let nx = m[i];
        assert forall|j: int| i + 1 <= j < m.len() implies nx.0 <= (#[trigger] m[j]).0 by {
            lemma_sorted_starts_trans(m, i, j);
        }
        if nx.0 > nx.1 {
            lemma_fuse_from_sorted_disjoint(pending, m, i + 1);
        } else {
            match pending {
                Option::None => {
                    lemma_fuse_from_sorted_disjoint(Some(nx), m, i + 1);
                },
                Option::Some(p) => {
                    if gap_apart(p, nx) {
                        // under start order only the forward gap can hold
                        assert(p.0 <= nx.0);
                        assert(nx.0 >= 2 && p.1 <= nx.0 - 2);
                        lemma_fuse_from_sorted_disjoint(Some(nx), m, i + 1);
                        let rest = fuse_from(Some(nx), m, i + 1);
                        assert(out == seq![p] + rest);
                        assert forall|k: int|
                            0 <= k && k + 1 < out.len() implies (#[trigger] out[k]).1 + 2
                            <= out[k + 1].0 by {
                            if k == 0 {
                                assert(out[1] == rest[0]);
                                assert(nx.0 <= rest[0].0);
                            } else {
                                assert(out[k] == rest[k - 1]);
                                assert(out[k + 1] == rest[k]);
                            }
                        }
                        assert forall|k: int| 0 <= k < out.len() implies (#[trigger] out[k]).0
                            <= out[k].1 by {
                            if k > 0 {
                                assert(out[k] == rest[k - 1]);
                            }
                        }
                        assert forall|k: int| 0 <= k < out.len() implies p.0 <= (
                        #[trigger] out[k]).0 by {
                            if k > 0 {
                                assert(out[k] == rest[k - 1]);
                                assert(nx.0 <= rest[k - 1].0);
                            }
                        }
                    } else {
                        let merged = (
                            if p.0 < nx.0 {
                                p.0
                            } else {
                                nx.0
                            },
                            if p.1 > nx.1 {
                                p.1
                            } else {
                                nx.1
                            },
                        );
                        lemma_fuse_from_sorted_disjoint(Some(merged), m, i + 1);
                    }
                },
            }
        }
    }
}

/// Whether the integer `v` lies inside some inclusive range of `m`.
pub open spec fn covers_inclusive(m: Seq<(u64, u64)>, v: int) -> bool {
    exists|i: int| 0 <= i < m.len() && (#[trigger] m[i]).0 <= v <= m[i].1
}

/// Whether `v` lies inside some inclusive range of `m` at index `j` or
/// later.
pub open spec fn covers_inclusive_from(m: Seq<(u64, u64)>, i: int, v: int) -> bool {
    exists|j: int| i <= j < m.len() && (#[trigger] m[j]).0 <= v <= m[j].1
}

/// Fusion loses and invents nothing: for start-ordered input, the fused
/// output covers an integer exactly when the pending range or some
/// remaining input range covers it.
pub proof fn lemma_fuse_from_covers(
    pending: Option<(u64, u64)>,
    m: Seq<(u64, u64)>,
    i: int,
    v: int,
)
    requires
        sorted_starts(m),
        0 <= i <= m.len(),
        pending matches Some(p) ==> p.0 <= p.1,
        pending matches Some(p) ==> (forall|j: int|
            i <= j < m.len() ==> p.0 <= (#[trigger] m[j]).0),
    ensures
        covers_inclusive(fuse_from(pending, m, i), v) <==> ((pending matches Some(p) && p.0 <= v
            <= p.1) || covers_inclusive_from(m, i, v)),
    decreases m.len() - i,
{
    let out = fuse_from(pending, m, i);
    if !(0 <= i < m.len()) {
        assert(!covers_inclusive_from(m, i, v));
        match pending {
            Option::None => {
                assert(!covers_inclusive(out, v));
            },
            Option::Some(p) => {
                assert(out == seq![p]);
                if p.0 <= v <= p.1 {
                    assert(out[0].0 <= v <= out[0].1);
                    assert(covers_inclusive(out, v));
                }
            },
        }
    } else {
        let nx = m[i];
        assert forall|j: int| i + 1 <= j < m.len() implies nx.0 <= (#[trigger] m[j]).0 by {
            lemma_sorted_starts_trans(m, i, j);
        }
        if nx.0 > nx.1 {
            lemma_fuse_from_covers(pending, m, i + 1, v);
            assert(covers_inclusive_from(m, i, v) <==> covers_inclusive_from(m, i + 1, v)) by {
                if covers_inclusive_from(m, i, v) {
                    let j = choose|j: int|
                        i <= j < m.len() && (#[trigger] m[j]).0 <= v <= m[j].1;
                    assert(j != i);
                }
            }
        } else {
            match pending {
                Option::None => {
                    lemma_fuse_from_covers(Some(nx), m, i + 1, v);
                    assert((nx.0 <= v <= nx.1 || covers_inclusive_from(m, i + 1, v))
                        <==> covers_inclusive_from(m, i, v)) by {
                        if nx.0 <= v <= nx.1 {
                            assert(m[i].0 <= v <= m[i].1);
                        }
                        if covers_inclusive_from(m, i + 1, v) {
                            let j = choose|j: int|
                                i + 1 <= j < m.len() && (#[trigger] m[j]).0 <= v <= m[j].1;
                            assert(i <= j);
                        }
                    }
                },
                Option::Some(p) => {
                    if gap_apart(p, nx) {
                        lemma_fuse_from_covers(Some(nx), m, i + 1, v);
                        lemma_fuse_from_sorted_disjoint(Some(nx), m, i + 1);
                        let rest = fuse_from(Some(nx), m, i + 1);
                        assert(out == seq![p] + rest);
                        assert(covers_inclusive(out, v) <==> (p.0 <= v <= p.1
                            || covers_inclusive(rest, v))) by {
                            if covers_inclusive(out, v) {
                                let k = choose|k: int|
                                    0 <= k < out.len() && (#[trigger] out[k]).0 <= v
                                        <= out[k].1;
                                if k > 0 {
                                    assert(rest[k - 1].0 <= v <= rest[k - 1].1);
                                }
                            }
                            if p.0 <= v <= p.1 {
                                assert(out[0].0 <= v <= out[0].1);
                            }
                            if covers_inclusive(rest, v) {
                                let k = choose|k: int|
                                    0 <= k < rest.len() && (#[trigger] rest[k]).0 <= v
                                        <= rest[k].1;
                                assert(out[k + 1].0 <= v <= out[k + 1].1);
                            }
                        }
                        assert((nx.0 <= v <= nx.1 || covers_inclusive_from(m, i + 1, v))
                            <==> covers_inclusive_from(m, i, v)) by {
                            if nx.0 <= v <= nx.1 {
                                assert(m[i].0 <= v <= m[i].1);
                            }
                            if covers_inclusive_from(m, i + 1, v) {
                                let j = choose|j: int|
                                    i + 1 <= j < m.len() && (#[trigger] m[j]).0 <= v <= m[j].1;
                                assert(i <= j);
                            }
                            if covers_inclusive_from(m, i, v) {
                                let j = choose|j: int|
                                    i <= j < m.len() && (#[trigger] m[j]).0 <= v <= m[j].1;
                                if j == i {
                                    assert(nx.0 <= v <= nx.1);
                                }
                            }
                        }
                    } else {
                        let merged = (
                            if p.0 < nx.0 {
                                p.0
                            } else {
                                nx.0
                            },
                            if p.1 > nx.1 {
                                p.1
                            } else {
                                nx.1
                            },
                        );
                        lemma_fuse_from_covers(Some(merged), m, i + 1, v);
                        // not apart and start-ordered: the two ranges
                        // overlap or touch, so the merged range covers
                        // exactly their union
                        assert(p.0 <= nx.0);
                        assert(nx.0 <= p.1 + 1);
                        assert((merged.0 <= v <= merged.1) <==> ((p.0 <= v <= p.1) || (nx.0
                            <= v <= nx.1)));
                        assert((nx.0 <= v <= nx.1 || covers_inclusive_from(m, i + 1, v))
                            <==> covers_inclusive_from(m, i, v)) by {
                            if nx.0 <= v <= nx.1 {
                                assert(m[i].0 <= v <= m[i].1);
                            }
                            if covers_inclusive_from(m, i + 1, v) {
                                let j = choose|j: int|
                                    i + 1 <= j < m.len() && (#[trigger] m[j]).0 <= v <= m[j].1;
                                assert(i <= j);
                            }
                            if covers_inclusive_from(m, i, v) {
                                let j = choose|j: int|
                                    i <= j < m.len() && (#[trigger] m[j]).0 <= v <= m[j].1;
                                if j == i {
                                    assert(nx.0 <= v <= nx.1);
                                }
                            }
                        }
                    }
                },
            }
        }
    }
}

/// A wrapper around a sequence of inclusive ranges that records the
/// caller's promise that the ranges are sorted by start, though not
/// necessarily by end: the form the fusion iterator expects its input in.
pub struct AssumeSortedStarts {
    ranges: Vec<(u64, u64)>,
    idx: usize,
}

/// Starts are in non-decreasing order.
pub open spec fn sorted_starts(m: Seq<(u64, u64)>) -> bool {
    forall|i: int| 0 <= i && i + 1 < m.len() ==> (#[trigger] m[i]).0 <= m[i + 1].0
}

impl AssumeSortedStarts {
    /// The whole wrapped input stream.
    pub closed spec fn inputs(&self) -> Seq<(u64, u64)> {
        self.ranges@
    }

    /// How many ranges have been produced so far.
    pub closed spec fn consumed(&self) -> int {
        self.idx as int
    }

    /// The cursor stays in bounds and the promise holds.
    pub closed spec fn inv(&self) -> bool {
        self.idx <= self.ranges@.len() && sorted_starts(self.ranges@)
    }

    /// Record the promise that `ranges` is sorted by start.
    pub fn new(ranges: Vec<(u64, u64)>) -> (r: AssumeSortedStarts)
        requires
            sorted_starts(ranges@),
        ensures
            r.inv(),
            r.inputs() == ranges@,
            r.consumed() == 0,
    {
        AssumeSortedStarts { ranges, idx: 0 }
    }

    /// The next range, unchanged and in order.
    pub fn next(&mut self) -> (r: Option<(u64, u64)>)
        requires
            old(self).inv(),
        ensures
            final(self).inv(),
            final(self).inputs() == old(self).inputs(),
            old(self).consumed() == old(self).inputs().len() ==> (r is None && *final(self)
                == *old(self)),
            old(self).consumed() < old(self).inputs().len() ==> (r == Some(
                old(self).inputs()[old(self).consumed()],
            ) && final(self).consumed() == old(self).consumed() + 1),
    {
        if self.idx < self.ranges.len() {
            let p = self.ranges[self.idx];
            self.idx = self.idx + 1;
            Some(p)
        } else {
            None
        }
    }

    /// The exact number of ranges still to come.
    pub fn size_hint(&self) -> (r: (usize, Option<usize>))
        requires
            self.inv(),
        ensures
            r.0 == self.inputs().len() - self.consumed(),
            r.1 == Some((self.inputs().len() - self.consumed()) as usize),
    {
        let rem = self.ranges.len() - self.idx;
        (rem, Some(rem))
    }
}

} // verus!
