//! A canonical-form integer interval set: integers stored compactly as a
//! minimal collection of disjoint, non-adjacent half-open ranges, with
//! insertion, union, membership, overflow-safe length accounting, and a
//! lazy fusion of unsorted range streams into canonical form.

pub mod canon;
pub mod text;
pub mod unsorted_disjoint;

use vstd::prelude::*;

verus! {

use vstd::string::StringSliceAdditionalSpecFns;
use crate::text::{dec_str, dec_digit};
use crate::canon::{
    covers, total, wf_seq, wf_except_after, lemma_total_bound, lemma_absorb_step,
    lemma_extend_step, lemma_insert_setup, lemma_extend_setup, lemma_wf_empty, lemma_wf_valid,
    lemma_covers_witness, lemma_covers_empty, lemma_covers_none, lemma_wf_subrange,
    lemma_total_take_step, lemma_covers_take_step,
};

/// Absorb into the range at `pos` every following range whose start lies
/// at or before that range's current end `end`, removing the absorbed
/// entries and extending the end up to the largest absorbed end, so that
/// the canonical invariant holds again.  Coverage and the running length
/// are preserved exactly.
fn delete_extra(items: &mut Vec<(u64, u64)>, len: &mut u128, pos: usize, end: u64)
    requires
        pos < old(items)@.len(),
        old(items)@[pos as int].1 == end,
        wf_except_after(old(items)@, pos as int),
        *old(len) == total(old(items)@),
    ensures
        wf_seq(final(items)@),
        *final(len) == total(final(items)@),
        forall|v: int| covers(final(items)@, v) <==> covers(old(items)@, v),
{
    let ghost orig = items@;
    let n0 = items.len();
    let mut end_new: u64 = end;
    while pos + 1 < items.len() && items[pos + 1].0 <= end
        invariant
            pos < items@.len(),
            pos < n0,
            items@[pos as int].0 == orig[pos as int].0,
            items@[pos as int].1 == end,
            wf_except_after(items@, pos as int),
            *len == total(items@),
            end <= end_new,
            pos + 1 < items@.len() ==> (end_new <= end || end_new < items@[pos as int + 1].0),
            forall|v: int| covers(orig, v) <==> (covers(items@, v) || (end <= v < end_new)),
        decreases items@.len(),
    {
        let ds = items[pos + 1].0;
        let de = items[pos + 1].1;
        let ghost pre = items@;
        let ghost prev = end_new;
        if de > end_new {
            end_new = de;
        }
        proof {
            lemma_absorb_step(orig, pre, pos as int, end, prev, end_new);
        }
        *len = *len - ((de - ds) as u128);
        items.remove(pos + 1);
    }
    if end_new > end {
        let ghost pre = items@;
        proof {
            lemma_extend_step(orig, pre, pos as int, end, end_new);
            lemma_total_bound(pre.update(pos as int, (pre[pos as int].0, end_new)));
        }
        *len = *len + ((end_new - end) as u128);
        items[pos].1 = end_new;
        proof {
            assert(items@ =~= pre.update(pos as int, (pre[pos as int].0, end_new)));
        }
    } else {
        proof {
            lemma_extend_step(orig, items@, pos as int, end, end_new);
            assert(items@ =~= items@.update(pos as int, (items@[pos as int].0, end_new)));
        }
    }
}

/// Place the brand-new range `[start, end)` at position `idx`, account for
/// its width, and restore the canonical invariant by absorbing whatever
/// the new entry now overlaps or touches.
#[verifier::rlimit(100)]
fn insert(items: &mut Vec<(u64, u64)>, len: &mut u128, idx: usize, start: u64, end: u64)
    requires
        idx <= old(items)@.len(),
        start < end,
        wf_seq(old(items)@),
        idx > 0 ==> old(items)@[idx as int - 1].1 < start,
        idx < old(items)@.len() ==> start < old(items)@[idx as int].0,
        *old(len) == total(old(items)@),
    ensures
        wf_seq(final(items)@),
        *final(len) == total(final(items)@),
        forall|v: int|
            covers(final(items)@, v) <==> covers(old(items)@, v) || (start <= v < end),
{
    let ghost orig = items@;
    proof {
        lemma_insert_setup(orig, idx as int, start, end);
        lemma_total_bound(orig);
    }
    items.insert(idx, (start, end));
    *len = *len + ((end - start) as u128);
    delete_extra(items, len, idx, end);
}

/// The number of stored ranges whose start lies at or before `key`:
/// the predecessor/floor lookup, by binary search over the sorted
/// starts, in logarithmic time.
fn upper_bound(items: &Vec<(u64, u64)>, key: u64) -> (idx: usize)
    requires
        wf_seq(items@),
    ensures
        idx <= items@.len(),
        forall|k: int| 0 <= k < idx ==> (#[trigger] items@[k]).0 <= key,
        idx < items@.len() ==> items@[idx as int].0 > key,
{
    let mut lo: usize = 0;
    let mut hi: usize = items.len();
    while lo < hi
        invariant
            lo <= hi <= items@.len(),
            wf_seq(items@),
            forall|k: int| 0 <= k < lo ==> (#[trigger] items@[k]).0 <= key,
            hi < items@.len() ==> items@[hi as int].0 > key,
        decreases hi - lo,
    {
        let mid = lo + (hi - lo) / 2;
        if items[mid].0 <= key {
            proof {
                assert forall|k: int| 0 <= k < mid + 1 implies (#[trigger] items@[k]).0
                    <= key by {
                    if k < mid {
                        crate::canon::lemma_wf_sorted(items@, k, mid as int);
                    }
                }
            }
            lo = mid + 1;
        } else {
            hi = mid;
        }
    }
    lo
}

/// Merge the half-open range `[start, end)` into the canonical map and
/// increase `len` by exactly the number of previously uncovered integers
/// now covered, keeping `len` equal to the sum of the stored widths.
pub fn internal_add(items: &mut Vec<(u64, u64)>, len: &mut u128, start: u64, end: u64)
    requires
        start < end,
        wf_seq(old(items)@),
        *old(len) == total(old(items)@),
    ensures
        wf_seq(final(items)@),
        *final(len) == total(final(items)@),
        forall|v: int|
            covers(final(items)@, v) <==> covers(old(items)@, v) || (start <= v < end),
{
    let ghost orig = items@;
    let idx = upper_bound(items, start);
    if idx == 0 {
        insert(items, len, 0, start, end);
    } else {
        let ps = items[idx - 1].0;
        let pe = items[idx - 1].1;
        if pe < start {
            insert(items, len, idx, start, end);
        } else if pe < end {
            // the new range extends the predecessor in place
            proof {
                lemma_extend_setup(orig, idx as int, start, end);
                lemma_total_bound(orig);
            }
            *len = *len + ((end - pe) as u128);
            items[idx - 1].1 = end;
            proof {
                assert(items@ =~= orig.update(idx as int - 1, (ps, end)));
            }
            delete_extra(items, len, idx - 1, end);
        } else {
            // the new range is completely contained: nothing changes
            proof {
                assert forall|v: int| start <= v < end implies covers(items@, v) by {
                    crate::canon::lemma_covers_witness(items@, idx as int - 1, v);
                }
            }
        }
    }
}

/// Render a canonical range sequence as its `start..end` pairs joined by
/// commas, in ascending order.
pub fn fmt(items: &Vec<(u64, u64)>) -> (r: String)
    ensures
        r@ == crate::text::join_seq(crate::text::rendered_pairs(items@), ","@),
{
    let mut parts: Vec<String> = Vec::new();
    let mut i: usize = 0;
    proof {
        assert(crate::text::string_views(parts@) =~~= crate::text::rendered_pairs(
            items@.subrange(0, 0),
        ));
    }
    while i < items.len()
        invariant
            i <= items@.len(),
            crate::text::string_views(parts@) == crate::text::rendered_pairs(
                items@.subrange(0, i as int),
            ),
        decreases items@.len() - i,
    {
        let p = items[i];
        let ghost pre_parts = parts@;
        let ghost k = i as int;
        let piece = crate::text::format_pair(p.0, p.1);
        parts.push(piece);
        i += 1;
        proof {
            let lhs = crate::text::string_views(parts@);
            let rhs = crate::text::rendered_pairs(items@.subrange(0, k + 1));
            assert(lhs == parts@.map_values(|s: String| s@));
            assert(rhs == items@.subrange(0, k + 1).map_values(
                (|q: (u64, u64)| crate::text::render_pair(q)),
            ));
            assert(lhs.len() == parts@.len());
            assert(rhs.len() == k + 1);
            assert(crate::text::string_views(pre_parts).len() == pre_parts.len());
            assert(crate::text::rendered_pairs(items@.subrange(0, k)).len() == k);
            assert(pre_parts.len() == k);
            assert(parts@.len() == k + 1);
            assert(lhs.len() == rhs.len());
            assert forall|j: int| 0 <= j < lhs.len() implies lhs[j] == rhs[j] by {
                assert(lhs[j] == parts@[j]@);
                assert(rhs[j] == crate::text::render_pair(items@.subrange(0, k + 1)[j]));
                if j < k {
                    assert(parts@[j] == pre_parts[j]);
                    assert(crate::text::string_views(pre_parts)[j] == pre_parts[j]@);
                    assert(crate::text::rendered_pairs(items@.subrange(0, k))[j]
                        == crate::text::render_pair(items@.subrange(0, k)[j]));
                } else {
                    assert(parts@[j] == piece);
                }
            }
            assert(lhs =~= rhs);
            assert(crate::text::string_views(parts@) == crate::text::rendered_pairs(
                items@.subrange(0, i as int),
            ));
        }
    }
    proof {
        assert(items@.subrange(0, items@.len() as int) =~= items@);
    }
    crate::text::join_with(&parts, ",")
}

/// Recompute the covered-element count of a canonical range sequence by
/// summing the widths of its stored ranges.
pub fn len_slow(items: &Vec<(u64, u64)>) -> (r: u128)
    requires
        wf_seq(items@),
    ensures
        r as int == total(items@),
{
    let mut acc: u128 = 0;
    let mut i: usize = 0;
    proof {
        assert(items@.subrange(0, 0) =~= Seq::<(u64, u64)>::empty());
        assert(total(items@.subrange(0, 0)) == 0);
    }
    while i < items.len()
        invariant
            i <= items@.len(),
            wf_seq(items@),
            acc as int == total(items@.subrange(0, i as int)),
        decreases items@.len() - i,
    {
        let s = items[i].0;
        let e = items[i].1;
        proof {
            lemma_wf_valid(items@, i as int);
            lemma_total_take_step(items@, i as int);
            lemma_wf_subrange(items@, 0, i as int);
            lemma_total_bound(items@.subrange(0, i as int));
        }
        acc = acc + ((e - s) as u128);
        i += 1;
    }
    proof {
        assert(items@.subrange(0, items@.len() as int) =~= items@);
    }
    acc
}

/// A set of unsigned integers stored compactly as a minimal canonical
/// collection of disjoint, non-adjacent half-open ranges, together with
/// the covered-element count kept in a strictly wider integer type.
#[derive(Clone, Debug, PartialEq, Eq, PartialOrd, Ord, Hash, Default)]
pub struct RangeSetInt {
    len: u128,
    items: Vec<(u64, u64)>,
}

impl View for RangeSetInt {
    type V = Seq<(u64, u64)>;

    closed spec fn view(&self) -> Seq<(u64, u64)> {
        self.items@
    }
}

impl RangeSetInt {
    /// The tracked covered-element count, as a mathematical integer.
    pub closed spec fn spec_len(&self) -> int {
        self.len as int
    }

    /// Structural invariant: the stored ranges are canonical, and the
    /// tracked count equals the sum of their widths.
    pub open spec fn inv(&self) -> bool {
        wf_seq(self@) && self.spec_len() == total(self@)
    }

    /// Membership of `v` in the mathematical model of the set.
    pub open spec fn spec_contains(&self, v: int) -> bool {
        covers(self@, v)
    }

    /// An empty set.
    pub fn new() -> (r: RangeSetInt)
        ensures
            r.inv(),
            r@.len() == 0,
            r.spec_len() == 0,
            forall|v: int| !r.spec_contains(v),
    {
        let r = RangeSetInt { items: Vec::new(), len: 0 };
        proof {
            lemma_wf_empty(r@);
            assert(total(r@) == 0);
            assert forall|v: int| !r.spec_contains(v) by {
                lemma_covers_empty(r@, v);
            }
        }
        r
    }

    /// Reset to the empty set, with length zero.
    pub fn clear(&mut self)
        ensures
            final(self).inv(),
            final(self)@.len() == 0,
            final(self).spec_len() == 0,
            forall|v: int| !final(self).spec_contains(v),
    {
        self.items.clear();
        self.len = 0;
        proof {
            lemma_wf_empty(self@);
            assert(total(self@) == 0);
            assert forall|v: int| !self.spec_contains(v) by {
                lemma_covers_empty(self@, v);
            }
        }
    }

    /// The covered-element count, in constant time.
    pub fn len(&self) -> (r: u128)
        requires
            self.inv(),
        ensures
            r as int == self.spec_len(),
            r as int == total(self@),
    {
        self.len
    }

    /// The covered-element count, recomputed from the stored ranges.
    pub fn len_slow(&self) -> (r: u128)
        requires
            self.inv(),
        ensures
            r as int == self.spec_len(),
    {
        len_slow(&self.items)
    }

    /// Merge the half-open range `[start, end)` into the set.
    pub fn insert_range(&mut self, start: u64, end: u64)
        requires
            old(self).inv(),
            start < end,
        ensures
            final(self).inv(),
            forall|v: int|
                final(self).spec_contains(v) <==> (old(self).spec_contains(v) || (start <= v
                    < end)),
    {
        internal_add(&mut self.items, &mut self.len, start, end);
    }

    /// Merge every range of the canonical sequence `src` into the set.
    fn add_all(&mut self, src: &Vec<(u64, u64)>)
        requires
            old(self).inv(),
            wf_seq(src@),
        ensures
            final(self).inv(),
            forall|v: int|
                final(self).spec_contains(v) <==> (old(self).spec_contains(v) || covers(
                    src@,
                    v,
                )),
    {
        let ghost oself = self.items@;
        let mut i: usize = 0;
        proof {
            assert(src@.subrange(0, 0) =~= Seq::<(u64, u64)>::empty());
            assert forall|v: int| !covers(src@.subrange(0, 0), v) by {
                lemma_covers_empty(src@.subrange(0, 0), v);
            }
        }
        while i < src.len()
            invariant
                i <= src@.len(),
                wf_seq(src@),
                wf_seq(self.items@),
                self.len as int == total(self.items@),
                forall|v: int|
                    covers(self.items@, v) <==> (covers(oself, v) || covers(
                        src@.subrange(0, i as int),
                        v,
                    )),
            decreases src@.len() - i,
        {
            let s = src[i].0;
            let e = src[i].1;
            let ghost iold = i as int;
            let ghost pre_items = self.items@;
            proof {
                assert(forall|v: int|
                    covers(pre_items, v) <==> (covers(oself, v) || covers(
                        src@.subrange(0, iold),
                        v,
                    )));
                lemma_wf_valid(src@, iold);
            }
            internal_add(&mut self.items, &mut self.len, s, e);
            i += 1;
            proof {
                assert forall|v: int|
                    covers(self.items@, v) <==> (covers(oself, v) || covers(
                        src@.subrange(0, i as int),
                        v,
                    )) by {
                    lemma_covers_take_step(src@, iold, v);
                    assert(i as int == iold + 1);
                    assert(s == src@[iold].0 && e == src@[iold].1);
                    assert(covers(self.items@, v) <==> (covers(pre_items, v) || (s <= v < e)));
                    assert(covers(pre_items, v) <==> (covers(oself, v) || covers(
                        src@.subrange(0, iold),
                        v,
                    )));
                }
            }
        }
        proof {
            assert(src@.subrange(0, src@.len() as int) =~= src@);
        }
    }

    /// Move every element of `other` into `self`, leaving `other` empty.
    pub fn append(&mut self, other: &mut RangeSetInt)
        requires
            old(self).inv(),
            old(other).inv(),
        ensures
            final(self).inv(),
            final(other).inv(),
            final(other)@.len() == 0,
            final(other).spec_len() == 0,
            forall|v: int|
                final(self).spec_contains(v) <==> (old(self).spec_contains(v) || old(
                    other,
                ).spec_contains(v)),
    {
        self.add_all(&other.items);
        other.clear();
    }

    /// The union of `self` and `other`, as a new set; neither operand is
    /// changed.
    pub fn union(&self, other: &RangeSetInt) -> (r: RangeSetInt)
        requires
            self.inv(),
            other.inv(),
        ensures
            r.inv(),
            forall|v: int|
                r.spec_contains(v) <==> (self.spec_contains(v) || other.spec_contains(v)),
    {
        let mut r = RangeSetInt::new();
        r.add_all(&self.items);
        r.add_all(&other.items);
        r
    }

    /// Build a set from scalar values: each value `v` becomes the
    /// degenerate range `[v, v + 1)`.
    pub fn from_values(values: &Vec<u64>) -> (r: RangeSetInt)
        requires
            forall|k: int| 0 <= k < values@.len() ==> (#[trigger] values@[k]) < u64::MAX,
        ensures
            r.inv(),
            forall|v: int|
                r.spec_contains(v) <==> (exists|k: int|
                    0 <= k < values@.len() && (#[trigger] values@[k]) as int == v),
    {
        let mut r = RangeSetInt::new();
        let mut i: usize = 0;
        while i < values.len()
            invariant
                i <= values@.len(),
                forall|k: int| 0 <= k < values@.len() ==> (#[trigger] values@[k]) < u64::MAX,
                r.inv(),
                forall|v: int|
                    r.spec_contains(v) <==> (exists|k: int|
                        0 <= k < i && (#[trigger] values@[k]) as int == v),
            decreases values@.len() - i,
        {
            let value = values[i];
            r.insert_range(value, value + 1);
            i += 1;
        }
        r
    }

    /// Whether the set contains the value: a predecessor lookup plus an
    /// end-bound comparison.
    pub fn contains(&self, value: u64) -> (r: bool)
        requires
            self.inv(),
        ensures
            r == self.spec_contains(value as int),
    {
        let idx = upper_bound(&self.items, value);
        if idx > 0 && value < self.items[idx - 1].1 {
            proof {
                lemma_covers_witness(self@, idx as int - 1, value as int);
            }
            return true;
        }
        proof {
            assert forall|k: int|
                0 <= k < self@.len() implies !((#[trigger] self@[k]).0 <= value && (
            value as int) < self@[k].1) by {
                if k < idx - 1 {
                    crate::canon::lemma_wf_sorted(self@, k, idx as int - 1);
                } else if k == idx {
                } else if k > idx {
                    crate::canon::lemma_wf_sorted(self@, idx as int, k);
                }
            }
            lemma_covers_none(self@, value as int);
        }
        false
    }


    /// Render the set as its canonical ranges, `start..end` pairs joined
    /// by commas in ascending order.
    pub fn to_text(&self) -> (r: String)
        ensures
            r@ == crate::text::join_seq(crate::text::rendered_pairs(self@), ","@),
    {
        fmt(&self.items)
    }

    /// Consume the set into an iterator over every covered value in
    /// ascending order.
    pub fn into_iter(self) -> (it: IntoIter)
        requires
            self.inv(),
        ensures
            it.inv(),
            it.remaining() == all_elems(self@),
    {
        let it = IntoIter { cur: 0, cur_end: 0, idx: 0, ranges: self.items };
        proof {
            assert forall|k: int| 0 <= k < it.ranges@.len() implies (#[trigger] it.ranges@[
                k
            ]).0 < it.ranges@[k].1 by {
                lemma_wf_valid(it.ranges@, k);
            }
            assert(elems_in(0, 0) =~= Seq::<u64>::empty());
            assert(it.remaining() =~= all_elems(it.ranges@));
        }
        it
    }
}

/// Whether the byte is an ASCII decimal digit.
pub open spec fn is_digit(c: u8) -> bool {
    48 <= c <= 57
}

/// The number of consecutive digit bytes in `b` from position `i` on.
pub open spec fn digits_len(b: Seq<u8>, i: int) -> nat
    decreases b.len() - i,
{
    if i < 0 || i >= b.len() || !is_digit(b[i]) {
        0
    } else {
        (1 + digits_len(b, i + 1)) as nat
    }
}

/// The decimal value of the digit bytes `b[i .. j)`, most significant
/// first, as an unbounded integer.
pub open spec fn num_value(b: Seq<u8>, i: int, j: int) -> int
    decreases j - i,
{
    if j <= i {
        0
    } else {
        num_value(b, i, j - 1) * 10 + (b[j - 1] - 48)
    }
}

/// The digit run found at `i` stays in bounds and consists of digits.
proof fn lemma_digits_window(b: Seq<u8>, i: int)
    requires
        0 <= i <= b.len(),
    ensures
        i + digits_len(b, i) <= b.len(),
        forall|k: int| i <= k < i + digits_len(b, i) ==> is_digit(#[trigger] b[k]),
    decreases b.len() - i,
{
    if i < b.len() && is_digit(b[i]) {
        lemma_digits_window(b, i + 1);
    }
}

/// Reading further digits never makes the value smaller.
proof fn lemma_num_value_monotone(b: Seq<u8>, i: int, j: int, k: int)
    requires
        i <= j <= k,
        num_value(b, i, j) >= 0,
        forall|x: int| j <= x < k ==> is_digit(#[trigger] b[x]),
    ensures
        num_value(b, i, k) >= num_value(b, i, j),
        num_value(b, i, k) >= 0,
    decreases k - j,
{
    if k > j {
        lemma_num_value_monotone(b, i, j, k - 1);
    }
}

/// The whole-input grammar of `from_text`, over the byte view: one or
/// more tokens separated by single commas, each token two decimal
/// numbers separated by `..` with the first strictly below the second.
/// The result is the token list in input order, or the error that the
/// first offence gives.
pub open spec fn spec_parse_from(b: Seq<u8>, i: int) -> Result<Seq<(u64, u64)>, ParseError>
    decreases b.len() - i,
{
    let j1 = i + digits_len(b, i);
    if j1 == i {
        Err(ParseError::NotANumber)
    } else if num_value(b, i, j1) > u64::MAX {
        Err(ParseError::NumberTooLarge)
    } else if !(j1 + 2 <= b.len() && b[j1] == 46 && b[j1 + 1] == 46) {
        Err(ParseError::BadToken)
    } else {
        let i2 = j1 + 2;
        let j2 = i2 + digits_len(b, i2);
        if j2 == i2 {
            Err(ParseError::NotANumber)
        } else if num_value(b, i2, j2) > u64::MAX {
            Err(ParseError::NumberTooLarge)
        } else if num_value(b, i, j1) >= num_value(b, i2, j2) {
            Err(ParseError::EmptyRange)
        } else {
            let tok = (num_value(b, i, j1) as u64, num_value(b, i2, j2) as u64);
            if j2 == b.len() {
                Ok(seq![tok])
            } else if j2 < b.len() && b[j2] == 44 {
                match spec_parse_from(b, j2 + 1) {
                    Ok(rest) => Ok(seq![tok] + rest),
                    Err(e) => Err(e),
                }
            } else {
                Err(ParseError::BadToken)
            }
        }
    }
}

/// A successfully parsed prefix, prepended to the outcome of parsing the
/// remaining input.
pub open spec fn with_parsed_prefix(
    done: Seq<(u64, u64)>,
    r: Result<Seq<(u64, u64)>, ParseError>,
) -> Result<Seq<(u64, u64)>, ParseError> {
    match r {
        Ok(rest) => Ok(done + rest),
        Err(e) => Err(e),
    }
}

/// Why a textual range list failed to parse.
#[derive(Clone, Copy, Debug, PartialEq, Eq)]
pub enum ParseError {
    /// A bound was empty or began with a non-digit character.
    NotANumber,
    /// A bound did not fit in the element type.
    NumberTooLarge,
    /// A token was not of the form `start..end`, or the list was not
    /// comma-separated.
    BadToken,
    /// A token's start was not strictly below its end.
    EmptyRange,
}

/// Parse one decimal number from `b`, beginning at position `i`: the
/// digit run found there, its value, and the position after it, or the
/// error that the run gives.
fn parse_u64_at(b: &[u8], i: usize) -> (r: Result<(u64, usize), ParseError>)
    requires
        i <= b@.len(),
    ensures
        r matches Ok(p) ==> i < p.1 <= b@.len(),
        i as int + digits_len(b@, i as int) <= b@.len(),
        num_value(b@, i as int, i as int + digits_len(b@, i as int)) >= 0,
        ({
            let j = i as int + digits_len(b@, i as int);
            &&& (digits_len(b@, i as int) == 0 ==> r == Err::<(u64, usize), ParseError>(
                ParseError::NotANumber,
            ))
            &&& (digits_len(b@, i as int) > 0 && num_value(b@, i as int, j) > u64::MAX ==> r
                == Err::<(u64, usize), ParseError>(ParseError::NumberTooLarge))
            &&& (digits_len(b@, i as int) > 0 && num_value(b@, i as int, j) <= u64::MAX ==> r
                == Ok::<(u64, usize), ParseError>((num_value(b@, i as int, j) as u64,
            j as usize)))
        }),
{
    proof {
        lemma_digits_window(b@, i as int);
    }
    let n = b.len();
    let mut j = i;
    let mut v: u64 = 0;
    let mut any = false;
    while j < n && 48 <= b[j] && b[j] <= 57
        invariant
            i <= j <= n,
            n == b@.len(),
            any == (j > i),
            v as int == num_value(b@, i as int, j as int),
            digits_len(b@, i as int) == (j - i) + digits_len(b@, j as int),
        decreases n - j,
    {
        let d = (b[j] - 48) as u64;
        if v > u64::MAX / 10 || (v == u64::MAX / 10 && d > u64::MAX % 10) {
            proof {
                let ghost jj = j as int;
                assert(digits_len(b@, jj) == 1 + digits_len(b@, jj + 1));
                let ghost jend = i as int + digits_len(b@, i as int);
                assert(jend == jj + digits_len(b@, jj));
                lemma_digits_window(b@, jj);
                assert(num_value(b@, i as int, jj + 1) == v * 10 + (b@[jj] - 48));
                assert(num_value(b@, i as int, jj + 1) > u64::MAX);
                lemma_num_value_monotone(b@, i as int, jj + 1, jend);
                assert(digits_len(b@, i as int) > 0);
            }
            return Err(ParseError::NumberTooLarge);
        }
        proof {
            assert(digits_len(b@, j as int) == 1 + digits_len(b@, j as int + 1));
            assert(num_value(b@, i as int, j as int + 1) == v * 10 + (b@[j as int] - 48));
        }
        v = v * 10 + d;
        any = true;
        j += 1;
    }
    proof {
        assert(digits_len(b@, j as int) == 0);
        assert(digits_len(b@, i as int) == j - i);
    }
    if !any {
        return Err(ParseError::NotANumber);
    }
    Ok((v, j))
}

impl RangeSetInt {
    /// Parse a comma-separated list of `start..end` range literals into
    /// a set.  The grammar is `spec_parse_from` over the byte view,
    /// exactly: one or more tokens separated by single commas, each
    /// token two decimal numbers separated by `..`, no spaces, no
    /// signs, no single-value or `..=` forms.  On well-formed input the
    /// set covers exactly the union of the parsed half-open ranges; on
    /// malformed input the error kind of the first offence comes back.
    pub fn from_text(s: &str) -> (r: Result<RangeSetInt, ParseError>)
        ensures
            r matches Ok(t) ==> t.inv(),
            ({
                let res = spec_parse_from(s.spec_bytes(), 0);
                match res {
                    Ok(toks) => r matches Ok(t) && (forall|v: int|
                        t.spec_contains(v) <==> covers(toks, v)),
                    Err(e) => r == Err::<RangeSetInt, ParseError>(e),
                }
            }),
    {
        let b = s.as_bytes();
        let n = b.len();
        let mut set = RangeSetInt::new();
        let mut i: usize = 0;
        let ghost mut done: Seq<(u64, u64)> = Seq::empty();
        proof {
            let r0 = spec_parse_from(b@, 0);
            if r0 is Ok {
                let rest = r0->Ok_0;
                assert(Seq::<(u64, u64)>::empty() + rest =~= rest);
            }
            assert(with_parsed_prefix(done, spec_parse_from(b@, 0)) == spec_parse_from(b@, 0));
            assert forall|v: int| !covers(done, v) by {
                lemma_covers_empty(done, v);
            }
        }
        loop
            invariant
                set.inv(),
                i <= n,
                n == b@.len(),
                b@ == s.spec_bytes(),
                forall|v: int| set.spec_contains(v) <==> covers(done, v),
                with_parsed_prefix(done, spec_parse_from(b@, i as int)) == spec_parse_from(
                    b@,
                    0,
                ),
            decreases n - i,
        {
            let ghost i0 = i as int;
            let ghost j1 = i0 + digits_len(b@, i0);
            let startv: u64;
            match parse_u64_at(b, i) {
                Ok(p) => {
                    startv = p.0;
                    i = p.1;
                    proof {
                        assert(digits_len(b@, i0) > 0);
                        assert(num_value(b@, i0, j1) <= u64::MAX);
                        assert(i as int == j1);
                        assert(startv as int == num_value(b@, i0, j1));
                    }
                },
                Err(e) => {
                    proof {
                        assert(spec_parse_from(b@, i0) == Err::<Seq<(u64, u64)>, ParseError>(
                            e,
                        ));
                    }
                    return Err(e);
                },
            }
            if n - i < 2 || b[i] != 46 || b[i + 1] != 46 {
                proof {
                    assert(spec_parse_from(b@, i0) == Err::<Seq<(u64, u64)>, ParseError>(
                        ParseError::BadToken,
                    ));
                }
                return Err(ParseError::BadToken);
            }
            i = i + 2;
            let ghost i2 = i as int;
            let ghost j2 = i2 + digits_len(b@, i2);
            let endv: u64;
            match parse_u64_at(b, i) {
                Ok(p) => {
                    endv = p.0;
                    i = p.1;
                    proof {
                        assert(digits_len(b@, i2) > 0);
                        assert(num_value(b@, i2, j2) <= u64::MAX);
                        assert(i as int == j2);
                        assert(endv as int == num_value(b@, i2, j2));
                    }
                },
                Err(e) => {
                    proof {
                        assert(spec_parse_from(b@, i0) == Err::<Seq<(u64, u64)>, ParseError>(
                            e,
                        ));
                    }
                    return Err(e);
                },
            }
            if startv >= endv {
                proof {
                    assert(spec_parse_from(b@, i0) == Err::<Seq<(u64, u64)>, ParseError>(
                        ParseError::EmptyRange,
                    ));
                }
                return Err(ParseError::EmptyRange);
            }
            let ghost pre_done = done;
            let ghost tok = (startv, endv);
            set.insert_range(startv, endv);
            proof {
                done = done.push(tok);
                assert(done =~= pre_done.insert(pre_done.len() as int, tok));
                assert forall|v: int| set.spec_contains(v) <==> covers(done, v) by {
                    crate::canon::lemma_covers_insert(pre_done, pre_done.len() as int, tok, v);
                }
            }
            if i == n {
                proof {
                    assert(spec_parse_from(b@, i0) == Ok::<Seq<(u64, u64)>, ParseError>(
                        seq![tok],
                    ));
                    assert(pre_done + seq![tok] =~= done);
                }
                return Ok(set);
            }
            if b[i] != 44 {
                proof {
                    assert(spec_parse_from(b@, i0) == Err::<Seq<(u64, u64)>, ParseError>(
                        ParseError::BadToken,
                    ));
                }
                return Err(ParseError::BadToken);
            }
            i = i + 1;
            proof {
                assert(spec_parse_from(b@, i0) == with_parsed_prefix(
                    seq![tok],
                    spec_parse_from(b@, i as int),
                ));
                let rnext = spec_parse_from(b@, i as int);
                if rnext is Ok {
                    let rest = rnext->Ok_0;
                    assert(pre_done + (seq![tok] + rest) =~= done + rest);
                }
            }
        }
    }
}

/// The bytes of an ASCII character sequence, one byte per character.
pub open spec fn ascii_bytes(cs: Seq<char>) -> Seq<u8> {
    cs.map_values(|c: char| c as u8)
}

/// A digit run of length `len_run` at `i`, ended by the buffer's end or
/// a non-digit, is exactly what `digits_len` finds.
proof fn lemma_digits_len_at(b: Seq<u8>, i: int, len_run: int)
    requires
        0 <= i,
        0 <= len_run,
        i + len_run <= b.len(),
        forall|k: int| i <= k < i + len_run ==> is_digit(#[trigger] b[k]),
        i + len_run == b.len() || !is_digit(b[i + len_run]),
    ensures
        digits_len(b, i) == len_run,
    decreases len_run,
{
    if len_run > 0 {
        lemma_digits_len_at(b, i + 1, len_run - 1);
    }
}

/// The value of a digit run depends only on the bytes in its window.
proof fn lemma_num_value_slice(b: Seq<u8>, i: int, ds: Seq<u8>, l: int)
    requires
        0 <= i,
        0 <= l <= ds.len(),
        forall|k: int| 0 <= k < ds.len() ==> b[i + k] == ds[k],
    ensures
        num_value(b, i, i + l) == num_value(ds, 0, l),
    decreases l,
{
    if l > 0 {
        lemma_num_value_slice(b, i, ds, l - 1);
        assert(b[i + (l - 1)] == ds[l - 1]);
    }
}

/// The decimal rendering consists of ASCII digit characters whose byte
/// values parse back to the rendered number.
proof fn lemma_dec_str_bytes(n: nat)
    ensures
        dec_str(n).len() >= 1,
        ascii_bytes(dec_str(n)).len() == dec_str(n).len(),
        forall|k: int|
            0 <= k < dec_str(n).len() ==> is_digit(#[trigger] ascii_bytes(dec_str(n))[k]),
        forall|k: int| 0 <= k < dec_str(n).len() ==> '\0' <= #[trigger] dec_str(n)[k] <= '\u{7f}',
        num_value(ascii_bytes(dec_str(n)), 0, dec_str(n).len() as int) == n,
    decreases n,
{
    let cs = dec_str(n);
    let bs = ascii_bytes(cs);
    if n < 10 {
        assert(cs == seq![dec_digit(n)]);
        assert(bs[0] == dec_digit(n) as u8);
        assert(dec_digit(n) as u8 == 48 + n);
        assert(num_value(bs, 0, 1) == num_value(bs, 0, 0) * 10 + (bs[0] - 48));
    } else {
        lemma_dec_str_bytes(n / 10);
        let pre = dec_str(n / 10);
        let pl = pre.len() as int;
        assert(cs == pre.push(dec_digit(n)));
        assert(bs =~= ascii_bytes(pre).push(dec_digit(n) as u8));
        assert(dec_digit(n) as u8 == 48 + (n % 10));
        lemma_num_value_slice(bs, 0, ascii_bytes(pre), pl);
        assert(num_value(bs, 0, cs.len() as int) == num_value(bs, 0, pl) * 10 + (bs[pl] - 48));
        assert(n / 10 * 10 + n % 10 == n);
        assert forall|k: int| 0 <= k < cs.len() implies is_digit(#[trigger] bs[k]) by {
            if k < pl {
                assert(bs[k] == ascii_bytes(pre)[k]);
            }
        }
        assert forall|k: int| 0 <= k < cs.len() implies '\0' <= #[trigger] cs[k] <= '\u{7f}' by {
            if k < pl {
                assert(cs[k] == pre[k]);
            }
        }
    }
}

/// `digits_len` looks only at the bytes from its position on.
proof fn lemma_digits_len_shift(b: Seq<u8>, i: int, j: int)
    requires
        0 <= i <= j <= b.len(),
    ensures
        digits_len(b, j) == digits_len(b.skip(i), j - i),
    decreases b.len() - j,
{
    if j < b.len() {
        assert(b.skip(i)[j - i] == b[j]);
        if is_digit(b[j]) {
            lemma_digits_len_shift(b, i, j + 1);
        }
    }
}

/// `num_value` looks only at the bytes in its window.
proof fn lemma_num_value_shift(b: Seq<u8>, i: int, a: int, c: int)
    requires
        0 <= i,
        0 <= a <= c,
        i + c <= b.len(),
    ensures
        num_value(b, i + a, i + c) == num_value(b.skip(i), a, c),
    decreases c - a,
{
    if c > a {
        lemma_num_value_shift(b, i, a, c - 1);
        assert(b.skip(i)[c - 1] == b[i + c - 1]);
    }
}

/// Parsing from a position is parsing the remaining bytes from the
/// start.
proof fn lemma_parse_shift(b: Seq<u8>, i: int)
    requires
        0 <= i <= b.len(),
    ensures
        spec_parse_from(b, i) == spec_parse_from(b.skip(i), 0),
    decreases b.len() - i,
{
    let t = b.skip(i);
    assert(forall|x: int| 0 <= x < t.len() ==> #[trigger] t[x] == b[i + x]);
    lemma_digits_len_shift(b, i, i);
    let d1 = digits_len(b, i) as int;
    let j1 = i + d1;
    lemma_digits_window(b, i);
    lemma_num_value_shift(b, i, 0, d1);
    if j1 != i && num_value(b, i, j1) <= u64::MAX && j1 + 2 <= b.len() && b[j1] == 46 && b[j1
        + 1] == 46 {
        let i2 = j1 + 2;
        lemma_digits_len_shift(b, i, i2);
        let d2 = digits_len(b, i2) as int;
        let j2 = i2 + d2;
        lemma_digits_window(b, i2);
        lemma_num_value_shift(b, i, i2 - i, j2 - i);
        if j2 != i2 && num_value(b, i2, j2) <= u64::MAX && num_value(b, i, j1) < num_value(
            b,
            i2,
            j2,
        ) {
            if j2 < b.len() && b[j2] == 44 {
                lemma_parse_shift(b, j2 + 1);
                lemma_parse_shift(t, (j2 - i) + 1);
                assert(t.skip((j2 - i) + 1) =~= b.skip(j2 + 1));
            }
        }
    }
}

/// Joining from the left: with two or more parts, the join is the first
/// part, the separator, and the join of the rest.
proof fn lemma_join_left(parts: Seq<Seq<char>>, sep: Seq<char>)
    requires
        parts.len() >= 2,
    ensures
        crate::text::join_seq(parts, sep) == parts[0] + sep + crate::text::join_seq(
            parts.drop_first(),
            sep,
        ),
    decreases parts.len(),
{
    if parts.len() == 2 {
        assert(parts.drop_last() =~= seq![parts[0]]);
        assert(parts.drop_first() =~= seq![parts[1]]);
        assert(crate::text::join_seq(parts, sep) == crate::text::join_seq(
            parts.drop_last(),
            sep,
        ) + sep + parts.last());
        assert(crate::text::join_seq(parts.drop_last(), sep) == parts.drop_last()[0]);
        assert(crate::text::join_seq(parts.drop_first(), sep) == parts.drop_first()[0]);
        assert(crate::text::join_seq(parts, sep) =~= parts[0] + sep + parts[1]);
        assert(parts[0] + sep + crate::text::join_seq(parts.drop_first(), sep) =~= parts[0]
            + sep + parts[1]);
    } else {
        let dl = parts.drop_last();
        lemma_join_left(dl, sep);
        assert(dl[0] == parts[0]);
        assert(parts.drop_first().drop_last() =~= dl.drop_first());
        assert(parts.drop_first().last() == parts.last());
        assert(crate::text::join_seq(parts, sep) =~= parts[0] + sep + crate::text::join_seq(
            parts.drop_first(),
            sep,
        ));
    }
}

/// The byte layout of one rendered token at the front of a buffer: the
/// first digit run, the two dots, the second digit run, and the values
/// they parse to.
proof fn lemma_token_front(bb: Seq<u8>, p: (u64, u64), suf: Seq<u8>)
    requires
        p.0 < p.1,
        bb == ascii_bytes(dec_str(p.0 as nat)) + seq![46u8, 46u8] + ascii_bytes(
            dec_str(p.1 as nat),
        ) + suf,
        suf.len() == 0 || !is_digit(suf[0]),
    ensures
        ({
            let l1 = dec_str(p.0 as nat).len() as int;
            let l2 = dec_str(p.1 as nat).len() as int;
            let j2 = l1 + 2 + l2;
            &&& l1 >= 1 && l2 >= 1
            &&& digits_len(bb, 0) == l1
            &&& num_value(bb, 0, l1) == p.0
            &&& bb[l1] == 46 && bb[l1 + 1] == 46
            &&& digits_len(bb, l1 + 2) == l2
            &&& num_value(bb, l1 + 2, j2) == p.1
            &&& j2 + suf.len() == bb.len()
            &&& (forall|k: int| 0 <= k < suf.len() ==> #[trigger] bb[j2 + k] == suf[k])
        }),
{
    lemma_dec_str_bytes(p.0 as nat);
    lemma_dec_str_bytes(p.1 as nat);
    let b1 = ascii_bytes(dec_str(p.0 as nat));
    let b2 = ascii_bytes(dec_str(p.1 as nat));
    let l1 = b1.len() as int;
    let l2 = b2.len() as int;
    assert(forall|k: int| 0 <= k < l1 ==> #[trigger] bb[k] == b1[k]);
    assert(forall|k: int| 0 <= k < l2 ==> #[trigger] bb[l1 + 2 + k] == b2[k]);
    assert(bb[l1] == 46 && bb[l1 + 1] == 46);
    lemma_digits_len_at(bb, 0, l1);
    lemma_num_value_slice(bb, 0, b1, l1);
    lemma_digits_len_at(bb, l1 + 2, l2);
    lemma_num_value_slice(bb, l1 + 2, b2, l2);
}

/// The comma-joined rendering holds only ASCII characters.
proof fn lemma_render_ascii(m: Seq<(u64, u64)>)
    requires
        m.len() >= 1,
    ensures
        vstd::utf8::is_ascii_chars(crate::text::join_seq(crate::text::rendered_pairs(m), ","@)),
    decreases m.len(),
{
    reveal_strlit(",");
    reveal_strlit("..");
    let p = m[0];
    lemma_dec_str_bytes(p.0 as nat);
    lemma_dec_str_bytes(p.1 as nat);
    let c1 = dec_str(p.0 as nat);
    let c2 = dec_str(p.1 as nat);
    let l1 = c1.len() as int;
    let l2 = c2.len() as int;
    let j2 = l1 + 2 + l2;
    assert(crate::text::rendered_pairs(m)[0] == crate::text::render_pair(p));
    assert(".."@ =~= seq!['.', '.']);
    assert(","@ =~= seq![',']);
    let joined = crate::text::join_seq(crate::text::rendered_pairs(m), ","@);
    if m.len() == 1 {
        assert(crate::text::rendered_pairs(m).len() == 1);
        assert(joined == crate::text::render_pair(p));
        assert forall|k: int| 0 <= k < joined.len() implies '\0' <= #[trigger] joined[k]
            <= '\u{7f}' by {
            if k < l1 {
                assert(joined[k] == c1[k]);
            } else if k < l1 + 2 {
                assert(joined[k] == '.');
            } else {
                assert(joined[k] == c2[k - l1 - 2]);
            }
        }
    } else {
        let rest = m.drop_first();
        lemma_render_ascii(rest);
        lemma_join_left(crate::text::rendered_pairs(m), ","@);
        assert(crate::text::rendered_pairs(m).drop_first() =~= crate::text::rendered_pairs(
            rest,
        ));
        let jrest = crate::text::join_seq(crate::text::rendered_pairs(rest), ","@);
        assert(joined == crate::text::render_pair(p) + ","@ + jrest);
        assert forall|k: int| 0 <= k < joined.len() implies '\0' <= #[trigger] joined[k]
            <= '\u{7f}' by {
            if k < l1 {
                assert(joined[k] == c1[k]);
            } else if k < l1 + 2 {
                assert(joined[k] == '.');
            } else if k < j2 {
                assert(joined[k] == c2[k - l1 - 2]);
            } else if k == j2 {
                assert(joined[k] == ',');
            } else {
                assert(joined[k] == jrest[k - j2 - 1]);
            }
        }
    }
}

/// The single-token case: the rendering of one range parses to it.
#[verifier::rlimit(100)]
#[verifier::spinoff_prover]
proof fn lemma_render_parse_one(m: Seq<(u64, u64)>)
    requires
        wf_seq(m),
        m.len() == 1,
    ensures
        spec_parse_from(
            ascii_bytes(crate::text::join_seq(crate::text::rendered_pairs(m), ","@)),
            0,
        ) == Ok::<Seq<(u64, u64)>, ParseError>(m),
{
    reveal_strlit(",");
    reveal_strlit("..");
    lemma_wf_valid(m, 0);
    let p = m[0];
    let c1 = dec_str(p.0 as nat);
    let c2 = dec_str(p.1 as nat);
    assert(crate::text::rendered_pairs(m)[0] == crate::text::render_pair(p));
    assert(".."@ =~= seq!['.', '.']);
    let joined = crate::text::join_seq(crate::text::rendered_pairs(m), ","@);
    assert(crate::text::rendered_pairs(m).len() == 1);
    assert(joined == crate::text::render_pair(p));
    let bb = ascii_bytes(joined);
    assert(bb =~= ascii_bytes(c1) + seq![46u8, 46u8] + ascii_bytes(c2) + Seq::<u8>::empty());
    lemma_token_front(bb, p, Seq::<u8>::empty());
    assert(spec_parse_from(bb, 0) == Ok::<Seq<(u64, u64)>, ParseError>(seq![(p.0, p.1)]));
    assert(seq![(p.0, p.1)] =~= m);
}

/// The rendering of a two-or-more-range sequence decomposes, in bytes,
/// into the first token, a comma, and the rendering of the rest.
#[verifier::spinoff_prover]
proof fn lemma_render_cons_bytes(m: Seq<(u64, u64)>)
    requires
        m.len() >= 2,
    ensures
        ({
            let p = m[0];
            let jrest = crate::text::join_seq(
                crate::text::rendered_pairs(m.drop_first()),
                ","@,
            );
            let joined = crate::text::join_seq(crate::text::rendered_pairs(m), ","@);
            ascii_bytes(joined) == ascii_bytes(dec_str(p.0 as nat)) + seq![46u8, 46u8]
                + ascii_bytes(dec_str(p.1 as nat)) + (seq![44u8] + ascii_bytes(jrest))
        }),
{
    reveal_strlit(",");
    reveal_strlit("..");
    let p = m[0];
    assert(crate::text::rendered_pairs(m)[0] == crate::text::render_pair(p));
    assert(".."@ =~= seq!['.', '.']);
    assert(","@ =~= seq![',']);
    lemma_join_left(crate::text::rendered_pairs(m), ","@);
    assert(crate::text::rendered_pairs(m).drop_first() =~= crate::text::rendered_pairs(
        m.drop_first(),
    ));
    let jrest = crate::text::join_seq(crate::text::rendered_pairs(m.drop_first()), ","@);
    let joined = crate::text::join_seq(crate::text::rendered_pairs(m), ","@);
    assert(joined == crate::text::render_pair(p) + ","@ + jrest);
    assert(ascii_bytes(joined) =~= ascii_bytes(dec_str(p.0 as nat)) + seq![46u8, 46u8]
        + ascii_bytes(dec_str(p.1 as nat)) + (seq![44u8] + ascii_bytes(jrest)));
}

/// The step case: with the rest's rendering known to parse back to the
/// rest, the whole rendering parses back to the whole sequence.
#[verifier::rlimit(100)]
#[verifier::spinoff_prover]
proof fn lemma_render_parse_cons(m: Seq<(u64, u64)>)
    requires
        wf_seq(m),
        m.len() >= 2,
        spec_parse_from(
            ascii_bytes(
                crate::text::join_seq(crate::text::rendered_pairs(m.drop_first()), ","@),
            ),
            0,
        ) == Ok::<Seq<(u64, u64)>, ParseError>(m.drop_first()),
    ensures
        spec_parse_from(
            ascii_bytes(crate::text::join_seq(crate::text::rendered_pairs(m), ","@)),
            0,
        ) == Ok::<Seq<(u64, u64)>, ParseError>(m),
{
    lemma_wf_valid(m, 0);
    let p = m[0];
    let j2 = dec_str(p.0 as nat).len() as int + 2 + dec_str(p.1 as nat).len() as int;
    let rest = m.drop_first();
    let jrest = crate::text::join_seq(crate::text::rendered_pairs(rest), ","@);
    let joined = crate::text::join_seq(crate::text::rendered_pairs(m), ","@);
    let bb = ascii_bytes(joined);
    let suf = seq![44u8] + ascii_bytes(jrest);
    lemma_render_cons_bytes(m);
    assert(suf[0] == 44);
    assert(!is_digit(44));
    lemma_token_front(bb, p, suf);
    assert(bb[j2] == 44);
    lemma_parse_shift(bb, j2 + 1);
    assert(bb.skip(j2 + 1) =~= ascii_bytes(jrest));
    assert(spec_parse_from(bb, j2 + 1) == Ok::<Seq<(u64, u64)>, ParseError>(rest));
    assert(spec_parse_from(bb, 0) == Ok::<Seq<(u64, u64)>, ParseError>(seq![(p.0, p.1)] + rest));
    assert(seq![(p.0, p.1)] + rest =~= m);
}

/// Rendering then parsing is the identity: the comma-joined `start..end`
/// rendering of a non-empty canonical range sequence is ASCII, and its
/// bytes parse back to exactly that sequence.
pub proof fn lemma_render_parse(m: Seq<(u64, u64)>)
    requires
        wf_seq(m),
        m.len() >= 1,
    ensures
        vstd::utf8::is_ascii_chars(crate::text::join_seq(crate::text::rendered_pairs(m), ","@)),
        spec_parse_from(
            ascii_bytes(crate::text::join_seq(crate::text::rendered_pairs(m), ","@)),
            0,
        ) == Ok::<Seq<(u64, u64)>, ParseError>(m),
    decreases m.len(),
{
    lemma_render_ascii(m);
    if m.len() == 1 {
        lemma_render_parse_one(m);
    } else {
        assert(m.drop_first() =~= m.subrange(1, m.len() as int));
        lemma_wf_subrange(m, 1, m.len() as int);
        lemma_render_parse(m.drop_first());
        lemma_render_parse_cons(m);
    }
}

/// The render/parse round trip at the interface: for a string holding
/// exactly what `to_text` returns for a non-empty valid set `a`, the
/// byte view parses back to `a`'s ranges, so `from_text` on it returns
/// (by its contract) a set covering exactly what `a` covers; by
/// `lemma_canonical_unique` that set equals `a`, ranges and length
/// alike.
pub proof fn lemma_text_round_trip(a: RangeSetInt, s: &str)
    requires
        a.inv(),
        a@.len() >= 1,
        s@ == crate::text::join_seq(crate::text::rendered_pairs(a@), ","@),
    ensures
        spec_parse_from(s.spec_bytes(), 0) == Ok::<Seq<(u64, u64)>, ParseError>(a@),
{
    lemma_render_parse(a@);
    vstd::utf8::is_ascii_chars_encode_utf8(s@);
    assert(s.spec_bytes() =~= ascii_bytes(s@));
}

/// A valid set covering exactly what another valid set covers is that
/// set: the step that turns `from_text`'s coverage clause into equality
/// with the rendered set.
pub proof fn lemma_same_coverage_same_set(a: RangeSetInt, t: RangeSetInt)
    requires
        a.inv(),
        t.inv(),
        forall|v: int| t.spec_contains(v) <==> a.spec_contains(v),
    ensures
        t@ == a@,
        t.spec_len() == a.spec_len(),
{
    assert forall|v: int| covers(t@, v) <==> covers(a@, v) by {
        assert(t.spec_contains(v) <==> a.spec_contains(v));
    }
    crate::canon::lemma_canonical_unique(t@, a@);
}

/// The tracked length of a valid set counts exactly its distinct covered
/// integers, and equals the sum of the stored range widths.
pub proof fn lemma_len_counts_elements(a: RangeSetInt)
    requires
        a.inv(),
    ensures
        crate::canon::covered_set(a@).finite(),
        a.spec_len() == crate::canon::covered_set(a@).len(),
        a.spec_len() == total(a@),
{
    crate::canon::lemma_len_is_cardinality(a@);
}

/// Inserting the same range twice yields exactly the set and length that
/// inserting it once yields: `b` is any valid result of merging
/// `[start, end)` into `a`, and `c` any valid result of merging the same
/// range into `b`; then `c` and `b` are equal, ranges and length alike.
pub proof fn lemma_insert_idempotent(
    a: RangeSetInt,
    b: RangeSetInt,
    c: RangeSetInt,
    start: u64,
    end: u64,
)
    requires
        a.inv(),
        b.inv(),
        c.inv(),
        start < end,
        forall|v: int| b.spec_contains(v) <==> (a.spec_contains(v) || (start <= v < end)),
        forall|v: int| c.spec_contains(v) <==> (b.spec_contains(v) || (start <= v < end)),
    ensures
        c@ == b@,
        c.spec_len() == b.spec_len(),
{
    assert forall|v: int| covers(c@, v) <==> covers(b@, v) by {
        assert(c.spec_contains(v) <==> (b.spec_contains(v) || (start <= v < end)));
        assert(b.spec_contains(v) <==> (a.spec_contains(v) || (start <= v < end)));
    }
    crate::canon::lemma_canonical_unique(c@, b@);
}

/// Union is commutative: a valid set covering the union of `a` and `b`
/// and a valid set covering the union of `b` and `a` are equal, ranges
/// and length alike.
pub proof fn lemma_union_commutes(
    a: RangeSetInt,
    b: RangeSetInt,
    u1: RangeSetInt,
    u2: RangeSetInt,
)
    requires
        a.inv(),
        b.inv(),
        u1.inv(),
        u2.inv(),
        forall|v: int| u1.spec_contains(v) <==> (a.spec_contains(v) || b.spec_contains(v)),
        forall|v: int| u2.spec_contains(v) <==> (b.spec_contains(v) || a.spec_contains(v)),
    ensures
        u1@ == u2@,
        u1.spec_len() == u2.spec_len(),
{
    assert forall|v: int| covers(u1@, v) <==> covers(u2@, v) by {
        assert(u1.spec_contains(v) <==> (a.spec_contains(v) || b.spec_contains(v)));
        assert(u2.spec_contains(v) <==> (b.spec_contains(v) || a.spec_contains(v)));
    }
    crate::canon::lemma_canonical_unique(u1@, u2@);
}

/// The scalar elements of the half-open span `[s, e)`, in ascending order.
pub open spec fn elems_in(s: int, e: int) -> Seq<u64> {
    Seq::new(
        (if e > s {
            e - s
        } else {
            0
        }) as nat,
        |k: int| (s + k) as u64,
    )
}

/// The scalar elements of the ranges from index `i` on, concatenated in
/// ascending order.
pub open spec fn elems_from(m: Seq<(u64, u64)>, i: int) -> Seq<u64>
    decreases m.len() - i,
{
    if 0 <= i < m.len() {
        elems_in(m[i].0 as int, m[i].1 as int) + elems_from(m, i + 1)
    } else {
        Seq::empty()
    }
}

/// Every scalar element covered by the sequence, in ascending order.
pub open spec fn all_elems(m: Seq<(u64, u64)>) -> Seq<u64> {
    elems_from(m, 0)
}

/// The element stream of the ranges from `i` on contains exactly the
/// integers those ranges cover.
proof fn lemma_elems_from_covers(m: Seq<(u64, u64)>, i: int, v: u64)
    requires
        0 <= i <= m.len(),
    ensures
        elems_from(m, i).contains(v) <==> (exists|j: int|
            i <= j < m.len() && (#[trigger] m[j]).0 <= v < m[j].1),
    decreases m.len() - i,
{
    if i < m.len() {
        lemma_elems_from_covers(m, i + 1, v);
        let first = elems_in(m[i].0 as int, m[i].1 as int);
        let rest = elems_from(m, i + 1);
        let cur = elems_from(m, i);
        assert(cur == first + rest);
        if cur.contains(v) {
            let k = choose|k: int| 0 <= k < cur.len() && cur[k] == v;
            if k < first.len() {
                assert(first[k] == v);
                assert(m[i].0 <= v < m[i].1);
            } else {
                assert(rest[k - first.len()] == v);
                assert(rest.contains(v));
            }
        }
        if exists|j: int| i <= j < m.len() && (#[trigger] m[j]).0 <= v < m[j].1 {
            let j = choose|j: int| i <= j < m.len() && (#[trigger] m[j]).0 <= v < m[j].1;
            if j == i {
                assert(first[v - m[i].0] == v);
                assert(cur[v - m[i].0] == v);
                assert(cur.contains(v));
            } else {
                assert(rest.contains(v));
                let k = choose|k: int| 0 <= k < rest.len() && rest[k] == v;
                assert(cur[first.len() + k] == v);
                assert(cur.contains(v));
            }
        }
    }
}

/// Consuming iteration yields exactly the covered values: an integer is
/// in the element stream of a valid set precisely when the set contains
/// it.
pub proof fn lemma_iteration_yields_covered(a: RangeSetInt, v: u64)
    requires
        a.inv(),
    ensures
        all_elems(a@).contains(v) <==> a.spec_contains(v as int),
{
    lemma_elems_from_covers(a@, 0, v);
    reveal(crate::canon::covers);
}

/// The element stream of a canonical sequence is strictly ascending.
proof fn lemma_elems_from_sorted(m: Seq<(u64, u64)>, i: int)
    requires
        wf_seq(m),
        0 <= i <= m.len(),
    ensures
        forall|x: int, y: int|
            0 <= x < y < elems_from(m, i).len() ==> (#[trigger] elems_from(m, i)[x]) < (
            #[trigger] elems_from(m, i)[y]),
    decreases m.len() - i,
{
    if i < m.len() {
        lemma_elems_from_sorted(m, i + 1);
        lemma_wf_valid(m, i);
        let first = elems_in(m[i].0 as int, m[i].1 as int);
        let rest = elems_from(m, i + 1);
        let cur = elems_from(m, i);
        assert(cur == first + rest);
        assert forall|x: int, y: int| 0 <= x < y < cur.len() implies (#[trigger] cur[x]) < (
        #[trigger] cur[y]) by {
            if y < first.len() {
                assert(cur[x] == first[x] && cur[y] == first[y]);
            } else if x >= first.len() {
                assert(cur[x] == rest[x - first.len()] && cur[y] == rest[y - first.len()]);
            } else {
                // x in the current range's span, y in a later range
                assert(cur[x] == first[x]);
                assert(cur[x] < m[i].1);
                let ry = y - first.len();
                assert(cur[y] == rest[ry]);
                assert(rest.contains(rest[ry]));
                lemma_elems_from_covers(m, i + 1, rest[ry]);
                let j = choose|j: int|
                    i + 1 <= j < m.len() && (#[trigger] m[j]).0 <= rest[ry] < m[j].1;
                if j > i + 1 {
                    crate::canon::lemma_wf_sorted(m, i + 1, j);
                }
                assert(m[i].1 < m[i + 1].0);
                assert(m[i + 1].0 <= m[j].0);
                assert(cur[y] >= m[j].0);
            }
        }
    }
}

/// Consuming iteration yields the covered values in strictly ascending
/// order.
pub proof fn lemma_iteration_ascending(a: RangeSetInt)
    requires
        a.inv(),
    ensures
        forall|x: int, y: int|
            0 <= x < y < all_elems(a@).len() ==> (#[trigger] all_elems(a@)[x]) < (
            #[trigger] all_elems(a@)[y]),
{
    lemma_elems_from_sorted(a@, 0);
}

/// An iterator that moves the covered scalar values out of a
/// `RangeSetInt`, one at a time in ascending order: an outer cursor over
/// the stored ranges and an inner cursor over the current range's span.
pub struct IntoIter {
    cur: u64,
    cur_end: u64,
    idx: usize,
    ranges: Vec<(u64, u64)>,
}

impl IntoIter {
    /// The values not yet produced.
    pub closed spec fn remaining(&self) -> Seq<u64> {
        elems_in(self.cur as int, self.cur_end as int) + elems_from(
            self.ranges@,
            self.idx as int,
        )
    }

    /// Every pending range is non-empty, so one step of the outer cursor
    /// always finds a value to produce.
    pub closed spec fn inv(&self) -> bool {
        forall|k: int| 0 <= k < self.ranges@.len() ==> (#[trigger] self.ranges@[k]).0
            < self.ranges@[k].1
    }

    /// The next covered value in ascending order, if any.
    pub fn next(&mut self) -> (r: Option<u64>)
        requires
            old(self).inv(),
        ensures
            final(self).inv(),
            old(self).remaining().len() == 0 ==> (r is None && final(self).remaining().len()
                == 0),
            old(self).remaining().len() > 0 ==> (r == Some(old(self).remaining()[0])
                && final(self).remaining() =~= old(self).remaining().drop_first()),
    {
        if self.cur < self.cur_end {
            let v = self.cur;
            self.cur = self.cur + 1;
            proof {
                assert(old(self).remaining()[0] == v);
                assert(self.remaining() =~= old(self).remaining().drop_first());
            }
            return Some(v);
        }
        if self.idx < self.ranges.len() {
            let s = self.ranges[self.idx].0;
            let e = self.ranges[self.idx].1;
            self.idx = self.idx + 1;
            self.cur = s + 1;
            self.cur_end = e;
            proof {
                assert(elems_in(old(self).cur as int, old(self).cur_end as int) =~= Seq::<
                    u64,
                >::empty());
                assert(old(self).remaining() =~= elems_from(
                    old(self).ranges@,
                    old(self).idx as int,
                ));
                assert(old(self).remaining()[0] == s);
                assert(self.remaining() =~= old(self).remaining().drop_first());
            }
            return Some(s);
        }
        proof {
            assert(elems_in(self.cur as int, self.cur_end as int) =~= Seq::<u64>::empty());
            assert(self.remaining() =~= Seq::<u64>::empty());
        }
        None
    }
}

} // verus!
