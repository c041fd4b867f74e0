use vstd::prelude::*;
use vstd::arithmetic::div_mod::{lemma_fundamental_div_mod, lemma_mod_pos_bound};

verus! {

// Positions along one axis are exact rationals: a position `p` together with
// a `scale` stands for the point `p / scale` in source-pixel units. Pixel `i`
// covers the unit interval `[i * scale, (i + 1) * scale)` in these units.

/// The first pixel that the range `[lo, hi)` overlaps.
pub open spec fn first_index(lo: nat, scale: nat) -> nat {
    lo / scale
}

/// One past the last pixel that the range `[lo, hi)` overlaps (the ceiling
/// of `hi / scale`).
pub open spec fn end_index(hi: nat, scale: nat) -> nat {
    ((hi + scale - 1) as nat) / scale
}

/// The length of the part of pixel `i` that lies inside `[lo, hi)`.
pub open spec fn overlap(i: nat, lo: nat, hi: nat, scale: nat) -> int {
    let start = if lo > i * scale { lo } else { i * scale };
    let end = if hi < (i + 1) * scale { hi } else { (i + 1) * scale };
    end - start
}

/// Every pixel that `[lo, hi)` overlaps, in increasing order.
pub open spec fn index_seq(lo: nat, hi: nat, scale: nat) -> Seq<int> {
    let first = first_index(lo, scale);
    Seq::new((end_index(hi, scale) - first) as nat, |k: int| first + k)
}

/// The overlap of each pixel of `index_seq` with `[lo, hi)`, in the same
/// order: the raw weights, which sum to `hi - lo`.
pub open spec fn weight_seq(lo: nat, hi: nat, scale: nat) -> Seq<int> {
    let first = first_index(lo, scale);
    Seq::new(
        (end_index(hi, scale) - first) as nat,
        |k: int| overlap((first + k) as nat, lo, hi, scale),
    )
}

pub open spec fn sum_of(s: Seq<int>) -> int
    decreases s.len(),
{
    if s.len() == 0 {
        0
    } else {
        sum_of(s.drop_last()) + s.last()
    }
}

/// Adding one more element to a prefix adds that element to its sum.
pub proof fn lemma_sum_take_step(s: Seq<int>, k: int)
    requires
        0 <= k < s.len(),
    ensures
        sum_of(s.take(k + 1)) == sum_of(s.take(k)) + s[k],
{
    assert(s.take(k + 1).drop_last() =~= s.take(k));
}

/// A prefix of non-negative numbers sums to at most the whole.
pub proof fn lemma_sum_take_le(s: Seq<int>, k: int)
    requires
        0 <= k <= s.len(),
        forall|j: int| 0 <= j < s.len() ==> 0 <= #[trigger] s[j],
    ensures
        sum_of(s.take(k)) <= sum_of(s),
    decreases s.len() - k,
{
    if k == s.len() {
        assert(s.take(k) =~= s);
    } else {
        lemma_sum_take_step(s, k);
        lemma_sum_take_le(s, k + 1);
    }
}

pub open spec fn valid_range(lo: nat, hi: nat, scale: nat) -> bool {
    lo < hi && scale > 0
}

proof fn lemma_floor_bounds(x: nat, d: nat)
    requires
        d > 0,
    ensures
        (x / d) * d <= x,
        x < (x / d) * d + d,
{
    lemma_fundamental_div_mod(x as int, d as int);
    lemma_mod_pos_bound(x as int, d as int);
    assert((x / d) * d == d * (x / d)) by (nonlinear_arith);
}

/// Where the first and last overlapped pixels sit relative to the range.
pub proof fn lemma_index_bounds(lo: nat, hi: nat, scale: nat)
    requires
        valid_range(lo, hi, scale),
    ensures
        first_index(lo, scale) * scale <= lo,
        lo < first_index(lo, scale) * scale + scale,
        hi <= end_index(hi, scale) * scale,
        (end_index(hi, scale) - 1) * scale < hi,
        first_index(lo, scale) < end_index(hi, scale),
        end_index(hi, scale) <= hi,
{
    let f = first_index(lo, scale);
    let e = end_index(hi, scale);
    lemma_floor_bounds(lo, scale);
    lemma_floor_bounds((hi + scale - 1) as nat, scale);
    assert((e - 1) * scale == e * scale - scale) by (nonlinear_arith);
    assert(e <= hi) by (nonlinear_arith)
        requires
            (e - 1) * scale == e * scale - scale,
            e * scale - scale < hi,
            scale > 0,
    {
        if e > hi {
            assert((e - 1) * scale >= hi * scale);
            assert(hi * scale >= hi);
        }
    }
    assert(f < e) by (nonlinear_arith)
        requires
            f * scale <= lo,
            lo < hi,
            hi <= e * scale,
            scale > 0,
    {
        if f >= e {
            assert(f * scale >= e * scale);
        }
    }
}

/// The weights of the first `k` overlapped pixels add up to the part of the
/// range that lies left of pixel `first + k`.
proof fn lemma_prefix_sum(lo: nat, hi: nat, scale: nat, k: nat)
    requires
        valid_range(lo, hi, scale),
        1 <= k <= weight_seq(lo, hi, scale).len(),
    ensures
        sum_of(weight_seq(lo, hi, scale).subrange(0, k as int)) == {
            let b = (first_index(lo, scale) + k) * scale;
            if hi < b {
                hi
            } else {
                b
            }
        } - lo,
    decreases k,
{
    let w = weight_seq(lo, hi, scale);
    let f = first_index(lo, scale);
    lemma_index_bounds(lo, hi, scale);
    let s = w.subrange(0, k as int);
    assert(s.drop_last() =~= w.subrange(0, k - 1));
    assert((f + k) * scale == (f + (k - 1)) * scale + scale) by (nonlinear_arith);
    assert(s.last() == overlap((f + (k - 1)) as nat, lo, hi, scale));
    assert(sum_of(s) == sum_of(s.drop_last()) + s.last());
    if k == 1 {
        assert(s.drop_last().len() == 0);
    } else {
        lemma_prefix_sum(lo, hi, scale, (k - 1) as nat);
        let e = end_index(hi, scale);
        assert(f + (k - 1) < e);
        assert((f + (k - 1)) * scale <= (e - 1) * scale) by (nonlinear_arith)
            requires
                f + (k - 1) <= e - 1,
                scale > 0,
        ;
        assert(lo < (f + (k - 1)) * scale) by (nonlinear_arith)
            requires
                lo < f * scale + scale,
                k >= 2,
                scale > 0,
        ;
    }
}

/// Normalisation is exact: the raw weights of a range sum to its length, so
/// each weight divided by `hi - lo` is a share and the shares sum to one.
pub proof fn weights_sum_to_span(lo: nat, hi: nat, scale: nat)
    requires
        valid_range(lo, hi, scale),
    ensures
        sum_of(weight_seq(lo, hi, scale)) == hi - lo,
{
    let w = weight_seq(lo, hi, scale);
    lemma_index_bounds(lo, hi, scale);
    lemma_prefix_sum(lo, hi, scale, w.len());
    assert(w.subrange(0, w.len() as int) =~= w);
}

/// The weight list and the index list of a range have the same length.
pub proof fn weights_match_indices(lo: nat, hi: nat, scale: nat)
    requires
        valid_range(lo, hi, scale),
    ensures
        weight_seq(lo, hi, scale).len() == index_seq(lo, hi, scale).len(),
        weight_seq(lo, hi, scale).len() >= 1,
        forall|k: int|
            0 <= k < index_seq(lo, hi, scale).len() ==> #[trigger] index_seq(lo, hi, scale)[k]
                == first_index(lo, scale) + k && first_index(lo, scale) + k < end_index(
                hi,
                scale,
            ),
{
    lemma_index_bounds(lo, hi, scale);
}

/// No overlapped pixel gets a zero weight, also where `hi` falls on a pixel
/// boundary, and no pixel gets more than its own width.
pub proof fn weights_positive(lo: nat, hi: nat, scale: nat)
    requires
        valid_range(lo, hi, scale),
    ensures
        forall|k: int|
            0 <= k < weight_seq(lo, hi, scale).len() ==> 0 < #[trigger] weight_seq(
                lo,
                hi,
                scale,
            )[k] <= scale,
{
    let f = first_index(lo, scale);
    let e = end_index(hi, scale);
    lemma_index_bounds(lo, hi, scale);
    assert forall|k: int| 0 <= k < weight_seq(lo, hi, scale).len() implies 0 < #[trigger] weight_seq(
        lo,
        hi,
        scale,
    )[k] <= scale by {
        let i = (f + k) as nat;
        assert((i + 1) * scale == i * scale + scale) by (nonlinear_arith);
        assert(lo < (i + 1) * scale) by (nonlinear_arith)
            requires
                lo < f * scale + scale,
                i >= f,
                scale > 0,
        ;
        assert(i * scale < hi) by (nonlinear_arith)
            requires
                (e - 1) * scale < hi,
                i <= e - 1,
                scale > 0,
        ;
    }
}

/// Boundary `k` of the split of `[from, to]` into `count` equal ranges, in
/// units of `1 / count`.
pub open spec fn boundary(from: nat, to: nat, count: nat, k: nat) -> int {
    from * count + k * (to - from)
}

/// The split of `[from, to]` into `count` equal consecutive ranges. Each
/// boundary is computed from its own index, so no rounding builds up; the
/// ranges are in units of `1 / count`, ready for `weighted_indices` with
/// `scale == count`.
pub struct Linspace {
    pub from: u64,
    pub to: u64,
    pub count: usize,
    /// How many ranges `next` has handed out.
    pub position: usize,
}

impl Linspace {
    pub open spec fn wf(&self) -> bool {
        &&& self.from <= self.to
        &&& self.to * self.count <= u64::MAX
        &&& self.position <= self.count
    }

    /// The range at `k`, in units of `1 / count`.
    pub open spec fn range_at(&self, k: nat) -> (int, int) {
        (
            boundary(self.from as nat, self.to as nat, self.count as nat, k),
            boundary(self.from as nat, self.to as nat, self.count as nat, k + 1),
        )
    }

    pub fn new(from: u64, to: u64, count: usize) -> (r: Self)
        requires
            from <= to,
            to * count <= u64::MAX,
        ensures
            r.wf(),
            r.from == from,
            r.to == to,
            r.count == count,
            r.position == 0,
    {
        Linspace { from, to, count, position: 0 }
    }

    fn boundary_at(&self, k: usize) -> (b: u64)
        requires
            self.wf(),
            k <= self.count,
        ensures
            b as int == boundary(self.from as nat, self.to as nat, self.count as nat, k as nat),
    {
        proof {
            let (f, t, c) = (self.from as int, self.to as int, self.count as int);
            assert(f * c + k * (t - f) <= t * c) by (nonlinear_arith)
                requires
                    f <= t,
                    0 <= k <= c,
            ;
            assert(f * c <= t * c) by (nonlinear_arith)
                requires
                    f <= t,
                    0 <= c,
            ;
            assert(k * (t - f) <= c * (t - f)) by (nonlinear_arith)
                requires
                    f <= t,
                    0 <= k <= c,
            ;
        }
        self.from * self.count as u64 + k as u64 * (self.to - self.from)
    }

    /// The next range, or `None` once all `count` ranges have been handed out.
    pub fn next(&mut self) -> (r: Option<(u64, u64)>)
        requires
            old(self).wf(),
        ensures
            final(self).wf(),
            final(self).from == old(self).from,
            final(self).to == old(self).to,
            final(self).count == old(self).count,
            old(self).position == old(self).count ==> r.is_none() && final(self).position
                == old(self).position,
            old(self).position < old(self).count ==> {
                &&& r.is_some()
                &&& (r.unwrap().0 as int, r.unwrap().1 as int) == old(self).range_at(
                    old(self).position as nat,
                )
                &&& final(self).position == old(self).position + 1
            },
    {
        if self.position == self.count {
            None
        } else {
            let lo = self.boundary_at(self.position);
            let hi = self.boundary_at(self.position + 1);
            self.position = self.position + 1;
            Some((lo, hi))
        }
    }

    /// All `count` ranges, in order, whatever `next` has handed out.
    pub fn ranges(&self) -> (r: Vec<(u64, u64)>)
        requires
            self.wf(),
        ensures
            r@.len() == self.count,
            forall|k: int|
                0 <= k < r@.len() ==> (#[trigger] r@[k].0 as int, r@[k].1 as int)
                    == self.range_at(k as nat),
    {
        let mut r: Vec<(u64, u64)> = Vec::new();
        let mut k: usize = 0;
        while k < self.count
            invariant
                self.wf(),
                k <= self.count,
                r@.len() == k,
                forall|j: int|
                    0 <= j < k ==> (#[trigger] r@[j].0 as int, r@[j].1 as int) == self.range_at(
                        j as nat,
                    ),
            decreases self.count - k,
        {
            let lo = self.boundary_at(k);
            let hi = self.boundary_at(k + 1);
            r.push((lo, hi));
            k = k + 1;
        }
        r
    }
}

/// The part of pixel `i` that lies inside `[lo, hi)`, for an overlapped pixel.
fn pixel_overlap(i: u64, lo: u64, hi: u64, scale: u64) -> (w: u64)
    requires
        valid_range(lo as nat, hi as nat, scale as nat),
        first_index(lo as nat, scale as nat) <= i < end_index(hi as nat, scale as nat),
    ensures
        w as int == overlap(i as nat, lo as nat, hi as nat, scale as nat),
        0 < w <= scale,
{
    proof {
        weights_positive(lo as nat, hi as nat, scale as nat);
        let k = i - first_index(lo as nat, scale as nat);
        assert(0 <= k < weight_seq(lo as nat, hi as nat, scale as nat).len());
        assert(weight_seq(lo as nat, hi as nat, scale as nat)[k] == overlap(
            i as nat,
            lo as nat,
            hi as nat,
            scale as nat,
        ));
        assert(i as int * scale as int <= u64::MAX as int * u64::MAX as int) by (nonlinear_arith)
            requires
                i <= u64::MAX,
                scale <= u64::MAX,
        ;
    }
    let left: u128 = i as u128 * scale as u128;
    let right: u128 = left + scale as u128;
    proof {
        assert(left == i as nat * scale as nat);
        assert(right == (i as nat + 1) * scale as nat) by (nonlinear_arith)
            requires
                right == left + scale,
                left == i as nat * scale as nat,
        ;
    }
    let start: u128 = if (lo as u128) > left {
        lo as u128
    } else {
        left
    };
    let end: u128 = if (hi as u128) < right {
        hi as u128
    } else {
        right
    };
    (end - start) as u64
}

/// The first overlapped pixel and one past the last, computed exactly.
fn index_span(lo: u64, hi: u64, scale: u64) -> (r: (u64, u64))
    requires
        valid_range(lo as nat, hi as nat, scale as nat),
    ensures
        r.0 as nat == first_index(lo as nat, scale as nat),
        r.1 as nat == end_index(hi as nat, scale as nat),
        r.0 < r.1,
{
    proof {
        lemma_index_bounds(lo as nat, hi as nat, scale as nat);
    }
    let first: u64 = lo / scale;
    let end: u128 = (hi as u128 + scale as u128 - 1) / scale as u128;
    (first, end as u64)
}

/// Every pixel index that the range `[lo, hi)` overlaps, from `floor(lo)`
/// up to but excluding `ceil(hi)`, in units of `1 / scale` pixel.
pub fn indices(lo: u64, hi: u64, scale: u64) -> (r: Vec<usize>)
    requires
        valid_range(lo as nat, hi as nat, scale as nat),
        end_index(hi as nat, scale as nat) <= usize::MAX,
    ensures
        r@.len() == index_seq(lo as nat, hi as nat, scale as nat).len(),
        forall|k: int|
            0 <= k < r@.len() ==> r@[k] as int == #[trigger] index_seq(
                lo as nat,
                hi as nat,
                scale as nat,
            )[k],
{
    let (first, end) = index_span(lo, hi, scale);
    let mut r: Vec<usize> = Vec::new();
    let mut i: u64 = first;
    while i < end
        invariant
            first <= i <= end,
            first as nat == first_index(lo as nat, scale as nat),
            end as nat == end_index(hi as nat, scale as nat),
            end <= usize::MAX,
            r@.len() == i - first,
            forall|k: int| 0 <= k < r@.len() ==> r@[k] as int == first + k,
        decreases end - i,
    {
        r.push(i as usize);
        i = i + 1;
    }
    r
}

/// The raw weight of each pixel of `indices(lo, hi, scale)`: the length of
/// its overlap with `[lo, hi)`, in units of `1 / scale` pixel.
pub fn weights(lo: u64, hi: u64, scale: u64) -> (r: Vec<u64>)
    requires
        valid_range(lo as nat, hi as nat, scale as nat),
    ensures
        r@.len() == weight_seq(lo as nat, hi as nat, scale as nat).len(),
        forall|k: int|
            0 <= k < r@.len() ==> r@[k] as int == #[trigger] weight_seq(
                lo as nat,
                hi as nat,
                scale as nat,
            )[k],
{
    let (first, end) = index_span(lo, hi, scale);
    let mut r: Vec<u64> = Vec::new();
    let mut i: u64 = first;
    while i < end
        invariant
            first <= i <= end,
            valid_range(lo as nat, hi as nat, scale as nat),
            first as nat == first_index(lo as nat, scale as nat),
            end as nat == end_index(hi as nat, scale as nat),
            r@.len() == i - first,
            forall|k: int|
                0 <= k < r@.len() ==> r@[k] as int == overlap(
                    (first + k) as nat,
                    lo as nat,
                    hi as nat,
                    scale as nat,
                ),
        decreases end - i,
    {
        let w = pixel_overlap(i, lo, hi, scale);
        r.push(w);
        i = i + 1;
    }
    r
}

/// The weights of a list of weighted indices.
pub open spec fn weights_of(entries: Seq<(usize, u64)>) -> Seq<int> {
    entries.map_values(|e: (usize, u64)| e.1 as int)
}

/// The pixels that the range `[lo, hi)` overlaps, each with its raw weight.
/// Positions are in units of `1 / scale` pixel. The weights sum to exactly
/// `hi - lo` (see `weights_sum_to_span`), so the normalised weight of an
/// entry is its weight divided by `hi - lo`; every weight is positive.
pub fn weighted_indices(lo: u64, hi: u64, scale: u64) -> (r: Vec<(usize, u64)>)
    requires
        valid_range(lo as nat, hi as nat, scale as nat),
        end_index(hi as nat, scale as nat) <= usize::MAX,
    ensures
        r@.len() == index_seq(lo as nat, hi as nat, scale as nat).len(),
        forall|k: int|
            0 <= k < r@.len() ==> {
                &&& r@[k].0 as int == #[trigger] index_seq(lo as nat, hi as nat, scale as nat)[k]
                &&& r@[k].1 as int == weight_seq(lo as nat, hi as nat, scale as nat)[k]
            },
        r@.len() == end_index(hi as nat, scale as nat) - first_index(lo as nat, scale as nat),
        forall|k: int|
            0 <= k < r@.len() ==> #[trigger] r@[k].0 as int == first_index(lo as nat, scale as nat)
                + k,
        forall|k: int| 0 <= k < r@.len() ==> 0 < #[trigger] r@[k].1 <= scale,
        sum_of(weights_of(r@)) == hi - lo,
{
    proof {
        weights_match_indices(lo as nat, hi as nat, scale as nat);
    }
    let idx = indices(lo, hi, scale);
    let ws = weights(lo, hi, scale);
    let mut r: Vec<(usize, u64)> = Vec::new();
    let mut k: usize = 0;
    while k < idx.len()
        invariant
            idx@.len() == ws@.len(),
            idx@.len() == index_seq(lo as nat, hi as nat, scale as nat).len(),
            k <= idx@.len(),
            r@.len() == k,
            forall|j: int| 0 <= j < k ==> #[trigger] r@[j] == (idx@[j], ws@[j]),
        decreases idx@.len() - k,
    {
        r.push((idx[k], ws[k]));
        k = k + 1;
    }
    proof {
        assert forall|j: int| 0 <= j < r@.len() implies {
            &&& r@[j].0 as int == #[trigger] index_seq(lo as nat, hi as nat, scale as nat)[j]
            &&& r@[j].1 as int == weight_seq(lo as nat, hi as nat, scale as nat)[j]
        } by {
            assert(r@[j] == (idx@[j], ws@[j]));
        }
        weights_positive(lo as nat, hi as nat, scale as nat);
        weights_sum_to_span(lo as nat, hi as nat, scale as nat);
        weights_match_indices(lo as nat, hi as nat, scale as nat);
        lemma_index_bounds(lo as nat, hi as nat, scale as nat);
        assert forall|k: int| 0 <= k < r@.len() implies #[trigger] r@[k].0 as int == first_index(
            lo as nat,
            scale as nat,
        ) + k by {
            assert(r@[k].0 as int == index_seq(lo as nat, hi as nat, scale as nat)[k]);
        }
        assert forall|k: int| 0 <= k < r@.len() implies 0 < #[trigger] r@[k].1 <= scale by {
            assert(r@[k].1 as int == weight_seq(lo as nat, hi as nat, scale as nat)[k]);
        }
        assert(weights_of(r@) =~= weight_seq(lo as nat, hi as nat, scale as nat));
    }
    r
}

} // verus!
