//! From logical bit ranges to physical shifts and masks.
use vstd::prelude::*;
use crate::bits::{bit, low_mask, low_mask_exec, lemma_shl_bit, lemma_low_mask_bit};
use crate::model::{BitOrder, BitRange, ranges_overlap, range_width, ranges_width};

verus! {

/// Physical bit-manipulation parameters derived from a logical [`BitRange`].
#[derive(Debug, Clone, Copy, PartialEq, Eq, Structural)]
pub struct PhysicalBits {
    /// Number of positions to shift the field value before OR-ing into storage.
    pub shift: u32,
    /// Width of the field in bits.
    pub field_width: u32,
    /// Bitmask with the field's bits set, in storage position (already shifted).
    pub mask: u128,
}

/// Physical position (counted from the least-significant bit) of the lowest
/// bit of `r`: `r.start` under LSB-0, `width - 1 - r.end` under MSB-0.
pub open spec fn phys_shift(order: BitOrder, r: BitRange, effective_width: nat) -> int {
    match order {
        BitOrder::Lsb0 => r.start as int,
        BitOrder::Msb0 => effective_width - 1 - r.end,
    }
}

/// `lo <= i < lo + w`.
pub open spec fn in_span(i: int, lo: int, w: int) -> bool {
    lo <= i < lo + w
}

/// Inputs on which [`compute`] runs without overflow.
pub open spec fn compute_ok(order: BitOrder, range: BitRange, effective_width: nat) -> bool {
    &&& range.start <= range.end
    &&& range.end - range.start + 1 <= u32::MAX
    &&& order == BitOrder::Msb0 ==> range.end < effective_width
    &&& range.end - range.start + 1 < 128 ==> match order {
        BitOrder::Lsb0 => range.start < 128,
        BitOrder::Msb0 => effective_width - 1 - range.end < 128,
    }
}

/// Converts a logical `range` + `order` into the shift and mask needed to
/// read/write the field in a `effective_width`-bit storage value.
///
/// - **LSB-0**: physical shift equals `range.start`.
/// - **MSB-0**: bit 0 is the most-significant bit, so the physical shift is
///   `effective_width - 1 - range.end`.
///
/// The mask has exactly the bits `shift .. shift + field_width` set (those
/// that fit in 128 bits), and is all ones for a field of 128 bits or more.
pub fn compute(order: BitOrder, range: &BitRange, effective_width: u32) -> (p: PhysicalBits)
    requires
        compute_ok(order, *range, effective_width as nat),
    ensures
        p.shift == phys_shift(order, *range, effective_width as nat),
        p.field_width == range_width(*range),
        p.field_width >= 128 ==> p.mask == u128::MAX,
        p.field_width < 128 ==> forall|i: nat| #[trigger] bit(p.mask, i)
            == (i < 128 && in_span(i as int, p.shift as int, p.field_width as int)),
{
    let field_width = range.end - range.start + 1;
    let shift = match order {
        BitOrder::Lsb0 => range.start,
        BitOrder::Msb0 => effective_width - 1 - range.end,
    };
    let mask = if field_width >= 128 {
        u128::MAX
    } else {
        let m = low_mask_exec(field_width) << shift;
        proof {
            assert forall|i: nat| #[trigger] bit(m, i)
                == (i < 128 && in_span(i as int, shift as int, field_width as int)) by {
                lemma_shl_bit(low_mask(field_width as nat), shift as nat, i);
                if shift <= i {
                    lemma_low_mask_bit(field_width as nat, (i - shift) as nat);
                }
            }
        }
        m
    };
    PhysicalBits { shift, field_width, mask }
}

/// One contiguous piece of a field: `width` bits of storage starting at
/// physical bit `offset` hold the value bits starting at `value_offset`.
#[derive(Debug, Clone, Copy, PartialEq, Eq, Structural)]
pub struct FieldSegment {
    /// Physical position of the segment's lowest bit.
    pub offset: u32,
    /// Position in the field value of the segment's lowest bit.
    pub value_offset: u32,
    /// Number of bits.
    pub width: u32,
}

/// The segments of a field declared with `ranges`: declaration order, rather
/// than physical position, controls concatenation, and the first range holds
/// the most significant chunk of the value.
pub open spec fn segments_for(order: BitOrder, ranges: Seq<BitRange>, effective_width: nat) -> Seq<FieldSegment> {
    Seq::new(ranges.len(), |k: int| FieldSegment {
        offset: phys_shift(order, ranges[k], effective_width) as u32,
        value_offset: (ranges_width(ranges) - ranges_width(ranges.subrange(0, k + 1))) as u32,
        width: range_width(ranges[k]) as u32,
    })
}

/// Value bit `j` of a field with segments `segs` lives at physical bit `p`.
pub open spec fn maps(segs: Seq<FieldSegment>, j: int, p: int) -> bool {
    exists|k: int| 0 <= k < segs.len() && #[trigger] maps_at(segs[k], j, p)
}

/// Value bit `j` lives at physical bit `p` within segment `s`.
pub open spec fn maps_at(s: FieldSegment, j: int, p: int) -> bool {
    &&& in_span(j, s.value_offset as int, s.width as int)
    &&& p == s.offset + (j - s.value_offset)
}

/// Physical bit `p` belongs to one of the segments.
pub open spec fn in_segments(segs: Seq<FieldSegment>, p: int) -> bool {
    exists|k: int| 0 <= k < segs.len() && #[trigger] in_span(p, segs[k].offset as int, segs[k].width as int)
}

/// Segments of a field `width` bits wide: every value bit below `width` lives
/// in exactly one segment, segments do not share physical bits, and all
/// physical bits lie below `limit`.
pub open spec fn segments_wf(segs: Seq<FieldSegment>, width: nat, limit: nat) -> bool {
    &&& limit <= 128
    &&& width <= 128
    &&& forall|k: int| 0 <= k < segs.len() ==> {
        &&& 1 <= (#[trigger] segs[k]).width
        &&& segs[k].offset + segs[k].width <= limit
        &&& segs[k].value_offset + segs[k].width <= width
    }
    &&& forall|k1: int, k2: int| 0 <= k1 < segs.len() && 0 <= k2 < segs.len() && k1 != k2 ==> {
        &&& (#[trigger] segs[k1]).value_offset + segs[k1].width <= (#[trigger] segs[k2]).value_offset
            || segs[k2].value_offset + segs[k2].width <= segs[k1].value_offset
        &&& segs[k1].offset + segs[k1].width <= segs[k2].offset
            || segs[k2].offset + segs[k2].width <= segs[k1].offset
    }
    &&& forall|j: int| 0 <= j < width ==> #[trigger] value_covered(segs, j)
}

/// Value bit `j` lies in one of the segments.
pub open spec fn value_covered(segs: Seq<FieldSegment>, j: int) -> bool {
    exists|k: int| 0 <= k < segs.len() && #[trigger] in_span(j, segs[k].value_offset as int, segs[k].width as int)
}

/// Ranges that stay inside `effective_width`, none backwards and none sharing
/// a bit with another.
pub open spec fn ranges_wf(ranges: Seq<BitRange>, effective_width: nat) -> bool {
    &&& forall|k: int| 0 <= k < ranges.len() ==>
        (#[trigger] ranges[k]).start <= ranges[k].end && ranges[k].end < effective_width
    &&& forall|k1: int, k2: int| 0 <= k1 < k2 < ranges.len() ==>
        !ranges_overlap(#[trigger] ranges[k1], #[trigger] ranges[k2])
}

pub proof fn lemma_ranges_width_prefix_mono(rs: Seq<BitRange>, a: int, b: int)
    requires
        0 <= a <= b <= rs.len(),
    ensures
        ranges_width(rs.subrange(0, a)) <= ranges_width(rs.subrange(0, b)),
    decreases b - a,
{
    if a < b {
        lemma_ranges_width_prefix_mono(rs, a, b - 1);
        assert(rs.subrange(0, b).drop_last() =~= rs.subrange(0, b - 1));
    }
}

/// The prefix of length `k + 1` adds the width of range `k`.
pub proof fn lemma_ranges_width_step(rs: Seq<BitRange>, k: int)
    requires
        0 <= k < rs.len(),
    ensures
        ranges_width(rs.subrange(0, k + 1)) == ranges_width(rs.subrange(0, k)) + range_width(rs[k]),
{
    assert(rs.subrange(0, k + 1).drop_last() =~= rs.subrange(0, k));
}

proof fn lemma_find_chunk(rs: Seq<BitRange>, m: int, t: int)
    requires
        0 <= m <= rs.len(),
        0 <= t < ranges_width(rs.subrange(0, m)),
    ensures
        exists|k: int| 0 <= k < m && ranges_width(rs.subrange(0, k)) <= t
            && t < #[trigger] ranges_width(rs.subrange(0, k + 1)),
    decreases m,
{
    assert(rs.subrange(0, 0) =~= Seq::<BitRange>::empty());
    if m == 0 {
    } else {
        lemma_ranges_width_step(rs, m - 1);
        if t < ranges_width(rs.subrange(0, m - 1)) {
            lemma_find_chunk(rs, m - 1, t);
            let k = choose|k: int| 0 <= k < m - 1 && ranges_width(rs.subrange(0, k)) <= t
                && t < #[trigger] ranges_width(rs.subrange(0, k + 1));
            assert(0 <= k < m);
        } else {
            assert(ranges_width(rs.subrange(0, m - 1)) <= t && t < ranges_width(rs.subrange(0, m)));
        }
    }
}

/// Segments built from well-formed ranges are well formed.
pub proof fn lemma_segments_for_wf(order: BitOrder, ranges: Seq<BitRange>, effective_width: nat)
    requires
        ranges_wf(ranges, effective_width),
        effective_width <= 128,
        ranges_width(ranges) <= 128,
    ensures
        segments_wf(segments_for(order, ranges, effective_width), ranges_width(ranges), effective_width),
{
    let segs = segments_for(order, ranges, effective_width);
    let total = ranges_width(ranges);
    let n = ranges.len() as int;
    assert(ranges.subrange(0, n) =~= ranges);
    assert forall|k: int| 0 <= k < segs.len() implies {
        &&& 1 <= (#[trigger] segs[k]).width
        &&& segs[k].offset + segs[k].width <= effective_width
        &&& segs[k].value_offset + segs[k].width <= total
    } by {
        lemma_ranges_width_step(ranges, k);
        lemma_ranges_width_prefix_mono(ranges, k + 1, n);
        lemma_ranges_width_prefix_mono(ranges, 0, k);
    }
    assert forall|k1: int, k2: int| 0 <= k1 < segs.len() && 0 <= k2 < segs.len() && k1 != k2 implies {
        &&& (#[trigger] segs[k1]).value_offset + segs[k1].width <= (#[trigger] segs[k2]).value_offset
            || segs[k2].value_offset + segs[k2].width <= segs[k1].value_offset
        &&& segs[k1].offset + segs[k1].width <= segs[k2].offset
            || segs[k2].offset + segs[k2].width <= segs[k1].offset
    } by {
        lemma_ranges_width_step(ranges, k1);
        lemma_ranges_width_step(ranges, k2);
        lemma_ranges_width_prefix_mono(ranges, k1 + 1, n);
        lemma_ranges_width_prefix_mono(ranges, k2 + 1, n);
        if k1 < k2 {
            lemma_ranges_width_prefix_mono(ranges, k1 + 1, k2);
            assert(!ranges_overlap(ranges[k1], ranges[k2]));
        } else {
            lemma_ranges_width_prefix_mono(ranges, k2 + 1, k1);
            assert(!ranges_overlap(ranges[k2], ranges[k1]));
        }
    }
    assert forall|j: int| 0 <= j < total implies #[trigger] value_covered(segs, j) by {
        let t = total - 1 - j;
        lemma_find_chunk(ranges, n, t);
        let k = choose|k: int| 0 <= k < n && ranges_width(ranges.subrange(0, k)) <= t
            && t < #[trigger] ranges_width(ranges.subrange(0, k + 1));
        lemma_ranges_width_step(ranges, k);
        lemma_ranges_width_prefix_mono(ranges, k + 1, n);
        assert(in_span(j, segs[k].value_offset as int, segs[k].width as int));
    }
}

/// Builds the segments of a field declared with `ranges`.
pub fn field_segments(order: BitOrder, ranges: &Vec<BitRange>, effective_width: u32) -> (segs: Vec<FieldSegment>)
    requires
        ranges_wf(ranges@, effective_width as nat),
        effective_width <= 128,
        ranges_width(ranges@) <= 128,
    ensures
        segs@ == segments_for(order, ranges@, effective_width as nat),
{
    let n = ranges.len();
    let ghost rs = ranges@;
    // Total width first.
    let mut total: u32 = 0;
    let mut i: usize = 0;
    while i < n
        invariant
            n == rs.len(),
            rs == ranges@,
            0 <= i <= n,
            total == ranges_width(rs.subrange(0, i as int)),
            ranges_width(rs) <= 128,
            ranges_wf(rs, effective_width as nat),
        decreases n - i,
    {
        proof {
            lemma_ranges_width_step(rs, i as int);
            lemma_ranges_width_prefix_mono(rs, i as int + 1, n as int);
            assert(rs.subrange(0, n as int) =~= rs);
            assert(rs[i as int].start <= rs[i as int].end);
        }
        total = total + (ranges[i].end - ranges[i].start + 1);
        i = i + 1;
    }
    proof { assert(rs.subrange(0, n as int) =~= rs); }
    let mut segs: Vec<FieldSegment> = Vec::new();
    let mut prefix: u32 = 0;
    let mut k: usize = 0;
    while k < n
        invariant
            n == rs.len(),
            rs == ranges@,
            0 <= k <= n,
            total == ranges_width(rs),
            prefix == ranges_width(rs.subrange(0, k as int)),
            ranges_width(rs) <= 128,
            effective_width <= 128,
            ranges_wf(rs, effective_width as nat),
            segs@.len() == k,
            forall|m: int| 0 <= m < k ==> #[trigger] segs@[m] == segments_for(order, rs, effective_width as nat)[m],
        decreases n - k,
    {
        let r = ranges[k];
        proof {
            lemma_ranges_width_step(rs, k as int);
            lemma_ranges_width_prefix_mono(rs, k as int + 1, n as int);
            assert(rs.subrange(0, n as int) =~= rs);
        }
        let w = r.end - r.start + 1;
        let offset = match order {
            BitOrder::Lsb0 => r.start,
            BitOrder::Msb0 => effective_width - 1 - r.end,
        };
        prefix = prefix + w;
        segs.push(FieldSegment { offset, value_offset: total - prefix, width: w });
        k = k + 1;
    }
    proof {
        assert(segs@ =~= segments_for(order, rs, effective_width as nat));
    }
    segs
}

} // verus!
