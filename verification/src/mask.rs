//! Utilities for masking raw integers by bit ranges, and the runtime forms
//! of bit extraction, insertion and placement.
use vstd::prelude::*;
use crate::bits::{bit, lemma_set_bit, lemma_zero_bits, lemma_and_bit, lemma_or_bit, lemma_not_bit,
    lemma_low_mask_bit, lemma_shl_bit, lemma_bits_below};
use crate::BitField;

verus! {

/// Logical bit `b` lies in one of the first `k` inclusive `(start, end)` pairs.
pub open spec fn selected_before(ranges: Seq<(u8, u8)>, k: int, b: int) -> bool {
    exists|i: int| 0 <= i < k && #[trigger] in_pair(ranges[i], b)
}

/// Logical bit `b` lies in one of the inclusive `(start, end)` pairs.
pub open spec fn selected(ranges: Seq<(u8, u8)>, b: int) -> bool {
    selected_before(ranges, ranges.len() as int, b)
}

/// `start <= b <= end`.
pub open spec fn in_pair(r: (u8, u8), b: int) -> bool {
    r.0 <= b <= r.1
}

/// Every non-empty pair stays below `width`, below 255, and within 128 bits
/// of the top of the `width`-bit value.
pub open spec fn msb0_ranges_ok(width: u32, ranges: Seq<(u8, u8)>) -> bool {
    forall|i: int| 0 <= i < ranges.len() && (#[trigger] ranges[i]).0 <= ranges[i].1
        ==> ranges[i].1 < width && ranges[i].1 < 255 && width - 1 - ranges[i].0 < 128
}

/// Every non-empty pair stays below bit 128.
pub open spec fn lsb0_ranges_ok(ranges: Seq<(u8, u8)>) -> bool {
    forall|i: int| 0 <= i < ranges.len() && (#[trigger] ranges[i]).0 <= ranges[i].1 ==> ranges[i].1 < 128
}

/// Physical bit `p` of a `width`-bit MSB-0 mask over `ranges` is set.
pub open spec fn msb0_selects(width: u32, ranges: Seq<(u8, u8)>, p: int) -> bool {
    p < width && selected(ranges, width - 1 - p)
}

/// Build a u128 bitmask in MSB0 ordering (bit 0 = MSB).
///
/// `width` is the total bit width of the storage type (e.g. 32 for `u32`).
/// Each element of `ranges` is an inclusive `(start, end)` pair; a pair with
/// `start > end` selects nothing.
pub fn msb0_mask(width: u32, ranges: &[(u8, u8)]) -> (mask: u128)
    requires
        msb0_ranges_ok(width, ranges@),
    ensures
        forall|p: int| 0 <= p ==> #[trigger] bit(mask, p as nat) == msb0_selects(width, ranges@, p),
{
    let mut mask = 0u128;
    proof { lemma_zero_bits(); }
    let n = ranges.len();
    let mut i: usize = 0;
    while i < n
        invariant
            n == ranges@.len(),
            0 <= i <= n,
            msb0_ranges_ok(width, ranges@),
            forall|p: int| 0 <= p ==> #[trigger] bit(mask, p as nat)
                == (p < width && selected_before(ranges@, i as int, width - 1 - p)),
        decreases n - i,
    {
        let (start, end) = ranges[i];
        let mut b = start;
        while b <= end
            invariant
                n == ranges@.len(),
                0 <= i < n,
                (start, end) == ranges@[i as int],
                msb0_ranges_ok(width, ranges@),
                start <= b,
                b <= end + 1 || b == start,
                start <= end ==> end < width && end < 255 && width - 1 - start < 128,
                forall|p: int| 0 <= p ==> #[trigger] bit(mask, p as nat)
                    == (p < width && (selected_before(ranges@, i as int, width - 1 - p)
                        || (start <= width - 1 - p < b))),
            decreases end + 1 - b,
        {
            let q = width - 1 - b as u32;
            let next = mask | (1u128 << q);
            proof {
                assert forall|p: int| 0 <= p implies #[trigger] bit(next, p as nat)
                    == (p < width && (selected_before(ranges@, i as int, width - 1 - p)
                        || (start <= width - 1 - p < b + 1))) by {
                    lemma_set_bit(mask, q as nat, p as nat);
                }
            }
            mask = next;
            b = b + 1;
        }
        proof {
            assert forall|p: int| 0 <= p implies #[trigger] bit(mask, p as nat)
                == (p < width && selected_before(ranges@, i as int + 1, width - 1 - p)) by {
                let lg = width - 1 - p;
                if p < width && selected_before(ranges@, i as int + 1, lg) {
                    let k = choose|k: int| 0 <= k < i + 1 && #[trigger] in_pair(ranges@[k], lg);
                    if k < i {
                        assert(selected_before(ranges@, i as int, lg));
                    }
                }
                if p < width && selected_before(ranges@, i as int, lg) {
                    let k = choose|k: int| 0 <= k < i && #[trigger] in_pair(ranges@[k], lg);
                    assert(in_pair(ranges@[k], lg));
                }
                if p < width && start <= lg < b {
                    assert(in_pair(ranges@[i as int], lg));
                }
            }
        }
        i = i + 1;
    }
    mask
}

/// Build a u128 bitmask in LSB0 ordering (bit 0 = LSB).
///
/// Each element of `ranges` is an inclusive `(start, end)` pair; a pair with
/// `start > end` selects nothing.
pub fn lsb0_mask(ranges: &[(u8, u8)]) -> (mask: u128)
    requires
        lsb0_ranges_ok(ranges@),
    ensures
        forall|p: int| 0 <= p ==> #[trigger] bit(mask, p as nat) == selected(ranges@, p),
{
    let mut mask = 0u128;
    proof { lemma_zero_bits(); }
    let n = ranges.len();
    let mut i: usize = 0;
    while i < n
        invariant
            n == ranges@.len(),
            0 <= i <= n,
            lsb0_ranges_ok(ranges@),
            forall|p: int| 0 <= p ==> #[trigger] bit(mask, p as nat) == selected_before(ranges@, i as int, p),
        decreases n - i,
    {
        let (start, end) = ranges[i];
        let mut b = start;
        while b <= end
            invariant
                n == ranges@.len(),
                0 <= i < n,
                (start, end) == ranges@[i as int],
                lsb0_ranges_ok(ranges@),
                start <= b,
                b <= end + 1 || b == start,
                start <= end ==> end < 128,
                forall|p: int| 0 <= p ==> #[trigger] bit(mask, p as nat)
                    == (selected_before(ranges@, i as int, p) || (start <= p < b)),
            decreases end + 1 - b,
        {
            let next = mask | (1u128 << b);
            proof {
                assert forall|p: int| 0 <= p implies #[trigger] bit(next, p as nat)
                    == (selected_before(ranges@, i as int, p) || (start <= p < b + 1)) by {
                    lemma_set_bit(mask, b as nat, p as nat);
                    if selected_before(ranges@, i as int, p) {
                        let k = choose|k: int| 0 <= k < i && #[trigger] in_pair(ranges@[k], p);
                        assert(ranges@[k].0 <= p <= ranges@[k].1);
                    }
                }
            }
            mask = next;
            b = b + 1;
        }
        proof {
            assert forall|p: int| 0 <= p implies #[trigger] bit(mask, p as nat)
                == selected_before(ranges@, i as int + 1, p) by {
                if selected_before(ranges@, i as int + 1, p) {
                    let k = choose|k: int| 0 <= k < i + 1 && #[trigger] in_pair(ranges@[k], p);
                    if k < i {
                        assert(selected_before(ranges@, i as int, p));
                    } else {
                        assert(ranges@[k].0 <= p <= ranges@[k].1 && ranges@[k].1 < 128);
                    }
                }
                if selected_before(ranges@, i as int, p) {
                    let k = choose|k: int| 0 <= k < i && #[trigger] in_pair(ranges@[k], p);
                    assert(in_pair(ranges@[k], p));
                    assert(ranges@[k].1 < 128);
                }
                if start <= p < b {
                    assert(in_pair(ranges@[i as int], p));
                }
            }
        }
        i = i + 1;
    }
    mask
}

/// Converts a half-open range to the inclusive pair used by the mask helpers.
///
/// Empty and reversed ranges use a `start > end` pair, which the mask helpers
/// treat as selecting no bits.
pub fn __half_open_pair(start: u8, end: u8) -> (r: (u8, u8))
    ensures
        forall|b: int| #[trigger] in_pair(r, b) <==> start <= b < end,
{
    if start < end {
        (start, end - 1)
    } else {
        (1, 0)
    }
}

} // verus!

verus! {

/// Physical bit `p` is selected by `ranges` in a value of `bits` bits with
/// the given ordering.
pub open spec fn selects(msb0: bool, bits: nat, ranges: Seq<(u8, u8)>, p: int) -> bool {
    &&& 0 <= p < bits
    &&& if msb0 { selected(ranges, bits - 1 - p) } else { selected(ranges, p) }
}

/// The ranges can be masked for the value's ordering and width.
pub open spec fn ranges_ok<T: BitField>(val: &T, ranges: Seq<(u8, u8)>) -> bool {
    if val.spec_is_msb0() {
        msb0_ranges_ok(val.spec_bits() as u32, ranges)
    } else {
        lsb0_ranges_ok(ranges)
    }
}

/// Compute the mask for a bitfield value, using the ordering and storage
/// width of its layout.
pub fn extract_mask<T: BitField>(val: &T, ranges: &[(u8, u8)]) -> (m: u128)
    requires
        val.spec_wf(),
        ranges_ok(val, ranges@),
    ensures
        forall|p: int| 0 <= p ==> #[trigger] bit(m, p as nat) == selects(val.spec_is_msb0(), val.spec_bits(), ranges@, p),
{
    let bits = val.storage_bits();
    let raw = if val.is_msb0() {
        msb0_mask(bits, ranges)
    } else {
        lsb0_mask(ranges)
    };
    let lm = crate::bits::low_mask_exec(bits);
    let m = raw & lm;
    proof {
        assert forall|p: int| 0 <= p implies #[trigger] bit(m, p as nat) == selects(val.spec_is_msb0(), val.spec_bits(), ranges@, p) by {
            lemma_and_bit(raw, lm, p as nat);
            lemma_low_mask_bit(bits as nat, p as nat);
        }
    }
    m
}

/// Keeps only the selected bits of a bitfield value, zeroing all others.
pub fn extract_bits_auto<T: BitField>(val: T, ranges: &[(u8, u8)]) -> (r: T)
    requires
        val.spec_wf(),
        ranges_ok(&val, ranges@),
    ensures
        r.spec_wf(),
        r.spec_is_msb0() == val.spec_is_msb0(),
        r.spec_bits() == val.spec_bits(),
        r.spec_same_kind(&val),
        forall|p: int| 0 <= p ==> #[trigger] bit(r.spec_raw(), p as nat)
            == (bit(val.spec_raw(), p as nat) && selects(val.spec_is_msb0(), val.spec_bits(), ranges@, p)),
{
    let m = extract_mask(&val, ranges);
    let x = val.raw_value();
    let raw = x & m;
    assert(raw <= x) by (bit_vector) requires raw == x & m;
    proof {
        assert forall|p: int| 0 <= p implies #[trigger] bit(raw, p as nat)
            == (bit(x, p as nat) && selects(val.spec_is_msb0(), val.spec_bits(), ranges@, p)) by {
            lemma_and_bit(x, m, p as nat);
        }
    }
    val.with_raw(raw)
}

/// Copies already-positioned bits from `src` into the selected ranges of
/// `dst`. Bits outside the ranges keep their value from `dst`.
pub fn insert_bits_auto<T: BitField>(dst: T, src: u128, ranges: &[(u8, u8)]) -> (r: T)
    requires
        dst.spec_wf(),
        ranges_ok(&dst, ranges@),
    ensures
        r.spec_wf(),
        r.spec_is_msb0() == dst.spec_is_msb0(),
        r.spec_bits() == dst.spec_bits(),
        r.spec_same_kind(&dst),
        forall|p: int| 0 <= p ==> #[trigger] bit(r.spec_raw(), p as nat)
            == if selects(dst.spec_is_msb0(), dst.spec_bits(), ranges@, p) {
                bit(src, p as nat)
            } else {
                bit(dst.spec_raw(), p as nat)
            },
{
    let m = extract_mask(&dst, ranges);
    let x = dst.raw_value();
    let raw = (x & !m) | (src & m);
    let bits = dst.storage_bits();
    proof {
        assert forall|p: int| 0 <= p implies #[trigger] bit(raw, p as nat)
            == if selects(dst.spec_is_msb0(), dst.spec_bits(), ranges@, p) {
                bit(src, p as nat)
            } else {
                bit(x, p as nat)
            } by {
            lemma_or_bit(x & !m, src & m, p as nat);
            lemma_and_bit(x, !m, p as nat);
            lemma_not_bit(m, p as nat);
            lemma_and_bit(src, m, p as nat);
        }
        lemma_bits_below(x, bits as nat);
        assert forall|p: int| bits <= p implies !#[trigger] bit(raw, p as nat) by {
            assert(!selects(dst.spec_is_msb0(), dst.spec_bits(), ranges@, p));
            assert(!bit(x, p as nat));
        }
        assert forall|i: nat| bits <= i implies !#[trigger] bit(raw, i) by {
            let p = i as int;
            assert(!bit(raw, p as nat));
        }
        lemma_bits_below(raw, bits as nat);
    }
    dst.with_raw(raw)
}

/// Shifts a right-aligned value into the range `lo..=hi` of `dst`. Bits of
/// `val` above the range's width are dropped; bits outside the range keep
/// their value from `dst`.
pub fn place_bits_auto<T: BitField>(dst: T, lo: u8, hi: u8, val: u128) -> (r: T)
    requires
        dst.spec_wf(),
        ranges_ok(&dst, seq![(lo, hi)]),
        dst.spec_is_msb0() ==> hi < dst.spec_bits(),
        !dst.spec_is_msb0() ==> lo < dst.spec_bits(),
    ensures
        r.spec_wf(),
        r.spec_is_msb0() == dst.spec_is_msb0(),
        r.spec_bits() == dst.spec_bits(),
        r.spec_same_kind(&dst),
        forall|p: int| 0 <= p ==> #[trigger] bit(r.spec_raw(), p as nat)
            == if selects(dst.spec_is_msb0(), dst.spec_bits(), seq![(lo, hi)], p) {
                bit(val, (p - place_shift(dst.spec_is_msb0(), dst.spec_bits(), lo, hi)) as nat)
            } else {
                bit(dst.spec_raw(), p as nat)
            },
{
    let bits = dst.storage_bits();
    let shift: u32 = if dst.is_msb0() { bits - 1 - hi as u32 } else { lo as u32 };
    let shifted = val << shift;
    let pair = [(lo, hi)];
    proof { assert(pair@ == seq![(lo, hi)]); }
    let r = insert_bits_auto(dst, shifted, &pair);
    proof {
        assert forall|p: int| 0 <= p implies #[trigger] bit(r.spec_raw(), p as nat)
            == if selects(dst.spec_is_msb0(), dst.spec_bits(), seq![(lo, hi)], p) {
                bit(val, (p - shift) as nat)
            } else {
                bit(dst.spec_raw(), p as nat)
            } by {
            lemma_shl_bit(val, shift as nat, p as nat);
            let lg = if dst.spec_is_msb0() { bits - 1 - p } else { p };
            if selects(dst.spec_is_msb0(), dst.spec_bits(), seq![(lo, hi)], p) {
                let k = choose|k: int| 0 <= k < 1 && #[trigger] in_pair(seq![(lo, hi)][k], lg);
                assert(k == 0);
            }
        }
    }
    r
}

/// The shift of `place_bits_auto`: `bits - 1 - hi` under MSB-0, `lo` under LSB-0.
pub open spec fn place_shift(msb0: bool, bits: nat, lo: u8, hi: u8) -> int {
    if msb0 { bits - 1 - hi } else { lo as int }
}

} // verus!

verus! {

/// A runtime bit or range accepted by the bit manipulation forms.
pub trait __BitSpec: Sized {
    /// The bit or range's endpoints fit `u8`.
    spec fn spec_fits(&self) -> bool;

    /// Logical bit `b` is selected.
    spec fn spec_selects(&self, b: int) -> bool;

    /// Converts the specification to an inclusive `(start, end)` pair.
    fn __inclusive_pair(self) -> (r: (u8, u8))
        requires
            self.spec_fits(),
        ensures
            forall|b: int| #[trigger] in_pair(r, b) <==> self.spec_selects(b);
}

impl __BitSpec for u8 {
    open spec fn spec_fits(&self) -> bool { true }

    open spec fn spec_selects(&self, b: int) -> bool { b == *self }

    fn __inclusive_pair(self) -> (r: (u8, u8)) {
        (self, self)
    }
}

impl __BitSpec for u16 {
    open spec fn spec_fits(&self) -> bool { *self <= 255 }

    open spec fn spec_selects(&self, b: int) -> bool { b == *self }

    fn __inclusive_pair(self) -> (r: (u8, u8)) {
        (self as u8, self as u8)
    }
}

impl __BitSpec for u32 {
    open spec fn spec_fits(&self) -> bool { *self <= 255 }

    open spec fn spec_selects(&self, b: int) -> bool { b == *self }

    fn __inclusive_pair(self) -> (r: (u8, u8)) {
        (self as u8, self as u8)
    }
}

impl __BitSpec for u64 {
    open spec fn spec_fits(&self) -> bool { *self <= 255 }

    open spec fn spec_selects(&self, b: int) -> bool { b == *self }

    fn __inclusive_pair(self) -> (r: (u8, u8)) {
        (self as u8, self as u8)
    }
}

impl __BitSpec for usize {
    open spec fn spec_fits(&self) -> bool { *self <= 255 }

    open spec fn spec_selects(&self, b: int) -> bool { b == *self }

    fn __inclusive_pair(self) -> (r: (u8, u8)) {
        (self as u8, self as u8)
    }
}

impl __BitSpec for i32 {
    open spec fn spec_fits(&self) -> bool { 0 <= *self <= 255 }

    open spec fn spec_selects(&self, b: int) -> bool { b == *self }

    fn __inclusive_pair(self) -> (r: (u8, u8)) {
        (self as u8, self as u8)
    }
}

impl __BitSpec for u128 {
    open spec fn spec_fits(&self) -> bool { *self <= 255 }

    open spec fn spec_selects(&self, b: int) -> bool { b == *self }

    fn __inclusive_pair(self) -> (r: (u8, u8)) {
        (self as u8, self as u8)
    }
}

impl __BitSpec for i8 {
    open spec fn spec_fits(&self) -> bool { 0 <= *self }

    open spec fn spec_selects(&self, b: int) -> bool { b == *self }

    fn __inclusive_pair(self) -> (r: (u8, u8)) {
        (self as u8, self as u8)
    }
}

impl __BitSpec for i16 {
    open spec fn spec_fits(&self) -> bool { 0 <= *self <= 255 }

    open spec fn spec_selects(&self, b: int) -> bool { b == *self }

    fn __inclusive_pair(self) -> (r: (u8, u8)) {
        (self as u8, self as u8)
    }
}

impl __BitSpec for i64 {
    open spec fn spec_fits(&self) -> bool { 0 <= *self <= 255 }

    open spec fn spec_selects(&self, b: int) -> bool { b == *self }

    fn __inclusive_pair(self) -> (r: (u8, u8)) {
        (self as u8, self as u8)
    }
}

impl __BitSpec for i128 {
    open spec fn spec_fits(&self) -> bool { 0 <= *self <= 255 }

    open spec fn spec_selects(&self, b: int) -> bool { b == *self }

    fn __inclusive_pair(self) -> (r: (u8, u8)) {
        (self as u8, self as u8)
    }
}

impl __BitSpec for isize {
    open spec fn spec_fits(&self) -> bool { 0 <= *self <= 255 }

    open spec fn spec_selects(&self, b: int) -> bool { b == *self }

    fn __inclusive_pair(self) -> (r: (u8, u8)) {
        (self as u8, self as u8)
    }
}

impl __BitSpec for core::ops::Range<u8> {
    open spec fn spec_fits(&self) -> bool { true }

    open spec fn spec_selects(&self, b: int) -> bool { self.start <= b < self.end }

    fn __inclusive_pair(self) -> (r: (u8, u8)) {
        __half_open_pair(self.start, self.end)
    }
}

impl __BitSpec for core::ops::Range<u32> {
    open spec fn spec_fits(&self) -> bool { self.start <= 255 && self.end <= 255 }

    open spec fn spec_selects(&self, b: int) -> bool { self.start <= b < self.end }

    fn __inclusive_pair(self) -> (r: (u8, u8)) {
        __half_open_pair(self.start as u8, self.end as u8)
    }
}

impl __BitSpec for core::ops::Range<usize> {
    open spec fn spec_fits(&self) -> bool { self.start <= 255 && self.end <= 255 }

    open spec fn spec_selects(&self, b: int) -> bool { self.start <= b < self.end }

    fn __inclusive_pair(self) -> (r: (u8, u8)) {
        __half_open_pair(self.start as u8, self.end as u8)
    }
}

impl __BitSpec for core::ops::Range<i32> {
    open spec fn spec_fits(&self) -> bool { 0 <= self.start <= 255 && 0 <= self.end <= 255 }

    open spec fn spec_selects(&self, b: int) -> bool { self.start <= b < self.end }

    fn __inclusive_pair(self) -> (r: (u8, u8)) {
        __half_open_pair(self.start as u8, self.end as u8)
    }
}

impl __BitSpec for core::ops::Range<u16> {
    open spec fn spec_fits(&self) -> bool { self.start <= 255 && self.end <= 255 }

    open spec fn spec_selects(&self, b: int) -> bool { self.start <= b < self.end }

    fn __inclusive_pair(self) -> (r: (u8, u8)) {
        __half_open_pair(self.start as u8, self.end as u8)
    }
}

impl __BitSpec for core::ops::Range<u64> {
    open spec fn spec_fits(&self) -> bool { self.start <= 255 && self.end <= 255 }

    open spec fn spec_selects(&self, b: int) -> bool { self.start <= b < self.end }

    fn __inclusive_pair(self) -> (r: (u8, u8)) {
        __half_open_pair(self.start as u8, self.end as u8)
    }
}

impl __BitSpec for core::ops::Range<i64> {
    open spec fn spec_fits(&self) -> bool { 0 <= self.start <= 255 && 0 <= self.end <= 255 }

    open spec fn spec_selects(&self, b: int) -> bool { self.start <= b < self.end }

    fn __inclusive_pair(self) -> (r: (u8, u8)) {
        __half_open_pair(self.start as u8, self.end as u8)
    }
}

/// The bounds of the range `start..=end`.
///
/// Calls `RangeInclusive::into_inner`. Its documentation gives the lower and
/// the (inclusive) upper bound of a range that has not been iterated to
/// exhaustion, and leaves the result unspecified after that; the contract
/// says nothing of an exhausted range.
#[verifier::external_body]
fn inclusive_bounds<T>(r: core::ops::RangeInclusive<T>) -> (b: (T, T))
    ensures
        !r@.exhausted ==> b.0 == r@.start && b.1 == r@.end,
{
    r.into_inner()
}

impl __BitSpec for core::ops::RangeInclusive<u8> {
    open spec fn spec_fits(&self) -> bool { !self@.exhausted }

    open spec fn spec_selects(&self, b: int) -> bool { self@.start <= b <= self@.end }

    fn __inclusive_pair(self) -> (r: (u8, u8)) {
        let (s, e) = inclusive_bounds(self);
        let (s, e) = (s, e);
        if s <= e {
            (s, e)
        } else {
            (1, 0)
        }
    }
}

impl __BitSpec for core::ops::RangeInclusive<u16> {
    open spec fn spec_fits(&self) -> bool { !self@.exhausted && self@.start <= 255 && self@.end <= 255 }

    open spec fn spec_selects(&self, b: int) -> bool { self@.start <= b <= self@.end }

    fn __inclusive_pair(self) -> (r: (u8, u8)) {
        let (s, e) = inclusive_bounds(self);
        let (s, e) = (s as u8, e as u8);
        if s <= e {
            (s, e)
        } else {
            (1, 0)
        }
    }
}

impl __BitSpec for core::ops::RangeInclusive<u32> {
    open spec fn spec_fits(&self) -> bool { !self@.exhausted && self@.start <= 255 && self@.end <= 255 }

    open spec fn spec_selects(&self, b: int) -> bool { self@.start <= b <= self@.end }

    fn __inclusive_pair(self) -> (r: (u8, u8)) {
        let (s, e) = inclusive_bounds(self);
        let (s, e) = (s as u8, e as u8);
        if s <= e {
            (s, e)
        } else {
            (1, 0)
        }
    }
}

impl __BitSpec for core::ops::RangeInclusive<u64> {
    open spec fn spec_fits(&self) -> bool { !self@.exhausted && self@.start <= 255 && self@.end <= 255 }

    open spec fn spec_selects(&self, b: int) -> bool { self@.start <= b <= self@.end }

    fn __inclusive_pair(self) -> (r: (u8, u8)) {
        let (s, e) = inclusive_bounds(self);
        let (s, e) = (s as u8, e as u8);
        if s <= e {
            (s, e)
        } else {
            (1, 0)
        }
    }
}

impl __BitSpec for core::ops::RangeInclusive<usize> {
    open spec fn spec_fits(&self) -> bool { !self@.exhausted && self@.start <= 255 && self@.end <= 255 }

    open spec fn spec_selects(&self, b: int) -> bool { self@.start <= b <= self@.end }

    fn __inclusive_pair(self) -> (r: (u8, u8)) {
        let (s, e) = inclusive_bounds(self);
        let (s, e) = (s as u8, e as u8);
        if s <= e {
            (s, e)
        } else {
            (1, 0)
        }
    }
}

impl __BitSpec for core::ops::RangeInclusive<i32> {
    open spec fn spec_fits(&self) -> bool { !self@.exhausted && 0 <= self@.start <= 255 && 0 <= self@.end <= 255 }

    open spec fn spec_selects(&self, b: int) -> bool { self@.start <= b <= self@.end }

    fn __inclusive_pair(self) -> (r: (u8, u8)) {
        let (s, e) = inclusive_bounds(self);
        let (s, e) = (s as u8, e as u8);
        if s <= e {
            (s, e)
        } else {
            (1, 0)
        }
    }
}

impl __BitSpec for core::ops::RangeInclusive<i64> {
    open spec fn spec_fits(&self) -> bool { !self@.exhausted && 0 <= self@.start <= 255 && 0 <= self@.end <= 255 }

    open spec fn spec_selects(&self, b: int) -> bool { self@.start <= b <= self@.end }

    fn __inclusive_pair(self) -> (r: (u8, u8)) {
        let (s, e) = inclusive_bounds(self);
        let (s, e) = (s as u8, e as u8);
        if s <= e {
            (s, e)
        } else {
            (1, 0)
        }
    }
}

impl __BitSpec for core::ops::Range<u128> {
    open spec fn spec_fits(&self) -> bool { self.start <= 255 && self.end <= 255 }

    open spec fn spec_selects(&self, b: int) -> bool { self.start <= b < self.end }

    fn __inclusive_pair(self) -> (r: (u8, u8)) {
        __half_open_pair(self.start as u8, self.end as u8)
    }
}

impl __BitSpec for core::ops::RangeInclusive<u128> {
    open spec fn spec_fits(&self) -> bool { !self@.exhausted && self@.start <= 255 && self@.end <= 255 }

    open spec fn spec_selects(&self, b: int) -> bool { self@.start <= b <= self@.end }

    fn __inclusive_pair(self) -> (r: (u8, u8)) {
        let (s, e) = inclusive_bounds(self);
        let (s, e) = (s as u8, e as u8);
        if s <= e {
            (s, e)
        } else {
            (1, 0)
        }
    }
}

impl __BitSpec for core::ops::Range<i8> {
    open spec fn spec_fits(&self) -> bool { 0 <= self.start && 0 <= self.end }

    open spec fn spec_selects(&self, b: int) -> bool { self.start <= b < self.end }

    fn __inclusive_pair(self) -> (r: (u8, u8)) {
        __half_open_pair(self.start as u8, self.end as u8)
    }
}

impl __BitSpec for core::ops::RangeInclusive<i8> {
    open spec fn spec_fits(&self) -> bool { !self@.exhausted && 0 <= self@.start && 0 <= self@.end }

    open spec fn spec_selects(&self, b: int) -> bool { self@.start <= b <= self@.end }

    fn __inclusive_pair(self) -> (r: (u8, u8)) {
        let (s, e) = inclusive_bounds(self);
        let (s, e) = (s as u8, e as u8);
        if s <= e {
            (s, e)
        } else {
            (1, 0)
        }
    }
}

impl __BitSpec for core::ops::Range<i16> {
    open spec fn spec_fits(&self) -> bool { 0 <= self.start <= 255 && 0 <= self.end <= 255 }

    open spec fn spec_selects(&self, b: int) -> bool { self.start <= b < self.end }

    fn __inclusive_pair(self) -> (r: (u8, u8)) {
        __half_open_pair(self.start as u8, self.end as u8)
    }
}

impl __BitSpec for core::ops::RangeInclusive<i16> {
    open spec fn spec_fits(&self) -> bool { !self@.exhausted && 0 <= self@.start <= 255 && 0 <= self@.end <= 255 }

    open spec fn spec_selects(&self, b: int) -> bool { self@.start <= b <= self@.end }

    fn __inclusive_pair(self) -> (r: (u8, u8)) {
        let (s, e) = inclusive_bounds(self);
        let (s, e) = (s as u8, e as u8);
        if s <= e {
            (s, e)
        } else {
            (1, 0)
        }
    }
}

impl __BitSpec for core::ops::Range<i128> {
    open spec fn spec_fits(&self) -> bool { 0 <= self.start <= 255 && 0 <= self.end <= 255 }

    open spec fn spec_selects(&self, b: int) -> bool { self.start <= b < self.end }

    fn __inclusive_pair(self) -> (r: (u8, u8)) {
        __half_open_pair(self.start as u8, self.end as u8)
    }
}

impl __BitSpec for core::ops::RangeInclusive<i128> {
    open spec fn spec_fits(&self) -> bool { !self@.exhausted && 0 <= self@.start <= 255 && 0 <= self@.end <= 255 }

    open spec fn spec_selects(&self, b: int) -> bool { self@.start <= b <= self@.end }

    fn __inclusive_pair(self) -> (r: (u8, u8)) {
        let (s, e) = inclusive_bounds(self);
        let (s, e) = (s as u8, e as u8);
        if s <= e {
            (s, e)
        } else {
            (1, 0)
        }
    }
}

impl __BitSpec for core::ops::Range<isize> {
    open spec fn spec_fits(&self) -> bool { 0 <= self.start <= 255 && 0 <= self.end <= 255 }

    open spec fn spec_selects(&self, b: int) -> bool { self.start <= b < self.end }

    fn __inclusive_pair(self) -> (r: (u8, u8)) {
        __half_open_pair(self.start as u8, self.end as u8)
    }
}

impl __BitSpec for core::ops::RangeInclusive<isize> {
    open spec fn spec_fits(&self) -> bool { !self@.exhausted && 0 <= self@.start <= 255 && 0 <= self@.end <= 255 }

    open spec fn spec_selects(&self, b: int) -> bool { self@.start <= b <= self@.end }

    fn __inclusive_pair(self) -> (r: (u8, u8)) {
        let (s, e) = inclusive_bounds(self);
        let (s, e) = (s as u8, e as u8);
        if s <= e {
            (s, e)
        } else {
            (1, 0)
        }
    }
}

/// Normalizes a runtime bit or range to an inclusive pair selecting the same
/// bits.
pub fn __bit_spec_pair<S: __BitSpec>(spec: S) -> (r: (u8, u8))
    requires
        spec.spec_fits(),
    ensures
        forall|b: int| #[trigger] in_pair(r, b) <==> spec.spec_selects(b),
{
    spec.__inclusive_pair()
}

} // verus!
