//! Reading and writing a field's bits through its segments.
use vstd::prelude::*;
use vstd::arithmetic::power2::pow2;
use crate::bits::{bit, low_mask, lemma_zero_bits, low_mask_exec, lemma_and_bit, lemma_or_bit, lemma_not_bit,
    lemma_shl_bit, lemma_shr_bit, lemma_low_mask_bit, lemma_bits_below};
use crate::ordering::{FieldSegment, in_span, maps, maps_at, in_segments, segments_wf, value_covered};

verus! {

/// Bit `j` of the value gathered from the first `k` segments.
pub open spec fn gathered(segs: Seq<FieldSegment>, k: int, raw: u128, j: int) -> bool
    decreases k,
{
    if k <= 0 {
        false
    } else {
        let s = segs[k - 1];
        if in_span(j, s.value_offset as int, s.width as int) {
            bit(raw, (s.offset + j - s.value_offset) as nat)
        } else {
            gathered(segs, k - 1, raw, j)
        }
    }
}

/// Bit `p` of `raw` after the first `k` segments have received their chunk of `v`.
pub open spec fn placed(segs: Seq<FieldSegment>, k: int, raw: u128, v: u128, p: int) -> bool
    decreases k,
{
    if k <= 0 {
        bit(raw, p as nat)
    } else {
        let s = segs[k - 1];
        if in_span(p, s.offset as int, s.width as int) {
            bit(v, (s.value_offset + p - s.offset) as nat)
        } else {
            placed(segs, k - 1, raw, v, p)
        }
    }
}

proof fn lemma_gathered_maps(segs: Seq<FieldSegment>, width: nat, limit: nat, k: int, raw: u128, j: int, p: int, m: int)
    requires
        segments_wf(segs, width, limit),
        0 <= k <= segs.len(),
        0 <= m < segs.len(),
        maps_at(segs[m], j, p),
    ensures
        gathered(segs, k, raw, j) == (m < k && bit(raw, p as nat)),
    decreases k,
{
    if k > 0 {
        let s = segs[k - 1];
        if k - 1 != m {
            assert(!in_span(j, s.value_offset as int, s.width as int)) by {
                let a = segs[k - 1];
                let b = segs[m];
                assert(a.value_offset + a.width <= b.value_offset || b.value_offset + b.width <= a.value_offset);
            }
        }
        lemma_gathered_maps(segs, width, limit, k - 1, raw, j, p, m);
    }
}

proof fn lemma_gathered_disjoint(segs: Seq<FieldSegment>, width: nat, limit: nat, k: int, raw: u128, j: int)
    requires
        segments_wf(segs, width, limit),
        0 <= k < segs.len(),
        in_span(j, segs[k].value_offset as int, segs[k].width as int),
    ensures
        !gathered(segs, k, raw, j),
{
    assert forall|m: int| 0 <= m < k implies !#[trigger] in_span(j, segs[m].value_offset as int, segs[m].width as int) by {
        let a = segs[m];
        let b = segs[k];
        assert(a.value_offset + a.width <= b.value_offset || b.value_offset + b.width <= a.value_offset);
    }
    lemma_gathered_prefix_uncovered(segs, k, raw, j);
}

proof fn lemma_gathered_prefix_uncovered(segs: Seq<FieldSegment>, k: int, raw: u128, j: int)
    requires
        0 <= k <= segs.len(),
        forall|m: int| 0 <= m < k ==> !#[trigger] in_span(j, segs[m].value_offset as int, segs[m].width as int),
    ensures
        !gathered(segs, k, raw, j),
    decreases k,
{
    if k > 0 {
        assert(!in_span(j, segs[k - 1].value_offset as int, segs[k - 1].width as int));
        lemma_gathered_prefix_uncovered(segs, k - 1, raw, j);
    }
}

proof fn lemma_gathered_uncovered(segs: Seq<FieldSegment>, k: int, raw: u128, j: int)
    requires
        0 <= k <= segs.len(),
        !value_covered(segs, j),
    ensures
        !gathered(segs, k, raw, j),
    decreases k,
{
    if k > 0 {
        assert(!in_span(j, segs[k - 1].value_offset as int, segs[k - 1].width as int));
        lemma_gathered_uncovered(segs, k - 1, raw, j);
    }
}

proof fn lemma_placed_maps(segs: Seq<FieldSegment>, width: nat, limit: nat, k: int, raw: u128, v: u128, j: int, p: int, m: int)
    requires
        segments_wf(segs, width, limit),
        0 <= k <= segs.len(),
        0 <= m < k,
        maps_at(segs[m], j, p),
    ensures
        placed(segs, k, raw, v, p) == bit(v, j as nat),
    decreases k,
{
    let s = segs[k - 1];
    if k - 1 != m {
        assert(!in_span(p, s.offset as int, s.width as int)) by {
            let a = segs[k - 1];
            let b = segs[m];
            assert(a.offset + a.width <= b.offset || b.offset + b.width <= a.offset);
        }
        lemma_placed_maps(segs, width, limit, k - 1, raw, v, j, p, m);
    }
}

proof fn lemma_placed_outside(segs: Seq<FieldSegment>, k: int, raw: u128, v: u128, p: int)
    requires
        0 <= k <= segs.len(),
        !in_segments(segs, p),
    ensures
        placed(segs, k, raw, v, p) == bit(raw, p as nat),
    decreases k,
{
    if k > 0 {
        assert(!in_span(p, segs[k - 1].offset as int, segs[k - 1].width as int));
        lemma_placed_outside(segs, k - 1, raw, v, p);
    }
}

/// Reads a field's value out of `raw`: value bit `j` is the storage bit that
/// the segments map it to, and value bits outside the segments are clear.
pub fn gather(raw: u128, segs: &Vec<FieldSegment>, Ghost(width): Ghost<nat>, Ghost(limit): Ghost<nat>) -> (r: u128)
    requires
        segments_wf(segs@, width, limit),
    ensures
        forall|j: int, p: int| #[trigger] maps(segs@, j, p) ==> bit(r, j as nat) == bit(raw, p as nat),
        forall|j: int| 0 <= j && !#[trigger] value_covered(segs@, j) ==> !bit(r, j as nat),
        r < pow2(width),
{
    let n = segs.len();
    let mut acc: u128 = 0;
    proof { lemma_zero_bits(); }
    let mut k: usize = 0;
    while k < n
        invariant
            n == segs@.len(),
            0 <= k <= n,
            segments_wf(segs@, width, limit),
            forall|j: int| 0 <= j ==> #[trigger] bit(acc, j as nat) == gathered(segs@, k as int, raw, j),
        decreases n - k,
    {
        let s = segs[k];
        assert(1 <= segs@[k as int].width && segs@[k as int].offset + segs@[k as int].width <= limit);
        assert(segs@[k as int].value_offset + segs@[k as int].width <= width);
        let lm = low_mask_exec(s.width);
        let chunk = (raw >> s.offset) & lm;
        let next = acc | (chunk << s.value_offset);
        proof {
            assert forall|j: int| 0 <= j implies #[trigger] bit(next, j as nat) == gathered(segs@, k as int + 1, raw, j) by {
                assert(s == segs@[k as int]);
                lemma_or_bit(acc, chunk << s.value_offset, j as nat);
                lemma_shl_bit(chunk, s.value_offset as nat, j as nat);
                assert(bit(acc, j as nat) == gathered(segs@, k as int, raw, j));
                if in_span(j, s.value_offset as int, s.width as int) {
                    let t = (j - s.value_offset) as nat;
                    lemma_and_bit(raw >> s.offset, lm, t);
                    lemma_low_mask_bit(s.width as nat, t);
                    lemma_shr_bit(raw, s.offset as nat, t);
                    assert(bit(chunk, t) == bit(raw, t + s.offset as nat));
                    assert(bit(chunk << s.value_offset, j as nat) == bit(raw, (s.offset + j - s.value_offset) as nat));
                    assert(!bit(acc, j as nat)) by {
                        lemma_gathered_disjoint(segs@, width, limit, k as int, raw, j);
                    }
                } else {
                    if s.value_offset <= j && j < 128 {
                        let t = (j - s.value_offset) as nat;
                        lemma_and_bit(raw >> s.offset, lm, t);
                        lemma_low_mask_bit(s.width as nat, t);
                    }
                    assert(!bit(chunk << s.value_offset, j as nat));
                }
            }
        }
        acc = next;
        k = k + 1;
    }
    proof {
        assert forall|j: int, p: int| #[trigger] maps(segs@, j, p) implies bit(acc, j as nat) == bit(raw, p as nat) by {
            let m = choose|m: int| 0 <= m < segs@.len() && #[trigger] maps_at(segs@[m], j, p);
            lemma_gathered_maps(segs@, width, limit, n as int, raw, j, p, m);
        }
        assert forall|j: int| 0 <= j && !#[trigger] value_covered(segs@, j) implies !bit(acc, j as nat) by {
            lemma_gathered_uncovered(segs@, n as int, raw, j);
        }
        assert forall|i: nat| width <= i implies !#[trigger] bit(acc, i) by {
            if exists|m: int| 0 <= m < segs@.len() && #[trigger] in_span(i as int, segs@[m].value_offset as int, segs@[m].width as int) {
                let m = choose|m: int| 0 <= m < segs@.len() && #[trigger] in_span(i as int, segs@[m].value_offset as int, segs@[m].width as int);
                assert(segs@[m].value_offset + segs@[m].width <= width);
            }
            assert(!value_covered(segs@, i as int));
        }
        lemma_bits_below(acc, width);
    }
    acc
}

/// Writes `v` into a field of `raw`: each physical bit of the field receives
/// the value bit mapped to it, and every other bit of `raw` is kept.
pub fn scatter(raw: u128, v: u128, segs: &Vec<FieldSegment>, Ghost(width): Ghost<nat>, Ghost(limit): Ghost<nat>) -> (r: u128)
    requires
        segments_wf(segs@, width, limit),
    ensures
        forall|j: int, p: int| #[trigger] maps(segs@, j, p) ==> bit(r, p as nat) == bit(v, j as nat),
        forall|p: int| 0 <= p && !#[trigger] in_segments(segs@, p) ==> bit(r, p as nat) == bit(raw, p as nat),
        raw < pow2(limit) ==> r < pow2(limit),
{
    let n = segs.len();
    let mut acc: u128 = raw;
    let mut k: usize = 0;
    while k < n
        invariant
            n == segs@.len(),
            0 <= k <= n,
            segments_wf(segs@, width, limit),
            forall|p: int| 0 <= p ==> #[trigger] bit(acc, p as nat) == placed(segs@, k as int, raw, v, p),
        decreases n - k,
    {
        let s = segs[k];
        assert(1 <= segs@[k as int].width && segs@[k as int].offset + segs@[k as int].width <= limit);
        assert(segs@[k as int].value_offset + segs@[k as int].width <= width);
        let lm = low_mask_exec(s.width);
        let m = lm << s.offset;
        let chunk = (v >> s.value_offset) & lm;
        let next = (acc & !m) | (chunk << s.offset);
        proof {
            assert forall|p: int| 0 <= p implies #[trigger] bit(next, p as nat) == placed(segs@, k as int + 1, raw, v, p) by {
                assert(s == segs@[k as int]);
                lemma_or_bit(acc & !m, chunk << s.offset, p as nat);
                lemma_and_bit(acc, !m, p as nat);
                lemma_not_bit(m, p as nat);
                lemma_shl_bit(lm, s.offset as nat, p as nat);
                lemma_shl_bit(chunk, s.offset as nat, p as nat);
                assert(bit(acc, p as nat) == placed(segs@, k as int, raw, v, p));
                if s.offset <= p && p < 128 {
                    let t = (p - s.offset) as nat;
                    lemma_low_mask_bit(s.width as nat, t);
                    lemma_and_bit(v >> s.value_offset, lm, t);
                    lemma_shr_bit(v, s.value_offset as nat, t);
                    if in_span(p, s.offset as int, s.width as int) {
                        assert(bit(m, p as nat));
                        assert(bit(chunk, t) == bit(v, t + s.value_offset as nat));
                    } else {
                        assert(!bit(m, p as nat));
                        assert(!bit(chunk, t));
                    }
                } else {
                    assert(!bit(m, p as nat));
                }
            }
        }
        acc = next;
        k = k + 1;
    }
    proof {
        assert forall|j: int, p: int| #[trigger] maps(segs@, j, p) implies bit(acc, p as nat) == bit(v, j as nat) by {
            let m = choose|m: int| 0 <= m < segs@.len() && #[trigger] maps_at(segs@[m], j, p);
            lemma_placed_maps(segs@, width, limit, n as int, raw, v, j, p, m);
        }
        assert forall|p: int| 0 <= p && !#[trigger] in_segments(segs@, p) implies bit(acc, p as nat) == bit(raw, p as nat) by {
            lemma_placed_outside(segs@, n as int, raw, v, p);
        }
        if raw < pow2(limit) {
            lemma_bits_below(raw, limit);
            assert forall|i: nat| limit <= i implies !#[trigger] bit(acc, i) by {
                if exists|m: int| 0 <= m < segs@.len() && #[trigger] in_span(i as int, segs@[m].offset as int, segs@[m].width as int) {
                    let m = choose|m: int| 0 <= m < segs@.len() && #[trigger] in_span(i as int, segs@[m].offset as int, segs@[m].width as int);
                    assert(segs@[m].offset + segs@[m].width <= limit);
                }
                assert(!in_segments(segs@, i as int));
                assert(!bit(raw, i));
            }
            lemma_bits_below(acc, limit);
        }
    }
    acc
}

/// The mask of a field: exactly the physical bits of its segments.
pub fn segments_mask(segs: &Vec<FieldSegment>, Ghost(width): Ghost<nat>, Ghost(limit): Ghost<nat>) -> (m: u128)
    requires
        segments_wf(segs@, width, limit),
    ensures
        forall|p: int| 0 <= p ==> #[trigger] bit(m, p as nat) == (p < 128 && in_segments(segs@, p)),
{
    let n = segs.len();
    let mut acc: u128 = 0;
    proof { lemma_zero_bits(); }
    let mut k: usize = 0;
    while k < n
        invariant
            n == segs@.len(),
            0 <= k <= n,
            segments_wf(segs@, width, limit),
            forall|p: int| 0 <= p ==> #[trigger] bit(acc, p as nat) == (p < 128 && exists|m: int| 0 <= m < k
                && #[trigger] in_span(p, segs@[m].offset as int, segs@[m].width as int)),
        decreases n - k,
    {
        let s = segs[k];
        assert(1 <= segs@[k as int].width && segs@[k as int].offset + segs@[k as int].width <= limit);
        let next = acc | (low_mask_exec(s.width) << s.offset);
        proof {
            assert forall|p: int| 0 <= p implies #[trigger] bit(next, p as nat) == (p < 128 && exists|m: int| 0 <= m < k + 1
                && #[trigger] in_span(p, segs@[m].offset as int, segs@[m].width as int)) by {
                lemma_or_bit(acc, low_mask(s.width as nat) << s.offset, p as nat);
                lemma_shl_bit(low_mask(s.width as nat), s.offset as nat, p as nat);
                if s.offset <= p {
                    lemma_low_mask_bit(s.width as nat, (p - s.offset) as nat);
                }
                if p < 128 && in_span(p, segs@[k as int].offset as int, segs@[k as int].width as int) {
                    assert(exists|m: int| 0 <= m < k + 1 && #[trigger] in_span(p, segs@[m].offset as int, segs@[m].width as int));
                }
                if p < 128 && exists|m: int| 0 <= m < k + 1 && #[trigger] in_span(p, segs@[m].offset as int, segs@[m].width as int) {
                    let m = choose|m: int| 0 <= m < k + 1 && #[trigger] in_span(p, segs@[m].offset as int, segs@[m].width as int);
                    if m < k {
                        assert(exists|m: int| 0 <= m < k && #[trigger] in_span(p, segs@[m].offset as int, segs@[m].width as int));
                    }
                }
            }
        }
        acc = next;
        k = k + 1;
    }
    acc
}

} // verus!
