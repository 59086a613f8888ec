//! What holds across reads and writes of bitfield values.
use vstd::prelude::*;
use vstd::arithmetic::power2::{pow2, lemma_pow2_pos, lemma_pow2_unfold, lemma_pow2_adds};
use crate::bits::{bit, low_mask, lemma_bits_ext, lemma_bits_below, lemma_and_bit, lemma_low_mask_bit,
    lemma_and_low_mask_is_mod, lemma_pow2_128};
use crate::layout::{Layout, value_bits_match, stores, field_value, sign_extend, field_layout_wf,
    lemma_valid_field, sizes_fit};
use crate::bitfield::{lemma_field_value, twos};
use crate::model::{BitRange, ranges_overlap, overlay_of};
use crate::ordering::{FieldSegment, segments_wf, segments_for, maps, maps_at, in_segments, in_span};
use crate::validate::{ValidationError, error_applies, first_overlap, ranges_of, def_valid};
use crate::mask::{__BitSpec, in_pair};

verus! {

/// Reading a field after writing `v` into it gives `v` truncated to the
/// field width.
pub proof fn lemma_read_after_write(old: u128, new: u128, segs: Seq<FieldSegment>, width: nat, limit: nat, v: u128)
    requires
        segments_wf(segs, width, limit),
        stores(old, new, segs, v),
    ensures
        value_bits_match(new, segs, width, v & low_mask(width)),
        field_value(new, segs, width) == v & low_mask(width),
{
    let u = v & low_mask(width);
    assert forall|i: nat| width <= i implies !#[trigger] bit(u, i) by {
        lemma_and_bit(v, low_mask(width), i);
        lemma_low_mask_bit(width, i);
    }
    lemma_bits_below(u, width);
    assert forall|j: int, p: int| #[trigger] maps(segs, j, p) implies bit(u, j as nat) == bit(new, p as nat) by {
        let k = choose|k: int| 0 <= k < segs.len() && #[trigger] maps_at(segs[k], j, p);
        assert(segs[k].value_offset + segs[k].width <= width);
        lemma_and_bit(v, low_mask(width), j as nat);
        lemma_low_mask_bit(width, j as nat);
    }
    lemma_field_value(new, segs, width, limit, u);
}

/// Writing a field leaves the value of every field that shares no physical
/// bit with it unchanged.
pub proof fn lemma_write_keeps_disjoint(old: u128, new: u128, segs: Seq<FieldSegment>, v: u128,
    other: Seq<FieldSegment>, width: nat, limit: nat, u: u128)
    requires
        stores(old, new, segs, v),
        segments_wf(other, width, limit),
        forall|p: int| !(#[trigger] in_segments(segs, p) && in_segments(other, p)),
        value_bits_match(old, other, width, u),
    ensures
        value_bits_match(new, other, width, u),
        field_value(new, other, width) == u,
{
    assert forall|j: int, p: int| #[trigger] maps(other, j, p) implies bit(u, j as nat) == bit(new, p as nat) by {
        let k = choose|k: int| 0 <= k < other.len() && #[trigger] maps_at(other[k], j, p);
        assert(in_span(p, other[k].offset as int, other[k].width as int));
        assert(in_segments(other, p));
        assert(!in_segments(segs, p));
    }
    lemma_field_value(new, other, width, limit, u);
}

/// Writing `v1` and then `v2` into a field is the same as writing `v2`.
pub proof fn lemma_write_write(old: u128, mid: u128, new: u128, segs: Seq<FieldSegment>, v1: u128, v2: u128)
    requires
        stores(old, mid, segs, v1),
        stores(mid, new, segs, v2),
    ensures
        stores(old, new, segs, v2),
{
}

/// Writing a field's current value changes nothing.
pub proof fn lemma_write_current_value(raw: u128, segs: Seq<FieldSegment>, width: nat, u: u128)
    requires
        value_bits_match(raw, segs, width, u),
    ensures
        stores(raw, raw, segs, u),
{
}

/// A write has one outcome.
pub proof fn lemma_stores_unique(old: u128, n1: u128, n2: u128, segs: Seq<FieldSegment>, width: nat, limit: nat, v: u128)
    requires
        segments_wf(segs, width, limit),
        stores(old, n1, segs, v),
        stores(old, n2, segs, v),
    ensures
        n1 == n2,
{
    assert forall|i: nat| i < 128 implies #[trigger] bit(n1, i) == bit(n2, i) by {
        if in_segments(segs, i as int) {
            let k = choose|k: int| 0 <= k < segs.len() && #[trigger] in_span(i as int, segs[k].offset as int, segs[k].width as int);
            let j = segs[k].value_offset + (i - segs[k].offset);
            assert(maps_at(segs[k], j, i as int));
            assert(maps(segs, j, i as int));
        }
    }
    lemma_bits_ext(n1, n2);
}

/// Reading a signed field after writing `v` into it gives `v`, for every `v`
/// the field width can represent.
pub proof fn lemma_signed_round_trip(old: u128, new: u128, segs: Seq<FieldSegment>, width: nat, limit: nat, v: i128)
    requires
        segments_wf(segs, width, limit),
        1 <= width,
        stores(old, new, segs, twos(v)),
        -pow2((width - 1) as nat) <= v < pow2((width - 1) as nat),
    ensures
        sign_extend(field_value(new, segs, width) as nat, width) == v,
{
    lemma_read_after_write(old, new, segs, width, limit, twos(v));
    lemma_and_low_mask_is_mod(twos(v), width);
    let m = pow2(width);
    let h = pow2((width - 1) as nat);
    lemma_pow2_unfold(width);
    lemma_pow2_pos(width);
    lemma_pow2_pos((width - 1) as nat);
    let u = (twos(v) as nat) % m;
    assert(u as int == (v as int) % (m as int)) by {
        lemma_pow2_128();
        if v < 0 {
            lemma_pow2_adds(width, (128 - width) as nat);
            lemma_pow2_pos((128 - width) as nat);
            let t = pow2((128 - width) as nat);
            assert(twos(v) as int == v + m * t);
            vstd::arithmetic::div_mod::lemma_mod_multiples_vanish(t as int, v as int, m as int);
            assert((m * t + v) % (m as int) == (v as int) % (m as int));
        }
    }
    if v >= 0 {
        vstd::arithmetic::div_mod::lemma_small_mod(v as nat, m);
    } else {
        vstd::arithmetic::div_mod::lemma_fundamental_div_mod_converse_mod(v as int, m as int, -1, v + m);
    }
}

/// If two ranges of `ra` and `rb` overlap, some pair is the first to.
pub proof fn lemma_first_overlap_exists(ra: Seq<BitRange>, rb: Seq<BitRange>, a: int, b: int)
    requires
        0 <= a < ra.len(),
        0 <= b < rb.len(),
        ranges_overlap(ra[a], rb[b]),
    ensures
        exists|a2: int, b2: int| #[trigger] first_overlap(ra, rb, a2, b2),
    decreases a, b,
{
    if exists|a2: int, b2: int| 0 <= a2 < a && 0 <= b2 < rb.len() && ranges_overlap(#[trigger] ra[a2], #[trigger] rb[b2]) {
        let (a2, b2) = choose|a2: int, b2: int| 0 <= a2 < a && 0 <= b2 < rb.len() && ranges_overlap(#[trigger] ra[a2], #[trigger] rb[b2]);
        lemma_first_overlap_exists(ra, rb, a2, b2);
    } else if exists|b2: int| 0 <= b2 < b && ranges_overlap(ra[a], #[trigger] rb[b2]) {
        let b2 = choose|b2: int| 0 <= b2 < b && ranges_overlap(ra[a], #[trigger] rb[b2]);
        lemma_first_overlap_exists(ra, rb, a, b2);
    } else {
        assert(first_overlap(ra, rb, a, b));
    }
}

/// Two fields may share a physical bit only when they belong to two
/// different overlay groups.
pub open spec fn may_share_bits(l: &Layout, f: int, g: int) -> bool {
    &&& overlay_of(l.def.fields@[f]) is Some
    &&& overlay_of(l.def.fields@[g]) is Some
    &&& overlay_of(l.def.fields@[f]) != overlay_of(l.def.fields@[g])
}

proof fn lemma_no_forbidden_overlap(def: &crate::model::BitfieldDef, i: int, j: int, a: int, b: int)
    requires
        def_valid(def),
        sizes_fit(def),
        0 <= i < j < def.fields@.len(),
        0 <= a < ranges_of(def, i).len(),
        0 <= b < ranges_of(def, j).len(),
        !(overlay_of(def.fields@[i]) is Some && overlay_of(def.fields@[j]) is Some
            && overlay_of(def.fields@[i]) != overlay_of(def.fields@[j])),
    ensures
        !ranges_overlap(ranges_of(def, i)[a], ranges_of(def, j)[b]),
{
    if ranges_overlap(ranges_of(def, i)[a], ranges_of(def, j)[b]) {
    let ra = ranges_of(def, i);
    let rb = ranges_of(def, j);
    lemma_first_overlap_exists(ra, rb, a, b);
    let (a2, b2) = choose|a2: int, b2: int| #[trigger] first_overlap(ra, rb, a2, b2);
    assert(def.fields@[i].ranges@.len() <= usize::MAX);
    assert(def.fields@[j].ranges@.len() <= usize::MAX);
    let (ui, uj, ua, ub) = (i as usize, j as usize, a2 as usize, b2 as usize);
    match (overlay_of(def.fields@[i]), overlay_of(def.fields@[j])) {
        (None, None) => {
            assert(error_applies(def, ValidationError::FieldOverlap { first: ui, second: uj, first_range: ua, second_range: ub }));
        },
        (None, Some(_)) => {
            assert(error_applies(def, ValidationError::OverlayOverlapsBase { base: ui, overlay: uj, base_range: ua, overlay_range: ub }));
        },
        (Some(_), None) => {
            assert(error_applies(def, ValidationError::OverlayOverlapsBase { base: uj, overlay: ui, base_range: ub, overlay_range: ua }));
        },
        (Some(x), Some(y)) => {
            assert(error_applies(def, ValidationError::OverlayGroupOverlap { first: ui, second: uj, first_range: ua, second_range: ub }));
        },
    }
    }
}

proof fn lemma_shared_bit_overlap(order: crate::model::BitOrder, ra: Seq<BitRange>, rb: Seq<BitRange>, ew: nat, ka: int, kb: int, p: int)
    requires
        0 <= ka < ra.len(),
        0 <= kb < rb.len(),
        ra[ka].start <= ra[ka].end < ew,
        rb[kb].start <= rb[kb].end < ew,
        ew <= 128,
        in_span(p, segments_for(order, ra, ew)[ka].offset as int, segments_for(order, ra, ew)[ka].width as int),
        in_span(p, segments_for(order, rb, ew)[kb].offset as int, segments_for(order, rb, ew)[kb].width as int),
    ensures
        ranges_overlap(ra[ka], rb[kb]),
{
}

/// In a valid layout, two distinct fields that are not in two different
/// overlay groups share no physical bit, so writing one never changes the
/// other.
#[verifier::rlimit(40)]
pub proof fn lemma_fields_disjoint(l: &Layout, f: int, g: int)
    requires
        l.wf(),
        0 <= f < l.num_fields(),
        0 <= g < l.num_fields(),
        f != g,
        !may_share_bits(l, f, g),
    ensures
        forall|p: int| !(#[trigger] in_segments(l.segs(f), p) && in_segments(l.segs(g), p)),
{
    let def = &l.def;
    assert forall|p: int| !(#[trigger] in_segments(l.segs(f), p) && in_segments(l.segs(g), p)) by {
        if in_segments(l.segs(f), p) && in_segments(l.segs(g), p) {
            let (i, j) = if f < g { (f, g) } else { (g, f) };
            assert(field_layout_wf(def, i, l.fields@[i]));
            assert(field_layout_wf(def, j, l.fields@[j]));
            lemma_valid_field(def, i);
            lemma_valid_field(def, j);
            let si = l.segs(i);
            let sj = l.segs(j);
            let ki = choose|k: int| 0 <= k < si.len() && #[trigger] in_span(p, si[k].offset as int, si[k].width as int);
            let kj = choose|k: int| 0 <= k < sj.len() && #[trigger] in_span(p, sj[k].offset as int, sj[k].width as int);
            let ra = ranges_of(def, i);
            let rb = ranges_of(def, j);
            let ew = def.effective_width as nat;
            lemma_shared_bit_overlap(def.args.order, ra, rb, ew, ki, kj, p);
            lemma_no_forbidden_overlap(def, i, j, ki, kj);
        }
    }
}

} // verus!

verus! {

/// A field held in one contiguous range reads as the storage word shifted
/// right by the field's shift and masked to the field's width, whatever the
/// bit numbering.
pub proof fn lemma_contiguous_field_value(l: &Layout, f: int, raw: u128)
    requires
        l.wf(),
        0 <= f < l.num_fields(),
        l.def.fields@[f].ranges@.len() == 1,
    ensures
        field_value(raw, l.segs(f), l.width(f)) == (raw >> (l.segs(f).last().offset as u128)) & low_mask(l.width(f)),
{
    let segs = l.segs(f);
    let w = l.width(f);
    assert(field_layout_wf(&l.def, f, l.fields@[f]));
    let rs = ranges_of(&l.def, f);
    assert(rs.subrange(0, 1) =~= rs);
    assert(rs.drop_last() =~= Seq::<BitRange>::empty());
    assert(crate::model::ranges_width(Seq::<BitRange>::empty()) == 0);
    assert(crate::model::ranges_width(rs) == crate::model::range_width(rs[0]));
    lemma_valid_field(&l.def, f);
    let s = segs[0];
    assert(segs.len() == 1);
    assert(s.value_offset == 0);
    assert(s.width == w);
    let off = s.offset;
    assert(off < 128);
    let v = (raw >> (off as u128)) & low_mask(w);
    assert forall|i: nat| w <= i implies !#[trigger] bit(v, i) by {
        lemma_and_bit(raw >> (off as u128), low_mask(w), i);
        lemma_low_mask_bit(w, i);
    }
    lemma_bits_below(v, w);
    assert forall|j: int, p: int| #[trigger] maps(segs, j, p) implies bit(v, j as nat) == bit(raw, p as nat) by {
        let k = choose|k: int| 0 <= k < segs.len() && #[trigger] maps_at(segs[k], j, p);
        assert(k == 0);
        lemma_and_bit(raw >> (off as u128), low_mask(w), j as nat);
        lemma_low_mask_bit(w, j as nat);
        crate::bits::lemma_shr_bit(raw, off as nat, j as nat);
    }
    assert(value_bits_match(raw, segs, w, v));
    lemma_field_value(raw, segs, w, l.def.effective_width as nat, v);
}

/// Writing the little-endian (or big-endian) bytes of a storage word and
/// reading them back gives the word.
pub proof fn lemma_bytes_round_trip(l: &Layout, raw: u128)
    requires
        l.wf(),
        raw < pow2(l.storage_bits()),
    ensures
        crate::bytes::le_value(crate::bytes::le_bytes(raw as nat, l.storage_bits() / 8)) == raw,
        crate::bytes::le_value(crate::bytes::le_bytes(raw as nat, l.storage_bits() / 8).reverse().reverse()) == raw,
{
    crate::layout::lemma_storage_bits_le(l.def.args.storage);
    assert(8 * (l.storage_bits() / 8) == l.storage_bits());
    crate::bytes::lemma_le_round_trip(raw as nat, l.storage_bits() / 8);
    let s = crate::bytes::le_bytes(raw as nat, l.storage_bits() / 8);
    assert(s.reverse().reverse() =~= s);
}

} // verus!

verus! {

pub(crate) proof fn lemma_field_segments_wf(l: &Layout, f: int)
    requires
        l.wf(),
        0 <= f < l.num_fields(),
    ensures
        segments_wf(l.segs(f), l.width(f), l.def.effective_width as nat),
        1 <= l.width(f) <= 128,
{
    assert(field_layout_wf(&l.def, f, l.fields@[f]));
    lemma_valid_field(&l.def, f);
    let segs = l.segs(f);
    assert(segs.len() >= 1);
    assert(1 <= segs[0].width && segs[0].value_offset + segs[0].width <= l.width(f));
}

/// Reading a field of a bitfield value after writing `v` into it gives `v`
/// truncated to the field's width.
pub proof fn lemma_get_after_set(b: crate::bitfield::Bitfield, r: crate::bitfield::Bitfield, f: int, v: u128)
    requires
        b.wf(),
        b.has_field(f),
        r.layout == b.layout,
        stores(b.raw, r.raw, b.layout.segs(f), v),
    ensures
        r.value(f) == v & low_mask(b.layout.width(f)),
{
    lemma_field_segments_wf(b.layout, f);
    lemma_read_after_write(b.raw, r.raw, b.layout.segs(f), b.layout.width(f), b.layout.def.effective_width as nat, v);
}

/// Writing a field of a bitfield value leaves every other field that may not
/// share bits with it (all fields but those of another overlay group) holding
/// the value it held.
pub proof fn lemma_set_keeps_other_fields(b: crate::bitfield::Bitfield, r: crate::bitfield::Bitfield, f: int, v: u128,
    g: int, u: u128)
    requires
        b.wf(),
        b.has_field(f),
        b.has_field(g),
        f != g,
        !may_share_bits(b.layout, f, g),
        r.layout == b.layout,
        stores(b.raw, r.raw, b.layout.segs(f), v),
        value_bits_match(b.raw, b.layout.segs(g), b.layout.width(g), u),
    ensures
        r.value(g) == u,
{
    lemma_fields_disjoint(b.layout, f, g);
    lemma_field_segments_wf(b.layout, g);
    lemma_write_keeps_disjoint(b.raw, r.raw, b.layout.segs(f), v, b.layout.segs(g), b.layout.width(g),
        b.layout.def.effective_width as nat, u);
}

/// Reading a signed field of a bitfield value after writing `v` into it gives
/// `v`, for every `v` the field's width can represent.
pub proof fn lemma_get_int_after_set_int(b: crate::bitfield::Bitfield, r: crate::bitfield::Bitfield, f: int, v: i128)
    requires
        b.wf(),
        b.has_field(f),
        r.layout == b.layout,
        stores(b.raw, r.raw, b.layout.segs(f), twos(v)),
        -pow2((b.layout.width(f) - 1) as nat) <= v < pow2((b.layout.width(f) - 1) as nat),
    ensures
        sign_extend(r.value(f) as nat, b.layout.width(f)) == v,
{
    lemma_field_segments_wf(b.layout, f);
    lemma_signed_round_trip(b.raw, r.raw, b.layout.segs(f), b.layout.width(f), b.layout.def.effective_width as nat, v);
}

} // verus!

verus! {

/// Placing a value into exactly the range of a single-range field, then
/// reading the field, gives the value truncated to the field's width. This
/// holds under LSB-0, and under MSB-0 when the bitfield spans its whole
/// storage (placement counts MSB-0 bits from the top of the storage).
pub proof fn lemma_get_after_place(b: crate::bitfield::Bitfield, r: crate::bitfield::Bitfield, f: int, lo: u8, hi: u8,
    val: u128)
    requires
        b.wf(),
        b.has_field(f),
        b.layout.def.fields@[f].ranges@ == seq![BitRange { start: lo as u32, end: hi as u32 }],
        b.layout.def.args.order == crate::model::BitOrder::Msb0 ==> b.layout.def.effective_width == b.layout.storage_bits(),
        r.layout == b.layout,
        forall|p: int| 0 <= p ==> #[trigger] bit(r.raw, p as nat)
            == if crate::mask::selects(crate::BitField::spec_is_msb0(&b), b.layout.storage_bits(), seq![(lo, hi)], p) {
                bit(val, (p - crate::mask::place_shift(crate::BitField::spec_is_msb0(&b), b.layout.storage_bits(), lo, hi)) as nat)
            } else {
                bit(b.raw, p as nat)
            },
    ensures
        r.value(f) == val & low_mask(b.layout.width(f)),
{
    let l = b.layout;
    lemma_contiguous_field_value(l, f, r.raw);
    lemma_valid_field(&l.def, f);
    crate::layout::lemma_storage_bits_le(l.def.args.storage);
    let segs = l.segs(f);
    let w = l.width(f);
    assert(field_layout_wf(&l.def, f, l.fields@[f]));
    let off = segs.last().offset;
    let rs = ranges_of(&l.def, f);
    assert(rs.subrange(0, 1) =~= rs);
    assert(rs.drop_last() =~= Seq::<BitRange>::empty());
    assert(crate::model::ranges_width(Seq::<BitRange>::empty()) == 0);
    assert(w == hi - lo + 1);
    let msb0 = crate::BitField::spec_is_msb0(&b);
    let bits = l.storage_bits();
    assert(off == crate::mask::place_shift(msb0, bits, lo, hi));
    let x = (r.raw >> (off as u128)) & low_mask(w);
    let y = val & low_mask(w);
    assert forall|i: nat| i < 128 implies #[trigger] bit(x, i) == bit(y, i) by {
        lemma_and_bit(r.raw >> (off as u128), low_mask(w), i);
        lemma_and_bit(val, low_mask(w), i);
        lemma_low_mask_bit(w, i);
        crate::bits::lemma_shr_bit(r.raw, off as nat, i);
        if i < w {
            let p = off + i;
            let lg = if msb0 { bits - 1 - p } else { p };
            assert(seq![(lo, hi)][0] == (lo, hi));
            assert(crate::mask::in_pair(seq![(lo, hi)][0], lg));
            assert(crate::mask::selects(msb0, bits, seq![(lo, hi)], p));
            assert(bit(r.raw, p as nat) == bit(val, i));
        }
    }
    lemma_bits_ext(x, y);
}

} // verus!

verus! {

/// Inserting into `dst` the bits extracted from `src` over the same ranges
/// gives `src`'s bits on the ranges and `dst`'s bits everywhere else.
pub proof fn lemma_insert_extracted<T: crate::BitField>(src: T, e: T, dst: T, r: T, ranges: Seq<(u8, u8)>)
    requires
        dst.spec_is_msb0() == src.spec_is_msb0(),
        dst.spec_bits() == src.spec_bits(),
        forall|p: int| 0 <= p ==> #[trigger] bit(e.spec_raw(), p as nat)
            == (bit(src.spec_raw(), p as nat) && crate::mask::selects(src.spec_is_msb0(), src.spec_bits(), ranges, p)),
        forall|p: int| 0 <= p ==> #[trigger] bit(r.spec_raw(), p as nat)
            == if crate::mask::selects(dst.spec_is_msb0(), dst.spec_bits(), ranges, p) {
                bit(e.spec_raw(), p as nat)
            } else {
                bit(dst.spec_raw(), p as nat)
            },
    ensures
        forall|p: int| 0 <= p ==> #[trigger] bit(r.spec_raw(), p as nat)
            == if crate::mask::selects(dst.spec_is_msb0(), dst.spec_bits(), ranges, p) {
                bit(src.spec_raw(), p as nat)
            } else {
                bit(dst.spec_raw(), p as nat)
            },
{
    assert forall|p: int| 0 <= p implies #[trigger] bit(r.spec_raw(), p as nat)
        == if crate::mask::selects(dst.spec_is_msb0(), dst.spec_bits(), ranges, p) {
            bit(src.spec_raw(), p as nat)
        } else {
            bit(dst.spec_raw(), p as nat)
        } by {
        assert(bit(e.spec_raw(), p as nat) == (bit(src.spec_raw(), p as nat)
            && crate::mask::selects(src.spec_is_msb0(), src.spec_bits(), ranges, p)));
    }
}

/// Extracting the same bits again changes nothing.
pub proof fn lemma_extract_idempotent<T: crate::BitField>(v: T, e1: T, e2: T, ranges: Seq<(u8, u8)>)
    requires
        e1.spec_is_msb0() == v.spec_is_msb0(),
        e1.spec_bits() == v.spec_bits(),
        e2.spec_same_kind(&e1),
        forall|p: int| 0 <= p ==> #[trigger] bit(e1.spec_raw(), p as nat)
            == (bit(v.spec_raw(), p as nat) && crate::mask::selects(v.spec_is_msb0(), v.spec_bits(), ranges, p)),
        forall|p: int| 0 <= p ==> #[trigger] bit(e2.spec_raw(), p as nat)
            == (bit(e1.spec_raw(), p as nat) && crate::mask::selects(e1.spec_is_msb0(), e1.spec_bits(), ranges, p)),
    ensures
        e2 == e1,
{
    assert forall|i: nat| i < 128 implies #[trigger] bit(e2.spec_raw(), i) == bit(e1.spec_raw(), i) by {
        let p = i as int;
        assert(bit(e2.spec_raw(), p as nat) == bit(e2.spec_raw(), i));
    }
    lemma_bits_ext(e2.spec_raw(), e1.spec_raw());
    T::lemma_same_kind_same_raw(&e2, &e1);
}

/// The value `r` is `dst` with the selected bits taken from `src`: what
/// `insert_bits_auto(dst, src, ranges)` returns.
pub open spec fn inserted<T: crate::BitField>(dst: T, src: u128, ranges: Seq<(u8, u8)>, r: T) -> bool {
    &&& r.spec_same_kind(&dst)
    &&& forall|p: int| 0 <= p ==> #[trigger] bit(r.spec_raw(), p as nat)
        == if crate::mask::selects(dst.spec_is_msb0(), dst.spec_bits(), ranges, p) {
            bit(src, p as nat)
        } else {
            bit(dst.spec_raw(), p as nat)
        }
}

/// Inserting into `dst` its own extracted bits gives `dst` back.
pub proof fn lemma_insert_own_bits<T: crate::BitField>(dst: T, e: T, r: T, ranges: Seq<(u8, u8)>)
    requires
        forall|p: int| 0 <= p ==> #[trigger] bit(e.spec_raw(), p as nat)
            == (bit(dst.spec_raw(), p as nat) && crate::mask::selects(dst.spec_is_msb0(), dst.spec_bits(), ranges, p)),
        inserted(dst, e.spec_raw(), ranges, r),
    ensures
        r == dst,
{
    assert forall|i: nat| i < 128 implies #[trigger] bit(r.spec_raw(), i) == bit(dst.spec_raw(), i) by {
        let p = i as int;
        assert(bit(r.spec_raw(), p as nat) == bit(r.spec_raw(), i));
        assert(bit(e.spec_raw(), p as nat) == bit(e.spec_raw(), i));
    }
    lemma_bits_ext(r.spec_raw(), dst.spec_raw());
    T::lemma_same_kind_same_raw(&r, &dst);
}

/// Inserting the same bits twice is the same as inserting them once.
pub proof fn lemma_insert_twice<T: crate::BitField>(dst: T, src: u128, r1: T, r2: T, ranges: Seq<(u8, u8)>)
    requires
        r1.spec_is_msb0() == dst.spec_is_msb0(),
        r1.spec_bits() == dst.spec_bits(),
        inserted(dst, src, ranges, r1),
        inserted(r1, src, ranges, r2),
    ensures
        r2 == r1,
{
    assert forall|i: nat| i < 128 implies #[trigger] bit(r2.spec_raw(), i) == bit(r1.spec_raw(), i) by {
        let p = i as int;
        assert(bit(r2.spec_raw(), p as nat) == bit(r2.spec_raw(), i));
        assert(bit(r1.spec_raw(), p as nat) == bit(r1.spec_raw(), i));
    }
    lemma_bits_ext(r2.spec_raw(), r1.spec_raw());
    T::lemma_same_kind_same_raw(&r2, &r1);
}

/// Inserting over a list of empty pairs (`start > end`) changes nothing.
pub proof fn lemma_insert_nothing<T: crate::BitField>(dst: T, src: u128, r: T, ranges: Seq<(u8, u8)>)
    requires
        forall|k: int| 0 <= k < ranges.len() ==> (#[trigger] ranges[k]).0 > ranges[k].1,
        inserted(dst, src, ranges, r),
    ensures
        r == dst,
{
    assert forall|i: nat| i < 128 implies #[trigger] bit(r.spec_raw(), i) == bit(dst.spec_raw(), i) by {
        let p = i as int;
        assert(bit(r.spec_raw(), p as nat) == bit(r.spec_raw(), i));
        assert(!crate::mask::selects(dst.spec_is_msb0(), dst.spec_bits(), ranges, p)) by {
            let lg = if dst.spec_is_msb0() { dst.spec_bits() - 1 - p } else { p };
            if crate::mask::selected(ranges, lg) {
                let k = choose|k: int| 0 <= k < ranges.len() && #[trigger] crate::mask::in_pair(ranges[k], lg);
            }
        }
    }
    lemma_bits_ext(r.spec_raw(), dst.spec_raw());
    T::lemma_same_kind_same_raw(&r, &dst);
}

/// Extracting the bits just inserted gives the inserted bits of `src`.
pub proof fn lemma_extract_after_insert<T: crate::BitField>(dst: T, src: u128, r: T, e: T, ranges: Seq<(u8, u8)>)
    requires
        r.spec_is_msb0() == dst.spec_is_msb0(),
        r.spec_bits() == dst.spec_bits(),
        inserted(dst, src, ranges, r),
        forall|p: int| 0 <= p ==> #[trigger] bit(e.spec_raw(), p as nat)
            == (bit(r.spec_raw(), p as nat) && crate::mask::selects(r.spec_is_msb0(), r.spec_bits(), ranges, p)),
    ensures
        forall|p: int| 0 <= p ==> #[trigger] bit(e.spec_raw(), p as nat)
            == (bit(src, p as nat) && crate::mask::selects(dst.spec_is_msb0(), dst.spec_bits(), ranges, p)),
{
    assert forall|p: int| 0 <= p implies #[trigger] bit(e.spec_raw(), p as nat)
        == (bit(src, p as nat) && crate::mask::selects(dst.spec_is_msb0(), dst.spec_bits(), ranges, p)) by {
        assert(bit(r.spec_raw(), p as nat) == if crate::mask::selects(dst.spec_is_msb0(), dst.spec_bits(), ranges, p) {
            bit(src, p as nat)
        } else {
            bit(dst.spec_raw(), p as nat)
        });
    }
}

} // verus!

verus! {

/// In `Bitfield::default`, a field declared with `default = d` reads `d`
/// truncated to the field's width, provided no field of another overlay group
/// with a default of its own shares its bits.
pub proof fn lemma_default_reads_default(l: &Layout, d: crate::bitfield::Bitfield, f: int)
    requires
        l.wf(),
        0 <= f < l.num_fields(),
        l.def.fields@[f].default is Some,
        forall|g: int| 0 <= g < l.num_fields() && g != f && (#[trigger] l.def.fields@[g]).default is Some
            ==> !may_share_bits(l, f, g),
        d.layout == l,
        forall|p: int| 0 <= p ==> #[trigger] bit(d.raw, p as nat) == crate::bitfield::default_has_bit(l, p),
    ensures
        d.value(f) == crate::bitfield::default_word(l.def.fields@[f].default->0) & low_mask(l.width(f)),
{
    let segs = l.segs(f);
    let w = l.width(f);
    let word = crate::bitfield::default_word(l.def.fields@[f].default->0);
    let u = word & low_mask(w);
    lemma_field_segments_wf(l, f);
    let limit = l.def.effective_width as nat;
    assert forall|i: nat| w <= i implies !#[trigger] bit(u, i) by {
        lemma_and_bit(word, low_mask(w), i);
        lemma_low_mask_bit(w, i);
    }
    lemma_bits_below(u, w);
    assert forall|j: int, p: int| #[trigger] maps(segs, j, p) implies bit(u, j as nat) == bit(d.raw, p as nat) by {
        let k = choose|k: int| 0 <= k < segs.len() && #[trigger] maps_at(segs[k], j, p);
        assert(segs[k].value_offset + segs[k].width <= w);
        assert(in_span(p, segs[k].offset as int, segs[k].width as int));
        assert(in_segments(segs, p));
        lemma_and_bit(word, low_mask(w), j as nat);
        lemma_low_mask_bit(w, j as nat);
        if bit(word, j as nat) {
            assert(crate::bitfield::default_bit(l, f, p));
        }
        if crate::bitfield::default_has_bit(l, p) {
            let g = choose|g: int| 0 <= g < l.num_fields() && #[trigger] crate::bitfield::default_bit(l, g, p);
            let j2 = choose|j2: int| #[trigger] maps(l.segs(g), j2, p)
                && bit(crate::bitfield::default_word(l.def.fields@[g].default->0), j2 as nat);
            if g != f {
                let k2 = choose|k2: int| 0 <= k2 < l.segs(g).len() && #[trigger] maps_at(l.segs(g)[k2], j2, p);
                assert(in_span(p, l.segs(g)[k2].offset as int, l.segs(g)[k2].width as int));
                assert(in_segments(l.segs(g), p));
                assert(l.def.fields@[g].default is Some);
                lemma_fields_disjoint(l, f, g);
                assert(false);
            }
            crate::bitfield::lemma_maps_unique(segs, w, limit, j, j2, p);
        }
    }
    lemma_field_value(d.raw, segs, w, limit, u);
}

/// In `Bitfield::default` of a declaration with bit enums `enums` in scope,
/// a field declared with `default = Type::Variant` reads the variant's
/// discriminant (cut to the field width), provided no field of another
/// overlay group with a default of its own shares its bits.
pub proof fn lemma_variant_default_reads_discriminant(l: &Layout, d: crate::bitfield::Bitfield,
    args: crate::model::BitfieldArgs, item: crate::parse::StructItem, enums: Seq<&crate::bit_enum::BitEnumDef>,
    nested: Seq<&Layout>, f: int, t: Seq<char>, name: Seq<char>, e: int, j: int)
    requires
        l.wf(),
        crate::parse::struct_def_of(l.def, args, item, enums, nested),
        crate::parse::fields_ok(item.fields@, enums, nested),
        0 <= f < l.num_fields(),
        crate::parse::field_attr(item.fields@[f], f)->Ok_0.4 == Some(crate::model::DefaultSpec::Variant(t, name)),
        crate::defaults::enum_index(enums, t, 0) == Some(e),
        crate::defaults::variant_index(enums[e].variants@, name, 0) == Some(j),
        forall|g: int| 0 <= g < l.num_fields() && g != f && (#[trigger] l.def.fields@[g]).default is Some
            ==> !may_share_bits(l, f, g),
        d.layout == l,
        forall|p: int| 0 <= p ==> #[trigger] bit(d.raw, p as nat) == crate::bitfield::default_has_bit(l, p),
    ensures
        d.value(f) == enums[e].variants@[j].discriminant & low_mask(l.width(f)),
{
    assert(crate::parse::field_outcome(item.fields@[f], f, enums, nested) is Ok);
    assert(l.def.fields@[f].default == Some(crate::model::DefaultValue::Unsigned(enums[e].variants@[j].discriminant)));
    lemma_default_reads_default(l, d, f);
}

/// In `Bitfield::default` of a declaration with nested bitfields `nested` in
/// scope, a field declared with `default = Type::zeroed().with_a(x)...`
/// reads the raw value of `Type` built from zero by those calls (cut to the
/// field width), provided no field of another overlay group with a default
/// of its own shares its bits.
pub proof fn lemma_built_default_reads_built_value(l: &Layout, d: crate::bitfield::Bitfield,
    args: crate::model::BitfieldArgs, item: crate::parse::StructItem, enums: Seq<&crate::bit_enum::BitEnumDef>,
    nested: Seq<&Layout>, f: int, t: Seq<char>, calls: Seq<(Seq<char>, crate::model::DefaultValue)>, n: int)
    requires
        l.wf(),
        crate::parse::struct_def_of(l.def, args, item, enums, nested),
        crate::parse::fields_ok(item.fields@, enums, nested),
        0 <= f < l.num_fields(),
        crate::parse::field_attr(item.fields@[f], f)->Ok_0.4 == Some(crate::model::DefaultSpec::Built(t, calls)),
        crate::defaults::layout_index(nested, t, 0) == Some(n),
        forall|g: int| 0 <= g < l.num_fields() && g != f && (#[trigger] l.def.fields@[g]).default is Some
            ==> !may_share_bits(l, f, g),
        d.layout == l,
        forall|p: int| 0 <= p ==> #[trigger] bit(d.raw, p as nat) == crate::bitfield::default_has_bit(l, p),
    ensures
        crate::defaults::built_from(nested[n], calls, 0, 0) is Some,
        d.value(f) == crate::defaults::built_from(nested[n], calls, 0, 0)->0 & low_mask(l.width(f)),
{
    assert(crate::parse::field_outcome(item.fields@[f], f, enums, nested) is Ok);
    lemma_default_reads_default(l, d, f);
}

/// In `Bitfield::default`, a field without a default reads zero, provided no
/// field of another overlay group with a default shares its bits.
pub proof fn lemma_default_reads_zero(l: &Layout, d: crate::bitfield::Bitfield, f: int)
    requires
        l.wf(),
        0 <= f < l.num_fields(),
        l.def.fields@[f].default is None,
        forall|g: int| 0 <= g < l.num_fields() && g != f && (#[trigger] l.def.fields@[g]).default is Some
            ==> !may_share_bits(l, f, g),
        d.layout == l,
        forall|p: int| 0 <= p ==> #[trigger] bit(d.raw, p as nat) == crate::bitfield::default_has_bit(l, p),
    ensures
        d.value(f) == 0,
{
    let segs = l.segs(f);
    let w = l.width(f);
    lemma_field_segments_wf(l, f);
    let limit = l.def.effective_width as nat;
    crate::bits::lemma_zero_bits();
    vstd::arithmetic::power2::lemma_pow2_pos(w);
    assert forall|j: int, p: int| #[trigger] maps(segs, j, p) implies bit(0u128, j as nat) == bit(d.raw, p as nat) by {
        let k = choose|k: int| 0 <= k < segs.len() && #[trigger] maps_at(segs[k], j, p);
        assert(in_span(p, segs[k].offset as int, segs[k].width as int));
        assert(in_segments(segs, p));
        if crate::bitfield::default_has_bit(l, p) {
            let g = choose|g: int| 0 <= g < l.num_fields() && #[trigger] crate::bitfield::default_bit(l, g, p);
            let j2 = choose|j2: int| #[trigger] maps(l.segs(g), j2, p)
                && bit(crate::bitfield::default_word(l.def.fields@[g].default->0), j2 as nat);
            assert(g != f);
            let k2 = choose|k2: int| 0 <= k2 < l.segs(g).len() && #[trigger] maps_at(l.segs(g)[k2], j2, p);
            assert(in_span(p, l.segs(g)[k2].offset as int, l.segs(g)[k2].width as int));
            assert(in_segments(l.segs(g), p));
            assert(l.def.fields@[g].default is Some);
            lemma_fields_disjoint(l, f, g);
            assert(false);
        }
    }
    lemma_field_value(d.raw, segs, w, limit, 0u128);
}

} // verus!

verus! {

proof fn lemma_selected_concat(a: Seq<(u8, u8)>, b: Seq<(u8, u8)>, x: int)
    ensures
        crate::mask::selected(a + b, x) <==> (crate::mask::selected(a, x) || crate::mask::selected(b, x)),
{
    let ab = a + b;
    if crate::mask::selected(ab, x) {
        let i = choose|i: int| 0 <= i < ab.len() && #[trigger] crate::mask::in_pair(ab[i], x);
        if i < a.len() {
            assert(ab[i] == a[i]);
            assert(crate::mask::in_pair(a[i], x));
        } else {
            assert(ab[i] == b[i - a.len()]);
            assert(crate::mask::in_pair(b[i - a.len()], x));
        }
    }
    if crate::mask::selected(a, x) {
        let i = choose|i: int| 0 <= i < a.len() && #[trigger] crate::mask::in_pair(a[i], x);
        assert(ab[i] == a[i]);
        assert(crate::mask::in_pair(ab[i], x));
    }
    if crate::mask::selected(b, x) {
        let i = choose|i: int| 0 <= i < b.len() && #[trigger] crate::mask::in_pair(b[i], x);
        assert(ab[a.len() + i] == b[i]);
        assert(crate::mask::in_pair(ab[a.len() + i], x));
    }
}

/// The MSB-0 mask of two range lists one after the other is the union of
/// their masks.
pub proof fn lemma_msb0_mask_concat(w: u32, a: Seq<(u8, u8)>, b: Seq<(u8, u8)>, ma: u128, mb: u128, mab: u128)
    requires
        forall|p: int| 0 <= p ==> #[trigger] bit(ma, p as nat) == crate::mask::msb0_selects(w, a, p),
        forall|p: int| 0 <= p ==> #[trigger] bit(mb, p as nat) == crate::mask::msb0_selects(w, b, p),
        forall|p: int| 0 <= p ==> #[trigger] bit(mab, p as nat) == crate::mask::msb0_selects(w, a + b, p),
    ensures
        mab == ma | mb,
{
    assert forall|i: nat| i < 128 implies #[trigger] bit(mab, i) == bit(ma | mb, i) by {
        let p = i as int;
        crate::bits::lemma_or_bit(ma, mb, i);
        lemma_selected_concat(a, b, w - 1 - p);
        assert(bit(mab, p as nat) == crate::mask::msb0_selects(w, a + b, p));
        assert(bit(ma, p as nat) == crate::mask::msb0_selects(w, a, p));
        assert(bit(mb, p as nat) == crate::mask::msb0_selects(w, b, p));
    }
    lemma_bits_ext(mab, ma | mb);
}

/// The LSB-0 mask of two range lists one after the other is the union of
/// their masks.
pub proof fn lemma_lsb0_mask_concat(a: Seq<(u8, u8)>, b: Seq<(u8, u8)>, ma: u128, mb: u128, mab: u128)
    requires
        forall|p: int| 0 <= p ==> #[trigger] bit(ma, p as nat) == crate::mask::selected(a, p),
        forall|p: int| 0 <= p ==> #[trigger] bit(mb, p as nat) == crate::mask::selected(b, p),
        forall|p: int| 0 <= p ==> #[trigger] bit(mab, p as nat) == crate::mask::selected(a + b, p),
    ensures
        mab == ma | mb,
{
    assert forall|i: nat| i < 128 implies #[trigger] bit(mab, i) == bit(ma | mb, i) by {
        let p = i as int;
        crate::bits::lemma_or_bit(ma, mb, i);
        lemma_selected_concat(a, b, p);
        assert(bit(mab, p as nat) == crate::mask::selected(a + b, p));
        assert(bit(ma, p as nat) == crate::mask::selected(a, p));
        assert(bit(mb, p as nat) == crate::mask::selected(b, p));
    }
    lemma_bits_ext(mab, ma | mb);
}

/// In a `w`-bit value, the MSB-0 mask of `s..=e` is the LSB-0 mask of the
/// mirrored range `w - 1 - e ..= w - 1 - s`.
pub proof fn lemma_msb0_mask_mirrors_lsb0(w: u32, s: u8, e: u8, m: u128, l: u128)
    requires
        s <= e < w <= 128,
        forall|p: int| 0 <= p ==> #[trigger] bit(m, p as nat) == crate::mask::msb0_selects(w, seq![(s, e)], p),
        forall|p: int| 0 <= p ==> #[trigger] bit(l, p as nat)
            == crate::mask::selected(seq![((w - 1 - e) as u8, (w - 1 - s) as u8)], p),
    ensures
        m == l,
{
    let lo = (w - 1 - e) as u8;
    let hi = (w - 1 - s) as u8;
    assert forall|i: nat| i < 128 implies #[trigger] bit(m, i) == bit(l, i) by {
        let p = i as int;
        assert(bit(m, p as nat) == crate::mask::msb0_selects(w, seq![(s, e)], p));
        assert(bit(l, p as nat) == crate::mask::selected(seq![(lo, hi)], p));
        assert(seq![(s, e)][0] == (s, e));
        assert(seq![(lo, hi)][0] == (lo, hi));
        if crate::mask::msb0_selects(w, seq![(s, e)], p) {
            let k = choose|k: int| 0 <= k < 1 && #[trigger] crate::mask::in_pair(seq![(s, e)][k], w - 1 - p);
            assert(k == 0);
            assert(crate::mask::in_pair(seq![(lo, hi)][0], p));
        }
        if crate::mask::selected(seq![(lo, hi)], p) {
            let k = choose|k: int| 0 <= k < 1 && #[trigger] crate::mask::in_pair(seq![(lo, hi)][k], p);
            assert(k == 0);
            assert(crate::mask::in_pair(seq![(s, e)][0], w - 1 - p));
        }
    }
    lemma_bits_ext(m, l);
}

} // verus!

verus! {

/// In `Bitfield::default`, a field declared with `default = v` reads: for a
/// `bool` literal, all ones of the field width when `true` and zero when
/// `false`; for an unsigned literal, `v` modulo two to the field width; for a
/// negative literal, `v` modulo two to the field width (its two's-complement
/// bits); provided no field of another overlay group with a default of its
/// own shares its bits.
pub proof fn lemma_default_literal_reads(l: &Layout, d: crate::bitfield::Bitfield, f: int)
    requires
        l.wf(),
        0 <= f < l.num_fields(),
        l.def.fields@[f].default is Some,
        forall|g: int| 0 <= g < l.num_fields() && g != f && (#[trigger] l.def.fields@[g]).default is Some
            ==> !may_share_bits(l, f, g),
        d.layout == l,
        forall|p: int| 0 <= p ==> #[trigger] bit(d.raw, p as nat) == crate::bitfield::default_has_bit(l, p),
    ensures
        l.def.fields@[f].default == Some(crate::model::DefaultValue::Bool(false)) ==> d.value(f) == 0,
        l.def.fields@[f].default == Some(crate::model::DefaultValue::Bool(true)) ==> d.value(f) == low_mask(l.width(f)),
        forall|u: u128| l.def.fields@[f].default == Some(crate::model::DefaultValue::Unsigned(u))
            ==> d.value(f) as nat == (u as nat) % pow2(l.width(f)),
        forall|v: i128| l.def.fields@[f].default == Some(crate::model::DefaultValue::Signed(v))
            ==> d.value(f) as int == (v as int) % (pow2(l.width(f)) as int),
{
    lemma_default_reads_default(l, d, f);
    lemma_field_segments_wf(l, f);
    let w = l.width(f);
    let word = crate::bitfield::default_word(l.def.fields@[f].default->0);
    lemma_and_low_mask_is_mod(word, w);
    lemma_pow2_pos(w);
    match l.def.fields@[f].default->0 {
        crate::model::DefaultValue::Bool(b) => {
            let m = low_mask(w);
            assert(0u128 & m == 0) by (bit_vector);
            assert(0xffff_ffff_ffff_ffff_ffff_ffff_ffff_ffffu128 & m == m) by (bit_vector);
        },
        crate::model::DefaultValue::Unsigned(u) => {},
        crate::model::DefaultValue::Signed(v) => {
            if v < 0 {
                lemma_pow2_128();
                lemma_pow2_adds(w, (128 - w) as nat);
                let q = pow2((128 - w) as nat) as int;
                assert(word as int == pow2(w) * q + v);
                vstd::arithmetic::div_mod::lemma_mod_multiples_vanish(q, v as int, pow2(w) as int);
            }
        },
    }
}

/// In `Bitfield::default` of a declaration, a field declared with a literal
/// default reads it back: `true`/`false` fill a `bool` field's bits or clear
/// them, and count as 1/0 on an integer field; an integer literal reads as
/// itself modulo two to the field width; provided no field of another
/// overlay group with a default of its own shares its bits.
pub proof fn lemma_literal_default_reads(l: &Layout, d: crate::bitfield::Bitfield,
    args: crate::model::BitfieldArgs, item: crate::parse::StructItem, enums: Seq<&crate::bit_enum::BitEnumDef>,
    nested: Seq<&Layout>, f: int, v: crate::model::DefaultValue)
    requires
        l.wf(),
        crate::parse::struct_def_of(l.def, args, item, enums, nested),
        crate::parse::fields_ok(item.fields@, enums, nested),
        0 <= f < l.num_fields(),
        crate::parse::field_attr(item.fields@[f], f)->Ok_0.4 == Some(crate::model::DefaultSpec::Literal(v)),
        forall|g: int| 0 <= g < l.num_fields() && g != f && (#[trigger] l.def.fields@[g]).default is Some
            ==> !may_share_bits(l, f, g),
        d.layout == l,
        forall|p: int| 0 <= p ==> #[trigger] bit(d.raw, p as nat) == crate::bitfield::default_has_bit(l, p),
    ensures
        !(l.def.fields@[f].ty is Nested),
        v == crate::model::DefaultValue::Bool(true) && l.def.fields@[f].ty is Bool ==> d.value(f) == low_mask(l.width(f)),
        v == crate::model::DefaultValue::Bool(false) ==> d.value(f) == 0,
        v == crate::model::DefaultValue::Bool(true) && !(l.def.fields@[f].ty is Bool) ==> d.value(f) == 1,
        forall|u: u128| v == crate::model::DefaultValue::Unsigned(u) ==> d.value(f) as nat == (u as nat) % pow2(l.width(f)),
        forall|s: i128| v == crate::model::DefaultValue::Signed(s) ==> d.value(f) as int == (s as int) % (pow2(l.width(f)) as int),
{
    assert(crate::parse::field_outcome(item.fields@[f], f, enums, nested) is Ok);
    lemma_default_literal_reads(l, d, f);
    lemma_field_segments_wf(l, f);
    let w = l.width(f);
    lemma_pow2_unfold(w);
    lemma_pow2_pos((w - 1) as nat);
    if v == crate::model::DefaultValue::Bool(true) && !(l.def.fields@[f].ty is Bool) {
        assert(l.def.fields@[f].default == Some(crate::model::DefaultValue::Unsigned(1)));
        assert(1nat % pow2(w) == 1) by {
            vstd::arithmetic::div_mod::lemma_small_mod(1, pow2(w));
        }
    }
    if v == crate::model::DefaultValue::Bool(false) && !(l.def.fields@[f].ty is Bool) {
        assert(l.def.fields@[f].default == Some(crate::model::DefaultValue::Unsigned(0)));
        assert(0nat % pow2(w) == 0) by {
            vstd::arithmetic::div_mod::lemma_small_mod(0, pow2(w));
        }
    }
}

/// In a resolved bit enum, a variant declared with a discriminant has it; the
/// first variant, when declared without one, has zero; and every later
/// variant declared without one has the previous variant's discriminant plus
/// one, whatever its position.
pub proof fn lemma_enum_discriminants(name: String, decls: Seq<crate::bit_enum::VariantDecl>,
    e: crate::bit_enum::BitEnumDef, i: int)
    requires
        crate::bit_enum::resolves_to(name, decls, Ok(e)),
        0 <= i < decls.len(),
    ensures
        decls[i].discriminant matches Some(d) ==> e.variants@[i].discriminant == d,
        decls[i].discriminant is None && i == 0 ==> e.variants@[i].discriminant == 0,
        decls[i].discriminant is None && i > 0
            ==> e.variants@[i].discriminant == e.variants@[i - 1].discriminant + 1,
{
    assert(e.variants@[i].discriminant == crate::bit_enum::resolved(decls, i));
    if i > 0 {
        assert(e.variants@[i - 1].discriminant == crate::bit_enum::resolved(decls, i - 1));
    }
}

/// The storage kind chosen for `bits` bits is the narrowest kind with at
/// least that many bits; there is none beyond 128 bits.
pub proof fn lemma_smallest_fitting(bits: nat)
    ensures
        crate::model::StorageKind::spec_smallest_fitting(bits) is None <==> bits > 128,
        crate::model::StorageKind::spec_smallest_fitting(bits) matches Some(k) ==> {
            &&& k.bits() >= bits
            &&& forall|k2: crate::model::StorageKind| #[trigger] k2.bits() >= bits ==> k.bits() <= k2.bits()
        },
{
    assert forall|k2: crate::model::StorageKind| #[trigger] k2.bits() >= bits implies
        crate::model::StorageKind::spec_smallest_fitting(bits)->0.bits() <= k2.bits() by {
        match k2 {
            crate::model::StorageKind::W8 => {},
            crate::model::StorageKind::W16 => {},
            crate::model::StorageKind::W32 => {},
            crate::model::StorageKind::W64 => {},
            crate::model::StorageKind::W128 => {},
        }
    }
}

} // verus!

verus! {

/// A runtime bit given as `u8` selects that bit alone: the pair it converts
/// to is `(n, n)`.
pub proof fn lemma_bit_spec_u8(n: u8, r: (u8, u8))
    requires
        n.spec_fits(),
        forall|b: int| #[trigger] in_pair(r, b) <==> n.spec_selects(b),
    ensures
        forall|b: int| #[trigger] in_pair(r, b) <==> b == n,
        r.0 == n && r.1 == n,
{
    assert(in_pair(r, n as int));
    assert(in_pair(r, r.0 as int) && in_pair(r, r.1 as int));
}

/// A runtime bit given as `u16` selects that bit alone: the pair it converts
/// to is `(n, n)`.
pub proof fn lemma_bit_spec_u16(n: u16, r: (u8, u8))
    requires
        n.spec_fits(),
        forall|b: int| #[trigger] in_pair(r, b) <==> n.spec_selects(b),
    ensures
        forall|b: int| #[trigger] in_pair(r, b) <==> b == n,
        r.0 == n && r.1 == n,
{
    assert(in_pair(r, n as int));
    assert(in_pair(r, r.0 as int) && in_pair(r, r.1 as int));
}

/// A runtime bit given as `u32` selects that bit alone: the pair it converts
/// to is `(n, n)`.
pub proof fn lemma_bit_spec_u32(n: u32, r: (u8, u8))
    requires
        n.spec_fits(),
        forall|b: int| #[trigger] in_pair(r, b) <==> n.spec_selects(b),
    ensures
        forall|b: int| #[trigger] in_pair(r, b) <==> b == n,
        r.0 == n && r.1 == n,
{
    assert(in_pair(r, n as int));
    assert(in_pair(r, r.0 as int) && in_pair(r, r.1 as int));
}

/// A runtime bit given as `u64` selects that bit alone: the pair it converts
/// to is `(n, n)`.
pub proof fn lemma_bit_spec_u64(n: u64, r: (u8, u8))
    requires
        n.spec_fits(),
        forall|b: int| #[trigger] in_pair(r, b) <==> n.spec_selects(b),
    ensures
        forall|b: int| #[trigger] in_pair(r, b) <==> b == n,
        r.0 == n && r.1 == n,
{
    assert(in_pair(r, n as int));
    assert(in_pair(r, r.0 as int) && in_pair(r, r.1 as int));
}

/// A runtime bit given as `u128` selects that bit alone: the pair it converts
/// to is `(n, n)`.
pub proof fn lemma_bit_spec_u128(n: u128, r: (u8, u8))
    requires
        n.spec_fits(),
        forall|b: int| #[trigger] in_pair(r, b) <==> n.spec_selects(b),
    ensures
        forall|b: int| #[trigger] in_pair(r, b) <==> b == n,
        r.0 == n && r.1 == n,
{
    assert(in_pair(r, n as int));
    assert(in_pair(r, r.0 as int) && in_pair(r, r.1 as int));
}

/// A runtime bit given as `usize` selects that bit alone: the pair it converts
/// to is `(n, n)`.
pub proof fn lemma_bit_spec_usize(n: usize, r: (u8, u8))
    requires
        n.spec_fits(),
        forall|b: int| #[trigger] in_pair(r, b) <==> n.spec_selects(b),
    ensures
        forall|b: int| #[trigger] in_pair(r, b) <==> b == n,
        r.0 == n && r.1 == n,
{
    assert(in_pair(r, n as int));
    assert(in_pair(r, r.0 as int) && in_pair(r, r.1 as int));
}

/// A runtime bit given as `i8` selects that bit alone: the pair it converts
/// to is `(n, n)`.
pub proof fn lemma_bit_spec_i8(n: i8, r: (u8, u8))
    requires
        n.spec_fits(),
        forall|b: int| #[trigger] in_pair(r, b) <==> n.spec_selects(b),
    ensures
        forall|b: int| #[trigger] in_pair(r, b) <==> b == n,
        r.0 == n && r.1 == n,
{
    assert(in_pair(r, n as int));
    assert(in_pair(r, r.0 as int) && in_pair(r, r.1 as int));
}

/// A runtime bit given as `i16` selects that bit alone: the pair it converts
/// to is `(n, n)`.
pub proof fn lemma_bit_spec_i16(n: i16, r: (u8, u8))
    requires
        n.spec_fits(),
        forall|b: int| #[trigger] in_pair(r, b) <==> n.spec_selects(b),
    ensures
        forall|b: int| #[trigger] in_pair(r, b) <==> b == n,
        r.0 == n && r.1 == n,
{
    assert(in_pair(r, n as int));
    assert(in_pair(r, r.0 as int) && in_pair(r, r.1 as int));
}

/// A runtime bit given as `i32` selects that bit alone: the pair it converts
/// to is `(n, n)`.
pub proof fn lemma_bit_spec_i32(n: i32, r: (u8, u8))
    requires
        n.spec_fits(),
        forall|b: int| #[trigger] in_pair(r, b) <==> n.spec_selects(b),
    ensures
        forall|b: int| #[trigger] in_pair(r, b) <==> b == n,
        r.0 == n && r.1 == n,
{
    assert(in_pair(r, n as int));
    assert(in_pair(r, r.0 as int) && in_pair(r, r.1 as int));
}

/// A runtime bit given as `i64` selects that bit alone: the pair it converts
/// to is `(n, n)`.
pub proof fn lemma_bit_spec_i64(n: i64, r: (u8, u8))
    requires
        n.spec_fits(),
        forall|b: int| #[trigger] in_pair(r, b) <==> n.spec_selects(b),
    ensures
        forall|b: int| #[trigger] in_pair(r, b) <==> b == n,
        r.0 == n && r.1 == n,
{
    assert(in_pair(r, n as int));
    assert(in_pair(r, r.0 as int) && in_pair(r, r.1 as int));
}

/// A runtime bit given as `i128` selects that bit alone: the pair it converts
/// to is `(n, n)`.
pub proof fn lemma_bit_spec_i128(n: i128, r: (u8, u8))
    requires
        n.spec_fits(),
        forall|b: int| #[trigger] in_pair(r, b) <==> n.spec_selects(b),
    ensures
        forall|b: int| #[trigger] in_pair(r, b) <==> b == n,
        r.0 == n && r.1 == n,
{
    assert(in_pair(r, n as int));
    assert(in_pair(r, r.0 as int) && in_pair(r, r.1 as int));
}

/// A runtime bit given as `isize` selects that bit alone: the pair it converts
/// to is `(n, n)`.
pub proof fn lemma_bit_spec_isize(n: isize, r: (u8, u8))
    requires
        n.spec_fits(),
        forall|b: int| #[trigger] in_pair(r, b) <==> n.spec_selects(b),
    ensures
        forall|b: int| #[trigger] in_pair(r, b) <==> b == n,
        r.0 == n && r.1 == n,
{
    assert(in_pair(r, n as int));
    assert(in_pair(r, r.0 as int) && in_pair(r, r.1 as int));
}

/// A runtime half-open range `a..b` of `u8` selects the bits `a <= i < b`,
/// never bit `b`: a non-empty one converts to the pair `(a, b - 1)`.
pub proof fn lemma_range_spec_u8(x: core::ops::Range<u8>, r: (u8, u8))
    requires
        x.spec_fits(),
        forall|b: int| #[trigger] in_pair(r, b) <==> x.spec_selects(b),
    ensures
        forall|b: int| #[trigger] in_pair(r, b) <==> x.start <= b < x.end,
        x.start < x.end ==> r.0 == x.start && r.1 == x.end - 1,
{
    if x.start < x.end {
        assert(in_pair(r, x.start as int) && in_pair(r, x.end - 1));
        assert(in_pair(r, r.0 as int) && in_pair(r, r.1 as int));
    }
}

/// A runtime inclusive range `a..=b` of `u8` that has not been iterated
/// selects the bits `a <= i <= b`: a non-empty one converts to the pair
/// `(a, b)`.
pub proof fn lemma_range_inclusive_spec_u8(x: core::ops::RangeInclusive<u8>, r: (u8, u8))
    requires
        x.spec_fits(),
        forall|b: int| #[trigger] in_pair(r, b) <==> x.spec_selects(b),
    ensures
        forall|b: int| #[trigger] in_pair(r, b) <==> x@.start <= b <= x@.end,
        x@.start <= x@.end ==> r.0 == x@.start && r.1 == x@.end,
{
    if x@.start <= x@.end {
        assert(in_pair(r, x@.start as int) && in_pair(r, x@.end as int));
        assert(in_pair(r, r.0 as int) && in_pair(r, r.1 as int));
    }
}

/// A runtime half-open range `a..b` of `u16` selects the bits `a <= i < b`,
/// never bit `b`: a non-empty one converts to the pair `(a, b - 1)`.
pub proof fn lemma_range_spec_u16(x: core::ops::Range<u16>, r: (u8, u8))
    requires
        x.spec_fits(),
        forall|b: int| #[trigger] in_pair(r, b) <==> x.spec_selects(b),
    ensures
        forall|b: int| #[trigger] in_pair(r, b) <==> x.start <= b < x.end,
        x.start < x.end ==> r.0 == x.start && r.1 == x.end - 1,
{
    if x.start < x.end {
        assert(in_pair(r, x.start as int) && in_pair(r, x.end - 1));
        assert(in_pair(r, r.0 as int) && in_pair(r, r.1 as int));
    }
}

/// A runtime inclusive range `a..=b` of `u16` that has not been iterated
/// selects the bits `a <= i <= b`: a non-empty one converts to the pair
/// `(a, b)`.
pub proof fn lemma_range_inclusive_spec_u16(x: core::ops::RangeInclusive<u16>, r: (u8, u8))
    requires
        x.spec_fits(),
        forall|b: int| #[trigger] in_pair(r, b) <==> x.spec_selects(b),
    ensures
        forall|b: int| #[trigger] in_pair(r, b) <==> x@.start <= b <= x@.end,
        x@.start <= x@.end ==> r.0 == x@.start && r.1 == x@.end,
{
    if x@.start <= x@.end {
        assert(in_pair(r, x@.start as int) && in_pair(r, x@.end as int));
        assert(in_pair(r, r.0 as int) && in_pair(r, r.1 as int));
    }
}

/// A runtime half-open range `a..b` of `u32` selects the bits `a <= i < b`,
/// never bit `b`: a non-empty one converts to the pair `(a, b - 1)`.
pub proof fn lemma_range_spec_u32(x: core::ops::Range<u32>, r: (u8, u8))
    requires
        x.spec_fits(),
        forall|b: int| #[trigger] in_pair(r, b) <==> x.spec_selects(b),
    ensures
        forall|b: int| #[trigger] in_pair(r, b) <==> x.start <= b < x.end,
        x.start < x.end ==> r.0 == x.start && r.1 == x.end - 1,
{
    if x.start < x.end {
        assert(in_pair(r, x.start as int) && in_pair(r, x.end - 1));
        assert(in_pair(r, r.0 as int) && in_pair(r, r.1 as int));
    }
}

/// A runtime inclusive range `a..=b` of `u32` that has not been iterated
/// selects the bits `a <= i <= b`: a non-empty one converts to the pair
/// `(a, b)`.
pub proof fn lemma_range_inclusive_spec_u32(x: core::ops::RangeInclusive<u32>, r: (u8, u8))
    requires
        x.spec_fits(),
        forall|b: int| #[trigger] in_pair(r, b) <==> x.spec_selects(b),
    ensures
        forall|b: int| #[trigger] in_pair(r, b) <==> x@.start <= b <= x@.end,
        x@.start <= x@.end ==> r.0 == x@.start && r.1 == x@.end,
{
    if x@.start <= x@.end {
        assert(in_pair(r, x@.start as int) && in_pair(r, x@.end as int));
        assert(in_pair(r, r.0 as int) && in_pair(r, r.1 as int));
    }
}

/// A runtime half-open range `a..b` of `u64` selects the bits `a <= i < b`,
/// never bit `b`: a non-empty one converts to the pair `(a, b - 1)`.
pub proof fn lemma_range_spec_u64(x: core::ops::Range<u64>, r: (u8, u8))
    requires
        x.spec_fits(),
        forall|b: int| #[trigger] in_pair(r, b) <==> x.spec_selects(b),
    ensures
        forall|b: int| #[trigger] in_pair(r, b) <==> x.start <= b < x.end,
        x.start < x.end ==> r.0 == x.start && r.1 == x.end - 1,
{
    if x.start < x.end {
        assert(in_pair(r, x.start as int) && in_pair(r, x.end - 1));
        assert(in_pair(r, r.0 as int) && in_pair(r, r.1 as int));
    }
}

/// A runtime inclusive range `a..=b` of `u64` that has not been iterated
/// selects the bits `a <= i <= b`: a non-empty one converts to the pair
/// `(a, b)`.
pub proof fn lemma_range_inclusive_spec_u64(x: core::ops::RangeInclusive<u64>, r: (u8, u8))
    requires
        x.spec_fits(),
        forall|b: int| #[trigger] in_pair(r, b) <==> x.spec_selects(b),
    ensures
        forall|b: int| #[trigger] in_pair(r, b) <==> x@.start <= b <= x@.end,
        x@.start <= x@.end ==> r.0 == x@.start && r.1 == x@.end,
{
    if x@.start <= x@.end {
        assert(in_pair(r, x@.start as int) && in_pair(r, x@.end as int));
        assert(in_pair(r, r.0 as int) && in_pair(r, r.1 as int));
    }
}

/// A runtime half-open range `a..b` of `u128` selects the bits `a <= i < b`,
/// never bit `b`: a non-empty one converts to the pair `(a, b - 1)`.
pub proof fn lemma_range_spec_u128(x: core::ops::Range<u128>, r: (u8, u8))
    requires
        x.spec_fits(),
        forall|b: int| #[trigger] in_pair(r, b) <==> x.spec_selects(b),
    ensures
        forall|b: int| #[trigger] in_pair(r, b) <==> x.start <= b < x.end,
        x.start < x.end ==> r.0 == x.start && r.1 == x.end - 1,
{
    if x.start < x.end {
        assert(in_pair(r, x.start as int) && in_pair(r, x.end - 1));
        assert(in_pair(r, r.0 as int) && in_pair(r, r.1 as int));
    }
}

/// A runtime inclusive range `a..=b` of `u128` that has not been iterated
/// selects the bits `a <= i <= b`: a non-empty one converts to the pair
/// `(a, b)`.
pub proof fn lemma_range_inclusive_spec_u128(x: core::ops::RangeInclusive<u128>, r: (u8, u8))
    requires
        x.spec_fits(),
        forall|b: int| #[trigger] in_pair(r, b) <==> x.spec_selects(b),
    ensures
        forall|b: int| #[trigger] in_pair(r, b) <==> x@.start <= b <= x@.end,
        x@.start <= x@.end ==> r.0 == x@.start && r.1 == x@.end,
{
    if x@.start <= x@.end {
        assert(in_pair(r, x@.start as int) && in_pair(r, x@.end as int));
        assert(in_pair(r, r.0 as int) && in_pair(r, r.1 as int));
    }
}

/// A runtime half-open range `a..b` of `usize` selects the bits `a <= i < b`,
/// never bit `b`: a non-empty one converts to the pair `(a, b - 1)`.
pub proof fn lemma_range_spec_usize(x: core::ops::Range<usize>, r: (u8, u8))
    requires
        x.spec_fits(),
        forall|b: int| #[trigger] in_pair(r, b) <==> x.spec_selects(b),
    ensures
        forall|b: int| #[trigger] in_pair(r, b) <==> x.start <= b < x.end,
        x.start < x.end ==> r.0 == x.start && r.1 == x.end - 1,
{
    if x.start < x.end {
        assert(in_pair(r, x.start as int) && in_pair(r, x.end - 1));
        assert(in_pair(r, r.0 as int) && in_pair(r, r.1 as int));
    }
}

/// A runtime inclusive range `a..=b` of `usize` that has not been iterated
/// selects the bits `a <= i <= b`: a non-empty one converts to the pair
/// `(a, b)`.
pub proof fn lemma_range_inclusive_spec_usize(x: core::ops::RangeInclusive<usize>, r: (u8, u8))
    requires
        x.spec_fits(),
        forall|b: int| #[trigger] in_pair(r, b) <==> x.spec_selects(b),
    ensures
        forall|b: int| #[trigger] in_pair(r, b) <==> x@.start <= b <= x@.end,
        x@.start <= x@.end ==> r.0 == x@.start && r.1 == x@.end,
{
    if x@.start <= x@.end {
        assert(in_pair(r, x@.start as int) && in_pair(r, x@.end as int));
        assert(in_pair(r, r.0 as int) && in_pair(r, r.1 as int));
    }
}

/// A runtime half-open range `a..b` of `i8` selects the bits `a <= i < b`,
/// never bit `b`: a non-empty one converts to the pair `(a, b - 1)`.
pub proof fn lemma_range_spec_i8(x: core::ops::Range<i8>, r: (u8, u8))
    requires
        x.spec_fits(),
        forall|b: int| #[trigger] in_pair(r, b) <==> x.spec_selects(b),
    ensures
        forall|b: int| #[trigger] in_pair(r, b) <==> x.start <= b < x.end,
        x.start < x.end ==> r.0 == x.start && r.1 == x.end - 1,
{
    if x.start < x.end {
        assert(in_pair(r, x.start as int) && in_pair(r, x.end - 1));
        assert(in_pair(r, r.0 as int) && in_pair(r, r.1 as int));
    }
}

/// A runtime inclusive range `a..=b` of `i8` that has not been iterated
/// selects the bits `a <= i <= b`: a non-empty one converts to the pair
/// `(a, b)`.
pub proof fn lemma_range_inclusive_spec_i8(x: core::ops::RangeInclusive<i8>, r: (u8, u8))
    requires
        x.spec_fits(),
        forall|b: int| #[trigger] in_pair(r, b) <==> x.spec_selects(b),
    ensures
        forall|b: int| #[trigger] in_pair(r, b) <==> x@.start <= b <= x@.end,
        x@.start <= x@.end ==> r.0 == x@.start && r.1 == x@.end,
{
    if x@.start <= x@.end {
        assert(in_pair(r, x@.start as int) && in_pair(r, x@.end as int));
        assert(in_pair(r, r.0 as int) && in_pair(r, r.1 as int));
    }
}

/// A runtime half-open range `a..b` of `i16` selects the bits `a <= i < b`,
/// never bit `b`: a non-empty one converts to the pair `(a, b - 1)`.
pub proof fn lemma_range_spec_i16(x: core::ops::Range<i16>, r: (u8, u8))
    requires
        x.spec_fits(),
        forall|b: int| #[trigger] in_pair(r, b) <==> x.spec_selects(b),
    ensures
        forall|b: int| #[trigger] in_pair(r, b) <==> x.start <= b < x.end,
        x.start < x.end ==> r.0 == x.start && r.1 == x.end - 1,
{
    if x.start < x.end {
        assert(in_pair(r, x.start as int) && in_pair(r, x.end - 1));
        assert(in_pair(r, r.0 as int) && in_pair(r, r.1 as int));
    }
}

/// A runtime inclusive range `a..=b` of `i16` that has not been iterated
/// selects the bits `a <= i <= b`: a non-empty one converts to the pair
/// `(a, b)`.
pub proof fn lemma_range_inclusive_spec_i16(x: core::ops::RangeInclusive<i16>, r: (u8, u8))
    requires
        x.spec_fits(),
        forall|b: int| #[trigger] in_pair(r, b) <==> x.spec_selects(b),
    ensures
        forall|b: int| #[trigger] in_pair(r, b) <==> x@.start <= b <= x@.end,
        x@.start <= x@.end ==> r.0 == x@.start && r.1 == x@.end,
{
    if x@.start <= x@.end {
        assert(in_pair(r, x@.start as int) && in_pair(r, x@.end as int));
        assert(in_pair(r, r.0 as int) && in_pair(r, r.1 as int));
    }
}

/// A runtime half-open range `a..b` of `i32` selects the bits `a <= i < b`,
/// never bit `b`: a non-empty one converts to the pair `(a, b - 1)`.
pub proof fn lemma_range_spec_i32(x: core::ops::Range<i32>, r: (u8, u8))
    requires
        x.spec_fits(),
        forall|b: int| #[trigger] in_pair(r, b) <==> x.spec_selects(b),
    ensures
        forall|b: int| #[trigger] in_pair(r, b) <==> x.start <= b < x.end,
        x.start < x.end ==> r.0 == x.start && r.1 == x.end - 1,
{
    if x.start < x.end {
        assert(in_pair(r, x.start as int) && in_pair(r, x.end - 1));
        assert(in_pair(r, r.0 as int) && in_pair(r, r.1 as int));
    }
}

/// A runtime inclusive range `a..=b` of `i32` that has not been iterated
/// selects the bits `a <= i <= b`: a non-empty one converts to the pair
/// `(a, b)`.
pub proof fn lemma_range_inclusive_spec_i32(x: core::ops::RangeInclusive<i32>, r: (u8, u8))
    requires
        x.spec_fits(),
        forall|b: int| #[trigger] in_pair(r, b) <==> x.spec_selects(b),
    ensures
        forall|b: int| #[trigger] in_pair(r, b) <==> x@.start <= b <= x@.end,
        x@.start <= x@.end ==> r.0 == x@.start && r.1 == x@.end,
{
    if x@.start <= x@.end {
        assert(in_pair(r, x@.start as int) && in_pair(r, x@.end as int));
        assert(in_pair(r, r.0 as int) && in_pair(r, r.1 as int));
    }
}

/// A runtime half-open range `a..b` of `i64` selects the bits `a <= i < b`,
/// never bit `b`: a non-empty one converts to the pair `(a, b - 1)`.
pub proof fn lemma_range_spec_i64(x: core::ops::Range<i64>, r: (u8, u8))
    requires
        x.spec_fits(),
        forall|b: int| #[trigger] in_pair(r, b) <==> x.spec_selects(b),
    ensures
        forall|b: int| #[trigger] in_pair(r, b) <==> x.start <= b < x.end,
        x.start < x.end ==> r.0 == x.start && r.1 == x.end - 1,
{
    if x.start < x.end {
        assert(in_pair(r, x.start as int) && in_pair(r, x.end - 1));
        assert(in_pair(r, r.0 as int) && in_pair(r, r.1 as int));
    }
}

/// A runtime inclusive range `a..=b` of `i64` that has not been iterated
/// selects the bits `a <= i <= b`: a non-empty one converts to the pair
/// `(a, b)`.
pub proof fn lemma_range_inclusive_spec_i64(x: core::ops::RangeInclusive<i64>, r: (u8, u8))
    requires
        x.spec_fits(),
        forall|b: int| #[trigger] in_pair(r, b) <==> x.spec_selects(b),
    ensures
        forall|b: int| #[trigger] in_pair(r, b) <==> x@.start <= b <= x@.end,
        x@.start <= x@.end ==> r.0 == x@.start && r.1 == x@.end,
{
    if x@.start <= x@.end {
        assert(in_pair(r, x@.start as int) && in_pair(r, x@.end as int));
        assert(in_pair(r, r.0 as int) && in_pair(r, r.1 as int));
    }
}

/// A runtime half-open range `a..b` of `i128` selects the bits `a <= i < b`,
/// never bit `b`: a non-empty one converts to the pair `(a, b - 1)`.
pub proof fn lemma_range_spec_i128(x: core::ops::Range<i128>, r: (u8, u8))
    requires
        x.spec_fits(),
        forall|b: int| #[trigger] in_pair(r, b) <==> x.spec_selects(b),
    ensures
        forall|b: int| #[trigger] in_pair(r, b) <==> x.start <= b < x.end,
        x.start < x.end ==> r.0 == x.start && r.1 == x.end - 1,
{
    if x.start < x.end {
        assert(in_pair(r, x.start as int) && in_pair(r, x.end - 1));
        assert(in_pair(r, r.0 as int) && in_pair(r, r.1 as int));
    }
}

/// A runtime inclusive range `a..=b` of `i128` that has not been iterated
/// selects the bits `a <= i <= b`: a non-empty one converts to the pair
/// `(a, b)`.
pub proof fn lemma_range_inclusive_spec_i128(x: core::ops::RangeInclusive<i128>, r: (u8, u8))
    requires
        x.spec_fits(),
        forall|b: int| #[trigger] in_pair(r, b) <==> x.spec_selects(b),
    ensures
        forall|b: int| #[trigger] in_pair(r, b) <==> x@.start <= b <= x@.end,
        x@.start <= x@.end ==> r.0 == x@.start && r.1 == x@.end,
{
    if x@.start <= x@.end {
        assert(in_pair(r, x@.start as int) && in_pair(r, x@.end as int));
        assert(in_pair(r, r.0 as int) && in_pair(r, r.1 as int));
    }
}

/// A runtime half-open range `a..b` of `isize` selects the bits `a <= i < b`,
/// never bit `b`: a non-empty one converts to the pair `(a, b - 1)`.
pub proof fn lemma_range_spec_isize(x: core::ops::Range<isize>, r: (u8, u8))
    requires
        x.spec_fits(),
        forall|b: int| #[trigger] in_pair(r, b) <==> x.spec_selects(b),
    ensures
        forall|b: int| #[trigger] in_pair(r, b) <==> x.start <= b < x.end,
        x.start < x.end ==> r.0 == x.start && r.1 == x.end - 1,
{
    if x.start < x.end {
        assert(in_pair(r, x.start as int) && in_pair(r, x.end - 1));
        assert(in_pair(r, r.0 as int) && in_pair(r, r.1 as int));
    }
}

/// A runtime inclusive range `a..=b` of `isize` that has not been iterated
/// selects the bits `a <= i <= b`: a non-empty one converts to the pair
/// `(a, b)`.
pub proof fn lemma_range_inclusive_spec_isize(x: core::ops::RangeInclusive<isize>, r: (u8, u8))
    requires
        x.spec_fits(),
        forall|b: int| #[trigger] in_pair(r, b) <==> x.spec_selects(b),
    ensures
        forall|b: int| #[trigger] in_pair(r, b) <==> x@.start <= b <= x@.end,
        x@.start <= x@.end ==> r.0 == x@.start && r.1 == x@.end,
{
    if x@.start <= x@.end {
        assert(in_pair(r, x@.start as int) && in_pair(r, x@.end as int));
        assert(in_pair(r, r.0 as int) && in_pair(r, r.1 as int));
    }
}

} // verus!
