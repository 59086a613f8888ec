//! Bitfield values: a storage word interpreted through a [`Layout`].
use vstd::prelude::*;
use vstd::arithmetic::power2::{pow2, lemma_pow2_pos, lemma_pow2_strictly_increases, lemma_pow2_unfold};
use crate::bits::{bit, low_mask, lemma_bits_ext, lemma_bits_below, lemma_pow2_128, lemma_and_bit,
    lemma_or_bit, lemma_nonzero_bit, lemma_shl_one};
use crate::layout::{Layout, value_bits_match, stores, field_value, sign_extend};
use crate::ordering::{FieldSegment, segments_wf, maps, maps_at, in_segments, in_span, value_covered};
use crate::access::{gather, scatter};

verus! {

/// Two values matching the same field bits are equal.
pub proof fn lemma_value_bits_unique(raw: u128, segs: Seq<FieldSegment>, width: nat, limit: nat, u1: u128, u2: u128)
    requires
        segments_wf(segs, width, limit),
        value_bits_match(raw, segs, width, u1),
        value_bits_match(raw, segs, width, u2),
    ensures
        u1 == u2,
{
    lemma_bits_below(u1, width);
    lemma_bits_below(u2, width);
    assert forall|i: nat| i < 128 implies #[trigger] bit(u1, i) == bit(u2, i) by {
        if i < width {
            assert(value_covered(segs, i as int));
            let k = choose|k: int| 0 <= k < segs.len() && #[trigger] in_span(i as int, segs[k].value_offset as int, segs[k].width as int);
            let p = segs[k].offset + (i - segs[k].value_offset);
            assert(maps_at(segs[k], i as int, p));
            assert(maps(segs, i as int, p));
        }
    }
    lemma_bits_ext(u1, u2);
}

/// The value of a field is the one matching its bits.
pub proof fn lemma_field_value(raw: u128, segs: Seq<FieldSegment>, width: nat, limit: nat, u: u128)
    requires
        segments_wf(segs, width, limit),
        value_bits_match(raw, segs, width, u),
    ensures
        field_value(raw, segs, width) == u,
{
    let v = field_value(raw, segs, width);
    assert(value_bits_match(raw, segs, width, v));
    lemma_value_bits_unique(raw, segs, width, limit, u, v);
}

/// Segments inside `limit` are inside any larger limit up to 128.
pub proof fn lemma_segments_wf_widen(segs: Seq<FieldSegment>, width: nat, limit: nat, limit2: nat)
    requires
        segments_wf(segs, width, limit),
        limit <= limit2 <= 128,
    ensures
        segments_wf(segs, width, limit2),
{
}

/// The 128-bit two's-complement form of `v`.
pub open spec fn twos(v: i128) -> u128 {
    if v >= 0 { v as u128 } else { (u128::MAX as int + 1 + v) as u128 }
}

/// Computes `twos(v)`.
pub fn twos_exec(v: i128) -> (r: u128)
    ensures
        r == twos(v),
{
    if v >= 0 {
        v as u128
    } else {
        let t = (-(v + 1)) as u128;
        assert(!t == 0xffff_ffff_ffff_ffff_ffff_ffff_ffff_ffffu128 - t) by (bit_vector);
        !t
    }
}

/// A bitfield value: a storage word of a bitfield layout.
#[derive(Clone, Copy)]
pub struct Bitfield<'a> {
    /// The layout the word is read through.
    pub layout: &'a Layout,
    /// The raw storage value.
    pub raw: u128,
}

impl<'a> Bitfield<'a> {
    /// The layout is valid and the word fits its storage type.
    pub open spec fn wf(&self) -> bool {
        &&& self.layout.wf()
        &&& self.raw < pow2(self.layout.storage_bits())
    }

    /// Field `f` exists.
    pub open spec fn has_field(&self, f: int) -> bool {
        0 <= f < self.layout.num_fields()
    }

    /// Field `f` can be written.
    pub open spec fn writable(&self, f: int) -> bool {
        !self.layout.def.fields@[f].readonly
    }

    /// The value held by field `f`.
    pub open spec fn value(&self, f: int) -> u128 {
        field_value(self.raw, self.layout.segs(f), self.layout.width(f))
    }

    /// Creates an instance with all bits set to zero.
    ///
    /// Field `default = ...` values are applied by [`Bitfield::default`], not here.
    pub fn zeroed(layout: &'a Layout) -> (r: Self)
        requires
            layout.wf(),
        ensures
            r.wf(),
            r.layout == layout,
            r.raw == 0,
    {
        proof { lemma_pow2_pos(layout.storage_bits()); }
        Bitfield { layout, raw: 0 }
    }

    /// Creates an instance from a raw storage value.
    pub fn from_raw(layout: &'a Layout, raw: u128) -> (r: Self)
        requires
            layout.wf(),
            raw < pow2(layout.storage_bits()),
        ensures
            r.wf(),
            r.layout == layout,
            r.raw == raw,
    {
        Bitfield { layout, raw }
    }

    /// Returns the raw storage value.
    pub fn raw(&self) -> (r: u128)
        ensures
            r == self.raw,
    {
        self.raw
    }

    /// Reads field `f` as an unsigned value (also the raw value of a nested
    /// bitfield or bit enum): bit `j` of the result is the storage bit that
    /// value bit `j` lives at.
    pub fn get_uint(&self, f: usize) -> (r: u128)
        requires
            self.wf(),
            self.has_field(f as int),
        ensures
            r == self.value(f as int),
            value_bits_match(self.raw, self.layout.segs(f as int), self.layout.width(f as int), r),
    {
        let fl = &self.layout.fields[f];
        proof { assert(crate::layout::field_layout_wf(&self.layout.def, f as int, self.layout.fields@[f as int])); }
        let r = gather(self.raw, &fl.segments, Ghost(fl.width as nat), Ghost(self.layout.def.effective_width as nat));
        proof {
            lemma_field_value(self.raw, fl.segments@, fl.width as nat, self.layout.def.effective_width as nat, r);
        }
        r
    }

    /// Reads field `f` as a `bool`: whether any of its bits is set.
    pub fn get_bool(&self, f: usize) -> (r: bool)
        requires
            self.wf(),
            self.has_field(f as int),
        ensures
            r == exists|p: int| 0 <= p && #[trigger] in_segments(self.layout.segs(f as int), p) && bit(self.raw, p as nat),
    {
        let fl = &self.layout.fields[f];
        proof { assert(crate::layout::field_layout_wf(&self.layout.def, f as int, self.layout.fields@[f as int])); }
        let x = self.raw & fl.mask;
        proof {
            lemma_nonzero_bit(x);
            if x != 0 {
                let i = choose|i: nat| i < 128 && #[trigger] bit(x, i);
                lemma_and_bit(self.raw, fl.mask, i);
                let ii = i as int;
                assert(bit(fl.mask, ii as nat) == (ii < 128 && in_segments(fl.segments@, ii)));
                assert(in_segments(self.layout.segs(f as int), i as int));
            }
            if exists|p: int| 0 <= p && #[trigger] in_segments(self.layout.segs(f as int), p) && bit(self.raw, p as nat) {
                let p = choose|p: int| 0 <= p && #[trigger] in_segments(self.layout.segs(f as int), p) && bit(self.raw, p as nat);
                lemma_and_bit(self.raw, fl.mask, p as nat);
                assert(bit(x, p as nat));
            }
        }
        x != 0
    }

    /// Reads field `f` as a signed value: its bits sign-extended from the
    /// field width.
    pub fn get_int(&self, f: usize) -> (r: i128)
        requires
            self.wf(),
            self.has_field(f as int),
        ensures
            r == sign_extend(self.value(f as int) as nat, self.layout.width(f as int)),
    {
        let u = self.get_uint(f);
        let w = self.layout.fields[f].width;
        proof {
            assert(crate::layout::field_layout_wf(&self.layout.def, f as int, self.layout.fields@[f as int]));
            let segs = self.layout.segs(f as int);
            assert(segs.len() >= 1);
            assert(1 <= segs[0].width && segs[0].value_offset + segs[0].width <= w);
            lemma_shl_one((w - 1) as nat);
            lemma_pow2_unfold(w as nat);
            lemma_pow2_128();
        }
        let half = 1u128 << (w - 1);
        proof {
            assert(half == pow2((w - 1) as nat));
            assert(u < pow2(w as nat));
            assert(pow2(w as nat) == 2 * half);
            if w < 128 {
                lemma_pow2_strictly_increases((w - 1) as nat, 127);
            }
            assert(pow2(127) == 0x8000_0000_0000_0000_0000_0000_0000_0000) by {
                lemma_pow2_unfold(128);
            }
        }
        if u < half {
            u as i128
        } else {
            let m = u - half;
            if w == 128 {
                (m as i128) + i128::MIN
            } else {
                (m as i128) - (half as i128)
            }
        }
    }

    /// Writes `v` into field `f`: the storage bits of the field receive the
    /// low bits of `v`, and every other bit is kept.
    pub fn set_uint(&mut self, f: usize, v: u128)
        requires
            old(self).wf(),
            old(self).has_field(f as int),
            old(self).writable(f as int),
        ensures
            final(self).wf(),
            final(self).layout == old(self).layout,
            stores(old(self).raw, final(self).raw, old(self).layout.segs(f as int), v),
    {
        self.raw = self.write_bits(f, v);
    }

    /// Returns a copy with `v` written into field `f`.
    pub fn with_uint(self, f: usize, v: u128) -> (r: Self)
        requires
            self.wf(),
            self.has_field(f as int),
            self.writable(f as int),
        ensures
            r.wf(),
            r.layout == self.layout,
            stores(self.raw, r.raw, self.layout.segs(f as int), v),
    {
        let raw = self.write_bits(f, v);
        Bitfield { layout: self.layout, raw }
    }

    /// Writes a `bool` into field `f`: every bit of the field is set when `v`
    /// holds and cleared otherwise.
    pub fn set_bool(&mut self, f: usize, v: bool)
        requires
            old(self).wf(),
            old(self).has_field(f as int),
            old(self).writable(f as int),
        ensures
            final(self).wf(),
            final(self).layout == old(self).layout,
            stores(old(self).raw, final(self).raw, old(self).layout.segs(f as int), if v { u128::MAX } else { 0 }),
    {
        self.raw = self.write_bits(f, if v { u128::MAX } else { 0 });
    }

    /// Returns a copy with the `bool` `v` written into field `f`.
    pub fn with_bool(self, f: usize, v: bool) -> (r: Self)
        requires
            self.wf(),
            self.has_field(f as int),
            self.writable(f as int),
        ensures
            r.wf(),
            r.layout == self.layout,
            stores(self.raw, r.raw, self.layout.segs(f as int), if v { u128::MAX } else { 0 }),
    {
        let raw = self.write_bits(f, if v { u128::MAX } else { 0 });
        Bitfield { layout: self.layout, raw }
    }

    /// Writes the signed `v` into field `f`, truncating its two's-complement
    /// form to the field width.
    pub fn set_int(&mut self, f: usize, v: i128)
        requires
            old(self).wf(),
            old(self).has_field(f as int),
            old(self).writable(f as int),
        ensures
            final(self).wf(),
            final(self).layout == old(self).layout,
            stores(old(self).raw, final(self).raw, old(self).layout.segs(f as int), twos(v)),
    {
        self.raw = self.write_bits(f, twos_exec(v));
    }

    /// Returns a copy with the signed `v` written into field `f`.
    pub fn with_int(self, f: usize, v: i128) -> (r: Self)
        requires
            self.wf(),
            self.has_field(f as int),
            self.writable(f as int),
        ensures
            r.wf(),
            r.layout == self.layout,
            stores(self.raw, r.raw, self.layout.segs(f as int), twos(v)),
    {
        let raw = self.write_bits(f, twos_exec(v));
        Bitfield { layout: self.layout, raw }
    }

    /// The storage word with `v` written into field `f`.
    fn write_bits(&self, f: usize, v: u128) -> (r: u128)
        requires
            self.wf(),
            self.has_field(f as int),
        ensures
            r < pow2(self.layout.storage_bits()),
            stores(self.raw, r, self.layout.segs(f as int), v),
    {
        let fl = &self.layout.fields[f];
        proof {
            assert(crate::layout::field_layout_wf(&self.layout.def, f as int, self.layout.fields@[f as int]));
            crate::layout::lemma_valid_field(&self.layout.def, f as int);
            lemma_segments_wf_widen(fl.segments@, fl.width as nat, self.layout.def.effective_width as nat, self.layout.storage_bits());
        }
        scatter(self.raw, v, &fl.segments, Ghost(fl.width as nat), Ghost(self.layout.storage_bits()))
    }
}

} // verus!

verus! {

/// The word a `default = ...` value contributes before it is placed into its
/// field: all ones or zero for a `bool`, the value itself for an unsigned
/// value (or a nested value's raw bits), its two's-complement form for a
/// signed value.
pub open spec fn default_word(d: crate::model::DefaultValue) -> u128 {
    match d {
        crate::model::DefaultValue::Bool(b) => if b { u128::MAX } else { 0 },
        crate::model::DefaultValue::Unsigned(u) => u,
        crate::model::DefaultValue::Signed(s) => twos(s),
    }
}

/// Physical bit `p` is set by the default of field `g`.
pub open spec fn default_bit(l: &Layout, g: int, p: int) -> bool {
    &&& l.def.fields@[g].default is Some
    &&& exists|j: int| #[trigger] maps(l.segs(g), j, p) && bit(default_word(l.def.fields@[g].default->0), j as nat)
}

/// Physical bit `p` of a `Default` value of the layout is set.
pub open spec fn default_has_bit(l: &Layout, p: int) -> bool {
    exists|g: int| 0 <= g < l.num_fields() && #[trigger] default_bit(l, g, p)
}

/// The storage type's largest value.
pub open spec fn storage_max(l: &Layout) -> nat {
    (pow2(l.storage_bits()) - 1) as nat
}

proof fn lemma_bits_above_storage(l: &Layout, x: u128)
    requires
        l.wf(),
    ensures
        x < pow2(l.storage_bits()) <==> forall|i: nat| l.storage_bits() <= i ==> !#[trigger] bit(x, i),
{
    crate::layout::lemma_storage_bits_le(l.def.args.storage);
    lemma_bits_below(x, l.storage_bits());
}

impl<'a> Bitfield<'a> {
    /// The value of `Default::default()`: every field with a `default = ...`
    /// holds its default, every other bit is zero. `zeroed()` and
    /// `from_raw()` never apply defaults.
    pub fn default(layout: &'a Layout) -> (r: Self)
        requires
            layout.wf(),
        ensures
            r.wf(),
            r.layout == layout,
            forall|p: int| 0 <= p ==> #[trigger] bit(r.raw, p as nat) == default_has_bit(layout, p),
    {
        let n = layout.def.fields.len();
        let mut acc: u128 = 0;
        proof { crate::bits::lemma_zero_bits(); }
        let mut f: usize = 0;
        while f < n
            invariant
                n == layout.num_fields(),
                layout.wf(),
                0 <= f <= n,
                forall|p: int| 0 <= p ==> #[trigger] bit(acc, p as nat)
                    == exists|g: int| 0 <= g < f && #[trigger] default_bit(layout, g, p),
            decreases n - f,
        {
            match layout.def.fields[f].default {
                Some(d) => {
                    let word = match d {
                        crate::model::DefaultValue::Bool(b) => if b { u128::MAX } else { 0 },
                        crate::model::DefaultValue::Unsigned(u) => u,
                        crate::model::DefaultValue::Signed(s) => twos_exec(s),
                    };
                    let fl = &layout.fields[f];
                    proof {
                        assert(crate::layout::field_layout_wf(&layout.def, f as int, layout.fields@[f as int]));
                        crate::bits::lemma_zero_bits();
                    }
                    let placed = scatter(0, word, &fl.segments, Ghost(fl.width as nat), Ghost(layout.def.effective_width as nat));
                    proof {
                        assert(layout.def.fields@[f as int].default == Some(d));
                        assert(word == default_word(d));
                        assert(fl.segments@ == layout.segs(f as int));
                    }
                    let next = acc | placed;
                    proof {
                        assert forall|p: int| 0 <= p implies #[trigger] bit(next, p as nat)
                            == exists|g: int| 0 <= g < f + 1 && #[trigger] default_bit(layout, g, p) by {
                            lemma_or_bit(acc, placed, p as nat);
                            let segs = fl.segments@;
                            if in_segments(segs, p) {
                                let k = choose|k: int| 0 <= k < segs.len() && #[trigger] in_span(p, segs[k].offset as int, segs[k].width as int);
                                let j = segs[k].value_offset + (p - segs[k].offset);
                                assert(maps_at(segs[k], j, p));
                                assert(maps(segs, j, p));
                                assert(bit(placed, p as nat) == default_bit(layout, f as int, p)) by {
                                    if default_bit(layout, f as int, p) {
                                        let j2 = choose|j2: int| #[trigger] maps(layout.segs(f as int), j2, p)
                                            && bit(default_word(layout.def.fields@[f as int].default->0), j2 as nat);
                                        lemma_maps_unique(segs, fl.width as nat, layout.def.effective_width as nat, j, j2, p);
                                    }
                                }
                            } else {
                                assert(!default_bit(layout, f as int, p)) by {
                                    if default_bit(layout, f as int, p) {
                                        let j2 = choose|j2: int| #[trigger] maps(layout.segs(f as int), j2, p)
                                            && bit(default_word(layout.def.fields@[f as int].default->0), j2 as nat);
                                        let k = choose|k: int| 0 <= k < segs.len() && #[trigger] maps_at(segs[k], j2, p);
                                        assert(in_span(p, segs[k].offset as int, segs[k].width as int));
                                    }
                                }
                            }
                            if exists|g: int| 0 <= g < f + 1 && #[trigger] default_bit(layout, g, p) {
                                let g = choose|g: int| 0 <= g < f + 1 && #[trigger] default_bit(layout, g, p);
                                if g < f {
                                    assert(exists|g: int| 0 <= g < f && #[trigger] default_bit(layout, g, p));
                                }
                            }
                        }
                    }
                    acc = next;
                },
                None => {
                    proof {
                        assert forall|p: int| 0 <= p implies #[trigger] bit(acc, p as nat)
                            == exists|g: int| 0 <= g < f + 1 && #[trigger] default_bit(layout, g, p) by {
                            if exists|g: int| 0 <= g < f + 1 && #[trigger] default_bit(layout, g, p) {
                                let g = choose|g: int| 0 <= g < f + 1 && #[trigger] default_bit(layout, g, p);
                                if g < f {
                                    assert(exists|g: int| 0 <= g < f && #[trigger] default_bit(layout, g, p));
                                }
                            }
                        }
                    }
                },
            }
            f = f + 1;
        }
        proof {
            assert forall|i: nat| layout.storage_bits() <= i implies !#[trigger] bit(acc, i) by {
                crate::layout::lemma_storage_bits_le(layout.def.args.storage);
                let pi = i as int;
                assert(bit(acc, pi as nat) == exists|g: int| 0 <= g < n && #[trigger] default_bit(layout, g, pi));
                if exists|g: int| 0 <= g < n && #[trigger] default_bit(layout, g, i as int) {
                    let g = choose|g: int| 0 <= g < n && #[trigger] default_bit(layout, g, i as int);
                    let j = choose|j: int| #[trigger] maps(layout.segs(g), j, i as int)
                        && bit(default_word(layout.def.fields@[g].default->0), j as nat);
                    let segs = layout.segs(g);
                    let k = choose|k: int| 0 <= k < segs.len() && #[trigger] maps_at(segs[k], j, i as int);
                    assert(crate::layout::field_layout_wf(&layout.def, g, layout.fields@[g]));
                    crate::layout::lemma_valid_field(&layout.def, g);
                    assert(segs[k].offset + segs[k].width <= layout.def.effective_width);
                }
            }
            lemma_bits_above_storage(layout, acc);
        }
        Bitfield { layout, raw: acc }
    }
}

/// Within well-formed segments each physical bit holds one value bit.
pub proof fn lemma_maps_unique(segs: Seq<FieldSegment>, width: nat, limit: nat, j1: int, j2: int, p: int)
    requires
        segments_wf(segs, width, limit),
        maps(segs, j1, p),
        maps(segs, j2, p),
    ensures
        j1 == j2,
{
    let k1 = choose|k: int| 0 <= k < segs.len() && #[trigger] maps_at(segs[k], j1, p);
    let k2 = choose|k: int| 0 <= k < segs.len() && #[trigger] maps_at(segs[k], j2, p);
    if k1 != k2 {
        let a = segs[k1];
        let b = segs[k2];
        assert(a.offset + a.width <= b.offset || b.offset + b.width <= a.offset);
    }
}

} // verus!

verus! {

/// The largest value of the storage type.
fn storage_max_exec(l: &Layout) -> (r: u128)
    requires
        l.wf(),
    ensures
        r == storage_max(l),
{
    proof { crate::layout::lemma_storage_bits_le(l.def.args.storage); lemma_pow2_128(); lemma_pow2_pos(l.storage_bits()); }
    let bits = l.def.args.storage.bit_width();
    if bits >= 128 {
        u128::MAX
    } else {
        proof { lemma_shl_one(bits as nat); }
        (1u128 << bits) - 1
    }
}

impl<'a> Bitfield<'a> {
    /// `2^(storage bits)`.
    pub open spec fn modulus(&self) -> nat {
        pow2(self.layout.storage_bits())
    }

    /// Wrapping (modular) addition on the raw storage value. Carries cross
    /// field boundaries.
    pub fn wrapping_add(self, rhs: u128) -> (r: Self)
        requires
            self.wf(),
            rhs < self.modulus(),
        ensures
            r.wf(),
            r.layout == self.layout,
            r.raw == (self.raw + rhs) % (self.modulus() as int),
    {
        let max = storage_max_exec(self.layout);
        let raw = if rhs > max - self.raw {
            rhs - (max - self.raw) - 1
        } else {
            self.raw + rhs
        };
        proof {
            let m = self.modulus() as int;
            let s = self.raw + rhs;
            if s >= m {
                vstd::arithmetic::div_mod::lemma_fundamental_div_mod_converse_mod(s, m, 1, s - m);
            } else {
                vstd::arithmetic::div_mod::lemma_small_mod(s as nat, m as nat);
            }
        }
        Bitfield { layout: self.layout, raw }
    }

    /// Wrapping (modular) subtraction on the raw storage value. Borrows cross
    /// field boundaries.
    pub fn wrapping_sub(self, rhs: u128) -> (r: Self)
        requires
            self.wf(),
            rhs < self.modulus(),
        ensures
            r.wf(),
            r.layout == self.layout,
            r.raw == (self.raw - rhs) % (self.modulus() as int),
    {
        let max = storage_max_exec(self.layout);
        let raw = if rhs > self.raw {
            max - (rhs - self.raw) + 1
        } else {
            self.raw - rhs
        };
        proof {
            let m = self.modulus() as int;
            let s = self.raw - rhs;
            if s < 0 {
                vstd::arithmetic::div_mod::lemma_fundamental_div_mod_converse_mod(s, m, -1, s + m);
            } else {
                vstd::arithmetic::div_mod::lemma_small_mod(s as nat, m as nat);
            }
        }
        Bitfield { layout: self.layout, raw }
    }

    /// Saturating addition on the raw storage value, clamping at the largest
    /// storage value.
    pub fn saturating_add(self, rhs: u128) -> (r: Self)
        requires
            self.wf(),
            rhs < self.modulus(),
        ensures
            r.wf(),
            r.layout == self.layout,
            r.raw == if self.raw + rhs > storage_max(self.layout) { storage_max(self.layout) as int } else { self.raw + rhs },
    {
        let max = storage_max_exec(self.layout);
        let raw = if rhs > max - self.raw { max } else { self.raw + rhs };
        Bitfield { layout: self.layout, raw }
    }

    /// Saturating subtraction on the raw storage value, clamping at zero.
    pub fn saturating_sub(self, rhs: u128) -> (r: Self)
        requires
            self.wf(),
            rhs < self.modulus(),
        ensures
            r.wf(),
            r.layout == self.layout,
            r.raw == if self.raw < rhs { 0 } else { self.raw - rhs },
    {
        let raw = if rhs > self.raw { 0 } else { self.raw - rhs };
        Bitfield { layout: self.layout, raw }
    }

    /// Checked addition on the raw storage value, `None` on overflow.
    pub fn checked_add(self, rhs: u128) -> (r: Option<Self>)
        requires
            self.wf(),
            rhs < self.modulus(),
        ensures
            r is None <==> self.raw + rhs > storage_max(self.layout),
            r matches Some(v) ==> v.wf() && v.layout == self.layout && v.raw == self.raw + rhs,
    {
        let max = storage_max_exec(self.layout);
        if rhs > max - self.raw {
            None
        } else {
            Some(Bitfield { layout: self.layout, raw: self.raw + rhs })
        }
    }

    /// Checked subtraction on the raw storage value, `None` on overflow.
    pub fn checked_sub(self, rhs: u128) -> (r: Option<Self>)
        requires
            self.wf(),
            rhs < self.modulus(),
        ensures
            r is None <==> self.raw < rhs,
            r matches Some(v) ==> v.wf() && v.layout == self.layout && v.raw == self.raw - rhs,
    {
        if rhs > self.raw {
            None
        } else {
            Some(Bitfield { layout: self.layout, raw: self.raw - rhs })
        }
    }

    /// Overflowing addition on the raw storage value: the wrapped result and
    /// whether it overflowed.
    pub fn overflowing_add(self, rhs: u128) -> (r: (Self, bool))
        requires
            self.wf(),
            rhs < self.modulus(),
        ensures
            r.0.wf(),
            r.0.layout == self.layout,
            r.0.raw == (self.raw + rhs) % (self.modulus() as int),
            r.1 == (self.raw + rhs > storage_max(self.layout)),
    {
        let max = storage_max_exec(self.layout);
        let over = rhs > max - self.raw;
        (self.wrapping_add(rhs), over)
    }

    /// Overflowing subtraction on the raw storage value: the wrapped result
    /// and whether it borrowed.
    pub fn overflowing_sub(self, rhs: u128) -> (r: (Self, bool))
        requires
            self.wf(),
            rhs < self.modulus(),
        ensures
            r.0.wf(),
            r.0.layout == self.layout,
            r.0.raw == (self.raw - rhs) % (self.modulus() as int),
            r.1 == (self.raw < rhs),
    {
        let over = rhs > self.raw;
        (self.wrapping_sub(rhs), over)
    }

    /// `self & rhs` on the raw storage value.
    pub fn bitand(self, rhs: u128) -> (r: Self)
        requires
            self.wf(),
            rhs < self.modulus(),
        ensures
            r.wf(),
            r.layout == self.layout,
            r.raw == self.raw & rhs,
    {
        let x = self.raw;
        let raw = x & rhs;
        assert(raw <= x) by (bit_vector) requires raw == x & rhs;
        Bitfield { layout: self.layout, raw }
    }

    /// `self | rhs` on the raw storage value.
    pub fn bitor(self, rhs: u128) -> (r: Self)
        requires
            self.wf(),
            rhs < self.modulus(),
        ensures
            r.wf(),
            r.layout == self.layout,
            r.raw == self.raw | rhs,
    {
        let raw = self.raw | rhs;
        proof {
            lemma_bits_above_storage(self.layout, self.raw);
            lemma_bits_above_storage(self.layout, rhs);
            assert forall|i: nat| self.layout.storage_bits() <= i implies !#[trigger] bit(raw, i) by {
                lemma_or_bit(self.raw, rhs, i);
            }
            lemma_bits_above_storage(self.layout, raw);
        }
        Bitfield { layout: self.layout, raw }
    }

    /// `self ^ rhs` on the raw storage value.
    pub fn bitxor(self, rhs: u128) -> (r: Self)
        requires
            self.wf(),
            rhs < self.modulus(),
        ensures
            r.wf(),
            r.layout == self.layout,
            r.raw == self.raw ^ rhs,
    {
        let raw = self.raw ^ rhs;
        proof {
            lemma_bits_above_storage(self.layout, self.raw);
            lemma_bits_above_storage(self.layout, rhs);
            assert forall|i: nat| self.layout.storage_bits() <= i implies !#[trigger] bit(raw, i) by {
                crate::bits::lemma_xor_bit(self.raw, rhs, i);
            }
            lemma_bits_above_storage(self.layout, raw);
        }
        Bitfield { layout: self.layout, raw }
    }

    /// `!self` on the raw storage value: every storage bit flipped.
    pub fn not(self) -> (r: Self)
        requires
            self.wf(),
        ensures
            r.wf(),
            r.layout == self.layout,
            forall|i: nat| #[trigger] bit(r.raw, i) == (i < self.layout.storage_bits() && !bit(self.raw, i)),
    {
        let max = storage_max_exec(self.layout);
        let raw = self.raw ^ max;
        proof {
            crate::layout::lemma_storage_bits_le(self.layout.def.args.storage);
            lemma_pow2_128();
            assert(max == low_mask(self.layout.storage_bits()));
            assert forall|i: nat| #[trigger] bit(raw, i) == (i < self.layout.storage_bits() && !bit(self.raw, i)) by {
                crate::bits::lemma_xor_bit(self.raw, max, i);
                crate::bits::lemma_low_mask_bit(self.layout.storage_bits(), i);
                lemma_bits_above_storage(self.layout, self.raw);
            }
            lemma_bits_above_storage(self.layout, raw);
        }
        Bitfield { layout: self.layout, raw }
    }

    /// `self &= rhs`.
    pub fn bitand_assign(&mut self, rhs: u128)
        requires
            old(self).wf(),
            rhs < old(self).modulus(),
        ensures
            final(self).wf(),
            final(self).layout == old(self).layout,
            final(self).raw == old(self).raw & rhs,
    {
        *self = self.bitand(rhs);
    }

    /// `self |= rhs`.
    pub fn bitor_assign(&mut self, rhs: u128)
        requires
            old(self).wf(),
            rhs < old(self).modulus(),
        ensures
            final(self).wf(),
            final(self).layout == old(self).layout,
            final(self).raw == old(self).raw | rhs,
    {
        *self = self.bitor(rhs);
    }

    /// `self ^= rhs`.
    pub fn bitxor_assign(&mut self, rhs: u128)
        requires
            old(self).wf(),
            rhs < old(self).modulus(),
        ensures
            final(self).wf(),
            final(self).layout == old(self).layout,
            final(self).raw == old(self).raw ^ rhs,
    {
        *self = self.bitxor(rhs);
    }

    /// Reads the nested bitfield held by field `f`, interpreted through the
    /// nested type's layout.
    pub fn get_nested<'b>(&self, f: usize, inner: &'b Layout) -> (r: Bitfield<'b>)
        requires
            self.wf(),
            self.has_field(f as int),
            inner.wf(),
            self.layout.width(f as int) <= inner.storage_bits(),
        ensures
            r.wf(),
            r.layout == inner,
            r.raw == self.value(f as int),
    {
        let raw = self.get_uint(f);
        proof {
            if self.layout.width(f as int) < inner.storage_bits() {
                lemma_pow2_strictly_increases(self.layout.width(f as int), inner.storage_bits());
            }
        }
        Bitfield { layout: inner, raw }
    }

    /// The number of bytes of the storage type.
    pub open spec fn byte_count(&self) -> nat {
        self.layout.storage_bits() / 8
    }

    /// The raw storage value as bytes in little-endian order.
    pub fn to_le_bytes(self) -> (r: Vec<u8>)
        requires
            self.wf(),
        ensures
            r@ == crate::bytes::le_bytes(self.raw as nat, self.byte_count()),
    {
        let n = (self.layout.def.args.storage.bit_width() / 8) as usize;
        proof { crate::layout::lemma_storage_bits_le(self.layout.def.args.storage); }
        crate::bytes::le_bytes_exec(self.raw, n)
    }

    /// The raw storage value as bytes in big-endian order.
    pub fn to_be_bytes(self) -> (r: Vec<u8>)
        requires
            self.wf(),
        ensures
            r@ == crate::bytes::le_bytes(self.raw as nat, self.byte_count()).reverse(),
    {
        let le = self.to_le_bytes();
        reverse_bytes(&le)
    }

    /// The raw storage value as bytes in the platform's native order, which
    /// is either little- or big-endian.
    pub fn to_ne_bytes(self) -> (r: Vec<u8>)
        requires
            self.wf(),
        ensures
            r@ == crate::bytes::le_bytes(self.raw as nat, self.byte_count())
                || r@ == crate::bytes::le_bytes(self.raw as nat, self.byte_count()).reverse(),
    {
        if native_is_little() {
            self.to_le_bytes()
        } else {
            self.to_be_bytes()
        }
    }

    /// Creates an instance from bytes in little-endian order. Preserves the
    /// full storage value, including bits outside the bitfield width.
    pub fn from_le_bytes(layout: &'a Layout, bytes: &[u8]) -> (r: Self)
        requires
            layout.wf(),
            bytes@.len() == layout.storage_bits() / 8,
        ensures
            r.wf(),
            r.layout == layout,
            r.raw == crate::bytes::le_value(bytes@),
    {
        proof {
            crate::layout::lemma_storage_bits_le(layout.def.args.storage);
            crate::bytes::lemma_le_value_bound(bytes@);
            assert(8 * bytes@.len() == layout.storage_bits());
        }
        let raw = crate::bytes::le_value_exec(bytes);
        Bitfield { layout, raw }
    }

    /// Creates an instance from bytes in big-endian order.
    pub fn from_be_bytes(layout: &'a Layout, bytes: &[u8]) -> (r: Self)
        requires
            layout.wf(),
            bytes@.len() == layout.storage_bits() / 8,
        ensures
            r.wf(),
            r.layout == layout,
            r.raw == crate::bytes::le_value(bytes@.reverse()),
    {
        let rev = reverse_bytes_slice(bytes);
        Self::from_le_bytes(layout, rev.as_slice())
    }

    /// Creates an instance from bytes in the platform's native order, which is
    /// either little- or big-endian.
    pub fn from_ne_bytes(layout: &'a Layout, bytes: &[u8]) -> (r: Self)
        requires
            layout.wf(),
            bytes@.len() == layout.storage_bits() / 8,
        ensures
            r.wf(),
            r.layout == layout,
            r.raw == crate::bytes::le_value(bytes@) || r.raw == crate::bytes::le_value(bytes@.reverse()),
    {
        if native_is_little() {
            Self::from_le_bytes(layout, bytes)
        } else {
            Self::from_be_bytes(layout, bytes)
        }
    }
}

/// The bytes of `v` in reverse order.
fn reverse_bytes(v: &Vec<u8>) -> (r: Vec<u8>)
    ensures
        r@ == v@.reverse(),
{
    reverse_bytes_slice(v.as_slice())
}

/// The bytes of `s` in reverse order.
fn reverse_bytes_slice(s: &[u8]) -> (r: Vec<u8>)
    ensures
        r@ == s@.reverse(),
{
    let n = s.len();
    let mut r: Vec<u8> = Vec::new();
    let mut i: usize = n;
    while i > 0
        invariant
            n == s@.len(),
            0 <= i <= n,
            r@.len() == n - i,
            forall|k: int| 0 <= k < n - i ==> #[trigger] r@[k] == s@[n - 1 - k],
        decreases i,
    {
        r.push(s[i - 1]);
        i = i - 1;
    }
    proof { assert(r@ =~= s@.reverse()); }
    r
}

/// The 16 bytes of `x` in the platform's native byte order.
///
/// Calls `u128::to_ne_bytes`. Its documentation gives the bytes in the
/// target platform's native order, so the contract claims that they are the
/// little-endian or the big-endian bytes; which one is left open.
#[verifier::external_body]
fn u128_native_bytes(x: u128) -> (r: [u8; 16])
    ensures
        r@ == crate::bytes::le_bytes(x as nat, 16) || r@ == crate::bytes::le_bytes(x as nat, 16).reverse(),
{
    x.to_ne_bytes()
}

/// Whether the platform stores the least significant byte first.
fn native_is_little() -> bool {
    let probe = u128_native_bytes(1);
    probe[0] == 1
}

} // verus!

verus! {

impl<'a> crate::BitField for Bitfield<'a> {
    open spec fn spec_raw(&self) -> u128 {
        self.raw
    }

    open spec fn spec_is_msb0(&self) -> bool {
        self.layout.def.args.order == crate::model::BitOrder::Msb0
    }

    open spec fn spec_bits(&self) -> nat {
        self.layout.storage_bits()
    }

    open spec fn spec_wf(&self) -> bool {
        self.wf()
    }

    open spec fn spec_same_kind(&self, other: &Self) -> bool {
        self.layout == other.layout
    }

    proof fn lemma_same_kind_same_raw(a: &Self, b: &Self) {
    }

    fn is_msb0(&self) -> (r: bool) {
        self.layout.is_msb0()
    }

    fn storage_bits(&self) -> (r: u32) {
        proof { crate::layout::lemma_storage_bits_le(self.layout.def.args.storage); }
        self.layout.def.args.storage.bit_width()
    }

    fn raw_value(&self) -> (r: u128) {
        self.raw
    }

    fn with_raw(&self, raw: u128) -> (r: Self) {
        Bitfield { layout: self.layout, raw }
    }
}

impl<'a> Bitfield<'a> {
    /// Reads field `f` converted to the storage-like type `S`.
    pub fn get_as<S: crate::BitStorage>(&self, f: usize) -> (r: S)
        requires
            self.wf(),
            self.has_field(f as int),
        ensures
            r.spec_value() == (self.value(f as int) as nat) % pow2(S::spec_bits()),
    {
        S::from_u128(self.get_uint(f))
    }
}

} // verus!

verus! {

/// The name of the variant that `raw` reads as: the variant with that
/// discriminant, or the `#[fallback]` variant.
pub open spec fn variant_text(e: crate::bit_enum::BitEnumDef, raw: u128) -> Seq<char> {
    if crate::bit_enum::is_discriminant(&e, raw) {
        e.variants@[choose|i: int| 0 <= i < e.variants@.len() && #[trigger] e.variants@[i].discriminant == raw].name@
    } else {
        e.variants@[e.fallback as int].name@
    }
}

/// `k` is the first entry of `enums` naming field `f`.
pub open spec fn names_enum(enums: Seq<(usize, &crate::bit_enum::BitEnumDef)>, f: int, k: int) -> bool {
    &&& 0 <= k < enums.len()
    &&& enums[k].0 == f
    &&& forall|j: int| 0 <= j < k ==> (#[trigger] enums[j]).0 != f
}

/// The text of field `f`'s value: `true` or `false` for a `bool`, the
/// decimal number for an integer, and for a nested field the variant name
/// when `enums` gives the field's bit enum, else its raw value in decimal.
pub open spec fn value_text(b: Bitfield, enums: Seq<(usize, &crate::bit_enum::BitEnumDef)>, f: int) -> Seq<char> {
    match b.layout.def.fields@[f].ty {
        crate::model::FieldType::Bool =>
            if exists|p: int| 0 <= p && #[trigger] in_segments(b.layout.segs(f), p) && bit(b.raw, p as nat) {
                seq!['t', 'r', 'u', 'e']
            } else {
                seq!['f', 'a', 'l', 's', 'e']
            },
        crate::model::FieldType::PrimitiveUnsigned(_) => crate::text::decimal(b.value(f) as nat),
        crate::model::FieldType::PrimitiveSigned(_) =>
            crate::text::signed_decimal(sign_extend(b.value(f) as nat, b.layout.width(f))),
        crate::model::FieldType::Nested =>
            if exists|k: int| names_enum(enums, f, k) {
                variant_text(*enums[choose|k: int| names_enum(enums, f, k)].1, b.value(f))
            } else {
                crate::text::decimal(b.value(f) as nat)
            },
    }
}

/// `name: value` for field `f`.
pub open spec fn entry_text(b: Bitfield, enums: Seq<(usize, &crate::bit_enum::BitEnumDef)>, f: int) -> Seq<char> {
    b.layout.def.fields@[f].accessor_name@ + seq![':', ' '] + value_text(b, enums, f)
}

/// The entries of the first `k` fields, separated by `, `.
pub open spec fn entries_text(b: Bitfield, enums: Seq<(usize, &crate::bit_enum::BitEnumDef)>, k: int) -> Seq<char>
    decreases k,
{
    if k <= 0 {
        Seq::empty()
    } else if k == 1 {
        entry_text(b, enums, 0)
    } else {
        entries_text(b, enums, k - 1) + seq![',', ' '] + entry_text(b, enums, k - 1)
    }
}

/// The debug text of a bitfield value: `Name { a: 1, b: true }`, or just
/// `Name` for a bitfield without fields.
pub open spec fn debug_text_of(b: Bitfield, enums: Seq<(usize, &crate::bit_enum::BitEnumDef)>) -> Seq<char> {
    let n = b.layout.num_fields();
    if n == 0 {
        b.layout.def.name@
    } else {
        b.layout.def.name@ + seq![' ', '{', ' '] + entries_text(b, enums, n as int) + seq![' ', '}']
    }
}

/// The first entry of `enums` naming field `f`.
fn find_enum(enums: &[(usize, &crate::bit_enum::BitEnumDef)], f: usize) -> (r: Option<usize>)
    ensures
        r matches Some(k) ==> names_enum(enums@, f as int, k as int),
        r is None ==> !exists|k: int| names_enum(enums@, f as int, k),
{
    let n = enums.len();
    let mut k: usize = 0;
    while k < n
        invariant
            n == enums@.len(),
            0 <= k <= n,
            forall|j: int| 0 <= j < k ==> (#[trigger] enums@[j]).0 != f,
        decreases n - k,
    {
        if enums[k].0 == f {
            return Some(k);
        }
        k = k + 1;
    }
    None
}

impl<'a> Bitfield<'a> {
    /// Appends the text of field `f`'s value to `s`.
    fn push_value_text(&self, s: &mut String, f: usize, enums: &[(usize, &crate::bit_enum::BitEnumDef)])
        requires
            self.wf(),
            self.has_field(f as int),
            forall|k: int| 0 <= k < enums@.len() ==> (#[trigger] enums@[k]).1.wf(),
        ensures
            final(s)@ == old(s)@ + value_text(*self, enums@, f as int),
    {
        match self.layout.def.fields[f].ty {
            crate::model::FieldType::Bool => {
                proof {
                    reveal_strlit("true");
                    reveal_strlit("false");
                    assert("true"@ =~= seq!['t', 'r', 'u', 'e']);
                    assert("false"@ =~= seq!['f', 'a', 'l', 's', 'e']);
                }
                if self.get_bool(f) {
                    s.append("true");
                } else {
                    s.append("false");
                }
            },
            crate::model::FieldType::PrimitiveUnsigned(_) => {
                crate::text::push_decimal(s, self.get_uint(f));
            },
            crate::model::FieldType::PrimitiveSigned(_) => {
                crate::text::push_signed_decimal(s, self.get_int(f));
            },
            crate::model::FieldType::Nested => {
                let v = self.get_uint(f);
                match find_enum(enums, f) {
                    Some(k) => {
                        let e = enums[k].1;
                        proof {
                            let c = choose|c: int| names_enum(enums@, f as int, c);
                            if c < k {
                                assert(enums@[c].0 != f);
                            } else if k < c {
                                assert(enums@[k as int].0 != f);
                            }
                            assert(e.wf());
                        }
                        let i = e.from_raw(v);
                        proof {
                            if crate::bit_enum::is_discriminant(e, v) {
                                let c = choose|c: int| 0 <= c < e.variants@.len() && #[trigger] e.variants@[c].discriminant == v;
                                crate::bit_enum::lemma_discriminant_identifies_variant(e, c, i as int);
                            }
                        }
                        s.append(e.variants[i].name.as_str());
                        return;
                    },
                    None => {},
                }
                crate::text::push_decimal(s, v);
            },
        }
    }

    /// The debug text of the value, `Name { field: value, ... }`: each field
    /// under its accessor name in declaration order, `bool` fields as `true`
    /// or `false`, integers in decimal, and nested fields by the variant name
    /// of the bit enum that `enums` gives for them, else by their raw value.
    pub fn debug_text(&self, enums: &[(usize, &crate::bit_enum::BitEnumDef)]) -> (r: String)
        requires
            self.wf(),
            forall|k: int| 0 <= k < enums@.len() ==> (#[trigger] enums@[k]).1.wf(),
        ensures
            r@ == debug_text_of(*self, enums@),
    {
        let mut s = self.layout.def.name.clone();
        let n = self.layout.def.fields.len();
        if n == 0 {
            return s;
        }
        proof {
            reveal_strlit(" { ");
            reveal_strlit(", ");
            reveal_strlit(": ");
            reveal_strlit(" }");
            assert(" { "@ =~= seq![' ', '{', ' ']);
            assert(", "@ =~= seq![',', ' ']);
            assert(": "@ =~= seq![':', ' ']);
            assert(" }"@ =~= seq![' ', '}']);
        }
        let ghost head = self.layout.def.name@ + seq![' ', '{', ' '];
        s.append(" { ");
        let mut f: usize = 0;
        while f < n
            invariant
                n == self.layout.num_fields(),
                0 <= f <= n,
                self.wf(),
                forall|k: int| 0 <= k < enums@.len() ==> (#[trigger] enums@[k]).1.wf(),
                head == self.layout.def.name@ + seq![' ', '{', ' '],
                " { "@ == seq![' ', '{', ' '],
                ", "@ == seq![',', ' '],
                ": "@ == seq![':', ' '],
                s@ == head + entries_text(*self, enums@, f as int),
            decreases n - f,
        {
            let ghost before = s@;
            if f > 0 {
                s.append(", ");
            }
            s.append(self.layout.def.fields[f].accessor_name.as_str());
            s.append(": ");
            self.push_value_text(&mut s, f, enums);
            proof {
                if f == 0 {
                    assert(entries_text(*self, enums@, 0) =~= Seq::<char>::empty());
                    assert(s@ =~= head + entry_text(*self, enums@, 0));
                } else {
                    assert(s@ =~= head + (entries_text(*self, enums@, f as int) + seq![',', ' '] + entry_text(*self, enums@, f as int)));
                }
            }
            f = f + 1;
        }
        s.append(" }");
        proof {
            assert(s@ =~= self.layout.def.name@ + seq![' ', '{', ' '] + entries_text(*self, enums@, n as int) + seq![' ', '}']);
        }
        s
    }
}

} // verus!
