//! A validated bitfield definition with its physical layout, and bitfield
//! values: storage words read and written field by field.
use vstd::prelude::*;
use vstd::arithmetic::power2::pow2;
use vstd::set_lib::{set_int_range, lemma_int_range, lemma_set_disjoint_lens, lemma_len_subset};
use crate::bits::bit;
use crate::model::{BitfieldDef, BitRange, FieldType, StorageKind, ranges_overlap, ranges_width, field_names};
use crate::ordering::{FieldSegment, segments_for, segments_wf, ranges_wf, maps, in_segments,
    lemma_segments_for_wf, field_segments};
use crate::access::segments_mask;
use crate::validate::{ValidationError, validate, in_report_order, def_valid, error_applies, ranges_of, ranges_ordered,
    type_too_narrow};

verus! {

/// The physical layout of one field.
pub struct FieldLayout {
    /// The field's segments, most significant chunk first.
    pub segments: Vec<FieldSegment>,
    /// Bitmask with the field's bits set, in storage position.
    pub mask: u128,
    /// Physical position of the value's least significant bit.
    pub shift: u32,
    /// Width of the field in bits.
    pub width: u32,
}

/// A validated bitfield definition together with the physical layout of
/// every field.
pub struct Layout {
    /// The definition.
    pub def: BitfieldDef,
    /// One layout per field, in declaration order.
    pub fields: Vec<FieldLayout>,
}

/// `fl` is the physical layout of field `f` of `def`.
pub open spec fn field_layout_wf(def: &BitfieldDef, f: int, fl: FieldLayout) -> bool {
    let rs = ranges_of(def, f);
    &&& rs.len() >= 1
    &&& fl.segments@ == segments_for(def.args.order, rs, def.effective_width as nat)
    &&& fl.width == ranges_width(rs)
    &&& segments_wf(fl.segments@, fl.width as nat, def.effective_width as nat)
    &&& forall|p: int| 0 <= p ==> #[trigger] bit(fl.mask, p as nat) == (p < 128 && in_segments(fl.segments@, p))
    &&& fl.shift == fl.segments@.last().offset
}

/// Field `f` of `def` holds `v`: bit `j` of `v` is the storage bit that value
/// bit `j` lives at, and `v` has no bits beyond the field width.
pub open spec fn value_bits_match(raw: u128, segs: Seq<FieldSegment>, width: nat, v: u128) -> bool {
    &&& v < pow2(width)
    &&& forall|j: int, p: int| #[trigger] maps(segs, j, p) ==> bit(v, j as nat) == bit(raw, p as nat)
}

/// `new` is `old` with `v` written into the field: every physical bit of the
/// field holds the value bit mapped to it, and every other bit is unchanged.
/// Value bits beyond the field width are dropped.
pub open spec fn stores(old: u128, new: u128, segs: Seq<FieldSegment>, v: u128) -> bool {
    &&& forall|j: int, p: int| #[trigger] maps(segs, j, p) ==> bit(new, p as nat) == bit(v, j as nat)
    &&& forall|p: int| 0 <= p && !#[trigger] in_segments(segs, p) ==> bit(new, p as nat) == bit(old, p as nat)
}

/// The value held by a field.
pub open spec fn field_value(raw: u128, segs: Seq<FieldSegment>, width: nat) -> u128 {
    choose|v: u128| value_bits_match(raw, segs, width, v)
}

/// The two's-complement reading of a `width`-bit value.
pub open spec fn sign_extend(u: nat, width: nat) -> int {
    if width >= 1 && u >= pow2((width - 1) as nat) {
        u - pow2(width)
    } else {
        u as int
    }
}

impl Layout {
    /// Number of bits of the storage type.
    pub open spec fn storage_bits(&self) -> nat {
        self.def.args.storage.bits()
    }

    /// The segments of field `f`.
    pub open spec fn segs(&self, f: int) -> Seq<FieldSegment> {
        self.fields@[f].segments@
    }

    /// The width of field `f`.
    pub open spec fn width(&self, f: int) -> nat {
        self.fields@[f].width as nat
    }

    /// Number of fields.
    pub open spec fn num_fields(&self) -> nat {
        self.def.fields@.len()
    }

    /// The layout belongs to a valid definition and describes it.
    pub open spec fn wf(&self) -> bool {
        &&& def_valid(&self.def)
        &&& sizes_fit(&self.def)
        &&& self.fields@.len() == self.def.fields@.len()
        &&& forall|f: int| 0 <= f < self.fields@.len() ==> #[trigger] field_layout_wf(&self.def, f, self.fields@[f])
    }
}

/// The definition's fields and ranges can be counted with `usize`.
pub open spec fn sizes_fit(def: &BitfieldDef) -> bool {
    &&& def.fields@.len() <= usize::MAX
    &&& forall|f: int| 0 <= f < def.fields@.len() ==> (#[trigger] def.fields@[f]).ranges@.len() <= usize::MAX
}

/// The bits selected by the first `k` ranges.
spec fn covered(rs: Seq<BitRange>, k: int) -> Set<int>
    decreases k,
{
    if k <= 0 {
        Set::empty()
    } else {
        covered(rs, k - 1) + set_int_range(rs[k - 1].start as int, rs[k - 1].end + 1)
    }
}

proof fn lemma_covered_member(rs: Seq<BitRange>, k: int, x: int)
    requires
        0 <= k <= rs.len(),
        covered(rs, k).contains(x),
    ensures
        exists|i: int| 0 <= i < k && (#[trigger] rs[i]).start <= x <= rs[i].end,
    decreases k,
{
    if k > 0 && !(rs[k - 1].start <= x <= rs[k - 1].end) {
        lemma_covered_member(rs, k - 1, x);
        let i = choose|i: int| 0 <= i < k - 1 && (#[trigger] rs[i]).start <= x <= rs[i].end;
        assert(0 <= i < k && rs[i].start <= x <= rs[i].end);
    }
}

/// Ranges inside `ew` bits that share no bit select at most `ew` bits in all.
proof fn lemma_disjoint_ranges_width(rs: Seq<BitRange>, k: int, ew: nat)
    requires
        0 <= k <= rs.len(),
        forall|i: int| 0 <= i < rs.len() ==> (#[trigger] rs[i]).start <= rs[i].end && rs[i].end < ew,
        forall|i: int, j: int| 0 <= i < j < rs.len() ==> !ranges_overlap(#[trigger] rs[i], #[trigger] rs[j]),
    ensures
        covered(rs, k).finite(),
        covered(rs, k).len() == ranges_width(rs.subrange(0, k)),
        covered(rs, k).subset_of(set_int_range(0, ew as int)),
    decreases k,
{
    if k == 0 {
        assert(rs.subrange(0, 0) =~= Seq::<BitRange>::empty());
    } else {
        lemma_disjoint_ranges_width(rs, k - 1, ew);
        let r = rs[k - 1];
        let c = covered(rs, k - 1);
        let s = set_int_range(r.start as int, r.end + 1);
        lemma_int_range(r.start as int, r.end + 1);
        assert(c.disjoint(s)) by {
            assert forall|x: int| c.contains(x) implies !s.contains(x) by {
                lemma_covered_member(rs, k - 1, x);
                let i = choose|i: int| 0 <= i < k - 1 && (#[trigger] rs[i]).start <= x <= rs[i].end;
                assert(!ranges_overlap(rs[i], rs[k - 1]));
            }
        }
        lemma_set_disjoint_lens(c, s);
        assert(rs.subrange(0, k).drop_last() =~= rs.subrange(0, k - 1));
        assert(rs.subrange(0, k).last() == r);
    }
}

/// Facts about one field that follow from a valid definition.
pub proof fn lemma_valid_field(def: &BitfieldDef, f: int)
    requires
        def_valid(def),
        sizes_fit(def),
        0 <= f < def.fields@.len(),
    ensures
        def.effective_width <= def.args.storage.bits(),
        ranges_wf(ranges_of(def, f), def.effective_width as nat),
        ranges_ordered(ranges_of(def, f)),
        ranges_width(ranges_of(def, f)) <= 128,
        def.fields@[f].ty == FieldType::Bool ==> ranges_width(ranges_of(def, f)) == 1,
        !type_too_narrow(def.fields@[f].ty, ranges_width(ranges_of(def, f))),
{
    let rs = ranges_of(def, f);
    assert(def.fields@[f].ranges@.len() <= usize::MAX);
    assert(!error_applies(def, ValidationError::WidthExceedsStorage));
    assert forall|k: int| 0 <= k < rs.len() implies (#[trigger] rs[k]).start <= rs[k].end && rs[k].end < def.effective_width by {
        assert(!error_applies(def, ValidationError::BackwardsRange { field: f as usize, range: k as usize }));
        assert(!error_applies(def, ValidationError::RangeOutOfBounds { field: f as usize, range: k as usize }));
    }
    assert forall|k1: int, k2: int| 0 <= k1 < k2 < rs.len() implies !ranges_overlap(#[trigger] rs[k1], #[trigger] rs[k2]) by {
        assert(!error_applies(def, ValidationError::OverlappingRanges { field: f as usize, first: k1 as usize, second: k2 as usize }));
    }
    assert(!error_applies(def, ValidationError::BoolWidth { field: f as usize }));
    assert(!error_applies(def, ValidationError::TypeTooNarrow { field: f as usize }));
    lemma_disjoint_ranges_width(rs, rs.len() as int, def.effective_width as nat);
    assert(rs.subrange(0, rs.len() as int) =~= rs);
    lemma_int_range(0, def.effective_width as int);
    lemma_len_subset(covered(rs, rs.len() as int), set_int_range(0, def.effective_width as int));
}

pub proof fn lemma_storage_bits_le(k: StorageKind)
    ensures
        8 <= k.bits() <= 128,
{
}

impl Layout {
    /// Validates `def` and computes the physical layout of every field.
    pub fn new(def: BitfieldDef) -> (r: Result<Layout, Vec<ValidationError>>)
        requires
            forall|f: int| 0 <= f < def.fields@.len() ==> (#[trigger] def.fields@[f]).ranges@.len() >= 1,
        ensures
            r is Ok <==> def_valid(&def),
            r matches Ok(l) ==> l.wf() && l.def == def,
            r matches Err(es) ==> es@.len() > 0 && es@.no_duplicates() && in_report_order(es@)
                && forall|e: ValidationError| #[trigger] es@.contains(e) <==> error_applies(&def, e),
    {
        match validate(&def) {
            Err(es) => Err(es),
            Ok(()) => {
                let n = def.fields.len();
                let ew = def.effective_width;
                sizes_fit_exec(&def);
                let order = def.args.order;
                proof { lemma_storage_bits_le(def.args.storage); }
                let mut fields: Vec<FieldLayout> = Vec::new();
                let mut f: usize = 0;
                while f < n
                    invariant
                        n == def.fields@.len(),
                        0 <= f <= n,
                        def_valid(&def),
                        sizes_fit(&def),
                        ew == def.effective_width,
                        order == def.args.order,
                        def.args.storage.bits() <= 128,
                        forall|g: int| 0 <= g < def.fields@.len() ==> (#[trigger] def.fields@[g]).ranges@.len() >= 1,
                        fields@.len() == f,
                        forall|g: int| 0 <= g < f ==> #[trigger] field_layout_wf(&def, g, fields@[g]),
                    decreases n - f,
                {
                    proof {
                        lemma_valid_field(&def, f as int);
                        lemma_segments_for_wf(order, ranges_of(&def, f as int), ew as nat);
                    }
                    let ranges = &def.fields[f].ranges;
                    let segs = field_segments(order, ranges, ew);
                    let width = ranges_width_exec(ranges);
                    let mask = segments_mask(&segs, Ghost(width as nat), Ghost(ew as nat));
                    let shift = segs[segs.len() - 1].offset;
                    let fl = FieldLayout { segments: segs, mask, shift, width };
                    proof {
                        assert(fl.segments@.last() == fl.segments@[fl.segments@.len() - 1]);
                    }
                    fields.push(fl);
                    f = f + 1;
                }
                Ok(Layout { def, fields })
            },
        }
    }
}

/// Establishes that the definition's sizes fit `usize`.
fn sizes_fit_exec(def: &BitfieldDef)
    ensures
        sizes_fit(def),
{
    let n = def.fields.len();
    let mut f: usize = 0;
    while f < n
        invariant
            n == def.fields@.len(),
            0 <= f <= n,
            forall|g: int| 0 <= g < f ==> (#[trigger] def.fields@[g]).ranges@.len() <= usize::MAX,
        decreases n - f,
    {
        let _ = def.fields[f].ranges.len();
        f = f + 1;
    }
}

/// Total width of well-formed ranges.
fn ranges_width_exec(ranges: &Vec<BitRange>) -> (w: u32)
    requires
        ranges_ordered(ranges@),
        ranges_width(ranges@) <= 128,
    ensures
        w == ranges_width(ranges@),
{
    let n = ranges.len();
    let mut w: u32 = 0;
    let mut k: usize = 0;
    while k < n
        invariant
            n == ranges@.len(),
            0 <= k <= n,
            ranges_ordered(ranges@),
            ranges_width(ranges@) <= 128,
            w == ranges_width(ranges@.subrange(0, k as int)),
        decreases n - k,
    {
        proof {
            crate::ordering::lemma_ranges_width_step(ranges@, k as int);
            crate::ordering::lemma_ranges_width_prefix_mono(ranges@, k as int + 1, n as int);
            assert(ranges@.subrange(0, n as int) =~= ranges@);
            assert(ranges@[k as int].start <= ranges@[k as int].end);
        }
        w = w + (ranges[k].end - ranges[k].start + 1);
        k = k + 1;
    }
    proof { assert(ranges@.subrange(0, n as int) =~= ranges@); }
    w
}

} // verus!

verus! {

impl Layout {
    /// The index of the field that has `name` as accessor name or alias.
    pub fn field(&self, name: &str) -> (r: Option<usize>)
        requires
            self.wf(),
        ensures
            r matches Some(f) ==> f < self.num_fields() && field_names(self.def.fields@[f as int]).contains(name@),
            r matches Some(f) ==> forall|g: int| 0 <= g < f ==> !#[trigger] field_names(self.def.fields@[g]).contains(name@),
            r is None ==> forall|f: int| 0 <= f < self.num_fields() ==> !#[trigger] field_names(self.def.fields@[f]).contains(name@),
    {
        let n = self.def.fields.len();
        let mut f: usize = 0;
        while f < n
            invariant
                n == self.def.fields@.len(),
                0 <= f <= n,
                forall|g: int| 0 <= g < f ==> !#[trigger] field_names(self.def.fields@[g]).contains(name@),
            decreases n - f,
        {
            let fd = &self.def.fields[f];
            let ghost names = field_names(*fd);
            if crate::text::str_eq(fd.accessor_name.as_str(), name) {
                proof { assert(names[0] == name@); }
                return Some(f);
            }
            let na = fd.aliases.len();
            let mut a: usize = 0;
            while a < na
                invariant
                    n == self.def.fields@.len(),
                    0 <= f < n,
                    *fd == self.def.fields@[f as int],
                    names == field_names(*fd),
                    na == fd.aliases@.len(),
                    0 <= a <= na,
                    names[0] != name@,
                    forall|b: int| 0 <= b < a ==> #[trigger] names[b + 1] != name@,
                    forall|g: int| 0 <= g < f ==> !#[trigger] field_names(self.def.fields@[g]).contains(name@),
                decreases na - a,
            {
                if crate::text::str_eq(fd.aliases[a].as_str(), name) {
                    proof { assert(names[a + 1] == name@); }
                    return Some(f);
                }
                a = a + 1;
            }
            proof {
                assert forall|t: int| 0 <= t < names.len() implies names[t] != name@ by {
                    if t > 0 {
                        assert(names[(t - 1) + 1] != name@);
                    }
                }
            }
            f = f + 1;
        }
        None
    }

    /// Number of fields.
    pub fn field_count(&self) -> (r: usize)
        ensures
            r == self.num_fields(),
    {
        self.def.fields.len()
    }

    /// The width in bits of field `f`.
    pub fn field_width(&self, f: usize) -> (r: u32)
        requires
            self.wf(),
            f < self.num_fields(),
        ensures
            r == self.width(f as int),
            r == ranges_width(ranges_of(&self.def, f as int)),
    {
        proof { assert(field_layout_wf(&self.def, f as int, self.fields@[f as int])); }
        self.fields[f].width
    }

    /// The `{FIELD}_MASK` of field `f`: exactly its physical bits.
    pub fn field_mask(&self, f: usize) -> (r: u128)
        requires
            self.wf(),
            f < self.num_fields(),
        ensures
            forall|p: int| 0 <= p ==> #[trigger] bit(r, p as nat) == (p < 128 && in_segments(self.segs(f as int), p)),
    {
        proof { assert(field_layout_wf(&self.def, f as int, self.fields@[f as int])); }
        self.fields[f].mask
    }

    /// The `{FIELD}_SHIFT` of field `f`: the physical position of the value's
    /// least significant bit.
    pub fn field_shift(&self, f: usize) -> (r: u32)
        requires
            self.wf(),
            f < self.num_fields(),
        ensures
            r == self.segs(f as int).last().offset,
    {
        proof { assert(field_layout_wf(&self.def, f as int, self.fields@[f as int])); }
        self.fields[f].shift
    }

    /// The `{FIELD}_SEGMENTS` of field `f`.
    pub fn field_segments(&self, f: usize) -> (r: &Vec<FieldSegment>)
        requires
            f < self.fields@.len(),
        ensures
            r@ == self.segs(f as int),
    {
        &self.fields[f].segments
    }

    /// Whether field `f` has no setters.
    pub fn is_readonly(&self, f: usize) -> (r: bool)
        requires
            f < self.num_fields(),
        ensures
            r == self.def.fields@[f as int].readonly,
    {
        self.def.fields[f].readonly
    }

    /// The storage type.
    pub fn storage(&self) -> (r: StorageKind)
        ensures
            r == self.def.args.storage,
    {
        self.def.args.storage
    }

    /// Whether bit 0 is the most significant bit.
    pub fn is_msb0(&self) -> (r: bool)
        ensures
            r == (self.def.args.order == crate::model::BitOrder::Msb0),
    {
        match self.def.args.order {
            crate::model::BitOrder::Msb0 => true,
            crate::model::BitOrder::Lsb0 => false,
        }
    }
}

} // verus!
