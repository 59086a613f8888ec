//! Semantic checks on a bitfield definition.
use vstd::prelude::*;
use crate::model::{BitfieldDef, BitRange, FieldType, ranges_overlap, ranges_width, field_names, overlay_of};

verus! {

/// One violation found by [`validate`]. Fields are named by their index in
/// declaration order, ranges by their index within the field, and names by
/// their index among the field's accessor name (0) and aliases (1, 2, ...).
#[derive(Debug, Clone, Copy, PartialEq, Eq, Structural)]
pub enum ValidationError {
    /// The effective width exceeds the storage type's capacity.
    WidthExceedsStorage,
    /// A range's start lies after its end.
    BackwardsRange { field: usize, range: usize },
    /// A range reaches past the effective width.
    RangeOutOfBounds { field: usize, range: usize },
    /// Two ranges of one field select the same bit.
    OverlappingRanges { field: usize, first: usize, second: usize },
    /// A `bool` field is not exactly one bit wide.
    BoolWidth { field: usize },
    /// A field spans more bits than its type can hold.
    TypeTooNarrow { field: usize },
    /// Two base fields share bits.
    FieldOverlap { first: usize, second: usize, first_range: usize, second_range: usize },
    /// An overlay field shares bits with a base field.
    OverlayOverlapsBase { base: usize, overlay: usize, base_range: usize, overlay_range: usize },
    /// Two fields of the same overlay group share bits.
    OverlayGroupOverlap { first: usize, second: usize, first_range: usize, second_range: usize },
    /// An accessor name or alias is already used by an earlier field or name.
    DuplicateName { field: usize, name: usize },
}

/// Appending an element not yet present keeps a sequence free of duplicates.
proof fn lemma_push_new<A>(s: Seq<A>, x: A)
    requires
        s.no_duplicates(),
        !s.contains(x),
    ensures
        s.push(x).no_duplicates(),
{
    assert forall|i: int, j: int| 0 <= i < s.len() + 1 && 0 <= j < s.len() + 1 && i != j
        implies s.push(x)[i] != s.push(x)[j] by {
        if i == s.len() {
            assert(s[j] == s.push(x)[j]);
        } else if j == s.len() {
            assert(s[i] == s.push(x)[i]);
        }
    }
}

/// The ranges of field `f`.
pub open spec fn ranges_of(def: &BitfieldDef, f: int) -> Seq<BitRange> {
    def.fields@[f].ranges@
}

/// No range of `rs` is backwards.
pub open spec fn ranges_ordered(rs: Seq<BitRange>) -> bool {
    forall|k: int| 0 <= k < rs.len() ==> (#[trigger] rs[k]).start <= rs[k].end
}

/// A field of type `ty` cannot hold `width` bits. The width of a nested
/// field is not limited here: its own type decides.
pub open spec fn type_too_narrow(ty: FieldType, width: nat) -> bool {
    match ty {
        FieldType::Bool => false,
        FieldType::PrimitiveUnsigned(sk) => width > sk.bits(),
        FieldType::PrimitiveSigned(sk) => width > sk.bits(),
        FieldType::Nested => false,
    }
}

/// `(a, b)` is the first pair, in the order ranges of `ra` then ranges of
/// `rb`, of overlapping ranges.
pub open spec fn first_overlap(ra: Seq<BitRange>, rb: Seq<BitRange>, a: int, b: int) -> bool {
    &&& 0 <= a < ra.len()
    &&& 0 <= b < rb.len()
    &&& ranges_overlap(ra[a], rb[b])
    &&& forall|a2: int, b2: int| 0 <= a2 < a && 0 <= b2 < rb.len() ==> !ranges_overlap(#[trigger] ra[a2], #[trigger] rb[b2])
    &&& forall|b2: int| 0 <= b2 < b ==> !ranges_overlap(ra[a], #[trigger] rb[b2])
}

/// The position `(f2, n2)` comes before `(f, n)` among all accessor names.
pub open spec fn name_pos_before(def: &BitfieldDef, f2: int, n2: int, f: int, n: int) -> bool {
    &&& 0 <= f2 < def.fields@.len()
    &&& 0 <= n2 < field_names(def.fields@[f2]).len()
    &&& (f2 < f || (f2 == f && n2 < n))
}

/// Some name before position `(f, n)` equals `x`.
pub open spec fn name_used_before(def: &BitfieldDef, f: int, n: int, x: Seq<char>) -> bool {
    exists|f2: int, n2: int| name_pos_before(def, f2, n2, f, n) && #[trigger] field_names(def.fields@[f2])[n2] == x
}

/// The error `e` describes a violation present in `def`.
pub open spec fn error_applies(def: &BitfieldDef, e: ValidationError) -> bool {
    let n = def.fields@.len();
    match e {
        ValidationError::WidthExceedsStorage => def.effective_width > def.args.storage.bits(),
        ValidationError::BackwardsRange { field, range } => field < n && range < ranges_of(def, field as int).len()
            && ranges_of(def, field as int)[range as int].start > ranges_of(def, field as int)[range as int].end,
        ValidationError::RangeOutOfBounds { field, range } => field < n && range < ranges_of(def, field as int).len()
            && ranges_of(def, field as int)[range as int].end >= def.effective_width,
        ValidationError::OverlappingRanges { field, first, second } => field < n
            && first < second < ranges_of(def, field as int).len()
            && ranges_overlap(ranges_of(def, field as int)[first as int], ranges_of(def, field as int)[second as int]),
        ValidationError::BoolWidth { field } => field < n && def.fields@[field as int].ty == FieldType::Bool
            && ranges_ordered(ranges_of(def, field as int)) && ranges_width(ranges_of(def, field as int)) != 1,
        ValidationError::TypeTooNarrow { field } => field < n && ranges_ordered(ranges_of(def, field as int))
            && type_too_narrow(def.fields@[field as int].ty, ranges_width(ranges_of(def, field as int))),
        ValidationError::FieldOverlap { first, second, first_range, second_range } => first < second < n
            && first_overlap(ranges_of(def, first as int), ranges_of(def, second as int), first_range as int, second_range as int)
            && overlay_of(def.fields@[first as int]) is None && overlay_of(def.fields@[second as int]) is None,
        ValidationError::OverlayOverlapsBase { base, overlay, base_range, overlay_range } => base < n && overlay < n
            && base != overlay
            && (if base < overlay {
                first_overlap(ranges_of(def, base as int), ranges_of(def, overlay as int), base_range as int, overlay_range as int)
            } else {
                first_overlap(ranges_of(def, overlay as int), ranges_of(def, base as int), overlay_range as int, base_range as int)
            })
            && overlay_of(def.fields@[base as int]) is None && overlay_of(def.fields@[overlay as int]) is Some,
        ValidationError::OverlayGroupOverlap { first, second, first_range, second_range } => first < second < n
            && first_overlap(ranges_of(def, first as int), ranges_of(def, second as int), first_range as int, second_range as int)
            && overlay_of(def.fields@[first as int]) is Some
            && overlay_of(def.fields@[first as int]) == overlay_of(def.fields@[second as int]),
        ValidationError::DuplicateName { field, name } => field < n && name < field_names(def.fields@[field as int]).len()
            && name_used_before(def, field as int, name as int, field_names(def.fields@[field as int])[name as int]),
    }
}

/// No validation error applies to `def`.
pub open spec fn def_valid(def: &BitfieldDef) -> bool {
    forall|e: ValidationError| !#[trigger] error_applies(def, e)
}

/// `e` is one of the range errors of field `f`.
pub open spec fn is_range_error_of(e: ValidationError, f: int) -> bool {
    match e {
        ValidationError::BackwardsRange { field, .. } => field == f,
        ValidationError::RangeOutOfBounds { field, .. } => field == f,
        ValidationError::OverlappingRanges { field, .. } => field == f,
        _ => false,
    }
}

/// Range errors of field `f` among ranges before `k` (single-range checks)
/// or pairs whose second range is before `k2`.
spec fn range_error_done(e: ValidationError, f: int, k: int, k2: int) -> bool {
    match e {
        ValidationError::BackwardsRange { field, range } => field == f && range < k,
        ValidationError::RangeOutOfBounds { field, range } => field == f && range < k,
        ValidationError::OverlappingRanges { field, second, .. } => field == f && second < k2,
        _ => false,
    }
}

/// Checks that every range of field `f` is ordered and inside the effective
/// width, and that no two of its ranges select the same bit.
fn check_field_ranges(def: &BitfieldDef, f: usize) -> (r: Vec<ValidationError>)
    requires
        f < def.fields@.len(),
    ensures
        forall|e: ValidationError| r@.contains(e) <==> (error_applies(def, e) && is_range_error_of(e, f as int)),
        r@.no_duplicates(),
{
    let ranges = &def.fields[f].ranges;
    let n = ranges.len();
    let mut errs: Vec<ValidationError> = Vec::new();
    let mut k: usize = 0;
    while k < n
        invariant
            f < def.fields@.len(),
            ranges@ == ranges_of(def, f as int),
            n == ranges@.len(),
            0 <= k <= n,
            forall|e: ValidationError| #[trigger] errs@.contains(e) <==> (error_applies(def, e) && range_error_done(e, f as int, k as int, 0)),
            errs@.no_duplicates(),
        decreases n - k,
    {
        let r = ranges[k];
        let ghost before = errs@;
        if r.start > r.end {
            proof {
                assert(!before.contains(ValidationError::BackwardsRange { field: f, range: k }));
                lemma_push_new(before, ValidationError::BackwardsRange { field: f, range: k });
            }
            errs.push(ValidationError::BackwardsRange { field: f, range: k });
        }
        let ghost mid = errs@;
        if r.end >= def.effective_width {
            proof {
                assert(!before.contains(ValidationError::RangeOutOfBounds { field: f, range: k }));
                vstd::seq_lib::lemma_seq_contains_after_push(before, ValidationError::BackwardsRange { field: f, range: k },
                    ValidationError::RangeOutOfBounds { field: f, range: k });
                assert(!mid.contains(ValidationError::RangeOutOfBounds { field: f, range: k }));
                lemma_push_new(mid, ValidationError::RangeOutOfBounds { field: f, range: k });
            }
            errs.push(ValidationError::RangeOutOfBounds { field: f, range: k });
        }
        proof {
            assert forall|e: ValidationError| #[trigger] errs@.contains(e) <==> (error_applies(def, e) && range_error_done(e, f as int, k as int + 1, 0)) by {
                vstd::seq_lib::lemma_seq_contains_after_push(before, ValidationError::BackwardsRange { field: f, range: k }, e);
                vstd::seq_lib::lemma_seq_contains_after_push(mid, ValidationError::RangeOutOfBounds { field: f, range: k }, e);
            }
        }
        k = k + 1;
    }
    let mut b: usize = 0;
    while b < n
        invariant
            f < def.fields@.len(),
            ranges@ == ranges_of(def, f as int),
            n == ranges@.len(),
            0 <= b <= n,
            forall|e: ValidationError| #[trigger] errs@.contains(e) <==> (error_applies(def, e) && range_error_done(e, f as int, n as int, b as int)),
            errs@.no_duplicates(),
        decreases n - b,
    {
        let mut a: usize = 0;
        while a < b
            invariant
                f < def.fields@.len(),
                ranges@ == ranges_of(def, f as int),
                n == ranges@.len(),
                0 <= a <= b < n,
                forall|e: ValidationError| #[trigger] errs@.contains(e) <==> (error_applies(def, e) && (range_error_done(e, f as int, n as int, b as int)
                    || (e matches ValidationError::OverlappingRanges { field, first, second } && field == f && second == b && first < a))),
                errs@.no_duplicates(),
            decreases b - a,
        {
            let ghost before = errs@;
            if ranges[a].overlaps(&ranges[b]) {
                proof {
                    assert(!before.contains(ValidationError::OverlappingRanges { field: f, first: a, second: b }));
                    lemma_push_new(before, ValidationError::OverlappingRanges { field: f, first: a, second: b });
                }
                errs.push(ValidationError::OverlappingRanges { field: f, first: a, second: b });
            }
            proof {
                assert forall|e: ValidationError| #[trigger] errs@.contains(e) <==> (error_applies(def, e) && (range_error_done(e, f as int, n as int, b as int)
                    || (e matches ValidationError::OverlappingRanges { field, first, second } && field == f && second == b && first < a + 1))) by {
                    vstd::seq_lib::lemma_seq_contains_after_push(before, ValidationError::OverlappingRanges { field: f, first: a, second: b }, e);
                }
            }
            a = a + 1;
        }
        b = b + 1;
    }
    errs
}

} // verus!

verus! {

/// `e` is the type error of field `f`.
pub open spec fn is_type_error_of(e: ValidationError, f: int) -> bool {
    match e {
        ValidationError::BoolWidth { field } => field == f,
        ValidationError::TypeTooNarrow { field } => field == f,
        _ => false,
    }
}

/// `e` reports an overlap between fields `i` and `j` (`i < j`).
pub open spec fn is_pair_error_of(e: ValidationError, i: int, j: int) -> bool {
    match e {
        ValidationError::FieldOverlap { first, second, .. } => first == i && second == j,
        ValidationError::OverlayOverlapsBase { base, overlay, .. } =>
            (base == i && overlay == j) || (base == j && overlay == i),
        ValidationError::OverlayGroupOverlap { first, second, .. } => first == i && second == j,
        _ => false,
    }
}

spec fn min_cap(x: nat) -> nat {
    if x < 512 { x } else { 512 }
}

/// Checks that field `f`'s type can hold its bits: a `bool` is exactly one bit
/// and an integer at most its type's width.
fn check_field_type(def: &BitfieldDef, f: usize) -> (r: Option<ValidationError>)
    requires
        f < def.fields@.len(),
    ensures
        forall|e: ValidationError| (r == Some(e)) <==> (error_applies(def, e) && is_type_error_of(e, f as int)),
{
    let field = &def.fields[f];
    let ranges = &field.ranges;
    let n = ranges.len();
    let ghost rs = ranges@;
    let mut ordered = true;
    let mut w: u64 = 0;
    let mut k: usize = 0;
    while k < n
        invariant
            rs == ranges@,
            n == rs.len(),
            0 <= k <= n,
            ordered == ranges_ordered(rs.subrange(0, k as int)),
            ordered ==> w == min_cap(ranges_width(rs.subrange(0, k as int))),
        decreases n - k,
    {
        let r = ranges[k];
        proof {
            assert(rs.subrange(0, k as int + 1).drop_last() =~= rs.subrange(0, k as int));
            assert(rs.subrange(0, k as int + 1).last() == r);
            if ordered {
                assert forall|m: int| 0 <= m < k + 1 implies (#[trigger] rs.subrange(0, k as int + 1)[m]).start
                    <= rs.subrange(0, k as int + 1)[m].end <==> r.start <= r.end || m < k by {
                    if m < k {
                        assert(rs.subrange(0, k as int + 1)[m] == rs.subrange(0, k as int)[m]);
                    }
                }
            }
            if !ordered {
                let m = choose|m: int| 0 <= m < k && !((#[trigger] rs.subrange(0, k as int)[m]).start <= rs.subrange(0, k as int)[m].end);
                assert(rs.subrange(0, k as int + 1)[m] == rs.subrange(0, k as int)[m]);
            }
            if r.start > r.end {
                assert(rs.subrange(0, k as int + 1)[k as int] == r);
            }
        }
        if r.start > r.end {
            ordered = false;
        } else if ordered {
            let rw = (r.end - r.start) as u64 + 1;
            w = if w + rw > 512 { 512 } else { w + rw };
        }
        k = k + 1;
    }
    proof {
        assert(rs.subrange(0, n as int) =~= rs);
    }
    let bad = match field.ty {
        FieldType::Bool => {
            if ordered && w != 1 {
                Some(ValidationError::BoolWidth { field: f })
            } else {
                None
            }
        },
        FieldType::PrimitiveUnsigned(sk) => {
            if ordered && w > sk.bit_width() as u64 {
                Some(ValidationError::TypeTooNarrow { field: f })
            } else {
                None
            }
        },
        FieldType::PrimitiveSigned(sk) => {
            if ordered && w > sk.bit_width() as u64 {
                Some(ValidationError::TypeTooNarrow { field: f })
            } else {
                None
            }
        },
        FieldType::Nested => None,
    };
    bad
}

proof fn lemma_first_overlap_unique(ra: Seq<BitRange>, rb: Seq<BitRange>, a: int, b: int, a2: int, b2: int)
    requires
        first_overlap(ra, rb, a, b),
        first_overlap(ra, rb, a2, b2),
    ensures
        a == a2 && b == b2,
{
    if a < a2 {
        assert(!ranges_overlap(ra[a], rb[b]));
    } else if a2 < a {
        assert(!ranges_overlap(ra[a2], rb[b2]));
    } else if b < b2 {
        assert(!ranges_overlap(ra[a], rb[b]));
    } else if b2 < b {
        assert(!ranges_overlap(ra[a2], rb[b2]));
    }
}

/// Checks fields `i` and `j` (`i < j`) for a forbidden overlap: one is allowed
/// only between fields of two different overlay groups.
fn check_pair(def: &BitfieldDef, i: usize, j: usize) -> (r: Option<ValidationError>)
    requires
        i < j < def.fields@.len(),
    ensures
        forall|e: ValidationError| (r == Some(e)) <==> (error_applies(def, e) && is_pair_error_of(e, i as int, j as int)),
        r matches Some(e) ==> is_pair_error_of(e, i as int, j as int),
{
    let fa = &def.fields[i];
    let fb = &def.fields[j];
    let ra = &fa.ranges;
    let rb = &fb.ranges;
    let mut a: usize = 0;
    while a < ra.len()
        invariant
            i < j < def.fields@.len(),
            *fa == def.fields@[i as int],
            *fb == def.fields@[j as int],
            ra@ == ranges_of(def, i as int),
            rb@ == ranges_of(def, j as int),
            0 <= a <= ra@.len(),
            forall|a2: int, b2: int| 0 <= a2 < a && 0 <= b2 < rb@.len() ==> !ranges_overlap(#[trigger] ra@[a2], #[trigger] rb@[b2]),
        decreases ra@.len() - a,
    {
        let mut b: usize = 0;
        while b < rb.len()
            invariant
                i < j < def.fields@.len(),
                *fa == def.fields@[i as int],
                *fb == def.fields@[j as int],
                ra@ == ranges_of(def, i as int),
                rb@ == ranges_of(def, j as int),
                0 <= a < ra@.len(),
                0 <= b <= rb@.len(),
                forall|a2: int, b2: int| 0 <= a2 < a && 0 <= b2 < rb@.len() ==> !ranges_overlap(#[trigger] ra@[a2], #[trigger] rb@[b2]),
                forall|b2: int| 0 <= b2 < b ==> !ranges_overlap(ra@[a as int], #[trigger] rb@[b2]),
            decreases rb@.len() - b,
        {
            if ra[a].overlaps(&rb[b]) {
                assert(first_overlap(ra@, rb@, a as int, b as int));
                let found = match (&fa.overlay, &fb.overlay) {
                    (None, None) => Some(ValidationError::FieldOverlap { first: i, second: j, first_range: a, second_range: b }),
                    (None, Some(_)) => Some(ValidationError::OverlayOverlapsBase { base: i, overlay: j, base_range: a, overlay_range: b }),
                    (Some(_), None) => Some(ValidationError::OverlayOverlapsBase { base: j, overlay: i, base_range: b, overlay_range: a }),
                    (Some(x), Some(y)) => {
                        if *x == *y {
                            Some(ValidationError::OverlayGroupOverlap { first: i, second: j, first_range: a, second_range: b })
                        } else {
                            None
                        }
                    },
                };
                proof {
                    assert(*fa == def.fields@[i as int]);
                    assert(*fb == def.fields@[j as int]);
                    assert(ranges_of(def, i as int) == ra@);
                    assert(ranges_of(def, j as int) == rb@);
                    if let Some(e0) = found {
                        assert(error_applies(def, e0));
                    }
                    assert forall|e: ValidationError| (found == Some(e)) <==> (error_applies(def, e) && is_pair_error_of(e, i as int, j as int)) by {
                        if error_applies(def, e) && is_pair_error_of(e, i as int, j as int) {
                            match e {
                                ValidationError::FieldOverlap { first, second, first_range, second_range } => {
                                    lemma_first_overlap_unique(ra@, rb@, a as int, b as int, first_range as int, second_range as int);
                                },
                                ValidationError::OverlayOverlapsBase { base, overlay, base_range, overlay_range } => {
                                    assert(is_pair_error_of(e, i as int, j as int));
                                    assert((base == i && overlay == j) || (base == j && overlay == i));
                                    assert(ranges_of(def, i as int) == ra@);
                                    if base == i {
                                        assert(overlay == j && base < overlay);
                                        assert(ranges_of(def, base as int) == ra@);
                                        assert(ranges_of(def, overlay as int) == rb@);
                                        lemma_first_overlap_unique(ra@, rb@, a as int, b as int, base_range as int, overlay_range as int);
                                    } else {
                                        assert(overlay == i && base == j && !(base < overlay));
                                        assert(ranges_of(def, overlay as int) == ra@ && ranges_of(def, base as int) == rb@);
                                        lemma_first_overlap_unique(ra@, rb@, a as int, b as int, overlay_range as int, base_range as int);
                                    }
                                },
                                ValidationError::OverlayGroupOverlap { first, second, first_range, second_range } => {
                                    lemma_first_overlap_unique(ra@, rb@, a as int, b as int, first_range as int, second_range as int);
                                },
                                _ => {},
                            }
                        }
                    }
                }
                return found;
            }
            b = b + 1;
        }
        a = a + 1;
    }
    proof {
        assert forall|e: ValidationError| !(error_applies(def, e) && is_pair_error_of(e, i as int, j as int)) by {
            match e {
                ValidationError::FieldOverlap { first, second, first_range, second_range } => {
                    if first == i && second == j && 0 <= first_range < ra@.len() && 0 <= second_range < rb@.len() {
                        assert(!ranges_overlap(ra@[first_range as int], rb@[second_range as int]));
                    }
                },
                ValidationError::OverlayOverlapsBase { base, overlay, base_range, overlay_range } => {
                    if base == i && overlay == j && 0 <= base_range < ra@.len() && 0 <= overlay_range < rb@.len() {
                        assert(!ranges_overlap(ra@[base_range as int], rb@[overlay_range as int]));
                    }
                    if base == j && overlay == i && 0 <= overlay_range < ra@.len() && 0 <= base_range < rb@.len() {
                        assert(!ranges_overlap(ra@[overlay_range as int], rb@[base_range as int]));
                    }
                },
                ValidationError::OverlayGroupOverlap { first, second, first_range, second_range } => {
                    if first == i && second == j && 0 <= first_range < ra@.len() && 0 <= second_range < rb@.len() {
                        assert(!ranges_overlap(ra@[first_range as int], rb@[second_range as int]));
                    }
                },
                _ => {},
            }
        }
    }
    None
}

} // verus!

verus! {

spec fn dup_done(e: ValidationError, f: int, n: int) -> bool {
    match e {
        ValidationError::DuplicateName { field, name } => field < f || (field == f && name < n),
        _ => false,
    }
}

proof fn lemma_used_before_step(def: &BitfieldDef, f: int, n: int, x: Seq<char>)
    requires
        0 <= f < def.fields@.len(),
        0 <= n < field_names(def.fields@[f]).len(),
    ensures
        name_used_before(def, f, n + 1, x) <==> (name_used_before(def, f, n, x) || field_names(def.fields@[f])[n] == x),
{
    if name_used_before(def, f, n + 1, x) {
        let (f2, n2) = choose|f2: int, n2: int| name_pos_before(def, f2, n2, f, n + 1)
            && #[trigger] field_names(def.fields@[f2])[n2] == x;
        if !(f2 == f && n2 == n) {
            assert(name_pos_before(def, f2, n2, f, n));
        }
    }
    if name_used_before(def, f, n, x) {
        let (f2, n2) = choose|f2: int, n2: int| name_pos_before(def, f2, n2, f, n)
            && #[trigger] field_names(def.fields@[f2])[n2] == x;
        assert(name_pos_before(def, f2, n2, f, n + 1));
    }
    if field_names(def.fields@[f])[n] == x {
        assert(name_pos_before(def, f, n, f, n + 1));
    }
}

proof fn lemma_used_before_next_field(def: &BitfieldDef, f: int, x: Seq<char>)
    requires
        0 <= f < def.fields@.len(),
    ensures
        name_used_before(def, f + 1, 0, x) <==> name_used_before(def, f, field_names(def.fields@[f]).len() as int, x),
{
    let len = field_names(def.fields@[f]).len() as int;
    if name_used_before(def, f + 1, 0, x) {
        let (f2, n2) = choose|f2: int, n2: int| name_pos_before(def, f2, n2, f + 1, 0)
            && #[trigger] field_names(def.fields@[f2])[n2] == x;
        assert(name_pos_before(def, f2, n2, f, len));
    }
    if name_used_before(def, f, len, x) {
        let (f2, n2) = choose|f2: int, n2: int| name_pos_before(def, f2, n2, f, len)
            && #[trigger] field_names(def.fields@[f2])[n2] == x;
        assert(name_pos_before(def, f2, n2, f + 1, 0));
    }
}

/// The `n`-th accessor name of a field: its accessor name, then its aliases.
fn name_of(field: &crate::model::FieldDef, n: usize) -> (r: &String)
    requires
        n < field_names(*field).len(),
    ensures
        r@ == field_names(*field)[n as int],
{
    if n == 0 {
        &field.accessor_name
    } else {
        &field.aliases[n - 1]
    }
}

fn contains_name(seen: &Vec<String>, name: &String) -> (r: bool)
    ensures
        r == seen_names(seen@, name@),
{
    let mut t: usize = 0;
    while t < seen.len()
        invariant
            0 <= t <= seen@.len(),
            forall|u: int| 0 <= u < t ==> (#[trigger] seen@[u])@ != name@,
        decreases seen@.len() - t,
    {
        if seen[t] == *name {
            return true;
        }
        t = t + 1;
    }
    false
}

spec fn seen_names(seen: Seq<String>, x: Seq<char>) -> bool {
    exists|t: int| 0 <= t < seen.len() && (#[trigger] seen[t])@ == x
}

/// Records name `n` of field `f`: reports it when an earlier name equals it.
fn record_name(def: &BitfieldDef, f: usize, n: usize, seen: &mut Vec<String>, errs: &mut Vec<ValidationError>)
    requires
        f < def.fields@.len(),
        n < field_names(def.fields@[f as int]).len(),
        forall|x: Seq<char>| #[trigger] seen_names(old(seen)@, x) <==> name_used_before(def, f as int, n as int, x),
        forall|e: ValidationError| #[trigger] old(errs)@.contains(e) <==> (error_applies(def, e) && dup_done(e, f as int, n as int)),
        old(errs)@.no_duplicates(),
        in_report_order(old(errs)@),
    ensures
        final(errs)@.no_duplicates(),
        in_report_order(final(errs)@),
        forall|x: Seq<char>| #[trigger] seen_names(final(seen)@, x) <==> name_used_before(def, f as int, n as int + 1, x),
        forall|e: ValidationError| #[trigger] final(errs)@.contains(e) <==> (error_applies(def, e) && dup_done(e, f as int, n as int + 1)),
{
    let field = &def.fields[f];
    let name = name_of(field, n);
    let ghost old_seen = seen@;
    let ghost old_errs = errs@;
    let dup = contains_name(seen, name);
    proof {
        assert(dup == seen_names(old_seen, name@));
    }
    if dup {
        proof {
            assert(!old_errs.contains(ValidationError::DuplicateName { field: f, name: n }));
            lemma_push_new(old_errs, ValidationError::DuplicateName { field: f, name: n });
            assert forall|i: int| 0 <= i < old_errs.len()
                implies reported_before(#[trigger] old_errs[i], ValidationError::DuplicateName { field: f, name: n }) by {
                assert(old_errs.contains(old_errs[i]));
            }
            lemma_push_in_order(old_errs, ValidationError::DuplicateName { field: f, name: n });
        }
        errs.push(ValidationError::DuplicateName { field: f, name: n });
    } else {
        seen.push(name.clone());
    }
    proof {
        assert forall|x: Seq<char>| #[trigger] seen_names(seen@, x) <==> name_used_before(def, f as int, n as int + 1, x) by {
            lemma_used_before_step(def, f as int, n as int, x);
            if !dup {
                if seen_names(seen@, x) {
                    let t = choose|t: int| 0 <= t < seen@.len() && (#[trigger] seen@[t])@ == x;
                    if t < old_seen.len() {
                        assert(old_seen[t] == seen@[t]);
                    }
                }
                if seen_names(old_seen, x) {
                    let t = choose|t: int| 0 <= t < old_seen.len() && (#[trigger] old_seen[t])@ == x;
                    assert(old_seen[t] == seen@[t]);
                }
                if name@ == x {
                    assert(seen@[old_seen.len() as int]@ == x);
                }
            }
        }
        assert forall|e: ValidationError| #[trigger] errs@.contains(e) <==> (error_applies(def, e) && dup_done(e, f as int, n as int + 1)) by {
            if dup {
                vstd::seq_lib::lemma_seq_contains_after_push(old_errs, ValidationError::DuplicateName { field: f, name: n }, e);
            }
        }
    }
}

/// Checks that no two fields (including their aliases) expose the same accessor name.
fn check_names(def: &BitfieldDef) -> (r: Vec<ValidationError>)
    ensures
        forall|e: ValidationError| #[trigger] r@.contains(e) <==> (error_applies(def, e) && e is DuplicateName),
        r@.no_duplicates(),
        in_report_order(r@),
{
    let mut seen: Vec<String> = Vec::new();
    let mut errs: Vec<ValidationError> = Vec::new();
    let nf = def.fields.len();
    let mut f: usize = 0;
    while f < nf
        invariant
            nf == def.fields@.len(),
            0 <= f <= nf,
            forall|x: Seq<char>| #[trigger] seen_names(seen@, x) <==> name_used_before(def, f as int, 0, x),
            forall|e: ValidationError| #[trigger] errs@.contains(e) <==> (error_applies(def, e) && dup_done(e, f as int, 0)),
            errs@.no_duplicates(),
            in_report_order(errs@),
        decreases nf - f,
    {
        let field = &def.fields[f];
        let count = field.aliases.len();
        proof {
            assert(field_names(*field).len() == count + 1);
        }
        record_name(def, f, 0, &mut seen, &mut errs);
        let mut a: usize = 0;
        while a < count
            invariant
                nf == def.fields@.len(),
                0 <= f < nf,
                *field == def.fields@[f as int],
                count + 1 == field_names(*field).len(),
                0 <= a <= count,
                forall|x: Seq<char>| #[trigger] seen_names(seen@, x) <==> name_used_before(def, f as int, a as int + 1, x),
                forall|e: ValidationError| #[trigger] errs@.contains(e) <==> (error_applies(def, e) && dup_done(e, f as int, a as int + 1)),
                errs@.no_duplicates(),
                in_report_order(errs@),
            decreases count - a,
        {
            record_name(def, f, a + 1, &mut seen, &mut errs);
            a = a + 1;
        }
        proof {
            assert forall|x: Seq<char>| #[trigger] seen_names(seen@, x) <==> name_used_before(def, f as int + 1, 0, x) by {
                lemma_used_before_next_field(def, f as int, x);
            }
            assert forall|e: ValidationError| #[trigger] errs@.contains(e) <==> (error_applies(def, e) && dup_done(e, f as int + 1, 0)) by {
                if let ValidationError::DuplicateName { field, name } = e {
                    if error_applies(def, e) && field == f {
                        assert(name < count + 1);
                    }
                }
            }
        }
        f = f + 1;
    }
    proof {
        assert forall|e: ValidationError| #[trigger] errs@.contains(e) <==> (error_applies(def, e) && e is DuplicateName) by {
            if let ValidationError::DuplicateName { field, name } = e {
                if error_applies(def, e) {
                    assert(field < nf);
                }
            }
        }
    }
    errs
}

} // verus!

verus! {

/// The field indices `(i, j)`, `i < j`, of an overlap error.
spec fn pair_of(e: ValidationError) -> (int, int) {
    match e {
        ValidationError::FieldOverlap { first, second, .. } => (first as int, second as int),
        ValidationError::OverlayOverlapsBase { base, overlay, .. } =>
            if base < overlay { (base as int, overlay as int) } else { (overlay as int, base as int) },
        ValidationError::OverlayGroupOverlap { first, second, .. } => (first as int, second as int),
        _ => (0, 0),
    }
}

spec fn is_pair_error(e: ValidationError) -> bool {
    e is FieldOverlap || e is OverlayOverlapsBase || e is OverlayGroupOverlap
}

spec fn field_of(e: ValidationError) -> int {
    match e {
        ValidationError::BackwardsRange { field, .. } => field as int,
        ValidationError::RangeOutOfBounds { field, .. } => field as int,
        ValidationError::OverlappingRanges { field, .. } => field as int,
        ValidationError::BoolWidth { field } => field as int,
        ValidationError::TypeTooNarrow { field } => field as int,
        _ => 0,
    }
}

spec fn is_range_error(e: ValidationError) -> bool {
    e is BackwardsRange || e is RangeOutOfBounds || e is OverlappingRanges
}

spec fn is_type_error(e: ValidationError) -> bool {
    e is BoolWidth || e is TypeTooNarrow
}

/// The check that reports `e`: the effective width (0), the ranges (1), the
/// field types (2), the overlaps between fields (3), the names (4).
pub open spec fn stage(e: ValidationError) -> int {
    match e {
        ValidationError::WidthExceedsStorage => 0,
        ValidationError::BackwardsRange { .. } => 1,
        ValidationError::RangeOutOfBounds { .. } => 1,
        ValidationError::OverlappingRanges { .. } => 1,
        ValidationError::BoolWidth { .. } => 2,
        ValidationError::TypeTooNarrow { .. } => 2,
        ValidationError::FieldOverlap { .. } => 3,
        ValidationError::OverlayOverlapsBase { .. } => 3,
        ValidationError::OverlayGroupOverlap { .. } => 3,
        ValidationError::DuplicateName { .. } => 4,
    }
}

/// Where a check finds `e`: its field, the pair of fields of an overlap
/// (lower index first), or the field and name index of a duplicate name.
pub open spec fn place(e: ValidationError) -> (int, int) {
    match e {
        ValidationError::WidthExceedsStorage => (0, 0),
        ValidationError::BackwardsRange { field, .. } => (field as int, 0),
        ValidationError::RangeOutOfBounds { field, .. } => (field as int, 0),
        ValidationError::OverlappingRanges { field, .. } => (field as int, 0),
        ValidationError::BoolWidth { field } => (field as int, 0),
        ValidationError::TypeTooNarrow { field } => (field as int, 0),
        ValidationError::FieldOverlap { first, second, .. } => (first as int, second as int),
        ValidationError::OverlayOverlapsBase { base, overlay, .. } =>
            if base < overlay { (base as int, overlay as int) } else { (overlay as int, base as int) },
        ValidationError::OverlayGroupOverlap { first, second, .. } => (first as int, second as int),
        ValidationError::DuplicateName { field, name } => (field as int, name as int),
    }
}

/// `a` is reported no later than `b`: by check, then by place.
pub open spec fn reported_before(a: ValidationError, b: ValidationError) -> bool {
    ||| stage(a) < stage(b)
    ||| stage(a) == stage(b) && place(a).0 < place(b).0
    ||| stage(a) == stage(b) && place(a).0 == place(b).0 && place(a).1 <= place(b).1
}

/// The errors come in the order the checks report them.
pub open spec fn in_report_order(es: Seq<ValidationError>) -> bool {
    forall|i: int, j: int| 0 <= i < j < es.len() ==> reported_before(#[trigger] es[i], #[trigger] es[j])
}

/// Appending `x`, reported after every element, keeps the order.
proof fn lemma_push_in_order(s: Seq<ValidationError>, x: ValidationError)
    requires
        in_report_order(s),
        forall|i: int| 0 <= i < s.len() ==> reported_before(#[trigger] s[i], x),
    ensures
        in_report_order(s.push(x)),
{
    assert forall|i: int, j: int| 0 <= i < j < s.push(x).len() implies reported_before(#[trigger] s.push(x)[i], #[trigger] s.push(x)[j]) by {
        assert(s.push(x)[i] == s[i]);
        if j < s.len() {
            assert(s.push(x)[j] == s[j]);
        }
    }
}

/// Appending `t`, in order and reported after every element of `s`, keeps
/// the order.
proof fn lemma_append_in_order(s: Seq<ValidationError>, t: Seq<ValidationError>)
    requires
        in_report_order(s),
        in_report_order(t),
        forall|i: int, j: int| 0 <= i < s.len() && 0 <= j < t.len() ==> reported_before(#[trigger] s[i], #[trigger] t[j]),
    ensures
        in_report_order(s + t),
{
    assert forall|i: int, j: int| 0 <= i < j < (s + t).len() implies reported_before(#[trigger] (s + t)[i], #[trigger] (s + t)[j]) by {
        if j < s.len() {
            assert((s + t)[i] == s[i] && (s + t)[j] == s[j]);
        } else if i < s.len() {
            assert((s + t)[i] == s[i] && (s + t)[j] == t[j - s.len()]);
        } else {
            assert((s + t)[i] == t[i - s.len()] && (s + t)[j] == t[j - s.len()]);
        }
    }
}

/// Runs all semantic checks on a bitfield definition: the effective width
/// fits the storage; every range is ordered, inside the effective width and
/// apart from the field's other ranges; every field's type holds its bits;
/// fields overlap only across different overlay groups; and accessor names
/// are unique. Returns every violation found, in the order the checks run:
/// the width, then the ranges and the types field by field, then the
/// overlaps pair by pair, then the names.
pub fn validate(def: &BitfieldDef) -> (r: Result<(), Vec<ValidationError>>)
    ensures
        r is Ok <==> def_valid(def),
        r matches Err(es) ==> es@.len() > 0 && es@.no_duplicates() && in_report_order(es@)
            && forall|e: ValidationError| #[trigger] es@.contains(e) <==> error_applies(def, e),
{
    let mut errs: Vec<ValidationError> = Vec::new();
    if def.effective_width > def.args.storage.bit_width() {
        errs.push(ValidationError::WidthExceedsStorage);
    }
    proof {
        assert forall|e: ValidationError| #[trigger] errs@.contains(e) <==> (error_applies(def, e) && e is WidthExceedsStorage) by {
            if e is WidthExceedsStorage && error_applies(def, e) {
                assert(errs@[0] == e);
            }
        }
    }
    let n = def.fields.len();
    let mut f: usize = 0;
    while f < n
        invariant
            n == def.fields@.len(),
            0 <= f <= n,
            forall|e: ValidationError| #[trigger] errs@.contains(e) <==> (error_applies(def, e)
                && (e is WidthExceedsStorage || (is_range_error(e) && field_of(e) < f))),
            errs@.no_duplicates(),
            in_report_order(errs@),
        decreases n - f,
    {
        let ghost before = errs@;
        let mut more = check_field_ranges(def, f);
        let ghost added = more@;
        errs.append(&mut more);
        proof {
            assert forall|e: ValidationError| #[trigger] errs@.contains(e) <==> (error_applies(def, e)
                && (e is WidthExceedsStorage || (is_range_error(e) && field_of(e) < f + 1))) by {
                vstd::seq_lib::lemma_seq_concat_contains_all_elements(before, added, e);
                assert(errs@ == before + added);
                assert(added.contains(e) <==> (error_applies(def, e) && is_range_error_of(e, f as int)));
            }
            assert forall|a: int, b: int| 0 <= a < before.len() && 0 <= b < added.len() implies before[a] != added[b] by {
                assert(added.contains(added[b]));
                if before[a] == added[b] {
                    assert(before.contains(added[b]));
                }
            }
            vstd::seq_lib::lemma_no_dup_in_concat(before, added);
            assert forall|a: int, b: int| 0 <= a < added.len() && 0 <= b < added.len()
                implies place(#[trigger] added[a]) == place(#[trigger] added[b]) && stage(added[a]) == 1 && stage(added[b]) == 1 by {
                assert(added.contains(added[a]));
                assert(added.contains(added[b]));
                assert(is_range_error_of(added[a], f as int));
                assert(is_range_error_of(added[b], f as int));
            }
            assert forall|a: int, b: int| 0 <= a < before.len() && 0 <= b < added.len()
                implies reported_before(#[trigger] before[a], #[trigger] added[b]) by {
                assert(before.contains(before[a]));
                assert(added.contains(added[b]));
                assert(is_range_error_of(added[b], f as int));
            }
            lemma_append_in_order(before, added);
        }
        f = f + 1;
    }
    let mut f: usize = 0;
    while f < n
        invariant
            n == def.fields@.len(),
            0 <= f <= n,
            forall|e: ValidationError| #[trigger] errs@.contains(e) <==> (error_applies(def, e)
                && (e is WidthExceedsStorage || is_range_error(e) || (is_type_error(e) && field_of(e) < f))),
            errs@.no_duplicates(),
            in_report_order(errs@),
        decreases n - f,
    {
        let ghost before = errs@;
        let found_t = check_field_type(def, f);
        match found_t {
            Some(e0) => {
                proof {
                    assert(!before.contains(e0));
                    lemma_push_new(before, e0);
                    assert forall|a: int| 0 <= a < before.len() implies reported_before(#[trigger] before[a], e0) by {
                        assert(before.contains(before[a]));
                    }
                    lemma_push_in_order(before, e0);
                }
                errs.push(e0);
            },
            None => {},
        }
        proof {
            assert forall|e: ValidationError| #[trigger] errs@.contains(e) <==> (error_applies(def, e)
                && (e is WidthExceedsStorage || is_range_error(e) || (is_type_error(e) && field_of(e) < f + 1))) by {
                assert((found_t == Some(e)) <==> (error_applies(def, e) && is_type_error_of(e, f as int)));
                if errs@.len() > before.len() {
                    vstd::seq_lib::lemma_seq_contains_after_push(before, errs@.last(), e);
                    assert(errs@ =~= before.push(errs@.last()));
                }
            }
        }
        f = f + 1;
    }
    let mut i: usize = 0;
    while i < n
        invariant
            n == def.fields@.len(),
            0 <= i <= n,
            forall|e: ValidationError| #[trigger] errs@.contains(e) <==> (error_applies(def, e)
                && (e is WidthExceedsStorage || is_range_error(e) || is_type_error(e)
                    || (is_pair_error(e) && pair_of(e).0 < i))),
            errs@.no_duplicates(),
            in_report_order(errs@),
        decreases n - i,
    {
        let mut j: usize = i + 1;
        while j < n
            invariant
                n == def.fields@.len(),
                0 <= i < n,
                i + 1 <= j <= n,
                forall|e: ValidationError| #[trigger] errs@.contains(e) <==> (error_applies(def, e)
                    && (e is WidthExceedsStorage || is_range_error(e) || is_type_error(e)
                        || (is_pair_error(e) && (pair_of(e).0 < i || (pair_of(e).0 == i && pair_of(e).1 < j))))),
                errs@.no_duplicates(),
                in_report_order(errs@),
            decreases n - j,
        {
            let ghost before = errs@;
            let found = check_pair(def, i, j);
            proof {
                if found is Some {
                    let e0 = found->0;
                    assert(!before.contains(e0));
                    lemma_push_new(before, e0);
                    assert(is_pair_error_of(e0, i as int, j as int));
                    assert forall|a: int| 0 <= a < before.len() implies reported_before(#[trigger] before[a], e0) by {
                        assert(before.contains(before[a]));
                    }
                    lemma_push_in_order(before, e0);
                }
            }
            match found {
                Some(e0) => {
                    errs.push(e0);
                },
                None => {},
            }
            proof {
                assert forall|e: ValidationError| #[trigger] errs@.contains(e) <==> (error_applies(def, e)
                    && (e is WidthExceedsStorage || is_range_error(e) || is_type_error(e)
                        || (is_pair_error(e) && (pair_of(e).0 < i || (pair_of(e).0 == i && pair_of(e).1 < j + 1))))) by {
                    assert((found == Some(e)) <==> (error_applies(def, e) && is_pair_error_of(e, i as int, j as int)));
                    if errs@.len() > before.len() {
                        vstd::seq_lib::lemma_seq_contains_after_push(before, errs@.last(), e);
                        assert(errs@ =~= before.push(errs@.last()));
                    }
                    if is_pair_error(e) && pair_of(e).0 == i && pair_of(e).1 == j {
                        assert(is_pair_error_of(e, i as int, j as int));
                    }
                }
            }
            j = j + 1;
        }
        proof {
            assert forall|e: ValidationError| #[trigger] errs@.contains(e) <==> (error_applies(def, e)
                && (e is WidthExceedsStorage || is_range_error(e) || is_type_error(e)
                    || (is_pair_error(e) && pair_of(e).0 < i + 1))) by {
                if error_applies(def, e) && is_pair_error(e) && pair_of(e).0 == i {
                    assert(pair_of(e).1 < n);
                }
            }
        }
        i = i + 1;
    }
    let ghost before = errs@;
    let mut more = check_names(def);
    let ghost added = more@;
    errs.append(&mut more);
    proof {
        assert forall|e: ValidationError| #[trigger] errs@.contains(e) <==> error_applies(def, e) by {
            vstd::seq_lib::lemma_seq_concat_contains_all_elements(before, added, e);
            assert(errs@ == before + added);
            assert(added.contains(e) <==> (error_applies(def, e) && e is DuplicateName));
            if error_applies(def, e) {
                match e {
                    ValidationError::FieldOverlap { .. } => { assert(pair_of(e).0 < n); },
                    ValidationError::OverlayOverlapsBase { .. } => { assert(pair_of(e).0 < n); },
                    ValidationError::OverlayGroupOverlap { .. } => { assert(pair_of(e).0 < n); },
                    ValidationError::BackwardsRange { .. } => {},
                    ValidationError::RangeOutOfBounds { .. } => {},
                    ValidationError::OverlappingRanges { .. } => {},
                    _ => {},
                }
            }
        }
        assert forall|a: int, b: int| 0 <= a < before.len() && 0 <= b < added.len() implies before[a] != added[b] by {
            assert(added.contains(added[b]));
            if before[a] == added[b] {
                assert(before.contains(added[b]));
            }
        }
        vstd::seq_lib::lemma_no_dup_in_concat(before, added);
        assert forall|a: int, b: int| 0 <= a < before.len() && 0 <= b < added.len()
            implies reported_before(#[trigger] before[a], #[trigger] added[b]) by {
            assert(before.contains(before[a]));
            assert(added.contains(added[b]));
        }
        lemma_append_in_order(before, added);
    }
    if errs.len() == 0 {
        proof {
            assert forall|e: ValidationError| !#[trigger] error_applies(def, e) by {
                if error_applies(def, e) {
                    assert(errs@.contains(e));
                }
            }
        }
        Ok(())
    } else {
        proof {
            let e0 = errs@[0];
            assert(errs@.contains(e0));
            assert(error_applies(def, e0));
        }
        Err(errs)
    }
}

} // verus!
