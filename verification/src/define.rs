//! The attribute entry points: from the tokens of `#[bitfield(...)]` and a
//! struct declaration to a validated [`Layout`], and from a `#[bitenum]`
//! declaration to a [`BitEnumDef`].
use vstd::prelude::*;
use crate::bit_enum::{BitEnumDef, BitEnumError, VariantDecl, resolvable, resolves_to};
use crate::layout::Layout;
use crate::model::{BitfieldArgs, BitfieldDef, field_names, overlay_of};
use crate::parse::{Token, ParseError, StructItem, args_spec, attrs_fit, fields_ok, first_field_error, struct_def_of,
    parse_struct, lemma_bits_spec_has_range, field_attr, field_outcome, field_def_of};
use crate::defaults::layouts_wf;
use crate::validate::{ValidationError, error_applies, def_valid, ranges_of, name_used_before, name_pos_before, in_report_order};

verus! {

/// Why a `#[bitfield]` declaration is rejected.
#[derive(Debug)]
pub enum DefineError {
    /// The attribute or a field's `#[bits(...)]` does not parse.
    Parse(ParseError),
    /// The declaration parses but breaks these layout rules.
    Invalid(Vec<ValidationError>),
}

/// Parses `#[bitfield(...)]` arguments and the struct declaration, with the
/// bit enums `enums` and nested bitfield layouts `nested` in scope for field
/// defaults, validates the definition, and computes the layout of its fields.
pub fn bitfield_impl(attr: &[Token], item: &StructItem, enums: &[&BitEnumDef], nested: &[&Layout])
    -> (r: Result<Layout, DefineError>)
    requires
        attr@.len() < usize::MAX - 4,
        attrs_fit(item.fields@),
        layouts_wf(nested@),
    ensures
        args_spec(attr@) is Err ==> (r matches Err(DefineError::Parse(e)) && args_spec(attr@) == Err::<BitfieldArgs, ParseError>(e)),
        args_spec(attr@) is Ok && !fields_ok(item.fields@, enums@, nested@)
            ==> (r matches Err(DefineError::Parse(e)) && first_field_error(item.fields@, enums@, nested@, e)),
        args_spec(attr@) is Ok && fields_ok(item.fields@, enums@, nested@) ==> (r is Ok || r matches Err(DefineError::Invalid(_))),
        args_spec(attr@) is Ok && fields_ok(item.fields@, enums@, nested@) ==> forall|d: BitfieldDef|
            struct_def_of(d, args_spec(attr@)->Ok_0, *item, enums@, nested@) ==> (r is Ok <==> #[trigger] def_valid(&d)),
        r matches Ok(l) ==> l.wf() && struct_def_of(l.def, args_spec(attr@)->Ok_0, *item, enums@, nested@),
        r matches Err(DefineError::Invalid(es)) ==> args_spec(attr@) is Ok && es@.len() > 0 && es@.no_duplicates()
            && in_report_order(es@)
            && exists|d: BitfieldDef|
            struct_def_of(d, args_spec(attr@)->Ok_0, *item, enums@, nested@)
                && forall|e: ValidationError| #[trigger] es@.contains(e) <==> error_applies(&d, e),
{
    let args = match BitfieldArgs::parse(attr) {
        Ok(a) => a,
        Err(e) => {
            return Err(DefineError::Parse(e));
        },
    };
    let def = match parse_struct(&args, item, enums, nested) {
        Ok(d) => d,
        Err(e) => {
            return Err(DefineError::Parse(e));
        },
    };
    proof {
        assert forall|f: int| 0 <= f < def.fields@.len() implies (#[trigger] def.fields@[f]).ranges@.len() >= 1 by {
            assert(fields_ok(item.fields@, enums@, nested@));
            assert(field_outcome(item.fields@[f], f, enums@, nested@) is Ok);
            assert(field_attr(item.fields@[f], f) is Ok);
            assert(item.fields@[f].bits is Some);
            lemma_bits_spec_has_range(item.fields@[f].bits->0@);
        }
    }
    let ghost d = def;
    proof {
        assert forall|d2: BitfieldDef| struct_def_of(d2, args, *item, enums@, nested@) implies (def_valid(&d) <==> #[trigger] def_valid(&d2)) by {
            lemma_same_resolution_same_errors(d, d2, args, *item, enums@, nested@);
            if def_valid(&d) {
                assert forall|e: ValidationError| !#[trigger] error_applies(&d2, e) by {
                    assert(!error_applies(&d, e));
                }
            }
            if def_valid(&d2) {
                assert forall|e: ValidationError| !#[trigger] error_applies(&d, e) by {
                    assert(!error_applies(&d2, e));
                }
            }
        }
    }
    match Layout::new(def) {
        Ok(l) => Ok(l),
        Err(es) => {
            proof {
                assert(struct_def_of(d, args, *item, enums@, nested@));
            }
            Err(DefineError::Invalid(es))
        },
    }
}

/// Two definitions resolved from the same declaration break the same rules.
proof fn lemma_same_resolution_same_errors(d1: BitfieldDef, d2: BitfieldDef, args: BitfieldArgs, item: StructItem,
    enums: Seq<&BitEnumDef>, nested: Seq<&Layout>)
    requires
        struct_def_of(d1, args, item, enums, nested),
        struct_def_of(d2, args, item, enums, nested),
    ensures
        forall|e: ValidationError| #[trigger] error_applies(&d1, e) == error_applies(&d2, e),
{
    let n = d1.fields@.len();
    assert forall|f: int| 0 <= f < n implies {
        &&& #[trigger] ranges_of(&d1, f) == ranges_of(&d2, f)
        &&& d1.fields@[f].ty == d2.fields@[f].ty
        &&& overlay_of(d1.fields@[f]) == overlay_of(d2.fields@[f])
        &&& field_names(d1.fields@[f]) == field_names(d2.fields@[f])
    } by {
        let o = field_outcome(item.fields@[f], f, enums, nested)->Ok_0;
        assert(field_def_of(d1.fields@[f], item.fields@[f], o.0, o.1));
        assert(field_def_of(d2.fields@[f], item.fields@[f], o.0, o.1));
        assert(field_names(d1.fields@[f]) =~= field_names(d2.fields@[f]));
    }
    assert forall|e: ValidationError| #[trigger] error_applies(&d1, e) == error_applies(&d2, e) by {
        match e {
            ValidationError::DuplicateName { field, name } => {
                if field < n {
                    let x = field_names(d1.fields@[field as int])[name as int];
                    assert(ranges_of(&d1, field as int) == ranges_of(&d2, field as int));
                    if name_used_before(&d1, field as int, name as int, x) {
                        let (f2, n2) = choose|f2: int, n2: int| name_pos_before(&d1, f2, n2, field as int, name as int)
                            && #[trigger] field_names(d1.fields@[f2])[n2] == x;
                        assert(ranges_of(&d1, f2) == ranges_of(&d2, f2));
                        assert(name_pos_before(&d2, f2, n2, field as int, name as int));
                        assert(field_names(d2.fields@[f2])[n2] == x);
                    }
                    if name_used_before(&d2, field as int, name as int, x) {
                        let (f2, n2) = choose|f2: int, n2: int| name_pos_before(&d2, f2, n2, field as int, name as int)
                            && #[trigger] field_names(d2.fields@[f2])[n2] == x;
                        assert(ranges_of(&d1, f2) == ranges_of(&d2, f2));
                        assert(name_pos_before(&d1, f2, n2, field as int, name as int));
                        assert(field_names(d1.fields@[f2])[n2] == x);
                    }
                }
            },
            ValidationError::BackwardsRange { field, .. } => {
                if field < n { assert(ranges_of(&d1, field as int) == ranges_of(&d2, field as int)); }
            },
            ValidationError::RangeOutOfBounds { field, .. } => {
                if field < n { assert(ranges_of(&d1, field as int) == ranges_of(&d2, field as int)); }
            },
            ValidationError::OverlappingRanges { field, .. } => {
                if field < n { assert(ranges_of(&d1, field as int) == ranges_of(&d2, field as int)); }
            },
            ValidationError::BoolWidth { field } => {
                if field < n { assert(ranges_of(&d1, field as int) == ranges_of(&d2, field as int)); }
            },
            ValidationError::TypeTooNarrow { field } => {
                if field < n { assert(ranges_of(&d1, field as int) == ranges_of(&d2, field as int)); }
            },
            ValidationError::FieldOverlap { first, second, .. } => {
                if first < n && second < n {
                    assert(ranges_of(&d1, first as int) == ranges_of(&d2, first as int));
                    assert(ranges_of(&d1, second as int) == ranges_of(&d2, second as int));
                }
            },
            ValidationError::OverlayOverlapsBase { base, overlay, .. } => {
                if base < n && overlay < n {
                    assert(ranges_of(&d1, base as int) == ranges_of(&d2, base as int));
                    assert(ranges_of(&d1, overlay as int) == ranges_of(&d2, overlay as int));
                }
            },
            ValidationError::OverlayGroupOverlap { first, second, .. } => {
                if first < n && second < n {
                    assert(ranges_of(&d1, first as int) == ranges_of(&d2, first as int));
                    assert(ranges_of(&d1, second as int) == ranges_of(&d2, second as int));
                }
            },
            ValidationError::WidthExceedsStorage => {},
        }
    }
}

/// Resolves a `#[bitenum]` declaration; the attribute takes no arguments.
pub fn bitenum_impl(attr: &[Token], name: String, decls: &Vec<VariantDecl>) -> (r: Result<BitEnumDef, BitEnumError>)
    requires
        resolvable(decls@),
    ensures
        attr@.len() > 0 ==> r == Err::<BitEnumDef, BitEnumError>(BitEnumError::TakesNoArguments),
        attr@.len() == 0 ==> resolves_to(name, decls@, r),
{
    if attr.len() > 0 {
        return Err(BitEnumError::TakesNoArguments);
    }
    BitEnumDef::new(name, decls)
}

} // verus!
