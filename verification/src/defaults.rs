//! The value of a field's `default = ...` expression: a literal, a bit enum
//! variant such as `Mode::On`, or a nested bitfield value built as
//! `Nibble::zeroed().with_high(3).with_low(1)`, resolved against the bit
//! enums and nested bitfields in scope.
use vstd::prelude::*;
use crate::bit_enum::{BitEnumDef, Variant};
use crate::bitfield::{Bitfield, twos};
use crate::layout::{Layout, stores};
use crate::model::{DefaultExpr, DefaultSpec, DefaultValue, FieldDef, FieldType, SetterCall, calls_view, field_names};
use crate::parse::{ParseError, last_segment};

verus! {

/// The index of the first bit enum named `ty`, from index `i` on.
pub open spec fn enum_index(enums: Seq<&BitEnumDef>, ty: Seq<char>, i: int) -> Option<int>
    decreases enums.len() - i,
{
    if 0 <= i < enums.len() {
        if enums[i].name@ == ty { Some(i) } else { enum_index(enums, ty, i + 1) }
    } else {
        None
    }
}

/// The index of the first nested bitfield layout whose struct is named `ty`,
/// from index `i` on.
pub open spec fn layout_index(nested: Seq<&Layout>, ty: Seq<char>, i: int) -> Option<int>
    decreases nested.len() - i,
{
    if 0 <= i < nested.len() {
        if nested[i].def.name@ == ty { Some(i) } else { layout_index(nested, ty, i + 1) }
    } else {
        None
    }
}

/// The index of the first variant named `name`, from index `i` on.
pub open spec fn variant_index(vs: Seq<Variant>, name: Seq<char>, i: int) -> Option<int>
    decreases vs.len() - i,
{
    if 0 <= i < vs.len() {
        if vs[i].name@ == name { Some(i) } else { variant_index(vs, name, i + 1) }
    } else {
        None
    }
}

/// The index of the first field that has `name` as accessor name or alias,
/// from index `i` on.
pub open spec fn field_index(fields: Seq<FieldDef>, name: Seq<char>, i: int) -> Option<int>
    decreases fields.len() - i,
{
    if 0 <= i < fields.len() {
        if field_names(fields[i]).contains(name) { Some(i) } else { field_index(fields, name, i + 1) }
    } else {
        None
    }
}

/// The field that the builder method `m` (`with_<name>`) of a nested
/// bitfield writes; readonly fields have no builder.
pub open spec fn setter_field(l: &Layout, m: Seq<char>) -> Option<int> {
    if m.len() >= 5 && m.subrange(0, 5) == seq!['w', 'i', 't', 'h', '_'] {
        match field_index(l.def.fields@, m.subrange(5, m.len() as int), 0) {
            Some(f) => if l.def.fields@[f].readonly { None } else { Some(f) },
            None => None,
        }
    } else {
        None
    }
}

/// The word a builder of a field of type `ty` writes for the literal `v`, if
/// the literal is a value of the builder's parameter type (`bool` for a
/// `bool` field, an integer for an integer field).
pub open spec fn setter_word(ty: FieldType, v: DefaultValue) -> Option<u128> {
    match (ty, v) {
        (FieldType::Bool, DefaultValue::Bool(b)) => Some(if b { u128::MAX } else { 0 }),
        (FieldType::PrimitiveUnsigned(_), DefaultValue::Unsigned(u)) => Some(u),
        (FieldType::PrimitiveSigned(_), DefaultValue::Unsigned(u)) => Some(u),
        (FieldType::PrimitiveSigned(_), DefaultValue::Signed(s)) => Some(twos(s)),
        _ => None,
    }
}

/// The storage word `old` with `w` written into the segments `segs`.
pub open spec fn stored(old: u128, segs: Seq<crate::ordering::FieldSegment>, w: u128) -> u128 {
    choose|n: u128| stores(old, n, segs, w)
}

/// The raw value reached from `raw` by the builder calls from index `i` on,
/// or `None` if one of them names no builder or takes no such argument.
pub open spec fn built_from(l: &Layout, calls: Seq<(Seq<char>, DefaultValue)>, i: int, raw: u128) -> Option<u128>
    decreases calls.len() - i,
{
    if !(0 <= i < calls.len()) {
        Some(raw)
    } else {
        match setter_field(l, calls[i].0) {
            None => None,
            Some(f) => match setter_word(l.def.fields@[f].ty, calls[i].1) {
                None => None,
                Some(w) => built_from(l, calls, i + 1, stored(raw, l.segs(f), w)),
            },
        }
    }
}

/// The value of a `default = ...` expression for field `k`, whose type is
/// `ty` as resolved from the type path `tp`.
///
/// A literal must be a value of the field type: `true`/`false` for a `bool`
/// field, any literal for an integer field (`true`/`false` count as 1/0),
/// none for a nested or enum field. `Type::Variant` names a variant of a bit
/// enum in scope and stands for its discriminant; it is no `bool`, and on a
/// nested or enum field `Type` must be the field's type. `Type::zeroed()` with
/// builder calls stands for the raw value of the nested bitfield `Type` built
/// from zero by the calls, and is a value of the field's type only.
pub open spec fn default_value_of(d: DefaultSpec, ty: FieldType, tp: Seq<char>, enums: Seq<&BitEnumDef>,
    nested: Seq<&Layout>, k: int) -> Result<DefaultValue, ParseError>
{
    let mismatch = ParseError::DefaultMismatch { field: k as usize };
    let unresolved = ParseError::UnresolvedDefault { field: k as usize };
    match d {
        DefaultSpec::Literal(v) => match (ty, v) {
            (FieldType::Bool, DefaultValue::Bool(_)) => Ok(v),
            (FieldType::Bool, _) => Err(mismatch),
            (FieldType::Nested, _) => Err(mismatch),
            (_, DefaultValue::Bool(b)) => Ok(DefaultValue::Unsigned(if b { 1 } else { 0 })),
            _ => Ok(v),
        },
        DefaultSpec::Variant(t, name) => if ty is Bool || (ty is Nested && t != last_segment(tp)) {
            Err(mismatch)
        } else {
            match enum_index(enums, t, 0) {
                None => Err(unresolved),
                Some(e) => match variant_index(enums[e].variants@, name, 0) {
                    None => Err(unresolved),
                    Some(j) => Ok(DefaultValue::Unsigned(enums[e].variants@[j].discriminant)),
                },
            }
        },
        DefaultSpec::Built(t, calls) => if !(ty is Nested) || t != last_segment(tp) {
            Err(mismatch)
        } else {
            match layout_index(nested, t, 0) {
                None => Err(unresolved),
                Some(n) => match built_from(nested[n], calls, 0, 0) {
                    None => Err(unresolved),
                    Some(raw) => Ok(DefaultValue::Unsigned(raw)),
                },
            }
        },
    }
}

/// Every layout in `nested` is well formed.
pub open spec fn layouts_wf(nested: Seq<&Layout>) -> bool {
    forall|i: int| 0 <= i < nested.len() ==> (#[trigger] nested[i]).wf()
}

fn find_enum(enums: &[&BitEnumDef], ty: &str) -> (r: Option<usize>)
    ensures
        match r {
            Some(i) => enum_index(enums@, ty@, 0) == Some(i as int) && i < enums@.len(),
            None => enum_index(enums@, ty@, 0) is None,
        },
{
    let mut i: usize = 0;
    while i < enums.len()
        invariant
            i <= enums@.len(),
            enum_index(enums@, ty@, 0) == enum_index(enums@, ty@, i as int),
        decreases enums@.len() - i,
    {
        if crate::text::str_eq(enums[i].name.as_str(), ty) {
            return Some(i);
        }
        i = i + 1;
    }
    None
}

fn find_layout(nested: &[&Layout], ty: &str) -> (r: Option<usize>)
    ensures
        match r {
            Some(i) => layout_index(nested@, ty@, 0) == Some(i as int) && i < nested@.len(),
            None => layout_index(nested@, ty@, 0) is None,
        },
{
    let mut i: usize = 0;
    while i < nested.len()
        invariant
            i <= nested@.len(),
            layout_index(nested@, ty@, 0) == layout_index(nested@, ty@, i as int),
        decreases nested@.len() - i,
    {
        if crate::text::str_eq(nested[i].def.name.as_str(), ty) {
            return Some(i);
        }
        i = i + 1;
    }
    None
}

fn find_variant(e: &BitEnumDef, name: &str) -> (r: Option<usize>)
    ensures
        match r {
            Some(i) => variant_index(e.variants@, name@, 0) == Some(i as int) && i < e.variants@.len(),
            None => variant_index(e.variants@, name@, 0) is None,
        },
{
    let mut i: usize = 0;
    while i < e.variants.len()
        invariant
            i <= e.variants@.len(),
            variant_index(e.variants@, name@, 0) == variant_index(e.variants@, name@, i as int),
        decreases e.variants@.len() - i,
    {
        if crate::text::str_eq(e.variants[i].name.as_str(), name) {
            return Some(i);
        }
        i = i + 1;
    }
    None
}

/// The first field with a name is the one before which no field has it.
proof fn lemma_field_index(fields: Seq<FieldDef>, name: Seq<char>, i: int, f: int)
    requires
        0 <= i <= f < fields.len(),
        field_names(fields[f]).contains(name),
        forall|g: int| i <= g < f ==> !#[trigger] field_names(fields[g]).contains(name),
    ensures
        field_index(fields, name, i) == Some(f),
    decreases f - i,
{
    if i < f {
        assert(!field_names(fields[i]).contains(name));
        lemma_field_index(fields, name, i + 1, f);
    }
}

/// No field has the name, so none is found.
proof fn lemma_field_index_none(fields: Seq<FieldDef>, name: Seq<char>, i: int)
    requires
        0 <= i,
        forall|g: int| 0 <= g < fields.len() ==> !#[trigger] field_names(fields[g]).contains(name),
    ensures
        field_index(fields, name, i) is None,
    decreases fields.len() - i,
{
    if i < fields.len() {
        assert(!field_names(fields[i]).contains(name));
        lemma_field_index_none(fields, name, i + 1);
    }
}

fn find_setter(l: &Layout, m: &str) -> (r: Option<usize>)
    requires
        l.wf(),
    ensures
        match r {
            Some(f) => setter_field(l, m@) == Some(f as int) && f < l.num_fields(),
            None => setter_field(l, m@) is None,
        },
{
    proof {
        reveal_strlit("with_");
        assert("with_"@ =~= seq!['w', 'i', 't', 'h', '_']);
    }
    let n = m.unicode_len();
    if n < 5 {
        return None;
    }
    let prefix = m.substring_char(0, 5);
    if !crate::text::str_eq(prefix, "with_") {
        return None;
    }
    let name = m.substring_char(5, n);
    match l.field(name) {
        Some(f) => {
            proof { lemma_field_index(l.def.fields@, name@, 0, f as int); }
            if l.def.fields[f].readonly { None } else { Some(f) }
        },
        None => {
            proof { lemma_field_index_none(l.def.fields@, name@, 0); }
            None
        },
    }
}

/// The raw value of the nested bitfield of layout `l` built from zero by
/// the builder calls `calls`, or `None` if one of them names no builder of
/// `l` or passes it a literal of another type.
pub fn build_nested(l: &Layout, calls: &Vec<SetterCall>) -> (r: Option<u128>)
    requires
        l.wf(),
    ensures
        r == built_from(l, calls_view(calls@), 0, 0),
{
    let ghost cs = calls_view(calls@);
    let mut b = Bitfield::zeroed(l);
    let mut i: usize = 0;
    while i < calls.len()
        invariant
            l.wf(),
            b.wf(),
            b.layout == l,
            i <= calls@.len(),
            cs == calls_view(calls@),
            built_from(l, cs, 0, 0) == built_from(l, cs, i as int, b.raw),
        decreases calls@.len() - i,
    {
        let c = &calls[i];
        proof { assert(cs[i as int] == (c.method@, c.value)); }
        let f = match find_setter(l, c.method.as_str()) {
            Some(f) => f,
            None => {
                return None;
            },
        };
        let ghost old_raw = b.raw;
        let ty = l.def.fields[f].ty;
        b = match (ty, c.value) {
            (FieldType::Bool, DefaultValue::Bool(v)) => b.with_bool(f, v),
            (FieldType::PrimitiveUnsigned(_), DefaultValue::Unsigned(u)) => b.with_uint(f, u),
            (FieldType::PrimitiveSigned(_), DefaultValue::Unsigned(u)) => b.with_uint(f, u),
            (FieldType::PrimitiveSigned(_), DefaultValue::Signed(s)) => b.with_int(f, s),
            _ => {
                return None;
            },
        };
        proof {
            let w = setter_word(ty, c.value)->0;
            let segs = l.segs(f as int);
            crate::laws::lemma_field_segments_wf(l, f as int);
            let n2 = stored(old_raw, segs, w);
            assert(stores(old_raw, b.raw, segs, w));
            crate::laws::lemma_stores_unique(old_raw, b.raw, n2, segs, l.width(f as int),
                l.def.effective_width as nat, w);
        }
        i = i + 1;
    }
    Some(b.raw)
}

/// Resolves the `default = ...` expression `d` of field `k`, whose type is
/// `ty` as resolved from the type path `type_path`, against the bit enums
/// `enums` and the nested bitfield layouts `nested`.
pub fn resolve_default(d: &DefaultExpr, ty: FieldType, type_path: &str, enums: &[&BitEnumDef], nested: &[&Layout],
    k: usize) -> (r: Result<DefaultValue, ParseError>)
    requires
        layouts_wf(nested@),
    ensures
        r == default_value_of(d@, ty, type_path@, enums@, nested@, k as int),
{
    let mismatch = ParseError::DefaultMismatch { field: k };
    let unresolved = ParseError::UnresolvedDefault { field: k };
    match d {
        DefaultExpr::Literal(v) => match (ty, *v) {
            (FieldType::Bool, DefaultValue::Bool(_)) => Ok(*v),
            (FieldType::Bool, _) => Err(mismatch),
            (FieldType::Nested, _) => Err(mismatch),
            (_, DefaultValue::Bool(b)) => Ok(DefaultValue::Unsigned(if b { 1 } else { 0 })),
            _ => Ok(*v),
        },
        DefaultExpr::Variant { ty: t, variant } => {
            let is_nested = match ty {
                FieldType::Nested => true,
                _ => false,
            };
            let is_bool = match ty {
                FieldType::Bool => true,
                _ => false,
            };
            if is_bool {
                return Err(mismatch);
            }
            if is_nested {
                let seg = crate::parse::last_segment_of(type_path);
                if !crate::text::str_eq(t.as_str(), seg) {
                    return Err(mismatch);
                }
            }
            match find_enum(enums, t.as_str()) {
                None => Err(unresolved),
                Some(e) => match find_variant(enums[e], variant.as_str()) {
                    None => Err(unresolved),
                    Some(j) => Ok(DefaultValue::Unsigned(enums[e].variants[j].discriminant)),
                },
            }
        },
        DefaultExpr::Built { ty: t, calls } => {
            let is_nested = match ty {
                FieldType::Nested => true,
                _ => false,
            };
            if !is_nested {
                return Err(mismatch);
            }
            let seg = crate::parse::last_segment_of(type_path);
            if !crate::text::str_eq(t.as_str(), seg) {
                return Err(mismatch);
            }
            match find_layout(nested, t.as_str()) {
                None => Err(unresolved),
                Some(n) => {
                    proof { assert(nested@[n as int].wf()); }
                    match build_nested(nested[n], calls) {
                        None => Err(unresolved),
                        Some(raw) => Ok(DefaultValue::Unsigned(raw)),
                    }
                },
            }
        },
    }
}

} // verus!
