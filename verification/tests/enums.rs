use chapa::bitfield::Bitfield;
use chapa::define::bitfield_impl;
use chapa::layout::Layout;
use chapa::parse::{FieldItem, StructItem, Token};
use chapa::bit_enum::{BitEnumDef, BitEnumError, VariantDecl};
use chapa::model::StorageKind;

/// Splits attribute text into tokens: identifiers, integer literals, string
/// literals and single punctuation characters.
fn toks(s: &str) -> Vec<Token> {
    let cs: Vec<char> = s.chars().collect();
    let mut out = Vec::new();
    let mut i = 0;
    while i < cs.len() {
        let c = cs[i];
        if c.is_whitespace() {
            i += 1;
        } else if c.is_ascii_digit() {
            let start = i;
            while i < cs.len() && (cs[i].is_ascii_alphanumeric() || cs[i] == '_') {
                i += 1;
            }
            let text: String = cs[start..i].iter().filter(|c| **c != '_').collect();
            let v = if let Some(h) = text.strip_prefix("0x") {
                u128::from_str_radix(h, 16).unwrap()
            } else if let Some(b) = text.strip_prefix("0b") {
                u128::from_str_radix(b, 2).unwrap()
            } else {
                text.parse().unwrap()
            };
            out.push(Token::Int(v));
        } else if c.is_alphabetic() || c == '_' {
            let start = i;
            while i < cs.len() && (cs[i].is_alphanumeric() || cs[i] == '_') {
                i += 1;
            }
            out.push(Token::Ident(cs[start..i].iter().collect()));
        } else if c == '"' {
            let start = i + 1;
            i += 1;
            while cs[i] != '"' {
                i += 1;
            }
            out.push(Token::Str(cs[start..i].iter().collect()));
            i += 1;
        } else {
            out.push(Token::Punct(c));
            i += 1;
        }
    }
    out
}

/// Builds the layout of `#[bitfield(attr)]` over fields `(name, type, bits)`.
fn layout(attr: &str, fields: &[(&str, &str, &str)]) -> Layout {
    let item = StructItem {
        name: "Reg".to_string(),
        fields: fields
            .iter()
            .map(|&(n, t, b)| FieldItem { name: n.to_string(), type_path: t.to_string(), bits: Some(toks(b)) })
            .collect(),
    };
    bitfield_impl(&toks(attr), &item, &[], &[]).unwrap()
}

fn idx(b: &Bitfield, name: &str) -> usize {
    b.layout.field(name).unwrap()
}

fn get(b: &Bitfield, name: &str) -> u128 {
    b.get_uint(idx(b, name))
}

fn flag(b: &Bitfield, name: &str) -> bool {
    b.get_bool(idx(b, name))
}

fn with<'a>(b: Bitfield<'a>, name: &str, v: u128) -> Bitfield<'a> {
    let f = idx(&b, name);
    b.with_uint(f, v)
}

fn with_flag<'a>(b: Bitfield<'a>, name: &str, v: bool) -> Bitfield<'a> {
    let f = idx(&b, name);
    b.with_bool(f, v)
}

fn set(b: &mut Bitfield, name: &str, v: u128) {
    let f = idx(b, name);
    b.set_uint(f, v);
}


fn decl(name: &str, discriminant: Option<u128>, fallback: bool) -> VariantDecl {
    VariantDecl { name: name.to_string(), discriminant, fallback }
}

fn video_format() -> BitEnumDef {
    BitEnumDef::new("VideoFormat".to_string(), &vec![
        decl("Ntsc", Some(0), false),
        decl("Pal", Some(1), false),
        decl("Mpal", Some(2), false),
        decl("Debug", Some(3), true),
    ]).unwrap()
}

fn v(e: &BitEnumDef, name: &str) -> usize {
    e.variant(name).unwrap()
}

#[test]
fn from_raw_valid() {
    let e = video_format();
    assert_eq!(e.from_raw(0), v(&e, "Ntsc"));
    assert_eq!(e.from_raw(1), v(&e, "Pal"));
    assert_eq!(e.from_raw(2), v(&e, "Mpal"));
    assert_eq!(e.from_raw(3), v(&e, "Debug"));
}

#[test]
fn from_raw_invalid_uses_fallback() {
    let e = video_format();
    assert_eq!(e.from_raw(4), v(&e, "Debug"));
    assert_eq!(e.from_raw(255), v(&e, "Debug"));
}

#[test]
fn try_from_raw_reports_invalid() {
    let e = video_format();
    assert_eq!(e.try_from_raw(2), Ok(v(&e, "Mpal")));
    assert_eq!(e.try_from_raw(4), Err(chapa::bit_enum::InvalidBitPattern::new(4)));
    assert_eq!(e.try_from_raw(4).unwrap_err().raw, 4);
}

#[test]
fn try_from_trait() {
    let e = video_format();
    assert_eq!(e.try_from_raw(1u8 as u128), Ok(v(&e, "Pal")));
    assert!(e.try_from_raw(7u8 as u128).is_err());
}

#[test]
fn raw_roundtrip() {
    let e = video_format();
    for name in ["Ntsc", "Pal", "Mpal", "Debug"] {
        let x = v(&e, name);
        assert_eq!(e.from_raw(e.raw(x)), x);
    }
}

#[test]
fn storage_is_u8() {
    let e = video_format();
    assert_eq!(e.storage, StorageKind::W8);
}

fn auto_discrim() -> BitEnumDef {
    BitEnumDef::new("AutoDiscrim".to_string(), &vec![decl("A", None, false), decl("B", None, false), decl("C", None, true)])
        .unwrap()
}

#[test]
fn auto_discriminants() {
    let e = auto_discrim();
    assert_eq!(e.raw(v(&e, "A")), 0);
    assert_eq!(e.raw(v(&e, "B")), 1);
    assert_eq!(e.raw(v(&e, "C")), 2);
}

#[test]
fn auto_discrim_from_raw() {
    let e = auto_discrim();
    assert_eq!(e.from_raw(0), v(&e, "A"));
    assert_eq!(e.from_raw(1), v(&e, "B"));
    assert_eq!(e.from_raw(2), v(&e, "C"));
    assert_eq!(e.from_raw(99), v(&e, "C"));
}

#[test]
fn sparse_discriminants() {
    let e = BitEnumDef::new("Sparse".to_string(), &vec![
        decl("Low", Some(0), false),
        decl("Mid", Some(5), false),
        decl("High", Some(10), true),
    ]).unwrap();
    assert_eq!(e.raw(v(&e, "Low")), 0);
    assert_eq!(e.raw(v(&e, "Mid")), 5);
    assert_eq!(e.raw(v(&e, "High")), 10);
    assert_eq!(e.from_raw(5), v(&e, "Mid"));
    assert_eq!(e.from_raw(7), v(&e, "High"));
}

fn display_config() -> Layout {
    layout("u16, order = lsb0", &[("rst", "bool", "0"), ("fmt", "VideoFormat", "1..=2"), ("_reserved", "u16", "3..=15")])
}

#[test]
fn enum_in_bitfield_roundtrip() {
    let e = video_format();
    let l = display_config();
    let dc = with(with_flag(Bitfield::zeroed(&l), "rst", true), "fmt", e.raw(v(&e, "Mpal")));
    assert_eq!(flag(&dc, "rst"), true);
    assert_eq!(e.from_raw(get(&dc, "fmt")), v(&e, "Mpal"));
}

#[test]
fn enum_in_bitfield_all_variants() {
    let e = video_format();
    let l = display_config();
    for (name, expected_raw) in [("Ntsc", 0u8), ("Pal", 1), ("Mpal", 2), ("Debug", 3)] {
        let variant = v(&e, name);
        let dc = with(Bitfield::zeroed(&l), "fmt", e.raw(variant));
        assert_eq!(e.from_raw(get(&dc, "fmt")), variant);
        assert_eq!(e.raw(variant), expected_raw as u128);
    }
}

#[test]
fn bitenum_with_same_storage_is_an_operand() {
    let e = BitEnumDef::new("U16Enum".to_string(), &vec![
        decl("Zero", Some(0), false),
        decl("Flag", Some(0x0100), false),
        decl("Unknown", Some(0xFFFF), true),
    ]).unwrap();
    assert_eq!(e.storage, StorageKind::W16);
    let l = layout("u16, order = lsb0", &[("value", "u16", "0..=15")]);
    let value = Bitfield::from_raw(&l, 0xFFFF);
    assert_eq!(value.bitand(e.raw(v(&e, "Flag"))).raw(), 0x0100);
}

#[test]
fn enum_errors_are_reported() {
    assert_eq!(BitEnumDef::new("E".to_string(), &vec![]).err(), Some(BitEnumError::NoVariants));
    assert_eq!(
        BitEnumDef::new("E".to_string(), &vec![decl("A", None, false), decl("B", None, false)]).err(),
        Some(BitEnumError::MissingFallback)
    );
    assert_eq!(
        BitEnumDef::new("E".to_string(), &vec![decl("A", None, true), decl("B", None, true)]).err(),
        Some(BitEnumError::MultipleFallbacks { variant: 1 })
    );
    assert_eq!(
        BitEnumDef::new("E".to_string(), &vec![decl("A", Some(1), true), decl("B", Some(1), false)]).err(),
        Some(BitEnumError::DuplicateDiscriminant { variant: 1 })
    );
}

#[test]
fn enum_storage_fits_largest_discriminant() {
    let e = BitEnumDef::new("E".to_string(), &vec![decl("A", Some(0x1_0000), true)]).unwrap();
    assert_eq!(e.storage, StorageKind::W32);
    let e = BitEnumDef::new("E".to_string(), &vec![decl("A", None, true)]).unwrap();
    assert_eq!(e.storage, StorageKind::W8);
    let e = BitEnumDef::new("E".to_string(), &vec![decl("A", Some(1u128 << 64), true)]).unwrap();
    assert_eq!(e.storage, StorageKind::W128);
}

#[test]
fn bitenum_impl_takes_no_arguments() {
    let decls = vec![decl("A", None, true)];
    assert_eq!(
        chapa::define::bitenum_impl(&toks("u8"), "E".to_string(), &decls).err(),
        Some(BitEnumError::TakesNoArguments)
    );
    let e = chapa::define::bitenum_impl(&[], "E".to_string(), &decls).unwrap();
    assert_eq!(e.variants.len(), 1);
    assert_eq!(e.fallback, 0);
}

fn config() -> Layout {
    layout("u16, order = lsb0", &[
        ("enabled", "bool", "0"),
        ("mode", "u8", "1..=3, default = 5"),
        ("channel", "u8", "4..=7"),
        ("ready", "bool", "8, default = true"),
    ])
}

#[test]
fn zero_is_all_zero() {
    let l = config();
    let c = Bitfield::zeroed(&l);
    assert_eq!(c.raw(), 0);
    assert_eq!(get(&c, "mode"), 0);
    assert_eq!(flag(&c, "ready"), false);
}

#[test]
fn default_applies_defaults() {
    let l = config();
    let c = Bitfield::default(&l);
    assert_eq!(flag(&c, "enabled"), false);
    assert_eq!(get(&c, "mode"), 5);
    assert_eq!(get(&c, "channel"), 0);
    assert_eq!(flag(&c, "ready"), true);
    assert_eq!(c.raw(), 0x10A);
}

#[test]
fn default_differs_from_zero() {
    let l = config();
    assert_ne!(Bitfield::default(&l).raw(), Bitfield::zeroed(&l).raw());
}

#[test]
fn from_raw_ignores_defaults() {
    let l = config();
    let c = Bitfield::from_raw(&l, 0);
    assert_eq!(get(&c, "mode"), 0);
    assert_eq!(flag(&c, "ready"), false);
}

#[test]
fn zero_is_const() {
    let l = config();
    let c = Bitfield::zeroed(&l);
    assert_eq!(c.raw(), 0);
}

#[test]
fn defaults_can_be_overridden() {
    let l = config();
    let c = with(Bitfield::default(&l), "mode", 2);
    assert_eq!(get(&c, "mode"), 2);
    assert_eq!(flag(&c, "ready"), true);
}

#[test]
fn readonly_field_default() {
    let l = layout("u8, order = lsb0", &[("value", "u8", "0..=3"), ("version", "u8", "4..=7, readonly, default = 0xF")]);
    let r = Bitfield::default(&l);
    assert_eq!(get(&r, "version"), 0xF);
    assert_eq!(get(&r, "value"), 0);
    assert_eq!(r.raw(), 0xF0);
    assert_eq!(get(&Bitfield::zeroed(&l), "version"), 0);
}

#[test]
fn no_defaults_default_equals_zero() {
    let l = layout("u8, order = lsb0", &[("byte", "u8", "0..=7")]);
    assert_eq!(Bitfield::zeroed(&l).raw(), 0);
    assert_eq!(Bitfield::default(&l).raw(), 0);
    assert_eq!(Bitfield::default(&l).raw(), Bitfield::zeroed(&l).raw());
}

#[test]
fn default_truncates_to_field_width() {
    let l = layout("u8, order = lsb0", &[("three_bits", "u8", "0..=2, default = 0xFF")]);
    assert_eq!(get(&Bitfield::default(&l), "three_bits"), 0x7);
    assert_eq!(Bitfield::default(&l).raw(), 0x7);
}

#[test]
fn msb0_default_placement() {
    let l = layout("u32, order = msb0", &[("opcode", "u8", "0..=3, default = 0xA"), ("dst", "u8", "4..=7")]);
    assert_eq!(Bitfield::default(&l).raw(), 0xA000_0000);
    assert_eq!(get(&Bitfield::default(&l), "opcode"), 0xA);
}

#[test]
fn enum_field_default() {
    let mode = BitEnumDef::new("Mode".to_string(), &vec![
        decl("Off", Some(0), false),
        decl("On", Some(1), false),
        decl("Turbo", Some(2), true),
    ]).unwrap();
    let l = layout_in_scope("WithEnum", "u8, order = lsb0", &[
        ("active", "bool", "0"),
        ("mode", "Mode", "1..=2, default = Mode::Turbo"),
    ], &[&mode], &[]);
    let w = Bitfield::default(&l);
    assert_eq!(mode.from_raw(get(&w, "mode")), v(&mode, "Turbo"));
    assert_eq!(flag(&w, "active"), false);
    assert_eq!(w.raw(), 0x4);
    assert_eq!(mode.from_raw(get(&Bitfield::zeroed(&l), "mode")), v(&mode, "Off"));
}

#[test]
fn nested_field_default() {
    let nibble = named_layout("Nibble", "u8, order = lsb0, width = 4", &[("high", "u8", "0..=1"), ("low", "u8", "2..=3")]);
    let l = layout_in_scope("WithNested", "u16, order = lsb0", &[
        ("nibble", "Nibble", "0..=3, default = Nibble::zeroed().with_high(3).with_low(1)"),
        ("rest", "u8", "4..=7"),
    ], &[], &[&nibble]);
    let w = Bitfield::default(&l);
    let f = l.field("nibble").unwrap();
    assert_eq!(get(&w.get_nested(f, &nibble), "high"), 3);
    assert_eq!(get(&w.get_nested(f, &nibble), "low"), 1);
    assert_eq!(get(&w, "rest"), 0);
    assert_eq!(w.raw(), 0x7);
    assert_eq!(Bitfield::zeroed(&l).raw(), 0);
}

#[test]
fn field_default_implies_default_impl() {
    let l = layout("u16, order = lsb0", &[
        ("mode", "u8", "0..=3, default = 7"),
        ("ready", "bool", "4, default = true"),
        ("rest", "u16", "5..=15"),
    ]);
    let d = Bitfield::default(&l);
    assert_eq!(get(&d, "mode"), 7);
    assert_eq!(flag(&d, "ready"), true);
    assert_eq!(get(&d, "rest"), 0);
    assert_eq!(d.raw(), 0x17);
}

#[test]
fn bare_struct_is_copy_clone() {
    let l = layout("u8, order = lsb0", &[("low", "u8", "0..=3"), ("high", "u8", "4..=7")]);
    let a = with(Bitfield::zeroed(&l), "low", 0x3);
    let b = with(a, "high", 0xC);
    assert_eq!(a.raw(), 0x03);
    assert_eq!(b.raw(), 0xC3);
}

#[test]
fn explicit_derives_still_compile() {
    let l = layout("u8, order = lsb0", &[("value", "u8", "0..=7")]);
    assert_eq!(Bitfield::zeroed(&l).raw(), Bitfield::from_raw(&l, 0).raw());
}

fn named_layout(name: &str, attr: &str, fields: &[(&str, &str, &str)]) -> Layout {
    layout_in_scope(name, attr, fields, &[], &[])
}

/// Builds the layout of struct `name` under `#[bitfield(attr)]`, with the
/// bit enums `enums` and nested bitfields `nested` in scope for defaults.
fn layout_in_scope(
    name: &str,
    attr: &str,
    fields: &[(&str, &str, &str)],
    enums: &[&BitEnumDef],
    nested: &[&Layout],
) -> Layout {
    let item = StructItem {
        name: name.to_string(),
        fields: fields
            .iter()
            .map(|&(n, t, b)| FieldItem { name: n.to_string(), type_path: t.to_string(), bits: Some(toks(b)) })
            .collect(),
    };
    bitfield_impl(&toks(attr), &item, enums, nested).unwrap()
}

#[test]
fn debug_lsb0_struct() {
    let l = named_layout("StatusReg", "u8, order = lsb0", &[
        ("enabled", "bool", "0"),
        ("mode", "u8", "1..=3"),
        ("_reserved", "u8", "4..=7, readonly"),
    ]);
    let r = with(with_flag(Bitfield::zeroed(&l), "enabled", true), "mode", 5);
    let s = r.debug_text(&[]);
    assert_eq!(s, "StatusReg { enabled: true, mode: 5, reserved: 0 }");
}

#[test]
fn debug_enum_field() {
    let mode = BitEnumDef::new("Mode".to_string(), &vec![
        decl("Off", Some(0), false),
        decl("On", Some(1), false),
        decl("Turbo", Some(2), false),
        decl("Reserved", Some(3), true),
    ]).unwrap();
    let l = named_layout("CtrlReg", "u8, order = lsb0", &[("mode", "Mode", "0..=1"), ("active", "bool", "2")]);
    let r = with_flag(with(Bitfield::zeroed(&l), "mode", mode.raw(v(&mode, "On"))), "active", true);
    let s = r.debug_text(&[(l.field("mode").unwrap(), &mode)]);
    assert!(s.contains("On"));
    assert!(s.contains("active: true"));
}

#[test]
fn debug_with_derive_debug_in_attrs() {
    let l = named_layout("FlagsReg", "u8, order = lsb0", &[("flag_a", "bool", "0"), ("flag_b", "bool", "1")]);
    let r = with_flag(Bitfield::zeroed(&l), "flag_a", true);
    let s = r.debug_text(&[]);
    assert_eq!(s, "FlagsReg { flag_a: true, flag_b: false }");
}

#[test]
fn derive_with_only_overridden_traits_compiles() {
    let l = named_layout("OnlyOverridden", "u8, order = lsb0", &[("value", "u8", "0..=7")]);
    let v = with(Bitfield::zeroed(&l), "value", 0xAB);
    assert_eq!(v.debug_text(&[]), "OnlyOverridden { value: 171 }");
}

#[test]
fn debug_text_signed_nested_and_empty() {
    let l = named_layout("S", "u16, order = lsb0", &[("delta", "i8", "0..=3"), ("inner", "Inner", "4..=7")]);
    let r = Bitfield::from_raw(&l, 0x9E);
    assert_eq!(r.debug_text(&[]), "S { delta: -2, inner: 9 }");
    let e = named_layout("Empty", "u8, order = lsb0", &[]);
    assert_eq!(Bitfield::zeroed(&e).debug_text(&[]), "Empty");
    let mode = BitEnumDef::new("Mode".to_string(), &vec![decl("A", Some(0), false), decl("Other", Some(1), true)]).unwrap();
    let m = named_layout("M", "u8, order = lsb0", &[("mode", "Mode", "0..=1")]);
    assert_eq!(Bitfield::from_raw(&m, 3).debug_text(&[(0, &mode)]), "M { mode: Other }");
    let big = named_layout("Big", "u128, order = lsb0", &[("v", "i128", "0..=127")]);
    assert_eq!(Bitfield::from_raw(&big, 1u128 << 127).debug_text(&[]), format!("Big {{ v: {} }}", i128::MIN));
}
