use chapa::define::bitfield_impl;
use chapa::layout::Layout;
use chapa::define::DefineError;
use chapa::bit_enum::{BitEnumDef, VariantDecl};
use chapa::model::{BitOrder, BitRange, BitfieldArgs, DefaultExpr, DefaultValue, FieldType, StorageKind};
use chapa::ordering::compute;
use chapa::parse::{determine_field_type, parse_bits_attr, parse_struct, FieldItem, ParseError, StructItem, Token};
use chapa::validate::{validate, ValidationError};

/// Splits attribute text into tokens: identifiers, integer literals, string
/// literals and single punctuation characters.
fn toks(s: &str) -> Vec<Token> {
    let cs: Vec<char> = s.chars().collect();
    let mut out = Vec::new();
    let mut i = 0;
    while i < cs.len() {
        let c = cs[i];
        if c.is_whitespace() {
            i += 1;
        } else if c.is_ascii_digit() {
            let start = i;
            while i < cs.len() && (cs[i].is_ascii_alphanumeric() || cs[i] == '_') {
                i += 1;
            }
            let text: String = cs[start..i].iter().filter(|c| **c != '_').collect();
            let v = if let Some(h) = text.strip_prefix("0x") {
                u128::from_str_radix(h, 16).unwrap()
            } else if let Some(b) = text.strip_prefix("0b") {
                u128::from_str_radix(b, 2).unwrap()
            } else {
                text.parse().unwrap()
            };
            out.push(Token::Int(v));
        } else if c.is_alphabetic() || c == '_' {
            let start = i;
            while i < cs.len() && (cs[i].is_alphanumeric() || cs[i] == '_') {
                i += 1;
            }
            out.push(Token::Ident(cs[start..i].iter().collect()));
        } else if c == '"' {
            let start = i + 1;
            i += 1;
            while cs[i] != '"' {
                i += 1;
            }
            out.push(Token::Str(cs[start..i].iter().collect()));
            i += 1;
        } else {
            out.push(Token::Punct(c));
            i += 1;
        }
    }
    out
}

/// Builds the layout of `#[bitfield(attr)]` over fields `(name, type, bits)`.
fn layout(attr: &str, fields: &[(&str, &str, &str)]) -> Layout {
    let item = StructItem {
        name: "Reg".to_string(),
        fields: fields
            .iter()
            .map(|&(n, t, b)| FieldItem { name: n.to_string(), type_path: t.to_string(), bits: Some(toks(b)) })
            .collect(),
    };
    bitfield_impl(&toks(attr), &item, &[], &[]).unwrap()
}


fn range(start: u32, end: u32) -> BitRange {
    BitRange { start, end }
}

#[test]
fn ordering_lsb0_single_bit() {
    let p = compute(BitOrder::Lsb0, &range(3, 3), 8);
    assert_eq!(p.shift, 3);
    assert_eq!(p.field_width, 1);
    assert_eq!(p.mask, 0x08);
}

#[test]
fn ordering_lsb0_range() {
    let p = compute(BitOrder::Lsb0, &range(0, 3), 8);
    assert_eq!(p.shift, 0);
    assert_eq!(p.field_width, 4);
    assert_eq!(p.mask, 0x0F);
}

#[test]
fn ordering_msb0_single_bit() {
    let p = compute(BitOrder::Msb0, &range(0, 0), 8);
    assert_eq!(p.shift, 7);
    assert_eq!(p.field_width, 1);
    assert_eq!(p.mask, 0x80);
}

#[test]
fn ordering_msb0_range() {
    let p = compute(BitOrder::Msb0, &range(0, 3), 32);
    assert_eq!(p.shift, 28);
    assert_eq!(p.field_width, 4);
    assert_eq!(p.mask, 0xF000_0000);
}

#[test]
fn msb0_with_custom_width() {
    let p = compute(BitOrder::Msb0, &range(0, 0), 4);
    assert_eq!(p.shift, 3);
    assert_eq!(p.field_width, 1);
    assert_eq!(p.mask, 0x08);
}

#[test]
fn msb0_last_bit() {
    let p = compute(BitOrder::Msb0, &range(3, 3), 4);
    assert_eq!(p.shift, 0);
    assert_eq!(p.field_width, 1);
    assert_eq!(p.mask, 0x01);
}

#[test]
fn lsb0_bit_0() {
    let p = compute(BitOrder::Lsb0, &range(0, 0), 8);
    assert_eq!(p.shift, 0);
    assert_eq!(p.field_width, 1);
    assert_eq!(p.mask, 0x01);
}

#[test]
fn msb0_full_width() {
    let p = compute(BitOrder::Msb0, &range(28, 31), 32);
    assert_eq!(p.shift, 0);
    assert_eq!(p.field_width, 4);
    assert_eq!(p.mask, 0x0000_000F);
}

#[test]
fn compute_full_storage_mask() {
    let p = compute(BitOrder::Lsb0, &range(0, 127), 128);
    assert_eq!(p.field_width, 128);
    assert_eq!(p.mask, u128::MAX);
    let p = compute(BitOrder::Lsb0, &range(200, 400), 512);
    assert_eq!(p.shift, 200);
    assert_eq!(p.field_width, 201);
    assert_eq!(p.mask, u128::MAX);
    let p = compute(BitOrder::Msb0, &range(0, 199), 400);
    assert_eq!(p.shift, 200);
    assert_eq!(p.mask, u128::MAX);
}

/// The definition of a `#[bitfield(u16, order = lsb0)]` struct.
fn definition(fields: &[(&str, &str, &str)]) -> chapa::model::BitfieldDef {
    let args = BitfieldArgs::parse(&toks("u16, order = lsb0")).expect("valid arguments");
    let item = StructItem {
        name: "Bad".to_string(),
        fields: fields
            .iter()
            .map(|&(n, t, b)| FieldItem { name: n.to_string(), type_path: t.to_string(), bits: Some(toks(b)) })
            .collect(),
    };
    parse_struct(&args, &item, &[], &[]).expect("valid bitfield syntax")
}

#[test]
fn rejects_overlapping_ranges_within_one_field() {
    let def = definition(&[("value", "u8", "0..=3, 3..=5")]);
    let errors = validate(&def).expect_err("overlapping segments must be rejected");
    assert!(errors.contains(&ValidationError::OverlappingRanges { field: 0, first: 0, second: 1 }));
}

#[test]
fn detects_overlap_with_any_segment() {
    let def = definition(&[("split", "u8", "0, 8"), ("other", "bool", "8")]);
    let errors = validate(&def).expect_err("field overlap must be rejected");
    assert!(errors.iter().any(|e| matches!(e, ValidationError::FieldOverlap { second: 1, .. })));
}

#[test]
fn different_overlay_groups_may_overlap_split_segments() {
    let def = definition(&[("split", "u8", "0, 8, overlay = \"first\""), ("other", "bool", "8, overlay = \"second\"")]);
    validate(&def).expect("different overlay groups may overlap");
}

#[test]
fn validation_reports_each_rule() {
    let def = definition(&[("a", "bool", "0..=1")]);
    assert_eq!(validate(&def), Err(vec![ValidationError::BoolWidth { field: 0 }]));
    let def = definition(&[("a", "u8", "0..=8")]);
    assert_eq!(validate(&def), Err(vec![ValidationError::TypeTooNarrow { field: 0 }]));
    let def = definition(&[("a", "u8", "16")]);
    assert_eq!(validate(&def), Err(vec![ValidationError::RangeOutOfBounds { field: 0, range: 0 }]));
    let def = definition(&[("a", "u8", "0..=3, alias = \"b\""), ("b", "u8", "4..=7")]);
    assert_eq!(validate(&def), Err(vec![ValidationError::DuplicateName { field: 1, name: 0 }]));
    let def = definition(&[("a", "u8", "0..=3"), ("b", "u8", "2..=5, overlay = \"g\"")]);
    assert!(validate(&def).unwrap_err().iter().any(|e| matches!(e, ValidationError::OverlayOverlapsBase { base: 0, overlay: 1, .. })));
    let def = definition(&[("a", "u8", "0..=3, overlay = \"g\""), ("b", "u8", "2..=5, overlay = \"g\"")]);
    assert!(validate(&def).unwrap_err().iter().any(|e| matches!(e, ValidationError::OverlayGroupOverlap { first: 0, second: 1, .. })));
}

#[test]
fn width_beyond_storage_is_rejected() {
    let args = BitfieldArgs::parse(&toks("u8, order = msb0, width = 9")).unwrap();
    assert_eq!(args.width, Some(9));
    let item = StructItem { name: "W".to_string(), fields: vec![] };
    let def = parse_struct(&args, &item, &[], &[]).unwrap();
    assert_eq!(def.effective_width, 9);
    assert_eq!(validate(&def), Err(vec![ValidationError::WidthExceedsStorage]));
}

#[test]
fn bitfield_args_parse() {
    let a = BitfieldArgs::parse(&toks("u32, order = msb0, width = 16")).unwrap();
    assert_eq!(a, BitfieldArgs { storage: StorageKind::W32, order: BitOrder::Msb0, width: Some(16) });
    let a = BitfieldArgs::parse(&toks("u8, order = lsb0,")).unwrap();
    assert_eq!(a, BitfieldArgs { storage: StorageKind::W8, order: BitOrder::Lsb0, width: None });
    assert_eq!(BitfieldArgs::parse(&toks("i32, order = lsb0")), Err(ParseError::UnsupportedStorage { at: 0 }));
    assert_eq!(BitfieldArgs::parse(&toks("u8")), Err(ParseError::MissingOrder));
    assert_eq!(BitfieldArgs::parse(&toks("u8, order = big")), Err(ParseError::BadOrder { at: 4 }));
    assert_eq!(BitfieldArgs::parse(&toks("u8, size = 3")), Err(ParseError::UnknownKey { at: 2 }));
    assert_eq!(BitfieldArgs::parse(&toks("u8 order")), Err(ParseError::ExpectedPunct { at: 1, punct: ',' }));
    assert_eq!(BitfieldArgs::parse(&toks("u8, order msb0")), Err(ParseError::ExpectedPunct { at: 3, punct: '=' }));
    assert_eq!(BitfieldArgs::parse(&toks("u8, width = x, order = lsb0")), Err(ParseError::ExpectedInt { at: 4 }));
    assert_eq!(BitfieldArgs::parse(&toks("u8, width = 4294967296, order = lsb0")), Err(ParseError::IntTooLarge { at: 4 }));
    assert_eq!(BitfieldArgs::parse(&[]), Err(ParseError::ExpectedIdent { at: 0 }));
}

#[test]
fn bits_attribute_parse() {
    let a = parse_bits_attr(&toks("4..=7, readonly, default = 0xF")).unwrap();
    assert_eq!(a.ranges, vec![range(4, 7)]);
    assert!(a.readonly);
    assert!(matches!(a.default, Some(DefaultExpr::Literal(DefaultValue::Unsigned(0xF)))));
    let a = parse_bits_attr(&toks("0..=3, alias = [\"hi\", \"upper\"], overlay = \"g\"")).unwrap();
    assert_eq!(a.aliases, vec!["hi".to_string(), "upper".to_string()]);
    assert_eq!(a.overlay, Some("g".to_string()));
    let a = parse_bits_attr(&toks("28..32, 20, 16..19, 0..8")).unwrap();
    assert_eq!(a.ranges, vec![range(28, 31), range(20, 20), range(16, 18), range(0, 7)]);
    let a = parse_bits_attr(&toks("15..11, 10..=0, default = -6")).unwrap();
    assert_eq!(a.ranges, vec![range(12, 15), range(0, 10)]);
    assert!(matches!(a.default, Some(DefaultExpr::Literal(DefaultValue::Signed(-6)))));
    let a = parse_bits_attr(&toks("8, default = true")).unwrap();
    assert!(matches!(a.default, Some(DefaultExpr::Literal(DefaultValue::Bool(true)))));
}

#[test]
fn default_expression_forms() {
    let a = parse_bits_attr(&toks("1..=2, default = Mode::Turbo")).unwrap();
    match a.default {
        Some(DefaultExpr::Variant { ty, variant }) => {
            assert_eq!(ty, "Mode");
            assert_eq!(variant, "Turbo");
        }
        _ => panic!("a variant path is expected"),
    }
    let a = parse_bits_attr(&toks("0, default = crate::modes::Mode::On")).unwrap();
    match a.default {
        Some(DefaultExpr::Variant { ty, variant }) => {
            assert_eq!(ty, "Mode");
            assert_eq!(variant, "On");
        }
        _ => panic!("a variant path is expected"),
    }
    let a = parse_bits_attr(&toks("0..=3, default = Nibble::zeroed().with_high(3).with_low(1), readonly")).unwrap();
    assert!(a.readonly);
    match a.default {
        Some(DefaultExpr::Built { ty, calls }) => {
            assert_eq!(ty, "Nibble");
            assert_eq!(calls.len(), 2);
            assert_eq!(calls[0].method, "with_high");
            assert_eq!(calls[0].value, DefaultValue::Unsigned(3));
            assert_eq!(calls[1].method, "with_low");
            assert_eq!(calls[1].value, DefaultValue::Unsigned(1));
        }
        _ => panic!("a built value is expected"),
    }
    let a = parse_bits_attr(&toks("0..=3, default = Nibble::zeroed()")).unwrap();
    assert!(matches!(a.default, Some(DefaultExpr::Built { ref calls, .. }) if calls.is_empty()));
    assert_eq!(parse_bits_attr(&toks("0, default = Nibble::new()")).err(), Some(ParseError::UnsupportedDefault { at: 4 }));
    assert_eq!(
        parse_bits_attr(&toks("0, default = Nibble::zeroed().with_high 3")).err(),
        Some(ParseError::ExpectedPunct { at: 12, punct: '(' })
    );
    assert_eq!(
        parse_bits_attr(&toks("0, default = Nibble::zeroed().with_high(x)")).err(),
        Some(ParseError::UnsupportedDefault { at: 13 })
    );
    assert_eq!(
        parse_bits_attr(&toks("0, default = Nibble::zeroed().with_high(3")).err(),
        Some(ParseError::ExpectedPunct { at: 14, punct: ')' })
    );
}

fn variant_decl(name: &str, discriminant: u128) -> VariantDecl {
    VariantDecl { name: name.to_string(), discriminant: Some(discriminant), fallback: discriminant == 0 }
}

/// The outcome of resolving a `#[bitfield(u16, order = lsb0)]` struct with
/// the given bit enums and nested bitfields in scope.
fn resolve(fields: &[(&str, &str, &str)], enums: &[&BitEnumDef], nested: &[&Layout]) -> Result<chapa::model::BitfieldDef, ParseError> {
    let args = BitfieldArgs::parse(&toks("u16, order = lsb0")).unwrap();
    let item = StructItem {
        name: "S".to_string(),
        fields: fields
            .iter()
            .map(|&(n, t, b)| FieldItem { name: n.to_string(), type_path: t.to_string(), bits: Some(toks(b)) })
            .collect(),
    };
    parse_struct(&args, &item, enums, nested)
}

fn pair_layout() -> Layout {
    let item = StructItem {
        name: "Pair".to_string(),
        fields: vec![
            FieldItem { name: "on".to_string(), type_path: "bool".to_string(), bits: Some(toks("0")) },
            FieldItem { name: "delta".to_string(), type_path: "i8".to_string(), bits: Some(toks("1..=3, alias = \"d\"")) },
            FieldItem { name: "_id".to_string(), type_path: "u8".to_string(), bits: Some(toks("4..=5")) },
        ],
    };
    bitfield_impl(&toks("u8, order = lsb0, width = 6"), &item, &[], &[]).unwrap()
}

#[test]
fn default_values_resolve() {
    let mode = BitEnumDef::new("Mode".to_string(), &vec![variant_decl("Off", 0), variant_decl("Fast", 3)]).unwrap();
    let pair = pair_layout();
    let def = resolve(&[
        ("m", "crate::Mode", "0..=1, default = Mode::Fast"),
        ("raw_mode", "u8", "2..=3, default = Mode::Fast"),
        ("p", "Pair", "4..=9, default = Pair::zeroed().with_on(true).with_d(-2)"),
        ("n", "u8", "10, default = true"),
        ("s", "i8", "11..=14, default = -3"),
        ("b", "bool", "15, default = false"),
    ], &[&mode], &[&pair]).unwrap();
    assert_eq!(def.fields[0].default, Some(DefaultValue::Unsigned(3)));
    assert_eq!(def.fields[1].default, Some(DefaultValue::Unsigned(3)));
    assert_eq!(def.fields[2].default, Some(DefaultValue::Unsigned(0b1101)));
    assert_eq!(def.fields[3].default, Some(DefaultValue::Unsigned(1)));
    assert_eq!(def.fields[4].default, Some(DefaultValue::Signed(-3)));
    assert_eq!(def.fields[5].default, Some(DefaultValue::Bool(false)));
    let def = resolve(&[("p", "Pair", "0..=5, default = Pair::zeroed()")], &[], &[&pair]).unwrap();
    assert_eq!(def.fields[0].default, Some(DefaultValue::Unsigned(0)));
}

#[test]
fn default_of_another_type_is_rejected() {
    let mode = BitEnumDef::new("Mode".to_string(), &vec![variant_decl("Off", 0), variant_decl("Fast", 3)]).unwrap();
    let pair = pair_layout();
    let mismatch = Some(ParseError::DefaultMismatch { field: 1 });
    let first = ("a", "u8", "0");
    assert_eq!(resolve(&[first, ("b", "bool", "1, default = 1")], &[], &[]).err(), mismatch);
    assert_eq!(resolve(&[first, ("b", "bool", "1, default = Mode::Fast")], &[&mode], &[]).err(), mismatch);
    assert_eq!(resolve(&[first, ("p", "Pair", "1..=6, default = 5")], &[], &[&pair]).err(), mismatch);
    assert_eq!(resolve(&[first, ("m", "Mode", "1..=2, default = Other::Fast")], &[&mode], &[]).err(), mismatch);
    assert_eq!(resolve(&[first, ("v", "u8", "1..=6, default = Pair::zeroed()")], &[], &[&pair]).err(), mismatch);
    assert_eq!(resolve(&[first, ("p", "Mode", "1..=6, default = Pair::zeroed()")], &[], &[&pair]).err(), mismatch);
}

#[test]
fn unknown_default_names_are_rejected() {
    let mode = BitEnumDef::new("Mode".to_string(), &vec![variant_decl("Off", 0), variant_decl("Fast", 3)]).unwrap();
    let pair = pair_layout();
    let unresolved = Some(ParseError::UnresolvedDefault { field: 0 });
    assert_eq!(resolve(&[("m", "Mode", "0..=1, default = Mode::Slow")], &[&mode], &[]).err(), unresolved);
    assert_eq!(resolve(&[("m", "Mode", "0..=1, default = Mode::Fast")], &[], &[]).err(), unresolved);
    assert_eq!(resolve(&[("p", "Pair", "0..=5, default = Pair::zeroed()")], &[], &[]).err(), unresolved);
    assert_eq!(resolve(&[("p", "Pair", "0..=5, default = Pair::zeroed().with_off(true)")], &[], &[&pair]).err(), unresolved);
    assert_eq!(resolve(&[("p", "Pair", "0..=5, default = Pair::zeroed().with_id(1)")], &[], &[&pair]).err(), unresolved);
    assert_eq!(resolve(&[("p", "Pair", "0..=5, default = Pair::zeroed().with_on(1)")], &[], &[&pair]).err(), unresolved);
    assert_eq!(resolve(&[("p", "Pair", "0..=5, default = Pair::zeroed().set_on(true)")], &[], &[&pair]).err(), unresolved);
}

#[test]
fn bits_attribute_errors() {
    assert_eq!(parse_bits_attr(&toks("readonly")).err(), Some(ParseError::ExpectedRange { at: 0 }));
    assert_eq!(parse_bits_attr(&toks("3..3")).err(), Some(ParseError::EmptyRange { at: 0 }));
    assert_eq!(parse_bits_attr(&toks("0, hidden")).err(), Some(ParseError::UnknownOption { at: 2 }));
    assert_eq!(parse_bits_attr(&toks("0, alias = 3")).err(), Some(ParseError::ExpectedStr { at: 4 }));
    assert_eq!(parse_bits_attr(&toks("0, default = Mode")).err(), Some(ParseError::UnsupportedDefault { at: 4 }));
    assert_eq!(parse_bits_attr(&toks("0 readonly")).err(), Some(ParseError::ExpectedPunct { at: 1, punct: ',' }));
    assert_eq!(parse_bits_attr(&toks("0..=x")).err(), Some(ParseError::ExpectedInt { at: 4 }));
    assert_eq!(parse_bits_attr(&toks("0, alias = [\"a\" \"b\"]")).err(), Some(ParseError::ExpectedPunct { at: 6, punct: ']' }));
}

#[test]
fn field_types_by_last_path_segment() {
    assert_eq!(determine_field_type("bool"), FieldType::Bool);
    assert_eq!(determine_field_type("u16"), FieldType::PrimitiveUnsigned(StorageKind::W16));
    assert_eq!(determine_field_type("core::primitive::i64"), FieldType::PrimitiveSigned(StorageKind::W64));
    assert_eq!(determine_field_type("crate::Mode"), FieldType::Nested);
    assert_eq!(determine_field_type("u7"), FieldType::Nested);
}

#[test]
fn struct_fields_resolve_names_and_types() {
    let args = BitfieldArgs::parse(&toks("u8, order = lsb0")).unwrap();
    let item = StructItem {
        name: "S".to_string(),
        fields: vec![
            FieldItem { name: "_reserved".to_string(), type_path: "u8".to_string(), bits: Some(toks("4..=7")) },
            FieldItem { name: "flag".to_string(), type_path: "bool".to_string(), bits: Some(toks("0")) },
        ],
    };
    let def = parse_struct(&args, &item, &[], &[]).unwrap();
    assert_eq!(def.effective_width, 8);
    assert_eq!(def.fields[0].accessor_name, "reserved");
    assert!(def.fields[0].readonly);
    assert_eq!(def.fields[1].accessor_name, "flag");
    assert!(!def.fields[1].readonly);
    assert_eq!(def.fields[1].ty, FieldType::Bool);
}

#[test]
fn missing_bits_attribute_is_reported() {
    let args = BitfieldArgs::parse(&toks("u8, order = lsb0")).unwrap();
    let item = StructItem {
        name: "S".to_string(),
        fields: vec![
            FieldItem { name: "a".to_string(), type_path: "u8".to_string(), bits: Some(toks("0..=3")) },
            FieldItem { name: "b".to_string(), type_path: "u8".to_string(), bits: None },
        ],
    };
    assert_eq!(parse_struct(&args, &item, &[], &[]).err().map(|e| e), Some(ParseError::MissingBits { field: 1 }));
}

#[test]
fn bitfield_impl_stages() {
    let item = StructItem {
        name: "S".to_string(),
        fields: vec![FieldItem { name: "a".to_string(), type_path: "bool".to_string(), bits: Some(toks("0..=1")) }],
    };
    match chapa::define::bitfield_impl(&toks("u8"), &item, &[], &[]) {
        Err(DefineError::Parse(ParseError::MissingOrder)) => {}
        _ => panic!("the arguments must be rejected"),
    }
    match chapa::define::bitfield_impl(&toks("u8, order = lsb0"), &item, &[], &[]) {
        Err(DefineError::Invalid(es)) => assert_eq!(es, vec![ValidationError::BoolWidth { field: 0 }]),
        _ => panic!("the layout must be rejected"),
    }
}

#[test]
fn storage_kinds() {
    assert_eq!(StorageKind::W8.bit_width(), 8);
    assert_eq!(StorageKind::W128.bit_width(), 128);
    assert_eq!(StorageKind::W32.unsigned_ident(), "u32");
    assert_eq!(StorageKind::W64.signed_ident(), "i64");
    assert_eq!(StorageKind::from_unsigned_str("u16"), Some(StorageKind::W16));
    assert_eq!(StorageKind::from_unsigned_str("i16"), None);
    assert_eq!(StorageKind::from_signed_str("i128"), Some(StorageKind::W128));
    assert_eq!(StorageKind::from_signed_str("u8"), None);
    assert_eq!(StorageKind::smallest_fitting(1), Some(StorageKind::W8));
    assert_eq!(StorageKind::smallest_fitting(9), Some(StorageKind::W16));
    assert_eq!(StorageKind::smallest_fitting(64), Some(StorageKind::W64));
    assert_eq!(StorageKind::smallest_fitting(129), None);
}

#[test]
fn bit_range_width_and_overlap() {
    assert_eq!(range(4, 7).width(), 4);
    assert!(range(0, 3).overlaps(&range(3, 5)));
    assert!(!range(0, 3).overlaps(&range(4, 5)));
}

#[test]
fn validation_errors_come_in_check_order() {
    let def = definition(&[("a", "u8", "0..=3"), ("a", "bool", "2..=3"), ("c", "u8", "10..=20")]);
    assert_eq!(
        validate(&def),
        Err(vec![
            ValidationError::RangeOutOfBounds { field: 2, range: 0 },
            ValidationError::BoolWidth { field: 1 },
            ValidationError::TypeTooNarrow { field: 2 },
            ValidationError::FieldOverlap { first: 0, second: 1, first_range: 0, second_range: 0 },
            ValidationError::DuplicateName { field: 1, name: 0 },
        ])
    );
}
