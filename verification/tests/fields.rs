use chapa::bitfield::Bitfield;
use chapa::define::bitfield_impl;
use chapa::layout::Layout;
use chapa::parse::{FieldItem, StructItem, Token};
use chapa::model::FieldType;
use chapa::ordering::FieldSegment;
use chapa::bit_enum::{BitEnumDef, VariantDecl};

/// Splits attribute text into tokens: identifiers, integer literals, string
/// literals and single punctuation characters.
fn toks(s: &str) -> Vec<Token> {
    let cs: Vec<char> = s.chars().collect();
    let mut out = Vec::new();
    let mut i = 0;
    while i < cs.len() {
        let c = cs[i];
        if c.is_whitespace() {
            i += 1;
        } else if c.is_ascii_digit() {
            let start = i;
            while i < cs.len() && (cs[i].is_ascii_alphanumeric() || cs[i] == '_') {
                i += 1;
            }
            let text: String = cs[start..i].iter().filter(|c| **c != '_').collect();
            let v = if let Some(h) = text.strip_prefix("0x") {
                u128::from_str_radix(h, 16).unwrap()
            } else if let Some(b) = text.strip_prefix("0b") {
                u128::from_str_radix(b, 2).unwrap()
            } else {
                text.parse().unwrap()
            };
            out.push(Token::Int(v));
        } else if c.is_alphabetic() || c == '_' {
            let start = i;
            while i < cs.len() && (cs[i].is_alphanumeric() || cs[i] == '_') {
                i += 1;
            }
            out.push(Token::Ident(cs[start..i].iter().collect()));
        } else if c == '"' {
            let start = i + 1;
            i += 1;
            while cs[i] != '"' {
                i += 1;
            }
            out.push(Token::Str(cs[start..i].iter().collect()));
            i += 1;
        } else {
            out.push(Token::Punct(c));
            i += 1;
        }
    }
    out
}

/// Builds the layout of `#[bitfield(attr)]` over fields `(name, type, bits)`.
fn layout(attr: &str, fields: &[(&str, &str, &str)]) -> Layout {
    let item = StructItem {
        name: "Reg".to_string(),
        fields: fields
            .iter()
            .map(|&(n, t, b)| FieldItem { name: n.to_string(), type_path: t.to_string(), bits: Some(toks(b)) })
            .collect(),
    };
    bitfield_impl(&toks(attr), &item, &[], &[]).unwrap()
}

fn idx(b: &Bitfield, name: &str) -> usize {
    b.layout.field(name).unwrap()
}

fn get(b: &Bitfield, name: &str) -> u128 {
    b.get_uint(idx(b, name))
}

fn flag(b: &Bitfield, name: &str) -> bool {
    b.get_bool(idx(b, name))
}

fn with<'a>(b: Bitfield<'a>, name: &str, v: u128) -> Bitfield<'a> {
    let f = idx(&b, name);
    b.with_uint(f, v)
}

fn with_flag<'a>(b: Bitfield<'a>, name: &str, v: bool) -> Bitfield<'a> {
    let f = idx(&b, name);
    b.with_bool(f, v)
}

fn set(b: &mut Bitfield, name: &str, v: u128) {
    let f = idx(b, name);
    b.set_uint(f, v);
}

fn sint(b: &Bitfield, name: &str) -> i128 {
    b.get_int(idx(b, name))
}

fn with_int<'a>(b: Bitfield<'a>, name: &str, v: i128) -> Bitfield<'a> {
    let f = idx(&b, name);
    b.with_int(f, v)
}


fn imm3() -> Layout {
    layout("u8, order = lsb0", &[("imm", "i8", "0..=2"), ("rest", "u8", "3..=7")])
}

fn branch_instr() -> Layout {
    layout("u32, order = msb0", &[("cond", "u8", "0..=3"), ("opcode", "u8", "4..=7"), ("offset", "i32", "8..=31")])
}

#[test]
fn sign_extends_on_read() {
    let l = imm3();
    assert_eq!(sint(&Bitfield::from_raw(&l, 0b111), "imm"), -1);
    assert_eq!(sint(&Bitfield::from_raw(&l, 0b100), "imm"), -4);
    assert_eq!(sint(&Bitfield::from_raw(&l, 0b011), "imm"), 3);
    assert_eq!(sint(&Bitfield::from_raw(&l, 0b000), "imm"), 0);
}

#[test]
fn truncates_on_write() {
    let l = imm3();
    assert_eq!(with_int(Bitfield::zeroed(&l), "imm", -1).raw(), 0b111);
    assert_eq!(with_int(Bitfield::zeroed(&l), "imm", -4).raw(), 0b100);
    assert_eq!(with_int(Bitfield::zeroed(&l), "imm", 3).raw(), 0b011);
}

#[test]
fn roundtrip_all_values() {
    let l = imm3();
    for v in -4i8..=3 {
        assert_eq!(sint(&with_int(Bitfield::zeroed(&l), "imm", v as i128), "imm"), v as i128);
    }
}

#[test]
fn neighbors_untouched() {
    let l = imm3();
    let r = with_int(Bitfield::from_raw(&l, 0xF8), "imm", -1);
    assert_eq!(r.raw(), 0xFF);
    assert_eq!(get(&r, "rest"), 0x1F);
    let r = with_int(r, "imm", 0);
    assert_eq!(r.raw(), 0xF8);
    assert_eq!(get(&r, "rest"), 0x1F);
}

#[test]
fn getter_ignores_neighbor_bits() {
    let l = imm3();
    assert_eq!(sint(&Bitfield::from_raw(&l, 0xFB), "imm"), 3);
}

#[test]
fn msb0_sign_extension() {
    let l = branch_instr();
    let i = Bitfield::from_raw(&l, 0xEAFF_FFFE);
    assert_eq!(get(&i, "cond"), 0xE);
    assert_eq!(get(&i, "opcode"), 0xA);
    assert_eq!(sint(&i, "offset"), -2);
}

#[test]
fn msb0_write() {
    let l = branch_instr();
    let i = with_int(Bitfield::from_raw(&l, 0xEA00_0000), "offset", -2);
    assert_eq!(i.raw(), 0xEAFF_FFFE);
    assert_eq!(sint(&with_int(Bitfield::zeroed(&l), "offset", 0x7F_FFFF), "offset"), 0x7F_FFFF);
}

#[test]
fn field_type_wider_than_storage() {
    let l = layout("u8, order = lsb0", &[("v", "i32", "0..=2")]);
    assert_eq!(sint(&Bitfield::from_raw(&l, 0b101), "v"), -3);
    assert_eq!(with_int(Bitfield::zeroed(&l), "v", -3).raw(), 0b101);
    assert_eq!(sint(&with_int(Bitfield::zeroed(&l), "v", 2), "v"), 2);
}

#[test]
fn full_width_field() {
    let l = layout("u8, order = lsb0", &[("v", "i8", "0..=7")]);
    assert_eq!(sint(&Bitfield::from_raw(&l, 0xFF), "v"), -1);
    assert_eq!(with_int(Bitfield::zeroed(&l), "v", -128).raw(), 0x80);
    assert_eq!(sint(&Bitfield::from_raw(&l, 0x7F), "v"), 127);
}

#[test]
fn signed_default() {
    let l = layout("u16, order = lsb0", &[("trim", "i8", "0..=4, default = -6"), ("pad", "u8", "5..=7")]);
    assert_eq!(sint(&Bitfield::default(&l), "trim"), -6);
    assert_eq!(Bitfield::default(&l).raw(), 0b11010);
    assert_eq!(sint(&Bitfield::zeroed(&l), "trim"), 0);
}

#[test]
fn readonly_signed() {
    let l = layout("u8, order = lsb0", &[("v", "i8", "0..=3, readonly"), ("_pad", "u8", "4..=7")]);
    assert_eq!(sint(&Bitfield::from_raw(&l, 0x0F), "v"), -1);
}

#[test]
fn const_eval() {
    let l = imm3();
    let imm = sint(&Bitfield::from_raw(&l, 0b100), "imm");
    let reg = with_int(Bitfield::zeroed(&l), "imm", -1);
    assert_eq!(imm, -4);
    assert_eq!(reg.raw(), 0b111);
}

#[test]
fn test_signed_consts() {
    let l = imm3();
    let b = branch_instr();
    let imm = l.field("imm").unwrap();
    let offset = b.field("offset").unwrap();
    assert_eq!(l.field_shift(imm), 0);
    assert_eq!(l.field_mask(imm), 0b111);
    assert_eq!(b.field_shift(offset), 0);
    assert_eq!(b.field_mask(offset), 0x00FF_FFFF);
}

#[test]
fn signed_full_u128_field() {
    let l = layout("u128, order = lsb0", &[("v", "i128", "0..=127")]);
    assert_eq!(sint(&Bitfield::from_raw(&l, u128::MAX), "v"), -1);
    assert_eq!(with_int(Bitfield::zeroed(&l), "v", i128::MIN).raw(), 1u128 << 127);
    assert_eq!(sint(&with_int(Bitfield::zeroed(&l), "v", i128::MIN), "v"), i128::MIN);
}

fn child() -> Layout {
    layout("u8, order = msb0, width = 4", &[("high", "u8", "0..=1"), ("low", "u8", "2..=3")])
}

fn parent() -> Layout {
    layout("u32, order = msb0", &[("child", "Child", "0..=3"), ("other", "u8", "4..=7"), ("tail", "u8", "28..=31")])
}

#[test]
fn nested_set_get() {
    let cl = child();
    let c = with(with(Bitfield::zeroed(&cl), "high", 2), "low", 1);
    assert_eq!(c.raw(), 0b1001);
    assert_eq!(get(&c, "high"), 2);
    assert_eq!(get(&c, "low"), 1);
}

#[test]
fn parent_with_child() {
    let cl = child();
    let pl = parent();
    let c = with(with(Bitfield::zeroed(&cl), "high", 3), "low", 2);
    let p = with(Bitfield::zeroed(&pl), "child", c.raw());
    assert_eq!(p.raw(), 0xE000_0000);
    let got = p.get_nested(pl.field("child").unwrap(), &cl);
    assert_eq!(get(&got, "high"), 3);
    assert_eq!(get(&got, "low"), 2);
}

#[test]
fn parent_mixed() {
    let cl = child();
    let pl = parent();
    let c = with(with(Bitfield::zeroed(&cl), "high", 1), "low", 0);
    let p = with(with(with(Bitfield::zeroed(&pl), "child", c.raw()), "other", 0xF), "tail", 0xA);
    let got_child = p.get_nested(pl.field("child").unwrap(), &cl);
    assert_eq!(get(&got_child, "high"), 1);
    assert_eq!(get(&got_child, "low"), 0);
    assert_eq!(get(&p, "other"), 0xF);
    assert_eq!(get(&p, "tail"), 0xA);
}

#[test]
fn nested_round_trip() {
    let cl = child();
    let pl = parent();
    for i in 0u8..16 {
        let c = Bitfield::from_raw(&cl, i as u128);
        let p = with(Bitfield::zeroed(&pl), "child", c.raw());
        let c2 = p.get_nested(pl.field("child").unwrap(), &cl);
        assert_eq!(c2.raw(), i as u128);
    }
}

fn arm_mov_t3() -> Layout {
    layout("u32, order = msb0", &[("imm16", "u16", "15..=12, 5, 19..=17, 31..=24, default = 0xABCD")])
}

#[test]
fn arm_msb0_immediate_scatters_and_gathers_in_declared_order() {
    let l = arm_mov_t3();
    let f = l.field("imm16").unwrap();
    let instruction = with(Bitfield::zeroed(&l), "imm16", 0xABCD);
    assert_eq!(instruction.raw(), 0x040A_30CD);
    assert_eq!(get(&instruction, "imm16"), 0xABCD);
    assert_eq!(l.field_mask(f), 0x040F_70FF);
    assert_eq!(l.field_shift(f), 0);
    assert_eq!(
        l.field_segments(f).as_slice(),
        &[
            FieldSegment { offset: 16, value_offset: 12, width: 4 },
            FieldSegment { offset: 26, value_offset: 11, width: 1 },
            FieldSegment { offset: 12, value_offset: 8, width: 3 },
            FieldSegment { offset: 0, value_offset: 0, width: 8 },
        ]
    );
}

#[test]
fn split_setter_preserves_unselected_bits() {
    let l = arm_mov_t3();
    let mut instruction = Bitfield::from_raw(&l, u32::MAX as u128);
    let f = l.field("imm16").unwrap();
    instruction.set_uint(f, 0);
    assert_eq!(instruction.raw(), (!l.field_mask(f)) & (u32::MAX as u128));
}

#[test]
fn split_primitive_accessors_remain_const() {
    let l = arm_mov_t3();
    let instruction = with(Bitfield::zeroed(&l), "imm16", 0xABCD);
    let immediate = get(&instruction, "imm16");
    assert_eq!(instruction.raw(), 0x040A_30CD);
    assert_eq!(immediate, 0xABCD);
}

#[test]
fn split_default_uses_the_same_scatter_logic() {
    let l = arm_mov_t3();
    assert_eq!(Bitfield::default(&l).raw(), 0x040A_30CD);
    assert_eq!(get(&Bitfield::default(&l), "imm16"), 0xABCD);
}

#[test]
fn lsb0_ranges_still_concatenate_most_significant_chunk_first() {
    let l = layout("u32, order = lsb0", &[("imm16", "u16", "28..32, 20, 16..19, 0..8")]);
    let value = with(Bitfield::zeroed(&l), "imm16", 0xABCD);
    assert_eq!(value.raw(), 0xA013_00CD);
    assert_eq!(get(&value, "imm16"), 0xABCD);
}

#[test]
fn descending_endpoints_select_the_same_bits_as_ascending_endpoints() {
    let l = layout("u16, order = lsb0", &[("inclusive", "u16", "10..=0"), ("half_open", "u8", "15..11")]);
    let inclusive = with(Bitfield::zeroed(&l), "inclusive", 0x5A5);
    assert_eq!(inclusive.raw(), 0x05A5);
    assert_eq!(get(&inclusive, "inclusive"), 0x5A5);
    let half_open = with(Bitfield::zeroed(&l), "half_open", 0xA);
    assert_eq!(half_open.raw(), 0xA000);
    assert_eq!(get(&half_open, "half_open"), 0xA);
}

#[test]
fn signed_split_field_sign_extends_after_gathering() {
    let l = layout("u16, order = lsb0", &[("value", "i8", "12..=14, 0..=4")]);
    let negative = with_int(Bitfield::zeroed(&l), "value", -2);
    assert_eq!(negative.raw(), 0x701E);
    assert_eq!(sint(&negative, "value"), -2);
    let positive = with_int(Bitfield::zeroed(&l), "value", 62);
    assert_eq!(positive.raw(), 0x101E);
    assert_eq!(sint(&positive, "value"), 62);
}

#[test]
fn nested_split_field_round_trips() {
    let nl = layout("u8, order = lsb0, width = 4", &[("value", "u8", "0..=3")]);
    let pl = layout("u16, order = lsb0", &[("nibble", "Nibble", "12..=13, 0..=1")]);
    let nibble = with(Bitfield::zeroed(&nl), "value", 0b1011);
    let parent = with(Bitfield::zeroed(&pl), "nibble", nibble.raw());
    assert_eq!(parent.raw(), 0x2003);
    assert_eq!(parent.get_nested(pl.field("nibble").unwrap(), &nl).raw(), nibble.raw());
}

fn reflect_reg() -> Layout {
    layout("u16, order = lsb0", &[
        ("enabled", "bool", "0"),
        ("mode", "Mode", "1..=2"),
        ("count", "u8", "4..=7"),
        ("inner", "Inner", "8..=11"),
        ("delta", "i8", "12..=14"),
    ])
}

#[test]
fn bool_field() {
    let l = reflect_reg();
    let f = l.field("enabled").unwrap();
    assert_eq!(l.field_shift(f), 0);
    assert_eq!(l.field_width(f), 1);
    assert!(matches!(l.def.fields[f].ty, FieldType::Bool));
}

#[test]
fn uint_field() {
    let l = reflect_reg();
    let f = l.field("count").unwrap();
    assert_eq!(l.field_shift(f), 4);
    assert_eq!(l.field_width(f), 4);
    assert!(matches!(l.def.fields[f].ty, FieldType::PrimitiveUnsigned(_)));
}

#[test]
fn sint_field() {
    let l = reflect_reg();
    let f = l.field("delta").unwrap();
    assert_eq!(l.field_shift(f), 12);
    assert_eq!(l.field_width(f), 3);
    assert!(matches!(l.def.fields[f].ty, FieldType::PrimitiveSigned(_)));
}

#[test]
fn enum_field_resolves_variants() {
    let l = reflect_reg();
    let f = l.field("mode").unwrap();
    assert_eq!(l.field_shift(f), 1);
    assert_eq!(l.field_width(f), 2);
    assert!(matches!(l.def.fields[f].ty, FieldType::Nested));
    let mode = BitEnumDef::new("Mode".to_string(), &vec![
        VariantDecl { name: "Off".to_string(), discriminant: Some(0), fallback: false },
        VariantDecl { name: "On".to_string(), discriminant: Some(1), fallback: false },
        VariantDecl { name: "Reserved".to_string(), discriminant: Some(3), fallback: true },
    ]).unwrap();
    assert_eq!(mode.name, "Mode");
    let variants: Vec<(u128, &str)> = mode.variants.iter().map(|v| (v.discriminant, v.name.as_str())).collect();
    assert_eq!(variants, vec![(0u128, "Off"), (1u128, "On"), (3u128, "Reserved")]);
}

#[test]
fn nested_struct_recurses() {
    let l = reflect_reg();
    let f = l.field("inner").unwrap();
    assert_eq!(l.field_shift(f), 8);
    assert_eq!(l.field_width(f), 4);
    assert!(matches!(l.def.fields[f].ty, FieldType::Nested));
    let inner = layout("u8, order = lsb0", &[("lo", "u8", "0..=1"), ("hi", "u8", "2..=3")]);
    assert_eq!(inner.field_count(), 2);
    assert_eq!(inner.field_shift(inner.field("lo").unwrap()), 0);
    assert_eq!(inner.field_shift(inner.field("hi").unwrap()), 2);
}

#[test]
fn contiguous_field_reads_as_shift_and_mask() {
    let l = reflect_reg();
    let r = Bitfield::from_raw(&l, 0xBEEF);
    for name in ["enabled", "mode", "count", "inner", "delta"] {
        let f = l.field(name).unwrap();
        let w = l.field_width(f);
        let expected = (r.raw() >> l.field_shift(f)) & ((1u128 << w) - 1);
        assert_eq!(r.get_uint(f), expected);
    }
}

#[test]
fn overlay_groups_share_bits() {
    let l = layout("u32, order = msb0", &[
        ("opcode", "u8", "0..=5"),
        ("rs", "u8", "6..=10, overlay = \"r_form\""),
        ("ra", "u8", "11..=15, overlay = \"r_form\""),
        ("rb", "u8", "16..=20, overlay = \"r_form\""),
        ("dst", "u8", "6..=10, overlay = \"i_form\""),
        ("imm", "u32", "11..=31, overlay = \"i_form\""),
    ]);
    let r_form = with(with(with(with(Bitfield::zeroed(&l), "opcode", 0x20), "rs", 3), "ra", 4), "rb", 5);
    assert_eq!((get(&r_form, "rs"), get(&r_form, "ra"), get(&r_form, "rb")), (3, 4, 5));
    let i_form = with(with(with(Bitfield::zeroed(&l), "opcode", 0x08), "dst", 7), "imm", 0x1_2345);
    assert_eq!((get(&i_form, "dst"), get(&i_form, "imm")), (7, 0x1_2345));
    assert_eq!(get(&i_form, "rs"), get(&i_form, "dst"));
}

#[test]
fn get_as_truncates_to_the_target_type() {
    let l = layout("u16, order = lsb0", &[("word", "u16", "0..=15")]);
    let r = Bitfield::from_raw(&l, 0xABCD);
    let f = l.field("word").unwrap();
    let low: u8 = r.get_as(f);
    let all: u32 = r.get_as(f);
    assert_eq!(low, 0xCD);
    assert_eq!(all, 0xABCD);
}
