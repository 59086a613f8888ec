use chapa::bitfield::Bitfield;
use chapa::define::bitfield_impl;
use chapa::layout::Layout;
use chapa::parse::{FieldItem, StructItem, Token};

/// Splits attribute text into tokens: identifiers, integer literals, string
/// literals and single punctuation characters.
fn toks(s: &str) -> Vec<Token> {
    let cs: Vec<char> = s.chars().collect();
    let mut out = Vec::new();
    let mut i = 0;
    while i < cs.len() {
        let c = cs[i];
        if c.is_whitespace() {
            i += 1;
        } else if c.is_ascii_digit() {
            let start = i;
            while i < cs.len() && (cs[i].is_ascii_alphanumeric() || cs[i] == '_') {
                i += 1;
            }
            let text: String = cs[start..i].iter().filter(|c| **c != '_').collect();
            let v = if let Some(h) = text.strip_prefix("0x") {
                u128::from_str_radix(h, 16).unwrap()
            } else if let Some(b) = text.strip_prefix("0b") {
                u128::from_str_radix(b, 2).unwrap()
            } else {
                text.parse().unwrap()
            };
            out.push(Token::Int(v));
        } else if c.is_alphabetic() || c == '_' {
            let start = i;
            while i < cs.len() && (cs[i].is_alphanumeric() || cs[i] == '_') {
                i += 1;
            }
            out.push(Token::Ident(cs[start..i].iter().collect()));
        } else if c == '"' {
            let start = i + 1;
            i += 1;
            while cs[i] != '"' {
                i += 1;
            }
            out.push(Token::Str(cs[start..i].iter().collect()));
            i += 1;
        } else {
            out.push(Token::Punct(c));
            i += 1;
        }
    }
    out
}

/// Builds the layout of `#[bitfield(attr)]` over fields `(name, type, bits)`.
fn layout(attr: &str, fields: &[(&str, &str, &str)]) -> Layout {
    let item = StructItem {
        name: "Reg".to_string(),
        fields: fields
            .iter()
            .map(|&(n, t, b)| FieldItem { name: n.to_string(), type_path: t.to_string(), bits: Some(toks(b)) })
            .collect(),
    };
    bitfield_impl(&toks(attr), &item, &[], &[]).unwrap()
}

fn idx(b: &Bitfield, name: &str) -> usize {
    b.layout.field(name).unwrap()
}

fn get(b: &Bitfield, name: &str) -> u128 {
    b.get_uint(idx(b, name))
}

fn flag(b: &Bitfield, name: &str) -> bool {
    b.get_bool(idx(b, name))
}

fn with<'a>(b: Bitfield<'a>, name: &str, v: u128) -> Bitfield<'a> {
    let f = idx(&b, name);
    b.with_uint(f, v)
}

fn with_flag<'a>(b: Bitfield<'a>, name: &str, v: bool) -> Bitfield<'a> {
    let f = idx(&b, name);
    b.with_bool(f, v)
}

fn set(b: &mut Bitfield, name: &str, v: u128) {
    let f = idx(b, name);
    b.set_uint(f, v);
}

fn alias_reg() -> Layout {
    layout("u8, order = lsb0", &[
        ("low", "u8", "0..=3, alias = \"lo\""),
        ("high", "u8", "4..=7, alias = [\"hi\", \"upper\"]"),
    ])
}

#[test]
fn single_alias_getter() {
    let l = alias_reg();
    let r = with(Bitfield::zeroed(&l), "low", 5);
    assert_eq!(get(&r, "lo"), 5);
}

#[test]
fn single_alias_setter() {
    let l = alias_reg();
    let mut r = Bitfield::zeroed(&l);
    set(&mut r, "lo", 0xA);
    assert_eq!(get(&r, "low"), 0xA);
}

#[test]
fn single_alias_builder() {
    let l = alias_reg();
    let r = with(Bitfield::zeroed(&l), "lo", 0xC);
    assert_eq!(get(&r, "low"), 0xC);
}

#[test]
fn multi_alias() {
    let l = alias_reg();
    let r = with(Bitfield::zeroed(&l), "hi", 0xD);
    assert_eq!(get(&r, "high"), 0xD);
    assert_eq!(get(&r, "hi"), 0xD);
    assert_eq!(get(&r, "upper"), 0xD);
}

#[test]
fn multi_alias_setter() {
    let l = alias_reg();
    let mut r = Bitfield::zeroed(&l);
    set(&mut r, "upper", 0xF);
    assert_eq!(get(&r, "high"), 0xF);
    assert_eq!(get(&r, "hi"), 0xF);
}

fn nibbles16() -> Layout {
    layout("u16, order = lsb0", &[("low_nibble", "u8", "0..=3"), ("high_nibble", "u8", "12..=15")])
}

#[test]
fn new_is_zero() {
    let l = nibbles16();
    let r = Bitfield::zeroed(&l);
    assert_eq!(r.raw(), 0);
}

#[test]
fn with_low_nibble() {
    let l = nibbles16();
    let r = with(Bitfield::zeroed(&l), "low_nibble", 0xA);
    assert_eq!(r.raw(), 0x000A);
    assert_eq!(get(&r, "low_nibble"), 0xA);
    assert_eq!(get(&r, "high_nibble"), 0);
}

#[test]
fn with_high_nibble() {
    let l = nibbles16();
    let r = with(Bitfield::zeroed(&l), "high_nibble", 0xB);
    assert_eq!(r.raw(), 0xB000);
    assert_eq!(get(&r, "high_nibble"), 0xB);
    assert_eq!(get(&r, "low_nibble"), 0);
}

#[test]
fn round_trip() {
    let l = nibbles16();
    let r = with(with(Bitfield::zeroed(&l), "low_nibble", 0x5), "high_nibble", 0xC);
    assert_eq!(r.raw(), 0xC005);
    assert_eq!(get(&r, "low_nibble"), 0x5);
    assert_eq!(get(&r, "high_nibble"), 0xC);
}

#[test]
fn from_raw() {
    let l = nibbles16();
    let r = Bitfield::from_raw(&l, 0xF00F);
    assert_eq!(get(&r, "low_nibble"), 0xF);
    assert_eq!(get(&r, "high_nibble"), 0xF);
}

#[test]
fn set_mutate() {
    let l = nibbles16();
    let mut r = Bitfield::zeroed(&l);
    set(&mut r, "low_nibble", 3);
    set(&mut r, "high_nibble", 7);
    assert_eq!(get(&r, "low_nibble"), 3);
    assert_eq!(get(&r, "high_nibble"), 7);
}

#[test]
fn all_ones() {
    let l = nibbles16();
    let r = Bitfield::from_raw(&l, 0xFFFF);
    assert_eq!(get(&r, "low_nibble"), 0xF);
    assert_eq!(get(&r, "high_nibble"), 0xF);
}

fn msb_reg() -> Layout {
    layout("u32, order = msb0", &[("high", "u8", "0..=3"), ("low", "u8", "28..=31")])
}

#[test]
fn msb0_high_field() {
    let l = msb_reg();
    let r = with(Bitfield::zeroed(&l), "high", 0xA);
    assert_eq!(r.raw(), 0xA000_0000);
    assert_eq!(get(&r, "high"), 0xA);
}

#[test]
fn msb0_low_field() {
    let l = msb_reg();
    let r = with(Bitfield::zeroed(&l), "low", 0x5);
    assert_eq!(r.raw(), 0x0000_0005);
    assert_eq!(get(&r, "low"), 0x5);
}

#[test]
fn msb0_round_trip() {
    let l = msb_reg();
    let r = with(with(Bitfield::zeroed(&l), "high", 0xC), "low", 0x3);
    assert_eq!(r.raw(), 0xC000_0003);
    assert_eq!(get(&r, "high"), 0xC);
    assert_eq!(get(&r, "low"), 0x3);
}

#[test]
fn msb0_from_raw() {
    let l = msb_reg();
    let r = Bitfield::from_raw(&l, 0xF000_000F);
    assert_eq!(get(&r, "high"), 0xF);
    assert_eq!(get(&r, "low"), 0xF);
}

#[test]
fn msb0_consts() {
    let l = msb_reg();
    let high = l.field("high").unwrap();
    let low = l.field("low").unwrap();
    assert_eq!(l.field_shift(high), 28);
    assert_eq!(l.field_mask(high), 0xF000_0000);
    assert_eq!(l.field_shift(low), 0);
    assert_eq!(l.field_mask(low), 0x0000_000F);
}

fn nibble_width4() -> Layout {
    layout("u8, order = msb0, width = 4", &[("bit0", "bool", "0"), ("bit3", "bool", "3"), ("mid", "u8", "1..=2")])
}

#[test]
fn width4_bit0_is_msb() {
    let l = nibble_width4();
    let r = with_flag(Bitfield::zeroed(&l), "bit0", true);
    assert_eq!(r.raw(), 0x08);
}

#[test]
fn width4_bit3_is_lsb() {
    let l = nibble_width4();
    let r = with_flag(Bitfield::zeroed(&l), "bit3", true);
    assert_eq!(r.raw(), 0x01);
}

#[test]
fn width4_mid() {
    let l = nibble_width4();
    let r = with(Bitfield::zeroed(&l), "mid", 3);
    assert_eq!(r.raw(), 0x06);
    assert_eq!(get(&r, "mid"), 3);
}

#[test]
fn upper_bits_untouched() {
    let l = nibble_width4();
    let r = with_flag(Bitfield::from_raw(&l, 0xF0), "bit0", true);
    assert_eq!(r.raw(), 0xF8);
}

#[test]
fn test_width_consts() {
    let l = nibble_width4();
    let (b0, b3, mid) = (l.field("bit0").unwrap(), l.field("bit3").unwrap(), l.field("mid").unwrap());
    assert_eq!(l.field_shift(b0), 3);
    assert_eq!(l.field_mask(b0), 0x08);
    assert_eq!(l.field_shift(b3), 0);
    assert_eq!(l.field_mask(b3), 0x01);
    assert_eq!(l.field_shift(mid), 1);
    assert_eq!(l.field_mask(mid), 0x06);
}

fn readonly_reg() -> Layout {
    layout("u8, order = lsb0", &[("status", "u8", "0..=3, readonly"), ("_reserved", "u8", "4..=7")])
}

#[test]
fn readonly_getter_works() {
    let l = readonly_reg();
    let r = Bitfield::from_raw(&l, 0xAB);
    assert_eq!(get(&r, "status"), 0xB);
}

#[test]
fn underscore_prefix_readonly() {
    let l = readonly_reg();
    let r = Bitfield::from_raw(&l, 0xAB);
    assert_eq!(get(&r, "reserved"), 0xA);
}

#[test]
fn readonly_flags_follow_the_declaration() {
    let l = readonly_reg();
    assert!(l.is_readonly(l.field("status").unwrap()));
    assert!(l.is_readonly(l.field("reserved").unwrap()));
    assert!(l.field("_reserved").is_none());
}

#[test]
fn flag_reads_any_set_bit() {
    let l = nibble_width4();
    let r = Bitfield::from_raw(&l, 0x08);
    assert!(flag(&r, "bit0"));
    assert!(!flag(&r, "bit3"));
}
