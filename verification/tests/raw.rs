use chapa::bitfield::Bitfield;
use chapa::BitStorage;
use chapa::define::bitfield_impl;
use chapa::layout::Layout;
use chapa::parse::{FieldItem, StructItem, Token};

/// Splits attribute text into tokens: identifiers, integer literals, string
/// literals and single punctuation characters.
fn toks(s: &str) -> Vec<Token> {
    let cs: Vec<char> = s.chars().collect();
    let mut out = Vec::new();
    let mut i = 0;
    while i < cs.len() {
        let c = cs[i];
        if c.is_whitespace() {
            i += 1;
        } else if c.is_ascii_digit() {
            let start = i;
            while i < cs.len() && (cs[i].is_ascii_alphanumeric() || cs[i] == '_') {
                i += 1;
            }
            let text: String = cs[start..i].iter().filter(|c| **c != '_').collect();
            let v = if let Some(h) = text.strip_prefix("0x") {
                u128::from_str_radix(h, 16).unwrap()
            } else if let Some(b) = text.strip_prefix("0b") {
                u128::from_str_radix(b, 2).unwrap()
            } else {
                text.parse().unwrap()
            };
            out.push(Token::Int(v));
        } else if c.is_alphabetic() || c == '_' {
            let start = i;
            while i < cs.len() && (cs[i].is_alphanumeric() || cs[i] == '_') {
                i += 1;
            }
            out.push(Token::Ident(cs[start..i].iter().collect()));
        } else if c == '"' {
            let start = i + 1;
            i += 1;
            while cs[i] != '"' {
                i += 1;
            }
            out.push(Token::Str(cs[start..i].iter().collect()));
            i += 1;
        } else {
            out.push(Token::Punct(c));
            i += 1;
        }
    }
    out
}

/// Builds the layout of `#[bitfield(attr)]` over fields `(name, type, bits)`.
fn layout(attr: &str, fields: &[(&str, &str, &str)]) -> Layout {
    let item = StructItem {
        name: "Reg".to_string(),
        fields: fields
            .iter()
            .map(|&(n, t, b)| FieldItem { name: n.to_string(), type_path: t.to_string(), bits: Some(toks(b)) })
            .collect(),
    };
    bitfield_impl(&toks(attr), &item, &[], &[]).unwrap()
}

fn idx(b: &Bitfield, name: &str) -> usize {
    b.layout.field(name).unwrap()
}

fn get(b: &Bitfield, name: &str) -> u128 {
    b.get_uint(idx(b, name))
}

fn flag(b: &Bitfield, name: &str) -> bool {
    b.get_bool(idx(b, name))
}

fn with<'a>(b: Bitfield<'a>, name: &str, v: u128) -> Bitfield<'a> {
    let f = idx(&b, name);
    b.with_uint(f, v)
}

fn with_flag<'a>(b: Bitfield<'a>, name: &str, v: bool) -> Bitfield<'a> {
    let f = idx(&b, name);
    b.with_bool(f, v)
}

fn set(b: &mut Bitfield, name: &str, v: u128) {
    let f = idx(b, name);
    b.set_uint(f, v);
}


fn byte_reg() -> Layout {
    layout("u8, order = lsb0", &[("low", "u8", "0..=3"), ("high", "u8", "4..=7")])
}

fn word_reg() -> Layout {
    layout("u16, order = lsb0", &[("low", "u8", "0..=7"), ("high", "u8", "8..=15")])
}

fn msb0_reg() -> Layout {
    layout("u32, order = msb0", &[("opcode", "u8", "0..=7"), ("payload", "u32", "8..=31")])
}

#[test]
fn wrapping_add_wraps_at_storage_width() {
    let b = byte_reg();
    let w = word_reg();
    let r = Bitfield::from_raw(&b, 0xFF).wrapping_add(1);
    assert_eq!(r.raw(), 0x00);
    let r = Bitfield::from_raw(&w, 0xFFFF).wrapping_add(0x10);
    assert_eq!(r.raw(), 0x000F);
}

#[test]
fn wrapping_sub_wraps_at_storage_width() {
    let b = byte_reg();
    let w = word_reg();
    let r = Bitfield::from_raw(&b, 0x00).wrapping_sub(1);
    assert_eq!(r.raw(), 0xFF);
    let r = Bitfield::from_raw(&w, 0x0005).wrapping_sub(0x10);
    assert_eq!(r.raw(), 0xFFF5);
}

#[test]
fn carries_cross_field_boundaries() {
    let b = byte_reg();
    let r = Bitfield::from_raw(&b, 0x0F).wrapping_add(1);
    assert_eq!(get(&r, "low"), 0x0);
    assert_eq!(get(&r, "high"), 0x1);
}

#[test]
fn saturating_clamps_at_storage_bounds() {
    let b = byte_reg();
    let w = word_reg();
    assert_eq!(Bitfield::from_raw(&b, 0xF0).saturating_add(0x20).raw(), 0xFF);
    assert_eq!(Bitfield::from_raw(&b, 0x05).saturating_sub(0x10).raw(), 0x00);
    assert_eq!(Bitfield::from_raw(&w, 0x1234).saturating_add(1).raw(), 0x1235);
}

#[test]
fn checked_returns_none_on_overflow() {
    let b = byte_reg();
    let w = word_reg();
    assert!(Bitfield::from_raw(&b, 0xFF).checked_add(1).is_none());
    assert!(Bitfield::from_raw(&b, 0x00).checked_sub(1).is_none());
    assert_eq!(Bitfield::from_raw(&b, 0xFE).checked_add(1).map(|r| r.raw()), Some(Bitfield::from_raw(&b, 0xFF).raw()));
    assert_eq!(Bitfield::from_raw(&w, 0x0001).checked_sub(1).map(|r| r.raw()), Some(Bitfield::from_raw(&w, 0x0000).raw()));
}

#[test]
fn overflowing_reports_carry_and_borrow() {
    let b = byte_reg();
    let w = word_reg();
    let (r, overflowed) = Bitfield::from_raw(&b, 0xFF).overflowing_add(2);
    assert_eq!(r.raw(), 0x01);
    assert!(overflowed);
    let (r, overflowed) = Bitfield::from_raw(&b, 0x01).overflowing_sub(2);
    assert_eq!(r.raw(), 0xFF);
    assert!(overflowed);
    let (r, overflowed) = Bitfield::from_raw(&w, 0x1234).overflowing_add(1);
    assert_eq!(r.raw(), 0x1235);
    assert!(!overflowed);
}

#[test]
fn test_arith_msb0_operates_on_storage() {
    let m = msb0_reg();
    let r = Bitfield::from_raw(&m, 0xFFFF_FFFF).wrapping_add(1);
    assert_eq!(r.raw(), 0x0000_0000);
    let r = Bitfield::from_raw(&m, 0xDEAD_BEEF).wrapping_sub(0xEF);
    assert_eq!(r.raw(), 0xDEAD_BE00);
}

#[test]
fn test_arith_const_context() {
    let w = word_reg();
    let r = Bitfield::from_raw(&w, 0xFFFF).wrapping_add(1);
    assert_eq!(r.raw(), 0x0000);
    let s = Bitfield::from_raw(&w, 0xFFFF).checked_add(1);
    assert!(s.is_none());
    let t = Bitfield::from_raw(&w, 0xFFFF).overflowing_add(1);
    assert_eq!(t.0.raw(), 0x0000);
    assert!(t.1);
}

#[test]
fn saturating_add_clamps_u128_storage() {
    let l = layout("u128, order = lsb0", &[("all", "u128", "0..=127")]);
    let r = Bitfield::from_raw(&l, u128::MAX - 1).saturating_add(5);
    assert_eq!(r.raw(), u128::MAX);
    let (r, over) = Bitfield::from_raw(&l, u128::MAX).overflowing_add(1);
    assert_eq!(r.raw(), 0);
    assert!(over);
}

fn left16() -> Layout {
    layout("u16, order = lsb0", &[("value", "u16", "0..=15")])
}

fn right16() -> Layout {
    layout("u16, order = msb0", &[("value", "u16", "0..=15")])
}

#[test]
fn raw_rhs_remains_supported() {
    let l = left16();
    let value = Bitfield::from_raw(&l, 0xAAAA);
    assert_eq!(value.bitand(0x0F0F).raw(), 0x0A0A);
    assert_eq!(value.bitor(0x000Fu16 as u128).raw(), 0xAAAF);
    assert_eq!(value.bitxor(0xFFFFu16 as u128).raw(), 0x5555);
}

#[test]
fn same_type_rhs() {
    let l = left16();
    let lhs = Bitfield::from_raw(&l, 0xFF00);
    let rhs = Bitfield::from_raw(&l, 0x0FF0);
    assert_eq!(lhs.bitand(rhs.raw()).raw(), 0x0F00);
    assert_eq!(lhs.bitor(rhs.raw()).raw(), 0xFFF0);
    assert_eq!(lhs.bitxor(rhs.raw()).raw(), 0xF0F0);
}

#[test]
fn same_storage_cross_type_rhs() {
    let l = left16();
    let r = right16();
    let lhs = Bitfield::from_raw(&l, 0xFF00);
    let rhs = Bitfield::from_raw(&r, 0x0FF0);
    let result = lhs.bitand(rhs.raw());
    assert_eq!(result.raw(), 0x0F00);
    let reverse = rhs.bitor(lhs.raw());
    assert_eq!(reverse.raw(), 0xFFF0);
    assert!(reverse.layout.is_msb0());
}

#[test]
fn assignment_accepts_raw_same_and_cross_type_rhs() {
    let l = left16();
    let r = right16();
    let mut value = Bitfield::from_raw(&l, 0xFF00);
    value.bitand_assign(Bitfield::from_raw(&r, 0x0FF0).raw());
    assert_eq!(value.raw(), 0x0F00);
    value.bitor_assign(Bitfield::from_raw(&l, 0x00F0).raw());
    assert_eq!(value.raw(), 0x0FF0);
    value.bitxor_assign(0x00FFu16 as u128);
    assert_eq!(value.raw(), 0x0F0F);
}

#[test]
fn not_stays_within_storage() {
    let b = byte_reg();
    assert_eq!(Bitfield::from_raw(&b, 0x0F).not().raw(), 0xF0);
}

#[test]
fn u8_single_byte() {
    let b = byte_reg();
    let r = with(with(Bitfield::zeroed(&b), "low", 0x2), "high", 0xA);
    assert_eq!(r.to_le_bytes(), vec![0xA2]);
    assert_eq!(r.to_be_bytes(), vec![0xA2]);
    assert_eq!(Bitfield::from_le_bytes(&b, &[0xA2]).raw(), r.raw());
    assert_eq!(Bitfield::from_be_bytes(&b, &[0xA2]).raw(), r.raw());
}

#[test]
fn u16_known_values() {
    let w = word_reg();
    let r = with(with(Bitfield::zeroed(&w), "low", 0xCD), "high", 0xAB);
    assert_eq!(r.raw(), 0xABCD);
    assert_eq!(r.to_le_bytes(), vec![0xCD, 0xAB]);
    assert_eq!(r.to_be_bytes(), vec![0xAB, 0xCD]);
    assert_eq!(Bitfield::from_le_bytes(&w, &[0xCD, 0xAB]).raw(), r.raw());
    assert_eq!(Bitfield::from_be_bytes(&w, &[0xAB, 0xCD]).raw(), r.raw());
}

#[test]
fn le_be_are_reversed() {
    let w = word_reg();
    let r = Bitfield::from_raw(&w, 0x1234);
    let mut le = r.to_le_bytes();
    le.reverse();
    assert_eq!(le, r.to_be_bytes());
}

#[test]
fn round_trips() {
    let w = word_reg();
    let r = Bitfield::from_raw(&w, 0xBEEF);
    assert_eq!(Bitfield::from_le_bytes(&w, &r.to_le_bytes()).raw(), r.raw());
    assert_eq!(Bitfield::from_be_bytes(&w, &r.to_be_bytes()).raw(), r.raw());
    assert_eq!(Bitfield::from_ne_bytes(&w, &r.to_ne_bytes()).raw(), r.raw());
}

#[test]
fn ne_matches_storage() {
    let w = word_reg();
    let r = Bitfield::from_raw(&w, 0x1234);
    assert_eq!(r.to_ne_bytes(), 0x1234u16.to_ne_bytes().to_vec());
}

#[test]
fn test_bytes_msb0_operates_on_storage() {
    let m = msb0_reg();
    let r = Bitfield::from_raw(&m, 0xDEADBEEF);
    assert_eq!(r.to_be_bytes(), vec![0xDE, 0xAD, 0xBE, 0xEF]);
    assert_eq!(r.to_le_bytes(), vec![0xEF, 0xBE, 0xAD, 0xDE]);
    assert_eq!(Bitfield::from_be_bytes(&m, &[0xDE, 0xAD, 0xBE, 0xEF]).raw(), 0xDEADBEEF);
}

#[test]
fn test_bytes_const_context() {
    let w = word_reg();
    let r = Bitfield::from_le_bytes(&w, &[0xCD, 0xAB]);
    assert_eq!(r.raw(), 0xABCD);
    let bytes = r.to_be_bytes();
    assert_eq!(bytes, vec![0xAB, 0xCD]);
}

#[test]
fn u128_bytes_round_trip() {
    let l = layout("u128, order = lsb0", &[("all", "u128", "0..=127")]);
    let x: u128 = 0x0123_4567_89AB_CDEF_FEDC_BA98_7654_3210;
    let r = Bitfield::from_raw(&l, x);
    assert_eq!(r.to_le_bytes(), x.to_le_bytes().to_vec());
    assert_eq!(r.to_be_bytes(), x.to_be_bytes().to_vec());
    assert_eq!(Bitfield::from_le_bytes(&l, &x.to_le_bytes()).raw(), x);
}

fn const_reg() -> Layout {
    layout("u16, order = lsb0", &[("low", "u8", "0..=7"), ("high", "u8", "8..=15")])
}

#[test]
fn const_new() {
    let l = const_reg();
    let r = Bitfield::zeroed(&l);
    assert_eq!(r.raw(), 0);
}

#[test]
fn const_from_raw() {
    let l = const_reg();
    let r = Bitfield::from_raw(&l, 0xABCD);
    assert_eq!(r.raw(), 0xABCD);
}

#[test]
fn const_with() {
    let l = const_reg();
    let r = with(with(Bitfield::zeroed(&l), "low", 0x12), "high", 0x34);
    assert_eq!(r.raw(), 0x3412);
}

#[test]
fn const_getter() {
    let l = const_reg();
    let r = Bitfield::from_raw(&l, 0xABCD);
    let low = get(&r, "low");
    let high = get(&r, "high");
    assert_eq!(low, 0xCD);
    assert_eq!(high, 0xAB);
}

#[test]
fn storage_casts_truncate() {
    assert_eq!(<u8 as BitStorage>::from_u128(0x1FF), 0xFF);
    assert_eq!(<u16 as BitStorage>::from_u128(0x1_2345), 0x2345);
    assert_eq!(<u64 as BitStorage>::from_u128(1u128 << 64 | 7), 7);
    assert_eq!(<u128 as BitStorage>::from_u128(u128::MAX), u128::MAX);
    assert_eq!(0xABu8.to_u128(), 0xAB);
    assert_eq!(<u32 as BitStorage>::BITS, 32);
    assert_eq!(<u16 as BitStorage>::ZERO, 0);
}
