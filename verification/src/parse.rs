//! The grammar of `#[bitfield(...)]` arguments and `#[bits(...)]` field
//! options, over the tokens of the attribute, and the resolution of a struct
//! declaration into a [`BitfieldDef`].
use vstd::prelude::*;
use crate::model::{BitfieldArgs, BitOrder, StorageKind, BitRange, DefaultValue, FieldType, FieldDef, BitfieldDef,
    kind_of_unsigned_name, kind_of_signed_name, strings_view, overlay_of, DefaultExpr, DefaultSpec, SetterCall,
    calls_view};
use crate::bit_enum::BitEnumDef;
use crate::layout::Layout;
use crate::defaults::{default_value_of, layouts_wf, resolve_default};

verus! {

/// One token of an attribute: an identifier, an unsigned integer literal, a
/// string literal, or a punctuation character (`..=` is three tokens).
pub enum Token {
    Ident(String),
    Int(u128),
    Str(String),
    Punct(char),
}

/// Why attribute tokens are rejected. Positions are token indices.
#[derive(Debug, Clone, Copy, PartialEq, Eq, Structural)]
pub enum ParseError {
    /// An identifier was expected.
    ExpectedIdent { at: usize },
    /// The storage type is not one of `u8`, `u16`, `u32`, `u64`, `u128`.
    UnsupportedStorage { at: usize },
    /// The given punctuation was expected.
    ExpectedPunct { at: usize, punct: char },
    /// `order` is neither `msb0` nor `lsb0`.
    BadOrder { at: usize },
    /// An integer literal was expected.
    ExpectedInt { at: usize },
    /// An integer literal does not fit `u32`.
    IntTooLarge { at: usize },
    /// An unknown `#[bitfield(...)]` key.
    UnknownKey { at: usize },
    /// `order = msb0|lsb0` is missing.
    MissingOrder,
    /// A bit index or range was expected.
    ExpectedRange { at: usize },
    /// A half-open range selects no bit.
    EmptyRange { at: usize },
    /// An unknown `#[bits(...)]` option.
    UnknownOption { at: usize },
    /// A string literal was expected.
    ExpectedStr { at: usize },
    /// A `default = ...` value that is neither a literal, nor `Type::Variant`,
    /// nor `Type::zeroed()` followed by builder calls.
    UnsupportedDefault { at: usize },
    /// A field has no `#[bits(...)]` attribute.
    MissingBits { field: usize },
    /// A field's `default = ...` value is not a value of the field's type.
    DefaultMismatch { field: usize },
    /// A field's `default = ...` names a bit enum variant, a nested bitfield
    /// or a builder method that is not in scope.
    UnresolvedDefault { field: usize },
}

/// The characters of an identifier token.
pub open spec fn ident_is(t: Token, s: Seq<char>) -> bool {
    t matches Token::Ident(x) && x@ == s
}

pub open spec fn punct_is(t: Token, c: char) -> bool {
    t matches Token::Punct(x) && x == c
}

pub open spec fn order_of(t: Token) -> Option<BitOrder> {
    if ident_is(t, seq!['m', 's', 'b', '0']) {
        Some(BitOrder::Msb0)
    } else if ident_is(t, seq!['l', 's', 'b', '0']) {
        Some(BitOrder::Lsb0)
    } else {
        None
    }
}

/// The `#[bitfield(...)]` entries from token `i` on, given the `order` and
/// `width` seen so far.
pub open spec fn args_entries(ts: Seq<Token>, i: int, order: Option<BitOrder>, width: Option<u32>)
    -> Result<(BitOrder, Option<u32>), ParseError>
    decreases ts.len() - i,
{
    if i >= ts.len() {
        match order {
            Some(o) => Ok((o, width)),
            None => Err(ParseError::MissingOrder),
        }
    } else if !punct_is(ts[i], ',') {
        Err(ParseError::ExpectedPunct { at: i as usize, punct: ',' })
    } else if i + 1 >= ts.len() {
        args_entries(ts, i + 1, order, width)
    } else if !(ts[i + 1] is Ident) {
        Err(ParseError::ExpectedIdent { at: (i + 1) as usize })
    } else if i + 2 >= ts.len() || !punct_is(ts[i + 2], '=') {
        Err(ParseError::ExpectedPunct { at: (i + 2) as usize, punct: '=' })
    } else if ident_is(ts[i + 1], seq!['o', 'r', 'd', 'e', 'r']) {
        if i + 3 >= ts.len() || !(ts[i + 3] is Ident) {
            Err(ParseError::ExpectedIdent { at: (i + 3) as usize })
        } else {
            match order_of(ts[i + 3]) {
                Some(o) => args_entries(ts, i + 4, Some(o), width),
                None => Err(ParseError::BadOrder { at: (i + 3) as usize }),
            }
        }
    } else if ident_is(ts[i + 1], seq!['w', 'i', 'd', 't', 'h']) {
        if i + 3 >= ts.len() || !(ts[i + 3] is Int) {
            Err(ParseError::ExpectedInt { at: (i + 3) as usize })
        } else if ts[i + 3]->Int_0 > u32::MAX {
            Err(ParseError::IntTooLarge { at: (i + 3) as usize })
        } else {
            args_entries(ts, i + 4, order, Some(ts[i + 3]->Int_0 as u32))
        }
    } else {
        Err(ParseError::UnknownKey { at: (i + 1) as usize })
    }
}

/// The meaning of the tokens of `#[bitfield(u32, order = msb0, width = 16)]`.
pub open spec fn args_spec(ts: Seq<Token>) -> Result<BitfieldArgs, ParseError> {
    if ts.len() == 0 || !(ts[0] is Ident) {
        Err(ParseError::ExpectedIdent { at: 0 })
    } else {
        match kind_of_unsigned_name(ts[0]->Ident_0@) {
            None => Err(ParseError::UnsupportedStorage { at: 0 }),
            Some(k) => match args_entries(ts, 1, None, None) {
                Ok((o, w)) => Ok(BitfieldArgs { storage: k, order: o, width: w }),
                Err(e) => Err(e),
            },
        }
    }
}

fn ident_eq(t: &Token, s: &str) -> (r: bool)
    ensures
        r == ident_is(*t, s@),
{
    match t {
        Token::Ident(x) => crate::text::str_eq(x.as_str(), s),
        _ => false,
    }
}

fn punct_eq(ts: &[Token], i: usize, c: char) -> (r: bool)
    ensures
        r == (i < ts@.len() && punct_is(ts@[i as int], c)),
{
    if i < ts.len() {
        match &ts[i] {
            Token::Punct(x) => *x == c,
            _ => false,
        }
    } else {
        false
    }
}

impl BitfieldArgs {
    /// Parses the tokens of `#[bitfield(u32, order = msb0, width = 16)]`: a
    /// storage type, then `order = msb0|lsb0` (required) and `width = N`
    /// entries separated by commas, with an optional trailing comma.
    pub fn parse(ts: &[Token]) -> (r: Result<BitfieldArgs, ParseError>)
        requires
            ts@.len() < usize::MAX - 4,
        ensures
            r == args_spec(ts@),
    {
        let n = ts.len();
        if n == 0 {
            return Err(ParseError::ExpectedIdent { at: 0 });
        }
        let storage = match &ts[0] {
            Token::Ident(s) => match StorageKind::from_unsigned_str(s.as_str()) {
                Some(k) => k,
                None => return Err(ParseError::UnsupportedStorage { at: 0 }),
            },
            _ => return Err(ParseError::ExpectedIdent { at: 0 }),
        };
        let mut order: Option<BitOrder> = None;
        let mut width: Option<u32> = None;
        let mut i: usize = 1;
        while i < n
            invariant
                n == ts@.len(),
                n < usize::MAX - 4,
                1 <= i,
                args_spec(ts@) == match args_entries(ts@, i as int, order, width) {
                    Ok((o, w)) => Ok(BitfieldArgs { storage, order: o, width: w }),
                    Err(e) => Err(e),
                },
            decreases n + 1 - i,
        {
            if !punct_eq(ts, i, ',') {
                return Err(ParseError::ExpectedPunct { at: i, punct: ',' });
            }
            proof {
                reveal_strlit("order");
                reveal_strlit("width");
                reveal_strlit("msb0");
                reveal_strlit("lsb0");
                assert("order"@ =~= seq!['o', 'r', 'd', 'e', 'r']);
                assert("width"@ =~= seq!['w', 'i', 'd', 't', 'h']);
                assert("msb0"@ =~= seq!['m', 's', 'b', '0']);
                assert("lsb0"@ =~= seq!['l', 's', 'b', '0']);
            }
            if i + 1 >= n {
                i = i + 1;
            } else {
                let key = &ts[i + 1];
                if !matches!(key, Token::Ident(_)) {
                    return Err(ParseError::ExpectedIdent { at: i + 1 });
                }
                if !punct_eq(ts, i + 2, '=') {
                    return Err(ParseError::ExpectedPunct { at: i + 2, punct: '=' });
                }
                if ident_eq(key, "order") {
                    if i + 3 >= n {
                        return Err(ParseError::ExpectedIdent { at: i + 3 });
                    }
                    let v = &ts[i + 3];
                    if !matches!(v, Token::Ident(_)) {
                        return Err(ParseError::ExpectedIdent { at: i + 3 });
                    }
                    if ident_eq(v, "msb0") {
                        order = Some(BitOrder::Msb0);
                    } else if ident_eq(v, "lsb0") {
                        order = Some(BitOrder::Lsb0);
                    } else {
                        return Err(ParseError::BadOrder { at: i + 3 });
                    }
                } else if ident_eq(key, "width") {
                    if i + 3 >= n {
                        return Err(ParseError::ExpectedInt { at: i + 3 });
                    }
                    match &ts[i + 3] {
                        Token::Int(v) => {
                            if *v > u32::MAX as u128 {
                                return Err(ParseError::IntTooLarge { at: i + 3 });
                            }
                            width = Some(*v as u32);
                        },
                        _ => return Err(ParseError::ExpectedInt { at: i + 3 }),
                    }
                } else {
                    return Err(ParseError::UnknownKey { at: i + 1 });
                }
                i = i + 4;
            }
        }
        match order {
            Some(o) => Ok(BitfieldArgs { storage, order: o, width }),
            None => Err(ParseError::MissingOrder),
        }
    }
}

} // verus!

verus! {

/// Content parsed from `#[bits(...)]` on a field.
pub struct BitsAttr {
    /// The selected ranges, most significant chunk first.
    pub ranges: Vec<BitRange>,
    /// `readonly` was given.
    pub readonly: bool,
    /// The `alias = ...` names, in order.
    pub aliases: Vec<String>,
    /// The last `overlay = "..."` group.
    pub overlay: Option<String>,
    /// The last `default = ...` expression.
    pub default: Option<DefaultExpr>,
}

/// The meaning of `#[bits(...)]` tokens: ranges, readonly flag, aliases,
/// overlay group and default value.
pub type AttrView = (Seq<BitRange>, bool, Seq<Seq<char>>, Option<Seq<char>>, Option<DefaultSpec>);

impl BitsAttr {
    pub open spec fn view(&self) -> AttrView {
        (self.ranges@, self.readonly, strings_view(self.aliases@), match self.overlay {
            Some(g) => Some(g@),
            None => None,
        }, match self.default {
            Some(d) => Some(d@),
            None => None,
        })
    }
}

/// The inclusive range written `a..=b` (endpoints in either order).
pub open spec fn inclusive_range(a: u32, b: u32) -> BitRange {
    if a <= b { BitRange { start: a, end: b } } else { BitRange { start: b, end: a } }
}

/// The inclusive range written `a..b`: the endpoint `b` is excluded, and
/// `a..b` with `a > b` selects `b + 1` through `a`.
pub open spec fn half_open_range(a: u32, b: u32) -> BitRange {
    if a < b { BitRange { start: a, end: (b - 1) as u32 } } else { BitRange { start: (b + 1) as u32, end: a } }
}

/// The range item starting at token `i`, if it is one, with the index after it.
pub open spec fn range_item(ts: Seq<Token>, i: int) -> Result<(int, BitRange), ParseError> {
    let a = ts[i]->Int_0;
    if a > u32::MAX {
        Err(ParseError::IntTooLarge { at: i as usize })
    } else if !(i + 1 < ts.len() && punct_is(ts[i + 1], '.')) {
        Ok((i + 1, BitRange { start: a as u32, end: a as u32 }))
    } else if !(i + 2 < ts.len() && punct_is(ts[i + 2], '.')) {
        Err(ParseError::ExpectedPunct { at: (i + 2) as usize, punct: '.' })
    } else {
        let incl = i + 3 < ts.len() && punct_is(ts[i + 3], '=');
        let k = if incl { i + 4 } else { i + 3 };
        if !(k < ts.len() && ts[k] is Int) {
            Err(ParseError::ExpectedInt { at: k as usize })
        } else if ts[k]->Int_0 > u32::MAX {
            Err(ParseError::IntTooLarge { at: k as usize })
        } else {
            let b = ts[k]->Int_0 as u32;
            if incl {
                Ok((k + 1, inclusive_range(a as u32, b)))
            } else if a as u32 == b {
                Err(ParseError::EmptyRange { at: i as usize })
            } else {
                Ok((k + 1, half_open_range(a as u32, b)))
            }
        }
    }
}

/// The strings of an alias list from token `j` on, up to its closing `]`.
pub open spec fn alias_list(ts: Seq<Token>, j: int, names: Seq<Seq<char>>) -> Result<(int, Seq<Seq<char>>), ParseError>
    decreases ts.len() - j,
{
    if j < ts.len() && punct_is(ts[j], ']') {
        Ok((j + 1, names))
    } else if !(j < ts.len() && ts[j] is Str) {
        Err(ParseError::ExpectedStr { at: j as usize })
    } else {
        let names2 = names.push(ts[j]->Str_0@);
        if j + 1 < ts.len() && punct_is(ts[j + 1], ',') {
            alias_list(ts, j + 2, names2)
        } else if j + 1 < ts.len() && punct_is(ts[j + 1], ']') {
            Ok((j + 2, names2))
        } else {
            Err(ParseError::ExpectedPunct { at: (j + 1) as usize, punct: ']' })
        }
    }
}

/// The literal at token `j` (an integer, `true`, `false`, or `-` before an
/// integer), with the index after it.
pub open spec fn literal_item(ts: Seq<Token>, j: int) -> Result<(int, DefaultValue), ParseError> {
    if j < ts.len() && ts[j] is Int {
        Ok((j + 1, DefaultValue::Unsigned(ts[j]->Int_0)))
    } else if j < ts.len() && ident_is(ts[j], seq!['t', 'r', 'u', 'e']) {
        Ok((j + 1, DefaultValue::Bool(true)))
    } else if j < ts.len() && ident_is(ts[j], seq!['f', 'a', 'l', 's', 'e']) {
        Ok((j + 1, DefaultValue::Bool(false)))
    } else if j + 1 < ts.len() && punct_is(ts[j], '-') && ts[j + 1] is Int
        && ts[j + 1]->Int_0 <= 0x8000_0000_0000_0000_0000_0000_0000_0000 {
        Ok((j + 2, DefaultValue::Signed((-(ts[j + 1]->Int_0 as int)) as i128)))
    } else {
        Err(ParseError::UnsupportedDefault { at: j as usize })
    }
}

/// The path `A::B::...` starting at identifier token `j`, its segments
/// appended to `segs`, with the index after it.
pub open spec fn path_item(ts: Seq<Token>, j: int, segs: Seq<Seq<char>>) -> (int, Seq<Seq<char>>)
    decreases ts.len() - j,
{
    if !(0 <= j < ts.len() && ts[j] is Ident) {
        (j, segs)
    } else if j + 3 < ts.len() && punct_is(ts[j + 1], ':') && punct_is(ts[j + 2], ':') && ts[j + 3] is Ident {
        path_item(ts, j + 3, segs.push(ts[j]->Ident_0@))
    } else {
        (j + 1, segs.push(ts[j]->Ident_0@))
    }
}

/// The `.method(literal)` calls from token `j` on, appended to `calls`.
pub open spec fn calls_item(ts: Seq<Token>, j: int, calls: Seq<(Seq<char>, DefaultValue)>)
    -> Result<(int, Seq<(Seq<char>, DefaultValue)>), ParseError>
    decreases ts.len() - j,
{
    if !(0 <= j < ts.len() && punct_is(ts[j], '.')) {
        Ok((j, calls))
    } else if !(j + 1 < ts.len() && ts[j + 1] is Ident) {
        Err(ParseError::UnsupportedDefault { at: (j + 1) as usize })
    } else if !(j + 2 < ts.len() && punct_is(ts[j + 2], '(')) {
        Err(ParseError::ExpectedPunct { at: (j + 2) as usize, punct: '(' })
    } else {
        match literal_item(ts, j + 3) {
            Err(e) => Err(e),
            Ok((k, v)) => if !(j < k < ts.len() && punct_is(ts[k], ')')) {
                Err(ParseError::ExpectedPunct { at: k as usize, punct: ')' })
            } else {
                calls_item(ts, k + 1, calls.push((ts[j + 1]->Ident_0@, v)))
            },
        }
    }
}

/// The `default = ...` expression at token `j`, with the index after it: a
/// literal, `Type::Variant`, or `Type::zeroed()` followed by
/// `.with_<field>(literal)` calls.
pub open spec fn default_item(ts: Seq<Token>, j: int) -> Result<(int, DefaultSpec), ParseError> {
    match literal_item(ts, j) {
        Ok((k, v)) => Ok((k, DefaultSpec::Literal(v))),
        Err(e) => if !(0 <= j < ts.len() && ts[j] is Ident) {
            Err(e)
        } else {
            let (k, segs) = path_item(ts, j, Seq::empty());
            if segs.len() < 2 {
                Err(ParseError::UnsupportedDefault { at: j as usize })
            } else if k < ts.len() && punct_is(ts[k], '(') {
                if segs.last() != seq!['z', 'e', 'r', 'o', 'e', 'd'] || !(k + 1 < ts.len() && punct_is(ts[k + 1], ')')) {
                    Err(ParseError::UnsupportedDefault { at: j as usize })
                } else {
                    match calls_item(ts, k + 2, Seq::empty()) {
                        Ok((m, calls)) => Ok((m, DefaultSpec::Built(segs[segs.len() - 2], calls))),
                        Err(e2) => Err(e2),
                    }
                }
            } else {
                Ok((k, DefaultSpec::Variant(segs[segs.len() - 2], segs.last())))
            }
        },
    }
}

/// The item starting at token `i` applied to `acc`, with the index after it.
pub open spec fn bits_item(ts: Seq<Token>, i: int, acc: AttrView) -> Result<(int, AttrView), ParseError> {
    let t = ts[i];
    if t is Int {
        match range_item(ts, i) {
            Ok((j, r)) => Ok((j, (acc.0.push(r), acc.1, acc.2, acc.3, acc.4))),
            Err(e) => Err(e),
        }
    } else if !(t is Ident) {
        Err(ParseError::ExpectedIdent { at: i as usize })
    } else if ident_is(t, seq!['r', 'e', 'a', 'd', 'o', 'n', 'l', 'y']) {
        Ok((i + 1, (acc.0, true, acc.2, acc.3, acc.4)))
    } else if !(ident_is(t, seq!['a', 'l', 'i', 'a', 's']) || ident_is(t, seq!['o', 'v', 'e', 'r', 'l', 'a', 'y'])
        || ident_is(t, seq!['d', 'e', 'f', 'a', 'u', 'l', 't'])) {
        Err(ParseError::UnknownOption { at: i as usize })
    } else if !(i + 1 < ts.len() && punct_is(ts[i + 1], '=')) {
        Err(ParseError::ExpectedPunct { at: (i + 1) as usize, punct: '=' })
    } else if ident_is(t, seq!['a', 'l', 'i', 'a', 's']) {
        if i + 2 < ts.len() && ts[i + 2] is Str {
            Ok((i + 3, (acc.0, acc.1, acc.2.push(ts[i + 2]->Str_0@), acc.3, acc.4)))
        } else if i + 2 < ts.len() && punct_is(ts[i + 2], '[') {
            match alias_list(ts, i + 3, acc.2) {
                Ok((j, names)) => Ok((j, (acc.0, acc.1, names, acc.3, acc.4))),
                Err(e) => Err(e),
            }
        } else {
            Err(ParseError::ExpectedStr { at: (i + 2) as usize })
        }
    } else if ident_is(t, seq!['o', 'v', 'e', 'r', 'l', 'a', 'y']) {
        if i + 2 < ts.len() && ts[i + 2] is Str {
            Ok((i + 3, (acc.0, acc.1, acc.2, Some(ts[i + 2]->Str_0@), acc.4)))
        } else {
            Err(ParseError::ExpectedStr { at: (i + 2) as usize })
        }
    } else {
        match default_item(ts, i + 2) {
            Ok((j, d)) => Ok((j, (acc.0, acc.1, acc.2, acc.3, Some(d)))),
            Err(e) => Err(e),
        }
    }
}

/// The comma-separated items from token `i` on, applied to `acc`.
pub open spec fn bits_from(ts: Seq<Token>, i: int, acc: AttrView) -> Result<AttrView, ParseError>
    decreases ts.len() - i,
{
    if i >= ts.len() {
        Ok(acc)
    } else {
        match bits_item(ts, i, acc) {
            Err(e) => Err(e),
            Ok((j, acc2)) => if j <= i {
                Ok(acc2)
            } else if j >= ts.len() {
                Ok(acc2)
            } else if !punct_is(ts[j], ',') {
                Err(ParseError::ExpectedPunct { at: j as usize, punct: ',' })
            } else {
                bits_from(ts, j + 1, acc2)
            },
        }
    }
}

/// The meaning of the tokens of `#[bits(...)]`: a bit index or range first,
/// then ranges and options separated by commas, with an optional trailing
/// comma.
pub open spec fn bits_spec(ts: Seq<Token>) -> Result<AttrView, ParseError> {
    if ts.len() == 0 || !(ts[0] is Int) {
        Err(ParseError::ExpectedRange { at: 0 })
    } else {
        bits_from(ts, 0, (Seq::empty(), false, Seq::empty(), None, None))
    }
}

proof fn lemma_item_advances(ts: Seq<Token>, i: int, acc: AttrView)
    requires
        0 <= i < ts.len(),
    ensures
        bits_item(ts, i, acc) matches Ok((j, _)) ==> i < j <= ts.len() + 1,
{
    if ts[i] is Ident && ident_is(ts[i], seq!['a', 'l', 'i', 'a', 's']) && i + 2 < ts.len() && punct_is(ts[i + 2], '[') {
        lemma_alias_list_advances(ts, i + 3, acc.2);
    }
    lemma_default_advances(ts, i + 2);
}

proof fn lemma_path_advances(ts: Seq<Token>, j: int, segs: Seq<Seq<char>>)
    requires
        0 <= j < ts.len(),
        ts[j] is Ident,
    ensures
        j < path_item(ts, j, segs).0 <= ts.len(),
    decreases ts.len() - j,
{
    if j + 3 < ts.len() && punct_is(ts[j + 1], ':') && punct_is(ts[j + 2], ':') && ts[j + 3] is Ident {
        lemma_path_advances(ts, j + 3, segs.push(ts[j]->Ident_0@));
    }
}

proof fn lemma_calls_advances(ts: Seq<Token>, j: int, calls: Seq<(Seq<char>, DefaultValue)>)
    requires
        0 <= j <= ts.len(),
    ensures
        calls_item(ts, j, calls) matches Ok((k, _)) ==> j <= k <= ts.len(),
    decreases ts.len() - j,
{
    if 0 <= j < ts.len() && punct_is(ts[j], '.') && j + 2 < ts.len() && ts[j + 1] is Ident && punct_is(ts[j + 2], '(') {
        match literal_item(ts, j + 3) {
            Ok((k, v)) => {
                if j < k < ts.len() && punct_is(ts[k], ')') {
                    lemma_calls_advances(ts, k + 1, calls.push((ts[j + 1]->Ident_0@, v)));
                }
            },
            Err(_) => {},
        }
    }
}

proof fn lemma_default_advances(ts: Seq<Token>, j: int)
    requires
        0 <= j,
    ensures
        default_item(ts, j) matches Ok((k, _)) ==> j < k <= ts.len(),
{
    if literal_item(ts, j) is Err && 0 <= j < ts.len() && ts[j] is Ident {
        lemma_path_advances(ts, j, Seq::empty());
        let (k, segs) = path_item(ts, j, Seq::empty());
        if k + 1 < ts.len() {
            lemma_calls_advances(ts, k + 2, Seq::empty());
        }
    }
}

proof fn lemma_alias_list_advances(ts: Seq<Token>, j: int, names: Seq<Seq<char>>)
    ensures
        alias_list(ts, j, names) matches Ok((k, _)) ==> j < k <= ts.len() + 1,
    decreases ts.len() - j,
{
    if !(j < ts.len() && punct_is(ts[j], ']')) && j < ts.len() && ts[j] is Str
        && j + 1 < ts.len() && punct_is(ts[j + 1], ',') {
        lemma_alias_list_advances(ts, j + 2, names.push(ts[j]->Str_0@));
    }
}

} // verus!

verus! {

fn int_at(ts: &[Token], i: usize) -> (r: Option<u128>)
    ensures
        r matches Some(v) ==> i < ts@.len() && ts@[i as int] == Token::Int(v),
        r is None ==> !(i < ts@.len() && ts@[i as int] is Int),
{
    if i < ts.len() {
        match &ts[i] {
            Token::Int(v) => Some(*v),
            _ => None,
        }
    } else {
        None
    }
}

fn parse_range(ts: &[Token], i: usize) -> (r: Result<(usize, BitRange), ParseError>)
    requires
        i < ts@.len(),
        ts@.len() < usize::MAX - 8,
        ts@[i as int] is Int,
    ensures
        match r {
            Ok((j, rg)) => range_item(ts@, i as int) == Ok::<(int, BitRange), ParseError>((j as int, rg)),
            Err(e) => range_item(ts@, i as int) == Err::<(int, BitRange), ParseError>(e),
        },
{
    let a = match int_at(ts, i) {
        Some(v) => v,
        None => 0,
    };
    if a > u32::MAX as u128 {
        return Err(ParseError::IntTooLarge { at: i });
    }
    let a = a as u32;
    if !punct_eq(ts, i + 1, '.') {
        return Ok((i + 1, BitRange { start: a, end: a }));
    }
    if !punct_eq(ts, i + 2, '.') {
        return Err(ParseError::ExpectedPunct { at: i + 2, punct: '.' });
    }
    let incl = punct_eq(ts, i + 3, '=');
    let k = if incl { i + 4 } else { i + 3 };
    let b = match int_at(ts, k) {
        Some(v) => v,
        None => return Err(ParseError::ExpectedInt { at: k }),
    };
    if b > u32::MAX as u128 {
        return Err(ParseError::IntTooLarge { at: k });
    }
    let b = b as u32;
    if incl {
        let rg = if a <= b { BitRange { start: a, end: b } } else { BitRange { start: b, end: a } };
        Ok((k + 1, rg))
    } else if a == b {
        Err(ParseError::EmptyRange { at: i })
    } else {
        let rg = if a < b { BitRange { start: a, end: b - 1 } } else { BitRange { start: b + 1, end: a } };
        Ok((k + 1, rg))
    }
}

fn str_at(ts: &[Token], i: usize) -> (r: Option<String>)
    ensures
        r matches Some(v) ==> i < ts@.len() && ts@[i as int] is Str && ts@[i as int]->Str_0@ == v@,
        r is None ==> !(i < ts@.len() && ts@[i as int] is Str),
{
    if i < ts.len() {
        match &ts[i] {
            Token::Str(v) => Some(v.clone()),
            _ => None,
        }
    } else {
        None
    }
}

fn parse_alias_list(ts: &[Token], j: usize, names: &mut Vec<String>) -> (r: Result<usize, ParseError>)
    requires
        ts@.len() < usize::MAX - 8,
        j <= ts@.len() + 1,
    ensures
        match r {
            Ok(k) => alias_list(ts@, j as int, strings_view(old(names)@))
                == Ok::<(int, Seq<Seq<char>>), ParseError>((k as int, strings_view(final(names)@))),
            Err(e) => alias_list(ts@, j as int, strings_view(old(names)@))
                == Err::<(int, Seq<Seq<char>>), ParseError>(e),
        },
{
    let mut k = j;
    loop
        invariant
            ts@.len() < usize::MAX - 8,
            k <= ts@.len() + 1,
            alias_list(ts@, j as int, strings_view(old(names)@)) == alias_list(ts@, k as int, strings_view(names@)),
        decreases ts@.len() + 1 - k,
    {
        if punct_eq(ts, k, ']') {
            return Ok(k + 1);
        }
        let ghost before = strings_view(names@);
        match str_at(ts, k) {
            None => {
                return Err(ParseError::ExpectedStr { at: k });
            },
            Some(s) => {
                names.push(s);
            },
        }
        proof {
            assert(strings_view(names@) =~= before.push(ts@[k as int]->Str_0@));
        }
        if punct_eq(ts, k + 1, ',') {
            k = k + 2;
        } else if punct_eq(ts, k + 1, ']') {
            return Ok(k + 2);
        } else {
            return Err(ParseError::ExpectedPunct { at: k + 1, punct: ']' });
        }
    }
}

fn parse_literal(ts: &[Token], j: usize) -> (r: Result<(usize, DefaultValue), ParseError>)
    requires
        ts@.len() < usize::MAX - 8,
    ensures
        match r {
            Ok((k, d)) => literal_item(ts@, j as int) == Ok::<(int, DefaultValue), ParseError>((k as int, d)),
            Err(e) => literal_item(ts@, j as int) == Err::<(int, DefaultValue), ParseError>(e),
        },
{
    proof {
        reveal_strlit("true");
        reveal_strlit("false");
        assert("true"@ =~= seq!['t', 'r', 'u', 'e']);
        assert("false"@ =~= seq!['f', 'a', 'l', 's', 'e']);
    }
    if j >= ts.len() {
        return Err(ParseError::UnsupportedDefault { at: j });
    }
    match &ts[j] {
        Token::Int(v) => {
            return Ok((j + 1, DefaultValue::Unsigned(*v)));
        },
        _ => {},
    }
    if ident_eq(&ts[j], "true") {
        return Ok((j + 1, DefaultValue::Bool(true)));
    }
    if ident_eq(&ts[j], "false") {
        return Ok((j + 1, DefaultValue::Bool(false)));
    }
    if punct_eq(ts, j, '-') {
        match int_at(ts, j + 1) {
            Some(v) => {
                if v < 0x8000_0000_0000_0000_0000_0000_0000_0000u128 {
                    let n: i128 = v as i128;
                    return Ok((j + 2, DefaultValue::Signed(-n)));
                } else if v == 0x8000_0000_0000_0000_0000_0000_0000_0000u128 {
                    return Ok((j + 2, DefaultValue::Signed(i128::MIN)));
                }
            },
            None => {},
        }
    }
    Err(ParseError::UnsupportedDefault { at: j })
}

fn ident_at(ts: &[Token], i: usize) -> (r: Option<String>)
    ensures
        r matches Some(v) ==> i < ts@.len() && ts@[i as int] is Ident && ts@[i as int]->Ident_0@ == v@,
        r is None ==> !(i < ts@.len() && ts@[i as int] is Ident),
{
    if i < ts.len() {
        match &ts[i] {
            Token::Ident(v) => Some(v.clone()),
            _ => None,
        }
    } else {
        None
    }
}

fn parse_path(ts: &[Token], j: usize) -> (r: (usize, Vec<String>))
    requires
        j < ts@.len(),
        ts@[j as int] is Ident,
        ts@.len() < usize::MAX - 8,
    ensures
        path_item(ts@, j as int, Seq::empty()) == (r.0 as int, strings_view(r.1@)),
        r.1@.len() >= 1,
{
    let mut segs: Vec<String> = Vec::new();
    let mut k = j;
    proof { assert(strings_view(segs@) =~= Seq::<Seq<char>>::empty()); }
    loop
        invariant
            ts@.len() < usize::MAX - 8,
            k < ts@.len(),
            ts@[k as int] is Ident,
            path_item(ts@, j as int, Seq::empty()) == path_item(ts@, k as int, strings_view(segs@)),
        decreases ts@.len() - k,
    {
        let name = match ident_at(ts, k) {
            Some(x) => x,
            None => String::new(),
        };
        let ghost before = strings_view(segs@);
        segs.push(name);
        proof {
            assert(strings_view(segs@) =~= before.push(ts@[k as int]->Ident_0@));
        }
        if punct_eq(ts, k + 1, ':') && punct_eq(ts, k + 2, ':') && ident_at(ts, k + 3).is_some() {
            k = k + 3;
        } else {
            return (k + 1, segs);
        }
    }
}

fn parse_calls(ts: &[Token], j: usize) -> (r: Result<(usize, Vec<SetterCall>), ParseError>)
    requires
        ts@.len() < usize::MAX - 8,
        j <= ts@.len(),
    ensures
        match r {
            Ok((k, calls)) => calls_item(ts@, j as int, Seq::empty())
                == Ok::<(int, Seq<(Seq<char>, DefaultValue)>), ParseError>((k as int, calls_view(calls@))),
            Err(e) => calls_item(ts@, j as int, Seq::empty()) == Err::<(int, Seq<(Seq<char>, DefaultValue)>), ParseError>(e),
        },
{
    let mut calls: Vec<SetterCall> = Vec::new();
    let mut k = j;
    proof { assert(calls_view(calls@) =~= Seq::<(Seq<char>, DefaultValue)>::empty()); }
    loop
        invariant
            ts@.len() < usize::MAX - 8,
            k <= ts@.len(),
            calls_item(ts@, j as int, Seq::empty()) == calls_item(ts@, k as int, calls_view(calls@)),
        decreases ts@.len() - k,
    {
        if !punct_eq(ts, k, '.') {
            return Ok((k, calls));
        }
        let method = match ident_at(ts, k + 1) {
            Some(x) => x,
            None => {
                return Err(ParseError::UnsupportedDefault { at: k + 1 });
            },
        };
        if !punct_eq(ts, k + 2, '(') {
            return Err(ParseError::ExpectedPunct { at: k + 2, punct: '(' });
        }
        let (m, v) = match parse_literal(ts, k + 3) {
            Ok(x) => x,
            Err(e) => {
                return Err(e);
            },
        };
        if !(k < m && punct_eq(ts, m, ')')) {
            return Err(ParseError::ExpectedPunct { at: m, punct: ')' });
        }
        let ghost before = calls_view(calls@);
        calls.push(SetterCall { method, value: v });
        proof {
            assert(calls_view(calls@) =~= before.push((ts@[k + 1]->Ident_0@, v)));
        }
        k = m + 1;
    }
}

fn parse_default(ts: &[Token], j: usize) -> (r: Result<(usize, DefaultExpr), ParseError>)
    requires
        ts@.len() < usize::MAX - 8,
    ensures
        match r {
            Ok((k, d)) => default_item(ts@, j as int) == Ok::<(int, DefaultSpec), ParseError>((k as int, d@)),
            Err(e) => default_item(ts@, j as int) == Err::<(int, DefaultSpec), ParseError>(e),
        },
{
    match parse_literal(ts, j) {
        Ok((k, v)) => {
            return Ok((k, DefaultExpr::Literal(v)));
        },
        Err(e) => {
            if ident_at(ts, j).is_none() {
                return Err(e);
            }
        },
    }
    let (k, mut segs) = parse_path(ts, j);
    let n = segs.len();
    if n < 2 {
        return Err(ParseError::UnsupportedDefault { at: j });
    }
    proof {
        reveal_strlit("zeroed");
        assert("zeroed"@ =~= seq!['z', 'e', 'r', 'o', 'e', 'd']);
        assert(strings_view(segs@).last() == segs@[n - 1]@);
        assert(strings_view(segs@)[n - 2] == segs@[n - 2]@);
    }
    if punct_eq(ts, k, '(') {
        if !crate::text::str_eq(segs[n - 1].as_str(), "zeroed") || !punct_eq(ts, k + 1, ')') {
            return Err(ParseError::UnsupportedDefault { at: j });
        }
        let ty = segs[n - 2].clone();
        match parse_calls(ts, k + 2) {
            Ok((m, calls)) => Ok((m, DefaultExpr::Built { ty, calls })),
            Err(e) => Err(e),
        }
    } else {
        let variant = segs[n - 1].clone();
        let ty = segs[n - 2].clone();
        Ok((k, DefaultExpr::Variant { ty, variant }))
    }
}

fn parse_item(ts: &[Token], i: usize, attr: &mut BitsAttr) -> (r: Result<usize, ParseError>)
    requires
        i < ts@.len(),
        ts@.len() < usize::MAX - 8,
    ensures
        match r {
            Ok(k) => bits_item(ts@, i as int, old(attr)@) == Ok::<(int, AttrView), ParseError>((k as int, final(attr)@)),
            Err(e) => bits_item(ts@, i as int, old(attr)@) == Err::<(int, AttrView), ParseError>(e),
        },
{
    match &ts[i] {
        Token::Int(_) => {
            match parse_range(ts, i) {
                Ok((j, rg)) => {
                    attr.ranges.push(rg);
                    return Ok(j);
                },
                Err(e) => {
                    return Err(e);
                },
            }
        },
        Token::Ident(_) => {},
        _ => {
            return Err(ParseError::ExpectedIdent { at: i });
        },
    }
    proof {
        reveal_strlit("readonly");
        reveal_strlit("alias");
        reveal_strlit("overlay");
        reveal_strlit("default");
        assert("readonly"@ =~= seq!['r', 'e', 'a', 'd', 'o', 'n', 'l', 'y']);
        assert("alias"@ =~= seq!['a', 'l', 'i', 'a', 's']);
        assert("overlay"@ =~= seq!['o', 'v', 'e', 'r', 'l', 'a', 'y']);
        assert("default"@ =~= seq!['d', 'e', 'f', 'a', 'u', 'l', 't']);
    }
    let t = &ts[i];
    if ident_eq(t, "readonly") {
        attr.readonly = true;
        return Ok(i + 1);
    }
    let is_alias = ident_eq(t, "alias");
    let is_overlay = ident_eq(t, "overlay");
    let is_default = ident_eq(t, "default");
    if !(is_alias || is_overlay || is_default) {
        return Err(ParseError::UnknownOption { at: i });
    }
    if !punct_eq(ts, i + 1, '=') {
        return Err(ParseError::ExpectedPunct { at: i + 1, punct: '=' });
    }
    if is_alias {
        match str_at(ts, i + 2) {
            Some(s) => {
                attr.aliases.push(s);
                proof {
                    assert(strings_view(attr.aliases@) =~= strings_view(old(attr).aliases@).push(ts@[i + 2]->Str_0@));
                }
                return Ok(i + 3);
            },
            None => {},
        }
        if punct_eq(ts, i + 2, '[') {
            return parse_alias_list(ts, i + 3, &mut attr.aliases);
        }
        return Err(ParseError::ExpectedStr { at: i + 2 });
    }
    if is_overlay {
        match str_at(ts, i + 2) {
            Some(s) => {
                attr.overlay = Some(s);
                return Ok(i + 3);
            },
            None => {
                return Err(ParseError::ExpectedStr { at: i + 2 });
            },
        }
    }
    match parse_default(ts, i + 2) {
        Ok((j, d)) => {
            attr.default = Some(d);
            Ok(j)
        },
        Err(e) => Err(e),
    }
}

/// Parses the tokens of `#[bits(...)]`: a bit index or range (`5`, `0..4`,
/// `0..=3`, `7..=4`), then further ranges and the options `readonly`,
/// `alias = "name"`, `alias = ["a", "b"]`, `overlay = "group"` and
/// `default = value`, separated by commas, with an optional trailing comma.
pub fn parse_bits_attr(ts: &[Token]) -> (r: Result<BitsAttr, ParseError>)
    requires
        ts@.len() < usize::MAX - 8,
    ensures
        match r {
            Ok(a) => bits_spec(ts@) == Ok::<AttrView, ParseError>(a@),
            Err(e) => bits_spec(ts@) == Err::<AttrView, ParseError>(e),
        },
{
    let n = ts.len();
    if n == 0 {
        return Err(ParseError::ExpectedRange { at: 0 });
    }
    match &ts[0] {
        Token::Int(_) => {},
        _ => {
            return Err(ParseError::ExpectedRange { at: 0 });
        },
    }
    let mut attr = BitsAttr { ranges: Vec::new(), readonly: false, aliases: Vec::new(), overlay: None, default: None };
    proof {
        assert(attr@.0 =~= Seq::<BitRange>::empty());
        assert(attr@.2 =~= Seq::<Seq<char>>::empty());
    }
    let mut i: usize = 0;
    loop
        invariant
            n == ts@.len(),
            n < usize::MAX - 8,
            i <= n + 1,
            bits_spec(ts@) == bits_from(ts@, i as int, attr@),
        decreases n + 1 - i,
    {
        if i >= n {
            return Ok(attr);
        }
        proof {
            lemma_item_advances(ts@, i as int, attr@);
        }
        let j = match parse_item(ts, i, &mut attr) {
            Ok(j) => j,
            Err(e) => {
                return Err(e);
            },
        };
        if j >= n {
            return Ok(attr);
        }
        if !punct_eq(ts, j, ',') {
            return Err(ParseError::ExpectedPunct { at: j, punct: ',' });
        }
        i = j + 1;
    }
}

/// The characters after the last `:` of a type path: the identifier of its
/// last segment, with any generic arguments.
pub open spec fn last_segment(s: Seq<char>) -> Seq<char>
    decreases s.len(),
{
    if s.len() == 0 {
        s
    } else if s.last() == ':' {
        Seq::empty()
    } else {
        last_segment(s.drop_last()).push(s.last())
    }
}

/// The field type named by a type path: `bool`, a primitive integer, or
/// anything else (a nested bitfield or a bit enum).
pub open spec fn field_type_of(path: Seq<char>) -> FieldType {
    let seg = last_segment(path);
    if seg == seq!['b', 'o', 'o', 'l'] {
        FieldType::Bool
    } else if kind_of_unsigned_name(seg) is Some {
        FieldType::PrimitiveUnsigned(kind_of_unsigned_name(seg)->0)
    } else if kind_of_signed_name(seg) is Some {
        FieldType::PrimitiveSigned(kind_of_signed_name(seg)->0)
    } else {
        FieldType::Nested
    }
}

/// The last segment of a type path: the characters after its last `:`.
pub fn last_segment_of(type_path: &str) -> (r: &str)
    ensures
        r@ == last_segment(type_path@),
{
    let n = type_path.unicode_len();
    let mut start: usize = 0;
    let mut i: usize = 0;
    while i < n
        invariant
            n == type_path@.len(),
            start <= i <= n,
            last_segment(type_path@.subrange(0, i as int)) == type_path@.subrange(start as int, i as int),
        decreases n - i,
    {
        let c = type_path.get_char(i);
        proof {
            assert(type_path@.subrange(0, i + 1).drop_last() =~= type_path@.subrange(0, i as int));
        }
        if c == ':' {
            start = i + 1;
            proof {
                assert(type_path@.subrange(start as int, i + 1) =~= Seq::<char>::empty());
            }
        } else {
            proof {
                assert(type_path@.subrange(start as int, i + 1) =~= type_path@.subrange(start as int, i as int).push(c));
            }
        }
        i = i + 1;
    }
    proof {
        assert(type_path@.subrange(0, n as int) =~= type_path@);
    }
    type_path.substring_char(start, n)
}

/// Resolves a field's type as written (e.g. `u8`, `bool`, `crate::Mode`)
/// into its [`FieldType`], by the last segment of the path.
pub fn determine_field_type(type_path: &str) -> (r: FieldType)
    ensures
        r == field_type_of(type_path@),
{
    let seg = last_segment_of(type_path);
    proof {
        reveal_strlit("bool");
        assert("bool"@ =~= seq!['b', 'o', 'o', 'l']);
    }
    if crate::text::str_eq(seg, "bool") {
        return FieldType::Bool;
    }
    match StorageKind::from_unsigned_str(seg) {
        Some(k) => {
            return FieldType::PrimitiveUnsigned(k);
        },
        None => {},
    }
    match StorageKind::from_signed_str(seg) {
        Some(k) => FieldType::PrimitiveSigned(k),
        None => FieldType::Nested,
    }
}

/// One named field of a struct declaration.
pub struct FieldItem {
    /// The field identifier.
    pub name: String,
    /// The field type as written.
    pub type_path: String,
    /// The tokens inside the field's first `#[bits(...)]` attribute, if any.
    pub bits: Option<Vec<Token>>,
}

/// A struct declaration with named fields, as written under `#[bitfield]`.
pub struct StructItem {
    /// The struct identifier.
    pub name: String,
    /// Its fields, in declaration order.
    pub fields: Vec<FieldItem>,
}

/// A leading `_` marks a field readonly.
pub open spec fn implicitly_readonly(name: Seq<char>) -> bool {
    name.len() > 0 && name[0] == '_'
}

/// The accessor name of a field: its name without a leading `_`.
pub open spec fn accessor_of(name: Seq<char>) -> Seq<char> {
    if implicitly_readonly(name) { name.subrange(1, name.len() as int) } else { name }
}

/// The parsed `#[bits(...)]` attribute of the field at index `k`.
pub open spec fn field_attr(f: FieldItem, k: int) -> Result<AttrView, ParseError> {
    match f.bits {
        None => Err(ParseError::MissingBits { field: k as usize }),
        Some(ts) => bits_spec(ts@),
    }
}

/// The parsed `#[bits(...)]` attribute of the field `f` at index `k`, with
/// the value of its `default = ...` expression, if it has one.
pub open spec fn field_outcome(f: FieldItem, k: int, enums: Seq<&BitEnumDef>, nested: Seq<&Layout>)
    -> Result<(AttrView, Option<DefaultValue>), ParseError>
{
    match field_attr(f, k) {
        Err(e) => Err(e),
        Ok(a) => match a.4 {
            None => Ok((a, None)),
            Some(d) => match default_value_of(d, field_type_of(f.type_path@), f.type_path@, enums, nested, k) {
                Err(e) => Err(e),
                Ok(v) => Ok((a, Some(v))),
            },
        },
    }
}

/// `fd` is the definition of the field `f` with the parsed attribute `a` and
/// the default value `dv`.
pub open spec fn field_def_of(fd: FieldDef, f: FieldItem, a: AttrView, dv: Option<DefaultValue>) -> bool {
    &&& fd.name@ == f.name@
    &&& fd.accessor_name@ == accessor_of(f.name@)
    &&& fd.ty == field_type_of(f.type_path@)
    &&& fd.type_path@ == f.type_path@
    &&& fd.ranges@ == a.0
    &&& fd.readonly == (a.1 || implicitly_readonly(f.name@))
    &&& strings_view(fd.aliases@) == a.2
    &&& overlay_of(fd) == a.3
    &&& fd.default == dv
}

/// The struct declaration has a field whose attribute or default value is
/// rejected with `e`, and every field before it is accepted.
pub open spec fn first_field_error(fields: Seq<FieldItem>, enums: Seq<&BitEnumDef>, nested: Seq<&Layout>,
    e: ParseError) -> bool
{
    exists|k: int|
        0 <= k < fields.len() && field_outcome(fields[k], k, enums, nested)
            == Err::<(AttrView, Option<DefaultValue>), ParseError>(e)
            && forall|j: int| 0 <= j < k ==> (#[trigger] field_outcome(fields[j], j, enums, nested)) is Ok
}

/// Every field has an accepted `#[bits(...)]` attribute and default value.
pub open spec fn fields_ok(fields: Seq<FieldItem>, enums: Seq<&BitEnumDef>, nested: Seq<&Layout>) -> bool {
    forall|k: int| 0 <= k < fields.len() ==> (#[trigger] field_outcome(fields[k], k, enums, nested)) is Ok
}

/// `def` is the resolution of the struct declaration `item` under `args`,
/// with the bit enums `enums` and nested bitfields `nested` in scope.
pub open spec fn struct_def_of(def: BitfieldDef, args: BitfieldArgs, item: StructItem, enums: Seq<&BitEnumDef>,
    nested: Seq<&Layout>) -> bool
{
    &&& def.args == args
    &&& def.effective_width == match args.width {
        Some(w) => w,
        None => args.storage.bits() as u32,
    }
    &&& def.name@ == item.name@
    &&& def.fields@.len() == item.fields@.len()
    &&& forall|k: int| 0 <= k < item.fields@.len()
        ==> field_def_of(#[trigger] def.fields@[k], item.fields@[k], field_outcome(item.fields@[k], k, enums, nested)->Ok_0.0,
            field_outcome(item.fields@[k], k, enums, nested)->Ok_0.1)
}

/// Items after the first keep the ranges gathered so far.
proof fn lemma_bits_from_keeps_ranges(ts: Seq<Token>, i: int, acc: AttrView)
    ensures
        bits_from(ts, i, acc) matches Ok(a) ==> a.0.len() >= acc.0.len(),
    decreases ts.len() - i,
{
    if i < ts.len() {
        match bits_item(ts, i, acc) {
            Ok((j, acc2)) => {
                if j > i && j < ts.len() && punct_is(ts[j], ',') {
                    lemma_bits_from_keeps_ranges(ts, j + 1, acc2);
                }
            },
            Err(_) => {},
        }
    }
}

/// An accepted `#[bits(...)]` attribute selects at least one range.
pub proof fn lemma_bits_spec_has_range(ts: Seq<Token>)
    ensures
        bits_spec(ts) matches Ok(a) ==> a.0.len() >= 1,
{
    if ts.len() > 0 && ts[0] is Int {
        let acc: AttrView = (Seq::empty(), false, Seq::empty(), None, None);
        match bits_item(ts, 0, acc) {
            Ok((j, acc2)) => {
                assert(acc2.0.len() == 1);
                if j > 0 && j < ts.len() && punct_is(ts[j], ',') {
                    lemma_bits_from_keeps_ranges(ts, j + 1, acc2);
                }
            },
            Err(_) => {},
        }
    }
}

/// The `#[bits(...)]` token lists of the fields fit in memory.
pub open spec fn attrs_fit(fields: Seq<FieldItem>) -> bool {
    forall|k: int| 0 <= k < fields.len() && (#[trigger] fields[k]).bits is Some
        ==> fields[k].bits->0@.len() < usize::MAX - 8
}

fn field_def(f: &FieldItem, attr: BitsAttr, default: Option<DefaultValue>) -> (fd: FieldDef)
    ensures
        field_def_of(fd, *f, attr@, default),
{
    let n = f.name.as_str().unicode_len();
    let implicit = n > 0 && f.name.as_str().get_char(0) == '_';
    let accessor_name = if implicit {
        f.name.as_str().substring_char(1, n).to_owned()
    } else {
        f.name.clone()
    };
    FieldDef {
        name: f.name.clone(),
        accessor_name,
        ty: determine_field_type(f.type_path.as_str()),
        type_path: f.type_path.clone(),
        ranges: attr.ranges,
        readonly: attr.readonly || implicit,
        aliases: attr.aliases,
        overlay: attr.overlay,
        default,
    }
}

/// Resolves a struct declaration into a [`BitfieldDef`]: the effective width
/// is `width` if given, else the storage width; each field gets its
/// `#[bits(...)]` ranges and options, its resolved type, an accessor name
/// without a leading `_`, which also makes the field readonly, and the value
/// of its `default = ...` expression, resolved against the bit enums `enums`
/// and the nested bitfield layouts `nested` in scope.
pub fn parse_struct(args: &BitfieldArgs, item: &StructItem, enums: &[&BitEnumDef], nested: &[&Layout])
    -> (r: Result<BitfieldDef, ParseError>)
    requires
        attrs_fit(item.fields@),
        layouts_wf(nested@),
    ensures
        r is Ok <==> fields_ok(item.fields@, enums@, nested@),
        r matches Ok(def) ==> struct_def_of(def, *args, *item, enums@, nested@),
        r matches Err(e) ==> first_field_error(item.fields@, enums@, nested@, e),
{
    let effective_width = match args.width {
        Some(w) => w,
        None => args.storage.bit_width(),
    };
    let mut fields: Vec<FieldDef> = Vec::new();
    let mut k: usize = 0;
    while k < item.fields.len()
        invariant
            k <= item.fields@.len(),
            attrs_fit(item.fields@),
            layouts_wf(nested@),
            fields@.len() == k,
            forall|j: int| 0 <= j < k ==> (#[trigger] field_outcome(item.fields@[j], j, enums@, nested@)) is Ok,
            forall|j: int| 0 <= j < k
                ==> field_def_of(#[trigger] fields@[j], item.fields@[j],
                    field_outcome(item.fields@[j], j, enums@, nested@)->Ok_0.0,
                    field_outcome(item.fields@[j], j, enums@, nested@)->Ok_0.1),
        decreases item.fields@.len() - k,
    {
        let f = &item.fields[k];
        let attr = match &f.bits {
            None => {
                proof {
                    assert(field_outcome(item.fields@[k as int], k as int, enums@, nested@) is Err);
                }
                return Err(ParseError::MissingBits { field: k });
            },
            Some(ts) => {
                proof {
                    assert(item.fields@[k as int].bits is Some);
                }
                match parse_bits_attr(ts.as_slice()) {
                    Ok(a) => a,
                    Err(e) => {
                        return Err(e);
                    },
                }
            },
        };
        let default = match &attr.default {
            None => None,
            Some(d) => {
                let ty = determine_field_type(f.type_path.as_str());
                match resolve_default(d, ty, f.type_path.as_str(), enums, nested, k) {
                    Ok(v) => Some(v),
                    Err(e) => {
                        return Err(e);
                    },
                }
            },
        };
        let fd = field_def(f, attr, default);
        fields.push(fd);
        k = k + 1;
    }
    Ok(BitfieldDef { args: *args, effective_width, fields, name: item.name.clone() })
}

} // verus!
