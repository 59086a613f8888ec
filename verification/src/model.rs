//! The data model of a bitfield definition: storage, ordering, bit ranges and
//! fields, as described by the `#[bitfield(...)]` and `#[bits(...)]` options.
use vstd::prelude::*;

verus! {

/// Which end bit 0 refers to.
#[derive(Debug, Clone, Copy, PartialEq, Eq, Structural)]
pub enum BitOrder {
    /// Bit 0 is the most-significant bit.
    Msb0,
    /// Bit 0 is the least-significant bit.
    Lsb0,
}

/// The width of a primitive integer, named by bit count.
///
/// Used both for the backing storage of a bitfield (always unsigned) and to
/// size primitive field types, which may be signed or unsigned.
#[derive(Debug, Clone, Copy, PartialEq, Eq, Structural)]
pub enum StorageKind {
    W8,
    W16,
    W32,
    W64,
    W128,
}

/// `"u8"` ... `"u128"` as character sequences.
pub open spec fn unsigned_name(k: StorageKind) -> Seq<char> {
    match k {
        StorageKind::W8 => seq!['u', '8'],
        StorageKind::W16 => seq!['u', '1', '6'],
        StorageKind::W32 => seq!['u', '3', '2'],
        StorageKind::W64 => seq!['u', '6', '4'],
        StorageKind::W128 => seq!['u', '1', '2', '8'],
    }
}

/// `"i8"` ... `"i128"` as character sequences.
pub open spec fn signed_name(k: StorageKind) -> Seq<char> {
    match k {
        StorageKind::W8 => seq!['i', '8'],
        StorageKind::W16 => seq!['i', '1', '6'],
        StorageKind::W32 => seq!['i', '3', '2'],
        StorageKind::W64 => seq!['i', '6', '4'],
        StorageKind::W128 => seq!['i', '1', '2', '8'],
    }
}

/// The kind whose unsigned keyword is `s`, if any.
pub open spec fn kind_of_unsigned_name(s: Seq<char>) -> Option<StorageKind> {
    if s == unsigned_name(StorageKind::W8) {
        Some(StorageKind::W8)
    } else if s == unsigned_name(StorageKind::W16) {
        Some(StorageKind::W16)
    } else if s == unsigned_name(StorageKind::W32) {
        Some(StorageKind::W32)
    } else if s == unsigned_name(StorageKind::W64) {
        Some(StorageKind::W64)
    } else if s == unsigned_name(StorageKind::W128) {
        Some(StorageKind::W128)
    } else {
        None
    }
}

/// The kind whose signed keyword is `s`, if any.
pub open spec fn kind_of_signed_name(s: Seq<char>) -> Option<StorageKind> {
    if s == signed_name(StorageKind::W8) {
        Some(StorageKind::W8)
    } else if s == signed_name(StorageKind::W16) {
        Some(StorageKind::W16)
    } else if s == signed_name(StorageKind::W32) {
        Some(StorageKind::W32)
    } else if s == signed_name(StorageKind::W64) {
        Some(StorageKind::W64)
    } else if s == signed_name(StorageKind::W128) {
        Some(StorageKind::W128)
    } else {
        None
    }
}

impl StorageKind {
    /// Number of bits of this width.
    pub open spec fn bits(self) -> nat {
        match self {
            StorageKind::W8 => 8,
            StorageKind::W16 => 16,
            StorageKind::W32 => 32,
            StorageKind::W64 => 64,
            StorageKind::W128 => 128,
        }
    }

    /// The smallest kind holding `bits` bits.
    pub open spec fn spec_smallest_fitting(bits: nat) -> Option<StorageKind> {
        if bits <= 8 {
            Some(StorageKind::W8)
        } else if bits <= 16 {
            Some(StorageKind::W16)
        } else if bits <= 32 {
            Some(StorageKind::W32)
        } else if bits <= 64 {
            Some(StorageKind::W64)
        } else if bits <= 128 {
            Some(StorageKind::W128)
        } else {
            None
        }
    }

    /// Returns the number of bits in this width.
    pub fn bit_width(self) -> (r: u32)
        ensures
            r == self.bits(),
    {
        match self {
            StorageKind::W8 => 8,
            StorageKind::W16 => 16,
            StorageKind::W32 => 32,
            StorageKind::W64 => 64,
            StorageKind::W128 => 128,
        }
    }

    /// Returns the unsigned Rust keyword for this width (e.g. `"u32"`).
    pub fn unsigned_ident(self) -> (r: &'static str)
        ensures
            r@ == unsigned_name(self),
    {
        match self {
            StorageKind::W8 => {
                proof { reveal_strlit("u8"); }
                "u8"
            },
            StorageKind::W16 => {
                proof { reveal_strlit("u16"); }
                "u16"
            },
            StorageKind::W32 => {
                proof { reveal_strlit("u32"); }
                "u32"
            },
            StorageKind::W64 => {
                proof { reveal_strlit("u64"); }
                "u64"
            },
            StorageKind::W128 => {
                proof { reveal_strlit("u128"); }
                "u128"
            },
        }
    }

    /// Returns the signed Rust keyword for this width (e.g. `"i32"`).
    pub fn signed_ident(self) -> (r: &'static str)
        ensures
            r@ == signed_name(self),
    {
        match self {
            StorageKind::W8 => {
                proof { reveal_strlit("i8"); }
                "i8"
            },
            StorageKind::W16 => {
                proof { reveal_strlit("i16"); }
                "i16"
            },
            StorageKind::W32 => {
                proof { reveal_strlit("i32"); }
                "i32"
            },
            StorageKind::W64 => {
                proof { reveal_strlit("i64"); }
                "i64"
            },
            StorageKind::W128 => {
                proof { reveal_strlit("i128"); }
                "i128"
            },
        }
    }

    /// Parses an unsigned integer keyword (`u8`...`u128`) into its
    /// `StorageKind`, or `None` if unrecognised.
    pub fn from_unsigned_str(s: &str) -> (r: Option<Self>)
        ensures
            r == kind_of_unsigned_name(s@),
    {
        let all = [StorageKind::W8, StorageKind::W16, StorageKind::W32, StorageKind::W64, StorageKind::W128];
        let mut i: usize = 0;
        while i < 5
            invariant
                0 <= i <= 5,
                all@ == seq![StorageKind::W8, StorageKind::W16, StorageKind::W32, StorageKind::W64, StorageKind::W128],
                forall|j: int| 0 <= j < i ==> s@ != unsigned_name(#[trigger] all@[j]),
            decreases 5 - i,
        {
            let k = all[i];
            if crate::text::str_eq(s, k.unsigned_ident()) {
                return Some(k);
            }
            i = i + 1;
        }
        proof {
            assert(s@ != unsigned_name(all@[0]));
            assert(s@ != unsigned_name(all@[1]));
            assert(s@ != unsigned_name(all@[2]));
            assert(s@ != unsigned_name(all@[3]));
            assert(s@ != unsigned_name(all@[4]));
        }
        None
    }

    /// Parses a signed integer keyword (`i8`...`i128`) into the `StorageKind`
    /// of the same width, or `None` if unrecognised.
    pub fn from_signed_str(s: &str) -> (r: Option<Self>)
        ensures
            r == kind_of_signed_name(s@),
    {
        let all = [StorageKind::W8, StorageKind::W16, StorageKind::W32, StorageKind::W64, StorageKind::W128];
        let mut i: usize = 0;
        while i < 5
            invariant
                0 <= i <= 5,
                all@ == seq![StorageKind::W8, StorageKind::W16, StorageKind::W32, StorageKind::W64, StorageKind::W128],
                forall|j: int| 0 <= j < i ==> s@ != signed_name(#[trigger] all@[j]),
            decreases 5 - i,
        {
            let k = all[i];
            if crate::text::str_eq(s, k.signed_ident()) {
                return Some(k);
            }
            i = i + 1;
        }
        proof {
            assert(s@ != signed_name(all@[0]));
            assert(s@ != signed_name(all@[1]));
            assert(s@ != signed_name(all@[2]));
            assert(s@ != signed_name(all@[3]));
            assert(s@ != signed_name(all@[4]));
        }
        None
    }

    /// Pick the smallest storage kind that fits `bits` bits.
    pub fn smallest_fitting(bits: u32) -> (r: Option<Self>)
        ensures
            r == Self::spec_smallest_fitting(bits as nat),
    {
        if bits <= 8 {
            Some(StorageKind::W8)
        } else if bits <= 16 {
            Some(StorageKind::W16)
        } else if bits <= 32 {
            Some(StorageKind::W32)
        } else if bits <= 64 {
            Some(StorageKind::W64)
        } else if bits <= 128 {
            Some(StorageKind::W128)
        } else {
            None
        }
    }
}

} // verus!

verus! {

/// An inclusive bit range, e.g. `0..=3`, in logical (ordering-relative)
/// bit numbers.
#[derive(Debug, Clone, Copy, PartialEq, Eq, Structural)]
pub struct BitRange {
    /// Start bit (inclusive).
    pub start: u32,
    /// End bit (inclusive).
    pub end: u32,
}

/// The ranges `a` and `b` share at least one bit.
pub open spec fn ranges_overlap(a: BitRange, b: BitRange) -> bool {
    a.start <= b.end && b.start <= a.end
}

/// Number of bits of a range whose start does not exceed its end.
pub open spec fn range_width(r: BitRange) -> nat {
    (r.end - r.start + 1) as nat
}

/// Total number of bits selected by a list of ranges.
pub open spec fn ranges_width(rs: Seq<BitRange>) -> nat
    decreases rs.len(),
{
    if rs.len() == 0 {
        0
    } else {
        ranges_width(rs.drop_last()) + range_width(rs.last())
    }
}

impl BitRange {
    /// Returns the number of bits covered by this range.
    pub fn width(&self) -> (r: u32)
        requires
            self.start <= self.end,
            self.end - self.start + 1 <= u32::MAX,
        ensures
            r == range_width(*self),
    {
        self.end - self.start + 1
    }

    /// Returns `true` if this range shares any bits with `other`.
    pub fn overlaps(&self, other: &BitRange) -> (r: bool)
        ensures
            r == ranges_overlap(*self, *other),
    {
        self.start <= other.end && other.start <= self.end
    }
}

/// The Rust type of a bitfield field.
#[derive(Debug, Clone, Copy, PartialEq, Eq, Structural)]
pub enum FieldType {
    /// A single `bool` bit.
    Bool,
    /// A primitive unsigned integer (`u8`...`u128`) of the given width.
    PrimitiveUnsigned(StorageKind),
    /// A primitive signed integer (`i8`...`i128`) of the given width. Getters
    /// sign-extend the field's most significant bit, setters truncate
    /// two's-complement values to the field width.
    PrimitiveSigned(StorageKind),
    /// A nested bitfield struct or a bit enum, stored as its raw value.
    Nested,
}

/// A field's `default = ...` value.
#[derive(Debug, Clone, Copy, PartialEq, Eq, Structural)]
pub enum DefaultValue {
    /// A `bool` default.
    Bool(bool),
    /// An unsigned default, or the raw value of a nested bitfield or bit enum.
    Unsigned(u128),
    /// A signed default.
    Signed(i128),
}

/// One `.with_<field>(value)` call of a nested default.
pub struct SetterCall {
    /// The method name, e.g. `with_high`.
    pub method: String,
    /// Its literal argument.
    pub value: DefaultValue,
}

/// A `default = ...` expression as written: a literal, a bit enum variant
/// (`Mode::On`), or a nested bitfield built from `zeroed()` by setter calls
/// (`Nibble::zeroed().with_high(3).with_low(1)`).
pub enum DefaultExpr {
    /// An integer or boolean literal.
    Literal(DefaultValue),
    /// `Type::Variant`.
    Variant { ty: String, variant: String },
    /// `Type::zeroed()` followed by `.with_<field>(literal)` calls.
    Built { ty: String, calls: Vec<SetterCall> },
}

/// The meaning of a [`DefaultExpr`]: names as characters, setter calls as
/// (method name, argument) pairs.
pub enum DefaultSpec {
    Literal(DefaultValue),
    Variant(Seq<char>, Seq<char>),
    Built(Seq<char>, Seq<(Seq<char>, DefaultValue)>),
}

/// The (method name, argument) pairs of setter calls.
pub open spec fn calls_view(calls: Seq<SetterCall>) -> Seq<(Seq<char>, DefaultValue)> {
    calls.map_values(|c: SetterCall| (c.method@, c.value))
}

impl DefaultExpr {
    pub open spec fn view(&self) -> DefaultSpec {
        match self {
            DefaultExpr::Literal(v) => DefaultSpec::Literal(*v),
            DefaultExpr::Variant { ty, variant } => DefaultSpec::Variant(ty@, variant@),
            DefaultExpr::Built { ty, calls } => DefaultSpec::Built(ty@, calls_view(calls@)),
        }
    }
}

/// Parsed arguments of `#[bitfield(u32, order = msb0, width = 16)]`.
#[derive(Debug, Clone, Copy, PartialEq, Eq, Structural)]
pub struct BitfieldArgs {
    /// The declared backing storage type.
    pub storage: StorageKind,
    /// Logical bit ordering.
    pub order: BitOrder,
    /// Optional effective width, narrower than the storage type.
    pub width: Option<u32>,
}

/// All information about one field in a bitfield struct.
pub struct FieldDef {
    /// The struct field identifier as declared (may start with `_`).
    pub name: String,
    /// The public accessor name (leading `_` stripped if present).
    pub accessor_name: String,
    /// Resolved field type.
    pub ty: FieldType,
    /// The field's type as written.
    pub type_path: String,
    /// Logical bit ranges declared in `#[bits(...)]`, most significant chunk first.
    pub ranges: Vec<BitRange>,
    /// Whether setters should be suppressed.
    pub readonly: bool,
    /// Extra accessor names declared with `alias = ...`.
    pub aliases: Vec<String>,
    /// Overlay group name declared with `overlay = "..."`, if any.
    pub overlay: Option<String>,
    /// Default value declared with `default = ...`, if any.
    pub default: Option<DefaultValue>,
}

/// The fully parsed and resolved definition of a bitfield struct.
pub struct BitfieldDef {
    /// Macro arguments (`storage`, `order`, `width`).
    pub args: BitfieldArgs,
    /// Effective logical width: `width` if specified, else the storage width.
    pub effective_width: u32,
    /// All fields in declaration order.
    pub fields: Vec<FieldDef>,
    /// Name of the struct.
    pub name: String,
}

/// The characters of each string of a list.
pub open spec fn strings_view(v: Seq<String>) -> Seq<Seq<char>> {
    v.map_values(|a: String| a@)
}

/// All accessor names of a field: its accessor name, then its aliases.
pub open spec fn field_names(f: FieldDef) -> Seq<Seq<char>> {
    seq![f.accessor_name@] + strings_view(f.aliases@)
}

/// The overlay group of a field, as characters.
pub open spec fn overlay_of(f: FieldDef) -> Option<Seq<char>> {
    match f.overlay {
        Some(g) => Some(g@),
        None => None,
    }
}

} // verus!
