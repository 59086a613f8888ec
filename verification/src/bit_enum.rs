//! C-like enums used as bitfield fields (`#[bitenum]`): discriminant
//! resolution, storage sizing, and conversion from raw values.
use vstd::prelude::*;
use vstd::arithmetic::power2::{pow2, lemma_pow2_pos, lemma_pow2_unfold, lemma_pow2_strictly_increases};
use crate::model::StorageKind;

verus! {

/// One variant as declared: its name, its explicit discriminant if any, and
/// whether it is marked `#[fallback]`.
pub struct VariantDecl {
    pub name: String,
    pub discriminant: Option<u128>,
    pub fallback: bool,
}

/// One variant with its resolved discriminant.
pub struct Variant {
    pub name: String,
    pub discriminant: u128,
}

/// A resolved bit enum.
pub struct BitEnumDef {
    /// Name of the enum.
    pub name: String,
    /// Variants in declaration order.
    pub variants: Vec<Variant>,
    /// Index of the `#[fallback]` variant.
    pub fallback: usize,
    /// The smallest storage type holding every discriminant.
    pub storage: StorageKind,
}

/// Why a bit enum declaration is rejected.
#[derive(Debug, Clone, Copy, PartialEq, Eq, Structural)]
pub enum BitEnumError {
    /// The enum has no variant.
    NoVariants,
    /// A second variant (this one) is marked `#[fallback]`.
    MultipleFallbacks { variant: usize },
    /// No variant is marked `#[fallback]`.
    MissingFallback,
    /// This variant's discriminant equals an earlier variant's.
    DuplicateDiscriminant { variant: usize },
    /// `#[bitenum(...)]` was given arguments; it takes none.
    TakesNoArguments,
}

/// A raw value that matches no discriminant.
#[derive(Debug, Clone, Copy, PartialEq, Eq, Structural)]
pub struct InvalidBitPattern {
    /// The unmatched raw value.
    pub raw: u128,
}

impl InvalidBitPattern {
    /// Wraps an unmatched raw value.
    pub fn new(raw: u128) -> (r: Self)
        ensures
            r.raw == raw,
    {
        InvalidBitPattern { raw }
    }
}

/// The outcome of resolving the declaration `decls` of the enum `name`.
pub open spec fn resolves_to(name: String, decls: Seq<VariantDecl>, r: Result<BitEnumDef, BitEnumError>) -> bool {
    &&& decls.len() == 0 ==> r == Err::<BitEnumDef, BitEnumError>(BitEnumError::NoVariants)
    &&& forall|i: int| #[trigger] second_fallback(decls, i)
        ==> r == Err::<BitEnumDef, BitEnumError>(BitEnumError::MultipleFallbacks { variant: i as usize })
    &&& decls.len() > 0 && fallbacks_before(decls, decls.len() as int) == 0
        ==> r == Err::<BitEnumDef, BitEnumError>(BitEnumError::MissingFallback)
    &&& forall|j: int| 0 <= j < decls.len() && fallbacks_before(decls, decls.len() as int) == 1
        && #[trigger] duplicate_at(decls, j) && (forall|k: int| 0 <= k < j ==> !duplicate_at(decls, k))
        ==> r == Err::<BitEnumDef, BitEnumError>(BitEnumError::DuplicateDiscriminant { variant: j as usize })
    &&& r is Ok <==> (decls.len() > 0 && fallbacks_before(decls, decls.len() as int) == 1
        && forall|j: int| 0 <= j < decls.len() ==> !#[trigger] duplicate_at(decls, j))
    &&& r matches Ok(e) ==> {
        &&& e.wf()
        &&& e.name == name
        &&& e.variants@.len() == decls.len()
        &&& forall|i: int| 0 <= i < decls.len() ==> (#[trigger] e.variants@[i]).name == decls[i].name
            && e.variants@[i].discriminant == resolved(decls, i)
        &&& decls[e.fallback as int].fallback
        &&& Some(e.storage) == enum_storage(max_resolved(decls, decls.len() as int) as nat)
    }
}

/// The discriminant of variant `i`: its explicit value, else one more than
/// the previous variant's (zero for the first).
pub open spec fn resolved(decls: Seq<VariantDecl>, i: int) -> int
    decreases i,
{
    if i < 0 {
        0
    } else {
        match decls[i].discriminant {
            Some(d) => d as int,
            None => if i == 0 { 0 } else { resolved(decls, i - 1) + 1 },
        }
    }
}

/// Number of variants before `k` marked `#[fallback]`.
pub open spec fn fallbacks_before(decls: Seq<VariantDecl>, k: int) -> nat
    decreases k,
{
    if k <= 0 {
        0
    } else {
        fallbacks_before(decls, k - 1) + if decls[k - 1].fallback { 1nat } else { 0nat }
    }
}

/// Number of bits of `x`.
pub open spec fn bit_length(x: nat) -> nat
    decreases x,
{
    if x == 0 { 0 } else { 1 + bit_length(x / 2) }
}

/// The largest of the first `k` resolved discriminants (zero when `k` is 0).
pub open spec fn max_resolved(decls: Seq<VariantDecl>, k: int) -> int
    decreases k,
{
    if k <= 0 {
        0
    } else {
        let m = max_resolved(decls, k - 1);
        let d = resolved(decls, k - 1);
        if k == 1 || d > m { d } else { m }
    }
}

/// Inputs on which resolving the discriminants stays within `u128`: no
/// variant before the second `#[fallback]` resolves to `u128::MAX`.
pub open spec fn resolvable(decls: Seq<VariantDecl>) -> bool {
    forall|i: int| 0 <= i < decls.len() && fallbacks_before(decls, i + 1) <= 1
        ==> #[trigger] resolved(decls, i) < u128::MAX
}

/// The first variant marked `#[fallback]` after another one, if any.
pub open spec fn second_fallback(decls: Seq<VariantDecl>, i: int) -> bool {
    &&& 0 <= i < decls.len()
    &&& decls[i].fallback
    &&& fallbacks_before(decls, i) == 1
}

/// Variant `j`'s discriminant equals an earlier variant's.
pub open spec fn duplicate_at(decls: Seq<VariantDecl>, j: int) -> bool {
    exists|i: int| 0 <= i < j && #[trigger] resolved(decls, i) == resolved(decls, j)
}

impl BitEnumDef {
    /// The discriminants in declaration order.
    pub open spec fn discriminants(&self) -> Seq<u128> {
        self.variants@.map_values(|v: Variant| v.discriminant)
    }

    /// A resolved enum: at least one variant, a fallback, distinct
    /// discriminants that fit the storage type.
    pub open spec fn wf(&self) -> bool {
        &&& self.variants@.len() >= 1
        &&& self.fallback < self.variants@.len()
        &&& forall|i: int, j: int| 0 <= i < j < self.variants@.len()
            ==> #[trigger] self.variants@[i].discriminant != #[trigger] self.variants@[j].discriminant
        &&& forall|i: int| 0 <= i < self.variants@.len()
            ==> (#[trigger] self.variants@[i]).discriminant < pow2(self.storage.bits())
    }
}

} // verus!

verus! {

proof fn lemma_bit_length_bound(x: nat, n: nat)
    requires
        x < pow2(n),
    ensures
        bit_length(x) <= n,
    decreases x,
{
    if x > 0 {
        lemma_pow2_pos(n);
        if n == 0 {
            assert(pow2(0) == 1) by { vstd::arithmetic::power2::lemma2_to64(); }
        } else {
            lemma_pow2_unfold(n);
            lemma_bit_length_bound(x / 2, (n - 1) as nat);
        }
    }
}

proof fn lemma_below_bit_length(x: nat)
    ensures
        x < pow2(bit_length(x)),
    decreases x,
{
    if x == 0 {
        assert(pow2(0) == 1) by { vstd::arithmetic::power2::lemma2_to64(); }
    } else {
        lemma_below_bit_length(x / 2);
        lemma_pow2_unfold(bit_length(x));
    }
}

/// Number of bits of `x`.
fn bit_length_exec(x: u128) -> (r: u32)
    ensures
        r == bit_length(x as nat),
        r <= 128,
{
    proof {
        crate::bits::lemma_pow2_128();
        lemma_bit_length_bound(x as nat, 128);
    }
    let mut y = x;
    let mut count: u32 = 0;
    while y > 0
        invariant
            count + bit_length(y as nat) == bit_length(x as nat),
            bit_length(x as nat) <= 128,
        decreases y,
    {
        y = y / 2;
        count = count + 1;
    }
    count
}

proof fn lemma_fallbacks_mono(decls: Seq<VariantDecl>, a: int, b: int)
    requires
        a <= b,
    ensures
        fallbacks_before(decls, a) <= fallbacks_before(decls, b),
    decreases b - a,
{
    if a < b {
        lemma_fallbacks_mono(decls, a, b - 1);
    }
}

/// The storage kind for the largest discriminant `max`.
pub open spec fn enum_storage(max: nat) -> Option<StorageKind> {
    StorageKind::spec_smallest_fitting(if max == 0 { 1 } else { bit_length(max) })
}

impl BitEnumDef {
    /// Resolves a `#[bitenum]` declaration: discriminants default to one more
    /// than the previous variant's, exactly one variant must be marked
    /// `#[fallback]`, discriminants must be distinct, and the storage is the
    /// smallest unsigned type holding the largest discriminant.
    pub fn new(name: String, decls: &Vec<VariantDecl>) -> (r: Result<BitEnumDef, BitEnumError>)
        requires
            resolvable(decls@),
        ensures
            resolves_to(name, decls@, r),
    {
        let n = decls.len();
        if n == 0 {
            proof {
                assert forall|i: int| !#[trigger] second_fallback(decls@, i) by {}
            }
            return Err(BitEnumError::NoVariants);
        }
        let mut next: u128 = 0;
        let mut fallback: Option<usize> = None;
        let mut variants: Vec<Variant> = Vec::new();
        let mut max: u128 = 0;
        let mut i: usize = 0;
        while i < n
            invariant
                n == decls@.len(),
                n > 0,
                0 <= i <= n,
                resolvable(decls@),
                fallbacks_before(decls@, i as int) <= 1,
                fallback is None <==> fallbacks_before(decls@, i as int) == 0,
                fallback matches Some(k) ==> k < i && decls@[k as int].fallback,
                forall|j: int| 0 <= j < i ==> !#[trigger] second_fallback(decls@, j),
                i > 0 ==> next == resolved(decls@, i - 1) + 1,
                i == 0 ==> next == 0,
                variants@.len() == i,
                forall|k: int| 0 <= k < i ==> (#[trigger] variants@[k]).name == decls@[k].name
                    && variants@[k].discriminant == resolved(decls@, k),
                max == max_resolved(decls@, i as int),
            decreases n - i,
        {
            let d = &decls[i];
            if d.fallback {
                if fallback.is_some() {
                    proof {
                        assert(second_fallback(decls@, i as int));
                        lemma_fallbacks_mono(decls@, i as int + 1, n as int);
                        assert forall|j: int| #[trigger] second_fallback(decls@, j) implies j == i by {
                            if j < i {
                            } else if j > i {
                                lemma_fallbacks_mono(decls@, i as int + 1, j);
                            }
                        }
                    }
                    return Err(BitEnumError::MultipleFallbacks { variant: i });
                }
                fallback = Some(i);
            }
            let value = match d.discriminant {
                Some(v) => v,
                None => next,
            };
            proof {
                assert(fallbacks_before(decls@, i as int + 1) <= 1);
                assert(resolved(decls@, i as int) == value);
                assert(resolved(decls@, i as int) < u128::MAX);
            }
            variants.push(Variant { name: d.name.clone(), discriminant: value });
            if i == 0 || value > max {
                max = value;
            }
            next = value + 1;
            i = i + 1;
        }
        let fb = match fallback {
            None => {
                proof {
                    assert forall|j: int| !#[trigger] second_fallback(decls@, j) by {
                        if 0 <= j < n {
                            lemma_fallbacks_mono(decls@, j + 1, n as int);
                        }
                    }
                }
                return Err(BitEnumError::MissingFallback);
            },
            Some(k) => k,
        };
        proof {
            assert forall|j: int| !#[trigger] second_fallback(decls@, j) by {}
            assert(fallbacks_before(decls@, n as int) == 1);
        }
        let mut j: usize = 0;
        while j < n
            invariant
                n == decls@.len(),
                0 <= j <= n,
                variants@.len() == n,
                forall|k: int| 0 <= k < n ==> (#[trigger] variants@[k]).discriminant == resolved(decls@, k),
                forall|k: int| 0 <= k < j ==> !#[trigger] duplicate_at(decls@, k),
                forall|k: int| !#[trigger] second_fallback(decls@, k),
                fallbacks_before(decls@, n as int) == 1,
            decreases n - j,
        {
            let mut i2: usize = 0;
            while i2 < j
                invariant
                    n == decls@.len(),
                    0 <= i2 <= j < n,
                    variants@.len() == n,
                    forall|k: int| 0 <= k < n ==> (#[trigger] variants@[k]).discriminant == resolved(decls@, k),
                    forall|k: int| 0 <= k < i2 ==> resolved(decls@, k) != resolved(decls@, j as int),
                    forall|k: int| 0 <= k < j ==> !#[trigger] duplicate_at(decls@, k),
                    forall|k: int| !#[trigger] second_fallback(decls@, k),
                    fallbacks_before(decls@, n as int) == 1,
                decreases j - i2,
            {
                if variants[i2].discriminant == variants[j].discriminant {
                    proof {
                        assert(duplicate_at(decls@, j as int));
                        assert forall|j2: int| 0 <= j2 < decls@.len() && fallbacks_before(decls@, decls@.len() as int) == 1
                            && #[trigger] duplicate_at(decls@, j2) && (forall|k: int| 0 <= k < j2 ==> !duplicate_at(decls@, k))
                            implies j2 == j by {
                            if j2 < j {
                                assert(!duplicate_at(decls@, j2));
                            } else if j2 > j {
                                assert(0 <= j < j2);
                                assert(!duplicate_at(decls@, j as int));
                            }
                        }
                    }
                    return Err(BitEnumError::DuplicateDiscriminant { variant: j });
                }
                i2 = i2 + 1;
            }
            proof {
                assert(!duplicate_at(decls@, j as int)) by {
                    if duplicate_at(decls@, j as int) {
                        let k = choose|k: int| 0 <= k < j && #[trigger] resolved(decls@, k) == resolved(decls@, j as int);
                    }
                }
            }
            j = j + 1;
        }
        let len = bit_length_exec(max);
        let bits = if max == 0 { 1 } else { len };
        let storage = match StorageKind::smallest_fitting(bits) {
            Some(k) => k,
            None => {
                proof { assert(false); }
                StorageKind::W128
            },
        };
        proof {
            lemma_below_bit_length(max as nat);
            lemma_max_resolved_bound(decls@, n as int);
            assert forall|a: int, b: int| 0 <= a < b < variants@.len()
                implies #[trigger] variants@[a].discriminant != #[trigger] variants@[b].discriminant by {
                assert(!duplicate_at(decls@, b));
            }
            assert forall|a: int| 0 <= a < variants@.len()
                implies (#[trigger] variants@[a]).discriminant < pow2(storage.bits()) by {
                assert(variants@[a].discriminant <= max);
                if bits < storage.bits() {
                    lemma_pow2_strictly_increases(bits as nat, storage.bits());
                }
                if max == 0 {
                    lemma_pow2_pos(1);
                }
            }
        }
        Ok(BitEnumDef { name, variants, fallback: fb, storage })
    }
}

proof fn lemma_max_resolved_bound(decls: Seq<VariantDecl>, k: int)
    requires
        0 < k,
    ensures
        forall|i: int| 0 <= i < k ==> #[trigger] resolved(decls, i) <= max_resolved(decls, k),
    decreases k,
{
    if k > 1 {
        lemma_max_resolved_bound(decls, k - 1);
    }
}

} // verus!

verus! {

/// `raw` is the discriminant of one of the variants.
pub open spec fn is_discriminant(e: &BitEnumDef, raw: u128) -> bool {
    exists|i: int| 0 <= i < e.variants@.len() && #[trigger] e.variants@[i].discriminant == raw
}

impl BitEnumDef {
    /// The variant with discriminant `raw`, or the `#[fallback]` variant for a
    /// raw value matching no discriminant.
    pub fn from_raw(&self, raw: u128) -> (r: usize)
        requires
            self.wf(),
        ensures
            r < self.variants@.len(),
            is_discriminant(self, raw) ==> self.variants@[r as int].discriminant == raw,
            !is_discriminant(self, raw) ==> r == self.fallback,
    {
        match self.try_from_raw(raw) {
            Ok(i) => i,
            Err(_) => self.fallback,
        }
    }

    /// The variant with discriminant `raw`, or [`InvalidBitPattern`] for a raw
    /// value matching no discriminant (the fallback variant does not absorb it).
    pub fn try_from_raw(&self, raw: u128) -> (r: Result<usize, InvalidBitPattern>)
        requires
            self.wf(),
        ensures
            r is Ok <==> is_discriminant(self, raw),
            r matches Ok(i) ==> i < self.variants@.len() && self.variants@[i as int].discriminant == raw,
            r matches Err(e) ==> e.raw == raw,
    {
        let n = self.variants.len();
        let mut i: usize = 0;
        while i < n
            invariant
                n == self.variants@.len(),
                0 <= i <= n,
                forall|k: int| 0 <= k < i ==> (#[trigger] self.variants@[k]).discriminant != raw,
            decreases n - i,
        {
            if self.variants[i].discriminant == raw {
                return Ok(i);
            }
            i = i + 1;
        }
        Err(InvalidBitPattern::new(raw))
    }

    /// The discriminant of variant `v`.
    pub fn raw(&self, v: usize) -> (r: u128)
        requires
            v < self.variants@.len(),
        ensures
            r == self.variants@[v as int].discriminant,
    {
        self.variants[v].discriminant
    }

    /// The index of the variant named `name`.
    pub fn variant(&self, name: &str) -> (r: Option<usize>)
        ensures
            r matches Some(i) ==> i < self.variants@.len() && self.variants@[i as int].name@ == name@,
            r is None ==> forall|i: int| 0 <= i < self.variants@.len() ==> (#[trigger] self.variants@[i]).name@ != name@,
    {
        let n = self.variants.len();
        let mut i: usize = 0;
        while i < n
            invariant
                n == self.variants@.len(),
                0 <= i <= n,
                forall|k: int| 0 <= k < i ==> (#[trigger] self.variants@[k]).name@ != name@,
            decreases n - i,
        {
            if crate::text::str_eq(self.variants[i].name.as_str(), name) {
                return Some(i);
            }
            i = i + 1;
        }
        None
    }
}

/// The largest of the first `k` resolved discriminants is one of them.
proof fn lemma_max_resolved_attained(decls: Seq<VariantDecl>, k: int)
    requires
        0 < k,
    ensures
        exists|i: int| 0 <= i < k && #[trigger] resolved(decls, i) == max_resolved(decls, k),
    decreases k,
{
    if k == 1 {
        assert(resolved(decls, 0) == max_resolved(decls, 1));
    } else {
        lemma_max_resolved_attained(decls, k - 1);
        if resolved(decls, k - 1) == max_resolved(decls, k) {
            assert(resolved(decls, k - 1) == max_resolved(decls, k));
        } else {
            let i = choose|i: int| 0 <= i < k - 1 && #[trigger] resolved(decls, i) == max_resolved(decls, k - 1);
            assert(resolved(decls, i) == max_resolved(decls, k));
        }
    }
}

/// The storage of a resolved bit enum is the narrowest unsigned kind that
/// holds every discriminant: any kind holding them all is at least as wide.
pub proof fn lemma_enum_storage_narrowest(name: String, decls: Seq<VariantDecl>, e: BitEnumDef, k2: StorageKind)
    requires
        resolves_to(name, decls, Ok(e)),
        forall|i: int| 0 <= i < e.variants@.len() ==> (#[trigger] e.variants@[i]).discriminant < pow2(k2.bits()),
    ensures
        e.storage.bits() <= k2.bits(),
{
    let n = decls.len() as int;
    lemma_max_resolved_attained(decls, n);
    let i = choose|i: int| 0 <= i < n && #[trigger] resolved(decls, i) == max_resolved(decls, n);
    assert(e.variants@[i].discriminant == resolved(decls, i));
    let m = max_resolved(decls, n);
    assert(m < pow2(k2.bits()));
    lemma_bit_length_bound(m as nat, k2.bits());
    let len: nat = if m == 0 { 1 } else { bit_length(m as nat) };
    crate::laws::lemma_smallest_fitting(len);
    assert(k2.bits() >= len);
}

/// A resolved bit enum has exactly one `#[fallback]` variant, and it is the
/// one the raw values that match no discriminant convert to.
pub proof fn lemma_enum_single_fallback(name: String, decls: Seq<VariantDecl>, e: BitEnumDef, i: int)
    requires
        resolves_to(name, decls, Ok(e)),
        0 <= i < decls.len(),
    ensures
        decls[i].fallback <==> i == e.fallback,
{
    let n = decls.len() as int;
    let k = e.fallback as int;
    if decls[i].fallback && i != k {
        let (a, b) = if i < k { (i, k) } else { (k, i) };
        lemma_fallbacks_mono(decls, 0, a);
        lemma_fallbacks_mono(decls, a + 1, b);
        lemma_fallbacks_mono(decls, b + 1, n);
        assert(fallbacks_before(decls, a + 1) == fallbacks_before(decls, a) + 1);
        assert(fallbacks_before(decls, b + 1) == fallbacks_before(decls, b) + 1);
        assert(false);
    }
}

/// In a resolved enum a discriminant names one variant, so converting a
/// variant's discriminant back gives that variant.
pub proof fn lemma_discriminant_identifies_variant(e: &BitEnumDef, i: int, j: int)
    requires
        e.wf(),
        0 <= i < e.variants@.len(),
        0 <= j < e.variants@.len(),
        e.variants@[i].discriminant == e.variants@[j].discriminant,
    ensures
        i == j,
{
    if i < j {
        assert(e.variants@[i].discriminant != e.variants@[j].discriminant);
    } else if j < i {
        assert(e.variants@[j].discriminant != e.variants@[i].discriminant);
    }
}

} // verus!
