//! The elliptic-curve group and scalar-field primitive, consumed from the
//! arkworks crates and modelled here by discrete logarithms.
//!
//! The Pallas curve has a prime-order group (cofactor 1), so every group
//! element is a scalar multiple of the fixed generator and is determined by
//! its discrete logarithm, a residue modulo the group order. Every trusted
//! wrapper below states what the wrapped arkworks call does to that residue.

use vstd::prelude::*;

verus! {

#[verifier::external_type_specification]
#[verifier::external_body]
pub struct ExThreadRng(rand::rngs::ThreadRng);

/// Opaque holder for an arkworks Pallas group element; Verus never looks
/// inside, and the trusted wrappers below are the only code that does.
#[verifier::external_body]
pub struct PallasPoint {
    p: ark_pallas::Projective,
}

impl Clone for PallasPoint {
    /// Relies on the `Copy` nature of arkworks projective points.
    #[verifier::external_body]
    fn clone(&self) -> (r: Self) {
        PallasPoint { p: self.p }
    }
}

impl Copy for PallasPoint {

}

/// Opaque holder for an arkworks Pallas scalar-field element.
#[verifier::external_body]
pub struct PallasScalar {
    s: ark_pallas::Fr,
}

impl Clone for PallasScalar {
    /// Relies on the `Copy` nature of arkworks field elements.
    #[verifier::external_body]
    fn clone(&self) -> (r: Self) {
        PallasScalar { s: self.s }
    }
}

impl Copy for PallasScalar {

}

/// Order of the Pallas group, which is also the order of its scalar field.
pub open spec fn group_order() -> nat {
    0x40000000000000000000000000000000224698fc0994a8dd8c46eb2100000001nat
}

/// The difference of two residues: `a - b` with the minuend lifted by one
/// group order so the subtraction stays in the naturals.
pub open spec fn sub_r(a: nat, b: nat) -> nat {
    (((a + group_order()) - b) % (group_order() as int)) as nat
}

/// A (possibly multiply-encrypted) card: an opaque Pallas group element,
/// modelled by its discrete logarithm with respect to the fixed generator.
#[derive(Clone, Copy)]
pub struct EncryptedValue {
    val: PallasPoint,
    rep: Ghost<nat>,
}

impl EncryptedValue {
    /// The discrete logarithm of this group element, always below the group order.
    pub closed spec fn dlog(self) -> nat {
        self.rep@ % group_order()
    }
}

pub proof fn lemma_dlog_bound(v: EncryptedValue)
    ensures
        v.dlog() < group_order(),
{
    vstd::arithmetic::div_mod::lemma_mod_division_less_than_divisor(
        v.rep@ as int,
        group_order() as int,
    );
}

/// A party's secret key: an opaque Pallas scalar, modelled by its residue.
#[derive(Clone, Copy)]
pub struct KeyType {
    val: PallasScalar,
    rep: Ghost<nat>,
}

impl KeyType {
    /// The residue of this scalar, always below the group order.
    pub closed spec fn scalar(self) -> nat {
        self.rep@ % group_order()
    }
}

pub proof fn lemma_scalar_bound(k: KeyType)
    ensures
        k.scalar() < group_order(),
{
    vstd::arithmetic::div_mod::lemma_mod_division_less_than_divisor(
        k.rep@ as int,
        group_order() as int,
    );
}

/// Relies on `ark_ec`'s scalar multiplication: in a prime-order group,
/// multiplying the element of discrete log `d` by the scalar `k` yields the
/// element of discrete log `d * k` modulo the group order.
#[verifier::external_body]
pub(crate) fn scalar_mul(v: &EncryptedValue, k: &KeyType) -> (r: EncryptedValue)
    ensures
        r.dlog() == (v.dlog() * k.scalar()) % group_order(),
{
    EncryptedValue { val: PallasPoint { p: v.val.p * k.val.s }, rep: Ghost(arbitrary()) }
}

/// Relies on `ark_ec`'s group addition: adding elements adds their discrete
/// logs modulo the group order.
#[verifier::external_body]
pub(crate) fn point_add(a: &EncryptedValue, b: &EncryptedValue) -> (r: EncryptedValue)
    ensures
        r.dlog() == (a.dlog() + b.dlog()) % group_order(),
{
    EncryptedValue { val: PallasPoint { p: a.val.p + b.val.p }, rep: Ghost(arbitrary()) }
}

/// Relies on `ark_ec::Group::generator`: the fixed generator, discrete log 1.
#[verifier::external_body]
pub fn generator_value() -> (r: EncryptedValue)
    ensures
        r.dlog() == 1,
{
    EncryptedValue {
        val: PallasPoint { p: <ark_pallas::Projective as ark_ec::Group>::generator() },
        rep: Ghost(arbitrary()),
    }
}

/// Relies on `ark_std::Zero::zero`: the group identity, discrete log 0.
#[verifier::external_body]
pub fn zero_value() -> (r: EncryptedValue)
    ensures
        r.dlog() == 0,
{
    EncryptedValue { val: PallasPoint { p: <ark_pallas::Projective as ark_std::Zero>::zero() }, rep: Ghost(arbitrary()) }
}

/// Relies on `ark_ec`'s equality test for projective points: two elements of
/// a prime-order cyclic group are equal exactly when their discrete logs are.
#[verifier::external_body]
pub fn value_eq(a: &EncryptedValue, b: &EncryptedValue) -> (r: bool)
    ensures
        r == (a.dlog() == b.dlog()),
{
    a.val.p == b.val.p
}

/// Relies on `ark_ff`'s field multiplication on the Pallas scalar field.
#[verifier::external_body]
pub(crate) fn fr_mul(a: &KeyType, b: &KeyType) -> (r: KeyType)
    ensures
        r.scalar() == (a.scalar() * b.scalar()) % group_order(),
{
    KeyType { val: PallasScalar { s: a.val.s * b.val.s }, rep: Ghost(arbitrary()) }
}

/// Relies on `ark_ff`'s field addition on the Pallas scalar field.
#[verifier::external_body]
pub(crate) fn fr_add(a: &KeyType, b: &KeyType) -> (r: KeyType)
    ensures
        r.scalar() == (a.scalar() + b.scalar()) % group_order(),
{
    KeyType { val: PallasScalar { s: a.val.s + b.val.s }, rep: Ghost(arbitrary()) }
}

/// Relies on `ark_ff`'s field subtraction on the Pallas scalar field; the
/// result is stated over natural residues, so the minuend is first lifted by
/// one group order.
#[verifier::external_body]
pub(crate) fn fr_sub(a: &KeyType, b: &KeyType) -> (r: KeyType)
    ensures
        r.scalar() == sub_r(a.scalar(), b.scalar()),
{
    KeyType { val: PallasScalar { s: a.val.s - b.val.s }, rep: Ghost(arbitrary()) }
}

/// Relies on `ark_ff::Field::inverse`: `None` exactly on the zero scalar,
/// otherwise the unique multiplicative inverse in the field.
#[verifier::external_body]
pub(crate) fn fr_inverse(k: &KeyType) -> (r: Option<KeyType>)
    ensures
        match r {
            Some(ik) => k.scalar() != 0 && (k.scalar() * ik.scalar()) % group_order() == 1,
            None => k.scalar() == 0,
        },
{
    match ark_ff::Field::inverse(&k.val.s) {
        Some(iv) => Some(KeyType { val: PallasScalar { s: iv }, rep: Ghost(arbitrary()) }),
        None => None,
    }
}

/// Relies on `ark_ff`'s equality test on the Pallas scalar field.
#[verifier::external_body]
pub(crate) fn fr_eq(a: &KeyType, b: &KeyType) -> (r: bool)
    ensures
        r == (a.scalar() == b.scalar()),
{
    a.val.s == b.val.s
}

impl KeyType {
    /// Relies on `ark_ff`'s `From<u64>` conversion: the scalar representing
    /// `x`, that is, `x` reduced modulo the group order.
    #[verifier::external_body]
    pub fn from_u64(x: u64) -> (r: KeyType)
        ensures
            r.scalar() == (x as nat) % group_order(),
    {
        KeyType { val: PallasScalar { s: ark_pallas::Fr::from(x) }, rep: Ghost(arbitrary()) }
    }

    /// Relies on `ark_ff`'s `From<u128>` conversion: the scalar representing
    /// `x`, that is, `x` reduced modulo the group order.
    #[verifier::external_body]
    pub(crate) fn from_u128(x: u128) -> (r: KeyType)
        ensures
            r.scalar() == (x as nat) % group_order(),
    {
        KeyType { val: PallasScalar { s: ark_pallas::Fr::from(x) }, rep: Ghost(arbitrary()) }
    }
}

/// Name for the canonical compressed serialization of the group element of a
/// given discrete log. The encoding is a function of the element alone, and
/// the element is determined by its discrete log.
pub uninterp spec fn compressed_of(d: nat) -> Seq<u8>;

/// Relies on `ark_serialize`'s `serialize_compressed`: the canonical
/// compressed byte encoding of the element, a function of the element alone.
/// Writing into a fresh in-memory vector cannot fail.
#[verifier::external_body]
pub(crate) fn point_bytes(v: &EncryptedValue) -> (r: Vec<u8>)
    ensures
        r@ == compressed_of(v.dlog()),
{
    let mut bytes = Vec::new();
    ark_serialize::CanonicalSerialize::serialize_compressed(&v.val.p, &mut bytes).unwrap();
    bytes
}

/// Relies on `ark_serialize`'s `deserialize_compressed`: `None` on bytes that
/// are not a valid canonical encoding of a curve point, otherwise the encoded
/// element.
#[verifier::external_body]
pub(crate) fn point_parse(bytes: &Vec<u8>) -> (r: Option<EncryptedValue>)
{
    let parsed: Result<ark_pallas::Projective, _> =
        ark_serialize::CanonicalDeserialize::deserialize_compressed(bytes.as_slice());
    match parsed {
        Ok(p) => Some(EncryptedValue { val: PallasPoint { p }, rep: Ghost(arbitrary()) }),
        Err(_) => None,
    }
}

/// Relies on `ark_serialize`'s `serialize_compressed` for field elements: the
/// canonical little-endian byte encoding of the scalar's residue.
#[verifier::external_body]
pub(crate) fn scalar_bytes(k: &KeyType) -> Vec<u8> {
    let mut bytes = Vec::new();
    ark_serialize::CanonicalSerialize::serialize_compressed(&k.val.s, &mut bytes).unwrap();
    bytes
}

/// Relies on `ark_serialize`'s `deserialize_compressed` for field elements:
/// `None` on bytes that do not encode a residue below the group order.
#[verifier::external_body]
pub(crate) fn scalar_parse(bytes: &Vec<u8>) -> (r: Option<KeyType>)
{
    let parsed: Result<ark_pallas::Fr, _> =
        ark_serialize::CanonicalDeserialize::deserialize_compressed(bytes.as_slice());
    match parsed {
        Ok(s) => Some(KeyType { val: PallasScalar { s }, rep: Ghost(arbitrary()) }),
        Err(_) => None,
    }
}

/// The sequence of discrete logs of a sequence of encrypted values.
pub open spec fn dlogs(s: Seq<EncryptedValue>) -> Seq<nat> {
    s.map_values(|v: EncryptedValue| v.dlog())
}

/// The sequence of residues of a sequence of keys.
pub open spec fn scalars(s: Seq<KeyType>) -> Seq<nat> {
    s.map_values(|k: KeyType| k.scalar())
}

/// Relies on `rand::thread_rng`: a handle to the thread-local generator.
#[verifier::external_body]
pub(crate) fn fresh_rng() -> rand::rngs::ThreadRng {
    rand::thread_rng()
}

/// Relies on `ark_std::UniformRand::rand`: a uniformly sampled scalar. Nothing
/// is promised of the value beyond its range; in particular it may be zero.
#[verifier::external_body]
pub(crate) fn sample_scalar(rng: &mut rand::rngs::ThreadRng) -> (r: KeyType)
    ensures
        r.scalar() < group_order(),
{
    KeyType { val: PallasScalar { s: <ark_pallas::Fr as ark_std::UniformRand>::rand(rng) }, rep: Ghost(arbitrary()) }
}

/// Relies on `rand`'s `SliceRandom::shuffle`: the vector is permuted in
/// place, so the multiset of discrete logs is unchanged; nothing is promised
/// about the resulting order.
#[verifier::external_body]
pub(crate) fn shuffle_values(deck: &mut Vec<EncryptedValue>, rng: &mut rand::rngs::ThreadRng)
    ensures
        final(deck)@.len() == old(deck)@.len(),
        dlogs(final(deck)@).to_multiset() == dlogs(old(deck)@).to_multiset(),
{
    rand::seq::SliceRandom::shuffle(deck.as_mut_slice(), rng)
}

/// Relies on `rand`'s `SliceRandom::shuffle`: the vector is permuted in
/// place. A permutation keeps the multiset of entries, keeps membership, and
/// keeps pairwise-distinct entries distinct; nothing is promised about the
/// resulting order.
#[verifier::external_body]
pub(crate) fn shuffle_indices(perm: &mut Vec<usize>, rng: &mut rand::rngs::ThreadRng)
    ensures
        final(perm)@.len() == old(perm)@.len(),
        final(perm)@.to_multiset() == old(perm)@.to_multiset(),
        forall|i: int| 0 <= i < final(perm)@.len() ==> old(perm)@.contains(#[trigger] final(perm)@[i]),
        (forall|i: int, j: int|
            0 <= i < j < old(perm)@.len() ==> old(perm)@[i] != old(perm)@[j]) ==> (forall|
            i: int,
            j: int,
        |
            0 <= i < j < final(perm)@.len() ==> final(perm)@[i] != final(perm)@[j]),
{
    rand::seq::SliceRandom::shuffle(perm.as_mut_slice(), rng)
}

} // verus!
