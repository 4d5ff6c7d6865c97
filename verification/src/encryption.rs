//! The commutative cipher, the reference decks and the card translator.
//!
//! Encryption of a card is scalar multiplication of its group element by the
//! key; in the discrete-log model that is multiplication of residues modulo
//! the group order, written `emul`. Commutativity of that multiplication is
//! the central invariant the whole protocol rests on.

use vstd::arithmetic::div_mod::{
    lemma_mul_mod_noop_left, lemma_mul_mod_noop_right, lemma_small_mod,
};
use vstd::arithmetic::mul::{lemma_mul_is_associative, lemma_mul_is_commutative};
use vstd::prelude::*;

use crate::group::{
    dlogs, fr_eq, fr_inverse, fr_mul, fresh_rng, generator_value, group_order, lemma_dlog_bound,
    point_add, sample_scalar, scalar_mul, value_eq, zero_value, EncryptedValue, KeyType,
};

verus! {

/// The model of encryption: the discrete log of `encrypt(v, k)` is the
/// residue of `d * k`, where `d` is the discrete log of `v`.
pub open spec fn emul(d: nat, k: nat) -> nat {
    (d * k) % group_order()
}

/// Composing two encryptions multiplies the two keys, modulo the group order.
pub proof fn lemma_emul_compose(d: nat, a: nat, b: nat)
    ensures
        emul(emul(d, a), b) == emul(d, (a * b) % group_order()),
{
    let m = group_order() as int;
    lemma_mul_mod_noop_left((d * a) as int, b as int, m);
    lemma_mul_is_associative(d as int, a as int, b as int);
    lemma_mul_mod_noop_right(d as int, (a * b) as int, m);
}

/// Encrypting twice commutes, and equals one encryption under the product
/// key: `emul(emul(d, k1), k2) == emul(emul(d, k2), k1) == emul(d, k1 * k2)`.
pub proof fn lemma_encrypt_commutes(d: nat, k1: nat, k2: nat)
    ensures
        emul(emul(d, k1), k2) == emul(d, (k1 * k2) % group_order()),
        emul(emul(d, k2), k1) == emul(d, (k1 * k2) % group_order()),
{
    lemma_emul_compose(d, k1, k2);
    lemma_emul_compose(d, k2, k1);
    lemma_mul_is_commutative(k1 as int, k2 as int);
}

/// Decrypting with the key used to encrypt returns the original value: for
/// any key with inverse `ik`, `emul(emul(d, k), ik) == d`.
pub proof fn lemma_cipher_roundtrip(d: nat, k: nat, ik: nat)
    requires
        d < group_order(),
        (k * ik) % group_order() == 1,
    ensures
        emul(emul(d, k), ik) == d,
        emul(emul(d, ik), k) == d,
{
    lemma_emul_compose(d, k, ik);
    lemma_emul_compose(d, ik, k);
    lemma_mul_is_commutative(k as int, ik as int);
    assert(emul(d, 1) == d) by {
        lemma_small_mod(d, group_order());
    }
}

/// Encrypt a card with a key: scalar multiplication in the group.
pub fn encrypt(message: &EncryptedValue, p_key: &KeyType) -> (r: EncryptedValue)
    ensures
        r.dlog() == emul(message.dlog(), p_key.scalar()),
{
    scalar_mul(message, p_key)
}

/// Decrypt a card with a key: scalar multiplication by the key's field
/// inverse. The result is the unique value that encrypts back to the input
/// under the same key.
pub fn decrypt(message: &EncryptedValue, p_key: &KeyType) -> (r: EncryptedValue)
    requires
        p_key.scalar() != 0,
    ensures
        emul(r.dlog(), p_key.scalar()) == message.dlog(),
        exists|ik: nat|
            (p_key.scalar() * ik) % group_order() == 1 && r.dlog() == emul(message.dlog(), ik),
{
    let inv = fr_inverse(p_key);
    match inv {
        Some(ik) => {
            let r = scalar_mul(message, &ik);
            proof {
                lemma_dlog_bound(*message);
                lemma_cipher_roundtrip(message.dlog(), p_key.scalar(), ik.scalar());
                lemma_mul_is_commutative(p_key.scalar() as int, ik.scalar() as int);
                assert((p_key.scalar() * ik.scalar()) % group_order() == 1 && r.dlog() == emul(
                    message.dlog(),
                    ik.scalar(),
                ));
            }
            r
        },
        None => {
            proof {
                assert(false);
            }
            *message
        },
    }
}

/// Sample a fresh key. Nothing is promised of the value: the scalar is drawn
/// uniformly and may, with negligible probability, be zero.
pub fn rand_key() -> KeyType {
    let mut rng = fresh_rng();
    sample_scalar(&mut rng)
}

/// Whether a key is the zero scalar, which has no inverse.
pub fn key_is_zero(k: &KeyType) -> (r: bool)
    ensures
        r == (k.scalar() == 0),
{
    let zero = KeyType::from_u64(0);
    proof {
        lemma_small_mod(0, group_order());
    }
    fr_eq(k, &zero)
}

/// Sample a key that is usable for decryption, that is, nonzero. Retries a
/// bounded number of times; `None` is returned only if the sampler handed
/// back the zero scalar on every attempt.
pub fn rand_nonzero_key() -> (r: Option<KeyType>)
    ensures
        match r {
            Some(k) => k.scalar() != 0,
            None => true,
        },
{
    let mut rng = fresh_rng();
    for _attempt in 0..64u32
        invariant
            true,
    {
        let k = sample_scalar(&mut rng);
        if !key_is_zero(&k) {
            return Some(k);
        }
    }
    None
}

/// Whether two keys hold the same scalar.
pub fn keys_equal(a: &KeyType, b: &KeyType) -> (r: bool)
    ensures
        r == (a.scalar() == b.scalar()),
{
    fr_eq(a, b)
}

/// Compose two keys by field multiplication; encrypting with the result
/// equals encrypting with one key and then the other.
pub fn mul_key(a: &KeyType, b: &KeyType) -> (r: KeyType)
    ensures
        r.scalar() == (a.scalar() * b.scalar()) % group_order(),
{
    fr_mul(a, b)
}

/// Whether two decks hold the same group elements, position by position.
pub fn decks_equal(a: &Vec<EncryptedValue>, b: &Vec<EncryptedValue>) -> (r: bool)
    ensures
        r == (dlogs(a@) == dlogs(b@)),
{
    if a.len() != b.len() {
        proof {
            assert(dlogs(a@).len() != dlogs(b@).len());
        }
        return false;
    }
    let n = a.len();
    for i in 0..n
        invariant
            n == a@.len(),
            n == b@.len(),
            forall|j: int| 0 <= j < i ==> dlogs(a@)[j] == dlogs(b@)[j],
    {
        if !value_eq(&a[i], &b[i]) {
            proof {
                assert(dlogs(a@)[i as int] != dlogs(b@)[i as int]);
            }
            return false;
        }
    }
    proof {
        assert(dlogs(a@) =~= dlogs(b@));
    }
    true
}

/// The unencrypted reference deck: for `i` in `0..52`, position `i` holds the
/// generator multiplied by `i`, that is, the element of discrete log `i`.
pub fn basic_deck() -> (r: Vec<EncryptedValue>)
    ensures
        r@.len() == 52,
        forall|i: int| 0 <= i < 52 ==> (#[trigger] r@[i]).dlog() == i,
{
    let g = generator_value();
    let mut cur = zero_value();
    let mut out: Vec<EncryptedValue> = Vec::new();
    for i in 0..52usize
        invariant
            out@.len() == i,
            forall|j: int| 0 <= j < i ==> (#[trigger] out@[j]).dlog() == j,
            cur.dlog() == i,
            g.dlog() == 1,
    {
        out.push(cur);
        cur = point_add(&cur, &g);
        proof {
            lemma_small_mod((i + 1) as nat, group_order());
        }
    }
    out
}

/// The index a short-deck position stands for: suit `p / 4`, rank-offset
/// `p % 4` within `9..13`, mapped into the full deck as `suit * 13 + offset + 9`.
pub open spec fn short_index(p: int) -> nat {
    ((p / 4) * 13 + p % 4 + 9) as nat
}

/// The reduced 16-card deck: a fixed sub-selection of the reference deck at
/// the offsets given by `short_index`.
pub fn short_deck() -> (r: Vec<EncryptedValue>)
    ensures
        r@.len() == 16,
        forall|p: int| 0 <= p < 16 ==> (#[trigger] r@[p]).dlog() == short_index(p),
{
    let g = generator_value();
    let mut out: Vec<EncryptedValue> = Vec::new();
    for p in 0..16usize
        invariant
            out@.len() == p,
            forall|q: int| 0 <= q < p ==> (#[trigger] out@[q]).dlog() == short_index(q),
            g.dlog() == 1,
    {
        let ind: u64 = (p as u64 / 4) * 13 + (p as u64 % 4) + 9;
        let k = KeyType::from_u64(ind);
        let v = encrypt(&g, &k);
        proof {
            lemma_small_mod(ind as nat, group_order());
            lemma_small_mod(k.scalar(), group_order());
        }
        out.push(v);
    }
    out
}

/// Reverse lookup from a fully decrypted group element to its card index,
/// built once from a reference deck. A linear scan is enough because the
/// plaintext space is small and fixed.
pub struct Translator {
    cards: Vec<EncryptedValue>,
}

impl Translator {
    /// The table of discrete logs, in position order.
    pub closed spec fn table(self) -> Seq<nat> {
        dlogs(self.cards@)
    }

    pub fn new(deck: &Vec<EncryptedValue>) -> (r: Translator)
        ensures
            r.table() == dlogs(deck@),
    {
        let mut cards: Vec<EncryptedValue> = Vec::new();
        let n = deck.len();
        for i in 0..n
            invariant
                n == deck@.len(),
                cards@.len() == i,
                forall|j: int| 0 <= j < i ==> #[trigger] cards@[j] == deck@[j],
        {
            cards.push(deck[i]);
        }
        proof {
            assert(cards@ =~= deck@);
        }
        Translator { cards }
    }

    /// Return the first position whose table entry equals the value, or
    /// `None` if the value lies outside the deck's domain.
    pub fn translate(&self, value: EncryptedValue) -> (r: Option<usize>)
        ensures
            match r {
                Some(i) => i < self.table().len() && self.table()[i as int] == value.dlog()
                    && forall|j: int| 0 <= j < i ==> self.table()[j] != value.dlog(),
                None => forall|j: int|
                    0 <= j < self.table().len() ==> self.table()[j] != value.dlog(),
            },
    {
        let n = self.cards.len();
        for i in 0..n
            invariant
                n == self.cards@.len(),
                forall|j: int| 0 <= j < i ==> self.table()[j] != value.dlog(),
        {
            if value_eq(&self.cards[i], &value) {
                return Some(i);
            }
        }
        None
    }
}

/// The table built from the reference deck maps the element of discrete log
/// `d` back to index `d` for `d` below the deck size, and to nothing at all
/// for any element outside the deck's domain.
pub proof fn lemma_translate_base_deck(table: Seq<nat>, d: nat, r: Option<usize>)
    requires
        table == Seq::new(52, |i: int| i as nat),
        match r {
            Some(i) => i < table.len() && table[i as int] == d && forall|j: int|
                0 <= j < i ==> table[j] != d,
            None => forall|j: int| 0 <= j < table.len() ==> table[j] != d,
        },
    ensures
        d < 52 ==> r == Some(d as usize),
        d >= 52 ==> r is None,
{
    if d < 52 {
        assert(table[d as int] == d);
    }
}

} // verus!
