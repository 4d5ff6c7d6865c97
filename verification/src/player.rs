//! The player aggregate produced by deck preparation, and the pure rounds of
//! the two-party verifiable preparation exchange.
//!
//! Networking stays outside the core: a front end ships the proofs and decks
//! produced here to its peer and hands received ones back in.

use vstd::prelude::*;

use crate::encryption::{basic_deck, emul, rand_nonzero_key, Translator};
use crate::game::{CardFromDeck, ShowHandDeck};
use crate::group::{dlogs, fresh_rng, group_order, scalars, shuffle_indices, EncryptedValue, KeyType};
use crate::shuffle::ShuffleError;
use crate::verifiable::{cp_ok, ring_ok, EncryptWithProof, ShuffleWithProof};

verus! {

/// Who holds a deck position; an undrawn position carries no tag at all.
#[derive(Clone, Copy, Debug, PartialEq, Eq, Structural)]
pub enum Owner {
    Me(CardFromDeck),
    Other(usize),
}

/// One party's standing state after deck preparation: the shared deck, this
/// party's per-position keys, the ownership tags, and the reverse-lookup
/// table built from the reference deck.
pub struct Player {
    pub deck: Vec<EncryptedValue>,
    pub keys: Vec<KeyType>,
    pub owners: Vec<Option<Owner>>,
    pub name: String,
    pub translator: Translator,
}

/// The cards this side holds, in position order.
pub open spec fn held_cards(owners: Seq<Option<Owner>>) -> Seq<CardFromDeck>
    decreases owners.len(),
{
    if owners.len() == 0 {
        Seq::empty()
    } else {
        held_cards(owners.drop_last()) + (match owners.last() {
            Some(Owner::Me(cd)) => seq![cd],
            _ => Seq::empty(),
        })
    }
}

/// How many positions are still undrawn.
pub open spec fn undrawn_count(owners: Seq<Option<Owner>>) -> nat
    decreases owners.len(),
{
    if owners.len() == 0 {
        0
    } else {
        undrawn_count(owners.drop_last()) + (if owners.last() is None {
            1nat
        } else {
            0nat
        })
    }
}

impl Player {
    /// The residues of the per-position keys.
    pub open spec fn keys_view(self) -> Seq<nat> {
        scalars(self.keys@)
    }

    /// The discrete logs of the shared deck.
    pub open spec fn deck_view(self) -> Seq<nat> {
        dlogs(self.deck@)
    }

    /// Well-formedness: one key and one ownership tag per position, and the
    /// translator holds the reference table, index `i` at entry `i`.
    pub open spec fn wf(self) -> bool {
        &&& self.keys@.len() == self.deck@.len()
        &&& self.owners@.len() == self.deck@.len()
        &&& self.translator.table() == Seq::new(52, |i: int| i as nat)
    }

    /// Assemble a player from a prepared deck and its keys; every position
    /// starts undrawn.
    pub fn new(name: String, deck: Vec<EncryptedValue>, keys: Vec<KeyType>) -> (r: Player)
        requires
            keys@.len() == deck@.len(),
        ensures
            r.wf(),
            r.deck@ == deck@,
            r.keys@ == keys@,
            r.name@ == name@,
            forall|i: int| 0 <= i < r.owners@.len() ==> r.owners@[i] is None,
    {
        let n = deck.len();
        let mut owners: Vec<Option<Owner>> = Vec::new();
        for i in 0..n
            invariant
                owners@.len() == i,
                forall|j: int| 0 <= j < i ==> owners@[j] is None,
        {
            owners.push(None);
        }
        let base = basic_deck();
        let translator = Translator::new(&base);
        proof {
            assert(dlogs(base@) =~= Seq::new(52, |i: int| i as nat));
        }
        Player { deck, keys, owners, name, translator }
    }

    /// The cards this side holds, each with its deck position.
    pub fn show_hand(&self) -> (r: Vec<CardFromDeck>)
        ensures
            r@ == held_cards(self.owners@),
    {
        let n = self.owners.len();
        let mut out: Vec<CardFromDeck> = Vec::new();
        for i in 0..n
            invariant
                n == self.owners@.len(),
                out@ == held_cards(self.owners@.take(i as int)),
        {
            proof {
                let pre = self.owners@.take(i as int);
                let post = self.owners@.take(i + 1);
                assert(post.drop_last() =~= pre);
                assert(post.last() == self.owners@[i as int]);
            }
            match &self.owners[i] {
                Some(Owner::Me(cd)) => {
                    out.push(*cd);
                    proof {
                        assert(out@ =~= held_cards(self.owners@.take(i + 1)));
                    }
                },
                _ => {
                    proof {
                        assert(out@ =~= held_cards(self.owners@.take(i + 1)));
                    }
                },
            }
        }
        proof {
            assert(self.owners@.take(n as int) =~= self.owners@);
        }
        out
    }

    /// How many positions are still undrawn.
    pub fn deck_size(&self) -> (r: usize)
        ensures
            r == undrawn_count(self.owners@),
    {
        let n = self.owners.len();
        let mut count: usize = 0;
        for i in 0..n
            invariant
                n == self.owners@.len(),
                count == undrawn_count(self.owners@.take(i as int)),
                count <= i,
        {
            proof {
                let pre = self.owners@.take(i as int);
                let post = self.owners@.take(i + 1);
                assert(post.drop_last() =~= pre);
                assert(post.last() == self.owners@[i as int]);
            }
            if self.owners[i].is_none() {
                count = count + 1;
            }
        }
        proof {
            assert(self.owners@.take(n as int) =~= self.owners@);
        }
        count
    }
}

impl ShowHandDeck for Player {
    fn show_hand(&self) -> Vec<CardFromDeck> {
        Player::show_hand(self)
    }

    fn deck_size(&self) -> usize {
        Player::deck_size(self)
    }
}

/// The output deck is the input deck permuted by `perm` and encrypted by
/// `k`: `perm` covers the input positions exactly once each.
pub open spec fn masked_permutation(
    dpre: Seq<EncryptedValue>,
    aftr: Seq<EncryptedValue>,
    k: nat,
    perm: Seq<int>,
) -> bool {
    &&& perm.len() == dpre.len()
    &&& aftr.len() == dpre.len()
    &&& (forall|i: int| 0 <= i < perm.len() ==> 0 <= #[trigger] perm[i] < perm.len())
    &&& (forall|i: int, j: int|
        #![trigger perm[i], perm[j]]
        0 <= i < j < perm.len() ==> perm[i] != perm[j])
    &&& (forall|i: int|
        0 <= i < perm.len() ==> (#[trigger] aftr[i]).dlog() == emul(dpre[perm[i]].dlog(), k))
}

/// What one side's shuffle round yields: a fresh nonzero masking key, and a
/// proof whose output deck is a masked permutation of the given deck, with a
/// valid ring per output position.
pub open spec fn shuffle_round_ok(
    deck: Seq<EncryptedValue>,
    sp: ShuffleWithProof,
    key: KeyType,
) -> bool {
    &&& key.scalar() != 0
    &&& sp.values_prev@ == deck
    &&& sp.public_key.dlog() == emul(1, key.scalar())
    &&& sp.values_aftr@.len() == deck.len()
    &&& sp.proofs@.len() == deck.len()
    &&& exists|perm: Seq<int>| #[trigger] masked_permutation(
        deck,
        sp.values_aftr@,
        key.scalar(),
        perm,
    )
    &&& forall|i: int|
        0 <= i < deck.len() ==> ring_ok(
            dlogs(deck),
            sp.values_aftr@[i].dlog(),
            sp.public_key.dlog(),
            (#[trigger] sp.proofs@[i])@,
        )
}

/// One side's shuffle round of the verifiable preparation: sample a nonzero
/// masking key and a uniform permutation, and generate the shuffle proof
/// over the given deck. Fails only if the scalar sampler yielded no usable
/// key.
pub fn shuffle_round(deck: Vec<EncryptedValue>) -> (r: Result<
    (ShuffleWithProof, KeyType),
    ShuffleError,
>)
    ensures
        match r {
            Ok((sp, key)) => shuffle_round_ok(deck@, sp, key),
            Err(e) => e == ShuffleError::BadRandomness,
        },
{
    let p_key = match rand_nonzero_key() {
        Some(k) => k,
        None => { return Err(ShuffleError::BadRandomness) },
    };
    let n = deck.len();
    let mut perm: Vec<usize> = Vec::new();
    for i in 0..n
        invariant
            perm@.len() == i,
            forall|j: int| 0 <= j < i ==> #[trigger] perm@[j] == j,
    {
        perm.push(i);
    }
    let mut rng = fresh_rng();
    let ghost ident = perm@;
    shuffle_indices(&mut perm, &mut rng);
    proof {
        assert forall|i: int| 0 <= i < perm@.len() implies (#[trigger] perm@[i]) < n by {
            assert(ident.contains(perm@[i]));
            let j = choose|j: int| 0 <= j < ident.len() && ident[j] == perm@[i];
            assert(ident[j] == j);
        }
        assert(forall|i: int, j: int| 0 <= i < j < ident.len() ==> ident[i] != ident[j]);
    }
    let ghost dsnap = deck@;
    let sp = ShuffleWithProof::generate(deck, &p_key, &perm);
    proof {
        let pm = Seq::new(perm@.len() as nat, |i: int| perm@[i] as int);
        assert forall|i: int| 0 <= i < pm.len() implies 0 <= #[trigger] pm[i] < pm.len() by {
            assert(perm@[i] < n);
        }
        assert forall|i: int, j: int| 0 <= i < j < pm.len() implies pm[i] != pm[j] by {
            assert(perm@[i] != perm@[j]);
        }
        assert forall|i: int| 0 <= i < pm.len() implies (#[trigger] sp.values_aftr@[i]).dlog()
            == emul(dsnap[pm[i]].dlog(), p_key.scalar()) by {
            assert(sp.values_aftr@[i].dlog() == emul(
                dsnap[perm@[i] as int].dlog(),
                p_key.scalar(),
            ));
        }
        assert(masked_permutation(dsnap, sp.values_aftr@, p_key.scalar(), pm));
        assert forall|i: int| 0 <= i < dsnap.len() implies ring_ok(
            dlogs(dsnap),
            sp.values_aftr@[i].dlog(),
            sp.public_key.dlog(),
            (#[trigger] sp.proofs@[i])@,
        ) by {
            assert(ring_ok(
                dlogs(dsnap),
                sp.values_aftr@[i].dlog(),
                sp.public_key.dlog(),
                sp.proofs@[i]@,
            ));
        }
        assert(shuffle_round_ok(dsnap, sp, p_key));
    }
    Ok((sp, p_key))
}

/// One side's re-encryption round of the verifiable preparation: sample one
/// fresh nonzero key per position and generate the re-encryption proof over
/// the counterpart's output.
pub fn encrypt_round(values: Vec<EncryptedValue>) -> (r: Result<
    (EncryptWithProof, Vec<KeyType>),
    ShuffleError,
>)
    ensures
        match r {
            Ok((ep, keys)) => {
                &&& keys@.len() == values@.len()
                &&& forall|i: int| 0 <= i < keys@.len() ==> (#[trigger] keys@[i]).scalar() != 0
                &&& ep.values_prev@ == values@
                &&& ep.values_aftr@.len() == values@.len()
                &&& ep.proofs@.len() == values@.len()
                &&& forall|i: int|
                    0 <= i < values@.len() ==> (#[trigger] ep.values_aftr@[i]).dlog() == emul(
                        values@[i].dlog(),
                        keys@[i].scalar(),
                    )
                &&& forall|i: int|
                    0 <= i < values@.len() ==> cp_ok(
                        values@[i].dlog(),
                        ep.values_aftr@[i].dlog(),
                        (#[trigger] ep.proofs@[i]).challenge.scalar(),
                        ep.proofs@[i].response.scalar(),
                    )
            },
            Err(e) => e == ShuffleError::BadRandomness,
        },
{
    let n = values.len();
    let mut keys: Vec<KeyType> = Vec::new();
    for i in 0..n
        invariant
            keys@.len() == i,
            forall|j: int| 0 <= j < i ==> (#[trigger] keys@[j]).scalar() != 0,
    {
        match rand_nonzero_key() {
            Some(k) => keys.push(k),
            None => { return Err(ShuffleError::BadRandomness) },
        };
    }
    let ep = EncryptWithProof::generate(values, &keys);
    Ok((ep, keys))
}

/// The four preparation keys collapse, against the two folded keys'
/// inverses, to the unit key.
proof fn lemma_key_product_is_one(k0: nat, k1: nat, ka: nat, kb: nat, ifa: nat, ifb: nat)
    requires
        (((ka * k0) % group_order()) * ifa) % group_order() == 1,
        (((kb * k1) % group_order()) * ifb) % group_order() == 1,
    ensures
        (((((((((k0 * k1) % group_order()) * ka) % group_order()) * kb) % group_order()) * ifa)
            % group_order()) * ifb) % group_order() == 1,
{
    let g = group_order() as int;
    vstd::arithmetic::div_mod::lemma_mul_mod_noop_left((k0 * k1) as int, ka as int, g);
    vstd::arithmetic::div_mod::lemma_mul_mod_noop_left((k0 * k1 * ka) as int, kb as int, g);
    vstd::arithmetic::div_mod::lemma_mul_mod_noop_left((k0 * k1 * ka * kb) as int, ifa as int, g);
    vstd::arithmetic::div_mod::lemma_mul_mod_noop_left(
        (k0 * k1 * ka * kb * ifa) as int,
        ifb as int,
        g,
    );
    vstd::arithmetic::div_mod::lemma_mul_mod_noop_left((ka * k0) as int, ifa as int, g);
    vstd::arithmetic::div_mod::lemma_mul_mod_noop_left((kb * k1) as int, ifb as int, g);
    assert(((ka * k0 * ifa) as int) % g == 1);
    assert(((kb * k1 * ifb) as int) % g == 1);
    let pa: nat = ka * k0 * ifa;
    let pb: nat = kb * k1 * ifb;
    assert(k0 * k1 * ka * kb * ifa * ifb == pa * pb) by (nonlinear_arith)
        requires
            pa == ka * k0 * ifa,
            pb == kb * k1 * ifb,
    ;
    vstd::arithmetic::div_mod::lemma_mul_mod_noop(pa as int, pb as int, g);
    vstd::arithmetic::div_mod::lemma_small_mod(1, group_order());
}

/// The deck-preparation round trip for one position: a card masked by both
/// parties' deck-wide keys `k0`, `k1` and both parties' position keys `ka`,
/// `kb` is opened by decrypting with the two folded keys `ka * k0` and
/// `kb * k1`; `ifa` and `ifb` are their field inverses.
pub proof fn lemma_prepared_card_opens(
    d: nat,
    k0: nat,
    k1: nat,
    ka: nat,
    kb: nat,
    ifa: nat,
    ifb: nat,
)
    requires
        d < group_order(),
        (((ka * k0) % group_order()) * ifa) % group_order() == 1,
        (((kb * k1) % group_order()) * ifb) % group_order() == 1,
    ensures
        emul(emul(emul(emul(emul(emul(d, k0), k1), ka), kb), ifa), ifb) == d,
{
    let c1 = (k0 * k1) % group_order();
    let c2 = (c1 * ka) % group_order();
    let c3 = (c2 * kb) % group_order();
    let c4 = (c3 * ifa) % group_order();
    let c5 = (c4 * ifb) % group_order();
    // Collapse the six layers into one product key.
    crate::encryption::lemma_emul_compose(d, k0, k1);
    crate::encryption::lemma_emul_compose(d, c1, ka);
    crate::encryption::lemma_emul_compose(d, c2, kb);
    crate::encryption::lemma_emul_compose(d, c3, ifa);
    crate::encryption::lemma_emul_compose(d, c4, ifb);
    assert(emul(emul(emul(emul(emul(emul(d, k0), k1), ka), kb), ifa), ifb) == emul(d, c5));
    // That product key is the unit key, which changes nothing.
    lemma_key_product_is_one(k0, k1, ka, kb, ifa, ifb);
    assert(c5 == 1);
    assert(emul(d, 1) == d) by {
        vstd::arithmetic::div_mod::lemma_small_mod(d, group_order());
    }
}

/// Fold every per-position key with the deck-wide masking key, so one key
/// per position opens a card after preparation.
pub fn fold_keys(keys: &mut Vec<KeyType>, p_key: &KeyType)
    ensures
        final(keys)@.len() == old(keys)@.len(),
        forall|i: int|
            0 <= i < old(keys)@.len() ==> (#[trigger] final(keys)@[i]).scalar() == (old(
                keys,
            )@[i].scalar() * p_key.scalar()) % group_order(),
{
    let n = keys.len();
    let ghost orig = keys@;
    for i in 0..n
        invariant
            keys@.len() == n,
            orig.len() == n,
            forall|j: int|
                0 <= j < i ==> (#[trigger] keys@[j]).scalar() == (orig[j].scalar()
                    * p_key.scalar()) % group_order(),
            forall|j: int| i <= j < n ==> keys@[j] == orig[j],
    {
        let folded = crate::encryption::mul_key(&keys[i], p_key);
        *vstd::std_specs::vec::vec_index_mut(keys, i) = folded;
    }
}

} // verus!
