//! The semi-honest shuffle state machine.
//!
//! Each party rotates the shared deck through an encrypt-and-permute step and
//! a decrypt-and-re-encrypt step, then accepts the jointly agreed final deck.
//! Assuming all parties follow the protocol, the deck ends uniformly shuffled
//! with one key per position and nobody knows the permutation.

use vstd::prelude::*;

use crate::encryption::{decrypt, emul, encrypt, rand_nonzero_key};
use crate::group::{
    dlogs, fresh_rng, group_order, scalars, shuffle_values, EncryptedValue, KeyType,
};

verus! {

/// The phase a party is in; strictly forward-progressing, `Done` terminal.
#[derive(Clone, Copy, Debug, PartialEq, Eq, Structural)]
pub enum PartyState {
    WaitForShuffle,
    WaitForEncryption,
    WaitForDeck,
    Done,
}

/// The one runtime failure of the state machine: the scalar sampler returned
/// zero on every attempt, so no usable masking key exists.
#[derive(Clone, Copy, Debug, PartialEq, Eq, Structural)]
pub enum ShuffleError {
    BadRandomness,
}

/// The deck after re-encryption and an unknown permutation: some reordering
/// of `before` with every position encrypted by `k`.
pub open spec fn reencrypted(before: Seq<nat>, after: Seq<nat>, k: nat) -> bool {
    after.to_multiset() == before.map_values(|d: nat| emul(d, k)).to_multiset()
}

/// One party's view of the shuffle protocol.
pub struct PartyBasic {
    pub state: PartyState,
    keys: Vec<KeyType>,
    deck: Vec<EncryptedValue>,
}

/// Nothing moved: phase, keys, stored deck and shared deck all unchanged.
pub open spec fn turn_unchanged(
    pre: PartyBasic,
    post: PartyBasic,
    dpre: Seq<EncryptedValue>,
    dpost: Seq<EncryptedValue>,
) -> bool {
    &&& post.phase() == pre.phase()
    &&& post.keys_view() == pre.keys_view()
    &&& post.deck_view() == pre.deck_view()
    &&& dpost == dpre
}

/// The first transition: a fresh nonzero masking key was pushed, and the
/// shared deck is a permutation of the old deck encrypted by that key.
pub open spec fn shuffle_step(
    pre: PartyBasic,
    post: PartyBasic,
    dpre: Seq<EncryptedValue>,
    dpost: Seq<EncryptedValue>,
) -> bool {
    &&& post.phase() == PartyState::WaitForEncryption
    &&& post.deck_view() == pre.deck_view()
    &&& dpost.len() == dpre.len()
    &&& exists|k: nat|
        0 < k < group_order() && post.keys_view() == pre.keys_view().push(k)
            && #[trigger] reencrypted(dlogs(dpre), dlogs(dpost), k)
}

/// Position by position: `mids[i]` is the card with the mask stripped, that
/// is, it encrypts to the old card under `mask`, and the new card is `mids[i]`
/// encrypted under that position's key.
pub open spec fn unmasked_reencryption(
    dpre: Seq<EncryptedValue>,
    dpost: Seq<EncryptedValue>,
    mask: nat,
    keys: Seq<nat>,
    mids: Seq<nat>,
) -> bool {
    &&& mids.len() == dpre.len()
    &&& forall|i: int|
        0 <= i < dpre.len() ==> emul(#[trigger] mids[i], mask) == dpre[i].dlog() && dlogs(dpost)[i]
            == emul(mids[i], keys[i])
}

/// The second transition: the single masking key was replaced by one fresh
/// key per position; each new card is the old card with the masking key
/// stripped and its own position key applied.
pub open spec fn encryption_step(
    pre: PartyBasic,
    post: PartyBasic,
    dpre: Seq<EncryptedValue>,
    dpost: Seq<EncryptedValue>,
) -> bool {
    &&& post.phase() == PartyState::WaitForDeck
    &&& post.deck_view() == pre.deck_view()
    &&& dpost.len() == dpre.len()
    &&& post.keys_view().len() == dpre.len()
    &&& exists|mids: Seq<nat>| #[trigger] unmasked_reencryption(
        dpre,
        dpost,
        pre.keys_view()[0],
        post.keys_view(),
        mids,
    )
}

/// The last transition: the shared deck was accepted as authoritative and
/// stored; the keys are untouched.
pub open spec fn accept_step(
    pre: PartyBasic,
    post: PartyBasic,
    dpre: Seq<EncryptedValue>,
    dpost: Seq<EncryptedValue>,
) -> bool {
    &&& post.phase() == PartyState::Done
    &&& post.keys_view() == pre.keys_view()
    &&& post.deck_view() == dlogs(dpre)
    &&& dpost == dpre
}

impl PartyBasic {
    /// The phase the machine is in, as seen by contracts.
    pub closed spec fn phase(self) -> PartyState {
        self.state
    }

    /// The residues of the keys this party holds, in order.
    pub closed spec fn keys_view(self) -> Seq<nat> {
        scalars(self.keys@)
    }

    /// The discrete logs of the deck this party has accepted as final.
    pub closed spec fn deck_view(self) -> Seq<nat> {
        dlogs(self.deck@)
    }

    /// Well-formedness: the key stack matches the phase, and every held key
    /// is nonzero, so it can later decrypt.
    pub closed spec fn wf(self) -> bool {
        &&& (self.state == PartyState::WaitForShuffle ==> self.keys@.len() == 0)
        &&& (self.state == PartyState::WaitForEncryption ==> self.keys@.len() == 1)
        &&& (forall|i: int| 0 <= i < self.keys@.len() ==> (#[trigger] self.keys@[i]).scalar() != 0)
    }

    pub fn new() -> (r: PartyBasic)
        ensures
            r.phase() == PartyState::WaitForShuffle,
            r.wf(),
            r.keys_view() =~= Seq::<nat>::empty(),
            r.deck_view() =~= Seq::<nat>::empty(),
    {
        PartyBasic { state: PartyState::WaitForShuffle, keys: Vec::new(), deck: Vec::new() }
    }

    /// First phase: sample a fresh masking key, encrypt every position with
    /// it, permute the deck, and remember the key.
    fn encrypt_and_shuffle(&mut self, deck: &mut Vec<EncryptedValue>) -> (res: Result<
        (),
        ShuffleError,
    >)
        requires
            old(self).wf(),
            old(self).phase() == PartyState::WaitForShuffle,
        ensures
            final(self).wf(),
            match res {
                Ok(_) => shuffle_step(*old(self), *final(self), old(deck)@, final(deck)@),
                Err(e) => e == ShuffleError::BadRandomness && turn_unchanged(
                    *old(self),
                    *final(self),
                    old(deck)@,
                    final(deck)@,
                ),
            },
    {
        let key = match rand_nonzero_key() {
            Some(k) => k,
            None => { return Err(ShuffleError::BadRandomness) },
        };
        let ghost orig = deck@;
        let n = deck.len();
        for i in 0..n
            invariant
                *self == *old(self),
                deck@.len() == n,
                orig.len() == n,
                key.scalar() != 0,
                forall|j: int|
                    0 <= j < i ==> (#[trigger] deck@[j]).dlog() == emul(
                        orig[j].dlog(),
                        key.scalar(),
                    ),
                forall|j: int| i <= j < n ==> deck@[j] == orig[j],
        {
            let c = encrypt(&deck[i], &key);
            *vstd::std_specs::vec::vec_index_mut(deck, i) = c;
        }
        proof {
            assert(dlogs(deck@) =~= dlogs(orig).map_values(|d: nat| emul(d, key.scalar())));
            crate::group::lemma_scalar_bound(key);
        }
        let mut rng = fresh_rng();
        shuffle_values(deck, &mut rng);
        self.keys.push(key);
        self.state = PartyState::WaitForEncryption;
        proof {
            let k = key.scalar();
            assert(self.keys_view() =~= old(self).keys_view().push(k));
            assert(reencrypted(dlogs(orig), dlogs(deck@), k));
            assert(shuffle_step(*old(self), *self, orig, deck@));
        }
        Ok(())
    }

    /// Second phase: strip the deck-wide masking key and replace it with one
    /// fresh independent key per position, kept in position order.
    fn decrypt_encrypt(&mut self, deck: &mut Vec<EncryptedValue>) -> (res: Result<
        (),
        ShuffleError,
    >)
        requires
            old(self).wf(),
            old(self).phase() == PartyState::WaitForEncryption,
        ensures
            final(self).wf(),
            match res {
                Ok(_) => encryption_step(*old(self), *final(self), old(deck)@, final(deck)@),
                Err(e) => e == ShuffleError::BadRandomness && turn_unchanged(
                    *old(self),
                    *final(self),
                    old(deck)@,
                    final(deck)@,
                ),
            },
    {
        let n = deck.len();
        let mut new_keys: Vec<KeyType> = Vec::new();
        for i in 0..n
            invariant
                *self == *old(self),
                old(self).wf(),
                old(self).phase() == PartyState::WaitForEncryption,
                deck@ == old(deck)@,
                new_keys@.len() == i,
                forall|j: int| 0 <= j < i ==> (#[trigger] new_keys@[j]).scalar() != 0,
        {
            match rand_nonzero_key() {
                Some(k) => new_keys.push(k),
                None => { return Err(ShuffleError::BadRandomness) },
            };
        }
        let key = match self.keys.pop() {
            Some(k) => k,
            None => {
                proof {
                    assert(false);
                }
                return Err(ShuffleError::BadRandomness);
            },
        };
        proof {
            assert(key == old(self).keys@[0]);
            assert(key.scalar() == old(self).keys_view()[0]);
            assert(key.scalar() != 0);
        }
        let ghost orig = deck@;
        let ghost mut mids: Seq<nat> = Seq::empty();
        for i in 0..n
            invariant
                self.state == old(self).state,
                self.deck@ == old(self).deck@,
                key.scalar() == old(self).keys_view()[0],
                deck@.len() == n,
                orig.len() == n,
                new_keys@.len() == n,
                mids.len() == i,
                key.scalar() != 0,
                forall|j: int| 0 <= j < n ==> (#[trigger] new_keys@[j]).scalar() != 0,
                forall|j: int|
                    0 <= j < i ==> emul(#[trigger] mids[j], key.scalar()) == orig[j].dlog()
                        && deck@[j].dlog() == emul(mids[j], new_keys@[j].scalar()),
                forall|j: int| i <= j < n ==> deck@[j] == orig[j],
        {
            let m = decrypt(&deck[i], &key);
            let c = encrypt(&m, &new_keys[i]);
            *vstd::std_specs::vec::vec_index_mut(deck, i) = c;
            proof {
                mids = mids.push(m.dlog());
            }
        }
        let ghost nk = new_keys@;
        self.keys = new_keys;
        self.state = PartyState::WaitForDeck;
        proof {
            assert(self.keys@ == nk);
            assert forall|i: int| 0 <= i < orig.len() implies emul(
                #[trigger] mids[i],
                old(self).keys_view()[0],
            ) == orig[i].dlog() && dlogs(deck@)[i] == emul(mids[i], self.keys_view()[i]) by {
                assert(emul(mids[i], key.scalar()) == orig[i].dlog() && deck@[i].dlog() == emul(
                    mids[i],
                    nk[i].scalar(),
                ));
                assert(dlogs(deck@)[i] == deck@[i].dlog());
                assert(self.keys_view()[i] == nk[i].scalar());
            }
            assert(unmasked_reencryption(
                orig,
                deck@,
                old(self).keys_view()[0],
                self.keys_view(),
                mids,
            ));
            assert(encryption_step(*old(self), *self, orig, deck@));
        }
        Ok(())
    }

    /// Third phase: accept the externally agreed final deck as authoritative;
    /// once `Done`, further calls change nothing.
    fn pass_deck(&mut self, deck: &Vec<EncryptedValue>)
        requires
            old(self).wf(),
            old(self).phase() == PartyState::WaitForDeck || old(self).phase() == PartyState::Done,
        ensures
            final(self).wf(),
            old(self).phase() == PartyState::WaitForDeck ==> accept_step(
                *old(self),
                *final(self),
                deck@,
                deck@,
            ),
            old(self).phase() == PartyState::Done ==> *final(self) == *old(self),
    {
        match self.state {
            PartyState::WaitForDeck => {
                let mut copy: Vec<EncryptedValue> = Vec::new();
                let n = deck.len();
                for i in 0..n
                    invariant
                        *self == *old(self),
                        n == deck@.len(),
                        copy@.len() == i,
                        forall|j: int| 0 <= j < i ==> #[trigger] copy@[j] == deck@[j],
                {
                    copy.push(deck[i]);
                }
                proof {
                    assert(copy@ =~= deck@);
                }
                self.deck = copy;
                self.state = PartyState::Done;
            },
            _ => {},
        }
    }

    /// Advance the machine one step for the current phase. The deck is the
    /// shared buffer being rotated among the parties; it is mutated in place.
    pub fn make_turn(&mut self, deck: &mut Vec<EncryptedValue>) -> (res: Result<
        (),
        ShuffleError,
    >)
        requires
            old(self).wf(),
        ensures
            final(self).wf(),
            match res {
                Ok(_) => match old(self).phase() {
                    PartyState::WaitForShuffle => shuffle_step(
                        *old(self),
                        *final(self),
                        old(deck)@,
                        final(deck)@,
                    ),
                    PartyState::WaitForEncryption => encryption_step(
                        *old(self),
                        *final(self),
                        old(deck)@,
                        final(deck)@,
                    ),
                    PartyState::WaitForDeck => accept_step(
                        *old(self),
                        *final(self),
                        old(deck)@,
                        final(deck)@,
                    ),
                    PartyState::Done => *final(self) == *old(self) && final(deck)@ == old(deck)@,
                },
                Err(e) => e == ShuffleError::BadRandomness && turn_unchanged(
                    *old(self),
                    *final(self),
                    old(deck)@,
                    final(deck)@,
                ),
            },
    {
        match self.state {
            PartyState::WaitForShuffle => self.encrypt_and_shuffle(deck),
            PartyState::WaitForEncryption => self.decrypt_encrypt(deck),
            PartyState::WaitForDeck => {
                self.pass_deck(deck);
                Ok(())
            },
            PartyState::Done => Ok(()),
        }
    }

    pub fn is_done(&self) -> (r: bool)
        ensures
            r == (self.phase() == PartyState::Done),
    {
        match self.state {
            PartyState::Done => true,
            _ => false,
        }
    }

    /// Hand out the final deck and the per-position keys; only valid once the
    /// machine is `Done`.
    pub fn retrieve_deck(self) -> (r: (Vec<EncryptedValue>, Vec<KeyType>))
        requires
            self.wf(),
            self.phase() == PartyState::Done,
        ensures
            dlogs(r.0@) == self.deck_view(),
            scalars(r.1@) == self.keys_view(),
            forall|i: int| 0 <= i < r.1@.len() ==> (#[trigger] r.1@[i]).scalar() != 0,
    {
        (self.deck, self.keys)
    }
}

} // verus!
