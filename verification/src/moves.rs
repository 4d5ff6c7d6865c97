//! Ownership and move resolution: the only path by which a card's identity
//! becomes known to any party.
//!
//! Drawing takes one key from every other party plus the local position key;
//! a play reveals the owner's key so the card can be read. The front end
//! exchanges indexes and keys with the peers and hands them in here.

use vstd::prelude::*;

use crate::cards::{card_index, Card};
use crate::encryption::{decrypt, emul, key_is_zero};
use crate::game::CardFromDeck;
use crate::group::{group_order, scalars, KeyType};
use crate::player::{Owner, Player};

verus! {

/// Why a move could not be resolved. Every case is a protocol violation or
/// desync that the caller must treat as fatal to the session.
#[derive(Clone, Copy, Debug, PartialEq, Eq, Structural)]
pub enum MoveError {
    /// No undrawn position is left to draw from.
    NoCardLeft,
    /// The position is out of range or does not match the expected one.
    WrongIndex,
    /// The peer is not recorded as holding the position it tries to reveal.
    NotOwner,
    /// A key is the zero scalar and cannot decrypt.
    BadKey,
    /// The fully decrypted value matches no card: a wrong or withheld key.
    UnknownCard,
}

/// Re-apply a list of keys to a decrypted value, last key innermost: this is
/// what the decryption chain strips away, so a resolved card re-encrypts to
/// the stored deck entry.
pub open spec fn remask(d: nat, keys: Seq<nat>) -> nat
    decreases keys.len(),
{
    if keys.len() == 0 {
        d
    } else {
        remask(emul(d, keys.last()), keys.drop_last())
    }
}

/// Ownership transitions are monotone: a move only fills an undrawn
/// position, so every position already held keeps its holder, and a
/// position never returns to undrawn.
pub proof fn lemma_ownership_monotone(
    pre: Seq<Option<Owner>>,
    post: Seq<Option<Owner>>,
    i: int,
    tag: Owner,
)
    requires
        0 <= i < pre.len(),
        pre[i] is None,
        post == pre.update(i, Some(tag)),
    ensures
        post[i] == Some(tag),
        forall|j: int| 0 <= j < pre.len() && (#[trigger] pre[j]) is Some ==> post[j] == pre[j],
        forall|j: int| 0 <= j < post.len() ==> ((#[trigger] post[j]) is None ==> pre[j] is None),
{
}

/// `t` is the lowest undrawn position.
pub open spec fn is_lowest_undrawn(owners: Seq<Option<Owner>>, t: int) -> bool {
    &&& 0 <= t < owners.len()
    &&& owners[t] is None
    &&& forall|j: int| 0 <= j < t ==> !((#[trigger] owners[j]) is None)
}

impl Player {
    /// The next position to draw: the deck is drawn front to back, order was
    /// already randomized by the shuffle.
    pub fn top_of_deck(&self) -> (r: Option<usize>)
        ensures
            match r {
                Some(i) => is_lowest_undrawn(self.owners@, i as int),
                None => forall|j: int|
                    0 <= j < self.owners@.len() ==> !((#[trigger] self.owners@[j]) is None),
            },
    {
        let n = self.owners.len();
        for i in 0..n
            invariant
                n == self.owners@.len(),
                forall|j: int| 0 <= j < i ==> !((#[trigger] self.owners@[j]) is None),
        {
            if self.owners[i].is_none() {
                return Some(i);
            }
        }
        None
    }

    /// Resolve a draw of position `ind`, given one key from every other
    /// party: strip their keys and the local position key, look the value up
    /// and record the position as held by this side. On success, the card's
    /// identity re-encrypts under the local key and the received keys to the
    /// stored deck entry.
    pub fn resolve_draw(&mut self, ind: usize, other_keys: &Vec<KeyType>) -> (r: Result<
        CardFromDeck,
        MoveError,
    >)
        requires
            old(self).wf(),
        ensures
            final(self).wf(),
            final(self).deck@ == old(self).deck@,
            final(self).keys@ == old(self).keys@,
            final(self).translator == old(self).translator,
            match r {
                Ok(cd) => {
                    &&& ind < old(self).deck@.len()
                    &&& old(self).owners@[ind as int] is None
                    &&& old(self).keys_view()[ind as int] != 0
                    &&& forall|i: int|
                        0 <= i < other_keys@.len() ==> (#[trigger] other_keys@[i]).scalar() != 0
                    &&& cd.ind == ind
                    &&& 0 <= card_index(cd.card) < 52
                    &&& remask(
                        emul(card_index(cd.card) as nat, old(self).keys_view()[ind as int]),
                        scalars(other_keys@),
                    ) == old(self).deck_view()[ind as int]
                    &&& final(self).owners@ == old(self).owners@.update(
                        ind as int,
                        Some(Owner::Me(cd)),
                    )
                },
                Err(MoveError::WrongIndex) => {
                    &&& (ind >= old(self).deck@.len() || !(old(self).owners@[ind as int] is None))
                    &&& final(self).owners@ == old(self).owners@
                },
                Err(MoveError::BadKey) => {
                    &&& ind < old(self).deck@.len()
                    &&& old(self).owners@[ind as int] is None
                    &&& (old(self).keys_view()[ind as int] == 0 || exists|i: int|
                        0 <= i < other_keys@.len() && (#[trigger] other_keys@[i]).scalar() == 0)
                    &&& final(self).owners@ == old(self).owners@
                },
                Err(MoveError::UnknownCard) => {
                    &&& ind < old(self).deck@.len()
                    &&& old(self).owners@[ind as int] is None
                    &&& exists|d: nat|
                        52 <= d < group_order() && #[trigger] remask(
                            emul(d, old(self).keys_view()[ind as int]),
                            scalars(other_keys@),
                        ) == old(self).deck_view()[ind as int]
                    &&& final(self).owners@ == old(self).owners@
                },
                Err(_) => false,
            },
    {
        if ind >= self.deck.len() {
            return Err(MoveError::WrongIndex);
        }
        if !self.owners[ind].is_none() {
            return Err(MoveError::WrongIndex);
        }
        if key_is_zero(&self.keys[ind]) {
            return Err(MoveError::BadKey);
        }
        let nk = other_keys.len();
        for i in 0..nk
            invariant
                *self == *old(self),
                old(self).wf(),
                ind < self.deck@.len(),
                self.owners@[ind as int] is None,
                self.keys_view()[ind as int] != 0,
                nk == other_keys@.len(),
                forall|j: int| 0 <= j < i ==> (#[trigger] other_keys@[j]).scalar() != 0,
        {
            if key_is_zero(&other_keys[i]) {
                return Err(MoveError::BadKey);
            }
        }
        let ghost ks = scalars(other_keys@);
        let mut c = self.deck[ind];
        for i in 0..nk
            invariant
                *self == *old(self),
                old(self).wf(),
                self.owners@[ind as int] is None,
                self.keys_view()[ind as int] != 0,
                nk == other_keys@.len(),
                ks == scalars(other_keys@),
                forall|j: int| 0 <= j < nk ==> (#[trigger] other_keys@[j]).scalar() != 0,
                remask(c.dlog(), ks.take(i as int)) == self.deck@[ind as int].dlog(),
                ind < self.deck@.len(),
        {
            proof {
                assert(ks.take(i + 1).drop_last() =~= ks.take(i as int));
                assert(ks.take(i + 1).last() == other_keys@[i as int].scalar());
            }
            c = decrypt(&c, &other_keys[i]);
        }
        proof {
            assert(ks.take(nk as int) =~= ks);
        }
        let m = decrypt(&c, &self.keys[ind]);
        let ci = match self.translator.translate(m) {
            Some(ci) => ci,
            None => {
                proof {
                    crate::group::lemma_dlog_bound(m);
                    assert(self.translator.table().len() == 52);
                    if m.dlog() < 52 {
                        assert(self.translator.table()[m.dlog() as int] == m.dlog());
                        assert(false);
                    }
                }
                return Err(MoveError::UnknownCard);
            },
        };
        proof {
            assert(self.translator.table()[ci as int] == ci);
            assert(m.dlog() == ci);
        }
        let card = match Card::try_from_index(ci) {
            Ok(card) => card,
            Err(_) => {
                proof {
                    assert(false);
                }
                return Err(MoveError::UnknownCard);
            },
        };
        let cd = CardFromDeck { card, ind };
        *vstd::std_specs::vec::vec_index_mut(&mut self.owners, ind) = Some(Owner::Me(cd));
        Ok(cd)
    }

    /// Let another party draw: check the requested position is the lowest
    /// undrawn one, record it as held by that party, and hand back the local
    /// key for it.
    pub fn grant_draw(&mut self, other: usize, requested: usize) -> (r: Result<
        KeyType,
        MoveError,
    >)
        requires
            old(self).wf(),
        ensures
            final(self).wf(),
            final(self).deck@ == old(self).deck@,
            final(self).keys@ == old(self).keys@,
            final(self).translator == old(self).translator,
            match r {
                Ok(k) => {
                    &&& is_lowest_undrawn(old(self).owners@, requested as int)
                    &&& k == old(self).keys@[requested as int]
                    &&& final(self).owners@ == old(self).owners@.update(
                        requested as int,
                        Some(Owner::Other(other)),
                    )
                },
                Err(MoveError::NoCardLeft) => {
                    &&& forall|j: int|
                        0 <= j < old(self).owners@.len() ==> !((#[trigger] old(
                            self,
                        ).owners@[j]) is None)
                    &&& final(self).owners@ == old(self).owners@
                },
                Err(MoveError::WrongIndex) => {
                    &&& exists|t: int|
                        #[trigger] is_lowest_undrawn(old(self).owners@, t) && t != requested
                    &&& final(self).owners@ == old(self).owners@
                },
                Err(_) => false,
            },
    {
        let top = match self.top_of_deck() {
            Some(t) => t,
            None => { return Err(MoveError::NoCardLeft) },
        };
        if requested != top {
            proof {
                assert(is_lowest_undrawn(self.owners@, top as int));
            }
            return Err(MoveError::WrongIndex);
        }
        let k = self.keys[requested];
        *vstd::std_specs::vec::vec_index_mut(&mut self.owners, requested) = Some(
            Owner::Other(other),
        );
        Ok(k)
    }

    /// Play a card this side holds: hand out the local key for the position,
    /// for the front end to broadcast to the peers.
    pub fn play_card(&self, ind: usize) -> (r: Result<KeyType, MoveError>)
        ensures
            match r {
                Ok(k) => ind < self.keys@.len() && k == self.keys@[ind as int],
                Err(e) => e == MoveError::WrongIndex && ind >= self.keys@.len(),
            },
    {
        if ind >= self.keys.len() {
            return Err(MoveError::WrongIndex);
        }
        Ok(self.keys[ind])
    }

    /// Resolve a card another party plays: check that party is recorded as
    /// holding the position, strip its revealed key and the local key, and
    /// look the card up. On success, the card's identity re-encrypts under
    /// the local key and the revealed key to the stored deck entry.
    pub fn resolve_played(&self, other: usize, ind: usize, key: &KeyType) -> (r: Result<
        Card,
        MoveError,
    >)
        requires
            self.wf(),
        ensures
            match r {
                Ok(c) => {
                    &&& ind < self.deck@.len()
                    &&& self.owners@[ind as int] == Some(Owner::Other(other))
                    &&& key.scalar() != 0
                    &&& self.keys_view()[ind as int] != 0
                    &&& 0 <= card_index(c) < 52
                    &&& emul(
                        emul(card_index(c) as nat, self.keys_view()[ind as int]),
                        key.scalar(),
                    ) == self.deck_view()[ind as int]
                },
                Err(MoveError::WrongIndex) => ind >= self.deck@.len(),
                Err(MoveError::NotOwner) => ind < self.deck@.len() && self.owners@[ind as int]
                    != Some(Owner::Other(other)),
                Err(MoveError::BadKey) => {
                    &&& ind < self.deck@.len()
                    &&& self.owners@[ind as int] == Some(Owner::Other(other))
                    &&& (key.scalar() == 0 || self.keys_view()[ind as int] == 0)
                },
                Err(MoveError::UnknownCard) => {
                    &&& ind < self.deck@.len()
                    &&& self.owners@[ind as int] == Some(Owner::Other(other))
                    &&& exists|d: nat|
                        52 <= d < group_order() && #[trigger] emul(
                            emul(d, self.keys_view()[ind as int]),
                            key.scalar(),
                        ) == self.deck_view()[ind as int]
                },
                Err(_) => false,
            },
    {
        if ind >= self.deck.len() {
            return Err(MoveError::WrongIndex);
        }
        let owner_ok = match &self.owners[ind] {
            Some(Owner::Other(o)) => *o == other,
            _ => false,
        };
        if !owner_ok {
            return Err(MoveError::NotOwner);
        }
        if key_is_zero(key) || key_is_zero(&self.keys[ind]) {
            return Err(MoveError::BadKey);
        }
        let c1 = decrypt(&self.deck[ind], key);
        let m = decrypt(&c1, &self.keys[ind]);
        let ci = match self.translator.translate(m) {
            Some(ci) => ci,
            None => {
                proof {
                    crate::group::lemma_dlog_bound(m);
                    assert(self.translator.table().len() == 52);
                    if m.dlog() < 52 {
                        assert(self.translator.table()[m.dlog() as int] == m.dlog());
                        assert(false);
                    }
                }
                return Err(MoveError::UnknownCard);
            },
        };
        proof {
            assert(self.translator.table()[ci as int] == ci);
            assert(m.dlog() == ci);
        }
        match Card::try_from_index(ci) {
            Ok(card) => Ok(card),
            Err(_) => {
                proof {
                    assert(false);
                }
                Err(MoveError::UnknownCard)
            },
        }
    }
}

} // verus!
