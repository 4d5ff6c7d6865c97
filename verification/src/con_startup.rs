//! Connection rendezvous configuration: player index 0 listens, the others
//! connect. The sockets themselves live outside the core; this only decides
//! the role.

use vstd::prelude::*;

verus! {

/// Which role this process takes when the peers rendezvous.
pub struct ConStartup {
    player_id: usize,
}

impl ConStartup {
    /// The index of this player among the participants.
    pub closed spec fn id(self) -> usize {
        self.player_id
    }

    pub fn new(num_players: usize, player_id: usize) -> (r: ConStartup)
        requires
            player_id < num_players,
        ensures
            r.id() == player_id,
    {
        ConStartup { player_id }
    }

    /// Player 0 listens; everyone else connects.
    pub fn is_server(&self) -> (r: bool)
        ensures
            r == (self.id() == 0),
    {
        self.player_id == 0
    }

    pub fn player_id(&self) -> (r: usize)
        ensures
            r == self.id(),
    {
        self.player_id
    }
}

} // verus!
