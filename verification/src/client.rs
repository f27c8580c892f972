//! The client's pure half: applying the server's notifications to a local
//! replica of the world. The display loop outside this crate renders the
//! replica and sends move requests; every state change it makes goes through
//! [`apply_update`].

use vstd::prelude::*;

use crate::common::Clientward;
use crate::game::{GameState, MoveOutcome};

verus! {

/// Apply one server notification to the local world replica. Returns whether
/// the replica changed. `Welcome` and the error notifications carry no world
/// change and are ignored here.
pub fn apply_update(game: &mut GameState, msg: &Clientward) -> (changed: bool)
    requires
        old(game).wf(),
    ensures
        final(game).wf(),
        (match *msg {
            Clientward::AddPlayer(m, c) => {
                &&& changed == (c.in_bounds() && !old(game).players().contains_key(m) && !old(
                    game,
                ).occupied(c))
                &&& (changed ==> final(game).players().contains_key(m) && final(game).players()[m].coord
                    == c)
                &&& (!changed ==> final(game).players() == old(game).players())
            },
            Clientward::RemovePlayer(m) => {
                &&& changed == old(game).players().contains_key(m)
                &&& final(game).players() == old(game).players().remove(m)
            },
            Clientward::UpdMove(m, d) => {
                &&& final(game).players().dom() == old(game).players().dom()
                &&& (changed ==> GameState::moved_effect(*old(game), *final(game), m, d))
                &&& (!changed ==> final(game).same_world(*old(game)))
            },
            _ => *final(game) == *old(game),
        }),
{
    match msg {
        Clientward::AddPlayer(m, c) => game.try_add_player(*m, *c),
        Clientward::RemovePlayer(m) => game.try_remove_player(*m),
        Clientward::UpdMove(m, d) => {
            let o = game.move_moniker_in_dir(*m, *d);
            match o {
                MoveOutcome::Moved => true,
                _ => false,
            }
        },
        _ => false,
    }
}

} // verus!
