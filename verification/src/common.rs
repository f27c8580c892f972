//! The wire message sets, as the core sees them: decoded values, whole per
//! message. Framing and byte encoding are the transport collaborator's
//! concern, outside this crate.

use vstd::prelude::*;

use crate::essence::GameStateEssence;
use crate::grid::{Coord2D, Direction};
use crate::player::Moniker;

verus! {

/// The least interval between two accepted moves of one client, in
/// milliseconds (the rate limiter's bound).
pub const MOVE_PERIOD_MILLIS: u64 = 130;

/// How long a bot rests between moves, in milliseconds.
pub const BOT_MOVE_PERIOD_MILLIS: u64 = 400;

/// Server-to-client notifications.
pub enum Clientward {
    /// The full essence, sent once to a newly accepted client.
    Welcome(GameStateEssence),
    AddPlayer(Moniker, Coord2D),
    RemovePlayer(Moniker),
    UpdMove(Moniker, Direction),
    ErrorTakenMoniker,
    ErrorIllegalMove,
    ErrorSocketDead,
    ErrorExpectedReq,
    ErrorExpectedHello,
}

/// Client-to-server requests.
#[derive(Copy, Clone, PartialEq, Eq, Structural, Debug)]
pub enum Serverward {
    Hello(Moniker),
    ReqMove(Direction),
}

/// The four directions a bot may draw from.
pub fn dir_choices() -> (r: Vec<Direction>)
    ensures
        r@.len() == 4,
        r@[0] == Direction::Up,
        r@[1] == Direction::Down,
        r@[2] == Direction::Left,
        r@[3] == Direction::Right,
{
    let mut v: Vec<Direction> = Vec::new();
    v.push(Direction::Up);
    v.push(Direction::Down);
    v.push(Direction::Left);
    v.push(Direction::Right);
    v
}

/// Whether a move request arriving at `now` must be silently dropped, given
/// the client's last accepted move: the minimum interval has not elapsed (a
/// clock running backwards counts as not elapsed).
pub open spec fn rate_limited(last_move_at: u64, now: u64) -> bool {
    now < last_move_at || now - last_move_at < MOVE_PERIOD_MILLIS
}

/// Executable form of [`rate_limited`].
pub fn is_rate_limited(last_move_at: u64, now: u64) -> (r: bool)
    ensures
        r == rate_limited(last_move_at, now),
{
    now < last_move_at || now - last_move_at < MOVE_PERIOD_MILLIS
}

/// The rate-limiter law: once a move is accepted at `now1`, any request less
/// than the minimum interval later is dropped, so of two requests closer
/// than the interval only the first can take effect.
pub proof fn lemma_rate_limiter(now1: u64, now2: u64)
    requires
        now2 - now1 < MOVE_PERIOD_MILLIS || now2 < now1,
    ensures
        rate_limited(now1, now2),
{
}

} // verus!
