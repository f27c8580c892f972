//! The server core: the pure half of the reactor. It owns the world, the
//! connection registry (newcomers and clients), the bot roster, the control
//! queue of deferred drops and upgrades, and the queue of outgoing
//! notifications. The reactor loop outside this crate feeds it decoded
//! messages and timestamps and carries out the transport commands it
//! returns; every decision in between is made (and verified) here.

use vstd::prelude::*;

use crate::clients::{ClientObject, ClientTable};
use crate::common::{dir_choices, is_rate_limited, rate_limited, Clientward, Serverward,
    BOT_MOVE_PERIOD_MILLIS};
use crate::essence::GameStateEssence;
use crate::game::{GameState, MoveOutcome, INITIAL_CHARGE};
use crate::grid::{Coord2D, Direction};
use crate::player::{Moniker, PlayerObject};

verus! {

/// An autonomous player: its identity and the time of its last successful
/// move, in milliseconds.
#[derive(Copy, Clone, PartialEq, Eq, Structural, Debug)]
pub struct Bot {
    pub moniker: Moniker,
    pub last_move_at: u64,
}

/// A deferred terminal transition for one connection, applied after the
/// current reactor pass (never while connections are being scanned).
pub enum ServerCtrlMsg {
    /// Drop an unauthenticated connection, best-effort sending the error.
    DropNewcomerWithErr(u64, Clientward),
    /// Drop a client, best-effort sending the error; its player leaves the
    /// world and a removal is broadcast.
    DropClientWithErr(u64, Clientward),
    /// Try to turn a newcomer into a client under the given identity.
    UpgradeClient(u64, Moniker),
}

/// What the transport outside this crate must do after the control queue is
/// applied.
pub enum TransportCmd {
    /// Deregister and close the newcomer's socket, best-effort sending the
    /// message first.
    DropNewcomer(u64, Clientward),
    /// Deregister and close the client's socket, best-effort sending the
    /// message first.
    DropClient(u64, Clientward),
    /// Send the welcome (with the essence) and re-register the socket for
    /// steady-state traffic.
    Welcome(u64, GameStateEssence),
}

/// The server's entire pure state.
pub struct ServerCore {
    game: GameState,
    clients: ClientTable,
    newcomers: Vec<u64>,
    next_token: u64,
    bots: Vec<Bot>,
    server_control: Vec<ServerCtrlMsg>,
    outgoing_updates: Vec<Clientward>,
}

impl ServerCore {
    pub closed spec fn game(self) -> GameState {
        self.game
    }

    pub closed spec fn clients_table(self) -> ClientTable {
        self.clients
    }

    /// The authenticated connections, by token.
    pub open spec fn clients(self) -> Map<u64, ClientObject> {
        self.clients_table().map()
    }

    /// The unauthenticated connections, by token.
    pub closed spec fn newcomers(self) -> Seq<u64> {
        self.newcomers@
    }

    pub closed spec fn next_token(self) -> u64 {
        self.next_token
    }

    pub closed spec fn bots(self) -> Seq<Bot> {
        self.bots@
    }

    /// The control queue, in arrival order.
    pub closed spec fn ctrl(self) -> Seq<ServerCtrlMsg> {
        self.server_control@
    }

    /// The outgoing notifications, in arrival order.
    pub closed spec fn outgoing(self) -> Seq<Clientward> {
        self.outgoing_updates@
    }

    /// The server invariant: a well-formed world; tokens unique, never
    /// reused (all below the allocation counter) and never both a newcomer
    /// and a client; identities unique across clients and bots and all
    /// registered in the world.
    pub open spec fn wf(self) -> bool {
        &&& self.game().wf()
        &&& self.clients_table().wf()
        &&& 1 <= self.next_token()
        &&& self.newcomers().no_duplicates()
        &&& forall|t: u64|
            #[trigger] self.clients().contains_key(t) ==> (1 <= t < self.next_token()
                && !self.newcomers().contains(t))
        &&& forall|i: int|
            0 <= i < self.newcomers().len() ==> (1 <= #[trigger] self.newcomers()[i]
                < self.next_token())
        &&& forall|t1: u64, t2: u64|
            #![trigger self.clients().contains_key(t1), self.clients().contains_key(t2)]
            self.clients().contains_key(t1) && self.clients().contains_key(t2) && t1 != t2
                ==> self.clients()[t1].moniker != self.clients()[t2].moniker
        &&& forall|t: u64|
            #[trigger] self.clients().contains_key(t) ==> self.game().players().contains_key(
                self.clients()[t].moniker,
            )
        &&& forall|i: int, j: int|
            0 <= i < self.bots().len() && 0 <= j < self.bots().len() && i != j ==> (
            #[trigger] self.bots()[i]).moniker != (#[trigger] self.bots()[j]).moniker
        &&& forall|i: int|
            0 <= i < self.bots().len() ==> self.game().players().contains_key(
                (#[trigger] self.bots()[i]).moniker,
            )
        &&& forall|t: u64, i: int|
            #![trigger self.clients().contains_key(t), self.bots()[i]]
            self.clients().contains_key(t) && 0 <= i < self.bots().len() ==> self.clients()[t].moniker
                != self.bots()[i].moniker
    }

    /// Identity uniqueness, read off the invariant: two distinct clients
    /// never hold the same identity, no client shares one with a bot, and
    /// every held identity is registered in the world.
    pub proof fn lemma_identities_unique(self, t1: u64, t2: u64)
        requires
            self.wf(),
            self.clients().contains_key(t1),
            self.clients().contains_key(t2),
        ensures
            t1 != t2 ==> self.clients()[t1].moniker != self.clients()[t2].moniker,
            self.game().players().contains_key(self.clients()[t1].moniker),
            forall|i: int|
                0 <= i < self.bots().len() ==> (#[trigger] self.bots()[i]).moniker
                    != self.clients()[t1].moniker,
    {
    }

    /// Wrap an already-built world; registries start empty.
    pub fn from_game(game: GameState) -> (core: ServerCore)
        requires
            game.wf(),
        ensures
            core.wf(),
            core.game() == game,
            core.clients() == Map::<u64, ClientObject>::empty(),
            core.newcomers() == Seq::<u64>::empty(),
            core.bots() == Seq::<Bot>::empty(),
            core.ctrl() == Seq::<ServerCtrlMsg>::empty(),
            core.outgoing() == Seq::<Clientward>::empty(),
    {
        ServerCore {
            game,
            clients: ClientTable::new(),
            newcomers: Vec::new(),
            next_token: 1,
            bots: Vec::new(),
            server_control: Vec::new(),
            outgoing_updates: Vec::new(),
        }
    }

    /// Place a bot: register its player on a random free cell and put it on
    /// the roster. Fails (with the world unchanged) when the identity is
    /// taken or no spot was found.
    pub fn register_bot(&mut self, moniker: Moniker, now: u64) -> (r: bool)
        requires
            old(self).wf(),
        ensures
            final(self).wf(),
            r ==> {
                &&& final(self).bots() == old(self).bots().push(Bot { moniker, last_move_at: now })
                &&& final(self).game().players().dom() == old(self).game().players().dom().insert(
                    moniker,
                )
                &&& !old(self).game().players().contains_key(moniker)
            },
            !r ==> (final(self).bots() == old(self).bots() && final(self).game().players() == old(
                self,
            ).game().players()),
            final(self).clients() == old(self).clients(),
            final(self).newcomers() == old(self).newcomers(),
            final(self).ctrl() == old(self).ctrl(),
            final(self).outgoing() == old(self).outgoing(),
            final(self).next_token() == old(self).next_token(),
    {
        let spot = match self.game.random_free_spot() {
            Some(c) => c,
            None => {
                return false;
            },
        };
        if self.game.try_add_player(moniker, spot) {
            self.bots.push(Bot { moniker, last_move_at: now });
            proof {
                assert(self.game().players().dom() =~= old(self).game().players().dom().insert(
                    moniker,
                ));
                assert forall|i: int, j: int|
                    0 <= i < self.bots().len() && 0 <= j < self.bots().len() && i
                        != j implies (#[trigger] self.bots()[i]).moniker != (
                    #[trigger] self.bots()[j]).moniker by {
                    if i < old(self).bots().len() && j < old(self).bots().len() {
                    } else if i < old(self).bots().len() {
                        assert(old(self).game().players().contains_key(old(self).bots()[i].moniker));
                    } else if j < old(self).bots().len() {
                        assert(old(self).game().players().contains_key(old(self).bots()[j].moniker));
                    }
                }
                self.lemma_wf_clients_frame(*old(self));
                assert forall|t: u64, i: int|
                    #![trigger self.clients().contains_key(t), self.bots()[i]]
                    self.clients().contains_key(t) && 0 <= i
                        < self.bots().len() implies self.clients()[t].moniker
                    != self.bots()[i].moniker by {
                    assert(old(self).clients().contains_key(t));
                    if i < old(self).bots().len() {
                    } else {
                        assert(old(self).game().players().contains_key(
                            old(self).clients()[t].moniker,
                        ));
                    }
                }
            }
            true
        } else {
            proof {
                self.lemma_wf_frame(*old(self));
            }
            false
        }
    }

    /// The invariant's client clauses carry over whenever the client table,
    /// the newcomer list and the token counter are unchanged and no
    /// registered identity was dropped from the world.
    proof fn lemma_wf_clients_frame(self, pre: ServerCore)
        requires
            pre.wf(),
            self.clients_table() == pre.clients_table(),
            self.newcomers() == pre.newcomers(),
            self.next_token() == pre.next_token(),
            forall|m: Moniker|
                #[trigger] pre.game().players().contains_key(m)
                    ==> self.game().players().contains_key(m),
        ensures
            forall|t: u64|
                #[trigger] self.clients().contains_key(t) ==> (1 <= t < self.next_token()
                    && !self.newcomers().contains(t)),
            forall|t1: u64, t2: u64|
                #![trigger self.clients().contains_key(t1), self.clients().contains_key(t2)]
                self.clients().contains_key(t1) && self.clients().contains_key(t2) && t1 != t2
                    ==> self.clients()[t1].moniker != self.clients()[t2].moniker,
            forall|t: u64|
                #[trigger] self.clients().contains_key(t) ==> self.game().players().contains_key(
                    self.clients()[t].moniker,
                ),
    {
        assert forall|t: u64| #[trigger] self.clients().contains_key(t) implies (1 <= t
            < self.next_token() && !self.newcomers().contains(t)
            && self.game().players().contains_key(self.clients()[t].moniker)) by {
            assert(pre.clients().contains_key(t));
            assert(pre.game().players().contains_key(pre.clients()[t].moniker));
        }
        assert forall|t1: u64, t2: u64|
            self.clients().contains_key(t1) && self.clients().contains_key(t2) && t1
                != t2 implies self.clients()[t1].moniker != self.clients()[t2].moniker by {
            assert(pre.clients().contains_key(t1));
            assert(pre.clients().contains_key(t2));
        }
    }

    /// The whole invariant carries over whenever the registries, roster and
    /// counter are unchanged and the world keeps its well-formedness and its
    /// registered identities.
    proof fn lemma_wf_frame(self, pre: ServerCore)
        requires
            pre.wf(),
            self.clients_table() == pre.clients_table(),
            self.newcomers() == pre.newcomers(),
            self.next_token() == pre.next_token(),
            self.bots() == pre.bots(),
            self.game().wf(),
            forall|m: Moniker|
                #[trigger] pre.game().players().contains_key(m)
                    ==> self.game().players().contains_key(m),
        ensures
            self.wf(),
    {
        self.lemma_wf_clients_frame(pre);
        assert forall|i: int| 0 <= i < self.bots().len() implies self.game().players().contains_key(
            (#[trigger] self.bots()[i]).moniker,
        ) by {
            assert(pre.game().players().contains_key(pre.bots()[i].moniker));
        }
        assert forall|t: u64, i: int|
            #![trigger self.clients().contains_key(t), self.bots()[i]]
            self.clients().contains_key(t) && 0 <= i
                < self.bots().len() implies self.clients()[t].moniker != self.bots()[i].moniker by {
            assert(pre.clients().contains_key(t));
        }
    }

    /// Place the whole bot roster; true only if every bot found a spot and a
    /// fresh identity. On success the roster is extended by exactly the
    /// given identities, in order, each stamped `now` and each registered in
    /// the world.
    pub fn init_bots(&mut self, monikers: &Vec<Moniker>, now: u64) -> (r: bool)
        requires
            old(self).wf(),
        ensures
            final(self).wf(),
            final(self).clients() == old(self).clients(),
            final(self).newcomers() == old(self).newcomers(),
            final(self).ctrl() == old(self).ctrl(),
            final(self).outgoing() == old(self).outgoing(),
            final(self).next_token() == old(self).next_token(),
            r ==> final(self).bots() == old(self).bots() + monikers@.map_values(
                |m: Moniker| Bot { moniker: m, last_move_at: now },
            ),
            r ==> forall|a: int|
                0 <= a < monikers@.len() ==> final(self).game().players().contains_key(
                    #[trigger] monikers@[a],
                ),
    {
        let n = monikers.len();
        let mut i: usize = 0;
        while i < n
            invariant
                self.wf(),
                i <= n,
                n == monikers@.len(),
                self.clients() == old(self).clients(),
                self.newcomers() == old(self).newcomers(),
                self.ctrl() == old(self).ctrl(),
                self.outgoing() == old(self).outgoing(),
                self.next_token() == old(self).next_token(),
                self.bots() == old(self).bots() + monikers@.take(i as int).map_values(
                    |m: Moniker| Bot { moniker: m, last_move_at: now },
                ),
                forall|a: int|
                    0 <= a < i ==> self.game().players().contains_key(#[trigger] monikers@[a]),
            decreases n - i,
        {
            let ghost pre = *self;
            if !self.register_bot(monikers[i], now) {
                return false;
            }
            proof {
                assert(self.bots() =~= old(self).bots() + monikers@.take(i + 1).map_values(
                    |m: Moniker| Bot { moniker: m, last_move_at: now },
                ));
                assert forall|a: int| 0 <= a < i + 1 implies self.game().players().contains_key(
                    #[trigger] monikers@[a],
                ) by {
                    if a < i {
                        assert(pre.game().players().contains_key(monikers@[a]));
                        assert(self.game().players().dom() == pre.game().players().dom().insert(
                            monikers@[i as int],
                        ));
                    }
                }
            }
            i = i + 1;
        }
        proof {
            assert(monikers@.take(n as int) =~= monikers@);
        }
        true
    }

    /// Borrow the world, for rendering or inspection.
    pub fn game_ref(&self) -> (r: &GameState)
        ensures
            *r == self.game(),
    {
        &self.game
    }

    /// Whether `tok` names an authenticated client (else it is a newcomer or
    /// unknown).
    pub fn is_client(&self, tok: u64) -> (r: bool)
        requires
            self.wf(),
        ensures
            r == self.clients().contains_key(tok),
    {
        self.clients.get(tok).is_some()
    }

    /// Whether any client is connected (the reactor idles when none is).
    pub fn has_clients(&self) -> (r: bool)
        requires
            self.wf(),
        ensures
            r == (self.clients().dom() != Set::<u64>::empty()),
    {
        !self.clients.is_empty()
    }

    /// Accept a connection: allocate a fresh token (tokens are never reused;
    /// `None` only when the counter is exhausted) and register the newcomer.
    pub fn handle_accept(&mut self) -> (r: Option<u64>)
        requires
            old(self).wf(),
        ensures
            final(self).wf(),
            r is None <==> old(self).next_token() == u64::MAX,
            r is Some ==> {
                &&& r->Some_0 == old(self).next_token()
                &&& !old(self).clients().contains_key(r->Some_0)
                &&& !old(self).newcomers().contains(r->Some_0)
                &&& final(self).newcomers() == old(self).newcomers().push(r->Some_0)
                &&& final(self).next_token() == old(self).next_token() + 1
            },
            r is None ==> *final(self) == *old(self),
            final(self).clients() == old(self).clients(),
            final(self).game() == old(self).game(),
            final(self).bots() == old(self).bots(),
            final(self).ctrl() == old(self).ctrl(),
            final(self).outgoing() == old(self).outgoing(),
    {
        if self.next_token == u64::MAX {
            return None;
        }
        let tok = self.next_token;
        self.next_token = self.next_token + 1;
        self.newcomers.push(tok);
        proof {
            assert(!old(self).newcomers().contains(tok));
            assert forall|a: int, b: int|
                0 <= a < self.newcomers().len() && 0 <= b < self.newcomers().len() && a
                    != b implies self.newcomers()[a] != self.newcomers()[b] by {
                if a < old(self).newcomers().len() && b < old(self).newcomers().len() {
                }
            }
            assert forall|t: u64| #[trigger] self.clients().contains_key(t) implies (1 <= t
                < self.next_token() && !self.newcomers().contains(t)
                && self.game().players().contains_key(self.clients()[t].moniker)) by {
                assert(old(self).clients().contains_key(t));
                assert(!old(self).newcomers().contains(t));
                assert forall|i: int|
                    0 <= i < self.newcomers().len() && #[trigger] self.newcomers()[i]
                        == t implies false by {
                    if i < old(self).newcomers().len() {
                        assert(old(self).newcomers().contains(t));
                    }
                }
            }
            assert forall|t1: u64, t2: u64|
                self.clients().contains_key(t1) && self.clients().contains_key(t2) && t1
                    != t2 implies self.clients()[t1].moniker != self.clients()[t2].moniker by {
                assert(old(self).clients().contains_key(t1));
                assert(old(self).clients().contains_key(t2));
            }
            assert forall|t: u64, i: int|
                #![trigger self.clients().contains_key(t), self.bots()[i]]
                self.clients().contains_key(t) && 0 <= i
                    < self.bots().len() implies self.clients()[t].moniker
                != self.bots()[i].moniker by {
                assert(old(self).clients().contains_key(t));
                assert(self.bots()[i] == old(self).bots()[i]);
            }
            assert forall|i: int| 0 <= i < self.newcomers().len() implies (1
                <= #[trigger] self.newcomers()[i] < self.next_token()) by {
                if i < old(self).newcomers().len() {
                    assert(old(self).newcomers()[i] < old(self).next_token());
                }
            }
            assert forall|i: int| 0 <= i < self.bots().len() implies self.game().players().contains_key(
                (#[trigger] self.bots()[i]).moniker,
            ) by {
                assert(old(self).game().players().contains_key(old(self).bots()[i].moniker));
            }
            assert forall|i: int, j: int|
                0 <= i < self.bots().len() && 0 <= j < self.bots().len() && i
                    != j implies (#[trigger] self.bots()[i]).moniker != (
                #[trigger] self.bots()[j]).moniker by {
                assert(self.bots()[i] == old(self).bots()[i]);
                assert(self.bots()[j] == old(self).bots()[j]);
            }
        }
        Some(tok)
    }

    /// Queue the drop of a client whose socket failed during a broadcast.
    pub fn note_send_failure(&mut self, tok: u64)
        requires
            old(self).wf(),
        ensures
            final(self).wf(),
            final(self).ctrl() == old(self).ctrl().push(
                ServerCtrlMsg::DropClientWithErr(tok, Clientward::ErrorSocketDead),
            ),
            final(self).clients() == old(self).clients(),
            final(self).newcomers() == old(self).newcomers(),
            final(self).game() == old(self).game(),
            final(self).bots() == old(self).bots(),
            final(self).outgoing() == old(self).outgoing(),
            final(self).next_token() == old(self).next_token(),
    {
        self.server_control.push(ServerCtrlMsg::DropClientWithErr(tok, Clientward::ErrorSocketDead));
        proof {
            self.lemma_wf_frame(*old(self));
        }
    }

    /// Drain the accumulated notifications for broadcasting.
    pub fn take_outgoing(&mut self) -> (r: Vec<Clientward>)
        requires
            old(self).wf(),
        ensures
            final(self).wf(),
            r@ == old(self).outgoing(),
            final(self).outgoing() == Seq::<Clientward>::empty(),
            final(self).clients() == old(self).clients(),
            final(self).newcomers() == old(self).newcomers(),
            final(self).game() == old(self).game(),
            final(self).bots() == old(self).bots(),
            final(self).ctrl() == old(self).ctrl(),
            final(self).next_token() == old(self).next_token(),
    {
        let mut drained: Vec<Clientward> = Vec::new();
        core::mem::swap(&mut drained, &mut self.outgoing_updates);
        proof {
            self.lemma_wf_frame(*old(self));
        }
        drained
    }

    /// What one reactor pass queues for a newcomer: only the first decoded
    /// message counts — a join request queues an upgrade, anything else a
    /// protocol-error drop — and a failed read queues a socket-error drop.
    pub open spec fn newcomer_decision(tok: u64, msgs: Seq<Serverward>, recv_ok: bool) -> Seq<
        ServerCtrlMsg,
    > {
        let first: Seq<ServerCtrlMsg> = if msgs.len() == 0 {
            Seq::empty()
        } else {
            match msgs[0] {
                Serverward::Hello(m) => seq![ServerCtrlMsg::UpgradeClient(tok, m)],
                _ => seq![
                    ServerCtrlMsg::DropNewcomerWithErr(tok, Clientward::ErrorExpectedHello),
                ],
            }
        };
        if recv_ok {
            first
        } else {
            first + seq![ServerCtrlMsg::DropNewcomerWithErr(tok, Clientward::ErrorSocketDead)]
        }
    }

    /// Feed one pass of decoded newcomer messages (`recv_ok` false when the
    /// read ended in a transport error): queues exactly the decision of
    /// [`ServerCore::newcomer_decision`] and touches nothing else.
    pub fn handle_newcomer_incoming(&mut self, tok: u64, msgs: &Vec<Serverward>, recv_ok: bool)
        requires
            old(self).wf(),
        ensures
            final(self).wf(),
            final(self).ctrl() == old(self).ctrl() + ServerCore::newcomer_decision(
                tok,
                msgs@,
                recv_ok,
            ),
            final(self).clients() == old(self).clients(),
            final(self).newcomers() == old(self).newcomers(),
            final(self).game() == old(self).game(),
            final(self).bots() == old(self).bots(),
            final(self).outgoing() == old(self).outgoing(),
            final(self).next_token() == old(self).next_token(),
    {
        if msgs.len() > 0 {
            match msgs[0] {
                Serverward::Hello(m) => {
                    self.server_control.push(ServerCtrlMsg::UpgradeClient(tok, m));
                },
                _ => {
                    self.server_control.push(
                        ServerCtrlMsg::DropNewcomerWithErr(tok, Clientward::ErrorExpectedHello),
                    );
                },
            }
        }
        if !recv_ok {
            self.server_control.push(
                ServerCtrlMsg::DropNewcomerWithErr(tok, Clientward::ErrorSocketDead),
            );
        }
        proof {
            self.lemma_wf_frame(*old(self));
            assert(self.ctrl() =~= old(self).ctrl() + ServerCore::newcomer_decision(
                tok,
                msgs@,
                recv_ok,
            ));
        }
    }

    /// Handle one decoded message from the client under `tok` at time `now`.
    /// A move request is dropped silently when rate limited or illegal,
    /// moves the player (and stamps the limiter, and queues the update
    /// broadcast) otherwise; any other message queues a protocol-error drop,
    /// after which the caller must discard the rest of this pass's messages.
    /// Returns true on the pickup-respawn defect (the world rolled back).
    pub fn handle_client_msg(&mut self, tok: u64, msg: &Serverward, now: u64) -> (defect: bool)
        requires
            old(self).wf(),
        ensures
            final(self).wf(),
            final(self).newcomers() == old(self).newcomers(),
            final(self).bots() == old(self).bots(),
            final(self).next_token() == old(self).next_token(),
            final(self).game().players().dom() == old(self).game().players().dom(),
            final(self).clients().dom() == old(self).clients().dom(),
            !old(self).clients().contains_key(tok) ==> {
                &&& final(self).game() == old(self).game()
                &&& final(self).clients() == old(self).clients()
                &&& final(self).ctrl() == old(self).ctrl()
                &&& final(self).outgoing() == old(self).outgoing()
                &&& !defect
            },
            old(self).clients().contains_key(tok) && msg is Hello ==> {
                &&& final(self).game() == old(self).game()
                &&& final(self).clients() == old(self).clients()
                &&& final(self).ctrl() == old(self).ctrl().push(
                    ServerCtrlMsg::DropClientWithErr(tok, Clientward::ErrorExpectedReq),
                )
                &&& final(self).outgoing() == old(self).outgoing()
                &&& !defect
            },
            (match *msg {
                Serverward::ReqMove(d) => old(self).clients().contains_key(tok) ==> {
                    let cl = old(self).clients()[tok];
                &&& final(self).ctrl() == old(self).ctrl()
                &&& (rate_limited(cl.last_move_at, now) ==> {
                    &&& final(self).game() == old(self).game()
                    &&& final(self).clients() == old(self).clients()
                    &&& final(self).outgoing() == old(self).outgoing()
                    &&& !defect
                })
                &&& (!rate_limited(cl.last_move_at, now) && old(self).game().move_rejected(
                    cl.moniker,
                    d,
                ) ==> {
                    &&& final(self).game().same_world(old(self).game())
                    &&& final(self).clients() == old(self).clients()
                    &&& final(self).outgoing() == old(self).outgoing()
                    &&& !defect
                })
                &&& (!rate_limited(cl.last_move_at, now) && !old(self).game().move_rejected(
                    cl.moniker,
                    d,
                ) && !defect ==> {
                    &&& GameState::moved_effect(old(self).game(), final(self).game(), cl.moniker, d)
                    &&& final(self).clients() == old(self).clients().insert(
                        tok,
                        ClientObject { moniker: cl.moniker, last_move_at: now },
                    )
                    &&& final(self).outgoing() == old(self).outgoing().push(
                        Clientward::UpdMove(cl.moniker, d),
                    )
                })
                &&& (defect ==> {
                    &&& final(self).game().same_world(old(self).game())
                    &&& final(self).clients() == old(self).clients()
                    &&& final(self).outgoing() == old(self).outgoing()
                })
                },
                _ => true,
            }),
    {
        let cl = match self.clients.get(tok) {
            Some(c) => c,
            None => {
                return false;
            },
        };
        match msg {
            Serverward::Hello(_) => {
                self.server_control.push(
                    ServerCtrlMsg::DropClientWithErr(tok, Clientward::ErrorExpectedReq),
                );
                proof {
                    self.lemma_wf_frame(*old(self));
                }
                false
            },
            Serverward::ReqMove(d) => {
                if is_rate_limited(cl.last_move_at, now) {
                    // moving too fast: silently dropped
                    return false;
                }
                match self.game.move_moniker_in_dir(cl.moniker, *d) {
                    MoveOutcome::Moved => {
                        self.clients.update(
                            tok,
                            ClientObject { moniker: cl.moniker, last_move_at: now },
                        );
                        self.outgoing_updates.push(Clientward::UpdMove(cl.moniker, *d));
                        proof {
                            self.lemma_wf_after_move(*old(self), tok, cl.moniker, now);
                        }
                        false
                    },
                    MoveOutcome::Rejected => {
                        // illegal moves are routinely attempted: not punished
                        proof {
                            self.lemma_wf_frame(*old(self));
                        }
                        false
                    },
                    MoveOutcome::RespawnExhausted => {
                        proof {
                            self.lemma_wf_frame(*old(self));
                        }
                        true
                    },
                }
            },
        }
    }

    /// The invariant survives a successful move of client `tok`'s player and
    /// the stamping of its rate limiter.
    proof fn lemma_wf_after_move(self, pre: ServerCore, tok: u64, moniker: Moniker, now: u64)
        requires
            pre.wf(),
            pre.clients().contains_key(tok),
            pre.clients()[tok].moniker == moniker,
            self.clients_table().wf(),
            self.clients() == pre.clients().insert(
                tok,
                ClientObject { moniker, last_move_at: now },
            ),
            self.newcomers() == pre.newcomers(),
            self.next_token() == pre.next_token(),
            self.bots() == pre.bots(),
            self.game().wf(),
            self.game().players().dom() == pre.game().players().dom(),
        ensures
            self.wf(),
            self.clients().dom() == pre.clients().dom(),
    {
        assert(self.clients().dom() =~= pre.clients().dom());
        assert forall|t: u64| #[trigger] self.clients().contains_key(t) implies (1 <= t
            < self.next_token() && !self.newcomers().contains(t)
            && self.game().players().contains_key(self.clients()[t].moniker)) by {
            assert(pre.clients().contains_key(t));
            assert(self.clients()[t].moniker == pre.clients()[t].moniker);
            assert(pre.game().players().dom().contains(pre.clients()[t].moniker));
        }
        assert forall|t1: u64, t2: u64|
            self.clients().contains_key(t1) && self.clients().contains_key(t2) && t1
                != t2 implies self.clients()[t1].moniker != self.clients()[t2].moniker by {
            assert(pre.clients().contains_key(t1));
            assert(pre.clients().contains_key(t2));
            assert(self.clients()[t1].moniker == pre.clients()[t1].moniker);
            assert(self.clients()[t2].moniker == pre.clients()[t2].moniker);
        }
        assert forall|i: int| 0 <= i < self.bots().len() implies self.game().players().contains_key(
            (#[trigger] self.bots()[i]).moniker,
        ) by {
            assert(pre.game().players().dom().contains(pre.bots()[i].moniker));
        }
        assert forall|t: u64, i: int|
            #![trigger self.clients().contains_key(t), self.bots()[i]]
            self.clients().contains_key(t) && 0 <= i
                < self.bots().len() implies self.clients()[t].moniker != self.bots()[i].moniker by {
            assert(pre.clients().contains_key(t));
            assert(self.clients()[t].moniker == pre.clients()[t].moniker);
        }
    }

    /// What one pass of a client's decoded messages queues on the control
    /// queue: scanning in order, the first message that is not a move request
    /// earns the protocol-error drop and ends the pass; move requests queue
    /// nothing.
    pub open spec fn client_drops(tok: u64, msgs: Seq<Serverward>) -> Seq<ServerCtrlMsg>
        decreases msgs.len(),
    {
        if msgs.len() == 0 {
            Seq::empty()
        } else {
            match msgs[0] {
                Serverward::ReqMove(_) => ServerCore::client_drops(tok, msgs.drop_first()),
                Serverward::Hello(_) => seq![
                    ServerCtrlMsg::DropClientWithErr(tok, Clientward::ErrorExpectedReq),
                ],
            }
        }
    }

    /// Feed one pass of decoded client messages, in order (`recv_ok` false
    /// when the read ended in a transport error, which queues a socket-error
    /// drop). Processing stops at the first non-move message (whose
    /// protocol-error drop is queued; see [`ServerCore::client_drops`]);
    /// each move request is handled as by [`ServerCore::handle_client_msg`].
    /// Returns true on the pickup-respawn defect, leaving the queue alone.
    #[verifier::rlimit(100)]
    pub fn handle_client_incoming(
        &mut self,
        tok: u64,
        msgs: &Vec<Serverward>,
        recv_ok: bool,
        now: u64,
    ) -> (defect: bool)
        requires
            old(self).wf(),
        ensures
            final(self).wf(),
            final(self).newcomers() == old(self).newcomers(),
            final(self).bots() == old(self).bots(),
            final(self).next_token() == old(self).next_token(),
            final(self).game().players().dom() == old(self).game().players().dom(),
            final(self).clients().dom() == old(self).clients().dom(),
            !defect ==> final(self).ctrl() == old(self).ctrl() + (if old(
                self,
            ).clients().contains_key(tok) {
                ServerCore::client_drops(tok, msgs@)
            } else {
                Seq::<ServerCtrlMsg>::empty()
            }) + (if recv_ok {
                Seq::<ServerCtrlMsg>::empty()
            } else {
                seq![ServerCtrlMsg::DropClientWithErr(tok, Clientward::ErrorSocketDead)]
            }),
            defect ==> final(self).ctrl() == old(self).ctrl(),
            (msgs@.len() == 1 && old(self).clients().contains_key(tok)) ==> (match msgs@[0] {
                Serverward::ReqMove(d) => {
                    let cl = old(self).clients()[tok];
                    &&& (rate_limited(cl.last_move_at, now) ==> {
                        &&& final(self).game() == old(self).game()
                        &&& final(self).clients() == old(self).clients()
                        &&& final(self).outgoing() == old(self).outgoing()
                        &&& !defect
                    })
                    &&& (!rate_limited(cl.last_move_at, now) && old(self).game().move_rejected(
                        cl.moniker,
                        d,
                    ) ==> {
                        &&& final(self).game().same_world(old(self).game())
                        &&& final(self).clients() == old(self).clients()
                        &&& final(self).outgoing() == old(self).outgoing()
                        &&& !defect
                    })
                    &&& (!rate_limited(cl.last_move_at, now) && !old(self).game().move_rejected(
                        cl.moniker,
                        d,
                    ) && !defect ==> {
                        &&& GameState::moved_effect(
                            old(self).game(),
                            final(self).game(),
                            cl.moniker,
                            d,
                        )
                        &&& final(self).clients() == old(self).clients().insert(
                            tok,
                            ClientObject { moniker: cl.moniker, last_move_at: now },
                        )
                        &&& final(self).outgoing() == old(self).outgoing().push(
                            Clientward::UpdMove(cl.moniker, d),
                        )
                    })
                    &&& (defect ==> {
                        &&& final(self).game().same_world(old(self).game())
                        &&& final(self).clients() == old(self).clients()
                        &&& final(self).outgoing() == old(self).outgoing()
                    })
                },
                _ => true,
            }),
    {
        let known = self.is_client(tok);
        let n = msgs.len();
        if known {
            proof {
                assert(msgs@.skip(0) =~= msgs@);
            }
            let mut i: usize = 0;
            let mut stopped = false;
            while i < n && !stopped
                invariant
                    self.wf(),
                    i <= n,
                    n == msgs@.len(),
                    self.newcomers() == old(self).newcomers(),
                    self.bots() == old(self).bots(),
                    self.next_token() == old(self).next_token(),
                    self.game().players().dom() == old(self).game().players().dom(),
                    self.clients().dom() == old(self).clients().dom(),
                    old(self).clients().contains_key(tok),
                    !stopped ==> self.ctrl() == old(self).ctrl(),
                    !stopped ==> ServerCore::client_drops(tok, msgs@) == ServerCore::client_drops(
                        tok,
                        msgs@.skip(i as int),
                    ),
                    stopped ==> exists|k: int| 0 <= k < i && (#[trigger] msgs@[k]) is Hello,
                    stopped ==> self.ctrl() == old(self).ctrl() + ServerCore::client_drops(
                        tok,
                        msgs@,
                    ),
                    i == 0 ==> *self == *old(self),
                    (msgs@.len() == 1 && i == 1) ==> (match msgs@[0] {
                        Serverward::ReqMove(d) => {
                            let cl = old(self).clients()[tok];
                            &&& (rate_limited(cl.last_move_at, now) ==> {
                                &&& self.game() == old(self).game()
                                &&& self.clients() == old(self).clients()
                                &&& self.outgoing() == old(self).outgoing()
                            })
                            &&& (!rate_limited(cl.last_move_at, now)
                                && old(self).game().move_rejected(cl.moniker, d) ==> {
                                &&& self.game().same_world(old(self).game())
                                &&& self.clients() == old(self).clients()
                                &&& self.outgoing() == old(self).outgoing()
                            })
                            &&& (!rate_limited(cl.last_move_at, now) && !old(
                                self,
                            ).game().move_rejected(cl.moniker, d) ==> {
                                &&& GameState::moved_effect(
                                    old(self).game(),
                                    self.game(),
                                    cl.moniker,
                                    d,
                                )
                                &&& self.clients() == old(self).clients().insert(
                                    tok,
                                    ClientObject { moniker: cl.moniker, last_move_at: now },
                                )
                                &&& self.outgoing() == old(self).outgoing().push(
                                    Clientward::UpdMove(cl.moniker, d),
                                )
                            })
                        },
                        _ => true,
                    }),
                decreases n - i,
            {
                let msg = &msgs[i];
                match msg {
                    Serverward::Hello(_) => {
                        stopped = true;
                    },
                    Serverward::ReqMove(_) => {
                        proof {
                            assert(msgs@.skip(i as int).drop_first() =~= msgs@.skip(i + 1));
                        }
                    },
                }
                if self.handle_client_msg(tok, msg, now) {
                    proof {
                        assert(self.ctrl() == old(self).ctrl());
                    }
                    return true;
                }
                i = i + 1;
            }
        }
        if !recv_ok {
            let ghost before = *self;
            self.server_control.push(
                ServerCtrlMsg::DropClientWithErr(tok, Clientward::ErrorSocketDead),
            );
            proof {
                self.lemma_wf_frame(before);
                assert(self.ctrl() =~= before.ctrl() + seq![
                    ServerCtrlMsg::DropClientWithErr(tok, Clientward::ErrorSocketDead),
                ]);
            }
        }
        proof {
            if !old(self).clients().contains_key(tok) {
                assert(old(self).ctrl() + Seq::<ServerCtrlMsg>::empty() =~= old(self).ctrl());
            }
            assert(old(self).ctrl() + Seq::<ServerCtrlMsg>::empty() =~= old(self).ctrl());
        }
        false
    }

    /// Whether a bot has rested long enough to move again.
    pub open spec fn bot_due(last_move_at: u64, now: u64) -> bool {
        now >= last_move_at && now - last_move_at > BOT_MOVE_PERIOD_MILLIS
    }

    /// The notification is a move update carrying some roster bot's identity.
    pub open spec fn is_bot_update(bots: Seq<Bot>, msg: Clientward) -> bool {
        match msg {
            Clientward::UpdMove(m, _) => exists|i: int| 0 <= i < bots.len() && (#[trigger] bots[i]).moniker == m,
            _ => false,
        }
    }

    /// The notification is a move update carrying exactly this identity.
    pub open spec fn update_of(msg: Clientward, m: Moniker) -> bool {
        match msg {
            Clientward::UpdMove(mm, _) => mm == m,
            _ => false,
        }
    }

    /// The invariant survives stamping one bot's timer.
    proof fn lemma_wf_after_bot(self, pre: ServerCore, i: int, now: u64)
        requires
            pre.wf(),
            0 <= i < pre.bots().len(),
            self.bots() == pre.bots().update(
                i,
                Bot { moniker: pre.bots()[i].moniker, last_move_at: now },
            ),
            self.clients_table() == pre.clients_table(),
            self.newcomers() == pre.newcomers(),
            self.next_token() == pre.next_token(),
            self.game().wf(),
            self.game().players().dom() == pre.game().players().dom(),
        ensures
            self.wf(),
    {
        assert(self.bots().len() == pre.bots().len());
        assert forall|a: int| 0 <= a < self.bots().len() implies (#[trigger] self.bots()[a]).moniker
            == pre.bots()[a].moniker by {}
        self.lemma_wf_clients_frame(pre);
        assert forall|a: int, b: int|
            0 <= a < self.bots().len() && 0 <= b < self.bots().len() && a
                != b implies (#[trigger] self.bots()[a]).moniker != (
            #[trigger] self.bots()[b]).moniker by {
            assert(pre.bots()[a].moniker != pre.bots()[b].moniker);
        }
        assert forall|a: int| 0 <= a < self.bots().len() implies self.game().players().contains_key(
            (#[trigger] self.bots()[a]).moniker,
        ) by {
            assert(pre.game().players().dom().contains(pre.bots()[a].moniker));
        }
        assert forall|t: u64, a: int|
            #![trigger self.clients().contains_key(t), self.bots()[a]]
            self.clients().contains_key(t) && 0 <= a
                < self.bots().len() implies self.clients()[t].moniker != self.bots()[a].moniker by {
            assert(pre.clients().contains_key(t));
        }
    }

    /// One world tick: every bot that has rested longer than its period
    /// attempts one move in a random direction; a successful move stamps the
    /// bot's timer and queues its one update broadcast, a failed one leaves
    /// the timer alone (the bot retries next tick). A bot's entry changes
    /// exactly when its update was queued, and at most one update per bot is
    /// queued. Returns true on the pickup-respawn defect.
    #[verifier::rlimit(100)]
    pub fn game_tick(&mut self, now: u64) -> (defect: bool)
        requires
            old(self).wf(),
        ensures
            final(self).wf(),
            final(self).clients() == old(self).clients(),
            final(self).newcomers() == old(self).newcomers(),
            final(self).ctrl() == old(self).ctrl(),
            final(self).next_token() == old(self).next_token(),
            final(self).game().players().dom() == old(self).game().players().dom(),
            final(self).bots().len() == old(self).bots().len(),
            forall|i: int|
                0 <= i < final(self).bots().len() ==> {
                    &&& (#[trigger] final(self).bots()[i]).moniker == old(self).bots()[i].moniker
                    &&& (final(self).bots()[i].last_move_at == old(self).bots()[i].last_move_at
                        || final(self).bots()[i].last_move_at == now)
                    &&& (!ServerCore::bot_due(old(self).bots()[i].last_move_at, now)
                        ==> final(self).bots()[i] == old(self).bots()[i])
                },
            old(self).outgoing().is_prefix_of(final(self).outgoing()),
            final(self).outgoing().len() <= old(self).outgoing().len() + old(self).bots().len(),
            forall|j: int|
                old(self).outgoing().len() <= j < final(self).outgoing().len()
                    ==> ServerCore::is_bot_update(old(self).bots(), #[trigger] final(self).outgoing()[j]),
            forall|i: int|
                #![trigger old(self).bots()[i]]
                0 <= i < old(self).bots().len() ==> ((final(self).bots()[i] != old(self).bots()[i])
                    <==> exists|j: int|
                    old(self).outgoing().len() <= j < final(self).outgoing().len()
                        && #[trigger] ServerCore::update_of(
                        final(self).outgoing()[j],
                        old(self).bots()[i].moniker,
                    )),
            forall|j1: int, j2: int, m: Moniker|
                old(self).outgoing().len() <= j1 < final(self).outgoing().len() && old(
                    self,
                ).outgoing().len() <= j2 < final(self).outgoing().len() && #[trigger] ServerCore::update_of(
                    final(self).outgoing()[j1],
                    m,
                ) && #[trigger] ServerCore::update_of(final(self).outgoing()[j2], m) ==> j1 == j2,
    {
        let n = self.bots.len();
        let mut i: usize = 0;
        while i < n
            invariant
                old(self).wf(),
                self.wf(),
                i <= n,
                n == self.bots().len(),
                n == old(self).bots().len(),
                self.clients() == old(self).clients(),
                self.clients_table() == old(self).clients_table(),
                self.newcomers() == old(self).newcomers(),
                self.ctrl() == old(self).ctrl(),
                self.next_token() == old(self).next_token(),
                self.game().players().dom() == old(self).game().players().dom(),
                forall|a: int|
                    0 <= a < n ==> {
                        &&& (#[trigger] self.bots()[a]).moniker == old(self).bots()[a].moniker
                        &&& (self.bots()[a].last_move_at == old(self).bots()[a].last_move_at
                            || self.bots()[a].last_move_at == now)
                        &&& (!ServerCore::bot_due(old(self).bots()[a].last_move_at, now)
                            ==> self.bots()[a] == old(self).bots()[a])
                    },
                forall|a: int| i <= a < n ==> #[trigger] self.bots()[a] == old(self).bots()[a],
                old(self).outgoing().is_prefix_of(self.outgoing()),
                self.outgoing().len() <= old(self).outgoing().len() + i,
                forall|j: int|
                    old(self).outgoing().len() <= j < self.outgoing().len()
                        ==> ServerCore::is_bot_update(old(self).bots(), #[trigger] self.outgoing()[j]),
                forall|a: int|
                    #![trigger old(self).bots()[a]]
                    0 <= a < n ==> ((self.bots()[a] != old(self).bots()[a]) <==> exists|j: int|
                        old(self).outgoing().len() <= j < self.outgoing().len()
                            && #[trigger] ServerCore::update_of(
                            self.outgoing()[j],
                            old(self).bots()[a].moniker,
                        )),
                forall|j1: int, j2: int, m: Moniker|
                    old(self).outgoing().len() <= j1 < self.outgoing().len() && old(
                        self,
                    ).outgoing().len() <= j2 < self.outgoing().len()
                        && #[trigger] ServerCore::update_of(self.outgoing()[j1], m)
                        && #[trigger] ServerCore::update_of(self.outgoing()[j2], m) ==> j1 == j2,
            decreases n - i,
        {
            let bot = self.bots[i];
            if now >= bot.last_move_at && now - bot.last_move_at > BOT_MOVE_PERIOD_MILLIS {
                let dirs = dir_choices();
                let dir = crate::rng::random_direction(&dirs);
                let ghost pre = *self;
                match self.game.move_moniker_in_dir(bot.moniker, dir) {
                    MoveOutcome::Moved => {
                        self.bots.set(i, Bot { moniker: bot.moniker, last_move_at: now });
                        self.outgoing_updates.push(Clientward::UpdMove(bot.moniker, dir));
                        proof {
                            self.lemma_wf_after_bot(pre, i as int, now);
                            self.lemma_tick_step_moved(*old(self), pre, i as int, now, dir);
                        }
                    },
                    MoveOutcome::Rejected => {
                        proof {
                            self.lemma_wf_frame(pre);
                        }
                    },
                    MoveOutcome::RespawnExhausted => {
                        proof {
                            self.lemma_wf_frame(pre);
                        }
                        return true;
                    },
                }
            }
            i = i + 1;
        }
        false
    }

    /// One tick step that moved bot `i`: its stamped entry and its pushed
    /// update keep the tick's bookkeeping — each processed bot's entry
    /// changed exactly when its one update was queued.
    proof fn lemma_tick_step_moved(
        self,
        orig: ServerCore,
        pre: ServerCore,
        i: int,
        now: u64,
        dir: Direction,
    )
        requires
            orig.wf(),
            0 <= i < orig.bots().len(),
            pre.bots().len() == orig.bots().len(),
            forall|a: int|
                i <= a < orig.bots().len() ==> #[trigger] pre.bots()[a] == orig.bots()[a],
            orig.outgoing().is_prefix_of(pre.outgoing()),
            forall|a: int|
                #![trigger orig.bots()[a]]
                0 <= a < orig.bots().len() ==> ((pre.bots()[a] != orig.bots()[a]) <==> exists|j: int|
                    orig.outgoing().len() <= j < pre.outgoing().len()
                        && #[trigger] ServerCore::update_of(
                        pre.outgoing()[j],
                        orig.bots()[a].moniker,
                    )),
            forall|j1: int, j2: int, m: Moniker|
                orig.outgoing().len() <= j1 < pre.outgoing().len() && orig.outgoing().len() <= j2
                    < pre.outgoing().len() && #[trigger] ServerCore::update_of(
                    pre.outgoing()[j1],
                    m,
                ) && #[trigger] ServerCore::update_of(pre.outgoing()[j2], m) ==> j1 == j2,
            forall|j: int|
                orig.outgoing().len() <= j < pre.outgoing().len() ==> ServerCore::is_bot_update(
                    orig.bots(),
                    #[trigger] pre.outgoing()[j],
                ),
            self.bots() == pre.bots().update(
                i,
                Bot { moniker: orig.bots()[i].moniker, last_move_at: now },
            ),
            self.outgoing() == pre.outgoing().push(
                Clientward::UpdMove(orig.bots()[i].moniker, dir),
            ),
            ServerCore::bot_due(orig.bots()[i].last_move_at, now),
        ensures
            orig.outgoing().is_prefix_of(self.outgoing()),
            forall|a: int|
                #![trigger orig.bots()[a]]
                0 <= a < orig.bots().len() ==> ((self.bots()[a] != orig.bots()[a]) <==> exists|j: int|
                    orig.outgoing().len() <= j < self.outgoing().len()
                        && #[trigger] ServerCore::update_of(
                        self.outgoing()[j],
                        orig.bots()[a].moniker,
                    )),
            forall|j1: int, j2: int, m: Moniker|
                orig.outgoing().len() <= j1 < self.outgoing().len() && orig.outgoing().len() <= j2
                    < self.outgoing().len() && #[trigger] ServerCore::update_of(
                    self.outgoing()[j1],
                    m,
                ) && #[trigger] ServerCore::update_of(self.outgoing()[j2], m) ==> j1 == j2,
            forall|j: int|
                orig.outgoing().len() <= j < self.outgoing().len() ==> ServerCore::is_bot_update(
                    orig.bots(),
                    #[trigger] self.outgoing()[j],
                ),
    {
        let jn = self.outgoing().len() - 1;
        let mi = orig.bots()[i].moniker;
        assert(ServerCore::update_of(self.outgoing()[jn], mi));
        assert(pre.bots()[i] == orig.bots()[i]);
        assert forall|j: int|
            orig.outgoing().len() <= j < pre.outgoing().len() implies !ServerCore::update_of(
            #[trigger] pre.outgoing()[j],
            mi,
        ) by {
            if ServerCore::update_of(pre.outgoing()[j], mi) {
                assert(exists|j2: int|
                    orig.outgoing().len() <= j2 < pre.outgoing().len()
                        && #[trigger] ServerCore::update_of(
                        pre.outgoing()[j2],
                        orig.bots()[i].moniker,
                    ));
                assert(pre.bots()[i] != orig.bots()[i]);
            }
        }
        assert(self.bots()[i] != orig.bots()[i]) by {
            assert(orig.bots()[i].last_move_at < now);
        }
        assert forall|a: int|
            #![trigger orig.bots()[a]]
            0 <= a < orig.bots().len() implies ((self.bots()[a] != orig.bots()[a]) <==> exists|j: int|
            orig.outgoing().len() <= j < self.outgoing().len() && #[trigger] ServerCore::update_of(
                self.outgoing()[j],
                orig.bots()[a].moniker,
            )) by {
            if a == i {
                assert(ServerCore::update_of(self.outgoing()[jn], orig.bots()[a].moniker));
            } else if pre.bots()[a] != orig.bots()[a] {
                let j0 = choose|j0: int|
                    orig.outgoing().len() <= j0 < pre.outgoing().len()
                        && #[trigger] ServerCore::update_of(
                        pre.outgoing()[j0],
                        orig.bots()[a].moniker,
                    );
                assert(self.outgoing()[j0] == pre.outgoing()[j0]);
                assert(ServerCore::update_of(self.outgoing()[j0], orig.bots()[a].moniker));
                assert(self.bots()[a] != orig.bots()[a]);
            } else {
                assert(self.bots()[a] == orig.bots()[a]);
                assert forall|j: int|
                    orig.outgoing().len() <= j < self.outgoing().len() implies !ServerCore::update_of(
                    #[trigger] self.outgoing()[j],
                    orig.bots()[a].moniker,
                ) by {
                    if j < pre.outgoing().len() {
                        assert(self.outgoing()[j] == pre.outgoing()[j]);
                    } else {
                        assert(j == jn);
                        assert(orig.bots()[a].moniker != mi);
                    }
                }
            }
        }
        assert forall|j1: int, j2: int, m: Moniker|
            orig.outgoing().len() <= j1 < self.outgoing().len() && orig.outgoing().len() <= j2
                < self.outgoing().len() && #[trigger] ServerCore::update_of(self.outgoing()[j1], m)
                && #[trigger] ServerCore::update_of(self.outgoing()[j2], m) implies j1 == j2 by {
            if j1 < pre.outgoing().len() && j2 < pre.outgoing().len() {
                assert(self.outgoing()[j1] == pre.outgoing()[j1]);
                assert(self.outgoing()[j2] == pre.outgoing()[j2]);
            } else if j1 < pre.outgoing().len() {
                assert(j2 == jn);
                assert(m == mi);
                assert(self.outgoing()[j1] == pre.outgoing()[j1]);
                assert(!ServerCore::update_of(pre.outgoing()[j1], mi));
            } else if j2 < pre.outgoing().len() {
                assert(j1 == jn);
                assert(m == mi);
                assert(self.outgoing()[j2] == pre.outgoing()[j2]);
                assert(!ServerCore::update_of(pre.outgoing()[j2], mi));
            }
        }
        assert forall|j: int|
            orig.outgoing().len() <= j < self.outgoing().len() implies ServerCore::is_bot_update(
            orig.bots(),
            #[trigger] self.outgoing()[j],
        ) by {
            if j < pre.outgoing().len() {
                assert(self.outgoing()[j] == pre.outgoing()[j]);
            } else {
                assert(j == jn);
                assert(orig.bots()[i].moniker == mi);
            }
        }
    }

    /// Deregister a newcomer's token, reporting whether it was there.
    fn remove_newcomer(&mut self, tok: u64) -> (r: bool)
        requires
            old(self).wf(),
        ensures
            final(self).wf(),
            r == old(self).newcomers().contains(tok),
            !final(self).newcomers().contains(tok),
            forall|t: u64|
                t != tok ==> #[trigger] final(self).newcomers().contains(t) == old(
                    self,
                ).newcomers().contains(t),
            final(self).clients() == old(self).clients(),
            final(self).game() == old(self).game(),
            final(self).bots() == old(self).bots(),
            final(self).ctrl() == old(self).ctrl(),
            final(self).outgoing() == old(self).outgoing(),
            final(self).next_token() == old(self).next_token(),
    {
        let n = self.newcomers.len();
        let mut i: usize = 0;
        while i < n
            invariant
                *self == *old(self),
                self.wf(),
                i <= n,
                n == self.newcomers().len(),
                forall|a: int| 0 <= a < i ==> #[trigger] self.newcomers()[a] != tok,
            decreases n - i,
        {
            if self.newcomers[i] == tok {
                let ghost sq = self.newcomers();
                self.newcomers.remove(i);
                proof {
                    assert forall|a: int, b: int|
                        0 <= a < self.newcomers().len() && 0 <= b < self.newcomers().len() && a
                            != b implies self.newcomers()[a] != self.newcomers()[b] by {
                        let a0 = if a < i {
                            a
                        } else {
                            a + 1
                        };
                        let b0 = if b < i {
                            b
                        } else {
                            b + 1
                        };
                        assert(self.newcomers()[a] == sq[a0]);
                        assert(self.newcomers()[b] == sq[b0]);
                    }
                    assert forall|t: u64| #[trigger]
                        self.newcomers().contains(t) implies sq.contains(t) by {
                        let a = choose|a: int|
                            0 <= a < self.newcomers().len() && self.newcomers()[a] == t;
                        let a0 = if a < i {
                            a
                        } else {
                            a + 1
                        };
                        assert(sq[a0] == t);
                    }
                    assert(!self.newcomers().contains(tok)) by {
                        if self.newcomers().contains(tok) {
                            let a = choose|a: int|
                                0 <= a < self.newcomers().len() && self.newcomers()[a] == tok;
                            let a0 = if a < i {
                                a
                            } else {
                                a + 1
                            };
                            assert(sq[a0] == tok && sq[i as int] == tok);
                        }
                    }
                    assert forall|t: u64|
                        t != tok && sq.contains(t) implies self.newcomers().contains(t) by {
                        let a = choose|a: int| 0 <= a < sq.len() && sq[a] == t;
                        let a1 = if a < i {
                            a
                        } else {
                            a - 1
                        };
                        assert(self.newcomers()[a1] == t);
                    }
                    assert forall|a: int| 0 <= a < self.newcomers().len() implies (1
                        <= #[trigger] self.newcomers()[a] < self.next_token()) by {
                        let a0 = if a < i {
                            a
                        } else {
                            a + 1
                        };
                        assert(self.newcomers()[a] == sq[a0]);
                    }
                    assert forall|t: u64| #[trigger] self.clients().contains_key(t) implies (1 <= t
                        < self.next_token() && !self.newcomers().contains(t)
                        && self.game().players().contains_key(self.clients()[t].moniker)) by {
                        assert(old(self).clients().contains_key(t));
                        assert(!sq.contains(t));
                    }
                    assert forall|t1: u64, t2: u64|
                        self.clients().contains_key(t1) && self.clients().contains_key(t2) && t1
                            != t2 implies self.clients()[t1].moniker != self.clients()[t2].moniker by {
                        assert(old(self).clients().contains_key(t1));
                        assert(old(self).clients().contains_key(t2));
                    }
                    assert forall|a: int, b: int|
                        0 <= a < self.bots().len() && 0 <= b < self.bots().len() && a
                            != b implies (#[trigger] self.bots()[a]).moniker != (
                        #[trigger] self.bots()[b]).moniker by {
                        assert(self.bots()[a] == old(self).bots()[a]);
                        assert(self.bots()[b] == old(self).bots()[b]);
                    }
                    assert forall|a: int|
                        0 <= a < self.bots().len() implies self.game().players().contains_key(
                        (#[trigger] self.bots()[a]).moniker,
                    ) by {
                        assert(old(self).game().players().contains_key(old(self).bots()[a].moniker));
                    }
                    assert forall|t: u64, a: int|
                        #![trigger self.clients().contains_key(t), self.bots()[a]]
                        self.clients().contains_key(t) && 0 <= a
                            < self.bots().len() implies self.clients()[t].moniker
                        != self.bots()[a].moniker by {
                        assert(old(self).clients().contains_key(t));
                        assert(self.bots()[a] == old(self).bots()[a]);
                    }
                }
                return true;
            }
            i = i + 1;
        }
        false
    }

    /// What applying one control entry does: the terminal transition of the
    /// named connection, case by case (the control queue itself is handled
    /// separately).
    pub open spec fn control_entry_effect(
        pre: ServerCore,
        post: ServerCore,
        entry: ServerCtrlMsg,
        now: u64,
        cmd: Option<TransportCmd>,
    ) -> bool {
        (match entry {
            ServerCtrlMsg::DropNewcomerWithErr(tok, m) => {
                &&& post.clients() == pre.clients()
                &&& post.game() == pre.game()
                &&& post.outgoing() == pre.outgoing()
                &&& !post.newcomers().contains(tok)
                &&& forall|t: u64|
                    t != tok ==> #[trigger] post.newcomers().contains(t) == pre.newcomers().contains(t)
                &&& (pre.newcomers().contains(tok) ==> cmd == Some(
                    TransportCmd::DropNewcomer(tok, m),
                ))
                &&& (!pre.newcomers().contains(tok) ==> cmd is None)
            },
            ServerCtrlMsg::DropClientWithErr(tok, m) => {
                &&& post.newcomers() == pre.newcomers()
                &&& (pre.clients().contains_key(tok) ==> {
                    let mon = pre.clients()[tok].moniker;
                    &&& post.clients() == pre.clients().remove(tok)
                    &&& post.game().players() == pre.game().players().remove(mon)
                    &&& post.game().blobs() == pre.game().blobs()
                    &&& post.game().overrides() == pre.game().overrides()
                    &&& post.game().seed() == pre.game().seed()
                    &&& post.game().rng_state() == pre.game().rng_state()
                    &&& post.outgoing() == pre.outgoing().push(
                        Clientward::RemovePlayer(mon),
                    )
                    &&& cmd == Some(TransportCmd::DropClient(tok, m))
                })
                &&& (!pre.clients().contains_key(tok) ==> {
                    &&& post.clients() == pre.clients()
                    &&& post.game() == pre.game()
                    &&& post.outgoing() == pre.outgoing()
                    &&& cmd is None
                })
            },
            ServerCtrlMsg::UpgradeClient(tok, mon) => {
                &&& !post.newcomers().contains(tok)
                &&& forall|t: u64|
                    t != tok ==> #[trigger] post.newcomers().contains(t) == pre.newcomers().contains(t)
                &&& (!pre.newcomers().contains(tok) ==> {
                    &&& post.clients() == pre.clients()
                    &&& post.game() == pre.game()
                    &&& post.outgoing() == pre.outgoing()
                    &&& cmd is None
                })
                &&& (pre.newcomers().contains(tok)
                    && pre.game().players().contains_key(mon) ==> {
                    &&& post.clients() == pre.clients()
                    &&& post.game() == pre.game()
                    &&& post.outgoing() == pre.outgoing()
                    &&& cmd == Some(
                        TransportCmd::DropNewcomer(tok, Clientward::ErrorTakenMoniker),
                    )
                })
                &&& (pre.newcomers().contains(tok) && !pre.game().players().contains_key(mon)
                    && pre.game().free_upto(crate::grid::TOTAL_COORDS as int) == 0 ==> cmd == Some(
                    TransportCmd::DropNewcomer(tok, Clientward::ErrorIllegalMove),
                ))
                &&& (pre.newcomers().contains(tok) && !pre.game().players().contains_key(mon) ==> (match cmd {
                    Some(TransportCmd::DropNewcomer(t, e)) => {
                        &&& t == tok
                        &&& e is ErrorIllegalMove
                        &&& post.clients() == pre.clients()
                        &&& post.game() == pre.game()
                        &&& post.outgoing() == pre.outgoing()
                    },
                    Some(TransportCmd::Welcome(t, ess)) => {
                        &&& t == tok
                        &&& exists|coord: Coord2D|
                            {
                                &&& coord.in_bounds()
                                &&& !(#[trigger] pre.game().occupied(coord))
                                &&& post.game().players() == pre.game().players().insert(
                                    mon,
                                    PlayerObject { coord, charge: INITIAL_CHARGE },
                                )
                                &&& post.outgoing() == pre.outgoing().push(
                                    Clientward::AddPlayer(mon, coord),
                                )
                            }
                        &&& post.clients() == pre.clients().insert(
                            tok,
                            ClientObject { moniker: mon, last_move_at: now },
                        )
                        &&& post.game().blobs() == pre.game().blobs()
                        &&& post.game().overrides() == pre.game().overrides()
                        &&& post.game().seed() == pre.game().seed()
                        &&& ess.players() == post.game().players()
                        &&& ess.blobs() == post.game().blobs()
                        &&& ess.overrides() == post.game().overrides()
                        &&& ess.seed() == post.game().seed()
                        &&& ess.rng().state() == post.game().rng_state()
                    },
                    _ => false,
                }))
            },
        })
    }

    /// Apply one control-queue entry: the terminal transition of one
    /// connection. Returns the transport command the reactor must carry out.
    pub fn apply_control_entry(&mut self, entry: ServerCtrlMsg, now: u64) -> (cmd: Option<
        TransportCmd,
    >)
        requires
            old(self).wf(),
        ensures
            final(self).wf(),
            final(self).bots() == old(self).bots(),
            final(self).next_token() == old(self).next_token(),
            final(self).ctrl() == old(self).ctrl(),
            ServerCore::control_entry_effect(*old(self), *final(self), entry, now, cmd),
    {
        match entry {
            ServerCtrlMsg::DropNewcomerWithErr(tok, m) => {
                let found = self.remove_newcomer(tok);
                if found {
                    Some(TransportCmd::DropNewcomer(tok, m))
                } else {
                    None
                }
            },
            ServerCtrlMsg::DropClientWithErr(tok, m) => {
                match self.clients.remove(tok) {
                    Some(obj) => {
                        proof {
                            assert(old(self).clients().contains_key(tok));
                            assert(old(self).game().players().contains_key(obj.moniker));
                        }
                        let removed = self.game.try_remove_player(obj.moniker);
                        self.outgoing_updates.push(Clientward::RemovePlayer(obj.moniker));
                        proof {
                            assert(removed);
                            self.lemma_wf_after_client_drop(*old(self), tok, obj.moniker);
                        }
                        Some(TransportCmd::DropClient(tok, m))
                    },
                    None => None,
                }
            },
            ServerCtrlMsg::UpgradeClient(tok, mon) => {
                if !self.remove_newcomer(tok) {
                    return None;
                }
                let ghost afterdereg = *self;
                if self.game.contains_player(mon) {
                    return Some(TransportCmd::DropNewcomer(tok, Clientward::ErrorTakenMoniker));
                }
                let coord = match self.game.random_free_spot() {
                    Some(c) => c,
                    None => {
                        // capacity exhausted: the join is rejected, recoverably;
                        // the message set has no dedicated capacity error, so
                        // the illegal-move error stands in as the notification
                        return Some(TransportCmd::DropNewcomer(tok, Clientward::ErrorIllegalMove));
                    },
                };
                let added = self.game.try_add_player(mon, coord);
                proof {
                    assert(added);
                    assert(old(self).newcomers().contains(tok));
                    let a = choose|a: int|
                        0 <= a < old(self).newcomers().len() && old(self).newcomers()[a] == tok;
                    assert(1 <= old(self).newcomers()[a] < old(self).next_token());
                    assert(!afterdereg.clients().contains_key(tok)) by {
                        if afterdereg.clients().contains_key(tok) {
                            assert(old(self).clients().contains_key(tok));
                        }
                    }
                }
                self.clients.insert(tok, ClientObject { moniker: mon, last_move_at: now });
                self.outgoing_updates.push(Clientward::AddPlayer(mon, coord));
                proof {
                    assert(self.game().players().dom() =~= afterdereg.game().players().dom().insert(
                        mon,
                    ));
                    self.lemma_wf_after_upgrade(afterdereg, tok, mon, now);
                }
                let essence = self.game.get_essence().duplicate();
                Some(TransportCmd::Welcome(tok, essence))
            },
        }
    }

    /// The invariant survives dropping client `tok` and its player.
    proof fn lemma_wf_after_client_drop(self, pre: ServerCore, tok: u64, mon: Moniker)
        requires
            pre.wf(),
            pre.clients().contains_key(tok),
            pre.clients()[tok].moniker == mon,
            self.clients_table().wf(),
            self.clients() == pre.clients().remove(tok),
            self.newcomers() == pre.newcomers(),
            self.next_token() == pre.next_token(),
            self.bots() == pre.bots(),
            self.game().wf(),
            self.game().players() == pre.game().players().remove(mon),
        ensures
            self.wf(),
    {
        assert forall|t: u64| #[trigger] self.clients().contains_key(t) implies (1 <= t
            < self.next_token() && !self.newcomers().contains(t)
            && self.game().players().contains_key(self.clients()[t].moniker)) by {
            assert(pre.clients().contains_key(t));
            assert(t != tok);
            assert(self.clients()[t].moniker != mon);
        }
        assert forall|t1: u64, t2: u64|
            self.clients().contains_key(t1) && self.clients().contains_key(t2) && t1
                != t2 implies self.clients()[t1].moniker != self.clients()[t2].moniker by {
            assert(pre.clients().contains_key(t1));
            assert(pre.clients().contains_key(t2));
        }
        assert forall|i: int| 0 <= i < self.bots().len() implies self.game().players().contains_key(
            (#[trigger] self.bots()[i]).moniker,
        ) by {
            assert(pre.game().players().contains_key(pre.bots()[i].moniker));
            assert(pre.clients().contains_key(tok));
            assert(pre.clients()[tok].moniker != pre.bots()[i].moniker);
        }
        assert forall|t: u64, i: int|
            #![trigger self.clients().contains_key(t), self.bots()[i]]
            self.clients().contains_key(t) && 0 <= i
                < self.bots().len() implies self.clients()[t].moniker != self.bots()[i].moniker by {
            assert(pre.clients().contains_key(t));
        }
    }

    /// The invariant survives upgrading newcomer `tok` to a client with the
    /// fresh identity `mon`.
    proof fn lemma_wf_after_upgrade(self, pre: ServerCore, tok: u64, mon: Moniker, now: u64)
        requires
            pre.wf(),
            !pre.newcomers().contains(tok),
            1 <= tok < pre.next_token(),
            !pre.clients().contains_key(tok),
            !pre.game().players().contains_key(mon),
            self.clients_table().wf(),
            self.clients() == pre.clients().insert(
                tok,
                ClientObject { moniker: mon, last_move_at: now },
            ),
            self.newcomers() == pre.newcomers(),
            self.next_token() == pre.next_token(),
            self.bots() == pre.bots(),
            self.game().wf(),
            self.game().players().dom() == pre.game().players().dom().insert(mon),
        ensures
            self.wf(),
    {
        assert forall|t: u64| #[trigger] self.clients().contains_key(t) implies (1 <= t
            < self.next_token() && !self.newcomers().contains(t)
            && self.game().players().contains_key(self.clients()[t].moniker)) by {
            if t != tok {
                assert(pre.clients().contains_key(t));
                assert(pre.game().players().dom().contains(pre.clients()[t].moniker));
            } else {
                assert(self.game().players().dom().contains(mon));
            }
        }
        assert forall|t1: u64, t2: u64|
            self.clients().contains_key(t1) && self.clients().contains_key(t2) && t1
                != t2 implies self.clients()[t1].moniker != self.clients()[t2].moniker by {
            if t1 != tok && t2 != tok {
                assert(pre.clients().contains_key(t1));
                assert(pre.clients().contains_key(t2));
            } else if t1 == tok {
                assert(pre.clients().contains_key(t2));
                assert(pre.game().players().contains_key(pre.clients()[t2].moniker));
            } else {
                assert(pre.clients().contains_key(t1));
                assert(pre.game().players().contains_key(pre.clients()[t1].moniker));
            }
        }
        assert forall|i: int| 0 <= i < self.bots().len() implies self.game().players().contains_key(
            (#[trigger] self.bots()[i]).moniker,
        ) by {
            assert(pre.game().players().dom().contains(pre.bots()[i].moniker));
        }
        assert forall|t: u64, i: int|
            #![trigger self.clients().contains_key(t), self.bots()[i]]
            self.clients().contains_key(t) && 0 <= i
                < self.bots().len() implies self.clients()[t].moniker != self.bots()[i].moniker by {
            if t != tok {
                assert(pre.clients().contains_key(t));
            } else {
                assert(pre.game().players().contains_key(pre.bots()[i].moniker));
            }
        }
    }

    /// Apply the whole control queue, in arrival order, and empty it; the
    /// returned transport commands are carried out by the reactor, in order.
    /// The client token a control entry tears down, if any.
    pub open spec fn dropped_client_token(entry: ServerCtrlMsg) -> Option<u64> {
        match entry {
            ServerCtrlMsg::DropClientWithErr(t, _) => Some(t),
            _ => None,
        }
    }

    /// The newcomer token a control entry discards, if any.
    pub open spec fn dropped_newcomer_token(entry: ServerCtrlMsg) -> Option<u64> {
        match entry {
            ServerCtrlMsg::DropNewcomerWithErr(t, _) => Some(t),
            _ => None,
        }
    }

    /// Apply the whole control queue, in arrival order, and empty it; the
    /// returned transport commands are carried out by the reactor, in order.
    /// A one-entry queue has exactly the effect of
    /// [`ServerCore::control_entry_effect`]; in general, every client whose
    /// drop was queued is gone (with its player, see the entry effect), and
    /// so is every discarded newcomer.
    pub fn apply_control(&mut self, now: u64) -> (cmds: Vec<TransportCmd>)
        requires
            old(self).wf(),
        ensures
            final(self).wf(),
            final(self).ctrl() == Seq::<ServerCtrlMsg>::empty(),
            final(self).bots() == old(self).bots(),
            final(self).next_token() == old(self).next_token(),
            cmds@.len() <= old(self).ctrl().len(),
            forall|t: u64|
                #[trigger] final(self).newcomers().contains(t) ==> old(self).newcomers().contains(
                    t,
                ),
            old(self).ctrl().len() == 1 ==> (cmds@.len() <= 1
                && ServerCore::control_entry_effect(
                *old(self),
                *final(self),
                old(self).ctrl()[0],
                now,
                if cmds@.len() == 1 {
                    Some(cmds@[0])
                } else {
                    None::<TransportCmd>
                },
            )),
            forall|k: int|
                0 <= k < old(self).ctrl().len() && (#[trigger] ServerCore::dropped_client_token(
                    old(self).ctrl()[k],
                )) is Some && old(self).clients().contains_key(
                    ServerCore::dropped_client_token(old(self).ctrl()[k])->Some_0,
                ) ==> !final(self).clients().contains_key(
                    ServerCore::dropped_client_token(old(self).ctrl()[k])->Some_0,
                ),
            forall|k: int|
                0 <= k < old(self).ctrl().len() && (#[trigger] ServerCore::dropped_newcomer_token(
                    old(self).ctrl()[k],
                )) is Some ==> !final(self).newcomers().contains(
                    ServerCore::dropped_newcomer_token(old(self).ctrl()[k])->Some_0,
                ),
    {
        let mut queue: Vec<ServerCtrlMsg> = Vec::new();
        core::mem::swap(&mut queue, &mut self.server_control);
        proof {
            self.lemma_wf_frame(*old(self));
            assert(queue@ =~= old(self).ctrl().skip(0));
        }
        let mut cmds: Vec<TransportCmd> = Vec::new();
        while queue.len() > 0
            invariant
                old(self).wf(),
                self.wf(),
                self.ctrl() == Seq::<ServerCtrlMsg>::empty(),
                self.bots() == old(self).bots(),
                self.next_token() == old(self).next_token(),
                cmds@.len() + queue@.len() <= old(self).ctrl().len(),
                queue@.len() <= old(self).ctrl().len(),
                queue@ == old(self).ctrl().skip(
                    old(self).ctrl().len() - queue@.len(),
                ),
                forall|t: u64|
                    #[trigger] self.newcomers().contains(t) ==> old(self).newcomers().contains(t),
                (old(self).ctrl().len() == 1 && queue@.len() == 1) ==> {
                    &&& cmds@.len() == 0
                    &&& self.clients_table() == old(self).clients_table()
                    &&& self.newcomers() == old(self).newcomers()
                    &&& self.game() == old(self).game()
                    &&& self.outgoing() == old(self).outgoing()
                },
                (old(self).ctrl().len() == 1 && queue@.len() == 0) ==> (cmds@.len() <= 1
                    && ServerCore::control_entry_effect(
                    *old(self),
                    *self,
                    old(self).ctrl()[0],
                    now,
                    if cmds@.len() == 1 {
                        Some(cmds@[0])
                    } else {
                        None::<TransportCmd>
                    },
                )),
                forall|k: int|
                    0 <= k < old(self).ctrl().len() - queue@.len() && (
                    #[trigger] ServerCore::dropped_client_token(old(self).ctrl()[k])) is Some && old(
                        self,
                    ).clients().contains_key(
                        ServerCore::dropped_client_token(old(self).ctrl()[k])->Some_0,
                    ) ==> !self.clients().contains_key(
                        ServerCore::dropped_client_token(old(self).ctrl()[k])->Some_0,
                    ),
                forall|k: int|
                    0 <= k < old(self).ctrl().len() - queue@.len() && (
                    #[trigger] ServerCore::dropped_newcomer_token(old(self).ctrl()[k])) is Some
                        ==> !self.newcomers().contains(
                        ServerCore::dropped_newcomer_token(old(self).ctrl()[k])->Some_0,
                    ),
            decreases queue@.len(),
        {
            let ghost pre = *self;
            let ghost done = old(self).ctrl().len() - queue@.len();
            let entry = queue.remove(0);
            proof {
                assert(old(self).ctrl().skip(done).drop_first() =~= old(self).ctrl().skip(done + 1));
                assert(old(self).ctrl().skip(done)[0] == old(self).ctrl()[done]);
            }
            match self.apply_control_entry(entry, now) {
                Some(c) => {
                    cmds.push(c);
                },
                None => {},
            }
            proof {
                assert forall|t: u64| #[trigger]
                    self.newcomers().contains(t) implies old(self).newcomers().contains(t) by {
                    assert(pre.newcomers().contains(t));
                }
                // processed drop entries stay torn down: the world only takes
                // a token back as a client through an upgrade, which draws on
                // the shrinking newcomer list
                assert forall|k: int|
                    0 <= k < done + 1 && (#[trigger] ServerCore::dropped_client_token(
                        old(self).ctrl()[k],
                    )) is Some && old(self).clients().contains_key(
                        ServerCore::dropped_client_token(old(self).ctrl()[k])->Some_0,
                    ) implies !self.clients().contains_key(
                    ServerCore::dropped_client_token(old(self).ctrl()[k])->Some_0,
                ) by {
                    let t = ServerCore::dropped_client_token(old(self).ctrl()[k])->Some_0;
                    assert(!old(self).newcomers().contains(t));
                    assert(!pre.newcomers().contains(t));
                    if k < done {
                        assert(!pre.clients().contains_key(t));
                    }
                }
                assert forall|k: int|
                    0 <= k < done + 1 && (#[trigger] ServerCore::dropped_newcomer_token(
                        old(self).ctrl()[k],
                    )) is Some implies !self.newcomers().contains(
                    ServerCore::dropped_newcomer_token(old(self).ctrl()[k])->Some_0,
                ) by {
                    let t = ServerCore::dropped_newcomer_token(old(self).ctrl()[k])->Some_0;
                    if k < done {
                        assert(!pre.newcomers().contains(t));
                    }
                }
            }
        }
        proof {
            assert(old(self).ctrl().len() - queue@.len() == old(self).ctrl().len());
        }
        cmds
    }

    /// Whether a notification must not go to a given recipient: an
    /// `AddPlayer` is not echoed to the client whose join it announces.
    pub open spec fn excluded(msg: Clientward, obj: ClientObject) -> bool {
        match msg {
            Clientward::AddPlayer(m, _) => obj.moniker == m,
            _ => false,
        }
    }

    /// The tokens one notification goes to: every client, minus the excluded
    /// recipient (see [`ServerCore::excluded`]).
    pub fn broadcast_targets(&self, msg: &Clientward) -> (r: Vec<u64>)
        requires
            self.wf(),
        ensures
            forall|t: u64|
                #[trigger] r@.contains(t) <==> (self.clients().contains_key(t)
                    && !ServerCore::excluded(*msg, self.clients()[t])),
            r@.no_duplicates(),
    {
        let n = self.clients.entries().len();
        let mut r: Vec<u64> = Vec::new();
        let ghost sq = self.clients_table().entries_seq();
        let mut i: usize = 0;
        while i < n
            invariant
                self.wf(),
                n == sq.len(),
                sq == self.clients_table().entries_seq(),
                i <= n,
                forall|a: int|
                    0 <= a < r@.len() ==> exists|b: int|
                        0 <= b < i && (#[trigger] r@[a]) == (#[trigger] sq[b]).0
                            && !ServerCore::excluded(*msg, sq[b].1),
                forall|b: int|
                    0 <= b < i && !ServerCore::excluded(*msg, (#[trigger] sq[b]).1) ==> r@.contains(
                        sq[b].0,
                    ),
                r@.no_duplicates(),
            decreases n - i,
        {
            let tok = self.clients.entries()[i].0;
            let skip = match msg {
                Clientward::AddPlayer(m, _) => self.clients.entries()[i].1.moniker == *m,
                _ => false,
            };
            let ghost r0 = r@;
            if !skip {
                proof {
                    assert(!r@.contains(tok)) by {
                        if r@.contains(tok) {
                            let a = choose|a: int| 0 <= a < r@.len() && r@[a] == tok;
                            let b = choose|b: int|
                                0 <= b < i && (#[trigger] sq[b]).0 == r@[a] && !ServerCore::excluded(
                                    *msg,
                                    sq[b].1,
                                );
                            assert(sq[b].0 == sq[i as int].0);
                        }
                    }
                    assert(!ServerCore::excluded(*msg, sq[i as int].1));
                }
                r.push(tok);
                proof {
                    assert forall|b: int|
                        0 <= b < i + 1 && !ServerCore::excluded(*msg, (#[trigger] sq[b]).1) implies r@.contains(
                        sq[b].0,
                    ) by {
                        if b == i {
                            assert(r@[r@.len() - 1] == sq[b].0);
                        } else {
                            assert(r0.contains(sq[b].0));
                            let a = choose|a: int| 0 <= a < r0.len() && r0[a] == sq[b].0;
                            assert(r@[a] == sq[b].0);
                        }
                    }
                }
            }
            i = i + 1;
        }
        proof {
            self.clients_table().lemma_entries_map();
            assert forall|t: u64|
                #[trigger] r@.contains(t) <==> (self.clients().contains_key(t)
                    && !ServerCore::excluded(*msg, self.clients()[t])) by {
                if r@.contains(t) {
                    let a = choose|a: int| 0 <= a < r@.len() && r@[a] == t;
                    let b = choose|b: int|
                        0 <= b < sq.len() && (#[trigger] sq[b]).0 == r@[a] && !ServerCore::excluded(
                            *msg,
                            sq[b].1,
                        );
                    assert(self.clients().contains_key(sq[b].0));
                    assert(self.clients()[sq[b].0] == sq[b].1);
                }
                if self.clients().contains_key(t) && !ServerCore::excluded(*msg, self.clients()[t]) {
                    let b = choose|b: int| 0 <= b < sq.len() && (#[trigger] sq[b]).0 == t;
                    assert(self.clients()[t] == sq[b].1);
                    assert(r@.contains(sq[b].0));
                }
            }
        }
        r
    }
}

} // verus!
