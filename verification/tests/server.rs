//! Tests for the server core: the connection lifecycle, the control queue,
//! the rate limiter, the bot roster and broadcast planning.

use pinggame::common::{Clientward, Serverward};
use pinggame::essence::GameStateEssence;
use pinggame::game::GameState;
use pinggame::grid::{Coord2D, Direction, HEIGHT, WIDTH};
use pinggame::player::Moniker;
use pinggame::server::{ServerCore, TransportCmd};
use pinggame::walls::WallSeed;

fn seed() -> WallSeed {
    WallSeed { s0: 9, s1: 8, s2: 7, s3: 6 }
}

/// A world whose interior is entirely free: every join and bot move is
/// predictable enough for these tests.
fn open_world() -> GameState {
    let mut overrides = Vec::new();
    for y in 1..(HEIGHT - 1) {
        for x in 1..(WIDTH - 1) {
            overrides.push((Coord2D::new(x, y), false));
        }
    }
    let essence =
        GameStateEssence::from_parts(Vec::new(), seed(), overrides, Vec::new(), 42).unwrap();
    GameState::from_essence(essence).unwrap()
}

/// Drive a newcomer through the whole join path; panics unless it was
/// welcomed. Returns its token.
fn join(core: &mut ServerCore, moniker: Moniker, now: u64) -> u64 {
    let tok = core.handle_accept().expect("tokens should not run out");
    core.handle_newcomer_incoming(tok, &vec![Serverward::Hello(moniker)], true);
    let cmds = core.apply_control(now);
    assert_eq!(cmds.len(), 1);
    match &cmds[0] {
        TransportCmd::Welcome(t, essence) => {
            assert_eq!(*t, tok);
            // the welcome carries the world the new client must replicate
            assert!(essence
                .players_entries()
                .iter()
                .any(|(m, _)| *m == moniker));
        },
        _ => panic!("expected a welcome"),
    }
    tok
}

/// A direction the joined player can certainly move in on an open world.
fn safe_direction(core: &ServerCore, moniker: Moniker) -> Direction {
    let p = core.game_ref().get_player(moniker).unwrap();
    if p.coord.x <= WIDTH / 2 {
        Direction::Right
    } else {
        Direction::Left
    }
}

#[test]
fn tokens_are_fresh_and_distinct() {
    let mut core = ServerCore::from_game(open_world());
    let t1 = core.handle_accept().unwrap();
    let t2 = core.handle_accept().unwrap();
    let t3 = core.handle_accept().unwrap();
    assert!(t1 != t2 && t2 != t3 && t1 != t3);
}

#[test]
fn join_registers_player_and_broadcasts() {
    let mut core = ServerCore::from_game(open_world());
    let _tok = join(&mut core, Moniker('Q'), 1000);
    assert!(core.game_ref().contains_player(Moniker('Q')));
    let out = core.take_outgoing();
    assert_eq!(out.len(), 1);
    match &out[0] {
        Clientward::AddPlayer(m, c) => {
            assert_eq!(*m, Moniker('Q'));
            assert_eq!(core.game_ref().get_player(Moniker('Q')).unwrap().coord, *c);
        },
        _ => panic!("expected an add-player broadcast"),
    }
}

#[test]
fn taken_identity_is_rejected_and_world_untouched() {
    // the scenario: 'Q' is already held; a second hello for 'Q' earns the
    // taken-identity error, the newcomer is discarded, the world unchanged
    let mut core = ServerCore::from_game(open_world());
    let _a = join(&mut core, Moniker('Q'), 1000);
    let before = core.game_ref().num_players();
    let tok_b = core.handle_accept().unwrap();
    core.handle_newcomer_incoming(tok_b, &vec![Serverward::Hello(Moniker('Q'))], true);
    let cmds = core.apply_control(2000);
    assert_eq!(cmds.len(), 1);
    match &cmds[0] {
        TransportCmd::DropNewcomer(t, Clientward::ErrorTakenMoniker) => assert_eq!(*t, tok_b),
        _ => panic!("expected the taken-identity drop"),
    }
    assert_eq!(core.game_ref().num_players(), before);
}

#[test]
fn newcomer_must_say_hello_first() {
    let mut core = ServerCore::from_game(open_world());
    let tok = core.handle_accept().unwrap();
    core.handle_newcomer_incoming(tok, &vec![Serverward::ReqMove(Direction::Up)], true);
    let cmds = core.apply_control(1000);
    assert_eq!(cmds.len(), 1);
    match &cmds[0] {
        TransportCmd::DropNewcomer(t, Clientward::ErrorExpectedHello) => assert_eq!(*t, tok),
        _ => panic!("expected the protocol-error drop"),
    }
}

#[test]
fn only_first_newcomer_message_is_honored() {
    // a hello followed by more messages in one pass: one upgrade only
    let mut core = ServerCore::from_game(open_world());
    let tok = core.handle_accept().unwrap();
    core.handle_newcomer_incoming(
        tok,
        &vec![
            Serverward::Hello(Moniker('Q')),
            Serverward::Hello(Moniker('R')),
            Serverward::ReqMove(Direction::Up),
        ],
        true,
    );
    let cmds = core.apply_control(1000);
    assert_eq!(cmds.len(), 1);
    assert!(matches!(&cmds[0], TransportCmd::Welcome(..)));
    assert!(core.game_ref().contains_player(Moniker('Q')));
    assert!(!core.game_ref().contains_player(Moniker('R')));
}

#[test]
fn accepted_move_is_broadcast() {
    let mut core = ServerCore::from_game(open_world());
    let tok = join(&mut core, Moniker('Q'), 1000);
    let _ = core.take_outgoing();
    let dir = safe_direction(&core, Moniker('Q'));
    let defect = core.handle_client_incoming(tok, &vec![Serverward::ReqMove(dir)], true, 2000);
    assert!(!defect);
    let out = core.take_outgoing();
    assert_eq!(out.len(), 1);
    match &out[0] {
        Clientward::UpdMove(m, d) => {
            assert_eq!(*m, Moniker('Q'));
            assert_eq!(*d, dir);
        },
        _ => panic!("expected an update broadcast"),
    }
}

#[test]
fn rate_limiter_drops_the_second_request() {
    // two legal requests 50 ms apart: only the first takes effect
    let mut core = ServerCore::from_game(open_world());
    let tok = join(&mut core, Moniker('Q'), 1000);
    let _ = core.take_outgoing();
    let dir = safe_direction(&core, Moniker('Q'));
    let before = core.game_ref().get_player(Moniker('Q')).unwrap().coord;
    core.handle_client_incoming(tok, &vec![Serverward::ReqMove(dir)], true, 10_000);
    let between = core.game_ref().get_player(Moniker('Q')).unwrap().coord;
    assert_ne!(before, between);
    let dir2 = safe_direction(&core, Moniker('Q'));
    core.handle_client_incoming(tok, &vec![Serverward::ReqMove(dir2)], true, 10_050);
    let after = core.game_ref().get_player(Moniker('Q')).unwrap().coord;
    assert_eq!(between, after);
    assert_eq!(core.take_outgoing().len(), 1);
    // a request after the full interval passes again
    core.handle_client_incoming(tok, &vec![Serverward::ReqMove(dir2)], true, 10_130);
    assert_ne!(core.game_ref().get_player(Moniker('Q')).unwrap().coord, after);
    assert_eq!(core.take_outgoing().len(), 1);
}

#[test]
fn misbehaving_client_is_dropped_with_its_player() {
    let mut core = ServerCore::from_game(open_world());
    let tok = join(&mut core, Moniker('Q'), 1000);
    let _ = core.take_outgoing();
    core.handle_client_incoming(tok, &vec![Serverward::Hello(Moniker('Z'))], true, 2000);
    let cmds = core.apply_control(2000);
    assert_eq!(cmds.len(), 1);
    match &cmds[0] {
        TransportCmd::DropClient(t, Clientward::ErrorExpectedReq) => assert_eq!(*t, tok),
        _ => panic!("expected the protocol-error drop"),
    }
    assert!(!core.game_ref().contains_player(Moniker('Q')));
    let out = core.take_outgoing();
    assert_eq!(out.len(), 1);
    assert!(matches!(&out[0], Clientward::RemovePlayer(m) if *m == Moniker('Q')));
}

#[test]
fn send_failure_tears_the_client_down() {
    let mut core = ServerCore::from_game(open_world());
    let tok = join(&mut core, Moniker('Q'), 1000);
    let _ = core.take_outgoing();
    core.note_send_failure(tok);
    let cmds = core.apply_control(3000);
    assert_eq!(cmds.len(), 1);
    assert!(matches!(&cmds[0], TransportCmd::DropClient(t, Clientward::ErrorSocketDead) if *t == tok));
    assert!(!core.game_ref().contains_player(Moniker('Q')));
}

#[test]
fn broadcast_excludes_the_announced_player() {
    let mut core = ServerCore::from_game(open_world());
    let tok_q = join(&mut core, Moniker('Q'), 1000);
    let tok_r = join(&mut core, Moniker('R'), 1000);
    let msg = Clientward::AddPlayer(Moniker('R'), Coord2D::new(2, 2));
    let targets = core.broadcast_targets(&msg);
    assert!(targets.contains(&tok_q));
    assert!(!targets.contains(&tok_r));
    let upd = Clientward::UpdMove(Moniker('R'), Direction::Up);
    let all = core.broadcast_targets(&upd);
    assert!(all.contains(&tok_q) && all.contains(&tok_r));
}

#[test]
fn bots_move_at_most_once_per_due_tick() {
    // a roster of two on an open world, period 400 ms: after ticks at
    // 500 and 1000 each bot has moved at most twice, with at most one
    // update broadcast per bot per tick
    let mut core = ServerCore::from_game(open_world());
    assert!(core.init_bots(&vec![Moniker('0'), Moniker('1')], 0));
    let defect = core.game_tick(500);
    assert!(!defect);
    let first = core.take_outgoing();
    assert!(first.len() <= 2);
    let defect = core.game_tick(1000);
    assert!(!defect);
    let second = core.take_outgoing();
    assert!(second.len() <= 2);
    for m in [Moniker('0'), Moniker('1')] {
        let per_bot = first
            .iter()
            .chain(second.iter())
            .filter(|u| matches!(u, Clientward::UpdMove(b, _) if *b == m))
            .count();
        assert!(per_bot <= 2);
    }
}

#[test]
fn resting_bots_do_not_move() {
    let mut core = ServerCore::from_game(open_world());
    assert!(core.init_bots(&vec![Moniker('0'), Moniker('1')], 0));
    // 400 ms is not *more* than the period: nothing moves
    let defect = core.game_tick(400);
    assert!(!defect);
    assert_eq!(core.take_outgoing().len(), 0);
}

#[test]
fn bot_identities_are_reserved() {
    let mut core = ServerCore::from_game(open_world());
    assert!(core.init_bots(&vec![Moniker('0')], 0));
    let tok = core.handle_accept().unwrap();
    core.handle_newcomer_incoming(tok, &vec![Serverward::Hello(Moniker('0'))], true);
    let cmds = core.apply_control(1000);
    assert!(matches!(&cmds[0], TransportCmd::DropNewcomer(_, Clientward::ErrorTakenMoniker)));
}

#[test]
fn client_replica_follows_broadcasts() {
    // the client applies add, move and remove notifications to its replica
    let mut g = open_world();
    assert!(pinggame::client::apply_update(
        &mut g,
        &Clientward::AddPlayer(Moniker('Q'), Coord2D::new(5, 5)),
    ));
    assert!(g.contains_player(Moniker('Q')));
    assert!(pinggame::client::apply_update(
        &mut g,
        &Clientward::UpdMove(Moniker('Q'), Direction::Down),
    ));
    assert_eq!(g.get_player(Moniker('Q')).unwrap().coord, Coord2D::new(5, 6));
    assert!(!pinggame::client::apply_update(&mut g, &Clientward::ErrorIllegalMove));
    assert!(pinggame::client::apply_update(&mut g, &Clientward::RemovePlayer(Moniker('Q'))));
    assert!(!g.contains_player(Moniker('Q')));
}

#[test]
fn join_rejected_when_world_is_full() {
    // every interior cell walled: no free spot, so a join fails recoverably
    let mut overrides = Vec::new();
    for y in 1..(HEIGHT - 1) {
        for x in 1..(WIDTH - 1) {
            overrides.push((Coord2D::new(x, y), true));
        }
    }
    let essence =
        GameStateEssence::from_parts(Vec::new(), seed(), overrides, Vec::new(), 42).unwrap();
    let mut core = ServerCore::from_game(GameState::from_essence(essence).unwrap());
    let tok = core.handle_accept().unwrap();
    core.handle_newcomer_incoming(tok, &vec![Serverward::Hello(Moniker('Q'))], true);
    let cmds = core.apply_control(1000);
    assert_eq!(cmds.len(), 1);
    assert!(matches!(&cmds[0], TransportCmd::DropNewcomer(t, Clientward::ErrorIllegalMove) if *t == tok));
    assert!(!core.game_ref().contains_player(Moniker('Q')));
}
