//! Tests for the world model: grid geometry, the synchronized generator,
//! essence validation, wall regeneration, and the movement rules.

use pinggame::essence::GameStateEssence;
use pinggame::game::{GameState, MoveOutcome};
use pinggame::grid::{coord_on_boundary, coord_would_exit, Coord2D, Direction, HEIGHT, WIDTH};
use pinggame::player::{Moniker, PlayerObject};
use pinggame::rng::LCGenerator;
use pinggame::walls::WallSeed;

fn seed() -> WallSeed {
    WallSeed { s0: 9, s1: 8, s2: 7, s3: 6 }
}

/// Overrides clearing every interior cell, with chosen exceptions raised.
fn open_interior_with_walls(walls: &[(u16, u16)]) -> Vec<(Coord2D, bool)> {
    let mut v = Vec::new();
    for y in 1..(HEIGHT - 1) {
        for x in 1..(WIDTH - 1) {
            let is_wall = walls.iter().any(|&(wx, wy)| wx == x && wy == y);
            v.push((Coord2D::new(x, y), is_wall));
        }
    }
    v
}

fn world(
    players: Vec<(Moniker, PlayerObject)>,
    walls: &[(u16, u16)],
    blobs: Vec<Coord2D>,
) -> GameState {
    let essence = GameStateEssence::from_parts(
        players,
        seed(),
        open_interior_with_walls(walls),
        blobs,
        42,
    )
    .expect("essence parts should validate");
    GameState::from_essence(essence).expect("essence should be compatible")
}

#[test]
fn move_with_shifts_one_cell() {
    let c = Coord2D::new(5, 5);
    assert_eq!(c.move_with(Direction::Up), Coord2D::new(5, 4));
    assert_eq!(c.move_with(Direction::Down), Coord2D::new(5, 6));
    assert_eq!(c.move_with(Direction::Left), Coord2D::new(4, 5));
    assert_eq!(c.move_with(Direction::Right), Coord2D::new(6, 5));
}

#[test]
fn boundary_and_exit_checks() {
    assert!(coord_on_boundary(Coord2D::new(0, 5)));
    assert!(coord_on_boundary(Coord2D::new(5, 0)));
    assert!(coord_on_boundary(Coord2D::new(WIDTH - 1, 5)));
    assert!(coord_on_boundary(Coord2D::new(5, HEIGHT - 1)));
    assert!(!coord_on_boundary(Coord2D::new(1, 1)));
    assert!(coord_would_exit(Coord2D::new(5, 0), Direction::Up));
    assert!(coord_would_exit(Coord2D::new(5, HEIGHT - 1), Direction::Down));
    assert!(coord_would_exit(Coord2D::new(0, 5), Direction::Left));
    assert!(coord_would_exit(Coord2D::new(WIDTH - 1, 5), Direction::Right));
    assert!(!coord_would_exit(Coord2D::new(5, 5), Direction::Up));
}

#[test]
fn lcg_is_the_expected_congruence() {
    // state' = (1103515245 * state + 12345) mod 2^32
    let mut g = LCGenerator::from_seed(1);
    assert_eq!(g.next_u32(), 1103527590);
    assert_eq!(g.next_u32(), 2524885223);
    assert_eq!(g.next_u32(), 662824084);
    assert_eq!(g.next_u32(), 3295386429);
}

#[test]
fn lcg_seed_reduced_into_range() {
    let a = LCGenerator::from_seed(5);
    let b = LCGenerator::from_seed(5 + (1u64 << 32));
    assert_eq!(a.state_word(), b.state_word());
}

#[test]
fn lcg_pick_stays_below_bound() {
    let mut g = LCGenerator::from_seed(1);
    assert_eq!(g.pick(30), (1103527590 % 30) as u16);
    assert_eq!(g.pick(30), (2524885223u64 % 30) as u16);
}

#[test]
fn from_parts_rejects_bad_essences() {
    let p55 = PlayerObject { coord: Coord2D::new(5, 5), charge: 3 };
    let p66 = PlayerObject { coord: Coord2D::new(6, 6), charge: 3 };
    // duplicate monikers
    assert!(GameStateEssence::from_parts(
        vec![(Moniker('a'), p55), (Moniker('a'), p66)],
        seed(),
        Vec::new(),
        Vec::new(),
        1,
    )
    .is_none());
    // player out of bounds
    let far = PlayerObject { coord: Coord2D::new(WIDTH, 5), charge: 3 };
    assert!(
        GameStateEssence::from_parts(vec![(Moniker('a'), far)], seed(), Vec::new(), Vec::new(), 1)
            .is_none()
    );
    // two players on one cell
    assert!(GameStateEssence::from_parts(
        vec![(Moniker('a'), p55), (Moniker('b'), p55)],
        seed(),
        Vec::new(),
        Vec::new(),
        1,
    )
    .is_none());
    // charge over the limit
    let hot = PlayerObject { coord: Coord2D::new(5, 5), charge: 4 };
    assert!(
        GameStateEssence::from_parts(vec![(Moniker('a'), hot)], seed(), Vec::new(), Vec::new(), 1)
            .is_none()
    );
    // an all-zero wall seed
    assert!(GameStateEssence::from_parts(
        Vec::new(),
        WallSeed { s0: 0, s1: 0, s2: 0, s3: 0 },
        Vec::new(),
        Vec::new(),
        1,
    )
    .is_none());
    // an override on the boundary
    assert!(GameStateEssence::from_parts(
        Vec::new(),
        seed(),
        vec![(Coord2D::new(0, 5), false)],
        Vec::new(),
        1,
    )
    .is_none());
    // duplicate pickups
    assert!(GameStateEssence::from_parts(
        Vec::new(),
        seed(),
        Vec::new(),
        vec![Coord2D::new(3, 3), Coord2D::new(3, 3)],
        1,
    )
    .is_none());
    // and a sound one passes
    assert!(GameStateEssence::from_parts(
        vec![(Moniker('a'), p55)],
        seed(),
        open_interior_with_walls(&[]),
        vec![Coord2D::new(3, 3)],
        1,
    )
    .is_some());
}

#[test]
fn wall_layout_is_a_function_of_the_seed() {
    // regenerate twice from equal essences: the effective walls agree on
    // every cell, and the whole frame is walled
    let e1 = GameStateEssence::from_parts(Vec::new(), seed(), Vec::new(), Vec::new(), 1).unwrap();
    let e2 = GameStateEssence::from_parts(Vec::new(), seed(), Vec::new(), Vec::new(), 1).unwrap();
    let g1 = GameState::from_essence(e1).unwrap();
    let g2 = GameState::from_essence(e2).unwrap();
    for y in 0..HEIGHT {
        for x in 0..WIDTH {
            let c = Coord2D::new(x, y);
            assert_eq!(g1.is_wall_at(c), g2.is_wall_at(c));
            if coord_on_boundary(c) {
                assert!(g1.is_wall_at(c));
            }
        }
    }
}

#[test]
fn round_trip_through_own_essence() {
    // a world's essence, re-derived, reproduces the identical world
    let g1 = world(
        vec![(Moniker('a'), PlayerObject { coord: Coord2D::new(5, 5), charge: 2 })],
        &[(7, 7)],
        vec![Coord2D::new(3, 3)],
    );
    let g2 = GameState::from_essence(g1.get_essence().duplicate()).unwrap();
    for y in 0..HEIGHT {
        for x in 0..WIDTH {
            let c = Coord2D::new(x, y);
            assert_eq!(g1.is_wall_at(c), g2.is_wall_at(c));
            assert_eq!(g1.is_blob_at(c), g2.is_blob_at(c));
        }
    }
    let p = g2.get_player(Moniker('a')).unwrap();
    assert_eq!(p.coord, Coord2D::new(5, 5));
    assert_eq!(p.charge, 2);
}

#[test]
fn add_and_remove_players() {
    let mut g = world(Vec::new(), &[(7, 7)], Vec::new());
    assert!(g.try_add_player(Moniker('a'), Coord2D::new(5, 5)));
    // moniker taken
    assert!(!g.try_add_player(Moniker('a'), Coord2D::new(6, 6)));
    // cell taken by the player
    assert!(!g.try_add_player(Moniker('b'), Coord2D::new(5, 5)));
    // cell taken by a wall
    assert!(!g.try_add_player(Moniker('b'), Coord2D::new(7, 7)));
    // out of bounds
    assert!(!g.try_add_player(Moniker('b'), Coord2D::new(WIDTH, 3)));
    assert!(g.try_add_player(Moniker('b'), Coord2D::new(6, 6)));
    assert_eq!(g.num_players(), 2);
    assert!(g.try_remove_player(Moniker('a')));
    assert!(!g.try_remove_player(Moniker('a')));
    assert_eq!(g.num_players(), 1);
}

#[test]
fn plain_moves_respect_walls_and_edges() {
    let mut g = world(
        vec![(Moniker('a'), PlayerObject { coord: Coord2D::new(1, 1), charge: 0 })],
        &[(2, 1)],
        Vec::new(),
    );
    // into the frame wall, with no charge to push (and the push would exit)
    assert_eq!(g.move_moniker_in_dir(Moniker('a'), Direction::Left), MoveOutcome::Rejected);
    // into a wall without charge
    assert_eq!(g.move_moniker_in_dir(Moniker('a'), Direction::Right), MoveOutcome::Rejected);
    // unknown player
    assert_eq!(g.move_moniker_in_dir(Moniker('z'), Direction::Up), MoveOutcome::Rejected);
    // a plain step down
    assert_eq!(g.move_moniker_in_dir(Moniker('a'), Direction::Down), MoveOutcome::Moved);
    assert_eq!(g.get_player(Moniker('a')).unwrap().coord, Coord2D::new(1, 2));
    // players never stack: 'b' stands in the way
    assert!(g.try_add_player(Moniker('b'), Coord2D::new(1, 3)));
    assert_eq!(g.move_moniker_in_dir(Moniker('a'), Direction::Down), MoveOutcome::Rejected);
}

#[test]
fn wall_push_moves_wall_and_spends_charge() {
    // the scenario: 'a' at (5,5) with charge 3, a wall at (5,4), (5,3) free
    let mut g = world(
        vec![(Moniker('a'), PlayerObject { coord: Coord2D::new(5, 5), charge: 3 })],
        &[(5, 4)],
        Vec::new(),
    );
    assert!(g.is_wall_at(Coord2D::new(5, 4)));
    assert_eq!(g.move_moniker_in_dir(Moniker('a'), Direction::Up), MoveOutcome::Moved);
    let p = g.get_player(Moniker('a')).unwrap();
    assert_eq!(p.coord, Coord2D::new(5, 4));
    assert_eq!(p.charge, 2);
    assert!(!g.is_wall_at(Coord2D::new(5, 4)));
    assert!(g.is_wall_at(Coord2D::new(5, 3)));
}

#[test]
fn wall_push_blocked_by_anything_beyond() {
    // a second wall right behind the first: the push is refused
    let mut g = world(
        vec![(Moniker('a'), PlayerObject { coord: Coord2D::new(5, 5), charge: 3 })],
        &[(5, 4), (5, 3)],
        Vec::new(),
    );
    assert_eq!(g.move_moniker_in_dir(Moniker('a'), Direction::Up), MoveOutcome::Rejected);
    let p = g.get_player(Moniker('a')).unwrap();
    assert_eq!(p.coord, Coord2D::new(5, 5));
    assert_eq!(p.charge, 3);
    // a pickup beyond blocks it just the same
    let mut g2 = world(
        vec![(Moniker('a'), PlayerObject { coord: Coord2D::new(5, 5), charge: 3 })],
        &[(5, 4)],
        vec![Coord2D::new(5, 3)],
    );
    assert_eq!(g2.move_moniker_in_dir(Moniker('a'), Direction::Up), MoveOutcome::Rejected);
}

#[test]
fn wall_push_into_frame_is_refused() {
    // wall at (5,1), frame at (5,0): pushing up would exit
    let mut g = world(
        vec![(Moniker('a'), PlayerObject { coord: Coord2D::new(5, 2), charge: 3 })],
        &[(5, 1)],
        Vec::new(),
    );
    assert_eq!(g.move_moniker_in_dir(Moniker('a'), Direction::Up), MoveOutcome::Rejected);
}

#[test]
fn pickup_grants_charge_and_respawns() {
    let mut g = world(
        vec![(Moniker('a'), PlayerObject { coord: Coord2D::new(5, 5), charge: 1 })],
        &[],
        vec![Coord2D::new(5, 4)],
    );
    assert_eq!(g.move_moniker_in_dir(Moniker('a'), Direction::Up), MoveOutcome::Moved);
    let p = g.get_player(Moniker('a')).unwrap();
    assert_eq!(p.coord, Coord2D::new(5, 4));
    assert_eq!(p.charge, 2);
    // the collected cell is free of pickups; exactly one pickup remains,
    // elsewhere and on a free cell
    assert!(!g.is_blob_at(Coord2D::new(5, 4)));
    let blobs = g.get_essence().blob_coords().clone();
    assert_eq!(blobs.len(), 1);
    assert_ne!(blobs[0], Coord2D::new(5, 4));
    assert!(!g.is_wall_at(blobs[0]));
}

#[test]
fn pickup_charge_is_capped() {
    let mut g = world(
        vec![(Moniker('a'), PlayerObject { coord: Coord2D::new(5, 5), charge: 3 })],
        &[],
        vec![Coord2D::new(5, 4)],
    );
    assert_eq!(g.move_moniker_in_dir(Moniker('a'), Direction::Up), MoveOutcome::Moved);
    assert_eq!(g.get_player(Moniker('a')).unwrap().charge, 3);
}

#[test]
fn pickup_respawn_replays_from_equal_essences() {
    // the replacement pickup is chosen by the synchronized generator: two
    // equal essences produce the identical replacement
    let make = || {
        world(
            vec![(Moniker('a'), PlayerObject { coord: Coord2D::new(5, 5), charge: 1 })],
            &[(9, 9)],
            vec![Coord2D::new(5, 4)],
        )
    };
    let mut g1 = make();
    let mut g2 = make();
    assert_eq!(g1.move_moniker_in_dir(Moniker('a'), Direction::Up), MoveOutcome::Moved);
    assert_eq!(g2.move_moniker_in_dir(Moniker('a'), Direction::Up), MoveOutcome::Moved);
    assert_eq!(g1.get_essence().blob_coords(), g2.get_essence().blob_coords());
    assert_eq!(g1.get_essence().rng_state(), g2.get_essence().rng_state());
}

#[test]
fn new_random_worlds_are_stocked_and_consistent() {
    let g = GameState::new_random().expect("a fresh world should assemble");
    assert_eq!(g.num_players(), 0);
    let blobs = g.get_essence().blob_coords().clone();
    assert_eq!(blobs.len(), 3);
    for b in &blobs {
        assert!(!g.is_wall_at(*b));
    }
}

#[test]
fn random_free_spot_is_free() {
    let g = world(Vec::new(), &[(7, 7)], Vec::new());
    let c = g.random_free_spot().expect("a mostly-empty world has a spot");
    assert!(c.x < WIDTH && c.y < HEIGHT);
    assert!(!g.is_something_at(c));
}

#[test]
fn num_empty_counts_walls_and_players() {
    // all interior free, one wall raised, one player: empties are the 560
    // interior cells minus the wall and the player
    let g = world(
        vec![(Moniker('a'), PlayerObject { coord: Coord2D::new(5, 5), charge: 3 })],
        &[(7, 7)],
        Vec::new(),
    );
    let interior = (WIDTH as usize - 2) * (HEIGHT as usize - 2);
    assert_eq!(g.num_empty_coords(), interior - 2);
}

#[test]
fn default_layer_mixes_walls_and_floors() {
    // with no overrides, the seed's interior noise leaves some cells walled
    // and some free
    let e = GameStateEssence::from_parts(Vec::new(), seed(), Vec::new(), Vec::new(), 1).unwrap();
    let g = GameState::from_essence(e).unwrap();
    let mut walls = 0usize;
    let mut floors = 0usize;
    for y in 1..(HEIGHT - 1) {
        for x in 1..(WIDTH - 1) {
            if g.is_wall_at(Coord2D::new(x, y)) {
                walls += 1;
            } else {
                floors += 1;
            }
        }
    }
    assert!(walls > 0);
    assert!(floors > 0);
}

#[test]
fn respawn_exhaustion_rolls_the_move_back() {
    // every interior cell is walled except the player's and the pickup's;
    // after collecting there would be a single free cell, which the bounded
    // sampler misses: the move is rolled back untouched and the defect
    // surfaces
    let mut walls: Vec<(u16, u16)> = Vec::new();
    for y in 1..(HEIGHT - 1) {
        for x in 1..(WIDTH - 1) {
            if (x, y) != (5, 5) && (x, y) != (5, 4) {
                walls.push((x, y));
            }
        }
    }
    let mut g = world(
        vec![(Moniker('a'), PlayerObject { coord: Coord2D::new(5, 5), charge: 1 })],
        &walls,
        vec![Coord2D::new(5, 4)],
    );
    let state_before = g.get_essence().rng_state();
    assert_eq!(g.move_moniker_in_dir(Moniker('a'), Direction::Up), MoveOutcome::RespawnExhausted);
    let p = g.get_player(Moniker('a')).unwrap();
    assert_eq!(p.coord, Coord2D::new(5, 5));
    assert_eq!(p.charge, 1);
    assert!(g.is_blob_at(Coord2D::new(5, 4)));
    assert_eq!(g.get_essence().rng_state(), state_before);
}

#[test]
fn coord_iter_walks_the_grid_in_row_major_order() {
    let mut it = pinggame::grid::CoordIter::new();
    let mut seen = 0usize;
    let mut last = None;
    let mut first = None;
    while let Some(c) = it.next_coord() {
        if first.is_none() {
            first = Some(c);
        }
        last = Some(c);
        seen += 1;
    }
    assert_eq!(seen, pinggame::grid::TOTAL_COORDS);
    assert_eq!(first, Some(Coord2D::new(0, 0)));
    assert_eq!(last, Some(Coord2D::new(WIDTH - 1, HEIGHT - 1)));
}

#[test]
fn dir_choices_lists_all_four_directions() {
    let dirs = pinggame::common::dir_choices();
    assert_eq!(
        dirs,
        vec![Direction::Up, Direction::Down, Direction::Left, Direction::Right],
    );
}
