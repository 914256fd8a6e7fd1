use std::collections::VecDeque;

use pathgame::board::{BasePort, RectangleBoard};
use pathgame::board_state::BoardState;
use pathgame::game::PathGame;
use pathgame::game_state::GameState;
use pathgame::math::{Pt2u, Vec2u};
use pathgame::player_state::{Looker, PlayerState};
use pathgame::tile::{BaseKind, CycleGAct, RegularTile};

fn port(x: u32, y: u32, dx: u32, dy: u32) -> BasePort {
    BasePort { pos: Pt2u { x, y }, dir: Vec2u { x: dx, y: dy } }
}

fn small_game() -> PathGame {
    let board = RectangleBoard::new(3, 2, 2);
    let start_ports = board.boundary_ports();
    PathGame::new(board, start_ports, vec![(BaseKind::Unit, 2)])
}

fn hand(tiles: Vec<RegularTile<4>>) -> PlayerState {
    PlayerState { tiles: vec![(BaseKind::Unit, tiles)] }
}

/// A hand-built two-player state with known hands and pile.
fn scripted_state(p0_hand: Vec<RegularTile<4>>, p1_hand: Vec<RegularTile<4>>) -> GameState {
    let board = RectangleBoard::new(3, 2, 2);
    let mut board_state = BoardState::new(&board, 2);
    board_state.place_player(0, &port(0, 0, 1, 0));
    board_state.place_player(1, &port(3, 1, 0, 1));
    let mut pile: VecDeque<RegularTile<4>> = VecDeque::new();
    pile.push_back(RegularTile::<4>::new(vec![2, 3, 0, 1, 6, 7, 4, 5]).with_visible(false));
    pile.push_back(RegularTile::<4>::new(vec![3, 2, 1, 0, 7, 6, 5, 4]).with_visible(false));
    pile.push_back(RegularTile::<4>::new(vec![4, 5, 6, 7, 0, 1, 2, 3]).with_visible(false));
    GameState {
        board_state,
        player_states: vec![Some(hand(p0_hand)), Some(hand(p1_hand))],
        looker: Looker::Server,
        turn_player: 0,
        tiles: vec![(BaseKind::Unit, pile)],
        winners: Vec::new(),
    }
}

#[test]
fn test_game_state_new() {
    let board = RectangleBoard::new(6, 6, 2);
    let start_ports = board.boundary_ports();
    let game = PathGame::new(board, start_ports, vec![(BaseKind::Unit, 3)]);
    let state = GameState::new(&game, 4, 7);

    for player in 0..state.num_players() {
        let tiles = &state.player_state(player).as_ref().unwrap().tiles;
        assert_eq!(tiles[0].1.len(), 3);
        assert_eq!(state.board_state().player_port(player), None);
    }
}

#[test]
fn test_token_placement_rules() {
    let game = small_game();
    let mut state = GameState::new(&game, 2, 1);
    let p = port(0, 0, 1, 0);
    assert!(state.can_place_player(&game, &p));
    // an interior port is not a starting port
    assert!(!state.can_place_player(&game, &port(1, 1, 1, 0)));
    state.take_turn_placing_player(&game, &p);
    assert_eq!(state.turn_player(), 1);
    // the port is now occupied
    assert!(!state.can_place_player(&game, &p));
}

#[test]
fn test_tile_placement_rules() {
    let game = small_game();
    let suicide = RegularTile::<4>::new(vec![1, 0, 3, 2, 5, 4, 7, 6]);
    let mut state = scripted_state(vec![suicide], vec![]);
    let act = CycleGAct { rotation: 0, size: 4 };
    let loc = Pt2u { x: 0, y: 0 };
    assert!(state.can_place_tile(&game, 0, &BaseKind::Unit, 0, &act, &loc));
    // index out of hand range
    assert!(!state.can_place_tile(&game, 0, &BaseKind::Unit, 1, &act, &loc));
    // a cell that does not border the player's port
    assert!(!state.can_place_tile(&game, 0, &BaseKind::Unit, 0, &act, &Pt2u { x: 2, y: 1 }));
    // an occupied cell
    state.place_tile(RegularTile::<4>::new(vec![1, 0, 3, 2, 5, 4, 7, 6]), &loc);
    assert!(!state.can_place_tile(&game, 0, &BaseKind::Unit, 0, &act, &loc));
}

#[test]
fn test_win_by_last_survivor() {
    // the placer's only move leads off-board: they die and the other
    // player wins
    let game = small_game();
    let suicide = RegularTile::<4>::new(vec![1, 0, 3, 2, 5, 4, 7, 6]);
    let mut state = scripted_state(vec![suicide], vec![]);
    let act = CycleGAct { rotation: 0, size: 4 };
    let loc = Pt2u { x: 0, y: 0 };
    let res = state.take_turn_placing_tile(&game, &BaseKind::Unit, 0, &act, &loc);
    assert_eq!(res.tile_placer(), 0);
    assert_eq!(res.dead_players, vec![0]);
    assert!(res.game_over());
    assert_eq!(state.winners(), &vec![1]);
    assert!(state.won(1));
    assert!(!state.won(0));
    assert!(state.player_state(0).is_none());
}

#[test]
fn test_redistribution_balances_hands() {
    // the placer dies with an empty hand left behind; the survivor is
    // two tiles short, and the pile holds three: the survivor is
    // topped up to the configured count, no further
    let game = small_game();
    let suicide = RegularTile::<4>::new(vec![1, 0, 3, 2, 5, 4, 7, 6]);
    let mut state = scripted_state(vec![suicide], vec![]);
    let act = CycleGAct { rotation: 0, size: 4 };
    let res = state.take_turn_placing_tile(&game, &BaseKind::Unit, 0, &act, &Pt2u { x: 0, y: 0 });
    assert_eq!(res.dead_players, vec![0]);
    let survivor = state.player_state(1).as_ref().unwrap();
    assert_eq!(survivor.tiles[0].1.len(), 2);
    for drawn in &res.drawn_tiles {
        assert_eq!(drawn.0, 1);
    }
    assert_eq!(res.drawn_tiles.len(), 2);
    // one tile stays in the pile
    assert_eq!(res.num_tiles_left, vec![(BaseKind::Unit, 1)]);
}

#[test]
fn test_normal_replenishment() {
    // nobody dies: the placer draws exactly one replacement tile
    let game = small_game();
    let safe = RegularTile::<4>::new(vec![2, 3, 0, 1, 6, 7, 4, 5]);
    let other = RegularTile::<4>::new(vec![3, 2, 1, 0, 7, 6, 5, 4]);
    let mut state = scripted_state(vec![safe], vec![other]);
    let act = CycleGAct { rotation: 0, size: 4 };
    let res = state.take_turn_placing_tile(&game, &BaseKind::Unit, 0, &act, &Pt2u { x: 0, y: 0 });
    assert!(res.dead_players.is_empty());
    assert!(!res.game_over());
    assert_eq!(res.drawn_tiles.len(), 1);
    assert_eq!(res.drawn_tiles[0].0, 0);
    assert_eq!(state.turn_player(), 1);
    assert_eq!(state.player_state(0).as_ref().unwrap().tiles[0].1.len(), 1);
}

#[test]
fn test_visibility_projection() {
    let game = small_game();
    let t = RegularTile::<4>::new(vec![1, 0, 3, 2, 5, 4, 7, 6]);
    let state = scripted_state(vec![t.duplicate()], vec![t.duplicate()]);
    let view = state.visible_state(Looker::Player(0));
    assert_eq!(view.looker(), Looker::Player(0));
    // own hand visible, the other hand hidden
    assert!(view.player_state(0).as_ref().unwrap().tiles[0].1[0].visible());
    assert!(!view.player_state(1).as_ref().unwrap().tiles[0].1[0].visible());
    // draw-pile tiles are always reported invisible
    for pile_tile in view.tiles[0].1.iter() {
        assert!(!pile_tile.visible());
    }
    // the server sees every hand
    let server_view = state.visible_state(Looker::Server);
    assert!(server_view.player_state(1).as_ref().unwrap().tiles[0].1[0].visible());
    assert!(server_view.is_player() == false);
    assert!(view.is_player());
    assert_eq!(view.player_expect(), 0);
}

#[test]
fn test_determinism_same_seed() {
    let game = small_game();
    let a = GameState::new(&game, 2, 42);
    let b = GameState::new(&game, 2, 42);
    assert_eq!(a.tiles[0].1, b.tiles[0].1);
    for p in 0..2u32 {
        let ha = &a.player_state(p).as_ref().unwrap().tiles[0].1;
        let hb = &b.player_state(p).as_ref().unwrap().tiles[0].1;
        assert_eq!(ha, hb);
    }
    // and different seeds are allowed to disagree; with these seeds
    // the deals differ, which also shows the shuffle really permutes
    let c = GameState::new(&game, 2, 43);
    let ha: Vec<_> = (0..2u32)
        .map(|p| a.player_state(p).as_ref().unwrap().tiles[0].1.clone())
        .collect();
    let hc: Vec<_> = (0..2u32)
        .map(|p| c.player_state(p).as_ref().unwrap().tiles[0].1.clone())
        .collect();
    assert_ne!(ha, hc);
}

#[test]
fn test_shuffle_changes_deal_order() {
    // with an unshuffled pile the first deal would be the least
    // catalogue tile; the seeded shuffle moves it
    let board = RectangleBoard::new(3, 2, 2);
    let game = PathGame::new(board, Vec::new(), vec![(BaseKind::Unit, 1)]);
    let catalog = game.all_tiles();
    let state = GameState::new(&game, 1, 42);
    let first_dealt = &state.player_state(0).as_ref().unwrap().tiles[0].1[0];
    assert_ne!(*first_dealt, catalog[0]);
}

#[test]
fn test_deal_from_empty_pile() {
    let mut state = scripted_state(vec![], vec![]);
    state.tiles[0].1.clear();
    assert!(state.deal_tile(0, &BaseKind::Unit).is_none());
    assert!(state.top_tile_left_of_kind(&BaseKind::Unit).is_none());
}

#[test]
fn test_pile_counts() {
    let state = scripted_state(vec![], vec![]);
    assert_eq!(state.num_tiles_left_by_kind(), vec![(BaseKind::Unit, 3)]);
    let top = state.top_tile_left_of_kind(&BaseKind::Unit).unwrap();
    assert_eq!(top, RegularTile::<4>::new(vec![2, 3, 0, 1, 6, 7, 4, 5]));
}
