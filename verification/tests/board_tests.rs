use pathgame::board::{BasePort, RectangleBoard};
use pathgame::board_state::BoardState;
use pathgame::math::{Pt2u, Vec2u};
use pathgame::tile::RegularTile;

fn port(x: u32, y: u32, dx: u32, dy: u32) -> BasePort {
    BasePort { pos: Pt2u { x, y }, dir: Vec2u { x: dx, y: dy } }
}

#[test]
fn test_rectangle_board_tile_ports() {
    let board = RectangleBoard::new(3, 2, 2);

    for y in 0..2u32 {
        for x in 0..3u32 {
            let ports = board.loc_ports(&Pt2u { x, y });
            let expected = vec![
                port(x, y, 1, 0),
                port(x, y, 2, 0),
                port(x + 1, y, 0, 1),
                port(x + 1, y, 0, 2),
                port(x, y + 1, 2, 0),
                port(x, y + 1, 1, 0),
                port(x, y, 0, 2),
                port(x, y, 0, 1),
            ];
            assert_eq!(ports, expected);
        }
    }
}

#[test]
fn test_rectangle_board_port_tiles_horz_sep() {
    let board = RectangleBoard::new(3, 2, 2);
    let mut locs = board.port_locs(&port(2, 0, 0, 1));
    let mut expected = vec![Pt2u { x: 1, y: 0 }, Pt2u { x: 2, y: 0 }];
    locs.sort_by_key(|v| (v.x, v.y));
    expected.sort_by_key(|v| (v.x, v.y));
    assert_eq!(locs, expected);
}

#[test]
fn test_rectangle_board_port_tiles_vert_sep() {
    let board = RectangleBoard::new(3, 2, 2);
    let mut locs = board.port_locs(&port(1, 1, 2, 0));
    let mut expected = vec![Pt2u { x: 1, y: 0 }, Pt2u { x: 1, y: 1 }];
    locs.sort_by_key(|v| (v.x, v.y));
    expected.sort_by_key(|v| (v.x, v.y));
    assert_eq!(locs, expected);
}

#[test]
fn test_rectangle_board_port_tiles_left() {
    let board = RectangleBoard::new(3, 2, 2);
    let mut locs = board.port_locs(&port(0, 0, 0, 1));
    let mut expected = vec![Pt2u { x: 0, y: 0 }];
    locs.sort_by_key(|v| (v.x, v.y));
    expected.sort_by_key(|v| (v.x, v.y));
    assert_eq!(locs, expected);
}

#[test]
fn test_rectangle_board_port_tiles_right() {
    let board = RectangleBoard::new(3, 2, 2);
    let mut locs = board.port_locs(&port(3, 0, 0, 1));
    let mut expected = vec![Pt2u { x: 2, y: 0 }];
    locs.sort_by_key(|v| (v.x, v.y));
    expected.sort_by_key(|v| (v.x, v.y));
    assert_eq!(locs, expected);
}

#[test]
fn test_board_port_enumeration() {
    let board = RectangleBoard::new(3, 2, 2);
    // (h+1)*w*p horizontal-edge ports plus (w+1)*h*p vertical-edge ports
    assert_eq!(board.all_ports().len(), (3 * 3 * 2 + 4 * 2 * 2) as usize);
    assert_eq!(board.boundary_ports().len(), (2 * 3 * 2 + 2 * 2 * 2) as usize);
}

#[test]
fn test_path_advancement_death() {
    // a 3x2 board; a token enters the top edge of the corner cell and
    // the placed tile routes it straight back off the board
    let board = RectangleBoard::new(3, 2, 2);
    let mut bs = BoardState::new(&board, 2);
    bs.place_player(0, &port(0, 0, 1, 0));
    bs.place_player(1, &port(3, 1, 0, 1));
    let tile = RegularTile::<4>::new(vec![1, 0, 3, 2, 5, 4, 7, 6]);
    bs.place_tile(tile, &Pt2u { x: 0, y: 0 });
    let dead = bs.advance_players(&board, &Pt2u { x: 0, y: 0 });
    assert_eq!(dead, vec![0]);
    // the dying token stops on the exit port; the unrelated token has
    // not moved
    assert_eq!(bs.player_port(0), Some(port(0, 0, 2, 0)));
    assert_eq!(bs.player_port(1), Some(port(3, 1, 0, 1)));
}

#[test]
fn test_path_advancement_waits_at_empty() {
    // the tile routes the token to the shared edge with the empty
    // neighbour cell: the token waits there and nobody dies
    let board = RectangleBoard::new(3, 2, 2);
    let mut bs = BoardState::new(&board, 1);
    bs.place_player(0, &port(0, 0, 1, 0));
    // pattern sends entry 0 to exit 2 (the right edge of the cell)
    let tile = RegularTile::<4>::new(vec![2, 3, 0, 1, 6, 7, 4, 5]);
    bs.place_tile(tile, &Pt2u { x: 0, y: 0 });
    let dead = bs.advance_players(&board, &Pt2u { x: 0, y: 0 });
    assert!(dead.is_empty());
    assert_eq!(bs.player_port(0), Some(port(1, 0, 0, 1)));
}

#[test]
fn test_tiles_vec_lists_placements() {
    let board = RectangleBoard::new(3, 2, 1);
    let mut bs = BoardState::new(&board, 1);
    assert!(bs.tiles_vec().is_empty());
    let tile = RegularTile::<4>::new(vec![1, 0, 3, 2]);
    bs.place_tile(tile.duplicate(), &Pt2u { x: 2, y: 1 });
    let listed = bs.tiles_vec();
    assert_eq!(listed.len(), 1);
    assert_eq!(listed[0].0, Pt2u { x: 2, y: 1 });
    assert_eq!(listed[0].1, tile);
    assert_eq!(bs.tile_at(&Pt2u { x: 0, y: 0 }), None);
}
