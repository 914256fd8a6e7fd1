//! Mutable per-game board contents: placed tiles by location, player
//! tokens by port, and the token path-advancement algorithm.

use vstd::prelude::*;

verus! {

use crate::board::BasePort;
use crate::board::RectangleBoard;
use crate::math::Pt2u;
use crate::tile::RegularTile;

/// The first index of `p` in `s`, or `-1` if `p` does not occur.
pub open spec fn first_index_of(s: Seq<BasePort>, p: BasePort) -> int
    decreases s.len(),
{
    if s.len() == 0 {
        -1
    } else if s[0] == p {
        0
    } else {
        let r = first_index_of(s.drop_first(), p);
        if r < 0 {
            -1
        } else {
            r + 1
        }
    }
}

/// What `first_index_of` returns: the least index holding `p`, or `-1`
/// when there is none.
pub proof fn lemma_first_index_of(s: Seq<BasePort>, p: BasePort)
    ensures
        first_index_of(s, p) == -1 ==> forall|j: int| 0 <= j < s.len() ==> s[j] != p,
        first_index_of(s, p) != -1 ==> {
            &&& 0 <= first_index_of(s, p) < s.len()
            &&& s[first_index_of(s, p)] == p
            &&& forall|j: int| 0 <= j < first_index_of(s, p) ==> s[j] != p
        },
    decreases s.len(),
{
    if s.len() > 0 && s[0] != p {
        lemma_first_index_of(s.drop_first(), p);
        let r = first_index_of(s.drop_first(), p);
        if r >= 0 {
            assert forall|j: int| 0 <= j < r + 1 implies s[j] != p by {
                if j > 0 {
                    assert(s[j] == s.drop_first()[j - 1]);
                }
            }
        } else {
            assert forall|j: int| 0 <= j < s.len() implies s[j] != p by {
                if j > 0 {
                    assert(s[j] == s.drop_first()[j - 1]);
                }
            }
        }
    }
}

/// The first element of `s` other than `loc`, for the short location
/// lists returned by `port_locs`.
pub open spec fn other_loc(s: Seq<Pt2u>, loc: Pt2u) -> Option<Pt2u> {
    if s.len() > 0 && s[0] != loc {
        Some(s[0])
    } else if s.len() > 1 && s[1] != loc {
        Some(s[1])
    } else {
        None
    }
}

/// The tile recorded at `loc` in a tile grid of the board's
/// dimensions; `None` beyond the board or where no tile is placed.
pub open spec fn grid_tile_at(
    tiles: Seq<Option<RegularTile<4>>>,
    board: RectangleBoard,
    loc: Pt2u,
) -> Option<RegularTile<4>> {
    if loc.x < board.width && loc.y < board.height {
        tiles[loc.y as int * board.width as int + loc.x as int]
    } else {
        None
    }
}

/// One token's full advancement: starting on `port`, about to cross
/// the tile at `loc`, follow the connections from tile to tile until
/// the token faces an empty location (it waits there), walks off the
/// board (it dies), or the fuel runs out.  Returns the final port and
/// whether the token walked off the board.  The fuel exceeds the
/// number of tile entry points, so it can run out only on a tile
/// layout whose connections form a closed loop; such a token stops
/// where it is instead of circling forever.
pub open spec fn walk_from(
    tiles: Seq<Option<RegularTile<4>>>,
    board: RectangleBoard,
    port: BasePort,
    loc: Pt2u,
    fuel: nat,
) -> (BasePort, bool)
    decreases fuel,
{
    let lp = board.loc_ports_seq(loc);
    let entry = first_index_of(lp, port);
    if entry < 0 {
        (port, false)
    } else {
        match grid_tile_at(tiles, board, loc) {
            None => (port, false),
            Some(t) => {
                if t.connections@.len() <= entry {
                    (port, false)
                } else {
                    let out = t.connections@[entry] as int;
                    if out >= lp.len() {
                        (port, false)
                    } else {
                        let new_port = lp[out];
                        match other_loc(board.port_locs_spec(new_port), loc) {
                            None => (new_port, true),
                            Some(l2) => {
                                if grid_tile_at(tiles, board, l2) is None {
                                    (new_port, false)
                                } else if fuel == 0 {
                                    (new_port, false)
                                } else {
                                    walk_from(tiles, board, new_port, l2, (fuel - 1) as nat)
                                }
                            },
                        }
                    }
                }
            },
        }
    }
}

/// Enough fuel to visit every tile entry point on the board once.
pub open spec fn walk_fuel(board: RectangleBoard) -> nat {
    (board.width as nat * board.height as nat * 4 * board.ports_per_edge as nat) + 1
}

/// The first position of `p` in `lp`, scanning from the front.
fn find_port(lp: &Vec<BasePort>, p: &BasePort) -> (r: Option<usize>)
    ensures
        (match r {
            Some(e) => first_index_of(lp@, *p) == e as int,
            None => first_index_of(lp@, *p) == -1,
        }),
{
    proof {
        lemma_first_index_of(lp@, *p);
    }
    let mut i: usize = 0;
    while i < lp.len()
        invariant
            i <= lp@.len(),
            forall|j: int| 0 <= j < i as int ==> lp@[j] != *p,
        decreases lp@.len() - i,
    {
        if lp[i] == *p {
            proof {
                lemma_first_index_of(lp@, *p);
                let fi = first_index_of(lp@, *p);
                assert(lp@[i as int] == *p);
                if fi == -1 {
                    assert(false);
                }
                if fi < i as int {
                    assert(lp@[fi] != *p);
                }
                if fi > i as int {
                    assert(lp@[i as int] != *p);
                }
            }
            return Some(i);
        }
        i = i + 1;
    }
    proof {
        lemma_first_index_of(lp@, *p);
        let fi = first_index_of(lp@, *p);
        if fi != -1 {
            assert(lp@[fi] != *p);
        }
    }
    None
}


/// Whether player `i`'s token touches `loc`.
pub open spec fn participates_in(
    players: Seq<Option<BasePort>>,
    board: RectangleBoard,
    loc: Pt2u,
    i: int,
) -> bool {
    &&& players[i] is Some
    &&& board.loc_ports_seq(loc).contains(players[i].unwrap())
}

/// The port player `i` ends on after an advancement at `loc`.
pub open spec fn advanced_port_of(
    tiles: Seq<Option<RegularTile<4>>>,
    players: Seq<Option<BasePort>>,
    board: RectangleBoard,
    loc: Pt2u,
    i: int,
) -> Option<BasePort> {
    if participates_in(players, board, loc, i) {
        Some(walk_from(tiles, board, players[i].unwrap(), loc, walk_fuel(board)).0)
    } else {
        players[i]
    }
}

/// The players among `0 .. n` that die in an advancement at `loc`, in
/// increasing index order.
pub open spec fn dead_list(
    tiles: Seq<Option<RegularTile<4>>>,
    players: Seq<Option<BasePort>>,
    board: RectangleBoard,
    loc: Pt2u,
    n: int,
) -> Seq<u32>
    decreases n,
{
    if n <= 0 {
        Seq::empty()
    } else {
        let rest = dead_list(tiles, players, board, loc, n - 1);
        if participates_in(players, board, loc, n - 1) && walk_from(
            tiles,
            board,
            players[n - 1].unwrap(),
            loc,
            walk_fuel(board),
        ).1 {
            rest.push((n - 1) as u32)
        } else {
            rest
        }
    }
}

/// The state of the board.
pub struct BoardState {
    pub board_width: u32,
    pub board_height: u32,
    pub tiles: Vec<Option<RegularTile<4>>>,
    pub players: Vec<Option<BasePort>>,
}

impl BoardState {
    /// The tile grid covers exactly the board.
    pub open spec fn wf(self) -> bool {
        &&& 1 <= self.board_width <= 0xFFFF
        &&& 1 <= self.board_height <= 0xFFFF
        &&& self.tiles@.len() == self.board_width as int * self.board_height as int
    }

    /// This state belongs to `board`.
    pub open spec fn matches_board(self, board: RectangleBoard) -> bool {
        &&& board.wf()
        &&& self.board_width == board.width
        &&& self.board_height == board.height
    }

    /// The tile recorded at `loc`, as a mathematical value.
    pub open spec fn tile_at_spec(self, loc: Pt2u) -> Option<RegularTile<4>> {
        if loc.x < self.board_width && loc.y < self.board_height {
            self.tiles@[loc.y as int * self.board_width as int + loc.x as int]
        } else {
            None
        }
    }

    /// Whether player `i`'s token touches `loc` and therefore takes
    /// part in an advancement at `loc`.
    pub open spec fn participates(self, board: RectangleBoard, loc: Pt2u, i: int) -> bool {
        participates_in(self.players@, board, loc, i)
    }

    /// The port player `i` ends on after an advancement at `loc`.
    pub open spec fn advanced_port(self, board: RectangleBoard, loc: Pt2u, i: int) -> Option<
        BasePort,
    > {
        advanced_port_of(self.tiles@, self.players@, board, loc, i)
    }

    /// The players among `0 .. n` that die in an advancement at `loc`,
    /// in increasing index order.
    pub open spec fn dead_after(self, board: RectangleBoard, loc: Pt2u, n: int) -> Seq<u32> {
        dead_list(self.tiles@, self.players@, board, loc, n)
    }

    /// Construct an empty board state for `num_players` players.
    pub fn new(board: &RectangleBoard, num_players: u32) -> (r: BoardState)
        requires
            board.wf(),
        ensures
            r.wf(),
            r.matches_board(*board),
            r.players@.len() == num_players as int,
            forall|i: int| 0 <= i < num_players as int ==> r.players@[i] is None,
            forall|j: int| 0 <= j < r.tiles@.len() ==> r.tiles@[j] is None,
    {
        proof {
            assert((board.width as int) * (board.height as int) <= 0xFFFF * 0xFFFF)
                by (nonlinear_arith)
                requires
                    (board.width as int) <= 0xFFFF,
                    (board.height as int) <= 0xFFFF,
            ;
        }
        let n: u64 = board.width as u64 * board.height as u64;
        let mut tiles: Vec<Option<RegularTile<4>>> = Vec::new();
        let mut j: u64 = 0;
        while j < n
            invariant
                j <= n,
                tiles@.len() == j as int,
                forall|q: int| 0 <= q < j as int ==> tiles@[q] is None,
            decreases n - j,
        {
            tiles.push(None);
            j = j + 1;
        }
        let mut players: Vec<Option<BasePort>> = Vec::new();
        let mut i: u32 = 0;
        while i < num_players
            invariant
                i <= num_players,
                players@.len() == i as int,
                forall|q: int| 0 <= q < i as int ==> players@[q] is None,
            decreases num_players - i,
        {
            players.push(None);
            i = i + 1;
        }
        BoardState {
            board_width: board.width,
            board_height: board.height,
            tiles,
            players,
        }
    }

    /// The number of player slots.
    pub fn num_players(&self) -> (r: usize)
        ensures
            r == self.players@.len(),
    {
        self.players.len()
    }

    /// Tile on a tile location; `None` if there is no tile there.
    pub fn tile_at(&self, loc: &Pt2u) -> (r: Option<RegularTile<4>>)
        requires
            self.wf(),
        ensures
            r is Some <==> self.tile_at_spec(*loc) is Some,
            r matches Some(t) ==> self.tile_at_spec(*loc) matches Some(u) && t@ == u@,
    {
        if loc.x < self.board_width && loc.y < self.board_height {
            proof {
                assert((loc.y as int) * (self.board_width as int) + (loc.x as int) < (
                self.board_width as int) * (self.board_height as int)) by (nonlinear_arith)
                    requires
                        (loc.y as int) < (self.board_height as int),
                        (loc.x as int) < (self.board_width as int),
                        (self.board_width as int) >= 1,
                ;
                assert((self.board_width as int) * (self.board_height as int) <= 0xFFFF * 0xFFFF)
                    by (nonlinear_arith)
                    requires
                        (self.board_width as int) <= 0xFFFF,
                        (self.board_height as int) <= 0xFFFF,
                ;
            }
            let idx: u64 = loc.y as u64 * self.board_width as u64 + loc.x as u64;
            match &self.tiles[idx as usize] {
                Some(t) => Some(t.duplicate()),
                None => None,
            }
        } else {
            None
        }
    }

    /// All placed tiles with their locations.
    pub fn tiles_vec(&self) -> (r: Vec<(Pt2u, RegularTile<4>)>)
        requires
            self.wf(),
        ensures
            forall|q: int|
                0 <= q < r@.len() ==> {
                    &&& self.tile_at_spec(#[trigger] r@[q].0) matches Some(t)
                    &&& t@ == r@[q].1@
                },
            forall|loc: Pt2u|
                self.tile_at_spec(loc) is Some ==> exists|q: int|
                    0 <= q < r@.len() && (#[trigger] r@[q].0) == loc,
    {
        let mut r: Vec<(Pt2u, RegularTile<4>)> = Vec::new();
        let mut y: u32 = 0;
        while y < self.board_height
            invariant
                self.wf(),
                y <= self.board_height,
                forall|q: int|
                    0 <= q < r@.len() ==> {
                        &&& self.tile_at_spec(#[trigger] r@[q].0) matches Some(t)
                        &&& t@ == r@[q].1@
                    },
                forall|loc: Pt2u|
                    loc.y < y && self.tile_at_spec(loc) is Some ==> exists|q: int|
                        0 <= q < r@.len() && (#[trigger] r@[q].0) == loc,
            decreases self.board_height - y,
        {
            let mut x: u32 = 0;
            while x < self.board_width
                invariant
                    self.wf(),
                    y < self.board_height,
                    x <= self.board_width,
                    forall|q: int|
                        0 <= q < r@.len() ==> {
                            &&& self.tile_at_spec(#[trigger] r@[q].0) matches Some(t)
                            &&& t@ == r@[q].1@
                        },
                    forall|loc: Pt2u|
                        ((loc.y < y) || (loc.y == y && loc.x < x)) && self.tile_at_spec(loc)
                            is Some ==> exists|q: int|
                            0 <= q < r@.len() && (#[trigger] r@[q].0) == loc,
                decreases self.board_width - x,
            {
                let loc = Pt2u { x, y };
                let ghost old_r = r@;
                match self.tile_at(&loc) {
                    Some(t) => {
                        r.push((loc, t));
                        proof {
                            assert(r@[r@.len() - 1].0 == loc);
                            assert forall|lp: Pt2u|
                                ((lp.y < y) || (lp.y == y && lp.x < x + 1))
                                    && self.tile_at_spec(lp) is Some implies exists|q: int|
                                0 <= q < r@.len() && (#[trigger] r@[q].0) == lp by {
                                if lp.y == y && lp.x == x {
                                    assert(r@[r@.len() - 1].0 == lp);
                                } else {
                                    let q = choose|q: int|
                                        0 <= q < old_r.len() && old_r[q].0 == lp;
                                    assert(r@[q].0 == lp);
                                }
                            }
                        }
                    },
                    None => {
                    },
                }
                x = x + 1;
            }
            y = y + 1;
        }
        r
    }

    /// Whether all players have placed their tokens.
    pub fn all_players_placed(&self) -> (r: bool)
        ensures
            r == forall|i: int| 0 <= i < self.players@.len() ==> self.players@[i] is Some,
    {
        let mut i: usize = 0;
        while i < self.players.len()
            invariant
                i <= self.players@.len(),
                forall|q: int| 0 <= q < i as int ==> self.players@[q] is Some,
            decreases self.players@.len() - i,
        {
            if self.players[i].is_none() {
                return false;
            }
            i = i + 1;
        }
        true
    }

    /// Port that a player token is on; `None` if not placed yet.
    pub fn player_port(&self, player: u32) -> (r: Option<BasePort>)
        requires
            (player as int) < self.players@.len(),
        ensures
            r == self.players@[player as int],
    {
        self.players[player as usize]
    }

    /// Player on a port; `None` if no player token is there.
    pub fn player_at(&self, port: &BasePort) -> (r: Option<u32>)
        requires
            self.players@.len() <= u32::MAX,
        ensures
            (match r {
                Some(i) => {
                    &&& 0 <= (i as int) < self.players@.len()
                    &&& self.players@[i as int] == Some(*port)
                    &&& forall|j: int| 0 <= j < i as int ==> self.players@[j] != Some(*port)
                },
                None => forall|j: int| 0 <= j < self.players@.len() ==> self.players@[j] != Some(
                    *port,
                ),
            }),
    {
        let mut i: usize = 0;
        while i < self.players.len()
            invariant
                self.players@.len() <= u32::MAX,
                i <= self.players@.len(),
                forall|j: int| 0 <= j < i as int ==> self.players@[j] != Some(*port),
            decreases self.players@.len() - i,
        {
            match &self.players[i] {
                Some(p) => {
                    if p.pos.x == port.pos.x && p.pos.y == port.pos.y && p.dir.x == port.dir.x
                        && p.dir.y == port.dir.y {
                        return Some(i as u32);
                    }
                },
                None => {
                },
            }
            i = i + 1;
        }
        None
    }

    /// Place a player token on some port.
    pub fn place_player(&mut self, player: u32, port: &BasePort)
        requires
            (player as int) < old(self).players@.len(),
        ensures
            final(self).players@ == old(self).players@.update(player as int, Some(*port)),
            final(self).tiles@ == old(self).tiles@,
            final(self).board_width == old(self).board_width,
            final(self).board_height == old(self).board_height,
    {
        self.players.set(player as usize, Some(*port));
    }

    /// An explicit copy of the board state, equal up to tile views.
    pub fn duplicate(&self) -> (r: BoardState)
        ensures
            r.board_width == self.board_width,
            r.board_height == self.board_height,
            r.players@ == self.players@,
            r.tiles@.len() == self.tiles@.len(),
            forall|j: int|
                0 <= j < self.tiles@.len() ==> (match (#[trigger] r.tiles@[j], self.tiles@[j]) {
                    (Some(a), Some(b)) => a@ == b@,
                    (None, None) => true,
                    _ => false,
                }),
    {
        let mut tiles: Vec<Option<RegularTile<4>>> = Vec::new();
        let mut j: usize = 0;
        while j < self.tiles.len()
            invariant
                j <= self.tiles@.len(),
                tiles@.len() == j as int,
                forall|q: int|
                    0 <= q < j as int ==> (match (#[trigger] tiles@[q], self.tiles@[q]) {
                        (Some(a), Some(b)) => a@ == b@,
                        (None, None) => true,
                        _ => false,
                    }),
            decreases self.tiles@.len() - j,
        {
            match &self.tiles[j] {
                Some(t) => tiles.push(Some(t.duplicate())),
                None => tiles.push(None),
            }
            j = j + 1;
        }
        let mut players: Vec<Option<BasePort>> = Vec::new();
        let mut i: usize = 0;
        while i < self.players.len()
            invariant
                i <= self.players@.len(),
                players@.len() == i as int,
                forall|q: int| 0 <= q < i as int ==> players@[q] == self.players@[q],
            decreases self.players@.len() - i,
        {
            players.push(self.players[i]);
            i = i + 1;
        }
        proof {
            assert(players@ =~= self.players@);
        }
        BoardState {
            board_width: self.board_width,
            board_height: self.board_height,
            tiles,
            players,
        }
    }

    /// One token's advancement, mirroring `walk_from` step by step.
    fn walk_exec(&self, board: &RectangleBoard, port: BasePort, loc: Pt2u) -> (r: (BasePort, bool))
        requires
            self.wf(),
            self.matches_board(*board),
            board.loc_in_bounds(loc),
        ensures
            r == walk_from(self.tiles@, *board, port, loc, walk_fuel(*board)),
    {
        proof {
            assert((board.width as int) * (board.height as int) <= 0xFFFF * 0xFFFF)
                by (nonlinear_arith)
                requires
                    (board.width as int) <= 0xFFFF,
                    (board.height as int) <= 0xFFFF,
            ;
            assert(((board.width as int) * (board.height as int) * 4) * (board.ports_per_edge
                as int) <= 0xFFFF * 0xFFFF * 4 * 0xFFFF) by (nonlinear_arith)
                requires
                    0 <= (board.width as int) * (board.height as int) <= 0xFFFF * 0xFFFF,
                    (board.ports_per_edge as int) <= 0xFFFF,
            ;
        }
        let mut fuel: u64 = board.width as u64 * board.height as u64 * 4
            * board.ports_per_edge as u64 + 1;
        let mut cur_port = port;
        let mut cur_loc = loc;
        let ghost goal = walk_from(self.tiles@, *board, port, loc, walk_fuel(*board));
        proof {
            assert(fuel as nat == walk_fuel(*board));
        }
        loop
            invariant
                self.wf(),
                self.matches_board(*board),
                board.loc_in_bounds(cur_loc),
                walk_from(self.tiles@, *board, cur_port, cur_loc, fuel as nat) == goal,
                goal == walk_from(self.tiles@, *board, port, loc, walk_fuel(*board)),
            decreases fuel,
        {
            let ghost step = walk_from(self.tiles@, *board, cur_port, cur_loc, fuel as nat);
            let lp = board.loc_ports(&cur_loc);
            proof {
                lemma_first_index_of(lp@, cur_port);
            }
            let entry_opt = find_port(&lp, &cur_port);
            match entry_opt {
                None => {
                    proof {
                        assert(step == (cur_port, false));
                    }
                    return (cur_port, false);
                },
                Some(e) => {
                    proof {
                        assert(first_index_of(lp@, cur_port) == e as int);
                        assert(self.tile_at_spec(cur_loc) == grid_tile_at(
                            self.tiles@,
                            *board,
                            cur_loc,
                        ));
                    }
                    match self.tile_at(&cur_loc) {
                        None => {
                            proof {
                                assert(step == (cur_port, false));
                            }
                            return (cur_port, false);
                        },
                        Some(t) => {
                            let ghost ts = grid_tile_at(self.tiles@, *board, cur_loc).unwrap();
                            proof {
                                assert(t@ == ts@);
                                assert(t.connections@ == ts.connections@);
                            }
                            if e >= t.connections.len() {
                                proof {
                                    assert(step == (cur_port, false));
                                }
                                return (cur_port, false);
                            }
                            let out: u32 = t.connections[e];
                            proof {
                                assert(out == ts.connections@[e as int]);
                            }
                            if out as usize >= lp.len() {
                                proof {
                                    assert(step == (cur_port, false));
                                }
                                return (cur_port, false);
                            }
                            let new_port = lp[out as usize];
                            let nls = board.port_locs(&new_port);
                            let next: Option<Pt2u> = if nls.len() > 0 && nls[0] != cur_loc {
                                Some(nls[0])
                            } else if nls.len() > 1 && nls[1] != cur_loc {
                                Some(nls[1])
                            } else {
                                None
                            };
                            proof {
                                assert(next == other_loc(
                                    board.port_locs_spec(new_port),
                                    cur_loc,
                                ));
                            }
                            match next {
                                None => {
                                    proof {
                                        assert(step == (new_port, true));
                                    }
                                    return (new_port, true);
                                },
                                Some(l2) => {
                                    proof {
                                        assert(board.loc_in_bounds(l2));
                                        assert(self.tile_at_spec(l2) == grid_tile_at(
                                            self.tiles@,
                                            *board,
                                            l2,
                                        ));
                                    }
                                    let t2 = self.tile_at(&l2);
                                    if t2.is_none() {
                                        proof {
                                            assert(step == (new_port, false));
                                        }
                                        return (new_port, false);
                                    }
                                    if fuel == 0 {
                                        proof {
                                            assert(step == (new_port, false));
                                        }
                                        return (new_port, false);
                                    }
                                    proof {
                                        assert(step == walk_from(
                                            self.tiles@,
                                            *board,
                                            new_port,
                                            l2,
                                            (fuel - 1) as nat,
                                        ));
                                    }
                                    cur_port = new_port;
                                    cur_loc = l2;
                                    fuel = fuel - 1;
                                },
                            }
                        },
                    }
                },
            }
        }
    }

    /// Move players that touch the tile just placed at `loc` along
    /// their paths until each faces an empty location, waits, or walks
    /// off the board.  Returns the newly dead players, in increasing
    /// player order.
    pub fn advance_players(&mut self, board: &RectangleBoard, loc: &Pt2u) -> (dead: Vec<u32>)
        requires
            old(self).wf(),
            old(self).matches_board(*board),
            board.loc_in_bounds(*loc),
            old(self).players@.len() <= u32::MAX,
        ensures
            final(self).wf(),
            final(self).matches_board(*board),
            final(self).tiles@ == old(self).tiles@,
            final(self).board_width == old(self).board_width,
            final(self).board_height == old(self).board_height,
            final(self).players@.len() == old(self).players@.len(),
            forall|i: int|
                0 <= i < old(self).players@.len() ==> final(self).players@[i] == old(
                    self,
                ).advanced_port(*board, *loc, i),
            dead@ == old(self).dead_after(*board, *loc, old(self).players@.len() as int),
    {
        let ghost g = *old(self);
        let n = self.players.len();
        let mut dead: Vec<u32> = Vec::new();
        let mut i: usize = 0;
        while i < n
            invariant
                self.wf(),
                self.matches_board(*board),
                board.loc_in_bounds(*loc),
                n == self.players@.len(),
                n == g.players@.len(),
                n <= u32::MAX,
                self.tiles@ == g.tiles@,
                self.board_width == g.board_width,
                self.board_height == g.board_height,
                i <= n,
                forall|q: int|
                    0 <= q < i as int ==> self.players@[q] == g.advanced_port(*board, *loc, q),
                forall|q: int| i as int <= q < n as int ==> self.players@[q] == g.players@[q],
                dead@ == g.dead_after(*board, *loc, i as int),
            decreases n - i,
        {
            let maybe_port = self.players[i];
            match maybe_port {
                None => {
                    proof {
                        assert(!g.participates(*board, *loc, i as int));
                        assert(g.advanced_port(*board, *loc, i as int) == g.players@[i as int]);
                    }
                },
                Some(p0) => {
                    let lp0 = board.loc_ports(loc);
                    proof {
                        lemma_first_index_of(lp0@, p0);
                    }
                    let e0 = find_port(&lp0, &p0);
                    match e0 {
                        None => {
                            proof {
                                assert(!board.loc_ports_seq(*loc).contains(p0)) by {
                                    if board.loc_ports_seq(*loc).contains(p0) {
                                        let j = choose|j: int|
                                            0 <= j < lp0@.len() && lp0@[j] == p0;
                                    }
                                }
                                assert(!g.participates(*board, *loc, i as int));
                            }
                        },
                        Some(_) => {
                            proof {
                                assert(board.loc_ports_seq(*loc).contains(p0)) by {
                                    let e = first_index_of(lp0@, p0);
                                    assert(lp0@[e] == p0);
                                }
                                assert(g.participates(*board, *loc, i as int));
                            }
                            let step = self.walk_exec(board, p0, *loc);
                            self.players.set(i, Some(step.0));
                            if step.1 {
                                dead.push(i as u32);
                            }
                            proof {
                                assert(walk_from(self.tiles@, *board, p0, *loc, walk_fuel(*board))
                                    == walk_from(
                                    g.tiles@,
                                    *board,
                                    p0,
                                    *loc,
                                    walk_fuel(*board),
                                ));
                            }
                        },
                    }
                },
            }
            proof {
                assert(g.dead_after(*board, *loc, i as int + 1) == if g.participates(
                    *board,
                    *loc,
                    i as int,
                ) && walk_from(
                    g.tiles@,
                    *board,
                    g.players@[i as int].unwrap(),
                    *loc,
                    walk_fuel(*board),
                ).1 {
                    g.dead_after(*board, *loc, i as int).push(i as u32)
                } else {
                    g.dead_after(*board, *loc, i as int)
                });
            }
            i = i + 1;
        }
        dead
    }

    /// Place a tile on an empty location of matching kind.
    pub fn place_tile(&mut self, tile: RegularTile<4>, loc: &Pt2u)
        requires
            old(self).wf(),
            old(self).tile_at_spec(*loc) is None,
            loc.x < old(self).board_width,
            loc.y < old(self).board_height,
        ensures
            final(self).wf(),
            final(self).tiles@ == old(self).tiles@.update(
                loc.y as int * old(self).board_width as int + loc.x as int,
                Some(tile),
            ),
            final(self).players@ == old(self).players@,
            final(self).board_width == old(self).board_width,
            final(self).board_height == old(self).board_height,
            final(self).tile_at_spec(*loc) == Some(tile),
    {
        proof {
            assert((loc.y as int) * (self.board_width as int) + (loc.x as int) < (
            self.board_width as int) * (self.board_height as int)) by (nonlinear_arith)
                requires
                    (loc.y as int) < (self.board_height as int),
                    (loc.x as int) < (self.board_width as int),
                    (self.board_width as int) >= 1,
            ;
            assert((self.board_width as int) * (self.board_height as int) <= 0xFFFF * 0xFFFF)
                by (nonlinear_arith)
                requires
                    (self.board_width as int) <= 0xFFFF,
                    (self.board_height as int) <= 0xFFFF,
            ;
        }
        let idx: u64 = loc.y as u64 * self.board_width as u64 + loc.x as u64;
        self.tiles.set(idx as usize, Some(tile));
    }
}

} // verus!
