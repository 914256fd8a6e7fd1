//! A game definition: the board, the ports players may start on, and
//! how many tiles of each kind a player holds.

use vstd::prelude::*;

verus! {

use crate::board::BasePort;
use crate::board::RectangleBoard;
use crate::tile::BaseKind;
use crate::tile::RegularTile;
use crate::tile::conn_canonical;
use crate::tile::conn_lex_lt;
use crate::tile::is_matching;
use crate::tile::num_matchings;
use crate::tile::rotate_conn;

/// A definition for a path game on the rectangular board with
/// square tiles.
pub struct PathGame {
    pub board: RectangleBoard,
    pub start_ports: Vec<BasePort>,
    pub tiles_per_player: Vec<(BaseKind, u32)>,
}

impl PathGame {
    /// The number of hand tiles configured for `kind`, if any.
    pub open spec fn count_for(self, kind: BaseKind) -> Option<u32> {
        let s = self.tiles_per_player@;
        if exists|i: int| 0 <= i < s.len() && s[i].0 == kind {
            Some(s[choose|i: int| 0 <= i < s.len() && s[i].0 == kind].1)
        } else {
            None
        }
    }

    /// The game is playable: the board is within machine bounds, the
    /// per-kind counts have distinct keys and cover the universal
    /// kind, and the tile catalogue for the board is generable.
    pub open spec fn wf(self) -> bool {
        &&& self.board.wf()
        &&& forall|i: int, j: int|
            0 <= i < j < self.tiles_per_player@.len() ==> (#[trigger] self.tiles_per_player@[i]).0
                != (#[trigger] self.tiles_per_player@[j]).0
        &&& self.count_for(BaseKind::Unit) is Some
        &&& num_matchings((self.board.ports_per_edge as int * 4) as nat) <= u32::MAX as int
    }

    pub fn new(
        board: RectangleBoard,
        start_ports: Vec<BasePort>,
        tiles_per_player: Vec<(BaseKind, u32)>,
    ) -> (r: Self)
        ensures
            r.board == board,
            r.start_ports@ == start_ports@,
            r.tiles_per_player@ == tiles_per_player@,
    {
        Self { board, start_ports, tiles_per_player }
    }

    /// The game's board.
    pub fn board(&self) -> (r: &RectangleBoard)
        ensures
            r == self.board,
    {
        &self.board
    }

    /// All the ports that players can start at.
    pub fn start_ports(&self) -> (r: Vec<BasePort>)
        ensures
            r@ == self.start_ports@,
    {
        let mut r: Vec<BasePort> = Vec::new();
        let mut i: usize = 0;
        while i < self.start_ports.len()
            invariant
                i <= self.start_ports@.len(),
                r@.len() == i as int,
                forall|j: int| 0 <= j < i as int ==> r@[j] == self.start_ports@[j],
            decreases self.start_ports@.len() - i,
        {
            r.push(self.start_ports[i]);
            i = i + 1;
        }
        proof {
            assert(r@ =~= self.start_ports@);
        }
        r
    }

    /// Whether `port` is one of the game's starting ports.
    pub fn is_start_port(&self, port: &BasePort) -> (r: bool)
        ensures
            r == self.start_ports@.contains(*port),
    {
        let mut i: usize = 0;
        while i < self.start_ports.len()
            invariant
                i <= self.start_ports@.len(),
                forall|j: int| 0 <= j < i as int ==> self.start_ports@[j] != *port,
            decreases self.start_ports@.len() - i,
        {
            if self.start_ports[i] == *port {
                proof {
                    assert(self.start_ports@[i as int] == *port);
                }
                return true;
            }
            i = i + 1;
        }
        proof {
            if self.start_ports@.contains(*port) {
                let j = choose|j: int|
                    0 <= j < self.start_ports@.len() && self.start_ports@[j] == *port;
            }
        }
        false
    }

    /// Tiles of some kind that a player starts with.
    pub fn num_tiles_per_player(&self, kind: &BaseKind) -> (r: u32)
        requires
            self.wf(),
            self.count_for(*kind) is Some,
        ensures
            Some(r) == self.count_for(*kind),
    {
        let mut i: usize = 0;
        while i < self.tiles_per_player.len()
            invariant
                self.wf(),
                self.count_for(*kind) is Some,
                i <= self.tiles_per_player@.len(),
                forall|j: int| 0 <= j < i as int ==> (#[trigger] self.tiles_per_player@[j]).0
                    != *kind,
            decreases self.tiles_per_player@.len() - i,
        {
            if self.tiles_per_player[i].0 == *kind {
                proof {
                    let s = self.tiles_per_player@;
                    let w = choose|w: int| 0 <= w < s.len() && s[w].0 == *kind;
                    assert(s[i as int].0 == *kind);
                    if w < i as int {
                        assert(s[w].0 != *kind);
                    }
                    if w > i as int {
                        assert(s[i as int].0 != s[w].0);
                    }
                    assert(w == i as int);
                }
                return self.tiles_per_player[i].1;
            }
            i = i + 1;
        }
        proof {
            let s = self.tiles_per_player@;
            let w = choose|w: int| 0 <= w < s.len() && s[w].0 == *kind;
            assert(s[w].0 == *kind);
            assert(false);
        }
        unreached()
    }

    /// The set of tiles the game uses: the canonical catalogue for
    /// the board's tile configuration.
    pub fn all_tiles(&self) -> (r: Vec<RegularTile<4>>)
        requires
            self.wf(),
        ensures
            r@.len() <= num_matchings((self.board.ports_per_edge as int * 4) as nat),
            forall|x: int|
                0 <= x < r@.len() ==> {
                    &&& (#[trigger] r@[x]).wf()
                    &&& r@[x].connections@.len() == self.board.ports_per_edge as int * 4
                    &&& r@[x].visible == true
                    &&& is_matching(r@[x].connections@, self.board.ports_per_edge as int * 4)
                    &&& conn_canonical(r@[x].connections@, 4)
                },
            forall|x: int, y: int|
                0 <= x < y < r@.len() ==> conn_lex_lt(
                    (#[trigger] r@[x]).connections@,
                    (#[trigger] r@[y]).connections@,
                ),
            forall|c: Seq<u32>|
                #[trigger] is_matching(c, self.board.ports_per_edge as int * 4)
                    && conn_canonical(c, 4) ==> exists|x: int|
                    0 <= x < r@.len() && (#[trigger] r@[x]).connections@ == c,
    {
        proof {
            vstd::arithmetic::div_mod::lemma_mod_multiples_basic(
                self.board.ports_per_edge as int * 2,
                2,
            );
            assert((self.board.ports_per_edge as int) * 4 == ((self.board.ports_per_edge as int)
                * 2) * 2) by (nonlinear_arith);
        }
        let r = RegularTile::<4>::all(self.board.tile_config());
        proof {
            assert forall|x: int| 0 <= x < r@.len() implies is_matching(
                (#[trigger] r@[x]).connections@,
                self.board.ports_per_edge as int * 4,
            ) && conn_canonical(r@[x].connections@, 4) by {
                assert forall|k: int| 0 <= k < 4 implies !conn_lex_lt(
                    #[trigger] crate::tile::conn_rotation(r@[x].connections@, 4, k),
                    r@[x].connections@,
                ) by {
                    assert(crate::tile::conn_rotation(r@[x].connections@, 4, k) == rotate_conn(
                        r@[x].connections@,
                        r@[x].rotate_offset(k),
                    ));
                }
            }
        }
        r
    }
}

} // verus!
