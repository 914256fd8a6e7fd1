//! The turn state machine: construction and dealing, legality checks,
//! turn execution, death handling, tile redistribution, win detection,
//! and per-viewer visibility projection.

use vstd::prelude::*;

verus! {

use std::collections::VecDeque;
use vstd::arithmetic::div_mod::*;
use crate::board::BasePort;
use crate::board::RectangleBoard;
use crate::board_state::BoardState;
use crate::board_state::advanced_port_of;
use crate::board_state::dead_list;
use crate::board_state::participates_in;
use crate::board_state::walk_from;
use crate::board_state::walk_fuel;
use crate::game::PathGame;
use crate::math::Pt2u;
use crate::player_state::Looker;
use crate::player_state::PlayerState;
use crate::player_state::flat_hand_views;
use crate::tile::BaseKind;
use crate::tile::CycleGAct;
use crate::tile::RegularTile;
use crate::tile::TileView;
use crate::tile::conn_canonical;
use crate::tile::conn_lex_lt;
use crate::tile::is_canonical_catalogue;
use crate::tile::is_matching;
use crate::tile::rotate_conn;

/// What a deterministic, seeded shuffle leaves of a tile list: a
/// permutation of the input that depends on the seed and the input
/// alone.
pub uninterp spec fn shuffled(seed: u64, tiles: Seq<RegularTile<4>>) -> Seq<RegularTile<4>>;

/// Relies on `rand_pcg::Pcg64::seed_from_u64` and
/// `rand::seq::SliceRandom::shuffle`: a Fisher-Yates shuffle driven by
/// the seeded PCG stream permutes the slice in place, so the result is
/// a permutation of the input determined by seed and input alone.
#[verifier::external_body]
fn shuffle_tiles(seed: u64, tiles: Vec<RegularTile<4>>) -> (r: Vec<RegularTile<4>>)
    ensures
        r@ == shuffled(seed, tiles@),
        r@.len() == tiles@.len(),
        r@.to_multiset() == tiles@.to_multiset(),
{
    let mut v = tiles;
    let mut rng = <rand_pcg::Pcg64 as rand::SeedableRng>::seed_from_u64(seed);
    rand::seq::SliceRandom::shuffle(v.as_mut_slice(), &mut rng);
    v
}

/// Two sequences with equal multisets hold the same values.
proof fn lemma_same_multiset_members(a: Seq<RegularTile<4>>, b: Seq<RegularTile<4>>)
    requires
        a.to_multiset() == b.to_multiset(),
    ensures
        forall|i: int| 0 <= i < a.len() ==> #[trigger] b.contains(a[i]),
{
    a.to_multiset_ensures();
    b.to_multiset_ensures();
    assert forall|i: int| 0 <= i < a.len() implies #[trigger] b.contains(a[i]) by {
        assert(a.to_multiset().count(a[i]) > 0);
    }
}

/// The stuff that happened during a turn: the unit of replication to
/// observers.
pub struct TurnResult {
    /// The player who placed the tile.
    pub tile_placer: u32,
    /// Hand index and tile placed.
    pub tile_placed: (u32, RegularTile<4>),
    /// Where the tile was placed.
    pub tile_loc: Pt2u,
    /// New locations of players, indexed by player.
    pub player_ports: Vec<BasePort>,
    /// Which players died this turn.
    pub dead_players: Vec<u32>,
    /// New number of tiles per kind in the draw pile.
    pub num_tiles_left: Vec<(BaseKind, u32)>,
    /// New tiles drawn by players, as (player, hand index, tile).
    pub drawn_tiles: Vec<(u32, u32, RegularTile<4>)>,
    /// Whether the game is over.
    pub game_over: bool,
}

impl TurnResult {
    pub fn tile_placer(&self) -> (r: u32)
        ensures
            r == self.tile_placer,
    {
        self.tile_placer
    }

    pub fn tile_loc(&self) -> (r: Pt2u)
        ensures
            r == self.tile_loc,
    {
        self.tile_loc
    }

    pub fn game_over(&self) -> (r: bool)
        ensures
            r == self.game_over,
    {
        self.game_over
    }
}

/// The state of the game.
pub struct GameState {
    pub board_state: BoardState,
    pub player_states: Vec<Option<PlayerState>>,
    pub looker: Looker,
    pub turn_player: u32,
    pub tiles: Vec<(BaseKind, VecDeque<RegularTile<4>>)>,
    pub winners: Vec<u32>,
}

impl GameState {
    /// Whether there is a draw pile for `kind`.
    pub open spec fn pile_has_kind(self, kind: BaseKind) -> bool {
        exists|i: int| 0 <= i < self.tiles@.len() && (#[trigger] self.tiles@[i]).0 == kind
    }

    /// The pile entry index of `kind`.
    pub open spec fn pile_at(self, kind: BaseKind) -> int {
        choose|i: int| 0 <= i < self.tiles@.len() && (#[trigger] self.tiles@[i]).0 == kind
    }

    /// The draw pile of `kind`, front first.
    pub open spec fn pile(self, kind: BaseKind) -> Seq<RegularTile<4>> {
        self.tiles@[self.pile_at(kind)].1@
    }

    /// Number of players (slots, alive or dead).
    pub open spec fn num_players_spec(self) -> int {
        self.player_states@.len() as int
    }

    /// Whether player `p` is still in the game.
    pub open spec fn alive(self, p: int) -> bool {
        self.player_states@[p] is Some
    }

    /// The hand of `kind` held by (living) player `p`.
    pub open spec fn hand_of(self, p: int, kind: BaseKind) -> Seq<RegularTile<4>> {
        self.player_states@[p].unwrap().hand(kind)
    }

    /// Well-formedness of a game state: consistent sizes, a draw pile
    /// and hand slot for the universal kind, and in-range counters.
    pub open spec fn wf(self) -> bool {
        &&& self.board_state.wf()
        &&& 1 <= self.num_players_spec() <= u32::MAX
        &&& self.board_state.players@.len() == self.num_players_spec()
        &&& (self.turn_player as int) < self.num_players_spec()
        &&& forall|i: int, j: int|
            0 <= i < j < self.tiles@.len() ==> (#[trigger] self.tiles@[i]).0 != (
            #[trigger] self.tiles@[j]).0
        &&& self.tiles@.len() == 1
        &&& self.tiles@[0].0 == BaseKind::Unit
        &&& self.pile_has_kind(BaseKind::Unit)
        &&& forall|p: int|
            0 <= p < self.num_players_spec() && self.alive(p) ==> {
                &&& (#[trigger] self.player_states@[p]).unwrap().wf()
                &&& self.player_states@[p].unwrap().tiles@.len() == 1
                &&& self.player_states@[p].unwrap().tiles@[0].0 == BaseKind::Unit
                &&& self.player_states@[p].unwrap().has_kind(BaseKind::Unit)
                &&& self.player_states@[p].unwrap().hand(BaseKind::Unit).len() <= u32::MAX
            }
    }

    /// The state of a specific player; `None` if the player is dead.
    pub fn player_state(&self, player: u32) -> (r: &Option<PlayerState>)
        requires
            (player as int) < self.player_states@.len(),
        ensures
            r == self.player_states@[player as int],
    {
        &self.player_states[player as usize]
    }

    /// Number of players in the game.
    pub fn num_players(&self) -> (r: u32)
        requires
            self.player_states@.len() <= u32::MAX,
        ensures
            r as int == self.num_players_spec(),
    {
        self.player_states.len() as u32
    }

    /// Whose turn it is.
    pub fn turn_player(&self) -> (r: u32)
        ensures
            r == self.turn_player,
    {
        self.turn_player
    }

    /// The player looking at this state.
    pub fn looker(&self) -> (r: Looker)
        ensures
            r == self.looker,
    {
        self.looker
    }

    /// The winners so far; empty until the game ends.
    pub fn winners(&self) -> (r: &Vec<u32>)
        ensures
            r@ == self.winners@,
    {
        &self.winners
    }

    /// Whether some player won the game.
    pub fn won(&self, player: u32) -> (r: bool)
        ensures
            r == self.winners@.contains(player),
    {
        let mut i: usize = 0;
        while i < self.winners.len()
            invariant
                i <= self.winners@.len(),
                forall|j: int| 0 <= j < i as int ==> self.winners@[j] != player,
            decreases self.winners@.len() - i,
        {
            if self.winners[i] == player {
                proof {
                    assert(self.winners@[i as int] == player);
                }
                return true;
            }
            i = i + 1;
        }
        proof {
            if self.winners@.contains(player) {
                let j = choose|j: int| 0 <= j < self.winners@.len() && self.winners@[j] == player;
            }
        }
        false
    }

    /// Whether the game is over.
    pub fn game_over(&self) -> (r: bool)
        ensures
            r == (self.winners@.len() > 0),
    {
        self.winners.len() > 0
    }

    /// The board contents.
    pub fn board_state(&self) -> (r: &BoardState)
        ensures
            r == self.board_state,
    {
        &self.board_state
    }

    /// Whether all players placed their tokens.
    pub fn all_players_placed(&self) -> (r: bool)
        ensures
            r == forall|i: int|
                0 <= i < self.board_state.players@.len() ==> self.board_state.players@[i] is Some,
    {
        self.board_state.all_players_placed()
    }

    /// The looker as a player; to be called only where the looker is
    /// known to be a specific player.
    pub fn player_expect(&self) -> (r: u32)
        requires
            self.looker is Player,
        ensures
            self.looker == Looker::Player(r),
    {
        match self.looker {
            Looker::Player(p) => p,
            _ => unreached(),
        }
    }

    /// Whether this looker is a player instead of a spectator or the
    /// server.
    pub fn is_player(&self) -> (r: bool)
        ensures
            r == (self.looker is Player),
    {
        match self.looker {
            Looker::Player(_) => true,
            _ => false,
        }
    }

    /// Number of tiles left of each kind in the draw pile.
    pub fn num_tiles_left_by_kind(&self) -> (r: Vec<(BaseKind, u32)>)
        requires
            forall|i: int|
                0 <= i < self.tiles@.len() ==> (#[trigger] self.tiles@[i]).1@.len() <= u32::MAX,
        ensures
            r@.len() == self.tiles@.len(),
            forall|i: int|
                0 <= i < self.tiles@.len() ==> {
                    &&& (#[trigger] r@[i]).0 == self.tiles@[i].0
                    &&& r@[i].1 as int == self.tiles@[i].1@.len()
                },
    {
        let mut r: Vec<(BaseKind, u32)> = Vec::new();
        let mut i: usize = 0;
        while i < self.tiles.len()
            invariant
                forall|q: int|
                    0 <= q < self.tiles@.len() ==> (#[trigger] self.tiles@[q]).1@.len()
                        <= u32::MAX,
                i <= self.tiles@.len(),
                r@.len() == i as int,
                forall|q: int|
                    0 <= q < i as int ==> {
                        &&& (#[trigger] r@[q]).0 == self.tiles@[q].0
                        &&& r@[q].1 as int == self.tiles@[q].1@.len()
                    },
            decreases self.tiles@.len() - i,
        {
            r.push((self.tiles[i].0, self.tiles[i].1.len() as u32));
            i = i + 1;
        }
        r
    }

    /// The tile at the top of the draw pile of some kind; `None` if no
    /// tiles of that kind are left.
    pub fn top_tile_left_of_kind(&self, kind: &BaseKind) -> (r: Option<RegularTile<4>>)
        requires
            self.wf(),
        ensures
            (match r {
                Some(t) => self.pile_has_kind(*kind) && self.pile(*kind).len() > 0 && t@
                    == self.pile(*kind)[0]@,
                None => !self.pile_has_kind(*kind) || self.pile(*kind).len() == 0,
            }),
    {
        let mut i: usize = 0;
        while i < self.tiles.len()
            invariant
                self.wf(),
                i <= self.tiles@.len(),
                forall|j: int| 0 <= j < i as int ==> (#[trigger] self.tiles@[j]).0 != *kind,
            decreases self.tiles@.len() - i,
        {
            if self.tiles[i].0 == *kind {
                proof {
                    lemma_pile_at_unique(*self, *kind, i as int);
                }
                if self.tiles[i].1.len() == 0 {
                    return None;
                }
                let t = self.tiles[i].1[0].duplicate();
                return Some(t);
            }
            i = i + 1;
        }
        proof {
            if self.pile_has_kind(*kind) {
                let w = self.pile_at(*kind);
                assert(self.tiles@[w].0 == *kind);
            }
        }
        None
    }

    /// Gets the next tile of `kind` from the draw pile; `None` if the
    /// pile is empty.
    #[verifier::loop_isolation(false)]
    pub fn next_tile(&mut self, kind: &BaseKind) -> (r: Option<RegularTile<4>>)
        requires
            old(self).wf(),
            old(self).pile_has_kind(*kind),
        ensures
            final(self).board_state == old(self).board_state,
            final(self).player_states@ == old(self).player_states@,
            final(self).looker == old(self).looker,
            final(self).turn_player == old(self).turn_player,
            final(self).winners@ == old(self).winners@,
            final(self).tiles@.len() == old(self).tiles@.len(),
            forall|j: int|
                0 <= j < old(self).tiles@.len() ==> (#[trigger] final(self).tiles@[j]).0 == old(self).tiles@[j].0,
            final(self).pile_at(*kind) == old(self).pile_at(*kind),
            forall|j: int|
                0 <= j < old(self).tiles@.len() && j != old(self).pile_at(*kind) ==> (
                #[trigger] final(self).tiles@[j]) == old(self).tiles@[j],
            (match r {
                Some(t) => old(self).pile(*kind).len() > 0 && t == old(self).pile(*kind)[0]
                    && final(self).pile(*kind) == old(self).pile(*kind).drop_first(),
                None => old(self).pile(*kind).len() == 0 && final(self).pile(*kind) == old(self).pile(*kind),
            }),
            final(self).wf(),
    {
        let ghost g = *old(self);
        let n = self.tiles.len();
        let mut i: usize = 0;
        while i < n
            invariant
                *self == g,
                n == self.tiles@.len(),
                i <= n,
                forall|j: int| 0 <= j < i as int ==> (#[trigger] self.tiles@[j]).0 != *kind,
            decreases n - i,
        {
            if self.tiles[i].0 == *kind {
                proof {
                    lemma_pile_at_unique(g, *kind, i as int);
                }
                let mut entry = self.tiles.remove(i);
                let r = entry.1.pop_front();
                self.tiles.insert(i, entry);
                proof {
                    assert(self.tiles@ =~= g.tiles@.update(i as int, self.tiles@[i as int]));
                    assert(self.tiles@[i as int].0 == *kind);
                    assert(self.wf());
                    lemma_pile_at_unique(*self, *kind, i as int);
                    if r is Some {
                        assert(self.tiles@[i as int].1@ =~= g.tiles@[i as int].1@.drop_first());
                    }
                }
                return r;
            }
            i = i + 1;
        }
        proof {
            let w = g.pile_at(*kind);
            assert(g.tiles@[w].0 == *kind);
            assert(false);
        }
        unreached()
    }

    /// Deals a tile of a specific kind to a specific living player,
    /// marked visible exactly to this state's looker.  Returns the
    /// hand index and the tile dealt, if one was left.
    pub fn deal_tile(&mut self, player: u32, kind: &BaseKind) -> (r: Option<(u32, RegularTile<4>)>)
        requires
            old(self).wf(),
            old(self).pile_has_kind(*kind),
            *kind == BaseKind::Unit,
            (player as int) < old(self).num_players_spec(),
            old(self).alive(player as int),
            old(self).hand_of(player as int, *kind).len() < u32::MAX,
        ensures
            final(self).wf(),
            final(self).board_state == old(self).board_state,
            final(self).looker == old(self).looker,
            final(self).turn_player == old(self).turn_player,
            final(self).winners@ == old(self).winners@,
            final(self).player_states@.len() == old(self).player_states@.len(),
            forall|q: int|
                0 <= q < old(self).num_players_spec() && q != player as int ==> (#[trigger] final(self).player_states@[q]) == old(self).player_states@[q],
            forall|q: int|
                0 <= q < old(self).num_players_spec() ==> ((#[trigger] final(self).player_states@[q]) is Some <==> old(self).player_states@[q] is Some),
            final(self).tiles@.len() == old(self).tiles@.len(),
            forall|j: int|
                0 <= j < old(self).tiles@.len() ==> (#[trigger] final(self).tiles@[j]).0 == old(self).tiles@[j].0,
            forall|j: int|
                0 <= j < old(self).tiles@.len() && j != old(self).pile_at(*kind) ==> (
                #[trigger] final(self).tiles@[j]) == old(self).tiles@[j],
            (match r {
                Some((index, tile)) => {
                    &&& old(self).pile(*kind).len() > 0
                    &&& final(self).pile(*kind) == old(self).pile(*kind).drop_first()
                    &&& tile@ == (TileView {
                        conn: old(self).pile(*kind)[0]@.conn,
                        visible: old(self).looker.sees_player(player),
                    })
                    &&& index as int == old(self).hand_of(player as int, *kind).len()
                    &&& final(self).hand_of(player as int, *kind).len() == old(self).hand_of(
                        player as int,
                        *kind,
                    ).len() + 1
                    &&& final(self).hand_of(player as int, *kind) == old(self).hand_of(
                        player as int,
                        *kind,
                    ).push(final(self).hand_of(player as int, *kind).last())
                    &&& final(self).hand_of(player as int, *kind).last()@ == tile@
                },
                None => {
                    &&& old(self).pile(*kind).len() == 0
                    &&& final(self).player_states@ == old(self).player_states@
                    &&& final(self).pile(*kind) == old(self).pile(*kind)
                },
            }),
    {
        let t0 = self.next_tile(kind);
        match t0 {
            None => {
                None
            },
            Some(mut tile) => {
                let vis = self.looker.sees(player);
                tile.set_visible(vis);
                let ghost mid = *self;
                let mut entry = self.player_states.remove(player as usize);
                let index = match &mut entry {
                    Some(ps) => {
                        let idx = ps.num_tiles_by_kind(kind);
                        ps.add_tile(tile.duplicate());
                        idx
                    },
                    None => unreached(),
                };
                self.player_states.insert(player as usize, entry);
                proof {
                    assert(self.player_states@ =~= mid.player_states@.update(
                        player as int,
                        self.player_states@[player as int],
                    ));
                    let w = mid.pile_at(BaseKind::Unit);
                    assert(self.tiles@[w].0 == BaseKind::Unit);
                    lemma_pile_at_unique(*self, BaseKind::Unit, w);
                    assert(self.pile(BaseKind::Unit) == mid.pile(BaseKind::Unit));
                    assert(self.wf());
                }
                Some((index, tile))
            },
        }
    }
}

impl GameState {
    /// Construct a new state from a game: build the canonical tile
    /// catalogue, shuffle it with the caller's seed, and deal each
    /// player the configured number of tiles, round-robin.
    pub fn new(game: &PathGame, num_players: u32, seed: u64) -> (r: GameState)
        requires
            game.wf(),
            1 <= num_players,
            game.count_for(BaseKind::Unit).unwrap() < u32::MAX,
        ensures
            r.wf(),
            r.looker == Looker::Server,
            r.turn_player == 0,
            r.winners@.len() == 0,
            r.num_players_spec() == num_players as int,
            r.board_state.matches_board(game.board),
            forall|q: int| 0 <= q < num_players as int ==> r.board_state.players@[q] is None,
            forall|j: int| 0 <= j < r.board_state.tiles@.len() ==> r.board_state.tiles@[j]
                is None,
            forall|q: int| 0 <= q < num_players as int ==> #[trigger] r.alive(q),
            forall|q: int|
                0 <= q < num_players as int ==> #[trigger] r.hand_of(q, BaseKind::Unit).len()
                    <= game.count_for(BaseKind::Unit).unwrap() as int,
            r.pile(BaseKind::Unit).len() > 0 ==> forall|q: int|
                0 <= q < num_players as int ==> #[trigger] r.hand_of(q, BaseKind::Unit).len()
                    == game.count_for(BaseKind::Unit).unwrap() as int,
            forall|j: int|
                0 <= j < r.pile(BaseKind::Unit).len() ==> tile_ok(
                    #[trigger] r.pile(BaseKind::Unit)[j],
                    game.board.ports_per_edge as int * 4,
                ),
            forall|q: int, j: int|
                0 <= q < num_players as int && 0 <= j < r.hand_of(q, BaseKind::Unit).len()
                    ==> tile_ok(
                    #[trigger] r.hand_of(q, BaseKind::Unit)[j],
                    game.board.ports_per_edge as int * 4,
                ),
            exists|cat: Seq<RegularTile<4>>|
                {
                    let piled = shuffled(seed, cat);
                    let n = num_players as int;
                    let cnt = game.count_for(BaseKind::Unit).unwrap() as int;
                    let dealt = min_int(cnt * n, piled.len() as int);
                    &&& #[trigger] is_canonical_catalogue(
                        cat,
                        game.board.ports_per_edge as int * 4,
                        4,
                    )
                    &&& forall|x: int| 0 <= x < cat.len() ==> !(#[trigger] cat[x]).visible
                    &&& r.pile(BaseKind::Unit) == piled.skip(dealt)
                    &&& forall|q: int|
                        0 <= q < n ==> (#[trigger] r.hand_of(q, BaseKind::Unit)).len()
                            == dealt_rounds(q, n, cnt, dealt)
                    &&& forall|q: int, tt: int|
                        0 <= q < n && 0 <= tt < r.hand_of(q, BaseKind::Unit).len() ==> (
                        #[trigger] r.hand_of(q, BaseKind::Unit)[tt])@ == (TileView {
                            conn: piled[tt * n + q]@.conn,
                            visible: true,
                        })
                },
    {
        let ghost np = game.board.ports_per_edge as int * 4;
        let catalog = game.all_tiles();
        let mut invisible: Vec<RegularTile<4>> = Vec::new();
        let mut i: usize = 0;
        while i < catalog.len()
            invariant
                np == game.board.ports_per_edge as int * 4,
                i <= catalog@.len(),
                invisible@.len() == i as int,
                forall|j: int|
                    0 <= j < catalog@.len() ==> tile_ok(#[trigger] catalog@[j], np),
                forall|j: int| 0 <= j < i as int ==> tile_ok(#[trigger] invisible@[j], np),
                forall|j: int|
                    0 <= j < i as int ==> (#[trigger] invisible@[j]).connections@ == catalog@[
                        j].connections@ && !invisible@[j].visible,
            decreases catalog@.len() - i,
        {
            invisible.push(catalog[i].duplicate().with_visible(false));
            i = i + 1;
        }
        let ghost inv0 = invisible@;
        let piled = shuffle_tiles(seed, invisible);
        proof {
            lemma_same_multiset_members(piled@, invisible@);
            assert forall|j: int| 0 <= j < piled@.len() implies tile_ok(
                #[trigger] piled@[j],
                np,
            ) by {
                assert(invisible@.contains(piled@[j]));
                let w = choose|w: int| 0 <= w < invisible@.len() && invisible@[w] == piled@[j];
            }
        }
        let ghost piled0 = piled@;
        let mut rest = piled;
        let mut deque: VecDeque<RegularTile<4>> = VecDeque::new();
        while rest.len() > 0
            invariant
                deque@ + rest@ == piled0,
                forall|j: int| 0 <= j < piled0.len() ==> tile_ok(#[trigger] piled0[j], np),
            decreases rest@.len(),
        {
            let t = rest.remove(0);
            deque.push_back(t);
            proof {
                assert(deque@ + rest@ =~= piled0);
            }
        }
        proof {
            assert(deque@ =~= piled0);
            assert forall|j: int| 0 <= j < deque@.len() implies tile_ok(
                #[trigger] deque@[j],
                np,
            ) by {
                assert(deque@[j] == piled0[j]);
            }
        }
        let mut tiles: Vec<(BaseKind, VecDeque<RegularTile<4>>)> = Vec::new();
        tiles.push((BaseKind::Unit, deque));
        let mut player_states: Vec<Option<PlayerState>> = Vec::new();
        let mut p: u32 = 0;
        while p < num_players
            invariant
                p <= num_players,
                player_states@.len() == p as int,
                forall|q: int|
                    0 <= q < p as int ==> {
                        &&& (#[trigger] player_states@[q]) is Some
                        &&& player_states@[q].unwrap().wf()
                        &&& player_states@[q].unwrap().tiles@.len() == 1
                        &&& player_states@[q].unwrap().tiles@[0].0 == BaseKind::Unit
                        &&& player_states@[q].unwrap().has_kind(BaseKind::Unit)
                        &&& player_states@[q].unwrap().hand(BaseKind::Unit).len() == 0
                    },
            decreases num_players - p,
        {
            player_states.push(Some(PlayerState::new(game)));
            p = p + 1;
        }
        let mut st = GameState {
            board_state: BoardState::new(game.board(), num_players),
            player_states,
            looker: Looker::Server,
            turn_player: 0,
            tiles,
            winners: Vec::new(),
        };
        proof {
            lemma_pile_at_unique(st, BaseKind::Unit, 0);
            assert(st.pile(BaseKind::Unit).len() <= u32::MAX);
            assert(st.wf());
        }
        let count = game.num_tiles_per_player(&BaseKind::Unit);
        let ghost bs0 = st.board_state;
        let ghost n_i = num_players as int;
        proof {
            assert(st.pile(BaseKind::Unit) =~= piled0.skip(0));
            assert(0int * n_i == 0) by (nonlinear_arith);
        }
        let mut t: u32 = 0;
        while t < count
            invariant
                st.wf(),
                st.looker == Looker::Server,
                st.turn_player == 0,
                st.winners@.len() == 0,
                st.board_state == bs0,
                st.num_players_spec() == num_players as int,
                st.pile_has_kind(BaseKind::Unit),
                Some(count) == game.count_for(BaseKind::Unit),
                count < u32::MAX,
                t <= count,
                n_i == num_players as int,
                1 <= n_i,
                st.pile(BaseKind::Unit) == piled0.skip(
                    min_int(t as int * n_i, piled0.len() as int),
                ),
                forall|q: int|
                    0 <= q < n_i ==> (#[trigger] st.hand_of(q, BaseKind::Unit)).len()
                        == dealt_rounds(
                        q,
                        n_i,
                        count as int,
                        min_int(t as int * n_i, piled0.len() as int),
                    ),
                forall|q: int, tt: int|
                    0 <= q < n_i && 0 <= tt < st.hand_of(q, BaseKind::Unit).len() ==> (
                    #[trigger] st.hand_of(q, BaseKind::Unit)[tt])@ == (TileView {
                        conn: piled0[tt * n_i + q]@.conn,
                        visible: true,
                    }),
                forall|j: int|
                    0 <= j < st.pile(BaseKind::Unit).len() ==> tile_ok(
                        #[trigger] st.pile(BaseKind::Unit)[j],
                        np,
                    ),
                forall|q: int, j: int|
                    0 <= q < num_players as int && 0 <= j < st.hand_of(
                        q,
                        BaseKind::Unit,
                    ).len() ==> tile_ok(#[trigger] st.hand_of(q, BaseKind::Unit)[j], np),
                forall|q: int| 0 <= q < num_players as int ==> #[trigger] st.alive(q),
                forall|q: int|
                    0 <= q < num_players as int ==> #[trigger] st.hand_of(
                        q,
                        BaseKind::Unit,
                    ).len() <= t as int,
                st.pile(BaseKind::Unit).len() > 0 ==> forall|q: int|
                    0 <= q < num_players as int ==> #[trigger] st.hand_of(
                        q,
                        BaseKind::Unit,
                    ).len() == t as int,
            decreases count - t,
        {
            let mut p: u32 = 0;
            while p < num_players
                invariant
                    st.wf(),
                    st.looker == Looker::Server,
                    st.turn_player == 0,
                    st.winners@.len() == 0,
                    st.board_state == bs0,
                    st.num_players_spec() == num_players as int,
                    st.pile_has_kind(BaseKind::Unit),
                    t < count,
                    count < u32::MAX,
                    p <= num_players,
                    n_i == num_players as int,
                    1 <= n_i,
                    st.pile(BaseKind::Unit) == piled0.skip(
                        min_int(t as int * n_i + p as int, piled0.len() as int),
                    ),
                    forall|q: int|
                        0 <= q < n_i ==> (#[trigger] st.hand_of(q, BaseKind::Unit)).len()
                            == dealt_rounds(
                            q,
                            n_i,
                            count as int,
                            min_int(t as int * n_i + p as int, piled0.len() as int),
                        ),
                    forall|q: int, tt: int|
                        0 <= q < n_i && 0 <= tt < st.hand_of(q, BaseKind::Unit).len() ==> (
                        #[trigger] st.hand_of(q, BaseKind::Unit)[tt])@ == (TileView {
                            conn: piled0[tt * n_i + q]@.conn,
                            visible: true,
                        }),
                    forall|j: int|
                        0 <= j < st.pile(BaseKind::Unit).len() ==> tile_ok(
                            #[trigger] st.pile(BaseKind::Unit)[j],
                            np,
                        ),
                    forall|q: int, j: int|
                        0 <= q < num_players as int && 0 <= j < st.hand_of(
                            q,
                            BaseKind::Unit,
                        ).len() ==> tile_ok(#[trigger] st.hand_of(q, BaseKind::Unit)[j], np),
                    forall|q: int| 0 <= q < num_players as int ==> #[trigger] st.alive(q),
                    forall|q: int|
                        0 <= q < num_players as int ==> #[trigger] st.hand_of(
                            q,
                            BaseKind::Unit,
                        ).len() <= t as int + (if q < p as int {
                            1int
                        } else {
                            0int
                        }),
                    st.pile(BaseKind::Unit).len() > 0 ==> forall|q: int|
                        0 <= q < num_players as int ==> #[trigger] st.hand_of(
                            q,
                            BaseKind::Unit,
                        ).len() == t as int + (if q < p as int {
                            1int
                        } else {
                            0int
                        }),
                decreases num_players - p,
            {
                let ghost before = st;
                let dealt = st.deal_tile(p, &BaseKind::Unit);
                proof {
                    if dealt is Some {
                        assert(st.pile(BaseKind::Unit) == before.pile(
                            BaseKind::Unit,
                        ).drop_first());
                        assert forall|j: int|
                            0 <= j < st.pile(BaseKind::Unit).len() implies tile_ok(
                            #[trigger] st.pile(BaseKind::Unit)[j],
                            np,
                        ) by {
                            assert(st.pile(BaseKind::Unit)[j] == before.pile(BaseKind::Unit)[j
                                + 1]);
                        }
                        assert(st.hand_of(p as int, BaseKind::Unit).last()@.conn == before.pile(
                            BaseKind::Unit,
                        )[0]@.conn);
                        assert(tile_ok(st.hand_of(p as int, BaseKind::Unit).last(), np)) by {
                            assert(st.hand_of(p as int, BaseKind::Unit).last().connections@
                                == before.pile(BaseKind::Unit)[0].connections@);
                        }
                    }
                    assert forall|q: int, j: int|
                        0 <= q < num_players as int && 0 <= j < st.hand_of(
                            q,
                            BaseKind::Unit,
                        ).len() implies tile_ok(#[trigger] st.hand_of(q, BaseKind::Unit)[j], np) by {
                        if q != p as int {
                            assert(st.player_states@[q] == before.player_states@[q]);
                            assert(st.hand_of(q, BaseKind::Unit) == before.hand_of(
                                q,
                                BaseKind::Unit,
                            ));
                        } else {
                            if dealt is Some {
                                if j < before.hand_of(q, BaseKind::Unit).len() {
                                    assert(st.hand_of(q, BaseKind::Unit)[j] == before.hand_of(
                                        q,
                                        BaseKind::Unit,
                                    )[j]);
                                } else {
                                    assert(st.hand_of(q, BaseKind::Unit)[j] == st.hand_of(
                                        q,
                                        BaseKind::Unit,
                                    ).last());
                                }
                            } else {
                                assert(st.player_states@ == before.player_states@);
                                assert(st.hand_of(q, BaseKind::Unit) == before.hand_of(
                                    q,
                                    BaseKind::Unit,
                                ));
                            }
                        }
                    }
                    let w = before.pile_at(BaseKind::Unit);
                    assert(before.pile_has_kind(BaseKind::Unit));
                    assert(before.tiles@[w].0 == BaseKind::Unit);
                    assert(st.tiles@[w].0 == BaseKind::Unit);
                    lemma_pile_at_unique(st, BaseKind::Unit, w);
                    assert forall|q: int|
                        0 <= q < num_players as int implies #[trigger] st.alive(q) by {
                        assert(st.player_states@[q] is Some <==> before.player_states@[q]
                            is Some);
                        assert(before.alive(q));
                    }
                    assert forall|q: int| 0 <= q < num_players as int implies #[trigger] st.hand_of(
                        q,
                        BaseKind::Unit,
                    ).len() <= t as int + (if q < p as int + 1 {
                        1int
                    } else {
                        0int
                    }) by {
                        assert(before.hand_of(q, BaseKind::Unit).len() <= t as int + (if q
                            < p as int {
                            1int
                        } else {
                            0int
                        }));
                        if q != p as int {
                            assert(st.player_states@[q] == before.player_states@[q]);
                            assert(st.hand_of(q, BaseKind::Unit) == before.hand_of(
                                q,
                                BaseKind::Unit,
                            ));
                        } else {
                            if dealt is None {
                                assert(st.player_states@ == before.player_states@);
                                assert(st.hand_of(q, BaseKind::Unit) == before.hand_of(
                                    q,
                                    BaseKind::Unit,
                                ));
                            }
                        }
                    }
                    if st.pile(BaseKind::Unit).len() > 0 {
                        if dealt is None {
                            assert(st.pile(BaseKind::Unit) == before.pile(BaseKind::Unit));
                            assert(false);
                        }
                        assert(before.pile(BaseKind::Unit).len() > 0);
                        assert forall|q: int|
                            0 <= q < num_players as int implies #[trigger] st.hand_of(
                            q,
                            BaseKind::Unit,
                        ).len() == t as int + (if q < p as int + 1 {
                            1int
                        } else {
                            0int
                        }) by {
                            assert(before.hand_of(q, BaseKind::Unit).len() == t as int + (if q
                                < p as int {
                                1int
                            } else {
                                0int
                            }));
                            if q != p as int {
                                assert(st.player_states@[q] == before.player_states@[q]);
                                assert(st.hand_of(q, BaseKind::Unit) == before.hand_of(
                                    q,
                                    BaseKind::Unit,
                                ));
                            }
                        }
                    }
                    // round-robin bookkeeping against the shuffled pile
                    let ti = t as int;
                    let pi2 = p as int;
                    let li = piled0.len() as int;
                    let dealt_old = min_int(ti * n_i + pi2, li);
                    let dealt_new = min_int(ti * n_i + pi2 + 1, li);
                    assert forall|q: int|
                        0 <= q < n_i && q != pi2 implies #[trigger] st.hand_of(
                        q,
                        BaseKind::Unit,
                    ) == before.hand_of(q, BaseKind::Unit) by {
                        assert(st.player_states@[q] == before.player_states@[q]);
                    }
                    if dealt is Some {
                        assert(before.pile(BaseKind::Unit).len() > 0);
                        assert(dealt_old < li);
                        assert(dealt_old == ti * n_i + pi2);
                        assert(dealt_new == dealt_old + 1);
                        assert(piled0.skip(dealt_old).drop_first() =~= piled0.skip(
                            dealt_old + 1,
                        ));
                        assert(st.pile(BaseKind::Unit) == piled0.skip(dealt_new));
                        assert(before.pile(BaseKind::Unit)[0] == piled0[dealt_old]);
                        lemma_dealt_rounds_step_hit(pi2, n_i, count as int, ti);
                        assert(before.hand_of(pi2, BaseKind::Unit).len() == ti);
                        assert(st.hand_of(pi2, BaseKind::Unit).len() == ti + 1);
                        assert(st.hand_of(pi2, BaseKind::Unit).last()@.conn == piled0[
                            dealt_old]@.conn);
                    } else {
                        assert(before.pile(BaseKind::Unit).len() == 0);
                        assert(piled0.skip(dealt_old).len() == 0);
                        assert(dealt_old == li);
                        assert(dealt_new == li);
                        assert(st.player_states@ == before.player_states@);
                        assert(st.pile(BaseKind::Unit) == piled0.skip(dealt_new));
                    }
                    assert forall|q: int|
                        0 <= q < n_i implies (#[trigger] st.hand_of(q, BaseKind::Unit)).len()
                        == dealt_rounds(q, n_i, count as int, dealt_new) by {
                        if dealt is Some {
                            if q == pi2 {
                                lemma_dealt_rounds_step_hit(pi2, n_i, count as int, ti);
                            } else {
                                lemma_dealt_rounds_step_miss(q, n_i, count as int, ti, pi2);
                                assert(st.hand_of(q, BaseKind::Unit) == before.hand_of(
                                    q,
                                    BaseKind::Unit,
                                ));
                            }
                        } else {
                            assert(st.hand_of(q, BaseKind::Unit) == before.hand_of(
                                q,
                                BaseKind::Unit,
                            ));
                        }
                    }
                    assert forall|q: int, tt: int|
                        0 <= q < n_i && 0 <= tt < st.hand_of(q, BaseKind::Unit).len() implies (
                    #[trigger] st.hand_of(q, BaseKind::Unit)[tt])@ == (TileView {
                        conn: piled0[tt * n_i + q]@.conn,
                        visible: true,
                    }) by {
                        if dealt is Some && q == pi2 && tt == ti {
                            assert(st.hand_of(q, BaseKind::Unit)[tt] == st.hand_of(
                                q,
                                BaseKind::Unit,
                            ).last());
                            assert(st.hand_of(q, BaseKind::Unit).last()@.visible == st.looker.sees_player(
                                q as u32,
                            ));
                        } else {
                            if q == pi2 && dealt is Some {
                                assert(tt < before.hand_of(q, BaseKind::Unit).len());
                                assert(st.hand_of(q, BaseKind::Unit)[tt] == before.hand_of(
                                    q,
                                    BaseKind::Unit,
                                )[tt]);
                            } else {
                                assert(st.hand_of(q, BaseKind::Unit) == before.hand_of(
                                    q,
                                    BaseKind::Unit,
                                ));
                            }
                        }
                    }
                }
                p = p + 1;
            }
            proof {
                assert((t as int + 1) * n_i == t as int * n_i + n_i) by (nonlinear_arith);
                assert(min_int((t as int + 1) * n_i, piled0.len() as int) == min_int(
                    t as int * n_i + num_players as int,
                    piled0.len() as int,
                ));
            }
            t = t + 1;
        }
        proof {
            // the actual invisible catalogue witnesses the dealing
            // contract
            let npi = game.board.ports_per_edge as int * 4;
            assert forall|x: int| 0 <= x < inv0.len() implies is_matching(
                (#[trigger] inv0[x]).connections@,
                npi,
            ) && conn_canonical(inv0[x].connections@, 4) && !inv0[x].visible by {
                assert(inv0[x].connections@ == catalog@[x].connections@);
            }
            assert forall|x: int, y: int| 0 <= x < y < inv0.len() implies conn_lex_lt(
                (#[trigger] inv0[x]).connections@,
                (#[trigger] inv0[y]).connections@,
            ) by {
                assert(inv0[x].connections@ == catalog@[x].connections@);
                assert(inv0[y].connections@ == catalog@[y].connections@);
            }
            assert forall|c: Seq<u32>|
                #[trigger] is_matching(c, npi) && conn_canonical(c, 4) implies exists|x: int|
                0 <= x < inv0.len() && (#[trigger] inv0[x]).connections@ == c by {
                let x = choose|x: int|
                    0 <= x < catalog@.len() && (#[trigger] catalog@[x]).connections@ == c;
                assert(inv0[x].connections@ == c);
            }
            assert(is_canonical_catalogue(inv0, npi, 4));
            assert(piled0 == shuffled(seed, inv0));
            assert(st.pile(BaseKind::Unit) == shuffled(seed, inv0).skip(
                min_int(count as int * n_i, piled0.len() as int),
            ));
        }
        st
    }

    /// Place a player token on some port.
    pub fn place_player(&mut self, player: u32, port: &BasePort)
        requires
            old(self).wf(),
            (player as int) < old(self).num_players_spec(),
        ensures
            final(self).wf(),
            final(self).board_state.players@ == old(self).board_state.players@.update(
                player as int,
                Some(*port),
            ),
            final(self).board_state.tiles@ == old(self).board_state.tiles@,
            final(self).board_state.board_width == old(self).board_state.board_width,
            final(self).board_state.board_height == old(self).board_state.board_height,
            final(self).player_states@ == old(self).player_states@,
            final(self).looker == old(self).looker,
            final(self).turn_player == old(self).turn_player,
            final(self).tiles@ == old(self).tiles@,
            final(self).winners@ == old(self).winners@,
    {
        self.board_state.place_player(player, port);
        proof {
            let w = old(self).pile_at(BaseKind::Unit);
            assert(old(self).tiles@[w].0 == BaseKind::Unit);
            assert(self.tiles@[w].0 == BaseKind::Unit);
            lemma_pile_at_unique(*self, BaseKind::Unit, w);
            assert(self.pile(BaseKind::Unit) == old(self).pile(BaseKind::Unit));
        }
    }

    /// Can someone place their token on the board on port `port`?  A
    /// port is placeable exactly when no token occupies it and it is
    /// one of the game's starting ports.
    pub fn can_place_player(&self, game: &PathGame, port: &BasePort) -> (r: bool)
        requires
            self.wf(),
        ensures
            r == (self.board_state.players@.contains(Some(*port)) == false
                && game.start_ports@.contains(*port)),
    {
        let occupied = self.board_state.player_at(port);
        let r = occupied.is_none() && game.is_start_port(port);
        proof {
            if self.board_state.players@.contains(Some(*port)) {
                let j = choose|j: int|
                    0 <= j < self.board_state.players@.len() && self.board_state.players@[j]
                        == Some(*port);
            }
        }
        r
    }

    /// Have the current player take a turn by placing their token on
    /// `port`; the turn then advances to the next player cyclically.
    pub fn take_turn_placing_player(&mut self, _game: &PathGame, port: &BasePort)
        requires
            old(self).wf(),
        ensures
            final(self).wf(),
            final(self).board_state.players@ == old(self).board_state.players@.update(
                old(self).turn_player as int,
                Some(*port),
            ),
            final(self).board_state.tiles@ == old(self).board_state.tiles@,
            final(self).player_states@ == old(self).player_states@,
            final(self).looker == old(self).looker,
            final(self).tiles@ == old(self).tiles@,
            final(self).winners@ == old(self).winners@,
            final(self).turn_player as int == (old(self).turn_player as int + 1) % old(self).num_players_spec(),
    {
        let tp = self.turn_player;
        self.board_state.place_player(tp, port);
        let n = self.player_states.len() as u32;
        let next = if tp + 1 < n {
            tp + 1
        } else {
            0
        };
        proof {
            if tp + 1 < n {
                vstd::arithmetic::div_mod::lemma_small_mod((tp + 1) as nat, n as nat);
            } else {
                vstd::arithmetic::div_mod::lemma_mod_self_0(n as int);
            }
        }
        self.turn_player = next;
        proof {
            let w = old(self).pile_at(BaseKind::Unit);
            assert(old(self).tiles@[w].0 == BaseKind::Unit);
            assert(self.tiles@[w].0 == BaseKind::Unit);
            lemma_pile_at_unique(*self, BaseKind::Unit, w);
            assert(self.pile(BaseKind::Unit) == old(self).pile(BaseKind::Unit));
        }
    }

    /// Whether the placement `can_place_tile` asks about is legal.
    pub open spec fn can_place_tile_spec(
        self,
        game: PathGame,
        player: u32,
        kind: BaseKind,
        index: u32,
        loc: Pt2u,
    ) -> bool {
        &&& self.alive(player as int)
        &&& self.player_states@[player as int].unwrap().has_kind(kind)
        &&& (index as int) < self.hand_of(player as int, kind).len()
        &&& self.board_state.players@[player as int] matches Some(p)
            && game.board.port_locs_spec(p).contains(loc)
        &&& self.board_state.tile_at_spec(loc) is None
        &&& kind == BaseKind::Unit
    }

    /// Can `player` place a tile of kind `kind` from index `index` in
    /// their hand, transformed by a group action, at location `loc`?
    pub fn can_place_tile(
        &self,
        game: &PathGame,
        player: u32,
        kind: &BaseKind,
        index: u32,
        _action: &CycleGAct,
        loc: &Pt2u,
    ) -> (r: bool)
        requires
            self.wf(),
            game.wf(),
            self.board_state.matches_board(game.board),
            (player as int) < self.num_players_spec(),
        ensures
            r == self.can_place_tile_spec(*game, player, *kind, index, *loc),
    {
        match &self.player_states[player as usize] {
            None => false,
            Some(ps) => {
                let kind_ok = match kind {
                    BaseKind::Unit => true,
                };
                if !kind_ok {
                    return false;
                }
                let hand_ok = index < ps.num_tiles_by_kind(kind);
                if !hand_ok {
                    return false;
                }
                match self.board_state.player_port(player) {
                    None => false,
                    Some(port) => {
                        let locs = game.board().port_locs(&port);
                        let mut borders = false;
                        let mut j: usize = 0;
                        while j < locs.len()
                            invariant
                                j <= locs@.len(),
                                borders == exists|q: int|
                                    0 <= q < j as int && locs@[q] == *loc,
                            decreases locs@.len() - j,
                        {
                            if locs[j] == *loc {
                                borders = true;
                                proof {
                                    assert(locs@[j as int] == *loc);
                                }
                            }
                            j = j + 1;
                        }
                        proof {
                            if game.board.port_locs_spec(port).contains(*loc) {
                                let q = choose|q: int|
                                    0 <= q < locs@.len() && locs@[q] == *loc;
                            }
                        }
                        borders && self.board_state.tile_at(loc).is_none()
                    },
                }
            },
        }
    }
}

/// The first living player at cyclic offsets `step ..= n` after
/// `turn`; `None` when nobody is left alive.
pub open spec fn next_alive(states: Seq<Option<PlayerState>>, turn: int, step: int) -> Option<u32>
    decreases states.len() + 1 - step,
{
    if step > states.len() || states.len() == 0 {
        None
    } else {
        let cand = (turn + step) % (states.len() as int);
        if states[cand] is Some {
            Some(cand as u32)
        } else {
            next_alive(states, turn, step + 1)
        }
    }
}

/// The living players among `0 .. n`, in increasing index order.
pub open spec fn alive_list(states: Seq<Option<PlayerState>>, n: int) -> Seq<u32>
    decreases n,
{
    if n <= 0 {
        Seq::empty()
    } else {
        let rest = alive_list(states, n - 1);
        if states[n - 1] is Some {
            rest.push((n - 1) as u32)
        } else {
            rest
        }
    }
}

impl GameState {
    /// Place a tile on an empty location of the board.
    pub fn place_tile(&mut self, tile: RegularTile<4>, loc: &Pt2u)
        requires
            old(self).wf(),
            old(self).board_state.tile_at_spec(*loc) is None,
            loc.x < old(self).board_state.board_width,
            loc.y < old(self).board_state.board_height,
        ensures
            final(self).wf(),
            final(self).board_state.tiles@ == old(self).board_state.tiles@.update(
                loc.y as int * old(self).board_state.board_width as int + loc.x as int,
                Some(tile),
            ),
            final(self).board_state.players@ == old(self).board_state.players@,
            final(self).board_state.board_width == old(self).board_state.board_width,
            final(self).board_state.board_height == old(self).board_state.board_height,
            final(self).player_states@ == old(self).player_states@,
            final(self).looker == old(self).looker,
            final(self).turn_player == old(self).turn_player,
            final(self).tiles@ == old(self).tiles@,
            final(self).winners@ == old(self).winners@,
    {
        self.board_state.place_tile(tile, loc);
        proof {
            assert(self.tiles@[0].0 == BaseKind::Unit);
            lemma_pile_at_unique(*self, BaseKind::Unit, 0);
            assert(self.pile(BaseKind::Unit) == old(self).pile(BaseKind::Unit));
        }
    }

    /// Have `player` place the tile at `index` of their hand of
    /// `kind`, made visible and transformed by `action`, at `loc`.
    /// Returns the tile placed.
    pub fn player_place_tile(
        &mut self,
        player: u32,
        kind: &BaseKind,
        index: u32,
        action: &CycleGAct,
        loc: &Pt2u,
    ) -> (r: RegularTile<4>)
        requires
            old(self).wf(),
            old(self).alive(player as int),
            (player as int) < old(self).num_players_spec(),
            (index as int) < old(self).hand_of(player as int, *kind).len(),
            *kind == BaseKind::Unit,
            old(self).hand_of(player as int, *kind)[index as int].wf(),
            old(self).board_state.tile_at_spec(*loc) is None,
            loc.x < old(self).board_state.board_width,
            loc.y < old(self).board_state.board_height,
        ensures
            final(self).wf(),
            r.wf(),
            r@ == (TileView {
                conn: rotate_conn(
                    old(self).hand_of(player as int, *kind)[index as int].connections@,
                    old(self).hand_of(player as int, *kind)[index as int].rotate_offset(
                        action.rotation as int,
                    ),
                ),
                visible: true,
            }),
            final(self).board_state.tiles@.len() == old(self).board_state.tiles@.len(),
            final(self).board_state.tiles@ == old(self).board_state.tiles@.update(
                loc.y as int * old(self).board_state.board_width as int + loc.x as int,
                final(self).board_state.tiles@[loc.y as int * old(self).board_state.board_width as int + loc.x as int],
            ),
            final(self).board_state.tile_at_spec(*loc) matches Some(bt) && bt@ == r@,
            final(self).board_state.players@ == old(self).board_state.players@,
            final(self).board_state.board_width == old(self).board_state.board_width,
            final(self).board_state.board_height == old(self).board_state.board_height,
            final(self).looker == old(self).looker,
            final(self).turn_player == old(self).turn_player,
            final(self).tiles@ == old(self).tiles@,
            final(self).winners@ == old(self).winners@,
            final(self).player_states@.len() == old(self).player_states@.len(),
            forall|q: int|
                0 <= q < old(self).num_players_spec() && q != player as int ==> (#[trigger] final(self).player_states@[q]) == old(self).player_states@[q],
            final(self).alive(player as int),
            final(self).hand_of(player as int, *kind) == old(self).hand_of(
                player as int,
                *kind,
            ).remove(index as int),
    {
        let ghost g = *old(self);
        let mut entry = self.player_states.remove(player as usize);
        let held = match &mut entry {
            Some(ps) => ps.remove_tile(kind, index),
            None => unreached(),
        };
        self.player_states.insert(player as usize, entry);
        proof {
            assert(self.player_states@ =~= g.player_states@.update(
                player as int,
                self.player_states@[player as int],
            ));
        }
        let placed = held.with_visible(true).apply_action(action);
        self.place_tile(placed.duplicate(), loc);
        proof {
            assert(self.tiles@[0].0 == BaseKind::Unit);
            lemma_pile_at_unique(*self, BaseKind::Unit, 0);
            let w = old(self).board_state.board_width as int;
            let h = old(self).board_state.board_height as int;
            let lidx = loc.y as int * old(self).board_state.board_width as int + loc.x as int;
            assert(0 <= lidx < w * h) by (nonlinear_arith)
                requires
                    (loc.y as int) < h,
                    (loc.x as int) < w,
                    w >= 1,
                    lidx == (loc.y as int) * w + loc.x as int,
            ;
            assert(self.board_state.tiles@[lidx] is Some);
            assert(self.board_state.tiles@ =~= old(self).board_state.tiles@.update(
                lidx,
                self.board_state.tiles@[lidx],
            ));
            assert(self.board_state.tile_at_spec(*loc) == self.board_state.tiles@[lidx]);
            assert(self.board_state.tiles@[lidx].unwrap()@ =~= placed@);
        }
        placed
    }

    /// Move players that touch the newly placed tile at `loc` along
    /// their paths; returns the newly dead players in increasing
    /// player order.
    pub fn advance_players(&mut self, board: &RectangleBoard, loc: &Pt2u) -> (dead: Vec<u32>)
        requires
            old(self).wf(),
            old(self).board_state.matches_board(*board),
            board.loc_in_bounds(*loc),
        ensures
            final(self).wf(),
            final(self).board_state.tiles@ == old(self).board_state.tiles@,
            final(self).board_state.board_width == old(self).board_state.board_width,
            final(self).board_state.board_height == old(self).board_state.board_height,
            final(self).board_state.players@.len() == old(self).board_state.players@.len(),
            forall|i: int|
                0 <= i < old(self).board_state.players@.len() ==> final(self).board_state.players@[i] == advanced_port_of(
                    old(self).board_state.tiles@,
                    old(self).board_state.players@,
                    *board,
                    *loc,
                    i,
                ),
            dead@ == dead_list(
                old(self).board_state.tiles@,
                old(self).board_state.players@,
                *board,
                *loc,
                old(self).board_state.players@.len() as int,
            ),
            final(self).player_states@ == old(self).player_states@,
            final(self).looker == old(self).looker,
            final(self).turn_player == old(self).turn_player,
            final(self).tiles@ == old(self).tiles@,
            final(self).winners@ == old(self).winners@,
    {
        let dead = self.board_state.advance_players(board, loc);
        proof {
            assert(self.tiles@[0].0 == BaseKind::Unit);
            lemma_pile_at_unique(*self, BaseKind::Unit, 0);
            assert(self.pile(BaseKind::Unit) == old(self).pile(BaseKind::Unit));
        }
        dead
    }
}

/// The smaller of two integers.
pub open spec fn min_int(a: int, b: int) -> int {
    if a <= b {
        a
    } else {
        b
    }
}

/// Distinct (round, player) slots get distinct round-robin deal
/// indices.
proof fn lemma_slot_index(t1: int, q1: int, t2: int, q2: int, n: int)
    requires
        1 <= n,
        0 <= q1 < n,
        0 <= q2 < n,
        0 <= t1,
        0 <= t2,
        t1 * n + q1 == t2 * n + q2,
    ensures
        t1 == t2 && q1 == q2,
{
    vstd::arithmetic::div_mod::lemma_fundamental_div_mod_converse(t1 * n + q1, n, t1, q1);
    vstd::arithmetic::div_mod::lemma_fundamental_div_mod_converse(t2 * n + q2, n, t2, q2);
}

/// How many of the first `cnt` round-robin rounds deal a tile to
/// player slot `q` of `n` before the supply of `dealt` tiles runs
/// out.
pub open spec fn dealt_rounds(q: int, n: int, cnt: int, dealt: int) -> int {
    if dealt <= q {
        0
    } else {
        min_int(cnt, (dealt - q - 1) / n + 1)
    }
}

/// Dealing the tile of slot `(ti, q)` raises `q`'s round count from
/// `ti` to `ti + 1`.
proof fn lemma_dealt_rounds_step_hit(q: int, n: int, cnt: int, ti: int)
    requires
        1 <= n,
        0 <= q < n,
        0 <= ti < cnt,
    ensures
        dealt_rounds(q, n, cnt, ti * n + q) == ti,
        dealt_rounds(q, n, cnt, ti * n + q + 1) == ti + 1,
{
    if ti == 0 {
        assert(0 * n + q == q) by (nonlinear_arith);
        assert((q + 1 - q - 1) / n == 0) by {
            vstd::arithmetic::div_mod::lemma_basic_div_specific_divisor(n);
        }
    } else {
        assert(ti * n + q > q && ti * n + q - q - 1 == (ti - 1) * n + (n - 1) && ti * n + q + 1
            - q - 1 == ti * n) by (nonlinear_arith)
            requires
                1 <= n,
                1 <= ti,
        ;
        vstd::arithmetic::div_mod::lemma_fundamental_div_mod_converse(
            (ti - 1) * n + (n - 1),
            n,
            ti - 1,
            n - 1,
        );
        vstd::arithmetic::div_mod::lemma_fundamental_div_mod_converse(ti * n, n, ti, 0);
    }
}

/// Dealing the tile of another slot leaves `q`'s round count
/// unchanged.
proof fn lemma_dealt_rounds_step_miss(q: int, n: int, cnt: int, ti: int, p: int)
    requires
        1 <= n,
        0 <= q < n,
        0 <= p < n,
        q != p,
        0 <= ti,
        0 <= cnt,
    ensures
        dealt_rounds(q, n, cnt, ti * n + p) == dealt_rounds(q, n, cnt, ti * n + p + 1),
{
    let dealt = ti * n + p;
    assert(0 <= dealt) by (nonlinear_arith)
        requires
            dealt == ti * n + p,
            0 <= ti,
            0 <= p,
            1 <= n,
    ;
    if dealt < q {
    } else if dealt == q {
        lemma_slot_index(ti, p, 0, q, n);
        assert(false);
    } else {
        let a = dealt - q;
        if p > q {
            vstd::arithmetic::div_mod::lemma_fundamental_div_mod_converse(a, n, ti, p - q);
        } else {
            if ti == 0 {
                assert(a == p - q && a >= 1) by (nonlinear_arith)
                    requires
                        a == 0 * n + p - q,
                        dealt > q,
                        a == dealt - q,
                        dealt == 0 * n + p,
                ;
                assert(false);
            }
            assert(a == (ti - 1) * n + (n + p - q)) by (nonlinear_arith)
                requires
                    a == ti * n + p - q,
                    1 <= n,
            ;
            vstd::arithmetic::div_mod::lemma_fundamental_div_mod_converse(
                a,
                n,
                ti - 1,
                n + p - q,
            );
        }
        assert(a % n != 0 && a >= 1);
        vstd::arithmetic::div_mod::lemma_fundamental_div_mod(a, n);
        vstd::arithmetic::div_mod::lemma_fundamental_div_mod_converse(
            a - 1,
            n,
            a / n,
            a % n - 1,
        );
        assert((a - 1) / n == a / n);
    }
}

/// A game tile: a well-formed matching over the board's port count.
pub open spec fn tile_ok(t: RegularTile<4>, np: int) -> bool {
    &&& t.wf()
    &&& t.connections@.len() == np
}

/// Mapping tile views commutes with appending one tile.
proof fn lemma_map_views_push(s: Seq<RegularTile<4>>, t: RegularTile<4>)
    ensures
        s.push(t).map_values(|x: RegularTile<4>| x@) =~= s.map_values(
            |x: RegularTile<4>| x@,
        ).push(t@),
{
}

/// The same tile views with every visibility flag forced off.
pub open spec fn invis_views(s: Seq<TileView>) -> Seq<TileView> {
    s.map_values(|tv: TileView| TileView { conn: tv.conn, visible: false })
}

/// The hand views of the listed players, in list order, skipping
/// players that are out of range or already eliminated.
pub open spec fn drained_hand_views(states: Seq<Option<PlayerState>>, ds: Seq<u32>) -> Seq<
    TileView,
>
    decreases ds.len(),
{
    if ds.len() == 0 {
        Seq::empty()
    } else {
        let h = if 0 <= ds[0] < states.len() && states[ds[0] as int] is Some {
            states[ds[0] as int].unwrap().tiles@[0].1.deep_view()
        } else {
            Seq::empty()
        };
        h + drained_hand_views(states, ds.drop_first())
    }
}

/// Draining one more listed player appends that player's hand views.
proof fn lemma_drained_take_step(states: Seq<Option<PlayerState>>, ds: Seq<u32>, k: int)
    requires
        0 <= k < ds.len(),
    ensures
        drained_hand_views(states, ds.take(k + 1)) == drained_hand_views(states, ds.take(k)) + (
        if 0 <= ds[k] < states.len() && states[ds[k] as int] is Some {
            states[ds[k] as int].unwrap().tiles@[0].1.deep_view()
        } else {
            Seq::empty()
        }),
    decreases k,
{
    if k == 0 {
        assert(ds.take(1).drop_first() =~= Seq::empty());
        assert(ds.take(0) =~= Seq::<u32>::empty());
        assert(drained_hand_views(states, ds.take(1)) =~= drained_hand_views(states, ds.take(0))
            + (if 0 <= ds[0] < states.len() && states[ds[0] as int] is Some {
            states[ds[0] as int].unwrap().tiles@[0].1.deep_view()
        } else {
            Seq::empty()
        }));
    } else {
        lemma_drained_take_step(states, ds.drop_first(), k - 1);
        assert(ds.take(k + 1).drop_first() =~= ds.drop_first().take(k));
        assert(ds.take(k).drop_first() =~= ds.drop_first().take(k - 1));
        assert(ds.take(k + 1)[0] == ds[0]);
        assert(ds.take(k)[0] == ds[0]);
        assert(ds.drop_first()[k - 1] == ds[k]);
        assert(drained_hand_views(states, ds.take(k + 1)) =~= drained_hand_views(
            states,
            ds.take(k),
        ) + (if 0 <= ds[k] < states.len() && states[ds[k] as int] is Some {
            states[ds[k] as int].unwrap().tiles@[0].1.deep_view()
        } else {
            Seq::empty()
        }));
    }
}

impl GameState {
    /// The tile views of the draw pile of `kind`, front first.
    pub open spec fn pile_tile_views(self, kind: BaseKind) -> Seq<TileView> {
        self.pile(kind).map_values(|t: RegularTile<4>| t@)
    }

    /// Removes all tiles from newly dead players, returns them to the
    /// bottom of the matching draw pile face down, and marks the
    /// players permanently absent.
    pub fn handle_dead_players(&mut self, _game: &PathGame, players: &Vec<u32>)
        requires
            old(self).wf(),
            forall|k: int| 0 <= k < players@.len() ==> (#[trigger] players@[k]) < old(
                self,
            ).num_players_spec(),
            players@.no_duplicates(),
        ensures
            final(self).wf(),
            final(self).board_state == old(self).board_state,
            final(self).looker == old(self).looker,
            final(self).turn_player == old(self).turn_player,
            final(self).winners@ == old(self).winners@,
            final(self).player_states@.len() == old(self).player_states@.len(),
            forall|q: int|
                0 <= q < old(self).num_players_spec() ==> (#[trigger] final(self).player_states@[q]) == (if players@.contains(q as u32) {
                    None
                } else {
                    old(self).player_states@[q]
                }),
            final(self).pile_tile_views(BaseKind::Unit) == old(self).pile_tile_views(
                BaseKind::Unit,
            ) + invis_views(drained_hand_views(old(self).player_states@, players@)),
            players@.len() == 0 ==> final(self).tiles@ == old(self).tiles@,
    {
        let ghost g = *old(self);
        let mut drained: Vec<RegularTile<4>> = Vec::new();
        let mut k: usize = 0;
        while k < players.len()
            invariant
                g.wf(),
                forall|q: int| 0 <= q < players@.len() ==> (#[trigger] players@[q])
                    < g.num_players_spec(),
                players@.no_duplicates(),
                k <= players@.len(),
                self.board_state == g.board_state,
                self.looker == g.looker,
                self.turn_player == g.turn_player,
                self.winners@ == g.winners@,
                self.tiles@ == g.tiles@,
                self.player_states@.len() == g.player_states@.len(),
                forall|q: int|
                    0 <= q < g.num_players_spec() ==> (#[trigger] self.player_states@[q]) == (
                    if players@.take(k as int).contains(q as u32) {
                        None
                    } else {
                        g.player_states@[q]
                    }),
                drained.deep_view() == drained_hand_views(g.player_states@, players@.take(
                    k as int,
                )),
            decreases players@.len() - k,
        {
            let d = players[k];
            let ghost pre = self.player_states@;
            let ghost pre_drained = drained.deep_view();
            let mut entry = self.player_states.remove(d as usize);
            let got = match &mut entry {
                Some(ps) => {
                    let mut hand = ps.remove_all_tiles();
                    drained.append(&mut hand);
                    true
                },
                None => false,
            };
            self.player_states.insert(d as usize, None);
            proof {
                assert(self.player_states@ =~= pre.update(d as int, None));
                lemma_drained_take_step(g.player_states@, players@, k as int);
                assert(players@.take(k as int + 1) =~= players@.take(k as int).push(d));
                assert forall|q: int|
                    0 <= q < g.num_players_spec() implies (#[trigger] self.player_states@[q]) == (
                if players@.take(k as int + 1).contains(q as u32) {
                    None
                } else {
                    g.player_states@[q]
                }) by {
                    if players@.take(k as int + 1).contains(q as u32) {
                        if q != d as int {
                            let w = choose|w: int|
                                0 <= w < players@.take(k as int + 1).len() && (#[trigger] players@.take(
                                    k as int + 1,
                                )[w]) == q as u32;
                            assert(players@.take(k as int)[w] == q as u32);
                        }
                    } else {
                        assert(!players@.take(k as int).contains(q as u32));
                        assert(q != d as int) by {
                            assert(players@.take(k as int + 1)[k as int] == d);
                        }
                    }
                }
                if got {
                    assert(pre[d as int] is Some);
                    assert(!players@.take(k as int).contains(d));
                    assert(pre[d as int] == g.player_states@[d as int]);
                    let psv = g.player_states@[d as int].unwrap();
                    assert(psv.tiles@.len() == 1);
                    assert(psv.tiles@.drop_first() =~= Seq::<(
                        BaseKind,
                        Vec<RegularTile<4>>,
                    )>::empty());
                    assert(flat_hand_views(psv.tiles@.drop_first()) =~= Seq::<TileView>::empty());
                    assert(flat_hand_views(psv.tiles@) =~= psv.tiles@[0].1.deep_view());
                    assert(drained.deep_view() =~= pre_drained + flat_hand_views(psv.tiles@));
                    assert(drained.deep_view() =~= drained_hand_views(
                        g.player_states@,
                        players@.take(k as int + 1),
                    ));
                } else {
                    assert(drained.deep_view() =~= drained_hand_views(
                        g.player_states@,
                        players@.take(k as int + 1),
                    ));
                }
            }
            k = k + 1;
        }
        proof {
            assert(players@.take(players@.len() as int) =~= players@);
        }
        // return the drained tiles to the bottom of the pile, face down
        let ghost pile0_views = self.pile_tile_views(BaseKind::Unit);
        let mut entry = self.tiles.remove(0);
        let dlen = drained.len();
        let ghost drained0 = drained.deep_view();
        let ghost entry0 = entry;
        proof {
            assert(drained0.len() == dlen as int);
        }
        let mut pushed: usize = 0;
        while drained.len() > 0
            invariant
                drained0.len() <= usize::MAX,
                drained0.len() == 0 ==> entry == entry0,
                pushed as int + drained@.len() == drained0.len(),
                drained.deep_view() =~= drained0.skip(pushed as int),
                entry.1@.map_values(|t: RegularTile<4>| t@) =~= pile0_views + invis_views(
                    drained0.take(pushed as int),
                ),
                entry.0 == BaseKind::Unit,
            decreases drained@.len(),
        {
            proof {
                assert(drained.deep_view()[0] == drained0[pushed as int]);
                assert(drained.deep_view()[0] == drained@[0]@);
            }
            let ghost pre_rem = drained@;
            let mut t = drained.remove(0);
            t.set_visible(false);
            let ghost prev = entry.1@;
            entry.1.push_back(t);
            proof {
                let ghost tv = drained0[pushed as int];
                assert(t@.conn == tv.conn);
                assert(t@.visible == false);
                assert(entry.1@ =~= prev.push(t));
                lemma_map_views_push(prev, t);
                assert(drained0.take(pushed as int + 1) =~= drained0.take(pushed as int).push(
                    tv,
                ));
                assert(invis_views(drained0.take(pushed as int + 1)) =~= invis_views(
                    drained0.take(pushed as int),
                ).push(TileView { conn: tv.conn, visible: false }));
                assert(entry.1@.map_values(|x: RegularTile<4>| x@) =~= pile0_views + invis_views(
                    drained0.take(pushed as int + 1),
                ));
                pre_rem.remove_ensures(0);
                assert forall|i: int|
                    0 <= i < drained@.len() implies drained.deep_view()[i] == drained0.skip(
                    pushed as int + 1,
                )[i] by {
                    assert(drained@[i] == pre_rem[i + 1]);
                    assert(drained.deep_view()[i] == drained@[i]@);
                    assert(pre_rem[i + 1]@ == drained0.skip(pushed as int)[i + 1]);
                }
                assert(drained.deep_view() =~= drained0.skip(pushed as int + 1));
            }
            pushed = pushed + 1;
        }
        self.tiles.insert(0, entry);
        proof {
            if players@.len() == 0 {
                assert(drained0.len() == 0);
                assert(entry == entry0);
                assert(self.tiles@ =~= g.tiles@);
            }
            assert(drained0.take(drained0.len() as int) =~= drained0);
            assert(self.tiles@.len() == 1);
            assert(self.tiles@[0].0 == BaseKind::Unit);
            lemma_pile_at_unique(*self, BaseKind::Unit, 0);
            lemma_pile_at_unique(g, BaseKind::Unit, 0);
            assert(self.pile_tile_views(BaseKind::Unit) =~= pile0_views + invis_views(drained0));
        }
    }
}

/// Elements of a dead list are in range, strictly increasing, and
/// appear exactly for the participants whose walk ran off the board.
proof fn lemma_dead_list_props(
    tiles: Seq<Option<RegularTile<4>>>,
    players: Seq<Option<BasePort>>,
    board: RectangleBoard,
    loc: Pt2u,
    n: int,
)
    requires
        n <= players.len(),
        n <= u32::MAX,
    ensures
        forall|k: int| 0 <= k < dead_list(tiles, players, board, loc, n).len() ==> (
        #[trigger] dead_list(tiles, players, board, loc, n)[k]) < n,
        forall|a: int, b: int|
            0 <= a < b < dead_list(tiles, players, board, loc, n).len() ==> dead_list(
                tiles,
                players,
                board,
                loc,
                n,
            )[a] < dead_list(tiles, players, board, loc, n)[b],
        dead_list(tiles, players, board, loc, n).no_duplicates(),
        forall|q: u32|
            #[trigger] dead_list(tiles, players, board, loc, n).contains(q) <==> (0 <= q < n
                && participates_in(players, board, loc, q as int) && walk_from(
                tiles,
                board,
                players[q as int].unwrap(),
                loc,
                walk_fuel(board),
            ).1),
    decreases n,
{
    if n > 0 {
        lemma_dead_list_props(tiles, players, board, loc, n - 1);
        let rest = dead_list(tiles, players, board, loc, n - 1);
        let cur = dead_list(tiles, players, board, loc, n);
        let cond = participates_in(players, board, loc, n - 1) && walk_from(
            tiles,
            board,
            players[n - 1].unwrap(),
            loc,
            walk_fuel(board),
        ).1;
        if cond {
            assert(cur == rest.push((n - 1) as u32));
            assert forall|k: int| 0 <= k < cur.len() implies (#[trigger] cur[k]) < n by {
                if k < rest.len() {
                    assert(cur[k] == rest[k]);
                } else {
                    assert(cur[k] == (n - 1) as u32);
                }
            }
            assert forall|a: int, b: int| 0 <= a < b < cur.len() implies cur[a] < cur[b] by {
                if b < rest.len() {
                    assert(cur[a] == rest[a] && cur[b] == rest[b]);
                } else {
                    assert(cur[a] == rest[a]);
                    assert(rest[a] < n - 1);
                    assert(cur[b] == (n - 1) as u32);
                }
            }
            assert forall|a: int, b: int| 0 <= a < b < cur.len() implies cur[a] != cur[b] by {
                assert(cur[a] < cur[b]);
            }
            assert forall|q: u32| #[trigger] cur.contains(q) implies (0 <= q < n
                && participates_in(players, board, loc, q as int) && walk_from(
                tiles,
                board,
                players[q as int].unwrap(),
                loc,
                walk_fuel(board),
            ).1) by {
                let k = choose|k: int| 0 <= k < cur.len() && cur[k] == q;
                if k < rest.len() {
                    assert(rest[k] == q);
                    assert(rest.contains(q));
                } else {
                    assert(q == (n - 1) as u32);
                }
            }
            assert forall|q: u32|
                (0 <= q < n && participates_in(players, board, loc, q as int) && walk_from(
                    tiles,
                    board,
                    players[q as int].unwrap(),
                    loc,
                    walk_fuel(board),
                ).1) implies #[trigger] cur.contains(q) by {
                if (q as int) < n - 1 {
                    assert(rest.contains(q));
                    let k = choose|k: int| 0 <= k < rest.len() && rest[k] == q;
                    assert(cur[k] == q);
                } else {
                    assert(q == (n - 1) as u32);
                    assert(cur[cur.len() - 1] == q);
                }
            }
        } else {
            assert(cur == rest);
            assert forall|q: u32| #[trigger] cur.contains(q) implies (0 <= q < n
                && participates_in(players, board, loc, q as int) && walk_from(
                tiles,
                board,
                players[q as int].unwrap(),
                loc,
                walk_fuel(board),
            ).1) by {
                assert(rest.contains(q));
            }
            assert forall|q: u32|
                (0 <= q < n && participates_in(players, board, loc, q as int) && walk_from(
                    tiles,
                    board,
                    players[q as int].unwrap(),
                    loc,
                    walk_fuel(board),
                ).1) implies #[trigger] cur.contains(q) by {
                assert((q as int) != n - 1);
                assert(rest.contains(q));
            }
        }
    }
}

impl GameState {
    /// Give remaining tiles to living players so that everyone ends as
    /// close to the configured hand size as possible: for each
    /// deficiency tier in turn, offer the next pile tile to each
    /// living player short of that tier, in turn order starting just
    /// after the current player, until the pile runs dry.  Returns the
    /// tiles added as (player, hand index, tile).
    fn redistribute_tiles(&mut self, game: &PathGame) -> (drawn: Vec<(u32, u32, RegularTile<
        4,
    >)>)
        requires
            old(self).wf(),
            game.wf(),
            game.count_for(BaseKind::Unit).unwrap() < u32::MAX,
        ensures
            final(self).wf(),
            final(self).board_state == old(self).board_state,
            final(self).looker == old(self).looker,
            final(self).turn_player == old(self).turn_player,
            final(self).winners@ == old(self).winners@,
            final(self).player_states@.len() == old(self).player_states@.len(),
            forall|q: int|
                0 <= q < old(self).num_players_spec() ==> ((#[trigger] final(self).player_states@[q]) is Some <==> old(self).player_states@[q] is Some),
            forall|q: int|
                0 <= q < old(self).num_players_spec() && old(self).alive(q) ==> {
                    &&& final(self).hand_of(q, BaseKind::Unit).len() >= old(self).hand_of(
                        q,
                        BaseKind::Unit,
                    ).len()
                    &&& forall|j: int|
                        0 <= j < old(self).hand_of(q, BaseKind::Unit).len() ==> (#[trigger] final(self).hand_of(q, BaseKind::Unit)[j]) == old(self).hand_of(
                            q,
                            BaseKind::Unit,
                        )[j]
                },
            final(self).pile(BaseKind::Unit).len() <= old(self).pile(BaseKind::Unit).len(),
            final(self).pile(BaseKind::Unit) == old(self).pile(BaseKind::Unit).skip(
                old(self).pile(BaseKind::Unit).len() - final(self).pile(BaseKind::Unit).len(),
            ),
            old(self).pile(BaseKind::Unit).len() - final(self).pile(BaseKind::Unit).len()
                == drawn@.len(),
            forall|k: int|
                0 <= k < drawn@.len() ==> {
                    &&& ((#[trigger] drawn@[k]).0 as int) < old(self).num_players_spec()
                    &&& old(self).alive(drawn@[k].0 as int)
                    &&& drawn@[k].2@.conn == old(self).pile(BaseKind::Unit)[k]@.conn
                },
            (drawn@.len() == 0 && final(self).pile(BaseKind::Unit).len() > 0) ==> forall|q: int|
                0 <= q < old(self).num_players_spec() && old(self).alive(q) ==> (
                #[trigger] final(self).hand_of(q, BaseKind::Unit)).len() >= game.count_for(
                    BaseKind::Unit,
                ).unwrap() as int,
    {
        let ghost g = *old(self);
        let count = game.num_tiles_per_player(&BaseKind::Unit);
        let tp = self.turn_player;
        let n = self.player_states.len() as u32;
        let mut order: Vec<u32> = Vec::new();
        let mut i: u32 = 0;
        while i < count
            invariant
                *self == g,
                g.wf(),
                Some(count) == game.count_for(BaseKind::Unit),
                count < u32::MAX,
                n as int == g.num_players_spec(),
                (tp as int) < (n as int),
                i <= count,
                forall|k: int|
                    0 <= k < order@.len() ==> ((#[trigger] order@[k]) as int)
                        < g.num_players_spec() && g.alive(order@[k] as int) && g.hand_of(
                        order@[k] as int,
                        BaseKind::Unit,
                    ).len() < count as int,
                order@.len() == 0 ==> forall|q: int|
                    0 <= q < n as int && g.alive(q) ==> (#[trigger] g.hand_of(
                        q,
                        BaseKind::Unit,
                    )).len() >= i as int,
            decreases count - i,
        {
            let mut j: u32 = 0;
            while j < n
                invariant
                    *self == g,
                    g.wf(),
                    Some(count) == game.count_for(BaseKind::Unit),
                    count < u32::MAX,
                    i < count,
                    n as int == g.num_players_spec(),
                    j <= n,
                    (tp as int) < (n as int),
                    forall|k: int|
                        0 <= k < order@.len() ==> ((#[trigger] order@[k]) as int)
                            < g.num_players_spec() && g.alive(order@[k] as int) && g.hand_of(
                            order@[k] as int,
                            BaseKind::Unit,
                        ).len() < count as int,
                    order@.len() == 0 ==> forall|q: int|
                        0 <= q < n as int && g.alive(q) ==> (#[trigger] g.hand_of(
                            q,
                            BaseKind::Unit,
                        )).len() >= i as int,
                    order@.len() == 0 ==> forall|q: int|
                        0 <= q < n as int && g.alive(q) && (q + n as int - tp as int - 1) % (
                        n as int) < j as int ==> (#[trigger] g.hand_of(
                            q,
                            BaseKind::Unit,
                        )).len() >= i as int + 1,
                decreases n - j,
            {
                let player: u32 = (((j as u64) + (tp as u64) + 1) % (n as u64)) as u32;
                proof {
                    vstd::arithmetic::div_mod::lemma_mod_bound(
                        j as int + tp as int + 1,
                        n as int,
                    );
                }
                let ghost old_order = order@;
                match &self.player_states[player as usize] {
                    Some(ps) => {
                        if ps.num_tiles_by_kind(&BaseKind::Unit) <= i {
                            order.push(player);
                        }
                    },
                    None => {
                    },
                }
                proof {
                    if order@.len() == 0 {
                        let ni = n as int;
                        let tpi = tp as int;
                        let ji = j as int;
                        // the player scanned at step j sits at scan index j
                        assert((player as int + ni - tpi - 1) % ni == ji) by {
                            lemma_add_mod_noop(ji + tpi + 1, ni - tpi - 1, ni);
                            lemma_small_mod((ni - tpi - 1) as nat, ni as nat);
                            lemma_mod_add_multiples_vanish(ji, ni);
                            lemma_small_mod(ji as nat, ni as nat);
                        }
                        assert forall|q: int|
                            0 <= q < ni && g.alive(q) && (q + ni - tpi - 1) % ni < ji + 1
                                implies (#[trigger] g.hand_of(q, BaseKind::Unit)).len()
                            >= i as int + 1 by {
                            if (q + ni - tpi - 1) % ni == ji {
                                // only the scanned player has scan index j
                                lemma_mod_equivalence(
                                    q + ni - tpi - 1,
                                    player as int + ni - tpi - 1,
                                    ni,
                                );
                                assert((q - player as int) % ni == 0) by {
                                    lemma_mod_equivalence(q, player as int, ni);
                                    lemma_sub_mod_noop(q + ni - tpi - 1, ni - tpi - 1, ni);
                                    lemma_sub_mod_noop(
                                        player as int + ni - tpi - 1,
                                        ni - tpi - 1,
                                        ni,
                                    );
                                    lemma_mod_equivalence(
                                        q - (ni - tpi - 1) + ni - tpi - 1,
                                        q,
                                        ni,
                                    );
                                }
                                assert(q == player as int) by {
                                    lemma_mod_equivalence(q, player as int, ni);
                                    if q > player as int {
                                        lemma_small_mod((q - player as int) as nat, ni as nat);
                                    } else if q < player as int {
                                        lemma_mod_add_multiples_vanish(
                                            q - player as int,
                                            ni,
                                        );
                                        lemma_small_mod(
                                            (q - player as int + ni) as nat,
                                            ni as nat,
                                        );
                                    }
                                }
                                assert(g.alive(player as int) ==> g.hand_of(
                                    player as int,
                                    BaseKind::Unit,
                                ).len() > i as int);
                            }
                        }
                    }
                }
                j = j + 1;
            }
            proof {
                if order@.len() == 0 {
                    assert forall|q: int| 0 <= q < n as int && g.alive(q) implies (
                    #[trigger] g.hand_of(q, BaseKind::Unit)).len() >= i as int + 1 by {
                        vstd::arithmetic::div_mod::lemma_mod_bound(
                            q + n as int - tp as int - 1,
                            n as int,
                        );
                    }
                }
            }
            i = i + 1;
        }
        let mut drawn: Vec<(u32, u32, RegularTile<4>)> = Vec::new();
        let mut k: usize = 0;
        while k < order.len()
            invariant
                g.wf(),
                self.wf(),
                Some(count) == game.count_for(BaseKind::Unit),
                count < u32::MAX,
                n as int == g.num_players_spec(),
                k <= order@.len(),
                forall|q: int|
                    0 <= q < order@.len() ==> ((#[trigger] order@[q]) as int)
                        < g.num_players_spec() && g.alive(order@[q] as int) && g.hand_of(
                        order@[q] as int,
                        BaseKind::Unit,
                    ).len() < count as int,
                k > 0 ==> drawn@.len() > 0,
                drawn@.len() == 0 ==> self.player_states@ == g.player_states@ && self.pile(
                    BaseKind::Unit,
                ) == g.pile(BaseKind::Unit),
                g.pile(BaseKind::Unit).len() - self.pile(BaseKind::Unit).len()
                    == drawn@.len(),
                self.pile(BaseKind::Unit) == g.pile(BaseKind::Unit).skip(drawn@.len() as int),
                forall|k2: int|
                    0 <= k2 < drawn@.len() ==> (#[trigger] drawn@[k2]).2@.conn == g.pile(
                        BaseKind::Unit,
                    )[k2]@.conn,
                self.board_state == g.board_state,
                self.looker == g.looker,
                self.turn_player == g.turn_player,
                self.winners@ == g.winners@,
                self.player_states@.len() == g.player_states@.len(),
                forall|q: int|
                    0 <= q < g.num_players_spec() ==> ((#[trigger] self.player_states@[q])
                        is Some <==> g.player_states@[q] is Some),
                forall|q: int|
                    0 <= q < g.num_players_spec() && g.alive(q) ==> {
                        &&& self.hand_of(q, BaseKind::Unit).len() >= g.hand_of(
                            q,
                            BaseKind::Unit,
                        ).len()
                        &&& forall|j: int|
                            0 <= j < g.hand_of(q, BaseKind::Unit).len() ==> (
                            #[trigger] self.hand_of(q, BaseKind::Unit)[j]) == g.hand_of(
                                q,
                                BaseKind::Unit,
                            )[j]
                    },
                self.pile(BaseKind::Unit).len() <= g.pile(BaseKind::Unit).len(),
                self.pile(BaseKind::Unit) == g.pile(BaseKind::Unit).skip(
                    g.pile(BaseKind::Unit).len() - self.pile(BaseKind::Unit).len(),
                ),
                forall|q: int|
                    0 <= q < drawn@.len() ==> {
                        &&& ((#[trigger] drawn@[q]).0 as int) < g.num_players_spec()
                        &&& g.alive(drawn@[q].0 as int)
                    },
            ensures
                self.wf(),
                self.board_state == g.board_state,
                self.looker == g.looker,
                self.turn_player == g.turn_player,
                self.winners@ == g.winners@,
                self.player_states@.len() == g.player_states@.len(),
                g.pile(BaseKind::Unit).len() - self.pile(BaseKind::Unit).len()
                    == drawn@.len(),
                forall|k2: int|
                    0 <= k2 < drawn@.len() ==> (#[trigger] drawn@[k2]).2@.conn == g.pile(
                        BaseKind::Unit,
                    )[k2]@.conn,
                drawn@.len() == 0 ==> (order@.len() == 0 || self.pile(BaseKind::Unit).len()
                    == 0) && self.player_states@ == g.player_states@,
                forall|q: int|
                    0 <= q < g.num_players_spec() ==> ((#[trigger] self.player_states@[q])
                        is Some <==> g.player_states@[q] is Some),
                forall|q: int|
                    0 <= q < g.num_players_spec() && g.alive(q) ==> {
                        &&& self.hand_of(q, BaseKind::Unit).len() >= g.hand_of(
                            q,
                            BaseKind::Unit,
                        ).len()
                        &&& forall|j: int|
                            0 <= j < g.hand_of(q, BaseKind::Unit).len() ==> (
                            #[trigger] self.hand_of(q, BaseKind::Unit)[j]) == g.hand_of(
                                q,
                                BaseKind::Unit,
                            )[j]
                    },
                self.pile(BaseKind::Unit).len() <= g.pile(BaseKind::Unit).len(),
                self.pile(BaseKind::Unit) == g.pile(BaseKind::Unit).skip(
                    g.pile(BaseKind::Unit).len() - self.pile(BaseKind::Unit).len(),
                ),
                forall|q: int|
                    0 <= q < drawn@.len() ==> {
                        &&& ((#[trigger] drawn@[q]).0 as int) < g.num_players_spec()
                        &&& g.alive(drawn@[q].0 as int)
                    },
            decreases order@.len() - k,
        {
            let player = order[k];
            proof {
                assert(g.alive(player as int));
                assert(self.alive(player as int));
            }
            let hand_len = match &self.player_states[player as usize] {
                Some(ps) => ps.num_tiles_by_kind(&BaseKind::Unit),
                None => unreached(),
            };
            if hand_len == u32::MAX {
                // a hand cannot absorb more than the machine can
                // count; skip such a player
                proof {
                    if drawn@.len() == 0 {
                        assert(self.hand_of(player as int, BaseKind::Unit) == g.hand_of(
                            player as int,
                            BaseKind::Unit,
                        ));
                        assert(false);
                    }
                }
                k = k + 1;
                continue ;
            }
            let ghost mid = *self;
            match self.deal_tile(player, &BaseKind::Unit) {
                Some((idx, tile)) => {
                    drawn.push((player, idx, tile));
                    proof {
                        assert(mid.pile(BaseKind::Unit)[0] == g.pile(BaseKind::Unit)[
                            drawn@.len() - 1]);
                        assert(self.pile(BaseKind::Unit) =~= g.pile(BaseKind::Unit).skip(
                            drawn@.len() as int,
                        ));
                        assert(self.pile(BaseKind::Unit) =~= g.pile(BaseKind::Unit).skip(
                            g.pile(BaseKind::Unit).len() - self.pile(BaseKind::Unit).len(),
                        ));
                        assert forall|q: int|
                            0 <= q < g.num_players_spec() && g.alive(q) implies {
                            &&& self.hand_of(q, BaseKind::Unit).len() >= g.hand_of(
                                q,
                                BaseKind::Unit,
                            ).len()
                            &&& forall|j: int|
                                0 <= j < g.hand_of(q, BaseKind::Unit).len() ==> (
                                #[trigger] self.hand_of(q, BaseKind::Unit)[j]) == g.hand_of(
                                    q,
                                    BaseKind::Unit,
                                )[j]
                        } by {
                            if q != player as int {
                                assert(self.player_states@[q] == mid.player_states@[q]);
                            }
                        }
                    }
                },
                None => {
                    break ;
                },
            }
            k = k + 1;
        }
        proof {
            if drawn@.len() == 0 && self.pile(BaseKind::Unit).len() > 0 {
                assert(order@.len() == 0);
                assert forall|q: int|
                    0 <= q < g.num_players_spec() && g.alive(q) implies (#[trigger] self.hand_of(
                    q,
                    BaseKind::Unit,
                )).len() >= count as int by {
                    assert(self.player_states@ == g.player_states@);
                    assert(self.hand_of(q, BaseKind::Unit) == g.hand_of(q, BaseKind::Unit));
                    assert(g.hand_of(q, BaseKind::Unit).len() >= count as int);
                }
            }
        }
        drawn
    }
}

impl GameState {
    /// Have the current player take a turn by placing a tile of
    /// `kind` from `index` in their hand, transformed by `action`, at
    /// `loc`.  The turn is processed in full — path advancement,
    /// death handling, replenishment or redistribution, turn advance
    /// and win detection — and a result describing every observable
    /// change is returned.
    #[verifier::rlimit(100)]
    #[verifier::spinoff_prover]
    pub fn take_turn_placing_tile(
        &mut self,
        game: &PathGame,
        kind: &BaseKind,
        index: u32,
        action: &CycleGAct,
        loc: &Pt2u,
    ) -> (r: TurnResult)
        requires
            old(self).wf(),
            game.wf(),
            old(self).board_state.matches_board(game.board),
            old(self).can_place_tile_spec(
                *game,
                old(self).turn_player,
                *kind,
                index,
                *loc,
            ),
            old(self).hand_of(old(self).turn_player as int, *kind)[index as int].wf(),
            forall|q: int|
                0 <= q < old(self).num_players_spec() ==> old(self).board_state.players@[q]
                    is Some,
            old(self).winners@.len() == 0,
            game.count_for(BaseKind::Unit).unwrap() < u32::MAX,
        ensures
            final(self).wf(),
            final(self).looker == old(self).looker,
            final(self).num_players_spec() == old(self).num_players_spec(),
            r.tile_placer == old(self).turn_player,
            r.tile_loc == *loc,
            r.tile_placed.0 == index,
            r.tile_placed.1@ == (TileView {
                conn: rotate_conn(
                    old(self).hand_of(old(self).turn_player as int, *kind)[index as int].connections@,
                    old(self).hand_of(old(self).turn_player as int, *kind)[index as int].rotate_offset(
                        action.rotation as int,
                    ),
                ),
                visible: true,
            }),
            final(self).board_state.tiles@ == old(self).board_state.tiles@.update(
                loc.y as int * old(self).board_state.board_width as int + loc.x as int,
                final(self).board_state.tiles@[loc.y as int * old(self).board_state.board_width as int + loc.x as int],
            ),
            final(self).board_state.tile_at_spec(*loc) matches Some(bt) && bt@
                == r.tile_placed.1@,
            r.dead_players@ == dead_list(
                final(self).board_state.tiles@,
                old(self).board_state.players@,
                game.board,
                *loc,
                old(self).num_players_spec(),
            ),
            forall|i: int|
                0 <= i < old(self).num_players_spec() ==> final(self).board_state.players@[i]
                    == advanced_port_of(
                    final(self).board_state.tiles@,
                    old(self).board_state.players@,
                    game.board,
                    *loc,
                    i,
                ),
            r.player_ports@.len() == old(self).num_players_spec(),
            forall|i: int|
                0 <= i < old(self).num_players_spec() ==> final(self).board_state.players@[i]
                    == Some(#[trigger] r.player_ports@[i]),
            forall|q: int|
                0 <= q < old(self).num_players_spec() ==> (#[trigger] final(self).alive(q) <==> (
                old(self).alive(q) && !r.dead_players@.contains(q as u32))),
            (match next_alive(final(self).player_states@, old(self).turn_player as int, 1) {
                Some(nx) => final(self).turn_player == nx,
                None => final(self).turn_player == old(self).turn_player && final(self).winners@
                    == r.dead_players@,
            }),
            (next_alive(final(self).player_states@, old(self).turn_player as int, 1) is Some
                && alive_list(final(self).player_states@, final(self).num_players_spec()).len()
                == 1) ==> final(self).winners@ == alive_list(
                final(self).player_states@,
                final(self).num_players_spec(),
            ),
            (next_alive(final(self).player_states@, old(self).turn_player as int, 1) is Some
                && alive_list(final(self).player_states@, final(self).num_players_spec()).len()
                != 1 && !(forall|q: int|
                0 <= q < final(self).player_states@.len() && (#[trigger] final(self).player_states@[q]) is Some ==> final(self).player_states@[q].unwrap().tiles@[0].1@.len()
                    == 0)) ==> final(self).winners@.len() == 0,
            (next_alive(final(self).player_states@, old(self).turn_player as int, 1) is Some
                && alive_list(final(self).player_states@, final(self).num_players_spec()).len()
                != 1 && (forall|q: int|
                0 <= q < final(self).num_players_spec() && final(self).alive(q) ==> (
                #[trigger] final(self).hand_of(q, BaseKind::Unit)).len() == 0)) ==> final(self).winners@ == alive_list(final(self).player_states@, final(self).num_players_spec()),
            r.game_over == (final(self).winners@.len() > 0),
            r.num_tiles_left@.len() == 1,
            r.num_tiles_left@[0].0 == BaseKind::Unit,
            r.num_tiles_left@[0].1 as int == (if final(self).pile(BaseKind::Unit).len()
                <= u32::MAX {
                final(self).pile(BaseKind::Unit).len() as int
            } else {
                u32::MAX as int
            }),
            r.dead_players@.len() == 0 ==> forall|k: int|
                0 <= k < r.drawn_tiles@.len() ==> (#[trigger] r.drawn_tiles@[k]).0 == old(
                    self,
                ).turn_player,
            final(self).board_state.board_width == old(self).board_state.board_width,
            final(self).board_state.board_height == old(self).board_state.board_height,
            (r.dead_players@.len() == 0 && old(self).pile(BaseKind::Unit).len() > 0) ==> {
                &&& r.drawn_tiles@.len() == 1
                &&& r.drawn_tiles@[0].0 == old(self).turn_player
                &&& r.drawn_tiles@[0].1 as int == old(self).hand_of(
                    old(self).turn_player as int,
                    BaseKind::Unit,
                ).len() - 1
                &&& r.drawn_tiles@[0].2@.conn == old(self).pile(BaseKind::Unit)[0]@.conn
                &&& final(self).pile(BaseKind::Unit) == old(self).pile(
                    BaseKind::Unit,
                ).drop_first()
                &&& final(self).hand_of(old(self).turn_player as int, BaseKind::Unit) == old(
                    self,
                ).hand_of(old(self).turn_player as int, BaseKind::Unit).remove(
                    index as int,
                ).push(final(self).hand_of(old(self).turn_player as int, BaseKind::Unit).last())
                &&& final(self).hand_of(
                    old(self).turn_player as int,
                    BaseKind::Unit,
                ).last()@.conn == old(self).pile(BaseKind::Unit)[0]@.conn
                &&& final(self).hand_of(old(self).turn_player as int, BaseKind::Unit).len()
                    == old(self).hand_of(old(self).turn_player as int, BaseKind::Unit).len()
            },
            (r.dead_players@.len() == 0 && old(self).pile(BaseKind::Unit).len() == 0) ==> {
                &&& r.drawn_tiles@.len() == 0
                &&& final(self).pile(BaseKind::Unit) == old(self).pile(BaseKind::Unit)
                &&& final(self).hand_of(old(self).turn_player as int, BaseKind::Unit) == old(
                    self,
                ).hand_of(old(self).turn_player as int, BaseKind::Unit).remove(index as int)
            },
            (r.dead_players@.len() > 0 && final(self).alive(old(self).turn_player as int)) ==> {
                &&& final(self).hand_of(old(self).turn_player as int, BaseKind::Unit).len() >= old(
                    self,
                ).hand_of(old(self).turn_player as int, BaseKind::Unit).len() - 1
                &&& forall|j: int|
                    0 <= j < old(self).hand_of(
                        old(self).turn_player as int,
                        BaseKind::Unit,
                    ).len() - 1 ==> (#[trigger] final(self).hand_of(
                        old(self).turn_player as int,
                        BaseKind::Unit,
                    )[j]) == old(self).hand_of(
                        old(self).turn_player as int,
                        BaseKind::Unit,
                    ).remove(index as int)[j]
            },
    {
        let ghost g = *old(self);
        let placer = self.turn_player;
        proof {
            // the placement location borders the placer's port, so it
            // lies on the board
            let p = g.board_state.players@[placer as int].unwrap();
            let pl = game.board.port_locs_spec(p);
            assert(pl.contains(*loc));
            let w = choose|w: int| 0 <= w < pl.len() && pl[w] == *loc;
        }
        let placed = self.player_place_tile(placer, kind, index, action, loc);
        let ghost mid1 = *self;
        let dead = self.advance_players(game.board(), loc);
        proof {
            lemma_dead_list_props(
                mid1.board_state.tiles@,
                g.board_state.players@,
                game.board,
                *loc,
                g.num_players_spec(),
            );
        }
        let players_died = dead.len() > 0;
        self.handle_dead_players(game, &dead);
        let ghost mid2 = *self;
        let drawn = if players_died {
            self.redistribute_tiles(game)
        } else {
            proof {
                assert(!dead@.contains(placer));
                assert(self.alive(placer as int));
                // an empty dead list drains nothing, so the pile and
                // every hand are as just after the placement
                assert(drained_hand_views(mid1.player_states@, dead@) =~= Seq::<
                    TileView,
                >::empty());
                assert(invis_views(Seq::<TileView>::empty()) =~= Seq::<TileView>::empty());
                assert(mid2.pile_tile_views(BaseKind::Unit) =~= mid1.pile_tile_views(
                    BaseKind::Unit,
                ));
                assert(mid2.pile(BaseKind::Unit).len() == mid1.pile(BaseKind::Unit).len());
                assert(mid1.pile(BaseKind::Unit) == g.pile(BaseKind::Unit));
                assert(mid2.player_states@ =~= mid1.player_states@);
            }
            match self.deal_tile(placer, kind) {
                Some((di, dt)) => {
                    let mut v: Vec<(u32, u32, RegularTile<4>)> = Vec::new();
                    v.push((placer, di, dt));
                    v
                },
                None => Vec::new(),
            }
        };
        let n = self.player_states.len() as u32;
        let mut next: Option<u32> = None;
        let mut step: u64 = 1;
        while step <= n as u64
            invariant_except_break
                next is None,
                next_alive(self.player_states@, placer as int, 1) == next_alive(
                    self.player_states@,
                    placer as int,
                    step as int,
                ),
            invariant
                self.wf(),
                n as int == self.num_players_spec(),
                (placer as int) < n as int,
                1 <= step <= n as int + 1,
            ensures
                self.wf(),
                n as int == self.num_players_spec(),
                (match next {
                    Some(nx) => next_alive(self.player_states@, placer as int, 1) == Some(nx),
                    None => next_alive(self.player_states@, placer as int, 1) is None,
                }),
            decreases n as int + 1 - step,
        {
            let cand: u32 = (((placer as u64) + step) % (n as u64)) as u32;
            proof {
                vstd::arithmetic::div_mod::lemma_mod_bound(
                    placer as int + step as int,
                    n as int,
                );
                assert(cand as int == (placer as int + step as int) % (n as int));
            }
            if self.player_states[cand as usize].is_some() {
                next = Some(cand);
                proof {
                    assert(next_alive(self.player_states@, placer as int, step as int) == Some(
                        cand,
                    ));
                }
                break ;
            }
            proof {
                assert(next_alive(self.player_states@, placer as int, step as int) == next_alive(
                    self.player_states@,
                    placer as int,
                    step as int + 1,
                ));
            }
            step = step + 1;
        }
        let mut all_dead = false;
        match next {
            Some(nx) => {
                proof {
                    lemma_next_alive_props(self.player_states@, placer as int, 1);
                    assert((nx as int) < n as int);
                    assert(self.alive(nx as int));
                }
                self.turn_player = nx;
            },
            None => {
                all_dead = true;
                let mut w: Vec<u32> = Vec::new();
                let mut k: usize = 0;
                while k < dead.len()
                    invariant
                        k <= dead@.len(),
                        w@.len() == k as int,
                        forall|j: int| 0 <= j < k as int ==> w@[j] == dead@[j],
                    decreases dead@.len() - k,
                {
                    w.push(dead[k]);
                    k = k + 1;
                }
                proof {
                    assert(w@ =~= dead@);
                }
                self.winners = w;
            },
        }
        if !all_dead {
            // recompute the winners: a sole survivor wins, and if no
            // living player holds a tile everyone still alive wins
            let mut alive_vec: Vec<u32> = Vec::new();
            let mut q: u32 = 0;
            proof {
                assert(alive_vec@ =~= alive_list(self.player_states@, 0));
            }
            while q < n
                invariant
                    self.wf(),
                    n as int == self.num_players_spec(),
                    q <= n,
                    alive_vec@ == alive_list(self.player_states@, q as int),
                decreases n - q,
            {
                let ghost prev_av = alive_vec@;
                if self.player_states[q as usize].is_some() {
                    alive_vec.push(q);
                }
                proof {
                    assert(alive_list(self.player_states@, q as int + 1) == (
                    if self.player_states@[q as int] is Some {
                        alive_list(self.player_states@, q as int).push(q)
                    } else {
                        alive_list(self.player_states@, q as int)
                    }));
                }
                q = q + 1;
            }
            proof {
                lemma_alive_list_props(self.player_states@, n as int);
            }
            let mut any_tiles = false;
            let mut k: usize = 0;
            while k < alive_vec.len()
                invariant
                    self.wf(),
                    n as int == self.num_players_spec(),
                    alive_vec@ == alive_list(self.player_states@, n as int),
                    k <= alive_vec@.len(),
                    forall|j: int| 0 <= j < alive_vec@.len() ==> ((#[trigger] alive_vec@[j]) as int)
                        < n as int && self.alive(alive_vec@[j] as int),
                    any_tiles == exists|j: int|
                        0 <= j < k as int && self.hand_of(
                            (#[trigger] alive_vec@[j]) as int,
                            BaseKind::Unit,
                        ).len() > 0,
                decreases alive_vec@.len() - k,
            {
                let p = alive_vec[k];
                let has = match &self.player_states[p as usize] {
                    Some(ps) => ps.has_tiles(),
                    None => unreached(),
                };
                proof {
                    let ps = self.player_states@[p as int].unwrap();
                    assert(ps.tiles@.len() == 1);
                    if has {
                        let e = choose|e: int|
                            0 <= e < ps.tiles@.len() && (#[trigger] ps.tiles@[e]).1@.len() > 0;
                        assert(e == 0);
                        assert(self.hand_of(p as int, BaseKind::Unit).len() > 0);
                    } else {
                        assert(ps.tiles@[0].1@.len() == 0);
                    }
                }
                if has {
                    any_tiles = true;
                    proof {
                        assert(self.hand_of(alive_vec@[k as int] as int, BaseKind::Unit).len()
                            > 0);
                    }
                }
                k = k + 1;
            }
            proof {
                lemma_alive_list_props(self.player_states@, n as int);
            }
            if alive_vec.len() == 1 {
                self.winners = alive_vec;
            } else if !any_tiles {
                proof {
                    assert forall|p: int|
                        0 <= p < self.num_players_spec() && self.alive(p) implies (
                    #[trigger] self.hand_of(p, BaseKind::Unit)).len() == 0 by {
                        assert(alive_list(self.player_states@, n as int).contains(p as u32));
                        let j = choose|j: int|
                            0 <= j < alive_vec@.len() && alive_vec@[j] == p as u32;
                    }
                    assert forall|p: int|
                        0 <= p < self.player_states@.len() && (#[trigger] self.player_states@[p])
                            is Some implies self.player_states@[p].unwrap().tiles@[0].1@.len()
                        == 0 by {
                        assert(self.alive(p));
                        assert(self.hand_of(p, BaseKind::Unit).len() == 0);
                        crate::player_state::lemma_kind_at_zero(
                            self.player_states@[p].unwrap(),
                        );
                    }
                }
                self.winners = alive_vec;
            }
        }
        // the placed tile and the new ports, for the observers
        let mut pports: Vec<BasePort> = Vec::new();
        let mut q: u32 = 0;
        while q < n
            invariant
                self.wf(),
                n as int == self.num_players_spec(),
                q <= n,
                pports@.len() == q as int,
                forall|i: int|
                    0 <= i < q as int ==> self.board_state.players@[i] == Some(
                        #[trigger] pports@[i],
                    ),
                forall|i: int|
                    0 <= i < n as int ==> self.board_state.players@[i] is Some,
            decreases n - q,
        {
            match self.board_state.player_port(q) {
                Some(p) => pports.push(p),
                None => unreached(),
            }
            q = q + 1;
        }
        let plen = self.tiles[0].1.len();
        let cnt: u32 = if plen <= u32::MAX as usize {
            plen as u32
        } else {
            u32::MAX
        };
        let mut ntl: Vec<(BaseKind, u32)> = Vec::new();
        ntl.push((BaseKind::Unit, cnt));
        proof {
            lemma_pile_at_unique(*self, BaseKind::Unit, 0);
        }
        let game_over = self.winners.len() > 0;
        proof {
            let lidx = loc.y as int * g.board_state.board_width as int + loc.x as int;
            assert(self.board_state.tiles@ =~= g.board_state.tiles@.update(
                lidx,
                self.board_state.tiles@[lidx],
            ));
            assert forall|q2: int| 0 <= q2 < g.num_players_spec() implies (#[trigger] self.alive(
                q2,
            ) <==> (g.alive(q2) && !dead@.contains(q2 as u32))) by {
                assert(mid1.alive(q2) <==> g.alive(q2)) by {
                    if q2 != placer as int {
                        assert(mid1.player_states@[q2] == g.player_states@[q2]);
                    }
                }
                assert(mid2.alive(q2) <==> (mid1.alive(q2) && !dead@.contains(q2 as u32)));
                assert(self.alive(q2) <==> mid2.alive(q2));
            }
            lemma_pile_at_unique(g, BaseKind::Unit, 0);
            lemma_pile_at_unique(mid1, BaseKind::Unit, 0);
            lemma_pile_at_unique(mid2, BaseKind::Unit, 0);
            assert(mid1.tiles@ == g.tiles@);
            assert(mid1.pile(BaseKind::Unit) == g.pile(BaseKind::Unit));
            assert(mid1.hand_of(placer as int, BaseKind::Unit) == g.hand_of(
                placer as int,
                BaseKind::Unit,
            ).remove(index as int));
            if dead@.len() == 0 {
                assert(mid2.tiles@ == mid1.tiles@);
                assert(mid2.pile(BaseKind::Unit) == g.pile(BaseKind::Unit));
                assert(mid2.player_states@ == mid1.player_states@);
                assert(mid2.hand_of(placer as int, BaseKind::Unit) == g.hand_of(
                    placer as int,
                    BaseKind::Unit,
                ).remove(index as int));
                assert(mid2.alive(placer as int));
            }
            if dead@.len() > 0 && self.alive(placer as int) {
                assert(!dead@.contains(placer));
                assert(mid2.player_states@[placer as int] == mid1.player_states@[placer as int]);
                assert(mid2.alive(placer as int));
                assert(mid2.hand_of(placer as int, BaseKind::Unit) == mid1.hand_of(
                    placer as int,
                    BaseKind::Unit,
                ));
            }
        }
        TurnResult {
            tile_placer: placer,
            tile_placed: (index, placed),
            tile_loc: *loc,
            player_ports: pports,
            dead_players: dead,
            num_tiles_left: ntl,
            drawn_tiles: drawn,
            game_over,
        }
    }
}

impl GameState {
    /// The state of the game visible to `looker`: a deep copy in
    /// which every hand tile's visibility is forced to what `looker`
    /// may see, and every draw-pile tile is forced invisible.  Board
    /// tiles keep their stored visibility.  The source state is not
    /// changed.
    pub fn visible_state(&self, looker: Looker) -> (r: GameState)
        requires
            self.wf(),
        ensures
            r.wf(),
            r.looker == looker,
            r.turn_player == self.turn_player,
            r.winners@ == self.winners@,
            r.num_players_spec() == self.num_players_spec(),
            r.board_state.board_width == self.board_state.board_width,
            r.board_state.board_height == self.board_state.board_height,
            r.board_state.players@ == self.board_state.players@,
            r.board_state.tiles@.len() == self.board_state.tiles@.len(),
            forall|j: int|
                0 <= j < self.board_state.tiles@.len() ==> (match (
                #[trigger] r.board_state.tiles@[j],
                self.board_state.tiles@[j],
            ) {
                    (Some(a), Some(b)) => a@ == b@,
                    (None, None) => true,
                    _ => false,
                }),
            forall|p: int|
                0 <= p < self.num_players_spec() ==> (#[trigger] r.alive(p) <==> self.alive(p)),
            forall|p: int|
                0 <= p < self.num_players_spec() && self.alive(p) ==> (#[trigger] r.hand_of(
                    p,
                    BaseKind::Unit,
                )).len() == self.hand_of(p, BaseKind::Unit).len(),
            forall|p: int, j: int|
                0 <= p < self.num_players_spec() && self.alive(p) && 0 <= j < self.hand_of(
                    p,
                    BaseKind::Unit,
                ).len() ==> (#[trigger] r.hand_of(p, BaseKind::Unit)[j])@ == (TileView {
                    conn: self.hand_of(p, BaseKind::Unit)[j]@.conn,
                    visible: looker.sees_player(p as u32),
                }),
            r.pile_tile_views(BaseKind::Unit) == invis_views(
                self.pile_tile_views(BaseKind::Unit),
            ),
    {
        let board_state = self.board_state.duplicate();
        let n = self.player_states.len();
        let mut player_states: Vec<Option<PlayerState>> = Vec::new();
        let mut p: usize = 0;
        while p < n
            invariant
                self.wf(),
                n == self.player_states@.len(),
                p <= n,
                player_states@.len() == p as int,
                forall|q: int|
                    0 <= q < p as int ==> ((#[trigger] player_states@[q]) is Some <==> self.alive(
                        q,
                    )),
                forall|q: int|
                    0 <= q < p as int && self.alive(q) ==> {
                        let ps = (#[trigger] player_states@[q]).unwrap();
                        let src = self.player_states@[q].unwrap();
                        &&& ps.wf()
                        &&& ps.tiles@.len() == 1
                        &&& ps.tiles@[0].0 == BaseKind::Unit
                        &&& ps.tiles@[0].1@.len() == src.tiles@[0].1@.len()
                        &&& forall|j: int|
                            0 <= j < src.tiles@[0].1@.len() ==> (#[trigger] ps.tiles@[0].1@[j])@
                                == (TileView {
                                conn: src.tiles@[0].1@[j]@.conn,
                                visible: looker.sees_player(q as u32),
                            })
                    },
            decreases n - p,
        {
            match &self.player_states[p] {
                Some(ps) => {
                    proof {
                        assert(self.alive(p as int));
                    }
                    let vs = ps.visible_state(p as u32, looker);
                    player_states.push(Some(vs));
                },
                None => {
                    player_states.push(None);
                },
            }
            p = p + 1;
        }
        let src_pile = &self.tiles[0].1;
        let mut pile: VecDeque<RegularTile<4>> = VecDeque::new();
        let mut i: usize = 0;
        proof {
            lemma_pile_at_unique(*self, BaseKind::Unit, 0);
        }
        while i < src_pile.len()
            invariant
                i <= src_pile@.len(),
                pile@.len() == i as int,
                forall|j: int|
                    0 <= j < i as int ==> (#[trigger] pile@[j])@ == (TileView {
                        conn: src_pile@[j]@.conn,
                        visible: false,
                    }),
            decreases src_pile@.len() - i,
        {
            pile.push_back(src_pile[i].duplicate().with_visible(false));
            i = i + 1;
        }
        let mut tiles: Vec<(BaseKind, VecDeque<RegularTile<4>>)> = Vec::new();
        tiles.push((BaseKind::Unit, pile));
        let mut winners: Vec<u32> = Vec::new();
        let mut k: usize = 0;
        while k < self.winners.len()
            invariant
                k <= self.winners@.len(),
                winners@.len() == k as int,
                forall|j: int| 0 <= j < k as int ==> winners@[j] == self.winners@[j],
            decreases self.winners@.len() - k,
        {
            winners.push(self.winners[k]);
            k = k + 1;
        }
        proof {
            assert(winners@ =~= self.winners@);
        }
        let r = GameState {
            board_state,
            player_states,
            looker,
            turn_player: self.turn_player,
            tiles,
            winners,
        };
        proof {
            lemma_pile_at_unique(r, BaseKind::Unit, 0);
            assert(r.pile_tile_views(BaseKind::Unit) =~= invis_views(
                self.pile_tile_views(BaseKind::Unit),
            ));
            assert forall|q: int|
                0 <= q < self.num_players_spec() && self.alive(q) implies (#[trigger] r.hand_of(
                q,
                BaseKind::Unit,
            )).len() == self.hand_of(q, BaseKind::Unit).len() by {
                let ps = r.player_states@[q].unwrap();
                let src = self.player_states@[q].unwrap();
                crate::player_state::lemma_kind_at_zero(ps);
                crate::player_state::lemma_kind_at_zero(src);
            }
            assert(r.wf());
        }
        r
    }
}

/// A found next player is alive.
proof fn lemma_next_alive_props(states: Seq<Option<PlayerState>>, turn: int, step: int)
    requires
        states.len() <= u32::MAX,
    ensures
        (match next_alive(states, turn, step) {
            Some(nx) => (nx as int) < states.len() && states[nx as int] is Some,
            None => true,
        }),
    decreases states.len() + 1 - step,
{
    if !(step > states.len() || states.len() == 0) {
        lemma_next_alive_props(states, turn, step + 1);
        vstd::arithmetic::div_mod::lemma_mod_bound(turn + step, states.len() as int);
    }
}

/// Every member of the alive list is alive, and every living player
/// is a member.
proof fn lemma_alive_list_props(states: Seq<Option<PlayerState>>, n: int)
    requires
        n <= states.len(),
        n <= u32::MAX,
    ensures
        forall|p: int|
            0 <= p < n && states[p] is Some ==> #[trigger] alive_list(states, n).contains(
                p as u32,
            ),
        forall|k: int|
            0 <= k < alive_list(states, n).len() ==> ((#[trigger] alive_list(states, n)[k]) as int)
                < n && states[alive_list(states, n)[k] as int] is Some,
    decreases n,
{
    if n > 0 {
        lemma_alive_list_props(states, n - 1);
        let rest = alive_list(states, n - 1);
        let cur = alive_list(states, n);
        if states[n - 1] is Some {
            assert(cur == rest.push((n - 1) as u32));
            assert forall|p: int|
                0 <= p < n && states[p] is Some implies #[trigger] cur.contains(p as u32) by {
                if p < n - 1 {
                    assert(rest.contains(p as u32));
                    let k = choose|k: int| 0 <= k < rest.len() && rest[k] == p as u32;
                    assert(cur[k] == p as u32);
                } else {
                    assert(cur[cur.len() - 1] == p as u32);
                }
            }
            assert forall|k: int| 0 <= k < cur.len() implies ((#[trigger] cur[k]) as int) < n
                && states[cur[k] as int] is Some by {
                if k < rest.len() {
                    assert(cur[k] == rest[k]);
                }
            }
        } else {
            assert(cur == rest);
            assert forall|p: int|
                0 <= p < n && states[p] is Some implies #[trigger] cur.contains(p as u32) by {
                assert(p != n - 1);
                assert(rest.contains(p as u32));
            }
        }
    }
}

/// If pile entry `i` holds `kind` and pile keys are distinct,
/// `pile_at` is `i`.
proof fn lemma_pile_at_unique(s: GameState, kind: BaseKind, i: int)
    requires
        forall|a: int, b: int|
            0 <= a < b < s.tiles@.len() ==> (#[trigger] s.tiles@[a]).0 != (#[trigger] s.tiles@[b]).0,
        0 <= i < s.tiles@.len(),
        s.tiles@[i].0 == kind,
    ensures
        s.pile_has_kind(kind),
        s.pile_at(kind) == i,
{
    assert(s.pile_has_kind(kind));
    let w = s.pile_at(kind);
    assert(s.tiles@[w].0 == kind);
    if w < i {
        assert(s.tiles@[w].0 != s.tiles@[i].0);
    }
    if w > i {
        assert(s.tiles@[i].0 != s.tiles@[w].0);
    }
}

} // verus!
