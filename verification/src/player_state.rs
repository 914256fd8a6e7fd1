//! A player's hand, grouped by tile kind, and the viewer scopes used
//! for information hiding.

use vstd::prelude::*;

verus! {

use crate::game::PathGame;
use crate::tile::BaseKind;
use crate::tile::RegularTile;
use crate::tile::TileView;
use crate::tile::clone_tiles;

/// Someone that looks at the game.
#[derive(Clone, Copy, Debug, PartialEq, Eq, Structural)]
pub enum Looker {
    Server,
    Player(u32),
    Spectator,
}

/// The family of a viewer, with any player index stripped.
#[derive(Clone, Copy, Debug, PartialEq, Eq, Structural)]
pub enum LookerTag {
    Server,
    Player,
    Spectator,
}

impl Looker {
    /// The family of this viewer.
    pub open spec fn tag_spec(self) -> LookerTag {
        match self {
            Looker::Server => LookerTag::Server,
            Looker::Player(_) => LookerTag::Player,
            Looker::Spectator => LookerTag::Spectator,
        }
    }

    /// Whether this viewer is allowed to see the hand of `player`:
    /// everyone but a specific other player is.
    pub open spec fn sees_player(self, player: u32) -> bool {
        self.tag_spec() != LookerTag::Player || self == Looker::Player(player)
    }

    pub fn tag(self) -> (r: LookerTag)
        ensures
            r == self.tag_spec(),
    {
        match self {
            Looker::Server => LookerTag::Server,
            Looker::Player(_) => LookerTag::Player,
            Looker::Spectator => LookerTag::Spectator,
        }
    }

    /// Whether this viewer may see the hand of `player`.
    pub fn sees(self, player: u32) -> (r: bool)
        ensures
            r == self.sees_player(player),
    {
        match self {
            Looker::Player(p) => p == player,
            _ => true,
        }
    }
}

/// The flattened views of all hands of a kind-keyed hand list, in
/// entry order.
pub open spec fn flat_hand_views(s: Seq<(BaseKind, Vec<RegularTile<4>>)>) -> Seq<TileView>
    decreases s.len(),
{
    if s.len() == 0 {
        Seq::empty()
    } else {
        s[0].1.deep_view() + flat_hand_views(s.drop_first())
    }
}

/// The state of a player: the tiles they hold, grouped by kind.  The
/// per-kind order is insertion order and is significant, because hand
/// indices are the addressing scheme used to name a tile.
pub struct PlayerState {
    pub tiles: Vec<(BaseKind, Vec<RegularTile<4>>)>,
}

impl PlayerState {
    /// Each kind appears at most once.
    pub open spec fn wf(self) -> bool {
        forall|i: int, j: int|
            0 <= i < j < self.tiles@.len() ==> (#[trigger] self.tiles@[i]).0 != (
            #[trigger] self.tiles@[j]).0
    }

    /// Whether the player has a hand slot for `kind`.
    pub open spec fn has_kind(self, kind: BaseKind) -> bool {
        exists|i: int| 0 <= i < self.tiles@.len() && (#[trigger] self.tiles@[i]).0 == kind
    }

    /// The entry index of `kind`.
    pub open spec fn kind_at(self, kind: BaseKind) -> int {
        choose|i: int| 0 <= i < self.tiles@.len() && (#[trigger] self.tiles@[i]).0 == kind
    }

    /// The hand of `kind`.
    pub open spec fn hand(self, kind: BaseKind) -> Seq<RegularTile<4>> {
        self.tiles@[self.kind_at(kind)].1@
    }

    /// The views of the hand of `kind`.
    pub open spec fn hand_views(self, kind: BaseKind) -> Seq<TileView> {
        self.tiles@[self.kind_at(kind)].1.deep_view()
    }

    /// Construct a player state with the player holding no tiles, one
    /// hand slot per kind of the game's board.
    pub fn new(game: &PathGame) -> (r: PlayerState)
        ensures
            r.wf(),
            r.tiles@.len() == 1,
            r.tiles@[0].0 == BaseKind::Unit,
            r.tiles@[0].1@.len() == 0,
            r.has_kind(BaseKind::Unit),
    {
        let kinds = game.board().all_kinds();
        let mut tiles: Vec<(BaseKind, Vec<RegularTile<4>>)> = Vec::new();
        let mut i: usize = 0;
        while i < kinds.len()
            invariant
                kinds@ =~= seq![BaseKind::Unit],
                i <= kinds@.len(),
                tiles@.len() == i as int,
                forall|j: int|
                    0 <= j < i as int ==> (#[trigger] tiles@[j]).0 == kinds@[j] && tiles@[j].1@.len()
                        == 0,
            decreases kinds@.len() - i,
        {
            let empty: Vec<RegularTile<4>> = Vec::new();
            tiles.push((kinds[i], empty));
            i = i + 1;
        }
        let r = PlayerState { tiles };
        proof {
            assert(r.tiles@[0].0 == BaseKind::Unit);
        }
        r
    }

    /// Whether the player holds any tiles at all.
    pub fn has_tiles(&self) -> (r: bool)
        ensures
            r == exists|i: int|
                0 <= i < self.tiles@.len() && (#[trigger] self.tiles@[i]).1@.len() > 0,
    {
        let mut i: usize = 0;
        while i < self.tiles.len()
            invariant
                i <= self.tiles@.len(),
                forall|j: int| 0 <= j < i as int ==> (#[trigger] self.tiles@[j]).1@.len() == 0,
            decreases self.tiles@.len() - i,
        {
            if self.tiles[i].1.len() > 0 {
                proof {
                    assert(self.tiles@[i as int].1@.len() > 0);
                }
                return true;
            }
            i = i + 1;
        }
        false
    }

    /// The tiles the player is holding, grouped by kind.  With the
    /// single universal kind the stored order is already sorted by
    /// kind.
    pub fn tiles_vec(&self) -> (r: Vec<(BaseKind, Vec<RegularTile<4>>)>)
        ensures
            r@.len() == self.tiles@.len(),
            forall|i: int|
                0 <= i < self.tiles@.len() ==> {
                    &&& (#[trigger] r@[i]).0 == self.tiles@[i].0
                    &&& r@[i].1.deep_view() == self.tiles@[i].1.deep_view()
                },
    {
        let mut r: Vec<(BaseKind, Vec<RegularTile<4>>)> = Vec::new();
        let mut i: usize = 0;
        while i < self.tiles.len()
            invariant
                i <= self.tiles@.len(),
                r@.len() == i as int,
                forall|j: int|
                    0 <= j < i as int ==> {
                        &&& (#[trigger] r@[j]).0 == self.tiles@[j].0
                        &&& r@[j].1.deep_view() == self.tiles@[j].1.deep_view()
                    },
            decreases self.tiles@.len() - i,
        {
            let hand = clone_tiles(&self.tiles[i].1);
            proof {
                assert(hand.deep_view() =~= self.tiles@[i as int].1.deep_view());
            }
            r.push((self.tiles[i].0, hand));
            i = i + 1;
        }
        r
    }

    /// Number of tiles of a specific kind that the player is holding.
    pub fn num_tiles_by_kind(&self, kind: &BaseKind) -> (r: u32)
        requires
            self.wf(),
            self.has_kind(*kind),
            self.hand(*kind).len() <= u32::MAX,
        ensures
            r as int == self.hand(*kind).len(),
    {
        let mut i: usize = 0;
        while i < self.tiles.len()
            invariant
                self.wf(),
                self.has_kind(*kind),
                self.hand(*kind).len() <= u32::MAX,
                i <= self.tiles@.len(),
                forall|j: int| 0 <= j < i as int ==> (#[trigger] self.tiles@[j]).0 != *kind,
            decreases self.tiles@.len() - i,
        {
            if self.tiles[i].0 == *kind {
                proof {
                    lemma_kind_at_unique(*self, *kind, i as int);
                }
                return self.tiles[i].1.len() as u32;
            }
            i = i + 1;
        }
        proof {
            let w = self.kind_at(*kind);
            assert(self.tiles@[w].0 == *kind);
            assert(false);
        }
        unreached()
    }

    /// Adds a tile to the player's hand.
    #[verifier::loop_isolation(false)]
    pub fn add_tile(&mut self, tile: RegularTile<4>)
        requires
            old(self).wf(),
            old(self).has_kind(BaseKind::Unit),
        ensures
            final(self).wf(),
            final(self).tiles@.len() == old(self).tiles@.len(),
            forall|j: int|
                0 <= j < old(self).tiles@.len() ==> (#[trigger] final(self).tiles@[j]).0 == old(
                    self,
                ).tiles@[j].0,
            final(self).kind_at(BaseKind::Unit) == old(self).kind_at(BaseKind::Unit),
            final(self).hand(BaseKind::Unit) == old(self).hand(BaseKind::Unit).push(tile),
            forall|j: int|
                0 <= j < old(self).tiles@.len() && j != old(self).kind_at(BaseKind::Unit) ==> (
                #[trigger] final(self).tiles@[j]) == old(self).tiles@[j],
            final(self).has_kind(BaseKind::Unit),
    {
        let ghost g = *old(self);
        let mut i: usize = 0;
        let n = self.tiles.len();
        while i < n
            invariant
                *self == g,
                n == self.tiles@.len(),
                g.wf(),
                g.has_kind(BaseKind::Unit),
                i <= n,
                forall|j: int| 0 <= j < i as int ==> (#[trigger] self.tiles@[j]).0
                    != BaseKind::Unit,
            decreases n - i,
        {
            if self.tiles[i].0 == *&BaseKind::Unit {
                proof {
                    lemma_kind_at_unique(g, BaseKind::Unit, i as int);
                }
                let kind = self.tiles[i].0;
                let mut entry = self.tiles.remove(i);
                entry.1.push(tile);
                self.tiles.insert(i, entry);
                proof {
                    assert(self.tiles@ =~= g.tiles@.update(i as int, self.tiles@[i as int]));
                    assert(self.tiles@[i as int].0 == BaseKind::Unit);
                    assert(self.tiles@[i as int].1@ == g.tiles@[i as int].1@.push(tile));
                    assert(self.wf());
                    lemma_kind_at_unique(*self, BaseKind::Unit, i as int);
                }
                return ;
            }
            i = i + 1;
        }
        proof {
            let w = g.kind_at(BaseKind::Unit);
            assert(g.tiles@[w].0 == BaseKind::Unit);
            assert(false);
        }
    }

    /// Removes and returns a tile from the player's hand by kind and
    /// index.
    #[verifier::loop_isolation(false)]
    pub fn remove_tile(&mut self, kind: &BaseKind, index: u32) -> (r: RegularTile<4>)
        requires
            old(self).wf(),
            old(self).has_kind(*kind),
            (index as int) < old(self).hand(*kind).len(),
        ensures
            final(self).wf(),
            r == old(self).hand(*kind)[index as int],
            final(self).tiles@.len() == old(self).tiles@.len(),
            forall|j: int|
                0 <= j < old(self).tiles@.len() ==> (#[trigger] final(self).tiles@[j]).0 == old(
                    self,
                ).tiles@[j].0,
            final(self).kind_at(*kind) == old(self).kind_at(*kind),
            final(self).hand(*kind) == old(self).hand(*kind).remove(index as int),
            forall|j: int|
                0 <= j < old(self).tiles@.len() && j != old(self).kind_at(*kind) ==> (
                #[trigger] final(self).tiles@[j]) == old(self).tiles@[j],
            final(self).has_kind(*kind),
    {
        let ghost g = *old(self);
        let mut i: usize = 0;
        let n = self.tiles.len();
        while i < n
            invariant
                *self == g,
                n == self.tiles@.len(),
                g.wf(),
                g.has_kind(*kind),
                (index as int) < g.hand(*kind).len(),
                i <= n,
                forall|j: int| 0 <= j < i as int ==> (#[trigger] self.tiles@[j]).0 != *kind,
            decreases n - i,
        {
            if self.tiles[i].0 == *kind {
                proof {
                    lemma_kind_at_unique(g, *kind, i as int);
                }
                let mut entry = self.tiles.remove(i);
                let t = entry.1.remove(index as usize);
                self.tiles.insert(i, entry);
                proof {
                    assert(self.tiles@ =~= g.tiles@.update(i as int, self.tiles@[i as int]));
                    assert(self.tiles@[i as int].0 == *kind);
                    assert(self.wf());
                    lemma_kind_at_unique(*self, *kind, i as int);
                }
                return t;
            }
            i = i + 1;
        }
        proof {
            let w = g.kind_at(*kind);
            assert(g.tiles@[w].0 == *kind);
            assert(false);
        }
        unreached()
    }

    /// Removes and returns all tiles from the player's hand, in entry
    /// order, leaving every hand slot empty.
    pub fn remove_all_tiles(&mut self) -> (r: Vec<RegularTile<4>>)
        requires
            old(self).wf(),
        ensures
            final(self).wf(),
            final(self).tiles@.len() == old(self).tiles@.len(),
            forall|j: int|
                0 <= j < old(self).tiles@.len() ==> (#[trigger] final(self).tiles@[j]).0 == old(
                    self,
                ).tiles@[j].0 && final(self).tiles@[j].1@.len() == 0,
            r.deep_view() == flat_hand_views(old(self).tiles@),
    {
        let ghost g = *old(self);
        let mut r: Vec<RegularTile<4>> = Vec::new();
        let n = self.tiles.len();
        let mut i: usize = 0;
        while i < n
            invariant
                g.wf(),
                n == self.tiles@.len(),
                n == g.tiles@.len(),
                i <= n,
                forall|j: int|
                    0 <= j < n as int ==> (#[trigger] self.tiles@[j]).0 == g.tiles@[j].0,
                forall|j: int| 0 <= j < i as int ==> (#[trigger] self.tiles@[j]).1@.len() == 0,
                forall|j: int| i as int <= j < n as int ==> (#[trigger] self.tiles@[j]) == g.tiles@[
                    j],
                r.deep_view() == flat_hand_views(g.tiles@.take(i as int)),
                self.wf(),
            decreases n - i,
        {
            let ghost old_r = r@;
            let kind = self.tiles[i].0;
            let mut entry = self.tiles.remove(i);
            let mut moved: Vec<RegularTile<4>> = Vec::new();
            core::mem::swap(&mut entry.1, &mut moved);
            self.tiles.insert(i, entry);
            r.append(&mut moved);
            proof {
                assert(self.tiles@ =~= g.tiles@.update(i as int, self.tiles@[i as int]));
                lemma_flat_hand_views_take_step(g.tiles@, i as int);
                assert(r.deep_view() =~= flat_hand_views(g.tiles@.take(i as int + 1)));
            }
            i = i + 1;
        }
        proof {
            assert(g.tiles@.take(n as int) =~= g.tiles@);
        }
        r
    }

    /// Returns the state of `player` visible to `looker`: the same
    /// hand with every tile's visibility forced to what `looker` is
    /// allowed to see.
    pub fn visible_state(&self, player: u32, looker: Looker) -> (r: PlayerState)
        requires
            self.wf(),
        ensures
            r.wf(),
            r.tiles@.len() == self.tiles@.len(),
            forall|i: int|
                0 <= i < self.tiles@.len() ==> {
                    &&& (#[trigger] r.tiles@[i]).0 == self.tiles@[i].0
                    &&& r.tiles@[i].1@.len() == self.tiles@[i].1@.len()
                    &&& forall|j: int|
                        0 <= j < self.tiles@[i].1@.len() ==> (#[trigger] r.tiles@[i].1@[j])@ == (
                        TileView {
                            conn: self.tiles@[i].1@[j]@.conn,
                            visible: looker.sees_player(player),
                        })
                },
    {
        let vis = looker.sees(player);
        let mut tiles: Vec<(BaseKind, Vec<RegularTile<4>>)> = Vec::new();
        let mut i: usize = 0;
        while i < self.tiles.len()
            invariant
                self.wf(),
                vis == looker.sees_player(player),
                i <= self.tiles@.len(),
                tiles@.len() == i as int,
                forall|q: int|
                    0 <= q < i as int ==> {
                        &&& (#[trigger] tiles@[q]).0 == self.tiles@[q].0
                        &&& tiles@[q].1@.len() == self.tiles@[q].1@.len()
                        &&& forall|j: int|
                            0 <= j < self.tiles@[q].1@.len() ==> (#[trigger] tiles@[q].1@[j])@ == (
                            TileView { conn: self.tiles@[q].1@[j]@.conn, visible: vis })
                    },
            decreases self.tiles@.len() - i,
        {
            let src = &self.tiles[i].1;
            let mut hand: Vec<RegularTile<4>> = Vec::new();
            let mut j: usize = 0;
            while j < src.len()
                invariant
                    j <= src@.len(),
                    hand@.len() == j as int,
                    forall|q: int|
                        0 <= q < j as int ==> (#[trigger] hand@[q])@ == (TileView {
                            conn: src@[q]@.conn,
                            visible: vis,
                        }),
                decreases src@.len() - j,
            {
                hand.push(src[j].duplicate().with_visible(vis));
                j = j + 1;
            }
            tiles.push((self.tiles[i].0, hand));
            i = i + 1;
        }
        let r = PlayerState { tiles };
        proof {
            assert forall|i: int, j: int|
                0 <= i < j < r.tiles@.len() implies (#[trigger] r.tiles@[i]).0 != (
            #[trigger] r.tiles@[j]).0 by {
                assert(r.tiles@[i].0 == self.tiles@[i].0);
                assert(r.tiles@[j].0 == self.tiles@[j].0);
            }
        }
        r
    }
}

/// With the single universal kind in its one hand slot, the hand of
/// that kind is the slot's tile list.
pub proof fn lemma_kind_at_zero(s: PlayerState)
    requires
        s.wf(),
        s.tiles@.len() == 1,
        s.tiles@[0].0 == BaseKind::Unit,
    ensures
        s.has_kind(BaseKind::Unit),
        s.kind_at(BaseKind::Unit) == 0,
        s.hand(BaseKind::Unit) == s.tiles@[0].1@,
{
    lemma_kind_at_unique(s, BaseKind::Unit, 0);
}

/// If entry `i` holds `kind` and keys are distinct, `kind_at` is `i`.
proof fn lemma_kind_at_unique(s: PlayerState, kind: BaseKind, i: int)
    requires
        s.wf(),
        0 <= i < s.tiles@.len(),
        s.tiles@[i].0 == kind,
    ensures
        s.has_kind(kind),
        s.kind_at(kind) == i,
{
    assert(s.has_kind(kind));
    let w = s.kind_at(kind);
    assert(s.tiles@[w].0 == kind);
    if w < i {
        assert(s.tiles@[w].0 != s.tiles@[i].0);
    }
    if w > i {
        assert(s.tiles@[i].0 != s.tiles@[w].0);
    }
}

/// Flattening the first `i + 1` hands appends the `i`-th hand's views
/// to the flattening of the first `i`.
proof fn lemma_flat_hand_views_take_step(s: Seq<(BaseKind, Vec<RegularTile<4>>)>, i: int)
    requires
        0 <= i < s.len(),
    ensures
        flat_hand_views(s.take(i + 1)) == flat_hand_views(s.take(i)) + s[i].1.deep_view(),
    decreases i,
{
    if i == 0 {
        assert(s.take(1).drop_first() =~= Seq::empty());
        assert(s.take(0) =~= Seq::<(BaseKind, Vec<RegularTile<4>>)>::empty());
        assert(flat_hand_views(s.take(1)) =~= s[0].1.deep_view());
        assert(flat_hand_views(s.take(1)) == flat_hand_views(s.take(0)) + s[0].1.deep_view());
    } else {
        lemma_flat_hand_views_take_step(s.drop_first(), i - 1);
        assert(s.take(i + 1).drop_first() =~= s.drop_first().take(i));
        assert(s.take(i).drop_first() =~= s.drop_first().take(i - 1));
        assert(flat_hand_views(s.take(i + 1)) == s[0].1.deep_view() + flat_hand_views(
            s.drop_first().take(i),
        ));
        assert(flat_hand_views(s.take(i)) == s[0].1.deep_view() + flat_hand_views(
            s.drop_first().take(i - 1),
        ));
        assert(flat_hand_views(s.take(i + 1)) =~= flat_hand_views(s.take(i)) + s[i].1.deep_view());
    }
}

} // verus!
