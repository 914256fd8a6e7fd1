//! Tiles and the symmetry group actions that act on them.
//!
//! A tile is a perfect matching of its ports (every port is paired with
//! exactly one other port) together with a visibility flag used by the
//! information-hiding layer.  Group actions model orientations: cyclic
//! rotations and dihedral rotation-plus-reflection transforms.

use vstd::prelude::*;

verus! {

use vstd::arithmetic::div_mod::*;
use vstd::arithmetic::mul::*;
use crate::board::PortsPerEdgeTileConfig;

/// A category tag partitioning tiles and locations into mutually
/// compatible families.  The shipped game uses one universal kind.
#[derive(Clone, Copy, Debug, PartialEq, Eq, Structural, Hash)]
pub enum BaseKind {
    Unit,
}

/// Action on a cyclic group of size `size`: a pure rotation.
#[derive(Clone, Copy, Debug, PartialEq, Eq, Structural, Hash)]
pub struct CycleGAct {
    pub rotation: i32,
    pub size: u32,
}

impl CycleGAct {
    /// A group action is well formed when its rotation is reduced
    /// modulo its (positive, machine-representable) cycle size.
    pub open spec fn wf(self) -> bool {
        &&& 1 <= self.size <= i32::MAX
        &&& 0 <= self.rotation < self.size
    }

    pub fn rotation(&self) -> (r: i32)
        ensures
            r == self.rotation,
    {
        self.rotation
    }

    pub fn size(&self) -> (r: u32)
        ensures
            r == self.size,
    {
        self.size
    }

    /// Compose this group action with another: the rotations add
    /// modulo the common cycle size.
    pub fn compose(&self, other: &Self) -> (r: Self)
        requires
            self.wf(),
            other.wf(),
            self.size == other.size,
        ensures
            r == (CycleGAct {
                rotation: ((self.rotation + other.rotation) % (self.size as int)) as i32,
                size: self.size,
            }),
            r.wf(),
    {
        let n: i64 = self.size as i64;
        let sum: i64 = self.rotation as i64 + other.rotation as i64;
        let rot: i64 = if sum < n {
            sum
        } else {
            sum - n
        };
        proof {
            if sum < n {
                lemma_small_mod(sum as nat, n as nat);
            } else {
                vstd::arithmetic::div_mod::lemma_mod_sub_multiples_vanish(sum as int, n as int);
                lemma_small_mod(rot as nat, n as nat);
            }
        }
        CycleGAct { rotation: rot as i32, size: self.size }
    }
}

/// Action on a dihedral group over a cycle of size `size`: an optional
/// reflection across the axis through element 0, followed by a rotation.
#[derive(Clone, Copy, Debug, PartialEq, Eq, Structural, Hash)]
pub struct DihedralGAct {
    pub rotation: i32,
    pub reflected: bool,
    pub size: u32,
}

impl DihedralGAct {
    pub open spec fn wf(self) -> bool {
        &&& 1 <= self.size <= i32::MAX
        &&& 0 <= self.rotation < self.size
    }

    pub fn rotation(&self) -> (r: i32)
        ensures
            r == self.rotation,
    {
        self.rotation
    }

    pub fn reflected(&self) -> (r: bool)
        ensures
            r == self.reflected,
    {
        self.reflected
    }

    pub fn size(&self) -> (r: u32)
        ensures
            r == self.size,
    {
        self.size
    }

    /// Compose this group action with another, read as "apply `self`,
    /// then apply `other`": the standard semidirect composition.
    pub fn compose(&self, other: &Self) -> (r: Self)
        requires
            self.wf(),
            other.wf(),
            self.size == other.size,
        ensures
            r == (DihedralGAct {
                rotation: (((if other.reflected { -self.rotation as int } else { self.rotation as int })
                    + other.rotation) % (self.size as int)) as i32,
                reflected: self.reflected != other.reflected,
                size: self.size,
            }),
            r.wf(),
    {
        let n: i64 = self.size as i64;
        let signed: i64 = if other.reflected { -(self.rotation as i64) } else { self.rotation as i64 };
        let sum: i64 = signed + other.rotation as i64;
        let rot: i64 = if sum < 0 {
            sum + n
        } else if sum < n {
            sum
        } else {
            sum - n
        };
        proof {
            if sum < 0 {
                lemma_mod_add_multiples_vanish(sum as int, n as int);
            } else if sum >= n {
                vstd::arithmetic::div_mod::lemma_mod_sub_multiples_vanish(sum as int, n as int);
            }
            lemma_small_mod(rot as nat, n as nat);
        }
        DihedralGAct { rotation: rot as i32, reflected: self.reflected != other.reflected, size: self.size }
    }
}

/// The closed union of the supported group-action families.
#[derive(Clone, Copy, Debug, PartialEq, Eq, Structural, Hash)]
pub enum BaseGAct {
    Cycle(CycleGAct),
    Dihedral(DihedralGAct),
}

impl BaseGAct {
    pub open spec fn wf(self) -> bool {
        match self {
            BaseGAct::Cycle(a) => a.wf(),
            BaseGAct::Dihedral(a) => a.wf(),
        }
    }

    /// Whether two actions belong to the same family and cycle size,
    /// so that composing them is meaningful.
    pub open spec fn composable(self, other: BaseGAct) -> bool {
        match (self, other) {
            (BaseGAct::Cycle(a), BaseGAct::Cycle(b)) => a.size == b.size,
            (BaseGAct::Dihedral(a), BaseGAct::Dihedral(b)) => a.size == b.size,
            _ => false,
        }
    }

    /// Compose this group action with another of the same family.
    pub fn compose(&self, other: &Self) -> (r: Self)
        requires
            self.wf(),
            other.wf(),
            self.composable(*other),
        ensures
            r.wf(),
            (match (*self, *other) {
                (BaseGAct::Cycle(a), BaseGAct::Cycle(b)) => r == BaseGAct::Cycle(a.compose_spec_cycle(b)),
                (BaseGAct::Dihedral(a), BaseGAct::Dihedral(b)) => r == BaseGAct::Dihedral(
                    a.compose_spec_dihedral(b),
                ),
                _ => false,
            }),
    {
        match (self, other) {
            (BaseGAct::Cycle(a), BaseGAct::Cycle(b)) => BaseGAct::Cycle(a.compose(b)),
            (BaseGAct::Dihedral(a), BaseGAct::Dihedral(b)) => BaseGAct::Dihedral(a.compose(b)),
            _ => unreached(),
        }
    }
}

impl CycleGAct {
    /// The mathematical value of cyclic composition.
    pub open spec fn compose_spec_cycle(self, other: CycleGAct) -> CycleGAct {
        CycleGAct {
            rotation: ((self.rotation + other.rotation) % (self.size as int)) as i32,
            size: self.size,
        }
    }
}

/// A rotation of a connection pattern: every port index is shifted by
/// `off` positions (modulo the pattern length), and so is every paired
/// index stored in the pattern.
pub open spec fn rotate_conn(c: Seq<u32>, off: int) -> Seq<u32> {
    Seq::new(
        c.len(),
        |i: int| (((c[(i - off) % (c.len() as int)] + off) % (c.len() as int)) as u32),
    )
}

/// The mathematical value of a tile: its connection pattern and its
/// visibility flag.
#[verifier::ext_equal]
pub ghost struct TileView {
    pub conn: Seq<u32>,
    pub visible: bool,
}

/// A regular-polygon-shaped tile with `EDGES` edges, represented by a
/// perfect matching over `EDGES * ports_per_edge` ports: entry `i` of
/// the connection pattern names the port paired with port `i`.
#[derive(Clone, Debug, Hash)]
#[verifier::ext_equal]
pub struct RegularTile<const EDGES: u32> {
    pub connections: Vec<u32>,
    pub visible: bool,
}

impl<const EDGES: u32> View for RegularTile<EDGES> {
    type V = TileView;

    open spec fn view(&self) -> TileView {
        TileView { conn: self.connections@, visible: self.visible }
    }
}

impl<const EDGES: u32> PartialEq for RegularTile<EDGES> {
    /// Tiles compare by their connection pattern alone: visibility is
    /// information-hiding state, not identity.
    fn eq(&self, other: &Self) -> (r: bool) {
        conns_equal(&self.connections, &other.connections)
    }
}

impl<const EDGES: u32> vstd::std_specs::cmp::PartialEqSpecImpl for RegularTile<EDGES> {
    open spec fn obeys_eq_spec() -> bool {
        true
    }

    open spec fn eq_spec(&self, other: &Self) -> bool {
        self.connections@ == other.connections@
    }
}

impl<const EDGES: u32> DeepView for RegularTile<EDGES> {
    type V = TileView;

    open spec fn deep_view(&self) -> TileView {
        self@
    }
}

/// An explicit copy of a tile list, with its contents specified.
pub fn clone_tiles<const EDGES: u32>(v: &Vec<RegularTile<EDGES>>) -> (r: Vec<RegularTile<EDGES>>)
    ensures
        r@.len() == v@.len(),
        forall|i: int| 0 <= i < v@.len() ==> (#[trigger] r@[i])@ == v@[i]@,
{
    let mut r: Vec<RegularTile<EDGES>> = Vec::new();
    let mut i: usize = 0;
    while i < v.len()
        invariant
            i <= v@.len(),
            r@.len() == i as int,
            forall|j: int| 0 <= j < i as int ==> (#[trigger] r@[j])@ == v@[j]@,
        decreases v@.len() - i,
    {
        r.push(v[i].duplicate());
        i = i + 1;
    }
    r
}

impl<const EDGES: u32> RegularTile<EDGES> {
    /// The connection pattern as a mathematical sequence.
    pub open spec fn conn(self) -> Seq<u32> {
        self.connections@
    }

    /// A tile is well formed when its pattern length is a positive
    /// multiple of the edge count that fits the machine, and the
    /// pattern is a perfect matching: an involution without fixed
    /// points whose entries stay in range.
    pub open spec fn wf(self) -> bool {
        let n = self.connections@.len() as int;
        &&& 1 <= EDGES as int
        &&& 1 <= n <= u32::MAX as int
        &&& n % (EDGES as int) == 0
        &&& forall|i: int|
            0 <= i < n ==> {
                &&& (#[trigger] self.connections@[i]) < n
                &&& self.connections@[self.connections@[i] as int] == i
                &&& self.connections@[i] as int != i
            }
    }

    /// The rotation offset, in port positions, of rotating this tile
    /// `k` times clockwise.
    pub open spec fn rotate_offset(self, k: int) -> int {
        let n = self.connections@.len() as int;
        (k * (n / EDGES as int)) % n
    }

    /// Whether `r` is this tile rotated `k` times clockwise.
    pub open spec fn is_rotation_by(r: Self, t: Self, k: int) -> bool {
        &&& r.connections@ == rotate_conn(t.connections@, t.rotate_offset(k))
        &&& r.visible == t.visible
    }

    pub fn new(connections: Vec<u32>) -> (r: Self)
        ensures
            r.connections@ == connections@,
            r.visible == true,
    {
        Self { connections, visible: true }
    }

    pub fn ports_per_edge(&self) -> (r: u32)
        requires
            1 <= EDGES as int,
            self.connections@.len() <= u32::MAX,
        ensures
            r as int == self.connections@.len() as int / EDGES as int,
    {
        self.connections.len() as u32 / EDGES
    }

    /// The number of ports on this tile.
    pub fn num_ports(&self) -> (r: u32)
        requires
            1 <= EDGES as int,
            self.connections@.len() <= u32::MAX,
        ensures
            r as int == (self.connections@.len() as int / EDGES as int) * EDGES as int,
            self.wf() ==> r as int == self.connections@.len() as int,
    {
        proof {
            let n = self.connections@.len() as int;
            let e = EDGES as int;
            lemma_fundamental_div_mod(n, e);
            lemma_mod_bound(n, e);
            assert((n / e) * e <= n) by (nonlinear_arith)
                requires
                    n == e * (n / e) + n % e,
                    n % e >= 0,
            ;
            assert((n / e) * e == e * (n / e)) by (nonlinear_arith);
        }
        self.ports_per_edge() * EDGES
    }

    /// The kind of the tile.
    pub fn kind(&self) -> (r: BaseKind)
        ensures
            r == BaseKind::Unit,
    {
        BaseKind::Unit
    }

    /// The output port of some input port on the tile.
    pub fn output(&self, input: u32) -> (r: u32)
        requires
            (input as int) < self.connections@.len(),
        ensures
            r == self.connections@[input as int],
    {
        self.connections[input as usize]
    }

    /// Whether the tile is visible to whoever has the reference.
    pub fn visible(&self) -> (r: bool)
        ensures
            r == self.visible,
    {
        self.visible
    }

    /// Set the visibility of this tile using the builder pattern.
    pub fn with_visible(self, visible: bool) -> (r: Self)
        ensures
            r.connections@ == self.connections@,
            r.visible == visible,
    {
        let mut r = self;
        r.visible = visible;
        r
    }

    /// Set the visibility of this tile.
    pub fn set_visible(&mut self, visible: bool)
        ensures
            final(self).connections@ == old(self).connections@,
            final(self).visible == visible,
    {
        self.visible = visible;
    }

    /// Generate the identity group action.
    pub fn identity_action(&self) -> (r: CycleGAct)
        requires
            1 <= EDGES as int <= i32::MAX as int,
        ensures
            r == (CycleGAct { rotation: 0, size: EDGES }),
            r.wf(),
    {
        CycleGAct { rotation: 0, size: EDGES }
    }

    /// Generate a rotation group action that rotates `num_times` times
    /// clockwise.
    pub fn rotation_action(&self, num_times: i32) -> (r: CycleGAct)
        requires
            1 <= EDGES as int <= i32::MAX as int,
        ensures
            r == (CycleGAct {
                rotation: ((num_times as int) % (EDGES as int)) as i32,
                size: EDGES,
            }),
            r.wf(),
    {
        proof {
            lemma_mod_bound(num_times as int, EDGES as int);
        }
        let rot: i32 = num_times.checked_rem_euclid(EDGES as i32).unwrap();
        CycleGAct { rotation: rot, size: EDGES }
    }

    /// Apply a group action to this tile.
    pub fn apply_action(&self, action: &CycleGAct) -> (r: Self)
        requires
            self.wf(),
        ensures
            Self::is_rotation_by(r, *self, action.rotation as int),
            r.wf(),
            r.connections@.len() == self.connections@.len(),
    {
        self.rotate(action.rotation)
    }

    /// Rotate the tile `num_times` times clockwise: the connection
    /// pattern shifts by `num_times * ports_per_edge` positions.
    pub fn rotate(&self, num_times: i32) -> (r: Self)
        requires
            self.wf(),
        ensures
            Self::is_rotation_by(r, *self, num_times as int),
            r.wf(),
            r.connections@.len() == self.connections@.len(),
    {
        let n: u32 = self.connections.len() as u32;
        let ppe: u32 = n / EDGES;
        proof {
            assert(i128::MIN <= num_times as int * ppe as int <= i128::MAX) by (nonlinear_arith)
                requires
                    i32::MIN <= num_times as int <= i32::MAX,
                    0 <= ppe as int <= u32::MAX,
            ;
        }
        let prod: i128 = num_times as i128 * ppe as i128;
        proof {
            lemma_mod_bound(prod as int, n as int);
        }
        let offset: u32 = prod.checked_rem_euclid(n as i128).unwrap() as u32;
        let ghost c = self.connections@;
        let ghost goal = rotate_conn(c, offset as int);
        let mut rotated: Vec<u32> = Vec::new();
        let mut i: u32 = 0;
        while i < n
            invariant
                self.wf(),
                n == c.len(),
                c == self.connections@,
                0 <= offset < n,
                goal == rotate_conn(c, offset as int),
                i <= n,
                rotated@.len() == i as int,
                forall|j: int| 0 <= j < i as int ==> rotated@[j] == goal[j],
            decreases n - i,
        {
            let si: u32 = ((i as u64 + n as u64 - offset as u64) % (n as u64)) as u32;
            proof {
                lemma_mod_bound(i + n - offset, n as int);
                lemma_mod_add_multiples_vanish(i - offset, n as int);
                assert(si as int == (i as int - offset as int) % (n as int));
            }
            let v: u32 = ((self.connections[si as usize] as u64 + offset as u64) % (n as u64)) as u32;
            rotated.push(v);
            proof {
                assert(v == goal[i as int]);
            }
            i = i + 1;
        }
        let r = Self { connections: rotated, visible: self.visible };
        proof {
            assert(r.connections@ =~= goal);
            assert(self.rotate_offset(num_times as int) == offset as int) by {
                assert(ppe as int == c.len() as int / EDGES as int);
            }
            lemma_rotate_conn_preserves_wf::<EDGES>(c, offset as int);
            assert(r.wf());
        }
        r
    }
}

impl<const EDGES: u32> RegularTile<EDGES> {
    /// An explicit copy of the tile, with its contents specified.
    pub fn duplicate(&self) -> (r: Self)
        ensures
            r.connections@ == self.connections@,
            r.visible == self.visible,
    {
        let n = self.connections.len();
        let mut conn: Vec<u32> = Vec::new();
        let mut i: usize = 0;
        while i < n
            invariant
                i <= n,
                n == self.connections@.len(),
                conn@.len() == i as int,
                forall|j: int| 0 <= j < i as int ==> conn@[j] == self.connections@[j],
            decreases n - i,
        {
            conn.push(self.connections[i]);
            i = i + 1;
        }
        proof {
            assert(conn@ =~= self.connections@);
        }
        Self { connections: conn, visible: self.visible }
    }

    /// All rotations of this tile, by `0` to `EDGES - 1` turns.
    pub fn all_rotations(&self) -> (r: Vec<Self>)
        requires
            self.wf(),
            EDGES as int <= i32::MAX as int,
        ensures
            r@.len() == EDGES as int,
            forall|k: int|
                0 <= k < EDGES as int ==> {
                    &&& Self::is_rotation_by(#[trigger] r@[k], *self, k)
                    &&& r@[k].wf()
                    &&& r@[k].connections@.len() == self.connections@.len()
                },
    {
        let mut r: Vec<Self> = Vec::new();
        let mut k: u32 = 0;
        while k < EDGES
            invariant
                self.wf(),
                EDGES as int <= i32::MAX as int,
                k <= EDGES,
                r@.len() == k as int,
                forall|j: int|
                    0 <= j < k as int ==> {
                        &&& Self::is_rotation_by(#[trigger] r@[j], *self, j)
                        &&& r@[j].wf()
                        &&& r@[j].connections@.len() == self.connections@.len()
                    },
            decreases EDGES - k,
        {
            r.push(self.rotate(k as i32));
            k = k + 1;
        }
        r
    }

    /// Law: rotation is a group action.  Rotating a tile `a` times and
    /// then `b` times gives the same tile as rotating it `a + b` times
    /// at once, and likewise `(a + b)` reduced modulo the edge count.
    pub proof fn lemma_rotation_group_action(t: Self, u: Self, v: Self, w: Self, a: int, b: int)
        requires
            t.wf(),
            Self::is_rotation_by(u, t, a),
            Self::is_rotation_by(v, u, b),
            Self::is_rotation_by(w, t, a + b),
        ensures
            v@ == w@,
    {
        let c = t.connections@;
        let n = c.len() as int;
        let e = EDGES as int;
        let ppe = n / e;
        let oa = (a * ppe) % n;
        let ob = (b * ppe) % n;
        lemma_mod_bound(a * ppe, n);
        lemma_mod_bound(b * ppe, n);
        assert(u.connections@.len() == n);
        assert(u.rotate_offset(b) == ob);
        lemma_rotate_conn_compose(c, oa, ob);
        assert(v.connections@ == rotate_conn(c, (oa + ob) % n));
        lemma_add_mod_noop(a * ppe, b * ppe, n);
        assert((a + b) * ppe == a * ppe + b * ppe) by (nonlinear_arith);
        assert((oa + ob) % n == ((a + b) * ppe) % n);
        assert(v.connections@ =~= w.connections@);
        assert(v@ =~= w@);
    }

    /// Law: rotating a tile zero times leaves it unchanged.
    #[verifier::rlimit(100)]
    pub proof fn lemma_rotation_zero_identity(t: Self, u: Self)
        requires
            t.wf(),
            Self::is_rotation_by(u, t, 0),
        ensures
            u@ == t@,
    {
        let c = t.connections@;
        let n = c.len() as int;
        let ppe = n / (EDGES as int);
        assert(0 * ppe == 0) by (nonlinear_arith);
        lemma_small_mod(0, n as nat);
        assert(t.rotate_offset(0) == 0);
        let d = rotate_conn(c, 0);
        assert forall|i: int| 0 <= i < n implies d[i] == c[i] by {
            lemma_small_mod(i as nat, n as nat);
            lemma_small_mod(c[i] as nat, n as nat);
        }
        assert(u.connections@ =~= t.connections@);
        assert(u@ =~= t@);
    }

    /// Law: reducing the turn count modulo the edge count does not
    /// change the rotation offset.
    pub proof fn lemma_rotate_offset_mod_edges(t: Self, k: int)
        requires
            t.wf(),
        ensures
            t.rotate_offset(k % (EDGES as int)) == t.rotate_offset(k),
    {
        let c = t.connections@;
        let n = c.len() as int;
        let e = EDGES as int;
        let ppe = n / e;
        let q = k / e;
        lemma_fundamental_div_mod(k, e);
        lemma_fundamental_div_mod(n, e);
        assert(n == e * ppe);
        assert((k % e) * ppe == k * ppe - q * n) by (nonlinear_arith)
            requires
                k % e == k - e * q,
                n == e * ppe,
        ;
        lemma_mod_multiples_vanish(-q, k * ppe, n);
        assert((n * -q + k * ppe) % n == (k * ppe) % n);
        assert((k % e) * ppe == n * -q + k * ppe) by (nonlinear_arith)
            requires
                (k % e) * ppe == k * ppe - q * n,
        ;
    }

    /// Law: a well-formed tile's pattern is a perfect matching: feeding
    /// a port's output back in returns the port, and no port maps to
    /// itself.
    pub proof fn lemma_matching_validity(t: Self, p: int)
        requires
            t.wf(),
            0 <= p < t.connections@.len(),
        ensures
            t.connections@[p] < t.connections@.len(),
            t.connections@[t.connections@[p] as int] == p,
            t.connections@[p] as int != p,
    {
    }
}

/// Strict lexicographic order on connection patterns; a proper prefix
/// precedes its extensions.
pub open spec fn conn_lex_lt(a: Seq<u32>, b: Seq<u32>) -> bool
    decreases a.len(),
{
    if b.len() == 0 {
        false
    } else if a.len() == 0 {
        true
    } else if a[0] < b[0] {
        true
    } else if a[0] > b[0] {
        false
    } else {
        conn_lex_lt(a.drop_first(), b.drop_first())
    }
}

/// No pattern lexicographically precedes itself.
proof fn lemma_lex_irrefl(a: Seq<u32>)
    ensures
        !conn_lex_lt(a, a),
    decreases a.len(),
{
    if a.len() > 0 {
        lemma_lex_irrefl(a.drop_first());
    }
}

/// The lexicographic order is transitive.
proof fn lemma_lex_trans(a: Seq<u32>, b: Seq<u32>, c: Seq<u32>)
    requires
        conn_lex_lt(a, b),
        conn_lex_lt(b, c),
    ensures
        conn_lex_lt(a, c),
    decreases a.len(),
{
    if c.len() == 0 || a.len() == 0 {
    } else if b.len() == 0 {
    } else {
        if a[0] == b[0] && b[0] == c[0] {
            lemma_lex_trans(a.drop_first(), b.drop_first(), c.drop_first());
        }
    }
}

/// Two patterns neither of which lexicographically precedes the other
/// are equal.
proof fn lemma_lex_connected(a: Seq<u32>, b: Seq<u32>)
    requires
        !conn_lex_lt(a, b),
        !conn_lex_lt(b, a),
    ensures
        a == b,
    decreases a.len(),
{
    if a.len() == 0 || b.len() == 0 {
        assert(a =~= b);
    } else {
        assert(a[0] == b[0]) by {
            if a[0] < b[0] {
                assert(conn_lex_lt(a, b));
            }
            if a[0] > b[0] {
                assert(conn_lex_lt(b, a));
            }
        }
        assert(!conn_lex_lt(a.drop_first(), b.drop_first()));
        assert(!conn_lex_lt(b.drop_first(), a.drop_first()));
        lemma_lex_connected(a.drop_first(), b.drop_first());
        assert(a.len() == b.len());
        assert forall|i: int| 0 <= i < a.len() implies a[i] == b[i] by {
            if i > 0 {
                assert(a[i] == a.drop_first()[i - 1]);
                assert(b[i] == b.drop_first()[i - 1]);
            }
        }
        assert(a =~= b);
    }
}

/// Whether two connection-pattern vectors hold the same pattern.
fn conns_equal(a: &Vec<u32>, b: &Vec<u32>) -> (r: bool)
    ensures
        r == (a@ == b@),
{
    if a.len() != b.len() {
        return false;
    }
    let n = a.len();
    let mut i: usize = 0;
    while i < n
        invariant
            i <= n,
            n == a@.len(),
            n == b@.len(),
            forall|j: int| 0 <= j < i as int ==> a@[j] == b@[j],
        decreases n - i,
    {
        if a[i] != b[i] {
            return false;
        }
        i = i + 1;
    }
    proof {
        assert(a@ =~= b@);
    }
    true
}

/// Whether pattern `a` lexicographically precedes pattern `b`.
fn conn_less(a: &Vec<u32>, b: &Vec<u32>) -> (r: bool)
    ensures
        r == conn_lex_lt(a@, b@),
{
    let m = if a.len() < b.len() {
        a.len()
    } else {
        b.len()
    };
    let mut i: usize = 0;
    proof {
        assert(a@.skip(0) =~= a@);
        assert(b@.skip(0) =~= b@);
    }
    while i < m
        invariant
            i <= m,
            m == if a@.len() < b@.len() { a@.len() } else { b@.len() },
            conn_lex_lt(a@, b@) == conn_lex_lt(a@.skip(i as int), b@.skip(i as int)),
        decreases m - i,
    {
        let ghost sa = a@.skip(i as int);
        let ghost sb = b@.skip(i as int);
        proof {
            assert(sa[0] == a@[i as int]);
            assert(sb[0] == b@[i as int]);
        }
        if a[i] < b[i] {
            return true;
        }
        if a[i] > b[i] {
            return false;
        }
        proof {
            assert(sa.drop_first() =~= a@.skip(i as int + 1));
            assert(sb.drop_first() =~= b@.skip(i as int + 1));
        }
        i = i + 1;
    }
    proof {
        assert(a@.skip(m as int).len() == a@.len() - m);
        assert(b@.skip(m as int).len() == b@.len() - m);
    }
    a.len() < b.len()
}

impl<const EDGES: u32> RegularTile<EDGES> {
    /// The canonical orientation of this tile: the lexicographically
    /// least among its rotations.
    pub fn canonical(&self) -> (r: Self)
        requires
            self.wf(),
            EDGES as int <= i32::MAX as int,
        ensures
            r.wf(),
            r.connections@.len() == self.connections@.len(),
            r.visible == self.visible,
            exists|k: int| 0 <= k < EDGES as int && Self::is_rotation_by(r, *self, k),
            forall|k: int|
                0 <= k < EDGES as int ==> !conn_lex_lt(
                    rotate_conn(self.connections@, self.rotate_offset(k)),
                    r.connections@,
                ),
    {
        let rots = self.all_rotations();
        let mut best: Self = rots[0].duplicate();
        proof {
            assert(best.connections@ == rots@[0].connections@ && best.visible == rots@[0].visible);
            lemma_lex_irrefl(best.connections@);
        }
        let mut idx: usize = 1;
        while idx < rots.len()
            invariant
                self.wf(),
                EDGES as int <= i32::MAX as int,
                1 <= idx <= rots@.len(),
                rots@.len() == EDGES as int,
                forall|k: int|
                    0 <= k < EDGES as int ==> {
                        &&& Self::is_rotation_by(#[trigger] rots@[k], *self, k)
                        &&& rots@[k].wf()
                        &&& rots@[k].connections@.len() == self.connections@.len()
                    },
                exists|k: int|
                    0 <= k < idx as int && best.connections@ == rots@[k].connections@
                        && best.visible == rots@[k].visible,
                forall|k: int|
                    0 <= k < idx as int ==> !conn_lex_lt(
                        (#[trigger] rots@[k]).connections@,
                        best.connections@,
                    ),
            decreases rots@.len() - idx,
        {
            if conn_less(&rots[idx].connections, &best.connections) {
                let ghost old_best = best;
                best = rots[idx].duplicate();
                proof {
                    lemma_lex_irrefl(best.connections@);
                    assert forall|k: int| 0 <= k < idx as int + 1 implies !conn_lex_lt(
                        (#[trigger] rots@[k]).connections@,
                        best.connections@,
                    ) by {
                        if k < idx as int {
                            if conn_lex_lt(rots@[k].connections@, best.connections@) {
                                lemma_lex_trans(
                                    rots@[k].connections@,
                                    best.connections@,
                                    old_best.connections@,
                                );
                            }
                        }
                    }
                }
            }
            idx = idx + 1;
        }
        proof {
            let k = choose|k: int|
                0 <= k < EDGES as int && best.connections@ == rots@[k].connections@
                    && best.visible == rots@[k].visible;
            assert(Self::is_rotation_by(best, *self, k));
            assert forall|j: int| 0 <= j < EDGES as int implies !conn_lex_lt(
                rotate_conn(self.connections@, self.rotate_offset(j)),
                best.connections@,
            ) by {
                assert(rots@[j].connections@ == rotate_conn(
                    self.connections@,
                    self.rotate_offset(j),
                ));
            }
        }
        best
    }
}

/// The number of perfect matchings of `n` ports: the double factorial
/// `(n - 1) * (n - 3) * ... * 1` for even `n`.
pub open spec fn num_matchings(n: nat) -> nat
    decreases n,
{
    if n <= 1 {
        1
    } else {
        ((n - 1) as nat) * num_matchings((n - 2) as nat)
    }
}

/// Every matching count is at least one.
proof fn lemma_num_matchings_pos(n: nat)
    ensures
        num_matchings(n) >= 1,
    decreases n,
{
    if n > 1 {
        lemma_num_matchings_pos((n - 2) as nat);
        assert((n - 1) * num_matchings((n - 2) as nat) >= 1) by (nonlinear_arith)
            requires
                n >= 2,
                num_matchings((n - 2) as nat) >= 1,
        ;
    }
}

/// Removing an entry from a duplicate-free sequence removes exactly
/// that value from its membership.
proof fn lemma_remove_membership(s: Seq<u32>, d: int)
    requires
        s.no_duplicates(),
        0 <= d < s.len(),
    ensures
        s.remove(d).no_duplicates(),
        forall|e: u32| s.remove(d).contains(e) <==> (s.contains(e) && e != s[d]),
{
    s.remove_ensures(d);
    let t = s.remove(d);
    assert forall|e: u32| t.contains(e) implies s.contains(e) && e != s[d] by {
        let k = choose|k: int| 0 <= k < t.len() && t[k] == e;
        if k < d {
            assert(s[k] == e);
        } else {
            assert(s[k + 1] == e);
        }
    }
    assert forall|e: u32| s.contains(e) && e != s[d] implies t.contains(e) by {
        let k = choose|k: int| 0 <= k < s.len() && s[k] == e;
        if k < d {
            assert(t[k] == e);
        } else {
            assert(k > d);
            assert(t[k - 1] == e);
        }
    }
    assert forall|x: int, y: int| 0 <= x < y < t.len() implies t[x] != t[y] by {
        let sx: int = if x < d { x } else { x + 1 };
        let sy: int = if y < d { y } else { y + 1 };
        assert(t[x] == s[sx]);
        assert(t[y] == s[sy]);
    }
}

/// The numbers `0 .. n` in order.
pub open spec fn id_seq(n: int) -> Seq<u32> {
    Seq::new(n as nat, |k: int| k as u32)
}

/// Whether `c` is a perfect matching of `np` ports: an involution
/// without fixed points whose entries stay in range.
pub open spec fn is_matching(c: Seq<u32>, np: int) -> bool {
    &&& c.len() == np
    &&& forall|i: int|
        0 <= i < np ==> {
            &&& (#[trigger] c[i]) < np
            &&& c[c[i] as int] == i
            &&& c[i] as int != i
        }
}

/// The pairing decoded from enumeration index `i` over the unused
/// numbers `avail`: repeatedly pair the lowest unused number with the
/// unused number picked by the next mixed-radix digit of `i`.
pub open spec fn decode_pairing(i: int, avail: Seq<u32>) -> Seq<u32>
    decreases avail.len(),
{
    if avail.len() < 2 {
        Seq::empty()
    } else {
        let a = avail[0];
        let rest = avail.drop_first();
        let d = i % (rest.len() as int);
        let b = rest[d];
        let rest2 = rest.remove(d);
        seq![a, b] + decode_pairing(i / (rest.len() as int), rest2)
    }
}

/// Whether `c` pairs exactly as the pairing list `pr` reads two by
/// two.
pub open spec fn matches_pairing(c: Seq<u32>, pr: Seq<u32>) -> bool {
    &&& pr.len() % 2 == 0
    &&& forall|m: int|
        0 <= m < pr.len() ==> (#[trigger] pr[m]) < c.len() && c[pr[m] as int] == pr[mate(m)]
}

/// Whether `c` is the canonical representative of its rotation class:
/// no rotation of it precedes it lexicographically.
pub open spec fn conn_canonical(c: Seq<u32>, edges: int) -> bool {
    forall|k: int| 0 <= k < edges ==> !conn_lex_lt(#[trigger] conn_rotation(c, edges, k), c)
}

/// The position paired with position `m` in a pairing list read two by
/// two: even positions mate with their successor, odd ones with their
/// predecessor.
pub open spec fn mate(m: int) -> int {
    if m % 2 == 0 {
        m + 1
    } else {
        m - 1
    }
}

/// The `k`-fold clockwise rotation of a connection pattern over
/// `edges` edges.
pub open spec fn conn_rotation(c: Seq<u32>, edges: int, k: int) -> Seq<u32> {
    rotate_conn(c, (k * (c.len() as int / edges)) % (c.len() as int))
}

/// Whether `rep` is the canonical (lexicographically least) rotation
/// of the pattern `c`.
pub open spec fn canonical_rep_of(rep: Seq<u32>, c: Seq<u32>, edges: int) -> bool {
    &&& exists|k: int| 0 <= k < edges && rep == #[trigger] conn_rotation(c, edges, k)
    &&& forall|k: int| 0 <= k < edges ==> !conn_lex_lt(#[trigger] conn_rotation(c, edges, k), rep)
}

/// Whether `cat` is the canonical tile catalogue for `np` ports: a
/// strictly sorted list of canonical matchings covering every
/// rotation class exactly once.
pub open spec fn is_canonical_catalogue(cat: Seq<RegularTile<4>>, np: int, edges: int) -> bool {
    &&& forall|x: int|
        0 <= x < cat.len() ==> is_matching((#[trigger] cat[x]).connections@, np)
            && conn_canonical(cat[x].connections@, edges)
    &&& forall|x: int, y: int|
        0 <= x < y < cat.len() ==> conn_lex_lt(
            (#[trigger] cat[x]).connections@,
            (#[trigger] cat[y]).connections@,
        )
    &&& forall|c: Seq<u32>|
        #[trigger] is_matching(c, np) && conn_canonical(c, edges) ==> exists|x: int|
            0 <= x < cat.len() && (#[trigger] cat[x]).connections@ == c
}

/// Rotating a pattern zero times leaves it unchanged.
proof fn lemma_conn_rotation_zero(c: Seq<u32>, edges: int)
    requires
        1 <= edges,
        1 <= c.len(),
        forall|i: int| 0 <= i < c.len() ==> ((#[trigger] c[i]) as int) < c.len(),
    ensures
        conn_rotation(c, edges, 0) == c,
{
    let n = c.len() as int;
    assert(0 * (n / edges) == 0) by (nonlinear_arith);
    lemma_small_mod(0nat, n as nat);
    let d = rotate_conn(c, 0);
    assert forall|i: int| 0 <= i < n implies d[i] == c[i] by {
        lemma_small_mod(i as nat, n as nat);
        lemma_small_mod(c[i] as nat, n as nat);
    }
    assert(conn_rotation(c, edges, 0) =~= c);
}

/// A decoded pairing is a permutation of the numbers it draws from.
proof fn lemma_decode_pairing_perm(i: int, avail: Seq<u32>)
    requires
        avail.no_duplicates(),
        avail.len() % 2 == 0,
        0 <= i,
    ensures
        decode_pairing(i, avail).len() == avail.len(),
        decode_pairing(i, avail).no_duplicates(),
        forall|v: u32| decode_pairing(i, avail).contains(v) <==> avail.contains(v),
    decreases avail.len(),
{
    if avail.len() < 2 {
        assert(avail.len() == 0);
        assert forall|v: u32| decode_pairing(i, avail).contains(v) <==> avail.contains(
            v,
        ) by {
            if avail.contains(v) {
                let k = choose|k: int| 0 <= k < avail.len() && avail[k] == v;
            }
            if decode_pairing(i, avail).contains(v) {
                let k = choose|k: int|
                    0 <= k < decode_pairing(i, avail).len() && decode_pairing(i, avail)[k] == v;
            }
        }
    } else {
        let a = avail[0];
        let rest = avail.drop_first();
        let rl = rest.len() as int;
        lemma_mod_bound(i, rl);
        let d = i % rl;
        let b = rest[d];
        let rest2 = rest.remove(d);
        lemma_div_pos_is_pos(i, rl);
        assert(avail.remove(0) =~= rest);
        lemma_remove_membership(avail, 0);
        lemma_remove_membership(rest, d);
        lemma_decode_pairing_perm(i / rl, rest2);
        let pr2 = decode_pairing(i / rl, rest2);
        let pr = decode_pairing(i, avail);
        assert(pr == seq![a, b] + pr2);
        assert(pr[0] == a && pr[1] == b);
        assert forall|m: int| 2 <= m < pr.len() implies pr[m] == pr2[m - 2] by {}
        assert(rest.contains(b)) by {
            assert(rest[d] == b);
        }
        assert(a != b);
        assert(!rest2.contains(a));
        assert(!rest2.contains(b));
        assert forall|v: u32| pr.contains(v) implies avail.contains(v) by {
            let k = choose|k: int| 0 <= k < pr.len() && pr[k] == v;
            if k >= 2 {
                assert(pr2[k - 2] == v);
                assert(pr2.contains(v));
                assert(rest2.contains(v));
            } else {
                assert(v == a || v == b);
                assert(avail.contains(a)) by {
                    assert(avail[0] == a);
                }
            }
        }
        assert forall|v: u32| avail.contains(v) implies pr.contains(v) by {
            if v == a {
                assert(pr[0] == v);
            } else if v == b {
                assert(pr[1] == v);
            } else {
                assert(rest.contains(v));
                assert(rest2.contains(v));
                assert(pr2.contains(v));
                let k = choose|k: int| 0 <= k < pr2.len() && pr2[k] == v;
                assert(pr[k + 2] == v);
            }
        }
        assert forall|x: int, y: int| 0 <= x < y < pr.len() implies pr[x] != pr[y] by {
            if y >= 2 {
                assert(pr[y] == pr2[y - 2]);
                assert(pr2.contains(pr[y]));
                assert(rest2.contains(pr[y]));
                if x >= 2 {
                    assert(pr[x] == pr2[x - 2]);
                    assert(pr2[x - 2] != pr2[y - 2]);
                } else {
                    assert(pr[x] == a || pr[x] == b);
                }
            }
        }
    }
}

/// Every perfect matching over the available numbers is decoded from
/// some enumeration index below the matching count.
#[verifier::rlimit(100)]
#[verifier::spinoff_prover]
proof fn lemma_decode_complete(c: Seq<u32>, avail: Seq<u32>)
    requires
        avail.no_duplicates(),
        avail.len() % 2 == 0,
        forall|k: int| 0 <= k < avail.len() ==> ((#[trigger] avail[k]) as int) < c.len(),
        forall|k: int|
            0 <= k < avail.len() ==> {
                &&& avail.contains(c[(#[trigger] avail[k]) as int])
                &&& c[c[avail[k] as int] as int] == avail[k]
                &&& c[avail[k] as int] != avail[k]
            },
    ensures
        exists|i: int|
            0 <= i < num_matchings(avail.len() as nat) && matches_pairing(
                c,
                #[trigger] decode_pairing(i, avail),
            ),
    decreases avail.len(),
{
    if avail.len() < 2 {
        assert(avail.len() == 0);
        assert(decode_pairing(0, avail).len() == 0);
        assert(matches_pairing(c, decode_pairing(0, avail)));
        assert(num_matchings(0) == 1);
    } else {
        let L = avail.len() as int;
        let a = avail[0];
        let b = c[a as int];
        assert(avail.contains(b) && c[b as int] == a && b != a) by {
            assert(avail[0] == a);
        }
        let rest = avail.drop_first();
        assert(avail.remove(0) =~= rest);
        lemma_remove_membership(avail, 0);
        assert(rest.contains(b));
        let d = choose|d: int| 0 <= d < rest.len() && rest[d] == b;
        let rest2 = rest.remove(d);
        lemma_remove_membership(rest, d);
        assert forall|k: int| 0 <= k < rest2.len() implies {
            &&& ((#[trigger] rest2[k]) as int) < c.len()
            &&& rest2.contains(c[rest2[k] as int])
            &&& c[c[rest2[k] as int] as int] == rest2[k]
            &&& c[rest2[k] as int] != rest2[k]
        } by {
            let v = rest2[k];
            assert(rest2.contains(v));
            assert(rest.contains(v) && v != b);
            assert(avail.contains(v) && v != a);
            let w = choose|w: int| 0 <= w < avail.len() && avail[w] == v;
            let cv = c[v as int];
            assert(avail.contains(cv) && c[cv as int] == v && cv != v);
            if cv == a {
                assert(c[a as int] == v);
                assert(v == b);
                assert(false);
            }
            if cv == b {
                assert(c[b as int] == v);
                assert(v == a);
                assert(false);
            }
            assert(rest.contains(cv));
            assert(rest2.contains(cv));
        }
        lemma_decode_complete(c, rest2);
        let i2 = choose|i2: int|
            0 <= i2 < num_matchings(rest2.len() as nat) && matches_pairing(
                c,
                #[trigger] decode_pairing(i2, rest2),
            );
        let i = i2 * (L - 1) + d;
        assert(0 <= i) by (nonlinear_arith)
            requires
                i == i2 * (L - 1) + d,
                0 <= d,
                0 <= i2,
                2 <= L,
        ;
        lemma_fundamental_div_mod_converse(i, L - 1, i2, d);
        let pr2 = decode_pairing(i2, rest2);
        let pr = decode_pairing(i, avail);
        assert(pr == seq![a, b] + pr2);
        assert(pr[0] == a && pr[1] == b);
        lemma_decode_pairing_perm(i2, rest2);
        assert(matches_pairing(c, pr)) by {
            assert(pr.len() == 2 + pr2.len());
            assert(pr.len() % 2 == 0) by {
                lemma_mod_add_multiples_vanish(pr2.len() as int, 2);
            }
            assert(mate(0) == 1 && mate(1) == 0) by {
                lemma_small_mod(0nat, 2nat);
                lemma_small_mod(1nat, 2nat);
            }
            assert forall|m: int|
                0 <= m < pr.len() implies (#[trigger] pr[m]) < c.len() && c[pr[m] as int]
                == pr[mate(m)] by {
                if m >= 2 {
                    assert(pr[m] == pr2[m - 2]);
                    assert((m - 2) % 2 == m % 2) by {
                        lemma_mod_add_multiples_vanish(m - 2, 2);
                    }
                    assert(mate(m) == mate(m - 2) + 2);
                    assert(pr[mate(m)] == pr2[mate(m - 2)]);
                } else if m == 0 {
                    assert(pr[0] == a && pr[1] == b);
                } else {
                    assert(pr[1] == b && pr[0] == a);
                }
            }
        }
        assert(num_matchings(L as nat) == ((L - 1) as nat) * num_matchings((L - 2) as nat));
        assert(i < num_matchings(L as nat)) by (nonlinear_arith)
            requires
                i == i2 * (L - 1) + d,
                0 <= d < L - 1,
                0 <= i2 < num_matchings((L - 2) as nat),
                num_matchings(L as nat) == ((L - 1) as nat) * num_matchings((L - 2) as nat),
                2 <= L,
        ;
    }
}

/// Two patterns of the same length pairing as one covering pairing
/// list are equal.
proof fn lemma_conn_unique(c1: Seq<u32>, c2: Seq<u32>, pr: Seq<u32>)
    requires
        c1.len() == c2.len(),
        c1.len() <= u32::MAX,
        matches_pairing(c1, pr),
        matches_pairing(c2, pr),
        forall|v: u32| (v as int) < c1.len() ==> pr.contains(v),
    ensures
        c1 =~= c2,
{
    assert forall|v: int| 0 <= v < c1.len() implies c1[v] == c2[v] by {
        assert(pr.contains(v as u32));
        let m = choose|m: int| 0 <= m < pr.len() && pr[m] == v as u32;
        assert(0 <= mate(m) < pr.len()) by {
            lemma_mod_bound(m, 2);
            if m % 2 == 0 && m + 1 >= pr.len() {
                assert(m == pr.len() - 1);
                assert(pr.len() % 2 == 0);
                lemma_fundamental_div_mod(pr.len() as int, 2);
                lemma_fundamental_div_mod(m, 2);
                assert(false);
            }
        }
        assert(c1[v] == pr[mate(m)]);
        assert(c2[v] == pr[mate(m)]);
    }
}

/// Pushing an element extends a sequence's membership by exactly that
/// element.
proof fn lemma_push_membership(s: Seq<u32>, x: u32)
    ensures
        forall|e: u32| s.push(x).contains(e) <==> (s.contains(e) || e == x),
{
    assert forall|e: u32| s.push(x).contains(e) implies (s.contains(e) || e == x) by {
        let k = choose|k: int| 0 <= k < s.push(x).len() && s.push(x)[k] == e;
        if k < s.len() {
            assert(s[k] == e);
        }
    }
    assert forall|e: u32| s.contains(e) || e == x implies s.push(x).contains(e) by {
        if e == x {
            assert(s.push(x)[s.len() as int] == e);
        } else {
            let k = choose|k: int| 0 <= k < s.len() && s[k] == e;
            assert(s.push(x)[k] == e);
        }
    }
}

impl<const EDGES: u32> RegularTile<EDGES> {
    /// Decode enumeration index `i` into one perfect matching of `np`
    /// ports: repeatedly pair the lowest unused port with an unused
    /// port chosen by the next mixed-radix digit of `i`.
    fn decode_matching(i: u32, np: u32) -> (t: Self)
        requires
            1 <= EDGES as int,
            2 <= np,
            np as int % 2 == 0,
            np as int % (EDGES as int) == 0,
        ensures
            t.wf(),
            t.connections@.len() == np as int,
            t.visible == true,
            matches_pairing(t.connections@, decode_pairing(i as int, id_seq(np as int))),
    {
        let mut numbers_left: Vec<u32> = Vec::new();
        let mut v: u32 = 0;
        while v < np
            invariant
                v <= np,
                numbers_left@.len() == v as int,
                forall|j: int| 0 <= j < v as int ==> (#[trigger] numbers_left@[j]) == j,
            decreases np - v,
        {
            numbers_left.push(v);
            v = v + 1;
        }
        proof {
            assert(numbers_left@.no_duplicates());
            assert forall|val: u32| numbers_left@.contains(val) implies val < np by {
                let k = choose|k: int|
                    0 <= k < numbers_left@.len() && numbers_left@[k] == val;
            }
            assert forall|val: u32| val < np implies numbers_left@.contains(val) by {
                assert(numbers_left@[val as int] == val);
            }
        }
        let ghost ids = numbers_left@;
        proof {
            assert(ids =~= id_seq(np as int));
            lemma_small_mod(0nat, 2nat);
        }
        let mut pairing: Vec<u32> = Vec::new();
        let mut ii: u32 = i;
        let mut j: u32 = 0;
        while j < np
            invariant
                2 <= np,
                np as int % 2 == 0,
                j <= np,
                j as int % 2 == 0,
                pairing@.len() == j as int,
                numbers_left@.len() == np as int - j as int,
                pairing@.no_duplicates(),
                numbers_left@.no_duplicates(),
                forall|x: int| 0 <= x < j as int ==> (#[trigger] pairing@[x]) < np,
                forall|val: u32|
                    val < np ==> (pairing@.contains(val) <==> !numbers_left@.contains(val)),
                forall|val: u32| numbers_left@.contains(val) ==> val < np,
                pairing@ + decode_pairing(ii as int, numbers_left@) == decode_pairing(
                    i as int,
                    ids,
                ),
            decreases np - j,
        {
            proof {
                lemma_sub_mod_noop(np as int, j as int, 2);
                assert((np as int - j as int) % 2 == 0);
                if np as int - j as int == 1 {
                    lemma_small_mod(1nat, 2nat);
                    assert(false);
                }
                assert(numbers_left@.len() >= 2);
            }
            let ghost old_nl = numbers_left@;
            let ghost old_pairing = pairing@;
            let ghost old_ii = ii as int;
            let a = numbers_left.remove(0);
            let size: u32 = np - j - 1;
            let d: u32 = ii % size;
            ii = ii / size;
            let ghost mid_nl = numbers_left@;
            let b = numbers_left.remove(d as usize);
            pairing.push(a);
            pairing.push(b);
            proof {
                assert(mid_nl =~= old_nl.drop_first());
                assert(old_nl.remove(0) =~= mid_nl);
                lemma_remove_membership(old_nl, 0);
                lemma_remove_membership(mid_nl, d as int);
                lemma_push_membership(old_pairing, a);
                lemma_push_membership(old_pairing.push(a), b);
                assert(old_nl.contains(a)) by {
                    assert(old_nl[0] == a);
                }
                assert(mid_nl.contains(b)) by {
                    assert(mid_nl[d as int] == b);
                }
                assert(a < np && b < np);
                assert(b != a);
                assert(!old_pairing.contains(a) && !old_pairing.contains(b));
                assert(pairing@ =~= old_pairing.push(a).push(b));
                assert forall|x: int, y: int|
                    0 <= x < y < pairing@.len() implies pairing@[x] != pairing@[y] by {
                    if y == old_pairing.len() {
                        assert(pairing@[y] == a);
                        assert(old_pairing[x] == pairing@[x]);
                        if pairing@[x] == a {
                            assert(old_pairing.contains(a));
                        }
                    } else if y == old_pairing.len() as int + 1 {
                        assert(pairing@[y] == b);
                        if x < old_pairing.len() {
                            assert(old_pairing[x] == pairing@[x]);
                            if pairing@[x] == b {
                                assert(old_pairing.contains(b));
                            }
                        } else {
                            assert(pairing@[x] == a);
                        }
                    }
                }
                assert forall|val: u32|
                    val < np implies (pairing@.contains(val) <==> !numbers_left@.contains(
                    val,
                )) by {
                    if val == a {
                        assert(pairing@[old_pairing.len() as int] == a);
                        assert(!mid_nl.contains(a));
                        assert(!numbers_left@.contains(a));
                    } else if val == b {
                        assert(pairing@[old_pairing.len() as int + 1] == b);
                        assert(!numbers_left@.contains(b));
                    } else {
                        assert(pairing@.contains(val) <==> old_pairing.contains(val));
                        assert(numbers_left@.contains(val) <==> mid_nl.contains(val));
                        assert(mid_nl.contains(val) <==> old_nl.contains(val));
                    }
                }
                assert forall|val: u32| numbers_left@.contains(val) implies val < np by {
                    assert(mid_nl.contains(val));
                    assert(old_nl.contains(val));
                }
                // the two removals retrace one unfolding of the decode
                assert(size as int == mid_nl.len());
                assert(d as int == old_ii % (size as int));
                assert(ii as int == old_ii / (size as int));
                assert(decode_pairing(old_ii, old_nl) == seq![a, b] + decode_pairing(
                    ii as int,
                    numbers_left@,
                ));
                assert(pairing@ + decode_pairing(ii as int, numbers_left@) =~= old_pairing
                    + decode_pairing(old_ii, old_nl));
                lemma_mod_add_multiples_vanish(j as int, 2);
                assert((j as int + 2) % 2 == 0);
            }
            j = j + 2;
        }
        proof {
            assert(decode_pairing(ii as int, numbers_left@).len() == 0);
            assert(pairing@ + decode_pairing(ii as int, numbers_left@) =~= pairing@);
            assert(pairing@ == decode_pairing(i as int, ids));
            assert(ids == id_seq(np as int));
        }
        proof {
            assert forall|val: u32| val < np implies pairing@.contains(val) by {
                if numbers_left@.contains(val) {
                    let k = choose|k: int|
                        0 <= k < numbers_left@.len() && numbers_left@[k] == val;
                }
            }
        }
        let mut connection: Vec<u32> = Vec::new();
        let mut z: u32 = 0;
        while z < np
            invariant
                z <= np,
                connection@.len() == z as int,
            decreases np - z,
        {
            connection.push(0);
            z = z + 1;
        }
        let ghost p = pairing@;
        let half: u32 = np / 2;
        proof {
            lemma_fundamental_div_mod(np as int, 2);
            assert(2 * (half as int) == np as int);
        }
        let mut k: u32 = 0;
        while k < half
            invariant
                k <= half,
                2 * (half as int) == np as int,
                p == pairing@,
                p.len() == np as int,
                p.no_duplicates(),
                forall|x: int| 0 <= x < np as int ==> (#[trigger] p[x]) < np,
                connection@.len() == np as int,
                forall|m: int|
                    0 <= m < 2 * (k as int) ==> (#[trigger] connection@[p[m] as int]) == p[mate(m)],
            decreases half - k,
        {
            let ghost old_conn = connection@;
            let p0 = pairing[(2 * k) as usize];
            let p1 = pairing[(2 * k + 1) as usize];
            proof {
                assert(p0 != p1);
            }
            connection.set(p0 as usize, p1);
            connection.set(p1 as usize, p0);
            proof {
                let ki = k as int;
                lemma_mod_multiples_basic(ki, 2);
                assert((2 * ki) % 2 == 0);
                lemma_mod_add_multiples_vanish(1, 2);
                assert((2 * ki + 1) % 2 == 1) by {
                    assert(2 * ki + 1 == 2 + (2 * (ki - 1) + 1));
                    lemma_mod_multiples_basic(ki - 1, 2);
                    lemma_add_mod_noop(2 * (ki - 1), 1, 2);
                    lemma_mod_add_multiples_vanish((2 * (ki - 1) + 1), 2);
                    lemma_small_mod(1nat, 2nat);
                }
                assert(mate(2 * ki) == 2 * ki + 1);
                assert(mate(2 * ki + 1) == 2 * ki);
                assert forall|m: int|
                    0 <= m < 2 * (ki + 1) implies (#[trigger] connection@[p[m] as int]) == p[mate(
                    m,
                )] by {
                    if m < 2 * ki {
                        assert(p[m] != p0 && p[m] != p1);
                        assert(connection@[p[m] as int] == old_conn[p[m] as int]);
                    } else if m == 2 * ki {
                        assert(connection@[p0 as int] == p1);
                    } else {
                        assert(m == 2 * ki + 1);
                        assert(connection@[p1 as int] == p0);
                    }
                }
            }
            k = k + 1;
        }
        let t = Self { connections: connection, visible: true };
        proof {
            let n = np as int;
            assert forall|idx: int| 0 <= idx < n implies {
                &&& (#[trigger] t.connections@[idx]) < n
                &&& t.connections@[t.connections@[idx] as int] == idx
                &&& t.connections@[idx] as int != idx
            } by {
                let val = idx as u32;
                assert(p.contains(val));
                let m = choose|m: int| 0 <= m < p.len() && p[m] == val;
                let w = mate(m);
                assert(0 <= w < n) by {
                    lemma_mod_bound(m, 2);
                }
                assert(w != m);
                assert(mate(w) == m) by {
                    if m % 2 == 0 {
                        assert(w == m + 1);
                        assert(w % 2 == 1) by {
                            lemma_add_mod_noop(m, 1, 2);
                            lemma_small_mod(1nat, 2nat);
                        }
                    } else {
                        assert(w == m - 1);
                        assert(w % 2 == 0) by {
                            lemma_sub_mod_noop(m, 1, 2);
                            lemma_small_mod(1nat, 2nat);
                        }
                    }
                }
                assert(connection@[p[m] as int] == p[w]);
                assert(connection@[p[w] as int] == p[mate(w)]);
                assert(p[w] != p[m]);
                assert(t.connections@[idx] == p[w]);
                assert(t.connections@[p[w] as int] == idx);
            }
        }
        t
    }
}

impl<const EDGES: u32> RegularTile<EDGES> {
    /// All tiles with `config.0` ports per edge, in a deterministic
    /// order; rotations count as separate tiles.  There are exactly
    /// `(n - 1) * (n - 3) * ... * 1` of them for `n` ports.
    pub fn all_including_rotations(config: PortsPerEdgeTileConfig) -> (r: Vec<Self>)
        requires
            1 <= EDGES as int,
            1 <= config.0,
            config.0 as int * EDGES as int <= u32::MAX as int,
            (config.0 as int * EDGES as int) % 2 == 0,
            num_matchings((config.0 as int * EDGES as int) as nat) <= u32::MAX as int,
        ensures
            r@.len() == num_matchings((config.0 as int * EDGES as int) as nat),
            forall|t: int|
                0 <= t < r@.len() ==> {
                    &&& (#[trigger] r@[t]).wf()
                    &&& r@[t].connections@.len() == config.0 as int * EDGES as int
                    &&& r@[t].visible == true
                },
            forall|c: Seq<u32>|
                #[trigger] is_matching(c, config.0 as int * EDGES as int) ==> exists|x: int|
                    0 <= x < r@.len() && (#[trigger] r@[x]).connections@ == c,
    {
        let np: u32 = config.0 * EDGES;
        proof {
            lemma_mod_multiples_basic(config.0 as int, EDGES as int);
            assert((config.0 as int * EDGES as int) % (EDGES as int) == 0);
            assert(np as int >= 1) by (nonlinear_arith)
                requires
                    config.0 as int >= 1,
                    EDGES as int >= 1,
                    np as int == config.0 as int * EDGES as int,
            ;
            assert(np >= 2);
            lemma_num_matchings_pos(np as nat);
        }
        let mut total: u64 = 1;
        let mut rem: u32 = np;
        while rem >= 2
            invariant
                total as nat * num_matchings(rem as nat) == num_matchings(np as nat),
                1 <= total,
                total as nat <= num_matchings(np as nat),
                num_matchings(np as nat) <= u32::MAX as int,
            decreases rem,
        {
            let ghost old_total = total as nat;
            proof {
                lemma_num_matchings_pos((rem - 2) as nat);
                assert(num_matchings(rem as nat) == ((rem - 1) as nat) * num_matchings(
                    (rem - 2) as nat,
                ));
                assert(old_total * (((rem - 1) as nat) * num_matchings((rem - 2) as nat)) == (
                old_total * ((rem - 1) as nat)) * num_matchings((rem - 2) as nat))
                    by (nonlinear_arith);
                assert(old_total * ((rem - 1) as nat) <= num_matchings(np as nat))
                    by (nonlinear_arith)
                    requires
                        (old_total * ((rem - 1) as nat)) * num_matchings((rem - 2) as nat)
                            == num_matchings(np as nat),
                        num_matchings((rem - 2) as nat) >= 1,
                        old_total >= 1,
                        rem >= 2,
                ;
                assert(old_total * ((rem - 1) as nat) >= 1) by (nonlinear_arith)
                    requires
                        old_total >= 1,
                        rem >= 2,
                ;
            }
            total = total * (rem - 1) as u64;
            rem = rem - 2;
        }
        let total32: u32 = total as u32;
        proof {
            assert(num_matchings(rem as nat) == 1);
            assert(total as nat == num_matchings(np as nat)) by (nonlinear_arith)
                requires
                    total as nat * num_matchings(rem as nat) == num_matchings(np as nat),
                    num_matchings(rem as nat) == 1,
            ;
        }
        let mut tiles: Vec<Self> = Vec::new();
        let mut i: u32 = 0;
        while i < total32
            invariant
                1 <= EDGES as int,
                2 <= np,
                np as int == config.0 as int * EDGES as int,
                np as int % 2 == 0,
                np as int % (EDGES as int) == 0,
                i <= total32,
                total32 as nat == num_matchings(np as nat),
                tiles@.len() == i as int,
                forall|t: int|
                    0 <= t < i as int ==> {
                        &&& (#[trigger] tiles@[t]).wf()
                        &&& tiles@[t].connections@.len() == np as int
                        &&& tiles@[t].visible == true
                        &&& matches_pairing(
                            tiles@[t].connections@,
                            decode_pairing(t, id_seq(np as int)),
                        )
                    },
            decreases total32 - i,
        {
            let t = Self::decode_matching(i, np);
            tiles.push(t);
            i = i + 1;
        }
        proof {
            let npi = np as int;
            let ids = id_seq(npi);
            assert forall|c: Seq<u32>| is_matching(c, npi) implies exists|x: int|
                0 <= x < tiles@.len() && (#[trigger] tiles@[x]).connections@ == c by {
                assert(ids.no_duplicates());
                assert forall|k: int| 0 <= k < ids.len() implies {
                    &&& ((#[trigger] ids[k]) as int) < c.len()
                    &&& ids.contains(c[ids[k] as int])
                    &&& c[c[ids[k] as int] as int] == ids[k]
                    &&& c[ids[k] as int] != ids[k]
                } by {
                    assert(ids[k] == k as u32);
                    assert(c[k] < npi);
                    assert(ids[c[k] as int] == c[k]);
                }
                lemma_decode_complete(c, ids);
                let x = choose|x: int|
                    0 <= x < num_matchings(ids.len() as nat) && matches_pairing(
                        c,
                        #[trigger] decode_pairing(x, ids),
                    );
                lemma_decode_pairing_perm(x, ids);
                assert forall|v: u32| (v as int) < c.len() implies decode_pairing(
                    x,
                    ids,
                ).contains(v) by {
                    assert(ids[v as int] == v);
                    assert(ids.contains(v));
                }
                lemma_conn_unique(tiles@[x].connections@, c, decode_pairing(x, ids));
                assert(tiles@[x].connections@ == c);
            }
        }
        tiles
    }

    /// A tile that is least among the rotations of a tile it is itself
    /// a rotation of is least among its own rotations.
    proof fn lemma_canonical_least_own(t: Self, c: Self, k0: int)
        requires
            t.wf(),
            0 <= k0 < EDGES as int,
            Self::is_rotation_by(c, t, k0),
            forall|k: int|
                0 <= k < EDGES as int ==> !conn_lex_lt(
                    rotate_conn(t.connections@, t.rotate_offset(k)),
                    c.connections@,
                ),
        ensures
            forall|k: int|
                0 <= k < EDGES as int ==> !conn_lex_lt(
                    rotate_conn(c.connections@, c.rotate_offset(k)),
                    c.connections@,
                ),
    {
        let n = t.connections@.len() as int;
        let e = EDGES as int;
        let ppe = n / e;
        assert(c.connections@.len() == n);
        assert forall|k: int| 0 <= k < e implies !conn_lex_lt(
            rotate_conn(c.connections@, c.rotate_offset(k)),
            c.connections@,
        ) by {
            let o0 = t.rotate_offset(k0);
            let ok = (k * ppe) % n;
            lemma_mod_bound(k0 * ppe, n);
            lemma_mod_bound(k * ppe, n);
            assert(c.rotate_offset(k) == ok);
            lemma_rotate_conn_compose(t.connections@, o0, ok);
            // the composed rotation is t rotated k0 + k times
            lemma_add_mod_noop(k0 * ppe, k * ppe, n);
            assert((k0 + k) * ppe == k0 * ppe + k * ppe) by (nonlinear_arith);
            assert((o0 + ok) % n == ((k0 + k) * ppe) % n);
            assert(rotate_conn(c.connections@, ok) == rotate_conn(
                t.connections@,
                t.rotate_offset(k0 + k),
            ));
            Self::lemma_rotate_offset_mod_edges(t, k0 + k);
            lemma_mod_bound(k0 + k, e);
            assert(!conn_lex_lt(
                rotate_conn(t.connections@, t.rotate_offset((k0 + k) % e)),
                c.connections@,
            ));
        }
    }

    /// All tiles with `config.0` ports per edge, counting rotations of
    /// one tile once: the catalogue of canonical representatives, in
    /// strictly increasing lexicographic order.
    pub fn all(config: PortsPerEdgeTileConfig) -> (r: Vec<Self>)
        requires
            1 <= EDGES as int <= i32::MAX as int,
            1 <= config.0,
            config.0 as int * EDGES as int <= u32::MAX as int,
            (config.0 as int * EDGES as int) % 2 == 0,
            num_matchings((config.0 as int * EDGES as int) as nat) <= u32::MAX as int,
        ensures
            r@.len() <= num_matchings((config.0 as int * EDGES as int) as nat),
            forall|x: int|
                0 <= x < r@.len() ==> {
                    &&& (#[trigger] r@[x]).wf()
                    &&& r@[x].connections@.len() == config.0 as int * EDGES as int
                    &&& r@[x].visible == true
                },
            forall|x: int, y: int|
                0 <= x < y < r@.len() ==> conn_lex_lt(
                    (#[trigger] r@[x]).connections@,
                    (#[trigger] r@[y]).connections@,
                ),
            forall|x: int, k: int|
                0 <= x < r@.len() && 0 <= k < EDGES as int ==> !conn_lex_lt(
                    #[trigger] rotate_conn(r@[x].connections@, r@[x].rotate_offset(k)),
                    r@[x].connections@,
                ),
            forall|c: Seq<u32>|
                #[trigger] is_matching(c, config.0 as int * EDGES as int) && conn_canonical(
                    c,
                    EDGES as int,
                ) ==> exists|x: int|
                    0 <= x < r@.len() && (#[trigger] r@[x]).connections@ == c,
    {
        let raw = Self::all_including_rotations(config);
        let ghost np = config.0 as int * EDGES as int;
        let mut result: Vec<Self> = Vec::new();
        let mut i: usize = 0;
        while i < raw.len()
            invariant
                1 <= EDGES as int <= i32::MAX as int,
                np == config.0 as int * EDGES as int,
                i <= raw@.len(),
                raw@.len() == num_matchings(np as nat),
                result@.len() <= i as int,
                forall|t: int|
                    0 <= t < raw@.len() ==> {
                        &&& (#[trigger] raw@[t]).wf()
                        &&& raw@[t].connections@.len() == np
                        &&& raw@[t].visible == true
                    },
                forall|x: int|
                    0 <= x < result@.len() ==> {
                        &&& (#[trigger] result@[x]).wf()
                        &&& result@[x].connections@.len() == np
                        &&& result@[x].visible == true
                    },
                forall|x: int, y: int|
                    0 <= x < y < result@.len() ==> conn_lex_lt(
                        (#[trigger] result@[x]).connections@,
                        (#[trigger] result@[y]).connections@,
                    ),
                forall|x: int, k: int|
                    0 <= x < result@.len() && 0 <= k < EDGES as int ==> !conn_lex_lt(
                        #[trigger] rotate_conn(
                            result@[x].connections@,
                            result@[x].rotate_offset(k),
                        ),
                        result@[x].connections@,
                    ),
                forall|t: int|
                    0 <= t < i as int ==> exists|y: int|
                        0 <= y < result@.len() && canonical_rep_of(
                            (#[trigger] result@[y]).connections@,
                            (#[trigger] raw@[t]).connections@,
                            EDGES as int,
                        ),
            decreases raw@.len() - i,
        {
            let c = raw[i].canonical();
            proof {
                let k0 = choose|k0: int|
                    0 <= k0 < EDGES as int && Self::is_rotation_by(c, raw@[i as int], k0);
                Self::lemma_canonical_least_own(raw@[i as int], c, k0);
                assert forall|k: int| 0 <= k < EDGES as int implies !conn_lex_lt(
                    #[trigger] conn_rotation(raw@[i as int].connections@, EDGES as int, k),
                    c.connections@,
                ) by {
                    assert(conn_rotation(raw@[i as int].connections@, EDGES as int, k)
                        == rotate_conn(
                        raw@[i as int].connections@,
                        raw@[i as int].rotate_offset(k),
                    ));
                }
                assert(c.connections@ == conn_rotation(
                    raw@[i as int].connections@,
                    EDGES as int,
                    k0,
                ));
                assert(canonical_rep_of(
                    c.connections@,
                    raw@[i as int].connections@,
                    EDGES as int,
                ));
            }
            let mut present = false;
            let mut j: usize = 0;
            while j < result.len()
                invariant
                    j <= result@.len(),
                    present <==> exists|q: int|
                        0 <= q < j as int && (#[trigger] result@[q]).connections@
                            == c.connections@,
                decreases result@.len() - j,
            {
                if conns_equal(&result[j].connections, &c.connections) {
                    present = true;
                    proof {
                        assert(result@[j as int].connections@ == c.connections@);
                    }
                }
                j = j + 1;
            }
            if !present {
                let ghost old_result = result@;
                let mut pos: usize = 0;
                loop
                    invariant_except_break
                        pos <= result@.len(),
                        result@ == old_result,
                        forall|q: int|
                            0 <= q < pos as int ==> conn_lex_lt(
                                (#[trigger] result@[q]).connections@,
                                c.connections@,
                            ),
                    ensures
                        pos <= result@.len(),
                        result@ == old_result,
                        forall|q: int|
                            0 <= q < pos as int ==> conn_lex_lt(
                                (#[trigger] result@[q]).connections@,
                                c.connections@,
                            ),
                        pos < result@.len() ==> !conn_lex_lt(
                            result@[pos as int].connections@,
                            c.connections@,
                        ),
                    decreases result@.len() - pos,
                {
                    if pos >= result.len() {
                        break ;
                    }
                    if !conn_less(&result[pos].connections, &c.connections) {
                        break ;
                    }
                    pos = pos + 1;
                }
                result.insert(pos, c);
                proof {
                    assert forall|x: int, y: int|
                        0 <= x < y < result@.len() implies conn_lex_lt(
                        (#[trigger] result@[x]).connections@,
                        (#[trigger] result@[y]).connections@,
                    ) by {
                        let p = pos as int;
                        if y < p {
                        } else if x < p && y == p {
                        } else if x < p && y > p {
                            assert(result@[y].connections@ == old_result[y - 1].connections@);
                        } else if x == p {
                            // c precedes everything at and after the split point
                            let w = old_result[x];
                            assert(result@[y].connections@ == old_result[y - 1].connections@);
                            assert(!conn_lex_lt(old_result[p].connections@, c.connections@));
                            assert(old_result[p].connections@ != c.connections@) by {
                                assert(!present);
                            }
                            assert(conn_lex_lt(c.connections@, old_result[p].connections@)) by {
                                if !conn_lex_lt(c.connections@, old_result[p].connections@) {
                                    lemma_lex_connected(
                                        c.connections@,
                                        old_result[p].connections@,
                                    );
                                }
                            }
                            if y - 1 > p {
                                lemma_lex_trans(
                                    c.connections@,
                                    old_result[p].connections@,
                                    old_result[y - 1].connections@,
                                );
                            }
                        } else {
                            assert(result@[x].connections@ == old_result[x - 1].connections@);
                            assert(result@[y].connections@ == old_result[y - 1].connections@);
                        }
                    }
                    assert forall|t: int| 0 <= t < i as int + 1 implies exists|y: int|
                        0 <= y < result@.len() && canonical_rep_of(
                            (#[trigger] result@[y]).connections@,
                            (#[trigger] raw@[t]).connections@,
                            EDGES as int,
                        ) by {
                        let p = pos as int;
                        if t == i as int {
                            assert(result@[p] == c);
                            assert(canonical_rep_of(
                                result@[p].connections@,
                                raw@[t].connections@,
                                EDGES as int,
                            ));
                        } else {
                            let y0 = choose|y0: int|
                                0 <= y0 < old_result.len() && canonical_rep_of(
                                    (#[trigger] old_result[y0]).connections@,
                                    raw@[t].connections@,
                                    EDGES as int,
                                );
                            if y0 < p {
                                assert(result@[y0] == old_result[y0]);
                            } else {
                                assert(result@[y0 + 1] == old_result[y0]);
                            }
                        }
                    }
                }
            } else {
                proof {
                    assert forall|t: int| 0 <= t < i as int + 1 implies exists|y: int|
                        0 <= y < result@.len() && canonical_rep_of(
                            (#[trigger] result@[y]).connections@,
                            (#[trigger] raw@[t]).connections@,
                            EDGES as int,
                        ) by {
                        if t == i as int {
                            let q = choose|q: int|
                                0 <= q < result@.len() && (#[trigger] result@[q]).connections@
                                    == c.connections@;
                            assert(canonical_rep_of(
                                result@[q].connections@,
                                raw@[t].connections@,
                                EDGES as int,
                            ));
                        }
                    }
                }
            }
            i = i + 1;
        }
        proof {
            let npi = config.0 as int * EDGES as int;
            assert forall|c2: Seq<u32>|
                #[trigger] is_matching(c2, npi) && conn_canonical(c2, EDGES as int) implies exists|
            x: int|
                0 <= x < result@.len() && (#[trigger] result@[x]).connections@ == c2 by {
                let x0 = choose|x0: int|
                    0 <= x0 < raw@.len() && (#[trigger] raw@[x0]).connections@ == c2;
                let y = choose|y: int|
                    0 <= y < result@.len() && canonical_rep_of(
                        (#[trigger] result@[y]).connections@,
                        raw@[x0].connections@,
                        EDGES as int,
                    );
                let rep = result@[y].connections@;
                assert(canonical_rep_of(rep, c2, EDGES as int));
                let kk = choose|k: int|
                    0 <= k < EDGES as int && rep == #[trigger] conn_rotation(
                        c2,
                        EDGES as int,
                        k,
                    );
                assert(!conn_lex_lt(rep, c2));
                lemma_conn_rotation_zero(c2, EDGES as int);
                assert(!conn_lex_lt(conn_rotation(c2, EDGES as int, 0), rep));
                assert(!conn_lex_lt(c2, rep));
                lemma_lex_connected(rep, c2);
                assert(result@[y].connections@ == c2);
            }
        }
        result
    }
}

/// Composing two rotations of a connection pattern rotates by the sum
/// of the offsets.
proof fn lemma_rotate_conn_compose(c: Seq<u32>, o1: int, o2: int)
    requires
        1 <= c.len() <= u32::MAX,
    ensures
        rotate_conn(rotate_conn(c, o1), o2) =~= rotate_conn(c, (o1 + o2) % (c.len() as int)),
{
    let n = c.len() as int;
    let d = rotate_conn(c, o1);
    let l = rotate_conn(d, o2);
    let r = rotate_conn(c, (o1 + o2) % n);
    lemma_mod_bound(o1 + o2, n);
    assert forall|i: int| 0 <= i < n implies l[i] == r[i] by {
        let j = (i - o2) % n;
        lemma_mod_bound(i - o2, n);
        let k = (j - o1) % n;
        lemma_mod_bound(j - o1, n);
        // k == (i - o2 - o1) % n
        lemma_sub_mod_noop(i - o2, o1, n);
        lemma_sub_mod_noop_right(i - o2, o1, n);
        assert((j - o1 % n) % n == (i - o2 - o1) % n);
        lemma_sub_mod_noop_right(j, o1, n);
        assert(k == (i - o2 - o1) % n);
        // l[i] == (c[k] + o1 + o2) % n
        assert(l[i] == ((d[j] + o2) % n) as u32);
        assert(d[j] == ((c[k] + o1) % n) as u32);
        lemma_add_mod_noop(c[k] as int + o1, o2, n);
        lemma_add_mod_noop_right((c[k] as int + o1) % n, o2, n);
        assert((d[j] + o2) % n == (c[k] as int + o1 + o2) % n);
        // r[i] == (c[k'] + (o1 + o2) % n) % n with k' == k
        lemma_sub_mod_noop_right(i, o1 + o2, n);
        assert((i - (o1 + o2) % n) % n == (i - (o1 + o2)) % n);
        assert((i - (o1 + o2)) % n == (i - o2 - o1) % n);
        lemma_add_mod_noop_right(c[k] as int, o1 + o2, n);
        assert((c[k] + (o1 + o2) % n) % n == (c[k] as int + o1 + o2) % n);
    }
}

/// Rotating a well-formed connection pattern yields a well-formed
/// pattern of the same length.
proof fn lemma_rotate_conn_preserves_wf<const EDGES: u32>(c: Seq<u32>, off: int)
    requires
        1 <= c.len() <= u32::MAX,
        0 <= off < c.len(),
        forall|i: int|
            0 <= i < c.len() ==> {
                &&& (#[trigger] c[i]) < c.len()
                &&& c[c[i] as int] == i
                &&& c[i] as int != i
            },
    ensures
        rotate_conn(c, off).len() == c.len(),
        forall|i: int|
            0 <= i < c.len() ==> {
                &&& (#[trigger] rotate_conn(c, off)[i]) < c.len()
                &&& rotate_conn(c, off)[rotate_conn(c, off)[i] as int] == i
                &&& rotate_conn(c, off)[i] as int != i
            },
{
    let n = c.len() as int;
    let d = rotate_conn(c, off);
    assert forall|i: int| 0 <= i < n implies {
        &&& (#[trigger] d[i]) < n
        &&& d[d[i] as int] == i
        &&& d[i] as int != i
    } by {
        let j = (i - off) % n;
        lemma_mod_bound(i - off, n);
        assert(d[i] == ((c[j] + off) % n) as u32);
        lemma_mod_bound(c[j] + off, n);
        assert(d[i] < n);
        let k = d[i] as int;
        // d[k] unfolds to (c[(k - off) % n] + off) % n
        lemma_sub_mod_noop(c[j] as int + off, off, n);
        lemma_small_mod(c[j] as nat, n as nat);
        lemma_small_mod(off as nat, n as nat);
        assert((k - off) % n == (c[j] as int + off - off) % n);
        assert((k - off) % n == c[j] as int);
        assert(d[k] == ((c[c[j] as int] + off) % n) as u32);
        assert(c[c[j] as int] == j);
        lemma_add_mod_noop(i - off, off, n);
        lemma_small_mod(i as nat, n as nat);
        assert((j + off) % n == i);
        assert(d[k] as int == i);
        // no fixed point: d[i] == i would force c[j] == j
        if d[i] as int == i {
            lemma_add_mod_noop(j, off, n);
            assert((j + off) % n == (j % n + off % n) % n);
            lemma_small_mod(j as nat, n as nat);
            assert((c[j] + off) % n == (j + off) % n);
            lemma_mod_equivalence(c[j] as int + off, j + off, n);
            assert((c[j] as int + off - (j + off)) % n == 0);
            assert((c[j] as int - j) % n == 0);
            if c[j] as int > j {
                lemma_small_mod((c[j] as int - j) as nat, n as nat);
                assert(false);
            } else {
                lemma_mod_add_multiples_vanish(c[j] as int - j, n);
                lemma_small_mod((c[j] as int - j + n) as nat, n as nat);
                assert(false);
            }
        }
    }
}

impl DihedralGAct {
    /// The mathematical value of dihedral composition.
    pub open spec fn compose_spec_dihedral(self, other: DihedralGAct) -> DihedralGAct {
        DihedralGAct {
            rotation: (((if other.reflected { -self.rotation as int } else { self.rotation as int })
                + other.rotation) % (self.size as int)) as i32,
            reflected: self.reflected != other.reflected,
            size: self.size,
        }
    }
}

} // verus!
