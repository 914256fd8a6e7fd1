//! Board topology: the rectangular board, its ports and tile locations.
//!
//! A tile location is a grid cell (`Pt2u`); a port is a cell coordinate
//! plus a sub-position along one of the cell's edges.  The port order
//! around a cell returned by `loc_ports` is the correspondence between
//! a tile's abstract port indices and physical directions.

use vstd::prelude::*;

verus! {

use crate::math::Pt2u;
use crate::math::Vec2u;
use crate::tile::BaseKind;

/// A tile-generation configuration that stores the number of ports per
/// tile edge.
#[derive(Clone, Copy, Debug, PartialEq, Eq, Structural)]
pub struct PortsPerEdgeTileConfig(pub u32);

/// An addressable position on a cell boundary: the floored coordinates
/// of the port, followed by its fractional coordinates scaled by
/// `ports_per_edge + 1`.
#[derive(Clone, Copy, Debug, PartialEq, Eq, Structural, Hash)]
pub struct BasePort {
    pub pos: Pt2u,
    pub dir: Vec2u,
}

/// A rectangular board with square tiles.
#[derive(Clone, Copy, Debug)]
pub struct RectangleBoard {
    pub width: u32,
    pub height: u32,
    pub ports_per_edge: u32,
}

impl RectangleBoard {
    /// Boards are kept within machine bounds so that port enumeration
    /// and neighbour arithmetic cannot overflow.
    pub open spec fn wf(self) -> bool {
        &&& 1 <= self.width <= 0xFFFF
        &&& 1 <= self.height <= 0xFFFF
        &&& 1 <= self.ports_per_edge <= 0xFFFF
    }

    /// Whether a cell lies on this board.
    pub open spec fn loc_in_bounds(self, loc: Pt2u) -> bool {
        loc.x < self.width && loc.y < self.height
    }

    /// The `j`-th port around cell `loc`, in the fixed cyclic order:
    /// top edge left to right, right edge top to bottom, bottom edge
    /// right to left, then left edge bottom to top.
    pub open spec fn loc_port_spec(self, loc: Pt2u, j: int) -> BasePort {
        let p = self.ports_per_edge as int;
        if j < p {
            BasePort { pos: loc, dir: Vec2u { x: (j + 1) as u32, y: 0 } }
        } else if j < 2 * p {
            BasePort {
                pos: Pt2u { x: (loc.x + 1) as u32, y: loc.y },
                dir: Vec2u { x: 0, y: (j - p + 1) as u32 },
            }
        } else if j < 3 * p {
            BasePort {
                pos: Pt2u { x: loc.x, y: (loc.y + 1) as u32 },
                dir: Vec2u { x: (3 * p - j) as u32, y: 0 },
            }
        } else {
            BasePort { pos: loc, dir: Vec2u { x: 0, y: (4 * p - j) as u32 } }
        }
    }

    /// The ports around cell `loc` as a sequence.
    pub open spec fn loc_ports_seq(self, loc: Pt2u) -> Seq<BasePort> {
        Seq::new((4 * self.ports_per_edge as int) as nat, |j: int| self.loc_port_spec(loc, j))
    }

    /// The cells adjacent to a port, in bounds, cell containing the
    /// port's floored coordinates first.
    pub open spec fn port_locs_spec(self, port: BasePort) -> Seq<Pt2u> {
        let x0 = port.pos.x as int;
        let y0 = port.pos.y as int;
        let x1 = if port.dir.y == 0 { x0 } else { x0 - 1 };
        let y1 = if port.dir.y == 0 { y0 - 1 } else { y0 };
        let in0 = x0 < self.width && y0 < self.height;
        let in1 = 0 <= x1 && x1 < self.width && 0 <= y1 && y1 < self.height;
        let l0 = port.pos;
        let l1 = Pt2u { x: x1 as u32, y: y1 as u32 };
        if in0 && in1 {
            seq![l0, l1]
        } else if in0 {
            seq![l0]
        } else if in1 {
            seq![l1]
        } else {
            Seq::empty()
        }
    }

    /// Whether a port lies on the board: on a horizontal cell edge or
    /// a vertical one, with its sub-position in range.
    pub open spec fn port_on_board(self, port: BasePort) -> bool {
        let p = self.ports_per_edge;
        ||| (port.dir.y == 0 && 1 <= port.dir.x <= p && port.pos.x < self.width && port.pos.y
            <= self.height)
        ||| (port.dir.x == 0 && 1 <= port.dir.y <= p && port.pos.x <= self.width && port.pos.y
            < self.height)
    }

    /// Whether a port lies on the outer boundary of the board.
    pub open spec fn port_on_boundary(self, port: BasePort) -> bool {
        let p = self.ports_per_edge;
        ||| (port.dir.y == 0 && 1 <= port.dir.x <= p && port.pos.x < self.width && (port.pos.y == 0
            || port.pos.y == self.height))
        ||| (port.dir.x == 0 && 1 <= port.dir.y <= p && port.pos.y < self.height && (port.pos.x
            == 0 || port.pos.x == self.width))
    }

    /// The `j`-th port of `all_ports`: the horizontal-edge ports in
    /// (row, column, sub-position) order, then the vertical-edge ports
    /// in (column, row, sub-position) order.
    pub open spec fn all_port_at(self, j: int) -> BasePort {
        let p = self.ports_per_edge as int;
        let w = self.width as int;
        let h = self.height as int;
        let first = (h + 1) * w * p;
        if j < first {
            let i = j % p;
            let q = j / p;
            let x = q % w;
            let y = q / w;
            BasePort {
                pos: Pt2u { x: x as u32, y: y as u32 },
                dir: Vec2u { x: (i + 1) as u32, y: 0 },
            }
        } else {
            let k = j - first;
            let i = k % p;
            let q = k / p;
            let y = q % h;
            let x = q / h;
            BasePort {
                pos: Pt2u { x: x as u32, y: y as u32 },
                dir: Vec2u { x: 0, y: (i + 1) as u32 },
            }
        }
    }

    /// The `j`-th port of `boundary_ports`: the top then bottom edge
    /// ports, then the left then right edge ports.
    pub open spec fn boundary_port_at(self, j: int) -> BasePort {
        let p = self.ports_per_edge as int;
        let w = self.width as int;
        let h = self.height as int;
        let first = 2 * w * p;
        if j < first {
            let i = j % p;
            let q = j / p;
            let x = q % w;
            let side = q / w;
            let y: int = if side == 0 {
                0
            } else {
                h
            };
            BasePort {
                pos: Pt2u { x: x as u32, y: y as u32 },
                dir: Vec2u { x: (i + 1) as u32, y: 0 },
            }
        } else {
            let k = j - first;
            let i = k % p;
            let q = k / p;
            let y = q % h;
            let side = q / h;
            let x: int = if side == 0 {
                0
            } else {
                w
            };
            BasePort {
                pos: Pt2u { x: x as u32, y: y as u32 },
                dir: Vec2u { x: 0, y: (i + 1) as u32 },
            }
        }
    }

    pub fn new(width: u32, height: u32, ports_per_edge: u32) -> (r: Self)
        ensures
            r == (RectangleBoard { width, height, ports_per_edge }),
    {
        Self { width, height, ports_per_edge }
    }

    pub fn width(&self) -> (r: u32)
        ensures
            r == self.width,
    {
        self.width
    }

    pub fn height(&self) -> (r: u32)
        ensures
            r == self.height,
    {
        self.height
    }

    pub fn ports_per_edge(&self) -> (r: u32)
        ensures
            r == self.ports_per_edge,
    {
        self.ports_per_edge
    }

    /// All the kinds of tiles used by the board.
    pub fn all_kinds(&self) -> (r: Vec<BaseKind>)
        ensures
            r@ =~= seq![BaseKind::Unit],
    {
        let mut r: Vec<BaseKind> = Vec::new();
        r.push(BaseKind::Unit);
        r
    }

    /// The kind of tile that goes in a specific location.
    pub fn kind_at(&self, _loc: &Pt2u) -> (r: BaseKind)
        ensures
            r == BaseKind::Unit,
    {
        BaseKind::Unit
    }

    /// Tile configuration for the board, used for generating tiles.
    pub fn tile_config(&self) -> (r: PortsPerEdgeTileConfig)
        ensures
            r == (PortsPerEdgeTileConfig(self.ports_per_edge)),
    {
        PortsPerEdgeTileConfig(self.ports_per_edge)
    }

    /// All the ports on the board: every port on a horizontal cell
    /// edge, then every port on a vertical cell edge, each exactly the
    /// port `all_port_at` gives for its index.
    pub fn all_ports(&self) -> (r: Vec<BasePort>)
        requires
            self.wf(),
        ensures
            r@.len() == (self.height + 1) * self.width * self.ports_per_edge + (self.width + 1)
                * self.height * self.ports_per_edge,
            forall|j: int| 0 <= j < r@.len() ==> #[trigger] r@[j] == self.all_port_at(j),
            forall|j: int| 0 <= j < r@.len() ==> self.port_on_board(#[trigger] r@[j]),
    {
        let p = self.ports_per_edge;
        let ghost wi = self.width as int;
        let ghost hi = self.height as int;
        let ghost pi = p as int;
        let mut r: Vec<BasePort> = Vec::new();
        proof {
            assert(0int * wi * pi == 0) by (nonlinear_arith);
            assert(0int * hi * pi == 0) by (nonlinear_arith);
        }
        let mut y: u32 = 0;
        while y <= self.height
            invariant
                self.wf(),
                p == self.ports_per_edge,
                wi == self.width as int,
                hi == self.height as int,
                pi == p as int,
                y <= self.height + 1,
                r@.len() == y * self.width * p,
                forall|j: int| 0 <= j < r@.len() ==> #[trigger] r@[j] == self.all_port_at(j),
                forall|j: int| 0 <= j < r@.len() ==> self.port_on_board(#[trigger] r@[j]),
            decreases self.height + 1 - y,
        {
            let mut x: u32 = 0;
            while x < self.width
                invariant
                    self.wf(),
                    p == self.ports_per_edge,
                    wi == self.width as int,
                    hi == self.height as int,
                    pi == p as int,
                    y <= self.height,
                    x <= self.width,
                    r@.len() == y * self.width * p + x * p,
                    forall|j: int| 0 <= j < r@.len() ==> #[trigger] r@[j] == self.all_port_at(j),
                    forall|j: int| 0 <= j < r@.len() ==> self.port_on_board(#[trigger] r@[j]),
                decreases self.width - x,
            {
                let mut i: u32 = 1;
                while i <= p
                    invariant
                        self.wf(),
                        p == self.ports_per_edge,
                        wi == self.width as int,
                        hi == self.height as int,
                        pi == p as int,
                        y <= self.height,
                        x < self.width,
                        1 <= i <= p + 1,
                        r@.len() == y * self.width * p + x * p + (i - 1),
                        forall|j: int|
                            0 <= j < r@.len() ==> #[trigger] r@[j] == self.all_port_at(j),
                        forall|j: int| 0 <= j < r@.len() ==> self.port_on_board(#[trigger] r@[j]),
                    decreases p + 1 - i,
                {
                    let ghost j0 = r@.len() as int;
                    proof {
                        lemma_port_index_decode(y as int, x as int, i as int - 1, wi, pi);
                        assert(j0 < (hi + 1) * wi * pi) by (nonlinear_arith)
                            requires
                                j0 == (y as int) * wi * pi + (x as int) * pi + (i as int - 1),
                                0 <= (y as int) <= hi,
                                0 <= (x as int) < wi,
                                0 <= (i as int) - 1 < pi,
                                1 <= wi,
                                1 <= pi,
                        ;
                    }
                    r.push(BasePort { pos: Pt2u { x, y }, dir: Vec2u { x: i, y: 0 } });
                    proof {
                        assert(r@[j0] == self.all_port_at(j0));
                    }
                    i = i + 1;
                }
                proof {
                    assert((x as int + 1) * pi == x as int * pi + pi) by (nonlinear_arith);
                }
                x = x + 1;
            }
            proof {
                assert((y as int + 1) * wi * pi == y as int * wi * pi + wi * pi)
                    by (nonlinear_arith);
            }
            y = y + 1;
        }
        let ghost first_half = r@.len() as int;
        proof {
            assert(first_half == (hi + 1) * wi * pi);
        }
        let mut x: u32 = 0;
        while x <= self.width
            invariant
                self.wf(),
                p == self.ports_per_edge,
                wi == self.width as int,
                hi == self.height as int,
                pi == p as int,
                first_half == (hi + 1) * wi * pi,
                x <= self.width + 1,
                r@.len() == first_half + x * self.height * p,
                forall|j: int| 0 <= j < r@.len() ==> #[trigger] r@[j] == self.all_port_at(j),
                forall|j: int| 0 <= j < r@.len() ==> self.port_on_board(#[trigger] r@[j]),
            decreases self.width + 1 - x,
        {
            let mut y: u32 = 0;
            while y < self.height
                invariant
                    self.wf(),
                    p == self.ports_per_edge,
                    wi == self.width as int,
                    hi == self.height as int,
                    pi == p as int,
                    first_half == (hi + 1) * wi * pi,
                    x <= self.width,
                    y <= self.height,
                    r@.len() == first_half + x * self.height * p + y * p,
                    forall|j: int| 0 <= j < r@.len() ==> #[trigger] r@[j] == self.all_port_at(j),
                    forall|j: int| 0 <= j < r@.len() ==> self.port_on_board(#[trigger] r@[j]),
                decreases self.height - y,
            {
                let mut i: u32 = 1;
                while i <= p
                    invariant
                        self.wf(),
                        p == self.ports_per_edge,
                        wi == self.width as int,
                        hi == self.height as int,
                        pi == p as int,
                        first_half == (hi + 1) * wi * pi,
                        x <= self.width,
                        y < self.height,
                        1 <= i <= p + 1,
                        r@.len() == first_half + x * self.height * p + y * p + (i - 1),
                        forall|j: int|
                            0 <= j < r@.len() ==> #[trigger] r@[j] == self.all_port_at(j),
                        forall|j: int| 0 <= j < r@.len() ==> self.port_on_board(#[trigger] r@[j]),
                    decreases p + 1 - i,
                {
                    let ghost j0 = r@.len() as int;
                    let ghost k0 = j0 - first_half;
                    proof {
                        lemma_port_index_decode(x as int, y as int, i as int - 1, hi, pi);
                        assert(k0 == (x as int) * hi * pi + (y as int) * pi + (i as int - 1));
                        assert(k0 >= 0);
                        assert(j0 >= first_half);
                    }
                    r.push(BasePort { pos: Pt2u { x, y }, dir: Vec2u { x: 0, y: i } });
                    proof {
                        assert(r@[j0] == self.all_port_at(j0));
                    }
                    i = i + 1;
                }
                proof {
                    assert((y as int + 1) * pi == y as int * pi + pi) by (nonlinear_arith);
                }
                y = y + 1;
            }
            proof {
                assert((x as int + 1) * hi * pi == x as int * hi * pi + hi * pi)
                    by (nonlinear_arith);
            }
            x = x + 1;
        }
        r
    }

    /// The ports on the outer boundary of the board: the top then
    /// bottom edge ports, then the left then right edge ports, each
    /// exactly the port `boundary_port_at` gives for its index.
    pub fn boundary_ports(&self) -> (r: Vec<BasePort>)
        requires
            self.wf(),
        ensures
            r@.len() == 2 * self.width * self.ports_per_edge + 2 * self.height
                * self.ports_per_edge,
            forall|j: int| 0 <= j < r@.len() ==> #[trigger] r@[j] == self.boundary_port_at(j),
            forall|j: int| 0 <= j < r@.len() ==> self.port_on_boundary(#[trigger] r@[j]),
    {
        let p = self.ports_per_edge;
        let ghost wi = self.width as int;
        let ghost hi = self.height as int;
        let ghost pi = p as int;
        let mut r: Vec<BasePort> = Vec::new();
        proof {
            assert(0int * wi * pi == 0) by (nonlinear_arith);
            assert(0int * hi * pi == 0) by (nonlinear_arith);
        }
        let mut side: u32 = 0;
        while side < 2
            invariant
                self.wf(),
                p == self.ports_per_edge,
                wi == self.width as int,
                hi == self.height as int,
                pi == p as int,
                side <= 2,
                r@.len() == side * self.width * p,
                forall|j: int| 0 <= j < r@.len() ==> #[trigger] r@[j] == self.boundary_port_at(j),
                forall|j: int| 0 <= j < r@.len() ==> self.port_on_boundary(#[trigger] r@[j]),
            decreases 2 - side,
        {
            let y: u32 = if side == 0 {
                0
            } else {
                self.height
            };
            let mut x: u32 = 0;
            while x < self.width
                invariant
                    self.wf(),
                    p == self.ports_per_edge,
                    wi == self.width as int,
                    hi == self.height as int,
                    pi == p as int,
                    side < 2,
                    y == (if side == 0 {
                        0u32
                    } else {
                        self.height
                    }),
                    x <= self.width,
                    r@.len() == side * self.width * p + x * p,
                    forall|j: int|
                        0 <= j < r@.len() ==> #[trigger] r@[j] == self.boundary_port_at(j),
                    forall|j: int| 0 <= j < r@.len() ==> self.port_on_boundary(#[trigger] r@[j]),
                decreases self.width - x,
            {
                let mut i: u32 = 1;
                while i <= p
                    invariant
                        self.wf(),
                        p == self.ports_per_edge,
                        wi == self.width as int,
                        hi == self.height as int,
                        pi == p as int,
                        side < 2,
                        y == (if side == 0 {
                            0u32
                        } else {
                            self.height
                        }),
                        x < self.width,
                        1 <= i <= p + 1,
                        r@.len() == side * self.width * p + x * p + (i - 1),
                        forall|j: int|
                            0 <= j < r@.len() ==> #[trigger] r@[j] == self.boundary_port_at(j),
                        forall|j: int|
                            0 <= j < r@.len() ==> self.port_on_boundary(#[trigger] r@[j]),
                    decreases p + 1 - i,
                {
                    let ghost j0 = r@.len() as int;
                    proof {
                        lemma_port_index_decode(side as int, x as int, i as int - 1, wi, pi);
                        assert(j0 < 2 * wi * pi) by (nonlinear_arith)
                            requires
                                j0 == (side as int) * wi * pi + (x as int) * pi + (i as int - 1),
                                0 <= (side as int) <= 1,
                                0 <= (x as int) < wi,
                                0 <= (i as int) - 1 < pi,
                                1 <= wi,
                                1 <= pi,
                        ;
                    }
                    r.push(BasePort { pos: Pt2u { x, y }, dir: Vec2u { x: i, y: 0 } });
                    proof {
                        assert(r@[j0] == self.boundary_port_at(j0));
                    }
                    i = i + 1;
                }
                proof {
                    assert((x as int + 1) * pi == x as int * pi + pi) by (nonlinear_arith);
                }
                x = x + 1;
            }
            proof {
                assert((side as int + 1) * wi * pi == side as int * wi * pi + wi * pi)
                    by (nonlinear_arith);
            }
            side = side + 1;
        }
        let ghost first_half = r@.len() as int;
        proof {
            assert(first_half == 2 * wi * pi);
        }
        let mut side: u32 = 0;
        while side < 2
            invariant
                self.wf(),
                p == self.ports_per_edge,
                wi == self.width as int,
                hi == self.height as int,
                pi == p as int,
                first_half == 2 * wi * pi,
                side <= 2,
                r@.len() == first_half + side * self.height * p,
                forall|j: int| 0 <= j < r@.len() ==> #[trigger] r@[j] == self.boundary_port_at(j),
                forall|j: int| 0 <= j < r@.len() ==> self.port_on_boundary(#[trigger] r@[j]),
            decreases 2 - side,
        {
            let x: u32 = if side == 0 {
                0
            } else {
                self.width
            };
            let mut y: u32 = 0;
            while y < self.height
                invariant
                    self.wf(),
                    p == self.ports_per_edge,
                    wi == self.width as int,
                    hi == self.height as int,
                    pi == p as int,
                    first_half == 2 * wi * pi,
                    side < 2,
                    x == (if side == 0 {
                        0u32
                    } else {
                        self.width
                    }),
                    y <= self.height,
                    r@.len() == first_half + side * self.height * p + y * p,
                    forall|j: int|
                        0 <= j < r@.len() ==> #[trigger] r@[j] == self.boundary_port_at(j),
                    forall|j: int| 0 <= j < r@.len() ==> self.port_on_boundary(#[trigger] r@[j]),
                decreases self.height - y,
            {
                let mut i: u32 = 1;
                while i <= p
                    invariant
                        self.wf(),
                        p == self.ports_per_edge,
                        wi == self.width as int,
                        hi == self.height as int,
                        pi == p as int,
                        first_half == 2 * wi * pi,
                        side < 2,
                        x == (if side == 0 {
                            0u32
                        } else {
                            self.width
                        }),
                        y < self.height,
                        1 <= i <= p + 1,
                        r@.len() == first_half + side * self.height * p + y * p + (i - 1),
                        forall|j: int|
                            0 <= j < r@.len() ==> #[trigger] r@[j] == self.boundary_port_at(j),
                        forall|j: int|
                            0 <= j < r@.len() ==> self.port_on_boundary(#[trigger] r@[j]),
                    decreases p + 1 - i,
                {
                    let ghost j0 = r@.len() as int;
                    let ghost k0 = j0 - first_half;
                    proof {
                        lemma_port_index_decode(side as int, y as int, i as int - 1, hi, pi);
                        assert(k0 == (side as int) * hi * pi + (y as int) * pi + (i as int - 1));
                        assert(k0 >= 0);
                    }
                    r.push(BasePort { pos: Pt2u { x, y }, dir: Vec2u { x: 0, y: i } });
                    proof {
                        assert(r@[j0] == self.boundary_port_at(j0));
                    }
                    i = i + 1;
                }
                proof {
                    assert((y as int + 1) * pi == y as int * pi + pi) by (nonlinear_arith);
                }
                y = y + 1;
            }
            proof {
                assert((side as int + 1) * hi * pi == side as int * hi * pi + hi * pi)
                    by (nonlinear_arith);
            }
            side = side + 1;
        }
        r
    }

    /// The player ports around a tile location, in cyclic order.
    pub fn loc_ports(&self, loc: &Pt2u) -> (r: Vec<BasePort>)
        requires
            self.wf(),
            self.loc_in_bounds(*loc),
        ensures
            r@ == self.loc_ports_seq(*loc),
    {
        let p = self.ports_per_edge;
        let mut r: Vec<BasePort> = Vec::new();
        let mut i: u32 = 1;
        while i <= p
            invariant
                self.wf(),
                self.loc_in_bounds(*loc),
                p == self.ports_per_edge,
                1 <= i <= p + 1,
                r@.len() == i - 1,
                forall|j: int| 0 <= j < r@.len() ==> r@[j] == self.loc_port_spec(*loc, j),
            decreases p + 1 - i,
        {
            r.push(BasePort { pos: *loc, dir: Vec2u { x: i, y: 0 } });
            i = i + 1;
        }
        let mut i: u32 = 1;
        while i <= p
            invariant
                self.wf(),
                self.loc_in_bounds(*loc),
                p == self.ports_per_edge,
                1 <= i <= p + 1,
                r@.len() == p + i - 1,
                forall|j: int| 0 <= j < r@.len() ==> r@[j] == self.loc_port_spec(*loc, j),
            decreases p + 1 - i,
        {
            r.push(
                BasePort { pos: Pt2u { x: loc.x + 1, y: loc.y }, dir: Vec2u { x: 0, y: i } },
            );
            i = i + 1;
        }
        let mut i: u32 = p;
        while i >= 1
            invariant
                self.wf(),
                self.loc_in_bounds(*loc),
                p == self.ports_per_edge,
                0 <= i <= p,
                r@.len() == 2 * p + (p - i),
                forall|j: int| 0 <= j < r@.len() ==> r@[j] == self.loc_port_spec(*loc, j),
            decreases i,
        {
            r.push(
                BasePort { pos: Pt2u { x: loc.x, y: loc.y + 1 }, dir: Vec2u { x: i, y: 0 } },
            );
            i = i - 1;
        }
        let mut i: u32 = p;
        while i >= 1
            invariant
                self.wf(),
                self.loc_in_bounds(*loc),
                p == self.ports_per_edge,
                0 <= i <= p,
                r@.len() == 3 * p + (p - i),
                forall|j: int| 0 <= j < r@.len() ==> r@[j] == self.loc_port_spec(*loc, j),
            decreases i,
        {
            r.push(BasePort { pos: *loc, dir: Vec2u { x: 0, y: i } });
            i = i - 1;
        }
        proof {
            assert(r@ =~= self.loc_ports_seq(*loc));
        }
        r
    }

    /// The tile locations adjacent to a port, restricted to the board:
    /// two for an interior port, one for an edge port, none for a port
    /// beyond the board.
    pub fn port_locs(&self, port: &BasePort) -> (r: Vec<Pt2u>)
        requires
            self.wf(),
        ensures
            r@ == self.port_locs_spec(*port),
    {
        let mut r: Vec<Pt2u> = Vec::new();
        let in0 = port.pos.x < self.width && port.pos.y < self.height;
        if in0 {
            r.push(port.pos);
        }
        if port.dir.y == 0 {
            if port.pos.y >= 1 && port.pos.x < self.width && port.pos.y - 1 < self.height {
                r.push(Pt2u { x: port.pos.x, y: port.pos.y - 1 });
            }
        } else {
            if port.pos.x >= 1 && port.pos.x - 1 < self.width && port.pos.y < self.height {
                r.push(Pt2u { x: port.pos.x - 1, y: port.pos.y });
            }
        }
        proof {
            assert(r@ =~= self.port_locs_spec(*port));
        }
        r
    }
}


/// A flat enumeration index built from (outer, inner, sub) positions
/// decodes back to its components.
proof fn lemma_port_index_decode(outer: int, inner: int, sub: int, stride: int, p: int)
    requires
        0 <= outer,
        0 <= inner < stride,
        0 <= sub < p,
        1 <= stride,
        1 <= p,
    ensures
        outer * stride * p + inner * p + sub == (outer * stride + inner) * p + sub,
        0 <= outer * stride + inner,
        0 <= outer * stride * p + inner * p + sub,
        (outer * stride * p + inner * p + sub) / p == outer * stride + inner,
        (outer * stride * p + inner * p + sub) % p == sub,
        (outer * stride + inner) / stride == outer,
        (outer * stride + inner) % stride == inner,
{
    let q = outer * stride + inner;
    let j = q * p + sub;
    assert(q * p == outer * stride * p + inner * p && q >= 0 && j >= 0) by (nonlinear_arith)
        requires
            q == outer * stride + inner,
            j == q * p + sub,
            0 <= outer,
            0 <= inner,
            0 <= sub,
            1 <= stride,
            1 <= p,
    ;
    vstd::arithmetic::div_mod::lemma_fundamental_div_mod_converse(j, p, q, sub);
    vstd::arithmetic::div_mod::lemma_fundamental_div_mod_converse(q, stride, outer, inner);
}

} // verus!
