use vstd::prelude::*;

use crate::dual_verts::DualVerts;
use crate::geom::{Normal, Point, BISECTION_TOLERANCE, NORMAL_STEP, SAMPLE_LIMIT, UNIT};
use crate::isoline::IsoLine;

use vstd::arithmetic::div_mod::{lemma_fundamental_div_mod_converse, lemma_mod_multiples_basic};

verus! {

/// Position of a lattice point in row-major order: `x + y * width`.
pub type Index = usize;

/// Largest number of lattice points that a grid may hold.
pub const MAX_VERTICES: u64 = 0xffff_ffff;

/// Bound on every coordinate of a lattice point or a crossing: no grid has a
/// side longer than `MAX_VERTICES` cells.
pub const COORD_LIMIT: i64 = 0x4000_0000_0000;

/// Spacing, in sub-units, of the points where bisection can stop: one
/// thirty-second of a cell. It divides every count of crossings a face can
/// have, so the mean of a face's crossings is exact.
pub const CROSSING_GRAIN: i64 = 300;

/// Both coordinates are multiples of [`CROSSING_GRAIN`].
pub open spec fn on_grain(p: Point) -> bool {
    p.x % CROSSING_GRAIN == 0 && p.y % CROSSING_GRAIN == 0
}

/// A whole number of cells is a whole number of grains.
proof fn lemma_cells_on_grain(k: int)
    ensures
        (k * UNIT) % (CROSSING_GRAIN as int) == 0,
{
    assert(k * UNIT == (k * 32) * 300) by (nonlinear_arith);
    lemma_mod_multiples_basic(k * 32, CROSSING_GRAIN as int);
}

/// An edge between two neighbouring lattice points whose occupancy differs.
pub struct Edge {
    /// The two endpoints, the lower index first.
    pub verts: [Index; 2],
    /// Dual vertices of the faces on either side.
    pub dual_verts: DualVerts,
    /// Where the contour crosses the edge.
    pub position: Point,
    /// Normal of the contour at the crossing.
    pub normal: Normal,
}

/// The point `t` sub-units of the way from `p1` towards `p2`, for two points
/// one cell apart on an axis.
pub open spec fn along(p1: Point, p2: Point, t: int) -> Point {
    Point {
        x: (p1.x + if p2.x > p1.x {
            t
        } else if p2.x < p1.x {
            -t
        } else {
            0
        }) as i64,
        y: (p1.y + if p2.y > p1.y {
            t
        } else if p2.y < p1.y {
            -t
        } else {
            0
        }) as i64,
    }
}

/// Whether the field is positive (inside) at `p`.
pub open spec fn inside<S: IsoLine>(iso: &S, p: Point) -> bool {
    iso.field(p) > 0
}

/// The bisection from bracket `[a, b]` along `p1 → p2`: the bracket is
/// halved, keeping as its lower end the side whose occupancy is
/// `inside1`, until it is no wider than [`BISECTION_TOLERANCE`]; the result is
/// the last midpoint evaluated.
pub open spec fn bisect<S: IsoLine>(
    iso: &S,
    p1: Point,
    p2: Point,
    inside1: bool,
    a: int,
    b: int,
) -> int
    decreases b - a,
{
    let mid = (a + b) / 2;
    let keep_low = inside(iso, along(p1, p2, mid)) == inside1;
    let na = if keep_low {
        mid
    } else {
        a
    };
    let nb = if keep_low {
        b
    } else {
        mid
    };
    if b - a > 1 && nb - na > BISECTION_TOLERANCE {
        bisect(iso, p1, p2, inside1, na, nb)
    } else {
        mid
    }
}

/// The crossing that bisection finds between neighbouring lattice points
/// `p1` and `p2`: an endpoint where the field is exactly zero, else the
/// bisection over the edge's unit parametrisation.
pub open spec fn crossing<S: IsoLine>(iso: &S, p1: Point, p2: Point) -> Point {
    if iso.field(p1) == 0 {
        p1
    } else if iso.field(p2) == 0 {
        p2
    } else {
        along(p1, p2, bisect(iso, p1, p2, inside(iso, p1), 0, UNIT as int))
    }
}

/// `along`, computed, for a `t` of at most one cell.
fn point_along(p1: Point, p2: Point, t: i64) -> (r: Point)
    requires
        in_grid_bounds(p1),
        in_grid_bounds(p2),
        0 <= t <= UNIT,
        (p1.y == p2.y && (p2.x == p1.x + UNIT || p1.x == p2.x + UNIT)) || (p1.x == p2.x && (p2.y
            == p1.y + UNIT || p1.y == p2.y + UNIT)),
    ensures
        r == along(p1, p2, t as int),
        in_grid_bounds(r),
        r.within(SAMPLE_LIMIT as int - NORMAL_STEP),
        t > 0 ==> r != p1,
        on_grain(p1) && t % CROSSING_GRAIN == 0 ==> on_grain(r),
{
    let x = if p2.x > p1.x {
        p1.x + t
    } else if p2.x < p1.x {
        p1.x - t
    } else {
        p1.x
    };
    let y = if p2.y > p1.y {
        p1.y + t
    } else if p2.y < p1.y {
        p1.y - t
    } else {
        p1.y
    };
    Point { x, y }
}

/// Both coordinates lie in `[0, COORD_LIMIT]`.
pub open spec fn in_grid_bounds(p: Point) -> bool {
    0 <= p.x <= COORD_LIMIT && 0 <= p.y <= COORD_LIMIT
}

/// The part of an edge that sampling decides: everything but its dual vertices.
pub open spec fn hermite(e: Option<Edge>) -> Option<(Index, Index, Point, Normal)> {
    match e {
        Some(e) => Some((e.verts[0], e.verts[1], e.position, e.normal)),
        None => None,
    }
}

/// The dual vertices that an edge slot holds; none where there is no edge.
pub open spec fn duals_of(e: Option<Edge>) -> Seq<Point> {
    match e {
        Some(e) => e.dual_verts@,
        None => Seq::empty(),
    }
}

/// Everything that sampling decides about a grid: its size, occupancy and
/// crossing edges, but not the dual vertices that a tree adds to them.
pub struct Geometry {
    pub width: nat,
    pub height: nat,
    pub occupancy: Seq<bool>,
    pub h: Seq<Option<(Index, Index, Point, Normal)>>,
    pub v: Seq<Option<(Index, Index, Point, Normal)>>,
}

/// The segments that a sequence of edge slots yields: one, between its two
/// dual vertices, for each edge that has exactly two.
pub open spec fn segments(s: Seq<Option<Edge>>) -> Seq<(Point, Point)>
    decreases s.len(),
{
    if s.len() == 0 {
        Seq::empty()
    } else {
        let d = duals_of(s.last());
        segments(s.drop_last()) + if d.len() == 2 {
            seq![(d[0], d[1])]
        } else {
            Seq::empty()
        }
    }
}

/// Number of edges in a sequence of slots that have exactly two dual vertices.
pub open spec fn count_full(s: Seq<Option<Edge>>) -> nat
    decreases s.len(),
{
    if s.len() == 0 {
        0
    } else {
        count_full(s.drop_last()) + if duals_of(s.last()).len() == 2 {
            1nat
        } else {
            0nat
        }
    }
}

/// `after` is `before` with the contour of `iso` added by `add_contour`.
pub open spec fn contour_added<S: IsoLine>(before: HermiteGrid, after: HermiteGrid, iso: &S) -> bool {
    &&& after.spec_width() == before.spec_width()
    &&& after.spec_height() == before.spec_height()
    &&& forall|v: int|
        0 <= v < before.n() ==> #[trigger] after.occupancy()[v] == (before.occupancy()[v] || inside(
            iso,
            before.position(v),
        ))
    &&& forall|u: int|
        0 <= u < before.n() ==> if before.has_right(u) && after.occupancy()[u] != after.occupancy()[u
            + 1] {
            after.made_edge(#[trigger] after.h_slots()[u], iso, u, u + 1)
        } else {
            after.h_slots()[u] == before.h_slots()[u]
        }
    &&& forall|u: int|
        0 <= u < before.n() ==> if before.has_below(u) && after.occupancy()[u] != after.occupancy()[u
            + before.spec_width()] {
            after.made_edge(#[trigger] after.v_slots()[u], iso, u, u + before.spec_width())
        } else {
            after.v_slots()[u] == before.v_slots()[u]
        }
}

/// Adding, to a grid with no occupied lattice point and no edge, the contour
/// of a field that is not positive at any lattice point leaves every lattice
/// point outside and creates no edge.
pub proof fn lemma_outside_contour<S: IsoLine>(before: HermiteGrid, after: HermiteGrid, iso: &S)
    requires
        before.wf(),
        forall|v: int| 0 <= v < before.n() ==> !(#[trigger] before.occupancy()[v]),
        forall|u: int| 0 <= u < before.n() ==> (#[trigger] before.h_slots()[u]) is None,
        forall|u: int| 0 <= u < before.n() ==> (#[trigger] before.v_slots()[u]) is None,
        forall|v: int| 0 <= v < before.n() ==> iso.field(#[trigger] before.position(v)) <= 0,
        contour_added(before, after, iso),
    ensures
        after.n() == before.n(),
        forall|v: int| 0 <= v < after.n() ==> !(#[trigger] after.occupancy()[v]),
        forall|u: int| 0 <= u < after.n() ==> (#[trigger] after.h_slots()[u]) is None,
        forall|u: int| 0 <= u < after.n() ==> (#[trigger] after.v_slots()[u]) is None,
{
    assert forall|u: int| 0 <= u < after.n() implies (#[trigger] after.h_slots()[u]) is None by {
        if before.has_right(u) {
            before.lemma_neighbours(u);
            assert(!after.occupancy()[u]);
            assert(!after.occupancy()[u + 1]);
        }
    }
    assert forall|u: int| 0 <= u < after.n() implies (#[trigger] after.v_slots()[u]) is None by {
        if before.has_below(u) {
            assert(!after.occupancy()[u]);
            assert(!after.occupancy()[u + before.spec_width()]);
        }
    }
}

/// Each edge with exactly two dual vertices yields one segment between
/// them, and no other segment is yielded.
pub proof fn lemma_full_edge_segment(s: Seq<Option<Edge>>, k: int)
    requires
        0 <= k < s.len(),
        duals_of(s[k]).len() == 2,
    ensures
        segments(s).contains((duals_of(s[k])[0], duals_of(s[k])[1])),
        segments(s).len() == count_full(s),
    decreases s.len(),
{
    lemma_segments_count(s);
    if k == s.len() - 1 {
        let seg = (duals_of(s[k])[0], duals_of(s[k])[1]);
        let prev = segments(s.drop_last());
        assert(segments(s) == prev + seq![seg]);
        assert(segments(s)[prev.len() as int] == seg);
    } else {
        lemma_full_edge_segment(s.drop_last(), k);
        let prev = segments(s.drop_last());
        let seg = (duals_of(s[k])[0], duals_of(s[k])[1]);
        let j = choose|j: int| 0 <= j < prev.len() && prev[j] == seg;
        assert(segments(s)[j] == seg);
    }
}

/// One segment for each edge with exactly two dual vertices.
pub proof fn lemma_segments_count(s: Seq<Option<Edge>>)
    ensures
        segments(s).len() == count_full(s),
    decreases s.len(),
{
    if s.len() > 0 {
        lemma_segments_count(s.drop_last());
    }
}

/// Slots holding the same dual vertices yield the same segments.
pub proof fn lemma_segments_same_duals(s1: Seq<Option<Edge>>, s2: Seq<Option<Edge>>)
    requires
        s1.len() == s2.len(),
        forall|k: int| 0 <= k < s1.len() ==> duals_of(#[trigger] s1[k]) == duals_of(s2[k]),
    ensures
        segments(s1) == segments(s2),
    decreases s1.len(),
{
    if s1.len() > 0 {
        lemma_segments_same_duals(s1.drop_last(), s2.drop_last());
        assert(duals_of(s1.last()) == duals_of(s2.last()));
    }
}

/// Number of edges present in a sequence of slots.
pub open spec fn count_edges(s: Seq<Option<Edge>>) -> nat
    decreases s.len(),
{
    if s.len() == 0 {
        0
    } else {
        count_edges(s.drop_last()) + if s.last() is Some {
            1nat
        } else {
            0nat
        }
    }
}

proof fn lemma_count_edges_bound(s: Seq<Option<Edge>>)
    ensures
        count_edges(s) <= s.len(),
    decreases s.len(),
{
    if s.len() > 0 {
        lemma_count_edges_bound(s.drop_last());
    }
}

/// Number of occupied slots.
fn count_slots(slots: &Vec<Option<Edge>>) -> (r: usize)
    ensures
        r == count_edges(slots@),
{
    let mut r: usize = 0;
    let mut k: usize = 0;
    while k < slots.len()
        invariant
            k <= slots@.len(),
            r == count_edges(slots@.take(k as int)),
        decreases slots@.len() - k,
    {
        proof {
            lemma_count_edges_bound(slots@.take(k as int));
            assert(slots@.take(k + 1).drop_last() == slots@.take(k as int));
        }
        if slots[k].is_some() {
            r = r + 1;
        }
        k = k + 1;
    }
    assert(slots@.take(k as int) == slots@);
    r
}

/// Adds `d` to the dual vertices of the edge in slot `k`, if there is one.
fn push_if_some(slots: &mut Vec<Option<Edge>>, k: usize, d: Point)
    requires
        k < old(slots)@.len(),
        duals_of(old(slots)@[k as int]).len() < 2,
    ensures
        final(slots)@.len() == old(slots)@.len(),
        forall|j: int| 0 <= j < old(slots)@.len() && j != k ==> #[trigger] final(slots)@[j] == old(slots)@[j],
        hermite(final(slots)@[k as int]) == hermite(old(slots)@[k as int]),
        (final(slots)@[k as int] is Some) == (old(slots)@[k as int] is Some),
        duals_of(final(slots)@[k as int]) == if old(slots)@[k as int] is Some {
            duals_of(old(slots)@[k as int]).push(d)
        } else {
            duals_of(old(slots)@[k as int])
        },
{
    match &mut slots[k] {
        Some(e) => {
            e.dual_verts.push(d);
        },
        None => {},
    }
}

/// Appends the segments of `slots` to `out`.
fn append_segments(slots: &Vec<Option<Edge>>, out: &mut Vec<(Point, Point)>)
    ensures
        final(out)@ == old(out)@ + segments(slots@),
{
    let ghost start = out@;
    let mut k: usize = 0;
    while k < slots.len()
        invariant
            k <= slots@.len(),
            out@ == start + segments(slots@.take(k as int)),
        decreases slots@.len() - k,
    {
        proof {
            assert(slots@.take(k + 1).drop_last() == slots@.take(k as int));
        }
        match &slots[k] {
            Some(e) => {
                if e.dual_verts.len() == 2 {
                    out.push((e.dual_verts.get(0), e.dual_verts.get(1)));
                }
            },
            None => {},
        }
        k = k + 1;
        assert(out@ == start + segments(slots@.take(k as int)));
    }
    assert(slots@.take(k as int) == slots@);
}

/// A dense lattice of occupancy flags, with the crossing edges between them.
///
/// Edges are keyed by their pair of endpoints, and every such pair is a
/// lattice point and its right or lower neighbour. So rather than a map from
/// pairs, each kind of edge has a dense slot per lattice point, indexed by the
/// lower endpoint: the edge from `u` to `u + 1` sits at `h_edges[u]`, the edge
/// from `u` to `u + width` at `v_edges[u]`. A key thus has exactly one slot,
/// which holds at most one edge, and the invariant ties each present edge to
/// its slot (`verts == [u, u + 1]` or `[u, u + width]`). Walking the slots
/// also gives the segments in a fixed order: horizontal edges, then vertical
/// ones, each by lower endpoint.
pub struct HermiteGrid {
    width: u32,
    height: u32,
    verts: Vec<bool>,
    h_edges: Vec<Option<Edge>>,
    v_edges: Vec<Option<Edge>>,
}

impl HermiteGrid {
    pub closed spec fn spec_width(&self) -> nat {
        self.width as nat
    }

    pub closed spec fn spec_height(&self) -> nat {
        self.height as nat
    }

    /// Number of lattice points.
    pub open spec fn n(&self) -> nat {
        self.spec_width() * self.spec_height()
    }

    pub open spec fn col(&self, v: int) -> int {
        v % (self.spec_width() as int)
    }

    pub open spec fn row(&self, v: int) -> int {
        v / (self.spec_width() as int)
    }

    /// Position of lattice point `v`.
    pub open spec fn position(&self, v: int) -> Point {
        Point { x: (self.col(v) * UNIT) as i64, y: (self.row(v) * UNIT) as i64 }
    }

    /// Occupancy of every lattice point.
    pub closed spec fn occupancy(&self) -> Seq<bool> {
        self.verts@
    }

    /// Edge slots to the right of each lattice point.
    pub closed spec fn h_slots(&self) -> Seq<Option<Edge>> {
        self.h_edges@
    }

    /// Edge slots below each lattice point.
    pub closed spec fn v_slots(&self) -> Seq<Option<Edge>> {
        self.v_edges@
    }

    /// `u` has a right neighbour.
    pub open spec fn has_right(&self, u: int) -> bool {
        0 <= u < self.n() && self.col(u) + 1 < self.spec_width()
    }

    /// `u` has a neighbour below.
    pub open spec fn has_below(&self, u: int) -> bool {
        0 <= u && u + self.spec_width() < self.n()
    }

    /// `v1` and `v2` are lattice points one cell apart.
    pub open spec fn adjacent(&self, v1: int, v2: int) -> bool {
        (v2 == v1 + 1 && self.has_right(v1)) || (v1 == v2 + 1 && self.has_right(v2)) || (v2 == v1
            + self.spec_width() && self.has_below(v1)) || (v1 == v2 + self.spec_width()
            && self.has_below(v2))
    }

    /// The edge between lattice points `a` and `b`, in either order.
    pub open spec fn edge_between(&self, a: int, b: int) -> Option<Edge> {
        if b == a + 1 && self.has_right(a) {
            self.h_slots()[a]
        } else if a == b + 1 && self.has_right(b) {
            self.h_slots()[b]
        } else if b == a + self.spec_width() && self.has_below(a) {
            self.v_slots()[a]
        } else if a == b + self.spec_width() && self.has_below(b) {
            self.v_slots()[b]
        } else {
            None
        }
    }

    /// `e` is an edge from `a` to `b` as `add_contour` makes it for `iso`,
    /// before any dual vertex is added.
    pub open spec fn made_edge<S: IsoLine>(&self, e: Option<Edge>, iso: &S, a: int, b: int) -> bool {
        &&& e is Some
        &&& e.unwrap().verts[0] == a
        &&& e.unwrap().verts[1] == b
        &&& e.unwrap().position == crossing(iso, self.position(a), self.position(b))
        &&& e.unwrap().normal == iso.normal_at(e.unwrap().position)
        &&& e.unwrap().dual_verts@ == Seq::<Point>::empty()
    }

    pub open spec fn edge_ok(&self, e: Option<Edge>, a: int, b: int) -> bool {
        e is Some ==> {
            &&& e.unwrap().verts[0] == a
            &&& e.unwrap().verts[1] == b
            &&& in_grid_bounds(e.unwrap().position)
            &&& on_grain(e.unwrap().position)
            &&& self.occupancy()[a] || self.occupancy()[b]
        }
    }

    pub closed spec fn wf(&self) -> bool {
        &&& self.n() <= MAX_VERTICES
        &&& self.verts@.len() == self.n()
        &&& self.h_edges@.len() == self.n()
        &&& self.v_edges@.len() == self.n()
        &&& forall|u: int|
            0 <= u < self.n() && (#[trigger] self.h_edges@[u]) is Some ==> self.has_right(u)
                && self.edge_ok(self.h_edges@[u], u, u + 1)
        &&& forall|u: int|
            0 <= u < self.n() && (#[trigger] self.v_edges@[u]) is Some ==> self.has_below(u)
                && self.edge_ok(self.v_edges@[u], u, u + self.spec_width())
    }

    pub proof fn lemma_wf(&self)
        requires
            self.wf(),
        ensures
            self.n() <= MAX_VERTICES,
            self.occupancy().len() == self.n(),
            self.h_slots().len() == self.n(),
            self.v_slots().len() == self.n(),
            forall|u: int|
                0 <= u < self.n() && (#[trigger] self.h_slots()[u]) is Some ==> self.has_right(u)
                    && self.edge_ok(self.h_slots()[u], u, u + 1),
            forall|u: int|
                0 <= u < self.n() && (#[trigger] self.v_slots()[u]) is Some ==> self.has_below(u)
                    && self.edge_ok(self.v_slots()[u], u, u + self.spec_width()),
    {
    }

    /// Every edge has an occupied endpoint, so a grid with no occupied
    /// lattice point has no edge.
    pub proof fn lemma_outside_no_edges(&self)
        requires
            self.wf(),
            forall|v: int| 0 <= v < self.n() ==> !(#[trigger] self.occupancy()[v]),
        ensures
            forall|u: int| 0 <= u < self.n() ==> (#[trigger] self.h_slots()[u]) is None,
            forall|u: int| 0 <= u < self.n() ==> (#[trigger] self.v_slots()[u]) is None,
    {
        assert forall|u: int| 0 <= u < self.n() implies (#[trigger] self.h_slots()[u]) is None by {
            if self.h_slots()[u] is Some {
                self.lemma_neighbours(u);
                assert(!self.occupancy()[u + 1]);
            }
        }
        assert forall|u: int| 0 <= u < self.n() implies (#[trigger] self.v_slots()[u]) is None by {
            if self.v_slots()[u] is Some {
                assert(!self.occupancy()[u + self.spec_width()]);
            }
        }
    }

    /// A grid of `width × height` lattice points, all outside, with no edges.
    pub fn new(width: u32, height: u32) -> (r: HermiteGrid)
        requires
            width * height <= MAX_VERTICES,
        ensures
            r.wf(),
            r.spec_width() == width,
            r.spec_height() == height,
            r.occupancy() == Seq::new(r.n(), |v: int| false),
            forall|u: int| 0 <= u < r.n() ==> (#[trigger] r.h_slots()[u]) is None,
            forall|u: int| 0 <= u < r.n() ==> (#[trigger] r.v_slots()[u]) is None,
    {
        let total: usize = (width as usize) * (height as usize);
        let mut verts: Vec<bool> = Vec::new();
        let mut h_edges: Vec<Option<Edge>> = Vec::new();
        let mut v_edges: Vec<Option<Edge>> = Vec::new();
        let mut k: usize = 0;
        while k < total
            invariant
                k <= total,
                total == width * height,
                verts@ == Seq::new(k as nat, |v: int| false),
                h_edges@.len() == k,
                v_edges@.len() == k,
                forall|u: int| 0 <= u < k ==> (#[trigger] h_edges@[u]) is None,
                forall|u: int| 0 <= u < k ==> (#[trigger] v_edges@[u]) is None,
            decreases total - k,
        {
            verts.push(false);
            h_edges.push(None);
            v_edges.push(None);
            k = k + 1;
        }
        HermiteGrid { width, height, verts, h_edges, v_edges }
    }

    pub fn width(&self) -> (r: u32)
        ensures
            r == self.spec_width(),
    {
        self.width
    }

    pub fn height(&self) -> (r: u32)
        ensures
            r == self.spec_height(),
    {
        self.height
    }

    /// Position of lattice point `v`.
    pub fn vertex_position(&self, v: &Index) -> (r: Point)
        requires
            self.wf(),
            *v < self.n(),
        ensures
            r == self.position(*v as int),
            in_grid_bounds(r),
            on_grain(r),
    {
        proof {
            self.lemma_position_bounds(*v as int);
            lemma_cells_on_grain(self.col(*v as int));
            lemma_cells_on_grain(self.row(*v as int));
        }
        let w = self.width as usize;
        let i = *v % w;
        let j = *v / w;
        Point { x: (i as i64) * UNIT, y: (j as i64) * UNIT }
    }

    proof fn lemma_position_bounds(&self, v: int)
        requires
            self.wf(),
            0 <= v < self.n(),
        ensures
            0 <= self.col(v) < self.spec_width(),
            0 <= self.row(v) < self.spec_height(),
            self.spec_width() <= MAX_VERTICES,
            in_grid_bounds(self.position(v)),
    {
        let w = self.spec_width() as int;
        let h = self.spec_height() as int;
        assert(w > 0) by (nonlinear_arith)
            requires
                0 <= v < w * h,
                h >= 0,
        ;
        assert(h > 0) by (nonlinear_arith)
            requires
                0 <= v < w * h,
                w > 0,
        ;
        assert(w <= w * h) by (nonlinear_arith)
            requires
                w > 0,
                h > 0,
        ;
        assert(0 <= v / w < h) by (nonlinear_arith)
            requires
                0 <= v < w * h,
                w > 0,
        ;
        assert(0 <= v % w < w) by (nonlinear_arith)
            requires
                w > 0,
        ;
    }

    proof fn lemma_neighbours(&self, u: int)
        requires
            self.wf(),
            0 <= u < self.n(),
        ensures
            self.has_right(u) ==> u + 1 < self.n() && self.col(u + 1) == self.col(u) + 1 && self.row(
                u + 1,
            ) == self.row(u),
            self.has_below(u) ==> self.col(u + self.spec_width()) == self.col(u) && self.row(
                u + self.spec_width(),
            ) == self.row(u) + 1,
    {
        self.lemma_position_bounds(u);
        let w = self.spec_width() as int;
        assert(u == self.row(u) * w + self.col(u)) by (nonlinear_arith)
            requires
                w > 0,
                self.row(u) == u / w,
                self.col(u) == u % w,
        ;
        if self.has_right(u) {
            assert(u + 1 == self.row(u) * w + (self.col(u) + 1));
            let h = self.spec_height() as int;
            assert(self.row(u) * w + w <= w * h) by (nonlinear_arith)
                requires
                    self.row(u) < h,
                    w > 0,
            ;
            lemma_fundamental_div_mod_converse(u + 1, w, self.row(u), self.col(u) + 1);
            assert(u + 1 < self.n());
        }
        if self.has_below(u) {
            assert(u + w == (self.row(u) + 1) * w + self.col(u)) by (nonlinear_arith)
                requires
                    u == self.row(u) * w + self.col(u),
            ;
            lemma_fundamental_div_mod_converse(u + w, w, self.row(u) + 1, self.col(u));
        }
    }

    /// Positions of neighbouring lattice points differ by one cell on one axis.
    proof fn lemma_adjacent_positions(&self, v1: int, v2: int)
        requires
            self.wf(),
            self.adjacent(v1, v2),
        ensures
            0 <= v1 < self.n(),
            0 <= v2 < self.n(),
            in_grid_bounds(self.position(v1)),
            in_grid_bounds(self.position(v2)),
            ({
                let p1 = self.position(v1);
                let p2 = self.position(v2);
                (p1.y == p2.y && (p2.x == p1.x + UNIT || p1.x == p2.x + UNIT)) || (p1.x == p2.x && (
                p2.y == p1.y + UNIT || p1.y == p2.y + UNIT))
            }),
    {
        if v2 == v1 + 1 && self.has_right(v1) {
            self.lemma_neighbours(v1);
        } else if v1 == v2 + 1 && self.has_right(v2) {
            self.lemma_neighbours(v2);
        } else if v2 == v1 + self.spec_width() && self.has_below(v1) {
            self.lemma_neighbours(v1);
        } else {
            self.lemma_neighbours(v2);
        }
        self.lemma_position_bounds(v1);
        self.lemma_position_bounds(v2);
    }

    /// The crossing between neighbouring lattice points `v1` and `v2`, by
    /// bisection along the edge.
    ///
    /// An endpoint where the field is exactly zero is returned as it is.
    /// Otherwise, where the two endpoints differ in occupancy, the result is
    /// an end of a bracket across which occupancy changes: five halvings of
    /// the edge leave it [`CROSSING_GRAIN`] wide, the first width no larger
    /// than [`BISECTION_TOLERANCE`].
    pub fn find_edge_intersection<S: IsoLine>(&self, v1: &Index, v2: &Index, iso: &S) -> (r: Point)
        requires
            self.wf(),
            self.adjacent(*v1 as int, *v2 as int),
        ensures
            r == crossing(iso, self.position(*v1 as int), self.position(*v2 as int)),
            (r == self.position(*v1 as int)) <==> iso.field(self.position(*v1 as int)) == 0,
            in_grid_bounds(r),
            on_grain(r),
            ({
                let p1 = self.position(*v1 as int);
                let p2 = self.position(*v2 as int);
                iso.field(p1) != 0 && iso.field(p2) != 0 && inside(iso, p1) != inside(iso, p2)
                    ==> exists|a: int, b: int|
                    0 <= a < b <= UNIT && b - a == CROSSING_GRAIN && (r == along(p1, p2, a)
                        || r == along(p1, p2, b)) && inside(iso, #[trigger] along(p1, p2, a))
                        == inside(iso, p1) && inside(iso, #[trigger] along(p1, p2, b))
                        == inside(iso, p2)
            }),
    {
        proof {
            self.lemma_adjacent_positions(*v1 as int, *v2 as int);
        }
        let p1 = self.vertex_position(v1);
        let p2 = self.vertex_position(v2);
        let s1 = iso.sample(p1);
        if s1 == 0 {
            return p1;
        }
        if iso.sample(p2) == 0 {
            return p2;
        }
        let a_inside = s1 > 0;
        let ghost p2_other = inside(iso, p2) != a_inside;
        let mut a: i64 = 0;
        let mut b: i64 = UNIT;
        let mut mid: i64 = 0;
        assert(along(p1, p2, 0) == p1);
        assert(along(p1, p2, UNIT as int) == p2);
        while b - a > BISECTION_TOLERANCE
            invariant
                0 <= a < b <= UNIT,
                b - a < UNIT ==> (mid == a || mid == b) && 0 < mid,
                a % CROSSING_GRAIN == 0,
                mid % CROSSING_GRAIN == 0,
                b - a == 9600 || b - a == 4800 || b - a == 2400 || b - a == 1200 || b - a == 600 || b
                    - a == 300,
                on_grain(p1),
                bisect(iso, p1, p2, a_inside, 0, UNIT as int) == if b - a > BISECTION_TOLERANCE {
                    bisect(iso, p1, p2, a_inside, a as int, b as int)
                } else {
                    mid as int
                },
                inside(iso, along(p1, p2, a as int)) == a_inside,
                p2_other ==> inside(iso, along(p1, p2, b as int)) != a_inside,
                in_grid_bounds(p1),
                in_grid_bounds(p2),
                (p1.y == p2.y && (p2.x == p1.x + UNIT || p1.x == p2.x + UNIT)) || (p1.x == p2.x && (
                p2.y == p1.y + UNIT || p1.y == p2.y + UNIT)),
            decreases b - a,
        {
            mid = (a + b) / 2;
            let m = iso.sample(point_along(p1, p2, mid));
            if (m > 0) == a_inside {
                a = mid;
            } else {
                b = mid;
            }
        }
        let r = point_along(p1, p2, mid);
        proof {
            if p2_other {
                assert(r == along(p1, p2, a as int) || r == along(p1, p2, b as int));
                assert(inside(iso, along(p1, p2, a as int)) == inside(iso, p1));
                assert(inside(iso, along(p1, p2, b as int)) == inside(iso, p2));
            }
        }
        r
    }

    /// The edge from `v1` to `v2`, with its crossing and the normal there.
    fn make_edge<S: IsoLine>(&self, v1: Index, v2: Index, iso: &S) -> (r: Edge)
        requires
            self.wf(),
            self.adjacent(v1 as int, v2 as int),
        ensures
            self.made_edge(Some(r), iso, v1 as int, v2 as int),
            in_grid_bounds(r.position),
            on_grain(r.position),
    {
        let position = self.find_edge_intersection(&v1, &v2, iso);
        let normal = iso.normal(position);
        Edge { verts: [v1, v2], dual_verts: DualVerts::new(), position, normal }
    }

    /// Adds the contour of `iso` to the grid, as a union: a lattice point
    /// becomes occupied where the field is positive there, and stays occupied
    /// if it was. Every pair of neighbours whose occupancy then differs gets
    /// an edge made for `iso`, replacing any edge it had; other slots are
    /// left as they were.
    pub fn add_contour<S: IsoLine>(&mut self, iso: &S)
        requires
            old(self).wf(),
        ensures
            final(self).wf(),
            contour_added(*old(self), *final(self), iso),
    {
        let w = self.width;
        let h = self.height;
        if w == 0 || h == 0 {
            proof {
                assert(self.n() == 0) by (nonlinear_arith)
                    requires
                        w == 0 || h == 0,
                        self.n() == w * h,
                ;
            }
            return;
        }
        let total: usize = (w as usize) * (h as usize);
        let ghost g0 = *self;
        let mut index: usize = 0;
        let mut i: u32 = 0;
        let mut j: u32 = 0;
        while index < total
            invariant
                self.width == w,
                self.height == h,
                g0.width == w,
                g0.height == h,
                g0.wf(),
                w > 0,
                total == self.n(),
                total == g0.n(),
                self.n() <= MAX_VERTICES,
                index <= total,
                i < w,
                index == j * w + i,
                self.verts@.len() == total,
                self.h_edges@.len() == total,
                self.v_edges@.len() == total,
                forall|u: int|
                    0 <= u < total && (#[trigger] self.h_edges@[u]) is Some ==> self.has_right(u)
                        && self.edge_ok(self.h_edges@[u], u, u + 1),
                forall|u: int|
                    0 <= u < total && (#[trigger] self.v_edges@[u]) is Some ==> self.has_below(u)
                        && self.edge_ok(self.v_edges@[u], u, u + w),
                forall|v: int|
                    0 <= v < total ==> #[trigger] self.verts@[v] == if v < index {
                        g0.verts@[v] || inside(iso, g0.position(v))
                    } else {
                        g0.verts@[v]
                    },
                forall|u: int|
                    0 <= u < total ==> if u + 1 < index && g0.has_right(u) && self.verts@[u]
                        != self.verts@[u + 1] {
                        self.made_edge(#[trigger] self.h_edges@[u], iso, u, u + 1)
                    } else {
                        self.h_edges@[u] == g0.h_edges@[u]
                    },
                forall|u: int|
                    0 <= u < total ==> if u + w < index && g0.has_below(u) && self.verts@[u]
                        != self.verts@[u + w] {
                        self.made_edge(#[trigger] self.v_edges@[u], iso, u, u + w)
                    } else {
                        self.v_edges@[u] == g0.v_edges@[u]
                    },
            decreases total - index,
        {
            proof {
                lemma_fundamental_div_mod_converse(index as int, w as int, j as int, i as int);
                self.lemma_position_bounds(index as int);
            }
            let position = Point { x: (i as i64) * UNIT, y: (j as i64) * UNIT };
            assert(position == g0.position(index as int));
            let inside_now = iso.sample(position) > 0;
            let cur = self.verts[index] || inside_now;
            let ghost before = self.verts@;
            self.verts[index] = cur;
            assert forall|u: int|
                0 <= u < total && (#[trigger] self.h_edges@[u]) is Some implies self.has_right(u)
                    && self.edge_ok(self.h_edges@[u], u, u + 1) by {
                g0.lemma_neighbours(u);
                assert(before[u] ==> self.verts@[u]);
                assert(before[u + 1] ==> self.verts@[u + 1]);
            }
            assert forall|u: int|
                0 <= u < total && (#[trigger] self.v_edges@[u]) is Some implies self.has_below(u)
                    && self.edge_ok(self.v_edges@[u], u, u + w) by {
                assert(before[u] ==> self.verts@[u]);
                assert(before[u + w] ==> self.verts@[u + w]);
            }
            if i > 0 {
                let left = index - 1;
                proof {
                    lemma_fundamental_div_mod_converse(left as int, w as int, j as int, i - 1);
                }
                assert(g0.has_right(left as int));
                if self.verts[left] != cur {
                    let e = self.make_edge(left, index, iso);
                    self.h_edges[left] = Some(e);
                }
            } else if index > 0 {
                proof {
                    assert(index - 1 == (j - 1) * w + (w - 1)) by (nonlinear_arith)
                        requires
                            index == j * w + i,
                            i == 0,
                            index > 0,
                    ;
                    lemma_fundamental_div_mod_converse(index - 1, w as int, j - 1, w - 1);
                    assert(!g0.has_right(index - 1));
                }
            }
            if j > 0 {
                proof {
                    assert(index >= w) by (nonlinear_arith)
                        requires
                            index == j * w + i,
                            j > 0,
                            i >= 0,
                    ;
                }
                let up = index - w as usize;
                proof {
                    assert(up == (j - 1) * w + i) by (nonlinear_arith)
                        requires
                            index == j * w + i,
                            up == index - w,
                    ;
                }
                assert(g0.has_below(up as int));
                if self.verts[up] != cur {
                    let e = self.make_edge(up, index, iso);
                    self.v_edges[up] = Some(e);
                }
            }
            index = index + 1;
            i = i + 1;
            if i == w {
                i = 0;
                j = j + 1;
                proof {
                    assert(index == j * w + i) by (nonlinear_arith)
                        requires
                            index == (j - 1) * w + w,
                            i == 0,
                    ;
                }
            }
        }
        assert forall|u: int| 0 <= u < total implies (g0.has_right(u) ==> u + 1 < total) && (
        g0.has_below(u) ==> u + w < total) by {
            g0.lemma_neighbours(u);
        }
    }

    /// The edge between lattice points `a` and `b`, given in either order.
    pub fn edge(&self, a: Index, b: Index) -> (r: Option<&Edge>)
        requires
            self.wf(),
        ensures
            match r {
                Some(e) => self.edge_between(a as int, b as int) == Some(*e),
                None => self.edge_between(a as int, b as int) is None,
            },
    {
        let w = self.width as usize;
        let n = self.verts.len();
        let (lo, hi) = if a <= b {
            (a, b)
        } else {
            (b, a)
        };
        if hi >= n || w == 0 {
            proof {
                if w == 0 {
                    assert(self.n() == 0) by (nonlinear_arith)
                        requires
                            self.spec_width() == 0,
                            self.n() == self.spec_width() * self.spec_height(),
                    ;
                } else if 0 <= lo < self.n() {
                    self.lemma_neighbours(lo as int);
                }
            }
            return None;
        }
        if hi - lo == 1 && lo % w + 1 < w {
            match &self.h_edges[lo] {
                Some(e) => Some(e),
                None => None,
            }
        } else if hi - lo == w && lo < n {
            match &self.v_edges[lo] {
                Some(e) => Some(e),
                None => None,
            }
        } else {
            None
        }
    }

    /// Number of crossing edges in the grid.
    pub fn edge_count(&self) -> (r: u64)
        requires
            self.wf(),
        ensures
            r == count_edges(self.h_slots()) + count_edges(self.v_slots()),
    {
        let h = count_slots(&self.h_edges);
        let v = count_slots(&self.v_edges);
        proof {
            lemma_count_edges_bound(self.h_edges@);
            lemma_count_edges_bound(self.v_edges@);
        }
        h as u64 + v as u64
    }

    pub open spec fn geometry(&self) -> Geometry {
        Geometry {
            width: self.spec_width(),
            height: self.spec_height(),
            occupancy: self.occupancy(),
            h: self.h_slots().map_values(|e: Option<Edge>| hermite(e)),
            v: self.v_slots().map_values(|e: Option<Edge>| hermite(e)),
        }
    }

    /// Crossing of the edge to the right of `u`, if there is one.
    pub fn h_position(&self, u: Index) -> (r: Option<Point>)
        requires
            self.wf(),
            u < self.n(),
        ensures
            r == match self.h_slots()[u as int] {
                Some(e) => Some(e.position),
                None => None::<Point>,
            },
            r is Some ==> in_grid_bounds(r.unwrap()),
    {
        match &self.h_edges[u] {
            Some(e) => Some(e.position),
            None => None,
        }
    }

    /// Crossing of the edge below `u`, if there is one.
    pub fn v_position(&self, u: Index) -> (r: Option<Point>)
        requires
            self.wf(),
            u < self.n(),
        ensures
            r == match self.v_slots()[u as int] {
                Some(e) => Some(e.position),
                None => None::<Point>,
            },
            r is Some ==> in_grid_bounds(r.unwrap()),
    {
        match &self.v_edges[u] {
            Some(e) => Some(e.position),
            None => None,
        }
    }

    /// Adds dual vertex `d` to the edges right of `top` and `bottom` and below
    /// `left` and `right`, wherever those edges exist.
    pub fn add_face_dual(&mut self, top: Index, left: Index, right: Index, bottom: Index, d: Point)
        requires
            old(self).wf(),
            top < old(self).n(),
            left < old(self).n(),
            right < old(self).n(),
            bottom < old(self).n(),
            top != bottom,
            left != right,
            forall|k: int|
                0 <= k < old(self).n() && (k == top || k == bottom) ==> duals_of(
                    #[trigger] old(self).h_slots()[k],
                ).len() < 2,
            forall|k: int|
                0 <= k < old(self).n() && (k == left || k == right) ==> duals_of(
                    #[trigger] old(self).v_slots()[k],
                ).len() < 2,
        ensures
            final(self).wf(),
            final(self).geometry() == old(self).geometry(),
            forall|k: int|
                0 <= k < old(self).n() ==> duals_of(#[trigger] final(self).h_slots()[k]) == if old(
                    self,
                ).h_slots()[k] is Some && (k == top || k == bottom) {
                    duals_of(old(self).h_slots()[k]).push(d)
                } else {
                    duals_of(old(self).h_slots()[k])
                },
            forall|k: int|
                0 <= k < old(self).n() ==> duals_of(#[trigger] final(self).v_slots()[k]) == if old(
                    self,
                ).v_slots()[k] is Some && (k == left || k == right) {
                    duals_of(old(self).v_slots()[k]).push(d)
                } else {
                    duals_of(old(self).v_slots()[k])
                },
    {
        let ghost g0 = *self;
        push_if_some(&mut self.h_edges, top, d);
        push_if_some(&mut self.h_edges, bottom, d);
        push_if_some(&mut self.v_edges, left, d);
        push_if_some(&mut self.v_edges, right, d);
        assert(self.geometry().h =~= g0.geometry().h);
        assert(self.geometry().v =~= g0.geometry().v);
    }

    /// Removes every dual vertex from every edge.
    pub fn clear_duals(&mut self)
        requires
            old(self).wf(),
        ensures
            final(self).wf(),
            final(self).geometry() == old(self).geometry(),
            forall|u: int| 0 <= u < old(self).n() ==> duals_of(#[trigger] final(self).h_slots()[u]) == Seq::<Point>::empty(),
            forall|u: int| 0 <= u < old(self).n() ==> duals_of(#[trigger] final(self).v_slots()[u]) == Seq::<Point>::empty(),
    {
        let ghost g0 = *self;
        let n = self.h_edges.len();
        let mut k: usize = 0;
        while k < n
            invariant
                n == g0.n(),
                k <= n,
                self.width == g0.width,
                self.height == g0.height,
                self.verts == g0.verts,
                self.v_edges == g0.v_edges,
                self.h_edges@.len() == n,
                forall|u: int| 0 <= u < n ==> hermite(#[trigger] self.h_edges@[u]) == hermite(g0.h_edges@[u]),
                forall|u: int| 0 <= u < k ==> duals_of(#[trigger] self.h_edges@[u]) == Seq::<Point>::empty(),
            decreases n - k,
        {
            match &mut self.h_edges[k] {
                Some(e) => {
                    e.dual_verts.clear();
                },
                None => {},
            }
            k = k + 1;
        }
        k = 0;
        while k < n
            invariant
                n == g0.n(),
                k <= n,
                self.width == g0.width,
                self.height == g0.height,
                self.verts == g0.verts,
                self.h_edges@.len() == n,
                self.v_edges@.len() == n,
                forall|u: int| 0 <= u < n ==> hermite(#[trigger] self.h_edges@[u]) == hermite(g0.h_edges@[u]),
                forall|u: int| 0 <= u < n ==> duals_of(#[trigger] self.h_edges@[u]) == Seq::<Point>::empty(),
                forall|u: int| 0 <= u < n ==> hermite(#[trigger] self.v_edges@[u]) == hermite(g0.v_edges@[u]),
                forall|u: int| 0 <= u < k ==> duals_of(#[trigger] self.v_edges@[u]) == Seq::<Point>::empty(),
            decreases n - k,
        {
            match &mut self.v_edges[k] {
                Some(e) => {
                    e.dual_verts.clear();
                },
                None => {},
            }
            k = k + 1;
        }
        assert(self.geometry().h =~= g0.geometry().h);
        assert(self.geometry().v =~= g0.geometry().v);
        assert(self.wf());
    }

    /// The segments of every edge that has exactly two dual vertices: first
    /// those of the edges to the right of each lattice point, then those of
    /// the edges below, each in order of lattice point.
    pub fn segments(&self) -> (r: Vec<(Point, Point)>)
        requires
            self.wf(),
        ensures
            r@ == segments(self.h_slots()) + segments(self.v_slots()),
    {
        let mut r: Vec<(Point, Point)> = Vec::new();
        append_segments(&self.h_edges, &mut r);
        append_segments(&self.v_edges, &mut r);
        r
    }

    /// Index of the lattice point in column `x`, row `y`.
    pub fn vertex_index(&self, x: u32, y: u32) -> (r: usize)
        requires
            x + y * self.spec_width() <= u32::MAX,
        ensures
            r == x + y * self.spec_width(),
    {
        (x + y * self.width) as usize
    }

    /// Column and row of lattice point `v`.
    pub fn vertex_index_to_xy(&self, v: &Index) -> (r: (u32, u32))
        requires
            self.spec_width() > 0,
            *v <= u32::MAX,
        ensures
            r.0 == self.col(*v as int),
            r.1 == self.row(*v as int),
            r.0 < self.spec_width(),
            r.0 + r.1 * self.spec_width() == *v,
    {
        let w = self.width as usize;
        let x = *v % w;
        let y = *v / w;
        proof {
            let vv = *v as int;
            let ww = w as int;
            assert(vv == (vv / ww) * ww + vv % ww) by (nonlinear_arith)
                requires
                    ww > 0,
            ;
            assert(vv / ww <= vv) by (nonlinear_arith)
                requires
                    ww > 0,
                    vv >= 0,
            ;
        }
        (x as u32, y as u32)
    }

    /// Occupancy of lattice point `v`.
    pub fn vertex_value(&self, v: Index) -> (r: bool)
        requires
            self.wf(),
            v < self.n(),
        ensures
            r == self.occupancy()[v as int],
    {
        self.verts[v]
    }
}

} // verus!
