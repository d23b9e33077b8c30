use vstd::prelude::*;

use crate::geom::Point;
use crate::grid::{
    contour_added, count_full, duals_of, in_grid_bounds, lemma_full_edge_segment,
    lemma_outside_contour, lemma_segments_count, lemma_segments_same_duals, on_grain, segments,
    Geometry, COORD_LIMIT,
    HermiteGrid, Index, MAX_VERTICES,
};
use crate::isoline::IsoLine;

use vstd::arithmetic::div_mod::{lemma_fundamental_div_mod, lemma_fundamental_div_mod_converse};

verus! {

/// Largest side, in faces, of a tree: its grid of `(side + 1)²` lattice
/// points must fit `MAX_VERTICES`.
pub const MAX_SIZE: u32 = 32768;

/// `n` is a power of two.
pub open spec fn is_pow2(n: int) -> bool
    decreases n,
{
    if n <= 0 {
        false
    } else if n == 1 {
        true
    } else {
        n % 2 == 0 && is_pow2(n / 2)
    }
}

/// Index of lattice point `(x, y)`.
pub open spec fn idx(geo: Geometry, x: int, y: int) -> int {
    x + y * geo.width
}

/// Occupancy of lattice point `(x, y)`.
pub open spec fn occ(geo: Geometry, x: int, y: int) -> bool {
    geo.occupancy[idx(geo, x, y)]
}

/// The four corners of the square with top-left corner `(x, y)` and side
/// `s` share one occupancy.
pub open spec fn corners_agree(geo: Geometry, x: int, y: int, s: int) -> bool {
    &&& occ(geo, x, y) == occ(geo, x + s, y)
    &&& occ(geo, x, y) == occ(geo, x, y + s)
    &&& occ(geo, x, y) == occ(geo, x + s, y + s)
}

/// Left edge of quadrant `i` (in Z order) of a square at `x` with half side `h`.
pub open spec fn qx(x: int, i: int, h: int) -> int {
    if i == 1 || i == 3 {
        x + h
    } else {
        x
    }
}

/// Top edge of quadrant `i` (in Z order) of a square at `y` with half side `h`.
pub open spec fn qy(y: int, i: int, h: int) -> int {
    if i >= 2 {
        y + h
    } else {
        y
    }
}

/// Building the square at `(x, y)` of side `s` gives a homogeneous face: its
/// corners agree and, above unit size, every quadrant is pruned too.
pub open spec fn pruned(geo: Geometry, x: int, y: int, s: int) -> bool
    decreases s,
{
    corners_agree(geo, x, y, s) && (s <= 1 || (pruned(geo, x, y, s / 2) && pruned(
        geo,
        x + s / 2,
        y,
        s / 2,
    ) && pruned(geo, x, y + s / 2, s / 2) && pruned(geo, x + s / 2, y + s / 2, s / 2)))
}

/// The crossing of an edge slot, if it holds an edge.
pub open spec fn crossing_at(e: Option<(Index, Index, Point, crate::geom::Normal)>) -> Option<
    Point,
> {
    match e {
        Some(t) => Some(t.2),
        None => None,
    }
}

pub open spec fn sum_x(p: Option<Point>) -> int {
    match p {
        Some(p) => p.x as int,
        None => 0,
    }
}

pub open spec fn sum_y(p: Option<Point>) -> int {
    match p {
        Some(p) => p.y as int,
        None => 0,
    }
}

pub open spec fn count_of(p: Option<Point>) -> int {
    if p is Some {
        1
    } else {
        0
    }
}

/// The mean of the points that are present, if any is.
pub open spec fn mean_of(a: Option<Point>, b: Option<Point>, c: Option<Point>, d: Option<Point>) -> Option<
    Point,
> {
    let n = count_of(a) + count_of(b) + count_of(c) + count_of(d);
    if n == 0 {
        None
    } else {
        Some(
            Point {
                x: ((sum_x(a) + sum_x(b) + sum_x(c) + sum_x(d)) / n) as i64,
                y: ((sum_y(a) + sum_y(b) + sum_y(c) + sum_y(d)) / n) as i64,
            },
        )
    }
}

/// The dual vertex of the unit face at `(x, y)`: the mean of the crossings
/// on its top, left, right and bottom edges, where there are any.
pub open spec fn leaf_dual(geo: Geometry, x: int, y: int) -> Option<Point> {
    mean_of(
        crossing_at(geo.h[idx(geo, x, y)]),
        crossing_at(geo.v[idx(geo, x, y)]),
        crossing_at(geo.v[idx(geo, x + 1, y)]),
        crossing_at(geo.h[idx(geo, x, y + 1)]),
    )
}

/// The unit face at `(fx, fy)` lies in the square at `(x, y)` of side `s`.
pub open spec fn in_square(fx: int, fy: int, x: int, y: int, s: int) -> bool {
    x <= fx < x + s && y <= fy < y + s
}

/// The dual vertex that the unit face at `(fx, fy)` adds while the square at
/// `(x, y)` of side `s` is built.
pub open spec fn face_part(geo: Geometry, fx: int, fy: int, x: int, y: int, s: int) -> Seq<Point> {
    if in_square(fx, fy, x, y, s) {
        seq![leaf_dual(geo, fx, fy).unwrap()]
    } else {
        Seq::empty()
    }
}

/// The dual vertices that building the square at `(x, y)` of side `s` adds to
/// the edge right of lattice point `u`: that of the face above it, then that
/// of the face below.
pub open spec fn contrib_h(geo: Geometry, u: int, x: int, y: int, s: int) -> Seq<Point> {
    if geo.h[u] is None {
        Seq::empty()
    } else {
        let ex = u % (geo.width as int);
        let ey = u / (geo.width as int);
        face_part(geo, ex, ey - 1, x, y, s) + face_part(geo, ex, ey, x, y, s)
    }
}

/// The dual vertices that building the square at `(x, y)` of side `s` adds to
/// the edge below lattice point `u`: that of the face to its left, then that
/// of the face to its right.
pub open spec fn contrib_v(geo: Geometry, u: int, x: int, y: int, s: int) -> Seq<Point> {
    if geo.v[u] is None {
        Seq::empty()
    } else {
        let ex = u % (geo.width as int);
        let ey = u / (geo.width as int);
        face_part(geo, ex - 1, ey, x, y, s) + face_part(geo, ex, ey, x, y, s)
    }
}

/// A node of the tree: a square of faces, given by its corner lattice points
/// in Z order (top left, top right, bottom left, bottom right).
///
/// Above unit size a face is expanded: it holds its four quadrants, in Z
/// order, each absent where that quadrant is homogeneous, and no dual vertex.
/// A unit face holds no children and the dual vertex of the contour through
/// it, if the contour crosses one of its edges.
pub struct Face {
    verts: [Index; 4],
    dual_vertex: Option<Point>,
    children: Box<[Option<Face>; 4]>,
}

impl Face {
    pub closed spec fn spec_verts(&self) -> Seq<Index> {
        self.verts@
    }

    pub closed spec fn spec_dual_vertex(&self) -> Option<Point> {
        self.dual_vertex
    }

    pub closed spec fn spec_children(&self) -> Seq<Option<Face>> {
        self.children@
    }

    /// Corner lattice points, in Z order.
    pub fn verts(&self) -> (r: [Index; 4])
        ensures
            r@ == self.spec_verts(),
    {
        self.verts
    }

    pub fn dual_vertex(&self) -> (r: Option<Point>)
        ensures
            r == self.spec_dual_vertex(),
    {
        self.dual_vertex
    }

    /// The four children, in Z order.
    pub fn children(&self) -> (r: &[Option<Face>; 4])
        ensures
            r@ == self.spec_children(),
    {
        &self.children
    }

    /// Child `i`, in Z order.
    pub fn child(&self, i: usize) -> (r: Option<&Face>)
        requires
            i < 4,
        ensures
            match r {
                Some(c) => self.spec_children()[i as int] == Some(*c),
                None => self.spec_children()[i as int] is None,
            },
    {
        match &self.children[i] {
            Some(c) => Some(c),
            None => None,
        }
    }
}

/// `f` has no children.
pub open spec fn childless(f: Face) -> bool {
    &&& f.spec_children()[0] is None
    &&& f.spec_children()[1] is None
    &&& f.spec_children()[2] is None
    &&& f.spec_children()[3] is None
}

/// The occupancy that every corner of a childless face shares, if they share one.
pub open spec fn homogeneous(geo: Geometry, f: Face) -> Option<bool> {
    let o = geo.occupancy;
    let v = f.spec_verts();
    if childless(f) && o[v[0] as int] == o[v[1] as int] && o[v[0] as int] == o[v[2] as int]
        && o[v[0] as int] == o[v[3] as int] {
        Some(o[v[0] as int])
    } else {
        None
    }
}

/// Some face of `fs` is present, and every present face is homogeneous with
/// occupancy `v`.
pub open spec fn all_share(geo: Geometry, fs: Seq<Option<Face>>, v: bool) -> bool {
    &&& exists|i: int| 0 <= i < fs.len() && (#[trigger] fs[i]) is Some
    &&& forall|i: int|
        0 <= i < fs.len() && (#[trigger] fs[i]) is Some ==> homogeneous(geo, fs[i].unwrap())
            == Some(v)
}

/// The occupancy that all present faces of `fs` share, if at least one is
/// present and all are homogeneous with one value.
pub open spec fn faces_value(geo: Geometry, fs: Seq<Option<Face>>) -> Option<bool> {
    if all_share(geo, fs, true) {
        Some(true)
    } else if all_share(geo, fs, false) {
        Some(false)
    } else {
        None
    }
}

/// `f` is the face that building the square at `(x, y)` of side `s` gives.
pub open spec fn built(geo: Geometry, f: Face, x: int, y: int, s: int) -> bool
    decreases s,
{
    &&& f.spec_children().len() == 4
    &&& f.spec_verts() == seq![
        idx(geo, x, y) as Index,
        idx(geo, x + s, y) as Index,
        idx(geo, x, y + s) as Index,
        idx(geo, x + s, y + s) as Index,
    ]
    &&& if s <= 1 {
        childless(f) && f.spec_dual_vertex() == leaf_dual(geo, x, y)
    } else {
        &&& f.spec_dual_vertex() is None
        &&& forall|i: int|
            0 <= i < 4 ==> if pruned(geo, qx(x, i, s / 2), qy(y, i, s / 2), s / 2) {
                (#[trigger] f.spec_children()[i]) is None
            } else {
                f.spec_children()[i] is Some && built(
                    geo,
                    f.spec_children()[i].unwrap(),
                    qx(x, i, s / 2),
                    qy(y, i, s / 2),
                    s / 2,
                )
            }
    }
}

/// Every edge of `g` has room for what building the square at `(x, y)` of
/// side `s` adds to it.
pub open spec fn room_for(g: HermiteGrid, x: int, y: int, s: int) -> bool {
    &&& forall|u: int|
        0 <= u < g.n() ==> duals_of(#[trigger] g.h_slots()[u]).len() + contrib_h(
            g.geometry(),
            u,
            x,
            y,
            s,
        ).len() <= 2
    &&& forall|u: int|
        0 <= u < g.n() ==> duals_of(#[trigger] g.v_slots()[u]).len() + contrib_v(
            g.geometry(),
            u,
            x,
            y,
            s,
        ).len() <= 2
}

/// `g2` is `g1` with what building the square at `(x, y)` of side `s` adds:
/// the same geometry, and on every edge the dual vertices of the adjacent
/// unit faces in the square, appended in Z order.
pub open spec fn added(g1: HermiteGrid, g2: HermiteGrid, x: int, y: int, s: int) -> bool {
    &&& g2.geometry() == g1.geometry()
    &&& forall|u: int|
        0 <= u < g1.n() ==> duals_of(#[trigger] g2.h_slots()[u]) == duals_of(g1.h_slots()[u])
            + contrib_h(g1.geometry(), u, x, y, s)
    &&& forall|u: int|
        0 <= u < g1.n() ==> duals_of(#[trigger] g2.v_slots()[u]) == duals_of(g1.v_slots()[u])
            + contrib_v(g1.geometry(), u, x, y, s)
}

/// `c` lists, in Z order, the corners of a square whose side is a power of
/// two and which lies within a tree of side `size`.
pub open spec fn square(c: [(u32, u32); 4], size: int) -> bool {
    let x = c[0].0 as int;
    let y = c[0].1 as int;
    let s = c[1].0 - c[0].0;
    &&& s >= 1
    &&& is_pow2(s)
    &&& c[1].1 == y
    &&& c[2].0 == x
    &&& c[2].1 == y + s
    &&& c[3].0 == x + s
    &&& c[3].1 == y + s
    &&& x + s <= size
    &&& y + s <= size
}

/// The dual vertex of the unit face whose top-left, top-right and
/// bottom-left corners are `v0`, `v1` and `v2`.
fn face_dual(grid: &HermiteGrid, v0: Index, v1: Index, v2: Index) -> (r: Option<Point>)
    requires
        grid.wf(),
        v0 < grid.n(),
        v1 < grid.n(),
        v2 < grid.n(),
    ensures
        r == mean_of(
            crossing_at(grid.geometry().h[v0 as int]),
            crossing_at(grid.geometry().v[v0 as int]),
            crossing_at(grid.geometry().v[v1 as int]),
            crossing_at(grid.geometry().h[v2 as int]),
        ),
{
    proof {
        grid.lemma_wf();
    }
    let top = grid.h_position(v0);
    let left = grid.v_position(v0);
    let right = grid.v_position(v1);
    let bottom = grid.h_position(v2);
    mean(top, left, right, bottom)
}

/// The mean of the points that are present, computed.
fn mean(a: Option<Point>, b: Option<Point>, c: Option<Point>, d: Option<Point>) -> (r: Option<Point>)
    requires
        a is Some ==> in_grid_bounds(a.unwrap()),
        b is Some ==> in_grid_bounds(b.unwrap()),
        c is Some ==> in_grid_bounds(c.unwrap()),
        d is Some ==> in_grid_bounds(d.unwrap()),
    ensures
        r == mean_of(a, b, c, d),
{
    let mut sx: u64 = 0;
    let mut sy: u64 = 0;
    let mut n: u64 = 0;
    if let Some(p) = a {
        sx = sx + p.x as u64;
        sy = sy + p.y as u64;
        n = n + 1;
    }
    if let Some(p) = b {
        sx = sx + p.x as u64;
        sy = sy + p.y as u64;
        n = n + 1;
    }
    if let Some(p) = c {
        sx = sx + p.x as u64;
        sy = sy + p.y as u64;
        n = n + 1;
    }
    if let Some(p) = d {
        sx = sx + p.x as u64;
        sy = sy + p.y as u64;
        n = n + 1;
    }
    if n == 0 {
        None
    } else {
        proof {
            assert(sx / n <= sx) by (nonlinear_arith)
                requires
                    n >= 1,
            ;
            assert(sy / n <= sy) by (nonlinear_arith)
                requires
                    n >= 1,
            ;
        }
        Some(Point { x: (sx / n) as i64, y: (sy / n) as i64 })
    }
}

/// An adaptive quadtree over the faces of a square grid.
pub struct QuadTree {
    root: Face,
    grid: HermiteGrid,
    size: u32,
}

impl QuadTree {
    pub closed spec fn spec_size(&self) -> nat {
        self.size as nat
    }

    pub closed spec fn spec_grid(&self) -> HermiteGrid {
        self.grid
    }

    pub closed spec fn spec_root(&self) -> Face {
        self.root
    }

    pub open spec fn geometry(&self) -> Geometry {
        self.spec_grid().geometry()
    }

    pub closed spec fn wf(&self) -> bool {
        &&& self.grid.wf()
        &&& self.grid.spec_width() == self.size + 1
        &&& self.grid.spec_height() == self.size + 1
        &&& is_pow2(self.size as int)
        &&& self.size <= MAX_SIZE
        &&& self.root.verts@.len() == 4
        &&& forall|i: int| 0 <= i < 4 ==> #[trigger] self.root.verts@[i] < self.grid.n()
    }

    /// What a well-formed tree guarantees: its grid is well formed, one
    /// lattice point larger than the tree on each side, and the root's
    /// corners are lattice points of it.
    pub proof fn lemma_wf(&self)
        requires
            self.wf(),
        ensures
            self.spec_grid().wf(),
            self.spec_grid().spec_width() == self.spec_size() + 1,
            self.spec_grid().spec_height() == self.spec_size() + 1,
            Self::valid_size(self.spec_size() as int, self.spec_size() as int),
            self.spec_root().spec_verts().len() == 4,
            forall|i: int| 0 <= i < 4 ==> #[trigger] self.spec_root().spec_verts()[i] < self.spec_grid().n(),
    {
    }

    /// A side of `width` by `height` faces can hold a tree.
    pub open spec fn valid_size(width: int, height: int) -> bool {
        width == height && is_pow2(width) && width <= MAX_SIZE
    }

    /// Whether `QuadTree::new` accepts these sizes: a square whose side is a
    /// power of two, no longer than `MAX_SIZE`.
    pub fn is_valid_size(width: u32, height: u32) -> (r: bool)
        ensures
            r == Self::valid_size(width as int, height as int),
    {
        if width != height || width > MAX_SIZE {
            return false;
        }
        let mut n = width;
        while n > 1 && n % 2 == 0
            invariant
                is_pow2(width as int) == is_pow2(n as int),
            decreases n,
        {
            n = n / 2;
        }
        n == 1
    }

    /// A tree of `width × height` faces over an empty grid of
    /// `(width + 1) × (height + 1)` lattice points.
    pub fn new(width: u32, height: u32) -> (r: QuadTree)
        requires
            Self::valid_size(width as int, height as int),
        ensures
            r.wf(),
            r.spec_size() == width,
            r.spec_grid().spec_width() == width + 1,
            r.spec_grid().spec_height() == height + 1,
            r.spec_grid().occupancy() == Seq::new(r.spec_grid().n(), |v: int| false),
            forall|u: int| 0 <= u < r.spec_grid().n() ==> (#[trigger] r.spec_grid().h_slots()[u]) is None,
            forall|u: int| 0 <= u < r.spec_grid().n() ==> (#[trigger] r.spec_grid().v_slots()[u]) is None,
            childless(r.spec_root()),
            r.spec_root().spec_dual_vertex() is None,
            r.spec_root().spec_verts() == seq![
                0usize,
                width as usize,
                ((width + 1) * height) as usize,
                ((width + 1) * (height + 1) - 1) as usize,
            ],
    {
        proof {
            lemma_side_fits(width as int);
            assert(0 + height * (width + 1) == (width + 1) * height) by (nonlinear_arith);
            assert(width + height * (width + 1) == (width + 1) * (height + 1) - 1) by (nonlinear_arith);
        }
        let grid = HermiteGrid::new(width + 1, height + 1);
        let w = width + 1;
        let root = Face {
            verts: [0, grid.vertex_index(width, 0), grid.vertex_index(0, height), grid.vertex_index(width, height)],
            dual_vertex: None,
            children: Box::new([None, None, None, None]),
        };
        proof {
            lemma_corner_index(width as int, height as int, w as int);
            assert(root.verts@ =~= seq![
                0usize,
                width as usize,
                ((width + 1) * height) as usize,
                ((width + 1) * (height + 1) - 1) as usize,
            ]);
        }
        QuadTree { root, grid, size: width }
    }

    /// The unit face at `(x, y)`, with its dual vertex, which is added to
    /// each of its edges.
    fn build_leaf(&mut self, x: u32, y: u32) -> (r: Face)
        requires
            old(self).wf(),
            x < old(self).spec_size(),
            y < old(self).spec_size(),
            room_for(old(self).spec_grid(), x as int, y as int, 1),
        ensures
            final(self).wf(),
            final(self).spec_size() == old(self).spec_size(),
            final(self).spec_root() == old(self).spec_root(),
            added(old(self).spec_grid(), final(self).spec_grid(), x as int, y as int, 1),
            built(old(self).geometry(), r, x as int, y as int, 1),
    {
        let ghost g0 = self.grid;
        let ghost geo = g0.geometry();
        proof {
            lemma_leaf_indices(g0, x as int, y as int);
        }
        let v0 = self.grid.vertex_index(x, y);
        let v1 = self.grid.vertex_index(x + 1, y);
        let v2 = self.grid.vertex_index(x, y + 1);
        let v3 = self.grid.vertex_index(x + 1, y + 1);
        let dual_vertex = face_dual(&self.grid, v0, v1, v2);
        if let Some(d) = dual_vertex {
            proof {
                lemma_leaf_room(g0, x as int, y as int);
            }
            self.grid.add_face_dual(v0, v0, v1, v2, d);
        }
        proof {
            lemma_leaf_added(g0, self.grid, x as int, y as int);
        }
        let r = Face { verts: [v0, v1, v2, v3], dual_vertex, children: Box::new([None, None, None, None]) };
        assert(r.spec_verts() == seq![v0, v1, v2, v3]);
        r
    }

    /// The face over the square with corners `corners`, in Z order, built
    /// down to unit faces: homogeneous quadrants are pruned, and each unit
    /// face crossed by the contour adds its dual vertex to its edges.
    fn build_face(&mut self, corners: [(u32, u32); 4]) -> (r: Face)
        requires
            old(self).wf(),
            square(corners, old(self).spec_size() as int),
            room_for(old(self).spec_grid(), corners[0].0 as int, corners[0].1 as int, corners[1].0 - corners[0].0),
        ensures
            final(self).wf(),
            final(self).spec_size() == old(self).spec_size(),
            final(self).spec_root() == old(self).spec_root(),
            added(old(self).spec_grid(), final(self).spec_grid(), corners[0].0 as int, corners[0].1 as int, corners[1].0 - corners[0].0),
            built(old(self).geometry(), r, corners[0].0 as int, corners[0].1 as int, corners[1].0 - corners[0].0),
        decreases corners[1].0 - corners[0].0, 1int,
    {
        let x = corners[0].0;
        let y = corners[0].1;
        let s = corners[1].0 - corners[0].0;
        if s == 1 {
            return self.build_leaf(x, y);
        }
        let ghost g0 = self.grid;
        let ghost geo = g0.geometry();
        let h = s / 2;
        let ghost xi = x as int;
        let ghost yi = y as int;
        let ghost hi = h as int;
        proof {
            assert(is_pow2(hi));
            assert(s == 2 * hi);
            assert forall|u: int| 0 <= u < g0.n() implies contrib_h(geo, u, xi, yi, 2 * hi) == #[trigger] prefix_h(geo, u, xi, yi, hi, 4) by {
                lemma_contrib_split(geo, u, xi, yi, s as int);
            }
            assert forall|u: int| 0 <= u < g0.n() implies contrib_v(geo, u, xi, yi, 2 * hi) == #[trigger] prefix_v(geo, u, xi, yi, hi, 4) by {
                lemma_contrib_split(geo, u, xi, yi, s as int);
            }
            let e = Seq::<Point>::empty();
            assert forall|u: int| 0 <= u < g0.n() implies duals_of(#[trigger] g0.h_slots()[u]) == duals_of(g0.h_slots()[u])
                + prefix_h(geo, u, xi, yi, hi, 0) by {
                assert(duals_of(g0.h_slots()[u]) + e == duals_of(g0.h_slots()[u]));
            }
            assert forall|u: int| 0 <= u < g0.n() implies duals_of(#[trigger] g0.v_slots()[u]) == duals_of(g0.v_slots()[u])
                + prefix_v(geo, u, xi, yi, hi, 0) by {
                assert(duals_of(g0.v_slots()[u]) + e == duals_of(g0.v_slots()[u]));
            }
            lemma_room_next(g0, g0, xi, yi, hi, 0);
        }
        let min = (x, y);
        let top = (x + h, y);
        let top_right = (x + s, y);
        let left = (x, y + h);
        let mid = (x + h, y + h);
        let right = (x + s, y + h);
        let bottom_left = (x, y + s);
        let bottom = (x + h, y + s);
        let max = (x + s, y + s);
        let c0 = self.build_child([min, top, left, mid]);
        let ghost g1 = self.grid;
        proof {
            lemma_advance(g0, g0, g1, xi, yi, hi, 0);
            lemma_room_next(g0, g1, xi, yi, hi, 1);
        }
        let c1 = self.build_child([top, top_right, mid, right]);
        let ghost g2 = self.grid;
        proof {
            lemma_advance(g0, g1, g2, xi, yi, hi, 1);
            lemma_room_next(g0, g2, xi, yi, hi, 2);
        }
        let c2 = self.build_child([left, mid, bottom_left, bottom]);
        let ghost g3 = self.grid;
        proof {
            lemma_advance(g0, g2, g3, xi, yi, hi, 2);
            lemma_room_next(g0, g3, xi, yi, hi, 3);
        }
        let c3 = self.build_child([mid, right, bottom, max]);
        proof {
            lemma_advance(g0, g3, self.grid, xi, yi, hi, 3);
        }
        proof {
            lemma_side_fits(self.size as int);
            lemma_corner_index(xi, yi, self.size + 1);
            lemma_corner_index(xi + s, yi, self.size + 1);
            lemma_corner_index(xi, yi + s, self.size + 1);
            lemma_corner_index(xi + s, yi + s, self.size + 1);
        }
        let verts = [
            self.grid.vertex_index(x, y),
            self.grid.vertex_index(x + s, y),
            self.grid.vertex_index(x, y + s),
            self.grid.vertex_index(x + s, y + s),
        ];
        let r = Face { verts, dual_vertex: None, children: Box::new([c0, c1, c2, c3]) };
        assert(r.spec_children() == seq![c0, c1, c2, c3]);
        r
    }

    /// The face over the square with corners `corners`, or `None` where it
    /// is homogeneous.
    fn build_child(&mut self, corners: [(u32, u32); 4]) -> (r: Option<Face>)
        requires
            old(self).wf(),
            square(corners, old(self).spec_size() as int),
            room_for(old(self).spec_grid(), corners[0].0 as int, corners[0].1 as int, corners[1].0 - corners[0].0),
        ensures
            final(self).wf(),
            final(self).spec_size() == old(self).spec_size(),
            final(self).spec_root() == old(self).spec_root(),
            added(old(self).spec_grid(), final(self).spec_grid(), corners[0].0 as int, corners[0].1 as int, corners[1].0 - corners[0].0),
            if pruned(old(self).geometry(), corners[0].0 as int, corners[0].1 as int, corners[1].0 - corners[0].0) {
                r is None
            } else {
                r is Some && built(old(self).geometry(), r.unwrap(), corners[0].0 as int, corners[0].1 as int, corners[1].0 - corners[0].0)
            },
        decreases corners[1].0 - corners[0].0, 2int,
    {
        let child = self.build_face(corners);
        proof {
            let x = corners[0].0 as int;
            let y = corners[0].1 as int;
            let s = corners[1].0 - corners[0].0;
            lemma_homogeneous_iff_pruned(self.geometry(), child, x, y, s);
            lemma_side_fits(self.size as int);
            lemma_corner_index(x, y, self.size + 1);
            lemma_corner_index(x + s, y, self.size + 1);
            lemma_corner_index(x, y + s, self.size + 1);
            lemma_corner_index(x + s, y + s, self.size + 1);
        }
        if self.face_homogeneous_value(&child).is_none() {
            Some(child)
        } else {
            None
        }
    }

    /// The segments that `get_contour` returns.
    pub open spec fn contour(&self) -> Seq<(Point, Point)> {
        segments(self.spec_grid().h_slots()) + segments(self.spec_grid().v_slots())
    }

    /// The tree has been built over the grid as it stands: the root is the
    /// face built over the whole square, and every edge holds exactly the
    /// dual vertices of its adjacent unit faces, in Z order.
    pub open spec fn is_built(&self) -> bool {
        let geo = self.geometry();
        let n = self.spec_size() as int;
        &&& built(geo, self.spec_root(), 0, 0, n)
        &&& forall|u: int|
            0 <= u < self.spec_grid().n() ==> duals_of(#[trigger] self.spec_grid().h_slots()[u])
                == contrib_h(geo, u, 0, 0, n)
        &&& forall|u: int|
            0 <= u < self.spec_grid().n() ==> duals_of(#[trigger] self.spec_grid().v_slots()[u])
                == contrib_v(geo, u, 0, 0, n)
    }

    pub fn grid(&self) -> (r: &HermiteGrid)
        ensures
            *r == self.spec_grid(),
    {
        &self.grid
    }

    pub fn root(&self) -> (r: &Face)
        ensures
            *r == self.spec_root(),
    {
        &self.root
    }

    pub fn size(&self) -> (r: u32)
        ensures
            r == self.spec_size(),
    {
        self.size
    }

    /// Adds the contour of `iso` to the tree's grid; see
    /// `HermiteGrid::add_contour`. The tree itself is not rebuilt.
    pub fn add_contour<S: IsoLine>(&mut self, iso: &S)
        requires
            old(self).wf(),
        ensures
            final(self).wf(),
            final(self).spec_size() == old(self).spec_size(),
            final(self).spec_root() == old(self).spec_root(),
            contour_added(old(self).spec_grid(), final(self).spec_grid(), iso),
    {
        self.grid.add_contour(iso);
    }

    /// Rebuilds the tree over the whole grid, replacing the previous one:
    /// the dual vertices of every edge are first cleared, then the root is
    /// built over the full square.
    pub fn build(&mut self)
        requires
            old(self).wf(),
        ensures
            final(self).wf(),
            final(self).spec_size() == old(self).spec_size(),
            final(self).geometry() == old(self).geometry(),
            final(self).is_built(),
    {
        let ghost g_old = self.grid;
        self.grid.clear_duals();
        let ghost g0 = self.grid;
        let s = self.size;
        proof {
            g0.lemma_wf();
            assert forall|u: int| 0 <= u < g0.n() implies duals_of(#[trigger] g0.h_slots()[u]).len() + contrib_h(
                g0.geometry(),
                u,
                0,
                0,
                s as int,
            ).len() <= 2 by {}
            assert forall|u: int| 0 <= u < g0.n() implies duals_of(#[trigger] g0.v_slots()[u]).len() + contrib_v(
                g0.geometry(),
                u,
                0,
                0,
                s as int,
            ).len() <= 2 by {}
        }
        let root = self.build_face([(0, 0), (s, 0), (0, s), (s, s)]);
        self.root = root;
        proof {
            let geo = g0.geometry();
            assert forall|u: int| 0 <= u < g0.n() implies duals_of(#[trigger] self.grid.h_slots()[u]) == contrib_h(geo, u, 0, 0, s as int) by {
                assert(Seq::<Point>::empty() + contrib_h(geo, u, 0, 0, s as int) == contrib_h(geo, u, 0, 0, s as int));
            }
            assert forall|u: int| 0 <= u < g0.n() implies duals_of(#[trigger] self.grid.v_slots()[u]) == contrib_v(geo, u, 0, 0, s as int) by {
                assert(Seq::<Point>::empty() + contrib_v(geo, u, 0, 0, s as int) == contrib_v(geo, u, 0, 0, s as int));
            }
            lemma_side_fits(s as int);
            lemma_corner_index(s as int, s as int, s + 1);
            lemma_corner_index(0, s as int, s + 1);
            lemma_corner_index(s as int, 0, s + 1);
        }
    }

    /// One segment for each edge that has received exactly two dual
    /// vertices, joining them. Edges with fewer, at the border of the grid,
    /// give none.
    pub fn get_contour(&self) -> (r: Vec<(Point, Point)>)
        requires
            self.wf(),
        ensures
            r@ == self.contour(),
    {
        self.grid.segments()
    }

    /// The occupancy shared by a set of sibling faces: `Some(v)` where at
    /// least one face is present and every present face is homogeneous with
    /// value `v`, else `None`.
    pub fn faces_homogeneous_value(&self, f: &[Option<Face>; 4]) -> (r: Option<bool>)
        requires
            self.wf(),
            forall|i: int|
                0 <= i < 4 && (#[trigger] f@[i]) is Some ==> f@[i].unwrap().spec_verts().len() == 4
                    && forall|j: int|
                    0 <= j < 4 ==> #[trigger] f@[i].unwrap().spec_verts()[j] < self.spec_grid().n(),
        ensures
            r == faces_value(self.geometry(), f@),
    {
        let ghost geo = self.geometry();
        let mut value: Option<bool> = None;
        let mut i: usize = 0;
        while i < 4
            invariant
                self.wf(),
                geo == self.geometry(),
                i <= 4,
                f@.len() == 4,
                value is None <==> forall|k: int| 0 <= k < i ==> (#[trigger] f@[k]) is None,
                value is Some ==> forall|k: int|
                    0 <= k < i && (#[trigger] f@[k]) is Some ==> homogeneous(geo, f@[k].unwrap())
                        == value,
                forall|k: int|
                    0 <= k < 4 && (#[trigger] f@[k]) is Some ==> f@[k].unwrap().spec_verts().len() == 4
                        && forall|j: int|
                        0 <= j < 4 ==> #[trigger] f@[k].unwrap().spec_verts()[j] < self.spec_grid().n(),
            decreases 4 - i,
        {
            if let Some(face) = &f[i] {
                let v = self.face_homogeneous_value(face);
                if v.is_none() || (value.is_some() && value != v) {
                    proof {
                        assert(f@[i as int] is Some);
                        if v is Some {
                            let k = choose|k: int| 0 <= k < i && (#[trigger] f@[k]) is Some;
                            assert(homogeneous(geo, f@[k].unwrap()) == value);
                        }
                        assert(!all_share(geo, f@, true));
                        assert(!all_share(geo, f@, false));
                    }
                    return None;
                }
                value = v;
            }
            i = i + 1;
        }
        proof {
            if value is Some {
                let k = choose|k: int| 0 <= k < 4 && !((#[trigger] f@[k]) is None);
                assert(all_share(geo, f@, value.unwrap()));
            } else {
                assert(!all_share(geo, f@, true));
                assert(!all_share(geo, f@, false));
            }
        }
        value
    }

    /// The occupancy shared by the corners of a childless face, or `None`
    /// where the face has children or its corners differ.
    pub fn face_homogeneous_value(&self, f: &Face) -> (r: Option<bool>)
        requires
            self.wf(),
            f.spec_verts().len() == 4,
            forall|i: int| 0 <= i < 4 ==> #[trigger] f.spec_verts()[i] < self.spec_grid().n(),
        ensures
            r == homogeneous(self.geometry(), *f),
    {
        if f.children[0].is_some() || f.children[1].is_some() || f.children[2].is_some()
            || f.children[3].is_some() {
            return None;
        }
        let value = self.grid.vertex_value(f.verts[0]);
        if self.grid.vertex_value(f.verts[1]) != value || self.grid.vertex_value(f.verts[2]) != value
            || self.grid.vertex_value(f.verts[3]) != value {
            return None;
        }
        Some(value)
    }
}

/// Splitting a square into its four quadrants, in Z order, splits what it
/// adds to an edge between the faces `(f1x, f1y)` and `(f2x, f2y)`, the second
/// right of or below the first, in the same order.
proof fn lemma_parts_split(geo: Geometry, f1x: int, f1y: int, f2x: int, f2y: int, x: int, y: int, s: int)
    requires
        s >= 2,
        s % 2 == 0,
        (f2x == f1x + 1 && f2y == f1y) || (f2x == f1x && f2y == f1y + 1),
    ensures
        face_part(geo, f1x, f1y, x, y, s) + face_part(geo, f2x, f2y, x, y, s) == (((face_part(
            geo,
            f1x,
            f1y,
            x,
            y,
            s / 2,
        ) + face_part(geo, f2x, f2y, x, y, s / 2)) + (face_part(geo, f1x, f1y, x + s / 2, y, s / 2)
            + face_part(geo, f2x, f2y, x + s / 2, y, s / 2))) + (face_part(
            geo,
            f1x,
            f1y,
            x,
            y + s / 2,
            s / 2,
        ) + face_part(geo, f2x, f2y, x, y + s / 2, s / 2))) + (face_part(
            geo,
            f1x,
            f1y,
            x + s / 2,
            y + s / 2,
            s / 2,
        ) + face_part(geo, f2x, f2y, x + s / 2, y + s / 2, s / 2)),
{
    let h = s / 2;
    let e = Seq::<Point>::empty();
    let d1 = seq![leaf_dual(geo, f1x, f1y).unwrap()];
    let d2 = seq![leaf_dual(geo, f2x, f2y).unwrap()];
    let lhs = face_part(geo, f1x, f1y, x, y, s) + face_part(geo, f2x, f2y, x, y, s);
    let rhs = (((face_part(geo, f1x, f1y, x, y, h) + face_part(geo, f2x, f2y, x, y, h)) + (face_part(
        geo,
        f1x,
        f1y,
        x + h,
        y,
        h,
    ) + face_part(geo, f2x, f2y, x + h, y, h))) + (face_part(geo, f1x, f1y, x, y + h, h)
        + face_part(geo, f2x, f2y, x, y + h, h))) + (face_part(geo, f1x, f1y, x + h, y + h, h)
        + face_part(geo, f2x, f2y, x + h, y + h, h));
    assert(e + e == e);
    assert(d1 + e == d1);
    assert(e + d1 == d1);
    assert(d2 + e == d2);
    assert(e + d2 == d2);
    assert(lhs =~= rhs);
}

/// What building a unit face adds to edge slots: its dual vertex, to each of
/// its four edges that exists.
proof fn lemma_leaf_contrib(geo: Geometry, x: int, y: int, u: int)
    requires
        geo.width > 0,
        0 <= x,
        x + 1 < geo.width,
        0 <= y,
        0 <= u,
    ensures
        contrib_h(geo, u, x, y, 1) == if geo.h[u] is Some && (u == idx(geo, x, y) || u == idx(
            geo,
            x,
            y + 1,
        )) {
            seq![leaf_dual(geo, x, y).unwrap()]
        } else {
            Seq::empty()
        },
        contrib_v(geo, u, x, y, 1) == if geo.v[u] is Some && (u == idx(geo, x, y) || u == idx(
            geo,
            x + 1,
            y,
        )) {
            seq![leaf_dual(geo, x, y).unwrap()]
        } else {
            Seq::empty()
        },
{
    let w = geo.width as int;
    let ex = u % w;
    let ey = u / w;
    lemma_fundamental_div_mod(u, w);
    assert(u == ey * w + ex) by (nonlinear_arith)
        requires
            u == w * (u / w) + u % w,
            ex == u % w,
            ey == u / w,
    ;
    assert(0 <= ex < w);
    if u == idx(geo, x, y) {
        lemma_fundamental_div_mod_converse(u, w, y, x);
    }
    if u == idx(geo, x, y + 1) {
        assert(u == (y + 1) * w + x) by (nonlinear_arith)
            requires
                u == x + (y + 1) * w,
        ;
        lemma_fundamental_div_mod_converse(u, w, y + 1, x);
    }
    if u == idx(geo, x + 1, y) {
        lemma_fundamental_div_mod_converse(u, w, y, x + 1);
    }
    if ex == x && ey == y {
        assert(u == idx(geo, x, y));
    }
    if ex == x && ey == y + 1 {
        assert(u == x + (y + 1) * w) by (nonlinear_arith)
            requires
                u == ey * w + ex,
                ex == x,
                ey == y + 1,
        ;
    }
    if ex == x + 1 && ey == y {
        assert(u == idx(geo, x + 1, y));
    }
    let e = Seq::<Point>::empty();
    let d = seq![leaf_dual(geo, x, y).unwrap()];
    assert(e + e == e);
    assert(d + e == d);
    assert(e + d == d);
}

/// A built face is homogeneous exactly where its square is pruned.
proof fn lemma_homogeneous_iff_pruned(geo: Geometry, f: Face, x: int, y: int, s: int)
    requires
        built(geo, f, x, y, s),
        s >= 1,
        0 <= x,
        0 <= y,
        x + s < geo.width,
        y + s < geo.width,
        geo.width <= MAX_SIZE + 1,
    ensures
        (homogeneous(geo, f) is Some) == pruned(geo, x, y, s),
{
    let w = geo.width as int;
    lemma_corner_index(x, y, w);
    lemma_corner_index(x + s, y, w);
    lemma_corner_index(x, y + s, w);
    lemma_corner_index(x + s, y + s, w);
    assert(w * w <= 32769 * 32769) by (nonlinear_arith)
        requires
            0 < w <= 32769,
    ;
    assert(w * w <= u32::MAX);
    assert(f.spec_verts()[0] as int == idx(geo, x, y));
    assert(f.spec_verts()[1] as int == idx(geo, x + s, y));
    assert(f.spec_verts()[2] as int == idx(geo, x, y + s));
    assert(f.spec_verts()[3] as int == idx(geo, x + s, y + s));
    if s > 1 {
        let h = s / 2;
        assert(f.spec_children()[0] is None <==> pruned(geo, x, y, h));
        assert(f.spec_children()[1] is None <==> pruned(geo, x + h, y, h));
        assert(f.spec_children()[2] is None <==> pruned(geo, x, y + h, h));
        assert(f.spec_children()[3] is None <==> pruned(geo, x + h, y + h, h));
    }
}

/// What building the first `k` quadrants (in Z order) of the square at
/// `(x, y)` of side `2h` adds to the edge right of `u`.
pub open spec fn prefix_h(geo: Geometry, u: int, x: int, y: int, h: int, k: int) -> Seq<Point>
    decreases k,
{
    if k <= 0 {
        Seq::empty()
    } else {
        prefix_h(geo, u, x, y, h, k - 1) + contrib_h(geo, u, qx(x, k - 1, h), qy(y, k - 1, h), h)
    }
}

/// What building the first `k` quadrants (in Z order) of the square at
/// `(x, y)` of side `2h` adds to the edge below `u`.
pub open spec fn prefix_v(geo: Geometry, u: int, x: int, y: int, h: int, k: int) -> Seq<Point>
    decreases k,
{
    if k <= 0 {
        Seq::empty()
    } else {
        prefix_v(geo, u, x, y, h, k - 1) + contrib_v(geo, u, qx(x, k - 1, h), qy(y, k - 1, h), h)
    }
}

/// What a square adds to an edge is what its four quadrants add, in Z order.
proof fn lemma_contrib_split(geo: Geometry, u: int, x: int, y: int, s: int)
    requires
        geo.width > 0,
        s >= 2,
        s % 2 == 0,
    ensures
        contrib_h(geo, u, x, y, s) == prefix_h(geo, u, x, y, s / 2, 4),
        contrib_v(geo, u, x, y, s) == prefix_v(geo, u, x, y, s / 2, 4),
{
    reveal_with_fuel(prefix_h, 5);
    reveal_with_fuel(prefix_v, 5);
    let w = geo.width as int;
    let ex = u % w;
    let ey = u / w;
    let h = s / 2;
    lemma_parts_split(geo, ex, ey - 1, ex, ey, x, y, s);
    lemma_parts_split(geo, ex - 1, ey, ex, ey, x, y, s);
    let e = Seq::<Point>::empty();
    assert(e + e == e);
    assert(e + contrib_h(geo, u, x, y, h) == contrib_h(geo, u, x, y, h));
    assert(e + contrib_v(geo, u, x, y, h) == contrib_v(geo, u, x, y, h));
}

/// Before quadrant `k` is built, after the first `k`, every edge has room
/// for what it adds.
proof fn lemma_room_next(g0: HermiteGrid, gk: HermiteGrid, x: int, y: int, h: int, k: int)
    requires
        g0.wf(),
        0 <= k < 4,
        gk.geometry() == g0.geometry(),
        room_for(g0, x, y, 2 * h),
        forall|u: int|
            0 <= u < g0.n() ==> contrib_h(g0.geometry(), u, x, y, 2 * h) == #[trigger] prefix_h(
                g0.geometry(),
                u,
                x,
                y,
                h,
                4,
            ),
        forall|u: int|
            0 <= u < g0.n() ==> contrib_v(g0.geometry(), u, x, y, 2 * h) == #[trigger] prefix_v(
                g0.geometry(),
                u,
                x,
                y,
                h,
                4,
            ),
        forall|u: int|
            0 <= u < g0.n() ==> duals_of(#[trigger] gk.h_slots()[u]) == duals_of(g0.h_slots()[u])
                + prefix_h(g0.geometry(), u, x, y, h, k),
        forall|u: int|
            0 <= u < g0.n() ==> duals_of(#[trigger] gk.v_slots()[u]) == duals_of(g0.v_slots()[u])
                + prefix_v(g0.geometry(), u, x, y, h, k),
    ensures
        room_for(gk, qx(x, k, h), qy(y, k, h), h),
{
    g0.lemma_wf();
    reveal_with_fuel(prefix_h, 5);
    reveal_with_fuel(prefix_v, 5);
    let geo = g0.geometry();
    assert(gk.n() == g0.n());
    assert forall|u: int| 0 <= u < gk.n() implies duals_of(#[trigger] gk.h_slots()[u]).len() + contrib_h(
        gk.geometry(),
        u,
        qx(x, k, h),
        qy(y, k, h),
        h,
    ).len() <= 2 by {
        assert(duals_of(g0.h_slots()[u]).len() + contrib_h(geo, u, x, y, 2 * h).len() <= 2);
        assert(prefix_h(geo, u, x, y, h, 4) == prefix_h(geo, u, x, y, h, 4));
    }
    assert forall|u: int| 0 <= u < gk.n() implies duals_of(#[trigger] gk.v_slots()[u]).len() + contrib_v(
        gk.geometry(),
        u,
        qx(x, k, h),
        qy(y, k, h),
        h,
    ).len() <= 2 by {
        assert(duals_of(g0.v_slots()[u]).len() + contrib_v(geo, u, x, y, 2 * h).len() <= 2);
        assert(prefix_v(geo, u, x, y, h, 4) == prefix_v(geo, u, x, y, h, 4));
    }
}

/// After quadrant `k` is built, the first `k + 1` quadrants' dual vertices
/// have been added.
proof fn lemma_advance(g0: HermiteGrid, gk: HermiteGrid, gk1: HermiteGrid, x: int, y: int, h: int, k: int)
    requires
        g0.wf(),
        0 <= k < 4,
        gk.geometry() == g0.geometry(),
        forall|u: int|
            0 <= u < g0.n() ==> duals_of(#[trigger] gk.h_slots()[u]) == duals_of(g0.h_slots()[u])
                + prefix_h(g0.geometry(), u, x, y, h, k),
        forall|u: int|
            0 <= u < g0.n() ==> duals_of(#[trigger] gk.v_slots()[u]) == duals_of(g0.v_slots()[u])
                + prefix_v(g0.geometry(), u, x, y, h, k),
        added(gk, gk1, qx(x, k, h), qy(y, k, h), h),
    ensures
        gk1.geometry() == g0.geometry(),
        forall|u: int|
            0 <= u < g0.n() ==> duals_of(#[trigger] gk1.h_slots()[u]) == duals_of(g0.h_slots()[u])
                + prefix_h(g0.geometry(), u, x, y, h, k + 1),
        forall|u: int|
            0 <= u < g0.n() ==> duals_of(#[trigger] gk1.v_slots()[u]) == duals_of(g0.v_slots()[u])
                + prefix_v(g0.geometry(), u, x, y, h, k + 1),
{
    g0.lemma_wf();
    let geo = g0.geometry();
    assert(gk.n() == g0.n());
    assert forall|u: int| 0 <= u < g0.n() implies duals_of(#[trigger] gk1.h_slots()[u]) == duals_of(g0.h_slots()[u])
        + prefix_h(geo, u, x, y, h, k + 1) by {
        assert(duals_of(gk1.h_slots()[u]) == duals_of(gk.h_slots()[u]) + contrib_h(geo, u, qx(x, k, h), qy(y, k, h), h));
        assert(duals_of(g0.h_slots()[u]) + prefix_h(geo, u, x, y, h, k + 1) =~= duals_of(gk1.h_slots()[u]));
    }
    assert forall|u: int| 0 <= u < g0.n() implies duals_of(#[trigger] gk1.v_slots()[u]) == duals_of(g0.v_slots()[u])
        + prefix_v(geo, u, x, y, h, k + 1) by {
        assert(duals_of(gk1.v_slots()[u]) == duals_of(gk.v_slots()[u]) + contrib_v(geo, u, qx(x, k, h), qy(y, k, h), h));
        assert(duals_of(g0.v_slots()[u]) + prefix_v(geo, u, x, y, h, k + 1) =~= duals_of(gk1.v_slots()[u]));
    }
}

/// Where a unit face has a dual vertex, each of its edges has room for it.
proof fn lemma_leaf_room(g0: HermiteGrid, x: int, y: int)
    requires
        g0.wf(),
        g0.spec_width() > 0,
        0 <= x,
        x + 1 < g0.spec_width(),
        0 <= y,
        room_for(g0, x, y, 1),
    ensures
        forall|k: int|
            0 <= k < g0.n() && (k == idx(g0.geometry(), x, y) || k == idx(g0.geometry(), x, y + 1))
                && g0.h_slots()[k] is Some ==> duals_of(#[trigger] g0.h_slots()[k]).len() < 2,
        forall|k: int|
            0 <= k < g0.n() && (k == idx(g0.geometry(), x, y) || k == idx(g0.geometry(), x + 1, y))
                && g0.v_slots()[k] is Some ==> duals_of(#[trigger] g0.v_slots()[k]).len() < 2,
{
    g0.lemma_wf();
    let geo = g0.geometry();
    assert forall|k: int|
        0 <= k < g0.n() && (k == idx(geo, x, y) || k == idx(geo, x, y + 1)) && g0.h_slots()[k] is Some implies duals_of(
        #[trigger] g0.h_slots()[k],
    ).len() < 2 by {
        lemma_leaf_contrib(geo, x, y, k);
    }
    assert forall|k: int|
        0 <= k < g0.n() && (k == idx(geo, x, y) || k == idx(geo, x + 1, y)) && g0.v_slots()[k] is Some implies duals_of(
        #[trigger] g0.v_slots()[k],
    ).len() < 2 by {
        lemma_leaf_contrib(geo, x, y, k);
    }
}

/// Adding a unit face's dual vertex to its edges adds what building it adds.
proof fn lemma_leaf_added(g0: HermiteGrid, g1: HermiteGrid, x: int, y: int)
    requires
        g0.wf(),
        g0.spec_width() > 0,
        0 <= x,
        x + 1 < g0.spec_width(),
        0 <= y,
        g1.geometry() == g0.geometry(),
        leaf_dual(g0.geometry(), x, y) is None ==> g1 == g0,
        leaf_dual(g0.geometry(), x, y) is Some ==> forall|k: int|
            0 <= k < g0.n() ==> duals_of(#[trigger] g1.h_slots()[k]) == if g0.h_slots()[k] is Some
                && (k == idx(g0.geometry(), x, y) || k == idx(g0.geometry(), x, y + 1)) {
                duals_of(g0.h_slots()[k]).push(leaf_dual(g0.geometry(), x, y).unwrap())
            } else {
                duals_of(g0.h_slots()[k])
            },
        leaf_dual(g0.geometry(), x, y) is Some ==> forall|k: int|
            0 <= k < g0.n() ==> duals_of(#[trigger] g1.v_slots()[k]) == if g0.v_slots()[k] is Some
                && (k == idx(g0.geometry(), x, y) || k == idx(g0.geometry(), x + 1, y)) {
                duals_of(g0.v_slots()[k]).push(leaf_dual(g0.geometry(), x, y).unwrap())
            } else {
                duals_of(g0.v_slots()[k])
            },
    ensures
        added(g0, g1, x, y, 1),
{
    g0.lemma_wf();
    let geo = g0.geometry();
    assert(g0.n() == g1.n());
    assert forall|u: int| 0 <= u < g0.n() implies duals_of(#[trigger] g1.h_slots()[u]) == duals_of(g0.h_slots()[u])
        + contrib_h(geo, u, x, y, 1) by {
        lemma_leaf_contrib(geo, x, y, u);
        let e = Seq::<Point>::empty();
        assert(duals_of(g0.h_slots()[u]) + e == duals_of(g0.h_slots()[u]));
        if leaf_dual(geo, x, y) is None && geo.h[u] is Some && (u == idx(geo, x, y) || u == idx(geo, x, y + 1)) {
            assert(crossing_at(geo.h[u]) is Some);
        }
    }
    assert forall|u: int| 0 <= u < g0.n() implies duals_of(#[trigger] g1.v_slots()[u]) == duals_of(g0.v_slots()[u])
        + contrib_v(geo, u, x, y, 1) by {
        lemma_leaf_contrib(geo, x, y, u);
        let e = Seq::<Point>::empty();
        assert(duals_of(g0.v_slots()[u]) + e == duals_of(g0.v_slots()[u]));
        if leaf_dual(geo, x, y) is None && geo.v[u] is Some && (u == idx(geo, x, y) || u == idx(geo, x + 1, y)) {
            assert(crossing_at(geo.v[u]) is Some);
        }
    }
}

/// The corners of a unit face inside the tree are lattice points of the grid.
proof fn lemma_leaf_indices(g: HermiteGrid, x: int, y: int)
    requires
        g.wf(),
        0 <= x,
        0 <= y,
        x + 1 < g.spec_width(),
        y + 1 < g.spec_width(),
        g.spec_width() == g.spec_height(),
        g.spec_width() <= MAX_SIZE + 1,
    ensures
        x + 1 + (y + 1) * g.spec_width() <= u32::MAX,
        idx(g.geometry(), x + 1, y + 1) < g.n(),
        idx(g.geometry(), x, y + 1) == idx(g.geometry(), x, y) + g.spec_width(),
{
    let w = g.spec_width() as int;
    lemma_side_fits(w - 1);
    lemma_corner_index(x + 1, y + 1, w);
    assert(x + (y + 1) * w == x + y * w + w) by (nonlinear_arith);
}

/// A built face depends on the grid's geometry alone: two faces built over
/// the same square are equal.
proof fn lemma_built_unique(geo: Geometry, f1: Face, f2: Face, x: int, y: int, s: int)
    requires
        built(geo, f1, x, y, s),
        built(geo, f2, x, y, s),
    ensures
        f1 == f2,
    decreases s,
{
    assert(f1.verts =~= f2.verts);
    if s > 1 {
        assert forall|i: int| 0 <= i < 4 implies #[trigger] f1.children@[i] == f2.children@[i] by {
            if f1.children@[i] is Some {
                lemma_built_unique(
                    geo,
                    f1.children@[i].unwrap(),
                    f2.children@[i].unwrap(),
                    qx(x, i, s / 2),
                    qy(y, i, s / 2),
                    s / 2,
                );
            }
        }
    }
    assert(*f1.children =~= *f2.children);
}

/// Building the tree twice over the same grid, with no change to the grid
/// between the two builds, gives the same faces, the same dual vertices on
/// every edge and the same contour.
pub proof fn lemma_build_idempotent(a: QuadTree, b: QuadTree)
    requires
        a.wf(),
        b.wf(),
        a.is_built(),
        b.is_built(),
        a.geometry() == b.geometry(),
    ensures
        a.spec_root() == b.spec_root(),
        forall|u: int|
            0 <= u < a.spec_grid().n() ==> duals_of(#[trigger] a.spec_grid().h_slots()[u]) == duals_of(
                b.spec_grid().h_slots()[u],
            ),
        forall|u: int|
            0 <= u < a.spec_grid().n() ==> duals_of(#[trigger] a.spec_grid().v_slots()[u]) == duals_of(
                b.spec_grid().v_slots()[u],
            ),
        a.contour() == b.contour(),
{
    a.spec_grid().lemma_wf();
    b.spec_grid().lemma_wf();
    assert(a.spec_size() == b.spec_size());
    lemma_built_unique(a.geometry(), a.spec_root(), b.spec_root(), 0, 0, a.spec_size() as int);
    assert forall|k: int| 0 <= k < a.spec_grid().h_slots().len() implies duals_of(
        #[trigger] a.spec_grid().h_slots()[k],
    ) == duals_of(b.spec_grid().h_slots()[k]) by {}
    assert forall|k: int| 0 <= k < a.spec_grid().v_slots().len() implies duals_of(
        #[trigger] a.spec_grid().v_slots()[k],
    ) == duals_of(b.spec_grid().v_slots()[k]) by {}
    lemma_segments_same_duals(a.spec_grid().h_slots(), b.spec_grid().h_slots());
    lemma_segments_same_duals(a.spec_grid().v_slots(), b.spec_grid().v_slots());
}

/// A square whose lattice points are all outside is pruned.
proof fn lemma_outside_pruned(geo: Geometry, x: int, y: int, s: int)
    requires
        geo.occupancy.len() == geo.width * geo.width,
        forall|v: int| 0 <= v < geo.occupancy.len() ==> !(#[trigger] geo.occupancy[v]),
        0 <= x,
        0 <= y,
        0 <= s,
        x + s < geo.width,
        y + s < geo.width,
    ensures
        pruned(geo, x, y, s),
    decreases s,
{
    let w = geo.width as int;
    lemma_corner_index(x, y, w);
    lemma_corner_index(x + s, y, w);
    lemma_corner_index(x, y + s, w);
    lemma_corner_index(x + s, y + s, w);
    if s > 1 {
        lemma_outside_pruned(geo, x, y, s / 2);
        lemma_outside_pruned(geo, x + s / 2, y, s / 2);
        lemma_outside_pruned(geo, x, y + s / 2, s / 2);
        lemma_outside_pruned(geo, x + s / 2, y + s / 2, s / 2);
    }
}

/// A tree built over a grid whose lattice points are all outside has no
/// crossing edge, is a single homogeneous face with no dual vertex, and
/// yields no segment.
pub proof fn lemma_outside_everywhere(t: QuadTree)
    requires
        t.wf(),
        t.is_built(),
        forall|v: int| 0 <= v < t.spec_grid().n() ==> !(#[trigger] t.spec_grid().occupancy()[v]),
    ensures
        forall|u: int| 0 <= u < t.spec_grid().n() ==> (#[trigger] t.spec_grid().h_slots()[u]) is None,
        forall|u: int| 0 <= u < t.spec_grid().n() ==> (#[trigger] t.spec_grid().v_slots()[u]) is None,
        childless(t.spec_root()),
        t.spec_root().spec_dual_vertex() is None,
        homogeneous(t.geometry(), t.spec_root()) == Some(false),
        t.contour() == Seq::<(Point, Point)>::empty(),
{
    let g = t.spec_grid();
    let geo = t.geometry();
    let n = t.spec_size() as int;
    g.lemma_wf();
    g.lemma_outside_no_edges();
    lemma_side_fits(n);
    lemma_outside_pruned(geo, 0, 0, n);
    lemma_corner_index(n, n, n + 1);
    lemma_corner_index(0, n, n + 1);
    lemma_corner_index(n, 0, n + 1);
    lemma_corner_index(1, 1, n + 1);
    lemma_corner_index(0, 1, n + 1);
    lemma_corner_index(1, 0, n + 1);
    assert(geo.h[idx(geo, 0, 0)] is None);
    assert(geo.v[idx(geo, 0, 0)] is None);
    assert(geo.v[idx(geo, 1, 0)] is None);
    assert(geo.h[idx(geo, 0, 1)] is None);
    if n > 1 {
        assert(t.spec_root().spec_children()[0] is None);
        assert(t.spec_root().spec_children()[1] is None);
        assert(t.spec_root().spec_children()[2] is None);
        assert(t.spec_root().spec_children()[3] is None);
    }
    lemma_segments_none(g.h_slots());
    lemma_segments_none(g.v_slots());
}

/// Sampling a field that is negative everywhere into a fresh tree, then
/// building it, gives a single homogeneous face with no dual vertex, and an
/// empty contour.
pub proof fn lemma_negative_field<S: IsoLine>(fresh: QuadTree, sampled: QuadTree, t: QuadTree, iso: &S)
    requires
        fresh.wf(),
        forall|v: int| 0 <= v < fresh.spec_grid().n() ==> !(#[trigger] fresh.spec_grid().occupancy()[v]),
        forall|u: int| 0 <= u < fresh.spec_grid().n() ==> (#[trigger] fresh.spec_grid().h_slots()[u]) is None,
        forall|u: int| 0 <= u < fresh.spec_grid().n() ==> (#[trigger] fresh.spec_grid().v_slots()[u]) is None,
        forall|p: Point| iso.field(p) < 0,
        sampled.wf(),
        contour_added(fresh.spec_grid(), sampled.spec_grid(), iso),
        t.wf(),
        t.is_built(),
        t.geometry() == sampled.geometry(),
    ensures
        forall|u: int| 0 <= u < t.spec_grid().n() ==> (#[trigger] t.spec_grid().h_slots()[u]) is None,
        forall|u: int| 0 <= u < t.spec_grid().n() ==> (#[trigger] t.spec_grid().v_slots()[u]) is None,
        childless(t.spec_root()),
        t.spec_root().spec_dual_vertex() is None,
        homogeneous(t.geometry(), t.spec_root()) == Some(false),
        t.contour() == Seq::<(Point, Point)>::empty(),
{
    let g0 = fresh.spec_grid();
    let g1 = sampled.spec_grid();
    let g = t.spec_grid();
    g0.lemma_wf();
    g1.lemma_wf();
    g.lemma_wf();
    assert forall|v: int| 0 <= v < g0.n() implies iso.field(#[trigger] g0.position(v)) <= 0 by {}
    lemma_outside_contour(g0, g1, iso);
    assert(g.n() == g1.n());
    assert forall|v: int| 0 <= v < g.n() implies !(#[trigger] g.occupancy()[v]) by {
        assert(g.geometry().occupancy[v] == g1.geometry().occupancy[v]);
    }
    lemma_outside_everywhere(t);
}

/// Slots with no edge yield no segment.
proof fn lemma_segments_none(s: Seq<Option<crate::grid::Edge>>)
    requires
        forall|u: int| 0 <= u < s.len() ==> (#[trigger] s[u]) is None,
    ensures
        segments(s) == Seq::<(Point, Point)>::empty(),
    decreases s.len(),
{
    if s.len() > 0 {
        lemma_segments_none(s.drop_last());
        assert(s.last() is None);
    }
}

/// The contour holds one segment for each edge with exactly two dual
/// vertices, and for each such edge the segment that joins them.
pub proof fn lemma_contour_segment(t: QuadTree, u: int)
    requires
        t.wf(),
        0 <= u < t.spec_grid().n(),
    ensures
        t.contour().len() == count_full(t.spec_grid().h_slots()) + count_full(t.spec_grid().v_slots()),
        ({
            let d = duals_of(t.spec_grid().h_slots()[u]);
            d.len() == 2 ==> t.contour().contains((d[0], d[1]))
        }),
        ({
            let d = duals_of(t.spec_grid().v_slots()[u]);
            d.len() == 2 ==> t.contour().contains((d[0], d[1]))
        }),
{
    let g = t.spec_grid();
    g.lemma_wf();
    lemma_segments_count(g.h_slots());
    lemma_segments_count(g.v_slots());
    let sh = segments(g.h_slots());
    let sv = segments(g.v_slots());
    let d = duals_of(g.h_slots()[u]);
    if d.len() == 2 {
        lemma_full_edge_segment(g.h_slots(), u);
        let j = choose|j: int| 0 <= j < sh.len() && sh[j] == (d[0], d[1]);
        assert(t.contour()[j] == (d[0], d[1]));
    }
    let e = duals_of(g.v_slots()[u]);
    if e.len() == 2 {
        lemma_full_edge_segment(g.v_slots(), u);
        let j = choose|j: int| 0 <= j < sv.len() && sv[j] == (e[0], e[1]);
        assert(t.contour()[sh.len() + j] == (e[0], e[1]));
    }
}

/// The mean of up to four points on the crossing grain is exact: the count
/// times the mean is the sum.
proof fn lemma_mean_exact(a: Option<Point>, b: Option<Point>, c: Option<Point>, d: Option<Point>)
    requires
        a is Some ==> on_grain(a.unwrap()) && in_grid_bounds(a.unwrap()),
        b is Some ==> on_grain(b.unwrap()) && in_grid_bounds(b.unwrap()),
        c is Some ==> on_grain(c.unwrap()) && in_grid_bounds(c.unwrap()),
        d is Some ==> on_grain(d.unwrap()) && in_grid_bounds(d.unwrap()),
    ensures
        ({
            let n = count_of(a) + count_of(b) + count_of(c) + count_of(d);
            let m = mean_of(a, b, c, d);
            m is Some ==> n * m.unwrap().x == sum_x(a) + sum_x(b) + sum_x(c) + sum_x(d) && n
                * m.unwrap().y == sum_y(a) + sum_y(b) + sum_y(c) + sum_y(d)
        }),
{
    let n = count_of(a) + count_of(b) + count_of(c) + count_of(d);
    if n > 0 {
        let sx = sum_x(a) + sum_x(b) + sum_x(c) + sum_x(d);
        let sy = sum_y(a) + sum_y(b) + sum_y(c) + sum_y(d);
        let kx = sum_x(a) / 300 + sum_x(b) / 300 + sum_x(c) / 300 + sum_x(d) / 300;
        let ky = sum_y(a) / 300 + sum_y(b) / 300 + sum_y(c) / 300 + sum_y(d) / 300;
        lemma_grain_parts(a);
        lemma_grain_parts(b);
        lemma_grain_parts(c);
        lemma_grain_parts(d);
        assert(sx == 300 * kx);
        assert(sy == 300 * ky);
        lemma_exact_division(kx, n);
        lemma_exact_division(ky, n);
    }
}

/// A point on the crossing grain is a whole number of grains on each axis.
proof fn lemma_grain_parts(p: Option<Point>)
    requires
        p is Some ==> on_grain(p.unwrap()) && in_grid_bounds(p.unwrap()),
    ensures
        sum_x(p) == 300 * (sum_x(p) / 300),
        sum_y(p) == 300 * (sum_y(p) / 300),
        0 <= sum_x(p) <= COORD_LIMIT,
        0 <= sum_y(p) <= COORD_LIMIT,
{
    lemma_fundamental_div_mod(sum_x(p), 300);
    lemma_fundamental_div_mod(sum_y(p), 300);
}

/// `300 k` divides exactly by one to four, and the quotient stays within
/// the grid's bounds when `300 k` is at most four coordinates.
proof fn lemma_exact_division(k: int, n: int)
    requires
        1 <= n <= 4,
        0 <= 300 * k <= 4 * COORD_LIMIT,
    ensures
        n * ((300 * k) / n) == 300 * k,
        0 <= (300 * k) / n <= 4 * COORD_LIMIT,
{
    if n == 3 {
        assert((300 * k) / 3 == 100 * k);
    } else if n == 4 {
        assert((300 * k) / 4 == 75 * k);
    } else if n == 2 {
        assert((300 * k) / 2 == 150 * k);
    }
}

/// The dual vertex of a unit face is the exact mean of the crossings on its
/// edges: their number times the dual vertex is their sum.
pub proof fn lemma_dual_is_mean(g: HermiteGrid, x: int, y: int)
    requires
        g.wf(),
        0 <= x,
        0 <= y,
        x + 1 < g.spec_width(),
        y + 1 < g.spec_height(),
    ensures
        ({
            let geo = g.geometry();
            let t = crossing_at(geo.h[idx(geo, x, y)]);
            let l = crossing_at(geo.v[idx(geo, x, y)]);
            let r = crossing_at(geo.v[idx(geo, x + 1, y)]);
            let b = crossing_at(geo.h[idx(geo, x, y + 1)]);
            let n = count_of(t) + count_of(l) + count_of(r) + count_of(b);
            let d = leaf_dual(geo, x, y);
            d is Some ==> n * d.unwrap().x == sum_x(t) + sum_x(l) + sum_x(r) + sum_x(b) && n
                * d.unwrap().y == sum_y(t) + sum_y(l) + sum_y(r) + sum_y(b)
        }),
{
    let geo = g.geometry();
    let w = g.spec_width() as int;
    let h = g.spec_height() as int;
    g.lemma_wf();
    assert(x + 1 + (y + 1) * w < w * h) by (nonlinear_arith)
        requires
            0 <= x,
            0 <= y,
            x + 1 < w,
            y + 1 < h,
    ;
    assert(x + (y + 1) * w == x + y * w + w) by (nonlinear_arith);
    assert(0 <= x + y * w) by (nonlinear_arith)
        requires
            0 <= x,
            0 <= y,
            0 <= w,
    ;
    lemma_mean_exact(
        crossing_at(geo.h[idx(geo, x, y)]),
        crossing_at(geo.v[idx(geo, x, y)]),
        crossing_at(geo.v[idx(geo, x + 1, y)]),
        crossing_at(geo.h[idx(geo, x, y + 1)]),
    );
}

/// The power-of-two test here is the same as vstd's.
proof fn lemma_is_pow2_matches(n: int)
    ensures
        is_pow2(n) == vstd::arithmetic::power2::is_pow2(n),
    decreases n,
{
    reveal(vstd::arithmetic::power2::is_pow2);
    if n > 1 {
        lemma_is_pow2_matches(n / 2);
    }
}

/// A tree can be made exactly for a square whose side is `2^i` faces for
/// some `i`, no longer than `MAX_SIZE`: every other pair of sizes is refused.
pub proof fn lemma_valid_size(width: int, height: int)
    ensures
        QuadTree::valid_size(width, height) <==> (width == height && (exists|i: nat|
            vstd::arithmetic::power::pow(2, i) == width) && width <= MAX_SIZE),
{
    lemma_is_pow2_matches(width);
    vstd::arithmetic::power2::is_pow2_equiv(width);
}

/// A side of at most `MAX_SIZE` faces gives a grid within `MAX_VERTICES`.
proof fn lemma_side_fits(s: int)
    requires
        0 <= s <= MAX_SIZE,
    ensures
        (s + 1) * (s + 1) <= MAX_VERTICES,
        s + s * (s + 1) <= u32::MAX,
{
    assert((s + 1) * (s + 1) <= 32769 * 32769) by (nonlinear_arith)
        requires
            0 <= s <= 32768,
    ;
    assert(s + s * (s + 1) <= 32768 + 32768 * 32769) by (nonlinear_arith)
        requires
            0 <= s <= 32768,
    ;
}

/// Every lattice point `(x, y)` of a `w × w` grid has an index below `w * w`.
proof fn lemma_corner_index(x: int, y: int, w: int)
    requires
        0 <= x < w,
        0 <= y < w,
    ensures
        0 <= x + y * w < w * w,
{
    assert(0 <= x + y * w < w * w) by (nonlinear_arith)
        requires
            0 <= x < w,
            0 <= y < w,
    ;
}

} // verus!
