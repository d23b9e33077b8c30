use vstd::prelude::*;

use crate::geom::{lemma_product_bound, lemma_square_bound, Circle, Normal, Point, FIELD_LIMIT, NORMAL_STEP, SAMPLE_LIMIT};

verus! {

/// An implicit contour: a scalar field whose zero set is the contour.
/// A positive value means the point is inside.
pub trait IsoLine {
    /// The field's value at `p`.
    spec fn field(&self, p: Point) -> int;

    /// The normal that `normal` returns at `p`.
    spec fn normal_at(&self, p: Point) -> Normal;

    /// The field's value at `p`, exactly.
    fn sample(&self, p: Point) -> (r: i128)
        requires
            p.within(SAMPLE_LIMIT as int),
        ensures
            r == self.field(p),
            -FIELD_LIMIT <= r <= FIELD_LIMIT,
    ;

    /// A normal of the field's contours at `p`. A field with no closed form
    /// for its gradient can return `estimate_normal(self, p)`.
    fn normal(&self, p: Point) -> (r: Normal)
        requires
            p.within(SAMPLE_LIMIT as int - NORMAL_STEP),
        ensures
            r == self.normal_at(p),
    ;
}

/// The central-difference estimate of the field's gradient at `p`, with a
/// step of [`NORMAL_STEP`] on each axis.
pub open spec fn central_difference<S: IsoLine>(iso: &S, p: Point) -> Normal {
    Normal {
        dx: (iso.field(p.shifted(NORMAL_STEP as int, 0)) - iso.field(
            p.shifted(-NORMAL_STEP, 0),
        )) as i128,
        dy: (iso.field(p.shifted(0, NORMAL_STEP as int)) - iso.field(
            p.shifted(0, -NORMAL_STEP),
        )) as i128,
    }
}

/// Estimates the field's gradient at `p` by central differences: the
/// normal of a field that has no closed form for it.
pub fn estimate_normal<S: IsoLine>(iso: &S, p: Point) -> (r: Normal)
    requires
        p.within(SAMPLE_LIMIT as int - NORMAL_STEP),
    ensures
        r == central_difference(iso, p),
        r.dx == iso.field(p.shifted(NORMAL_STEP as int, 0)) - iso.field(p.shifted(-NORMAL_STEP, 0)),
        r.dy == iso.field(p.shifted(0, NORMAL_STEP as int)) - iso.field(p.shifted(0, -NORMAL_STEP)),
{
    let right = iso.sample(Point { x: p.x + NORMAL_STEP, y: p.y });
    let left = iso.sample(Point { x: p.x - NORMAL_STEP, y: p.y });
    let down = iso.sample(Point { x: p.x, y: p.y + NORMAL_STEP });
    let up = iso.sample(Point { x: p.x, y: p.y - NORMAL_STEP });
    Normal { dx: right - left, dy: down - up }
}

impl Circle {
    /// `radius² - |p - center|²`.
    pub open spec fn spec_field(self, p: Point) -> int {
        let dx = p.x - self.spec_center().x;
        let dy = p.y - self.spec_center().y;
        self.spec_radius() * self.spec_radius() - (dx * dx + dy * dy)
    }
}

impl IsoLine for Circle {
    open spec fn field(&self, p: Point) -> int {
        self.spec_field(p)
    }

    /// The direction of the field's exact gradient, `center - p`: towards
    /// the centre, where the field grows.
    open spec fn normal_at(&self, p: Point) -> Normal {
        Normal {
            dx: (self.spec_center().x - p.x) as i128,
            dy: (self.spec_center().y - p.y) as i128,
        }
    }

    /// The field's value at `p`, exactly.
    fn sample(&self, p: Point) -> (r: i128) {
        let c = self.center();
        let rad = self.radius();
        let dx = (p.x as i128) - (c.x as i128);
        let dy = (p.y as i128) - (c.y as i128);
        proof {
            lemma_square_bound(dx as int);
            lemma_square_bound(dy as int);
            lemma_product_bound(rad as int, rad as int);
        }
        rad as i128 * rad as i128 - (dx * dx + dy * dy)
    }

    fn normal(&self, p: Point) -> (r: Normal) {
        let c = self.center();
        Normal { dx: (c.x as i128) - (p.x as i128), dy: (c.y as i128) - (p.y as i128) }
    }
}

} // verus!
