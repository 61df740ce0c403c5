use crate::error::Error;
use crate::point::{Bounds, Point, PointView};
use crate::scalar::{
    ceil_div, ceil_ratio, floor_div, floor_ratio, in_range, round_to_whole, rounded, LIMIT, NODATA,
};
use vstd::arithmetic::div_mod::{
    lemma_div_is_ordered, lemma_div_multiples_vanish, lemma_fundamental_div_mod,
    lemma_fundamental_div_mod_converse,
};
use vstd::prelude::*;
use vstd::string::*;

verus! {

/// Where a sample position lies in the finished triangulation.
#[derive(Clone, Copy, Debug)]
pub enum Located {
    /// On a vertex.
    Vertex(Point),
    /// On the edge between two vertices.
    Edge(Point, Point),
    /// In the face between three vertices.
    Face(Point, Point, Point),
    /// Outside the hull of the triangulation, or in no face that could be
    /// found.
    Outside,
}

/// Twice the signed area of the face.
pub open spec fn face_det(a: PointView, b: PointView, c: PointView) -> int {
    (b.y - c.y) * (a.x - c.x) + (c.x - b.x) * (a.y - c.y)
}

/// The weight of the first corner at `(x, y)`, as a part of `face_det`.
pub open spec fn weight_first(b: PointView, c: PointView, x: int, y: int) -> int {
    (b.y - c.y) * (x - c.x) + (c.x - b.x) * (y - c.y)
}

/// The weight of the second corner at `(x, y)`, as a part of `face_det`.
pub open spec fn weight_second(a: PointView, c: PointView, x: int, y: int) -> int {
    (c.y - a.y) * (x - c.x) + (a.x - c.x) * (y - c.y)
}

/// The weight of the third corner at `(x, y)`: the three weights add up to
/// `face_det`.
pub open spec fn weight_third(a: PointView, b: PointView, c: PointView, x: int, y: int) -> int {
    face_det(a, b, c) - weight_first(b, c, x, y) - weight_second(a, c, x, y)
}

/// Whether `(x, y)` lies in the face or on its rim: the face has an area and
/// no weight has the sign against it.
pub open spec fn face_holds(a: PointView, b: PointView, c: PointView, x: int, y: int) -> bool {
    let det = face_det(a, b, c);
    let w1 = weight_first(b, c, x, y);
    let w2 = weight_second(a, c, x, y);
    let w3 = weight_third(a, b, c, x, y);
    ||| det > 0 && w1 >= 0 && w2 >= 0 && w3 >= 0
    ||| det < 0 && w1 <= 0 && w2 <= 0 && w3 <= 0
}

/// The values of the three corners, each by its weight.
pub open spec fn face_sum(a: PointView, b: PointView, c: PointView, x: int, y: int) -> int {
    weight_first(b, c, x, y) * a.value + weight_second(a, c, x, y) * b.value + weight_third(
        a,
        b,
        c,
        x,
        y,
    ) * c.value
}

/// The value of the surface at `(x, y)` in a face: the weighted mean of the
/// values of its corners, rounded down; no value where the face does not hold
/// the position.
pub open spec fn face_value(a: PointView, b: PointView, c: PointView, x: int, y: int) -> int {
    if face_holds(a, b, c, x, y) {
        floor_ratio(face_sum(a, b, c, x, y), face_det(a, b, c))
    } else {
        NODATA as int
    }
}

/// The square of the planar length of the edge.
pub open spec fn edge_length_squared(a: PointView, b: PointView) -> int {
    (b.x - a.x) * (b.x - a.x) + (b.y - a.y) * (b.y - a.y)
}

/// How far along the edge `(x, y)` lies when dropped onto it, as a part of
/// `edge_length_squared`.
pub open spec fn edge_along(a: PointView, b: PointView, x: int, y: int) -> int {
    (x - a.x) * (b.x - a.x) + (y - a.y) * (b.y - a.y)
}

/// Whether `(x, y)`, dropped onto the edge, lies between its ends.
pub open spec fn edge_holds(a: PointView, b: PointView, x: int, y: int) -> bool {
    edge_length_squared(a, b) > 0 && 0 <= edge_along(a, b, x, y) <= edge_length_squared(a, b)
}

/// The value of the surface at `(x, y)` on an edge: the mean of the values of
/// its ends, each by the weight of the other's distance, rounded down.
pub open spec fn edge_value(a: PointView, b: PointView, x: int, y: int) -> int {
    let len = edge_length_squared(a, b);
    let along = edge_along(a, b, x, y);
    if edge_holds(a, b, x, y) {
        ((len - along) * a.value + along * b.value) / len
    } else {
        NODATA as int
    }
}

/// The value of a raster cell whose sample position `(x, y)` lies at
/// `located`.
pub open spec fn cell_value(located: Located, x: int, y: int) -> int {
    if !in_range(x) || !in_range(y) {
        NODATA as int
    } else {
        match located {
            Located::Vertex(a) => if a@.is_at(x, y) {
                a@.value
            } else {
                NODATA as int
            },
            Located::Edge(a, b) => edge_value(a@, b@, x, y),
            Located::Face(a, b, c) => face_value(a@, b@, c@, x, y),
            Located::Outside => NODATA as int,
        }
    }
}

/// A sample outside the hull has no value.
pub proof fn lemma_outside_is_nodata(x: int, y: int)
    ensures
        cell_value(Located::Outside, x, y) == NODATA,
{
}

/// A sample at the position of a vertex has the value of that vertex,
/// whether the position was found on the vertex, on an edge that ends there
/// or in a face with a corner there.
pub proof fn lemma_sample_at_vertex(located: Located, x: int, y: int)
    requires
        in_range(x),
        in_range(y),
    ensures
        match located {
            Located::Vertex(a) => a@.is_at(x, y) ==> cell_value(located, x, y) == a@.value,
            Located::Edge(a, b) => edge_length_squared(a@, b@) > 0 ==> {
                &&& a@.is_at(x, y) ==> cell_value(located, x, y) == a@.value
                &&& b@.is_at(x, y) ==> cell_value(located, x, y) == b@.value
            },
            Located::Face(a, b, c) => face_det(a@, b@, c@) != 0 ==> {
                &&& a@.is_at(x, y) ==> cell_value(located, x, y) == a@.value
                &&& b@.is_at(x, y) ==> cell_value(located, x, y) == b@.value
                &&& c@.is_at(x, y) ==> cell_value(located, x, y) == c@.value
            },
            Located::Outside => true,
        },
{
    match located {
        Located::Edge(a, b) => {
            let len = edge_length_squared(a@, b@);
            if len > 0 {
                if a@.is_at(x, y) {
                    assert(edge_along(a@, b@, x, y) == 0) by (nonlinear_arith)
                        requires
                            x == a@.x,
                            y == a@.y,
                    ;
                    assert((len - 0) * a@.value + 0 * b@.value == len * a@.value)
                        by (nonlinear_arith);
                    lemma_div_multiples_vanish(a@.value, len);
                }
                if b@.is_at(x, y) {
                    assert(edge_along(a@, b@, x, y) == len);
                    assert((len - len) * a@.value + len * b@.value == len * b@.value)
                        by (nonlinear_arith);
                    lemma_div_multiples_vanish(b@.value, len);
                }
            }
        },
        Located::Face(a, b, c) => {
            let det = face_det(a@, b@, c@);
            if det != 0 {
                if a@.is_at(x, y) {
                    lemma_weights_at_first(a@, b@, c@);
                    lemma_whole_weight(det, a@.value, 0, b@.value, 0, c@.value, a@.value);
                }
                if b@.is_at(x, y) {
                    lemma_weights_at_second(a@, b@, c@);
                    lemma_whole_weight(0, a@.value, det, b@.value, 0, c@.value, b@.value);
                }
                if c@.is_at(x, y) {
                    lemma_weights_at_third(a@, b@, c@);
                    lemma_whole_weight(0, a@.value, 0, b@.value, det, c@.value, c@.value);
                }
            }
        },
        _ => {},
    }
}

/// The surface over a face whose corners share one value has that value
/// wherever the face holds the position.
pub proof fn lemma_level_face(a: PointView, b: PointView, c: PointView, x: int, y: int)
    requires
        face_holds(a, b, c, x, y),
        a.value == b.value,
        b.value == c.value,
    ensures
        face_value(a, b, c, x, y) == a.value,
{
    let det = face_det(a, b, c);
    let w1 = weight_first(b, c, x, y);
    let w2 = weight_second(a, c, x, y);
    let w3 = weight_third(a, b, c, x, y);
    let v = a.value;
    assert(w1 * v + w2 * v + w3 * v == det * v) by (nonlinear_arith)
        requires
            w1 + w2 + w3 == det,
    ;
    lemma_ratio_of_multiple(det, v);
}

/// The surface is exact for a field that is linear in the position: over
/// a face whose corners have the values of such a field, every position that
/// the face holds has the value of the field.
pub proof fn lemma_linear_field(
    a: PointView,
    b: PointView,
    c: PointView,
    x: int,
    y: int,
    alpha: int,
    beta: int,
    gamma: int,
)
    requires
        face_holds(a, b, c, x, y),
        a.value == alpha * a.x + beta * a.y + gamma,
        b.value == alpha * b.x + beta * b.y + gamma,
        c.value == alpha * c.x + beta * c.y + gamma,
    ensures
        face_value(a, b, c, x, y) == alpha * x + beta * y + gamma,
{
    let det = face_det(a, b, c);
    let w1 = weight_first(b, c, x, y);
    let w2 = weight_second(a, c, x, y);
    let w3 = weight_third(a, b, c, x, y);
    lemma_weights_balance(a.x - c.x, b.x - c.x, a.y - c.y, b.y - c.y, x - c.x, y - c.y);
    let sx = w1 * a.x + w2 * b.x + w3 * c.x;
    let sy = w1 * a.y + w2 * b.y + w3 * c.y;
    assert(sx == det * x) by (nonlinear_arith)
        requires
            sx == w1 * a.x + w2 * b.x + w3 * c.x,
            w3 == det - w1 - w2,
            w1 * (a.x - c.x) + w2 * (b.x - c.x) == det * (x - c.x),
    ;
    assert(sy == det * y) by (nonlinear_arith)
        requires
            sy == w1 * a.y + w2 * b.y + w3 * c.y,
            w3 == det - w1 - w2,
            w1 * (a.y - c.y) + w2 * (b.y - c.y) == det * (y - c.y),
    ;
    lemma_weighted_field(w1, a.x, a.y, alpha, beta, gamma);
    lemma_weighted_field(w2, b.x, b.y, alpha, beta, gamma);
    lemma_weighted_field(w3, c.x, c.y, alpha, beta, gamma);
    lemma_spread(alpha, w1 * a.x, w2 * b.x, w3 * c.x);
    lemma_spread(beta, w1 * a.y, w2 * b.y, w3 * c.y);
    lemma_spread(gamma, w1, w2, w3);
    assert(face_sum(a, b, c, x, y) == alpha * sx + beta * sy + gamma * det);
    lemma_gather(det, alpha, x, beta, y, gamma);
    lemma_ratio_of_multiple(det, alpha * x + beta * y + gamma);
}

/// The weights balance the corners about the position: with the third
/// corner as the origin, the first two corners by their weights add up to
/// the position by the area.
proof fn lemma_weights_balance(ax: int, bx: int, ay: int, by: int, x: int, y: int)
    ensures
        (by * x + (-bx) * y) * ax + ((-ay) * x + ax * y) * bx == (by * ax + (-bx) * ay) * x,
        (by * x + (-bx) * y) * ay + ((-ay) * x + ax * y) * by == (by * ax + (-bx) * ay) * y,
{
    lemma_cross(by, x, -bx, y, ax);
    lemma_cross(-ay, x, ax, y, bx);
    lemma_cross(by, ax, -bx, ay, x);
    lemma_cross(by, x, -bx, y, ay);
    lemma_cross(-ay, x, ax, y, by);
    lemma_cross(by, ax, -bx, ay, y);
    lemma_turn(by, x, ax);
    lemma_turn(-bx, y, ax);
    lemma_turn(-ay, x, bx);
    lemma_turn(ax, y, bx);
    lemma_turn(by, x, ay);
    lemma_turn(-bx, y, ay);
    lemma_turn(-ay, x, by);
    lemma_turn(ax, y, by);
    assert(((-bx) * ax) * y + (ax * bx) * y == 0) by (nonlinear_arith);
    assert((by * ay) * x + ((-ay) * by) * x == 0) by (nonlinear_arith);
    assert(((-ay) * bx) * x == ((-bx) * ay) * x) by (nonlinear_arith);
    assert((ax * by) * y == (by * ax) * y) by (nonlinear_arith);
}

/// `(p q + r s) t = (p q) t + (r s) t`.
proof fn lemma_cross(p: int, q: int, r: int, s: int, t: int)
    ensures
        (p * q + r * s) * t == (p * q) * t + (r * s) * t,
{
    assert((p * q + r * s) * t == (p * q) * t + (r * s) * t) by (nonlinear_arith);
}

/// `(p q) t = (p t) q`.
proof fn lemma_turn(p: int, q: int, t: int)
    ensures
        (p * q) * t == (p * t) * q,
{
    assert((p * q) * t == (p * t) * q) by (nonlinear_arith);
}

/// `k (p + q + r) = k p + k q + k r`.
proof fn lemma_spread(k: int, p: int, q: int, r: int)
    ensures
        k * (p + q + r) == k * p + k * q + k * r,
{
    assert(k * (p + q + r) == k * p + k * q + k * r) by (nonlinear_arith);
}

/// `a (d x) + b (d y) + c d = d (a x + b y + c)`.
proof fn lemma_gather(d: int, alpha: int, x: int, beta: int, y: int, gamma: int)
    ensures
        alpha * (d * x) + beta * (d * y) + gamma * d == d * (alpha * x + beta * y + gamma),
{
    assert(alpha * (d * x) + beta * (d * y) + gamma * d == d * (alpha * x + beta * y + gamma))
        by (nonlinear_arith);
}

proof fn lemma_weighted_field(w: int, x: int, y: int, alpha: int, beta: int, gamma: int)
    ensures
        w * (alpha * x + beta * y + gamma) == alpha * (w * x) + beta * (w * y) + gamma * w,
{
    assert(w * (alpha * x + beta * y + gamma) == alpha * (w * x) + beta * (w * y) + gamma * w)
        by (nonlinear_arith);
}

proof fn lemma_ratio_of_multiple(d: int, v: int)
    requires
        d != 0,
    ensures
        floor_ratio(d * v, d) == v,
{
    if d > 0 {
        lemma_div_multiples_vanish(v, d);
    } else {
        assert(-(d * v) == (-d) * v) by (nonlinear_arith);
        lemma_div_multiples_vanish(v, -d);
    }
}

proof fn lemma_whole_weight(w1: int, v1: int, w2: int, v2: int, w3: int, v3: int, v: int)
    requires
        w1 + w2 + w3 != 0,
        (w1 == 0 || v1 == v) && (w2 == 0 || v2 == v) && (w3 == 0 || v3 == v),
    ensures
        floor_ratio(w1 * v1 + w2 * v2 + w3 * v3, w1 + w2 + w3) == v,
{
    assert(w1 * v1 + w2 * v2 + w3 * v3 == (w1 + w2 + w3) * v) by (nonlinear_arith)
        requires
            (w1 == 0 || v1 == v) && (w2 == 0 || v2 == v) && (w3 == 0 || v3 == v),
    ;
    lemma_ratio_of_multiple(w1 + w2 + w3, v);
}

proof fn lemma_weights_at_first(a: PointView, b: PointView, c: PointView)
    ensures
        weight_first(b, c, a.x, a.y) == face_det(a, b, c),
        weight_second(a, c, a.x, a.y) == 0,
        weight_third(a, b, c, a.x, a.y) == 0,
{
    assert((c.y - a.y) * (a.x - c.x) + (a.x - c.x) * (a.y - c.y) == 0) by (nonlinear_arith);
}

proof fn lemma_weights_at_second(a: PointView, b: PointView, c: PointView)
    ensures
        weight_first(b, c, b.x, b.y) == 0,
        weight_second(a, c, b.x, b.y) == face_det(a, b, c),
        weight_third(a, b, c, b.x, b.y) == 0,
{
    assert((b.y - c.y) * (b.x - c.x) + (c.x - b.x) * (b.y - c.y) == 0) by (nonlinear_arith);
    assert((c.y - a.y) * (b.x - c.x) + (a.x - c.x) * (b.y - c.y) == (b.y - c.y) * (a.x - c.x) + (
    c.x - b.x) * (a.y - c.y)) by (nonlinear_arith);
}

proof fn lemma_weights_at_third(a: PointView, b: PointView, c: PointView)
    ensures
        weight_first(b, c, c.x, c.y) == 0,
        weight_second(a, c, c.x, c.y) == 0,
        weight_third(a, b, c, c.x, c.y) == face_det(a, b, c),
{
    assert((b.y - c.y) * (c.x - c.x) + (c.x - b.x) * (c.y - c.y) == 0) by (nonlinear_arith);
    assert((c.y - a.y) * (c.x - c.x) + (a.x - c.x) * (c.y - c.y) == 0) by (nonlinear_arith);
}

/// The product of two differences of coordinates.
proof fn lemma_span_product(a: int, b: int)
    requires
        -0x200_0000_0000 <= a <= 0x200_0000_0000,
        -0x200_0000_0000 <= b <= 0x200_0000_0000,
    ensures
        -0x4_0000_0000_0000_0000_0000 <= a * b <= 0x4_0000_0000_0000_0000_0000,
{
    assert(-0x4_0000_0000_0000_0000_0000 <= a * b <= 0x4_0000_0000_0000_0000_0000)
        by (nonlinear_arith)
        requires
            -0x200_0000_0000 <= a <= 0x200_0000_0000,
            -0x200_0000_0000 <= b <= 0x200_0000_0000,
    ;
}

/// The product of a weight and a value.
proof fn lemma_weighted(w: int, v: int)
    requires
        0 <= w <= 0x8_0000_0000_0000_0000_0000,
        -0x100_0000_0000 <= v <= 0x100_0000_0000,
    ensures
        -0x800_0000_0000_0000_0000_0000_0000_0000 <= w * v
            <= 0x800_0000_0000_0000_0000_0000_0000_0000,
{
    assert(-0x800_0000_0000_0000_0000_0000_0000_0000 <= w * v
        <= 0x800_0000_0000_0000_0000_0000_0000_0000) by (nonlinear_arith)
        requires
            0 <= w <= 0x8_0000_0000_0000_0000_0000,
            -0x100_0000_0000 <= v <= 0x100_0000_0000,
    ;
}

/// The weighted sum of three values in range, over weights that are not
/// negative, stays within the range times the sum of the weights.
proof fn lemma_mean_in_range(w1: int, v1: int, w2: int, v2: int, w3: int, v3: int)
    requires
        w1 >= 0,
        w2 >= 0,
        w3 >= 0,
        w1 + w2 + w3 > 0,
        in_range(v1),
        in_range(v2),
        in_range(v3),
    ensures
        in_range((w1 * v1 + w2 * v2 + w3 * v3) / (w1 + w2 + w3)),
{
    let d = w1 + w2 + w3;
    let s = w1 * v1 + w2 * v2 + w3 * v3;
    assert(-(LIMIT * w1) <= w1 * v1 <= LIMIT * w1) by (nonlinear_arith)
        requires
            w1 >= 0,
            -LIMIT <= v1 <= LIMIT,
    ;
    assert(-(LIMIT * w2) <= w2 * v2 <= LIMIT * w2) by (nonlinear_arith)
        requires
            w2 >= 0,
            -LIMIT <= v2 <= LIMIT,
    ;
    assert(-(LIMIT * w3) <= w3 * v3 <= LIMIT * w3) by (nonlinear_arith)
        requires
            w3 >= 0,
            -LIMIT <= v3 <= LIMIT,
    ;
    assert(LIMIT * w1 + LIMIT * w2 + LIMIT * w3 == d * LIMIT) by (nonlinear_arith)
        requires
            d == w1 + w2 + w3,
    ;
    assert(-(LIMIT * w1) - LIMIT * w2 - LIMIT * w3 == d * (-LIMIT)) by (nonlinear_arith)
        requires
            d == w1 + w2 + w3,
    ;
    lemma_div_is_ordered(s, d * LIMIT, d);
    lemma_div_is_ordered(d * (-LIMIT), s, d);
    lemma_div_multiples_vanish(LIMIT as int, d);
    lemma_div_multiples_vanish(-LIMIT as int, d);
}

fn face_sample(a: &Point, b: &Point, c: &Point, x: i64, y: i64) -> (v: i64)
    requires
        in_range(x as int),
        in_range(y as int),
    ensures
        v == face_value(a@, b@, c@, x as int, y as int),
{
    let ax: i128 = a.x() as i128;
    let ay: i128 = a.y() as i128;
    let bx: i128 = b.x() as i128;
    let by: i128 = b.y() as i128;
    let cx: i128 = c.x() as i128;
    let cy: i128 = c.y() as i128;
    let px: i128 = x as i128;
    let py: i128 = y as i128;
    proof {
        lemma_span_product(by - cy, ax - cx);
        lemma_span_product(cx - bx, ay - cy);
        lemma_span_product(by - cy, px - cx);
        lemma_span_product(cx - bx, py - cy);
        lemma_span_product(cy - ay, px - cx);
        lemma_span_product(ax - cx, py - cy);
    }
    let det: i128 = (by - cy) * (ax - cx) + (cx - bx) * (ay - cy);
    let w1: i128 = (by - cy) * (px - cx) + (cx - bx) * (py - cy);
    let w2: i128 = (cy - ay) * (px - cx) + (ax - cx) * (py - cy);
    let w3: i128 = det - w1 - w2;
    if det == 0 {
        return NODATA;
    }
    let va: i128 = a.value() as i128;
    let vb: i128 = b.value() as i128;
    let vc: i128 = c.value() as i128;
    if det > 0 {
        if w1 < 0 || w2 < 0 || w3 < 0 {
            return NODATA;
        }
        proof {
            lemma_weighted(w1 as int, va as int);
            lemma_weighted(w2 as int, vb as int);
            lemma_weighted(w3 as int, vc as int);
            lemma_mean_in_range(
                w1 as int,
                va as int,
                w2 as int,
                vb as int,
                w3 as int,
                vc as int,
            );
        }
        let sum: i128 = w1 * va + w2 * vb + w3 * vc;
        let q: i128 = floor_div(sum, det);
        q as i64
    } else {
        if w1 > 0 || w2 > 0 || w3 > 0 {
            return NODATA;
        }
        let n1: i128 = -w1;
        let n2: i128 = -w2;
        let n3: i128 = -w3;
        let pos: i128 = -det;
        proof {
            lemma_weighted(n1 as int, va as int);
            lemma_weighted(n2 as int, vb as int);
            lemma_weighted(n3 as int, vc as int);
            lemma_mean_in_range(
                n1 as int,
                va as int,
                n2 as int,
                vb as int,
                n3 as int,
                vc as int,
            );
            assert(n1 * va + n2 * vb + n3 * vc == -(w1 * va + w2 * vb + w3 * vc))
                by (nonlinear_arith)
                requires
                    n1 == -w1,
                    n2 == -w2,
                    n3 == -w3,
            ;
        }
        let sum: i128 = n1 * va + n2 * vb + n3 * vc;
        let q: i128 = floor_div(sum, pos);
        q as i64
    }
}

fn edge_sample(a: &Point, b: &Point, x: i64, y: i64) -> (v: i64)
    requires
        in_range(x as int),
        in_range(y as int),
    ensures
        v == edge_value(a@, b@, x as int, y as int),
{
    let ax: i128 = a.x() as i128;
    let ay: i128 = a.y() as i128;
    let bx: i128 = b.x() as i128;
    let by: i128 = b.y() as i128;
    let px: i128 = x as i128;
    let py: i128 = y as i128;
    proof {
        lemma_span_product(bx - ax, bx - ax);
        lemma_span_product(by - ay, by - ay);
        lemma_span_product(px - ax, bx - ax);
        lemma_span_product(py - ay, by - ay);
    }
    let len: i128 = (bx - ax) * (bx - ax) + (by - ay) * (by - ay);
    let along: i128 = (px - ax) * (bx - ax) + (py - ay) * (by - ay);
    if len <= 0 || along < 0 || along > len {
        return NODATA;
    }
    let va: i128 = a.value() as i128;
    let vb: i128 = b.value() as i128;
    proof {
        lemma_weighted(len - along, va as int);
        lemma_weighted(along as int, vb as int);
        lemma_mean_in_range(len - along, va as int, along as int, vb as int, 0, 0);
    }
    let sum: i128 = (len - along) * va + along * vb;
    let q: i128 = floor_div(sum, len);
    q as i64
}

/// The value of a raster cell whose sample position `(x, y)` lies at
/// `located`. A position that `located` does not hold, or one out of the
/// range of coordinates, has no value.
pub fn sample_cell(located: &Located, x: i128, y: i128) -> (v: i64)
    ensures
        v == cell_value(*located, x as int, y as int),
{
    if x < -(LIMIT as i128) || x > LIMIT as i128 || y < -(LIMIT as i128) || y > LIMIT as i128 {
        return NODATA;
    }
    let px: i64 = x as i64;
    let py: i64 = y as i64;
    match located {
        Located::Vertex(a) => {
            if a.x() == px && a.y() == py {
                a.value()
            } else {
                NODATA
            }
        },
        Located::Edge(a, b) => edge_sample(a, b, px, py),
        Located::Face(a, b, c) => face_sample(a, b, c, px, py),
        Located::Outside => NODATA,
    }
}

/// The number of cells of the given size that cover an axis from `min` to
/// `max`; none where the size is not positive or the axis has no length.
pub open spec fn cells_along(min: int, max: int, res: int) -> int {
    if res > 0 && max > min {
        ceil_ratio(max - min, res)
    } else {
        0
    }
}

/// A count of cells as the machine holds it.
pub open spec fn capped(n: int) -> int {
    if n > usize::MAX {
        usize::MAX as int
    } else {
        n
    }
}

/// The number of columns of the raster.
pub open spec fn raster_width(bounds: Bounds, res: int) -> int {
    capped(cells_along(bounds.min.x as int, bounds.max.x as int, res))
}

/// The number of rows of the raster.
pub open spec fn raster_height(bounds: Bounds, res: int) -> int {
    capped(cells_along(bounds.min.y as int, bounds.max.y as int, res))
}

/// The sample position of a column or a row: the lower end of the axis,
/// rounded to a whole unit, and one cell size for each step.
pub open spec fn sample_coordinate(min: int, res: int, index: int) -> int {
    rounded(min) + res * index
}

proof fn lemma_cells_along(min: int, max: int, res: int)
    requires
        res > 0,
        max > min,
    ensures
        cells_along(min, max, res) >= 1,
        res * (cells_along(min, max, res) - 1) < max - min <= res * cells_along(min, max, res),
{
    let n = max - min;
    let q = (-n) / res;
    lemma_fundamental_div_mod(-n, res);
    assert(res * (-q - 1) < n <= res * (-q)) by (nonlinear_arith)
        requires
            -n == res * q + (-n) % res,
            0 <= (-n) % res < res,
    ;
    assert(-q >= 1) by (nonlinear_arith)
        requires
            n <= res * (-q),
            n > 0,
            res > 0,
    ;
}

fn count_cells(min: i64, max: i64, res: i64) -> (n: usize)
    ensures
        n == capped(cells_along(min as int, max as int, res as int)),
{
    if res <= 0 || max <= min {
        return 0;
    }
    let q: i128 = ceil_div(max as i128 - min as i128, res as i128);
    proof {
        lemma_cells_along(min as int, max as int, res as int);
    }
    if q > usize::MAX as i128 {
        usize::MAX
    } else {
        q as usize
    }
}

/// The size of the raster that covers `bounds` with cells of size `res`:
/// its width and its height, in cells.
pub fn get_raster_size(bounds: &Bounds, res: i64) -> (size: (usize, usize))
    ensures
        size.0 == raster_width(*bounds, res as int),
        size.1 == raster_height(*bounds, res as int),
{
    (count_cells(bounds.min.x, bounds.max.x, res), count_cells(bounds.min.y, bounds.max.y, res))
}

fn coordinate(min: i64, max: i64, res: i64, index: usize) -> (c: i128)
    requires
        index < capped(cells_along(min as int, max as int, res as int)),
    ensures
        c == sample_coordinate(min as int, res as int, index as int),
{
    proof {
        lemma_cells_along(min as int, max as int, res as int);
        assert(0 <= res * index < max - min) by (nonlinear_arith)
            requires
                res > 0,
                0 <= index <= cells_along(min as int, max as int, res as int) - 1,
                res * (cells_along(min as int, max as int, res as int) - 1) < max - min,
        ;
    }
    let base: i128 = round_to_whole(min);
    let step: i128 = res as i128 * index as i128;
    base + step
}

/// The position at which the cell in the given column and row is sampled:
/// the lower left corner of the cell, counted from the lower left corner of
/// `bounds` rounded to whole units. A cell outside the raster has none.
pub fn sample_position(bounds: &Bounds, res: i64, column: usize, row: usize) -> (p: Option<
    (i128, i128),
>)
    ensures
        p.is_some() <==> column < raster_width(*bounds, res as int) && row < raster_height(
            *bounds,
            res as int,
        ),
        p matches Some(at) ==> at.0 == sample_coordinate(
            bounds.min.x as int,
            res as int,
            column as int,
        ) && at.1 == sample_coordinate(bounds.min.y as int, res as int, row as int),
{
    let size: (usize, usize) = get_raster_size(bounds, res);
    if column < size.0 && row < size.1 {
        Some(
            (
                coordinate(bounds.min.x, bounds.max.x, res, column),
                coordinate(bounds.min.y, bounds.max.y, res, row),
            ),
        )
    } else {
        None
    }
}

/// The value of the cell with the given index, counted row by row.
pub open spec fn raster_value(bounds: Bounds, res: int, cells: Seq<Located>, i: int) -> int {
    let width = raster_width(bounds, res);
    cell_value(
        cells[i],
        sample_coordinate(bounds.min.x as int, res, i % width),
        sample_coordinate(bounds.min.y as int, res, i / width),
    )
}

/// Samples the surface into a raster, row by row from the lowest row up and
/// in each row from the lowest column up. `cells` says for each cell, in
/// that order, where its sample position lies in the triangulation. It
/// fails where `cells` are not as many as the raster has cells.
pub fn sample_raster(bounds: &Bounds, res: i64, cells: &Vec<Located>) -> (r: Result<
    Vec<i64>,
    Error,
>)
    ensures
        r.is_ok() <==> cells@.len() == raster_width(*bounds, res as int) * raster_height(
            *bounds,
            res as int,
        ),
        r matches Ok(values) ==> {
            &&& values@.len() == cells@.len()
            &&& forall|i: int|
                0 <= i < values@.len() ==> values@[i] == #[trigger] raster_value(
                    *bounds,
                    res as int,
                    cells@,
                    i,
                )
        },
        r matches Err(e) ==> e is ShouldntHappen,
{
    let size: (usize, usize) = get_raster_size(bounds, res);
    let width: usize = size.0;
    let height: usize = size.1;
    assert(0 <= width * height <= 0xffff_ffff_ffff_ffff * 0xffff_ffff_ffff_ffff)
        by (nonlinear_arith)
        requires
            0 <= width <= 0xffff_ffff_ffff_ffff,
            0 <= height <= 0xffff_ffff_ffff_ffff,
    ;
    let total: u128 = width as u128 * height as u128;
    if cells.len() as u128 != total {
        return Err(
            Error::ShouldntHappen(
                String::from_str("the cells located are not as many as the cells of the raster"),
            ),
        );
    }
    let mut values: Vec<i64> = Vec::new();
    let mut row: usize = 0;
    while row < height
        invariant
            row <= height,
            width == raster_width(*bounds, res as int),
            height == raster_height(*bounds, res as int),
            cells@.len() == width * height,
            values@.len() == row * width,
            forall|i: int|
                0 <= i < values@.len() ==> values@[i] == #[trigger] raster_value(
                    *bounds,
                    res as int,
                    cells@,
                    i,
                ),
        decreases height - row,
    {
        let mut column: usize = 0;
        let y: i128 = coordinate(bounds.min.y, bounds.max.y, res, row);
        while column < width
            invariant
                row < height,
                column <= width,
                width == raster_width(*bounds, res as int),
                height == raster_height(*bounds, res as int),
                cells@.len() == width * height,
                values@.len() == row * width + column,
                y == sample_coordinate(bounds.min.y as int, res as int, row as int),
                forall|i: int|
                    0 <= i < values@.len() ==> values@[i] == #[trigger] raster_value(
                        *bounds,
                        res as int,
                        cells@,
                        i,
                    ),
            decreases width - column,
        {
            let x: i128 = coordinate(bounds.min.x, bounds.max.x, res, column);
            proof {
                assert(row * width + column < width * height) by (nonlinear_arith)
                    requires
                        0 <= row < height,
                        0 <= column < width,
                ;
                lemma_fundamental_div_mod_converse(
                    row * width + column,
                    width as int,
                    row as int,
                    column as int,
                );
            }
            let i: usize = values.len();
            let v: i64 = sample_cell(&cells[i], x, y);
            values.push(v);
            column = column + 1;
        }
        proof {
            assert((row + 1) * width == row * width + width) by (nonlinear_arith);
        }
        row = row + 1;
    }
    proof {
        assert(height * width == width * height) by (nonlinear_arith);
    }
    Ok(values)
}

} // verus!
