use vstd::prelude::*;

verus! {

/// Screen positions are held in fixed point: this many units per pixel.
pub const SUBPIXEL_SCALE: i64 = 256;

/// Bound on the magnitude of every fixed-point coordinate the rasterizer
/// accepts; it keeps each edge function well inside `i64`.
pub const COORD_LIMIT: i64 = 0x400_0000;

/// A screen-space position in units of 1/256 pixel. Pixel (x, y) is sampled
/// at (x * 256, y * 256).
#[derive(Clone, Copy, PartialEq, Eq, Structural, Debug)]
pub struct ScreenPoint {
    pub x: i64,
    pub y: i64,
}

impl ScreenPoint {
    pub open spec fn in_range(&self) -> bool {
        -COORD_LIMIT <= self.x <= COORD_LIMIT && -COORD_LIMIT <= self.y <= COORD_LIMIT
    }
}

/// The edge function of the directed edge a -> b at point (px, py): the
/// perpendicular dot product `(b - a) x (p - a)`, positive when p lies to the
/// left of the edge, that is on the counter-clockwise side.
pub open spec fn edge_at(a: ScreenPoint, b: ScreenPoint, px: int, py: int) -> int {
    (b.x - a.x) * (py - a.y) - (b.y - a.y) * (px - a.x)
}

/// Twice the signed area of the triangle, positive for counter-clockwise order.
pub open spec fn area_of(p0: ScreenPoint, p1: ScreenPoint, p2: ScreenPoint) -> int {
    edge_at(p0, p1, p2.x as int, p2.y as int)
}

/// The fixed-point sample position of pixel coordinate `c`.
pub open spec fn sample(c: int) -> int {
    c * SUBPIXEL_SCALE
}

/// Pixel (x, y) is covered: the triangle has positive area and the pixel's
/// sample is on the inner side of all three edges (ties count as inside).
pub open spec fn covers(p0: ScreenPoint, p1: ScreenPoint, p2: ScreenPoint, x: int, y: int) -> bool {
    &&& area_of(p0, p1, p2) > 0
    &&& edge_at(p0, p1, sample(x), sample(y)) >= 0
    &&& edge_at(p1, p2, sample(x), sample(y)) >= 0
    &&& edge_at(p2, p0, sample(x), sample(y)) >= 0
}

/// Scan order: rows bottom to top, each row left to right.
pub open spec fn scan_key(x: int, y: int) -> int {
    y * 0x1_0000 + x
}

/// A covered pixel and the three edge functions at its sample: `efa` of
/// p0 -> p1, `efb` of p1 -> p2, `efc` of p2 -> p0. Divided by the area, (efb,
/// efc, efa) are the barycentric weights of (p0, p1, p2).
#[derive(Clone, Copy, PartialEq, Eq, Structural, Debug)]
pub struct Fragment {
    pub x: u16,
    pub y: u16,
    pub efa: i64,
    pub efb: i64,
    pub efc: i64,
}

/// The fragment of pixel (x, y) for the triangle, when the pixel is covered.
pub open spec fn fragment_matches(
    f: Fragment,
    p0: ScreenPoint,
    p1: ScreenPoint,
    p2: ScreenPoint,
) -> bool {
    &&& covers(p0, p1, p2, f.x as int, f.y as int)
    &&& f.efa == edge_at(p0, p1, sample(f.x as int), sample(f.y as int))
    &&& f.efb == edge_at(p1, p2, sample(f.x as int), sample(f.y as int))
    &&& f.efc == edge_at(p2, p0, sample(f.x as int), sample(f.y as int))
}

proof fn lemma_mul_bound(u: int, v: int, bu: int, bv: int)
    requires
        -bu <= u <= bu,
        -bv <= v <= bv,
    ensures
        -(bu * bv) <= u * v <= bu * bv,
{
    assert(-(bu * bv) <= u * v <= bu * bv) by (nonlinear_arith)
        requires
            -bu <= u <= bu,
            -bv <= v <= bv,
    ;
}

proof fn lemma_edge_bound(a: ScreenPoint, b: ScreenPoint, px: int, py: int)
    requires
        a.in_range(),
        b.in_range(),
        -COORD_LIMIT <= px <= COORD_LIMIT,
        -COORD_LIMIT <= py <= COORD_LIMIT,
    ensures
        -0x40_0000_0000_0000 <= (b.x - a.x) * (py - a.y) <= 0x40_0000_0000_0000,
        -0x40_0000_0000_0000 <= (b.y - a.y) * (px - a.x) <= 0x40_0000_0000_0000,
        -0x80_0000_0000_0000 <= edge_at(a, b, px, py) <= 0x80_0000_0000_0000,
{
    lemma_mul_bound(b.x - a.x, py - a.y, 0x800_0000, 0x800_0000);
    lemma_mul_bound(b.y - a.y, px - a.x, 0x800_0000, 0x800_0000);
}

/// The edge function of a -> b at (px, py).
pub fn signed_area(a: ScreenPoint, b: ScreenPoint, px: i64, py: i64) -> (r: i64)
    requires
        a.in_range(),
        b.in_range(),
        -COORD_LIMIT <= px <= COORD_LIMIT,
        -COORD_LIMIT <= py <= COORD_LIMIT,
    ensures
        r == edge_at(a, b, px as int, py as int),
{
    proof {
        lemma_edge_bound(a, b, px as int, py as int);
    }
    (b.x - a.x) * (py - a.y) - (b.y - a.y) * (px - a.x)
}

/// Twice the signed area of (p0, p1, p2): positive for counter-clockwise order,
/// zero for a degenerate triangle.
pub fn tri_area_signed_squared(p0: ScreenPoint, p1: ScreenPoint, p2: ScreenPoint) -> (r: i64)
    requires
        p0.in_range(),
        p1.in_range(),
        p2.in_range(),
    ensures
        r == area_of(p0, p1, p2),
{
    signed_area(p0, p1, p2.x, p2.y)
}

proof fn lemma_edge_step(a: ScreenPoint, b: ScreenPoint, px: int, py: int)
    ensures
        edge_at(a, b, px + SUBPIXEL_SCALE, py) == edge_at(a, b, px, py) + (a.y - b.y)
            * SUBPIXEL_SCALE,
        edge_at(a, b, px, py + SUBPIXEL_SCALE) == edge_at(a, b, px, py) - (a.x - b.x)
            * SUBPIXEL_SCALE,
{
    assert(edge_at(a, b, px + 256, py) == edge_at(a, b, px, py) + (a.y - b.y) * 256)
        by (nonlinear_arith);
    assert(edge_at(a, b, px, py + 256) == edge_at(a, b, px, py) - (a.x - b.x) * 256)
        by (nonlinear_arith);
}

/// Edge functions at a point, written with coordinates relative to it.
proof fn lemma_edge_relative(a: ScreenPoint, b: ScreenPoint, px: int, py: int)
    ensures
        edge_at(a, b, px, py) == (a.x - px) * (b.y - py) - (b.x - px) * (a.y - py),
{
    let (ax, ay, bx, by) = (a.x as int - px, a.y as int - py, b.x as int - px, b.y as int - py);
    assert((bx - ax) * (0 - ay) - (by - ay) * (0 - ax) == ax * by - bx * ay) by (nonlinear_arith);
}

proof fn lemma_area_cross(x0: int, y0: int, x1: int, y1: int, x2: int, y2: int)
    ensures
        (x1 - x0) * (y2 - y0) - (y1 - y0) * (x2 - x0) == (x0 * y1 - x1 * y0) + (x1 * y2 - x2
            * y1) + (x2 * y0 - x0 * y2),
{
    assert((x1 - x0) * (y2 - y0) - (y1 - y0) * (x2 - x0) == (x0 * y1 - x1 * y0) + (x1 * y2 - x2
        * y1) + (x2 * y0 - x0 * y2)) by (nonlinear_arith);
}

/// The area, written with coordinates relative to the point (px, py).
proof fn lemma_area_relative(p0: ScreenPoint, p1: ScreenPoint, p2: ScreenPoint, px: int, py: int)
    ensures
        area_of(p0, p1, p2) == ((p0.x - px) * (p1.y - py) - (p1.x - px) * (p0.y - py)) + ((p1.x
            - px) * (p2.y - py) - (p2.x - px) * (p1.y - py)) + ((p2.x - px) * (p0.y - py) - (
        p0.x - px) * (p2.y - py)),
{
    let (x0, y0) = (p0.x as int - px, p0.y as int - py);
    let (x1, y1) = (p1.x as int - px, p1.y as int - py);
    let (x2, y2) = (p2.x as int - px, p2.y as int - py);
    assert(p1.x - p0.x == x1 - x0);
    assert(p2.y - p0.y == y2 - y0);
    assert(p1.y - p0.y == y1 - y0);
    assert(p2.x - p0.x == x2 - x0);
    lemma_area_cross(x0, y0, x1, y1, x2, y2);
}

/// Weighted by the three edge functions at a point, the vertices' offsets
/// from that point cancel.
proof fn lemma_offsets_cancel(x0: int, y0: int, x1: int, y1: int, x2: int, y2: int)
    ensures
        x0 * (x1 * y2 - x2 * y1) + x1 * (x2 * y0 - x0 * y2) + x2 * (x0 * y1 - x1 * y0) == 0,
        y0 * (x1 * y2 - x2 * y1) + y1 * (x2 * y0 - x0 * y2) + y2 * (x0 * y1 - x1 * y0) == 0,
{
    assert(x0 * (x1 * y2 - x2 * y1) + x1 * (x2 * y0 - x0 * y2) + x2 * (x0 * y1 - x1 * y0) == 0)
        by (nonlinear_arith);
    assert(y0 * (x1 * y2 - x2 * y1) + y1 * (x2 * y0 - x0 * y2) + y2 * (x0 * y1 - x1 * y0) == 0)
        by (nonlinear_arith);
}

/// A sample on the inner side of all three edges of a triangle with positive
/// area lies within the triangle's bounding box.
pub proof fn lemma_covered_in_box(p0: ScreenPoint, p1: ScreenPoint, p2: ScreenPoint, px: int, py: int)
    requires
        area_of(p0, p1, p2) > 0,
        edge_at(p0, p1, px, py) >= 0,
        edge_at(p1, p2, px, py) >= 0,
        edge_at(p2, p0, px, py) >= 0,
    ensures
        px >= p0.x || px >= p1.x || px >= p2.x,
        px <= p0.x || px <= p1.x || px <= p2.x,
        py >= p0.y || py >= p1.y || py >= p2.y,
        py <= p0.y || py <= p1.y || py <= p2.y,
{
    let (x0, y0) = (p0.x as int - px, p0.y as int - py);
    let (x1, y1) = (p1.x as int - px, p1.y as int - py);
    let (x2, y2) = (p2.x as int - px, p2.y as int - py);
    lemma_edge_relative(p0, p1, px, py);
    lemma_edge_relative(p1, p2, px, py);
    lemma_edge_relative(p2, p0, px, py);
    let wa = x0 * y1 - x1 * y0;
    let wb = x1 * y2 - x2 * y1;
    let wc = x2 * y0 - x0 * y2;
    let area = area_of(p0, p1, p2);
    lemma_area_relative(p0, p1, p2, px, py);
    lemma_offsets_cancel(x0, y0, x1, y1, x2, y2);
    lemma_weighted_between(wb, wc, wa, x0, x1, x2, 0, area);
    lemma_weighted_between(wb, wc, wa, y0, y1, y2, 0, area);
}

/// A positive-weight average of three values lies between their extremes.
proof fn lemma_weighted_between(
    w0: int,
    w1: int,
    w2: int,
    v0: int,
    v1: int,
    v2: int,
    v: int,
    total: int,
)
    requires
        w0 >= 0,
        w1 >= 0,
        w2 >= 0,
        w0 + w1 + w2 == total,
        total > 0,
        w0 * v0 + w1 * v1 + w2 * v2 == total * v,
    ensures
        v >= v0 || v >= v1 || v >= v2,
        v <= v0 || v <= v1 || v <= v2,
{
    if v < v0 && v < v1 && v < v2 {
        assert(w0 * v0 + w1 * v1 + w2 * v2 >= w0 * (v + 1) + w1 * (v + 1) + w2 * (v + 1))
            by (nonlinear_arith)
            requires
                w0 >= 0,
                w1 >= 0,
                w2 >= 0,
                v0 >= v + 1,
                v1 >= v + 1,
                v2 >= v + 1,
        ;
        assert(w0 * (v + 1) + w1 * (v + 1) + w2 * (v + 1) == total * v + total)
            by (nonlinear_arith)
            requires
                w0 + w1 + w2 == total,
        ;
    }
    if v > v0 && v > v1 && v > v2 {
        assert(w0 * v0 + w1 * v1 + w2 * v2 <= w0 * (v - 1) + w1 * (v - 1) + w2 * (v - 1))
            by (nonlinear_arith)
            requires
                w0 >= 0,
                w1 >= 0,
                w2 >= 0,
                v0 <= v - 1,
                v1 <= v - 1,
                v2 <= v - 1,
        ;
        assert(w0 * (v - 1) + w1 * (v - 1) + w2 * (v - 1) == total * v - total)
            by (nonlinear_arith)
            requires
                w0 + w1 + w2 == total,
        ;
    }
}

pub open spec fn min3(a: int, b: int, c: int) -> int {
    if a <= b && a <= c {
        a
    } else if b <= c {
        b
    } else {
        c
    }
}

pub open spec fn max3(a: int, b: int, c: int) -> int {
    if a >= b && a >= c {
        a
    } else if b >= c {
        b
    } else {
        c
    }
}

/// First pixel coordinate of the bounding box of three fixed-point
/// coordinates, clamped to the buffer's first pixel.
pub open spec fn box_lo(a: int, b: int, c: int) -> int {
    if min3(a, b, c) <= 0 {
        0
    } else {
        min3(a, b, c) / SUBPIXEL_SCALE as int
    }
}

/// Last pixel coordinate of the bounding box of three fixed-point coordinates,
/// clamped to the last pixel `limit - 1`; -1 when all three are negative.
pub open spec fn box_hi(a: int, b: int, c: int, limit: int) -> int {
    if max3(a, b, c) < 0 {
        -1
    } else if max3(a, b, c) / SUBPIXEL_SCALE as int <= limit - 1 {
        max3(a, b, c) / SUBPIXEL_SCALE as int
    } else {
        limit - 1
    }
}

fn pixel_lo(a: i64, b: i64, c: i64) -> (r: i64)
    requires
        -COORD_LIMIT <= a <= COORD_LIMIT,
        -COORD_LIMIT <= b <= COORD_LIMIT,
        -COORD_LIMIT <= c <= COORD_LIMIT,
    ensures
        r == box_lo(a as int, b as int, c as int),
        0 <= r <= COORD_LIMIT / SUBPIXEL_SCALE,
{
    let m = if a <= b && a <= c {
        a
    } else if b <= c {
        b
    } else {
        c
    };
    if m <= 0 {
        0
    } else {
        m / SUBPIXEL_SCALE
    }
}

fn pixel_hi(a: i64, b: i64, c: i64, limit: u16) -> (r: i64)
    requires
        -COORD_LIMIT <= a <= COORD_LIMIT,
        -COORD_LIMIT <= b <= COORD_LIMIT,
        -COORD_LIMIT <= c <= COORD_LIMIT,
        limit >= 1,
    ensures
        r == box_hi(a as int, b as int, c as int, limit as int),
        -1 <= r < limit,
{
    let m = if a >= b && a >= c {
        a
    } else if b >= c {
        b
    } else {
        c
    };
    if m < 0 {
        -1
    } else if m / SUBPIXEL_SCALE <= limit as i64 - 1 {
        m / SUBPIXEL_SCALE
    } else {
        limit as i64 - 1
    }
}

/// A covered pixel of the buffer lies within the clamped pixel bounding box.
proof fn lemma_covered_in_pixel_box(
    p0: ScreenPoint,
    p1: ScreenPoint,
    p2: ScreenPoint,
    x: int,
    y: int,
    width: int,
    height: int,
)
    requires
        covers(p0, p1, p2, x, y),
        0 <= x < width,
        0 <= y < height,
    ensures
        box_lo(p0.x as int, p1.x as int, p2.x as int) <= x <= box_hi(
            p0.x as int,
            p1.x as int,
            p2.x as int,
            width,
        ),
        box_lo(p0.y as int, p1.y as int, p2.y as int) <= y <= box_hi(
            p0.y as int,
            p1.y as int,
            p2.y as int,
            height,
        ),
{
    lemma_covered_in_box(p0, p1, p2, sample(x), sample(y));
    lemma_sample_between(p0.x as int, p1.x as int, p2.x as int, x, width);
    lemma_sample_between(p0.y as int, p1.y as int, p2.y as int, y, height);
}

proof fn lemma_sample_between(a: int, b: int, c: int, x: int, limit: int)
    requires
        sample(x) >= a || sample(x) >= b || sample(x) >= c,
        sample(x) <= a || sample(x) <= b || sample(x) <= c,
        0 <= x < limit,
    ensures
        box_lo(a, b, c) <= x <= box_hi(a, b, c, limit),
{
    let lo = min3(a, b, c);
    let hi = max3(a, b, c);
    assert(lo <= x * 256 <= hi);
    if lo > 0 {
        assert(lo / 256 <= x) by (nonlinear_arith)
            requires
                lo <= x * 256,
                lo > 0,
        ;
    }
    assert(hi >= 0);
    assert(x <= hi / 256) by (nonlinear_arith)
        requires
            x * 256 <= hi,
            x >= 0,
    ;
}

/// Walks the pixel bounding box of a screen-space triangle, clamped to a
/// `width` x `height` buffer, row by row from the bottom and left to right
/// within a row, keeping the three edge functions up to date by one addition
/// per pixel. Lists every covered pixel of the buffer, in that order, with its
/// edge functions. A triangle of zero area, or one in clockwise order, covers
/// nothing.
pub fn rasterize_triangle(
    p0: ScreenPoint,
    p1: ScreenPoint,
    p2: ScreenPoint,
    width: u16,
    height: u16,
) -> (r: Vec<Fragment>)
    requires
        p0.in_range(),
        p1.in_range(),
        p2.in_range(),
    ensures
        forall|k: int|
            0 <= k < r@.len() ==> {
                &&& fragment_matches(#[trigger] r@[k], p0, p1, p2)
                &&& r@[k].x < width
                &&& r@[k].y < height
            },
        forall|x: int, y: int|
            0 <= x < width && 0 <= y < height && #[trigger] covers(p0, p1, p2, x, y) ==> exists|
                k: int,
            |
                0 <= k < r@.len() && (#[trigger] r@[k]).x == x && r@[k].y == y,
        forall|j: int, k: int|
            0 <= j < k < r@.len() ==> scan_key((#[trigger] r@[j]).x as int, r@[j].y as int)
                < scan_key((#[trigger] r@[k]).x as int, r@[k].y as int),
        area_of(p0, p1, p2) <= 0 ==> r@.len() == 0,
{
    let mut frags: Vec<Fragment> = Vec::new();
    if width == 0 || height == 0 {
        return frags;
    }
    let area = tri_area_signed_squared(p0, p1, p2);
    if area <= 0 {
        return frags;
    }
    let min_x = pixel_lo(p0.x, p1.x, p2.x);
    let max_x = pixel_hi(p0.x, p1.x, p2.x, width);
    let min_y = pixel_lo(p0.y, p1.y, p2.y);
    let max_y = pixel_hi(p0.y, p1.y, p2.y, height);
    proof {
        assert forall|x: int, y: int|
            0 <= x < width && 0 <= y < height && #[trigger] covers(p0, p1, p2, x, y) implies min_x
                <= x <= max_x && min_y <= y <= max_y by {
            lemma_covered_in_pixel_box(p0, p1, p2, x, y, width as int, height as int);
        }
    }
    if min_x > max_x || min_y > max_y {
        return frags;
    }
    // Moving one pixel right adds `step_*x`; one pixel up adds `step_*y`.
    let step_ax = (p0.y - p1.y) * SUBPIXEL_SCALE;
    let step_ay = (p1.x - p0.x) * SUBPIXEL_SCALE;
    let step_bx = (p1.y - p2.y) * SUBPIXEL_SCALE;
    let step_by = (p2.x - p1.x) * SUBPIXEL_SCALE;
    let step_cx = (p2.y - p0.y) * SUBPIXEL_SCALE;
    let step_cy = (p0.x - p2.x) * SUBPIXEL_SCALE;
    let mut efa = signed_area(p0, p1, min_x * SUBPIXEL_SCALE, min_y * SUBPIXEL_SCALE);
    let mut efb = signed_area(p1, p2, min_x * SUBPIXEL_SCALE, min_y * SUBPIXEL_SCALE);
    let mut efc = signed_area(p2, p0, min_x * SUBPIXEL_SCALE, min_y * SUBPIXEL_SCALE);
    let mut y: i64 = min_y;
    while y <= max_y
        invariant
            p0.in_range(),
            p1.in_range(),
            p2.in_range(),
            area_of(p0, p1, p2) > 0,
            0 <= min_x <= max_x < width,
            0 <= min_y <= max_y < height,
            min_y <= y <= max_y + 1,
            step_ax == (p0.y - p1.y) * SUBPIXEL_SCALE,
            step_ay == (p1.x - p0.x) * SUBPIXEL_SCALE,
            step_bx == (p1.y - p2.y) * SUBPIXEL_SCALE,
            step_by == (p2.x - p1.x) * SUBPIXEL_SCALE,
            step_cx == (p2.y - p0.y) * SUBPIXEL_SCALE,
            step_cy == (p0.x - p2.x) * SUBPIXEL_SCALE,
            efa == edge_at(p0, p1, sample(min_x as int), sample(y as int)),
            efb == edge_at(p1, p2, sample(min_x as int), sample(y as int)),
            efc == edge_at(p2, p0, sample(min_x as int), sample(y as int)),
            forall|x: int, y: int|
                0 <= x < width && 0 <= y < height && #[trigger] covers(p0, p1, p2, x, y)
                    ==> min_x <= x <= max_x && min_y <= y <= max_y,
            forall|k: int|
                0 <= k < frags@.len() ==> {
                    &&& fragment_matches(#[trigger] frags@[k], p0, p1, p2)
                    &&& frags@[k].x < width
                    &&& frags@[k].y < y
                },
            forall|qx: int, qy: int|
                0 <= qx < width && 0 <= qy < y && #[trigger] covers(p0, p1, p2, qx, qy) ==> exists|
                    k: int,
                |
                    0 <= k < frags@.len() && (#[trigger] frags@[k]).x == qx && frags@[k].y == qy,
            forall|j: int, k: int|
                0 <= j < k < frags@.len() ==> scan_key(
                    (#[trigger] frags@[j]).x as int,
                    frags@[j].y as int,
                ) < scan_key((#[trigger] frags@[k]).x as int, frags@[k].y as int),
        decreases max_y + 1 - y,
    {
        proof {
            lemma_edge_bound(p0, p1, sample(min_x as int), sample(y as int));
            lemma_edge_bound(p1, p2, sample(min_x as int), sample(y as int));
            lemma_edge_bound(p2, p0, sample(min_x as int), sample(y as int));
        }
        // Edge functions at the start of this row, to step up from.
        let row_a = efa;
        let row_b = efb;
        let row_c = efc;
        let mut x: i64 = min_x;
        while x <= max_x
            invariant
                p0.in_range(),
                p1.in_range(),
                p2.in_range(),
                area_of(p0, p1, p2) > 0,
                0 <= min_x <= max_x < width,
                0 <= min_y <= y <= max_y < height,
                min_x <= x <= max_x + 1,
                step_ax == (p0.y - p1.y) * SUBPIXEL_SCALE,
                step_bx == (p1.y - p2.y) * SUBPIXEL_SCALE,
                step_cx == (p2.y - p0.y) * SUBPIXEL_SCALE,
                efa == edge_at(p0, p1, sample(x as int), sample(y as int)),
                efb == edge_at(p1, p2, sample(x as int), sample(y as int)),
                efc == edge_at(p2, p0, sample(x as int), sample(y as int)),
                forall|x: int, y: int|
                    0 <= x < width && 0 <= y < height && #[trigger] covers(p0, p1, p2, x, y)
                        ==> min_x <= x <= max_x && min_y <= y <= max_y,
                forall|k: int|
                    0 <= k < frags@.len() ==> {
                        &&& fragment_matches(#[trigger] frags@[k], p0, p1, p2)
                        &&& frags@[k].x < width
                        &&& frags@[k].y <= y
                        &&& scan_key(frags@[k].x as int, frags@[k].y as int) < scan_key(
                            x as int,
                            y as int,
                        )
                    },
                forall|qx: int, qy: int|
                    0 <= qx < width && 0 <= qy < height && #[trigger] covers(p0, p1, p2, qx, qy)
                        && (qy < y || (qy == y && qx < x)) ==> exists|k: int|
                        0 <= k < frags@.len() && (#[trigger] frags@[k]).x == qx && frags@[k].y
                            == qy,
                forall|j: int, k: int|
                    0 <= j < k < frags@.len() ==> scan_key(
                        (#[trigger] frags@[j]).x as int,
                        frags@[j].y as int,
                    ) < scan_key((#[trigger] frags@[k]).x as int, frags@[k].y as int),
            decreases max_x + 1 - x,
        {
            proof {
                lemma_edge_bound(p0, p1, sample(x as int), sample(y as int));
                lemma_edge_bound(p1, p2, sample(x as int), sample(y as int));
                lemma_edge_bound(p2, p0, sample(x as int), sample(y as int));
                lemma_edge_step(p0, p1, sample(x as int), sample(y as int));
                lemma_edge_step(p1, p2, sample(x as int), sample(y as int));
                lemma_edge_step(p2, p0, sample(x as int), sample(y as int));
            }
            let ghost before = frags@;
            if efa >= 0 && efb >= 0 && efc >= 0 {
                frags.push(Fragment { x: x as u16, y: y as u16, efa, efb, efc });
            }
            proof {
                assert forall|qx: int, qy: int|
                    0 <= qx < width && 0 <= qy < height && #[trigger] covers(p0, p1, p2, qx, qy)
                        && (qy < y || (qy == y && qx < x + 1)) implies exists|k: int|
                        0 <= k < frags@.len() && (#[trigger] frags@[k]).x == qx && frags@[k].y
                            == qy by {
                    if qy == y && qx == x {
                        let k = frags@.len() - 1;
                        assert(frags@[k].x == qx && frags@[k].y == qy);
                    } else {
                        let k = choose|k: int|
                            0 <= k < before.len() && (#[trigger] before[k]).x == qx && before[k].y
                                == qy;
                        assert(frags@[k] == before[k]);
                    }
                }
            }
            efa = efa + step_ax;
            efb = efb + step_bx;
            efc = efc + step_cx;
            x = x + 1;
        }
        proof {
            lemma_edge_step(p0, p1, sample(min_x as int), sample(y as int));
            lemma_edge_step(p1, p2, sample(min_x as int), sample(y as int));
            lemma_edge_step(p2, p0, sample(min_x as int), sample(y as int));
        }
        efa = row_a + step_ay;
        efb = row_b + step_by;
        efc = row_c + step_cy;
        y = y + 1;
    }
    frags
}

/// At each vertex the edge functions give that vertex the whole weight: at
/// p0 the weights (efb, efc, efa) are (area, 0, 0), at p1 (0, area, 0), and
/// at p2 (0, 0, area); so the interpolated value there is the vertex's own.
pub proof fn lemma_weights_at_vertices(p0: ScreenPoint, p1: ScreenPoint, p2: ScreenPoint)
    ensures
        edge_at(p1, p2, p0.x as int, p0.y as int) == area_of(p0, p1, p2),
        edge_at(p2, p0, p0.x as int, p0.y as int) == 0,
        edge_at(p0, p1, p0.x as int, p0.y as int) == 0,
        edge_at(p1, p2, p1.x as int, p1.y as int) == 0,
        edge_at(p2, p0, p1.x as int, p1.y as int) == area_of(p0, p1, p2),
        edge_at(p0, p1, p1.x as int, p1.y as int) == 0,
        edge_at(p1, p2, p2.x as int, p2.y as int) == 0,
        edge_at(p2, p0, p2.x as int, p2.y as int) == 0,
        edge_at(p0, p1, p2.x as int, p2.y as int) == area_of(p0, p1, p2),
{
    let (x0, y0, x1, y1, x2, y2) = (
        p0.x as int,
        p0.y as int,
        p1.x as int,
        p1.y as int,
        p2.x as int,
        p2.y as int,
    );
    assert((x2 - x1) * (y0 - y1) - (y2 - y1) * (x0 - x1) == (x1 - x0) * (y2 - y0) - (y1 - y0) * (
    x2 - x0)) by (nonlinear_arith);
    assert((x0 - x2) * (y1 - y2) - (y0 - y2) * (x1 - x2) == (x1 - x0) * (y2 - y0) - (y1 - y0) * (
    x2 - x0)) by (nonlinear_arith);
    assert((x0 - x2) * (y0 - y2) - (y0 - y2) * (x0 - x2) == 0) by (nonlinear_arith);
    assert((x1 - x0) * (y0 - y0) - (y1 - y0) * (x0 - x0) == 0) by (nonlinear_arith);
    assert((x2 - x1) * (y1 - y1) - (y2 - y1) * (x1 - x1) == 0) by (nonlinear_arith);
    assert((x1 - x0) * (y1 - y0) - (y1 - y0) * (x1 - x0) == 0) by (nonlinear_arith);
    assert((x2 - x1) * (y2 - y1) - (y2 - y1) * (x2 - x1) == 0) by (nonlinear_arith);
    assert((x0 - x2) * (y2 - y2) - (y0 - y2) * (x2 - x2) == 0) by (nonlinear_arith);
}

/// The three edge functions at any point add up to the triangle's area: where
/// all three are non-negative they are barycentric weights scaled by the area.
pub proof fn lemma_edges_sum_to_area(p0: ScreenPoint, p1: ScreenPoint, p2: ScreenPoint, px: int, py: int)
    ensures
        edge_at(p0, p1, px, py) + edge_at(p1, p2, px, py) + edge_at(p2, p0, px, py) == area_of(
            p0,
            p1,
            p2,
        ),
{
    lemma_edge_relative(p0, p1, px, py);
    lemma_edge_relative(p1, p2, px, py);
    lemma_edge_relative(p2, p0, px, py);
    lemma_area_relative(p0, p1, p2, px, py);
}

} // verus!
