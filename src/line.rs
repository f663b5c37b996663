use vstd::prelude::*;

use vstd::arithmetic::div_mod::lemma_fundamental_div_mod_converse;

verus! {

pub open spec fn abs(v: int) -> int {
    if v >= 0 {
        v
    } else {
        -v
    }
}

/// `v` lies between `lo` and `hi`, in either order.
pub open spec fn between(v: int, lo: int, hi: int) -> bool {
    (lo <= v <= hi) || (hi <= v <= lo)
}

/// The line is steeper than diagonal, so it advances one row per step.
pub open spec fn drives_y(x0: int, y0: int, x1: int, y1: int) -> bool {
    abs(y1 - y0) > abs(x1 - x0)
}

/// Endpoints as (driving, minor) pairs, ordered so that the driving coordinate
/// does not decrease: `(a0, b0, a1, b1)`.
pub open spec fn driving_ends(x0: int, y0: int, x1: int, y1: int) -> (int, int, int, int) {
    let (a0, b0, a1, b1) = if drives_y(x0, y0, x1, y1) {
        (y0, x0, y1, x1)
    } else {
        (x0, y0, x1, y1)
    };
    if a0 > a1 {
        (a1, b1, a0, b0)
    } else {
        (a0, b0, a1, b1)
    }
}

/// Number of pixels of the line: one per step along the driving axis, from
/// the lower end up to, but not including, the upper end.
pub open spec fn line_len(x0: int, y0: int, x1: int, y1: int) -> int {
    let (a0, b0, a1, b1) = driving_ends(x0, y0, x1, y1);
    a1 - a0
}

/// Pixel `k` of the line from (x0, y0) to (x1, y1): driving coordinate
/// `a0 + k`, and minor coordinate `b0` moved towards `b1` by
/// `floor(k * |b1 - b0| / (a1 - a0))`.
pub open spec fn line_pixel(x0: int, y0: int, x1: int, y1: int, k: int) -> (int, int) {
    let (a0, b0, a1, b1) = driving_ends(x0, y0, x1, y1);
    let m = k * abs(b1 - b0) / (a1 - a0);
    let b = if b1 >= b0 {
        b0 + m
    } else {
        b0 - m
    };
    if drives_y(x0, y0, x1, y1) {
        (b, a0 + k)
    } else {
        (a0 + k, b)
    }
}

proof fn lemma_minor_step(k: int, m: int, dx: int, dy: int, eps: int)
    requires
        0 <= dy <= dx,
        0 < dx,
        0 <= k,
        m * dx <= k * dy < (m + 1) * dx,
        eps == k * dy + dy - m * dx - dx,
    ensures
        eps >= 0 ==> (m + 1) * dx <= (k + 1) * dy < (m + 2) * dx,
        eps < 0 ==> m * dx <= (k + 1) * dy < (m + 1) * dx,
        (k + 1) * dy == k * dy + dy,
        (m + 1) * dx == m * dx + dx,
        (m + 2) * dx == m * dx + dx + dx,
{
    assert((k + 1) * dy == k * dy + dy) by (nonlinear_arith);
    assert((m + 1) * dx == m * dx + dx) by (nonlinear_arith);
    assert((m + 2) * dx == m * dx + dx + dx) by (nonlinear_arith);
}

/// The pixels of a wireframe edge, by Bresenham's algorithm with the driving
/// axis factored out: the longer axis advances one pixel per step and the
/// other follows by integer error accumulation. Equal endpoints give nothing.
pub fn rasterize_line(x0: u16, y0: u16, x1: u16, y1: u16) -> (r: Vec<(u16, u16)>)
    ensures
        r@.len() == line_len(x0 as int, y0 as int, x1 as int, y1 as int),
        forall|k: int|
            0 <= k < r@.len() ==> ((#[trigger] r@[k]).0 as int, r@[k].1 as int) == line_pixel(
                x0 as int,
                y0 as int,
                x1 as int,
                y1 as int,
                k,
            ),
        x0 == x1 && y0 == y1 ==> r@.len() == 0,
        forall|k: int|
            0 <= k < r@.len() ==> between((#[trigger] r@[k]).0 as int, x0 as int, x1 as int)
                && between(r@[k].1 as int, y0 as int, y1 as int),
{
    let mut pixels: Vec<(u16, u16)> = Vec::new();
    if x0 == x1 && y0 == y1 {
        return pixels;
    }
    let (fx0, fy0, fx1, fy1) = (x0 as i64, y0 as i64, x1 as i64, y1 as i64);
    let adx = if fx1 >= fx0 {
        fx1 - fx0
    } else {
        fx0 - fx1
    };
    let ady = if fy1 >= fy0 {
        fy1 - fy0
    } else {
        fy0 - fy1
    };
    let y_long = ady > adx;
    let (mut a0, mut b0, mut a1, mut b1) = if y_long {
        (fy0, fx0, fy1, fx1)
    } else {
        (fx0, fy0, fx1, fy1)
    };
    if a0 > a1 {
        let (ta, tb) = (a0, b0);
        a0 = a1;
        b0 = b1;
        a1 = ta;
        b1 = tb;
    }
    assert((a0 as int, b0 as int, a1 as int, b1 as int) == driving_ends(
        x0 as int,
        y0 as int,
        x1 as int,
        y1 as int,
    ));
    let dx = a1 - a0;
    let dy = b1 - b0;
    let dy_abs = if dy >= 0 {
        dy
    } else {
        -dy
    };
    let sign: i64 = if dy >= 0 {
        1
    } else {
        -1
    };
    let mut eps = dy_abs - dx;
    let mut b = b0;
    let mut a = a0;
    let ghost mut m: int = 0;
    assert(0 * dx == 0 && 0 * dy_abs == 0 && 1 * dx == dx) by (nonlinear_arith);
    while a < a1
        invariant
            0 <= a0 <= a <= a1 <= 0xffff,
            0 <= b0 <= 0xffff,
            0 <= b1 <= 0xffff,
            dx == a1 - a0,
            dx > 0,
            dy == b1 - b0,
            dy_abs == abs(dy as int),
            dy_abs <= dx,
            sign == (if dy >= 0 {
                1int
            } else {
                -1int
            }),
            (a0 as int, b0 as int, a1 as int, b1 as int) == driving_ends(
                x0 as int,
                y0 as int,
                x1 as int,
                y1 as int,
            ),
            y_long == drives_y(x0 as int, y0 as int, x1 as int, y1 as int),
            m * dx <= (a - a0) * dy_abs < (m + 1) * dx,
            0 <= m <= dy_abs,
            eps == (a - a0) * dy_abs + dy_abs - m * dx - dx,
            -dx <= eps < dy_abs,
            b == (if dy >= 0 {
                b0 + m
            } else {
                b0 - m
            }),
            pixels@.len() == a - a0,
            forall|k: int|
                0 <= k < pixels@.len() ==> ((#[trigger] pixels@[k]).0 as int, pixels@[k].1 as int)
                    == line_pixel(x0 as int, y0 as int, x1 as int, y1 as int, k),
            forall|k: int|
                0 <= k < pixels@.len() ==> between(
                    (#[trigger] pixels@[k]).0 as int,
                    x0 as int,
                    x1 as int,
                ) && between(pixels@[k].1 as int, y0 as int, y1 as int),
        decreases a1 - a,
    {
        let ghost k = (a - a0) as int;
        proof {
            lemma_fundamental_div_mod_converse(k * dy_abs, dx as int, m, k * dy_abs - m * dx);
            assert(k * dy_abs <= dx * dy_abs) by (nonlinear_arith)
                requires
                    k < dx,
                    dy_abs >= 0,
                    0 <= k,
            ;
            assert(m <= dy_abs) by (nonlinear_arith)
                requires
                    m * dx <= k * dy_abs,
                    k * dy_abs <= dx * dy_abs,
                    dx > 0,
            ;
        }
        let pixel: (u16, u16) = if y_long {
            (b as u16, a as u16)
        } else {
            (a as u16, b as u16)
        };
        pixels.push(pixel);
        proof {
            lemma_minor_step(k, m, dx as int, dy_abs as int, eps as int);
        }
        if eps >= 0 {
            b = b + sign;
            eps = eps - dx;
            proof {
                m = m + 1;
            }
        }
        eps = eps + dy_abs;
        a = a + 1;
        proof {
            assert(m <= dy_abs) by (nonlinear_arith)
                requires
                    m * dx <= (k + 1) * dy_abs,
                    k + 1 <= dx,
                    dy_abs >= 0,
                    dx > 0,
            ;
        }
    }
    pixels
}

} // verus!
