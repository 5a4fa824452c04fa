use vstd::prelude::*;

use crate::protocol::Wall;

verus! {

/// Absolute value on mathematical integers.
pub open spec fn abs(a: int) -> int {
    if a < 0 {
        -a
    } else {
        a
    }
}

/// Sign of an integer: -1, 0 or 1.
pub open spec fn sign(a: int) -> int {
    if a > 0 {
        1
    } else if a < 0 {
        -1
    } else {
        0
    }
}

/// A machine point seen as a pair of mathematical integers.
pub open spec fn pt(p: (i32, i32)) -> (int, int) {
    (p.0 as int, p.1 as int)
}

/// A sequence of machine points seen as mathematical points.
pub open spec fn pts(s: Seq<(i32, i32)>) -> Seq<(int, int)> {
    s.map_values(|p: (i32, i32)| pt(p))
}

/// Chebyshev (king-move) distance between two grid points.
pub open spec fn cheb(a: (int, int), b: (int, int)) -> int {
    let dx = abs(a.0 - b.0);
    let dy = abs(a.1 - b.1);
    if dx >= dy {
        dx
    } else {
        dy
    }
}

/// Chebyshev distance computed without overflow for any two machine points.
pub(crate) fn cheb_wide(a: (i32, i32), b: (i32, i32)) -> (d: i64)
    ensures
        d == cheb(pt(a), pt(b)),
        0 <= d <= 0x1_0000_0000,
{
    let dx = a.0 as i64 - b.0 as i64;
    let dy = a.1 as i64 - b.1 as i64;
    let ax = if dx < 0 {
        -dx
    } else {
        dx
    };
    let ay = if dy < 0 {
        -dy
    } else {
        dy
    };
    if ax >= ay {
        ax
    } else {
        ay
    }
}

/// Chebyshev distance: the larger of the horizontal and vertical gaps.
pub fn chebyshev_distance(a: (i32, i32), b: (i32, i32)) -> (d: i32)
    requires
        cheb(pt(a), pt(b)) <= i32::MAX,
    ensures
        d == cheb(pt(a), pt(b)),
{
    let d = cheb_wide(a, b);
    d as i32
}

/// The points that the error-accumulating line walk visits from `(x, y)` on, where
/// `a` and `b` are the horizontal and vertical extents of the whole line, `sx` and
/// `sy` the directions of travel and `err` the running error term. `fuel` only
/// bounds the recursion; it is always large enough for a whole line.
pub open spec fn bres_walk(
    x: int,
    y: int,
    err: int,
    to: (int, int),
    a: int,
    b: int,
    sx: int,
    sy: int,
    fuel: nat,
) -> Seq<(int, int)>
    decreases fuel,
{
    if (x == to.0 && y == to.1) || fuel == 0 {
        seq![(x, y)]
    } else {
        let e2 = 2 * err;
        let x1 = if e2 >= -b {
            x + sx
        } else {
            x
        };
        let err1 = if e2 >= -b {
            err - b
        } else {
            err
        };
        let y1 = if e2 <= a {
            y + sy
        } else {
            y
        };
        let err2 = if e2 <= a {
            err1 + a
        } else {
            err1
        };
        seq![(x, y)] + bres_walk(x1, y1, err2, to, a, b, sx, sy, (fuel - 1) as nat)
    }
}

/// The Bresenham line from `from` to `to`, both ends included.
pub open spec fn bresenham(from: (int, int), to: (int, int)) -> Seq<(int, int)> {
    let a = abs(to.0 - from.0);
    let b = abs(to.1 - from.1);
    bres_walk(
        from.0,
        from.1,
        a - b,
        to,
        a,
        b,
        sign(to.0 - from.0),
        sign(to.1 - from.1),
        (a + b) as nat,
    )
}

/// The state of the line walk after `kx` horizontal and `ky` vertical steps.
pub open spec fn walk_state_ok(
    from: (int, int),
    to: (int, int),
    kx: int,
    ky: int,
    x: int,
    y: int,
    err: int,
) -> bool {
    let a = abs(to.0 - from.0);
    let b = abs(to.1 - from.1);
    &&& 0 <= kx <= a
    &&& 0 <= ky <= b
    &&& x == from.0 + sign(to.0 - from.0) * kx
    &&& y == from.1 + sign(to.1 - from.1) * ky
    &&& err == a * (1 + ky) - b * (1 + kx)
    &&& 2 * abs(err - a + b) <= if a >= b {
        a
    } else {
        b
    }
}

proof fn lemma_at_target(from: (int, int), to: (int, int), kx: int, ky: int, x: int, y: int, err: int)
    requires
        walk_state_ok(from, to, kx, ky, x, y, err),
    ensures
        (x == to.0) <==> (kx == abs(to.0 - from.0)),
        (y == to.1) <==> (ky == abs(to.1 - from.1)),
{
    let sx = sign(to.0 - from.0);
    let sy = sign(to.1 - from.1);
    if sx == 1 {
        assert(x == from.0 + kx);
    } else if sx == -1 {
        assert(x == from.0 - kx);
    } else {
        assert(x == from.0);
    }
    if sy == 1 {
        assert(y == from.1 + ky);
    } else if sy == -1 {
        assert(y == from.1 - ky);
    } else {
        assert(y == from.1);
    }
}

proof fn lemma_no_overshoot_x(a: int, b: int, kx: int, ky: int, err: int)
    requires
        0 <= kx <= a,
        0 <= ky < b,
        kx == a,
        err == a * (1 + ky) - b * (1 + kx),
    ensures
        2 * err < -b,
{
    assert(a * (1 + ky) <= a * b) by (nonlinear_arith)
        requires
            0 <= a,
            1 + ky <= b,
    ;
    assert(b * (1 + kx) == b + b * a) by (nonlinear_arith)
        requires
            kx == a,
    ;
}

proof fn lemma_no_overshoot_y(a: int, b: int, kx: int, ky: int, err: int)
    requires
        0 <= kx < a,
        0 <= ky <= b,
        ky == b,
        err == a * (1 + ky) - b * (1 + kx),
    ensures
        2 * err > a,
{
    assert(b * (1 + kx) <= b * a) by (nonlinear_arith)
        requires
            0 <= b,
            1 + kx <= a,
    ;
    assert(a * (1 + ky) == a + a * b) by (nonlinear_arith)
        requires
            ky == b,
    ;
}

/// One step of the line walk from a state short of the target moves at least one
/// coordinate and never moves a coordinate past the target.
proof fn lemma_walk_step(a: int, b: int, kx: int, ky: int, err: int)
    requires
        0 <= kx <= a,
        0 <= ky <= b,
        !(kx == a && ky == b),
        err == a * (1 + ky) - b * (1 + kx),
    ensures
        (2 * err >= -b) ==> kx < a,
        (2 * err <= a) ==> ky < b,
        (2 * err >= -b) || (2 * err <= a),
        err - b == a * (1 + ky) - b * (1 + (kx + 1)),
        err + a == a * (1 + (ky + 1)) - b * (1 + kx),
        err - b + a == a * (1 + (ky + 1)) - b * (1 + (kx + 1)),
{
    if kx == a {
        lemma_no_overshoot_x(a, b, kx, ky, err);
    }
    if ky == b {
        lemma_no_overshoot_y(a, b, kx, ky, err);
    }
    assert(b * (1 + (kx + 1)) == b * (1 + kx) + b) by (nonlinear_arith);
    assert(a * (1 + (ky + 1)) == a * (1 + ky) + a) by (nonlinear_arith);
}

/// The error term of the walk stays small enough for 128-bit arithmetic.
proof fn lemma_err_bounds(a: int, b: int, kx: int, ky: int, err: int)
    requires
        0 <= a <= 0x1_0000_0000,
        0 <= b <= 0x1_0000_0000,
        0 <= kx <= a,
        0 <= ky <= b,
        err == a * (1 + ky) - b * (1 + kx),
    ensures
        -0x4_0000_0000_0000_0000 <= err <= 0x4_0000_0000_0000_0000,
{
    assert(0 <= a * (1 + ky) <= 0x1_0000_0000 * 0x1_0000_0001) by (nonlinear_arith)
        requires
            0 <= a <= 0x1_0000_0000,
            0 <= ky <= 0x1_0000_0000,
    ;
    assert(0 <= b * (1 + kx) <= 0x1_0000_0000 * 0x1_0000_0001) by (nonlinear_arith)
        requires
            0 <= b <= 0x1_0000_0000,
            0 <= kx <= 0x1_0000_0000,
    ;
}

/// The walk's counts, point and error term after one more step from the state
/// `(kx, ky, x, y, err)`.
spec fn walk_next(
    from: (int, int),
    to: (int, int),
    kx: int,
    ky: int,
    x: int,
    y: int,
    err: int,
) -> (int, int, int, int, int) {
    let a = abs(to.0 - from.0);
    let b = abs(to.1 - from.1);
    let e2 = 2 * err;
    let mx = e2 >= -b;
    let my = e2 <= a;
    let err1 = if mx {
        err - b
    } else {
        err
    };
    (
        if mx {
            kx + 1
        } else {
            kx
        },
        if my {
            ky + 1
        } else {
            ky
        },
        if mx {
            x + sign(to.0 - from.0)
        } else {
            x
        },
        if my {
            y + sign(to.1 - from.1)
        } else {
            y
        },
        if my {
            err1 + a
        } else {
            err1
        },
    )
}

/// One step of the walk from a good state short of the target leads to a good
/// state, counts at least one more step, and moves to a king-adjacent point.
proof fn lemma_walk_next(from: (int, int), to: (int, int), kx: int, ky: int, x: int, y: int, err: int)
    requires
        walk_state_ok(from, to, kx, ky, x, y, err),
        !(x == to.0 && y == to.1),
    ensures
        ({
            let n = walk_next(from, to, kx, ky, x, y, err);
            &&& walk_state_ok(from, to, n.0, n.1, n.2, n.3, n.4)
            &&& n.0 + n.1 > kx + ky
            &&& cheb((x, y), (n.2, n.3)) == 1
        }),
{
    let a = abs(to.0 - from.0);
    let b = abs(to.1 - from.1);
    let sx = sign(to.0 - from.0);
    let sy = sign(to.1 - from.1);
    let n = walk_next(from, to, kx, ky, x, y, err);
    let mx = 2 * err >= -b;
    let my = 2 * err <= a;
    lemma_at_target(from, to, kx, ky, x, y, err);
    lemma_walk_step(a, b, kx, ky, err);
    assert(n.2 == from.0 + sx * n.0) by (nonlinear_arith)
        requires
            x == from.0 + sx * kx,
            n.2 == (if mx {
                x + sx
            } else {
                x
            }),
            n.0 == (if mx {
                kx + 1
            } else {
                kx
            }),
    ;
    assert(n.3 == from.1 + sy * n.1) by (nonlinear_arith)
        requires
            y == from.1 + sy * ky,
            n.3 == (if my {
                y + sy
            } else {
                y
            }),
            n.1 == (if my {
                ky + 1
            } else {
                ky
            }),
    ;
    assert(mx ==> sx != 0) by {
        if mx && sx == 0 {
            assert(a == 0);
        }
    }
    assert(my ==> sy != 0) by {
        if my && sy == 0 {
            assert(b == 0);
        }
    }
}

/// A point some good state of the walk from `from` to `to` stands on.
spec fn on_walk(from: (int, int), to: (int, int), p: (int, int)) -> bool {
    exists|kx: int, ky: int, err: int| #[trigger] walk_state_ok(from, to, kx, ky, p.0, p.1, err)
}

/// A walk in a good state ends at the target, provided the fuel covers the
/// remaining steps, and stands only on points of good states.
proof fn lemma_walk_ends(
    from: (int, int),
    to: (int, int),
    kx: int,
    ky: int,
    x: int,
    y: int,
    err: int,
    fuel: nat,
)
    requires
        walk_state_ok(from, to, kx, ky, x, y, err),
        fuel >= (abs(to.0 - from.0) - kx) + (abs(to.1 - from.1) - ky),
    ensures
        ({
            let w = bres_walk(
                x,
                y,
                err,
                to,
                abs(to.0 - from.0),
                abs(to.1 - from.1),
                sign(to.0 - from.0),
                sign(to.1 - from.1),
                fuel,
            );
            &&& w.len() >= 1
            &&& w[0] == (x, y)
            &&& w.last() == to
            &&& w.len() <= 1 + (abs(to.0 - from.0) - kx) + (abs(to.1 - from.1) - ky)
            &&& forall|i: int| 0 <= i < w.len() - 1 ==> #[trigger] cheb(w[i], w[i + 1]) == 1
            &&& forall|i: int| 0 <= i < w.len() ==> on_walk(from, to, #[trigger] w[i])
        }),
    decreases fuel,
{
    let a = abs(to.0 - from.0);
    let b = abs(to.1 - from.1);
    let sx = sign(to.0 - from.0);
    let sy = sign(to.1 - from.1);
    lemma_at_target(from, to, kx, ky, x, y, err);
    assert(walk_state_ok(from, to, kx, ky, (x, y).0, (x, y).1, err));
    assert(on_walk(from, to, (x, y)));
    if !(x == to.0 && y == to.1) {
        lemma_walk_next(from, to, kx, ky, x, y, err);
        let n = walk_next(from, to, kx, ky, x, y, err);
        lemma_walk_ends(from, to, n.0, n.1, n.2, n.3, n.4, (fuel - 1) as nat);
        let rest = bres_walk(n.2, n.3, n.4, to, a, b, sx, sy, (fuel - 1) as nat);
        let w = bres_walk(x, y, err, to, a, b, sx, sy, fuel);
        assert(w == seq![(x, y)] + rest);
        assert forall|i: int| 0 <= i < w.len() - 1 implies #[trigger] cheb(w[i], w[i + 1]) == 1 by {
            if i == 0 {
                assert(w[1] == rest[0]);
            } else {
                assert(w[i] == rest[i - 1]);
                assert(w[i + 1] == rest[i]);
                let j = i - 1;
                assert(cheb(rest[j], rest[j + 1]) == 1);
            }
        }
        assert forall|i: int| 0 <= i < w.len() implies on_walk(from, to, #[trigger] w[i]) by {
            if i > 0 {
                assert(w[i] == rest[i - 1]);
            }
        }
    }
}

/// Every Bresenham line starts at its first end point.
pub proof fn lemma_bresenham_starts(from: (int, int), to: (int, int))
    ensures
        bresenham(from, to).len() >= 1,
        bresenham(from, to)[0] == from,
{
    let a = abs(to.0 - from.0);
    let b = abs(to.1 - from.1);
    lemma_walk_ends(from, to, 0, 0, from.0, from.1, a - b, (a + b) as nat);
}

/// The walk takes exactly one step per cell along the longer axis.
proof fn lemma_walk_len(
    from: (int, int),
    to: (int, int),
    kx: int,
    ky: int,
    x: int,
    y: int,
    err: int,
    fuel: nat,
)
    requires
        walk_state_ok(from, to, kx, ky, x, y, err),
        fuel >= (abs(to.0 - from.0) - kx) + (abs(to.1 - from.1) - ky),
        abs(to.0 - from.0) >= abs(to.1 - from.1) ==> 2 * err >= -abs(to.1 - from.1),
        abs(to.1 - from.1) >= abs(to.0 - from.0) ==> 2 * err <= abs(to.0 - from.0),
    ensures
        bres_walk(
            x,
            y,
            err,
            to,
            abs(to.0 - from.0),
            abs(to.1 - from.1),
            sign(to.0 - from.0),
            sign(to.1 - from.1),
            fuel,
        ).len() == 1 + if abs(to.0 - from.0) >= abs(to.1 - from.1) {
            abs(to.0 - from.0) - kx
        } else {
            abs(to.1 - from.1) - ky
        },
    decreases fuel,
{
    lemma_at_target(from, to, kx, ky, x, y, err);
    if !(x == to.0 && y == to.1) {
        lemma_walk_step(abs(to.0 - from.0), abs(to.1 - from.1), kx, ky, err);
        lemma_walk_next(from, to, kx, ky, x, y, err);
        let n = walk_next(from, to, kx, ky, x, y, err);
        lemma_walk_len(from, to, n.0, n.1, n.2, n.3, n.4, (fuel - 1) as nat);
    }
}

/// Every Bresenham line ends at its second end point, has one point more than
/// the longer of its horizontal and vertical extents, and moves from each point to
/// a different, king-adjacent one.
pub proof fn lemma_bresenham_ends(from: (int, int), to: (int, int))
    ensures
        bresenham(from, to).last() == to,
        bresenham(from, to).len() == 1 + if abs(to.0 - from.0) >= abs(to.1 - from.1) {
            abs(to.0 - from.0)
        } else {
            abs(to.1 - from.1)
        },
        forall|i: int|
            0 <= i < bresenham(from, to).len() - 1 ==> #[trigger] cheb(
                bresenham(from, to)[i],
                bresenham(from, to)[i + 1],
            ) == 1,
{
    let a = abs(to.0 - from.0);
    let b = abs(to.1 - from.1);
    lemma_walk_ends(from, to, 0, 0, from.0, from.1, a - b, (a + b) as nat);
    lemma_walk_len(from, to, 0, 0, from.0, from.1, a - b, (a + b) as nat);
}

/// A point of a good walk state lies between the ends and within half a cell of the
/// straight segment, measured across the longer axis.
proof fn lemma_walk_point_near_ideal(from: (int, int), to: (int, int), p: (int, int))
    requires
        on_walk(from, to, p),
    ensures
        ({
            let a = abs(to.0 - from.0);
            let b = abs(to.1 - from.1);
            let u = abs(p.0 - from.0);
            let v = abs(p.1 - from.1);
            &&& u <= a
            &&& v <= b
            &&& (p.0 - from.0) * (to.0 - from.0) >= 0
            &&& (p.1 - from.1) * (to.1 - from.1) >= 0
            &&& 2 * abs(a * v - b * u) <= if a >= b {
                a
            } else {
                b
            }
        }),
{
    let (kx, ky, err) = choose|kx: int, ky: int, err: int| #[trigger] walk_state_ok(from, to, kx, ky, p.0, p.1, err);
    let a = abs(to.0 - from.0);
    let b = abs(to.1 - from.1);
    let sx = sign(to.0 - from.0);
    let sy = sign(to.1 - from.1);
    assert(abs(p.0 - from.0) == kx && (p.0 - from.0) * (to.0 - from.0) == kx * a) by (nonlinear_arith)
        requires
            p.0 == from.0 + sx * kx,
            0 <= kx <= a,
            a == abs(to.0 - from.0),
            sx == sign(to.0 - from.0),
    ;
    assert(abs(p.1 - from.1) == ky && (p.1 - from.1) * (to.1 - from.1) == ky * b) by (nonlinear_arith)
        requires
            p.1 == from.1 + sy * ky,
            0 <= ky <= b,
            b == abs(to.1 - from.1),
            sy == sign(to.1 - from.1),
    ;
    assert(kx * a >= 0 && ky * b >= 0) by (nonlinear_arith)
        requires
            0 <= kx,
            0 <= a,
            0 <= ky,
            0 <= b,
    ;
    assert(a * ky - b * kx == err - a + b) by (nonlinear_arith)
        requires
            err == a * (1 + ky) - b * (1 + kx),
    ;
}

/// Every point of a Bresenham line lies between its end points, and is the lattice
/// point nearest the straight segment: across the longer axis it is within half a
/// cell of it (`2 * |a * v - b * u| <= max(a, b)` for a point `u`, `v` cells along
/// from `from`, on a line `a` wide and `b` high).
pub proof fn lemma_bresenham_near_ideal(from: (int, int), to: (int, int))
    ensures
        forall|i: int|
            0 <= i < bresenham(from, to).len() ==> {
                let p = #[trigger] bresenham(from, to)[i];
                let a = abs(to.0 - from.0);
                let b = abs(to.1 - from.1);
                let u = abs(p.0 - from.0);
                let v = abs(p.1 - from.1);
                &&& u <= a
                &&& v <= b
                &&& (p.0 - from.0) * (to.0 - from.0) >= 0
                &&& (p.1 - from.1) * (to.1 - from.1) >= 0
                &&& 2 * abs(a * v - b * u) <= if a >= b {
                    a
                } else {
                    b
                }
            },
{
    let a = abs(to.0 - from.0);
    let b = abs(to.1 - from.1);
    lemma_walk_ends(from, to, 0, 0, from.0, from.1, a - b, (a + b) as nat);
    let line = bresenham(from, to);
    assert forall|i: int| 0 <= i < line.len() implies {
        let p = #[trigger] line[i];
        let u = abs(p.0 - from.0);
        let v = abs(p.1 - from.1);
        &&& u <= a
        &&& v <= b
        &&& (p.0 - from.0) * (to.0 - from.0) >= 0
        &&& (p.1 - from.1) * (to.1 - from.1) >= 0
        &&& 2 * abs(a * v - b * u) <= if a >= b {
            a
        } else {
            b
        }
    } by {
        lemma_walk_point_near_ideal(from, to, line[i]);
    }
}

/// The points of the Bresenham line from `from` to `to`, both included.
pub fn bresenham_line(from: (i32, i32), to: (i32, i32)) -> (points: Vec<(i32, i32)>)
    ensures
        pts(points@) == bresenham(pt(from), pt(to)),
{
    let fx = from.0 as i64;
    let fy = from.1 as i64;
    let tx = to.0 as i64;
    let ty = to.1 as i64;
    let a: i64 = if tx - fx < 0 {
        fx - tx
    } else {
        tx - fx
    };
    let b: i64 = if ty - fy < 0 {
        fy - ty
    } else {
        ty - fy
    };
    let sx: i64 = if tx > fx {
        1
    } else if tx < fx {
        -1
    } else {
        0
    };
    let sy: i64 = if ty > fy {
        1
    } else if ty < fy {
        -1
    } else {
        0
    };
    let mut err: i128 = a as i128 - b as i128;
    let mut x: i64 = fx;
    let mut y: i64 = fy;
    let mut points: Vec<(i32, i32)> = Vec::new();
    let ghost f = pt(from);
    let ghost t = pt(to);
    let ghost mut kx: int = 0;
    let ghost mut ky: int = 0;
    let ghost mut fuel: nat = (a + b) as nat;
    assert(pts(points@) =~= Seq::<(int, int)>::empty());
    loop
        invariant_except_break
            pts(points@) + bres_walk(x as int, y as int, err as int, t, a as int, b as int, sx as int, sy as int, fuel)
                == bresenham(f, t),
        invariant
            f == pt(from),
            t == pt(to),
            fx == f.0,
            fy == f.1,
            tx == t.0,
            ty == t.1,
            a == abs(t.0 - f.0),
            b == abs(t.1 - f.1),
            sx == sign(t.0 - f.0),
            sy == sign(t.1 - f.1),
            walk_state_ok(f, t, kx, ky, x as int, y as int, err as int),
            fuel >= (a - kx) + (b - ky),
        ensures
            pts(points@) == bresenham(f, t),
        decreases (a - kx) + (b - ky),
    {
        proof {
            lemma_at_target(f, t, kx, ky, x as int, y as int, err as int);
            lemma_err_bounds(a as int, b as int, kx, ky, err as int);
        }
        assert(i32::MIN <= x <= i32::MAX && i32::MIN <= y <= i32::MAX) by {
            assert(sx == 1 || sx == -1 || sx == 0);
            assert(sy == 1 || sy == -1 || sy == 0);
            if sx == 1 {
                assert(x == fx + kx);
            } else if sx == -1 {
                assert(x == fx - kx);
            }
            if sy == 1 {
                assert(y == fy + ky);
            } else if sy == -1 {
                assert(y == fy - ky);
            }
        }
        let ghost old_points = points@;
        let ghost walk = bres_walk(x as int, y as int, err as int, t, a as int, b as int, sx as int, sy as int, fuel);
        points.push((x as i32, y as i32));
        assert(pts(points@) =~= pts(old_points).push((x as int, y as int)));
        if x == tx && y == ty {
            assert(walk == seq![(x as int, y as int)]);
            assert(pts(points@) =~= pts(old_points) + walk);
            break ;
        }
        let ghost x0 = x as int;
        let ghost y0 = y as int;
        let ghost err0 = err as int;
        let e2: i128 = 2 * err;
        proof {
            lemma_walk_step(a as int, b as int, kx, ky, err as int);
        }
        if e2 >= -(b as i128) {
            err = err - b as i128;
            x = x + sx;
        }
        if e2 <= a as i128 {
            err = err + a as i128;
            y = y + sy;
        }
        proof {
            lemma_walk_next(f, t, kx, ky, x0, y0, err0);
            let n = walk_next(f, t, kx, ky, x0, y0, err0);
            assert(x == n.2 && y == n.3 && err == n.4);
            kx = n.0;
            ky = n.1;
            let rest = bres_walk(x as int, y as int, err as int, t, a as int, b as int, sx as int, sy as int, (fuel - 1) as nat);
            assert(walk == seq![(x0, y0)] + rest);
            assert(pts(points@) + rest =~= pts(old_points) + walk);
            fuel = (fuel - 1) as nat;
        }
    }
    points
}

/// Whether a point touches a wall: it lies on a wall or on one of its eight
/// neighbouring cells.
pub open spec fn near_wall(p: (int, int), walls: Seq<Wall>) -> bool {
    exists|j: int|
        0 <= j < walls.len() && abs(p.0 - (#[trigger] walls[j]).x) <= 1 && abs(p.1 - walls[j].y) <= 1
}

/// Line of sight: no point of the Bresenham line strictly between the two end
/// points touches a wall.
pub open spec fn line_of_sight(from: (int, int), to: (int, int), walls: Seq<Wall>) -> bool {
    let line = bresenham(from, to);
    forall|i: int| 1 <= i < line.len() - 1 ==> !near_wall(#[trigger] line[i], walls)
}

/// Whether `p` touches a wall, checked without overflow.
fn touches_wall(p: (i32, i32), walls: &[Wall]) -> (r: bool)
    ensures
        r == near_wall(pt(p), walls@),
{
    let n = walls.len();
    let mut j: usize = 0;
    while j < n
        invariant
            n == walls@.len(),
            0 <= j <= n,
            forall|k: int|
                0 <= k < j ==> !(abs(p.0 - (#[trigger] walls@[k]).x) <= 1 && abs(p.1 - walls@[k].y) <= 1),
        decreases n - j,
    {
        let w = walls[j];
        let dx = p.0 as i64 - w.x as i64;
        let dy = p.1 as i64 - w.y as i64;
        if -1 <= dx && dx <= 1 && -1 <= dy && dy <= 1 {
            assert(abs(p.0 - walls@[j as int].x) <= 1 && abs(p.1 - walls@[j as int].y) <= 1);
            return true;
        }
        j += 1;
    }
    false
}

/// Whether the Bresenham line between the two points passes no wall (the end
/// points themselves are not checked).
pub fn has_line_of_sight(from: (i32, i32), to: (i32, i32), walls: &[Wall]) -> (r: bool)
    ensures
        r == line_of_sight(pt(from), pt(to), walls@),
{
    let line = bresenham_line(from, to);
    let ghost l = bresenham(pt(from), pt(to));
    let n = line.len();
    proof {
        lemma_bresenham_starts(pt(from), pt(to));
    }
    let mut i: usize = 1;
    while i < n - 1
        invariant
            n == line@.len(),
            n >= 1,
            pts(line@) == l,
            l == bresenham(pt(from), pt(to)),
            1 <= i,
            forall|k: int| 1 <= k < i && k < n - 1 ==> !near_wall(#[trigger] l[k], walls@),
        decreases n - i,
    {
        let p = line[i];
        assert(pt(p) == l[i as int]);
        if touches_wall(p, walls) {
            return false;
        }
        i += 1;
    }
    true
}

/// Chebyshev distance is a metric: symmetric, zero exactly between equal points,
/// and obeying the triangle inequality.
pub proof fn lemma_cheb_metric(a: (int, int), b: (int, int), c: (int, int))
    ensures
        cheb(a, b) == cheb(b, a),
        cheb(a, b) >= 0,
        (cheb(a, b) == 0) <==> (a == b),
        cheb(a, c) <= cheb(a, b) + cheb(b, c),
{
}

/// A point always sees itself, and sees any point next to it.
pub proof fn lemma_sight_nearby(p: (int, int), q: (int, int), walls: Seq<Wall>)
    requires
        cheb(p, q) <= 1,
    ensures
        line_of_sight(p, q, walls),
{
    lemma_bresenham_starts(p, q);
    lemma_bresenham_ends(p, q);
    let line = bresenham(p, q);
    if line.len() > 2 {
        let a = abs(q.0 - p.0);
        let b = abs(q.1 - p.1);
        if a == 1 && b == 1 {
            assert(line.len() <= 3);
            let sx = sign(q.0 - p.0);
            let sy = sign(q.1 - p.1);
            let rest = bres_walk(p.0 + sx, p.1 + sy, 0, q, a, b, sx, sy, 1);
            assert(rest == seq![q]);
            assert(line == seq![p] + rest);
        }
    }
}

/// A point touches a wall exactly when some wall lies within Chebyshev distance 1
/// of it, that is in the 3x3 block around it.
pub proof fn lemma_near_wall_within_one(p: (int, int), walls: Seq<Wall>)
    ensures
        near_wall(p, walls) <==> exists|j: int|
            0 <= j < walls.len() && cheb(p, ((#[trigger] walls[j]).x as int, walls[j].y as int)) <= 1,
{
    if near_wall(p, walls) {
        let j = choose|j: int|
            0 <= j < walls.len() && abs(p.1 - (#[trigger] walls[j]).y) <= 1 && abs(p.0 - walls[j].x) <= 1;
        assert(cheb(p, (walls[j].x as int, walls[j].y as int)) <= 1);
    }
    if exists|j: int| 0 <= j < walls.len() && cheb(p, ((#[trigger] walls[j]).x as int, walls[j].y as int)) <= 1 {
        let j = choose|j: int|
            0 <= j < walls.len() && cheb(p, ((#[trigger] walls[j]).x as int, walls[j].y as int)) <= 1;
        assert(abs(p.0 - walls[j].x) <= 1 && abs(p.1 - walls[j].y) <= 1);
    }
}

/// Two points see each other exactly when no wall lies within Chebyshev distance 1
/// of any point of the Bresenham line strictly between them.
pub proof fn lemma_sight_blocked_by_near_walls(from: (int, int), to: (int, int), walls: Seq<Wall>)
    ensures
        line_of_sight(from, to, walls) <==> forall|i: int, j: int|
            1 <= i < bresenham(from, to).len() - 1 && 0 <= j < walls.len() ==> cheb(
                #[trigger] bresenham(from, to)[i],
                ((#[trigger] walls[j]).x as int, walls[j].y as int),
            ) > 1,
{
    let line = bresenham(from, to);
    assert forall|i: int| 1 <= i < line.len() - 1 implies (near_wall(#[trigger] line[i], walls) <==> exists|j: int|
        0 <= j < walls.len() && cheb(line[i], ((#[trigger] walls[j]).x as int, walls[j].y as int)) <= 1) by {
        lemma_near_wall_within_one(line[i], walls);
    }
}

} // verus!
