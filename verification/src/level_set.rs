//! Exact local distances near the interface.
//!
//! Each grid cell is split into elementary simplices (two right triangles in
//! two dimensions, six tetrahedra in three). On a simplex whose vertex values
//! straddle zero, the field is treated as linear, and the distance from each
//! vertex to the zero level set has a closed form. The initializers take the
//! elementwise minimum of these contributions and leave every untouched node
//! at `SENTINEL`.

use vstd::prelude::*;
use crate::num::{
    SCALE, SENTINEL, SAMPLE_MAX, SQRT_HALF, SQRT_TWO, is_isqrt, isqrt_spec, isqrt_up_spec,
    lemma_isqrt_exists, lemma_isqrt_unique, lemma_isqrt_ordered, lemma_isqrt_up, isqrt_up,
    mul_div,
};

verus! {

/// A scalar small enough that all intermediate products fit the machine words.
pub open spec fn sample_ok(x: int) -> bool {
    -SAMPLE_MAX <= x <= SAMPLE_MAX
}

/// The distances returned for a right triangle with vertex values
/// `(v0, v1, v2)`, `v0 >= 0`, at the right-angle vertex `v0`. The zero level
/// set of the linear interpolant is a segment; each vertex gets its exact
/// distance to that segment, or `None` if all three values have the same
/// strict sign. All values are raw fixed-point scalars in grid units.
pub open spec fn tri_dist_pos(v0: int, v1: int, v2: int) -> Option<(int, int, int)> {
    if v1 >= 0 && v2 >= 0 {
        // Patterns with an exact zero have exact closed forms.
        if v0 == 0 && v1 == 0 && v2 == 0 {
            Some((0, 0, 0))
        } else if v1 == 0 && v2 == 0 {
            Some((SQRT_HALF as int, 0, 0))
        } else if v0 == 0 && v2 == 0 {
            Some((0, SCALE as int, 0))
        } else if v0 == 0 && v1 == 0 {
            Some((0, 0, SCALE as int))
        } else if v0 == 0 {
            Some((0, SCALE as int, SCALE as int))
        } else if v1 == 0 {
            Some((SCALE as int, 0, SQRT_TWO as int))
        } else if v2 == 0 {
            Some((SCALE as int, SQRT_TWO as int, 0))
        } else {
            None
        }
    } else if v1 >= 0 {
        // v2 < 0: the segment crosses the edges incident to vertex 2.
        let gx = v1 - v0;
        let gy = v2 - v0;
        let g = isqrt_up_spec(gx * gx + gy * gy);
        let i02 = v0 * (SCALE as int) / (v0 - v2);
        let i12 = (SQRT_TWO as int) * v1 / (v1 - v2);
        if gx <= 0 {
            Some((v0 * (SCALE as int) / g, i12, (SCALE as int) - i02))
        } else if gx > -gy {
            Some((i02, v1 * (SCALE as int) / g, (SQRT_TWO as int) - i12))
        } else {
            Some((i02, i12, (-v2) * (SCALE as int) / g))
        }
    } else if v2 >= 0 {
        // v1 < 0: symmetric to the previous case.
        let gx = v1 - v0;
        let gy = v2 - v0;
        let g = isqrt_up_spec(gx * gx + gy * gy);
        let i01 = v0 * (SCALE as int) / (v0 - v1);
        let i12 = (SQRT_TWO as int) * (-v1) / (v2 - v1);
        if gy <= 0 {
            Some((v0 * (SCALE as int) / g, (SCALE as int) - i01, (SQRT_TWO as int) - i12))
        } else if -gx > gy {
            Some((i01, (-v1) * (SCALE as int) / g, (SQRT_TWO as int) - i12))
        } else {
            Some((i01, i12, v2 * (SCALE as int) / g))
        }
    } else {
        // v1 < 0 and v2 < 0: both crossings lie on the edges incident to vertex 0.
        let gx = v1 - v0;
        let gy = v2 - v0;
        let g = isqrt_up_spec(gx * gx + gy * gy);
        let i10 = (-v1) * (SCALE as int) / (v0 - v1);
        let i20 = (-v2) * (SCALE as int) / (v0 - v2);
        Some((v0 * (SCALE as int) / g, i10, i20))
    }
}

/// The triangle solver's answer: the values are first normalized so the
/// right-angle vertex is non-negative (distances are unsigned).
pub open spec fn tri_dist_spec(u0: int, u1: int, u2: int) -> Option<(int, int, int)> {
    if u0 < 0 {
        tri_dist_pos(-u0, -u1, -u2)
    } else {
        tri_dist_pos(u0, u1, u2)
    }
}

/// An executable optional triple equals a spec-level one.
pub open spec fn tri_matches(r: Option<[i64; 3]>, s: Option<(int, int, int)>) -> bool {
    match r {
        Some(a) => s matches Some(t) && a[0] == t.0 && a[1] == t.1 && a[2] == t.2,
        None => s is None,
    }
}

/// `0 <= a <= b` gives `0 <= a * c / b <= c`: an intersection parameter,
/// rescaled by `c`, stays inside `[0, c]`.
proof fn lemma_ratio_bounds(a: int, b: int, c: int)
    requires
        0 <= a <= b,
        0 < b,
        0 <= c,
    ensures
        0 <= a * c / b <= c,
{
    vstd::arithmetic::div_mod::lemma_div_pos_is_pos(a * c, b);
    assert(a * c <= b * c) by (nonlinear_arith)
        requires 0 <= a <= b, 0 <= c;
    vstd::arithmetic::div_mod::lemma_div_is_ordered(a * c, b * c, b);
    vstd::arithmetic::div_mod::lemma_div_multiples_vanish(c, b);
    assert(a * c >= 0) by (nonlinear_arith)
        requires 0 <= a, 0 <= c;
}

/// The (rounded-up) gradient magnitude dominates the magnitude of each of
/// its components, and its square covers the exact squared magnitude.
proof fn lemma_grad_dominates(gx: int, gy: int, m: int)
    requires
        0 <= m,
        m <= gx || m <= -gx || m <= gy || m <= -gy,
    ensures
        m <= isqrt_up_spec(gx * gx + gy * gy),
        0 <= gx * gx + gy * gy,
        gx * gx + gy * gy <= isqrt_up_spec(gx * gx + gy * gy) * isqrt_up_spec(gx * gx + gy * gy),
{
    assert(0 <= gx * gx && 0 <= gy * gy && m * m <= gx * gx + gy * gy) by (nonlinear_arith)
        requires 0 <= m, m <= gx || m <= -gx || m <= gy || m <= -gy;
    assert(is_isqrt(m * m, m)) by (nonlinear_arith)
        requires 0 <= m;
    lemma_isqrt_unique(m * m, m);
    lemma_isqrt_ordered(m * m, gx * gx + gy * gy);
    lemma_isqrt_up(gx * gx + gy * gy);
}

/// A value whose square is at most twice the squared divisor scales to at
/// most `sqrt(2)` grid units.
proof fn lemma_ratio_sqrt2(v: int, g: int)
    requires
        0 <= v,
        1 <= g,
        v * v <= 2 * (g * g),
    ensures
        0 <= v * (SCALE as int) / g <= SQRT_TWO as int,
{
    vstd::arithmetic::div_mod::lemma_div_pos_is_pos(v * (SCALE as int), g);
    assert((v * 65536) * (v * 65536) < (g * 92682) * (g * 92682)) by (nonlinear_arith)
        requires v * v <= 2 * (g * g), 0 <= v, 1 <= g;
    assert(v * 65536 < g * 92682) by (nonlinear_arith)
        requires
            (v * 65536) * (v * 65536) < (g * 92682) * (g * 92682),
            0 <= v,
            1 <= g,
    ;
    vstd::arithmetic::div_mod::lemma_multiply_divide_lt(v * (SCALE as int), g, 92682);
}

/// The solver returns `None` exactly on triangles whose three values share one
/// strict sign: only those carry no piece of the zero level set.
pub proof fn lemma_tri_none_iff(u0: int, u1: int, u2: int)
    ensures
        tri_dist_spec(u0, u1, u2) is None <==> ((u0 > 0 && u1 > 0 && u2 > 0) || (u0 < 0 && u1 < 0
            && u2 < 0)),
{
}

/// Whatever the solver returns lies between 0 and `SQRT_TWO`: no vertex of a
/// unit right triangle is ever reported farther from the zero level set than
/// the triangle's hypotenuse.
pub proof fn lemma_tri_bounds(u0: int, u1: int, u2: int)
    requires
        sample_ok(u0),
        sample_ok(u1),
        sample_ok(u2),
    ensures
        tri_dist_spec(u0, u1, u2) matches Some(t) ==> 0 <= t.0 <= SQRT_TWO && 0 <= t.1 <= SQRT_TWO
            && 0 <= t.2 <= SQRT_TWO,
{
    let v0 = if u0 < 0 { -u0 } else { u0 };
    let v1 = if u0 < 0 { -u1 } else { u1 };
    let v2 = if u0 < 0 { -u2 } else { u2 };
    if v1 >= 0 && v2 >= 0 {
        // the closed forms are constants in [0, SQRT_TWO]
    } else if v1 >= 0 {
        let gx = v1 - v0;
        let gy = v2 - v0;
        let g = isqrt_up_spec(gx * gx + gy * gy);
        lemma_grad_dominates(gx, gy, v0 - v2);
        lemma_ratio_bounds(v0, g, SCALE as int);
        lemma_ratio_bounds(-v2, g, SCALE as int);
        if gx > -gy {
            assert(v1 * v1 <= 2 * (g * g)) by (nonlinear_arith)
                requires
                    0 <= v1,
                    v1 <= gx - gy,
                    gx * gx + gy * gy <= g * g,
            ;
            lemma_ratio_sqrt2(v1, g);
        }
        lemma_ratio_bounds(v0, v0 - v2, SCALE as int);
        lemma_ratio_bounds(v1, v1 - v2, SQRT_TWO as int);
    } else if v2 >= 0 {
        let gx = v1 - v0;
        let gy = v2 - v0;
        let g = isqrt_up_spec(gx * gx + gy * gy);
        lemma_grad_dominates(gx, gy, v0 - v1);
        lemma_ratio_bounds(v0, g, SCALE as int);
        lemma_ratio_bounds(-v1, g, SCALE as int);
        if !(gy <= 0) && !(-gx > gy) {
            assert(v2 * v2 <= 2 * (g * g)) by (nonlinear_arith)
                requires
                    0 <= v2,
                    v2 <= gy - gx,
                    gx * gx + gy * gy <= g * g,
            ;
            lemma_ratio_sqrt2(v2, g);
        }
        lemma_ratio_bounds(v0, v0 - v1, SCALE as int);
        lemma_ratio_bounds(-v1, v2 - v1, SQRT_TWO as int);
    } else {
        let gx = v1 - v0;
        let gy = v2 - v0;
        let g = isqrt_up_spec(gx * gx + gy * gy);
        lemma_grad_dominates(gx, gy, v0 - v2);
        lemma_ratio_bounds(v0, g, SCALE as int);
        lemma_ratio_bounds(-v1, v0 - v1, SCALE as int);
        lemma_ratio_bounds(-v2, v0 - v2, SCALE as int);
    }
}

/// Distance from each vertex of an isosceles right triangle to the zero level
/// set of the linear function with values `u` at the vertices. Vertex 0 holds
/// the right angle; the legs have unit length. Returns `None` when the level
/// set misses the triangle, i.e. when all three values share one strict sign.
#[verifier::rlimit(100)]
pub fn triangle_dist(u: [i64; 3]) -> (r: Option<[i64; 3]>)
    requires
        sample_ok(u[0] as int),
        sample_ok(u[1] as int),
        sample_ok(u[2] as int),
    ensures
        tri_matches(r, tri_dist_spec(u[0] as int, u[1] as int, u[2] as int)),
{
    // normalize the sign so the right-angle vertex is non-negative
    let (v0, v1, v2): (i64, i64, i64) = if u[0] < 0 {
        (-u[0], -u[1], -u[2])
    } else {
        (u[0], u[1], u[2])
    };

    if v1 >= 0 && v2 >= 0 {
        if v0 == 0 && v1 == 0 && v2 == 0 {
            Some([0, 0, 0])
        } else if v1 == 0 && v2 == 0 {
            Some([SQRT_HALF, 0, 0])
        } else if v0 == 0 && v2 == 0 {
            Some([0, SCALE, 0])
        } else if v0 == 0 && v1 == 0 {
            Some([0, 0, SCALE])
        } else if v0 == 0 {
            Some([0, SCALE, SCALE])
        } else if v1 == 0 {
            Some([SCALE, 0, SQRT_TWO])
        } else if v2 == 0 {
            Some([SCALE, SQRT_TWO, 0])
        } else {
            None
        }
    } else if v1 >= 0 {
        // v2 < 0
        let gx = v1 - v0;
        let gy = v2 - v0;
        let g = grad_norm(gx, gy);
        let i02 = mul_div(v0, SCALE, v0 - v2);
        let i12 = mul_div(SQRT_TWO, v1, v1 - v2);
        proof {
            lemma_grad_dominates(gx as int, gy as int, (v0 - v2) as int);
            lemma_ratio_bounds(v0 as int, g as int, SCALE as int);
            if gx > -gy {
                assert((v1 as int) * (v1 as int) <= 2 * ((g as int) * (g as int)))
                    by (nonlinear_arith)
                    requires
                        0 <= v1 as int,
                        v1 as int <= gx as int - gy as int,
                        (gx as int) * (gx as int) + (gy as int) * (gy as int) <= (g as int) * (
                        g as int),
                ;
                lemma_ratio_sqrt2(v1 as int, g as int);
            }
            lemma_ratio_bounds((-v2) as int, g as int, SCALE as int);
            lemma_ratio_bounds(v0 as int, (v0 - v2) as int, SCALE as int);
            lemma_ratio_bounds(v1 as int, (v1 - v2) as int, SQRT_TWO as int);
        }
        if gx <= 0 {
            Some([mul_div(v0, SCALE, g), i12, SCALE - i02])
        } else if gx > -gy {
            Some([i02, mul_div(v1, SCALE, g), SQRT_TWO - i12])
        } else {
            Some([i02, i12, mul_div(-v2, SCALE, g)])
        }
    } else if v2 >= 0 {
        // v1 < 0
        let gx = v1 - v0;
        let gy = v2 - v0;
        let g = grad_norm(gx, gy);
        let i01 = mul_div(v0, SCALE, v0 - v1);
        let i12 = mul_div(SQRT_TWO, -v1, v2 - v1);
        proof {
            lemma_grad_dominates(gx as int, gy as int, (v0 - v1) as int);
            lemma_ratio_bounds(v0 as int, g as int, SCALE as int);
            lemma_ratio_bounds((-v1) as int, g as int, SCALE as int);
            if !(gy <= 0) && !(-gx > gy) {
                assert((v2 as int) * (v2 as int) <= 2 * ((g as int) * (g as int)))
                    by (nonlinear_arith)
                    requires
                        0 <= v2 as int,
                        v2 as int <= gy as int - gx as int,
                        (gx as int) * (gx as int) + (gy as int) * (gy as int) <= (g as int) * (
                        g as int),
                ;
                lemma_ratio_sqrt2(v2 as int, g as int);
            }
            lemma_ratio_bounds(v0 as int, (v0 - v1) as int, SCALE as int);
            lemma_ratio_bounds((-v1) as int, (v2 - v1) as int, SQRT_TWO as int);
        }
        if gy <= 0 {
            Some([mul_div(v0, SCALE, g), SCALE - i01, SQRT_TWO - i12])
        } else if -gx > gy {
            Some([i01, mul_div(-v1, SCALE, g), SQRT_TWO - i12])
        } else {
            Some([i01, i12, mul_div(v2, SCALE, g)])
        }
    } else {
        // v1 < 0 and v2 < 0
        let gx = v1 - v0;
        let gy = v2 - v0;
        let g = grad_norm(gx, gy);
        proof {
            lemma_grad_dominates(gx as int, gy as int, (v0 - v2) as int);
            lemma_ratio_bounds(v0 as int, g as int, SCALE as int);
            lemma_ratio_bounds((-v1) as int, (v0 - v1) as int, SCALE as int);
            lemma_ratio_bounds((-v2) as int, (v0 - v2) as int, SCALE as int);
        }
        let i10 = mul_div(-v1, SCALE, v0 - v1);
        let i20 = mul_div(-v2, SCALE, v0 - v2);
        Some([mul_div(v0, SCALE, g), i10, i20])
    }
}

/// Magnitude of the gradient `(gx, gy)`, rounded up to a raw scalar so that
/// the distances divided by it underestimate the exact ones: an underestimate
/// fits the minimum-combination semantics of the initializer and keeps every
/// returned distance within the simplex bound.
fn grad_norm(gx: i64, gy: i64) -> (g: i64)
    requires
        -2 * SAMPLE_MAX <= gx as int <= 2 * SAMPLE_MAX,
        -2 * SAMPLE_MAX <= gy as int <= 2 * SAMPLE_MAX,
    ensures
        g as int == isqrt_up_spec(gx as int * gx as int + gy as int * gy as int),
        0 <= g,
{
    proof {
        assert(-4294967296 <= gx as int <= 4294967296 && -4294967296 <= gy as int <= 4294967296);
        assert(0 <= gx as int * gx as int <= 4294967296 * 4294967296) by (nonlinear_arith)
            requires -4294967296 <= gx as int <= 4294967296;
        assert(0 <= gy as int * gy as int <= 4294967296 * 4294967296) by (nonlinear_arith)
            requires -4294967296 <= gy as int <= 4294967296;
    }
    let sx: i128 = (gx as i128) * (gx as i128);
    let sy: i128 = (gy as i128) * (gy as i128);
    let s: u128 = (sx + sy) as u128;
    let g = isqrt_up(s);
    proof {
        lemma_isqrt_exists(s as int);
        lemma_isqrt_up(s as int);
        assert(isqrt_spec(s as int) < 0x200000000) by {
            assert(is_isqrt(s as int, isqrt_spec(s as int)));
            if isqrt_spec(s as int) >= 0x200000000 {
                assert(isqrt_spec(s as int) * isqrt_spec(s as int)
                    >= 0x200000000 * 0x200000000) by (nonlinear_arith)
                    requires isqrt_spec(s as int) >= 0x200000000;
            }
        }
    }
    g as i64
}


/// Linear offset of node `(i, j)` on an `nx * ny` grid stored row-major.
pub open spec fn node2(nx: int, i: int, j: int) -> int {
    j * nx + i
}

/// Vertex `m` of triangle `t` of cell `(i, j)`: the cell splits along its
/// diagonal into a lower (`t == 0`) and an upper (`t == 1`) right triangle,
/// which share the diagonal vertices and hold their right angle at the
/// corners `(i-1, j-1)` and `(i, j)`.
pub open spec fn tri_vertex(nx: int, i: int, j: int, t: int, m: int) -> int {
    let s = j * nx + i;
    if t == 0 {
        if m == 0 { s - nx - 1 } else if m == 1 { s - nx } else { s - 1 }
    } else {
        if m == 0 { s } else if m == 1 { s - nx } else { s - 1 }
    }
}

/// The solver's answer on triangle `t` of cell `(i, j)` of the field `u`.
pub open spec fn tri_at(u: Seq<i64>, nx: int, i: int, j: int, t: int) -> Option<(int, int, int)> {
    tri_dist_spec(
        u[tri_vertex(nx, i, j, t, 0)] as int,
        u[tri_vertex(nx, i, j, t, 1)] as int,
        u[tri_vertex(nx, i, j, t, 2)] as int,
    )
}

/// Component `m` of a triple of distances.
pub open spec fn tri_comp(o: Option<(int, int, int)>, m: int) -> int {
    match o {
        Some(t) => if m == 0 { t.0 } else if m == 1 { t.1 } else { t.2 },
        None => 0,
    }
}

/// Cell `(i, j)` comes before the cursor `(ci, cj)` in sweep order.
pub open spec fn cell_done2(i: int, j: int, ci: int, cj: int) -> bool {
    j < cj || (j == cj && i < ci)
}

/// Every distance is bounded above by every contribution of a straddled
/// triangle among the cells before the cursor `(ci, cj)`.
pub open spec fn init2_min_bound(u: Seq<i64>, d: Seq<i64>, nx: int, ci: int, cj: int) -> bool {
    forall|i: int, j: int, t: int, m: int|
        1 <= i < nx && 1 <= j && cell_done2(i, j, ci, cj) && 0 <= t < 2 && 0 <= m < 3
            && tri_at(u, nx, i, j, t) is Some
            ==> d[#[trigger] tri_vertex(nx, i, j, t, m)] as int
                <= tri_comp(tri_at(u, nx, i, j, t), m)
}

/// Every non-sentinel distance is exactly some contribution of a straddled
/// triangle among the cells before the cursor `(ci, cj)`.
pub open spec fn init2_witness(u: Seq<i64>, d: Seq<i64>, nx: int, ci: int, cj: int) -> bool {
    forall|q: int| 0 <= q < d.len() && #[trigger] d[q] != SENTINEL
        ==> exists|i: int, j: int, t: int, m: int|
            1 <= i < nx && 1 <= j && cell_done2(i, j, ci, cj) && 0 <= t < 2 && 0 <= m < 3
                && #[trigger] tri_vertex(nx, i, j, t, m) == q
                && tri_at(u, nx, i, j, t) is Some
                && d[q] as int == tri_comp(tri_at(u, nx, i, j, t), m)
}

/// What the local initializer establishes. The three middle clauses pin every
/// entry down to the exact minimum over the contributions of all straddled
/// triangles incident to it, and to `SENTINEL` where there is none.
pub open spec fn init2_post(u: Seq<i64>, d: Seq<i64>, nx: int, ny: int) -> bool {
    &&& d.len() == u.len()
    &&& nx * ny == d.len()
    &&& (forall|q: int| 0 <= q < d.len() ==> 0 <= #[trigger] d[q] <= SENTINEL)
    &&& init2_min_bound(u, d, nx, 1, ny)
    &&& init2_witness(u, d, nx, 1, ny)
}

/// Index bounds of a cell's vertices.
proof fn lemma_cell2_vertices(nx: int, ny: int, i: int, j: int)
    requires
        1 <= i < nx,
        1 <= j < ny,
    ensures
        nx + 1 <= j * nx + i,
        j * nx + i < nx * ny,
{
    assert(nx + 1 <= j * nx + i && j * nx + i < nx * ny) by (nonlinear_arith)
        requires 1 <= i < nx, 1 <= j < ny;
}

/// One phase of a cell update: the three vertices of triangle `t` have been
/// lowered to the minimum of their old value and the triangle's contribution
/// (if the triangle is straddled), and nothing else moved.
pub open spec fn tri_phase(u: Seq<i64>, dpre: Seq<i64>, dpost: Seq<i64>, nx: int, i: int, j: int, t: int) -> bool {
    &&& dpost.len() == dpre.len()
    &&& if tri_at(u, nx, i, j, t) is Some {
        &&& (forall|m: int| 0 <= m < 3
            ==> dpost[#[trigger] tri_vertex(nx, i, j, t, m)] as int
                == vstd::math::min(
                    dpre[tri_vertex(nx, i, j, t, m)] as int,
                    tri_comp(tri_at(u, nx, i, j, t), m),
                ))
        &&& (forall|p: int| 0 <= p < dpre.len()
            && p != tri_vertex(nx, i, j, t, 0)
            && p != tri_vertex(nx, i, j, t, 1)
            && p != tri_vertex(nx, i, j, t, 2)
            ==> dpost[p] == #[trigger] dpre[p])
    } else {
        dpost == dpre
    }
}

/// A phase never raises an entry.
proof fn lemma_tri_phase_le(u: Seq<i64>, dpre: Seq<i64>, dpost: Seq<i64>, nx: int, i: int, j: int, t: int)
    requires
        tri_phase(u, dpre, dpost, nx, i, j, t),
    ensures
        forall|p: int| 0 <= p < dpre.len() ==> dpost[p] as int <= #[trigger] dpre[p] as int,
{
    if tri_at(u, nx, i, j, t) is Some {
        assert forall|p: int| 0 <= p < dpre.len() implies dpost[p] as int <= #[trigger] dpre[p] as int by {
            if p == tri_vertex(nx, i, j, t, 0) || p == tri_vertex(nx, i, j, t, 1) || p
                == tri_vertex(nx, i, j, t, 2) {
                let m: int = if p == tri_vertex(nx, i, j, t, 0) {
                    0
                } else if p == tri_vertex(nx, i, j, t, 1) {
                    1
                } else {
                    2
                };
                assert(dpost[tri_vertex(nx, i, j, t, m)] as int == vstd::math::min(
                    dpre[tri_vertex(nx, i, j, t, m)] as int,
                    tri_comp(tri_at(u, nx, i, j, t), m),
                ));
            }
        }
    }
}

/// Processing one cell keeps both initializer invariants and moves the cursor
/// one cell forward.
proof fn lemma_cell2_step(
    u: Seq<i64>,
    d0: Seq<i64>,
    d1: Seq<i64>,
    d2: Seq<i64>,
    nx: int,
    ny: int,
    i: int,
    j: int,
)
    requires
        1 <= i < nx,
        1 <= j < ny,
        d0.len() == u.len(),
        nx * ny == u.len(),
        init2_min_bound(u, d0, nx, i, j),
        init2_witness(u, d0, nx, i, j),
        tri_phase(u, d0, d1, nx, i, j, 0),
        tri_phase(u, d1, d2, nx, i, j, 1),
    ensures
        init2_min_bound(u, d2, nx, i + 1, j),
        init2_witness(u, d2, nx, i + 1, j),
{
    lemma_cell2_vertices(nx, ny, i, j);
    lemma_tri_phase_le(u, d0, d1, nx, i, j, 0);
    lemma_tri_phase_le(u, d1, d2, nx, i, j, 1);
    assert(init2_min_bound(u, d2, nx, i + 1, j)) by {
        assert forall|i2: int, j2: int, t: int, m: int|
            1 <= i2 < nx && 1 <= j2 && cell_done2(i2, j2, i + 1, j) && 0 <= t < 2 && 0 <= m < 3
                && tri_at(u, nx, i2, j2, t) is Some
            implies d2[#[trigger] tri_vertex(nx, i2, j2, t, m)] as int
                <= tri_comp(tri_at(u, nx, i2, j2, t), m) by {
            let v = tri_vertex(nx, i2, j2, t, m);
            assert(0 <= v < u.len()) by {
                assert(nx + 1 <= j2 * nx + i2 && j2 * nx + i2 < nx * ny) by (nonlinear_arith)
                    requires 1 <= i2 < nx, 1 <= j2, j2 < ny || cell_done2(i2, j2, i + 1, j), j < ny;
            }
            if i2 == i && j2 == j {
                if t == 0 {
                    assert(d1[v] as int <= tri_comp(tri_at(u, nx, i, j, 0), m));
                } else {
                    assert(d2[v] as int <= tri_comp(tri_at(u, nx, i, j, 1), m));
                }
            } else {
                assert(cell_done2(i2, j2, i, j));
                assert(d0[v] as int <= tri_comp(tri_at(u, nx, i2, j2, t), m));
            }
        }
    }
    assert(init2_witness(u, d2, nx, i + 1, j)) by {
        assert forall|q: int| 0 <= q < d2.len() && #[trigger] d2[q] != SENTINEL
            implies exists|i2: int, j2: int, t: int, m: int|
                1 <= i2 < nx && 1 <= j2 && cell_done2(i2, j2, i + 1, j) && 0 <= t < 2 && 0 <= m < 3
                    && #[trigger] tri_vertex(nx, i2, j2, t, m) == q
                    && tri_at(u, nx, i2, j2, t) is Some
                    && d2[q] as int == tri_comp(tri_at(u, nx, i2, j2, t), m) by {
            if d2[q] != d1[q] {
                // the second triangle set this entry
                let m: int = if q == tri_vertex(nx, i, j, 1, 0) {
                    0
                } else if q == tri_vertex(nx, i, j, 1, 1) {
                    1
                } else {
                    2
                };
                assert(tri_at(u, nx, i, j, 1) is Some);
                assert(tri_vertex(nx, i, j, 1, m) == q);
                assert(d2[q] as int == tri_comp(tri_at(u, nx, i, j, 1), m));
                assert(cell_done2(i, j, i + 1, j));
            } else if d1[q] != d0[q] {
                // the first triangle set this entry
                let m: int = if q == tri_vertex(nx, i, j, 0, 0) {
                    0
                } else if q == tri_vertex(nx, i, j, 0, 1) {
                    1
                } else {
                    2
                };
                assert(tri_at(u, nx, i, j, 0) is Some);
                assert(tri_vertex(nx, i, j, 0, m) == q);
                assert(d1[q] as int == tri_comp(tri_at(u, nx, i, j, 0), m));
            } else {
                // untouched: the witness of the previous cursor still serves
                assert(d0[q] != SENTINEL);
                let (i2, j2, t, m) = choose|i2: int, j2: int, t: int, m: int|
                    1 <= i2 < nx && 1 <= j2 && cell_done2(i2, j2, i, j) && 0 <= t < 2 && 0 <= m < 3
                        && #[trigger] tri_vertex(nx, i2, j2, t, m) == q
                        && tri_at(u, nx, i2, j2, t) is Some
                        && d0[q] as int == tri_comp(tri_at(u, nx, i2, j2, t), m);
                assert(cell_done2(i2, j2, i + 1, j));
                assert(d2[q] as int == tri_comp(tri_at(u, nx, i2, j2, t), m));
            }
        }
    }
}

/// Moving the cursor from the end of one row to the start of the next keeps
/// both invariants, as does widening it past the last row at the end.
proof fn lemma_cursor2_move(
    u: Seq<i64>,
    d: Seq<i64>,
    nx: int,
    ci: int,
    cj: int,
    ci2: int,
    cj2: int,
)
    requires
        init2_min_bound(u, d, nx, ci, cj),
        init2_witness(u, d, nx, ci, cj),
        forall|i: int, j: int| 1 <= i < nx && 1 <= j && cell_done2(i, j, ci2, cj2)
            ==> #[trigger] cell_done2(i, j, ci, cj),
        forall|i: int, j: int| 1 <= i < nx && 1 <= j && #[trigger] cell_done2(i, j, ci, cj)
            ==> cell_done2(i, j, ci2, cj2),
    ensures
        init2_min_bound(u, d, nx, ci2, cj2),
        init2_witness(u, d, nx, ci2, cj2),
{
    assert forall|q: int| 0 <= q < d.len() && #[trigger] d[q] != SENTINEL
        implies exists|i2: int, j2: int, t: int, m: int|
            1 <= i2 < nx && 1 <= j2 && cell_done2(i2, j2, ci2, cj2) && 0 <= t < 2 && 0 <= m < 3
                && #[trigger] tri_vertex(nx, i2, j2, t, m) == q
                && tri_at(u, nx, i2, j2, t) is Some
                && d[q] as int == tri_comp(tri_at(u, nx, i2, j2, t), m) by {
        let (i2, j2, t, m) = choose|i2: int, j2: int, t: int, m: int|
            1 <= i2 < nx && 1 <= j2 && cell_done2(i2, j2, ci, cj) && 0 <= t < 2 && 0 <= m < 3
                && #[trigger] tri_vertex(nx, i2, j2, t, m) == q
                && tri_at(u, nx, i2, j2, t) is Some
                && d[q] as int == tri_comp(tri_at(u, nx, i2, j2, t), m);
        assert(cell_done2(i2, j2, ci2, cj2));
    }
}
/// Lowers one entry to the minimum of itself and `v`.
fn min_into(d: &mut Vec<i64>, q: usize, v: i64)
    requires
        q < old(d).len(),
    ensures
        final(d)@.len() == old(d)@.len(),
        final(d)@[q as int] == if v < old(d)@[q as int] { v } else { old(d)@[q as int] },
        forall|p: int| 0 <= p < old(d)@.len() && p != q as int
            ==> final(d)@[p] == #[trigger] old(d)@[p],
        forall|p: int| 0 <= p < old(d)@.len() ==> #[trigger] final(d)@[p] == old(d)@[p]
            || final(d)@[p] == v,
{
    let cur = d[q];
    if v < cur {
        d[q] = v;
    }
}

/// Updates the distances at the vertices of one cell from its two triangles.
#[verifier::rlimit(100)]
fn process_cell2(d: &mut Vec<i64>, u: &Vec<i64>, nx: usize, ny: usize, i: usize, j: usize)
    requires
        old(d).len() == u.len(),
        nx * ny == u.len(),
        forall|q: int| 0 <= q < u.len() ==> sample_ok(#[trigger] u@[q] as int),
        1 <= i < nx,
        1 <= j < ny,
        forall|p: int| 0 <= p < old(d).len() ==> 0 <= #[trigger] old(d)@[p] <= SENTINEL,
        init2_min_bound(u@, old(d)@, nx as int, i as int, j as int),
        init2_witness(u@, old(d)@, nx as int, i as int, j as int),
    ensures
        final(d).len() == u.len(),
        forall|p: int| 0 <= p < final(d).len() ==> 0 <= #[trigger] final(d)@[p] <= SENTINEL,
        init2_min_bound(u@, final(d)@, nx as int, i as int + 1, j as int),
        init2_witness(u@, final(d)@, nx as int, i as int + 1, j as int),
{
    proof {
        lemma_cell2_vertices(nx as int, ny as int, i as int, j as int);
    }
    let s = j * nx + i;
    let a = s - nx - 1;
    let b = s - nx;
    let c = s - 1;
    let ghost d0 = d@;
    let r0 = triangle_dist([u[a], u[b], u[c]]);
    proof {
        assert(a as int == tri_vertex(nx as int, i as int, j as int, 0, 0));
        assert(b as int == tri_vertex(nx as int, i as int, j as int, 0, 1));
        assert(c as int == tri_vertex(nx as int, i as int, j as int, 0, 2));
        lemma_tri_bounds(u@[a as int] as int, u@[b as int] as int, u@[c as int] as int);
    }
    if let Some(e) = r0 {
        min_into(d, a, e[0]);
        min_into(d, b, e[1]);
        min_into(d, c, e[2]);
    }
    proof {
        assert(tri_phase(u@, d0, d@, nx as int, i as int, j as int, 0));
    }
    let ghost d1 = d@;
    let r1 = triangle_dist([u[s], u[b], u[c]]);
    proof {
        assert(s as int == tri_vertex(nx as int, i as int, j as int, 1, 0));
        assert(b as int == tri_vertex(nx as int, i as int, j as int, 1, 1));
        assert(c as int == tri_vertex(nx as int, i as int, j as int, 1, 2));
        lemma_tri_bounds(u@[s as int] as int, u@[b as int] as int, u@[c as int] as int);
    }
    if let Some(e) = r1 {
        min_into(d, s, e[0]);
        min_into(d, b, e[1]);
        min_into(d, c, e[2]);
    }
    proof {
        assert(tri_phase(u@, d1, d@, nx as int, i as int, j as int, 1));
        lemma_cell2_step(u@, d0, d1, d@, nx as int, ny as int, i as int, j as int);
    }
}

/// Initializes the distance around the free boundary.
///
/// Splits every cell of the regular `dim.0 * dim.1` grid into two right
/// triangles and solves each one that the zero level set of `u` passes
/// through in closed form; every node keeps the elementwise minimum of the
/// contributions it receives, and nodes away from the boundary keep
/// `SENTINEL`.
pub fn init_dist(d: &mut Vec<i64>, u: &Vec<i64>, dim: (usize, usize))
    requires
        old(d).len() == u.len(),
        dim.0 * dim.1 == u.len(),
        forall|q: int| 0 <= q < u.len() ==> sample_ok(#[trigger] u@[q] as int),
    ensures
        init2_post(u@, final(d)@, dim.0 as int, dim.1 as int),
{
    let nx = dim.0;
    let ny = dim.1;
    let n = d.len();
    let mut q: usize = 0;
    while q < n
        invariant
            n == d.len(),
            d.len() == u.len(),
            q <= n,
            forall|p: int| 0 <= p < q ==> #[trigger] d@[p] == SENTINEL,
        decreases n - q,
    {
        d[q] = SENTINEL;
        q += 1;
    }

    let mut j: usize = 1;
    while j < ny
        invariant
            n == d.len(),
            d.len() == u.len(),
            nx * ny == u.len(),
            forall|p: int| 0 <= p < u.len() ==> sample_ok(#[trigger] u@[p] as int),
            1 <= j,
            j <= ny || j == 1,
            ny <= 1 ==> j == 1,
            forall|p: int| 0 <= p < d.len() ==> 0 <= #[trigger] d@[p] <= SENTINEL,
            init2_min_bound(u@, d@, nx as int, 1, j as int),
            init2_witness(u@, d@, nx as int, 1, j as int),
        decreases ny - j,
    {
        let mut i: usize = 1;
        while i < nx
            invariant
                n == d.len(),
                d.len() == u.len(),
                nx * ny == u.len(),
                forall|p: int| 0 <= p < u.len() ==> sample_ok(#[trigger] u@[p] as int),
                1 <= j < ny,
                1 <= i,
                i <= nx || i == 1,
                forall|p: int| 0 <= p < d.len() ==> 0 <= #[trigger] d@[p] <= SENTINEL,
                init2_min_bound(u@, d@, nx as int, i as int, j as int),
                init2_witness(u@, d@, nx as int, i as int, j as int),
            decreases nx - i,
        {
            process_cell2(d, u, nx, ny, i, j);
            i += 1;
        }
        proof {
            lemma_cursor2_move(u@, d@, nx as int, i as int, j as int, 1, j as int + 1);
        }
        j += 1;
    }
    proof {
        if ny == 0 {
            assert(init2_min_bound(u@, d@, nx as int, 1, ny as int));
            assert(init2_witness(u@, d@, nx as int, 1, ny as int)) by {
                assert(nx as int * ny as int == 0) by (nonlinear_arith)
                    requires ny as int == 0;
            }
        } else {
            assert(j == ny);
        }
    }
}


/// The magnitude of `x`.
pub open spec fn abs_val(x: int) -> int {
    if x < 0 { -x } else { x }
}

/// The distances returned for a unit tetrahedron with vertex values
/// `(u0, u1, u2, u3)` along its Hamiltonian path of vertices. If the values
/// do not straddle zero (a value of exactly zero counts as positive), there
/// is no crossing; otherwise the field is linear, the gradient magnitude is
/// recovered from the per-edge differences, and every vertex is at distance
/// `|value| / |gradient|`.
pub open spec fn tet_dist_spec(u0: int, u1: int, u2: int, u3: int) -> Option<(int, int, int, int)> {
    let all_pos = u0 >= 0 && u1 >= 0 && u2 >= 0 && u3 >= 0;
    let all_neg = u0 < 0 && u1 < 0 && u2 < 0 && u3 < 0;
    if all_pos || all_neg {
        None
    } else {
        let g = isqrt_up_spec(
            (u1 - u0) * (u1 - u0) + (u2 - u1) * (u2 - u1) + (u3 - u2) * (u3 - u2),
        );
        Some(
            (
                abs_val(u0) * (SCALE as int) / g,
                abs_val(u1) * (SCALE as int) / g,
                abs_val(u2) * (SCALE as int) / g,
                abs_val(u3) * (SCALE as int) / g,
            ),
        )
    }
}

/// An executable optional quadruple equals a spec-level one.
pub open spec fn tet_matches(r: Option<[i64; 4]>, s: Option<(int, int, int, int)>) -> bool {
    match r {
        Some(a) => s matches Some(t) && a[0] == t.0 && a[1] == t.1 && a[2] == t.2 && a[3] == t.3,
        None => s is None,
    }
}

/// Mixed signs force a nonzero gradient along the vertex path.
proof fn lemma_tet_grad_pos(u0: int, u1: int, u2: int, u3: int)
    requires
        !((u0 >= 0 && u1 >= 0 && u2 >= 0 && u3 >= 0) || (u0 < 0 && u1 < 0 && u2 < 0 && u3 < 0)),
    ensures
        1 <= isqrt_up_spec(
            (u1 - u0) * (u1 - u0) + (u2 - u1) * (u2 - u1) + (u3 - u2) * (u3 - u2),
        ),
        0 <= (u1 - u0) * (u1 - u0) + (u2 - u1) * (u2 - u1) + (u3 - u2) * (u3 - u2),
{
    let a = u1 - u0;
    let b = u2 - u1;
    let c = u3 - u2;
    assert(0 <= a * a && 0 <= b * b && 0 <= c * c) by (nonlinear_arith);
    assert(!(a == 0 && b == 0 && c == 0));
    assert(a != 0 ==> 1 <= a * a) by (nonlinear_arith);
    assert(b != 0 ==> 1 <= b * b) by (nonlinear_arith);
    assert(c != 0 ==> 1 <= c * c) by (nonlinear_arith);
    assert(is_isqrt(1, 1));
    lemma_isqrt_unique(1, 1);
    lemma_isqrt_ordered(1, a * a + b * b + c * c);
    lemma_isqrt_up(a * a + b * b + c * c);
}

/// Whatever the tetrahedron solver returns is a distance between 0 and
/// `SENTINEL`.
pub proof fn lemma_tet_bounds(u0: int, u1: int, u2: int, u3: int)
    requires
        sample_ok(u0),
        sample_ok(u1),
        sample_ok(u2),
        sample_ok(u3),
    ensures
        tet_dist_spec(u0, u1, u2, u3) matches Some(t) ==> 0 <= t.0 <= SENTINEL && 0 <= t.1
            <= SENTINEL && 0 <= t.2 <= SENTINEL && 0 <= t.3 <= SENTINEL,
{
    if tet_dist_spec(u0, u1, u2, u3) is Some {
        lemma_tet_grad_pos(u0, u1, u2, u3);
        let g = isqrt_up_spec(
            (u1 - u0) * (u1 - u0) + (u2 - u1) * (u2 - u1) + (u3 - u2) * (u3 - u2),
        );
        lemma_abs_scale_bound(u0, g);
        lemma_abs_scale_bound(u1, g);
        lemma_abs_scale_bound(u2, g);
        lemma_abs_scale_bound(u3, g);
    }
}

/// `|u| * SCALE / g` is between 0 and `SENTINEL` for any bounded sample and
/// any positive divisor.
proof fn lemma_abs_scale_bound(u: int, g: int)
    requires
        sample_ok(u),
        1 <= g,
    ensures
        0 <= abs_val(u) * (SCALE as int) / g <= SENTINEL as int,
{
    let a = abs_val(u);
    vstd::arithmetic::div_mod::lemma_div_pos_is_pos(a * (SCALE as int), g);
    vstd::arithmetic::div_mod::lemma_div_is_ordered_by_denominator(a * (SCALE as int), 1, g);
    assert(a * (SCALE as int) <= SENTINEL as int) by (nonlinear_arith)
        requires 0 <= a <= 2147483648;
}

/// Distance from each vertex of a unit tetrahedron to the zero level set of
/// the linear function with values `u` at its vertices (unit coordinates from
/// the origin to `(1,1,1)`, one coordinate changing per step). Returns `None`
/// when all values lie on one side of zero.
pub fn tetrahedron_dist(u: [i64; 4]) -> (r: Option<[i64; 4]>)
    requires
        sample_ok(u[0] as int),
        sample_ok(u[1] as int),
        sample_ok(u[2] as int),
        sample_ok(u[3] as int),
    ensures
        tet_matches(r, tet_dist_spec(u[0] as int, u[1] as int, u[2] as int, u[3] as int)),
{
    let mut n_pos: usize = 0;
    if u[0] >= 0 { n_pos += 1; }
    if u[1] >= 0 { n_pos += 1; }
    if u[2] >= 0 { n_pos += 1; }
    if u[3] >= 0 { n_pos += 1; }
    if n_pos == 0 || n_pos == 4 {
        return None;
    }
    proof {
        lemma_tet_grad_pos(u[0] as int, u[1] as int, u[2] as int, u[3] as int);
        lemma_abs_scale_bound(u[0] as int, 1);
    }
    let g = grad3_norm(u[1] - u[0], u[2] - u[1], u[3] - u[2]);
    let a0 = if u[0] < 0 { -u[0] } else { u[0] };
    let a1 = if u[1] < 0 { -u[1] } else { u[1] };
    let a2 = if u[2] < 0 { -u[2] } else { u[2] };
    let a3 = if u[3] < 0 { -u[3] } else { u[3] };
    proof {
        lemma_abs_scale_bound(u[0] as int, g as int);
        lemma_abs_scale_bound(u[1] as int, g as int);
        lemma_abs_scale_bound(u[2] as int, g as int);
        lemma_abs_scale_bound(u[3] as int, g as int);
    }
    Some(
        [
            mul_div(a0, SCALE, g),
            mul_div(a1, SCALE, g),
            mul_div(a2, SCALE, g),
            mul_div(a3, SCALE, g),
        ],
    )
}

/// Magnitude of the gradient recovered from the three per-edge differences,
/// rounded up so that the returned distances underestimate the exact ones.
fn grad3_norm(ga: i64, gb: i64, gc: i64) -> (g: i64)
    requires
        -2 * SAMPLE_MAX <= ga as int <= 2 * SAMPLE_MAX,
        -2 * SAMPLE_MAX <= gb as int <= 2 * SAMPLE_MAX,
        -2 * SAMPLE_MAX <= gc as int <= 2 * SAMPLE_MAX,
    ensures
        g as int == isqrt_up_spec(
            ga as int * ga as int + gb as int * gb as int + gc as int * gc as int,
        ),
        0 <= g,
{
    proof {
        assert(-4294967296 <= ga as int <= 4294967296);
        assert(0 <= ga as int * ga as int <= 4294967296 * 4294967296) by (nonlinear_arith)
            requires -4294967296 <= ga as int <= 4294967296;
        assert(0 <= gb as int * gb as int <= 4294967296 * 4294967296) by (nonlinear_arith)
            requires -4294967296 <= gb as int <= 4294967296;
        assert(0 <= gc as int * gc as int <= 4294967296 * 4294967296) by (nonlinear_arith)
            requires -4294967296 <= gc as int <= 4294967296;
    }
    let sa: i128 = (ga as i128) * (ga as i128);
    let sb: i128 = (gb as i128) * (gb as i128);
    let sc: i128 = (gc as i128) * (gc as i128);
    let s: u128 = (sa + sb + sc) as u128;
    let g = isqrt_up(s);
    proof {
        lemma_isqrt_exists(s as int);
        lemma_isqrt_up(s as int);
        assert(isqrt_spec(s as int) < 0x200000000) by {
            assert(is_isqrt(s as int, isqrt_spec(s as int)));
            if isqrt_spec(s as int) >= 0x200000000 {
                assert(isqrt_spec(s as int) * isqrt_spec(s as int)
                    >= 0x200000000 * 0x200000000) by (nonlinear_arith)
                    requires isqrt_spec(s as int) >= 0x200000000;
            }
        }
    }
    g as i64
}


/// The solver misses the tetrahedron exactly when all four values lie on one
/// side of zero (zero itself counting as the positive side).
pub proof fn lemma_tet_none_iff(u0: int, u1: int, u2: int, u3: int)
    ensures
        tet_dist_spec(u0, u1, u2, u3) is None <==> ((u0 >= 0 && u1 >= 0 && u2 >= 0 && u3 >= 0) || (
        u0 < 0 && u1 < 0 && u2 < 0 && u3 < 0)),
{
}

/// Corner offset of vertex `m` of tetrahedron `t` in the fixed decomposition
/// of a unit cube into six tetrahedra: every tetrahedron runs from the corner
/// `(0,0,0)` to `(1,1,1)` changing one coordinate per step.
pub open spec fn tet_off(t: int, m: int) -> (int, int, int) {
    if m == 0 {
        (0, 0, 0)
    } else if m == 3 {
        (1, 1, 1)
    } else if t == 0 {
        if m == 1 { (1, 0, 0) } else { (1, 1, 0) }
    } else if t == 1 {
        if m == 1 { (1, 0, 0) } else { (1, 0, 1) }
    } else if t == 2 {
        if m == 1 { (0, 1, 0) } else { (1, 1, 0) }
    } else if t == 3 {
        if m == 1 { (0, 1, 0) } else { (0, 1, 1) }
    } else if t == 4 {
        if m == 1 { (0, 0, 1) } else { (1, 0, 1) }
    } else {
        if m == 1 { (0, 0, 1) } else { (0, 1, 1) }
    }
}

/// Linear offset of vertex `m` of tetrahedron `t` of the cell whose highest
/// corner is node `(i, j, k)` on an `nx * ny * nz` grid.
pub open spec fn tet_vertex(ny: int, nz: int, i: int, j: int, k: int, t: int, m: int) -> int {
    let o = tet_off(t, m);
    (i - o.0) * ny * nz + (j - o.1) * nz + (k - o.2)
}

/// The solver's answer on tetrahedron `t` of cell `(i, j, k)` of the field `u`.
pub open spec fn tet_at(u: Seq<i64>, ny: int, nz: int, i: int, j: int, k: int, t: int) -> Option<
    (int, int, int, int),
> {
    tet_dist_spec(
        u[tet_vertex(ny, nz, i, j, k, t, 0)] as int,
        u[tet_vertex(ny, nz, i, j, k, t, 1)] as int,
        u[tet_vertex(ny, nz, i, j, k, t, 2)] as int,
        u[tet_vertex(ny, nz, i, j, k, t, 3)] as int,
    )
}

/// Component `m` of a quadruple of distances.
pub open spec fn tet_comp(o: Option<(int, int, int, int)>, m: int) -> int {
    match o {
        Some(t) => if m == 0 { t.0 } else if m == 1 { t.1 } else if m == 2 { t.2 } else { t.3 },
        None => 0,
    }
}

/// Cell `(i, j, k)` comes before the cursor `(ci, cj, ck)` in sweep order.
pub open spec fn cell_done3(i: int, j: int, k: int, ci: int, cj: int, ck: int) -> bool {
    i < ci || (i == ci && (j < cj || (j == cj && k < ck)))
}

/// Every distance is bounded above by every contribution of a straddled
/// tetrahedron among the cells before the cursor.
pub open spec fn init3_min_bound(u: Seq<i64>, d: Seq<i64>, ny: int, nz: int, ci: int, cj: int, ck: int) -> bool {
    forall|i: int, j: int, k: int, t: int, m: int|
        1 <= i && 1 <= j < ny && 1 <= k < nz && cell_done3(i, j, k, ci, cj, ck) && 0 <= t < 6
            && 0 <= m < 4 && tet_at(u, ny, nz, i, j, k, t) is Some
            ==> d[#[trigger] tet_vertex(ny, nz, i, j, k, t, m)] as int
                <= tet_comp(tet_at(u, ny, nz, i, j, k, t), m)
}

/// Every non-sentinel distance is exactly some contribution of a straddled
/// tetrahedron among the cells before the cursor.
pub open spec fn init3_touched(u: Seq<i64>, d: Seq<i64>, ny: int, nz: int, ci: int, cj: int, ck: int) -> bool {
    forall|q: int| 0 <= q < d.len() && #[trigger] d[q] != SENTINEL
        ==> exists|i: int, j: int, k: int, t: int, m: int|
            1 <= i && 1 <= j < ny && 1 <= k < nz && cell_done3(i, j, k, ci, cj, ck) && 0 <= t < 6
                && 0 <= m < 4 && #[trigger] tet_vertex(ny, nz, i, j, k, t, m) == q
                && tet_at(u, ny, nz, i, j, k, t) is Some
                && d[q] as int == tet_comp(tet_at(u, ny, nz, i, j, k, t), m)
}

/// What the three-dimensional initializer establishes. As in two dimensions,
/// the clauses together pin every entry down to the exact minimum over the
/// contributions of all straddled tetrahedra incident to it, and to
/// `SENTINEL` where there is none.
pub open spec fn init3_post(u: Seq<i64>, d: Seq<i64>, nx: int, ny: int, nz: int) -> bool {
    &&& d.len() == u.len()
    &&& nx * ny * nz == d.len()
    &&& (forall|q: int| 0 <= q < d.len() ==> 0 <= #[trigger] d[q] <= SENTINEL)
    &&& init3_min_bound(u, d, ny, nz, nx, 1, 1)
    &&& init3_touched(u, d, ny, nz, nx, 1, 1)
}

/// A node given by in-range coordinates has an in-range linear offset.
proof fn lemma_node3(nx: int, ny: int, nz: int, a: int, b: int, c: int)
    requires
        0 <= a < nx,
        0 <= b < ny,
        0 <= c < nz,
    ensures
        0 <= a * ny * nz + b * nz + c,
        a * ny * nz + b * nz + c < nx * ny * nz,
{
    assert(0 <= a * ny * nz + b * nz + c && a * ny * nz + b * nz + c < nx * ny * nz)
        by (nonlinear_arith)
        requires 0 <= a < nx, 0 <= b < ny, 0 <= c < nz;
}

/// Subtracting a corner offset from a cell's highest node gives the offset
/// vertex, and it stays inside the grid.
proof fn lemma_cell3_vertex(nx: int, ny: int, nz: int, i: int, j: int, k: int, o0: int, o1: int, o2: int)
    requires
        1 <= i < nx,
        1 <= j < ny,
        1 <= k < nz,
        0 <= o0 <= 1,
        0 <= o1 <= 1,
        0 <= o2 <= 1,
    ensures
        (i - o0) * ny * nz + (j - o1) * nz + (k - o2) == i * ny * nz + j * nz + k - o0 * (ny * nz)
            - o1 * nz - o2,
        0 <= i * ny * nz + j * nz + k - o0 * (ny * nz) - o1 * nz - o2,
        i * ny * nz + j * nz + k < nx * ny * nz,
        o0 * (ny * nz) + o1 * nz + o2 <= i * ny * nz + j * nz + k,
{
    lemma_node3(nx, ny, nz, i - o0, j - o1, k - o2);
    lemma_node3(nx, ny, nz, i, j, k);
    assert((i - o0) * ny * nz + (j - o1) * nz + (k - o2) == i * ny * nz + j * nz + k - o0 * (ny
        * nz) - o1 * nz - o2) by (nonlinear_arith);
}

/// Contributions of the first `tmax` tetrahedra of cell `(i, j, k)` already
/// bound the distances at their vertices.
spec fn cell3_partial(u: Seq<i64>, d: Seq<i64>, ny: int, nz: int, i: int, j: int, k: int, tmax: int) -> bool {
    forall|t: int, m: int|
        0 <= t < tmax && 0 <= m < 4 && tet_at(u, ny, nz, i, j, k, t) is Some
            ==> d[#[trigger] tet_vertex(ny, nz, i, j, k, t, m)] as int
                <= tet_comp(tet_at(u, ny, nz, i, j, k, t), m)
}

/// Moving the cursor over cells that are done either way keeps both
/// initializer invariants.
proof fn lemma_cursor3_move(
    u: Seq<i64>,
    d: Seq<i64>,
    ny: int,
    nz: int,
    ci: int,
    cj: int,
    ck: int,
    ci2: int,
    cj2: int,
    ck2: int,
)
    requires
        init3_min_bound(u, d, ny, nz, ci, cj, ck),
        init3_touched(u, d, ny, nz, ci, cj, ck),
        forall|i: int, j: int, k: int| 1 <= i && 1 <= j < ny && 1 <= k < nz && cell_done3(
            i, j, k, ci2, cj2, ck2,
        ) ==> #[trigger] cell_done3(i, j, k, ci, cj, ck),
        forall|i: int, j: int, k: int| 1 <= i && 1 <= j < ny && 1 <= k < nz && #[trigger]
        cell_done3(i, j, k, ci, cj, ck) ==> cell_done3(i, j, k, ci2, cj2, ck2),
    ensures
        init3_min_bound(u, d, ny, nz, ci2, cj2, ck2),
        init3_touched(u, d, ny, nz, ci2, cj2, ck2),
{
    assert forall|q: int| 0 <= q < d.len() && #[trigger] d[q] != SENTINEL
        implies exists|i: int, j: int, k: int, t: int, m: int|
            1 <= i && 1 <= j < ny && 1 <= k < nz && cell_done3(i, j, k, ci2, cj2, ck2) && 0 <= t
                < 6 && 0 <= m < 4 && #[trigger] tet_vertex(ny, nz, i, j, k, t, m) == q
                && tet_at(u, ny, nz, i, j, k, t) is Some
                && d[q] as int == tet_comp(tet_at(u, ny, nz, i, j, k, t), m) by {
        let (i, j, k, t, m) = choose|i: int, j: int, k: int, t: int, m: int|
            1 <= i && 1 <= j < ny && 1 <= k < nz && cell_done3(i, j, k, ci, cj, ck) && 0 <= t < 6
                && 0 <= m < 4 && #[trigger] tet_vertex(ny, nz, i, j, k, t, m) == q
                && tet_at(u, ny, nz, i, j, k, t) is Some
                && d[q] as int == tet_comp(tet_at(u, ny, nz, i, j, k, t), m);
        assert(cell_done3(i, j, k, ci2, cj2, ck2));
    }
}

/// The linear offset of vertex `m` of tetrahedron `t` of cell `(i, j, k)`.
fn tet_vertex_idx(nx: usize, ny: usize, nz: usize, i: usize, j: usize, k: usize, t: usize, m: usize) -> (v: usize)
    requires
        1 <= i < nx,
        1 <= j < ny,
        1 <= k < nz,
        t < 6,
        m < 4,
        nx * ny * nz <= usize::MAX,
    ensures
        v as int == tet_vertex(ny as int, nz as int, i as int, j as int, k as int, t as int, m as int),
        (v as int) < (nx as int) * (ny as int) * (nz as int),
{
    let (o0, o1, o2): (usize, usize, usize) = if m == 0 {
        (0, 0, 0)
    } else if m == 3 {
        (1, 1, 1)
    } else if t == 0 {
        if m == 1 { (1, 0, 0) } else { (1, 1, 0) }
    } else if t == 1 {
        if m == 1 { (1, 0, 0) } else { (1, 0, 1) }
    } else if t == 2 {
        if m == 1 { (0, 1, 0) } else { (1, 1, 0) }
    } else if t == 3 {
        if m == 1 { (0, 1, 0) } else { (0, 1, 1) }
    } else if t == 4 {
        if m == 1 { (0, 0, 1) } else { (1, 0, 1) }
    } else {
        if m == 1 { (0, 0, 1) } else { (0, 1, 1) }
    };
    proof {
        let o = tet_off(t as int, m as int);
        assert(o0 as int == o.0 && o1 as int == o.1 && o2 as int == o.2);
        lemma_cell3_vertex(
            nx as int, ny as int, nz as int,
            i as int, j as int, k as int,
            o0 as int, o1 as int, o2 as int,
        );
        assert((i as int) * (ny as int) <= (i as int) * (ny as int) * (nz as int)
            && 0 <= (j as int) * (nz as int)
            && (o0 as int) * ((ny as int) * (nz as int)) <= (ny as int) * (nz as int)
            && (ny as int) * (nz as int) <= (nx as int) * (ny as int) * (nz as int))
            by (nonlinear_arith)
            requires 1 <= i as int, 1 <= nx as int, 1 <= ny as int, 1 <= nz as int,
                0 <= o0 as int <= 1, 0 <= j as int;
        lemma_node3(nx as int, ny as int, nz as int, i as int, j as int, k as int);
    }
    i * ny * nz + j * nz + k - o0 * (ny * nz) - o1 * nz - o2
}

/// Applies one straddled tetrahedron's four contributions.
fn apply_tet(d: &mut Vec<i64>, v0: usize, v1: usize, v2: usize, v3: usize, e: [i64; 4])
    requires
        v0 < old(d).len(),
        v1 < old(d).len(),
        v2 < old(d).len(),
        v3 < old(d).len(),
        forall|p: int| 0 <= p < old(d).len() ==> 0 <= #[trigger] old(d)@[p] <= SENTINEL,
        0 <= e[0] <= SENTINEL,
        0 <= e[1] <= SENTINEL,
        0 <= e[2] <= SENTINEL,
        0 <= e[3] <= SENTINEL,
    ensures
        final(d).len() == old(d).len(),
        forall|p: int| 0 <= p < old(d).len() ==> 0 <= #[trigger] final(d)@[p] <= SENTINEL,
        forall|p: int| 0 <= p < old(d).len() ==> #[trigger] final(d)@[p] <= old(d)@[p],
        forall|p: int| 0 <= p < old(d).len() && p != v0 as int && p != v1 as int && p != v2 as int
            && p != v3 as int ==> #[trigger] final(d)@[p] == old(d)@[p],
        final(d)@[v0 as int] <= e[0],
        final(d)@[v1 as int] <= e[1],
        final(d)@[v2 as int] <= e[2],
        final(d)@[v3 as int] <= e[3],
        forall|p: int| 0 <= p < old(d).len() ==> #[trigger] final(d)@[p] == old(d)@[p]
            || (p == v0 as int && final(d)@[p] == e[0])
            || (p == v1 as int && final(d)@[p] == e[1])
            || (p == v2 as int && final(d)@[p] == e[2])
            || (p == v3 as int && final(d)@[p] == e[3]),
{
    min_into(d, v0, e[0]);
    let ghost s1 = d@;
    min_into(d, v1, e[1]);
    let ghost s2 = d@;
    min_into(d, v2, e[2]);
    let ghost s3 = d@;
    min_into(d, v3, e[3]);
    proof {
        assert(s1[v0 as int] <= e[0] && s2[v1 as int] <= e[1] && s3[v2 as int] <= e[2]
            && d@[v3 as int] <= e[3]);
        assert(d@[v0 as int] <= e[0] && d@[v1 as int] <= e[1] && d@[v2 as int] <= e[2]);
        assert forall|p: int| 0 <= p < d.len() implies 0 <= #[trigger] d@[p] <= SENTINEL by {
            if p != v0 as int && p != v1 as int && p != v2 as int && p != v3 as int {
                assert(d@[p] == old(d)@[p]);
            }
        }
    }
}

/// Widening the cursor over more done cells keeps the touched invariant.
proof fn lemma_touched3_widen(
    u: Seq<i64>,
    d: Seq<i64>,
    ny: int,
    nz: int,
    ci: int,
    cj: int,
    ck: int,
    ci2: int,
    cj2: int,
    ck2: int,
)
    requires
        init3_touched(u, d, ny, nz, ci, cj, ck),
        forall|i: int, j: int, k: int| 1 <= i && 1 <= j < ny && 1 <= k < nz && #[trigger]
        cell_done3(i, j, k, ci, cj, ck) ==> cell_done3(i, j, k, ci2, cj2, ck2),
    ensures
        init3_touched(u, d, ny, nz, ci2, cj2, ck2),
{
    assert forall|q: int| 0 <= q < d.len() && #[trigger] d[q] != SENTINEL
        implies exists|i: int, j: int, k: int, t: int, m: int|
            1 <= i && 1 <= j < ny && 1 <= k < nz && cell_done3(i, j, k, ci2, cj2, ck2) && 0 <= t
                < 6 && 0 <= m < 4 && #[trigger] tet_vertex(ny, nz, i, j, k, t, m) == q
                && tet_at(u, ny, nz, i, j, k, t) is Some
                && d[q] as int == tet_comp(tet_at(u, ny, nz, i, j, k, t), m) by {
        let (i, j, k, t, m) = choose|i: int, j: int, k: int, t: int, m: int|
            1 <= i && 1 <= j < ny && 1 <= k < nz && cell_done3(i, j, k, ci, cj, ck) && 0 <= t < 6
                && 0 <= m < 4 && #[trigger] tet_vertex(ny, nz, i, j, k, t, m) == q
                && tet_at(u, ny, nz, i, j, k, t) is Some
                && d[q] as int == tet_comp(tet_at(u, ny, nz, i, j, k, t), m);
        assert(cell_done3(i, j, k, ci2, cj2, ck2));
    }
}

/// Updates the distances at the vertices of one cubic cell from its six
/// tetrahedra.
#[verifier::rlimit(100)]
fn process_cell3(d: &mut Vec<i64>, u: &Vec<i64>, nx: usize, ny: usize, nz: usize, i: usize, j: usize, k: usize)
    requires
        old(d).len() == u.len(),
        nx * ny * nz == u.len(),
        forall|q: int| 0 <= q < u.len() ==> sample_ok(#[trigger] u@[q] as int),
        1 <= i < nx,
        1 <= j < ny,
        1 <= k < nz,
        forall|p: int| 0 <= p < old(d).len() ==> 0 <= #[trigger] old(d)@[p] <= SENTINEL,
        init3_min_bound(u@, old(d)@, ny as int, nz as int, i as int, j as int, k as int),
        init3_touched(u@, old(d)@, ny as int, nz as int, i as int, j as int, k as int),
    ensures
        final(d).len() == u.len(),
        forall|p: int| 0 <= p < final(d).len() ==> 0 <= #[trigger] final(d)@[p] <= SENTINEL,
        init3_min_bound(u@, final(d)@, ny as int, nz as int, i as int, j as int, k as int + 1),
        init3_touched(u@, final(d)@, ny as int, nz as int, i as int, j as int, k as int + 1),
{
    let ghost dcell = d@;
    proof {
        lemma_touched3_widen(
            u@, d@, ny as int, nz as int,
            i as int, j as int, k as int,
            i as int, j as int, k as int + 1,
        );
    }
    let mut t: usize = 0;
    while t < 6
        invariant
            d.len() == u.len(),
            nx * ny * nz == u.len(),
            forall|q: int| 0 <= q < u.len() ==> sample_ok(#[trigger] u@[q] as int),
            1 <= i < nx,
            1 <= j < ny,
            1 <= k < nz,
            t <= 6,
            dcell.len() == d.len(),
            forall|p: int| 0 <= p < d.len() ==> 0 <= #[trigger] d@[p] <= SENTINEL,
            forall|p: int| 0 <= p < d.len() ==> #[trigger] d@[p] <= dcell[p],
            init3_min_bound(u@, dcell, ny as int, nz as int, i as int, j as int, k as int),
            cell3_partial(u@, d@, ny as int, nz as int, i as int, j as int, k as int, t as int),
            init3_touched(u@, d@, ny as int, nz as int, i as int, j as int, k as int + 1),
        decreases 6 - t,
    {
        let v0 = tet_vertex_idx(nx, ny, nz, i, j, k, t, 0);
        let v1 = tet_vertex_idx(nx, ny, nz, i, j, k, t, 1);
        let v2 = tet_vertex_idx(nx, ny, nz, i, j, k, t, 2);
        let v3 = tet_vertex_idx(nx, ny, nz, i, j, k, t, 3);
        let ghost dpre = d@;
        let r = tetrahedron_dist([u[v0], u[v1], u[v2], u[v3]]);
        let ghost at = tet_at(u@, ny as int, nz as int, i as int, j as int, k as int, t as int);
        if let Some(e) = r {
            proof {
                lemma_tet_bounds(
                    u@[v0 as int] as int,
                    u@[v1 as int] as int,
                    u@[v2 as int] as int,
                    u@[v3 as int] as int,
                );
            }
            apply_tet(d, v0, v1, v2, v3, e);
            proof {
                assert(at is Some);
                assert(d@[v0 as int] as int <= tet_comp(at, 0));
                assert(d@[v1 as int] as int <= tet_comp(at, 1));
                assert(d@[v2 as int] as int <= tet_comp(at, 2));
                assert(d@[v3 as int] as int <= tet_comp(at, 3));
            }
        } else {
            proof {
                assert(at is None);
            }
        }
        proof {
            if let Some(e) = r {
                assert(at is Some);
                assert(d@[v0 as int] as int <= tet_comp(at, 0));
                assert(d@[v1 as int] as int <= tet_comp(at, 1));
                assert(d@[v2 as int] as int <= tet_comp(at, 2));
                assert(d@[v3 as int] as int <= tet_comp(at, 3));
            }
            assert forall|p: int| 0 <= p < d.len() implies #[trigger] d@[p] <= dpre[p] by {}
            assert(cell3_partial(
                u@, d@, ny as int, nz as int, i as int, j as int, k as int, t as int + 1,
            )) by {
                assert forall|t2: int, m2: int|
                    0 <= t2 < t as int + 1 && 0 <= m2 < 4
                        && tet_at(u@, ny as int, nz as int, i as int, j as int, k as int, t2)
                        is Some
                    implies d@[#[trigger] tet_vertex(
                        ny as int, nz as int, i as int, j as int, k as int, t2, m2,
                    )] as int <= tet_comp(
                        tet_at(u@, ny as int, nz as int, i as int, j as int, k as int, t2),
                        m2,
                    ) by {
                    if t2 == t as int {
                        assert(tet_vertex(ny as int, nz as int, i as int, j as int, k as int, t2, m2)
                            == if m2 == 0 { v0 as int } else if m2 == 1 { v1 as int }
                                else if m2 == 2 { v2 as int } else { v3 as int });
                    } else {
                        let o = tet_off(t2, m2);
                        assert(0 <= o.0 <= 1 && 0 <= o.1 <= 1 && 0 <= o.2 <= 1);
                        lemma_node3(
                            nx as int,
                            ny as int,
                            nz as int,
                            i as int - o.0,
                            j as int - o.1,
                            k as int - o.2,
                        );
                        assert(dpre[tet_vertex(
                            ny as int, nz as int, i as int, j as int, k as int, t2, m2,
                        )] as int <= tet_comp(
                            tet_at(u@, ny as int, nz as int, i as int, j as int, k as int, t2),
                            m2,
                        ));
                    }
                }
            }
            assert(init3_touched(
                u@, d@, ny as int, nz as int, i as int, j as int, k as int + 1,
            )) by {
                assert forall|q: int| 0 <= q < d@.len() && #[trigger] d@[q] != SENTINEL
                    implies exists|i2: int, j2: int, k2: int, t2: int, m2: int|
                        1 <= i2 && 1 <= j2 < ny && 1 <= k2 < nz && cell_done3(
                            i2, j2, k2, i as int, j as int, k as int + 1,
                        ) && 0 <= t2 < 6 && 0 <= m2 < 4 && #[trigger] tet_vertex(
                            ny as int, nz as int, i2, j2, k2, t2, m2,
                        ) == q && tet_at(u@, ny as int, nz as int, i2, j2, k2, t2) is Some
                        && d@[q] as int == tet_comp(
                            tet_at(u@, ny as int, nz as int, i2, j2, k2, t2),
                            m2,
                        ) by {
                    if d@[q] == dpre[q] {
                        let (i2, j2, k2, t2, m2) = choose|i2: int, j2: int, k2: int, t2: int, m2: int|
                            1 <= i2 && 1 <= j2 < ny && 1 <= k2 < nz && cell_done3(
                                i2, j2, k2, i as int, j as int, k as int + 1,
                            ) && 0 <= t2 < 6 && 0 <= m2 < 4 && #[trigger] tet_vertex(
                                ny as int, nz as int, i2, j2, k2, t2, m2,
                            ) == q && tet_at(u@, ny as int, nz as int, i2, j2, k2, t2) is Some
                            && dpre[q] as int == tet_comp(
                                tet_at(u@, ny as int, nz as int, i2, j2, k2, t2),
                                m2,
                            );
                        assert(tet_vertex(ny as int, nz as int, i2, j2, k2, t2, m2) == q);
                        assert(d@[q] as int == tet_comp(
                            tet_at(u@, ny as int, nz as int, i2, j2, k2, t2),
                            m2,
                        ));
                    } else {
                        assert(r is Some);
                        if let Some(e) = r {
                            assert((q == v0 as int && d@[q] == e[0]) || (q == v1 as int && d@[q]
                                == e[1]) || (q == v2 as int && d@[q] == e[2]) || (q == v3 as int
                                && d@[q] == e[3]));
                            let m2: int = if q == v0 as int && d@[q] == e[0] {
                                0
                            } else if q == v1 as int && d@[q] == e[1] {
                                1
                            } else if q == v2 as int && d@[q] == e[2] {
                                2
                            } else {
                                3
                            };
                            assert(tet_vertex(
                                ny as int, nz as int, i as int, j as int, k as int, t as int, m2,
                            ) == q);
                            assert(at is Some);
                            assert(d@[q] as int == tet_comp(at, m2));
                            assert(cell_done3(
                                i as int, j as int, k as int, i as int, j as int, k as int + 1,
                            ));
                        }
                    }
                }
            }
        }
        t += 1;
    }
    proof {
        assert(init3_min_bound(
            u@, d@, ny as int, nz as int, i as int, j as int, k as int + 1,
        )) by {
            assert forall|i2: int, j2: int, k2: int, t2: int, m2: int|
                1 <= i2 && 1 <= j2 < ny && 1 <= k2 < nz && cell_done3(
                    i2, j2, k2, i as int, j as int, k as int + 1,
                ) && 0 <= t2 < 6 && 0 <= m2 < 4
                    && tet_at(u@, ny as int, nz as int, i2, j2, k2, t2) is Some
                implies d@[#[trigger] tet_vertex(ny as int, nz as int, i2, j2, k2, t2, m2)] as int
                    <= tet_comp(tet_at(u@, ny as int, nz as int, i2, j2, k2, t2), m2) by {
                if i2 == i as int && j2 == j as int && k2 == k as int {
                    assert(cell3_partial(
                        u@, d@, ny as int, nz as int, i as int, j as int, k as int, 6,
                    ));
                } else {
                    assert(cell_done3(i2, j2, k2, i as int, j as int, k as int));
                    let o = tet_off(t2, m2);
                    assert(0 <= o.0 <= 1 && 0 <= o.1 <= 1 && 0 <= o.2 <= 1);
                    lemma_node3(nx as int, ny as int, nz as int, i2 - o.0, j2 - o.1, k2 - o.2);
                }
            }
        }
    }
}

/// Initializes the distance around the free boundary in three dimensions.
///
/// Splits every cubic cell of the regular `dim.0 * dim.1 * dim.2` grid into
/// six tetrahedra and solves each one that the zero level set of `u` passes
/// through; every node keeps the elementwise minimum of the contributions it
/// receives, and nodes away from the boundary keep `SENTINEL`.
pub fn init_dist_3d(d: &mut Vec<i64>, u: &Vec<i64>, dim: (usize, usize, usize))
    requires
        old(d).len() == u.len(),
        dim.0 * dim.1 * dim.2 == u.len(),
        forall|q: int| 0 <= q < u.len() ==> sample_ok(#[trigger] u@[q] as int),
    ensures
        init3_post(u@, final(d)@, dim.0 as int, dim.1 as int, dim.2 as int),
{
    let nx = dim.0;
    let ny = dim.1;
    let nz = dim.2;
    let n = d.len();
    let mut q: usize = 0;
    while q < n
        invariant
            n == d.len(),
            d.len() == u.len(),
            q <= n,
            forall|p: int| 0 <= p < q ==> #[trigger] d@[p] == SENTINEL,
        decreases n - q,
    {
        d[q] = SENTINEL;
        q += 1;
    }

    let mut i: usize = 1;
    while i < nx
        invariant
            n == d.len(),
            d.len() == u.len(),
            nx * ny * nz == u.len(),
            forall|p: int| 0 <= p < u.len() ==> sample_ok(#[trigger] u@[p] as int),
            1 <= i,
            i <= nx || i == 1,
            forall|p: int| 0 <= p < d.len() ==> 0 <= #[trigger] d@[p] <= SENTINEL,
            init3_min_bound(u@, d@, ny as int, nz as int, i as int, 1, 1),
            init3_touched(u@, d@, ny as int, nz as int, i as int, 1, 1),
        decreases nx - i,
    {
        let mut j: usize = 1;
        while j < ny
            invariant
                n == d.len(),
                d.len() == u.len(),
                nx * ny * nz == u.len(),
                forall|p: int| 0 <= p < u.len() ==> sample_ok(#[trigger] u@[p] as int),
                1 <= i < nx,
                1 <= j,
                j <= ny || j == 1,
                forall|p: int| 0 <= p < d.len() ==> 0 <= #[trigger] d@[p] <= SENTINEL,
                init3_min_bound(u@, d@, ny as int, nz as int, i as int, j as int, 1),
                init3_touched(u@, d@, ny as int, nz as int, i as int, j as int, 1),
            decreases ny - j,
        {
            let mut k: usize = 1;
            while k < nz
                invariant
                    n == d.len(),
                    d.len() == u.len(),
                    nx * ny * nz == u.len(),
                    forall|p: int| 0 <= p < u.len() ==> sample_ok(#[trigger] u@[p] as int),
                    1 <= i < nx,
                    1 <= j < ny,
                    1 <= k,
                    k <= nz || k == 1,
                    forall|p: int| 0 <= p < d.len() ==> 0 <= #[trigger] d@[p] <= SENTINEL,
                    init3_min_bound(u@, d@, ny as int, nz as int, i as int, j as int, k as int),
                    init3_touched(u@, d@, ny as int, nz as int, i as int, j as int, k as int),
                decreases nz - k,
            {
                process_cell3(d, u, nx, ny, nz, i, j, k);
                k += 1;
            }
            proof {
                lemma_cursor3_move(
                    u@, d@, ny as int, nz as int,
                    i as int, j as int, k as int,
                    i as int, j as int + 1, 1,
                );
            }
            j += 1;
        }
        proof {
            lemma_cursor3_move(
                u@, d@, ny as int, nz as int,
                i as int, j as int, 1,
                i as int + 1, 1, 1,
            );
        }
        i += 1;
    }
    proof {
        lemma_cursor3_move(
            u@, d@, ny as int, nz as int,
            i as int, 1, 1,
            nx as int, 1, 1,
        );
    }
}

} // verus!
