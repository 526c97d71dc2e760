//! The fast sweeping method for the signed distance function on a regular grid.
//!
//! Scalars are exact fixed-point numbers (see `num`): an input level-set field
//! is a flat buffer of such scalars, and the solver writes the signed distance
//! from the field's zero level set into a caller-owned buffer of the same
//! shape. Distances near the interface are found in closed form on elementary
//! simplices; the rest of the grid is filled by Gauss-Seidel sweeps that relax
//! the discrete Eikonal equation.

pub mod num;
pub mod level_set;
pub mod eikonal;

use vstd::prelude::*;
use crate::num::{SCALE, SENTINEL, SPACING_MAX, mul_div};
use crate::level_set::{init_dist, init2_post, sample_ok, lemma_tri_none_iff, tri_at, tri_vertex};
use crate::eikonal::{fast_sweep_dist, sweep2_post, settled_from2, lemma_all_sentinel_settled};

verus! {

/// One entry of the final field: the unsigned distance scaled by the grid
/// spacing `h` and given the sign of the input sample; an unknown distance
/// stays at the (signed) sentinel.
pub open spec fn signed_value(v: int, uv: int, h: int) -> int {
    if v == SENTINEL as int {
        if uv < 0 { -(SENTINEL as int) } else { SENTINEL as int }
    } else {
        let w = v * h / (SCALE as int);
        if uv < 0 { -w } else { w }
    }
}

/// The final field is the unsigned field `m`, signed by `u` and scaled by `h`.
pub open spec fn signed_scaled(m: Seq<i64>, u: Seq<i64>, h: int, d: Seq<i64>) -> bool {
    &&& d.len() == m.len()
    &&& forall|q: int| 0 <= q < m.len() ==> #[trigger] d[q] as int == signed_value(
        m[q] as int,
        u[q] as int,
        h,
    )
}

/// A scaled unsigned distance keeps the sign of its sample and fits an `i64`.
proof fn lemma_signed_value_range(v: int, uv: int, h: int)
    requires
        0 <= v <= SENTINEL as int,
        0 < h <= SPACING_MAX as int,
    ensures
        0 <= v * h / (SCALE as int) <= 2147483648 * h,
        uv >= 0 ==> signed_value(v, uv, h) >= 0,
        uv < 0 ==> signed_value(v, uv, h) <= 0,
{
    vstd::arithmetic::div_mod::lemma_div_pos_is_pos(v * h, SCALE as int);
    assert(0 <= v * h <= SENTINEL as int * h) by (nonlinear_arith)
        requires 0 <= v <= SENTINEL as int, 0 < h;
    vstd::arithmetic::div_mod::lemma_div_is_ordered(v * h, SENTINEL as int * h, SCALE as int);
    assert(SENTINEL as int * h == (SCALE as int) * (2147483648 * h)) by (nonlinear_arith);
    vstd::arithmetic::div_mod::lemma_div_multiples_vanish(2147483648 * h, SCALE as int);
}

/// Computes the signed distance from the zero level set of the field `u`,
/// sampled on a regular grid of dimensions `dim` with spacing `h` between
/// neighboring nodes, into the preallocated buffer `d`.
///
/// The result is the unsigned grid distance produced by `init_dist` and
/// `fast_sweep_dist`, scaled by `h` and carrying the sign of `u` at each
/// node. A field without a sign change anywhere comes back as the signed
/// sentinel everywhere: `SENTINEL` if every sample is positive, `-SENTINEL`
/// if every sample is negative.
pub fn signed_distance(d: &mut Vec<i64>, u: &Vec<i64>, dim: (usize, usize), h: i64)
    requires
        old(d).len() == u.len(),
        dim.0 * dim.1 == u.len(),
        forall|q: int| 0 <= q < u.len() ==> sample_ok(#[trigger] u@[q] as int),
        0 < h <= SPACING_MAX,
    ensures
        final(d).len() == u.len(),
        exists|m1: Seq<i64>, m2: Seq<i64>|
            #[trigger] init2_post(u@, m1, dim.0 as int, dim.1 as int)
                && #[trigger] sweep2_post(m1, m2, dim.0 as int, dim.1 as int)
                && signed_scaled(m2, u@, h as int, final(d)@),
        forall|q: int| 0 <= q < u.len() && u@[q] >= 0 ==> #[trigger] final(d)@[q] >= 0,
        forall|q: int| 0 <= q < u.len() && u@[q] < 0 ==> #[trigger] final(d)@[q] <= 0,
        (forall|q: int| 0 <= q < u.len() ==> #[trigger] u@[q] > 0) ==> forall|q: int|
            0 <= q < u.len() ==> #[trigger] final(d)@[q] == SENTINEL,
        (forall|q: int| 0 <= q < u.len() ==> #[trigger] u@[q] < 0) ==> forall|q: int|
            0 <= q < u.len() ==> #[trigger] final(d)@[q] == -SENTINEL,
{
    let nx = dim.0;
    let ny = dim.1;
    init_dist(d, u, dim);
    let ghost m1 = d@;
    fast_sweep_dist(d, dim);
    let ghost m2 = d@;

    let n = d.len();
    let mut q: usize = 0;
    while q < n
        invariant
            n == d.len(),
            d.len() == u.len(),
            m2.len() == u.len(),
            q <= n,
            0 < h <= SPACING_MAX,
            forall|p: int| 0 <= p < m2.len() ==> 0 <= #[trigger] m2[p] <= SENTINEL,
            forall|p: int| q <= p < n ==> #[trigger] d@[p] == m2[p],
            forall|p: int| 0 <= p < q ==> #[trigger] d@[p] as int == signed_value(
                m2[p] as int,
                u@[p] as int,
                h as int,
            ),
        decreases n - q,
    {
        let v = d[q];
        proof {
            lemma_signed_value_range(v as int, u@[q as int] as int, h as int);
        }
        if v == SENTINEL {
            if u[q] < 0 {
                d[q] = -SENTINEL;
            }
        } else {
            let w = mul_div(v, h, SCALE);
            if u[q] < 0 {
                d[q] = -w;
            } else {
                d[q] = w;
            }
        }
        q += 1;
    }

    proof {
        assert(signed_scaled(m2, u@, h as int, d@));
        assert(exists|a: Seq<i64>, b: Seq<i64>|
            #[trigger] init2_post(u@, a, nx as int, ny as int)
                && #[trigger] sweep2_post(a, b, nx as int, ny as int)
                && signed_scaled(b, u@, h as int, d@)) by {
            assert(init2_post(u@, m1, nx as int, ny as int) && sweep2_post(
                m1,
                m2,
                nx as int,
                ny as int,
            ) && signed_scaled(m2, u@, h as int, d@));
        }
        assert forall|p: int| 0 <= p < u.len() && u@[p] >= 0 implies #[trigger] d@[p] >= 0 by {
            lemma_signed_value_range(m2[p] as int, u@[p] as int, h as int);
        }
        assert forall|p: int| 0 <= p < u.len() && u@[p] < 0 implies #[trigger] d@[p] <= 0 by {
            lemma_signed_value_range(m2[p] as int, u@[p] as int, h as int);
        }
        if forall|p: int| 0 <= p < u.len() ==> #[trigger] u@[p] > 0 {
            lemma_uniform_sign_keeps_sentinel(u@, m1, m2, nx as int, ny as int);
            assert forall|p: int| 0 <= p < u.len() implies #[trigger] d@[p] == SENTINEL by {
                assert(m2[p] == SENTINEL && u@[p] > 0);
            }
        }
        if forall|p: int| 0 <= p < u.len() ==> #[trigger] u@[p] < 0 {
            lemma_uniform_sign_keeps_sentinel(u@, m1, m2, nx as int, ny as int);
            assert forall|p: int| 0 <= p < u.len() implies #[trigger] d@[p] == -SENTINEL by {
                assert(m2[p] == SENTINEL && u@[p] < 0);
            }
        }
    }
}

/// A field whose samples all have one strict sign straddles no triangle, so
/// the initializer leaves every node unknown and the sweep solver, finding a
/// fixed point, changes nothing: the unsigned distance stays `SENTINEL`
/// everywhere.
pub proof fn lemma_uniform_sign_keeps_sentinel(
    u: Seq<i64>,
    m1: Seq<i64>,
    m2: Seq<i64>,
    nx: int,
    ny: int,
)
    requires
        init2_post(u, m1, nx, ny),
        sweep2_post(m1, m2, nx, ny),
        (forall|q: int| 0 <= q < u.len() ==> #[trigger] u[q] > 0) || (forall|q: int|
            0 <= q < u.len() ==> #[trigger] u[q] < 0),
    ensures
        forall|q: int| 0 <= q < m2.len() ==> #[trigger] m2[q] == SENTINEL,
{
    assert forall|q: int| 0 <= q < m1.len() implies #[trigger] m1[q] == SENTINEL by {
        if m1[q] != SENTINEL {
            let (i, j, t, m) = choose|i: int, j: int, t: int, m: int|
                1 <= i < nx && 1 <= j && crate::level_set::cell_done2(i, j, 1, ny) && 0 <= t < 2
                    && 0 <= m < 3 && #[trigger] tri_vertex(nx, i, j, t, m) == q
                    && tri_at(u, nx, i, j, t) is Some
                    && m1[q] as int == crate::level_set::tri_comp(tri_at(u, nx, i, j, t), m);
            assert(1 <= j < ny) by {
                assert(crate::level_set::cell_done2(i, j, 1, ny));
            }
            assert(nx + 1 <= j * nx + i && j * nx + i < nx * ny) by (nonlinear_arith)
                requires 1 <= i < nx, 1 <= j < ny;
            let v0 = tri_vertex(nx, i, j, t, 0);
            let v1 = tri_vertex(nx, i, j, t, 1);
            let v2 = tri_vertex(nx, i, j, t, 2);
            assert(0 <= v0 < u.len() && 0 <= v1 < u.len() && 0 <= v2 < u.len());
            lemma_tri_none_iff(u[v0] as int, u[v1] as int, u[v2] as int);
            assert(false);
        }
    }
    lemma_all_sentinel_settled(m1, nx, ny);
    assert(m2 == m1);
}

} // verus!
