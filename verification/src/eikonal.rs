//! The fast sweeping solver for the Eikonal equation `|grad d| = 1`.
//!
//! The grid is swept in the monotone orderings given by all sign combinations
//! of the axes (four in two dimensions, eight in three). At every node that
//! was not fixed by the local initializer,
//! the discrete upwind update is solved in closed form from the smallest
//! neighbor values, and the node keeps the minimum of its current value and
//! that candidate, so entries only ever decrease. The sweep set repeats until
//! nothing changes; integer scalars make that an exact fixed point.

use vstd::prelude::*;
use crate::num::{
    SCALE, SENTINEL, is_isqrt, isqrt_spec, isqrt, seq_sum, lemma_seq_sum_nonneg,
    lemma_seq_sum_update,
};
use crate::level_set::{node2, cell_done3};

verus! {

/// The smaller value of the two horizontal neighbors of node `(i, j)`;
/// a neighbor outside the grid counts as unknown.
pub open spec fn nbr_min_x(d: Seq<i64>, nx: int, i: int, j: int) -> int {
    let left: int = if i > 0 { d[j * nx + i - 1] as int } else { SENTINEL as int };
    let right: int = if i + 1 < nx { d[j * nx + i + 1] as int } else { SENTINEL as int };
    vstd::math::min(left, right)
}

/// The smaller value of the two vertical neighbors of node `(i, j)`.
pub open spec fn nbr_min_y(d: Seq<i64>, nx: int, ny: int, i: int, j: int) -> int {
    let down: int = if j > 0 { d[(j - 1) * nx + i] as int } else { SENTINEL as int };
    let up: int = if j + 1 < ny { d[(j + 1) * nx + i] as int } else { SENTINEL as int };
    vstd::math::min(down, up)
}

/// The upwind update from the two per-axis neighbor minima: one grid unit
/// more than the smaller one if that already exceeds the other, else the
/// smallest root of the two-term discrete quadratic
/// `(x - a)^2 + (x - b)^2 = SCALE^2`.
pub open spec fn pair_cand(ax: int, ay: int) -> int {
    let a = vstd::math::min(ax, ay);
    let b = vstd::math::max(ax, ay);
    if a >= SENTINEL as int {
        SENTINEL as int
    } else if a + SCALE as int <= b {
        a + SCALE as int
    } else {
        (a + b + isqrt_spec(2 * (SCALE as int) * (SCALE as int) - (b - a) * (b - a))) / 2
    }
}

/// The upwind update at node `(i, j)` of the field `d`.
pub open spec fn cand2(d: Seq<i64>, nx: int, ny: int, i: int, j: int) -> int {
    pair_cand(nbr_min_x(d, nx, i, j), nbr_min_y(d, nx, ny, i, j))
}

/// Every entry is a valid distance value.
pub open spec fn dist_bounded(d: Seq<i64>) -> bool {
    forall|p: int| 0 <= p < d.len() ==> 0 <= #[trigger] d[p] <= SENTINEL
}

/// Every node the mask leaves free satisfies the upwind inequality: no sweep
/// can lower it any further.
pub open spec fn settled2(d: Seq<i64>, fr: Seq<bool>, nx: int, ny: int) -> bool {
    forall|i: int, j: int| 0 <= i < nx && 0 <= j < ny && !fr[node2(nx, i, j)]
        ==> d[#[trigger] node2(nx, i, j)] as int <= cand2(d, nx, ny, i, j)
}

/// Nodes already settled up to the cursor `(ci, cj)` in row-major order.
pub open spec fn settled2_upto(d: Seq<i64>, fr: Seq<bool>, nx: int, ny: int, ci: int, cj: int) -> bool {
    forall|i: int, j: int| 0 <= i < nx && 0 <= j < ny && (j < cj || (j == cj && i < ci))
        && !fr[node2(nx, i, j)]
        ==> d[#[trigger] node2(nx, i, j)] as int <= cand2(d, nx, ny, i, j)
}

/// No free node sits below its (sentinel-clamped) upwind candidate: entries
/// only ever hold values that some earlier, no-smaller candidate gave them.
pub open spec fn above2(d: Seq<i64>, fr: Seq<bool>, nx: int, ny: int) -> bool {
    forall|i: int, j: int| 0 <= i < nx && 0 <= j < ny && !fr[node2(nx, i, j)]
        ==> d[#[trigger] node2(nx, i, j)] as int >= vstd::math::min(
            SENTINEL as int,
            cand2(d, nx, ny, i, j),
        )
}

/// What one run of the sweep solver establishes. Values never rise, fixed
/// boundary values (everything below `SENTINEL` on entry) are kept exactly,
/// every node unknown on entry ends up holding exactly its upwind candidate
/// (clamped at the sentinel), and a state that is already a fixed point is
/// left untouched.
pub open spec fn sweep2_post(d0: Seq<i64>, d1: Seq<i64>, nx: int, ny: int) -> bool {
    &&& d1.len() == d0.len()
    &&& (forall|p: int| 0 <= p < d0.len() ==> 0 <= #[trigger] d1[p] <= d0[p])
    &&& (forall|p: int| 0 <= p < d0.len() && #[trigger] d0[p] != SENTINEL ==> d1[p] == d0[p])
    &&& (forall|i: int, j: int| 0 <= i < nx && 0 <= j < ny && d0[node2(nx, i, j)] == SENTINEL
        ==> d1[#[trigger] node2(nx, i, j)] as int == vstd::math::min(
            SENTINEL as int,
            cand2(d1, nx, ny, i, j),
        ))
    &&& (settled_from2(d0, nx, ny) ==> d1 == d0)
}

/// The state is a fixed point of the sweep set when every node still unknown
/// satisfies the upwind inequality.
pub open spec fn settled_from2(d: Seq<i64>, nx: int, ny: int) -> bool {
    forall|i: int, j: int| 0 <= i < nx && 0 <= j < ny && d[node2(nx, i, j)] == SENTINEL
        ==> d[#[trigger] node2(nx, i, j)] as int <= cand2(d, nx, ny, i, j)
}

/// Index bounds for a node and its in-range neighbors.
proof fn lemma_node2_bounds(nx: int, ny: int, i: int, j: int)
    requires
        0 <= i < nx,
        0 <= j < ny,
    ensures
        0 <= j * nx + i < nx * ny,
        i > 0 ==> 0 <= j * nx + i - 1 < nx * ny,
        i + 1 < nx ==> 0 <= j * nx + i + 1 < nx * ny,
        j > 0 ==> 0 <= (j - 1) * nx + i < nx * ny,
        j + 1 < ny ==> 0 <= (j + 1) * nx + i < nx * ny,
        (j - 1) * nx + i == j * nx + i - nx,
        (j + 1) * nx + i == j * nx + i + nx,
{
    assert((0 <= j * nx + i) && (j * nx + i < nx * ny)
        && (i + 1 < nx ==> j * nx + i + 1 < nx * ny)
        && (j + 1 < ny ==> (j + 1) * nx + i < nx * ny)
        && (j > 0 ==> 0 <= (j - 1) * nx + i && (j - 1) * nx + i < nx * ny)
        && ((j - 1) * nx + i == j * nx + i - nx)
        && ((j + 1) * nx + i == j * nx + i + nx)) by (nonlinear_arith)
        requires 0 <= i < nx, 0 <= j < ny;
}


/// The two-term root lies between the larger input and one grid unit above
/// the smaller one.
proof fn lemma_two_root_bounds(a: int, b: int)
    requires
        0 <= a <= b,
        b - a < SCALE as int,
    ensures
        b <= (a + b + isqrt_spec(
            2 * (SCALE as int) * (SCALE as int) - (b - a) * (b - a),
        )) / 2,
        (a + b + isqrt_spec(2 * (SCALE as int) * (SCALE as int) - (b - a) * (b - a))) / 2 <= a
            + SCALE as int,
{
    let dl = b - a;
    let rad = 2 * (SCALE as int) * (SCALE as int) - dl * dl;
    assert(dl * dl <= 65536 * 65536 && 0 <= dl * dl) by (nonlinear_arith)
        requires 0 <= dl, dl < 65536;
    crate::num::lemma_isqrt_exists(rad);
    let r = isqrt_spec(rad);
    assert(is_isqrt(dl * dl, dl)) by (nonlinear_arith)
        requires 0 <= dl;
    crate::num::lemma_isqrt_unique(dl * dl, dl);
    crate::num::lemma_isqrt_ordered(dl * dl, rad);
    assert(rad <= (2 * 65536 - dl) * (2 * 65536 - dl)) by (nonlinear_arith)
        requires 0 <= dl, dl < 65536, rad == 2 * 65536 * 65536 - dl * dl;
    assert(r <= 2 * 65536 - dl) by {
        if r > 2 * 65536 - dl {
            assert(r * r > (2 * 65536 - dl) * (2 * 65536 - dl)) by (nonlinear_arith)
                requires r > 2 * 65536 - dl, 2 * 65536 - dl >= 0;
        }
    }
    vstd::arithmetic::div_mod::lemma_div_is_ordered(2 * b, a + b + r, 2);
    vstd::arithmetic::div_mod::lemma_div_is_ordered(a + b + r, 2 * (a + SCALE as int), 2);
    vstd::arithmetic::div_mod::lemma_div_multiples_vanish(b, 2);
    vstd::arithmetic::div_mod::lemma_div_multiples_vanish(a + SCALE as int, 2);
}

/// One step of: `dl + sqrt(2 * SCALE^2 - dl^2)` does not decrease with `dl`.
proof fn lemma_gfun_step(dl: int)
    requires
        0 <= dl,
        dl + 1 <= SCALE as int,
    ensures
        dl + isqrt_spec(2 * (SCALE as int) * (SCALE as int) - dl * dl) <= dl + 1 + isqrt_spec(
            2 * (SCALE as int) * (SCALE as int) - (dl + 1) * (dl + 1),
        ),
{
    let rad0 = 2 * (SCALE as int) * (SCALE as int) - dl * dl;
    let rad1 = 2 * (SCALE as int) * (SCALE as int) - (dl + 1) * (dl + 1);
    assert(2 * 65536 * 65536 - (dl + 1) * (dl + 1) >= 65536 * 65536) by (nonlinear_arith)
        requires 0 <= dl, dl + 1 <= 65536;
    assert((dl + 1) * (dl + 1) == dl * dl + 2 * dl + 1) by (nonlinear_arith);
    assert(rad1 >= 65536 * 65536);
    assert(rad0 == rad1 + 2 * dl + 1);
    crate::num::lemma_isqrt_exists(rad0);
    crate::num::lemma_isqrt_exists(rad1);
    let r1 = isqrt_spec(rad1);
    assert(is_isqrt((65536 * 65536) as int, 65536)) by (nonlinear_arith);
    crate::num::lemma_isqrt_unique((65536 * 65536) as int, 65536);
    crate::num::lemma_isqrt_ordered((65536 * 65536) as int, rad1);
    assert(rad0 < (r1 + 2) * (r1 + 2)) by (nonlinear_arith)
        requires
            rad1 < (r1 + 1) * (r1 + 1),
            rad0 == rad1 + 2 * dl + 1,
            dl + 1 <= 65536,
            r1 >= 65536,
    ;
    assert(isqrt_spec(rad0) <= r1 + 1) by {
        if isqrt_spec(rad0) >= r1 + 2 {
            assert(isqrt_spec(rad0) * isqrt_spec(rad0) >= (r1 + 2) * (r1 + 2))
                by (nonlinear_arith)
                requires isqrt_spec(rad0) >= r1 + 2, r1 + 2 >= 0;
        }
    }
}

/// `dl + sqrt(2 * SCALE^2 - dl^2)` is monotone in `dl` on `[0, SCALE]`.
proof fn lemma_gfun_mono(d2: int, d1: int)
    requires
        0 <= d2 <= d1,
        d1 <= SCALE as int,
    ensures
        d2 + isqrt_spec(2 * (SCALE as int) * (SCALE as int) - d2 * d2) <= d1 + isqrt_spec(
            2 * (SCALE as int) * (SCALE as int) - d1 * d1,
        ),
    decreases d1 - d2,
{
    if d2 < d1 {
        lemma_gfun_mono(d2, d1 - 1);
        lemma_gfun_step(d1 - 1);
    }
}

/// Lowering either axis minimum cannot raise the clamped upwind update.
proof fn lemma_pair_cand_mono(x1: int, y1: int, x2: int, y2: int)
    requires
        0 <= x2 <= x1 <= SENTINEL as int,
        0 <= y2 <= y1 <= SENTINEL as int,
    ensures
        vstd::math::min(SENTINEL as int, pair_cand(x2, y2)) <= vstd::math::min(
            SENTINEL as int,
            pair_cand(x1, y1),
        ),
{
    let a1 = vstd::math::min(x1, y1);
    let b1 = vstd::math::max(x1, y1);
    let a2 = vstd::math::min(x2, y2);
    let b2 = vstd::math::max(x2, y2);
    if a1 < SENTINEL as int {
        // every candidate of the lower state is at most a2 + SCALE
        if !(a2 + SCALE as int <= b2) {
            lemma_two_root_bounds(a2, b2);
        }
        assert(pair_cand(x2, y2) <= a2 + SCALE as int);
        if a1 + SCALE as int <= b1 {
            assert(pair_cand(x2, y2) <= a1 + SCALE as int);
        } else {
            // the upper state solves the quadratic; its root dominates b1
            lemma_two_root_bounds(a1, b1);
            if a2 + SCALE as int <= b2 {
                assert(pair_cand(x2, y2) == a2 + SCALE as int);
                assert(a2 + SCALE as int <= b2);
            } else {
                // both states solve the quadratic: the numerators are ordered
                if b2 - a2 >= b1 - a1 {
                    assert(0 <= (b1 - a1) * (b1 - a1) && (b1 - a1) * (b1 - a1) <= 65536 * 65536)
                        by (nonlinear_arith)
                        requires 0 <= b1 - a1, b1 - a1 < 65536;
                    assert(0 <= (b2 - a2) * (b2 - a2) && (b2 - a2) * (b2 - a2) <= 65536 * 65536)
                        by (nonlinear_arith)
                        requires 0 <= b2 - a2, b2 - a2 < 65536;
                    crate::num::lemma_isqrt_exists(
                        2 * (SCALE as int) * (SCALE as int) - (b1 - a1) * (b1 - a1),
                    );
                    crate::num::lemma_isqrt_exists(
                        2 * (SCALE as int) * (SCALE as int) - (b2 - a2) * (b2 - a2),
                    );
                    assert((b2 - a2) * (b2 - a2) >= (b1 - a1) * (b1 - a1)) by (nonlinear_arith)
                        requires 0 <= b1 - a1 <= b2 - a2;
                    crate::num::lemma_isqrt_ordered(
                        2 * (SCALE as int) * (SCALE as int) - (b2 - a2) * (b2 - a2),
                        2 * (SCALE as int) * (SCALE as int) - (b1 - a1) * (b1 - a1),
                    );
                } else {
                    lemma_gfun_mono(b2 - a2, b1 - a1);
                }
                vstd::arithmetic::div_mod::lemma_div_is_ordered(
                    a2 + b2 + isqrt_spec(
                        2 * (SCALE as int) * (SCALE as int) - (b2 - a2) * (b2 - a2),
                    ),
                    a1 + b1 + isqrt_spec(
                        2 * (SCALE as int) * (SCALE as int) - (b1 - a1) * (b1 - a1),
                    ),
                    2,
                );
            }
        }
    }
}

/// Lowering entries pointwise cannot raise the clamped upwind update.
proof fn lemma_ccand2_mono(d1: Seq<i64>, d2: Seq<i64>, nx: int, ny: int, i: int, j: int)
    requires
        d1.len() == d2.len(),
        d1.len() == nx * ny,
        0 <= i < nx,
        0 <= j < ny,
        dist_bounded(d1),
        dist_bounded(d2),
        forall|p: int| 0 <= p < d1.len() ==> #[trigger] d2[p] <= d1[p],
    ensures
        vstd::math::min(SENTINEL as int, cand2(d2, nx, ny, i, j)) <= vstd::math::min(
            SENTINEL as int,
            cand2(d1, nx, ny, i, j),
        ),
{
    lemma_node2_bounds(nx, ny, i, j);
    assert(nbr_min_x(d2, nx, i, j) <= nbr_min_x(d1, nx, i, j));
    assert(nbr_min_y(d2, nx, ny, i, j) <= nbr_min_y(d1, nx, ny, i, j));
    lemma_pair_cand_mono(
        nbr_min_x(d1, nx, i, j),
        nbr_min_y(d1, nx, ny, i, j),
        nbr_min_x(d2, nx, i, j),
        nbr_min_y(d2, nx, ny, i, j),
    );
}

/// The upwind update never reads the node it updates.
proof fn lemma_cand2_self(d: Seq<i64>, nx: int, ny: int, i: int, j: int, v: i64)
    requires
        d.len() == nx * ny,
        0 <= i < nx,
        0 <= j < ny,
    ensures
        cand2(d.update(node2(nx, i, j), v), nx, ny, i, j) == cand2(d, nx, ny, i, j),
{
    lemma_node2_bounds(nx, ny, i, j);
    let d2 = d.update(node2(nx, i, j), v);
    assert(nbr_min_x(d2, nx, i, j) == nbr_min_x(d, nx, i, j));
    assert(nbr_min_y(d2, nx, ny, i, j) == nbr_min_y(d, nx, ny, i, j));
}

/// Two in-range coordinate pairs with one linear offset coincide.
proof fn lemma_node2_inj(nx: int, i: int, j: int, i2: int, j2: int)
    requires
        0 <= i < nx,
        0 <= i2 < nx,
        0 <= j,
        0 <= j2,
        node2(nx, i, j) == node2(nx, i2, j2),
    ensures
        i == i2 && j == j2,
{
    assert(i == i2 && j == j2) by (nonlinear_arith)
        requires
            j * nx + i == j2 * nx + i2,
            0 <= i < nx,
            0 <= i2 < nx,
            0 <= j,
            0 <= j2,
    ;
}

/// One node update keeps every free node at or above its clamped candidate.
proof fn lemma_above2_step(
    dpre: Seq<i64>,
    dpost: Seq<i64>,
    fr: Seq<bool>,
    nx: int,
    ny: int,
    i: int,
    j: int,
)
    requires
        dpre.len() == nx * ny,
        fr.len() == dpre.len(),
        dpost.len() == dpre.len(),
        0 <= i < nx,
        0 <= j < ny,
        dist_bounded(dpre),
        dist_bounded(dpost),
        dpost == dpre.update(node2(nx, i, j), dpost[node2(nx, i, j)]),
        dpost[node2(nx, i, j)] <= dpre[node2(nx, i, j)],
        fr[node2(nx, i, j)] ==> dpost == dpre,
        !fr[node2(nx, i, j)] ==> dpost[node2(nx, i, j)] as int == vstd::math::min(
            dpre[node2(nx, i, j)] as int,
            cand2(dpre, nx, ny, i, j),
        ),
        above2(dpre, fr, nx, ny),
    ensures
        above2(dpost, fr, nx, ny),
{
    let s = node2(nx, i, j);
    lemma_node2_bounds(nx, ny, i, j);
    assert forall|i2: int, j2: int|
        0 <= i2 < nx && 0 <= j2 < ny && !fr[node2(nx, i2, j2)]
        implies dpost[#[trigger] node2(nx, i2, j2)] as int >= vstd::math::min(
            SENTINEL as int,
            cand2(dpost, nx, ny, i2, j2),
        ) by {
        lemma_node2_bounds(nx, ny, i2, j2);
        if node2(nx, i2, j2) == s {
            lemma_node2_inj(nx, i, j, i2, j2);
            lemma_cand2_self(dpre, nx, ny, i, j, dpost[s]);
            assert(cand2(dpost, nx, ny, i, j) == cand2(dpre, nx, ny, i, j));
            assert(dpre[s] as int >= vstd::math::min(
                SENTINEL as int,
                cand2(dpre, nx, ny, i, j),
            ));
        } else {
            assert(dpost[node2(nx, i2, j2)] == dpre[node2(nx, i2, j2)]);
            lemma_ccand2_mono(dpre, dpost, nx, ny, i2, j2);
        }
    }
}

/// The exact upwind update at node `(i, j)` of the current state.
#[verifier::rlimit(100)]
fn compute_cand2(d: &Vec<i64>, nx: usize, ny: usize, i: usize, j: usize) -> (c: i64)
    requires
        nx * ny == d.len(),
        i < nx,
        j < ny,
        dist_bounded(d@),
    ensures
        c as int == cand2(d@, nx as int, ny as int, i as int, j as int),
        0 <= c,
{
    proof {
        lemma_node2_bounds(nx as int, ny as int, i as int, j as int);
    }
    let s = j * nx + i;
    let left = if i > 0 { d[s - 1] } else { SENTINEL };
    let right = if i + 1 < nx { d[s + 1] } else { SENTINEL };
    let down = if j > 0 { d[s - nx] } else { SENTINEL };
    let up = if j + 1 < ny { d[s + nx] } else { SENTINEL };
    let ax = if left < right { left } else { right };
    let ay = if down < up { down } else { up };
    let (a, b) = if ax <= ay { (ax, ay) } else { (ay, ax) };
    if a >= SENTINEL {
        SENTINEL
    } else if b - a >= SCALE {
        a + SCALE
    } else {
        let diff = b - a;
        proof {
            assert(0 <= (diff as int) * (diff as int) && (diff as int) * (diff as int)
                < 4294967296) by (nonlinear_arith)
                requires 0 <= diff as int, (diff as int) < 65536;
        }
        let rad = 8589934592 - diff * diff;
        proof {
            assert(2 * (SCALE as int) * (SCALE as int) == 8589934592);
        }
        let r = isqrt(rad as u128);
        proof {
            assert(r as int <= 200000) by {
                if r as int > 200000 {
                    assert(r as int * r as int > 200000 * 200000) by (nonlinear_arith)
                        requires r as int > 200000;
                }
            }
        }
        let x = ((a as u64) + (b as u64) + (r as u64)) / 2;
        x as i64
    }
}

/// One node update: the node keeps the minimum of its value and the upwind
/// candidate; masked (boundary) nodes are left alone.
fn relax2(d: &mut Vec<i64>, frozen: &Vec<bool>, nx: usize, ny: usize, i: usize, j: usize) -> (ch:
    bool)
    requires
        nx * ny == old(d).len(),
        frozen.len() == old(d).len(),
        i < nx,
        j < ny,
        dist_bounded(old(d)@),
    ensures
        final(d)@.len() == old(d)@.len(),
        dist_bounded(final(d)@),
        final(d)@ == old(d)@.update(
            node2(nx as int, i as int, j as int),
            final(d)@[node2(nx as int, i as int, j as int)],
        ),
        final(d)@[node2(nx as int, i as int, j as int)]
            <= old(d)@[node2(nx as int, i as int, j as int)],
        frozen@[node2(nx as int, i as int, j as int)] ==> final(d)@ == old(d)@,
        !frozen@[node2(nx as int, i as int, j as int)]
            ==> final(d)@[node2(nx as int, i as int, j as int)] as int == vstd::math::min(
            old(d)@[node2(nx as int, i as int, j as int)] as int,
            cand2(old(d)@, nx as int, ny as int, i as int, j as int),
        ),
        ch == (final(d)@ != old(d)@),
        !ch ==> final(d)@ == old(d)@,
        ch ==> seq_sum(final(d)@) < seq_sum(old(d)@),
{
    proof {
        lemma_node2_bounds(nx as int, ny as int, i as int, j as int);
    }
    let s = j * nx + i;
    let ghost d0 = d@;
    let mut ch = false;
    if !frozen[s] {
        let c = compute_cand2(d, nx, ny, i, j);
        let cur = d[s];
        if c < cur {
            d[s] = c;
            ch = true;
            proof {
                lemma_seq_sum_update(d0, s as int, c);
                assert(d@ != d0) by {
                    assert(d@[s as int] != d0[s as int]);
                }
            }
        }
    }
    proof {
        if !ch {
            assert(d@ =~= d0.update(s as int, d0[s as int]));
        }
    }
    ch
}

/// One full sweep of the grid in the ordering given by the two direction
/// flags (`true` is ascending). Returns whether anything changed; in the
/// doubly ascending ordering an unchanged sweep certifies the fixed point.
fn sweep2(d: &mut Vec<i64>, frozen: &Vec<bool>, nx: usize, ny: usize, fx: bool, fy: bool) -> (ch:
    bool)
    requires
        nx * ny == old(d).len(),
        frozen.len() == old(d).len(),
        dist_bounded(old(d)@),
        above2(old(d)@, frozen@, nx as int, ny as int),
    ensures
        final(d)@.len() == old(d)@.len(),
        dist_bounded(final(d)@),
        forall|p: int| 0 <= p < old(d)@.len() ==> #[trigger] final(d)@[p] <= old(d)@[p],
        forall|p: int| 0 <= p < old(d)@.len() && frozen@[p] ==> #[trigger] final(d)@[p] == old(
            d,
        )@[p],
        !ch ==> final(d)@ == old(d)@,
        ch ==> seq_sum(final(d)@) < seq_sum(old(d)@),
        (!ch && fx && fy) ==> settled2(final(d)@, frozen@, nx as int, ny as int),
        settled2(old(d)@, frozen@, nx as int, ny as int) ==> (!ch && final(d)@ == old(d)@),
        above2(final(d)@, frozen@, nx as int, ny as int),
    {
    let ghost dsw = d@;
    let mut ch = false;
    let mut jj: usize = 0;
    while jj < ny
        invariant
            nx * ny == d.len(),
            frozen.len() == d.len(),
            d.len() == dsw.len(),
            dist_bounded(d@),
            above2(d@, frozen@, nx as int, ny as int),
            jj <= ny,
            forall|p: int| 0 <= p < dsw.len() ==> #[trigger] d@[p] <= dsw[p],
            forall|p: int| 0 <= p < dsw.len() && frozen@[p] ==> #[trigger] d@[p] == dsw[p],
            !ch ==> d@ == dsw,
            ch ==> seq_sum(d@) < seq_sum(dsw),
            (!ch && fx && fy) ==> settled2_upto(d@, frozen@, nx as int, ny as int, 0, jj as int),
            settled2(dsw, frozen@, nx as int, ny as int) ==> (!ch && d@ == dsw),
        decreases ny - jj,
    {
        let j = if fy { jj } else { ny - 1 - jj };
        let mut ii: usize = 0;
        while ii < nx
            invariant
                nx * ny == d.len(),
                frozen.len() == d.len(),
                d.len() == dsw.len(),
                dist_bounded(d@),
                above2(d@, frozen@, nx as int, ny as int),
                jj < ny,
                j == if fy { jj as int } else { ny - 1 - jj },
                ii <= nx,
                forall|p: int| 0 <= p < dsw.len() ==> #[trigger] d@[p] <= dsw[p],
                forall|p: int| 0 <= p < dsw.len() && frozen@[p] ==> #[trigger] d@[p] == dsw[p],
                !ch ==> d@ == dsw,
                ch ==> seq_sum(d@) < seq_sum(dsw),
                (!ch && fx && fy) ==> settled2_upto(
                    d@,
                    frozen@,
                    nx as int,
                    ny as int,
                    ii as int,
                    jj as int,
                ),
                settled2(dsw, frozen@, nx as int, ny as int) ==> (!ch && d@ == dsw),
            decreases nx - ii,
        {
            let i = if fx { ii } else { nx - 1 - ii };
            let ghost dpre = d@;
            let c = relax2(d, frozen, nx, ny, i, j);
            proof {
                let s = node2(nx as int, i as int, j as int);
                lemma_node2_bounds(nx as int, ny as int, i as int, j as int);
                lemma_above2_step(
                    dpre,
                    d@,
                    frozen@,
                    nx as int,
                    ny as int,
                    i as int,
                    j as int,
                );
                if settled2(dsw, frozen@, nx as int, ny as int) && dpre == dsw {
                    // a fixed point stays: the candidate cannot be smaller
                    assert(!frozen@[s] ==> dsw[s] as int <= cand2(
                        dsw,
                        nx as int,
                        ny as int,
                        i as int,
                        j as int,
                    ));
                    assert(d@ =~= dsw);
                    assert(!c);
                }
                if !c {
                    assert(d@ == dpre);
                }
                if !ch && !c && fx && fy {
                    assert(settled2_upto(
                        d@,
                        frozen@,
                        nx as int,
                        ny as int,
                        ii as int + 1,
                        jj as int,
                    )) by {
                        assert forall|i2: int, j2: int|
                            0 <= i2 < nx && 0 <= j2 < ny && (j2 < jj as int || (j2 == jj as int
                                && i2 < ii as int + 1)) && !frozen@[node2(nx as int, i2, j2)]
                            implies d@[#[trigger] node2(nx as int, i2, j2)] as int <= cand2(
                                d@,
                                nx as int,
                                ny as int,
                                i2,
                                j2,
                            ) by {
                            if i2 == ii as int && j2 == jj as int {
                                assert(d@[s] as int <= cand2(
                                    d@,
                                    nx as int,
                                    ny as int,
                                    i as int,
                                    j as int,
                                ));
                            }
                        }
                    }
                }
            }
            ch = ch || c;
            ii += 1;
        }
        proof {
            if !ch && fx && fy {
                assert(settled2_upto(d@, frozen@, nx as int, ny as int, 0, jj as int + 1)) by {
                    assert forall|i2: int, j2: int|
                        0 <= i2 < nx && 0 <= j2 < ny && (j2 < jj as int + 1 || (j2 == jj as int + 1
                            && i2 < 0)) && !frozen@[node2(nx as int, i2, j2)]
                        implies d@[#[trigger] node2(nx as int, i2, j2)] as int <= cand2(
                            d@,
                            nx as int,
                            ny as int,
                            i2,
                            j2,
                        ) by {
                        assert(j2 < jj as int || (j2 == jj as int && i2 < nx as int));
                    }
                }
            }
        }
        jj += 1;
    }
    ch
}

/// Fills the unknown part of a partially initialized distance field.
///
/// Entries below `SENTINEL` are treated as exact boundary values and kept;
/// every other node is relaxed by repeated monotone sweeps until the whole
/// grid satisfies the discrete upwind Eikonal inequality. Entries never
/// increase, so a field that is already a fixed point comes back unchanged.
pub fn fast_sweep_dist(d: &mut Vec<i64>, dim: (usize, usize))
    requires
        dim.0 * dim.1 == old(d).len(),
        dist_bounded(old(d)@),
    ensures
        sweep2_post(old(d)@, final(d)@, dim.0 as int, dim.1 as int),
{
    let nx = dim.0;
    let ny = dim.1;
    let ghost dent = d@;
    let mut frozen: Vec<bool> = Vec::new();
    let mut q: usize = 0;
    let n = d.len();
    while q < n
        invariant
            n == d.len(),
            d@ == dent,
            q <= n,
            frozen.len() == q,
            forall|p: int| 0 <= p < q ==> frozen@[p] == (#[trigger] dent[p] != SENTINEL),
        decreases n - q,
    {
        frozen.push(d[q] != SENTINEL);
        q += 1;
    }

    proof {
        assert(above2(d@, frozen@, nx as int, ny as int)) by {
            assert forall|i: int, j: int|
                0 <= i < nx && 0 <= j < ny && !frozen@[node2(nx as int, i, j)]
                implies d@[#[trigger] node2(nx as int, i, j)] as int >= vstd::math::min(
                    SENTINEL as int,
                    cand2(d@, nx as int, ny as int, i, j),
                ) by {
                lemma_node2_bounds(nx as int, ny as int, i, j);
                assert(d@[node2(nx as int, i, j)] == SENTINEL);
            }
        }
    }
    let mut go = true;
    while go
        invariant
            nx * ny == d.len(),
            frozen.len() == d.len(),
            d.len() == dent.len(),
            dist_bounded(d@),
            above2(d@, frozen@, nx as int, ny as int),
            forall|p: int| 0 <= p < dent.len() ==> frozen@[p] == (#[trigger] dent[p] != SENTINEL),
            forall|p: int| 0 <= p < dent.len() ==> #[trigger] d@[p] <= dent[p],
            forall|p: int| 0 <= p < dent.len() && frozen@[p] ==> #[trigger] d@[p] == dent[p],
            !go ==> settled2(d@, frozen@, nx as int, ny as int),
            settled2(dent, frozen@, nx as int, ny as int) ==> d@ == dent,
        decreases seq_sum(d@) + (if go { 1int } else { 0 }),
    {
        let ghost dloop = d@;
        proof {
            lemma_seq_sum_nonneg(d@);
        }
        let c1 = sweep2(d, &frozen, nx, ny, true, true);
        let ghost dafter1 = d@;
        let c2 = sweep2(d, &frozen, nx, ny, true, false);
        let c3 = sweep2(d, &frozen, nx, ny, false, true);
        let c4 = sweep2(d, &frozen, nx, ny, false, false);
        if !(c1 || c2 || c3 || c4) {
            go = false;
            proof {
                assert(d@ == dafter1);
                assert(settled2(d@, frozen@, nx as int, ny as int));
            }
        }
        proof {
            lemma_seq_sum_nonneg(d@);
        }
    }
    proof {
        assert forall|i: int, j: int|
            0 <= i < nx && 0 <= j < ny && dent[node2(nx as int, i, j)] == SENTINEL
            implies d@[#[trigger] node2(nx as int, i, j)] as int == vstd::math::min(
                SENTINEL as int,
                cand2(d@, nx as int, ny as int, i, j),
            ) by {
            lemma_node2_bounds(nx as int, ny as int, i, j);
            assert(!frozen@[node2(nx as int, i, j)]);
            // settled gives the upper bound, the standing invariant the lower
            assert(d@[node2(nx as int, i, j)] as int <= cand2(d@, nx as int, ny as int, i, j));
            assert(d@[node2(nx as int, i, j)] <= SENTINEL);
            assert(d@[node2(nx as int, i, j)] as int >= vstd::math::min(
                SENTINEL as int,
                cand2(d@, nx as int, ny as int, i, j),
            ));
        }
        if settled_from2(dent, nx as int, ny as int) {
            assert(settled2(dent, frozen@, nx as int, ny as int)) by {
                assert forall|i: int, j: int|
                    0 <= i < nx && 0 <= j < ny && !frozen@[node2(nx as int, i, j)]
                    implies dent[#[trigger] node2(nx as int, i, j)] as int <= cand2(
                        dent,
                        nx as int,
                        ny as int,
                        i,
                        j,
                    ) by {
                    lemma_node2_bounds(nx as int, ny as int, i, j);
                    assert(dent[node2(nx as int, i, j)] == SENTINEL);
                }
            }
        }
    }
}

/// A field that is unknown everywhere is a fixed point of the sweep set:
/// every candidate is itself the sentinel.
pub proof fn lemma_all_sentinel_settled(d: Seq<i64>, nx: int, ny: int)
    requires
        d.len() == nx * ny,
        forall|q: int| 0 <= q < d.len() ==> #[trigger] d[q] == SENTINEL,
    ensures
        settled_from2(d, nx, ny),
{
    assert forall|i: int, j: int|
        0 <= i < nx && 0 <= j < ny && d[node2(nx, i, j)] == SENTINEL
        implies d[#[trigger] node2(nx, i, j)] as int <= cand2(d, nx, ny, i, j) by {
        lemma_node2_bounds(nx, ny, i, j);
        assert(nbr_min_x(d, nx, i, j) == SENTINEL as int);
        assert(nbr_min_y(d, nx, ny, i, j) == SENTINEL as int);
    }
}

/// Monotone convergence of the sweep solver: its output is a fixed point of
/// the sweep set, so a further run of `fast_sweep_dist` leaves every entry
/// exactly as it is (and, by `sweep2_post`, no run ever increases an entry).
pub proof fn lemma_sweep_idempotent(d0: Seq<i64>, d1: Seq<i64>, d2: Seq<i64>, nx: int, ny: int)
    requires
        d0.len() == nx * ny,
        sweep2_post(d0, d1, nx, ny),
        sweep2_post(d1, d2, nx, ny),
    ensures
        settled_from2(d1, nx, ny),
        d2 == d1,
{
    assert forall|i: int, j: int|
        0 <= i < nx && 0 <= j < ny && d1[node2(nx, i, j)] == SENTINEL
        implies d1[#[trigger] node2(nx, i, j)] as int <= cand2(d1, nx, ny, i, j) by {
        lemma_node2_bounds(nx, ny, i, j);
        assert(d0[node2(nx, i, j)] == SENTINEL);
    }
}


/// Linear offset of node `(i, j, k)` on an `nx * ny * nz` grid.
pub open spec fn node3(ny: int, nz: int, i: int, j: int, k: int) -> int {
    i * ny * nz + j * nz + k
}

/// The smaller value of the two x-axis neighbors of node `(i, j, k)`.
pub open spec fn nbr3_min_x(d: Seq<i64>, ny: int, nz: int, nx: int, i: int, j: int, k: int) -> int {
    let lo: int = if i > 0 { d[node3(ny, nz, i - 1, j, k)] as int } else { SENTINEL as int };
    let hi: int = if i + 1 < nx { d[node3(ny, nz, i + 1, j, k)] as int } else { SENTINEL as int };
    vstd::math::min(lo, hi)
}

/// The smaller value of the two y-axis neighbors of node `(i, j, k)`.
pub open spec fn nbr3_min_y(d: Seq<i64>, ny: int, nz: int, i: int, j: int, k: int) -> int {
    let lo: int = if j > 0 { d[node3(ny, nz, i, j - 1, k)] as int } else { SENTINEL as int };
    let hi: int = if j + 1 < ny { d[node3(ny, nz, i, j + 1, k)] as int } else { SENTINEL as int };
    vstd::math::min(lo, hi)
}

/// The smaller value of the two z-axis neighbors of node `(i, j, k)`.
pub open spec fn nbr3_min_z(d: Seq<i64>, ny: int, nz: int, i: int, j: int, k: int) -> int {
    let lo: int = if k > 0 { d[node3(ny, nz, i, j, k - 1)] as int } else { SENTINEL as int };
    let hi: int = if k + 1 < nz { d[node3(ny, nz, i, j, k + 1)] as int } else { SENTINEL as int };
    vstd::math::min(lo, hi)
}

/// The three per-axis neighbor minima of node `(i, j, k)`, sorted ascending.
pub open spec fn sorted3(x: int, y: int, z: int) -> (int, int, int) {
    let a = vstd::math::min(x, vstd::math::min(y, z));
    let c = vstd::math::max(x, vstd::math::max(y, z));
    (a, x + y + z - a - c, c)
}

/// The upwind update at node `(i, j, k)`: the smallest root consistent with
/// upwinding, drawing in the sorted per-axis minima one at a time.
pub open spec fn cand3(d: Seq<i64>, nx: int, ny: int, nz: int, i: int, j: int, k: int) -> int {
    let s = sorted3(
        nbr3_min_x(d, ny, nz, nx, i, j, k),
        nbr3_min_y(d, ny, nz, i, j, k),
        nbr3_min_z(d, ny, nz, i, j, k),
    );
    let a = s.0;
    let b = s.1;
    let c = s.2;
    if a >= SENTINEL as int {
        SENTINEL as int
    } else if a + SCALE as int <= b {
        a + SCALE as int
    } else {
        let x2 = (a + b + isqrt_spec(2 * (SCALE as int) * (SCALE as int) - (b - a) * (b - a))) / 2;
        if x2 <= c {
            x2
        } else {
            let disc = 3 * (SCALE as int) * (SCALE as int) - (a - b) * (a - b) - (b - c) * (b - c)
                - (a - c) * (a - c);
            if disc < 0 {
                x2
            } else {
                (a + b + c + isqrt_spec(disc)) / 3
            }
        }
    }
}

/// Every node the mask leaves free satisfies the upwind inequality.
pub open spec fn settled3(d: Seq<i64>, fr: Seq<bool>, nx: int, ny: int, nz: int) -> bool {
    forall|i: int, j: int, k: int| 0 <= i < nx && 0 <= j < ny && 0 <= k < nz
        && !fr[node3(ny, nz, i, j, k)]
        ==> d[#[trigger] node3(ny, nz, i, j, k)] as int <= cand3(d, nx, ny, nz, i, j, k)
}

/// Nodes already settled up to the cursor in sweep order.
pub open spec fn settled3_upto(d: Seq<i64>, fr: Seq<bool>, nx: int, ny: int, nz: int, ci: int, cj: int, ck: int) -> bool {
    forall|i: int, j: int, k: int| 0 <= i < nx && 0 <= j < ny && 0 <= k < nz
        && cell_done3(i, j, k, ci, cj, ck) && !fr[node3(ny, nz, i, j, k)]
        ==> d[#[trigger] node3(ny, nz, i, j, k)] as int <= cand3(d, nx, ny, nz, i, j, k)
}

/// The state is a fixed point of the sweep set when every node still unknown
/// satisfies the upwind inequality.
pub open spec fn settled_from3(d: Seq<i64>, nx: int, ny: int, nz: int) -> bool {
    forall|i: int, j: int, k: int| 0 <= i < nx && 0 <= j < ny && 0 <= k < nz
        && d[node3(ny, nz, i, j, k)] == SENTINEL
        ==> d[#[trigger] node3(ny, nz, i, j, k)] as int <= cand3(d, nx, ny, nz, i, j, k)
}

/// What one run of the three-dimensional sweep solver establishes.
pub open spec fn sweep3_post(d0: Seq<i64>, d1: Seq<i64>, nx: int, ny: int, nz: int) -> bool {
    &&& d1.len() == d0.len()
    &&& (forall|p: int| 0 <= p < d0.len() ==> 0 <= #[trigger] d1[p] <= d0[p])
    &&& (forall|p: int| 0 <= p < d0.len() && #[trigger] d0[p] != SENTINEL ==> d1[p] == d0[p])
    &&& (forall|i: int, j: int, k: int| 0 <= i < nx && 0 <= j < ny && 0 <= k < nz
        && d0[node3(ny, nz, i, j, k)] == SENTINEL
        ==> d1[#[trigger] node3(ny, nz, i, j, k)] as int <= cand3(d1, nx, ny, nz, i, j, k))
    &&& (settled_from3(d0, nx, ny, nz) ==> d1 == d0)
}

/// Index bounds for a node and its in-range neighbors in three dimensions.
proof fn lemma_node3_bounds(nx: int, ny: int, nz: int, i: int, j: int, k: int)
    requires
        0 <= i < nx,
        0 <= j < ny,
        0 <= k < nz,
    ensures
        0 <= node3(ny, nz, i, j, k) < nx * ny * nz,
        i > 0 ==> 0 <= node3(ny, nz, i - 1, j, k) < nx * ny * nz,
        i + 1 < nx ==> 0 <= node3(ny, nz, i + 1, j, k) < nx * ny * nz,
        j > 0 ==> 0 <= node3(ny, nz, i, j - 1, k) < nx * ny * nz,
        j + 1 < ny ==> 0 <= node3(ny, nz, i, j + 1, k) < nx * ny * nz,
        k > 0 ==> 0 <= node3(ny, nz, i, j, k - 1) < nx * ny * nz,
        k + 1 < nz ==> 0 <= node3(ny, nz, i, j, k + 1) < nx * ny * nz,
        node3(ny, nz, i - 1, j, k) == node3(ny, nz, i, j, k) - ny * nz,
        node3(ny, nz, i + 1, j, k) == node3(ny, nz, i, j, k) + ny * nz,
        node3(ny, nz, i, j - 1, k) == node3(ny, nz, i, j, k) - nz,
        node3(ny, nz, i, j + 1, k) == node3(ny, nz, i, j, k) + nz,
        node3(ny, nz, i, j, k - 1) == node3(ny, nz, i, j, k) - 1,
        node3(ny, nz, i, j, k + 1) == node3(ny, nz, i, j, k) + 1,
        0 <= i * ny <= i * ny * nz,
        0 <= j * nz,
        ny * nz <= nx * ny * nz,
{
    assert((0 <= i * ny && i * ny <= i * ny * nz) && (0 <= j * nz)
        && (ny * nz <= nx * ny * nz)) by (nonlinear_arith)
        requires 0 <= i < nx, 0 <= j < ny, 0 <= k < nz;
    assert((0 <= i * ny * nz + j * nz + k) && (i * ny * nz + j * nz + k < nx * ny * nz)
        && ((i - 1) * ny * nz == i * ny * nz - ny * nz)
        && ((i + 1) * ny * nz == i * ny * nz + ny * nz)
        && ((j - 1) * nz == j * nz - nz)
        && ((j + 1) * nz == j * nz + nz)
        && (i > 0 ==> 0 <= (i - 1) * ny * nz + j * nz + k)
        && (i + 1 < nx ==> (i + 1) * ny * nz + j * nz + k < nx * ny * nz)
        && (j > 0 ==> 0 <= i * ny * nz + (j - 1) * nz + k)
        && (j + 1 < ny ==> i * ny * nz + (j + 1) * nz + k < nx * ny * nz)) by (nonlinear_arith)
        requires 0 <= i < nx, 0 <= j < ny, 0 <= k < nz;
}

/// The three per-axis neighbor minima at node `(i, j, k)`.
fn axis_mins3(d: &Vec<i64>, nx: usize, ny: usize, nz: usize, i: usize, j: usize, k: usize) -> (m: (i64, i64, i64))
    requires
        nx * ny * nz == d.len(),
        i < nx,
        j < ny,
        k < nz,
        dist_bounded(d@),
    ensures
        m.0 as int == nbr3_min_x(d@, ny as int, nz as int, nx as int, i as int, j as int, k as int),
        m.1 as int == nbr3_min_y(d@, ny as int, nz as int, i as int, j as int, k as int),
        m.2 as int == nbr3_min_z(d@, ny as int, nz as int, i as int, j as int, k as int),
        0 <= m.0 <= SENTINEL,
        0 <= m.1 <= SENTINEL,
        0 <= m.2 <= SENTINEL,
{
    proof {
        lemma_node3_bounds(nx as int, ny as int, nz as int, i as int, j as int, k as int);
    }
    let s = i * ny * nz + j * nz + k;
    let xlo = if i > 0 { d[s - ny * nz] } else { SENTINEL };
    let xhi = if i + 1 < nx { d[s + ny * nz] } else { SENTINEL };
    let ylo = if j > 0 { d[s - nz] } else { SENTINEL };
    let yhi = if j + 1 < ny { d[s + nz] } else { SENTINEL };
    let zlo = if k > 0 { d[s - 1] } else { SENTINEL };
    let zhi = if k + 1 < nz { d[s + 1] } else { SENTINEL };
    let mx = if xlo < xhi { xlo } else { xhi };
    let my = if ylo < yhi { ylo } else { yhi };
    let mz = if zlo < zhi { zlo } else { zhi };
    (mx, my, mz)
}

/// The exact upwind update at node `(i, j, k)` of the current state.
#[verifier::rlimit(100)]
fn compute_cand3(d: &Vec<i64>, nx: usize, ny: usize, nz: usize, i: usize, j: usize, k: usize) -> (c: i64)
    requires
        nx * ny * nz == d.len(),
        i < nx,
        j < ny,
        k < nz,
        dist_bounded(d@),
    ensures
        c as int == cand3(d@, nx as int, ny as int, nz as int, i as int, j as int, k as int),
        0 <= c,
{
    let (mx, my, mz) = axis_mins3(d, nx, ny, nz, i, j, k);
    let a = if mx <= my && mx <= mz { mx } else if my <= mz { my } else { mz };
    let c = if mx >= my && mx >= mz { mx } else if my >= mz { my } else { mz };
    let b = mx + my + mz - a - c;
    proof {
        assert((a as int, b as int, c as int) == sorted3(mx as int, my as int, mz as int));
    }
    if a >= SENTINEL {
        return SENTINEL;
    }
    if b - a >= SCALE {
        return a + SCALE;
    }
    let diff = b - a;
    proof {
        assert(0 <= (diff as int) * (diff as int) && (diff as int) * (diff as int) < 4294967296)
            by (nonlinear_arith)
            requires 0 <= diff as int, (diff as int) < 65536;
    }
    let rad = 8589934592 - diff * diff;
    proof {
        assert(2 * (SCALE as int) * (SCALE as int) == 8589934592);
    }
    let r = isqrt(rad as u128);
    proof {
        assert(r as int <= 200000) by {
            if r as int > 200000 {
                assert(r as int * r as int > 200000 * 200000) by (nonlinear_arith)
                    requires r as int > 200000;
            }
        }
    }
    let x2 = (((a as u64) + (b as u64) + (r as u64)) / 2) as i64;
    if x2 <= c {
        return x2;
    }
    // x2 > c with c the largest of three values no farther than a grid unit
    // apart, so the pairwise differences are small
    let da = a - b;
    let db = b - c;
    let dc = a - c;
    proof {
        assert((c as int) < (a as int + b as int + r as int) / 2 + 1);
        assert(0 <= (da as int) * (da as int) && (da as int) * (da as int) < 4294967296
            && 0 <= (db as int) * (db as int) && (db as int) * (db as int) < 42949672960
            && 0 <= (dc as int) * (dc as int) && (dc as int) * (dc as int) < 42949672960)
            by (nonlinear_arith)
            requires
                -65536 < da as int <= 0,
                -200000 < db as int <= 0,
                -200000 < dc as int <= 0,
        ;
    }
    let disc = 12884901888 - da * da - db * db - dc * dc;
    proof {
        assert(3 * (SCALE as int) * (SCALE as int) == 12884901888);
    }
    if disc < 0 {
        return x2;
    }
    let r3 = isqrt(disc as u128);
    proof {
        assert(r3 as int <= 200000) by {
            if r3 as int > 200000 {
                assert(r3 as int * r3 as int > 200000 * 200000) by (nonlinear_arith)
                    requires r3 as int > 200000;
            }
        }
    }
    (((a as u64) + (b as u64) + (c as u64) + (r3 as u64)) / 3) as i64
}


/// One node update in three dimensions.
fn relax3(d: &mut Vec<i64>, frozen: &Vec<bool>, nx: usize, ny: usize, nz: usize, i: usize, j: usize, k: usize) -> (ch: bool)
    requires
        nx * ny * nz == old(d).len(),
        frozen.len() == old(d).len(),
        i < nx,
        j < ny,
        k < nz,
        dist_bounded(old(d)@),
    ensures
        final(d)@.len() == old(d)@.len(),
        dist_bounded(final(d)@),
        final(d)@ == old(d)@.update(
            node3(ny as int, nz as int, i as int, j as int, k as int),
            final(d)@[node3(ny as int, nz as int, i as int, j as int, k as int)],
        ),
        final(d)@[node3(ny as int, nz as int, i as int, j as int, k as int)]
            <= old(d)@[node3(ny as int, nz as int, i as int, j as int, k as int)],
        frozen@[node3(ny as int, nz as int, i as int, j as int, k as int)] ==> final(d)@ == old(
            d,
        )@,
        !frozen@[node3(ny as int, nz as int, i as int, j as int, k as int)]
            ==> final(d)@[node3(ny as int, nz as int, i as int, j as int, k as int)] as int
            == vstd::math::min(
            old(d)@[node3(ny as int, nz as int, i as int, j as int, k as int)] as int,
            cand3(old(d)@, nx as int, ny as int, nz as int, i as int, j as int, k as int),
        ),
        ch == (final(d)@ != old(d)@),
        !ch ==> final(d)@ == old(d)@,
        ch ==> seq_sum(final(d)@) < seq_sum(old(d)@),
{
    proof {
        lemma_node3_bounds(nx as int, ny as int, nz as int, i as int, j as int, k as int);
    }
    let s = i * ny * nz + j * nz + k;
    let ghost d0 = d@;
    let mut ch = false;
    if !frozen[s] {
        let c = compute_cand3(d, nx, ny, nz, i, j, k);
        let cur = d[s];
        if c < cur {
            d[s] = c;
            ch = true;
            proof {
                lemma_seq_sum_update(d0, s as int, c);
                assert(d@ != d0) by {
                    assert(d@[s as int] != d0[s as int]);
                }
            }
        }
    }
    proof {
        if !ch {
            assert(d@ =~= d0.update(s as int, d0[s as int]));
        }
    }
    ch
}

/// One full sweep of the grid in the ordering given by the three direction
/// flags; in the triply ascending ordering an unchanged sweep certifies the
/// fixed point.
#[verifier::rlimit(100)]
fn sweep3(d: &mut Vec<i64>, frozen: &Vec<bool>, nx: usize, ny: usize, nz: usize, fx: bool, fy: bool, fz: bool) -> (ch: bool)
    requires
        nx * ny * nz == old(d).len(),
        frozen.len() == old(d).len(),
        dist_bounded(old(d)@),
    ensures
        final(d)@.len() == old(d)@.len(),
        dist_bounded(final(d)@),
        forall|p: int| 0 <= p < old(d)@.len() ==> #[trigger] final(d)@[p] <= old(d)@[p],
        forall|p: int| 0 <= p < old(d)@.len() && frozen@[p] ==> #[trigger] final(d)@[p] == old(
            d,
        )@[p],
        !ch ==> final(d)@ == old(d)@,
        ch ==> seq_sum(final(d)@) < seq_sum(old(d)@),
        (!ch && fx && fy && fz) ==> settled3(
            final(d)@,
            frozen@,
            nx as int,
            ny as int,
            nz as int,
        ),
        settled3(old(d)@, frozen@, nx as int, ny as int, nz as int) ==> (!ch && final(d)@ == old(
            d,
        )@),
{
    let ghost dsw = d@;
    let mut ch = false;
    let mut ii: usize = 0;
    while ii < nx
        invariant
            nx * ny * nz == d.len(),
            frozen.len() == d.len(),
            d.len() == dsw.len(),
            dist_bounded(d@),
            ii <= nx,
            forall|p: int| 0 <= p < dsw.len() ==> #[trigger] d@[p] <= dsw[p],
            forall|p: int| 0 <= p < dsw.len() && frozen@[p] ==> #[trigger] d@[p] == dsw[p],
            !ch ==> d@ == dsw,
            ch ==> seq_sum(d@) < seq_sum(dsw),
            (!ch && fx && fy && fz) ==> settled3_upto(
                d@, frozen@, nx as int, ny as int, nz as int, ii as int, 0, 0,
            ),
            settled3(dsw, frozen@, nx as int, ny as int, nz as int) ==> (!ch && d@ == dsw),
        decreases nx - ii,
    {
        let i = if fx { ii } else { nx - 1 - ii };
        let mut jj: usize = 0;
        while jj < ny
            invariant
                nx * ny * nz == d.len(),
                frozen.len() == d.len(),
                d.len() == dsw.len(),
                dist_bounded(d@),
                ii < nx,
                i == if fx { ii as int } else { nx - 1 - ii },
                jj <= ny,
                forall|p: int| 0 <= p < dsw.len() ==> #[trigger] d@[p] <= dsw[p],
                forall|p: int| 0 <= p < dsw.len() && frozen@[p] ==> #[trigger] d@[p] == dsw[p],
                !ch ==> d@ == dsw,
                ch ==> seq_sum(d@) < seq_sum(dsw),
                (!ch && fx && fy && fz) ==> settled3_upto(
                    d@, frozen@, nx as int, ny as int, nz as int, ii as int, jj as int, 0,
                ),
                settled3(dsw, frozen@, nx as int, ny as int, nz as int) ==> (!ch && d@ == dsw),
            decreases ny - jj,
        {
            let j = if fy { jj } else { ny - 1 - jj };
            let mut kk: usize = 0;
            while kk < nz
                invariant
                    nx * ny * nz == d.len(),
                    frozen.len() == d.len(),
                    d.len() == dsw.len(),
                    dist_bounded(d@),
                    ii < nx,
                    jj < ny,
                    i == if fx { ii as int } else { nx - 1 - ii },
                    j == if fy { jj as int } else { ny - 1 - jj },
                    kk <= nz,
                    forall|p: int| 0 <= p < dsw.len() ==> #[trigger] d@[p] <= dsw[p],
                    forall|p: int| 0 <= p < dsw.len() && frozen@[p] ==> #[trigger] d@[p] == dsw[p],
                    !ch ==> d@ == dsw,
                    ch ==> seq_sum(d@) < seq_sum(dsw),
                    (!ch && fx && fy && fz) ==> settled3_upto(
                        d@, frozen@, nx as int, ny as int, nz as int,
                        ii as int, jj as int, kk as int,
                    ),
                    settled3(dsw, frozen@, nx as int, ny as int, nz as int) ==> (!ch && d@ == dsw),
                decreases nz - kk,
            {
                let k = if fz { kk } else { nz - 1 - kk };
                let ghost dpre = d@;
                let c = relax3(d, frozen, nx, ny, nz, i, j, k);
                proof {
                    let s = node3(ny as int, nz as int, i as int, j as int, k as int);
                    lemma_node3_bounds(
                        nx as int, ny as int, nz as int, i as int, j as int, k as int,
                    );
                    if settled3(dsw, frozen@, nx as int, ny as int, nz as int) && dpre == dsw {
                        assert(!frozen@[s] ==> dsw[s] as int <= cand3(
                            dsw, nx as int, ny as int, nz as int, i as int, j as int, k as int,
                        ));
                        assert(d@ =~= dsw);
                        assert(!c);
                    }
                    if !c {
                        assert(d@ == dpre);
                    }
                    if !ch && !c && fx && fy && fz {
                        assert(settled3_upto(
                            d@, frozen@, nx as int, ny as int, nz as int,
                            ii as int, jj as int, kk as int + 1,
                        )) by {
                            assert forall|i2: int, j2: int, k2: int|
                                0 <= i2 < nx && 0 <= j2 < ny && 0 <= k2 < nz && cell_done3(
                                    i2, j2, k2, ii as int, jj as int, kk as int + 1,
                                ) && !frozen@[node3(ny as int, nz as int, i2, j2, k2)]
                                implies d@[#[trigger] node3(ny as int, nz as int, i2, j2, k2)]
                                    as int <= cand3(
                                    d@, nx as int, ny as int, nz as int, i2, j2, k2,
                                ) by {
                                if i2 == ii as int && j2 == jj as int && k2 == kk as int {
                                    assert(d@[s] as int <= cand3(
                                        d@, nx as int, ny as int, nz as int,
                                        i as int, j as int, k as int,
                                    ));
                                } else {
                                    assert(cell_done3(
                                        i2, j2, k2, ii as int, jj as int, kk as int,
                                    ));
                                }
                            }
                        }
                    }
                }
                ch = ch || c;
                kk += 1;
            }
            proof {
                if !ch && fx && fy && fz {
                    assert(settled3_upto(
                        d@, frozen@, nx as int, ny as int, nz as int,
                        ii as int, jj as int + 1, 0,
                    )) by {
                        assert forall|i2: int, j2: int, k2: int|
                            0 <= i2 < nx && 0 <= j2 < ny && 0 <= k2 < nz && cell_done3(
                                i2, j2, k2, ii as int, jj as int + 1, 0,
                            ) && !frozen@[node3(ny as int, nz as int, i2, j2, k2)]
                            implies d@[#[trigger] node3(ny as int, nz as int, i2, j2, k2)] as int
                                <= cand3(d@, nx as int, ny as int, nz as int, i2, j2, k2) by {
                            assert(cell_done3(i2, j2, k2, ii as int, jj as int, nz as int));
                        }
                    }
                }
            }
            jj += 1;
        }
        proof {
            if !ch && fx && fy && fz {
                assert(settled3_upto(
                    d@, frozen@, nx as int, ny as int, nz as int, ii as int + 1, 0, 0,
                )) by {
                    assert forall|i2: int, j2: int, k2: int|
                        0 <= i2 < nx && 0 <= j2 < ny && 0 <= k2 < nz && cell_done3(
                            i2, j2, k2, ii as int + 1, 0, 0,
                        ) && !frozen@[node3(ny as int, nz as int, i2, j2, k2)]
                        implies d@[#[trigger] node3(ny as int, nz as int, i2, j2, k2)] as int
                            <= cand3(d@, nx as int, ny as int, nz as int, i2, j2, k2) by {
                        assert(cell_done3(i2, j2, k2, ii as int, ny as int, 0));
                    }
                }
            }
        }
        ii += 1;
    }
    ch
}

/// One full set of the eight sweep orderings.
fn sweep_set3(d: &mut Vec<i64>, frozen: &Vec<bool>, nx: usize, ny: usize, nz: usize) -> (ch: bool)
    requires
        nx * ny * nz == old(d).len(),
        frozen.len() == old(d).len(),
        dist_bounded(old(d)@),
    ensures
        final(d)@.len() == old(d)@.len(),
        dist_bounded(final(d)@),
        forall|p: int| 0 <= p < old(d)@.len() ==> #[trigger] final(d)@[p] <= old(d)@[p],
        forall|p: int| 0 <= p < old(d)@.len() && frozen@[p] ==> #[trigger] final(d)@[p] == old(
            d,
        )@[p],
        !ch ==> final(d)@ == old(d)@,
        ch ==> seq_sum(final(d)@) < seq_sum(old(d)@),
        !ch ==> settled3(final(d)@, frozen@, nx as int, ny as int, nz as int),
        settled3(old(d)@, frozen@, nx as int, ny as int, nz as int) ==> (!ch && final(d)@ == old(
            d,
        )@),
{
    let c1 = sweep3(d, frozen, nx, ny, nz, true, true, true);
    let ghost dafter1 = d@;
    let c2 = sweep3(d, frozen, nx, ny, nz, true, true, false);
    let c3 = sweep3(d, frozen, nx, ny, nz, true, false, true);
    let c4 = sweep3(d, frozen, nx, ny, nz, true, false, false);
    let c5 = sweep3(d, frozen, nx, ny, nz, false, true, true);
    let c6 = sweep3(d, frozen, nx, ny, nz, false, true, false);
    let c7 = sweep3(d, frozen, nx, ny, nz, false, false, true);
    let c8 = sweep3(d, frozen, nx, ny, nz, false, false, false);
    let ch = c1 || c2 || c3 || c4 || c5 || c6 || c7 || c8;
    proof {
        if !ch {
            assert(d@ == dafter1);
        }
    }
    ch
}

/// Fills the unknown part of a partially initialized three-dimensional
/// distance field, exactly as `fast_sweep_dist` does in two dimensions, with
/// the eight monotone orderings of the three axes.
#[verifier::rlimit(100)]
pub fn fast_sweep_dist_3d(d: &mut Vec<i64>, dim: (usize, usize, usize))
    requires
        dim.0 * dim.1 * dim.2 == old(d).len(),
        dist_bounded(old(d)@),
    ensures
        sweep3_post(old(d)@, final(d)@, dim.0 as int, dim.1 as int, dim.2 as int),
{
    let nx = dim.0;
    let ny = dim.1;
    let nz = dim.2;
    let ghost dent = d@;
    let mut frozen: Vec<bool> = Vec::new();
    let mut q: usize = 0;
    let n = d.len();
    while q < n
        invariant
            n == d.len(),
            d@ == dent,
            q <= n,
            frozen.len() == q,
            forall|p: int| 0 <= p < q ==> frozen@[p] == (#[trigger] dent[p] != SENTINEL),
        decreases n - q,
    {
        frozen.push(d[q] != SENTINEL);
        q += 1;
    }

    let mut go = true;
    while go
        invariant
            nx * ny * nz == d.len(),
            frozen.len() == d.len(),
            d.len() == dent.len(),
            dist_bounded(d@),
            forall|p: int| 0 <= p < dent.len() ==> frozen@[p] == (#[trigger] dent[p] != SENTINEL),
            forall|p: int| 0 <= p < dent.len() ==> #[trigger] d@[p] <= dent[p],
            forall|p: int| 0 <= p < dent.len() && frozen@[p] ==> #[trigger] d@[p] == dent[p],
            !go ==> settled3(d@, frozen@, nx as int, ny as int, nz as int),
            settled3(dent, frozen@, nx as int, ny as int, nz as int) ==> d@ == dent,
        decreases seq_sum(d@) + (if go { 1int } else { 0 }),
    {
        proof {
            lemma_seq_sum_nonneg(d@);
        }
        let c = sweep_set3(d, &frozen, nx, ny, nz);
        if !c {
            go = false;
        }
        proof {
            lemma_seq_sum_nonneg(d@);
        }
    }
    proof {
        lemma_free_nodes_settled3(dent, d@, frozen@, nx as int, ny as int, nz as int);
        if settled_from3(dent, nx as int, ny as int, nz as int) {
            lemma_mask_settled3(dent, frozen@, nx as int, ny as int, nz as int);
        }
    }
}

/// A fixed point of the masked form gives the upwind inequality at every node
/// that was unknown on entry.
proof fn lemma_free_nodes_settled3(dent: Seq<i64>, dfin: Seq<i64>, fr: Seq<bool>, nx: int, ny: int, nz: int)
    requires
        dent.len() == nx * ny * nz,
        fr.len() == dent.len(),
        forall|p: int| 0 <= p < dent.len() ==> fr[p] == (#[trigger] dent[p] != SENTINEL),
        settled3(dfin, fr, nx, ny, nz),
    ensures
        forall|i: int, j: int, k: int| 0 <= i < nx && 0 <= j < ny && 0 <= k < nz
            && dent[node3(ny, nz, i, j, k)] == SENTINEL
            ==> dfin[#[trigger] node3(ny, nz, i, j, k)] as int <= cand3(dfin, nx, ny, nz, i, j, k),
{
    assert forall|i: int, j: int, k: int|
        0 <= i < nx && 0 <= j < ny && 0 <= k < nz && dent[node3(ny, nz, i, j, k)] == SENTINEL
        implies dfin[#[trigger] node3(ny, nz, i, j, k)] as int <= cand3(
            dfin, nx, ny, nz, i, j, k,
        ) by {
        lemma_node3_bounds(nx, ny, nz, i, j, k);
        assert(!fr[node3(ny, nz, i, j, k)]);
    }
}

/// A state whose unknown nodes satisfy the upwind inequality is settled under
/// the mask that freezes exactly the known nodes.
proof fn lemma_mask_settled3(dent: Seq<i64>, fr: Seq<bool>, nx: int, ny: int, nz: int)
    requires
        dent.len() == nx * ny * nz,
        fr.len() == dent.len(),
        forall|p: int| 0 <= p < dent.len() ==> fr[p] == (#[trigger] dent[p] != SENTINEL),
        settled_from3(dent, nx, ny, nz),
    ensures
        settled3(dent, fr, nx, ny, nz),
{
    assert forall|i: int, j: int, k: int|
        0 <= i < nx && 0 <= j < ny && 0 <= k < nz && !fr[node3(ny, nz, i, j, k)]
        implies dent[#[trigger] node3(ny, nz, i, j, k)] as int <= cand3(
            dent, nx, ny, nz, i, j, k,
        ) by {
        lemma_node3_bounds(nx, ny, nz, i, j, k);
        assert(dent[node3(ny, nz, i, j, k)] == SENTINEL);
    }
}

/// Monotone convergence in three dimensions: the solver's output is a fixed
/// point of the sweep set, so repeating the solver changes nothing.
pub proof fn lemma_sweep3_idempotent(d0: Seq<i64>, d1: Seq<i64>, d2: Seq<i64>, nx: int, ny: int, nz: int)
    requires
        d0.len() == nx * ny * nz,
        sweep3_post(d0, d1, nx, ny, nz),
        sweep3_post(d1, d2, nx, ny, nz),
    ensures
        settled_from3(d1, nx, ny, nz),
        d2 == d1,
{
    assert forall|i: int, j: int, k: int|
        0 <= i < nx && 0 <= j < ny && 0 <= k < nz && d1[node3(ny, nz, i, j, k)] == SENTINEL
        implies d1[#[trigger] node3(ny, nz, i, j, k)] as int <= cand3(d1, nx, ny, nz, i, j, k) by {
        lemma_node3_bounds(nx, ny, nz, i, j, k);
        assert(d0[node3(ny, nz, i, j, k)] == SENTINEL);
    }
}

} // verus!
