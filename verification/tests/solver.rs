// End-to-end behavior of the initializer, the sweep solver and the signed
// distance facade on affine level-set fields, whose exact signed distance is
// the field itself.
//
// Tolerances are in raw units of the 2^-16 fixed-point scale. Axis-aligned
// interfaces come out exact to a few raw units; diagonal interfaces lose up
// to ~1e-3 grid units to the rounded square roots, far above the ~1e-5 a
// double-precision scalar would reach. A finer scale would tighten this.

use fast_sweeping::eikonal::{fast_sweep_dist, fast_sweep_dist_3d};
use fast_sweeping::level_set::{init_dist, init_dist_3d};
use fast_sweeping::num::{SCALE, SENTINEL};
use fast_sweeping::signed_distance;

fn to_raw(x: f64) -> i64 {
    (x * SCALE as f64).round() as i64
}

/// Samples `u(x, y) = gx * x + gy * y + c` on an `n x n` unit grid.
fn affine_grid(n: usize, gx: f64, gy: f64, c: f64) -> Vec<i64> {
    let mut u = Vec::with_capacity(n * n);
    for j in 0..n {
        for i in 0..n {
            let x = i as f64 / (n - 1) as f64;
            let y = j as f64 / (n - 1) as f64;
            u.push(to_raw(x * gx + y * gy + c));
        }
    }
    u
}

/// Runs the facade and checks the result against the input within `tol` raw
/// units on the nodes with indices in `[lo, n - lo)` on both axes.
fn check_line(gx: f64, gy: f64, c: f64, n: usize, tol: i64, lo: usize) {
    let u = affine_grid(n, gx, gy, c);
    let mut d = vec![0i64; n * n];
    let h = SCALE / (n as i64 - 1);
    signed_distance(&mut d, &u, (n, n), h);
    for j in lo..n - lo {
        for i in lo..n - lo {
            let q = j * n + i;
            let err = (d[q] - u[q]).abs();
            assert!(
                err <= tol,
                "node ({}, {}): d = {}, u = {}, err = {}",
                i,
                j,
                d[q],
                u[q],
                err
            );
        }
    }
}

#[test]
fn it_works_for_x_axis_line() {
    check_line(0.0, 1.0, -0.5, 9, 4, 0);
    check_line(0.0, 1.0, -0.275, 9, 4, 0);
}

#[test]
fn it_works_for_y_axis_line() {
    check_line(1.0, 0.0, -0.5, 9, 4, 0);
    check_line(1.0, 0.0, -0.65, 9, 4, 0);
}

#[test]
fn it_works_for_diagonal() {
    let s = 0.5f64.sqrt();
    check_line(s, s, -s, 9, 80, 0);
    check_line(-s, s, 0.0, 9, 80, 0);
}

#[test]
fn it_preserves_lines() {
    for &ta in &[1.1f64, 2.9, 4.4] {
        let n = 17usize;
        let (gy, gx) = ta.sin_cos();
        let c = -(gx + gy) * 0.5;
        let u = affine_grid(n, gx, gy, c);
        let h = SCALE / (n as i64 - 1);
        let mut d = vec![0i64; n * n];
        signed_distance(&mut d, &u, (n, n), h);
        let mut d2 = vec![0i64; n * n];
        signed_distance(&mut d2, &d, (n, n), h);
        // check only elements away from the boundary
        for j in 2..n - 2 {
            for i in 2..n - 2 {
                let q = j * n + i;
                let err = (d2[q] - d[q]).abs();
                assert!(err <= 80, "node ({}, {}): err = {}", i, j, err);
            }
        }
    }
}

#[test]
fn local_stage_is_finite_and_nonnegative() {
    let u = affine_grid(7, 0.6, 0.8, -0.43);
    let mut d = vec![0i64; 49];
    init_dist(&mut d, &u, (7, 7));
    let mut known = 0;
    for &v in &d {
        assert!(v >= 0 && v <= SENTINEL);
        if v < SENTINEL {
            known += 1;
        }
    }
    assert!(known > 0);
}

#[test]
fn sweep_is_monotone_and_idempotent() {
    let u = affine_grid(9, 0.6, 0.8, -0.43);
    let mut d = vec![0i64; 81];
    init_dist(&mut d, &u, (9, 9));
    let after_init = d.clone();
    fast_sweep_dist(&mut d, (9, 9));
    for q in 0..81 {
        assert!(0 <= d[q] && d[q] <= after_init[q]);
    }
    let first = d.clone();
    fast_sweep_dist(&mut d, (9, 9));
    assert_eq!(d, first);
}

#[test]
fn uniform_sign_gives_sentinel() {
    let n = 5usize;
    let mut pos = Vec::new();
    let mut neg = Vec::new();
    for q in 0..n * n {
        pos.push(100 + q as i64);
        neg.push(-100 - q as i64);
    }
    let mut d = vec![0i64; n * n];
    signed_distance(&mut d, &pos, (n, n), SCALE);
    assert!(d.iter().all(|&v| v == SENTINEL));
    signed_distance(&mut d, &neg, (n, n), SCALE);
    assert!(d.iter().all(|&v| v == -SENTINEL));
}

#[test]
fn init_dist_3d_single_cell() {
    // One cubic cell; only the origin corner is inside. Every tetrahedron
    // carries the values (1, 1, 1, -1) along its path, so the gradient
    // magnitude is 2 and every vertex lies at distance 1/2.
    let mut u = vec![SCALE; 8];
    u[0] = -SCALE;
    let mut d = vec![0i64; 8];
    init_dist_3d(&mut d, &u, (2, 2, 2));
    for &v in &d {
        assert_eq!(v, SCALE / 2);
    }
}

#[test]
fn init_dist_3d_no_crossing_keeps_sentinel() {
    let u = vec![SCALE; 27];
    let mut d = vec![0i64; 27];
    init_dist_3d(&mut d, &u, (3, 3, 3));
    assert!(d.iter().all(|&v| v == SENTINEL));
}

#[test]
fn sweep_3d_is_monotone_and_idempotent() {
    // u = x - 0.45 on a 4x4x4 unit grid
    let n = 4usize;
    let mut u = Vec::new();
    for i in 0..n {
        for _j in 0..n {
            for _k in 0..n {
                let x = i as f64 / (n - 1) as f64;
                u.push(to_raw(x - 0.45));
            }
        }
    }
    let mut d = vec![0i64; n * n * n];
    init_dist_3d(&mut d, &u, (n, n, n));
    let after_init = d.clone();
    fast_sweep_dist_3d(&mut d, (n, n, n));
    for q in 0..d.len() {
        assert!(0 <= d[q] && d[q] <= after_init[q]);
        assert!(d[q] < SENTINEL);
    }
    let first = d.clone();
    fast_sweep_dist_3d(&mut d, (n, n, n));
    assert_eq!(d, first);
}
