// Closed-form local distances on single simplices. Scalars are fixed point
// with 65536 raw units per grid unit, so sqrt(1/2) is 46340 raw and sqrt(2)
// is 92681 raw (both rounded down).

use fast_sweeping::level_set::{tetrahedron_dist, triangle_dist};

const ONE: i64 = 65536;

#[test]
fn simple_triangles() {
    assert_eq!(triangle_dist([0, 0, 0]), Some([0, 0, 0]));
    assert_eq!(triangle_dist([-ONE, 0, 0]), Some([46340, 0, 0]));
    assert_eq!(triangle_dist([0, ONE, 0]), Some([0, ONE, 0]));
    assert_eq!(triangle_dist([0, -ONE, -ONE]), Some([0, ONE, ONE]));
    assert_eq!(triangle_dist([0, ONE, ONE]), Some([0, ONE, ONE]));
    assert_eq!(triangle_dist([ONE, ONE, 0]), Some([ONE, 92681, 0]));
}

#[test]
fn triangle_no_crossing() {
    assert_eq!(triangle_dist([ONE, ONE, ONE]), None);
    assert_eq!(triangle_dist([-ONE, -ONE, -ONE]), None);
    assert_eq!(triangle_dist([1, 2, 3]), None);
}

#[test]
fn triangle_generic_crossing() {
    // u = (1, 1, -1): the zero line cuts the two edges incident to vertex 2.
    let r = triangle_dist([ONE, ONE, -ONE]).unwrap();
    // i02 = 0.5, i12 = sqrt(2) * 0.5, gx = 0 <= 0: vertex 0 is closest to
    // the line: d0 = 1 / |(0, -2)| = 0.5.
    assert_eq!(r[0], ONE / 2);
    assert_eq!(r[1], 46340); // sqrt(2) / 2, rounded down in raw units
    assert_eq!(r[2], ONE / 2);
}

#[test]
fn tetrahedron_no_crossing() {
    assert_eq!(tetrahedron_dist([ONE, ONE, ONE, ONE]), None);
    assert_eq!(tetrahedron_dist([-ONE, -ONE, -ONE, -ONE]), None);
    // exact zeros count as the positive side
    assert_eq!(tetrahedron_dist([0, 0, 0, 0]), None);
}

#[test]
fn tetrahedron_crossing() {
    // gradient 1 along the first edge only
    assert_eq!(
        tetrahedron_dist([0, -ONE, -ONE, -ONE]),
        Some([0, ONE, ONE, ONE])
    );
    // gradient magnitude 2 along one edge: distances are |u| / 2
    assert_eq!(
        tetrahedron_dist([ONE, ONE, ONE, -ONE]),
        Some([ONE / 2, ONE / 2, ONE / 2, ONE / 2])
    );
}
