use maths::bresenham::{rasterize, Point};

#[test]
fn brezenheim_test() {
    let points = rasterize([0, 0].into(), [8, 3].into());
    let expected: Vec<Point> = vec![
        [0, 0].into(),
        [1, 0].into(),
        [2, 1].into(),
        [3, 1].into(),
        [4, 2].into(),
        [5, 2].into(),
        [6, 3].into(),
        [7, 3].into(),
        [8, 4].into(),
    ];

    for (i, &point) in points.iter().enumerate() {
        assert!(
            expected[i] == point,
            "Expected output: {:?}, what we got: {:?}",
            expected[i],
            point
        );
    }
}

#[test]
fn single_point_line() {
    let p = Point::new(3, -4);
    assert_eq!(rasterize(p, p), vec![p]);
}

#[test]
fn steep_line_steps_along_y() {
    let points = rasterize(Point::new(0, 0), Point::new(-1, -3));
    assert_eq!(points.len(), 4);
    assert_eq!(points[0], Point::new(0, 0));
    assert_eq!(points[3].y, -3);
    for (k, p) in points.iter().enumerate() {
        assert_eq!(p.y, -(k as i32));
    }
}

#[test]
fn point_array_round_trip() {
    let p: Point = [5, 7].into();
    assert_eq!(p, Point::new(5, 7));
    assert_eq!(p.to_array(), [5, 7]);
    let a: [i32; 2] = p.into();
    assert_eq!(a, [5, 7]);
}

#[test]
fn lines_at_the_edges_of_i32() {
    let p = Point::new(i32::MAX, i32::MIN);
    assert_eq!(rasterize(p, p), vec![p]);
    let points = rasterize(Point::new(i32::MIN, 0), Point::new(i32::MIN + 5, 0));
    assert_eq!(points.len(), 6);
    for (k, q) in points.iter().enumerate() {
        assert_eq!(q.x, i32::MIN + k as i32);
    }
}
