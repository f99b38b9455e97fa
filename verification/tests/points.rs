use gridpath::point::Point;

#[test]
fn test_add_point() {
    assert_eq!(
        Point { x: 1, y: 0 }.add(Point { x: 2, y: 3 }),
        Point { x: 3, y: 3 }
    );
}

#[test]
fn test_sub_point() {
    assert_eq!(
        Point { x: 1, y: 0 }.sub(Point { x: 2, y: 3 }),
        Point { x: -1, y: -3 }
    );
}

#[test]
fn test_cardinal_points() {
    let pt: Point = Point { x: 3, y: 4 };
    assert_eq!(
        pt.cardinal_points(),
        vec![
            Point { x: 3, y: 3 },
            Point { x: 4, y: 4 },
            Point { x: 3, y: 5 },
            Point { x: 2, y: 4 },
        ]
    );
}

#[test]
fn test_ordinal_points() {
    let pt: Point = Point { x: 3, y: 4 };
    assert_eq!(
        pt.ordinal_points(),
        vec![
            Point { x: 4, y: 3 },
            Point { x: 4, y: 5 },
            Point { x: 2, y: 5 },
            Point { x: 2, y: 3 },
        ]
    );
}

#[test]
fn test_compass() {
    // Clockwise! N, NE, E, SE, S, SW, W, NW
    let pt: Point = Point { x: 3, y: 4 };
    assert_eq!(
        pt.compass_points(),
        vec![
            Point { x: 3, y: 3 },
            Point { x: 4, y: 3 },
            Point { x: 4, y: 4 },
            Point { x: 4, y: 5 },
            Point { x: 3, y: 5 },
            Point { x: 2, y: 5 },
            Point { x: 2, y: 4 },
            Point { x: 2, y: 3 },
        ]
    );
}

#[test]
fn test_taxicab() {
    assert_eq!(
        Point { x: 3, y: 4 }.taxicab_distance(Point { x: 7, y: 2 }),
        6
    );
}

#[test]
fn test_chebyshev() {
    assert_eq!(
        Point { x: 3, y: 4 }.chebyshev_distance(Point { x: 7, y: 2 }),
        4
    );
}
