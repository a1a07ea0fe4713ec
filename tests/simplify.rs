use pre_annotation::trajectory::{get_simplified_traj, Coordinate};

fn coordinate(longitude: f64, latitude: f64) -> Coordinate {
    Coordinate { longitude: longitude.to_bits(), latitude: latitude.to_bits() }
}

fn collinear_within(threshold: f64) -> impl Fn(Coordinate, Coordinate, Coordinate) -> bool {
    move |a: Coordinate, b: Coordinate, c: Coordinate| {
        let (ax, ay) = (f64::from_bits(a.longitude), f64::from_bits(a.latitude));
        let x1 = f64::from_bits(b.longitude) - ax;
        let y1 = f64::from_bits(b.latitude) - ay;
        let x2 = f64::from_bits(c.longitude) - ax;
        let y2 = f64::from_bits(c.latitude) - ay;
        (x1 * y2 - y1 * x2).abs() < threshold && x1 * x2 > 0.0 && y1 * y2 > 0.0
    }
}

#[test]
fn test_get_simplified_traj() {
    let node1 = coordinate(12.44574999315478, 52.70388691210494);
    let node2 = coordinate(12.44582263021672, 52.70387212360696);
    let node3 = coordinate(12.447169887583774, 52.703597829571315);
    let node4 = coordinate(12.44574999315478, 52.70388691210494);
    let a: Vec<Coordinate> = vec![node1, node2, node3, node4];
    let b = get_simplified_traj(&a, &collinear_within(1e-4));
    println!("{:?}", b);
    assert_eq!(b.len(), 3);
    assert_eq!(b[0], node1);
    assert_eq!(b[1], node3);
    assert_eq!(b[2], node4);
}

#[test]
fn simplifier_drops_collinear_interior_points() {
    let line: Vec<Coordinate> = (0..5).map(|k| coordinate(k as f64, 2.0 * k as f64)).collect();
    let b = get_simplified_traj(&line, &collinear_within(1e-9));
    assert_eq!(b, vec![line[0], line[4]]);
}

#[test]
fn simplifier_keeps_reversal() {
    let path = vec![coordinate(0.0, 0.0), coordinate(1.0, 1.0), coordinate(-1.0, -1.0), coordinate(-2.0, -2.0)];
    let b = get_simplified_traj(&path, &collinear_within(1e-9));
    assert_eq!(b, vec![path[0], path[1], path[3]]);
    assert_eq!(b[0], path[0]);
    assert_eq!(*b.last().unwrap(), *path.last().unwrap());
    assert!(b.len() <= path.len());
}

#[test]
fn simplifier_keeps_short_trajectories() {
    let never = |_: Coordinate, _: Coordinate, _: Coordinate| true;
    let empty: Vec<Coordinate> = vec![];
    assert!(get_simplified_traj(&empty, &never).is_empty());
    let one = vec![coordinate(1.0, 1.0)];
    assert_eq!(get_simplified_traj(&one, &never), one);
    let two = vec![coordinate(1.0, 1.0), coordinate(2.0, 2.0)];
    assert_eq!(get_simplified_traj(&two, &never), two);
}

#[test]
fn simplifier_with_zero_threshold_keeps_every_point() {
    // The cross product must be strictly below the threshold, so nothing is below zero.
    let line: Vec<Coordinate> = (0..4).map(|k| coordinate(k as f64, k as f64)).collect();
    assert_eq!(get_simplified_traj(&line, &collinear_within(0.0)), line);
}
