use mst_paths::points::Point;
use mst_paths::points::push_if_fresh;

#[test]
fn distance_is_squared_euclidean() {
    let a = Point::new(0, 0);
    let b = Point::new(3, 4);
    assert_eq!(a.distance(&b), 25);
    assert_eq!(b.distance(&a), 25);
    assert_eq!(a.distance(&a), 0);
    let c = Point::new(7, 2);
    let d = Point::new(2, 14);
    assert_eq!(c.distance(&d), 25 + 144);
}

#[test]
fn is_same_as_compares_coordinates() {
    let a = Point::new(5, 6);
    assert!(a.is_same_as(&Point::new(5, 6)));
    assert!(!a.is_same_as(&Point::new(6, 5)));
    assert!(!a.is_same_as(&Point::new(5, 7)));
}

#[test]
fn is_in_scans_the_vector() {
    let v = vec![Point::new(1, 1), Point::new(2, 2)];
    assert!(Point::new(2, 2).is_in(&v));
    assert!(!Point::new(3, 3).is_in(&v));
    assert!(!Point::new(1, 1).is_in(&Vec::new()));
}

#[test]
fn closest_point_on_single_element_returns_it_and_empties() {
    let origin = Point::new(0, 0);
    let mut v = vec![Point::new(4, 2)];
    let r = origin.closest_point(&mut v);
    assert_eq!((r.x, r.y), (4, 2));
    assert!(v.is_empty());
}

#[test]
fn closest_point_breaks_ties_by_first_encountered() {
    let origin = Point::new(0, 0);
    // Both candidates sit at squared distance 25; the scan meets (3, 4)
    // first, so it must be the one taken.
    let mut v = vec![Point::new(3, 4), Point::new(4, 3), Point::new(9, 9)];
    let r = origin.closest_point(&mut v);
    assert_eq!((r.x, r.y), (3, 4));
    assert_eq!(v.len(), 2);
    // The last element was swapped into the freed slot.
    assert_eq!((v[0].x, v[0].y), (9, 9));
    assert_eq!((v[1].x, v[1].y), (4, 3));
}

#[test]
fn closest_point_picks_the_minimum() {
    let origin = Point::new(10, 10);
    let mut v = vec![
        Point::new(0, 0),
        Point::new(11, 9),
        Point::new(20, 20),
        Point::new(10, 13),
    ];
    let r = origin.closest_point(&mut v);
    assert_eq!((r.x, r.y), (11, 9));
    assert_eq!(v.len(), 3);
}

#[test]
fn random_point_stays_inside_the_rectangle() {
    for _ in 0..200 {
        let p = Point::random_point(7, 5);
        assert!(p.x < 7);
        assert!(p.y < 5);
    }
    let q = Point::random_point(1, 1);
    assert_eq!((q.x, q.y), (0, 0));
}

#[test]
fn push_if_fresh_keeps_only_new_coordinates() {
    let mut v = Vec::new();
    assert!(push_if_fresh(&mut v, Point::new(1, 2)));
    assert!(push_if_fresh(&mut v, Point::new(3, 4)));
    assert!(!push_if_fresh(&mut v, Point::new(1, 2)));
    assert_eq!(v.len(), 2);
    assert_eq!((v[0].x, v[0].y), (1, 2));
    assert_eq!((v[1].x, v[1].y), (3, 4));
}
