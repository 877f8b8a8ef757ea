use advent::sorting::sort;
use advent::spatial::order::{key, Along, Axis};
use advent::spatial::tree::SpatialIndex;
use advent::y2018::day6::{distance, Point};

fn sample() -> Vec<Point> {
    vec![Point(1, 1), Point(1, 6), Point(8, 3), Point(3, 4), Point(5, 5), Point(8, 9)]
}

fn brute_force(points: &[Point], q: &Point) -> Option<i32> {
    points.iter().map(|p| distance(p, q.0, q.1)).min()
}

#[test]
fn sample_contains_only_its_points() {
    let tree = SpatialIndex::build(&sample());
    assert!(!tree.contains(&Point(2, 3)));
    assert!(tree.contains(&Point(5, 5)));
    for p in sample() {
        assert!(tree.contains(&p));
    }
}

#[test]
fn sample_nearest_is_the_true_minimum() {
    let tree = SpatialIndex::build(&sample());
    assert_eq!(tree.nearest(&Point(4, 4)), Some(Point(3, 4)));
}

#[test]
fn empty_tree_holds_nothing() {
    let tree = SpatialIndex::build(&[]);
    assert_eq!(tree.nearest(&Point(0, 0)), None);
    assert!(!tree.contains(&Point(0, 0)));
    assert!(!tree.contains(&Point(7, 9)));
}

#[test]
fn nearest_agrees_with_linear_scan() {
    let mut points = Vec::new();
    let mut seed: u32 = 12345;
    for _ in 0..200 {
        seed = seed.wrapping_mul(1103515245).wrapping_add(12345);
        let x = ((seed >> 16) % 60) as u16;
        seed = seed.wrapping_mul(1103515245).wrapping_add(12345);
        let y = ((seed >> 16) % 60) as u16;
        points.push(Point(x, y));
    }
    let tree = SpatialIndex::build(&points);
    for x in 0..70u16 {
        for y in 0..70u16 {
            let q = Point(x, y);
            let found = tree.nearest(&q).unwrap();
            assert!(points.contains(&found));
            assert_eq!(Some(distance(&found, x, y)), brute_force(&points, &q));
            assert_eq!(tree.contains(&q), points.contains(&q));
        }
    }
}

#[test]
fn building_twice_answers_alike() {
    let first = SpatialIndex::build(&sample());
    let second = SpatialIndex::build(&sample());
    for x in 0..12u16 {
        for y in 0..12u16 {
            let q = Point(x, y);
            assert_eq!(first.contains(&q), second.contains(&q));
            assert_eq!(first.nearest(&q), second.nearest(&q));
        }
    }
}

#[test]
fn points_that_tie_on_an_axis_are_all_found() {
    let points = vec![Point(1, 1), Point(1, 6), Point(1, 4), Point(1, 1), Point(0, 4)];
    let tree = SpatialIndex::build(&points);
    for p in &points {
        assert!(tree.contains(p));
    }
    assert!(!tree.contains(&Point(1, 5)));
    assert_eq!(tree.nearest(&Point(1, 5)).map(|p| distance(&p, 1, 5)), Some(1));
}

#[test]
fn nearest_of_a_stored_point_is_that_point() {
    let tree = SpatialIndex::build(&sample());
    for p in sample() {
        assert_eq!(tree.nearest(&p), Some(p));
    }
}

#[test]
fn distance_is_the_sum_of_the_coordinate_gaps() {
    assert_eq!(distance(&Point(5, 5), 4, 4), 2);
    assert_eq!(distance(&Point(3, 4), 4, 4), 1);
    assert_eq!(distance(&Point(0, 65535), 65535, 0), 131070);
    assert_eq!(distance(&Point(7, 7), 7, 7), 0);
}

#[test]
fn the_tree_knows_its_size_and_its_height() {
    let tree = SpatialIndex::build(&sample());
    assert_eq!(tree.len(), 6);
    assert!(!tree.is_empty());
    assert_eq!(tree.height(), 3);
    let empty = SpatialIndex::build(&[]);
    assert_eq!(empty.len(), 0);
    assert!(empty.is_empty());
    assert_eq!(empty.height(), 0);
    assert_eq!(SpatialIndex::build(&[Point(3, 3)]).height(), 1);
}

#[test]
fn points_that_share_no_coordinate_give_a_balanced_tree() {
    for n in [1u16, 2, 3, 4, 7, 8, 100, 255, 256, 1000] {
        let points: Vec<Point> = (0..n).map(|i| Point(i, (i * 7 + 3) % 1009)).collect();
        let tree = SpatialIndex::build(&points);
        let digits = (16 - n.leading_zeros()) as usize;
        assert!(tree.height() <= digits, "{} points, height {}", n, tree.height());
        assert_eq!(tree.len(), n as usize);
    }
}

#[test]
fn equal_points_are_kept_as_often_as_they_come() {
    let points = vec![Point(2, 2); 5];
    let tree = SpatialIndex::build(&points);
    assert_eq!(tree.len(), 5);
    assert!(tree.contains(&Point(2, 2)));
    assert_eq!(tree.nearest(&Point(0, 0)), Some(Point(2, 2)));
    assert_eq!(tree.height(), 5);
}

#[test]
fn sorting_along_an_axis_keeps_ties_in_their_order() {
    let points = vec![Point(3, 9), Point(1, 8), Point(3, 7), Point(2, 6), Point(1, 5), Point(3, 4)];
    assert_eq!(
        sort(&points, &Along(Axis::X)),
        vec![Point(1, 8), Point(1, 5), Point(2, 6), Point(3, 9), Point(3, 7), Point(3, 4)]
    );
    assert_eq!(
        sort(&points, &Along(Axis::Y)),
        vec![Point(3, 4), Point(1, 5), Point(2, 6), Point(3, 7), Point(1, 8), Point(3, 9)]
    );
    assert_eq!(sort(&[], &Along(Axis::X)), Vec::<Point>::new());
    assert_eq!(key(&Point(3, 9), Axis::X), 3);
    assert_eq!(key(&Point(3, 9), Axis::Y), 9);
    assert_eq!(Axis::X.next(), Axis::Y);
    assert_eq!(Axis::Y.next(), Axis::X);
}

#[test]
fn sorting_agrees_with_the_stable_sort_of_the_standard_library() {
    let mut points = Vec::new();
    let mut seed: u32 = 99;
    for _ in 0..500 {
        seed = seed.wrapping_mul(1664525).wrapping_add(1013904223);
        let x = ((seed >> 16) % 20) as u16;
        seed = seed.wrapping_mul(1664525).wrapping_add(1013904223);
        let y = ((seed >> 16) % 1000) as u16;
        points.push(Point(x, y));
    }
    let mut expected = points.clone();
    expected.sort_by_key(|p| p.0);
    assert_eq!(sort(&points, &Along(Axis::X)), expected);
}
