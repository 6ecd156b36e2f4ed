use kumiawase::{count_paths, Point, Route};

#[test]
fn single_cell_grid_has_one_path() {
    assert_eq!(count_paths(0), Some(1));
}

#[test]
fn two_by_two_grid_has_two_paths() {
    assert_eq!(count_paths(1), Some(2));
}

#[test]
fn three_by_three_grid_has_twelve_paths() {
    assert_eq!(count_paths(2), Some(12));
}

#[test]
fn larger_grids() {
    assert_eq!(count_paths(3), Some(184));
    assert_eq!(count_paths(4), Some(8512));
}

#[test]
fn counting_twice_gives_the_same_result() {
    for n in 0..4 {
        assert_eq!(count_paths(n), count_paths(n));
    }
}

#[test]
fn first_step_right_and_up_split_the_count_evenly() {
    for n in 1..5 {
        let total = count_paths(n).unwrap();
        assert_eq!(total % 2, 0);
    }
}

#[test]
fn index_is_row_major() {
    assert_eq!(Point::new(0, 0, 3).index(), 0);
    assert_eq!(Point::new(0, 3, 3).index(), 3);
    assert_eq!(Point::new(1, 0, 3).index(), 4);
    assert_eq!(Point::new(3, 3, 3).index(), 15);
}

#[test]
fn index_is_a_bijection_onto_the_table() {
    let size = 4;
    let mut seen = vec![false; (size + 1) * (size + 1)];
    for x in 0..=size {
        for y in 0..=size {
            let i = Point::new(x, y, size).index();
            assert!(i < seen.len());
            assert!(!seen[i]);
            seen[i] = true;
        }
    }
    assert!(seen.iter().all(|b| *b));
}

#[test]
fn neighbors_inside_the_grid() {
    let p = Point::new(1, 1, 2);
    assert_eq!(p.right(), Some(Point::new(2, 1, 2)));
    assert_eq!(p.left(), Some(Point::new(0, 1, 2)));
    assert_eq!(p.up(), Some(Point::new(1, 2, 2)));
    assert_eq!(p.down(), Some(Point::new(1, 0, 2)));
}

#[test]
fn neighbors_stop_at_the_walls() {
    let origin = Point::new(0, 0, 2);
    assert_eq!(origin.left(), None);
    assert_eq!(origin.down(), None);
    let corner = Point::new(2, 2, 2);
    assert_eq!(corner.right(), None);
    assert_eq!(corner.up(), None);
}

#[test]
fn new_route_starts_at_the_origin() {
    let route = Route::new(2);
    assert_eq!(route.last(), Point::new(0, 0, 2));
    assert_eq!(route.walk_left(), None);
    assert_eq!(route.walk_down(), None);
    assert_eq!(route.walk_right(), Some(Point::new(1, 0, 2)));
    assert_eq!(route.walk_up(), Some(Point::new(0, 1, 2)));
}

#[test]
fn extended_route_does_not_revisit_cells() {
    let route = Route::new(2);
    let next = route.extended(Point::new(1, 0, 2));
    assert_eq!(next.last(), Point::new(1, 0, 2));
    assert_eq!(next.walk_left(), None);
    assert_eq!(next.walk_down(), None);
    assert_eq!(next.walk_right(), Some(Point::new(2, 0, 2)));
    assert_eq!(next.walk_up(), Some(Point::new(1, 1, 2)));
}

#[test]
fn extending_leaves_the_parent_unchanged() {
    let route = Route::new(2);
    let _child = route.extended(Point::new(1, 0, 2));
    assert_eq!(route.last(), Point::new(0, 0, 2));
    assert_eq!(route.walk_right(), Some(Point::new(1, 0, 2)));
}

#[test]
fn walk_filters_visited_cells() {
    let route = Route::new(1);
    assert_eq!(route.walk(None), None);
    assert_eq!(route.walk(Some(Point::new(0, 0, 1))), None);
    assert_eq!(route.walk(Some(Point::new(1, 1, 1))), Some(Point::new(1, 1, 1)));
}

#[test]
fn route_reaches_the_goal_cell() {
    let route = Route::new(1).extended(Point::new(1, 0, 1)).extended(Point::new(1, 1, 1));
    assert_eq!(route.last(), Point::new(1, 1, 1));
    assert_eq!(route.walk_down(), None);
    assert_eq!(route.walk_left(), Some(Point::new(0, 1, 1)));
}
