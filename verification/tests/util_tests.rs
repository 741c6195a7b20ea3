use hakaton::util::{
    area_bounds, ChunkSplitter, MyPoint, NEGATIVE_INFINITY_KEY, POSITIVE_INFINITY_KEY,
};

fn pt(x: i32, y: i32, z: i32, index: u32) -> MyPoint {
    MyPoint { x, y, z, chunk_x_index: 0, chunk_y_index: 0, box_index: 0, index }
}

#[test]
fn unwrap_gives_areas_of_finished_split() {
    let areas = vec![vec![pt(1, 2, 3, 0)], vec![pt(4, 5, 6, 1), pt(7, 8, 9, 2)]];
    let got = ChunkSplitter::Done(areas.clone()).unwrap();
    assert_eq!(got.len(), 2);
    assert_eq!(got[0].len(), 1);
    assert_eq!(got[1].len(), 2);
    assert_eq!(got[1][1].index, 2);
}

#[test]
fn unwrap_of_unfinished_split_is_one_empty_area() {
    let got = ChunkSplitter::Try(7).unwrap();
    assert_eq!(got.len(), 1);
    assert!(got[0].is_empty());
}

#[test]
fn points_are_equal_by_index() {
    assert!(pt(1, 2, 3, 5) == pt(9, 9, 9, 5));
    assert!(pt(1, 2, 3, 5) != pt(1, 2, 3, 6));
}

#[test]
fn bounds_of_no_points_are_the_infinities() {
    let b = area_bounds(&vec![]);
    assert_eq!(b.x_min, POSITIVE_INFINITY_KEY);
    assert_eq!(b.x_max, NEGATIVE_INFINITY_KEY);
    assert_eq!(b.y_min, POSITIVE_INFINITY_KEY);
    assert_eq!(b.y_max, NEGATIVE_INFINITY_KEY);
    assert_eq!(b.z_min, POSITIVE_INFINITY_KEY);
    assert_eq!(b.z_max, NEGATIVE_INFINITY_KEY);
}

#[test]
fn bounds_of_points() {
    let b = area_bounds(&vec![pt(3, -4, 10, 0), pt(-7, 2, 10, 1), pt(5, 0, -1, 2)]);
    assert_eq!((b.x_min, b.x_max), (-7, 5));
    assert_eq!((b.y_min, b.y_max), (-4, 2));
    assert_eq!((b.z_min, b.z_max), (-1, 10));
}
