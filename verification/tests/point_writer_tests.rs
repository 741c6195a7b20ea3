use hakaton::point_writer::merge_areas;
use hakaton::util::MyPoint;

fn pt(x: i32, index: u32) -> MyPoint {
    MyPoint { x, y: 0, z: 0, chunk_x_index: 0, chunk_y_index: 0, box_index: 0, index }
}

#[test]
fn merging_keeps_each_index_once() {
    let areas = vec![vec![pt(1, 0), pt(2, 1)], vec![pt(9, 1), pt(3, 2)], vec![], vec![pt(8, 0)]];
    let mut merged = merge_areas(areas);
    merged.sort_by_key(|p| p.index);
    assert_eq!(merged.len(), 3);
    let idx: Vec<u32> = merged.iter().map(|p| p.index).collect();
    assert_eq!(idx, vec![0, 1, 2]);
    // the first occurrence of each index is the one kept
    let xs: Vec<i32> = merged.iter().map(|p| p.x).collect();
    assert_eq!(xs, vec![1, 2, 3]);
}

#[test]
fn merging_nothing() {
    assert!(merge_areas(vec![]).is_empty());
    assert!(merge_areas(vec![vec![], vec![]]).is_empty());
}
