use hakaton::point_reader::{get_split_index, get_xyz_indexes, pcd_data_from_records, split_round};
use hakaton::util::{
    ChunkSplitter, MyPoint, PCDField, NEGATIVE_INFINITY_KEY, POSITIVE_INFINITY_KEY,
};

fn pt(x: i32, y: i32, index: u32) -> MyPoint {
    MyPoint { x, y, z: 0, chunk_x_index: 0, chunk_y_index: 0, box_index: 0, index }
}

fn names(v: &[&str]) -> Vec<String> {
    v.iter().map(|s| s.to_string()).collect()
}

#[test]
fn split_index_examples() {
    let d = vec![10, 20, 30];
    assert_eq!(get_split_index(5, &d), 0);
    assert_eq!(get_split_index(10, &d), 0);
    assert_eq!(get_split_index(11, &d), 1);
    assert_eq!(get_split_index(30, &d), 2);
    assert_eq!(get_split_index(31, &d), 3);
    assert_eq!(get_split_index(7, &vec![]), 0);
}

#[test]
fn split_index_stops_at_first_division_not_below() {
    // unsorted divisions: the first one not below the value decides
    assert_eq!(get_split_index(20, &vec![30, 10]), 0);
    assert_eq!(get_split_index(20, &vec![10, 30, 5]), 1);
}

#[test]
fn split_index_grows_with_the_value() {
    let d = vec![-5, 0, 7, 7, 12];
    let mut last = 0;
    for v in -10..20 {
        let i = get_split_index(v, &d);
        assert!(i >= last);
        assert_eq!(i as usize, d.iter().filter(|&&x| x < v).count());
        last = i;
    }
}

#[test]
fn xyz_indexes_found() {
    let f = get_xyz_indexes(&names(&["x", "y", "z", "intensity"])).unwrap();
    assert_eq!((f.x, f.y, f.z), (0, 1, 2));
    let f = get_xyz_indexes(&names(&["rgb", "z", "y", "x"])).unwrap();
    assert_eq!((f.x, f.y, f.z), (3, 2, 1));
}

#[test]
fn xyz_indexes_take_the_last_of_a_name() {
    let f = get_xyz_indexes(&names(&["x", "y", "x", "z"])).unwrap();
    assert_eq!((f.x, f.y, f.z), (2, 1, 3));
}

#[test]
fn xyz_indexes_missing_field() {
    let e = get_xyz_indexes(&names(&["x", "y", "intensity"])).unwrap_err();
    assert_eq!(e, "Invalid field type");
    let e = get_xyz_indexes(&names(&[])).unwrap_err();
    assert_eq!(e, "Invalid field type");
}

#[test]
fn records_become_numbered_points() {
    let f = PCDField { x: 0, y: 1, z: 2 };
    let records = vec![
        vec![Some(1), Some(2), Some(3), Some(99)],
        vec![Some(-50), None, Some(70)],
        vec![Some(4), Some(5), Some(6)],
        vec![Some(7), Some(8)],
    ];
    let d = pcd_data_from_records(&records, &f);
    assert_eq!(d.points.len(), 3);
    let got: Vec<(i32, i32, i32, u32)> = d.points.iter().map(|p| (p.x, p.y, p.z, p.index)).collect();
    assert_eq!(got, vec![(1, 2, 3, 0), (4, 5, 6, 1), (7, 8, 0, 2)]);
    // the dropped record still counted its x, read before the missing number
    assert_eq!((d.x_min, d.x_max), (-50, 7));
    assert_eq!((d.y_min, d.y_max), (2, 8));
    assert_eq!((d.z_min, d.z_max), (3, 6));
    assert_eq!(d.chunks_in_one_row, 1);
}

#[test]
fn no_records_leave_the_infinities() {
    let d = pcd_data_from_records(&vec![], &PCDField { x: 0, y: 1, z: 2 });
    assert!(d.points.is_empty());
    assert_eq!(d.x_min, POSITIVE_INFINITY_KEY);
    assert_eq!(d.x_max, NEGATIVE_INFINITY_KEY);
}

#[test]
fn one_chunk_per_row_is_one_area() {
    let mut pts = vec![pt(1, 1, 0), pt(5, 3, 1), pt(2, 9, 2)];
    let r = split_round(&mut pts, 1, &vec![10], &vec![10], 2);
    match r {
        ChunkSplitter::Done(areas) => {
            assert_eq!(areas.len(), 1);
            let idx: Vec<u32> = areas[0].iter().map(|p| p.index).collect();
            assert_eq!(idx, vec![0, 1, 2]);
        }
        ChunkSplitter::Try(_) => panic!("one chunk per row always finishes"),
    }
}

#[test]
fn areas_gather_neighbouring_chunks() {
    let d = vec![10, 20, 30];
    let mut pts = vec![pt(5, 5, 0), pt(15, 5, 1), pt(25, 25, 2), pt(5, 15, 3), pt(15, 15, 4)];
    let r = split_round(&mut pts, 3, &d, &d, 4);
    let chunks: Vec<(u32, u32)> = pts.iter().map(|p| (p.chunk_x_index, p.chunk_y_index)).collect();
    assert_eq!(chunks, vec![(0, 0), (1, 0), (2, 2), (0, 1), (1, 1)]);
    match r {
        ChunkSplitter::Done(areas) => {
            let idx: Vec<Vec<u32>> =
                areas.iter().map(|a| a.iter().map(|p| p.index).collect()).collect();
            assert_eq!(idx, vec![vec![0, 1, 3, 4], vec![2]]);
        }
        ChunkSplitter::Try(_) => panic!("no area is too large"),
    }
}

#[test]
fn every_point_lands_in_exactly_one_area() {
    let d = vec![100, 200, 300, 400];
    let mut pts = Vec::new();
    for i in 0..200u32 {
        let x = ((i * 37) % 400) as i32;
        let y = ((i * 91) % 400) as i32;
        pts.push(pt(x, y, i));
    }
    match split_round(&mut pts, 4, &d, &d, 5) {
        ChunkSplitter::Done(areas) => {
            let mut all: Vec<u32> = areas.iter().flatten().map(|p| p.index).collect();
            all.sort();
            assert_eq!(all, (0..200).collect::<Vec<u32>>());
            assert!(areas.iter().all(|a| !a.is_empty()));
        }
        ChunkSplitter::Try(_) => panic!("no area is too large"),
    }
}

#[test]
fn an_area_too_large_asks_for_more_chunks() {
    let mut pts = Vec::new();
    for i in 0..400_001u32 {
        pts.push(pt(1, 1, i));
    }
    match split_round(&mut pts, 2, &vec![10, 20], &vec![10, 20], 3) {
        ChunkSplitter::Try(n) => assert_eq!(n, 3),
        ChunkSplitter::Done(_) => panic!("the area holds more than four chunks"),
    }
}

#[test]
fn an_area_of_exactly_four_chunks_is_fine() {
    let mut pts = Vec::new();
    for i in 0..400_000u32 {
        pts.push(pt(1, 1, i));
    }
    match split_round(&mut pts, 2, &vec![10, 20], &vec![10, 20], 3) {
        ChunkSplitter::Done(areas) => {
            assert_eq!(areas.len(), 1);
            assert_eq!(areas[0].len(), 400_000);
        }
        ChunkSplitter::Try(_) => panic!("four chunks' worth is allowed"),
    }
}

#[test]
fn reading_then_splitting_keeps_every_kept_record_once() {
    let f = PCDField { x: 0, y: 1, z: 2 };
    let mut records = Vec::new();
    for i in 0..60i32 {
        if i % 7 == 3 {
            records.push(vec![Some(i), None, Some(0)]);
        } else {
            records.push(vec![Some((i * 13) % 90), Some((i * 29) % 90), Some(i)]);
        }
    }
    let mut d = pcd_data_from_records(&records, &f);
    let kept = d.points.len();
    assert_eq!(kept, 60 - 9);
    let div = vec![30, 60, 90];
    match split_round(&mut d.points, 3, &div, &div, 4) {
        ChunkSplitter::Done(areas) => {
            let mut all: Vec<u32> = areas.iter().flatten().map(|p| p.index).collect();
            all.sort();
            assert_eq!(all, (0..kept as u32).collect::<Vec<u32>>());
            assert!(areas.iter().all(|a| !a.is_empty() && a.len() <= 400_000));
        }
        ChunkSplitter::Try(_) => panic!("no area is too large"),
    }
}
