use hakaton::get_points::{get_xyz_index, points_from_records, set_points_chunks, MyPoint};
use hakaton::util::{PCDField, NEGATIVE_INFINITY_KEY, POSITIVE_INFINITY_KEY};

#[test]
fn index_counts_divisions_below() {
    let d = vec![Some(10), Some(20), Some(30)];
    assert_eq!(get_xyz_index(Some(5), &d), 0);
    assert_eq!(get_xyz_index(Some(10), &d), 0);
    assert_eq!(get_xyz_index(Some(25), &d), 2);
    assert_eq!(get_xyz_index(Some(40), &d), 3);
}

#[test]
fn missing_numbers_are_passed_without_counting() {
    let d = vec![Some(10), None, Some(30)];
    assert_eq!(get_xyz_index(Some(20), &d), 1);
    assert_eq!(get_xyz_index(Some(40), &d), 2);
    assert_eq!(get_xyz_index(None, &d), 0);
}

#[test]
fn chunk_numbers() {
    let d: Vec<Option<i32>> = (1..=10).map(|i| Some(i * 10)).collect();
    let mut pts = vec![
        MyPoint { x: Some(5), y: Some(5), z: Some(5), chunk: 0, index: 0 },
        MyPoint { x: Some(35), y: Some(15), z: Some(95), chunk: 0, index: 1 },
        MyPoint { x: Some(200), y: None, z: Some(100), chunk: 7, index: 2 },
    ];
    set_points_chunks(&mut pts, &d, &d, &d);
    assert_eq!(pts[0].chunk, 0);
    assert_eq!(pts[1].chunk, 319);
    assert_eq!(pts[2].chunk, 1009);
    assert_eq!(pts[2].index, 2);
}

#[test]
fn every_record_becomes_a_numbered_point() {
    let f = PCDField { x: 0, y: 1, z: 2 };
    let records = vec![
        vec![Some(3), Some(-1), Some(7), Some(100)],
        vec![None, Some(4), Some(2)],
        vec![Some(-2)],
    ];
    let g = points_from_records(&records, &f);
    let got: Vec<(Option<i32>, Option<i32>, Option<i32>, u32, u32)> =
        g.points.iter().map(|p| (p.x, p.y, p.z, p.chunk, p.index)).collect();
    assert_eq!(
        got,
        vec![
            (Some(3), Some(-1), Some(7), 0, 0),
            (None, Some(4), Some(2), 0, 1),
            (Some(-2), Some(0), Some(0), 0, 2),
        ]
    );
    // a value that is not a number leaves the bounds alone
    assert_eq!((g.x_min, g.x_max), (-2, 3));
    assert_eq!((g.y_min, g.y_max), (-1, 4));
    assert_eq!((g.z_min, g.z_max), (2, 7));
    let g = points_from_records(&vec![], &f);
    assert!(g.points.is_empty());
    assert_eq!((g.x_min, g.x_max), (POSITIVE_INFINITY_KEY, NEGATIVE_INFINITY_KEY));
}
