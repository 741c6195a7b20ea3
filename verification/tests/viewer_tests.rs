use hakaton::util::MyPoint;
use hakaton::viewer::{set_new_area, CameraInputAllowed, PCDFileInfo, PCDFilePath};

fn info(num: u32, len: u32) -> PCDFileInfo {
    PCDFileInfo { path: String::from("f.pcd"), areas: vec![], area_num: num, area_len: len }
}

#[test]
fn defaults() {
    let i = PCDFileInfo::default();
    assert!(i.path.is_empty());
    assert!(i.areas.is_empty());
    assert_eq!(i.area_num, 1);
    assert_eq!(i.area_len, 1);
    assert!(!CameraInputAllowed::default().0);
    assert!(PCDFilePath::default().0.is_empty());
}

#[test]
fn set_new_area_wraps_round() {
    let mut i = info(2, 5);
    set_new_area(0, &mut i);
    assert_eq!(i.area_num, 5);
    set_new_area(3, &mut i);
    assert_eq!(i.area_num, 3);
    set_new_area(5, &mut i);
    assert_eq!(i.area_num, 5);
    set_new_area(6, &mut i);
    assert_eq!(i.area_num, 1);
    assert_eq!(i.area_len, 5);
    assert_eq!(i.path, "f.pcd");
}

#[test]
fn next_and_previous_buttons() {
    let mut i = info(5, 5);
    i.show_next_area();
    assert_eq!(i.area_num, 1);
    i.show_previous_area();
    assert_eq!(i.area_num, 5);
    i.show_previous_area();
    assert_eq!(i.area_num, 4);
    i.show_next_area();
    assert_eq!(i.area_num, 5);
}

#[test]
fn every_request_stays_in_range() {
    for n in 0..20u32 {
        let mut i = info(1, 7);
        set_new_area(n, &mut i);
        assert!(1 <= i.area_num && i.area_num <= 7);
    }
}

#[test]
fn opening_a_file_keeps_the_area_number() {
    let mut i = info(1, 1);
    let p = MyPoint { x: 0, y: 0, z: 0, chunk_x_index: 0, chunk_y_index: 0, box_index: 0, index: 4 };
    i.open_file(String::from("cloud.pcd"), vec![vec![p], vec![], vec![p, p]]);
    assert_eq!(i.path, "cloud.pcd");
    assert_eq!(i.area_len, 3);
    assert_eq!(i.area_num, 1);
    assert_eq!(i.current_area().len(), 1);
    i.show_previous_area();
    assert_eq!(i.area_num, 3);
    assert_eq!(i.current_area().len(), 2);
}
