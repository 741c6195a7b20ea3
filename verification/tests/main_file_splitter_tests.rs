use hakaton::main_file_splitter::{get_area_points, get_file_areas, Area};
use hakaton::util::{MyPoint, PCDData};

fn pt(cx: u32, cy: u32, index: u32) -> MyPoint {
    MyPoint { x: 0, y: 0, z: 0, chunk_x_index: cx, chunk_y_index: cy, box_index: 0, index }
}

fn data(points: Vec<MyPoint>, n: u32) -> PCDData {
    PCDData {
        points,
        x_min: 0,
        x_max: 0,
        y_min: 0,
        y_max: 0,
        z_min: 0,
        z_max: 0,
        chunks_in_one_row: n,
    }
}

#[test]
fn small_grids_are_one_area() {
    for n in 1..=2 {
        let areas = get_file_areas(&data(vec![pt(0, 0, 0)], n));
        assert_eq!(areas.len(), 1);
        assert_eq!((areas[0].start_x, areas[0].start_y, areas[0].index), (0, 0, 0));
    }
}

#[test]
fn only_areas_with_points_are_listed() {
    // chunks_in_one_row = 4: area starts 0..3 on both axes
    let pts = vec![pt(1, 1, 0), pt(3, 3, 1)];
    let areas = get_file_areas(&data(pts, 4));
    let got: Vec<(u32, u32, u32)> = areas.iter().map(|a| (a.start_x, a.start_y, a.index)).collect();
    assert_eq!(got, vec![(0, 0, 0), (0, 1, 1), (1, 0, 2), (1, 1, 3), (2, 2, 4)]);
}

#[test]
fn area_points_in_order() {
    let pts = vec![pt(1, 1, 0), pt(2, 2, 1), pt(3, 2, 2), pt(2, 1, 3), pt(4, 2, 4)];
    let area = Area { start_x: 2, start_y: 1, index: 0 };
    let got: Vec<u32> = get_area_points(data(pts, 5), &area).iter().map(|p| p.index).collect();
    assert_eq!(got, vec![1, 2, 3]);
}

#[test]
fn area_at_origin_takes_zero_indices() {
    let pts = vec![pt(0, 0, 0), pt(1, 0, 1), pt(0, 1, 2), pt(2, 0, 3)];
    let area = Area { start_x: 0, start_y: 0, index: 0 };
    let got: Vec<u32> = get_area_points(data(pts, 3), &area).iter().map(|p| p.index).collect();
    assert_eq!(got, vec![0, 1, 2]);
}

#[test]
fn useful_exactly_when_area_has_points() {
    let pts = vec![pt(1, 1, 0), pt(2, 3, 1)];
    let areas = get_file_areas(&data(pts.clone(), 4));
    for a in &areas {
        assert!(!get_area_points(data(pts.clone(), 4), a).is_empty());
    }
    let got: Vec<(u32, u32)> = areas.iter().map(|a| (a.start_x, a.start_y)).collect();
    assert_eq!(got, vec![(0, 0), (0, 1), (1, 0), (1, 1), (1, 2), (2, 2)]);
}

#[test]
fn points_in_chunk_zero_are_tested_against_every_area() {
    // chunks_in_one_row = 4: area starts 0..3 on both axes
    let pts = vec![pt(0, 0, 0), pt(0, 2, 1), pt(3, 0, 2)];
    let areas = get_file_areas(&data(pts.clone(), 4));
    let got: Vec<(u32, u32, u32)> = areas.iter().map(|a| (a.start_x, a.start_y, a.index)).collect();
    assert_eq!(got, vec![(0, 0, 0), (0, 1, 1), (0, 2, 2), (2, 0, 3)]);
    let area = Area { start_x: 2, start_y: 0, index: 3 };
    let got: Vec<u32> = get_area_points(data(pts.clone(), 4), &area).iter().map(|p| p.index).collect();
    assert_eq!(got, vec![2]);
    let area = Area { start_x: 1, start_y: 1, index: 0 };
    assert!(get_area_points(data(pts, 4), &area).is_empty());
}
