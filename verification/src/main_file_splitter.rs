//! Areas of a split file: which ones hold points, and what each one holds.
//!
//! An area is a square of two by two chunks starting at chunk
//! `(start_x, start_y)`; a point lies in it when each of its chunk indices is
//! the start or the start plus one.
use vstd::prelude::*;
use crate::util::{MyPoint, PCDData};

verus! {

/// An area of two by two chunks, numbered among the areas of a file.
#[derive(Debug, Clone, Copy)]
pub struct Area {
    pub start_x: u32,
    pub start_y: u32,
    pub index: u32,
}

/// Chunk index `c` is `start` or the one after it.
pub open spec fn near(c: u32, start: u32) -> bool {
    c == start || c as int == start as int + 1
}

/// The point lies in the area that starts at `(ax, ay)`.
pub open spec fn in_area(p: MyPoint, ax: u32, ay: u32) -> bool {
    near(p.chunk_x_index, ax) && near(p.chunk_y_index, ay)
}

/// Some point lies in the area.
pub open spec fn has_point_in(s: Seq<MyPoint>, ax: u32, ay: u32) -> bool {
    exists|i: int| 0 <= i < s.len() && #[trigger] in_area(s[i], ax, ay)
}

/// Whether the point lies in the two by two chunks starting at
/// `(area_start_x, area_start_y)`.
fn point_in_area(point: &MyPoint, area_start_x: u32, area_start_y: u32) -> (r: bool)
    ensures
        r == in_area(*point, area_start_x, area_start_y),
{
    (point.chunk_x_index == area_start_x || (point.chunk_x_index >= 1 && point.chunk_x_index - 1
        == area_start_x)) && (point.chunk_y_index == area_start_y || (point.chunk_y_index >= 1
        && point.chunk_y_index - 1 == area_start_y))
}

/// Whether some point of the file lies in the area starting at
/// `(area_start_x, area_start_y)`.
fn is_area_usefull(pcd_data: &PCDData, area_start_x: u32, area_start_y: u32) -> (r: bool)
    ensures
        r == has_point_in(pcd_data.points@, area_start_x, area_start_y),
{
    let n = pcd_data.points.len();
    for i in 0..n
        invariant
            n == pcd_data.points@.len(),
            forall|j: int|
                0 <= j < i ==> !#[trigger] in_area(pcd_data.points@[j], area_start_x, area_start_y),
    {
        if point_in_area(&pcd_data.points[i], area_start_x, area_start_y) {
            return true;
        }
    }
    false
}

/// Starts of the areas of row `x` among the first `m` that hold a point.
pub open spec fn useful_row(s: Seq<MyPoint>, x: u32, m: nat) -> Seq<(u32, u32)>
    decreases m,
{
    if m == 0 {
        seq![]
    } else {
        let prev = useful_row(s, x, (m - 1) as nat);
        if has_point_in(s, x, (m - 1) as u32) {
            prev.push((x, (m - 1) as u32))
        } else {
            prev
        }
    }
}

/// Starts of the areas of the first `rows` rows that hold a point, row after
/// row.
pub open spec fn useful_areas(s: Seq<MyPoint>, rows: nat, width: nat) -> Seq<(u32, u32)>
    decreases rows,
{
    if rows == 0 {
        seq![]
    } else {
        useful_areas(s, (rows - 1) as nat, width) + useful_row(s, (rows - 1) as u32, width)
    }
}

proof fn lemma_useful_row_len(s: Seq<MyPoint>, x: u32, m: nat, k: nat)
    requires
        k <= m,
    ensures
        useful_row(s, x, k).len() <= useful_row(s, x, m).len(),
    decreases m - k,
{
    if k < m {
        lemma_useful_row_len(s, x, (m - 1) as nat, k);
    }
}

proof fn lemma_useful_areas_len(s: Seq<MyPoint>, rows: nat, width: nat, r: nat)
    requires
        r <= rows,
    ensures
        useful_areas(s, r, width).len() <= useful_areas(s, rows, width).len(),
    decreases rows - r,
{
    if r < rows {
        lemma_useful_areas_len(s, (rows - 1) as nat, width, r);
    }
}

/// The areas of a file that hold at least one point, numbered in order. With
/// at most two chunks per row the file is one area. Otherwise the areas start
/// at each chunk but the last along both axes, row after row.
pub fn get_file_areas(pcd_data: &PCDData) -> (areas: Vec<Area>)
    requires
        pcd_data.chunks_in_one_row >= 1,
        pcd_data.chunks_in_one_row >= 3 ==> useful_areas(
            pcd_data.points@,
            (pcd_data.chunks_in_one_row - 1) as nat,
            (pcd_data.chunks_in_one_row - 1) as nat,
        ).len() <= u32::MAX,
    ensures
        pcd_data.chunks_in_one_row <= 2 ==> areas@.len() == 1 && areas@[0].start_x == 0
            && areas@[0].start_y == 0 && areas@[0].index == 0,
        pcd_data.chunks_in_one_row >= 3 ==> ({
            let u = useful_areas(
                pcd_data.points@,
                (pcd_data.chunks_in_one_row - 1) as nat,
                (pcd_data.chunks_in_one_row - 1) as nat,
            );
            &&& areas@.len() == u.len()
            &&& forall|k: int|
                0 <= k < u.len() ==> (#[trigger] areas@[k]).start_x == u[k].0 && areas@[k].start_y
                    == u[k].1 && areas@[k].index == k
        }),
{
    match pcd_data.chunks_in_one_row {
        1..=2 => {
            let mut areas: Vec<Area> = Vec::new();
            areas.push(Area { start_x: 0, start_y: 0, index: 0 });
            areas
        },
        _ => {
            let ghost s = pcd_data.points@;
            let mut area_index: u32 = 0;
            let n = pcd_data.chunks_in_one_row - 1;
            let mut areas: Vec<Area> = Vec::new();
            let mut x: u32 = 0;
            while x < n
                invariant
                    0 <= x <= n,
                    n == pcd_data.chunks_in_one_row - 1,
                    n >= 2,
                    s == pcd_data.points@,
                    useful_areas(s, n as nat, n as nat).len() <= u32::MAX,
                    area_index == areas@.len(),
                    areas@.len() == useful_areas(s, x as nat, n as nat).len(),
                    forall|k: int|
                        0 <= k < areas@.len() ==> (#[trigger] areas@[k]).start_x == useful_areas(
                            s,
                            x as nat,
                            n as nat,
                        )[k].0 && areas@[k].start_y == useful_areas(s, x as nat, n as nat)[k].1
                            && areas@[k].index == k,
                decreases n - x,
            {
                let mut y: u32 = 0;
                while y < n
                    invariant
                        0 <= x < n,
                        0 <= y <= n,
                        n == pcd_data.chunks_in_one_row - 1,
                        s == pcd_data.points@,
                            useful_areas(s, n as nat, n as nat).len() <= u32::MAX,
                        area_index == areas@.len(),
                        ({
                            let u = useful_areas(s, x as nat, n as nat) + useful_row(
                                s,
                                x,
                                y as nat,
                            );
                            &&& areas@.len() == u.len()
                            &&& forall|k: int|
                                0 <= k < u.len() ==> (#[trigger] areas@[k]).start_x == u[k].0
                                    && areas@[k].start_y == u[k].1 && areas@[k].index == k
                        }),
                    decreases n - y,
                {
                    let ghost prev = useful_areas(s, x as nat, n as nat) + useful_row(
                        s,
                        x,
                        y as nat,
                    );
                    let ghost next = useful_areas(s, x as nat, n as nat) + useful_row(
                        s,
                        x,
                        (y + 1) as nat,
                    );
                    if is_area_usefull(pcd_data, x, y) {
                        proof {
                            assert(next == prev.push((x, y)));
                            lemma_useful_row_len(s, x, n as nat, (y + 1) as nat);
                            lemma_useful_areas_len(s, n as nat, n as nat, (x + 1) as nat);
                            assert(useful_areas(s, (x + 1) as nat, n as nat) == useful_areas(
                                s,
                                x as nat,
                                n as nat,
                            ) + useful_row(s, x, n as nat));
                        }
                        areas.push(Area { start_x: x, start_y: y, index: area_index });
                        area_index += 1;
                    } else {
                        assert(next == prev);
                    }
                    y += 1;
                }
                assert(useful_areas(s, (x + 1) as nat, n as nat) == useful_areas(
                    s,
                    x as nat,
                    n as nat,
                ) + useful_row(s, x, n as nat));
                x += 1;
            }
            areas
        },
    }
}

/// The points of an area that lie in it, in order.
pub open spec fn points_in_area(s: Seq<MyPoint>, ax: u32, ay: u32) -> Seq<MyPoint>
    decreases s.len(),
{
    if s.len() == 0 {
        seq![]
    } else {
        let prev = points_in_area(s.drop_last(), ax, ay);
        if in_area(s.last(), ax, ay) {
            prev.push(s.last())
        } else {
            prev
        }
    }
}

/// The points of the file that lie in the area, in their order.
pub fn get_area_points(pcd_data: PCDData, area: &Area) -> (area_points: Vec<MyPoint>)
    ensures
        area_points@ == points_in_area(pcd_data.points@, area.start_x, area.start_y),
{
    let mut area_points: Vec<MyPoint> = Vec::new();
    let n = pcd_data.points.len();
    for i in 0..n
        invariant
            n == pcd_data.points@.len(),
            area_points@ == points_in_area(
                pcd_data.points@.take(i as int),
                area.start_x,
                area.start_y,
            ),
    {
        let point = pcd_data.points[i];
        let ghost t = pcd_data.points@.take(i + 1);
        assert(t.drop_last() == pcd_data.points@.take(i as int));
        assert(t.last() == point);
        if point_in_area(&point, area.start_x, area.start_y) {
            area_points.push(point);
        }
    }
    assert(pcd_data.points@.take(n as int) == pcd_data.points@);
    area_points
}

/// Law: the points of an area are exactly the points of the file that lie in
/// it: each of them lies in the area and comes from the file, and every
/// point of the file in the area is among them.
pub proof fn lemma_points_in_area_members(s: Seq<MyPoint>, ax: u32, ay: u32)
    ensures
        forall|k: int|
            0 <= k < points_in_area(s, ax, ay).len() ==> in_area(
                #[trigger] points_in_area(s, ax, ay)[k],
                ax,
                ay,
            ) && s.contains(points_in_area(s, ax, ay)[k]),
        forall|i: int| 0 <= i < s.len() && in_area(s[i], ax, ay) ==> points_in_area(s, ax, ay).contains(
            #[trigger] s[i],
        ),
        points_in_area(s, ax, ay).len() <= s.len(),
    decreases s.len(),
{
    if s.len() > 0 {
        let init = s.drop_last();
        lemma_points_in_area_members(init, ax, ay);
        let prev = points_in_area(init, ax, ay);
        let cur = points_in_area(s, ax, ay);
        assert forall|k: int| 0 <= k < cur.len() implies in_area(#[trigger] cur[k], ax, ay)
            && s.contains(cur[k]) by {
            if k < prev.len() {
                assert(cur[k] == prev[k]);
                let j = choose|j: int| 0 <= j < init.len() && init[j] == prev[k];
                assert(s[j] == init[j]);
            } else {
                assert(cur[k] == s.last());
                assert(s[s.len() - 1] == s.last());
            }
        }
        assert forall|i: int| 0 <= i < s.len() && in_area(s[i], ax, ay) implies cur.contains(
            #[trigger] s[i],
        ) by {
            if i < s.len() - 1 {
                assert(s[i] == init[i]);
                let k = choose|k: int| 0 <= k < prev.len() && prev[k] == init[i];
                assert(cur[k] == prev[k]);
            } else {
                assert(cur[cur.len() - 1] == s.last());
            }
        }
    }
}

/// Law: an area is kept among the file's areas exactly when gathering its
/// points gives at least one.
pub proof fn lemma_useful_iff_points(s: Seq<MyPoint>, ax: u32, ay: u32)
    ensures
        has_point_in(s, ax, ay) <==> points_in_area(s, ax, ay).len() > 0,
{
    lemma_points_in_area_members(s, ax, ay);
    if has_point_in(s, ax, ay) {
        let i = choose|i: int| 0 <= i < s.len() && #[trigger] in_area(s[i], ax, ay);
        assert(points_in_area(s, ax, ay).contains(s[i]));
    }
    if points_in_area(s, ax, ay).len() > 0 {
        let p = points_in_area(s, ax, ay)[0];
        assert(in_area(p, ax, ay) && s.contains(p));
        let i = choose|i: int| 0 <= i < s.len() && s[i] == p;
        assert(in_area(s[i], ax, ay));
    }
}

proof fn lemma_useful_row_have_points(s: Seq<MyPoint>, x: u32, m: nat)
    ensures
        forall|k: int|
            0 <= k < useful_row(s, x, m).len() ==> has_point_in(
                s,
                (#[trigger] useful_row(s, x, m)[k]).0,
                useful_row(s, x, m)[k].1,
            ),
    decreases m,
{
    if m > 0 {
        lemma_useful_row_have_points(s, x, (m - 1) as nat);
        let prev = useful_row(s, x, (m - 1) as nat);
        if has_point_in(s, x, (m - 1) as u32) {
            assert forall|k: int| 0 <= k < prev.len() + 1 implies has_point_in(
                s,
                (#[trigger] prev.push((x, (m - 1) as u32))[k]).0,
                prev.push((x, (m - 1) as u32))[k].1,
            ) by {
                if k < prev.len() {
                    assert(prev.push((x, (m - 1) as u32))[k] == prev[k]);
                }
            }
        }
    }
}

/// Law: every area that `get_file_areas` lists holds at least one point,
/// as `get_area_points` would gather it.
pub proof fn lemma_listed_areas_have_points(s: Seq<MyPoint>, rows: nat, width: nat)
    ensures
        forall|k: int|
            0 <= k < useful_areas(s, rows, width).len() ==> points_in_area(
                s,
                (#[trigger] useful_areas(s, rows, width)[k]).0,
                useful_areas(s, rows, width)[k].1,
            ).len() > 0,
    decreases rows,
{
    if rows > 0 {
        lemma_listed_areas_have_points(s, (rows - 1) as nat, width);
        lemma_useful_row_have_points(s, (rows - 1) as u32, width);
        let x = useful_areas(s, (rows - 1) as nat, width);
        let y = useful_row(s, (rows - 1) as u32, width);
        assert forall|k: int| 0 <= k < (x + y).len() implies points_in_area(
            s,
            (#[trigger] (x + y)[k]).0,
            (x + y)[k].1,
        ).len() > 0 by {
            if k < x.len() {
                assert((x + y)[k] == x[k]);
            } else {
                assert((x + y)[k] == y[k - x.len()]);
                lemma_useful_iff_points(s, y[k - x.len()].0, y[k - x.len()].1);
            }
        }
    }
}

} // verus!
