//! The first version of the reader: it numbers the chunks of a ten by ten by
//! ten grid over the bounding box and gives each point the number of its
//! chunk. Coordinates are order keys, `None` for a value that is not a
//! number (such a value is neither below nor above any division).
use vstd::prelude::*;
use crate::util::{PCDField, POSITIVE_INFINITY_KEY, NEGATIVE_INFINITY_KEY, min_key, max_key};
use crate::point_reader::{is_min_of_read, is_max_of_read, opt_min, opt_max, lemma_min_read_push, lemma_max_read_push};

verus! {

/// Divisions per axis.
pub const SPLIT_NUM: u32 = 10;

/// A point of the first version: coordinate keys, the number of its chunk
/// and its position in the file.
#[derive(Debug, Clone, Copy)]
pub struct MyPoint {
    pub x: Option<i32>,
    pub y: Option<i32>,
    pub z: Option<i32>,
    pub chunk: u32,
    pub index: u32,
}

/// Number of divisions passed below the value before the first division
/// that is not below it; a comparison with a missing number passes without
/// counting.
pub open spec fn xyz_index(val: Option<i32>, divs: Seq<Option<i32>>) -> nat
    decreases divs.len(),
{
    if divs.len() == 0 {
        0
    } else {
        let rest = xyz_index(val, divs.drop_first());
        match (val, divs[0]) {
            (Some(v), Some(d)) => if v <= d {
                0
            } else {
                1 + rest
            },
            _ => rest,
        }
    }
}

proof fn lemma_xyz_index_step(val: Option<i32>, divs: Seq<Option<i32>>, i: int)
    requires
        0 <= i < divs.len(),
        !(val matches Some(v) && divs[i] matches Some(d) && v <= d),
    ensures
        xyz_index(val, divs.subrange(i, divs.len() as int)) == (if (val matches Some(v)
            && divs[i] matches Some(d) && v > d) {
            1nat
        } else {
            0nat
        }) + xyz_index(val, divs.subrange(i + 1, divs.len() as int)),
{
    let t = divs.subrange(i, divs.len() as int);
    assert(t.drop_first() == divs.subrange(i + 1, divs.len() as int));
    assert(t[0] == divs[i]);
}

/// Index, along one axis, of the chunk a coordinate falls in.
pub fn get_xyz_index(point_val: Option<i32>, divisions: &Vec<Option<i32>>) -> (r: usize)
    ensures
        r == xyz_index(point_val, divisions@),
{
    let mut chunk_index: usize = 0;
    let n = divisions.len();
    let mut i: usize = 0;
    proof {
        assert(divisions@.subrange(0, n as int) == divisions@);
    }
    loop
        invariant
            0 <= i <= n,
            n == divisions@.len(),
            chunk_index <= i,
            chunk_index + xyz_index(point_val, divisions@.subrange(i as int, n as int))
                == xyz_index(point_val, divisions@),
        ensures
            chunk_index == xyz_index(point_val, divisions@),
        decreases n - i,
    {
        if i == n {
            assert(divisions@.subrange(i as int, n as int).len() == 0);
            break;
        }
        let div = divisions[i];
        let below = match (point_val, div) {
            (Some(v), Some(d)) => v <= d,
            _ => false,
        };
        if below {
            let ghost t = divisions@.subrange(i as int, n as int);
            assert(t[0] == div);
            break;
        }
        proof {
            lemma_xyz_index_step(point_val, divisions@, i as int);
        }
        let above = match (point_val, div) {
            (Some(v), Some(d)) => v > d,
            _ => false,
        };
        if above {
            chunk_index += 1;
        }
        i += 1;
    }
    chunk_index
}

/// Number of the chunk a point falls in: hundreds along `x`, tens along
/// `y`, units along `z`.
pub open spec fn chunk_number(p: MyPoint, xd: Seq<Option<i32>>, yd: Seq<Option<i32>>, zd: Seq<
    Option<i32>,
>) -> int {
    100 * (xyz_index(p.x, xd) as u32) + 10 * (xyz_index(p.y, yd) as u32) + (xyz_index(p.z, zd) as u32)
}

/// The point with the number of its chunk.
pub open spec fn chunked(p: MyPoint, xd: Seq<Option<i32>>, yd: Seq<Option<i32>>, zd: Seq<
    Option<i32>,
>) -> MyPoint {
    MyPoint { chunk: chunk_number(p, xd, yd, zd) as u32, ..p }
}

/// Gives each point the number of its chunk; the rest of the point is kept.
pub fn set_points_chunks(
    points: &mut Vec<MyPoint>,
    x_divisions: &Vec<Option<i32>>,
    y_divisions: &Vec<Option<i32>>,
    z_divisions: &Vec<Option<i32>>,
)
    requires
        forall|i: int|
            0 <= i < old(points)@.len() ==> chunk_number(
                #[trigger] old(points)@[i],
                x_divisions@,
                y_divisions@,
                z_divisions@,
            ) <= u32::MAX,
    ensures
        final(points)@.len() == old(points)@.len(),
        forall|i: int|
            0 <= i < final(points)@.len() ==> #[trigger] final(points)@[i] == chunked(
                old(points)@[i],
                x_divisions@,
                y_divisions@,
                z_divisions@,
            ),
{
    let n = points.len();
    for i in 0..n
        invariant
            n == points@.len(),
            n == old(points)@.len(),
            forall|j: int|
                0 <= j < old(points)@.len() ==> chunk_number(
                    #[trigger] old(points)@[j],
                    x_divisions@,
                    y_divisions@,
                    z_divisions@,
                ) <= u32::MAX,
            forall|j: int|
                0 <= j < i ==> #[trigger] points@[j] == chunked(
                    old(points)@[j],
                    x_divisions@,
                    y_divisions@,
                    z_divisions@,
                ),
            forall|j: int| i <= j < n ==> #[trigger] points@[j] == old(points)@[j],
    {
        let p = points[i];
        assert(p == old(points)@[i as int]);
        let chunk_x = #[verifier::truncate] (get_xyz_index(p.x, x_divisions) as u32);
        let chunk_y = #[verifier::truncate] (get_xyz_index(p.y, y_divisions) as u32);
        let chunk_z = #[verifier::truncate] (get_xyz_index(p.z, z_divisions) as u32);
        assert(chunk_number(p, x_divisions@, y_divisions@, z_divisions@) <= u32::MAX);
        let chunk_num = SPLIT_NUM * SPLIT_NUM * chunk_x + SPLIT_NUM * chunk_y + chunk_z;
        points.set(i, MyPoint { chunk: chunk_num, ..p });
    }
}

/// The value a record gives toward a coordinate's bounds: the field at the
/// position, when there is one.
pub open spec fn field_at(r: Seq<Option<i32>>, k: int) -> Option<i32> {
    if 0 <= k < r.len() {
        r[k]
    } else {
        None
    }
}

/// The field read for `x`.
pub open spec fn grid_read_x(r: Seq<Option<i32>>, f: PCDField) -> Option<i32> {
    field_at(r, f.x as int)
}

/// The field read for `y`; a field taken for `x` is not read again.
pub open spec fn grid_read_y(r: Seq<Option<i32>>, f: PCDField) -> Option<i32> {
    if f.y == f.x {
        None
    } else {
        field_at(r, f.y as int)
    }
}

/// The field read for `z`; a field taken for `x` or `y` is not read again.
pub open spec fn grid_read_z(r: Seq<Option<i32>>, f: PCDField) -> Option<i32> {
    if f.z == f.x || f.z == f.y {
        None
    } else {
        field_at(r, f.z as int)
    }
}

/// The point record `k` becomes.
pub open spec fn grid_point_of(r: Seq<Option<i32>>, f: PCDField, k: u32) -> MyPoint {
    MyPoint {
        x: if f.x < r.len() { r[f.x as int] } else { Some(0) },
        y: if f.y != f.x && f.y < r.len() { r[f.y as int] } else { Some(0) },
        z: if f.z != f.x && f.z != f.y && f.z < r.len() { r[f.z as int] } else { Some(0) },
        chunk: 0,
        index: k,
    }
}

pub open spec fn grid_reads(
    records: Seq<Seq<Option<i32>>>,
    read: spec_fn(Seq<Option<i32>>) -> Option<i32>,
) -> Seq<Option<i32>> {
    records.map_values(read)
}

/// Points of a file and the bounds of their coordinates, as keys.
pub struct GridPoints {
    pub points: Vec<MyPoint>,
    pub x_min: i32,
    pub x_max: i32,
    pub y_min: i32,
    pub y_max: i32,
    pub z_min: i32,
    pub z_max: i32,
}

/// What this reader makes of the records of a file, given the positions of
/// the coordinate fields: every record becomes a point, numbered by its
/// position; a value that is not a number stays in the point and does not
/// move the bounds. The bounds start at positive infinity for minima and
/// negative infinity for maxima.
pub fn points_from_records(records: &Vec<Vec<Option<i32>>>, xyz_indexes: &PCDField) -> (g:
    GridPoints)
    requires
        xyz_indexes.x >= 0,
        xyz_indexes.y >= 0,
        xyz_indexes.z >= 0,
        records@.len() <= u32::MAX,
    ensures
        g.points@.len() == records@.len(),
        forall|k: int|
            0 <= k < records@.len() ==> #[trigger] g.points@[k] == grid_point_of(
                records@[k]@,
                *xyz_indexes,
                k as u32,
            ),
        is_min_of_read(
            g.x_min,
            POSITIVE_INFINITY_KEY,
            grid_reads(crate::point_reader::records_view(records@), |r| grid_read_x(r, *xyz_indexes)),
        ),
        is_max_of_read(
            g.x_max,
            NEGATIVE_INFINITY_KEY,
            grid_reads(crate::point_reader::records_view(records@), |r| grid_read_x(r, *xyz_indexes)),
        ),
        is_min_of_read(
            g.y_min,
            POSITIVE_INFINITY_KEY,
            grid_reads(crate::point_reader::records_view(records@), |r| grid_read_y(r, *xyz_indexes)),
        ),
        is_max_of_read(
            g.y_max,
            NEGATIVE_INFINITY_KEY,
            grid_reads(crate::point_reader::records_view(records@), |r| grid_read_y(r, *xyz_indexes)),
        ),
        is_min_of_read(
            g.z_min,
            POSITIVE_INFINITY_KEY,
            grid_reads(crate::point_reader::records_view(records@), |r| grid_read_z(r, *xyz_indexes)),
        ),
        is_max_of_read(
            g.z_max,
            NEGATIVE_INFINITY_KEY,
            grid_reads(crate::point_reader::records_view(records@), |r| grid_read_z(r, *xyz_indexes)),
        ),
{
    let f = *xyz_indexes;
    let ghost rv = crate::point_reader::records_view(records@);
    let ghost rx = |r: Seq<Option<i32>>| grid_read_x(r, f);
    let ghost ry = |r: Seq<Option<i32>>| grid_read_y(r, f);
    let ghost rz = |r: Seq<Option<i32>>| grid_read_z(r, f);
    let xi = f.x as usize;
    let yi = f.y as usize;
    let zi = f.z as usize;
    let mut points: Vec<MyPoint> = Vec::new();
    let mut index: u32 = 0;
    let mut x_min = POSITIVE_INFINITY_KEY;
    let mut x_max = NEGATIVE_INFINITY_KEY;
    let mut y_min = POSITIVE_INFINITY_KEY;
    let mut y_max = NEGATIVE_INFINITY_KEY;
    let mut z_min = POSITIVE_INFINITY_KEY;
    let mut z_max = NEGATIVE_INFINITY_KEY;
    let nr = records.len();
    let mut ri: usize = 0;
    while ri < nr
        invariant
            0 <= ri <= nr,
            nr == records@.len(),
            nr <= u32::MAX,
            rv == crate::point_reader::records_view(records@),
            rv.len() == nr,
            f == *xyz_indexes,
            f.x >= 0 && f.y >= 0 && f.z >= 0,
            xi == f.x && yi == f.y && zi == f.z,
            rx == (|r: Seq<Option<i32>>| grid_read_x(r, f)),
            ry == (|r: Seq<Option<i32>>| grid_read_y(r, f)),
            rz == (|r: Seq<Option<i32>>| grid_read_z(r, f)),
            points@.len() == ri,
            index == ri,
            forall|k: int|
                0 <= k < ri ==> #[trigger] points@[k] == grid_point_of(records@[k]@, f, k as u32),
            is_min_of_read(x_min, POSITIVE_INFINITY_KEY, grid_reads(rv.take(ri as int), rx)),
            is_max_of_read(x_max, NEGATIVE_INFINITY_KEY, grid_reads(rv.take(ri as int), rx)),
            is_min_of_read(y_min, POSITIVE_INFINITY_KEY, grid_reads(rv.take(ri as int), ry)),
            is_max_of_read(y_max, NEGATIVE_INFINITY_KEY, grid_reads(rv.take(ri as int), ry)),
            is_min_of_read(z_min, POSITIVE_INFINITY_KEY, grid_reads(rv.take(ri as int), rz)),
            is_max_of_read(z_max, NEGATIVE_INFINITY_KEY, grid_reads(rv.take(ri as int), rz)),
        decreases nr - ri,
    {
        let rec = &records[ri];
        let ghost r = rec@;
        assert(r == rv[ri as int]);
        let ghost x_min0 = x_min;
        let ghost x_max0 = x_max;
        let ghost y_min0 = y_min;
        let ghost y_max0 = y_max;
        let ghost z_min0 = z_min;
        let ghost z_max0 = z_max;
        let mut point = MyPoint { x: Some(0), y: Some(0), z: Some(0), index, chunk: 0 };
        let nf = rec.len();
        for i in 0..nf
            invariant
                nf == r.len(),
                r == rec@,
                xi == f.x && yi == f.y && zi == f.z,
                point.index == index,
                point.chunk == 0,
                point.x == (if xi < i { r[xi as int] } else { Some(0) }),
                point.y == (if yi < i && yi != xi { r[yi as int] } else { Some(0) }),
                point.z == (if zi < i && zi != xi && zi != yi { r[zi as int] } else { Some(0) }),
                x_min == (if xi < i { opt_min(x_min0, r[xi as int]) } else { x_min0 }),
                x_max == (if xi < i { opt_max(x_max0, r[xi as int]) } else { x_max0 }),
                y_min == (if yi < i && yi != xi { opt_min(y_min0, r[yi as int]) } else { y_min0 }),
                y_max == (if yi < i && yi != xi { opt_max(y_max0, r[yi as int]) } else { y_max0 }),
                z_min == (if zi < i && zi != xi && zi != yi { opt_min(z_min0, r[zi as int]) } else { z_min0 }),
                z_max == (if zi < i && zi != xi && zi != yi { opt_max(z_max0, r[zi as int]) } else { z_max0 }),
        {
            let val = rec[i];
            if i == xi {
                point.x = val;
                if let Some(v) = val {
                    x_min = min_key(x_min, v);
                    x_max = max_key(x_max, v);
                }
            } else if i == yi {
                point.y = val;
                if let Some(v) = val {
                    y_min = min_key(y_min, v);
                    y_max = max_key(y_max, v);
                }
            } else if i == zi {
                point.z = val;
                if let Some(v) = val {
                    z_min = min_key(z_min, v);
                    z_max = max_key(z_max, v);
                }
            }
        }
        proof {
            assert(grid_read_x(r, f) == if xi < nf { r[xi as int] } else { None::<i32> });
            let t = rv.take(ri + 1);
            assert(t.drop_last() == rv.take(ri as int));
            assert(t.last() == r);
            assert(grid_reads(t, rx) == grid_reads(rv.take(ri as int), rx).push(grid_read_x(r, f)));
            assert(grid_reads(t, ry) == grid_reads(rv.take(ri as int), ry).push(grid_read_y(r, f)));
            assert(grid_reads(t, rz) == grid_reads(rv.take(ri as int), rz).push(grid_read_z(r, f)));
            lemma_min_read_push(x_min0, POSITIVE_INFINITY_KEY, grid_reads(rv.take(ri as int), rx), grid_read_x(r, f));
            lemma_max_read_push(x_max0, NEGATIVE_INFINITY_KEY, grid_reads(rv.take(ri as int), rx), grid_read_x(r, f));
            lemma_min_read_push(y_min0, POSITIVE_INFINITY_KEY, grid_reads(rv.take(ri as int), ry), grid_read_y(r, f));
            lemma_max_read_push(y_max0, NEGATIVE_INFINITY_KEY, grid_reads(rv.take(ri as int), ry), grid_read_y(r, f));
            lemma_min_read_push(z_min0, POSITIVE_INFINITY_KEY, grid_reads(rv.take(ri as int), rz), grid_read_z(r, f));
            lemma_max_read_push(z_max0, NEGATIVE_INFINITY_KEY, grid_reads(rv.take(ri as int), rz), grid_read_z(r, f));
            assert(point == grid_point_of(records@[ri as int]@, f, index));
        }
        points.push(point);
        index += 1;
        ri += 1;
    }
    assert(rv.take(nr as int) == rv);
    GridPoints { points, x_min, x_max, y_min, y_max, z_min, z_max }
}

/// Law: this reader takes each coordinate from its own position. With the
/// positions all different, the point of a record holds the field at the `x`
/// position as `x`, the one at the `y` position as `y` and the one at the
/// `z` position as `z`, or the key of zero where the record is too short,
/// and carries its number.
pub proof fn lemma_grid_point_reads_positions(r: Seq<Option<i32>>, f: PCDField, k: u32)
    requires
        f.x >= 0 && f.y >= 0 && f.z >= 0,
        f.x != f.y && f.x != f.z && f.y != f.z,
    ensures
        grid_point_of(r, f, k).x == (if f.x < r.len() { r[f.x as int] } else { Some(0) }),
        grid_point_of(r, f, k).y == (if f.y < r.len() { r[f.y as int] } else { Some(0) }),
        grid_point_of(r, f, k).z == (if f.z < r.len() { r[f.z as int] } else { Some(0) }),
        grid_point_of(r, f, k).index == k,
        grid_point_of(r, f, k).chunk == 0,
{
}

/// Law: the bounds this reader keeps for a coordinate range over the numbers
/// found at that coordinate's position: the minimum is at most each of them
/// and is positive infinity or one of them, the maximum at least each and
/// negative infinity or one of them.
pub proof fn lemma_grid_bounds_at_position(
    records: Seq<Seq<Option<i32>>>,
    pos: i8,
    read: spec_fn(Seq<Option<i32>>) -> Option<i32>,
    lo: i32,
    hi: i32,
)
    requires
        pos >= 0,
        forall|r: Seq<Option<i32>>| #[trigger] read(r) == field_at(r, pos as int),
        is_min_of_read(lo, POSITIVE_INFINITY_KEY, grid_reads(records, read)),
        is_max_of_read(hi, NEGATIVE_INFINITY_KEY, grid_reads(records, read)),
    ensures
        forall|j: int|
            0 <= j < records.len() && pos < records[j].len() && (#[trigger] records[j][pos as int]) is Some
                ==> lo <= records[j][pos as int]->0 <= hi,
        lo == POSITIVE_INFINITY_KEY || exists|j: int|
            0 <= j < records.len() && pos < records[j].len() && #[trigger] records[j][pos as int]
                == Some(lo),
        hi == NEGATIVE_INFINITY_KEY || exists|j: int|
            0 <= j < records.len() && pos < records[j].len() && #[trigger] records[j][pos as int]
                == Some(hi),
{
    let vals = grid_reads(records, read);
    assert forall|j: int|
        0 <= j < records.len() && pos < records[j].len() && (#[trigger] records[j][pos as int]) is Some
            implies lo <= records[j][pos as int]->0 <= hi by {
        assert(vals[j] == read(records[j]));
    }
    if lo != POSITIVE_INFINITY_KEY {
        let j = choose|j: int| 0 <= j < vals.len() && #[trigger] vals[j] == Some(lo);
        assert(vals[j] == read(records[j]));
    }
    if hi != NEGATIVE_INFINITY_KEY {
        let j = choose|j: int| 0 <= j < vals.len() && #[trigger] vals[j] == Some(hi);
        assert(vals[j] == read(records[j]));
    }
}

/// Law: with the coordinate positions all different, each of the three
/// readings this reader bounds is the field at that coordinate's position.
pub proof fn lemma_grid_reads_at_positions(r: Seq<Option<i32>>, f: PCDField)
    requires
        f.x >= 0 && f.y >= 0 && f.z >= 0,
        f.x != f.y && f.x != f.z && f.y != f.z,
    ensures
        grid_read_x(r, f) == (if f.x < r.len() { r[f.x as int] } else { None }),
        grid_read_y(r, f) == (if f.y < r.len() { r[f.y as int] } else { None }),
        grid_read_z(r, f) == (if f.z < r.len() { r[f.z as int] } else { None }),
{
}

/// Over divisions that are all numbers and sorted, the index of a number is
/// the count of divisions below it.
pub open spec fn count_below(v: i32, divs: Seq<Option<i32>>) -> nat {
    divs.filter(|d: Option<i32>| d matches Some(e) && e < v).len()
}

/// Law: over divisions that are all numbers and sorted in increasing order,
/// the index of a coordinate is the number of divisions below it.
pub proof fn lemma_xyz_index_counts_below(v: i32, divs: Seq<Option<i32>>)
    requires
        forall|i: int| 0 <= i < divs.len() ==> (#[trigger] divs[i]) is Some,
        forall|i: int, j: int| 0 <= i <= j < divs.len() ==> divs[i]->0 <= divs[j]->0,
    ensures
        xyz_index(Some(v), divs) == count_below(v, divs),
    decreases divs.len(),
{
    reveal_with_fuel(Seq::filter, 1);
    if divs.len() > 0 {
        let rest = divs.drop_first();
        assert forall|i: int| 0 <= i < rest.len() implies (#[trigger] rest[i]) is Some by {
            assert(rest[i] == divs[i + 1]);
        }
        assert forall|i: int, j: int| 0 <= i <= j < rest.len() implies rest[i]->0 <= rest[j]->0 by {
            assert(rest[i] == divs[i + 1] && rest[j] == divs[j + 1]);
        }
        lemma_xyz_index_counts_below(v, rest);
        lemma_count_below_first(v, divs);
    }
}

/// Counting from the front: the first division counts when below `v`; and a
/// division not below `v` in a sorted list leaves nothing below `v` after it.
proof fn lemma_count_below_first(v: i32, divs: Seq<Option<i32>>)
    requires
        divs.len() > 0,
        forall|i: int| 0 <= i < divs.len() ==> (#[trigger] divs[i]) is Some,
        forall|i: int, j: int| 0 <= i <= j < divs.len() ==> divs[i]->0 <= divs[j]->0,
    ensures
        count_below(v, divs) == if v <= divs[0]->0 {
            0
        } else {
            1 + count_below(v, divs.drop_first())
        },
{
    let pred = |d: Option<i32>| d matches Some(e) && e < v;
    let rest = divs.drop_first();
    assert(divs == seq![divs[0]] + rest);
    rest.lemma_filter_prepend(divs[0], pred);
    if v <= divs[0]->0 {
        assert forall|i: int| 0 <= i < rest.len() implies !pred(#[trigger] rest[i]) by {
            assert(rest[i] == divs[i + 1]);
        }
        rest.lemma_all_neg_filter_empty(pred);
    }
}

/// Law: a chunk number is made of one digit per axis. Changing only the `x`
/// divisions changes it by a multiple of 100 given by the `x` indices,
/// changing only the `y` divisions by a multiple of 10 given by the `y`
/// indices, and changing only the `z` divisions by the change of the `z`
/// index.
pub proof fn lemma_chunk_number_axes(
    p: MyPoint,
    xd: Seq<Option<i32>>,
    yd: Seq<Option<i32>>,
    zd: Seq<Option<i32>>,
    other: Seq<Option<i32>>,
)
    ensures
        chunk_number(p, xd, yd, zd) - chunk_number(p, other, yd, zd) == 100 * ((xyz_index(p.x, xd)
            as u32) - (xyz_index(p.x, other) as u32)),
        chunk_number(p, xd, yd, zd) - chunk_number(p, xd, other, zd) == 10 * ((xyz_index(p.y, yd)
            as u32) - (xyz_index(p.y, other) as u32)),
        chunk_number(p, xd, yd, zd) - chunk_number(p, xd, yd, other) == (xyz_index(p.z, zd) as u32)
            - (xyz_index(p.z, other) as u32),
{
}

/// Law: over divisions that are all numbers, sorted, and (as always in this
/// reader) at most ten per axis, a point with all three coordinates gets
/// chunk number 100 times the `x` divisions below its `x`, plus 10 times the
/// `y` divisions below its `y`, plus the `z` divisions below its `z`.
pub proof fn lemma_chunk_number_counts_below(
    p: MyPoint,
    xd: Seq<Option<i32>>,
    yd: Seq<Option<i32>>,
    zd: Seq<Option<i32>>,
)
    requires
        p.x is Some && p.y is Some && p.z is Some,
        xd.len() <= SPLIT_NUM && yd.len() <= SPLIT_NUM && zd.len() <= SPLIT_NUM,
        forall|i: int| 0 <= i < xd.len() ==> (#[trigger] xd[i]) is Some,
        forall|i: int| 0 <= i < yd.len() ==> (#[trigger] yd[i]) is Some,
        forall|i: int| 0 <= i < zd.len() ==> (#[trigger] zd[i]) is Some,
        forall|i: int, j: int| 0 <= i <= j < xd.len() ==> xd[i]->0 <= xd[j]->0,
        forall|i: int, j: int| 0 <= i <= j < yd.len() ==> yd[i]->0 <= yd[j]->0,
        forall|i: int, j: int| 0 <= i <= j < zd.len() ==> zd[i]->0 <= zd[j]->0,
    ensures
        chunk_number(p, xd, yd, zd) == 100 * count_below(p.x->0, xd) + 10 * count_below(p.y->0, yd)
            + count_below(p.z->0, zd),
{
    lemma_xyz_index_counts_below(p.x->0, xd);
    lemma_xyz_index_counts_below(p.y->0, yd);
    lemma_xyz_index_counts_below(p.z->0, zd);
    xd.lemma_filter_len(|d: Option<i32>| d matches Some(e) && e < p.x->0);
    yd.lemma_filter_len(|d: Option<i32>| d matches Some(e) && e < p.y->0);
    zd.lemma_filter_len(|d: Option<i32>| d matches Some(e) && e < p.z->0);
}

/// Law: the bounds `points_from_records` gives range over the fields at the
/// coordinate positions. With the positions all different, each minimum is
/// at most every number found at its coordinate's position and is positive
/// infinity or one of them; each maximum likewise from above.
pub proof fn lemma_grid_bounds_at_positions(
    records: Seq<Seq<Option<i32>>>,
    f: PCDField,
    x_min: i32,
    x_max: i32,
    y_min: i32,
    y_max: i32,
    z_min: i32,
    z_max: i32,
)
    requires
        f.x >= 0 && f.y >= 0 && f.z >= 0,
        f.x != f.y && f.x != f.z && f.y != f.z,
        is_min_of_read(x_min, POSITIVE_INFINITY_KEY, grid_reads(records, |r| grid_read_x(r, f))),
        is_max_of_read(x_max, NEGATIVE_INFINITY_KEY, grid_reads(records, |r| grid_read_x(r, f))),
        is_min_of_read(y_min, POSITIVE_INFINITY_KEY, grid_reads(records, |r| grid_read_y(r, f))),
        is_max_of_read(y_max, NEGATIVE_INFINITY_KEY, grid_reads(records, |r| grid_read_y(r, f))),
        is_min_of_read(z_min, POSITIVE_INFINITY_KEY, grid_reads(records, |r| grid_read_z(r, f))),
        is_max_of_read(z_max, NEGATIVE_INFINITY_KEY, grid_reads(records, |r| grid_read_z(r, f))),
    ensures
        forall|j: int|
            0 <= j < records.len() && f.x < records[j].len() && (
            #[trigger] records[j][f.x as int]) is Some ==> x_min <= records[j][f.x as int]->0
                <= x_max,
        forall|j: int|
            0 <= j < records.len() && f.y < records[j].len() && (
            #[trigger] records[j][f.y as int]) is Some ==> y_min <= records[j][f.y as int]->0
                <= y_max,
        forall|j: int|
            0 <= j < records.len() && f.z < records[j].len() && (
            #[trigger] records[j][f.z as int]) is Some ==> z_min <= records[j][f.z as int]->0
                <= z_max,
        x_min == POSITIVE_INFINITY_KEY || exists|j: int|
            0 <= j < records.len() && f.x < records[j].len() && #[trigger] records[j][f.x as int]
                == Some(x_min),
        x_max == NEGATIVE_INFINITY_KEY || exists|j: int|
            0 <= j < records.len() && f.x < records[j].len() && #[trigger] records[j][f.x as int]
                == Some(x_max),
        y_min == POSITIVE_INFINITY_KEY || exists|j: int|
            0 <= j < records.len() && f.y < records[j].len() && #[trigger] records[j][f.y as int]
                == Some(y_min),
        y_max == NEGATIVE_INFINITY_KEY || exists|j: int|
            0 <= j < records.len() && f.y < records[j].len() && #[trigger] records[j][f.y as int]
                == Some(y_max),
        z_min == POSITIVE_INFINITY_KEY || exists|j: int|
            0 <= j < records.len() && f.z < records[j].len() && #[trigger] records[j][f.z as int]
                == Some(z_min),
        z_max == NEGATIVE_INFINITY_KEY || exists|j: int|
            0 <= j < records.len() && f.z < records[j].len() && #[trigger] records[j][f.z as int]
                == Some(z_max),
{
    let rx = |r: Seq<Option<i32>>| grid_read_x(r, f);
    let ry = |r: Seq<Option<i32>>| grid_read_y(r, f);
    let rz = |r: Seq<Option<i32>>| grid_read_z(r, f);
    assert forall|r: Seq<Option<i32>>| #[trigger] rx(r) == field_at(r, f.x as int) by {}
    assert forall|r: Seq<Option<i32>>| #[trigger] ry(r) == field_at(r, f.y as int) by {}
    assert forall|r: Seq<Option<i32>>| #[trigger] rz(r) == field_at(r, f.z as int) by {}
    lemma_grid_bounds_at_position(records, f.x, rx, x_min, x_max);
    lemma_grid_bounds_at_position(records, f.y, ry, y_min, y_max);
    lemma_grid_bounds_at_position(records, f.z, rz, z_min, z_max);
}

} // verus!
