//! Shared types of the point-cloud pipeline.
//!
//! Coordinates are carried as *order keys*: `i32` numbers whose order is the
//! order of the coordinates they stand for. The program that reads a file
//! turns each coordinate into its key and back; the library only compares
//! keys, so every decision it takes is the one the coordinates would give.
use vstd::prelude::*;

verus! {

/// Number of points one chunk is meant to hold.
pub const POINTS_IN_ONE_CHUNK: u32 = 100000;

/// Key of positive infinity, the largest key of a number.
pub const POSITIVE_INFINITY_KEY: i32 = 2139095040;

/// Key of negative infinity, the smallest key of a number.
pub const NEGATIVE_INFINITY_KEY: i32 = -2139095041;

/// Positions of the `x`, `y` and `z` fields in a record; `-1` while unknown.
#[derive(Debug, Clone, Copy)]
pub struct PCDField {
    pub x: i8,
    pub y: i8,
    pub z: i8,
}

/// A point of the cloud. `x`, `y` and `z` are order keys of its
/// coordinates; `index` is its position in the file among the kept points.
#[derive(Debug, Clone, Copy)]
pub struct MyPoint {
    pub x: i32,
    pub y: i32,
    pub z: i32,
    pub chunk_x_index: u32,
    pub chunk_y_index: u32,
    pub box_index: u32,
    pub index: u32,
}

/// Two points are the same point when they carry the same index.
impl PartialEq for MyPoint {
    fn eq(&self, other: &Self) -> (r: bool) {
        self.index == other.index
    }
}

impl vstd::std_specs::cmp::PartialEqSpecImpl for MyPoint {
    open spec fn obeys_eq_spec() -> bool {
        true
    }

    open spec fn eq_spec(&self, other: &Self) -> bool {
        self.index == other.index
    }
}

impl Eq for MyPoint {}

/// The points of a file with the bounds of their coordinates (as keys).
pub struct PCDData {
    pub points: Vec<MyPoint>,
    pub x_min: i32,
    pub x_max: i32,
    pub y_min: i32,
    pub y_max: i32,
    pub z_min: i32,
    pub z_max: i32,
    pub chunks_in_one_row: u32,
}

/// Outcome of one attempt to split a cloud into areas: the areas, or the
/// number of chunks per row to try next.
#[derive(Debug)]
pub enum ChunkSplitter {
    Done(Vec<Vec<MyPoint>>),
    Try(u32),
}

/// The sequence of the areas' point sequences.
pub open spec fn areas_view(areas: Seq<Vec<MyPoint>>) -> Seq<Seq<MyPoint>> {
    areas.map_values(|a: Vec<MyPoint>| a@)
}

impl ChunkSplitter {
    /// The areas of a finished split; a single empty area otherwise.
    pub fn unwrap(self) -> (areas: Vec<Vec<MyPoint>>)
        ensures
            match self {
                ChunkSplitter::Done(a) => areas@ == a@,
                ChunkSplitter::Try(_) => areas@.len() == 1 && areas@[0]@.len() == 0,
            },
    {
        match self {
            ChunkSplitter::Done(areas) => areas,
            ChunkSplitter::Try(_) => {
                let mut areas: Vec<Vec<MyPoint>> = Vec::new();
                areas.push(Vec::new());
                areas
            },
        }
    }
}

/// Smallest and largest coordinate keys of a set of points.
#[derive(Debug, Clone, Copy)]
pub struct AreaBounds {
    pub x_min: i32,
    pub x_max: i32,
    pub y_min: i32,
    pub y_max: i32,
    pub z_min: i32,
    pub z_max: i32,
}

/// `m` is the minimum of `start` and of the keys `s`.
pub open spec fn is_min_of(m: i32, start: i32, s: Seq<i32>) -> bool {
    &&& m <= start
    &&& forall|i: int| 0 <= i < s.len() ==> m <= #[trigger] s[i]
    &&& (m == start || exists|i: int| 0 <= i < s.len() && m == #[trigger] s[i])
}

/// `m` is the maximum of `start` and of the keys `s`.
pub open spec fn is_max_of(m: i32, start: i32, s: Seq<i32>) -> bool {
    &&& m >= start
    &&& forall|i: int| 0 <= i < s.len() ==> m >= #[trigger] s[i]
    &&& (m == start || exists|i: int| 0 <= i < s.len() && m == #[trigger] s[i])
}

pub open spec fn xs(points: Seq<MyPoint>) -> Seq<i32> {
    points.map_values(|p: MyPoint| p.x)
}

pub open spec fn ys(points: Seq<MyPoint>) -> Seq<i32> {
    points.map_values(|p: MyPoint| p.y)
}

pub open spec fn zs(points: Seq<MyPoint>) -> Seq<i32> {
    points.map_values(|p: MyPoint| p.z)
}

/// The bounding box of the points, as keys: each minimum starts at positive
/// infinity and each maximum at negative infinity, so an empty set of points
/// gives those two.
pub fn area_bounds(area_points: &Vec<MyPoint>) -> (b: AreaBounds)
    ensures
        is_min_of(b.x_min, POSITIVE_INFINITY_KEY, xs(area_points@)),
        is_max_of(b.x_max, NEGATIVE_INFINITY_KEY, xs(area_points@)),
        is_min_of(b.y_min, POSITIVE_INFINITY_KEY, ys(area_points@)),
        is_max_of(b.y_max, NEGATIVE_INFINITY_KEY, ys(area_points@)),
        is_min_of(b.z_min, POSITIVE_INFINITY_KEY, zs(area_points@)),
        is_max_of(b.z_max, NEGATIVE_INFINITY_KEY, zs(area_points@)),
{
    let mut b = AreaBounds {
        x_min: POSITIVE_INFINITY_KEY,
        x_max: NEGATIVE_INFINITY_KEY,
        y_min: POSITIVE_INFINITY_KEY,
        y_max: NEGATIVE_INFINITY_KEY,
        z_min: POSITIVE_INFINITY_KEY,
        z_max: NEGATIVE_INFINITY_KEY,
    };
    let n = area_points.len();
    for i in 0..n
        invariant
            n == area_points@.len(),
            is_min_of(b.x_min, POSITIVE_INFINITY_KEY, xs(area_points@.take(i as int))),
            is_max_of(b.x_max, NEGATIVE_INFINITY_KEY, xs(area_points@.take(i as int))),
            is_min_of(b.y_min, POSITIVE_INFINITY_KEY, ys(area_points@.take(i as int))),
            is_max_of(b.y_max, NEGATIVE_INFINITY_KEY, ys(area_points@.take(i as int))),
            is_min_of(b.z_min, POSITIVE_INFINITY_KEY, zs(area_points@.take(i as int))),
            is_max_of(b.z_max, NEGATIVE_INFINITY_KEY, zs(area_points@.take(i as int))),
    {
        let p = area_points[i];
        let ghost prev = area_points@.take(i as int);
        let ghost next = area_points@.take(i + 1);
        assert(next == prev.push(p));
        assert(xs(next) == xs(prev).push(p.x));
        assert(ys(next) == ys(prev).push(p.y));
        assert(zs(next) == zs(prev).push(p.z));
        proof {
            lemma_min_push(b.x_min, POSITIVE_INFINITY_KEY, xs(prev), p.x);
            lemma_max_push(b.x_max, NEGATIVE_INFINITY_KEY, xs(prev), p.x);
            lemma_min_push(b.y_min, POSITIVE_INFINITY_KEY, ys(prev), p.y);
            lemma_max_push(b.y_max, NEGATIVE_INFINITY_KEY, ys(prev), p.y);
            lemma_min_push(b.z_min, POSITIVE_INFINITY_KEY, zs(prev), p.z);
            lemma_max_push(b.z_max, NEGATIVE_INFINITY_KEY, zs(prev), p.z);
        }
        b.x_min = min_key(b.x_min, p.x);
        b.x_max = max_key(b.x_max, p.x);
        b.y_min = min_key(b.y_min, p.y);
        b.y_max = max_key(b.y_max, p.y);
        b.z_min = min_key(b.z_min, p.z);
        b.z_max = max_key(b.z_max, p.z);
    }
    assert(area_points@.take(n as int) == area_points@);
    b
}

/// The smaller of two keys.
pub fn min_key(a: i32, b: i32) -> (m: i32)
    ensures
        m == if b < a { b } else { a },
{
    if b < a {
        b
    } else {
        a
    }
}

/// The larger of two keys.
pub fn max_key(a: i32, b: i32) -> (m: i32)
    ensures
        m == if b > a { b } else { a },
{
    if b > a {
        b
    } else {
        a
    }
}

pub proof fn lemma_min_push(m: i32, start: i32, s: Seq<i32>, v: i32)
    requires
        is_min_of(m, start, s),
    ensures
        is_min_of(if v < m { v } else { m }, start, s.push(v)),
{
    let t = s.push(v);
    let m2 = if v < m { v } else { m };
    assert forall|i: int| 0 <= i < t.len() implies m2 <= #[trigger] t[i] by {
        if i < s.len() {
            assert(t[i] == s[i]);
        }
    }
    if m2 != start {
        if v < m {
            assert(t[s.len() as int] == v);
        } else {
            let i = choose|i: int| 0 <= i < s.len() && m == #[trigger] s[i];
            assert(t[i] == s[i]);
        }
    }
}

pub proof fn lemma_max_push(m: i32, start: i32, s: Seq<i32>, v: i32)
    requires
        is_max_of(m, start, s),
    ensures
        is_max_of(if v > m { v } else { m }, start, s.push(v)),
{
    let t = s.push(v);
    let m2 = if v > m { v } else { m };
    assert forall|i: int| 0 <= i < t.len() implies m2 >= #[trigger] t[i] by {
        if i < s.len() {
            assert(t[i] == s[i]);
        }
    }
    if m2 != start {
        if v > m {
            assert(t[s.len() as int] == v);
        } else {
            let i = choose|i: int| 0 <= i < s.len() && m == #[trigger] s[i];
            assert(t[i] == s[i]);
        }
    }
}

} // verus!
