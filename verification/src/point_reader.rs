//! From records to points, and from points to areas.
use vstd::prelude::*;
use vstd::seq_lib::lemma_multiset_commutative;
use vstd::multiset::Multiset;
use crate::util::{
    MyPoint, ChunkSplitter, PCDData, PCDField, POINTS_IN_ONE_CHUNK, POSITIVE_INFINITY_KEY,
    NEGATIVE_INFINITY_KEY, areas_view, min_key, max_key,
};

verus! {

// ---------------------------------------------------------------------------
// Splitting a coordinate range
// ---------------------------------------------------------------------------

/// Index of the first division that is not below `val`, or the number of
/// divisions when all are below it.
pub open spec fn split_index(val: i32, divs: Seq<i32>) -> nat
    decreases divs.len(),
{
    if divs.len() == 0 {
        0
    } else if val <= divs[0] {
        0
    } else {
        1 + split_index(val, divs.drop_first())
    }
}

/// When the first `i` divisions are below `val`, the split index is at least
/// `i`, and it is exactly `i` when the next division is not below `val`.
pub proof fn lemma_split_index_prefix(val: i32, divs: Seq<i32>, i: int)
    requires
        0 <= i <= divs.len(),
        forall|j: int| 0 <= j < i ==> #[trigger] divs[j] < val,
    ensures
        split_index(val, divs) >= i,
        (i == divs.len() || val <= divs[i]) ==> split_index(val, divs) == i,
    decreases i,
{
    if i > 0 {
        let rest = divs.drop_first();
        assert forall|j: int| 0 <= j < i - 1 implies #[trigger] rest[j] < val by {
            assert(rest[j] == divs[j + 1]);
        }
        assert(divs[0] < val);
        lemma_split_index_prefix(val, rest, i - 1);
        if i < divs.len() {
            assert(rest[i - 1] == divs[i]);
        }
    }
}

/// The split index is the number of leading divisions below the value.
pub proof fn lemma_split_index_bounds(val: i32, divs: Seq<i32>)
    ensures
        split_index(val, divs) <= divs.len(),
        forall|j: int| 0 <= j < split_index(val, divs) ==> #[trigger] divs[j] < val,
        split_index(val, divs) < divs.len() ==> val <= divs[split_index(val, divs) as int],
    decreases divs.len(),
{
    if divs.len() > 0 && val > divs[0] {
        let rest = divs.drop_first();
        lemma_split_index_bounds(val, rest);
        assert forall|j: int| 0 <= j < split_index(val, divs) implies #[trigger] divs[j] < val by {
            if j > 0 {
                assert(divs[j] == rest[j - 1]);
            }
        }
    }
}

/// Law: the split index never decreases as the value grows, whatever the
/// divisions.
pub proof fn lemma_split_index_monotone(a: i32, b: i32, divs: Seq<i32>)
    requires
        a <= b,
    ensures
        split_index(a, divs) <= split_index(b, divs),
{
    lemma_split_index_bounds(a, divs);
    lemma_split_index_prefix(b, divs, split_index(a, divs) as int);
}

/// Law: over divisions sorted in increasing order, the split index of a value
/// is the number of divisions below it.
pub proof fn lemma_split_index_counts_below(val: i32, divs: Seq<i32>)
    requires
        forall|i: int, j: int| 0 <= i <= j < divs.len() ==> divs[i] <= divs[j],
    ensures
        split_index(val, divs) == divs.filter(|d: i32| d < val).len(),
    decreases divs.len(),
{
    reveal_with_fuel(Seq::filter, 1);
    if divs.len() > 0 {
        let init = divs.drop_last();
        assert(divs == init.push(divs.last()));
        lemma_split_index_counts_below(val, init);
        lemma_split_index_bounds(val, init);
        lemma_split_index_bounds(val, divs);
        let k = split_index(val, init);
        assert(init.filter(|d: i32| d < val) == divs.drop_last().filter(|d: i32| d < val));
        if divs.last() < val {
            // every division is below `val`
            assert forall|j: int| 0 <= j < divs.len() implies #[trigger] divs[j] < val by {
                assert(divs[j] <= divs.last());
            }
            lemma_split_index_prefix(val, divs, divs.len() as int);
            lemma_split_index_prefix(val, init, init.len() as int);
        } else {
            lemma_split_index_prefix(val, divs, k as int);
            if k < init.len() {
                assert(init[k as int] == divs[k as int]);
            } else {
                assert forall|j: int| 0 <= j < k implies #[trigger] divs[j] < val by {
                    assert(divs[j] == init[j]);
                }
            }
            assert forall|j: int| 0 <= j < k implies #[trigger] divs[j] < val by {
                assert(divs[j] == init[j]);
            }
        }
    }
}

/// Index of the chunk, along one axis, that a coordinate falls in: the number
/// of leading divisions below it.
pub fn get_split_index(point_val: i32, divisions: &Vec<i32>) -> (r: u32)
    requires
        split_index(point_val, divisions@) <= i32::MAX,
    ensures
        r == split_index(point_val, divisions@),
{
    let mut chunk_index: i32 = 0;
    let n = divisions.len();
    let mut i: usize = 0;
    loop
        invariant
            0 <= i <= n,
            n == divisions@.len(),
            chunk_index == i,
            forall|j: int| 0 <= j < i ==> #[trigger] divisions@[j] < point_val,
            split_index(point_val, divisions@) <= i32::MAX,
        ensures
            chunk_index == split_index(point_val, divisions@),
        decreases n - i,
    {
        if i == n {
            proof {
                lemma_split_index_prefix(point_val, divisions@, i as int);
            }
            break;
        }
        if point_val <= divisions[i] {
            proof {
                lemma_split_index_prefix(point_val, divisions@, i as int);
            }
            break;
        } else {
            proof {
                lemma_split_index_prefix(point_val, divisions@, i + 1);
            }
            chunk_index += 1;
        }
        i += 1;
    }
    chunk_index as u32
}


// ---------------------------------------------------------------------------
// Splitting a cloud into areas
// ---------------------------------------------------------------------------

/// The point with its chunk indices set from the divisions of both axes.
pub open spec fn assigned(p: MyPoint, xd: Seq<i32>, yd: Seq<i32>) -> MyPoint {
    MyPoint {
        chunk_x_index: split_index(p.x, xd) as u32,
        chunk_y_index: split_index(p.y, yd) as u32,
        ..p
    }
}

pub open spec fn assign_all(s: Seq<MyPoint>, xd: Seq<i32>, yd: Seq<i32>) -> Seq<MyPoint> {
    s.map_values(|p: MyPoint| assigned(p, xd, yd))
}

/// The points of `s`, in order, whose chunk is `(cx, cy)`.
pub open spec fn chunk_points(s: Seq<MyPoint>, cx: int, cy: int) -> Seq<MyPoint>
    decreases s.len(),
{
    if s.len() == 0 {
        seq![]
    } else {
        let rest = chunk_points(s.drop_last(), cx, cy);
        if s.last().chunk_x_index == cx && s.last().chunk_y_index == cy {
            rest.push(s.last())
        } else {
            rest
        }
    }
}

/// Along one axis, the area that collects chunk `c`: areas span two chunks,
/// and a chunk goes to the first area that covers it.
pub open spec fn owner(c: int) -> int {
    if c == 0 {
        0
    } else {
        c - 1
    }
}

/// What chunk `(cx, cy)` gives to area `(ax, ay)`.
pub open spec fn part(s: Seq<MyPoint>, ax: int, ay: int, cx: int, cy: int) -> Seq<MyPoint> {
    if owner(cx) == ax && owner(cy) == ay {
        chunk_points(s, cx, cy)
    } else {
        seq![]
    }
}

/// The points of area `(ax, ay)`: the chunks `(ax, ay)`, `(ax + 1, ay)`,
/// `(ax, ay + 1)` and `(ax + 1, ay + 1)` in this order, each chunk counted
/// only in the first area that covers it.
pub open spec fn area_points(s: Seq<MyPoint>, ax: int, ay: int) -> Seq<MyPoint> {
    part(s, ax, ay, ax, ay) + part(s, ax, ay, ax + 1, ay) + part(s, ax, ay, ax, ay + 1) + part(
        s,
        ax,
        ay,
        ax + 1,
        ay + 1,
    )
}

/// The non-empty areas among the first `m` of row `ax`.
pub open spec fn row_areas(s: Seq<MyPoint>, ax: int, m: nat) -> Seq<Seq<MyPoint>>
    decreases m,
{
    if m == 0 {
        seq![]
    } else {
        let prev = row_areas(s, ax, (m - 1) as nat);
        let a = area_points(s, ax, m - 1);
        if a.len() == 0 {
            prev
        } else {
            prev.push(a)
        }
    }
}

/// The non-empty areas of the first `rows` rows, each row `width` long.
pub open spec fn areas_of(s: Seq<MyPoint>, rows: nat, width: nat) -> Seq<Seq<MyPoint>>
    decreases rows,
{
    if rows == 0 {
        seq![]
    } else {
        areas_of(s, (rows - 1) as nat, width) + row_areas(s, rows - 1, width)
    }
}

/// An area holds more points than four chunks are meant to.
pub open spec fn oversized(s: Seq<MyPoint>, ax: int, ay: int) -> bool {
    (area_points(s, ax, ay).len() as u32) > 4 * POINTS_IN_ONE_CHUNK
}

pub open spec fn any_oversized(s: Seq<MyPoint>, width: int) -> bool {
    exists|ax: int, ay: int| 0 <= ax < width && 0 <= ay < width && #[trigger] oversized(s, ax, ay)
}

/// `(a, b)` comes before `(c, d)` in row-major order.
pub open spec fn before(a: int, b: int, c: int, d: int) -> bool {
    a < c || (a == c && b < d)
}

/// Every point falls in one of the `n` by `n` chunks.
pub open spec fn fits_grid(s: Seq<MyPoint>, xd: Seq<i32>, yd: Seq<i32>, n: int) -> bool {
    forall|i: int|
        0 <= i < s.len() ==> split_index(#[trigger] s[i].x, xd) < n && split_index(s[i].y, yd) < n
}

/// Grid of chunks while the areas are gathered: a chunk whose area comes
/// before `(ax, ay)` has been emptied, the others still hold their points.
pub open spec fn grid_state(
    grid: Seq<Vec<Vec<MyPoint>>>,
    s: Seq<MyPoint>,
    n: int,
    ax: int,
    ay: int,
) -> bool {
    &&& grid.len() == n
    &&& forall|a: int| 0 <= a < n ==> (#[trigger] grid[a])@.len() == n
    &&& forall|a: int, b: int|
        0 <= a < n && 0 <= b < n ==> (#[trigger] grid[a]@[b])@ == if before(
            owner(a),
            owner(b),
            ax,
            ay,
        ) {
            Seq::<MyPoint>::empty()
        } else {
            chunk_points(s, a, b)
        }
}

pub proof fn lemma_chunk_points_all(s: Seq<MyPoint>, cx: int, cy: int)
    requires
        forall|i: int|
            0 <= i < s.len() ==> (#[trigger] s[i]).chunk_x_index == cx && s[i].chunk_y_index
                == cy,
    ensures
        chunk_points(s, cx, cy) == s,
    decreases s.len(),
{
    if s.len() > 0 {
        lemma_chunk_points_all(s.drop_last(), cx, cy);
        assert(s.drop_last().push(s.last()) == s);
    }
}

/// One attempt at splitting the points into areas with `chunks_in_one_row`
/// chunks per row. Each point first gets the chunk its coordinates fall in
/// along both axes. With a single chunk per row the one area is the whole
/// cloud. Otherwise the areas are gathered row by row; the attempt gives up
/// with `Try(next_chunks_in_one_row)` as soon as an area holds more than four
/// chunks' worth of points, and empty areas are left out.
pub fn split_round(
    points: &mut Vec<MyPoint>,
    chunks_in_one_row: u32,
    x_divisions: &Vec<i32>,
    y_divisions: &Vec<i32>,
    next_chunks_in_one_row: u32,
) -> (res: ChunkSplitter)
    requires
        1 <= chunks_in_one_row <= i32::MAX,
        x_divisions@.len() == chunks_in_one_row,
        y_divisions@.len() == chunks_in_one_row,
        fits_grid(old(points)@, x_divisions@, y_divisions@, chunks_in_one_row as int),
    ensures
        final(points)@ == assign_all(old(points)@, x_divisions@, y_divisions@),
        chunks_in_one_row == 1 ==> (res matches ChunkSplitter::Done(a) && areas_view(a@) == seq![
            final(points)@,
        ]),
        chunks_in_one_row >= 2 ==> if any_oversized(final(points)@, chunks_in_one_row - 1) {
            res matches ChunkSplitter::Try(m) && m == next_chunks_in_one_row
        } else {
            res matches ChunkSplitter::Done(a) && areas_view(a@) == areas_of(
                final(points)@,
                (chunks_in_one_row - 1) as nat,
                (chunks_in_one_row - 1) as nat,
            )
        },
{
    let n = chunks_in_one_row as usize;
    let ghost xd = x_divisions@;
    let ghost yd = y_divisions@;
    let ghost new_pts = assign_all(old(points)@, xd, yd);

    // the grid of chunks, all empty
    let mut chunks: Vec<Vec<Vec<MyPoint>>> = Vec::new();
    while chunks.len() < n
        invariant
            chunks@.len() <= n,
            forall|a: int| 0 <= a < chunks@.len() ==> (#[trigger] chunks@[a])@.len() == n,
            forall|a: int, b: int|
                0 <= a < chunks@.len() && 0 <= b < n ==> (#[trigger] chunks@[a]@[b])@.len()
                    == 0,
        decreases n - chunks@.len(),
    {
        let mut row: Vec<Vec<MyPoint>> = Vec::new();
        while row.len() < n
            invariant
                row@.len() <= n,
                forall|b: int| 0 <= b < row@.len() ==> (#[trigger] row@[b])@.len() == 0,
            decreases n - row@.len(),
        {
            row.push(Vec::new());
        }
        chunks.push(row);
    }

    // each point goes to its chunk
    let len = points.len();
    let mut i: usize = 0;
    while i < len
        invariant
            0 <= i <= len,
            len == points@.len(),
            len == old(points)@.len(),
            n == chunks_in_one_row,
            1 <= n <= i32::MAX,
            xd == x_divisions@,
            yd == y_divisions@,
            xd.len() == n,
            yd.len() == n,
            new_pts == assign_all(old(points)@, xd, yd),
            fits_grid(old(points)@, xd, yd, n as int),
            forall|j: int| 0 <= j < i ==> #[trigger] points@[j] == new_pts[j],
            forall|j: int| i <= j < len ==> #[trigger] points@[j] == old(points)@[j],
            chunks@.len() == n,
            forall|a: int| 0 <= a < n ==> (#[trigger] chunks@[a])@.len() == n,
            forall|a: int, b: int|
                0 <= a < n && 0 <= b < n ==> (#[trigger] chunks@[a]@[b])@ == chunk_points(
                    new_pts.take(i as int),
                    a,
                    b,
                ),
        decreases len - i,
    {
        let p = points[i];
        assert(split_index(old(points)@[i as int].x, xd) < n);
        let x_index = get_split_index(p.x, x_divisions);
        let y_index = get_split_index(p.y, y_divisions);
        let q = MyPoint { chunk_x_index: x_index, chunk_y_index: y_index, ..p };
        assert(q == new_pts[i as int]);
        points.set(i, q);
        let ghost before_chunks = chunks@;
        chunks[x_index as usize][y_index as usize].push(q);
        proof {
            let t = new_pts.take(i + 1);
            assert(t.drop_last() == new_pts.take(i as int));
            assert(t.last() == q);
            assert forall|a: int, b: int| 0 <= a < n && 0 <= b < n implies (
            #[trigger] chunks@[a]@[b])@ == chunk_points(t, a, b) by {
                if a == x_index && b == y_index {
                } else if a == x_index {
                    assert(chunks@[a]@[b] == before_chunks[a]@[b]);
                } else {
                    assert(chunks@[a] == before_chunks[a]);
                }
            }
            assert forall|a: int| 0 <= a < n implies (#[trigger] chunks@[a])@.len() == n by {
                if a != x_index {
                    assert(chunks@[a] == before_chunks[a]);
                }
            }
        }
        i += 1;
    }
    assert(new_pts.take(len as int) == new_pts);
    assert(points@ == new_pts);

    if n == 1 {
        proof {
            assert forall|j: int| 0 <= j < new_pts.len() implies (
            #[trigger] new_pts[j]).chunk_x_index == 0 && new_pts[j].chunk_y_index == 0 by {
                assert(split_index(old(points)@[j].x, xd) < 1);
                assert(split_index(old(points)@[j].y, yd) < 1);
            }
            lemma_chunk_points_all(new_pts, 0, 0);
        }
        let mut whole: Vec<MyPoint> = Vec::new();
        whole.append(&mut chunks[0][0]);
        let mut areas: Vec<Vec<MyPoint>> = Vec::new();
        areas.push(whole);
        assert(areas_view(areas@) == seq![new_pts]);
        return ChunkSplitter::Done(areas);
    }
    let w = n - 1;
    let mut areas: Vec<Vec<MyPoint>> = Vec::new();
    let mut ax: usize = 0;
    while ax < w
        invariant
            0 <= ax <= w,
            w == n - 1,
            2 <= n <= i32::MAX,
            n == chunks_in_one_row,
            points@ == new_pts,
            new_pts == assign_all(old(points)@, x_divisions@, y_divisions@),
            grid_state(chunks@, new_pts, n as int, ax as int, 0),
            areas_view(areas@) == areas_of(new_pts, ax as nat, w as nat),
            forall|a: int, b: int|
                0 <= a < ax && 0 <= b < w ==> !(#[trigger] oversized(new_pts, a, b)),
        decreases w - ax,
    {
        let mut ay: usize = 0;
        while ay < w
            invariant
                0 <= ax < w,
                0 <= ay <= w,
                w == n - 1,
                2 <= n <= i32::MAX,
                n == chunks_in_one_row,
                points@ == new_pts,
                new_pts == assign_all(old(points)@, x_divisions@, y_divisions@),
                grid_state(chunks@, new_pts, n as int, ax as int, ay as int),
                areas_view(areas@) == areas_of(new_pts, ax as nat, w as nat) + row_areas(
                    new_pts,
                    ax as int,
                    ay as nat,
                ),
                forall|a: int, b: int|
                    (0 <= a < ax && 0 <= b < w) || (a == ax && 0 <= b < ay) ==> !(
                    #[trigger] oversized(new_pts, a, b)),
            decreases w - ay,
        {
            let ghost g0 = chunks@;
            let mut area: Vec<MyPoint> = Vec::new();
            area.append(&mut chunks[ax][ay]);
            area.append(&mut chunks[ax + 1][ay]);
            area.append(&mut chunks[ax][ay + 1]);
            area.append(&mut chunks[ax + 1][ay + 1]);
            proof {
                lemma_gather_area(g0, chunks@, new_pts, n as int, ax as int, ay as int);
            }
            assert(area@ == area_points(new_pts, ax as int, ay as int));
            if (#[verifier::truncate] (area.len() as u32)) > POINTS_IN_ONE_CHUNK * 4 {
                assert(oversized(new_pts, ax as int, ay as int));
                return ChunkSplitter::Try(next_chunks_in_one_row);
            }
            let ghost before_areas = areas@;
            let ghost area_seq = area@;
            if area.len() != 0 {
                areas.push(area);
                assert(areas_view(areas@) == areas_view(before_areas).push(area_seq));
            } else {
                assert(areas@ == before_areas);
            }
            proof {
                let ra = row_areas(new_pts, ax as int, ay as nat);
                assert(row_areas(new_pts, ax as int, (ay + 1) as nat) == if area_seq.len() == 0 {
                    ra
                } else {
                    ra.push(area_seq)
                });
                assert(areas_view(areas@) == areas_of(new_pts, ax as nat, w as nat) + row_areas(
                    new_pts,
                    ax as int,
                    (ay + 1) as nat,
                ));
            }
            ay += 1;
        }
        proof {
            lemma_grid_next_row(chunks@, new_pts, n as int, ax as int);
            assert(areas_of(new_pts, (ax + 1) as nat, w as nat) == areas_of(
                new_pts,
                ax as nat,
                w as nat,
            ) + row_areas(new_pts, ax as int, w as nat));
        }
        ax += 1;
    }
    proof {
        assert forall|a: int, b: int| 0 <= a < w && 0 <= b < w implies !(#[trigger] oversized(
            new_pts,
            a,
            b,
        )) by {}
    }
    ChunkSplitter::Done(areas)
}

/// Moving from the end of row `ax` to the start of row `ax + 1` leaves the
/// grid as it is.
proof fn lemma_grid_next_row(grid: Seq<Vec<Vec<MyPoint>>>, s: Seq<MyPoint>, n: int, ax: int)
    requires
        n >= 2,
        0 <= ax < n - 1,
        grid_state(grid, s, n, ax, n - 1),
    ensures
        grid_state(grid, s, n, ax + 1, 0),
{
    assert forall|a: int, b: int| 0 <= a < n && 0 <= b < n implies (#[trigger] grid[a]@[b])@ == if before(
        owner(a),
        owner(b),
        ax + 1,
        0,
    ) {
        Seq::<MyPoint>::empty()
    } else {
        chunk_points(s, a, b)
    } by {
        assert(owner(b) < n - 1);
    }
}

/// Emptying the four chunks of area `(ax, ay)` yields the area's points and
/// moves the grid on to the next area.
proof fn lemma_gather_area(
    g0: Seq<Vec<Vec<MyPoint>>>,
    g1: Seq<Vec<Vec<MyPoint>>>,
    s: Seq<MyPoint>,
    n: int,
    ax: int,
    ay: int,
)
    requires
        n >= 2,
        0 <= ax < n - 1,
        0 <= ay < n - 1,
        grid_state(g0, s, n, ax, ay),
        g1.len() == n,
        forall|a: int| 0 <= a < n ==> (#[trigger] g1[a])@.len() == n,
        forall|a: int, b: int|
            0 <= a < n && 0 <= b < n ==> (#[trigger] g1[a]@[b])@ == if (a == ax || a == ax + 1)
                && (b == ay || b == ay + 1) {
                Seq::<MyPoint>::empty()
            } else {
                g0[a]@[b]@
            },
    ensures
        grid_state(g1, s, n, ax, ay + 1),
        g0[ax]@[ay]@ + g0[ax + 1]@[ay]@ + g0[ax]@[ay + 1]@ + g0[ax + 1]@[ay + 1]@ == area_points(
            s,
            ax,
            ay,
        ),
{
    assert(g0[ax]@[ay]@ == part(s, ax, ay, ax, ay));
    assert(g0[ax + 1]@[ay]@ == part(s, ax, ay, ax + 1, ay));
    assert(g0[ax]@[ay + 1]@ == part(s, ax, ay, ax, ay + 1));
    assert(g0[ax + 1]@[ay + 1]@ == part(s, ax, ay, ax + 1, ay + 1));
    assert forall|a: int, b: int| 0 <= a < n && 0 <= b < n implies (#[trigger] g1[a]@[b])@ == if before(
        owner(a),
        owner(b),
        ax,
        ay + 1,
    ) {
        Seq::<MyPoint>::empty()
    } else {
        chunk_points(s, a, b)
    } by {
        if (a == ax || a == ax + 1) && (b == ay || b == ay + 1) {
        } else {
            if owner(a) == ax && owner(b) == ay {
                // the chunks of area (ax, ay) are among its four
                assert(false);
            }
        }
    }
}


// ---------------------------------------------------------------------------
// The areas of a split hold every point once
// ---------------------------------------------------------------------------

/// Multiset of the points of the first `m` areas of row `ax`.
pub open spec fn row_multiset(s: Seq<MyPoint>, ax: int, m: nat) -> Multiset<MyPoint>
    decreases m,
{
    if m == 0 {
        Multiset::empty()
    } else {
        row_multiset(s, ax, (m - 1) as nat).add(area_points(s, ax, m - 1).to_multiset())
    }
}

/// Multiset of the points of the areas of the first `rows` rows.
pub open spec fn grid_multiset(s: Seq<MyPoint>, rows: nat, width: nat) -> Multiset<MyPoint>
    decreases rows,
{
    if rows == 0 {
        Multiset::empty()
    } else {
        grid_multiset(s, (rows - 1) as nat, width).add(row_multiset(s, rows - 1, width))
    }
}

proof fn lemma_flatten_alt_concat(x: Seq<Seq<MyPoint>>, y: Seq<Seq<MyPoint>>)
    ensures
        (x + y).flatten_alt() == x.flatten_alt() + y.flatten_alt(),
    decreases y.len(),
{
    if y.len() == 0 {
        assert(x + y == x);
        assert(x.flatten_alt() + y.flatten_alt() == x.flatten_alt());
    } else {
        lemma_flatten_alt_concat(x, y.drop_last());
        assert((x + y).drop_last() == x + y.drop_last());
        assert((x + y).last() == y.last());
        assert(x.flatten_alt() + (y.drop_last().flatten_alt() + y.last()) == (x.flatten_alt()
            + y.drop_last().flatten_alt()) + y.last());
    }
}

proof fn lemma_row_flatten(s: Seq<MyPoint>, ax: int, m: nat)
    ensures
        row_areas(s, ax, m).flatten_alt().to_multiset() == row_multiset(s, ax, m),
    decreases m,
{
    broadcast use vstd::multiset::group_multiset_axioms;

    if m == 0 {
        Seq::<MyPoint>::empty().to_multiset_ensures();
        assert(row_areas(s, ax, m).flatten_alt() =~= Seq::<MyPoint>::empty());
        assert(row_areas(s, ax, m).flatten_alt().to_multiset() =~= row_multiset(s, ax, m));
    } else {
        lemma_row_flatten(s, ax, (m - 1) as nat);
        let prev = row_areas(s, ax, (m - 1) as nat);
        let a = area_points(s, ax, m - 1);
        if a.len() == 0 {
            a.to_multiset_ensures();
            assert(a.to_multiset() =~= Multiset::empty());
            assert(row_multiset(s, ax, m) =~= row_multiset(s, ax, (m - 1) as nat));
        } else {
            let pushed = prev.push(a);
            assert(pushed.drop_last() == prev);
            assert(pushed.flatten_alt() == prev.flatten_alt() + a);
            lemma_multiset_commutative(prev.flatten_alt(), a);
            assert(row_areas(s, ax, m).flatten_alt().to_multiset() =~= row_multiset(s, ax, m));
        }
    }
}

proof fn lemma_grid_flatten(s: Seq<MyPoint>, rows: nat, width: nat)
    ensures
        areas_of(s, rows, width).flatten_alt().to_multiset() == grid_multiset(s, rows, width),
    decreases rows,
{
    broadcast use vstd::multiset::group_multiset_axioms;

    if rows == 0 {
        Seq::<MyPoint>::empty().to_multiset_ensures();
        assert(areas_of(s, rows, width).flatten_alt() =~= Seq::<MyPoint>::empty());
        assert(areas_of(s, rows, width).flatten_alt().to_multiset() =~= grid_multiset(
            s,
            rows,
            width,
        ));
    } else {
        lemma_grid_flatten(s, (rows - 1) as nat, width);
        lemma_row_flatten(s, rows - 1, width);
        let x = areas_of(s, (rows - 1) as nat, width);
        let y = row_areas(s, rows - 1, width);
        lemma_flatten_alt_concat(x, y);
        lemma_multiset_commutative(x.flatten_alt(), y.flatten_alt());
        assert(areas_of(s, rows, width) == x + y);
        assert(areas_of(s, rows, width).flatten_alt().to_multiset() =~= grid_multiset(
            s,
            rows,
            width,
        ));
    }
}

proof fn lemma_chunk_points_push(s: Seq<MyPoint>, q: MyPoint, cx: int, cy: int)
    ensures
        chunk_points(s.push(q), cx, cy) == if q.chunk_x_index == cx && q.chunk_y_index == cy {
            chunk_points(s, cx, cy).push(q)
        } else {
            chunk_points(s, cx, cy)
        },
{
    assert(s.push(q).drop_last() == s);
}

/// The multiset of what chunk `(cx, cy)` gives area `(ax, ay)` grows by `q`
/// exactly when `q` lies in that chunk and the chunk belongs to the area.
proof fn lemma_part_push(s: Seq<MyPoint>, q: MyPoint, ax: int, ay: int, cx: int, cy: int)
    ensures
        part(s.push(q), ax, ay, cx, cy).to_multiset() == if q.chunk_x_index == cx
            && q.chunk_y_index == cy && owner(cx) == ax && owner(cy) == ay {
            part(s, ax, ay, cx, cy).to_multiset().insert(q)
        } else {
            part(s, ax, ay, cx, cy).to_multiset()
        },
{
    lemma_chunk_points_push(s, q, cx, cy);
    chunk_points(s, cx, cy).to_multiset_ensures();
}

proof fn lemma_area_push(s: Seq<MyPoint>, q: MyPoint, ax: int, ay: int)
    requires
        ax >= 0,
        ay >= 0,
    ensures
        area_points(s.push(q), ax, ay).to_multiset() == if owner(q.chunk_x_index as int) == ax
            && owner(q.chunk_y_index as int) == ay {
            area_points(s, ax, ay).to_multiset().insert(q)
        } else {
            area_points(s, ax, ay).to_multiset()
        },
{
    broadcast use vstd::multiset::group_multiset_axioms;

    let t = s.push(q);
    let a1 = part(s, ax, ay, ax, ay);
    let a2 = part(s, ax, ay, ax + 1, ay);
    let a3 = part(s, ax, ay, ax, ay + 1);
    let a4 = part(s, ax, ay, ax + 1, ay + 1);
    let b1 = part(t, ax, ay, ax, ay);
    let b2 = part(t, ax, ay, ax + 1, ay);
    let b3 = part(t, ax, ay, ax, ay + 1);
    let b4 = part(t, ax, ay, ax + 1, ay + 1);
    lemma_part_push(s, q, ax, ay, ax, ay);
    lemma_part_push(s, q, ax, ay, ax + 1, ay);
    lemma_part_push(s, q, ax, ay, ax, ay + 1);
    lemma_part_push(s, q, ax, ay, ax + 1, ay + 1);
    lemma_multiset_commutative(a1, a2);
    lemma_multiset_commutative(a1 + a2, a3);
    lemma_multiset_commutative(a1 + a2 + a3, a4);
    lemma_multiset_commutative(b1, b2);
    lemma_multiset_commutative(b1 + b2, b3);
    lemma_multiset_commutative(b1 + b2 + b3, b4);
    let qx = q.chunk_x_index as int;
    let qy = q.chunk_y_index as int;
    if owner(qx) == ax && owner(qy) == ay {
        assert(qx == ax || qx == ax + 1);
        assert(qy == ay || qy == ay + 1);
    }
    assert(area_points(t, ax, ay).to_multiset() =~= if owner(qx) == ax && owner(qy) == ay {
        area_points(s, ax, ay).to_multiset().insert(q)
    } else {
        area_points(s, ax, ay).to_multiset()
    });
}

proof fn lemma_row_push(s: Seq<MyPoint>, q: MyPoint, ax: int, m: nat)
    requires
        ax >= 0,
    ensures
        row_multiset(s.push(q), ax, m) == if owner(q.chunk_x_index as int) == ax && owner(
            q.chunk_y_index as int,
        ) < m {
            row_multiset(s, ax, m).insert(q)
        } else {
            row_multiset(s, ax, m)
        },
    decreases m,
{
    broadcast use vstd::multiset::group_multiset_axioms;

    if m > 0 {
        lemma_row_push(s, q, ax, (m - 1) as nat);
        lemma_area_push(s, q, ax, m - 1);
        assert(row_multiset(s.push(q), ax, m) =~= if owner(q.chunk_x_index as int) == ax && owner(
            q.chunk_y_index as int,
        ) < m {
            row_multiset(s, ax, m).insert(q)
        } else {
            row_multiset(s, ax, m)
        });
    } else {
        assert(owner(q.chunk_y_index as int) >= 0);
    }
}

proof fn lemma_grid_push(s: Seq<MyPoint>, q: MyPoint, rows: nat, width: nat)
    ensures
        grid_multiset(s.push(q), rows, width) == if owner(q.chunk_x_index as int) < rows && owner(
            q.chunk_y_index as int,
        ) < width {
            grid_multiset(s, rows, width).insert(q)
        } else {
            grid_multiset(s, rows, width)
        },
    decreases rows,
{
    broadcast use vstd::multiset::group_multiset_axioms;

    if rows > 0 {
        lemma_grid_push(s, q, (rows - 1) as nat, width);
        lemma_row_push(s, q, rows - 1, width);
        assert(grid_multiset(s.push(q), rows, width) =~= if owner(q.chunk_x_index as int) < rows
            && owner(q.chunk_y_index as int) < width {
            grid_multiset(s, rows, width).insert(q)
        } else {
            grid_multiset(s, rows, width)
        });
    } else {
        assert(owner(q.chunk_x_index as int) >= 0);
    }
}

proof fn lemma_grid_multiset_empty(rows: nat, width: nat)
    ensures
        grid_multiset(Seq::<MyPoint>::empty(), rows, width) =~= Multiset::empty(),
    decreases rows,
{
    broadcast use vstd::multiset::group_multiset_axioms;

    if rows > 0 {
        lemma_grid_multiset_empty((rows - 1) as nat, width);
        lemma_row_multiset_empty(rows - 1, width);
    }
}

proof fn lemma_row_multiset_empty(ax: int, m: nat)
    ensures
        row_multiset(Seq::<MyPoint>::empty(), ax, m) =~= Multiset::empty(),
    decreases m,
{
    broadcast use vstd::multiset::group_multiset_axioms;

    if m > 0 {
        lemma_row_multiset_empty(ax, (m - 1) as nat);
        let a = area_points(Seq::<MyPoint>::empty(), ax, m - 1);
        assert(a =~= Seq::<MyPoint>::empty());
        a.to_multiset_ensures();
    }
}

proof fn lemma_grid_multiset_all(s: Seq<MyPoint>, n: nat)
    requires
        n >= 2,
        forall|i: int|
            0 <= i < s.len() ==> (#[trigger] s[i]).chunk_x_index < n && s[i].chunk_y_index < n,
    ensures
        grid_multiset(s, (n - 1) as nat, (n - 1) as nat) == s.to_multiset(),
    decreases s.len(),
{
    broadcast use vstd::multiset::group_multiset_axioms;

    if s.len() == 0 {
        lemma_grid_multiset_empty((n - 1) as nat, (n - 1) as nat);
        assert(s == Seq::<MyPoint>::empty());
        s.to_multiset_ensures();
        assert(s.to_multiset() =~= Multiset::empty());
    } else {
        let init = s.drop_last();
        let q = s.last();
        assert(init.push(q) == s);
        assert forall|i: int| 0 <= i < init.len() implies (#[trigger] init[i]).chunk_x_index < n
            && init[i].chunk_y_index < n by {
            assert(init[i] == s[i]);
        }
        assert(s[s.len() - 1] == q);
        assert(q.chunk_x_index < n && q.chunk_y_index < n);
        lemma_grid_multiset_all(init, n);
        lemma_grid_push(init, q, (n - 1) as nat, (n - 1) as nat);
        init.to_multiset_ensures();
        assert(init.push(q).to_multiset() =~= init.to_multiset().insert(q));
        assert(owner(q.chunk_x_index as int) < n - 1 && owner(q.chunk_y_index as int) < n - 1);
        assert(grid_multiset(s, (n - 1) as nat, (n - 1) as nat) == grid_multiset(
            init,
            (n - 1) as nat,
            (n - 1) as nat,
        ).insert(q));
        assert(s.to_multiset() == init.to_multiset().insert(q));
    }
}

/// Law: the areas of a split, put end to end, hold every point exactly once.
pub proof fn lemma_areas_hold_every_point_once(s: Seq<MyPoint>, n: nat)
    requires
        n >= 2,
        forall|i: int|
            0 <= i < s.len() ==> (#[trigger] s[i]).chunk_x_index < n && s[i].chunk_y_index < n,
    ensures
        areas_of(s, (n - 1) as nat, (n - 1) as nat).flatten().to_multiset() == s.to_multiset(),
{
    lemma_grid_flatten(s, (n - 1) as nat, (n - 1) as nat);
    lemma_grid_multiset_all(s, n);
    areas_of(s, (n - 1) as nat, (n - 1) as nat).lemma_flatten_and_flatten_alt_are_equivalent();
}

/// Law: a round that finishes with two or more chunks per row hands back
/// areas that together hold every point of the cloud exactly once; with one
/// chunk per row the single area is the whole cloud.
pub proof fn lemma_split_round_keeps_points(
    s: Seq<MyPoint>,
    xd: Seq<i32>,
    yd: Seq<i32>,
    n: nat,
)
    requires
        n >= 2,
        xd.len() == n,
        yd.len() == n,
        fits_grid(s, xd, yd, n as int),
    ensures
        areas_of(assign_all(s, xd, yd), (n - 1) as nat, (n - 1) as nat).flatten().to_multiset()
            == assign_all(s, xd, yd).to_multiset(),
{
    let t = assign_all(s, xd, yd);
    assert forall|i: int| 0 <= i < t.len() implies (#[trigger] t[i]).chunk_x_index < n
        && t[i].chunk_y_index < n by {
        assert(split_index(s[i].x, xd) < n);
    }
    lemma_areas_hold_every_point_once(t, n);
}

/// Law: no area handed back by a split is empty.
pub proof fn lemma_areas_not_empty(s: Seq<MyPoint>, rows: nat, width: nat)
    ensures
        forall|k: int|
            0 <= k < areas_of(s, rows, width).len() ==> (#[trigger] areas_of(s, rows, width)[k]).len()
                > 0,
    decreases rows,
{
    if rows > 0 {
        lemma_areas_not_empty(s, (rows - 1) as nat, width);
        lemma_row_not_empty(s, rows - 1, width);
        let x = areas_of(s, (rows - 1) as nat, width);
        let y = row_areas(s, rows - 1, width);
        assert forall|k: int| 0 <= k < (x + y).len() implies (#[trigger] (x + y)[k]).len() > 0 by {
            if k >= x.len() {
                assert((x + y)[k] == y[k - x.len()]);
            } else {
                assert((x + y)[k] == x[k]);
            }
        }
    }
}

proof fn lemma_row_not_empty(s: Seq<MyPoint>, ax: int, m: nat)
    ensures
        forall|k: int|
            0 <= k < row_areas(s, ax, m).len() ==> (#[trigger] row_areas(s, ax, m)[k]).len() > 0,
    decreases m,
{
    if m > 0 {
        lemma_row_not_empty(s, ax, (m - 1) as nat);
        let prev = row_areas(s, ax, (m - 1) as nat);
        let a = area_points(s, ax, m - 1);
        if a.len() > 0 {
            assert forall|k: int| 0 <= k < prev.push(a).len() implies (
            #[trigger] prev.push(a)[k]).len() > 0 by {
                if k < prev.len() {
                    assert(prev.push(a)[k] == prev[k]);
                }
            }
        }
    }
}


// ---------------------------------------------------------------------------
// Finding the coordinate fields
// ---------------------------------------------------------------------------

/// Position of the last name equal to `name`, or -1 when there is none.
pub open spec fn last_position(names: Seq<String>, name: Seq<char>) -> int
    decreases names.len(),
{
    if names.len() == 0 {
        -1
    } else if names.last()@ == name {
        names.len() - 1
    } else {
        last_position(names.drop_last(), name)
    }
}

pub open spec fn is_coordinate_name(name: Seq<char>) -> bool {
    name == "x"@ || name == "y"@ || name == "z"@
}

proof fn lemma_last_position_range(names: Seq<String>, name: Seq<char>)
    ensures
        -1 <= last_position(names, name) < names.len(),
        last_position(names, name) >= 0 ==> names[last_position(names, name)]@ == name,
    decreases names.len(),
{
    if names.len() > 0 && names.last()@ != name {
        lemma_last_position_range(names.drop_last(), name);
    }
}

/// Positions of the fields named `x`, `y` and `z` among the field names of a
/// file: for each, the last field with that name. It is an error when one of
/// the three is missing.
pub fn get_xyz_indexes(names: &Vec<String>) -> (res: Result<PCDField, String>)
    requires
        forall|i: int| 0 <= i < names@.len() && is_coordinate_name(#[trigger] names@[i]@) ==> i <= 127,
    ensures
        ({
            let x = last_position(names@, "x"@);
            let y = last_position(names@, "y"@);
            let z = last_position(names@, "z"@);
            match res {
                Ok(f) => x >= 0 && y >= 0 && z >= 0 && f.x == x && f.y == y && f.z == z,
                Err(e) => (x < 0 || y < 0 || z < 0) && e@ == "Invalid field type"@,
            }
        }),
{
    let x_name = "x".to_owned();
    let y_name = "y".to_owned();
    let z_name = "z".to_owned();
    let mut pcd_field = PCDField { x: -1, y: -1, z: -1 };
    let n = names.len();
    for i in 0..n
        invariant
            n == names@.len(),
            x_name@ == "x"@,
            y_name@ == "y"@,
            z_name@ == "z"@,
            forall|j: int| 0 <= j < names@.len() && is_coordinate_name(#[trigger] names@[j]@) ==> j <= 127,
            pcd_field.x == last_position(names@.take(i as int), "x"@),
            pcd_field.y == last_position(names@.take(i as int), "y"@),
            pcd_field.z == last_position(names@.take(i as int), "z"@),
    {
        proof {
            reveal_strlit("x");
            reveal_strlit("y");
            reveal_strlit("z");
            assert("x"@[0] != "y"@[0] && "x"@[0] != "z"@[0] && "y"@[0] != "z"@[0]);
            assert("x"@ != "y"@ && "x"@ != "z"@ && "y"@ != "z"@);
        }
        let ghost t = names@.take(i + 1);
        assert(t.drop_last() == names@.take(i as int));
        assert(t.last() == names@[i as int]);
        if names[i] == x_name {
            pcd_field.x = i as i8;
        } else if names[i] == y_name {
            pcd_field.y = i as i8;
        } else if names[i] == z_name {
            pcd_field.z = i as i8;
        }
    }
    assert(names@.take(n as int) == names@);
    if pcd_field.x < 0 || pcd_field.y < 0 || pcd_field.z < 0 {
        return Err("Invalid field type".to_owned());
    }
    Ok(pcd_field)
}

// ---------------------------------------------------------------------------
// From records to points
// ---------------------------------------------------------------------------

/// Records as sequences of fields. `None` marks a field that is not a number.
pub open spec fn records_view(records: Seq<Vec<Option<i32>>>) -> Seq<Seq<Option<i32>>> {
    records.map_values(|r: Vec<Option<i32>>| r@)
}

/// Every field of the record is a number.
pub open spec fn complete(r: Seq<Option<i32>>) -> bool {
    forall|j: int| 0 <= j < r.len() ==> (#[trigger] r[j]) is Some
}

/// Field `k` of a record as reading meets it: it exists and neither it nor a
/// field before it is missing a number (reading stops at the first field
/// that is not a number).
pub open spec fn read_field(r: Seq<Option<i32>>, k: int) -> Option<i32> {
    if 0 <= k < r.len() && forall|j: int| 0 <= j <= k ==> (#[trigger] r[j]) is Some {
        r[k]
    } else {
        None
    }
}

/// The value read for `x`.
pub open spec fn read_x(r: Seq<Option<i32>>, f: PCDField) -> Option<i32> {
    read_field(r, f.x as int)
}

/// The value read for `y`; a field taken for `x` is not read again.
pub open spec fn read_y(r: Seq<Option<i32>>, f: PCDField) -> Option<i32> {
    if f.y == f.x {
        None
    } else {
        read_field(r, f.y as int)
    }
}

/// The value read for `z`; a field taken for `x` or `y` is not read again.
pub open spec fn read_z(r: Seq<Option<i32>>, f: PCDField) -> Option<i32> {
    if f.z == f.x || f.z == f.y {
        None
    } else {
        read_field(r, f.z as int)
    }
}

pub open spec fn or_zero(v: Option<i32>) -> i32 {
    match v {
        Some(x) => x,
        None => 0,
    }
}

/// The point made of a complete record; a coordinate without its field is
/// the key of zero.
pub open spec fn point_of(r: Seq<Option<i32>>, f: PCDField, index: u32) -> MyPoint {
    MyPoint {
        x: or_zero(read_x(r, f)),
        y: or_zero(read_y(r, f)),
        z: or_zero(read_z(r, f)),
        chunk_x_index: 0,
        chunk_y_index: 0,
        box_index: 0,
        index,
    }
}

/// The points of the complete records, numbered in order from 0.
pub open spec fn points_of(records: Seq<Seq<Option<i32>>>, f: PCDField) -> Seq<MyPoint>
    decreases records.len(),
{
    if records.len() == 0 {
        seq![]
    } else {
        let prev = points_of(records.drop_last(), f);
        if complete(records.last()) {
            prev.push(point_of(records.last(), f, prev.len() as u32))
        } else {
            prev
        }
    }
}

/// `m` is the minimum of `start` and of the values that are present.
pub open spec fn is_min_of_read(m: i32, start: i32, vals: Seq<Option<i32>>) -> bool {
    &&& m <= start
    &&& forall|i: int| 0 <= i < vals.len() && (#[trigger] vals[i]) is Some ==> m <= vals[i]->0
    &&& (m == start || exists|i: int| 0 <= i < vals.len() && #[trigger] vals[i] == Some(m))
}

/// `m` is the maximum of `start` and of the values that are present.
pub open spec fn is_max_of_read(m: i32, start: i32, vals: Seq<Option<i32>>) -> bool {
    &&& m >= start
    &&& forall|i: int| 0 <= i < vals.len() && (#[trigger] vals[i]) is Some ==> m >= vals[i]->0
    &&& (m == start || exists|i: int| 0 <= i < vals.len() && #[trigger] vals[i] == Some(m))
}

pub open spec fn opt_min(m: i32, v: Option<i32>) -> i32 {
    match v {
        Some(x) => if x < m {
            x
        } else {
            m
        },
        None => m,
    }
}

pub open spec fn opt_max(m: i32, v: Option<i32>) -> i32 {
    match v {
        Some(x) => if x > m {
            x
        } else {
            m
        },
        None => m,
    }
}

pub proof fn lemma_min_read_push(m: i32, start: i32, vals: Seq<Option<i32>>, v: Option<i32>)
    requires
        is_min_of_read(m, start, vals),
    ensures
        is_min_of_read(opt_min(m, v), start, vals.push(v)),
{
    let t = vals.push(v);
    assert forall|i: int| 0 <= i < t.len() && (#[trigger] t[i]) is Some implies opt_min(m, v)
        <= t[i]->0 by {
        if i < vals.len() {
            assert(t[i] == vals[i]);
        }
    }
    if opt_min(m, v) != start {
        if opt_min(m, v) != m {
            assert(t[vals.len() as int] == v);
        } else {
            let i = choose|i: int| 0 <= i < vals.len() && #[trigger] vals[i] == Some(m);
            assert(t[i] == vals[i]);
        }
    }
}

pub proof fn lemma_max_read_push(m: i32, start: i32, vals: Seq<Option<i32>>, v: Option<i32>)
    requires
        is_max_of_read(m, start, vals),
    ensures
        is_max_of_read(opt_max(m, v), start, vals.push(v)),
{
    let t = vals.push(v);
    assert forall|i: int| 0 <= i < t.len() && (#[trigger] t[i]) is Some implies opt_max(m, v)
        >= t[i]->0 by {
        if i < vals.len() {
            assert(t[i] == vals[i]);
        }
    }
    if opt_max(m, v) != start {
        if opt_max(m, v) != m {
            assert(t[vals.len() as int] == v);
        } else {
            let i = choose|i: int| 0 <= i < vals.len() && #[trigger] vals[i] == Some(m);
            assert(t[i] == vals[i]);
        }
    }
}

pub open spec fn read_xs(records: Seq<Seq<Option<i32>>>, f: PCDField) -> Seq<Option<i32>> {
    records.map_values(|r: Seq<Option<i32>>| read_x(r, f))
}

pub open spec fn read_ys(records: Seq<Seq<Option<i32>>>, f: PCDField) -> Seq<Option<i32>> {
    records.map_values(|r: Seq<Option<i32>>| read_y(r, f))
}

pub open spec fn read_zs(records: Seq<Seq<Option<i32>>>, f: PCDField) -> Seq<Option<i32>> {
    records.map_values(|r: Seq<Option<i32>>| read_z(r, f))
}

proof fn lemma_points_of_prefix_len(records: Seq<Seq<Option<i32>>>, f: PCDField, k: int)
    requires
        0 <= k <= records.len(),
    ensures
        points_of(records.take(k), f).len() <= points_of(records, f).len(),
    decreases records.len() - k,
{
    if k < records.len() {
        let t = records.take(k + 1);
        assert(t.drop_last() == records.take(k));
        lemma_points_of_prefix_len(records, f, k + 1);
    } else {
        assert(records.take(k) == records);
    }
}

/// What reading a file makes of its records, given the positions of the
/// coordinate fields. A record is read field by field; at the first field
/// that is not a number the record is dropped, but what was read before it
/// still counts toward the bounds. Each kept record becomes a point numbered
/// by its rank among the kept ones. The bounds start at positive infinity for
/// minima and negative infinity for maxima.
pub fn pcd_data_from_records(records: &Vec<Vec<Option<i32>>>, xyz_indexes: &PCDField) -> (data:
    PCDData)
    requires
        xyz_indexes.x >= 0,
        xyz_indexes.y >= 0,
        xyz_indexes.z >= 0,
        points_of(records_view(records@), *xyz_indexes).len() <= u32::MAX,
    ensures
        data.points@ == points_of(records_view(records@), *xyz_indexes),
        is_min_of_read(data.x_min, POSITIVE_INFINITY_KEY, read_xs(records_view(records@), *xyz_indexes)),
        is_max_of_read(data.x_max, NEGATIVE_INFINITY_KEY, read_xs(records_view(records@), *xyz_indexes)),
        is_min_of_read(data.y_min, POSITIVE_INFINITY_KEY, read_ys(records_view(records@), *xyz_indexes)),
        is_max_of_read(data.y_max, NEGATIVE_INFINITY_KEY, read_ys(records_view(records@), *xyz_indexes)),
        is_min_of_read(data.z_min, POSITIVE_INFINITY_KEY, read_zs(records_view(records@), *xyz_indexes)),
        is_max_of_read(data.z_max, NEGATIVE_INFINITY_KEY, read_zs(records_view(records@), *xyz_indexes)),
        data.chunks_in_one_row == 1,
{
    let f = *xyz_indexes;
    let ghost rv = records_view(records@);
    let xi = f.x as usize;
    let yi = f.y as usize;
    let zi = f.z as usize;
    let mut points: Vec<MyPoint> = Vec::new();
    let mut index: u32 = 0;
    let mut x_min = POSITIVE_INFINITY_KEY;
    let mut x_max = NEGATIVE_INFINITY_KEY;
    let mut y_min = POSITIVE_INFINITY_KEY;
    let mut y_max = NEGATIVE_INFINITY_KEY;
    let mut z_min = POSITIVE_INFINITY_KEY;
    let mut z_max = NEGATIVE_INFINITY_KEY;
    let nr = records.len();
    let mut ri: usize = 0;
    while ri < nr
        invariant
            0 <= ri <= nr,
            nr == records@.len(),
            rv == records_view(records@),
            rv.len() == nr,
            f == *xyz_indexes,
            f.x >= 0 && f.y >= 0 && f.z >= 0,
            xi == f.x && yi == f.y && zi == f.z,
            points_of(rv, f).len() <= u32::MAX,
            points@ == points_of(rv.take(ri as int), f),
            index == points@.len(),
            is_min_of_read(x_min, POSITIVE_INFINITY_KEY, read_xs(rv.take(ri as int), f)),
            is_max_of_read(x_max, NEGATIVE_INFINITY_KEY, read_xs(rv.take(ri as int), f)),
            is_min_of_read(y_min, POSITIVE_INFINITY_KEY, read_ys(rv.take(ri as int), f)),
            is_max_of_read(y_max, NEGATIVE_INFINITY_KEY, read_ys(rv.take(ri as int), f)),
            is_min_of_read(z_min, POSITIVE_INFINITY_KEY, read_zs(rv.take(ri as int), f)),
            is_max_of_read(z_max, NEGATIVE_INFINITY_KEY, read_zs(rv.take(ri as int), f)),
        decreases nr - ri,
    {
        let rec = &records[ri];
        let ghost r = rec@;
        assert(r == rv[ri as int]);
        let ghost x_min0 = x_min;
        let ghost x_max0 = x_max;
        let ghost y_min0 = y_min;
        let ghost y_max0 = y_max;
        let ghost z_min0 = z_min;
        let ghost z_max0 = z_max;
        let mut point = MyPoint {
            x: 0,
            y: 0,
            z: 0,
            index,
            chunk_x_index: 0,
            chunk_y_index: 0,
            box_index: 0,
        };
        let mut whole = true;
        let nf = rec.len();
        let mut i: usize = 0;
        loop
            invariant_except_break
                whole,
            invariant
                0 <= i <= nf,
                nf == r.len(),
                r == rec@,
                xi == f.x && yi == f.y && zi == f.z,
                forall|j: int| 0 <= j < i ==> (#[trigger] r[j]) is Some,
                point.index == index,
                point.chunk_x_index == 0 && point.chunk_y_index == 0 && point.box_index == 0,
                point.x == (if xi < i { r[xi as int]->0 } else { 0 }),
                point.y == (if yi < i && yi != xi { r[yi as int]->0 } else { 0 }),
                point.z == (if zi < i && zi != xi && zi != yi { r[zi as int]->0 } else { 0 }),
                x_min == (if xi < i { opt_min(x_min0, r[xi as int]) } else { x_min0 }),
                x_max == (if xi < i { opt_max(x_max0, r[xi as int]) } else { x_max0 }),
                y_min == (if yi < i && yi != xi { opt_min(y_min0, r[yi as int]) } else { y_min0 }),
                y_max == (if yi < i && yi != xi { opt_max(y_max0, r[yi as int]) } else { y_max0 }),
                z_min == (if zi < i && zi != xi && zi != yi { opt_min(z_min0, r[zi as int]) } else { z_min0 }),
                z_max == (if zi < i && zi != xi && zi != yi { opt_max(z_max0, r[zi as int]) } else { z_max0 }),
            ensures
                0 <= i <= nf,
                forall|j: int| 0 <= j < i ==> (#[trigger] r[j]) is Some,
                whole ==> i == nf,
                !whole ==> i < nf && r[i as int] is None,
                point.index == index,
                point.chunk_x_index == 0 && point.chunk_y_index == 0 && point.box_index == 0,
                point.x == (if xi < i { r[xi as int]->0 } else { 0 }),
                point.y == (if yi < i && yi != xi { r[yi as int]->0 } else { 0 }),
                point.z == (if zi < i && zi != xi && zi != yi { r[zi as int]->0 } else { 0 }),
                x_min == (if xi < i { opt_min(x_min0, r[xi as int]) } else { x_min0 }),
                x_max == (if xi < i { opt_max(x_max0, r[xi as int]) } else { x_max0 }),
                y_min == (if yi < i && yi != xi { opt_min(y_min0, r[yi as int]) } else { y_min0 }),
                y_max == (if yi < i && yi != xi { opt_max(y_max0, r[yi as int]) } else { y_max0 }),
                z_min == (if zi < i && zi != xi && zi != yi { opt_min(z_min0, r[zi as int]) } else { z_min0 }),
                z_max == (if zi < i && zi != xi && zi != yi { opt_max(z_max0, r[zi as int]) } else { z_max0 }),
            decreases nf - i,
        {
            if i == nf {
                break;
            }
            match rec[i] {
                None => {
                    whole = false;
                    break;
                },
                Some(val) => {
                    if i == xi {
                        point.x = val;
                        x_min = min_key(x_min, val);
                        x_max = max_key(x_max, val);
                    } else if i == yi {
                        point.y = val;
                        y_min = min_key(y_min, val);
                        y_max = max_key(y_max, val);
                    } else if i == zi {
                        point.z = val;
                        z_min = min_key(z_min, val);
                        z_max = max_key(z_max, val);
                    }
                },
            }
            i += 1;
        }
        proof {
            // what was read of the record
            assert(read_x(r, f) == if xi < i { r[xi as int] } else { None::<i32> });
            assert(read_y(r, f) == if yi < i && yi != xi { r[yi as int] } else { None::<i32> });
            assert(read_z(r, f) == if zi < i && zi != xi && zi != yi { r[zi as int] } else { None::<i32> });
            let t = rv.take(ri + 1);
            assert(t.drop_last() == rv.take(ri as int));
            assert(t.last() == r);
            assert(read_xs(t, f) == read_xs(rv.take(ri as int), f).push(read_x(r, f)));
            assert(read_ys(t, f) == read_ys(rv.take(ri as int), f).push(read_y(r, f)));
            assert(read_zs(t, f) == read_zs(rv.take(ri as int), f).push(read_z(r, f)));
            lemma_min_read_push(x_min0, POSITIVE_INFINITY_KEY, read_xs(rv.take(ri as int), f), read_x(r, f));
            lemma_max_read_push(x_max0, NEGATIVE_INFINITY_KEY, read_xs(rv.take(ri as int), f), read_x(r, f));
            lemma_min_read_push(y_min0, POSITIVE_INFINITY_KEY, read_ys(rv.take(ri as int), f), read_y(r, f));
            lemma_max_read_push(y_max0, NEGATIVE_INFINITY_KEY, read_ys(rv.take(ri as int), f), read_y(r, f));
            lemma_min_read_push(z_min0, POSITIVE_INFINITY_KEY, read_zs(rv.take(ri as int), f), read_z(r, f));
            lemma_max_read_push(z_max0, NEGATIVE_INFINITY_KEY, read_zs(rv.take(ri as int), f), read_z(r, f));
            assert(complete(r) == whole);
            lemma_points_of_prefix_len(rv, f, ri + 1);
        }
        if whole {
            assert(point == point_of(r, f, index));
            points.push(point);
            index += 1;
        }
        ri += 1;
    }
    assert(rv.take(nr as int) == rv);
    PCDData { points, x_min, x_max, y_min, y_max, z_min, z_max, chunks_in_one_row: 1 }
}

/// Law: the points read from a file are numbered 0, 1, 2, ... in order.
pub proof fn lemma_points_numbered(records: Seq<Seq<Option<i32>>>, f: PCDField)
    ensures
        forall|k: int|
            0 <= k < points_of(records, f).len() ==> (#[trigger] points_of(records, f)[k]).index
                == k as u32,
    decreases records.len(),
{
    if records.len() > 0 {
        lemma_points_numbered(records.drop_last(), f);
        let prev = points_of(records.drop_last(), f);
        if complete(records.last()) {
            assert forall|k: int| 0 <= k < prev.len() + 1 implies (#[trigger] prev.push(
                point_of(records.last(), f, prev.len() as u32),
            )[k]).index == k as u32 by {
                if k < prev.len() {
                    assert(prev.push(point_of(records.last(), f, prev.len() as u32))[k] == prev[k]);
                }
            }
        }
    }
}

/// Law: when the names hold `x`, `y` and `z`, the positions found name them.
pub proof fn lemma_xyz_positions_name_fields(names: Seq<String>)
    ensures
        last_position(names, "x"@) >= 0 ==> names[last_position(names, "x"@)]@ == "x"@,
        last_position(names, "y"@) >= 0 ==> names[last_position(names, "y"@)]@ == "y"@,
        last_position(names, "z"@) >= 0 ==> names[last_position(names, "z"@)]@ == "z"@,
        last_position(names, "x"@) < names.len(),
        last_position(names, "y"@) < names.len(),
        last_position(names, "z"@) < names.len(),
{
    lemma_last_position_range(names, "x"@);
    lemma_last_position_range(names, "y"@);
    lemma_last_position_range(names, "z"@);
}

proof fn lemma_area_within_row(s: Seq<MyPoint>, ax: int, m: nat, b: int)
    requires
        0 <= b < m,
    ensures
        area_points(s, ax, b).len() <= row_multiset(s, ax, m).len(),
    decreases m,
{
    broadcast use vstd::multiset::group_multiset_axioms;

    area_points(s, ax, (m - 1) as int).to_multiset_ensures();
    if b < m - 1 {
        lemma_area_within_row(s, ax, (m - 1) as nat, b);
    }
}

proof fn lemma_area_within_grid(s: Seq<MyPoint>, rows: nat, width: nat, a: int, b: int)
    requires
        0 <= a < rows,
        0 <= b < width,
    ensures
        area_points(s, a, b).len() <= grid_multiset(s, rows, width).len(),
    decreases rows,
{
    broadcast use vstd::multiset::group_multiset_axioms;

    if a == rows - 1 {
        lemma_area_within_row(s, a, width, b);
    } else {
        lemma_area_within_grid(s, (rows - 1) as nat, width, a, b);
    }
}

proof fn lemma_row_areas_members(s: Seq<MyPoint>, ax: int, m: nat)
    ensures
        forall|k: int|
            0 <= k < row_areas(s, ax, m).len() ==> exists|b: int|
                0 <= b < m && #[trigger] row_areas(s, ax, m)[k] == area_points(s, ax, b),
    decreases m,
{
    if m > 0 {
        lemma_row_areas_members(s, ax, (m - 1) as nat);
        let prev = row_areas(s, ax, (m - 1) as nat);
        let cur = row_areas(s, ax, m);
        assert forall|k: int| 0 <= k < cur.len() implies exists|b: int|
            0 <= b < m && #[trigger] cur[k] == area_points(s, ax, b) by {
            if k < prev.len() {
                assert(cur[k] == prev[k]);
                let b = choose|b: int| 0 <= b < m - 1 && prev[k] == #[trigger] area_points(s, ax, b);
            } else {
                assert(cur[k] == area_points(s, ax, m - 1));
            }
        }
    }
}

proof fn lemma_areas_of_members(s: Seq<MyPoint>, rows: nat, width: nat)
    ensures
        forall|k: int|
            0 <= k < areas_of(s, rows, width).len() ==> exists|a: int, b: int|
                0 <= a < rows && 0 <= b < width && #[trigger] areas_of(s, rows, width)[k]
                    == area_points(s, a, b),
    decreases rows,
{
    if rows > 0 {
        lemma_areas_of_members(s, (rows - 1) as nat, width);
        lemma_row_areas_members(s, rows - 1, width);
        let x = areas_of(s, (rows - 1) as nat, width);
        let y = row_areas(s, rows - 1, width);
        assert forall|k: int| 0 <= k < (x + y).len() implies exists|a: int, b: int|
            0 <= a < rows && 0 <= b < width && #[trigger] (x + y)[k] == area_points(s, a, b) by {
            if k < x.len() {
                assert((x + y)[k] == x[k]);
                let (a, b) = choose|a: int, b: int|
                    0 <= a < rows - 1 && 0 <= b < width && x[k] == #[trigger] area_points(s, a, b);
            } else {
                assert((x + y)[k] == y[k - x.len()]);
                let b = choose|b: int| 0 <= b < width && y[k - x.len()] == #[trigger] area_points(s, rows - 1, b);
            }
        }
    }
}

/// Law: when a split finishes with two or more chunks per row and there are
/// no more points than a `u32` counts, every area holds at least one point and
/// at most four chunks' worth.
pub proof fn lemma_finished_areas_bounded(s: Seq<MyPoint>, n: nat)
    requires
        n >= 2,
        s.len() <= u32::MAX,
        forall|i: int|
            0 <= i < s.len() ==> (#[trigger] s[i]).chunk_x_index < n && s[i].chunk_y_index < n,
        !any_oversized(s, n - 1),
    ensures
        forall|k: int|
            0 <= k < areas_of(s, (n - 1) as nat, (n - 1) as nat).len() ==> 1 <= (
            #[trigger] areas_of(s, (n - 1) as nat, (n - 1) as nat)[k]).len() <= 4
                * POINTS_IN_ONE_CHUNK,
{
    let w = (n - 1) as nat;
    lemma_areas_of_members(s, w, w);
    lemma_areas_not_empty(s, w, w);
    lemma_grid_multiset_all(s, n);
    s.to_multiset_ensures();
    assert forall|k: int| 0 <= k < areas_of(s, w, w).len() implies 1 <= (
    #[trigger] areas_of(s, w, w)[k]).len() <= 4 * POINTS_IN_ONE_CHUNK by {
        let (a, b) = choose|a: int, b: int|
            0 <= a < w && 0 <= b < w && areas_of(s, w, w)[k] == #[trigger] area_points(s, a, b);
        lemma_area_within_grid(s, w, w, a, b);
        assert(!oversized(s, a, b));
        let len = area_points(s, a, b).len();
        assert(len <= u32::MAX);
        assert((len as u32) as int == len);
    }
}

/// Some point of `s` carries number `k`.
pub open spec fn has_index(s: Seq<MyPoint>, k: int) -> bool {
    exists|j: int| 0 <= j < s.len() && (#[trigger] s[j]).index == k
}

/// Law, reading then splitting: take the points read from a file's records
/// and a round of splitting with two or more chunks per row that finishes.
/// The areas, put end to end, hold every point read exactly once: the
/// points are numbered `0..len`, each number occurs in exactly one place of
/// the areas, nothing else occurs there, and every area holds between one
/// point and four chunks' worth.
pub proof fn lemma_read_then_split(
    records: Seq<Seq<Option<i32>>>,
    f: PCDField,
    xd: Seq<i32>,
    yd: Seq<i32>,
    n: nat,
)
    requires
        n >= 2,
        xd.len() == n,
        yd.len() == n,
        points_of(records, f).len() <= u32::MAX,
        fits_grid(points_of(records, f), xd, yd, n as int),
        !any_oversized(assign_all(points_of(records, f), xd, yd), n - 1),
    ensures
        ({
            let pts = assign_all(points_of(records, f), xd, yd);
            let areas = areas_of(pts, (n - 1) as nat, (n - 1) as nat);
            let flat = areas.flatten();
            &&& pts.len() == points_of(records, f).len()
            &&& forall|k: int| 0 <= k < pts.len() ==> (#[trigger] pts[k]).index == k
            &&& flat.to_multiset() == pts.to_multiset()
            &&& flat.len() == pts.len()
            &&& forall|j: int| 0 <= j < flat.len() ==> (#[trigger] flat[j]).index < pts.len()
            &&& forall|i: int, j: int|
                0 <= i < flat.len() && 0 <= j < flat.len() && i != j ==> (#[trigger] flat[i]).index
                    != (#[trigger] flat[j]).index
            &&& forall|k: int| 0 <= k < pts.len() ==> #[trigger] has_index(flat, k)
            &&& forall|k: int|
                0 <= k < areas.len() ==> 1 <= (#[trigger] areas[k]).len() <= 4 * POINTS_IN_ONE_CHUNK
        }),
{
    broadcast use vstd::multiset::group_multiset_axioms;
    broadcast use vstd::seq_lib::group_to_multiset_ensures;

    let read = points_of(records, f);
    let pts = assign_all(read, xd, yd);
    let areas = areas_of(pts, (n - 1) as nat, (n - 1) as nat);
    let flat = areas.flatten();
    lemma_points_numbered(records, f);
    assert forall|k: int| 0 <= k < pts.len() implies (#[trigger] pts[k]).index == k by {
        assert(pts[k].index == read[k].index);
        assert(read[k].index == k as u32);
    }
    assert forall|i: int| 0 <= i < pts.len() implies (#[trigger] pts[i]).chunk_x_index < n
        && pts[i].chunk_y_index < n by {
        assert(split_index(read[i].x, xd) < n);
    }
    lemma_areas_hold_every_point_once(pts, n);
    lemma_finished_areas_bounded(pts, n);
    // the read points are all different, so each occurs once in the areas
    assert(pts.no_duplicates()) by {
        assert forall|i: int, j: int| 0 <= i < pts.len() && 0 <= j < pts.len() && i != j implies pts[i]
            != pts[j] by {
            assert(pts[i].index == i && pts[j].index == j);
        }
    }
    pts.lemma_multiset_has_no_duplicates();
    assert(flat.to_multiset() == pts.to_multiset());
    flat.lemma_multiset_has_no_duplicates_conv();
    assert forall|j: int| 0 <= j < flat.len() implies pts.contains(#[trigger] flat[j]) by {
        assert(flat.to_multiset().count(flat[j]) > 0);
    }
    assert forall|j: int| 0 <= j < flat.len() implies (#[trigger] flat[j]).index < pts.len() by {
        assert(pts.contains(flat[j]));
        let a = choose|a: int| 0 <= a < pts.len() && pts[a] == flat[j];
        assert(pts[a].index == a);
    }
    assert forall|i: int, j: int|
        0 <= i < flat.len() && 0 <= j < flat.len() && i != j implies (#[trigger] flat[i]).index
            != (#[trigger] flat[j]).index by {
        assert(pts.contains(flat[i]) && pts.contains(flat[j]));
        let a = choose|a: int| 0 <= a < pts.len() && pts[a] == flat[i];
        let b = choose|b: int| 0 <= b < pts.len() && pts[b] == flat[j];
        assert(pts[a].index == a && pts[b].index == b);
        assert(flat[i] != flat[j]);
    }
    assert(pts.len() == read.len());
    assert(flat.len() == flat.to_multiset().len());
    assert(pts.len() == pts.to_multiset().len());
    assert(flat.len() == pts.len());
    assert(forall|k: int|
        0 <= k < areas.len() ==> 1 <= (#[trigger] areas[k]).len() <= 4 * POINTS_IN_ONE_CHUNK);
    assert forall|k: int| 0 <= k < pts.len() implies #[trigger] has_index(flat, k) by {
        assert(pts.to_multiset().count(pts[k]) > 0);
        assert(flat.contains(pts[k]));
        let j = choose|j: int| 0 <= j < flat.len() && flat[j] == pts[k];
        assert(flat[j].index == k);
    }
}

/// Law: each axis is split on its own divisions. A point's chunk along `y`
/// does not change when only the `x` divisions change, its chunk along `x`
/// does not change when only the `y` divisions change, and the rest of the
/// point is kept as it was.
pub proof fn lemma_axes_split_independently(
    s: Seq<MyPoint>,
    xd: Seq<i32>,
    yd: Seq<i32>,
    other_xd: Seq<i32>,
    other_yd: Seq<i32>,
)
    ensures
        assign_all(s, xd, yd).len() == s.len(),
        forall|i: int|
            0 <= i < s.len() ==> (#[trigger] assign_all(s, xd, yd)[i]).chunk_y_index == assign_all(
                s,
                other_xd,
                yd,
            )[i].chunk_y_index && assign_all(s, xd, yd)[i].chunk_x_index == assign_all(
                s,
                xd,
                other_yd,
            )[i].chunk_x_index,
        forall|i: int|
            0 <= i < s.len() ==> (#[trigger] assign_all(s, xd, yd)[i]).x == s[i].x && assign_all(
                s,
                xd,
                yd,
            )[i].y == s[i].y && assign_all(s, xd, yd)[i].z == s[i].z && assign_all(s, xd, yd)[i].index
                == s[i].index && assign_all(s, xd, yd)[i].box_index == s[i].box_index,
{
}

/// Law: over divisions sorted in increasing order, a point's chunk along
/// `x` is the number of `x` divisions below its `x`, and its chunk along `y`
/// the number of `y` divisions below its `y`.
pub proof fn lemma_chunks_count_divisions_below(s: Seq<MyPoint>, xd: Seq<i32>, yd: Seq<i32>)
    requires
        forall|i: int, j: int| 0 <= i <= j < xd.len() ==> xd[i] <= xd[j],
        forall|i: int, j: int| 0 <= i <= j < yd.len() ==> yd[i] <= yd[j],
        xd.len() <= u32::MAX,
        yd.len() <= u32::MAX,
    ensures
        forall|i: int|
            0 <= i < s.len() ==> (#[trigger] assign_all(s, xd, yd)[i]).chunk_x_index == xd.filter(
                |d: i32| d < s[i].x,
            ).len() && assign_all(s, xd, yd)[i].chunk_y_index == yd.filter(|d: i32| d < s[i].y).len(),
{
    assert forall|i: int| 0 <= i < s.len() implies (#[trigger] assign_all(s, xd, yd)[i]).chunk_x_index
        == xd.filter(|d: i32| d < s[i].x).len() && assign_all(s, xd, yd)[i].chunk_y_index == yd.filter(
        |d: i32| d < s[i].y,
    ).len() by {
        lemma_split_index_counts_below(s[i].x, xd);
        lemma_split_index_counts_below(s[i].y, yd);
        lemma_split_index_bounds(s[i].x, xd);
        lemma_split_index_bounds(s[i].y, yd);
    }
}

/// Law: reading keeps exactly the records in which every field is a number,
/// in order, and the point of the `k`-th kept record carries number `k` and
/// the values of the fields at the given positions (the key of zero for a
/// position past the end of the record; a position already taken by an
/// earlier coordinate gives zero too).
pub proof fn lemma_points_are_kept_records(records: Seq<Seq<Option<i32>>>, f: PCDField)
    ensures
        ({
            let kept = records.filter(
                |r: Seq<Option<i32>>| forall|j: int| 0 <= j < r.len() ==> (#[trigger] r[j]) is Some,
            );
            &&& points_of(records, f).len() == kept.len()
            &&& forall|k: int|
                0 <= k < kept.len() ==> {
                    let p = #[trigger] points_of(records, f)[k];
                    let r = kept[k];
                    &&& p.index == k as u32
                    &&& p.x == (if 0 <= f.x < r.len() { r[f.x as int]->0 } else { 0 })
                    &&& p.y == (if f.y != f.x && 0 <= f.y < r.len() { r[f.y as int]->0 } else { 0 })
                    &&& p.z == (if f.z != f.x && f.z != f.y && 0 <= f.z < r.len() {
                        r[f.z as int]->0
                    } else {
                        0
                    })
                }
        }),
    decreases records.len(),
{
    reveal_with_fuel(Seq::filter, 1);
    let pred = |r: Seq<Option<i32>>| forall|j: int| 0 <= j < r.len() ==> (#[trigger] r[j]) is Some;
    if records.len() > 0 {
        let init = records.drop_last();
        let last = records.last();
        lemma_points_are_kept_records(init, f);
        let kept0 = init.filter(pred);
        let prev = points_of(init, f);
        if pred(last) {
            assert(complete(last));
            let q = point_of(last, f, prev.len() as u32);
            assert forall|k: int| 0 <= k < kept0.len() + 1 implies {
                let p = #[trigger] prev.push(q)[k];
                let r = kept0.push(last)[k];
                &&& p.index == k as u32
                &&& p.x == (if 0 <= f.x < r.len() { r[f.x as int]->0 } else { 0 })
                &&& p.y == (if f.y != f.x && 0 <= f.y < r.len() { r[f.y as int]->0 } else { 0 })
                &&& p.z == (if f.z != f.x && f.z != f.y && 0 <= f.z < r.len() {
                    r[f.z as int]->0
                } else {
                    0
                })
            } by {
                if k < kept0.len() {
                    assert(prev.push(q)[k] == prev[k]);
                    assert(kept0.push(last)[k] == kept0[k]);
                } else {
                    assert(prev.push(q)[k] == q);
                    assert(kept0.push(last)[k] == last);
                }
            }
        } else {
            assert(!complete(last));
        }
    }
}

/// The minimum, from `start`, of the values met at position `p` of records
/// read up to their first field that is not a number, is no larger than any
/// of those values and is `start` or one of them.
proof fn lemma_min_at_position(
    m: i32,
    start: i32,
    records: Seq<Seq<Option<i32>>>,
    vals: Seq<Option<i32>>,
    p: int,
)
    requires
        is_min_of_read(m, start, vals),
        vals.len() == records.len(),
        forall|j: int| 0 <= j < records.len() ==> #[trigger] vals[j] == read_field(records[j], p),
    ensures
        m <= start,
        forall|j: int|
            0 <= j < records.len() && 0 <= p < records[j].len() && (forall|i: int|
                0 <= i <= p ==> (#[trigger] records[j][i]) is Some) ==> m <= (
            #[trigger] records[j][p])->0,
        m == start || exists|j: int|
            0 <= j < records.len() && 0 <= p < records[j].len() && #[trigger] records[j][p] == Some(m),
{
    assert forall|j: int|
        0 <= j < records.len() && 0 <= p < records[j].len() && (forall|i: int|
            0 <= i <= p ==> (#[trigger] records[j][i]) is Some) implies m <= (
    #[trigger] records[j][p])->0 by {
        assert(vals[j] == read_field(records[j], p));
    }
    if m != start {
        let j = choose|j: int| 0 <= j < vals.len() && #[trigger] vals[j] == Some(m);
        assert(vals[j] == read_field(records[j], p));
    }
}

proof fn lemma_max_at_position(
    m: i32,
    start: i32,
    records: Seq<Seq<Option<i32>>>,
    vals: Seq<Option<i32>>,
    p: int,
)
    requires
        is_max_of_read(m, start, vals),
        vals.len() == records.len(),
        forall|j: int| 0 <= j < records.len() ==> #[trigger] vals[j] == read_field(records[j], p),
    ensures
        m >= start,
        forall|j: int|
            0 <= j < records.len() && 0 <= p < records[j].len() && (forall|i: int|
                0 <= i <= p ==> (#[trigger] records[j][i]) is Some) ==> m >= (
            #[trigger] records[j][p])->0,
        m == start || exists|j: int|
            0 <= j < records.len() && 0 <= p < records[j].len() && #[trigger] records[j][p] == Some(m),
{
    assert forall|j: int|
        0 <= j < records.len() && 0 <= p < records[j].len() && (forall|i: int|
            0 <= i <= p ==> (#[trigger] records[j][i]) is Some) implies m >= (
    #[trigger] records[j][p])->0 by {
        assert(vals[j] == read_field(records[j], p));
    }
    if m != start {
        let j = choose|j: int| 0 <= j < vals.len() && #[trigger] vals[j] == Some(m);
        assert(vals[j] == read_field(records[j], p));
    }
}

/// Law: the bounds of a read range over the fields at the given positions.
/// With the coordinate positions all different, the minimum of `x` is at
/// most the `x` field of every record whose fields up to it are numbers, and
/// it is positive infinity or one of those fields; likewise for the maximum
/// and for `y` and `z`.
pub proof fn lemma_read_bounds_at_positions(
    records: Seq<Seq<Option<i32>>>,
    f: PCDField,
    x_min: i32,
    x_max: i32,
    y_min: i32,
    y_max: i32,
    z_min: i32,
    z_max: i32,
)
    requires
        f.x != f.y && f.x != f.z && f.y != f.z,
        is_min_of_read(x_min, POSITIVE_INFINITY_KEY, read_xs(records, f)),
        is_max_of_read(x_max, NEGATIVE_INFINITY_KEY, read_xs(records, f)),
        is_min_of_read(y_min, POSITIVE_INFINITY_KEY, read_ys(records, f)),
        is_max_of_read(y_max, NEGATIVE_INFINITY_KEY, read_ys(records, f)),
        is_min_of_read(z_min, POSITIVE_INFINITY_KEY, read_zs(records, f)),
        is_max_of_read(z_max, NEGATIVE_INFINITY_KEY, read_zs(records, f)),
    ensures
        forall|j: int|
            0 <= j < records.len() && 0 <= f.x < records[j].len() && (forall|i: int|
                0 <= i <= f.x ==> (#[trigger] records[j][i]) is Some) ==> x_min <= (
            #[trigger] records[j][f.x as int])->0 <= x_max,
        forall|j: int|
            0 <= j < records.len() && 0 <= f.y < records[j].len() && (forall|i: int|
                0 <= i <= f.y ==> (#[trigger] records[j][i]) is Some) ==> y_min <= (
            #[trigger] records[j][f.y as int])->0 <= y_max,
        forall|j: int|
            0 <= j < records.len() && 0 <= f.z < records[j].len() && (forall|i: int|
                0 <= i <= f.z ==> (#[trigger] records[j][i]) is Some) ==> z_min <= (
            #[trigger] records[j][f.z as int])->0 <= z_max,
        x_min == POSITIVE_INFINITY_KEY || exists|j: int|
            0 <= j < records.len() && 0 <= f.x < records[j].len() && #[trigger] records[j][f.x as int]
                == Some(x_min),
        x_max == NEGATIVE_INFINITY_KEY || exists|j: int|
            0 <= j < records.len() && 0 <= f.x < records[j].len() && #[trigger] records[j][f.x as int]
                == Some(x_max),
        y_min == POSITIVE_INFINITY_KEY || exists|j: int|
            0 <= j < records.len() && 0 <= f.y < records[j].len() && #[trigger] records[j][f.y as int]
                == Some(y_min),
        y_max == NEGATIVE_INFINITY_KEY || exists|j: int|
            0 <= j < records.len() && 0 <= f.y < records[j].len() && #[trigger] records[j][f.y as int]
                == Some(y_max),
        z_min == POSITIVE_INFINITY_KEY || exists|j: int|
            0 <= j < records.len() && 0 <= f.z < records[j].len() && #[trigger] records[j][f.z as int]
                == Some(z_min),
        z_max == NEGATIVE_INFINITY_KEY || exists|j: int|
            0 <= j < records.len() && 0 <= f.z < records[j].len() && #[trigger] records[j][f.z as int]
                == Some(z_max),
{
    lemma_min_at_position(x_min, POSITIVE_INFINITY_KEY, records, read_xs(records, f), f.x as int);
    lemma_max_at_position(x_max, NEGATIVE_INFINITY_KEY, records, read_xs(records, f), f.x as int);
    lemma_min_at_position(y_min, POSITIVE_INFINITY_KEY, records, read_ys(records, f), f.y as int);
    lemma_max_at_position(y_max, NEGATIVE_INFINITY_KEY, records, read_ys(records, f), f.y as int);
    lemma_min_at_position(z_min, POSITIVE_INFINITY_KEY, records, read_zs(records, f), f.z as int);
    lemma_max_at_position(z_max, NEGATIVE_INFINITY_KEY, records, read_zs(records, f), f.z as int);
}

} // verus!
