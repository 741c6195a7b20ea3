//! Putting the areas of a file back together before it is written.
use vstd::prelude::*;
use std::collections::HashSet;
use crate::util::MyPoint;

verus! {

/// The areas put end to end.
pub open spec fn all_points(areas: Seq<Seq<MyPoint>>) -> Seq<MyPoint>
    decreases areas.len(),
{
    if areas.len() == 0 {
        seq![]
    } else {
        all_points(areas.drop_last()) + areas.last()
    }
}

/// `s[k]` is the first point of `s` with its index.
pub open spec fn first_with_index(s: Seq<MyPoint>, k: int) -> bool {
    0 <= k < s.len() && forall|j: int| 0 <= j < k ==> (#[trigger] s[j]).index != s[k].index
}

/// `p` is the first point of `s` with its index.
pub open spec fn is_first_in(s: Seq<MyPoint>, p: MyPoint) -> bool {
    exists|k: int| first_with_index(s, k) && s[k] == p
}

/// Some point of `r` has index `v`.
pub open spec fn index_in(r: Seq<MyPoint>, v: u32) -> bool {
    exists|i: int| 0 <= i < r.len() && (#[trigger] r[i]).index == v
}

/// What merging keeps of `s`: no two points share an index; each is the
/// first point of `s` with its index; every index of `s` is kept.
pub open spec fn is_merge_of(r: Seq<MyPoint>, s: Seq<MyPoint>) -> bool {
    &&& forall|i: int, j: int|
        0 <= i < j < r.len() ==> (#[trigger] r[i]).index != (#[trigger] r[j]).index
    &&& forall|i: int| 0 <= i < r.len() ==> #[trigger] is_first_in(s, r[i])
    &&& forall|k: int| 0 <= k < s.len() ==> #[trigger] index_in(r, s[k].index)
}

/// The points of all areas, each point (told apart by its index) once: the
/// first occurrence is kept. The order of the result is left open: callers
/// treat it as a set.
pub fn merge_areas(areas: Vec<Vec<MyPoint>>) -> (points: Vec<MyPoint>)
    ensures
        is_merge_of(points@, all_points(crate::util::areas_view(areas@))),
{
    broadcast use vstd::std_specs::hash::group_hash_axioms;

    let ghost av = crate::util::areas_view(areas@);
    let mut seen: HashSet<u32> = HashSet::new();
    let mut points: Vec<MyPoint> = Vec::new();
    let na = areas.len();
    let mut a: usize = 0;
    assert(all_points(av.take(0)) == Seq::<MyPoint>::empty());
    while a < na
        invariant
            0 <= a <= na,
            na == areas@.len(),
            av == crate::util::areas_view(areas@),
            av.len() == na,
            forall|v: u32| seen@.contains(v) <==> #[trigger] index_in(points@, v),
            is_merge_of(points@, all_points(av.take(a as int))),
        decreases na - a,
    {
        let area = &areas[a];
        let ghost base = all_points(av.take(a as int));
        assert(area@ == av[a as int]);
        let nk = area.len();
        let mut k: usize = 0;
        assert(base + area@.take(0) == base);
        while k < nk
            invariant
                0 <= a < na,
                av.len() == na,
                0 <= k <= nk,
                nk == area@.len(),
                area@ == av[a as int],
                base == all_points(av.take(a as int)),
                forall|v: u32| seen@.contains(v) <==> #[trigger] index_in(points@, v),
                is_merge_of(points@, base + area@.take(k as int)),
            decreases nk - k,
        {
            let p = area[k];
            let ghost s0 = base + area@.take(k as int);
            let ghost s1 = base + area@.take(k + 1);
            assert(s1 == s0.push(p));
            let ghost old_points = points@;
            let ghost had = seen@.contains(p.index);
            if seen.insert(p.index) {
                points.push(p);
                proof {
                    assert(!index_in(old_points, p.index));
                    lemma_merge_push_new(old_points, s0, p);
                    assert forall|v: u32| seen@.contains(v) <==> #[trigger] index_in(points@, v) by {
                        if index_in(old_points, v) {
                            let i = choose|i: int| 0 <= i < old_points.len() && (#[trigger] old_points[i]).index == v;
                            assert(points@[i] == old_points[i]);
                        }
                        if index_in(points@, v) {
                            let i = choose|i: int| 0 <= i < points@.len() && (#[trigger] points@[i]).index == v;
                            if i < old_points.len() {
                                assert(points@[i] == old_points[i]);
                            }
                        }
                        if v == p.index {
                            assert(points@[old_points.len() as int] == p);
                        }
                    }
                }
            } else {
                proof {
                    assert(index_in(points@, p.index));
                    lemma_merge_push_seen(points@, s0, p);
                }
            }
            k += 1;
        }
        proof {
            let t = av.take(a + 1);
            assert(t.drop_last() == av.take(a as int));
            assert(t.last() == av[a as int]);
            assert(area@.take(nk as int) == area@);
        }
        a += 1;
    }
    assert(av.take(na as int) == av);
    points
}

proof fn lemma_first_in_push(s: Seq<MyPoint>, p: MyPoint, q: MyPoint)
    requires
        is_first_in(s, q),
    ensures
        is_first_in(s.push(p), q),
{
    let s2 = s.push(p);
    let k = choose|k: int| first_with_index(s, k) && s[k] == q;
    assert(s2[k] == s[k]);
    assert forall|j: int| 0 <= j < k implies (#[trigger] s2[j]).index != s2[k].index by {
        assert(s2[j] == s[j]);
    }
    assert(first_with_index(s2, k));
}

proof fn lemma_merge_push_new(r: Seq<MyPoint>, s: Seq<MyPoint>, p: MyPoint)
    requires
        is_merge_of(r, s),
        !index_in(r, p.index),
    ensures
        is_merge_of(r.push(p), s.push(p)),
{
    let r2 = r.push(p);
    let s2 = s.push(p);
    assert forall|i: int, j: int| 0 <= i < j < r2.len() implies (#[trigger] r2[i]).index != (
    #[trigger] r2[j]).index by {
        assert(r2[i] == r[i]);
        if j < r.len() {
            assert(r2[j] == r[j]);
        }
    }
    assert forall|i: int| 0 <= i < r2.len() implies #[trigger] is_first_in(s2, r2[i]) by {
        if i < r.len() {
            assert(r2[i] == r[i]);
            lemma_first_in_push(s, p, r[i]);
        } else {
            let k = s.len() as int;
            assert forall|j: int| 0 <= j < k implies (#[trigger] s2[j]).index != s2[k].index by {
                assert(s2[j] == s[j]);
                assert(index_in(r, s[j].index));
            }
            assert(first_with_index(s2, k));
        }
    }
    assert forall|k: int| 0 <= k < s2.len() implies #[trigger] index_in(r2, s2[k].index) by {
        if k < s.len() {
            assert(s2[k] == s[k]);
            assert(index_in(r, s[k].index));
            let i = choose|i: int| 0 <= i < r.len() && (#[trigger] r[i]).index == s[k].index;
            assert(r2[i] == r[i]);
        } else {
            assert(r2[r.len() as int] == p);
        }
    }
}

proof fn lemma_merge_push_seen(r: Seq<MyPoint>, s: Seq<MyPoint>, p: MyPoint)
    requires
        is_merge_of(r, s),
        index_in(r, p.index),
    ensures
        is_merge_of(r, s.push(p)),
{
    let s2 = s.push(p);
    assert forall|i: int| 0 <= i < r.len() implies #[trigger] is_first_in(s2, r[i]) by {
        lemma_first_in_push(s, p, r[i]);
    }
    assert forall|k: int| 0 <= k < s2.len() implies #[trigger] index_in(r, s2[k].index) by {
        if k < s.len() {
            assert(s2[k] == s[k]);
        }
    }
}

} // verus!
