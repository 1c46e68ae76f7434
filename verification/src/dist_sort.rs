//! Stable ordering of chunk offsets by squared distance from the origin.
use vstd::prelude::*;

verus! {

broadcast use vstd::seq_lib::group_seq_properties;

/// Squared Euclidean distance of an offset from the origin.
pub open spec fn dist2(c: (int, int)) -> int {
    c.0 * c.0 + c.1 * c.1
}

/// A sequence of `i32` pairs read as pairs of integers.
pub open spec fn int_points(v: Seq<(i32, i32)>) -> Seq<(int, int)> {
    v.map_values(|c: (i32, i32)| (c.0 as int, c.1 as int))
}

/// The offsets at squared distance `d`, in the order they have in `s`.
pub open spec fn dist_class(s: Seq<(int, int)>, d: int) -> Seq<(int, int)> {
    s.filter(|c: (int, int)| dist2(c) == d)
}

/// `s` never moves away from the origin.
pub open spec fn dist_sorted(s: Seq<(int, int)>) -> bool {
    forall|i: int, j: int| 0 <= i <= j < s.len() ==> dist2(s[i]) <= dist2(s[j])
}

/// `out` is `inp` sorted by squared distance, with offsets at equal distance kept in
/// the order they have in `inp` (a stable sort). This determines `out` from `inp`.
pub open spec fn is_stable_dist_sort(out: Seq<(int, int)>, inp: Seq<(int, int)>) -> bool {
    &&& out.len() == inp.len()
    &&& dist_sorted(out)
    &&& forall|d: int| #[trigger] dist_class(out, d) == dist_class(inp, d)
}

/// Every coordinate lies in `[-32767, 32767]`, so a squared distance fits in an `i32`.
pub open spec fn small_points(v: Seq<(i32, i32)>) -> bool {
    forall|i: int|
        0 <= i < v.len() ==> -32767 <= #[trigger] v[i].0 <= 32767 && -32767 <= v[i].1 <= 32767
}

proof fn lemma_square_small(a: int)
    requires
        -32767 <= a <= 32767,
    ensures
        0 <= a * a <= 1073676289,
{
    assert(0 <= a * a <= 1073676289) by (nonlinear_arith)
        requires
            -32767 <= a <= 32767,
    ;
}

fn dist_key(c: (i32, i32)) -> (k: i32)
    requires
        -32767 <= c.0 <= 32767,
        -32767 <= c.1 <= 32767,
    ensures
        k == dist2((c.0 as int, c.1 as int)),
        k >= 0,
{
    proof {
        lemma_square_small(c.0 as int);
        lemma_square_small(c.1 as int);
    }
    c.0 * c.0 + c.1 * c.1
}

proof fn lemma_int_points_push(v: Seq<(i32, i32)>, c: (i32, i32))
    ensures
        int_points(v.push(c)) == int_points(v).push((c.0 as int, c.1 as int)),
{
    assert(int_points(v.push(c)) =~= int_points(v).push((c.0 as int, c.1 as int)));
}

proof fn lemma_class_push(s: Seq<(int, int)>, c: (int, int), d: int)
    ensures
        dist_class(s.push(c), d) == if dist2(c) == d {
            dist_class(s, d).push(c)
        } else {
            dist_class(s, d)
        },
{
    s.lemma_filter_push(c, |c: (int, int)| dist2(c) == d);
}

proof fn lemma_class_add(a: Seq<(int, int)>, b: Seq<(int, int)>, d: int)
    ensures
        dist_class(a + b, d) == dist_class(a, d) + dist_class(b, d),
{
    Seq::filter_distributes_over_add(a, b, |c: (int, int)| dist2(c) == d);
}

proof fn lemma_class_empty(s: Seq<(int, int)>, d: int)
    requires
        forall|i: int| 0 <= i < s.len() ==> dist2(#[trigger] s[i]) != d,
    ensures
        dist_class(s, d) == Seq::<(int, int)>::empty(),
    decreases s.len(),
{
    if s.len() > 0 {
        let t = s.drop_last();
        assert(s == t.push(s.last()));
        lemma_class_empty(t, d);
        lemma_class_push(t, s.last(), d);
    } else {
        assert(s == Seq::<(int, int)>::empty());
        reveal(Seq::filter);
    }
}

/// Merges two sorted runs, taking from `a` first among equal distances.
fn merge(a: Vec<(i32, i32)>, b: Vec<(i32, i32)>) -> (r: Vec<(i32, i32)>)
    requires
        small_points(a@),
        small_points(b@),
        dist_sorted(int_points(a@)),
        dist_sorted(int_points(b@)),
        a.len() + b.len() <= usize::MAX,
    ensures
        small_points(r@),
        r.len() == a.len() + b.len(),
        dist_sorted(int_points(r@)),
        forall|d: int|
            #[trigger] dist_class(int_points(r@), d) == dist_class(int_points(a@), d)
                + dist_class(int_points(b@), d),
{
    let ghost sa = int_points(a@);
    let ghost sb = int_points(b@);
    let mut r: Vec<(i32, i32)> = Vec::new();
    let mut i: usize = 0;
    let mut j: usize = 0;
    while i < a.len() || j < b.len()
        invariant
            sa == int_points(a@),
            sb == int_points(b@),
            small_points(a@),
            small_points(b@),
            dist_sorted(sa),
            dist_sorted(sb),
            a.len() + b.len() <= usize::MAX,
            i <= a.len(),
            j <= b.len(),
            r.len() == i + j,
            small_points(r@),
            dist_sorted(int_points(r@)),
            forall|k: int|
                0 <= k < r.len() && i < a.len() ==> dist2(#[trigger] int_points(r@)[k]) <= dist2(
                    sa[i as int],
                ),
            forall|k: int|
                0 <= k < r.len() && j < b.len() ==> dist2(#[trigger] int_points(r@)[k]) <= dist2(
                    sb[j as int],
                ),
            forall|k: int|
                0 <= k < j && i < a.len() ==> dist2(#[trigger] sb[k]) < dist2(sa[i as int]),
            forall|d: int|
                #[trigger] dist_class(int_points(r@), d) == dist_class(sa.take(i as int), d)
                    + dist_class(sb.take(j as int), d),
        decreases a.len() + b.len() - i - j,
    {
        let ghost old_r = int_points(r@);
        let take_a = if i < a.len() && j < b.len() {
            dist_key(a[i]) <= dist_key(b[j])
        } else {
            i < a.len()
        };
        if take_a {
            let c = a[i];
            proof {
                lemma_int_points_push(r@, c);
                assert(sa[i as int] == (c.0 as int, c.1 as int));
                assert(sa.take(i + 1) == sa.take(i as int).push(sa[i as int]));
                assert forall|d: int|
                    #[trigger] dist_class(old_r.push(sa[i as int]), d) == dist_class(
                        sa.take(i + 1),
                        d,
                    ) + dist_class(sb.take(j as int), d) by {
                    lemma_class_push(old_r, sa[i as int], d);
                    lemma_class_push(sa.take(i as int), sa[i as int], d);
                    if dist2(sa[i as int]) == d {
                        assert forall|k: int| 0 <= k < sb.take(j as int).len() implies dist2(
                            #[trigger] sb.take(j as int)[k],
                        ) != d by {
                            assert(sb.take(j as int)[k] == sb[k]);
                        }
                        lemma_class_empty(sb.take(j as int), d);
                        assert(dist_class(sa.take(i as int), d).push(sa[i as int]) + Seq::<
                            (int, int),
                        >::empty() == dist_class(sa.take(i as int), d).push(sa[i as int]));
                        assert(dist_class(sa.take(i as int), d) + Seq::<(int, int)>::empty()
                            == dist_class(sa.take(i as int), d));
                    }
                }
            }
            r.push(c);
            i = i + 1;
            proof {
                assert forall|k: int|
                    0 <= k < r.len() && i < a.len() implies dist2(
                        #[trigger] int_points(r@)[k],
                    ) <= dist2(sa[i as int]) by {
                    if k < r.len() - 1 {
                        assert(int_points(r@)[k] == old_r[k]);
                    }
                }
                assert forall|k: int|
                    0 <= k < r.len() && j < b.len() implies dist2(
                        #[trigger] int_points(r@)[k],
                    ) <= dist2(sb[j as int]) by {
                    if k < r.len() - 1 {
                        assert(int_points(r@)[k] == old_r[k]);
                    }
                }
                assert forall|p: int, q: int|
                    0 <= p <= q < int_points(r@).len() implies dist2(int_points(r@)[p]) <= dist2(
                        int_points(r@)[q],
                    ) by {
                    if q == int_points(r@).len() - 1 && p < q {
                        assert(int_points(r@)[p] == old_r[p]);
                    } else if q < int_points(r@).len() - 1 {
                        assert(int_points(r@)[p] == old_r[p]);
                        assert(int_points(r@)[q] == old_r[q]);
                    }
                }
            }
        } else {
            let c = b[j];
            proof {
                lemma_int_points_push(r@, c);
                assert(sb[j as int] == (c.0 as int, c.1 as int));
                assert(sb.take(j + 1) == sb.take(j as int).push(sb[j as int]));
                assert forall|d: int|
                    #[trigger] dist_class(old_r.push(sb[j as int]), d) == dist_class(
                        sa.take(i as int),
                        d,
                    ) + dist_class(sb.take(j + 1), d) by {
                    lemma_class_push(old_r, sb[j as int], d);
                    lemma_class_push(sb.take(j as int), sb[j as int], d);
                }
            }
            r.push(c);
            j = j + 1;
            proof {
                assert forall|k: int|
                    0 <= k < r.len() && i < a.len() implies dist2(
                        #[trigger] int_points(r@)[k],
                    ) <= dist2(sa[i as int]) by {
                    if k < r.len() - 1 {
                        assert(int_points(r@)[k] == old_r[k]);
                    }
                }
                assert forall|k: int|
                    0 <= k < r.len() && j < b.len() implies dist2(
                        #[trigger] int_points(r@)[k],
                    ) <= dist2(sb[j as int]) by {
                    if k < r.len() - 1 {
                        assert(int_points(r@)[k] == old_r[k]);
                    }
                }
                assert forall|p: int, q: int|
                    0 <= p <= q < int_points(r@).len() implies dist2(int_points(r@)[p]) <= dist2(
                        int_points(r@)[q],
                    ) by {
                    if q == int_points(r@).len() - 1 && p < q {
                        assert(int_points(r@)[p] == old_r[p]);
                    } else if q < int_points(r@).len() - 1 {
                        assert(int_points(r@)[p] == old_r[p]);
                        assert(int_points(r@)[q] == old_r[q]);
                    }
                }
            }
        }
    }
    proof {
        assert(sa.take(i as int) == sa);
        assert(sb.take(j as int) == sb);
    }
    r
}

/// Stable sort of `v[lo..hi]` by squared distance.
fn sort_range(v: &Vec<(i32, i32)>, lo: usize, hi: usize) -> (r: Vec<(i32, i32)>)
    requires
        lo <= hi <= v.len(),
        small_points(v@),
    ensures
        small_points(r@),
        is_stable_dist_sort(int_points(r@), int_points(v@).subrange(lo as int, hi as int)),
    decreases hi - lo,
{
    if hi - lo <= 1 {
        let mut r: Vec<(i32, i32)> = Vec::new();
        if hi > lo {
            r.push(v[lo]);
        }
        proof {
            assert(int_points(r@) == int_points(v@).subrange(lo as int, hi as int));
        }
        r
    } else {
        let mid = lo + (hi - lo) / 2;
        let left = sort_range(v, lo, mid);
        let right = sort_range(v, mid, hi);
        let r = merge(left, right);
        proof {
            let s = int_points(v@);
            assert(s.subrange(lo as int, hi as int) == s.subrange(lo as int, mid as int)
                + s.subrange(mid as int, hi as int));
            assert forall|d: int|
                #[trigger] dist_class(int_points(r@), d) == dist_class(
                    s.subrange(lo as int, hi as int),
                    d,
                ) by {
                lemma_class_add(s.subrange(lo as int, mid as int), s.subrange(mid as int, hi as int), d);
            }
        }
        r
    }
}

/// Sorts offsets by squared distance from the origin, keeping offsets at equal distance
/// in the order they came in.
pub fn sort_by_distance(v: &Vec<(i32, i32)>) -> (r: Vec<(i32, i32)>)
    requires
        small_points(v@),
    ensures
        small_points(r@),
        is_stable_dist_sort(int_points(r@), int_points(v@)),
{
    let r = sort_range(v, 0, v.len());
    proof {
        assert(int_points(v@).subrange(0, v.len() as int) == int_points(v@));
    }
    r
}

} // verus!

verus! {

proof fn lemma_class_last(s: Seq<(int, int)>)
    requires
        s.len() > 0,
    ensures
        dist_class(s, dist2(s.last())) == dist_class(s.drop_last(), dist2(s.last())).push(s.last()),
        forall|d: int|
            d != dist2(s.last()) ==> #[trigger] dist_class(s, d) == dist_class(s.drop_last(), d),
{
    assert(s == s.drop_last().push(s.last()));
    lemma_class_push(s.drop_last(), s.last(), dist2(s.last()));
    assert forall|d: int| d != dist2(s.last()) implies #[trigger] dist_class(s, d) == dist_class(
        s.drop_last(),
        d,
    ) by {
        lemma_class_push(s.drop_last(), s.last(), d);
    }
}

proof fn lemma_class_nonempty_has(s: Seq<(int, int)>, d: int)
    requires
        dist_class(s, d).len() > 0,
    ensures
        exists|i: int| 0 <= i < s.len() && dist2(#[trigger] s[i]) == d,
{
    let c = dist_class(s, d)[0];
    #[allow(deprecated)]
    s.filter_lemma(|c: (int, int)| dist2(c) == d);
    assert(dist_class(s, d).contains(c));
    s.lemma_filter_contains_rev(|c: (int, int)| dist2(c) == d, c);
    let i = choose|i: int| 0 <= i < s.len() && s[i] == c;
    assert(dist2(s[i]) == d);
}

proof fn lemma_class_has(s: Seq<(int, int)>, i: int)
    requires
        0 <= i < s.len(),
    ensures
        dist_class(s, dist2(s[i])).len() > 0,
{
    s.lemma_filter_contains(|c: (int, int)| dist2(c) == dist2(s[i]), i);
}

/// A stable sort by squared distance has exactly one result.
pub proof fn lemma_stable_dist_sort_unique(a: Seq<(int, int)>, b: Seq<(int, int)>, inp: Seq<(int, int)>)
    requires
        is_stable_dist_sort(a, inp),
        is_stable_dist_sort(b, inp),
    ensures
        a == b,
    decreases a.len(),
{
    if a.len() == 0 {
        assert(a =~= b);
    } else {
        let n = a.len() as int;
        let da = dist2(a.last());
        let db = dist2(b.last());
        assert(dist_class(a, da) == dist_class(inp, da));
        assert(dist_class(b, db) == dist_class(inp, db));
        lemma_class_has(a, n - 1);
        lemma_class_has(b, n - 1);
        assert(dist_class(b, da).len() > 0);
        assert(dist_class(a, db).len() > 0);
        lemma_class_nonempty_has(b, da);
        lemma_class_nonempty_has(a, db);
        let ib = choose|i: int| 0 <= i < b.len() && dist2(#[trigger] b[i]) == da;
        let ia = choose|i: int| 0 <= i < a.len() && dist2(#[trigger] a[i]) == db;
        assert(dist2(b[ib]) <= dist2(b[n - 1]));
        assert(dist2(a[ia]) <= dist2(a[n - 1]));
        assert(da == db);
        lemma_class_last(a);
        lemma_class_last(b);
        let a2 = a.drop_last();
        let b2 = b.drop_last();
        // both drop the same last element: the last of the shared class
        assert(dist_class(a, da).last() == a.last());
        assert(dist_class(b, da).last() == b.last());
        assert(dist_class(a, da) == dist_class(b, da));
        assert(a.last() == b.last());
        assert forall|d: int| #[trigger] dist_class(a2, d) == dist_class(b2, d) by {
            if d == da {
                assert(dist_class(a2, d) == dist_class(a, d).drop_last());
                assert(dist_class(b2, d) == dist_class(b, d).drop_last());
                assert(dist_class(a, d) == dist_class(b, d));
            } else {
                assert(dist_class(a, d) == dist_class(inp, d));
                assert(dist_class(b, d) == dist_class(inp, d));
            }
        }
        assert(dist_sorted(a2));
        assert(dist_sorted(b2));
        assert(is_stable_dist_sort(b2, a2)) by {
            assert forall|d: int| #[trigger] dist_class(a2, d) == dist_class(a2, d) by {}
        }
        assert(is_stable_dist_sort(a2, a2));
        lemma_stable_dist_sort_unique(a2, b2, a2);
        assert(a == a2.push(a.last()));
        assert(b == b2.push(b.last()));
    }
}

} // verus!

verus! {

/// `s` sorted by squared distance, offsets at equal distance kept in their order in `s`.
pub open spec fn nearest_first(s: Seq<(int, int)>) -> Seq<(int, int)> {
    choose|t: Seq<(int, int)>| is_stable_dist_sort(t, s)
}

/// Any stable sort of `s` by squared distance is `nearest_first(s)`.
pub proof fn lemma_nearest_first(t: Seq<(int, int)>, s: Seq<(int, int)>)
    requires
        is_stable_dist_sort(t, s),
    ensures
        nearest_first(s) == t,
{
    let u = nearest_first(s);
    assert(is_stable_dist_sort(u, s));
    lemma_stable_dist_sort_unique(u, t, s);
}

} // verus!
