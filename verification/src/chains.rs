//! Ordering the pixels of a curve into chains: the pixel set is thinned to one point per
//! column (the median row), then walked greedily from the leftmost point to the nearest
//! unvisited point; jumps longer than 100 pixels split the walk into separate chains.
use vstd::prelude::*;

verus! {

/// The y-coordinates of the pixels in column `x`, in the order of `ps`.
pub open spec fn ys_at(ps: Seq<(u32, u32)>, x: u32) -> Seq<u32>
    decreases ps.len(),
{
    if ps.len() == 0 {
        Seq::empty()
    } else {
        let r = ys_at(ps.drop_last(), x);
        if ps.last().0 == x {
            r.push(ps.last().1)
        } else {
            r
        }
    }
}

/// Number of values of `ys` below `y`.
pub open spec fn count_below(ys: Seq<u32>, y: u32) -> nat
    decreases ys.len(),
{
    if ys.len() == 0 {
        0
    } else {
        count_below(ys.drop_last(), y) + if ys.last() < y { 1nat } else { 0nat }
    }
}

/// Number of values of `ys` at most `y`.
pub open spec fn count_upto(ys: Seq<u32>, y: u32) -> nat
    decreases ys.len(),
{
    if ys.len() == 0 {
        0
    } else {
        count_upto(ys.drop_last(), y) + if ys.last() <= y { 1nat } else { 0nat }
    }
}

/// `y` is the middle value of the non-empty list `ys`: the one at index `len / 2` once sorted.
pub open spec fn is_median(ys: Seq<u32>, y: u32) -> bool {
    &&& ys.len() > 0
    &&& count_below(ys, y) <= ys.len() / 2
    &&& ys.len() / 2 < count_upto(ys, y)
}

/// The middle y-coordinate of column `x` of `ps`.
pub open spec fn median_y(ps: Seq<(u32, u32)>, x: u32) -> u32 {
    choose|y: u32| is_median(ys_at(ps, x), y)
}

/// One point per occupied column `x >= x0`, at the column's middle y, left to right.
pub open spec fn thin_from(ps: Seq<(u32, u32)>, x0: int) -> Seq<(u32, u32)>
    decreases u32::MAX + 1 - x0,
{
    if 0 <= x0 <= u32::MAX {
        let here: Seq<(u32, u32)> = if ys_at(ps, x0 as u32).len() > 0 {
            seq![(x0 as u32, median_y(ps, x0 as u32))]
        } else {
            Seq::empty()
        };
        here + thin_from(ps, x0 + 1)
    } else {
        Seq::empty()
    }
}

/// The thinned curve: one point per occupied column, at its middle y, left to right.
pub open spec fn thin_points(ps: Seq<(u32, u32)>) -> Seq<(u32, u32)> {
    thin_from(ps, 0)
}

pub proof fn lemma_count_bounds(ys: Seq<u32>, y: u32)
    ensures
        count_below(ys, y) <= count_upto(ys, y) <= ys.len(),
    decreases ys.len(),
{
    if ys.len() > 0 {
        lemma_count_bounds(ys.drop_last(), y);
    }
}

pub proof fn lemma_median_unique(ys: Seq<u32>, a: u32, b: u32)
    requires
        is_median(ys, a),
        is_median(ys, b),
    ensures
        a == b,
{
    if a < b {
        lemma_count_upto_below(ys, a, b);
    } else if b < a {
        lemma_count_upto_below(ys, b, a);
    }
}

/// Values at most `a` are below `b` when `a < b`.
pub proof fn lemma_count_upto_below(ys: Seq<u32>, a: u32, b: u32)
    requires
        a < b,
    ensures
        count_upto(ys, a) <= count_below(ys, b),
    decreases ys.len(),
{
    if ys.len() > 0 {
        lemma_count_upto_below(ys.drop_last(), a, b);
    }
}

/// `ys_at` of a list grown by one pixel.
pub proof fn lemma_ys_at_push(ps: Seq<(u32, u32)>, p: (u32, u32), x: u32)
    ensures
        ys_at(ps.push(p), x) == if p.0 == x { ys_at(ps, x).push(p.1) } else { ys_at(ps, x) },
{
    assert(ps.push(p).drop_last() =~= ps);
}

/// No pixel of `ps` lies in a column outside `lo..=hi` (for the thinned points from `x0`).
pub proof fn lemma_thin_skip(ps: Seq<(u32, u32)>, x0: int, x1: int)
    requires
        0 <= x0 <= x1,
        forall|x: u32| x0 <= x < x1 ==> #[trigger] ys_at(ps, x).len() == 0,
    ensures
        thin_from(ps, x0) == thin_from(ps, x1),
    decreases x1 - x0,
{
    if x0 < x1 {
        if x0 <= u32::MAX {
            assert(ys_at(ps, x0 as u32).len() == 0);
            lemma_thin_skip(ps, x0 + 1, x1);
            assert(thin_from(ps, x0) =~= thin_from(ps, x0 + 1));
        } else {
            lemma_thin_beyond(ps, x0);
            lemma_thin_beyond(ps, x1);
        }
    }
}

pub proof fn lemma_thin_beyond(ps: Seq<(u32, u32)>, x0: int)
    requires
        x0 > u32::MAX,
    ensures
        thin_from(ps, x0) == Seq::<(u32, u32)>::empty(),
{
}

/// The thinned points from column `x0` on lie in columns at or right of `x0`, strictly left to right.
proof fn lemma_thin_from_sorted(ps: Seq<(u32, u32)>, x0: int)
    requires
        0 <= x0,
    ensures
        forall|i: int| 0 <= i < thin_from(ps, x0).len() ==> #[trigger] thin_from(ps, x0)[i].0 >= x0,
        forall|i: int, j: int| 0 <= i < j < thin_from(ps, x0).len() ==> thin_from(ps, x0)[i].0 < thin_from(ps, x0)[j].0,
    decreases u32::MAX + 1 - x0,
{
    if x0 <= u32::MAX {
        lemma_thin_from_sorted(ps, x0 + 1);
        let here: Seq<(u32, u32)> = if ys_at(ps, x0 as u32).len() > 0 {
            seq![(x0 as u32, median_y(ps, x0 as u32))]
        } else {
            Seq::empty()
        };
        let rest = thin_from(ps, x0 + 1);
        let t = thin_from(ps, x0);
        assert(t == here + rest);
        assert forall|i: int| 0 <= i < t.len() implies #[trigger] t[i].0 >= x0 by {
            if i >= here.len() {
                assert(t[i] == rest[i - here.len()]);
            }
        }
        assert forall|i: int, j: int| 0 <= i < j < t.len() implies t[i].0 < t[j].0 by {
            assert(t[j] == rest[j - here.len()]);
            if i >= here.len() {
                assert(t[i] == rest[i - here.len()]);
            }
        }
    }
}

/// The thinned curve holds at most one point per column, ordered left to right.
pub proof fn law_thin_one_per_column(ps: Seq<(u32, u32)>)
    ensures
        forall|i: int, j: int| 0 <= i < j < thin_points(ps).len() ==> thin_points(ps)[i].0 < thin_points(ps)[j].0,
{
    lemma_thin_from_sorted(ps, 0);
}

} // verus!

verus! {

proof fn lemma_below_is_upto_prev(ys: Seq<u32>, y: u32)
    ensures
        y == 0 ==> count_below(ys, y) == 0,
        y > 0 ==> count_below(ys, y) == count_upto(ys, (y - 1) as u32),
    decreases ys.len(),
{
    if ys.len() > 0 {
        lemma_below_is_upto_prev(ys.drop_last(), y);
    }
}

/// Number of values of `ys` at most `t`.
fn upto_count(ys: &Vec<u32>, t: u32) -> (n: usize)
    ensures
        n == count_upto(ys@, t),
{
    let mut n: usize = 0;
    let mut k: usize = 0;
    while k < ys.len()
        invariant
            k <= ys@.len(),
            n == count_upto(ys@.take(k as int), t),
            n <= k,
        decreases ys@.len() - k,
    {
        proof {
            assert(ys@.take(k + 1).drop_last() =~= ys@.take(k as int));
        }
        if ys[k] <= t {
            n = n + 1;
        }
        k = k + 1;
    }
    proof {
        assert(ys@.take(k as int) =~= ys@);
    }
    n
}

/// The middle value of a non-empty list: the smallest `y` with more than `len / 2` values at most `y`.
fn median_of(ys: &Vec<u32>) -> (y: u32)
    requires
        ys@.len() > 0,
    ensures
        is_median(ys@, y),
{
    let k = ys.len() / 2;
    let mut lo: u32 = 0;
    let mut hi: u32 = u32::MAX;
    proof {
        lemma_count_all(ys@);
    }
    while lo < hi
        invariant
            k == ys@.len() / 2,
            lo <= hi,
            count_upto(ys@, hi) > k,
            lo > 0 ==> count_upto(ys@, (lo - 1) as u32) <= k,
        decreases hi - lo,
    {
        let mid = lo + (hi - lo) / 2;
        if upto_count(ys, mid) > k {
            hi = mid;
        } else {
            lo = mid + 1;
        }
    }
    proof {
        lemma_below_is_upto_prev(ys@, lo);
    }
    lo
}

/// Every value is at most `u32::MAX`.
proof fn lemma_count_all(ys: Seq<u32>)
    ensures
        count_upto(ys, u32::MAX) == ys.len(),
    decreases ys.len(),
{
    if ys.len() > 0 {
        lemma_count_all(ys.drop_last());
    }
}

} // verus!

verus! {

proof fn lemma_ys_at_absent(ps: Seq<(u32, u32)>, x: u32)
    requires
        forall|i: int| 0 <= i < ps.len() ==> (#[trigger] ps[i]).0 != x,
    ensures
        ys_at(ps, x).len() == 0,
    decreases ps.len(),
{
    if ps.len() > 0 {
        lemma_ys_at_absent(ps.drop_last(), x);
    }
}

/// One point per occupied column of `ps`, at the column's middle row, left to right.
pub fn thin_columns(ps: &[(u32, u32)]) -> (t: Vec<(u32, u32)>)
    requires
        ps@.len() > 0,
    ensures
        t@ == thin_points(ps@),
{
    let n = ps.len();
    let mut xmin = ps[0].0;
    let mut xmax = ps[0].0;
    let mut k: usize = 1;
    while k < n
        invariant
            n == ps@.len(),
            1 <= k <= n,
            xmin <= xmax,
            forall|i: int| 0 <= i < k ==> xmin <= (#[trigger] ps@[i]).0 <= xmax,
        decreases n - k,
    {
        if ps[k].0 < xmin {
            xmin = ps[k].0;
        }
        if ps[k].0 > xmax {
            xmax = ps[k].0;
        }
        k = k + 1;
    }
    let span: u64 = (xmax - xmin) as u64;
    let mut buckets: Vec<Vec<u32>> = Vec::new();
    let mut b: u64 = 0;
    while b <= span
        invariant
            span == xmax - xmin,
            b <= span + 1,
            buckets@.len() == b,
            forall|i: int| 0 <= i < b ==> (#[trigger] buckets@[i])@ == Seq::<u32>::empty(),
        decreases span + 1 - b,
    {
        buckets.push(Vec::new());
        b = b + 1;
    }
    proof {
        assert forall|i: int| 0 <= i <= span implies (#[trigger] buckets@[i])@ == ys_at(ps@.take(0), (xmin + i) as u32) by {
            assert(ps@.take(0).len() == 0);
        }
    }
    let mut k: usize = 0;
    while k < n
        invariant
            n == ps@.len(),
            k <= n,
            span == xmax - xmin,
            buckets@.len() == span + 1,
            forall|i: int| 0 <= i < n ==> xmin <= (#[trigger] ps@[i]).0 <= xmax,
            forall|i: int| 0 <= i <= span ==> (#[trigger] buckets@[i])@ == ys_at(ps@.take(k as int), (xmin + i) as u32),
        decreases n - k,
    {
        let p = ps[k];
        let idx = (p.0 - xmin) as usize;
        let ghost before = buckets@;
        buckets[idx].push(p.1);
        proof {
            assert(ps@.take(k + 1) =~= ps@.take(k as int).push(p));
            assert forall|i: int| 0 <= i <= span implies (#[trigger] buckets@[i])@ == ys_at(ps@.take(k + 1), (xmin + i) as u32) by {
                lemma_ys_at_push(ps@.take(k as int), p, (xmin + i) as u32);
                if i != idx {
                    assert(buckets@[i] == before[i]);
                }
            }
        }
        k = k + 1;
    }
    proof {
        assert(ps@.take(n as int) =~= ps@);
    }
    let mut t: Vec<(u32, u32)> = Vec::new();
    let mut i: u64 = 0;
    proof {
        assert forall|x: u32| 0 <= x < xmin implies #[trigger] ys_at(ps@, x).len() == 0 by {
            lemma_ys_at_absent(ps@, x);
        }
        lemma_thin_skip(ps@, 0, xmin as int);
        assert(t@ + thin_from(ps@, xmin as int) =~= thin_from(ps@, 0));
    }
    while i <= span
        invariant
            n == ps@.len(),
            span == xmax - xmin,
            i <= span + 1,
            buckets@.len() == span + 1,
            forall|j: int| 0 <= j <= span ==> (#[trigger] buckets@[j])@ == ys_at(ps@, (xmin + j) as u32),
            t@ + thin_from(ps@, xmin + i) == thin_from(ps@, 0),
        decreases span + 1 - i,
    {
        let x = xmin + i as u32;
        let ghost t0 = t@;
        proof {
            assert(buckets@[i as int]@ == ys_at(ps@, x));
        }
        if buckets[i as usize].len() > 0 {
            let y = median_of(&buckets[i as usize]);
            proof {
                lemma_median_unique(ys_at(ps@, x), y, median_y(ps@, x));
            }
            t.push((x, y));
            proof {
                assert(thin_from(ps@, x as int) == seq![(x, median_y(ps@, x))] + thin_from(ps@, x + 1));
                assert(t@ + thin_from(ps@, x + 1) =~= t0 + thin_from(ps@, x as int));
            }
        } else {
            proof {
                assert(thin_from(ps@, x as int) =~= thin_from(ps@, x + 1));
            }
        }
        i = i + 1;
    }
    proof {
        assert forall|x: u32| xmax < x implies #[trigger] ys_at(ps@, x).len() == 0 by {
            lemma_ys_at_absent(ps@, x);
        }
        lemma_thin_skip(ps@, xmax + 1, u32::MAX + 1);
        lemma_thin_beyond(ps@, u32::MAX + 1);
        assert(t@ =~= thin_from(ps@, 0));
    }
    t
}

} // verus!

verus! {

/// Squared distance between two pixels.
pub open spec fn dist2(a: (u32, u32), b: (u32, u32)) -> int {
    (a.0 - b.0) * (a.0 - b.0) + (a.1 - b.1) * (a.1 - b.1)
}

/// `j` is the unvisited point of `t` closest to the last visited one (the first on ties).
pub open spec fn is_nearest(t: Seq<(u32, u32)>, visited: Seq<int>, j: int) -> bool {
    let last = t[visited.last()];
    &&& 0 <= j < t.len()
    &&& !visited.contains(j)
    &&& forall|k: int|
        0 <= k < t.len() && !visited.contains(k) ==> dist2(t[j], last) <= #[trigger] dist2(t[k], last) && (k < j
            ==> dist2(t[j], last) < dist2(t[k], last))
}

/// The unvisited point of `t` closest to the last visited one (the first on ties).
pub open spec fn nearest(t: Seq<(u32, u32)>, visited: Seq<int>) -> int {
    choose|j: int| is_nearest(t, visited, j)
}

/// Indices of the first `n` points of the greedy walk over `t` that starts at point 0 and
/// always moves to the nearest unvisited point.
pub open spec fn visit_order(t: Seq<(u32, u32)>, n: nat) -> Seq<int>
    decreases n,
{
    if n <= 1 {
        seq![0]
    } else {
        let v = visit_order(t, (n - 1) as nat);
        v.push(nearest(t, v))
    }
}

/// The greedy nearest-neighbour walk over all points of `t`.
pub open spec fn walk(t: Seq<(u32, u32)>) -> Seq<(u32, u32)> {
    visit_order(t, t.len()).map_values(|i: int| t[i])
}

/// Largest squared step that keeps a walk in one piece (100 pixels).
pub open spec fn max_step2() -> int {
    10000
}

/// The walk `path` cut into pieces at every step longer than 100 pixels.
pub open spec fn pieces(path: Seq<(u32, u32)>) -> Seq<Seq<(u32, u32)>>
    decreases path.len(),
{
    if path.len() <= 1 {
        seq![path]
    } else {
        let p = pieces(path.drop_last());
        if dist2(path[path.len() - 2], path.last()) > max_step2() {
            p.push(seq![path.last()])
        } else {
            p.update(p.len() - 1, p.last().push(path.last()))
        }
    }
}

/// The pieces that hold at least two points.
pub open spec fn keep_long(ps: Seq<Seq<(u32, u32)>>) -> Seq<Seq<(u32, u32)>>
    decreases ps.len(),
{
    if ps.len() == 0 {
        Seq::empty()
    } else {
        let r = keep_long(ps.drop_last());
        if ps.last().len() >= 2 {
            r.push(ps.last())
        } else {
            r
        }
    }
}

/// The chains of a curve's pixels: the pixels themselves when there are at most two; otherwise
/// the thinned points when there are at most two of them, and else the pieces of at least two
/// points of the greedy walk over the thinned points (or the thinned points when no piece has two).
pub open spec fn pixel_chains(ps: Seq<(u32, u32)>) -> Seq<Seq<(u32, u32)>> {
    if ps.len() == 0 {
        Seq::empty()
    } else if ps.len() <= 2 {
        seq![ps]
    } else {
        let t = thin_points(ps);
        if t.len() <= 2 {
            seq![t]
        } else {
            let k = keep_long(pieces(walk(t)));
            if k.len() == 0 {
                seq![t]
            } else {
                k
            }
        }
    }
}

pub proof fn lemma_pieces_nonempty(path: Seq<(u32, u32)>)
    ensures
        pieces(path).len() >= 1,
    decreases path.len(),
{
    if path.len() > 1 {
        lemma_pieces_nonempty(path.drop_last());
    }
}

/// The points of a list of pieces, one piece after the other.
pub open spec fn concat(ps: Seq<Seq<(u32, u32)>>) -> Seq<(u32, u32)>
    decreases ps.len(),
{
    if ps.len() == 0 {
        Seq::empty()
    } else {
        concat(ps.drop_last()) + ps.last()
    }
}

/// Every piece of a non-empty walk is non-empty, the last one ends with the walk's last point,
/// steps inside a piece are at most 100 pixels long, and consecutive pieces are more than
/// 100 pixels apart.
proof fn lemma_pieces_shape(path: Seq<(u32, u32)>)
    requires
        path.len() >= 1,
    ensures
        pieces(path).len() >= 1,
        pieces(path).last().len() >= 1,
        pieces(path).last().last() == path.last(),
        forall|k: int| 0 <= k < pieces(path).len() ==> #[trigger] pieces(path)[k].len() >= 1,
        forall|k: int, j: int| 0 <= k < pieces(path).len() && 0 <= j < pieces(path)[k].len() - 1
            ==> dist2(#[trigger] pieces(path)[k][j], pieces(path)[k][j + 1]) <= max_step2(),
        forall|k: int| 0 <= k < pieces(path).len() - 1
            ==> dist2(#[trigger] pieces(path)[k].last(), pieces(path)[k + 1][0]) > max_step2(),
    decreases path.len(),
{
    if path.len() > 1 {
        let prev = path.drop_last();
        lemma_pieces_shape(prev);
        let p = pieces(prev);
        let x = path.last();
        assert(prev.last() == path[path.len() - 2]);
        if dist2(path[path.len() - 2], x) > max_step2() {
            let q = p.push(seq![x]);
            assert(pieces(path) == q);
            assert forall|k: int| 0 <= k < q.len() implies #[trigger] q[k].len() >= 1 by {
                if k < p.len() {
                    assert(q[k] == p[k]);
                }
            }
            assert forall|k: int, j: int| 0 <= k < q.len() && 0 <= j < q[k].len() - 1
                implies dist2(#[trigger] q[k][j], q[k][j + 1]) <= max_step2() by {
                assert(k < p.len());
                assert(q[k] == p[k]);
            }
            assert forall|k: int| 0 <= k < q.len() - 1 implies dist2(#[trigger] q[k].last(), q[k + 1][0]) > max_step2() by {
                if k < p.len() - 1 {
                    assert(q[k] == p[k]);
                    assert(q[k + 1] == p[k + 1]);
                } else {
                    assert(q[k] == p.last());
                    assert(q[k + 1] == seq![x]);
                }
            }
        } else {
            let n = p.len() - 1;
            let last = p.last().push(x);
            let q = p.update(n, last);
            assert(pieces(path) == q);
            assert forall|k: int| 0 <= k < q.len() implies #[trigger] q[k].len() >= 1 by {
                if k < n {
                    assert(q[k] == p[k]);
                }
            }
            assert forall|k: int, j: int| 0 <= k < q.len() && 0 <= j < q[k].len() - 1
                implies dist2(#[trigger] q[k][j], q[k][j + 1]) <= max_step2() by {
                if k < n {
                    assert(q[k] == p[k]);
                } else {
                    assert(q[k] == last);
                    if j < p.last().len() - 1 {
                        assert(last[j] == p[n][j]);
                        assert(last[j + 1] == p[n][j + 1]);
                    } else {
                        assert(last[j] == p.last().last());
                        assert(last[j + 1] == x);
                    }
                }
            }
            assert forall|k: int| 0 <= k < q.len() - 1 implies dist2(#[trigger] q[k].last(), q[k + 1][0]) > max_step2() by {
                assert(q[k] == p[k]);
                if k + 1 < n {
                    assert(q[k + 1] == p[k + 1]);
                } else {
                    assert(q[k + 1] == last);
                    assert(last[0] == p[n][0]);
                }
            }
        }
    }
}

/// The pieces of a walk, one after the other, give back the walk.
pub proof fn law_pieces_concat(path: Seq<(u32, u32)>)
    ensures
        concat(pieces(path)) == path,
    decreases path.len(),
{
    if path.len() <= 1 {
        assert(seq![path].drop_last() =~= Seq::<Seq<(u32, u32)>>::empty());
        assert(concat(seq![path]) == concat(Seq::<Seq<(u32, u32)>>::empty()) + path);
        assert(concat(pieces(path)) =~= path);
    } else {
        let prev = path.drop_last();
        law_pieces_concat(prev);
        lemma_pieces_nonempty(prev);
        let p = pieces(prev);
        let x = path.last();
        if dist2(path[path.len() - 2], x) > max_step2() {
            let q = p.push(seq![x]);
            assert(q.drop_last() =~= p);
            assert(concat(q) == concat(p) + seq![x]);
            assert(concat(q) =~= path);
        } else {
            let n = p.len() - 1;
            let q = p.update(n, p.last().push(x));
            assert(q.drop_last() =~= p.drop_last());
            assert(concat(q) == concat(p.drop_last()) + p.last().push(x));
            assert(concat(p) == concat(p.drop_last()) + p.last());
            assert(concat(q) =~= concat(p).push(x));
            assert(concat(q) =~= path);
        }
    }
}

/// Each piece of a non-empty walk holds steps of at most 100 pixels, and consecutive pieces
/// lie more than 100 pixels apart.
pub proof fn law_pieces_split_at_gaps(path: Seq<(u32, u32)>, k: int)
    requires
        path.len() >= 1,
        0 <= k < pieces(path).len(),
    ensures
        pieces(path)[k].len() >= 1,
        forall|j: int| 0 <= j < pieces(path)[k].len() - 1 ==> dist2(#[trigger] pieces(path)[k][j], pieces(path)[k][j + 1]) <= max_step2(),
        k + 1 < pieces(path).len() ==> dist2(pieces(path)[k].last(), pieces(path)[k + 1][0]) > max_step2(),
{
    lemma_pieces_shape(path);
}

pub proof fn lemma_visit_order_len(t: Seq<(u32, u32)>, n: nat)
    requires
        n >= 1,
    ensures
        visit_order(t, n).len() == n,
        visit_order(t, n)[0] == 0,
    decreases n,
{
    if n > 1 {
        lemma_visit_order_len(t, (n - 1) as nat);
    }
}

/// A sequence shorter than `m` of indices below `m` misses one of them.
proof fn lemma_some_unvisited(order: Seq<int>, m: int) -> (j: int)
    requires
        order.len() < m,
    ensures
        0 <= j < m,
        !order.contains(j),
{
    broadcast use vstd::seq_lib::seq_to_set_is_finite;

    if forall|j: int| 0 <= j < m ==> order.contains(j) {
        vstd::set_lib::lemma_int_range(0, m);
        order.lemma_cardinality_of_set();
        assert(vstd::set_lib::set_int_range(0, m).subset_of(order.to_set())) by {
            assert forall|j: int| vstd::set_lib::set_int_range(0, m).contains(j) implies order.to_set().contains(j) by {
                assert(order.contains(j));
            }
        }
        vstd::set_lib::lemma_len_subset(vstd::set_lib::set_int_range(0, m), order.to_set());
        assert(false);
        0
    } else {
        choose|j: int| 0 <= j < m && !order.contains(j)
    }
}

/// Among the indices below `m` that `visited` misses, the one whose point is closest to the
/// last visited point (the first on ties); -1 when there is none.
spec fn nearest_below(t: Seq<(u32, u32)>, visited: Seq<int>, m: int) -> int
    decreases m,
{
    if m <= 0 {
        -1
    } else {
        let b = nearest_below(t, visited, m - 1);
        let last = t[visited.last()];
        if visited.contains(m - 1) {
            b
        } else if b < 0 || dist2(t[m - 1], last) < dist2(t[b], last) {
            m - 1
        } else {
            b
        }
    }
}

proof fn lemma_nearest_below(t: Seq<(u32, u32)>, visited: Seq<int>, m: int)
    requires
        0 <= m <= t.len(),
    ensures
        nearest_below(t, visited, m) < m,
        nearest_below(t, visited, m) >= 0 ==> !visited.contains(nearest_below(t, visited, m)),
        nearest_below(t, visited, m) < 0 ==> forall|k: int| 0 <= k < m ==> visited.contains(k),
        nearest_below(t, visited, m) >= 0 ==> forall|k: int|
            0 <= k < m && !visited.contains(k) ==> dist2(t[nearest_below(t, visited, m)], t[visited.last()])
                <= #[trigger] dist2(t[k], t[visited.last()]) && (k < nearest_below(t, visited, m) ==> dist2(
                t[nearest_below(t, visited, m)],
                t[visited.last()],
            ) < dist2(t[k], t[visited.last()])),
    decreases m,
{
    if m > 0 {
        lemma_nearest_below(t, visited, m - 1);
    }
}

/// While points are left, the walk has a nearest unvisited point to go to.
proof fn lemma_nearest_exists(t: Seq<(u32, u32)>, visited: Seq<int>)
    requires
        visited.len() > 0,
        visited.len() < t.len(),
    ensures
        is_nearest(t, visited, nearest(t, visited)),
{
    lemma_nearest_below(t, visited, t.len() as int);
    let j = nearest_below(t, visited, t.len() as int);
    if j < 0 {
        let free = lemma_some_unvisited(visited, t.len() as int);
        assert(visited.contains(free));
    }
    assert(is_nearest(t, visited, j));
}

/// The first `n` steps of the walk visit `n` distinct points of `t`.
proof fn lemma_visit_order_distinct(t: Seq<(u32, u32)>, n: nat)
    requires
        1 <= n <= t.len(),
    ensures
        visit_order(t, n).len() == n,
        visit_order(t, n).no_duplicates(),
        forall|k: int| 0 <= k < n ==> 0 <= #[trigger] visit_order(t, n)[k] < t.len(),
    decreases n,
{
    lemma_visit_order_len(t, n);
    if n > 1 {
        let v = visit_order(t, (n - 1) as nat);
        lemma_visit_order_distinct(t, (n - 1) as nat);
        lemma_nearest_exists(t, v);
        let j = nearest(t, v);
        let w = v.push(j);
        assert(visit_order(t, n) == w);
        assert forall|a: int, b: int| 0 <= a < b < w.len() implies w[a] != w[b] by {
            if b == w.len() - 1 {
                assert(w[a] == v[a]);
                if w[a] == j {
                    assert(v.contains(j));
                }
            } else {
                assert(w[a] == v[a] && w[b] == v[b]);
            }
        }
        assert forall|k: int| 0 <= k < n implies 0 <= #[trigger] w[k] < t.len() by {
            if k < n - 1 {
                assert(w[k] == v[k]);
            }
        }
    }
}

/// The greedy walk visits every point of `t` once: its `t.len()` steps go to distinct
/// indices of `t`.
pub proof fn law_walk_visits_each_point_once(t: Seq<(u32, u32)>)
    requires
        t.len() >= 1,
    ensures
        visit_order(t, t.len()).len() == t.len(),
        visit_order(t, t.len()).no_duplicates(),
        forall|k: int| 0 <= k < t.len() ==> 0 <= #[trigger] visit_order(t, t.len())[k] < t.len(),
{
    lemma_visit_order_distinct(t, t.len());
}

fn squared_distance(a: (u32, u32), b: (u32, u32)) -> (d: u128)
    ensures
        d == dist2(a, b),
{
    let dx: u128 = if a.0 >= b.0 { (a.0 - b.0) as u128 } else { (b.0 - a.0) as u128 };
    let dy: u128 = if a.1 >= b.1 { (a.1 - b.1) as u128 } else { (b.1 - a.1) as u128 };
    proof {
        assert(dx * dx <= 0xffff_ffffu128 * 0xffff_ffffu128) by (nonlinear_arith)
            requires
                dx <= 0xffff_ffffu128,
        ;
        assert(dy * dy <= 0xffff_ffffu128 * 0xffff_ffffu128) by (nonlinear_arith)
            requires
                dy <= 0xffff_ffffu128,
        ;
        assert(dx * dx == (a.0 - b.0) * (a.0 - b.0)) by (nonlinear_arith)
            requires
                dx == a.0 - b.0 || dx == b.0 - a.0,
        ;
        assert(dy * dy == (a.1 - b.1) * (a.1 - b.1)) by (nonlinear_arith)
            requires
                dy == a.1 - b.1 || dy == b.1 - a.1,
        ;
    }
    dx * dx + dy * dy
}

} // verus!

verus! {

/// The point sequences of a list of point vectors.
pub open spec fn point_seqs(v: Seq<Vec<(u32, u32)>>) -> Seq<Seq<(u32, u32)>> {
    v.map_values(|x: Vec<(u32, u32)>| x@)
}

/// The unused point of `t` nearest to `last` (the first on ties).
fn nearest_unused(t: &Vec<(u32, u32)>, used: &Vec<bool>, last: (u32, u32), Ghost(order): Ghost<Seq<int>>) -> (j: usize)
    requires
        used@.len() == t@.len(),
        order.len() > 0,
        order.len() < t@.len(),
        last == t@[order.last()],
        forall|k: int| 0 <= k < t@.len() ==> (#[trigger] used@[k] <==> order.contains(k)),
    ensures
        is_nearest(t@, order, j as int),
{
    let m = t.len();
    let ghost free = lemma_some_unvisited(order, m as int);
    let mut found = false;
    let mut best: usize = 0;
    let mut bd: u128 = 0;
    let mut k: usize = 0;
    while k < m
        invariant
            m == t@.len(),
            used@.len() == m,
            order.len() > 0,
            last == t@[order.last()],
            forall|i: int| 0 <= i < m ==> (#[trigger] used@[i] <==> order.contains(i)),
            k <= m,
            found ==> best < k && !used@[best as int] && bd == dist2(t@[best as int], last),
            !found ==> forall|i: int| 0 <= i < k ==> used@[i],
            forall|i: int|
                0 <= i < k && !used@[i] ==> found && bd <= #[trigger] dist2(t@[i], last) && (i < best ==> bd < dist2(t@[i], last)),
        decreases m - k,
    {
        if !used[k] {
            let d = squared_distance(t[k], last);
            if !found || d < bd {
                found = true;
                best = k;
                bd = d;
            }
        }
        k = k + 1;
    }
    proof {
        assert(!used@[free]);
        assert(found);
    }
    best
}

/// The pieces of at least two points of the greedy nearest-neighbour walk over `t`.
fn walk_chains(t: &Vec<(u32, u32)>) -> (r: Vec<Vec<(u32, u32)>>)
    requires
        t@.len() >= 1,
    ensures
        point_seqs(r@) == keep_long(pieces(walk(t@))),
{
    let m = t.len();
    let mut used: Vec<bool> = crate::grid::filled(m, false);
    used.set(0, true);
    let mut chains: Vec<Vec<(u32, u32)>> = Vec::new();
    let mut current: Vec<(u32, u32)> = Vec::new();
    current.push(t[0]);
    let ghost mut order: Seq<int> = seq![0];
    let mut step: usize = 1;
    proof {
        lemma_visit_order_len(t@, 1);
        assert(order.map_values(|i: int| t@[i]) =~= seq![t@[0]]);
        assert(pieces(seq![t@[0]]) == seq![seq![t@[0]]]);
        assert(point_seqs(chains@) =~= keep_long(pieces(order.map_values(|i: int| t@[i])).drop_last()));
        assert forall|k: int| 0 <= k < m implies (#[trigger] used@[k] <==> order.contains(k)) by {
            if k == 0 {
                assert(order[0] == 0);
            }
        }
    }
    while step < m
        invariant
            m == t@.len(),
            1 <= step <= m,
            used@.len() == m,
            order == visit_order(t@, step as nat),
            order.len() == step,
            forall|k: int| 0 <= k < m ==> (#[trigger] used@[k] <==> order.contains(k)),
            forall|k: int| 0 <= k < order.len() ==> 0 <= #[trigger] order[k] < m,
            current@.len() > 0,
            current@ == pieces(order.map_values(|i: int| t@[i])).last(),
            point_seqs(chains@) == keep_long(pieces(order.map_values(|i: int| t@[i])).drop_last()),
        decreases m - step,
    {
        let ghost path = order.map_values(|i: int| t@[i]);
        let ghost pc = pieces(path);
        proof {
            lemma_pieces_nonempty(path);
            assert(path.last() == t@[order.last()]);
            assert(pc.last().last() == path.last()) by {
                lemma_pieces_last(path);
            }
        }
        let last = current[current.len() - 1];
        let j = nearest_unused(t, &used, last, Ghost(order));
        let d = squared_distance(last, t[j]);
        let ghost npath = path.push(t@[j as int]);
        proof {
            lemma_visit_order_len(t@, (step + 1) as nat);
            lemma_nearest_is(t@, order, j as int);
            assert(visit_order(t@, (step + 1) as nat) == order.push(j as int));
            assert(order.push(j as int).map_values(|i: int| t@[i]) =~= npath);
            assert(npath.drop_last() =~= path);
            assert(npath[npath.len() - 2] == last);
        }
        if d > 10000 {
            if current.len() >= 2 {
                let ghost cur = current@;
                let ghost ch = chains@;
                chains.push(current);
                proof {
                    assert(point_seqs(chains@) =~= point_seqs(ch).push(cur));
                    assert(pc.drop_last().push(pc.last()) =~= pc);
                }
            } else {
                proof {
                    assert(pc.drop_last().push(pc.last()) =~= pc);
                }
            }
            current = Vec::new();
            current.push(t[j]);
            proof {
                assert(pieces(npath) == pc.push(seq![t@[j as int]]));
                assert(pieces(npath).drop_last() =~= pc);
                assert(current@ =~= seq![t@[j as int]]);
            }
        } else {
            current.push(t[j]);
            proof {
                assert(pieces(npath) == pc.update(pc.len() - 1, pc.last().push(t@[j as int])));
                assert(pieces(npath).drop_last() =~= pc.drop_last());
            }
        }
        let ghost old_used = used@;
        let ghost old_order = order;
        used.set(j, true);
        proof {
            order = order.push(j as int);
            assert forall|k: int| 0 <= k < m implies (#[trigger] used@[k] <==> order.contains(k)) by {
                if k == j {
                    assert(order[order.len() - 1] == k);
                } else {
                    assert(used@[k] == old_used[k]);
                    if order.contains(k) {
                        let i = choose|i: int| 0 <= i < order.len() && order[i] == k;
                        assert(i < old_order.len());
                        assert(old_order[i] == k);
                    }
                    if old_order.contains(k) {
                        let i = choose|i: int| 0 <= i < old_order.len() && old_order[i] == k;
                        assert(order[i] == k);
                    }
                }
            }
        }
        step = step + 1;
    }
    let ghost path = order.map_values(|i: int| t@[i]);
    proof {
        assert(path =~= walk(t@));
        lemma_pieces_nonempty(path);
    }
    if current.len() >= 2 {
        let ghost ch = chains@;
        let ghost cur = current@;
        chains.push(current);
        proof {
            let pc = pieces(path);
            assert(pc.drop_last().push(pc.last()) =~= pc);
            assert(point_seqs(chains@) =~= point_seqs(ch).push(cur));
        }
    } else {
        proof {
            let pc = pieces(path);
            assert(pc.drop_last().push(pc.last()) =~= pc);
        }
    }
    chains
}

/// The nearest unvisited point is unique.
proof fn lemma_nearest_is(t: Seq<(u32, u32)>, visited: Seq<int>, j: int)
    requires
        is_nearest(t, visited, j),
    ensures
        nearest(t, visited) == j,
{
    let k = nearest(t, visited);
    assert(is_nearest(t, visited, k));
    if k < j {
        assert(dist2(t[j], t[visited.last()]) < dist2(t[k], t[visited.last()]));
    } else if j < k {
        assert(dist2(t[k], t[visited.last()]) < dist2(t[j], t[visited.last()]));
    }
}

/// The last piece of a non-empty walk ends with the walk's last point.
proof fn lemma_pieces_last(path: Seq<(u32, u32)>)
    requires
        path.len() >= 1,
    ensures
        pieces(path).len() >= 1,
        pieces(path).last().len() >= 1,
        pieces(path).last().last() == path.last(),
    decreases path.len(),
{
    if path.len() > 1 {
        lemma_pieces_last(path.drop_last());
    }
}

/// Orders the pixels of a curve into chains (see `pixel_chains`).
pub fn build_pixel_chains(pixels: &[(u32, u32)]) -> (r: Vec<Vec<(u32, u32)>>)
    ensures
        point_seqs(r@) == pixel_chains(pixels@),
{
    if pixels.len() == 0 {
        proof {
            assert(point_seqs(Seq::<Vec<(u32, u32)>>::empty()) =~= Seq::empty());
        }
        return Vec::new();
    }
    if pixels.len() <= 2 {
        let mut all: Vec<(u32, u32)> = Vec::new();
        let mut k: usize = 0;
        while k < pixels.len()
            invariant
                k <= pixels@.len(),
                all@ == pixels@.take(k as int),
            decreases pixels@.len() - k,
        {
            all.push(pixels[k]);
            proof {
                assert(pixels@.take(k + 1) =~= pixels@.take(k as int).push(pixels@[k as int]));
            }
            k = k + 1;
        }
        let mut r: Vec<Vec<(u32, u32)>> = Vec::new();
        r.push(all);
        proof {
            assert(pixels@.take(pixels@.len() as int) =~= pixels@);
            assert(point_seqs(r@) =~= seq![pixels@]);
        }
        return r;
    }
    let t = thin_columns(pixels);
    if t.len() <= 2 {
        let mut r: Vec<Vec<(u32, u32)>> = Vec::new();
        r.push(t);
        proof {
            assert(point_seqs(r@) =~= seq![thin_points(pixels@)]);
        }
        return r;
    }
    let chains = walk_chains(&t);
    if chains.len() == 0 {
        let mut r: Vec<Vec<(u32, u32)>> = Vec::new();
        r.push(t);
        proof {
            assert(point_seqs(r@) =~= seq![thin_points(pixels@)]);
        }
        return r;
    }
    chains
}

} // verus!

verus! {

/// Number of pixels of `ps` for which `f` holds.
pub open spec fn count_where(ps: Seq<(u32, u32)>, f: spec_fn((u32, u32)) -> bool) -> nat
    decreases ps.len(),
{
    if ps.len() == 0 {
        0
    } else {
        count_where(ps.drop_last(), f) + if f(ps.last()) { 1nat } else { 0nat }
    }
}

/// Counting pixels depends only on the multiset of pixels.
proof fn lemma_count_where_multiset(ps: Seq<(u32, u32)>, f: spec_fn((u32, u32)) -> bool)
    ensures
        count_where(ps, f) == ps.to_multiset().filter(f).len(),
    decreases ps.len(),
{
    broadcast use vstd::multiset::group_multiset_axioms, vstd::multiset::group_multiset_properties;

    if ps.len() == 0 {
        ps.to_multiset_ensures();
        assert(ps.to_multiset().filter(f) =~= vstd::multiset::Multiset::empty());
    } else {
        let q = ps.drop_last();
        let p = ps.last();
        lemma_count_where_multiset(q, f);
        q.to_multiset_ensures();
        assert(q.push(p) == ps);
        let m = q.to_multiset();
        if f(p) {
            assert(m.insert(p).filter(f) =~= m.filter(f).insert(p));
        } else {
            assert(m.insert(p).filter(f) =~= m.filter(f));
        }
    }
}

proof fn lemma_column_counts(ps: Seq<(u32, u32)>, x: u32, y: u32)
    ensures
        ys_at(ps, x).len() == count_where(ps, |p: (u32, u32)| p.0 == x),
        count_below(ys_at(ps, x), y) == count_where(ps, |p: (u32, u32)| p.0 == x && p.1 < y),
        count_upto(ys_at(ps, x), y) == count_where(ps, |p: (u32, u32)| p.0 == x && p.1 <= y),
    decreases ps.len(),
{
    if ps.len() > 0 {
        let q = ps.drop_last();
        lemma_column_counts(q, x, y);
        lemma_ys_at_push(q, ps.last(), x);
        assert(q.push(ps.last()) == ps);
        if ps.last().0 == x {
            assert(ys_at(ps, x).drop_last() == ys_at(q, x));
        }
    }
}

/// A non-empty list of rows has a middle value.
proof fn lemma_median_exists(ys: Seq<u32>, y0: u32)
    requires
        ys.len() > 0,
        count_below(ys, y0) <= ys.len() / 2,
    ensures
        exists|y: u32| is_median(ys, y),
    decreases u32::MAX - y0,
{
    if count_upto(ys, y0) > ys.len() / 2 {
        assert(is_median(ys, y0));
    } else {
        lemma_count_all(ys);
        assert(y0 < u32::MAX);
        lemma_below_is_upto_prev(ys, (y0 + 1) as u32);
        lemma_median_exists(ys, (y0 + 1) as u32);
    }
}

/// Two pixel lists with the same pixels, counted with multiplicity, thin to the same points.
proof fn lemma_thin_from_permutation(ps: Seq<(u32, u32)>, qs: Seq<(u32, u32)>, x0: int)
    requires
        ps.to_multiset() == qs.to_multiset(),
        0 <= x0,
    ensures
        thin_from(ps, x0) == thin_from(qs, x0),
    decreases u32::MAX + 1 - x0,
{
    if x0 <= u32::MAX {
        lemma_thin_from_permutation(ps, qs, x0 + 1);
        let x = x0 as u32;
        let a = ys_at(ps, x);
        let b = ys_at(qs, x);
        lemma_column_counts(ps, x, 0);
        lemma_column_counts(qs, x, 0);
        lemma_count_where_multiset(ps, |p: (u32, u32)| p.0 == x);
        lemma_count_where_multiset(qs, |p: (u32, u32)| p.0 == x);
        if a.len() > 0 {
            assert forall|y: u32| is_median(a, y) <==> is_median(b, y) by {
                lemma_column_counts(ps, x, y);
                lemma_column_counts(qs, x, y);
                lemma_count_where_multiset(ps, |p: (u32, u32)| p.0 == x && p.1 < y);
                lemma_count_where_multiset(qs, |p: (u32, u32)| p.0 == x && p.1 < y);
                lemma_count_where_multiset(ps, |p: (u32, u32)| p.0 == x && p.1 <= y);
                lemma_count_where_multiset(qs, |p: (u32, u32)| p.0 == x && p.1 <= y);
            }
            lemma_below_is_upto_prev(a, 0);
            lemma_below_is_upto_prev(b, 0);
            lemma_median_exists(a, 0);
            lemma_median_exists(b, 0);
            let ma = median_y(ps, x);
            let mb = median_y(qs, x);
            assert(is_median(a, ma));
            assert(is_median(b, mb));
            assert(is_median(a, mb));
            lemma_median_unique(a, ma, mb);
        }
    }
}

/// The chains depend only on the pixels, not on the order in which they are listed: two lists
/// of more than two pixels that hold the same pixels the same number of times give the same
/// chains.
pub proof fn law_chains_ignore_pixel_order(ps: Seq<(u32, u32)>, qs: Seq<(u32, u32)>)
    requires
        ps.len() > 2,
        ps.to_multiset() == qs.to_multiset(),
    ensures
        pixel_chains(ps) == pixel_chains(qs),
{
    ps.to_multiset_ensures();
    qs.to_multiset_ensures();
    lemma_thin_from_permutation(ps, qs, 0);
}

} // verus!
