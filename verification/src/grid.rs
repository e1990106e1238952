//! Pixel grids, 8-connectivity and connected components.
//!
//! A grid of `w` by `h` pixels is stored row-major: the pixel `(x, y)` lives at
//! index `y * w + x`.  Connected components are found by a breadth-first search
//! that labels every pixel it reaches.
use vstd::prelude::*;

verus! {

/// The pixel `(x, y)` lies on a `w` by `h` grid.
pub open spec fn in_bounds(p: (int, int), w: int, h: int) -> bool {
    0 <= p.0 < w && 0 <= p.1 < h
}

/// Row-major index of a pixel.
pub open spec fn cell(p: (int, int), w: int) -> int {
    p.1 * w + p.0
}

/// A machine pixel as a pair of integers.
pub open spec fn pt(p: (u32, u32)) -> (int, int) {
    (p.0 as int, p.1 as int)
}

/// The pixels of a sequence of machine pixels.
pub open spec fn pts(q: Seq<(u32, u32)>) -> Seq<(int, int)> {
    q.map_values(|p: (u32, u32)| pt(p))
}

/// The set of pixels whose flag is set in a row-major grid of flags.
pub open spec fn grid_set(g: Seq<bool>, w: int, h: int) -> Set<(int, int)> {
    Set::new(|p: (int, int)| in_bounds(p, w, h) && g[cell(p, w)])
}

/// Two distinct pixels touch, sideways or diagonally.
pub open spec fn adjacent(p: (int, int), q: (int, int)) -> bool {
    p != q && -1 <= p.0 - q.0 <= 1 && -1 <= p.1 - q.1 <= 1
}

/// Step `i` of a path moves to a touching pixel.
pub open spec fn step_ok(path: Seq<(int, int)>, i: int) -> bool {
    adjacent(path[i], path[i + 1])
}

/// A non-empty walk through pixels of `s`, each step to a touching pixel.
pub open spec fn is_path(s: Set<(int, int)>, path: Seq<(int, int)>) -> bool {
    &&& path.len() > 0
    &&& forall|i: int| 0 <= i < path.len() ==> s.contains(#[trigger] path[i])
    &&& forall|i: int| 0 <= i < path.len() - 1 ==> #[trigger] step_ok(path, i)
}

/// `q` can be reached from `p` by a walk inside `s`.
pub open spec fn connected(s: Set<(int, int)>, p: (int, int), q: (int, int)) -> bool {
    exists|path: Seq<(int, int)>| #[trigger] is_path(s, path) && path[0] == p && path.last() == q
}

/// The 8-connected component of `s` that holds `p`.
pub open spec fn component(s: Set<(int, int)>, p: (int, int)) -> Set<(int, int)> {
    Set::new(|q: (int, int)| connected(s, p, q))
}

/// Every pixel of `s` that touches a pixel of `v` is in `v`.
pub open spec fn closed_in(v: Set<(int, int)>, s: Set<(int, int)>) -> bool {
    forall|a: (int, int), b: (int, int)|
        v.contains(a) && s.contains(b) && #[trigger] adjacent(a, b) ==> v.contains(b)
}

pub proof fn lemma_cell_bounds(p: (int, int), w: int, h: int)
    requires
        in_bounds(p, w, h),
    ensures
        0 <= cell(p, w) < w * h,
        cell(p, w) + 1 <= w * h,
        p.1 * w <= w * h - w,
{
    assert(p.1 * w <= (h - 1) * w) by (nonlinear_arith)
        requires
            0 <= p.1 <= h - 1,
            0 <= w,
    ;
    assert((h - 1) * w == w * h - w) by (nonlinear_arith);
    assert(0 <= p.1 * w) by (nonlinear_arith)
        requires
            0 <= p.1,
            0 <= w,
    ;
}

pub proof fn lemma_cell_injective(p: (int, int), q: (int, int), w: int, h: int)
    requires
        in_bounds(p, w, h),
        in_bounds(q, w, h),
        cell(p, w) == cell(q, w),
    ensures
        p == q,
{
    if p.1 < q.1 {
        assert(p.1 * w + w <= q.1 * w) by (nonlinear_arith)
            requires
                p.1 < q.1,
                0 <= w,
        ;
    } else if q.1 < p.1 {
        assert(q.1 * w + w <= p.1 * w) by (nonlinear_arith)
            requires
                q.1 < p.1,
                0 <= w,
        ;
    }
}

pub proof fn lemma_connected_refl(s: Set<(int, int)>, p: (int, int))
    requires
        s.contains(p),
    ensures
        connected(s, p, p),
{
    let path = seq![p];
    assert(is_path(s, path));
}

pub proof fn lemma_connected_step(s: Set<(int, int)>, p: (int, int), q: (int, int), r: (int, int))
    requires
        connected(s, p, q),
        s.contains(r),
        adjacent(q, r),
    ensures
        connected(s, p, r),
{
    let path = choose|path: Seq<(int, int)>| #[trigger] is_path(s, path) && path[0] == p && path.last() == q;
    let np = path.push(r);
    assert forall|i: int| 0 <= i < np.len() - 1 implies #[trigger] step_ok(np, i) by {
        if i < path.len() - 1 {
            assert(step_ok(path, i));
        }
    }
    assert(is_path(s, np));
}

pub proof fn lemma_connected_symm(s: Set<(int, int)>, p: (int, int), q: (int, int))
    requires
        connected(s, p, q),
    ensures
        connected(s, q, p),
{
    let path = choose|path: Seq<(int, int)>| #[trigger] is_path(s, path) && path[0] == p && path.last() == q;
    let rp = path.reverse();
    assert forall|i: int| 0 <= i < rp.len() - 1 implies #[trigger] step_ok(rp, i) by {
        let j = path.len() - 2 - i;
        assert(step_ok(path, j));
    }
    assert forall|i: int| 0 <= i < rp.len() implies s.contains(#[trigger] rp[i]) by {
        assert(s.contains(path[path.len() - 1 - i]));
    }
    assert(is_path(s, rp));
}

pub proof fn lemma_connected_trans(s: Set<(int, int)>, p: (int, int), q: (int, int), r: (int, int))
    requires
        connected(s, p, q),
        connected(s, q, r),
    ensures
        connected(s, p, r),
{
    let a = choose|path: Seq<(int, int)>| #[trigger] is_path(s, path) && path[0] == p && path.last() == q;
    let b = choose|path: Seq<(int, int)>| #[trigger] is_path(s, path) && path[0] == q && path.last() == r;
    let c = a + b.drop_first();
    assert forall|i: int| 0 <= i < c.len() implies s.contains(#[trigger] c[i]) by {
        if i < a.len() {
            assert(s.contains(a[i]));
        } else {
            assert(s.contains(b[i - a.len() + 1]));
        }
    }
    assert forall|i: int| 0 <= i < c.len() - 1 implies #[trigger] step_ok(c, i) by {
        if i < a.len() - 1 {
            assert(step_ok(a, i));
        } else {
            assert(step_ok(b, i - a.len() + 1));
        }
    }
    assert(is_path(s, c));
}

/// The components of two connected pixels coincide.
pub proof fn lemma_component_same(s: Set<(int, int)>, p: (int, int), q: (int, int))
    requires
        connected(s, p, q),
    ensures
        component(s, p) == component(s, q),
{
    assert forall|r: (int, int)| component(s, p).contains(r) == component(s, q).contains(r) by {
        lemma_connected_symm(s, p, q);
        if connected(s, p, r) {
            lemma_connected_trans(s, q, p, r);
        }
        if connected(s, q, r) {
            lemma_connected_trans(s, p, q, r);
        }
    }
    assert(component(s, p) =~= component(s, q));
}

/// Pixels on a connected walk lie in `s`.
pub proof fn lemma_connected_in_set(s: Set<(int, int)>, p: (int, int), q: (int, int))
    requires
        connected(s, p, q),
    ensures
        s.contains(p),
        s.contains(q),
{
    let path = choose|path: Seq<(int, int)>| #[trigger] is_path(s, path) && path[0] == p && path.last() == q;
    assert(s.contains(path[0]));
    assert(s.contains(path[path.len() - 1]));
}

/// A set closed under touching inside `s` holds the whole component of each of its pixels.
pub proof fn lemma_closed_holds_component(
    s: Set<(int, int)>,
    v: Set<(int, int)>,
    start: (int, int),
    q: (int, int),
)
    requires
        closed_in(v, s),
        v.contains(start),
        connected(s, start, q),
    ensures
        v.contains(q),
{
    let path = choose|path: Seq<(int, int)>| #[trigger] is_path(s, path) && path[0] == start && path.last() == q;
    lemma_path_stays_in(s, v, path, path.len() - 1);
}

proof fn lemma_path_stays_in(s: Set<(int, int)>, v: Set<(int, int)>, path: Seq<(int, int)>, i: int)
    requires
        closed_in(v, s),
        is_path(s, path),
        v.contains(path[0]),
        0 <= i < path.len(),
    ensures
        v.contains(path[i]),
    decreases i,
{
    if i > 0 {
        lemma_path_stays_in(s, v, path, i - 1);
        assert(step_ok(path, i - 1));
        assert(s.contains(path[i]));
    }
}

/// Row-major index of an in-bounds pixel, computed without overflow.
pub fn cell_index(x: u32, y: u32, w: u32, h: u32) -> (i: usize)
    requires
        x < w,
        y < h,
        w as int * h as int <= usize::MAX,
    ensures
        i as int == cell((x as int, y as int), w as int),
        i < w as int * h as int,
{
    proof {
        lemma_cell_bounds((x as int, y as int), w as int, h as int);
    }
    (y as usize) * (w as usize) + (x as usize)
}

} // verus!

verus! {

/// Number of zero entries among the first `k` of `s`.
pub open spec fn zeros(s: Seq<usize>, k: int) -> nat
    decreases k,
{
    if k <= 0 {
        0
    } else {
        zeros(s, k - 1) + if s[k - 1] == 0 { 1nat } else { 0nat }
    }
}

proof fn lemma_zeros_update(s: Seq<usize>, i: int, v: usize, k: int)
    requires
        0 <= i < s.len(),
        0 <= k <= s.len(),
        s[i] == 0,
        v != 0,
    ensures
        zeros(s.update(i, v), k) == if k > i { zeros(s, k) - 1 } else { zeros(s, k) as int },
        k > i ==> zeros(s, k) >= 1,
    decreases k,
{
    if k > 0 {
        lemma_zeros_update(s, i, v, k - 1);
    }
}

/// Each labelled pixel of `s` shares its label with its whole component.
pub open spec fn labels_consistent(s: Set<(int, int)>, labels: Seq<usize>, w: int) -> bool {
    forall|p: (int, int), q: (int, int)|
        s.contains(p) && labels[cell(p, w)] != 0 && #[trigger] connected(s, p, q) ==> labels[cell(q, w)]
            == labels[cell(p, w)]
}

/// State of a breadth-first search that grows the component of `start` in grid `g`,
/// writing `tag` into `labels` (which held `old0` when the search began).
pub open spec fn bfs_inv(
    g: Seq<bool>,
    labels: Seq<usize>,
    q: Seq<(u32, u32)>,
    w: int,
    h: int,
    start: (int, int),
    tag: usize,
    old0: Seq<usize>,
) -> bool {
    let s = grid_set(g, w, h);
    let comp = component(s, start);
    &&& labels.len() == w * h
    &&& old0.len() == w * h
    &&& forall|i: int| 0 <= i < w * h ==> #[trigger] labels[i] <= tag
    &&& forall|i: int| 0 <= i < w * h ==> #[trigger] old0[i] < tag
    &&& forall|p: (int, int)| #[trigger] comp.contains(p) ==> old0[cell(p, w)] == 0
    &&& forall|j: int|
        0 <= j < q.len() ==> {
            &&& (#[trigger] q[j]).0 < w
            &&& q[j].1 < h
            &&& comp.contains(pt(q[j]))
            &&& labels[cell(pt(q[j]), w)] == tag
        }
    &&& pts(q).no_duplicates()
    &&& forall|p: (int, int)|
        in_bounds(p, w, h) && #[trigger] labels[cell(p, w)] == tag ==> pts(q).contains(p)
    &&& forall|p: (int, int)|
        in_bounds(p, w, h) && #[trigger] labels[cell(p, w)] != old0[cell(p, w)] ==> labels[cell(p, w)]
            == tag
}

proof fn lemma_pts_push(q: Seq<(u32, u32)>, p: (u32, u32))
    ensures
        pts(q.push(p)) == pts(q).push(pt(p)),
{
    assert(pts(q.push(p)) =~= pts(q).push(pt(p)));
}

/// Marks the pixel `(nx, ny)` and queues it, if it is a still unlabelled pixel of the grid set.
fn visit(
    g: &Vec<bool>,
    labels: &mut Vec<usize>,
    q: &mut Vec<(u32, u32)>,
    w: u32,
    h: u32,
    nx: i64,
    ny: i64,
    tag: usize,
    Ghost(start): Ghost<(int, int)>,
    Ghost(cur): Ghost<(int, int)>,
    Ghost(old0): Ghost<Seq<usize>>,
)
    requires
        w as int * h as int <= usize::MAX,
        g.len() == w * h,
        bfs_inv(g@, old(labels)@, old(q)@, w as int, h as int, start, tag, old0),
        component(grid_set(g@, w as int, h as int), start).contains(cur),
        adjacent(cur, (nx as int, ny as int)),
    ensures
        bfs_inv(g@, final(labels)@, final(q)@, w as int, h as int, start, tag, old0),
        old(q)@.len() <= final(q)@.len(),
        forall|j: int| 0 <= j < old(q)@.len() ==> final(q)@[j] == old(q)@[j],
        forall|i: int| 0 <= i < w * h && old(labels)@[i] == tag ==> final(labels)@[i] == tag,
        in_bounds((nx as int, ny as int), w as int, h as int) && grid_set(g@, w as int, h as int).contains(
            (nx as int, ny as int),
        ) ==> final(labels)@[cell((nx as int, ny as int), w as int)] == tag,
        zeros(final(labels)@, w * h) + final(q)@.len() == zeros(old(labels)@, w * h) + old(q)@.len(),
{
    let ghost s = grid_set(g@, w as int, h as int);
    let ghost comp = component(s, start);
    if 0 <= nx && nx < w as i64 && 0 <= ny && ny < h as i64 {
        let x = nx as u32;
        let y = ny as u32;
        let i = cell_index(x, y, w, h);
        let ghost p = (x as int, y as int);
        if g[i] && labels[i] == 0 {
            proof {
                assert(s.contains(p));
                assert(connected(s, start, cur));
                lemma_connected_step(s, start, cur, p);
                assert(comp.contains(p));
                lemma_zeros_update(labels@, i as int, tag, w * h);
                if pts(q@).contains(p) {
                    let j = choose|j: int| 0 <= j < pts(q@).len() && pts(q@)[j] == p;
                    assert(labels@[cell(pt(q@[j]), w as int)] == tag);
                }
                lemma_pts_push(q@, (x, y));
            }
            let ghost l0 = labels@;
            let ghost q0 = q@;
            labels.set(i, tag);
            q.push((x, y));
            proof {
                assert forall|r: (int, int)| in_bounds(r, w as int, h as int) && #[trigger] labels@[cell(r, w as int)] == tag
                    implies pts(q@).contains(r) by {
                    if r == p {
                        assert(pts(q@)[q0.len() as int] == p);
                    } else {
                        lemma_cell_bounds(r, w as int, h as int);
                        lemma_cell_bounds(p, w as int, h as int);
                        if cell(r, w as int) == cell(p, w as int) {
                            lemma_cell_injective(r, p, w as int, h as int);
                        }
                        assert(l0[cell(r, w as int)] == tag);
                        assert(pts(q0).contains(r));
                        let j = choose|j: int| 0 <= j < pts(q0).len() && pts(q0)[j] == r;
                        assert(pts(q@)[j] == r);
                    }
                }
                assert forall|j: int| 0 <= j < q@.len() implies {
                    &&& (#[trigger] q@[j]).0 < w
                    &&& q@[j].1 < h
                    &&& comp.contains(pt(q@[j]))
                    &&& labels@[cell(pt(q@[j]), w as int)] == tag
                } by {
                    if j < q0.len() {
                        assert(q@[j] == q0[j]);
                        lemma_cell_bounds(pt(q0[j]), w as int, h as int);
                    }
                }
                assert forall|r: (int, int)|
                    in_bounds(r, w as int, h as int) && #[trigger] labels@[cell(r, w as int)] != old0[cell(
                        r,
                        w as int,
                    )] implies labels@[cell(r, w as int)] == tag by {
                    lemma_cell_bounds(r, w as int, h as int);
                    if cell(r, w as int) != i as int {
                        assert(labels@[cell(r, w as int)] == l0[cell(r, w as int)]);
                    }
                }
            }
        } else if g[i] {
            proof {
                assert(s.contains(p));
                lemma_connected_step(s, start, cur, p);
                assert(comp.contains(p));
                lemma_cell_bounds(p, w as int, h as int);
                assert(old0[cell(p, w as int)] == 0);
            }
        }
    }
}

} // verus!

verus! {

/// Grows the 8-connected component of `start` inside the grid set of `g`,
/// writing `tag` into `labels` for each of its pixels, and returns its pixels
/// in the order they were reached (`start` first).
pub fn grow_component(
    g: &Vec<bool>,
    labels: &mut Vec<usize>,
    w: u32,
    h: u32,
    start: (u32, u32),
    tag: usize,
) -> (q: Vec<(u32, u32)>)
    requires
        w as int * h as int <= usize::MAX,
        g.len() == w * h,
        old(labels).len() == w * h,
        start.0 < w,
        start.1 < h,
        g@[cell(pt(start), w as int)],
        old(labels)@[cell(pt(start), w as int)] == 0,
        forall|i: int| 0 <= i < w * h ==> #[trigger] old(labels)@[i] < tag,
        labels_consistent(grid_set(g@, w as int, h as int), old(labels)@, w as int),
    ensures
        final(labels)@.len() == w * h,
        pts(q@).no_duplicates(),
        q@.len() > 0,
        q@[0] == start,
        forall|j: int| 0 <= j < q@.len() ==> (#[trigger] q@[j]).0 < w && q@[j].1 < h,
        forall|p: (int, int)|
            #[trigger] pts(q@).contains(p) <==> component(grid_set(g@, w as int, h as int), pt(start)).contains(p),
        forall|p: (int, int)|
            in_bounds(p, w as int, h as int) ==> #[trigger] final(labels)@[cell(p, w as int)] == if component(
                grid_set(g@, w as int, h as int),
                pt(start),
            ).contains(p) {
                tag
            } else {
                old(labels)@[cell(p, w as int)]
            },
        forall|i: int| 0 <= i < w * h ==> #[trigger] final(labels)@[i] <= tag,
        labels_consistent(grid_set(g@, w as int, h as int), final(labels)@, w as int),
{
    let ghost s = grid_set(g@, w as int, h as int);
    let ghost st = pt(start);
    let ghost comp = component(s, st);
    let ghost old0 = labels@;
    proof {
        assert(s.contains(st));
        lemma_connected_refl(s, st);
        assert forall|p: (int, int)| #[trigger] comp.contains(p) implies old0[cell(p, w as int)] == 0 by {
            lemma_connected_symm(s, st, p);
            lemma_connected_in_set(s, st, p);
            if old0[cell(p, w as int)] != 0 {
                assert(connected(s, p, st));
            }
        }
        lemma_cell_bounds(st, w as int, h as int);
    }
    let i0 = cell_index(start.0, start.1, w, h);
    labels.set(i0, tag);
    let mut q: Vec<(u32, u32)> = Vec::new();
    q.push(start);
    proof {
        lemma_zeros_update(old0, i0 as int, tag, w * h);
        assert(pts(q@) =~= seq![st]);
        assert forall|r: (int, int)| in_bounds(r, w as int, h as int) && #[trigger] labels@[cell(r, w as int)] == tag
            implies pts(q@).contains(r) by {
            lemma_cell_bounds(r, w as int, h as int);
            if cell(r, w as int) != i0 as int {
                assert(labels@[cell(r, w as int)] == old0[cell(r, w as int)]);
            } else {
                lemma_cell_injective(r, st, w as int, h as int);
                assert(pts(q@)[0] == st);
            }
        }
        assert forall|r: (int, int)|
            in_bounds(r, w as int, h as int) && #[trigger] labels@[cell(r, w as int)] != old0[cell(
                r,
                w as int,
            )] implies labels@[cell(r, w as int)] == tag by {
            lemma_cell_bounds(r, w as int, h as int);
        }
        assert(bfs_inv(g@, labels@, q@, w as int, h as int, st, tag, old0));
    }
    let mut head: usize = 0;
    while head < q.len()
        invariant
            w as int * h as int <= usize::MAX,
            g.len() == w * h,
            s == grid_set(g@, w as int, h as int),
            comp == component(s, st),
            st == pt(start),
            bfs_inv(g@, labels@, q@, w as int, h as int, st, tag, old0),
            0 <= head <= q@.len(),
            q@.len() > 0,
            q@[0] == start,
            forall|j: int, b: (int, int)|
                0 <= j < head && s.contains(b) && #[trigger] adjacent(pt(q@[j]), b) ==> labels@[cell(b, w as int)]
                    == tag,
        decreases zeros(labels@, w * h) + q@.len() - head,
    {
        let cur = q[head];
        let ghost c = pt(cur);
        let ghost q_before = q@;
        let ghost l_before = labels@;
        let x = cur.0 as i64;
        let y = cur.1 as i64;
        proof {
            assert(comp.contains(pt(q@[head as int])));
        }
        visit(g, labels, &mut q, w, h, x - 1, y - 1, tag, Ghost(st), Ghost(c), Ghost(old0));
        visit(g, labels, &mut q, w, h, x, y - 1, tag, Ghost(st), Ghost(c), Ghost(old0));
        visit(g, labels, &mut q, w, h, x + 1, y - 1, tag, Ghost(st), Ghost(c), Ghost(old0));
        visit(g, labels, &mut q, w, h, x - 1, y, tag, Ghost(st), Ghost(c), Ghost(old0));
        visit(g, labels, &mut q, w, h, x + 1, y, tag, Ghost(st), Ghost(c), Ghost(old0));
        visit(g, labels, &mut q, w, h, x - 1, y + 1, tag, Ghost(st), Ghost(c), Ghost(old0));
        visit(g, labels, &mut q, w, h, x, y + 1, tag, Ghost(st), Ghost(c), Ghost(old0));
        visit(g, labels, &mut q, w, h, x + 1, y + 1, tag, Ghost(st), Ghost(c), Ghost(old0));
        proof {
            assert forall|j: int, b: (int, int)|
                0 <= j < head + 1 && s.contains(b) && #[trigger] adjacent(pt(q@[j]), b) implies labels@[cell(
                    b,
                    w as int,
                )] == tag by {
                assert(q@[j] == q_before[j]);
                lemma_cell_bounds(b, w as int, h as int);
                if j < head {
                    assert(l_before[cell(b, w as int)] == tag);
                } else {
                    assert(pt(q@[j]) == c);
                }
            }
        }
        head = head + 1;
    }
    proof {
        let v = Set::new(|p: (int, int)| pts(q@).contains(p));
        assert forall|a: (int, int), b: (int, int)|
            v.contains(a) && s.contains(b) && #[trigger] adjacent(a, b) implies v.contains(b) by {
            let j = choose|j: int| 0 <= j < pts(q@).len() && pts(q@)[j] == a;
            assert(adjacent(pt(q@[j]), b));
            lemma_cell_bounds(b, w as int, h as int);
        }
        assert(v.contains(st)) by {
            assert(pts(q@)[0] == st);
        }
        assert forall|p: (int, int)| #[trigger] pts(q@).contains(p) <==> comp.contains(p) by {
            if comp.contains(p) {
                lemma_closed_holds_component(s, v, st, p);
            }
            if pts(q@).contains(p) {
                let j = choose|j: int| 0 <= j < pts(q@).len() && pts(q@)[j] == p;
                assert(comp.contains(pt(q@[j])));
            }
        }
        assert forall|p: (int, int)|
            in_bounds(p, w as int, h as int) implies #[trigger] labels@[cell(p, w as int)] == if comp.contains(p) {
                tag
            } else {
                old0[cell(p, w as int)]
            } by {
            if comp.contains(p) {
                assert(pts(q@).contains(p));
                let j = choose|j: int| 0 <= j < pts(q@).len() && pts(q@)[j] == p;
                assert(pts(q@)[j] == pt(q@[j]));
                let qj = q@[j];
                assert(labels@[cell(pt(qj), w as int)] == tag);
            } else {
                if labels@[cell(p, w as int)] != old0[cell(p, w as int)] {
                    assert(pts(q@).contains(p));
                }
            }
        }
        assert forall|p: (int, int), r: (int, int)|
            s.contains(p) && labels@[cell(p, w as int)] != 0 && #[trigger] connected(s, p, r) implies labels@[cell(
                r,
                w as int,
            )] == labels@[cell(p, w as int)] by {
            lemma_connected_in_set(s, p, r);
            if comp.contains(p) {
                lemma_connected_trans(s, st, p, r);
            } else {
                if comp.contains(r) {
                    lemma_connected_symm(s, p, r);
                    lemma_connected_trans(s, st, r, p);
                }
                assert(old0[cell(p, w as int)] != 0);
            }
        }
    }
    q
}

} // verus!

verus! {

/// A vector of `n` copies of `v`.
pub fn filled<T: Copy>(n: usize, v: T) -> (r: Vec<T>)
    ensures
        r@.len() == n,
        forall|i: int| 0 <= i < n ==> #[trigger] r@[i] == v,
{
    let mut r: Vec<T> = Vec::new();
    let mut k: usize = 0;
    while k < n
        invariant
            k <= n,
            r@.len() == k,
            forall|i: int| 0 <= i < k ==> #[trigger] r@[i] == v,
        decreases n - k,
    {
        r.push(v);
        k = k + 1;
    }
    r
}

} // verus!
