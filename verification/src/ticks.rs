//! The axis stroke along a chosen line and the tick marks that stick out of it.
use vstd::prelude::*;
use crate::grid::{
    cell, cell_index, component, connected, filled, grid_set, grow_component, in_bounds, labels_consistent,
    lemma_cell_bounds, lemma_connected_in_set, lemma_connected_refl, lemma_connected_symm, lemma_connected_trans,
    pt, pts,
};

verus! {

/// Coordinate of `p` along the axis line (x for a horizontal axis, y for a vertical one).
pub open spec fn along(p: (int, int), hz: bool) -> int {
    if hz {
        p.0
    } else {
        p.1
    }
}

/// Coordinate of `p` across the axis line.
pub open spec fn across(p: (int, int), hz: bool) -> int {
    if hz {
        p.1
    } else {
        p.0
    }
}

/// Distance of `p` from the axis line at `line`.
pub open spec fn offset(p: (int, int), line: int, hz: bool) -> int {
    let d = across(p, hz) - line;
    if d >= 0 {
        d
    } else {
        -d
    }
}

/// Some pixel of `c` lies on the axis line or right next to it.
pub open spec fn touches_line(c: Set<(int, int)>, line: int, hz: bool) -> bool {
    exists|p: (int, int)| #[trigger] c.contains(p) && offset(p, line, hz) <= 1
}

/// `a` is the smallest along-coordinate of the pixels of `c`.
pub open spec fn is_along_min(c: Set<(int, int)>, hz: bool, a: int) -> bool {
    &&& exists|p: (int, int)| #[trigger] c.contains(p) && along(p, hz) == a
    &&& forall|p: (int, int)| #[trigger] c.contains(p) ==> along(p, hz) >= a
}

/// `a` is the largest along-coordinate of the pixels of `c`.
pub open spec fn is_along_max(c: Set<(int, int)>, hz: bool, a: int) -> bool {
    &&& exists|p: (int, int)| #[trigger] c.contains(p) && along(p, hz) == a
    &&& forall|p: (int, int)| #[trigger] c.contains(p) ==> along(p, hz) <= a
}

/// Smallest along-coordinate of the pixels of `c`.
pub open spec fn along_min(c: Set<(int, int)>, hz: bool) -> int {
    choose|a: int| is_along_min(c, hz, a)
}

/// Largest along-coordinate of the pixels of `c`.
pub open spec fn along_max(c: Set<(int, int)>, hz: bool) -> int {
    choose|a: int| is_along_max(c, hz, a)
}

/// Extent of `c` along the axis line.
pub open spec fn span(c: Set<(int, int)>, hz: bool) -> int {
    along_max(c, hz) - along_min(c, hz)
}

/// `r` is the first pixel, in row-major order, of its stroke (component) in `s`.
pub open spec fn is_stroke_start(s: Set<(int, int)>, r: (int, int), w: int) -> bool {
    &&& s.contains(r)
    &&& forall|p: (int, int)| #[trigger] component(s, r).contains(p) ==> cell(r, w) <= cell(p, w)
}

/// `r` starts the stroke of `s` chosen as the axis body: among the strokes that touch the
/// line it has the largest span, and the earliest start among equal spans.
pub open spec fn is_body_start(s: Set<(int, int)>, w: int, line: int, hz: bool, r: (int, int)) -> bool {
    &&& is_stroke_start(s, r, w)
    &&& touches_line(component(s, r), line, hz)
    &&& forall|r2: (int, int)|
        #[trigger] is_stroke_start(s, r2, w) && touches_line(component(s, r2), line, hz) ==> span(component(s, r2), hz)
            <= span(component(s, r), hz) && (span(component(s, r2), hz) == span(component(s, r), hz) ==> cell(r, w)
            <= cell(r2, w))
}

/// The stroke of `s` that forms the axis body along `line` (empty when no stroke touches the line).
pub open spec fn axis_body(s: Set<(int, int)>, w: int, line: int, hz: bool) -> Set<(int, int)> {
    if exists|r: (int, int)| is_body_start(s, w, line, hz, r) {
        component(s, choose|r: (int, int)| is_body_start(s, w, line, hz, r))
    } else {
        Set::empty()
    }
}

/// Some pixel of `c` at along-coordinate `t` sticks out at least 2 pixels from the line.
pub open spec fn sticks_out(c: Set<(int, int)>, line: int, hz: bool, t: int) -> bool {
    exists|p: (int, int)| #[trigger] c.contains(p) && along(p, hz) == t && offset(p, line, hz) >= 2
}

/// `a..=b` is a maximal run of protruding positions, at most 12 wide: a tick mark.
pub open spec fn is_tick_run(c: Set<(int, int)>, line: int, hz: bool, a: int, b: int) -> bool {
    &&& a <= b
    &&& b - a + 1 <= 12
    &&& forall|t: int| a <= t <= b ==> #[trigger] sticks_out(c, line, hz, t)
    &&& !sticks_out(c, line, hz, a - 1)
    &&& !sticks_out(c, line, hz, b + 1)
}

/// `ticks` lists, in increasing order, the centres of the tick marks of `c`.
pub open spec fn ticks_of(c: Set<(int, int)>, line: int, hz: bool, ticks: Seq<int>) -> bool {
    &&& forall|i: int, j: int| 0 <= i < j < ticks.len() ==> ticks[i] < ticks[j]
    &&& forall|t: int|
        #[trigger] ticks.contains(t) <==> exists|a: int, b: int| #[trigger] is_tick_run(c, line, hz, a, b) && t == (a + b) / 2
}

/// Machine positions as integers.
pub open spec fn ints(s: Seq<u32>) -> Seq<int> {
    s.map_values(|u: u32| u as int)
}

/// Centres of the maximal runs of set flags no wider than 12, given the flags `st`
/// (`st[t]` tells whether position `t` sticks out of the line).
fn tick_centres(st: &Vec<bool>, Ghost(c): Ghost<Set<(int, int)>>, Ghost(line): Ghost<int>, hz: bool) -> (r: Vec<u32>)
    requires
        st@.len() < u32::MAX,
        forall|t: int| #[trigger] sticks_out(c, line, hz, t) <==> 0 <= t < st@.len() && st@[t],
    ensures
        ticks_of(c, line, hz, ints(r@)),
        forall|i: int| 0 <= i < r@.len() ==> #[trigger] r@[i] < st@.len(),
{
    let ghost so = |t: int| sticks_out(c, line, hz, t);
    let n = st.len();
    let mut ticks: Vec<u32> = Vec::new();
    let mut in_run = false;
    let mut rs: usize = 0;
    let mut k: usize = 0;
    proof {
        assert forall|t: int| #[trigger] ints(ticks@).contains(t) <==> exists|a: int, b: int|
            #[trigger] is_tick_run(c, line, hz, a, b) && b + 1 < k && t == (a + b) / 2 by {
            if exists|a: int, b: int| #[trigger] is_tick_run(c, line, hz, a, b) && b + 1 < k && t == (a + b) / 2 {
                let (a, b) = choose|a: int, b: int| #[trigger] is_tick_run(c, line, hz, a, b) && b + 1 < k && t == (a + b) / 2;
                assert(sticks_out(c, line, hz, b));
            }
        }
    }
    while k <= n
        invariant
            n == st@.len(),
            n < u32::MAX,
            forall|t: int| #[trigger] sticks_out(c, line, hz, t) <==> 0 <= t < st@.len() && st@[t],
            0 <= k <= n + 1,
            in_run ==> rs < k && !sticks_out(c, line, hz, rs - 1) && forall|t: int| rs <= t < k ==> #[trigger] sticks_out(c, line, hz, t),
            !in_run && k > 0 ==> !sticks_out(c, line, hz, k - 1),
            forall|i: int, j: int| 0 <= i < j < ticks@.len() ==> ticks@[i] < ticks@[j],
            forall|i: int| 0 <= i < ticks@.len() ==> #[trigger] ticks@[i] < n,
            in_run ==> forall|i: int| 0 <= i < ticks@.len() ==> #[trigger] ticks@[i] < rs,
            !in_run ==> forall|i: int| 0 <= i < ticks@.len() ==> #[trigger] ticks@[i] < k,
            forall|t: int|
                #[trigger] ints(ticks@).contains(t) <==> exists|a: int, b: int|
                    #[trigger] is_tick_run(c, line, hz, a, b) && b + 1 < k && t == (a + b) / 2,
        decreases n + 1 - k,
    {
        let flag = k < n && st[k];
        proof {
            assert(flag == sticks_out(c, line, hz, k as int));
        }
        let ghost old_ticks = ticks@;
        let ghost was_in = in_run;
        if flag {
            if !in_run {
                in_run = true;
                rs = k;
            }
        } else if in_run {
            let e = k - 1;
            if e - rs + 1 <= 12 {
                ticks.push(((rs as u64 + e as u64) / 2) as u32);
            }
            in_run = false;
        }
        proof {
            let tv = ints(ticks@);
            let ov = ints(old_ticks);
            assert forall|t: int| #[trigger] tv.contains(t) <==> exists|a: int, b: int|
                #[trigger] is_tick_run(c, line, hz, a, b) && b + 1 < k + 1 && t == (a + b) / 2 by {
                if tv.contains(t) {
                    let i = choose|i: int| 0 <= i < tv.len() && tv[i] == t;
                    if i < ov.len() {
                        assert(ov[i] == t);
                        assert(ov.contains(t));
                    } else {
                        let a = rs as int;
                        let b = k - 1;
                        assert(is_tick_run(c, line, hz, a, b));
                    }
                }
                if exists|a: int, b: int| #[trigger] is_tick_run(c, line, hz, a, b) && b + 1 < k + 1 && t == (a + b) / 2 {
                    let (a, b) = choose|a: int, b: int| #[trigger] is_tick_run(c, line, hz, a, b) && b + 1 < k + 1 && t == (a + b) / 2;
                    if b + 1 < k {
                        assert(ov.contains(t));
                        let i = choose|i: int| 0 <= i < ov.len() && ov[i] == t;
                        assert(tv[i] == t);
                    } else {
                        assert(sticks_out(c, line, hz, b));
                        assert(was_in);
                        if a < rs {
                            assert(sticks_out(c, line, hz, rs - 1));
                        }
                        if rs < a {
                            assert(sticks_out(c, line, hz, a - 1));
                        }
                        assert(tv[tv.len() - 1] == t);
                    }
                }
            }
        }
        k = k + 1;
    }
    proof {
        let tv = ints(ticks@);
        assert forall|t: int| #[trigger] tv.contains(t) <==> exists|a: int, b: int|
            #[trigger] is_tick_run(c, line, hz, a, b) && t == (a + b) / 2 by {
            if exists|a: int, b: int| #[trigger] is_tick_run(c, line, hz, a, b) && t == (a + b) / 2 {
                let (a, b) = choose|a: int, b: int| #[trigger] is_tick_run(c, line, hz, a, b) && t == (a + b) / 2;
                assert(sticks_out(c, line, hz, b));
            }
        }
    }
    ticks
}

} // verus!

verus! {

fn u_offset(a: u32, line: u32) -> (r: u32)
    ensures
        r == (if a >= line { a - line } else { line - a }),
{
    if a >= line {
        a - line
    } else {
        line - a
    }
}

/// Whether a stroke touches the line, and its smallest and largest along-coordinates.
pub(crate) fn stroke_extent(
    q: &Vec<(u32, u32)>,
    line: u32,
    hz: bool,
    Ghost(c): Ghost<Set<(int, int)>>,
) -> (r: (bool, u32, u32))
    requires
        q@.len() > 0,
        forall|p: (int, int)| #[trigger] pts(q@).contains(p) <==> c.contains(p),
    ensures
        r.0 == touches_line(c, line as int, hz),
        is_along_min(c, hz, r.1 as int),
        is_along_max(c, hz, r.2 as int),
        r.1 <= r.2,
{
    let p0 = q[0];
    let mut lo = if hz { p0.0 } else { p0.1 };
    let mut hi = lo;
    let o0 = u_offset(if hz { p0.1 } else { p0.0 }, line);
    let mut touch = o0 <= 1;
    let mut j: usize = 1;
    proof {
        assert(pts(q@)[0] == pt(p0));
        assert(offset(pt(q@[0]), line as int, hz) == o0);
        assert(along(pt(q@[0]), hz) == lo);
    }
    while j < q.len()
        invariant
            1 <= j <= q@.len(),
            lo <= hi,
            exists|k: int| 0 <= k < j && along(pt(q@[k]), hz) == lo,
            exists|k: int| 0 <= k < j && along(pt(q@[k]), hz) == hi,
            forall|k: int| 0 <= k < j ==> lo <= #[trigger] along(pt(q@[k]), hz) <= hi,
            touch == exists|k: int| 0 <= k < j && #[trigger] offset(pt(q@[k]), line as int, hz) <= 1,
        decreases q@.len() - j,
    {
        let p = q[j];
        let a = if hz { p.0 } else { p.1 };
        let o = u_offset(if hz { p.1 } else { p.0 }, line);
        if a < lo {
            lo = a;
        }
        if a > hi {
            hi = a;
        }
        proof {
            assert(along(pt(q@[j as int]), hz) == a);
            assert(offset(pt(q@[j as int]), line as int, hz) == o);
        }
        touch = touch || o <= 1;
        j = j + 1;
    }
    proof {
        assert forall|p: (int, int)| #[trigger] c.contains(p) implies lo <= along(p, hz) <= hi by {
            assert(pts(q@).contains(p));
            let k = choose|k: int| 0 <= k < pts(q@).len() && pts(q@)[k] == p;
            assert(pts(q@)[k] == pt(q@[k]));
        }
        let klo = choose|k: int| 0 <= k < q@.len() && along(pt(q@[k]), hz) == lo;
        let khi = choose|k: int| 0 <= k < q@.len() && along(pt(q@[k]), hz) == hi;
        assert(pts(q@)[klo] == pt(q@[klo]));
        assert(pts(q@)[khi] == pt(q@[khi]));
        assert(pts(q@).contains(pt(q@[klo])));
        assert(pts(q@).contains(pt(q@[khi])));
        assert(c.contains(pt(q@[klo])));
        assert(c.contains(pt(q@[khi])));
        if touch {
            let k = choose|k: int| 0 <= k < q@.len() && #[trigger] offset(pt(q@[k]), line as int, hz) <= 1;
            assert(pts(q@)[k] == pt(q@[k]));
            assert(pts(q@).contains(pt(q@[k])));
            assert(c.contains(pt(q@[k])));
        }
        if touches_line(c, line as int, hz) {
            let p = choose|p: (int, int)| #[trigger] c.contains(p) && offset(p, line as int, hz) <= 1;
            assert(pts(q@).contains(p));
            let k = choose|k: int| 0 <= k < pts(q@).len() && pts(q@)[k] == p;
            assert(pts(q@)[k] == pt(q@[k]));
            assert(offset(pt(q@[k]), line as int, hz) <= 1);
        }
    }
    (touch, lo, hi)
}

pub proof fn lemma_along_min_unique(c: Set<(int, int)>, hz: bool, a: int)
    requires
        is_along_min(c, hz, a),
    ensures
        along_min(c, hz) == a,
{
    let b = along_min(c, hz);
    assert(is_along_min(c, hz, b));
    let p = choose|p: (int, int)| #[trigger] c.contains(p) && along(p, hz) == a;
    let q = choose|p: (int, int)| #[trigger] c.contains(p) && along(p, hz) == b;
}

pub proof fn lemma_along_max_unique(c: Set<(int, int)>, hz: bool, a: int)
    requires
        is_along_max(c, hz, a),
    ensures
        along_max(c, hz) == a,
{
    let b = along_max(c, hz);
    assert(is_along_max(c, hz, b));
    let p = choose|p: (int, int)| #[trigger] c.contains(p) && along(p, hz) == a;
    let q = choose|p: (int, int)| #[trigger] c.contains(p) && along(p, hz) == b;
}

} // verus!

verus! {

/// Labels of the scan that picks the axis body: each stroke labelled alike, labels below `tag`,
/// labels only on pixels of `s`, and `s` inside the grid.
#[verifier::opaque]
pub open spec fn scan_labels_ok(s: Set<(int, int)>, labels: Seq<usize>, w: int, h: int, tag: usize) -> bool {
    &&& labels.len() == w * h
    &&& tag > 0
    &&& forall|i: int| 0 <= i < w * h ==> #[trigger] labels[i] < tag
    &&& labels_consistent(s, labels, w)
    &&& forall|p: (int, int)| in_bounds(p, w, h) && #[trigger] labels[cell(p, w)] != 0 ==> s.contains(p)
    &&& forall|p: (int, int)| #[trigger] s.contains(p) ==> in_bounds(p, w, h)
}

/// Every pixel of `s` before row-major position `pos` is labelled, and every labelled pixel
/// is reached from a pixel before `pos`.
#[verifier::opaque]
pub open spec fn scan_done_before(s: Set<(int, int)>, labels: Seq<usize>, w: int, h: int, pos: int) -> bool {
    &&& forall|p: (int, int)|
        in_bounds(p, w, h) && cell(p, w) < pos && s.contains(p) ==> #[trigger] labels[cell(p, w)] != 0
    &&& forall|p: (int, int)|
        in_bounds(p, w, h) && #[trigger] labels[cell(p, w)] != 0 ==> exists|r: (int, int)|
            in_bounds(r, w, h) && cell(r, w) < pos && #[trigger] connected(s, r, p)
}

/// The kept stroke (`best`, grown from `best_start`) beats every stroke that starts before `pos`
/// and touches the line.
#[verifier::opaque]
pub open spec fn scan_best_ok(
    s: Set<(int, int)>,
    w: int,
    h: int,
    pos: int,
    line: int,
    hz: bool,
    found: bool,
    best: Seq<(u32, u32)>,
    best_start: (int, int),
) -> bool {
    &&& forall|r: (int, int)|
        in_bounds(r, w, h) && cell(r, w) < pos && #[trigger] is_stroke_start(s, r, w) && touches_line(
            component(s, r),
            line,
            hz,
        ) ==> found && span(component(s, r), hz) <= span(component(s, best_start), hz) && (span(component(s, r), hz)
            == span(component(s, best_start), hz) ==> cell(best_start, w) <= cell(r, w))
    &&& found ==> {
        &&& in_bounds(best_start, w, h)
        &&& cell(best_start, w) < pos
        &&& is_stroke_start(s, best_start, w)
        &&& touches_line(component(s, best_start), line, hz)
        &&& pts(best).no_duplicates()
        &&& forall|p: (int, int)| #[trigger] pts(best).contains(p) <==> component(s, best_start).contains(p)
        &&& forall|j: int| 0 <= j < best.len() ==> (#[trigger] best[j]).0 < w && best[j].1 < h
    }
    &&& !found ==> best.len() == 0
}

/// State of the scan that picks the axis body among the strokes of `s`.
pub open spec fn body_scan_inv(
    s: Set<(int, int)>,
    labels: Seq<usize>,
    w: int,
    h: int,
    tag: usize,
    pos: int,
    line: int,
    hz: bool,
    found: bool,
    best: Seq<(u32, u32)>,
    best_start: (int, int),
) -> bool {
    &&& scan_labels_ok(s, labels, w, h, tag)
    &&& scan_done_before(s, labels, w, h, pos)
    &&& scan_best_ok(s, w, h, pos, line, hz, found, best, best_start)
}

pub proof fn lemma_body_start_unique(s: Set<(int, int)>, w: int, h: int, line: int, hz: bool, r: (int, int))
    requires
        is_body_start(s, w, line, hz, r),
        forall|p: (int, int)| #[trigger] s.contains(p) ==> in_bounds(p, w, h),
    ensures
        axis_body(s, w, line, hz) == component(s, r),
{
    let r2 = choose|r2: (int, int)| is_body_start(s, w, line, hz, r2);
    assert(is_body_start(s, w, line, hz, r2));
    assert(is_stroke_start(s, r2, w));
    assert(is_stroke_start(s, r, w));
    crate::grid::lemma_cell_injective(r, r2, w, h);
}

/// Label bookkeeping of the body scan after pixel `here` (at row-major position `pos`) started
/// a new stroke that was labelled `tag`.
proof fn lemma_labels_after_new_stroke(
    s: Set<(int, int)>,
    w: int,
    h: int,
    pos: int,
    here: (int, int),
    tag: usize,
    old_labels: Seq<usize>,
    labels: Seq<usize>,
)
    requires
        in_bounds(here, w, h),
        cell(here, w) == pos,
        s.contains(here),
        labels.len() == w * h,
        forall|p: (int, int)|
            in_bounds(p, w, h) ==> #[trigger] labels[cell(p, w)] == if component(s, here).contains(p) {
                tag
            } else {
                old_labels[cell(p, w)]
            },
        forall|i: int| 0 <= i < w * h ==> #[trigger] labels[i] <= tag,
        tag > 0,
        forall|p: (int, int)| in_bounds(p, w, h) && #[trigger] old_labels[cell(p, w)] != 0 ==> s.contains(p),
        forall|p: (int, int)|
            in_bounds(p, w, h) && cell(p, w) < pos && s.contains(p) ==> #[trigger] old_labels[cell(p, w)] != 0,
        forall|p: (int, int)|
            in_bounds(p, w, h) && #[trigger] old_labels[cell(p, w)] != 0 ==> exists|r: (int, int)|
                in_bounds(r, w, h) && cell(r, w) < pos && #[trigger] connected(s, r, p),
    ensures
        forall|i: int| 0 <= i < w * h ==> #[trigger] labels[i] < tag + 1,
        forall|p: (int, int)| in_bounds(p, w, h) && #[trigger] labels[cell(p, w)] != 0 ==> s.contains(p),
        forall|p: (int, int)|
            in_bounds(p, w, h) && cell(p, w) < pos + 1 && s.contains(p) ==> #[trigger] labels[cell(p, w)] != 0,
        forall|p: (int, int)|
            in_bounds(p, w, h) && #[trigger] labels[cell(p, w)] != 0 ==> exists|r: (int, int)|
                in_bounds(r, w, h) && cell(r, w) < pos + 1 && #[trigger] connected(s, r, p),
{
    let comp = component(s, here);
    assert forall|p: (int, int)| in_bounds(p, w, h) && #[trigger] labels[cell(p, w)] != 0 implies s.contains(p) by {
        if comp.contains(p) {
            lemma_connected_in_set(s, here, p);
        } else {
            assert(labels[cell(p, w)] == old_labels[cell(p, w)]);
        }
    }
    assert forall|p: (int, int)| in_bounds(p, w, h) && cell(p, w) < pos + 1 && s.contains(p) implies #[trigger] labels[cell(p, w)] != 0 by {
        if p == here {
            lemma_connected_refl(s, here);
        } else {
            if cell(p, w) == pos {
                crate::grid::lemma_cell_injective(p, here, w, h);
            }
            assert(labels[cell(p, w)] == if comp.contains(p) { tag } else { old_labels[cell(p, w)] });
        }
    }
    assert forall|p: (int, int)| in_bounds(p, w, h) && #[trigger] labels[cell(p, w)] != 0 implies exists|r: (int, int)|
        in_bounds(r, w, h) && cell(r, w) < pos + 1 && #[trigger] connected(s, r, p) by {
        if comp.contains(p) {
            assert(connected(s, here, p));
        } else {
            assert(labels[cell(p, w)] == old_labels[cell(p, w)]);
            let r = choose|r: (int, int)| in_bounds(r, w, h) && cell(r, w) < pos && #[trigger] connected(s, r, p);
            assert(connected(s, r, p));
        }
    }
    assert forall|k: int| 0 <= k < w * h implies #[trigger] labels[k] < tag + 1 by {
        assert(labels[k] <= tag);
    }
}

/// A pixel at row-major position `pos` that is not an unlabelled pixel of `s` starts no stroke.
proof fn lemma_no_stroke_start_here(
    s: Set<(int, int)>,
    w: int,
    h: int,
    pos: int,
    here: (int, int),
    labels: Seq<usize>,
)
    requires
        in_bounds(here, w, h),
        cell(here, w) == pos,
        !s.contains(here) || labels[cell(here, w)] != 0,
        forall|p: (int, int)|
            in_bounds(p, w, h) && #[trigger] labels[cell(p, w)] != 0 ==> exists|r: (int, int)|
                in_bounds(r, w, h) && cell(r, w) < pos && #[trigger] connected(s, r, p),
    ensures
        !is_stroke_start(s, here, w),
{
    if s.contains(here) {
        let r0 = choose|r0: (int, int)| in_bounds(r0, w, h) && cell(r0, w) < pos && #[trigger] connected(s, r0, here);
        lemma_connected_symm(s, r0, here);
        assert(component(s, here).contains(r0));
    }
}

/// Facts of the body scan that hold before a stroke is grown from the unlabelled pixel `here`.
proof fn lemma_scan_before_grow(
    s: Set<(int, int)>,
    labels: Seq<usize>,
    w: int,
    h: int,
    tag: usize,
    pos: int,
    here: (int, int),
)
    requires
        scan_labels_ok(s, labels, w, h, tag),
        scan_done_before(s, labels, w, h, pos),
        in_bounds(here, w, h),
        cell(here, w) == pos,
        s.contains(here),
        labels[cell(here, w)] == 0,
    ensures
        labels.len() == w * h,
        tag > 0,
        forall|i: int| 0 <= i < w * h ==> #[trigger] labels[i] < tag,
        labels_consistent(s, labels, w),
        is_stroke_start(s, here, w),
{
    reveal(scan_labels_ok);
    reveal(scan_done_before);
    let comp = component(s, here);
    assert forall|p: (int, int)| #[trigger] comp.contains(p) implies labels[cell(p, w)] == 0 by {
        lemma_connected_symm(s, here, p);
        lemma_connected_in_set(s, here, p);
        if labels[cell(p, w)] != 0 {
            assert(connected(s, p, here));
        }
    }
    assert forall|p: (int, int)| #[trigger] comp.contains(p) implies cell(here, w) <= cell(p, w) by {
        lemma_connected_in_set(s, here, p);
        if cell(p, w) < pos {
            assert(labels[cell(p, w)] != 0);
        }
    }
}

/// Labels of the body scan after a stroke was grown from `here` with label `tag`.
proof fn lemma_scan_labels_after_grow(
    s: Set<(int, int)>,
    w: int,
    h: int,
    pos: int,
    here: (int, int),
    tag: usize,
    old_labels: Seq<usize>,
    labels: Seq<usize>,
)
    requires
        scan_labels_ok(s, old_labels, w, h, tag),
        scan_done_before(s, old_labels, w, h, pos),
        in_bounds(here, w, h),
        cell(here, w) == pos,
        s.contains(here),
        labels.len() == w * h,
        forall|p: (int, int)|
            in_bounds(p, w, h) ==> #[trigger] labels[cell(p, w)] == if component(s, here).contains(p) {
                tag
            } else {
                old_labels[cell(p, w)]
            },
        forall|i: int| 0 <= i < w * h ==> #[trigger] labels[i] <= tag,
        labels_consistent(s, labels, w),
        tag < usize::MAX,
    ensures
        scan_labels_ok(s, labels, w, h, (tag + 1) as usize),
        scan_done_before(s, labels, w, h, pos + 1),
{
    reveal(scan_labels_ok);
    reveal(scan_done_before);
    lemma_labels_after_new_stroke(s, w, h, pos, here, tag, old_labels, labels);
}

/// The kept stroke of the body scan after a stroke was grown from `here`, and kept exactly when `take`.
proof fn lemma_scan_best_after_grow(
    s: Set<(int, int)>,
    w: int,
    h: int,
    pos: int,
    line: int,
    hz: bool,
    here: (int, int),
    old_found: bool,
    old_best: Seq<(u32, u32)>,
    old_start: (int, int),
    q: Seq<(u32, u32)>,
    take: bool,
    found: bool,
    best: Seq<(u32, u32)>,
    best_start: (int, int),
)
    requires
        scan_best_ok(s, w, h, pos, line, hz, old_found, old_best, old_start),
        in_bounds(here, w, h),
        cell(here, w) == pos,
        is_stroke_start(s, here, w),
        pts(q).no_duplicates(),
        forall|p: (int, int)| #[trigger] pts(q).contains(p) <==> component(s, here).contains(p),
        forall|j: int| 0 <= j < q.len() ==> (#[trigger] q[j]).0 < w && q[j].1 < h,
        take == (touches_line(component(s, here), line, hz) && (!old_found || span(component(s, here), hz) > span(
            component(s, old_start),
            hz,
        ))),
        take ==> found && best == q && best_start == here,
        !take ==> found == old_found && best == old_best && best_start == old_start,
    ensures
        scan_best_ok(s, w, h, pos + 1, line, hz, found, best, best_start),
{
    reveal(scan_best_ok);
    assert forall|r: (int, int)|
        in_bounds(r, w, h) && cell(r, w) < pos + 1 && #[trigger] is_stroke_start(s, r, w) && touches_line(
            component(s, r),
            line,
            hz,
        ) implies found && span(component(s, r), hz) <= span(component(s, best_start), hz) && (span(component(s, r), hz)
            == span(component(s, best_start), hz) ==> cell(best_start, w) <= cell(r, w)) by {
        if cell(r, w) == pos {
            crate::grid::lemma_cell_injective(r, here, w, h);
        }
    }
}

/// The body scan after pixel `here`, which starts no new stroke, was passed over.
proof fn lemma_scan_skip(
    s: Set<(int, int)>,
    labels: Seq<usize>,
    w: int,
    h: int,
    pos: int,
    line: int,
    hz: bool,
    found: bool,
    best: Seq<(u32, u32)>,
    best_start: (int, int),
    here: (int, int),
)
    requires
        scan_done_before(s, labels, w, h, pos),
        scan_best_ok(s, w, h, pos, line, hz, found, best, best_start),
        in_bounds(here, w, h),
        cell(here, w) == pos,
        !s.contains(here) || labels[cell(here, w)] != 0,
    ensures
        scan_done_before(s, labels, w, h, pos + 1),
        scan_best_ok(s, w, h, pos + 1, line, hz, found, best, best_start),
{
    reveal(scan_done_before);
    lemma_no_stroke_start_here(s, w, h, pos, here, labels);
    assert forall|p: (int, int)|
        in_bounds(p, w, h) && cell(p, w) < pos + 1 && s.contains(p) implies #[trigger] labels[cell(p, w)] != 0 by {
        if cell(p, w) == pos {
            crate::grid::lemma_cell_injective(p, here, w, h);
        }
    }
    assert forall|p: (int, int)| in_bounds(p, w, h) && #[trigger] labels[cell(p, w)] != 0 implies exists|r: (int, int)|
        in_bounds(r, w, h) && cell(r, w) < pos + 1 && #[trigger] connected(s, r, p) by {
        let r = choose|r: (int, int)| in_bounds(r, w, h) && cell(r, w) < pos && #[trigger] connected(s, r, p);
        assert(connected(s, r, p));
    }
    lemma_scan_best_skip(s, w, h, pos, line, hz, found, best, best_start, here);
}

proof fn lemma_scan_best_skip(
    s: Set<(int, int)>,
    w: int,
    h: int,
    pos: int,
    line: int,
    hz: bool,
    found: bool,
    best: Seq<(u32, u32)>,
    best_start: (int, int),
    here: (int, int),
)
    requires
        scan_best_ok(s, w, h, pos, line, hz, found, best, best_start),
        in_bounds(here, w, h),
        cell(here, w) == pos,
        !is_stroke_start(s, here, w),
    ensures
        scan_best_ok(s, w, h, pos + 1, line, hz, found, best, best_start),
{
    reveal(scan_best_ok);
    assert forall|r: (int, int)|
        in_bounds(r, w, h) && cell(r, w) < pos + 1 && #[trigger] is_stroke_start(s, r, w) && touches_line(
            component(s, r),
            line,
            hz,
        ) implies found && span(component(s, r), hz) <= span(component(s, best_start), hz) && (span(component(s, r), hz)
            == span(component(s, best_start), hz) ==> cell(best_start, w) <= cell(r, w)) by {
        if cell(r, w) == pos {
            crate::grid::lemma_cell_injective(r, here, w, h);
        }
    }
}

/// The body scan before any pixel was looked at.
proof fn lemma_scan_start(s: Set<(int, int)>, labels: Seq<usize>, w: int, h: int, line: int, hz: bool)
    requires
        0 <= w,
        0 <= h,
        labels.len() == w * h,
        forall|i: int| 0 <= i < w * h ==> #[trigger] labels[i] == 0,
        forall|p: (int, int)| #[trigger] s.contains(p) ==> in_bounds(p, w, h),
    ensures
        body_scan_inv(s, labels, w, h, 1, 0, line, hz, false, Seq::empty(), (0, 0)),
{
    reveal(scan_labels_ok);
    reveal(scan_done_before);
    reveal(scan_best_ok);
    assert forall|p: (int, int), q: (int, int)|
        s.contains(p) && labels[cell(p, w)] != 0 && #[trigger] connected(s, p, q) implies labels[cell(q, w)]
            == labels[cell(p, w)] by {
        lemma_cell_bounds(p, w, h);
    }
    assert forall|p: (int, int)| in_bounds(p, w, h) && #[trigger] labels[cell(p, w)] != 0 implies s.contains(p) by {
        lemma_cell_bounds(p, w, h);
    }
    assert forall|p: (int, int)| in_bounds(p, w, h) && #[trigger] labels[cell(p, w)] != 0 implies exists|r: (int, int)|
        in_bounds(r, w, h) && cell(r, w) < 0 && #[trigger] connected(s, r, p) by {
        lemma_cell_bounds(p, w, h);
    }
    assert forall|p: (int, int)| in_bounds(p, w, h) && cell(p, w) < 0 && s.contains(p) implies #[trigger] labels[cell(p, w)] != 0 by {
        lemma_cell_bounds(p, w, h);
    }
    assert forall|r: (int, int)| in_bounds(r, w, h) && cell(r, w) < 0 && #[trigger] is_stroke_start(s, r, w) implies false by {
        lemma_cell_bounds(r, w, h);
    }
}

/// When every pixel was looked at, the kept stroke is the axis body.
proof fn lemma_scan_done(
    s: Set<(int, int)>,
    labels: Seq<usize>,
    w: int,
    h: int,
    tag: usize,
    line: int,
    hz: bool,
    found: bool,
    best: Seq<(u32, u32)>,
    best_start: (int, int),
)
    requires
        body_scan_inv(s, labels, w, h, tag, w * h, line, hz, found, best, best_start),
    ensures
        pts(best).no_duplicates(),
        forall|p: (int, int)| #[trigger] pts(best).contains(p) <==> axis_body(s, w, line, hz).contains(p),
        forall|j: int| 0 <= j < best.len() ==> (#[trigger] best[j]).0 < w && best[j].1 < h,
{
    reveal(scan_labels_ok);
    reveal(scan_best_ok);
    if found {
        assert(is_body_start(s, w, line, hz, best_start)) by {
            assert forall|r2: (int, int)|
                #[trigger] is_stroke_start(s, r2, w) && touches_line(component(s, r2), line, hz) implies span(
                    component(s, r2),
                    hz,
                ) <= span(component(s, best_start), hz) && (span(component(s, r2), hz) == span(component(s, best_start), hz)
                    ==> cell(best_start, w) <= cell(r2, w)) by {
                lemma_cell_bounds(r2, w, h);
            }
        }
        lemma_body_start_unique(s, w, h, line, hz, best_start);
    } else {
        assert forall|r: (int, int)| !is_body_start(s, w, line, hz, r) by {
            if is_body_start(s, w, line, hz, r) {
                lemma_cell_bounds(r, w, h);
            }
        }
        assert(axis_body(s, w, line, hz) =~= Set::empty());
        assert(pts(best) =~= Seq::empty());
    }
}

/// Progress of the scan that picks the axis body among the strokes of a grid.
struct BodyScan {
    labels: Vec<usize>,
    tag: usize,
    found: bool,
    best: Vec<(u32, u32)>,
    best_span: u32,
    best_start: (u32, u32),
}

impl BodyScan {
    spec fn inv(&self, s: Set<(int, int)>, w: int, h: int, pos: int, line: int, hz: bool) -> bool {
        &&& body_scan_inv(
            s,
            self.labels@,
            w,
            h,
            self.tag,
            pos,
            line,
            hz,
            self.found,
            self.best@,
            pt(self.best_start),
        )
        &&& self.tag <= pos + 1
        &&& self.labels@.len() == w * h
        &&& self.found ==> self.best_span == span(component(s, pt(self.best_start)), hz)
    }

    /// Looks at pixel `(x, y)`: if it starts a new stroke, grows the stroke and keeps it when it
    /// touches the line and spans further than the best stroke so far.
    fn step(&mut self, g: &Vec<bool>, w: u32, h: u32, x: u32, y: u32, line: u32, hz: bool, Ghost(s): Ghost<Set<(int, int)>>)
        requires
            (w as int * h as int) < usize::MAX,
            w <= i32::MAX,
            h <= i32::MAX,
            g@.len() == w * h,
            s == grid_set(g@, w as int, h as int),
            x < w,
            y < h,
            old(self).inv(s, w as int, h as int, cell((x as int, y as int), w as int), line as int, hz),
        ensures
            final(self).inv(s, w as int, h as int, cell((x as int, y as int), w as int) + 1, line as int, hz),
    {
        let i = cell_index(x, y, w, h);
        let ghost here = (x as int, y as int);
        let ghost pos = cell(here, w as int);
        proof {
            lemma_cell_bounds(here, w as int, h as int);
        }
        if g[i] && self.labels[i] == 0 {
            let ghost old_labels = self.labels@;
            let ghost comp = component(s, here);
            let ghost old_found = self.found;
            let ghost old_best = self.best@;
            let ghost old_start = pt(self.best_start);
            proof {
                assert(s.contains(here));
                lemma_scan_before_grow(s, old_labels, w as int, h as int, self.tag, pos, here);
            }
            let tag = self.tag;
            let q = grow_component(g, &mut self.labels, w, h, (x, y), tag);
            let (touch, lo, hi) = stroke_extent(&q, line, hz, Ghost(comp));
            proof {
                lemma_along_min_unique(comp, hz, lo as int);
                lemma_along_max_unique(comp, hz, hi as int);
            }
            let sp = hi - lo;
            let take = touch && (!self.found || sp > self.best_span);
            let ghost qv = q@;
            if take {
                self.best = q;
                self.best_span = sp;
                self.best_start = (x, y);
                self.found = true;
            }
            proof {
                lemma_scan_labels_after_grow(s, w as int, h as int, pos, here, tag, old_labels, self.labels@);
                lemma_scan_best_after_grow(
                    s, w as int, h as int, pos, line as int, hz, here, old_found, old_best, old_start, qv, take,
                    self.found, self.best@, pt(self.best_start),
                );
            }
            self.tag = tag + 1;
        } else {
            proof {
                lemma_scan_skip(
                    s, self.labels@, w as int, h as int, pos, line as int, hz, self.found, self.best@,
                    pt(self.best_start), here,
                );
            }
        }
    }
}

/// Whether each position along the line has a pixel of the body sticking out at least 2 pixels.
fn protrusion_flags(
    best: &Vec<(u32, u32)>,
    w: u32,
    h: u32,
    line: u32,
    hz: bool,
    Ghost(body): Ghost<Set<(int, int)>>,
) -> (st: Vec<bool>)
    requires
        forall|k: int| 0 <= k < best@.len() ==> (#[trigger] best@[k]).0 < w && best@[k].1 < h,
        forall|p: (int, int)| #[trigger] pts(best@).contains(p) <==> body.contains(p),
    ensures
        st@.len() == (if hz { w } else { h }),
        forall|t: int| #[trigger] sticks_out(body, line as int, hz, t) <==> 0 <= t < st@.len() && st@[t],
{
    let dim = if hz { w } else { h };
    let mut st: Vec<bool> = filled(dim as usize, false);
    let mut j: usize = 0;
    while j < best.len()
        invariant
            0 <= j <= best@.len(),
            dim == (if hz { w } else { h }),
            st@.len() == dim,
            forall|k: int| 0 <= k < best@.len() ==> (#[trigger] best@[k]).0 < w && best@[k].1 < h,
            forall|t: int|
                0 <= t < dim ==> (#[trigger] st@[t] <==> exists|k: int|
                    0 <= k < j && along(pt(best@[k]), hz) == t && #[trigger] offset(pt(best@[k]), line as int, hz) >= 2),
        decreases best@.len() - j,
    {
        let p = best[j];
        let a = if hz { p.0 } else { p.1 };
        let o = u_offset(if hz { p.1 } else { p.0 }, line);
        proof {
            assert(along(pt(best@[j as int]), hz) == a);
            assert(offset(pt(best@[j as int]), line as int, hz) == o);
        }
        if o >= 2 {
            st.set(a as usize, true);
        }
        proof {
            assert forall|t: int| 0 <= t < dim implies (#[trigger] st@[t] <==> exists|k: int|
                0 <= k < j + 1 && along(pt(best@[k]), hz) == t && #[trigger] offset(pt(best@[k]), line as int, hz) >= 2) by {
                if t == a && o >= 2 {
                    assert(along(pt(best@[j as int]), hz) == t && offset(pt(best@[j as int]), line as int, hz) >= 2);
                }
            }
        }
        j = j + 1;
    }
    proof {
        assert forall|t: int| #[trigger] sticks_out(body, line as int, hz, t) <==> 0 <= t < st@.len() && st@[t] by {
            if sticks_out(body, line as int, hz, t) {
                let p = choose|p: (int, int)| #[trigger] body.contains(p) && along(p, hz) == t && offset(p, line as int, hz) >= 2;
                assert(pts(best@).contains(p));
                let k = choose|k: int| 0 <= k < pts(best@).len() && pts(best@)[k] == p;
                assert(pts(best@)[k] == pt(best@[k]));
                assert(offset(pt(best@[k]), line as int, hz) >= 2);
            }
            if 0 <= t < st@.len() && st@[t] {
                let k = choose|k: int| 0 <= k < best@.len() && along(pt(best@[k]), hz) == t && #[trigger] offset(pt(best@[k]), line as int, hz) >= 2;
                assert(pts(best@)[k] == pt(best@[k]));
                assert(pts(best@).contains(pt(best@[k])));
            }
        }
    }
    st
}

/// The axis body along `line` among the strokes of grid `g`, and the centres of its tick marks.
pub fn axis_body_and_ticks(g: &Vec<bool>, w: u32, h: u32, line: u32, hz: bool) -> (r: (Vec<(u32, u32)>, Vec<u32>))
    requires
        (w as int * h as int) < usize::MAX,
        w <= i32::MAX,
        h <= i32::MAX,
        g@.len() == w * h,
    ensures
        pts(r.0@).no_duplicates(),
        forall|p: (int, int)|
            #[trigger] pts(r.0@).contains(p) <==> axis_body(grid_set(g@, w as int, h as int), w as int, line as int, hz).contains(p),
        forall|j: int| 0 <= j < r.0@.len() ==> (#[trigger] r.0@[j]).0 < w && r.0@[j].1 < h,
        ticks_of(axis_body(grid_set(g@, w as int, h as int), w as int, line as int, hz), line as int, hz, ints(r.1@)),
        forall|i: int| 0 <= i < r.1@.len() ==> #[trigger] r.1@[i] < (if hz { w } else { h }),
{
    let ghost s = grid_set(g@, w as int, h as int);
    let n = w as usize * h as usize;
    let mut scan = BodyScan {
        labels: filled(n, 0usize),
        tag: 1,
        found: false,
        best: Vec::new(),
        best_span: 0,
        best_start: (0, 0),
    };
    proof {
        assert forall|p: (int, int)| #[trigger] s.contains(p) implies in_bounds(p, w as int, h as int) by {}
        lemma_scan_start(s, scan.labels@, w as int, h as int, line as int, hz);
        assert(scan.best@ =~= Seq::<(u32, u32)>::empty());
    }
    let mut y: u32 = 0;
    while y < h
        invariant
            (w as int * h as int) < usize::MAX,
            w <= i32::MAX,
            h <= i32::MAX,
            g@.len() == w * h,
            s == grid_set(g@, w as int, h as int),
            y <= h,
            scan.inv(s, w as int, h as int, y as int * w as int, line as int, hz),
        decreases h - y,
    {
        let mut x: u32 = 0;
        while x < w
            invariant
                (w as int * h as int) < usize::MAX,
                w <= i32::MAX,
                h <= i32::MAX,
                g@.len() == w * h,
                s == grid_set(g@, w as int, h as int),
                y < h,
                x <= w,
                scan.inv(s, w as int, h as int, y as int * w as int + x, line as int, hz),
            decreases w - x,
        {
            scan.step(g, w, h, x, y, line, hz, Ghost(s));
            x = x + 1;
        }
        proof {
            assert(y as int * w as int + w as int == (y as int + 1) * w as int) by (nonlinear_arith);
        }
        y = y + 1;
    }
    proof {
        assert(h as int * w as int == w as int * h as int) by (nonlinear_arith);
        lemma_scan_done(s, scan.labels@, w as int, h as int, scan.tag, line as int, hz, scan.found, scan.best@, pt(scan.best_start));
    }
    let ghost body = axis_body(s, w as int, line as int, hz);
    let st = protrusion_flags(&scan.best, w, h, line, hz, Ghost(body));
    let ticks = tick_centres(&st, Ghost(body), Ghost(line as int), hz);
    (scan.best, ticks)
}

} // verus!
