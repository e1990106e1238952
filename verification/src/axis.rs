//! Axis recognition: the strokes painted over an axis are split into an
//! x-axis and a y-axis pool, the densest line of each pool is taken as the
//! axis, and the tick marks along it are located.
use vstd::prelude::*;
use crate::grid::{
    cell, cell_index, component, grid_set, in_bounds, labels_consistent, lemma_cell_bounds,
    lemma_cell_injective, lemma_component_same, pt, pts, connected, grow_component, filled,
    lemma_connected_in_set, lemma_connected_refl,
};
use crate::density::{
    col_density, island_peak_col, island_peak_row, lemma_peak_col_unique, lemma_peak_row_unique,
    peak_col, peak_row, row_density, densest_row, densest_col, densest_grid_row, densest_grid_col,
};
use crate::ticks::{
    across, along, along_max, along_min, axis_body, axis_body_and_ticks, ints, lemma_along_max_unique,
    lemma_along_min_unique, stroke_extent, ticks_of,
};
use crate::pixels::foreground_grid;
use crate::pixels::is_foreground;

verus! {

/// The foreground pixels of a `w` by `h` image inside the mask.
pub open spec fn foreground_set(rgba: Seq<u8>, mask: Seq<bool>, w: int, h: int, bg: [u8; 3]) -> Set<(int, int)> {
    Set::new(|p: (int, int)| in_bounds(p, w, h) && is_foreground(rgba, mask, w, bg, p))
}

/// The smaller side of the image.
pub open spec fn min_side(w: int, h: int) -> int {
    if w < h {
        w
    } else {
        h
    }
}

/// Density a stroke needs to count as a line: 3% of the smaller side, at least 20.
pub open spec fn line_min(w: int, h: int) -> int {
    if 3 * min_side(w, h) / 100 > 20 {
        3 * min_side(w, h) / 100
    } else {
        20
    }
}

/// Slack when an L-shaped or crossing stroke is split between the axes: 2% of the smaller side, at least 10.
pub open spec fn split_margin(w: int, h: int) -> int {
    if 2 * min_side(w, h) / 100 > 10 {
        2 * min_side(w, h) / 100
    } else {
        10
    }
}

/// Distance between two integers.
pub open spec fn dist(a: int, b: int) -> int {
    if a >= b {
        a - b
    } else {
        b - a
    }
}

/// The stroke `c` holds a dense horizontal line.
pub open spec fn horizontal_stroke(c: Set<(int, int)>, w: int, h: int) -> bool {
    row_density(c, peak_row(c, w, h), w) >= line_min(w, h)
}

/// The stroke `c` holds a dense vertical line.
pub open spec fn vertical_stroke(c: Set<(int, int)>, w: int, h: int) -> bool {
    col_density(c, peak_col(c, w, h), h) >= line_min(w, h)
}

/// Pixel `p` of stroke `c` belongs to the x-axis: the stroke is a horizontal line only, or it
/// holds both lines and `p` lies near the horizontal one.
pub open spec fn joins_x_axis(c: Set<(int, int)>, p: (int, int), w: int, h: int) -> bool {
    let hs = horizontal_stroke(c, w, h);
    let vs = vertical_stroke(c, w, h);
    (hs && !vs) || (hs && vs && dist(p.1, peak_row(c, w, h)) <= dist(p.0, peak_col(c, w, h)) + split_margin(w, h))
}

/// Pixel `p` of stroke `c` belongs to the y-axis: the stroke is a vertical line only, or it
/// holds both lines and `p` lies near the vertical one.
pub open spec fn joins_y_axis(c: Set<(int, int)>, p: (int, int), w: int, h: int) -> bool {
    let hs = horizontal_stroke(c, w, h);
    let vs = vertical_stroke(c, w, h);
    (vs && !hs) || (hs && vs && dist(p.0, peak_col(c, w, h)) <= dist(p.1, peak_row(c, w, h)) + split_margin(w, h))
}

/// Pixels of `s` that go to the x-axis, each judged with the stroke (component) it belongs to.
pub open spec fn x_axis_pool(s: Set<(int, int)>, w: int, h: int) -> Set<(int, int)> {
    Set::new(|p: (int, int)| s.contains(p) && joins_x_axis(component(s, p), p, w, h))
}

/// Pixels of `s` that go to the y-axis, each judged with the stroke (component) it belongs to.
pub open spec fn y_axis_pool(s: Set<(int, int)>, w: int, h: int) -> Set<(int, int)> {
    Set::new(|p: (int, int)| s.contains(p) && joins_y_axis(component(s, p), p, w, h))
}

/// Smallest and largest coordinates of a non-empty list of pixels.
fn bounding_box(q: &Vec<(u32, u32)>) -> (r: (u32, u32, u32, u32))
    requires
        q@.len() > 0,
    ensures
        r.0 <= r.1,
        r.2 <= r.3,
        exists|j: int| 0 <= j < q@.len() && q@[j].0 == r.1,
        exists|j: int| 0 <= j < q@.len() && q@[j].1 == r.3,
        forall|j: int|
            0 <= j < q@.len() ==> r.0 <= (#[trigger] q@[j]).0 <= r.1 && r.2 <= q@[j].1 <= r.3,
{
    let mut xmin = q[0].0;
    let mut xmax = q[0].0;
    let mut ymin = q[0].1;
    let mut ymax = q[0].1;
    let mut j: usize = 1;
    while j < q.len()
        invariant
            1 <= j <= q@.len(),
            xmin <= xmax,
            ymin <= ymax,
            exists|k: int| 0 <= k < j && q@[k].0 == xmax,
            exists|k: int| 0 <= k < j && q@[k].1 == ymax,
            forall|k: int| 0 <= k < j ==> xmin <= (#[trigger] q@[k]).0 <= xmax && ymin <= q@[k].1 <= ymax,
        decreases q@.len() - j,
    {
        let p = q[j];
        if p.0 < xmin {
            xmin = p.0;
        }
        if p.0 > xmax {
            xmax = p.0;
        }
        if p.1 < ymin {
            ymin = p.1;
        }
        if p.1 > ymax {
            ymax = p.1;
        }
        j = j + 1;
    }
    (xmin, xmax, ymin, ymax)
}

fn u_dist(a: u32, b: u32) -> (r: u64)
    ensures
        r == dist(a as int, b as int),
{
    if a >= b {
        (a - b) as u64
    } else {
        (b - a) as u64
    }
}

/// `line_min` and `split_margin` of a `w` by `h` image.
fn thresholds(w: u32, h: u32) -> (r: (u64, u64))
    ensures
        r.0 == line_min(w as int, h as int),
        r.1 == split_margin(w as int, h as int),
{
    let m: u64 = if w < h { w as u64 } else { h as u64 };
    let a = 3 * m / 100;
    let b = 2 * m / 100;
    (if a > 20 { a } else { 20 }, if b > 10 { b } else { 10 })
}

/// Global state of the pass that splits the foreground into axis pools.
pub open spec fn pools_inv(
    fg: Seq<bool>,
    labels: Seq<usize>,
    xpool: Seq<bool>,
    ypool: Seq<bool>,
    w: int,
    h: int,
    tag: usize,
) -> bool {
    let s = grid_set(fg, w, h);
    &&& fg.len() == w * h
    &&& labels.len() == w * h
    &&& xpool.len() == w * h
    &&& ypool.len() == w * h
    &&& tag > 0
    &&& forall|i: int| 0 <= i < w * h ==> #[trigger] labels[i] < tag
    &&& labels_consistent(s, labels, w)
    &&& forall|p: (int, int)| in_bounds(p, w, h) && #[trigger] labels[cell(p, w)] != 0 ==> s.contains(p)
    &&& forall|p: (int, int)|
        in_bounds(p, w, h) ==> #[trigger] xpool[cell(p, w)] == (labels[cell(p, w)] != 0 && joins_x_axis(
            component(s, p),
            p,
            w,
            h,
        ))
    &&& forall|p: (int, int)|
        in_bounds(p, w, h) ==> #[trigger] ypool[cell(p, w)] == (labels[cell(p, w)] != 0 && joins_y_axis(
            component(s, p),
            p,
            w,
            h,
        ))
}

/// Sorts the pixels of the stroke just grown from `start` into the axis pools.
fn classify_stroke(
    fg: &Vec<bool>,
    labels: &Vec<usize>,
    xpool: &mut Vec<bool>,
    ypool: &mut Vec<bool>,
    q: &Vec<(u32, u32)>,
    w: u32,
    h: u32,
    tag: usize,
    Ghost(old_labels): Ghost<Seq<usize>>,
)
    requires
        w as int * h as int <= usize::MAX,
        w <= i32::MAX,
        h <= i32::MAX,
        pools_inv(fg@, old_labels, old(xpool)@, old(ypool)@, w as int, h as int, tag),
        labels@.len() == w * h,
        q@.len() > 0,
        pts(q@).no_duplicates(),
        forall|j: int| 0 <= j < q@.len() ==> (#[trigger] q@[j]).0 < w && q@[j].1 < h,
        forall|p: (int, int)|
            #[trigger] pts(q@).contains(p) <==> component(grid_set(fg@, w as int, h as int), pt(q@[0])).contains(p),
        forall|p: (int, int)|
            in_bounds(p, w as int, h as int) ==> #[trigger] labels@[cell(p, w as int)] == if component(
                grid_set(fg@, w as int, h as int),
                pt(q@[0]),
            ).contains(p) {
                tag
            } else {
                old_labels[cell(p, w as int)]
            },
    ensures
        final(xpool)@.len() == w * h,
        final(ypool)@.len() == w * h,
        forall|p: (int, int)|
            in_bounds(p, w as int, h as int) ==> #[trigger] final(xpool)@[cell(p, w as int)] == (labels@[cell(p, w as int)]
                != 0 && joins_x_axis(component(grid_set(fg@, w as int, h as int), p), p, w as int, h as int)),
        forall|p: (int, int)|
            in_bounds(p, w as int, h as int) ==> #[trigger] final(ypool)@[cell(p, w as int)] == (labels@[cell(p, w as int)]
                != 0 && joins_y_axis(component(grid_set(fg@, w as int, h as int), p), p, w as int, h as int)),
{
    let ghost s = grid_set(fg@, w as int, h as int);
    let ghost st = pt(q@[0]);
    let ghost comp = component(s, st);
    proof {
        assert(pts(q@)[0] == st);
        assert(pts(q@).contains(st));
        assert(comp.contains(st));
        assert forall|p: (int, int)| in_bounds(p, w as int, h as int) implies (#[trigger] labels@[cell(p, w as int)] == tag
            <==> comp.contains(p)) by {
            lemma_cell_bounds(p, w as int, h as int);
        }
        assert forall|p: (int, int)| #[trigger] comp.contains(p) implies in_bounds(p, w as int, h as int) by {
            assert(pts(q@).contains(p));
            let j = choose|j: int| 0 <= j < pts(q@).len() && pts(q@)[j] == p;
            assert(pts(q@)[j] == pt(q@[j]));
        }
    }
    let (xmin, xmax, ymin, ymax) = bounding_box(q);
    proof {
        assert forall|p: (int, int)| #[trigger] comp.contains(p) implies xmin <= p.0 <= xmax && ymin <= p.1 <= ymax by {
            assert(pts(q@).contains(p));
            let j = choose|j: int| 0 <= j < pts(q@).len() && pts(q@)[j] == p;
            assert(pts(q@)[j] == pt(q@[j]));
        }
        let jx = choose|j: int| 0 <= j < q@.len() && q@[j].0 == xmax;
        let jy = choose|j: int| 0 <= j < q@.len() && q@[j].1 == ymax;
        assert(q@[jx].0 < w);
        assert(q@[jy].1 < h);
    }
    let (ay, hd) = island_peak_row(labels, w, h, tag, xmin, xmax, ymin, ymax, Ghost(comp), Ghost(st));
    let (ax, vd) = island_peak_col(labels, w, h, tag, xmin, xmax, ymin, ymax, Ghost(comp), Ghost(st));
    let (lmin, margin) = thresholds(w, h);
    let hs = hd >= lmin;
    let vs = vd >= lmin;
    proof {
        lemma_peak_row_unique(comp, w as int, h as int, ay as int);
        lemma_peak_col_unique(comp, w as int, h as int, ax as int);
    }
    let ghost x0 = xpool@;
    let ghost y0 = ypool@;
    let mut j: usize = 0;
    while j < q.len()
        invariant
            w as int * h as int <= usize::MAX,
            w <= i32::MAX,
            h <= i32::MAX,
            0 <= j <= q@.len(),
            x0.len() == w * h,
            y0.len() == w * h,
            xpool@.len() == w * h,
            ypool@.len() == w * h,
            pts(q@).no_duplicates(),
            forall|k: int| 0 <= k < q@.len() ==> (#[trigger] q@[k]).0 < w && q@[k].1 < h,
            forall|p: (int, int)| #[trigger] pts(q@).contains(p) <==> comp.contains(p),
            hs == horizontal_stroke(comp, w as int, h as int),
            vs == vertical_stroke(comp, w as int, h as int),
            ay == peak_row(comp, w as int, h as int),
            ax == peak_col(comp, w as int, h as int),
            margin == split_margin(w as int, h as int),
            forall|p: (int, int)|
                in_bounds(p, w as int, h as int) && !comp.contains(p) ==> #[trigger] xpool@[cell(p, w as int)] == x0[cell(
                    p,
                    w as int,
                )] && ypool@[cell(p, w as int)] == y0[cell(p, w as int)],
            forall|k: int|
                0 <= k < j ==> #[trigger] xpool@[cell(pt(q@[k]), w as int)] == joins_x_axis(comp, pt(q@[k]), w as int, h as int),
            forall|k: int|
                0 <= k < j ==> #[trigger] ypool@[cell(pt(q@[k]), w as int)] == joins_y_axis(comp, pt(q@[k]), w as int, h as int),
        decreases q@.len() - j,
    {
        let p = q[j];
        let i = cell_index(p.0, p.1, w, h);
        let dy = u_dist(p.1, ay);
        let dx = u_dist(p.0, ax);
        let to_x = (hs && !vs) || (hs && vs && dy <= dx + margin);
        let to_y = (vs && !hs) || (hs && vs && dx <= dy + margin);
        let ghost xb = xpool@;
        let ghost yb = ypool@;
        xpool.set(i, to_x);
        ypool.set(i, to_y);
        proof {
            assert(pts(q@)[j as int] == pt(p));
            assert(pts(q@).contains(pt(p)));
            assert(comp.contains(pt(p)));
            assert forall|r: (int, int)|
                in_bounds(r, w as int, h as int) && !comp.contains(r) implies #[trigger] xpool@[cell(r, w as int)] == x0[cell(
                    r,
                    w as int,
                )] && ypool@[cell(r, w as int)] == y0[cell(r, w as int)] by {
                lemma_cell_bounds(r, w as int, h as int);
                if cell(r, w as int) == i as int {
                    lemma_cell_injective(r, pt(p), w as int, h as int);
                }
                assert(xpool@[cell(r, w as int)] == xb[cell(r, w as int)]);
                assert(ypool@[cell(r, w as int)] == yb[cell(r, w as int)]);
            }
        }
        j = j + 1;
        proof {
            assert forall|k: int| 0 <= k < j implies #[trigger] xpool@[cell(pt(q@[k]), w as int)] == joins_x_axis(
                comp,
                pt(q@[k]),
                w as int,
                h as int,
            ) by {
                if k < j - 1 {
                    lemma_cell_bounds(pt(q@[k]), w as int, h as int);
                    if cell(pt(q@[k]), w as int) == i as int {
                        lemma_cell_injective(pt(q@[k]), pt(p), w as int, h as int);
                        assert(pts(q@)[k] == pt(q@[k]));
                        assert(pts(q@)[k] == pts(q@)[j - 1]);
                    }
                    assert(xpool@[cell(pt(q@[k]), w as int)] == xb[cell(pt(q@[k]), w as int)]);
                    assert(ypool@[cell(pt(q@[k]), w as int)] == yb[cell(pt(q@[k]), w as int)]);
                } else {
                    assert(q@[k] == p);
                    assert(xpool@[i as int] == to_x);
                    assert(ypool@[i as int] == to_y);
                    assert(to_x == joins_x_axis(comp, pt(p), w as int, h as int));
                    assert(to_y == joins_y_axis(comp, pt(p), w as int, h as int));
                }
            }
            assert forall|k: int| 0 <= k < j implies #[trigger] ypool@[cell(pt(q@[k]), w as int)] == joins_y_axis(
                comp,
                pt(q@[k]),
                w as int,
                h as int,
            ) by {
                if k < j - 1 {
                    lemma_cell_bounds(pt(q@[k]), w as int, h as int);
                    if cell(pt(q@[k]), w as int) == i as int {
                        lemma_cell_injective(pt(q@[k]), pt(p), w as int, h as int);
                        assert(pts(q@)[k] == pt(q@[k]));
                        assert(pts(q@)[k] == pts(q@)[j - 1]);
                    }
                    assert(xpool@[cell(pt(q@[k]), w as int)] == xb[cell(pt(q@[k]), w as int)]);
                    assert(ypool@[cell(pt(q@[k]), w as int)] == yb[cell(pt(q@[k]), w as int)]);
                } else {
                    assert(q@[k] == p);
                    assert(xpool@[i as int] == to_x);
                    assert(ypool@[i as int] == to_y);
                    assert(to_x == joins_x_axis(comp, pt(p), w as int, h as int));
                    assert(to_y == joins_y_axis(comp, pt(p), w as int, h as int));
                }
            }
        }
    }
    proof {
        assert forall|p: (int, int)| in_bounds(p, w as int, h as int) && comp.contains(p) implies
            #[trigger] xpool@[cell(p, w as int)] == joins_x_axis(component(s, p), p, w as int, h as int)
            && ypool@[cell(p, w as int)] == joins_y_axis(component(s, p), p, w as int, h as int) by {
            assert(pts(q@).contains(p));
            let k = choose|k: int| 0 <= k < pts(q@).len() && pts(q@)[k] == p;
            assert(pts(q@)[k] == pt(q@[k]));
            lemma_component_same(s, st, p);
            assert(xpool@[cell(pt(q@[k]), w as int)] == joins_x_axis(comp, pt(q@[k]), w as int, h as int));
            assert(ypool@[cell(pt(q@[k]), w as int)] == joins_y_axis(comp, pt(q@[k]), w as int, h as int));
        }
        assert forall|p: (int, int)| in_bounds(p, w as int, h as int) implies #[trigger] xpool@[cell(p, w as int)] == (
        labels@[cell(p, w as int)] != 0 && joins_x_axis(component(s, p), p, w as int, h as int)) by {
            if !comp.contains(p) {
                assert(labels@[cell(p, w as int)] == old_labels[cell(p, w as int)]);
                assert(xpool@[cell(p, w as int)] == x0[cell(p, w as int)]);
            }
        }
        assert forall|p: (int, int)| in_bounds(p, w as int, h as int) implies #[trigger] ypool@[cell(p, w as int)] == (
        labels@[cell(p, w as int)] != 0 && joins_y_axis(component(s, p), p, w as int, h as int)) by {
            if !comp.contains(p) {
                assert(labels@[cell(p, w as int)] == old_labels[cell(p, w as int)]);
                assert(xpool@[cell(p, w as int)] == x0[cell(p, w as int)]);
                assert(ypool@[cell(p, w as int)] == y0[cell(p, w as int)]);
            } else {
                assert(xpool@[cell(p, w as int)] == joins_x_axis(component(s, p), p, w as int, h as int));
            }
        }
    }
}

} // verus!

verus! {

/// Splits the pixels of grid `fg` into the x-axis pool and the y-axis pool, stroke by stroke.
pub fn axis_pools(fg: &Vec<bool>, w: u32, h: u32) -> (r: (Vec<bool>, Vec<bool>))
    requires
        (w as int * h as int) < usize::MAX,
        w <= i32::MAX,
        h <= i32::MAX,
        fg@.len() == w * h,
    ensures
        r.0@.len() == w * h,
        r.1@.len() == w * h,
        forall|p: (int, int)|
            in_bounds(p, w as int, h as int) ==> #[trigger] r.0@[cell(p, w as int)] == x_axis_pool(
                grid_set(fg@, w as int, h as int),
                w as int,
                h as int,
            ).contains(p),
        forall|p: (int, int)|
            in_bounds(p, w as int, h as int) ==> #[trigger] r.1@[cell(p, w as int)] == y_axis_pool(
                grid_set(fg@, w as int, h as int),
                w as int,
                h as int,
            ).contains(p),
{
    let ghost s = grid_set(fg@, w as int, h as int);
    let n = w as usize * h as usize;
    let mut labels: Vec<usize> = filled(n, 0usize);
    let mut xpool: Vec<bool> = filled(n, false);
    let mut ypool: Vec<bool> = filled(n, false);
    let mut tag: usize = 1;
    proof {
        assert forall|p: (int, int), q: (int, int)|
            s.contains(p) && labels@[cell(p, w as int)] != 0 && #[trigger] connected(s, p, q) implies labels@[cell(
                q,
                w as int,
            )] == labels@[cell(p, w as int)] by {
            lemma_cell_bounds(p, w as int, h as int);
        }
        assert forall|p: (int, int)| in_bounds(p, w as int, h as int) implies #[trigger] xpool@[cell(p, w as int)] == (
        labels@[cell(p, w as int)] != 0 && joins_x_axis(component(s, p), p, w as int, h as int)) by {
            lemma_cell_bounds(p, w as int, h as int);
        }
        assert forall|p: (int, int)| in_bounds(p, w as int, h as int) implies #[trigger] ypool@[cell(p, w as int)] == (
        labels@[cell(p, w as int)] != 0 && joins_y_axis(component(s, p), p, w as int, h as int)) by {
            lemma_cell_bounds(p, w as int, h as int);
        }
        assert forall|p: (int, int)| in_bounds(p, w as int, h as int) && #[trigger] labels@[cell(p, w as int)] != 0 implies s.contains(p) by {
            lemma_cell_bounds(p, w as int, h as int);
        }
    }
    let mut y: u32 = 0;
    while y < h
        invariant
            (w as int * h as int) < usize::MAX,
            w <= i32::MAX,
            h <= i32::MAX,
            s == grid_set(fg@, w as int, h as int),
            y <= h,
            pools_inv(fg@, labels@, xpool@, ypool@, w as int, h as int, tag),
            tag <= y as int * w as int + 1,
            forall|p: (int, int)|
                in_bounds(p, w as int, h as int) && p.1 < y && s.contains(p) ==> #[trigger] labels@[cell(p, w as int)] != 0,
        decreases h - y,
    {
        let mut x: u32 = 0;
        while x < w
            invariant
                (w as int * h as int) < usize::MAX,
                w <= i32::MAX,
                h <= i32::MAX,
                s == grid_set(fg@, w as int, h as int),
                y < h,
                x <= w,
                pools_inv(fg@, labels@, xpool@, ypool@, w as int, h as int, tag),
                tag <= y as int * w as int + x + 1,
                forall|p: (int, int)|
                    in_bounds(p, w as int, h as int) && (p.1 < y || (p.1 == y && p.0 < x)) && s.contains(p)
                        ==> #[trigger] labels@[cell(p, w as int)] != 0,
            decreases w - x,
        {
            let i = cell_index(x, y, w, h);
            let ghost here = (x as int, y as int);
            if fg[i] && labels[i] == 0 {
                proof {
                    lemma_cell_bounds(here, w as int, h as int);
                    assert(y as int * w as int + x < w as int * h as int);
                }
                let ghost old_labels = labels@;
                let q = grow_component(fg, &mut labels, w, h, (x, y), tag);
                classify_stroke(fg, &labels, &mut xpool, &mut ypool, &q, w, h, tag, Ghost(old_labels));
                proof {
                    let comp = component(s, here);
                    assert forall|p: (int, int)| in_bounds(p, w as int, h as int) && #[trigger] labels@[cell(p, w as int)] != 0 implies s.contains(p) by {
                        if comp.contains(p) {
                            lemma_connected_in_set(s, here, p);
                        } else {
                            assert(labels@[cell(p, w as int)] == old_labels[cell(p, w as int)]);
                        }
                    }
                    assert forall|p: (int, int)|
                        in_bounds(p, w as int, h as int) && (p.1 < y || (p.1 == y && p.0 < x + 1)) && s.contains(p)
                            implies #[trigger] labels@[cell(p, w as int)] != 0 by {
                        if p == here {
                            lemma_connected_refl(s, here);
                        } else {
                            assert(labels@[cell(p, w as int)] == if comp.contains(p) { tag } else { old_labels[cell(p, w as int)] });
                        }
                    }
                    assert forall|k: int| 0 <= k < w * h implies #[trigger] labels@[k] < tag + 1 by {
                        assert(labels@[k] <= tag);
                    }
                }
                tag = tag + 1;
            } else {
                proof {
                    assert forall|p: (int, int)|
                        in_bounds(p, w as int, h as int) && (p.1 < y || (p.1 == y && p.0 < x + 1)) && s.contains(p)
                            implies #[trigger] labels@[cell(p, w as int)] != 0 by {
                        if p == here {
                            assert(fg@[cell(here, w as int)]);
                        }
                    }
                }
            }
            x = x + 1;
        }
        proof {
            assert(y as int * w as int + w as int == (y as int + 1) * w as int) by (nonlinear_arith);
        }
        y = y + 1;
    }
    proof {
        assert forall|p: (int, int)| in_bounds(p, w as int, h as int) implies #[trigger] xpool@[cell(p, w as int)]
            == x_axis_pool(s, w as int, h as int).contains(p) by {
            if s.contains(p) {
                assert(labels@[cell(p, w as int)] != 0);
            }
        }
        assert forall|p: (int, int)| in_bounds(p, w as int, h as int) implies #[trigger] ypool@[cell(p, w as int)]
            == y_axis_pool(s, w as int, h as int).contains(p) by {
            if s.contains(p) {
                assert(labels@[cell(p, w as int)] != 0);
            }
        }
    }
    (xpool, ypool)
}

} // verus!

verus! {

/// The pixel at `a` along and on `line` across an axis (horizontal when `hz`).
pub open spec fn place(a: int, line: int, hz: bool) -> (int, int) {
    if hz {
        (a, line)
    } else {
        (line, a)
    }
}

/// The line of the axis found in `pool`: its densest row, or for a vertical axis its densest column.
pub open spec fn axis_line(pool: Set<(int, int)>, w: int, h: int, hz: bool) -> Option<int> {
    if hz {
        densest_row(pool, w, h)
    } else {
        densest_col(pool, w, h)
    }
}

/// Along-coordinates of a list of pixels.
pub open spec fn alongs(ticks: Seq<(u32, u32)>, hz: bool) -> Seq<int> {
    ticks.map_values(|p: (u32, u32)| along(pt(p), hz))
}

/// `ends`, `body` and `ticks` describe the axis recognised in `pool`: no axis when the pool is
/// empty; otherwise the axis body along the pool's densest line, the tick marks on it, and as
/// end points the outermost ticks, or the ends of the body when it has no ticks.
pub open spec fn axis_found(
    pool: Set<(int, int)>,
    w: int,
    h: int,
    hz: bool,
    ends: Option<((u32, u32), (u32, u32))>,
    body: Seq<(u32, u32)>,
    ticks: Seq<(u32, u32)>,
) -> bool {
    match axis_line(pool, w, h, hz) {
        None => ends is None && body.len() == 0 && ticks.len() == 0,
        Some(line) => {
            let b = axis_body(pool, w, line, hz);
            &&& pts(body).no_duplicates()
            &&& forall|p: (int, int)| #[trigger] pts(body).contains(p) <==> b.contains(p)
            &&& forall|i: int| 0 <= i < ticks.len() ==> across(pt(#[trigger] ticks[i]), hz) == line
            &&& ticks_of(b, line, hz, alongs(ticks, hz))
            &&& ticks.len() > 0 ==> ends == Some((ticks[0], ticks[ticks.len() - 1]))
            &&& ticks.len() == 0 ==> (ends is Some <==> exists|p: (int, int)| #[trigger] b.contains(p))
            &&& ticks.len() == 0 ==> match ends {
                Some(e) => pt(e.0) == place(along_min(b, hz), line, hz) && pt(e.1) == place(along_max(b, hz), line, hz),
                None => true,
            }
        }
    }
}

fn place_exec(a: u32, line: u32, hz: bool) -> (r: (u32, u32))
    ensures
        pt(r) == place(a as int, line as int, hz),
        along(pt(r), hz) == a,
        across(pt(r), hz) == line,
{
    if hz {
        (a, line)
    } else {
        (line, a)
    }
}

/// The axis recognised in the pool grid `g`: end points, body pixels and tick positions.
fn axis_from_pool(g: &Vec<bool>, w: u32, h: u32, hz: bool) -> (r: (
    Option<((u32, u32), (u32, u32))>,
    Vec<(u32, u32)>,
    Vec<(u32, u32)>,
))
    requires
        (w as int * h as int) < usize::MAX,
        w <= i32::MAX,
        h <= i32::MAX,
        g@.len() == w * h,
    ensures
        axis_found(grid_set(g@, w as int, h as int), w as int, h as int, hz, r.0, r.1@, r.2@),
{
    let ghost pool = grid_set(g@, w as int, h as int);
    let line_opt = if hz { densest_grid_row(g, w, h) } else { densest_grid_col(g, w, h) };
    match line_opt {
        None => (None, Vec::new(), Vec::new()),
        Some(line) => {
            let ghost b = axis_body(pool, w as int, line as int, hz);
            let (body, centres) = axis_body_and_ticks(g, w, h, line, hz);
            let mut ticks: Vec<(u32, u32)> = Vec::new();
            let mut k: usize = 0;
            while k < centres.len()
                invariant
                    0 <= k <= centres@.len(),
                    ticks@.len() == k,
                    forall|i: int| 0 <= i < k ==> across(pt(#[trigger] ticks@[i]), hz) == line,
                    forall|i: int| 0 <= i < k ==> along(pt(#[trigger] ticks@[i]), hz) == centres@[i],
                decreases centres@.len() - k,
            {
                ticks.push(place_exec(centres[k], line, hz));
                k = k + 1;
            }
            proof {
                assert(alongs(ticks@, hz) =~= ints(centres@));
            }
            let ends = if ticks.len() > 0 {
                Some((ticks[0], ticks[ticks.len() - 1]))
            } else if body.len() > 0 {
                let (_, lo, hi) = stroke_extent(&body, line, hz, Ghost(b));
                proof {
                    lemma_along_min_unique(b, hz, lo as int);
                    lemma_along_max_unique(b, hz, hi as int);
                    assert(pts(body@)[0] == pt(body@[0]));
                    assert(pts(body@).contains(pt(body@[0])));
                }
                Some((place_exec(lo, line, hz), place_exec(hi, line, hz)))
            } else {
                proof {
                    assert forall|p: (int, int)| !#[trigger] b.contains(p) by {
                        if b.contains(p) {
                            assert(pts(body@).contains(p));
                        }
                    }
                }
                None
            };
            (ends, body, ticks)
        },
    }
}

/// Result of axis recognition: end points of each axis (the outermost ticks, or the ends of the
/// axis line when it has no ticks), the pixels of each axis line, and the tick positions.
pub struct AxisDetectionResult {
    pub x_axis: Option<((u32, u32), (u32, u32))>,
    pub y_axis: Option<((u32, u32), (u32, u32))>,
    pub x_axis_pixels: Vec<(u32, u32)>,
    pub y_axis_pixels: Vec<(u32, u32)>,
    pub x_ticks: Vec<(u32, u32)>,
    pub y_ticks: Vec<(u32, u32)>,
}

/// Recognises the x- and y-axis among the non-background pixels of the `w` by `h` RGBA image
/// `rgba` that lie inside `mask`.
///
/// The pixels are grouped into 8-connected strokes. A stroke whose densest 3-row window reaches
/// the line threshold is a horizontal line, one whose densest 3-column window does is a vertical
/// line; strokes with both are split between the axes around their densest row and column, and
/// strokes with neither are dropped. For each axis its densest line is taken, the longest stroke
/// touching that line is its body, and runs of at most 12 positions where the body sticks out at
/// least 2 pixels from the line are its ticks.
pub fn analyze_mask_for_axes(rgba: &[u8], mask: &[bool], w: u32, h: u32, bg_color: [u8; 3]) -> (r: AxisDetectionResult)
    requires
        w <= i32::MAX,
        h <= i32::MAX,
        w as int * h as int * 4 <= usize::MAX,
        mask@.len() >= w as int * h as int,
    ensures
        axis_found(
            x_axis_pool(foreground_set(rgba@, mask@, w as int, h as int, bg_color), w as int, h as int),
            w as int,
            h as int,
            true,
            r.x_axis,
            r.x_axis_pixels@,
            r.x_ticks@,
        ),
        axis_found(
            y_axis_pool(foreground_set(rgba@, mask@, w as int, h as int, bg_color), w as int, h as int),
            w as int,
            h as int,
            false,
            r.y_axis,
            r.y_axis_pixels@,
            r.y_ticks@,
        ),
{
    let fg = foreground_grid(rgba, mask, w, h, bg_color);
    let ghost fgs = foreground_set(rgba@, mask@, w as int, h as int, bg_color);
    proof {
        assert(grid_set(fg@, w as int, h as int) =~= fgs);
    }
    let (xg, yg) = axis_pools(&fg, w, h);
    proof {
        assert(grid_set(xg@, w as int, h as int) =~= x_axis_pool(fgs, w as int, h as int));
        assert(grid_set(yg@, w as int, h as int) =~= y_axis_pool(fgs, w as int, h as int));
    }
    let (x_axis, x_axis_pixels, x_ticks) = axis_from_pool(&xg, w, h, true);
    let (y_axis, y_axis_pixels, y_ticks) = axis_from_pool(&yg, w, h, false);
    AxisDetectionResult { x_axis, y_axis, x_axis_pixels, y_axis_pixels, x_ticks, y_ticks }
}

/// Every pixel of a stroke that holds a dense line goes to the x-axis pool or the y-axis pool.
pub proof fn law_line_strokes_kept(s: Set<(int, int)>, w: int, h: int, p: (int, int))
    requires
        s.contains(p),
        horizontal_stroke(component(s, p), w, h) || vertical_stroke(component(s, p), w, h),
    ensures
        x_axis_pool(s, w, h).contains(p) || y_axis_pool(s, w, h).contains(p),
{
}

/// A stroke that holds only a dense horizontal line goes wholly to the x-axis pool and not to
/// the y-axis pool; one with only a dense vertical line goes wholly to the y-axis pool.
pub proof fn law_pure_strokes(s: Set<(int, int)>, w: int, h: int, p: (int, int))
    requires
        s.contains(p),
    ensures
        horizontal_stroke(component(s, p), w, h) && !vertical_stroke(component(s, p), w, h)
            ==> x_axis_pool(s, w, h).contains(p) && !y_axis_pool(s, w, h).contains(p),
        vertical_stroke(component(s, p), w, h) && !horizontal_stroke(component(s, p), w, h)
            ==> y_axis_pool(s, w, h).contains(p) && !x_axis_pool(s, w, h).contains(p),
{
}

/// No pixel of a stroke without a dense line goes to either pool: such strokes are noise.
pub proof fn law_noise_dropped(s: Set<(int, int)>, w: int, h: int, p: (int, int))
    requires
        !horizontal_stroke(component(s, p), w, h),
        !vertical_stroke(component(s, p), w, h),
    ensures
        !x_axis_pool(s, w, h).contains(p),
        !y_axis_pool(s, w, h).contains(p),
{
}

/// The end points of a recognised axis lie on the axis line, and with tick marks the first
/// end point comes first along the axis.
pub proof fn law_axis_ends_on_line(
    pool: Set<(int, int)>,
    w: int,
    h: int,
    hz: bool,
    ends: Option<((u32, u32), (u32, u32))>,
    body: Seq<(u32, u32)>,
    ticks: Seq<(u32, u32)>,
)
    requires
        axis_found(pool, w, h, hz, ends, body, ticks),
        ends is Some,
    ensures
        axis_line(pool, w, h, hz) is Some,
        across(pt(ends.unwrap().0), hz) == axis_line(pool, w, h, hz).unwrap(),
        across(pt(ends.unwrap().1), hz) == axis_line(pool, w, h, hz).unwrap(),
        ticks.len() > 0 ==> along(pt(ends.unwrap().0), hz) <= along(pt(ends.unwrap().1), hz),
{
    let line = axis_line(pool, w, h, hz).unwrap();
    if ticks.len() > 0 {
        let n = ticks.len() - 1;
        assert(across(pt(ticks[0]), hz) == line);
        assert(across(pt(ticks[n]), hz) == line);
        let a = alongs(ticks, hz);
        assert(a[0] == along(pt(ticks[0]), hz));
        assert(a[n] == along(pt(ticks[n]), hz));
        if n > 0 {
            assert(a[0] < a[n]);
        }
    }
}

} // verus!
