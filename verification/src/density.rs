//! Row and column pixel counts of a set of pixels, and the 3-line window
//! densities used to recognise straight axis strokes.
use vstd::prelude::*;
use crate::grid::{cell, cell_index, in_bounds, pt, pts};

verus! {

/// Number of pixels `(x, y)` of `c` with `a <= x < b`.
pub open spec fn row_count_between(c: Set<(int, int)>, y: int, a: int, b: int) -> nat
    decreases b - a,
{
    if b <= a {
        0
    } else {
        row_count_between(c, y, a, b - 1) + if c.contains((b - 1, y)) { 1nat } else { 0nat }
    }
}

/// Number of pixels `(x, y)` of `c` with `a <= y < b`.
pub open spec fn col_count_between(c: Set<(int, int)>, x: int, a: int, b: int) -> nat
    decreases b - a,
{
    if b <= a {
        0
    } else {
        col_count_between(c, x, a, b - 1) + if c.contains((x, b - 1)) { 1nat } else { 0nat }
    }
}

/// Number of pixels of `c` in row `y` of a grid `w` wide.
pub open spec fn row_count(c: Set<(int, int)>, y: int, w: int) -> nat {
    row_count_between(c, y, 0, w)
}

/// Number of pixels of `c` in column `x` of a grid `h` high.
pub open spec fn col_count(c: Set<(int, int)>, x: int, h: int) -> nat {
    col_count_between(c, x, 0, h)
}

/// The previous line index, which stays at zero for line zero.
pub open spec fn prev_line(y: int) -> int {
    if y > 0 {
        y - 1
    } else {
        0
    }
}

/// Pixels of `c` in rows `y - 1`, `y` and `y + 1` (row `0` counted twice for the row above it).
pub open spec fn row_density(c: Set<(int, int)>, y: int, w: int) -> int {
    (row_count(c, prev_line(y), w) + row_count(c, y, w) + row_count(c, y + 1, w)) as int
}

/// Pixels of `c` in columns `x - 1`, `x` and `x + 1` (column `0` counted twice for the column left of it).
pub open spec fn col_density(c: Set<(int, int)>, x: int, h: int) -> int {
    (col_count(c, prev_line(x), h) + col_count(c, x, h) + col_count(c, x + 1, h)) as int
}

/// `y` is the first of the occupied rows of `c` whose density is largest.
pub open spec fn is_peak_row(c: Set<(int, int)>, w: int, h: int, y: int) -> bool {
    &&& 0 <= y < h
    &&& row_count(c, y, w) > 0
    &&& forall|z: int|
        0 <= z < h && #[trigger] row_count(c, z, w) > 0 ==> row_density(c, z, w) <= row_density(c, y, w) && (z < y
            ==> row_density(c, z, w) < row_density(c, y, w))
}

/// `x` is the first of the occupied columns of `c` whose density is largest.
pub open spec fn is_peak_col(c: Set<(int, int)>, w: int, h: int, x: int) -> bool {
    &&& 0 <= x < w
    &&& col_count(c, x, h) > 0
    &&& forall|z: int|
        0 <= z < w && #[trigger] col_count(c, z, h) > 0 ==> col_density(c, z, h) <= col_density(c, x, h) && (z < x
            ==> col_density(c, z, h) < col_density(c, x, h))
}

/// The densest occupied row of `c` (the first one on ties).
pub open spec fn peak_row(c: Set<(int, int)>, w: int, h: int) -> int {
    choose|y: int| is_peak_row(c, w, h, y)
}

/// The densest occupied column of `c` (the first one on ties).
pub open spec fn peak_col(c: Set<(int, int)>, w: int, h: int) -> int {
    choose|x: int| is_peak_col(c, w, h, x)
}

pub proof fn lemma_peak_row_unique(c: Set<(int, int)>, w: int, h: int, y: int)
    requires
        is_peak_row(c, w, h, y),
    ensures
        peak_row(c, w, h) == y,
{
    let z = peak_row(c, w, h);
    assert(is_peak_row(c, w, h, z));
    assert(row_count(c, z, w) > 0);
    assert(row_count(c, y, w) > 0);
}

pub proof fn lemma_peak_col_unique(c: Set<(int, int)>, w: int, h: int, x: int)
    requires
        is_peak_col(c, w, h, x),
    ensures
        peak_col(c, w, h) == x,
{
    let z = peak_col(c, w, h);
    assert(is_peak_col(c, w, h, z));
    assert(col_count(c, z, h) > 0);
    assert(col_count(c, x, h) > 0);
}

pub proof fn lemma_row_count_split(c: Set<(int, int)>, y: int, a: int, m: int, b: int)
    requires
        a <= m <= b,
    ensures
        row_count_between(c, y, a, b) == row_count_between(c, y, a, m) + row_count_between(c, y, m, b),
    decreases b - m,
{
    if b > m {
        lemma_row_count_split(c, y, a, m, b - 1);
    }
}

pub proof fn lemma_col_count_split(c: Set<(int, int)>, x: int, a: int, m: int, b: int)
    requires
        a <= m <= b,
    ensures
        col_count_between(c, x, a, b) == col_count_between(c, x, a, m) + col_count_between(c, x, m, b),
    decreases b - m,
{
    if b > m {
        lemma_col_count_split(c, x, a, m, b - 1);
    }
}

pub proof fn lemma_row_count_empty(c: Set<(int, int)>, y: int, a: int, b: int)
    requires
        forall|x: int| a <= x < b ==> !c.contains((x, y)),
    ensures
        row_count_between(c, y, a, b) == 0,
    decreases b - a,
{
    if b > a {
        lemma_row_count_empty(c, y, a, b - 1);
    }
}

pub proof fn lemma_col_count_empty(c: Set<(int, int)>, x: int, a: int, b: int)
    requires
        forall|y: int| a <= y < b ==> !c.contains((x, y)),
    ensures
        col_count_between(c, x, a, b) == 0,
    decreases b - a,
{
    if b > a {
        lemma_col_count_empty(c, x, a, b - 1);
    }
}

pub proof fn lemma_row_count_positive(c: Set<(int, int)>, y: int, a: int, b: int, x: int)
    requires
        a <= x < b,
        c.contains((x, y)),
    ensures
        row_count_between(c, y, a, b) > 0,
    decreases b - a,
{
    if x < b - 1 {
        lemma_row_count_positive(c, y, a, b - 1, x);
    }
}

pub proof fn lemma_col_count_positive(c: Set<(int, int)>, x: int, a: int, b: int, y: int)
    requires
        a <= y < b,
        c.contains((x, y)),
    ensures
        col_count_between(c, x, a, b) > 0,
    decreases b - a,
{
    if y < b - 1 {
        lemma_col_count_positive(c, x, a, b - 1, y);
    }
}

pub proof fn lemma_row_count_bound(c: Set<(int, int)>, y: int, a: int, b: int)
    requires
        a <= b,
    ensures
        row_count_between(c, y, a, b) <= b - a,
    decreases b - a,
{
    if b > a {
        lemma_row_count_bound(c, y, a, b - 1);
    }
}

pub proof fn lemma_col_count_bound(c: Set<(int, int)>, x: int, a: int, b: int)
    requires
        a <= b,
    ensures
        col_count_between(c, x, a, b) <= b - a,
    decreases b - a,
{
    if b > a {
        lemma_col_count_bound(c, x, a, b - 1);
    }
}

/// Pixels of row `y` in columns `a..b` whose label is `tag`.
pub fn count_row_tagged(
    labels: &Vec<usize>,
    w: u32,
    h: u32,
    y: u32,
    a: u32,
    b: u32,
    tag: usize,
    Ghost(c): Ghost<Set<(int, int)>>,
) -> (n: u64)
    requires
        w as int * h as int <= usize::MAX,
        labels@.len() == w * h,
        y < h,
        a <= b <= w,
        forall|p: (int, int)| in_bounds(p, w as int, h as int) ==> (#[trigger] labels@[cell(p, w as int)] == tag <==> c.contains(p)),
    ensures
        n == row_count_between(c, y as int, a as int, b as int),
        n <= b - a,
{
    let mut n: u64 = 0;
    let mut x = a;
    while x < b
        invariant
            w as int * h as int <= usize::MAX,
            labels@.len() == w * h,
            y < h,
            a <= x <= b <= w,
            forall|p: (int, int)| in_bounds(p, w as int, h as int) ==> (#[trigger] labels@[cell(p, w as int)] == tag <==> c.contains(p)),
            n == row_count_between(c, y as int, a as int, x as int),
            n <= x - a,
        decreases b - x,
    {
        let i = cell_index(x, y, w, h);
        proof {
            assert(in_bounds((x as int, y as int), w as int, h as int));
            assert(labels@[cell((x as int, y as int), w as int)] == tag <==> c.contains((x as int, y as int)));
        }
        if labels[i] == tag {
            n = n + 1;
        }
        x = x + 1;
    }
    n
}

/// Pixels of column `x` in rows `a..b` whose label is `tag`.
pub fn count_col_tagged(
    labels: &Vec<usize>,
    w: u32,
    h: u32,
    x: u32,
    a: u32,
    b: u32,
    tag: usize,
    Ghost(c): Ghost<Set<(int, int)>>,
) -> (n: u64)
    requires
        w as int * h as int <= usize::MAX,
        labels@.len() == w * h,
        x < w,
        a <= b <= h,
        forall|p: (int, int)| in_bounds(p, w as int, h as int) ==> (#[trigger] labels@[cell(p, w as int)] == tag <==> c.contains(p)),
    ensures
        n == col_count_between(c, x as int, a as int, b as int),
        n <= b - a,
{
    let mut n: u64 = 0;
    let mut y = a;
    while y < b
        invariant
            w as int * h as int <= usize::MAX,
            labels@.len() == w * h,
            x < w,
            a <= y <= b <= h,
            forall|p: (int, int)| in_bounds(p, w as int, h as int) ==> (#[trigger] labels@[cell(p, w as int)] == tag <==> c.contains(p)),
            n == col_count_between(c, x as int, a as int, y as int),
            n <= y - a,
        decreases b - y,
    {
        let i = cell_index(x, y, w, h);
        proof {
            assert(in_bounds((x as int, y as int), w as int, h as int));
            assert(labels@[cell((x as int, y as int), w as int)] == tag <==> c.contains((x as int, y as int)));
        }
        if labels[i] == tag {
            n = n + 1;
        }
        y = y + 1;
    }
    n
}

} // verus!

verus! {

/// Count stored for line `y` in a table of counts for lines `lo..lo + t.len()`, zero outside.
pub open spec fn table_at(t: Seq<u64>, lo: int, y: int) -> int {
    if lo <= y < lo + t.len() {
        t[y - lo] as int
    } else {
        0
    }
}

fn table_get(t: &Vec<u64>, lo: u32, y: u32) -> (r: u64)
    ensures
        r == table_at(t@, lo as int, y as int),
{
    if lo <= y && ((y - lo) as usize) < t.len() {
        t[(y - lo) as usize]
    } else {
        0
    }
}

/// The densest occupied row of the pixel set `c`, which is the set of pixels labelled `tag`
/// and lies inside the box `xmin..=xmax` by `ymin..=ymax`; returned with its density.
pub fn island_peak_row(
    labels: &Vec<usize>,
    w: u32,
    h: u32,
    tag: usize,
    xmin: u32,
    xmax: u32,
    ymin: u32,
    ymax: u32,
    Ghost(c): Ghost<Set<(int, int)>>,
    Ghost(p0): Ghost<(int, int)>,
) -> (r: (u32, u64))
    requires
        w as int * h as int <= usize::MAX,
        labels@.len() == w * h,
        xmin <= xmax < w,
        ymin <= ymax < h,
        forall|p: (int, int)| in_bounds(p, w as int, h as int) ==> (#[trigger] labels@[cell(p, w as int)] == tag <==> c.contains(p)),
        forall|p: (int, int)| #[trigger] c.contains(p) ==> xmin <= p.0 <= xmax && ymin <= p.1 <= ymax,
        c.contains(p0),
    ensures
        is_peak_row(c, w as int, h as int, r.0 as int),
        r.1 == row_density(c, r.0 as int, w as int),
{
    let mut rc: Vec<u64> = Vec::new();
    let mut y = ymin;
    while y <= ymax
        invariant
            w as int * h as int <= usize::MAX,
            labels@.len() == w * h,
            xmin <= xmax < w,
            ymin <= y <= ymax + 1,
            ymax < h,
            forall|p: (int, int)| in_bounds(p, w as int, h as int) ==> (#[trigger] labels@[cell(p, w as int)] == tag <==> c.contains(p)),
            forall|p: (int, int)| #[trigger] c.contains(p) ==> xmin <= p.0 <= xmax && ymin <= p.1 <= ymax,
            rc@.len() == y - ymin,
            forall|i: int| 0 <= i < rc@.len() ==> #[trigger] rc@[i] == row_count(c, ymin + i, w as int) && rc@[i] <= w,
        decreases ymax + 1 - y,
    {
        let n = count_row_tagged(labels, w, h, y, xmin, xmax + 1, tag, Ghost(c));
        proof {
            lemma_row_count_split(c, y as int, 0, xmin as int, w as int);
            lemma_row_count_split(c, y as int, xmin as int, xmax as int + 1, w as int);
            lemma_row_count_empty(c, y as int, 0, xmin as int);
            lemma_row_count_empty(c, y as int, xmax as int + 1, w as int);
        }
        rc.push(n);
        y = y + 1;
    }
    proof {
        assert forall|z: int| 0 <= z <= h implies #[trigger] table_at(rc@, ymin as int, z) == row_count(c, z, w as int) by {
            if !(ymin <= z <= ymax) {
                lemma_row_count_empty(c, z, 0, w as int);
            } else {
                assert(rc@[z - ymin] == row_count(c, ymin + (z - ymin), w as int));
            }
        }
    }
    let mut best_y = ymin;
    let mut best: u64 = 0;
    let mut found = false;
    let mut y = ymin;
    while y <= ymax
        invariant
            ymin <= y <= ymax + 1,
            ymax < h,
            rc@.len() == ymax + 1 - ymin,
            forall|i: int| 0 <= i < rc@.len() ==> #[trigger] rc@[i] <= w,
            forall|z: int| 0 <= z <= h ==> #[trigger] table_at(rc@, ymin as int, z) == row_count(c, z, w as int),
            found ==> ymin <= best_y < y && row_count(c, best_y as int, w as int) > 0 && best == row_density(
                c,
                best_y as int,
                w as int,
            ),
            !found ==> best == 0,
            forall|z: int|
                ymin <= z < y && #[trigger] row_count(c, z, w as int) > 0 ==> found && row_density(c, z, w as int)
                    <= best && (z < best_y ==> row_density(c, z, w as int) < best),
        decreases ymax + 1 - y,
    {
        let here = table_get(&rc, ymin, y);
        if here > 0 {
            let above = table_get(&rc, ymin, if y > 0 { y - 1 } else { 0 });
            let below = table_get(&rc, ymin, y + 1);
            proof {
                assert(table_at(rc@, ymin as int, y as int) == row_count(c, y as int, w as int));
                assert(table_at(rc@, ymin as int, prev_line(y as int)) == row_count(c, prev_line(y as int), w as int));
                assert(table_at(rc@, ymin as int, y as int + 1) == row_count(c, y as int + 1, w as int));
                lemma_row_count_bound(c, prev_line(y as int), 0, w as int);
                lemma_row_count_bound(c, y as int + 1, 0, w as int);
                lemma_row_count_bound(c, y as int, 0, w as int);
            }
            let d = above + here + below;
            if d > best {
                best = d;
                best_y = y;
                found = true;
            }
        }
        proof {
            assert(table_at(rc@, ymin as int, y as int) == row_count(c, y as int, w as int));
        }
        y = y + 1;
    }
    proof {
        lemma_row_count_positive(c, p0.1, 0, w as int, p0.0);
        assert(table_at(rc@, ymin as int, p0.1) == row_count(c, p0.1, w as int));
        assert forall|z: int|
            0 <= z < h && #[trigger] row_count(c, z, w as int) > 0 implies row_density(c, z, w as int) <= row_density(
                c,
                best_y as int,
                w as int,
            ) && (z < best_y ==> row_density(c, z, w as int) < row_density(c, best_y as int, w as int)) by {
            if !(ymin <= z <= ymax) {
                lemma_row_count_empty(c, z, 0, w as int);
            }
        }
    }
    (best_y, best)
}

/// The densest occupied column of the pixel set `c`, which is the set of pixels labelled `tag`
/// and lies inside the box `xmin..=xmax` by `ymin..=ymax`; returned with its density.
pub fn island_peak_col(
    labels: &Vec<usize>,
    w: u32,
    h: u32,
    tag: usize,
    xmin: u32,
    xmax: u32,
    ymin: u32,
    ymax: u32,
    Ghost(c): Ghost<Set<(int, int)>>,
    Ghost(p0): Ghost<(int, int)>,
) -> (r: (u32, u64))
    requires
        w as int * h as int <= usize::MAX,
        labels@.len() == w * h,
        xmin <= xmax < w,
        ymin <= ymax < h,
        forall|p: (int, int)| in_bounds(p, w as int, h as int) ==> (#[trigger] labels@[cell(p, w as int)] == tag <==> c.contains(p)),
        forall|p: (int, int)| #[trigger] c.contains(p) ==> xmin <= p.0 <= xmax && ymin <= p.1 <= ymax,
        c.contains(p0),
    ensures
        is_peak_col(c, w as int, h as int, r.0 as int),
        r.1 == col_density(c, r.0 as int, h as int),
{
    let mut cc: Vec<u64> = Vec::new();
    let mut x = xmin;
    while x <= xmax
        invariant
            w as int * h as int <= usize::MAX,
            labels@.len() == w * h,
            ymin <= ymax < h,
            xmin <= x <= xmax + 1,
            xmax < w,
            forall|p: (int, int)| in_bounds(p, w as int, h as int) ==> (#[trigger] labels@[cell(p, w as int)] == tag <==> c.contains(p)),
            forall|p: (int, int)| #[trigger] c.contains(p) ==> xmin <= p.0 <= xmax && ymin <= p.1 <= ymax,
            cc@.len() == x - xmin,
            forall|i: int| 0 <= i < cc@.len() ==> #[trigger] cc@[i] == col_count(c, xmin + i, h as int) && cc@[i] <= h,
        decreases xmax + 1 - x,
    {
        let n = count_col_tagged(labels, w, h, x, ymin, ymax + 1, tag, Ghost(c));
        proof {
            lemma_col_count_split(c, x as int, 0, ymin as int, h as int);
            lemma_col_count_split(c, x as int, ymin as int, ymax as int + 1, h as int);
            lemma_col_count_empty(c, x as int, 0, ymin as int);
            lemma_col_count_empty(c, x as int, ymax as int + 1, h as int);
        }
        cc.push(n);
        x = x + 1;
    }
    proof {
        assert forall|z: int| 0 <= z <= w implies #[trigger] table_at(cc@, xmin as int, z) == col_count(c, z, h as int) by {
            if !(xmin <= z <= xmax) {
                lemma_col_count_empty(c, z, 0, h as int);
            } else {
                assert(cc@[z - xmin] == col_count(c, xmin + (z - xmin), h as int));
            }
        }
    }
    let mut best_x = xmin;
    let mut best: u64 = 0;
    let mut found = false;
    let mut x = xmin;
    while x <= xmax
        invariant
            xmin <= x <= xmax + 1,
            xmax < w,
            cc@.len() == xmax + 1 - xmin,
            forall|i: int| 0 <= i < cc@.len() ==> #[trigger] cc@[i] <= h,
            forall|z: int| 0 <= z <= w ==> #[trigger] table_at(cc@, xmin as int, z) == col_count(c, z, h as int),
            found ==> xmin <= best_x < x && col_count(c, best_x as int, h as int) > 0 && best == col_density(
                c,
                best_x as int,
                h as int,
            ),
            !found ==> best == 0,
            forall|z: int|
                xmin <= z < x && #[trigger] col_count(c, z, h as int) > 0 ==> found && col_density(c, z, h as int)
                    <= best && (z < best_x ==> col_density(c, z, h as int) < best),
        decreases xmax + 1 - x,
    {
        let here = table_get(&cc, xmin, x);
        if here > 0 {
            let left = table_get(&cc, xmin, if x > 0 { x - 1 } else { 0 });
            let right = table_get(&cc, xmin, x + 1);
            proof {
                assert(table_at(cc@, xmin as int, x as int) == col_count(c, x as int, h as int));
                assert(table_at(cc@, xmin as int, prev_line(x as int)) == col_count(c, prev_line(x as int), h as int));
                assert(table_at(cc@, xmin as int, x as int + 1) == col_count(c, x as int + 1, h as int));
                lemma_col_count_bound(c, prev_line(x as int), 0, h as int);
                lemma_col_count_bound(c, x as int + 1, 0, h as int);
                lemma_col_count_bound(c, x as int, 0, h as int);
            }
            let d = left + here + right;
            if d > best {
                best = d;
                best_x = x;
                found = true;
            }
        }
        proof {
            assert(table_at(cc@, xmin as int, x as int) == col_count(c, x as int, h as int));
        }
        x = x + 1;
    }
    proof {
        lemma_col_count_positive(c, p0.0, 0, h as int, p0.1);
        assert(table_at(cc@, xmin as int, p0.0) == col_count(c, p0.0, h as int));
        assert forall|z: int|
            0 <= z < w && #[trigger] col_count(c, z, h as int) > 0 implies col_density(c, z, h as int) <= col_density(
                c,
                best_x as int,
                h as int,
            ) && (z < best_x ==> col_density(c, z, h as int) < col_density(c, best_x as int, h as int)) by {
            if !(xmin <= z <= xmax) {
                lemma_col_count_empty(c, z, 0, h as int);
            }
        }
    }
    (best_x, best)
}

} // verus!

verus! {

/// `y` is the first of the rows holding the most pixels of `s`, and holds at least one.
pub open spec fn is_densest_row(s: Set<(int, int)>, w: int, h: int, y: int) -> bool {
    &&& 0 <= y < h
    &&& row_count(s, y, w) > 0
    &&& forall|z: int|
        0 <= z < h ==> #[trigger] row_count(s, z, w) <= row_count(s, y, w) && (z < y ==> row_count(s, z, w) < row_count(
            s,
            y,
            w,
        ))
}

/// `x` is the first of the columns holding the most pixels of `s`, and holds at least one.
pub open spec fn is_densest_col(s: Set<(int, int)>, w: int, h: int, x: int) -> bool {
    &&& 0 <= x < w
    &&& col_count(s, x, h) > 0
    &&& forall|z: int|
        0 <= z < w ==> #[trigger] col_count(s, z, h) <= col_count(s, x, h) && (z < x ==> col_count(s, z, h) < col_count(
            s,
            x,
            h,
        ))
}

/// The row holding the most pixels of `s` (the first on ties), if any row holds one.
pub open spec fn densest_row(s: Set<(int, int)>, w: int, h: int) -> Option<int> {
    if exists|y: int| is_densest_row(s, w, h, y) {
        Some(choose|y: int| is_densest_row(s, w, h, y))
    } else {
        None
    }
}

/// The column holding the most pixels of `s` (the first on ties), if any column holds one.
pub open spec fn densest_col(s: Set<(int, int)>, w: int, h: int) -> Option<int> {
    if exists|x: int| is_densest_col(s, w, h, x) {
        Some(choose|x: int| is_densest_col(s, w, h, x))
    } else {
        None
    }
}

/// Pixels of the grid set of `g` in row `y`.
fn count_row_flags(g: &Vec<bool>, w: u32, h: u32, y: u32) -> (n: u64)
    requires
        w as int * h as int <= usize::MAX,
        g@.len() == w * h,
        y < h,
    ensures
        n == row_count(crate::grid::grid_set(g@, w as int, h as int), y as int, w as int),
        n <= w,
{
    let ghost c = crate::grid::grid_set(g@, w as int, h as int);
    let mut n: u64 = 0;
    let mut x: u32 = 0;
    while x < w
        invariant
            w as int * h as int <= usize::MAX,
            g@.len() == w * h,
            y < h,
            x <= w,
            c == crate::grid::grid_set(g@, w as int, h as int),
            n == row_count_between(c, y as int, 0, x as int),
            n <= x,
        decreases w - x,
    {
        let i = cell_index(x, y, w, h);
        if g[i] {
            n = n + 1;
        }
        proof {
            assert(c.contains((x as int, y as int)) == g@[i as int]);
        }
        x = x + 1;
    }
    n
}

/// Pixels of the grid set of `g` in column `x`.
fn count_col_flags(g: &Vec<bool>, w: u32, h: u32, x: u32) -> (n: u64)
    requires
        w as int * h as int <= usize::MAX,
        g@.len() == w * h,
        x < w,
    ensures
        n == col_count(crate::grid::grid_set(g@, w as int, h as int), x as int, h as int),
        n <= h,
{
    let ghost c = crate::grid::grid_set(g@, w as int, h as int);
    let mut n: u64 = 0;
    let mut y: u32 = 0;
    while y < h
        invariant
            w as int * h as int <= usize::MAX,
            g@.len() == w * h,
            x < w,
            y <= h,
            c == crate::grid::grid_set(g@, w as int, h as int),
            n == col_count_between(c, x as int, 0, y as int),
            n <= y,
        decreases h - y,
    {
        let i = cell_index(x, y, w, h);
        if g[i] {
            n = n + 1;
        }
        proof {
            assert(c.contains((x as int, y as int)) == g@[i as int]);
        }
        y = y + 1;
    }
    n
}

/// The row of grid `g` holding the most set pixels (the first on ties), or `None` when no pixel is set.
pub fn densest_grid_row(g: &Vec<bool>, w: u32, h: u32) -> (r: Option<u32>)
    requires
        w as int * h as int <= usize::MAX,
        g@.len() == w * h,
    ensures
        r == (match densest_row(crate::grid::grid_set(g@, w as int, h as int), w as int, h as int) {
            Some(y) => Some(y as u32),
            None => None::<u32>,
        }),
        r is None <==> forall|p: (int, int)| !#[trigger] crate::grid::grid_set(g@, w as int, h as int).contains(p),
        r is Some ==> r->0 < h,
{
    let ghost c = crate::grid::grid_set(g@, w as int, h as int);
    let mut best: u64 = 0;
    let mut best_y: u32 = 0;
    let mut y: u32 = 0;
    while y < h
        invariant
            w as int * h as int <= usize::MAX,
            g@.len() == w * h,
            y <= h,
            c == crate::grid::grid_set(g@, w as int, h as int),
            best > 0 ==> best_y < y && best == row_count(c, best_y as int, w as int),
            best == 0 ==> best_y == 0,
            forall|z: int|
                0 <= z < y ==> #[trigger] row_count(c, z, w as int) <= best && (z < best_y ==> row_count(c, z, w as int) < best),
        decreases h - y,
    {
        let n = count_row_flags(g, w, h, y);
        let ghost old_best = best;
        if n > best {
            best = n;
            best_y = y;
        }
        proof {
            assert forall|z: int| 0 <= z < y + 1 implies #[trigger] row_count(c, z, w as int) <= best && (z < best_y
                ==> row_count(c, z, w as int) < best) by {
                if z < y {
                    assert(row_count(c, z, w as int) <= old_best);
                    assert(z < best_y ==> row_count(c, z, w as int) < best);
                } else {
                    assert(z == y);
                    assert(row_count(c, z, w as int) == n);
                    assert(row_count(c, z, w as int) <= best);
                    assert(!(z < best_y));
                }
            }
        }
        y = y + 1;
    }
    if best > 0 {
        proof {
            assert(is_densest_row(c, w as int, h as int, best_y as int));
            let z = choose|z: int| is_densest_row(c, w as int, h as int, z);
            assert(is_densest_row(c, w as int, h as int, z));
            if !(exists|x: int| 0 <= x < w && c.contains((x, best_y as int))) {
                lemma_row_count_empty(c, best_y as int, 0, w as int);
            }
        }
        Some(best_y)
    } else {
        proof {
            assert forall|p: (int, int)| !#[trigger] c.contains(p) by {
                if c.contains(p) {
                    lemma_row_count_positive(c, p.1, 0, w as int, p.0);
                    assert(row_count(c, p.1, w as int) <= 0);
                }
            }
            assert forall|z: int| !is_densest_row(c, w as int, h as int, z) by {}
        }
        None
    }
}

/// The column of grid `g` holding the most set pixels (the first on ties), or `None` when no pixel is set.
pub fn densest_grid_col(g: &Vec<bool>, w: u32, h: u32) -> (r: Option<u32>)
    requires
        w as int * h as int <= usize::MAX,
        g@.len() == w * h,
    ensures
        r == (match densest_col(crate::grid::grid_set(g@, w as int, h as int), w as int, h as int) {
            Some(x) => Some(x as u32),
            None => None::<u32>,
        }),
        r is None <==> forall|p: (int, int)| !#[trigger] crate::grid::grid_set(g@, w as int, h as int).contains(p),
        r is Some ==> r->0 < w,
{
    let ghost c = crate::grid::grid_set(g@, w as int, h as int);
    let mut best: u64 = 0;
    let mut best_x: u32 = 0;
    let mut x: u32 = 0;
    while x < w
        invariant
            w as int * h as int <= usize::MAX,
            g@.len() == w * h,
            x <= w,
            c == crate::grid::grid_set(g@, w as int, h as int),
            best > 0 ==> best_x < x && best == col_count(c, best_x as int, h as int),
            best == 0 ==> best_x == 0,
            forall|z: int|
                0 <= z < x ==> #[trigger] col_count(c, z, h as int) <= best && (z < best_x ==> col_count(c, z, h as int) < best),
        decreases w - x,
    {
        let n = count_col_flags(g, w, h, x);
        let ghost old_best = best;
        if n > best {
            best = n;
            best_x = x;
        }
        proof {
            assert forall|z: int| 0 <= z < x + 1 implies #[trigger] col_count(c, z, h as int) <= best && (z < best_x
                ==> col_count(c, z, h as int) < best) by {
                if z < x {
                    assert(col_count(c, z, h as int) <= old_best);
                    assert(z < best_x ==> col_count(c, z, h as int) < best);
                } else {
                    assert(z == x);
                    assert(col_count(c, z, h as int) == n);
                }
            }
        }
        x = x + 1;
    }
    if best > 0 {
        proof {
            assert(is_densest_col(c, w as int, h as int, best_x as int));
            let z = choose|z: int| is_densest_col(c, w as int, h as int, z);
            assert(is_densest_col(c, w as int, h as int, z));
            if !(exists|y: int| 0 <= y < h && c.contains((best_x as int, y))) {
                lemma_col_count_empty(c, best_x as int, 0, h as int);
            }
        }
        Some(best_x)
    } else {
        proof {
            assert forall|p: (int, int)| !#[trigger] c.contains(p) by {
                if c.contains(p) {
                    lemma_col_count_positive(c, p.0, 0, h as int, p.1);
                    assert(col_count(c, p.0, h as int) <= 0);
                }
            }
            assert forall|z: int| !is_densest_col(c, w as int, h as int, z) by {}
        }
        None
    }
}

} // verus!
