//! Selection of the foreground pixels inside a painted mask.
use vstd::prelude::*;
use crate::color::{is_bg_color, spec_is_bg_color};
use crate::grid::{cell, in_bounds, lemma_cell_bounds, lemma_cell_injective, cell_index};

verus! {

/// The pixel `p` is inside the mask, its colour is present in `rgba`, and it is not background.
pub open spec fn is_foreground(rgba: Seq<u8>, mask: Seq<bool>, w: int, bg: [u8; 3], p: (int, int)) -> bool {
    let i = cell(p, w);
    &&& mask[i]
    &&& 4 * i + 2 < rgba.len()
    &&& !spec_is_bg_color(rgba[4 * i], rgba[4 * i + 1], rgba[4 * i + 2], bg)
}

/// The foreground of a `w` by `h` image, as a row-major grid of flags.
pub fn foreground_grid(rgba: &[u8], mask: &[bool], w: u32, h: u32, bg: [u8; 3]) -> (fg: Vec<bool>)
    requires
        w as int * h as int * 4 <= usize::MAX,
        mask@.len() >= w as int * h as int,
    ensures
        fg@.len() == w as int * h as int,
        forall|p: (int, int)|
            in_bounds(p, w as int, h as int) ==> #[trigger] fg@[cell(p, w as int)] == is_foreground(
                rgba@,
                mask@,
                w as int,
                bg,
                p,
            ),
{
    let mut fg: Vec<bool> = Vec::new();
    let mut y: u32 = 0;
    while y < h
        invariant
            w as int * h as int * 4 <= usize::MAX,
            mask@.len() >= w as int * h as int,
            y <= h,
            fg@.len() == y as int * w as int,
            forall|p: (int, int)|
                in_bounds(p, w as int, h as int) && cell(p, w as int) < fg@.len() ==> #[trigger] fg@[cell(
                    p,
                    w as int,
                )] == is_foreground(rgba@, mask@, w as int, bg, p),
        decreases h - y,
    {
        let mut x: u32 = 0;
        while x < w
            invariant
                w as int * h as int * 4 <= usize::MAX,
                mask@.len() >= w as int * h as int,
                y < h,
                x <= w,
                fg@.len() == y as int * w as int + x,
                forall|p: (int, int)|
                    in_bounds(p, w as int, h as int) && cell(p, w as int) < fg@.len() ==> #[trigger] fg@[cell(
                        p,
                        w as int,
                    )] == is_foreground(rgba@, mask@, w as int, bg, p),
            decreases w - x,
        {
            let idx = cell_index(x, y, w, h);
            let ghost here = (x as int, y as int);
            let mut keep = false;
            if mask[idx] {
                let off = idx * 4;
                if off + 2 < rgba.len() {
                    let pixel = [rgba[off], rgba[off + 1], rgba[off + 2]];
                    keep = !is_bg_color(pixel, bg);
                }
            }
            let ghost old_fg = fg@;
            fg.push(keep);
            proof {
                assert forall|p: (int, int)|
                    in_bounds(p, w as int, h as int) && cell(p, w as int) < fg@.len() implies #[trigger] fg@[cell(
                        p,
                        w as int,
                    )] == is_foreground(rgba@, mask@, w as int, bg, p) by {
                    if cell(p, w as int) == idx as int {
                        lemma_cell_injective(p, here, w as int, h as int);
                    } else {
                        assert(fg@[cell(p, w as int)] == old_fg[cell(p, w as int)]);
                    }
                }
            }
            x = x + 1;
        }
        proof {
            assert(y as int * w as int + w as int == (y as int + 1) * w as int) by (nonlinear_arith);
        }
        y = y + 1;
    }
    proof {
        assert(h as int * w as int == w as int * h as int) by (nonlinear_arith);
        assert forall|p: (int, int)| in_bounds(p, w as int, h as int) implies #[trigger] fg@[cell(p, w as int)]
            == is_foreground(rgba@, mask@, w as int, bg, p) by {
            lemma_cell_bounds(p, w as int, h as int);
        }
    }
    fg
}

/// Colour of the pixel with row-major index `i`.
pub open spec fn color_at(rgba: Seq<u8>, i: int) -> (u8, u8, u8) {
    (rgba[4 * i], rgba[4 * i + 1], rgba[4 * i + 2])
}

/// The foreground pixels among the first `n` cells of a `w`-wide image, in row-major order,
/// each with its colour and position.
pub open spec fn foreground_list(rgba: Seq<u8>, mask: Seq<bool>, w: int, bg: [u8; 3], n: int) -> Seq<((u8, u8, u8), u32, u32)>
    decreases n,
{
    if n <= 0 {
        Seq::empty()
    } else {
        let i = n - 1;
        let rest = foreground_list(rgba, mask, w, bg, n - 1);
        if is_foreground(rgba, mask, w, bg, (i % w, i / w)) {
            rest.push((color_at(rgba, i), (i % w) as u32, (i / w) as u32))
        } else {
            rest
        }
    }
}

/// The foreground pixels of a `w` by `h` image in row-major order, each with its colour.
pub fn foreground_pixels(rgba: &[u8], mask: &[bool], w: u32, h: u32, bg: [u8; 3]) -> (r: Vec<((u8, u8, u8), u32, u32)>)
    requires
        w as int * h as int * 4 <= usize::MAX,
        mask@.len() >= w as int * h as int,
    ensures
        r@ == foreground_list(rgba@, mask@, w as int, bg, w as int * h as int),
{
    let mut out: Vec<((u8, u8, u8), u32, u32)> = Vec::new();
    let mut y: u32 = 0;
    while y < h
        invariant
            w as int * h as int * 4 <= usize::MAX,
            mask@.len() >= w as int * h as int,
            y <= h,
            out@ == foreground_list(rgba@, mask@, w as int, bg, y as int * w as int),
        decreases h - y,
    {
        let mut x: u32 = 0;
        while x < w
            invariant
                w as int * h as int * 4 <= usize::MAX,
                mask@.len() >= w as int * h as int,
                y < h,
                x <= w,
                out@ == foreground_list(rgba@, mask@, w as int, bg, y as int * w as int + x),
            decreases w - x,
        {
            let idx = cell_index(x, y, w, h);
            proof {
                vstd::arithmetic::div_mod::lemma_fundamental_div_mod_converse(idx as int, w as int, y as int, x as int);
                assert(cell((x as int, y as int), w as int) == idx);
            }
            if mask[idx] {
                let off = idx * 4;
                if off + 2 < rgba.len() {
                    let pixel = [rgba[off], rgba[off + 1], rgba[off + 2]];
                    if !is_bg_color(pixel, bg) {
                        out.push(((rgba[off], rgba[off + 1], rgba[off + 2]), x, y));
                    }
                }
            }
            x = x + 1;
        }
        proof {
            assert(y as int * w as int + w as int == (y as int + 1) * w as int) by (nonlinear_arith);
        }
        y = y + 1;
    }
    proof {
        assert(h as int * w as int == w as int * h as int) by (nonlinear_arith);
    }
    out
}

} // verus!
