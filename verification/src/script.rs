//! Text handling around script runs: the output shown after a run, the number that
//! `extract_number` finds in a text, and which dropped files are images.
use vstd::prelude::*;
use crate::text::{chars_of, is_digit, ascii_digit, slice_chars, text_of, trail_start, trail_start_at};

verus! {

/// `s` without its trailing white space.
pub open spec fn trim_end(s: Seq<char>) -> Seq<char> {
    s.subrange(0, trail_start(s, s.len() as int))
}

/// The output of a run: what the script printed, without trailing white space, then on a line
/// of its own the text of the script's value or error, if there is one.
pub open spec fn output_text(printed: Seq<char>, tail: Option<Seq<char>>) -> Seq<char> {
    match tail {
        None => trim_end(printed),
        Some(t) => if printed.len() == 0 {
            t
        } else {
            trim_end(printed) + seq!['\n'] + t
        },
    }
}

proof fn lemma_trail_start(c: Seq<char>, k: int)
    requires
        0 <= k <= c.len(),
    ensures
        0 <= trail_start(c, k) <= k,
    decreases k,
{
    if k > 0 && crate::text::is_white(c[k - 1]) {
        lemma_trail_start(c, k - 1);
    }
}

/// The output shown after a run. `printed` is what the script printed; `tail` the text of its
/// value (`None` when the value is unit) or of its error.
pub fn compose_output(printed: &str, tail: Option<&str>) -> (r: String)
    ensures
        r@ == output_text(printed@, match tail {
            Some(t) => Some(t@),
            None => None,
        }),
{
    let p = chars_of(printed);
    let e = trail_start_at(&p, p.len());
    proof {
        lemma_trail_start(p@, p@.len() as int);
    }
    let mut out = slice_chars(&p, 0, e);
    match tail {
        None => text_of(out),
        Some(t) => {
            if p.len() == 0 {
                text_of(chars_of(t))
            } else {
                let ghost head = out@;
                out.push('\n');
                let mut tc = chars_of(t);
                out.append(&mut tc);
                proof {
                    assert(out@ =~= head + seq!['\n'] + t@);
                }
                text_of(out)
            }
        },
    }
}

/// Index of the first ASCII digit at or after `k`, or the end.
pub open spec fn first_digit(c: Seq<char>, k: int) -> int
    decreases c.len() - k,
{
    if k >= c.len() || is_digit(c[k]) {
        k
    } else {
        first_digit(c, k + 1)
    }
}

/// Index of the first character at or after `k` that is not an ASCII digit.
pub open spec fn digits_end(c: Seq<char>, k: int) -> int
    decreases c.len() - k,
{
    if k >= c.len() || !is_digit(c[k]) {
        k
    } else {
        digits_end(c, k + 1)
    }
}

/// End of the number whose digits start at `a`: its digits, then a point and the digits after
/// it when a digit follows the point.
pub open spec fn number_end(c: Seq<char>, a: int) -> int {
    let e = digits_end(c, a);
    if e + 1 < c.len() && c[e] == '.' && is_digit(c[e + 1]) {
        digits_end(c, e + 1)
    } else {
        e
    }
}

/// The first number in `c`: its first ASCII digit with the digits after it, and a decimal
/// point with its digits when a digit follows the point; empty when `c` holds no digit.
pub open spec fn number_run(c: Seq<char>) -> Seq<char> {
    let a = first_digit(c, 0);
    if a >= c.len() {
        Seq::empty()
    } else {
        c.subrange(a, number_end(c, a))
    }
}

fn digits_end_at(c: &Vec<char>, k0: usize) -> (r: usize)
    requires
        k0 <= c@.len(),
    ensures
        r == digits_end(c@, k0 as int),
        k0 <= r <= c@.len(),
{
    let mut k = k0;
    while k < c.len() && ascii_digit(c[k])
        invariant
            k0 <= k <= c@.len(),
            digits_end(c@, k as int) == digits_end(c@, k0 as int),
        decreases c@.len() - k,
    {
        k = k + 1;
    }
    k
}

/// The text of the first number in `s`: its first ASCII digit with the digits after it, and a
/// decimal point with its digits when a digit follows the point. Empty when `s` holds no digit.
pub fn number_text(s: &str) -> (r: String)
    ensures
        r@ == number_run(s@),
{
    let c = chars_of(s);
    let n = c.len();
    let mut a: usize = 0;
    while a < n && !ascii_digit(c[a])
        invariant
            n == c@.len(),
            a <= n,
            first_digit(c@, a as int) == first_digit(c@, 0),
        decreases n - a,
    {
        a = a + 1;
    }
    if a >= n {
        return text_of(Vec::new());
    }
    let e = digits_end_at(&c, a);
    let b = if e < n && n - e > 1 && c[e] == '.' && ascii_digit(c[e + 1]) {
        digits_end_at(&c, e + 1)
    } else {
        e
    };
    text_of(slice_chars(&c, a, b))
}

/// `c` in lower case, for ASCII letters.
pub open spec fn ascii_lower(c: char) -> char {
    if 'A' <= c <= 'Z' {
        ((c as u32) + 32) as char
    } else {
        c
    }
}

/// The extension names an image that can be loaded: `png`, `jpg` or `jpeg` in any case.
pub open spec fn is_image_extension(ext: Seq<char>) -> bool {
    let low = ext.map_values(|c: char| ascii_lower(c));
    low == seq!['p', 'n', 'g'] || low == seq!['j', 'p', 'g'] || low == seq!['j', 'p', 'e', 'g']
}

fn lower(c: char) -> (r: char)
    ensures
        r == ascii_lower(c),
{
    if 'A' <= c && c <= 'Z' {
        let u: u32 = c as u32 + 32;
        let b: u8 = u as u8;
        b as char
    } else {
        c
    }
}

/// Whether `ext` is the lower-cased text `target`.
fn lowers_to(ext: &Vec<char>, target: &Vec<char>) -> (r: bool)
    ensures
        r == (ext@.map_values(|c: char| ascii_lower(c)) == target@),
{
    if ext.len() != target.len() {
        proof {
            assert(ext@.map_values(|c: char| ascii_lower(c)).len() != target@.len());
        }
        return false;
    }
    let mut k: usize = 0;
    while k < ext.len()
        invariant
            ext@.len() == target@.len(),
            k <= ext@.len(),
            forall|j: int| 0 <= j < k ==> ascii_lower(ext@[j]) == target@[j],
        decreases ext@.len() - k,
    {
        if lower(ext[k]) != target[k] {
            proof {
                assert(ext@.map_values(|c: char| ascii_lower(c))[k as int] != target@[k as int]);
            }
            return false;
        }
        k = k + 1;
    }
    proof {
        assert(ext@.map_values(|c: char| ascii_lower(c)) =~= target@);
    }
    true
}

/// Whether a dropped file with extension `ext` is an image that can be loaded. Letters compare
/// without regard to case; no character other than an ASCII letter lower-cases to one of
/// these letters, so this is the comparison of the lower-cased extension.
pub fn image_extension(ext: &str) -> (r: bool)
    ensures
        r == is_image_extension(ext@),
{
    let e = chars_of(ext);
    let png = vec!['p', 'n', 'g'];
    let jpg = vec!['j', 'p', 'g'];
    let jpeg = vec!['j', 'p', 'e', 'g'];
    proof {
        assert(png@ =~= seq!['p', 'n', 'g']);
        assert(jpg@ =~= seq!['j', 'p', 'g']);
        assert(jpeg@ =~= seq!['j', 'p', 'e', 'g']);
    }
    lowers_to(&e, &png) || lowers_to(&e, &jpg) || lowers_to(&e, &jpeg)
}

} // verus!
