//! Character-level helpers: ASCII character classes, Unicode white space and trimming, and
//! conversions between text and characters.
use vstd::prelude::*;
use vstd::std_specs::iter::IteratorSpec;

verus! {

/// An ASCII letter.
pub open spec fn is_alpha(c: char) -> bool {
    (65 <= c as u32 <= 90) || (97 <= c as u32 <= 122)
}

/// An ASCII decimal digit.
pub open spec fn is_digit(c: char) -> bool {
    48 <= c as u32 <= 57
}

/// An ASCII letter, digit or underscore.
pub open spec fn is_ident_char(c: char) -> bool {
    is_alpha(c) || is_digit(c) || c == '_'
}

/// ASCII whitespace: space, tab, line feed, form feed or carriage return.
pub open spec fn is_space(c: char) -> bool {
    c == ' ' || c == '\t' || c == '\n' || c as u32 == 12 || c == '\r'
}

/// Whether `c` is an ASCII letter.
pub fn ascii_alpha(c: char) -> (r: bool)
    ensures
        r == is_alpha(c),
{
    let u = c as u32;
    (65 <= u && u <= 90) || (97 <= u && u <= 122)
}

/// Whether `c` is an ASCII decimal digit.
pub fn ascii_digit(c: char) -> (r: bool)
    ensures
        r == is_digit(c),
{
    let u = c as u32;
    48 <= u && u <= 57
}

/// Whether `c` is an ASCII letter, digit or underscore.
pub fn ident_char(c: char) -> (r: bool)
    ensures
        r == is_ident_char(c),
{
    ascii_alpha(c) || ascii_digit(c) || c == '_'
}

/// Whether `c` is ASCII whitespace.
pub fn ascii_space(c: char) -> (r: bool)
    ensures
        r == is_space(c),
{
    c == ' ' || c == '\t' || c == '\n' || c as u32 == 12 || c == '\r'
}

/// The characters of a text.
pub fn chars_of(s: &str) -> (v: Vec<char>)
    ensures
        v@ == s@,
{
    broadcast use vstd::string::group_string_axioms;

    let mut it = s.chars();
    let mut v: Vec<char> = Vec::new();
    loop
        invariant
            v@ + it.remaining() == s@,
            it.obeys_prophetic_iter_laws(),
            it.decrease() is Some,
        ensures
            v@ == s@,
        decreases it.decrease()->0,
    {
        let ghost before = it.remaining();
        match it.next() {
            Some(ch) => {
                proof {
                    assert(v@.push(ch) + it.remaining() =~= v@ + before);
                }
                v.push(ch);
            },
            None => {
                proof {
                    assert(v@ + it.remaining() =~= v@);
                }
                break;
            },
        }
    }
    v
}

/// The text made of the given characters.
///
/// Trusted: the body calls std's `String::from_iter` on the characters, which vstd gives no
/// specification; its contract claims that the string holds exactly these characters, in order,
/// as the documentation of `FromIterator<char> for String` says.
#[verifier::external_body]
pub(crate) fn text_of(v: Vec<char>) -> (s: String)
    ensures
        s@ == v@,
{
    String::from_iter(v)
}

/// Appends `c[a..b]` to `out`.
pub fn push_range(out: &mut Vec<char>, c: &Vec<char>, a: usize, b: usize)
    requires
        a <= b <= c@.len(),
    ensures
        final(out)@ == old(out)@ + c@.subrange(a as int, b as int),
{
    let mut k = a;
    while k < b
        invariant
            a <= k <= b <= c@.len(),
            out@ == old(out)@ + c@.subrange(a as int, k as int),
        decreases b - k,
    {
        out.push(c[k]);
        proof {
            assert(c@.subrange(a as int, k + 1) =~= c@.subrange(a as int, k as int).push(c@[k as int]));
        }
        k = k + 1;
    }
}

/// The characters `c[a..b]`.
pub fn slice_chars(c: &Vec<char>, a: usize, b: usize) -> (r: Vec<char>)
    requires
        a <= b <= c@.len(),
    ensures
        r@ == c@.subrange(a as int, b as int),
{
    let mut r: Vec<char> = Vec::new();
    push_range(&mut r, c, a, b);
    proof {
        assert(Seq::<char>::empty() + c@.subrange(a as int, b as int) =~= c@.subrange(a as int, b as int));
    }
    r
}

/// The character sequences of a list of character vectors.
pub open spec fn char_seqs(v: Seq<Vec<char>>) -> Seq<Seq<char>> {
    v.map_values(|x: Vec<char>| x@)
}

/// Unicode white space: the characters for which `char::is_whitespace` holds.
pub open spec fn is_white(c: char) -> bool {
    let u = c as u32;
    (9 <= u <= 13) || u == 32 || u == 0x85 || u == 0xA0 || u == 0x1680 || (0x2000 <= u <= 0x200A)
        || u == 0x2028 || u == 0x2029 || u == 0x202F || u == 0x205F || u == 0x3000
}

/// Whether `c` is Unicode white space.
pub fn white(c: char) -> (r: bool)
    ensures
        r == is_white(c),
{
    let u = c as u32;
    (9 <= u && u <= 13) || u == 32 || u == 0x85 || u == 0xA0 || u == 0x1680 || (0x2000 <= u && u <= 0x200A)
        || u == 0x2028 || u == 0x2029 || u == 0x202F || u == 0x205F || u == 0x3000
}

/// Index of the first character at or after `k` that is not white space, or the end.
pub open spec fn lead_end(c: Seq<char>, k: int) -> int
    decreases c.len() - k,
{
    if k >= c.len() || !is_white(c[k]) {
        k
    } else {
        lead_end(c, k + 1)
    }
}

/// Index just past the last character before `k` that is not white space, or 0.
pub open spec fn trail_start(c: Seq<char>, k: int) -> int
    decreases k,
{
    if k <= 0 || !is_white(c[k - 1]) {
        k
    } else {
        trail_start(c, k - 1)
    }
}

/// `c` without its leading white space.
pub open spec fn trim_start(c: Seq<char>) -> Seq<char> {
    c.skip(lead_end(c, 0))
}

/// `c` without its leading and trailing white space.
pub open spec fn trim(c: Seq<char>) -> Seq<char> {
    let a = lead_end(c, 0);
    let b = trail_start(c, c.len() as int);
    if a < b {
        c.subrange(a, b)
    } else {
        Seq::empty()
    }
}

/// Index of the first character at or after `k0` that is not white space, or the end.
pub fn lead_end_at(c: &Vec<char>, k0: usize) -> (r: usize)
    requires
        k0 <= c@.len(),
    ensures
        r == lead_end(c@, k0 as int),
        k0 <= r <= c@.len(),
{
    let mut k = k0;
    while k < c.len() && white(c[k])
        invariant
            k0 <= k <= c@.len(),
            lead_end(c@, k as int) == lead_end(c@, k0 as int),
        decreases c@.len() - k,
    {
        k = k + 1;
    }
    k
}

/// Index just past the last character before `k0` that is not white space, or 0.
pub fn trail_start_at(c: &Vec<char>, k0: usize) -> (r: usize)
    requires
        k0 <= c@.len(),
    ensures
        r == trail_start(c@, k0 as int),
        r <= k0,
{
    let mut k = k0;
    while k > 0 && white(c[k - 1])
        invariant
            k <= k0 <= c@.len(),
            trail_start(c@, k as int) == trail_start(c@, k0 as int),
        decreases k,
    {
        k = k - 1;
    }
    k
}

/// `c` without its leading and trailing white space.
pub fn trim_chars(c: &Vec<char>) -> (r: Vec<char>)
    ensures
        r@ == trim(c@),
{
    let a = lead_end_at(c, 0);
    let b = trail_start_at(c, c.len());
    if a < b {
        slice_chars(c, a, b)
    } else {
        Vec::new()
    }
}

} // verus!
