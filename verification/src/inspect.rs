//! Texts that the workspace inspector shows for a script value: its type name and dimensions,
//! and a short form of the value for a table cell.
use vstd::prelude::*;
use vstd::utf8::encode_utf8;
use crate::text::{chars_of, text_of};

verus! {

/// What the inspector reads of a script value.
pub enum ValueShape {
    /// An array of `len` elements; `first_map_keys` is the number of keys of its first
    /// element when that is a map.
    Array { len: usize, first_map_keys: Option<usize> },
    /// A map with `keys` keys.
    KeyMap { keys: usize },
    /// A string.
    Str(String),
    /// An integer.
    Int(i64),
    /// A float, with its text to six decimals.
    Float { text: String },
    /// A boolean.
    Bool(bool),
    /// The unit value.
    Unit,
    /// Any other value, with its type name and its text.
    Other { kind_name: String, text: String },
}

/// The digit character of `d`, for `0 <= d < 10`.
pub open spec fn digit_char(d: int) -> char {
    (48 + d) as char
}

/// The decimal digits of `n`.
pub open spec fn decimal(n: nat) -> Seq<char>
    decreases n,
{
    if n < 10 {
        seq![digit_char(n as int)]
    } else {
        decimal(n / 10).push(digit_char((n % 10) as int))
    }
}

/// The decimal text of `i`, with a minus sign when negative.
pub open spec fn signed_decimal(i: int) -> Seq<char> {
    if i < 0 {
        seq!['-'] + decimal((-i) as nat)
    } else {
        decimal(i as nat)
    }
}

/// Length in bytes of the UTF-8 text of `s`, as `str::len` gives it.
pub open spec fn byte_len(s: Seq<char>) -> nat {
    (encode_utf8(s).len() as usize) as nat
}

/// Type name and dimensions shown for a value.
pub open spec fn description(v: ValueShape) -> (Seq<char>, Seq<char>) {
    match v {
        ValueShape::Array { len, first_map_keys } => match first_map_keys {
            Some(k) => ("Array<Map>"@, seq!['['] + decimal(len as nat) + seq!['×'] + decimal(k as nat) + seq![']']),
            None => ("Array"@, seq!['['] + decimal(len as nat) + seq![']']),
        },
        ValueShape::KeyMap { keys } => ("Map"@, decimal(keys as nat) + " keys"@),
        ValueShape::Str(s) => ("String"@, "len "@ + decimal(byte_len(s@))),
        ValueShape::Int(_) => ("i64"@, "scalar"@),
        ValueShape::Float { .. } => ("f64"@, "scalar"@),
        ValueShape::Bool(_) => ("bool"@, "scalar"@),
        ValueShape::Unit => ("()"@, "—"@),
        ValueShape::Other { kind_name, .. } => (kind_name@, "—"@),
    }
}

/// Short text of a value for a table cell.
pub open spec fn short_text(v: ValueShape) -> Seq<char> {
    match v {
        ValueShape::Float { text } => text@,
        ValueShape::Int(i) => signed_decimal(i as int),
        ValueShape::Str(s) => seq!['"'] + s@ + seq!['"'],
        ValueShape::Bool(b) => if b { "true"@ } else { "false"@ },
        ValueShape::Array { len, .. } => "Array["@ + decimal(len as nat) + seq![']'],
        ValueShape::KeyMap { keys } => "Map{"@ + decimal(keys as nat) + " keys}"@,
        ValueShape::Unit => "()"@,
        ValueShape::Other { text, .. } => text@,
    }
}

/// The number that a sequence of decimal digits denotes.
pub open spec fn digits_value(s: Seq<char>) -> int
    decreases s.len(),
{
    if s.len() == 0 {
        0
    } else {
        digits_value(s.drop_last()) * 10 + (s.last() as u32 - 48)
    }
}

proof fn lemma_digit_value(k: int)
    requires
        0 <= k < 10,
    ensures
        digit_char(k) as u32 == 48 + k,
{
    assert(((48 + k) as char) as u32 == 48 + k);
}

/// The decimal text of `n` reads back as `n`, and it starts with a zero only when `n` is zero.
pub proof fn law_decimal_reads_back(n: nat)
    ensures
        digits_value(decimal(n)) == n,
        decimal(n).len() >= 1,
        n > 0 ==> decimal(n)[0] != '0',
        forall|i: int| 0 <= i < decimal(n).len() ==> '0' <= #[trigger] decimal(n)[i] <= '9',
    decreases n,
{
    lemma_digit_value((n % 10) as int);
    if n >= 10 {
        law_decimal_reads_back(n / 10);
        let d = decimal(n);
        assert(d.drop_last() == decimal(n / 10));
        assert(d.last() == digit_char((n % 10) as int));
        assert(forall|i: int| 0 <= i < d.len() - 1 ==> d[i] == decimal(n / 10)[i]);
        assert(digits_value(d) == digits_value(decimal(n / 10)) * 10 + (n % 10));
        assert((n / 10) * 10 + n % 10 == n);
    } else {
        let d = decimal(n);
        assert(d.drop_last() =~= Seq::<char>::empty());
        assert(digits_value(d) == digits_value(Seq::<char>::empty()) * 10 + (n % 10));
    }
}

/// The digit character of `d`.
fn digit(d: u64) -> (c: char)
    requires
        d < 10,
    ensures
        c == digit_char(d as int),
{
    let b: u8 = 48u8 + d as u8;
    b as char
}

/// Appends the decimal digits of `n` to `out`.
pub fn push_decimal(out: &mut Vec<char>, n: u64)
    ensures
        final(out)@ == old(out)@ + decimal(n as nat),
    decreases n,
{
    if n < 10 {
        out.push(digit(n));
    } else {
        push_decimal(out, n / 10);
        out.push(digit(n % 10));
        proof {
            assert(decimal(n as nat) == decimal((n / 10) as nat).push(digit_char((n % 10) as int)));
        }
    }
}

/// Appends the decimal text of `i` to `out`, with a minus sign when negative.
pub fn push_signed_decimal(out: &mut Vec<char>, i: i64)
    ensures
        final(out)@ == old(out)@ + signed_decimal(i as int),
{
    if i < 0 {
        out.push('-');
        let m: u64 = (-(i + 1)) as u64 + 1;
        push_decimal(out, m);
        proof {
            assert(out@ =~= old(out)@ + (seq!['-'] + decimal((-i) as nat)));
        }
    } else {
        push_decimal(out, i as u64);
    }
}

/// Appends the characters of `s` to `out`.
pub fn push_str_chars(out: &mut Vec<char>, s: &str)
    ensures
        final(out)@ == old(out)@ + s@,
{
    let mut c = chars_of(s);
    out.append(&mut c);
}

/// Type name and dimensions shown for a value in the workspace list.
pub fn describe_value(v: &ValueShape) -> (r: (String, String))
    ensures
        (r.0@, r.1@) == description(*v),
{
    match v {
        ValueShape::Array { len, first_map_keys } => match first_map_keys {
            Some(k) => {
                let mut d: Vec<char> = Vec::new();
                d.push('[');
                push_decimal(&mut d, *len as u64);
                d.push('×');
                push_decimal(&mut d, *k as u64);
                d.push(']');
                proof {
                    assert(d@ =~= seq!['['] + decimal(*len as nat) + seq!['×'] + decimal(*k as nat) + seq![']']);
                }
                (text_of(chars_of("Array<Map>")), text_of(d))
            },
            None => {
                let mut d: Vec<char> = Vec::new();
                d.push('[');
                push_decimal(&mut d, *len as u64);
                d.push(']');
                proof {
                    assert(d@ =~= seq!['['] + decimal(*len as nat) + seq![']']);
                }
                (text_of(chars_of("Array")), text_of(d))
            },
        },
        ValueShape::KeyMap { keys } => {
            let mut d: Vec<char> = Vec::new();
            push_decimal(&mut d, *keys as u64);
            push_str_chars(&mut d, " keys");
            proof {
                assert(d@ =~= decimal(*keys as nat) + " keys"@);
            }
            (text_of(chars_of("Map")), text_of(d))
        },
        ValueShape::Str(s) => {
            let st = s.as_str();
            let n = st.len();
            let mut d: Vec<char> = Vec::new();
            push_str_chars(&mut d, "len ");
            push_decimal(&mut d, n as u64);
            proof {
                assert(st@ == s@);
                assert(d@ =~= "len "@ + decimal(byte_len(s@)));
            }
            (text_of(chars_of("String")), text_of(d))
        },
        ValueShape::Int(_) => (text_of(chars_of("i64")), text_of(chars_of("scalar"))),
        ValueShape::Float { .. } => (text_of(chars_of("f64")), text_of(chars_of("scalar"))),
        ValueShape::Bool(_) => (text_of(chars_of("bool")), text_of(chars_of("scalar"))),
        ValueShape::Unit => (text_of(chars_of("()")), text_of(chars_of("—"))),
        ValueShape::Other { kind_name, .. } => (text_of(chars_of(kind_name.as_str())), text_of(chars_of("—"))),
    }
}

/// Short text of a value for a table cell.
pub fn short_value(v: &ValueShape) -> (r: String)
    ensures
        r@ == short_text(*v),
{
    match v {
        ValueShape::Float { text } => text_of(chars_of(text.as_str())),
        ValueShape::Int(i) => {
            let mut d: Vec<char> = Vec::new();
            push_signed_decimal(&mut d, *i);
            proof {
                assert(d@ =~= signed_decimal(*i as int));
            }
            text_of(d)
        },
        ValueShape::Str(s) => {
            let mut d: Vec<char> = Vec::new();
            d.push('"');
            push_str_chars(&mut d, s.as_str());
            d.push('"');
            proof {
                assert(d@ =~= seq!['"'] + s@ + seq!['"']);
            }
            text_of(d)
        },
        ValueShape::Bool(b) => {
            if *b {
                text_of(chars_of("true"))
            } else {
                text_of(chars_of("false"))
            }
        },
        ValueShape::Array { len, .. } => {
            let mut d: Vec<char> = Vec::new();
            push_str_chars(&mut d, "Array[");
            push_decimal(&mut d, *len as u64);
            d.push(']');
            proof {
                assert(d@ =~= "Array["@ + decimal(*len as nat) + seq![']']);
            }
            text_of(d)
        },
        ValueShape::KeyMap { keys } => {
            let mut d: Vec<char> = Vec::new();
            push_str_chars(&mut d, "Map{");
            push_decimal(&mut d, *keys as u64);
            push_str_chars(&mut d, " keys}");
            proof {
                assert(d@ =~= "Map{"@ + decimal(*keys as nat) + " keys}"@);
            }
            text_of(d)
        },
        ValueShape::Unit => text_of(chars_of("()")),
        ValueShape::Other { text, .. } => text_of(chars_of(text.as_str())),
    }
}

} // verus!
