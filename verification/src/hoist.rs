//! Variable hoisting for scripts: `let` / `const` declarations lose their keyword, so the
//! declared names bind to variables that already live in the top-level scope, and the names
//! declared by `let`, `const` and `for .. in` are collected. String literals and comments are
//! left alone.
use vstd::prelude::*;
use crate::text::{
    ascii_alpha, ascii_space, char_seqs, chars_of, ident_char, is_alpha, is_ident_char, is_space,
    push_range, slice_chars, text_of,
};

verus! {

/// `kw` stands at `pos` in `c` as a whole word: it is neither preceded nor followed by a
/// letter, digit or underscore.
pub open spec fn keyword_at(c: Seq<char>, pos: int, kw: Seq<char>) -> bool {
    &&& 0 <= pos
    &&& pos + kw.len() <= c.len()
    &&& (pos == 0 || !is_ident_char(c[pos - 1]))
    &&& c.subrange(pos, pos + kw.len()) == kw
    &&& (pos + kw.len() == c.len() || !is_ident_char(c[pos + kw.len()]))
}

/// Whether `keyword` stands at `pos` in `chars` as a whole word.
pub fn starts_with_keyword(chars: &[char], pos: usize, keyword: &str) -> (r: bool)
    ensures
        r == keyword_at(chars@, pos as int, keyword@),
{
    let kw = chars_of(keyword);
    if kw.len() > chars.len() || pos > chars.len() - kw.len() {
        return false;
    }
    if pos > 0 && ident_char(chars[pos - 1]) {
        return false;
    }
    let mut j: usize = 0;
    while j < kw.len()
        invariant
            kw@ == keyword@,
            pos + kw@.len() <= chars@.len(),
            kw@.len() == kw.len(),
            chars@.len() == chars.len(),
            pos + kw.len() <= chars.len(),
            0 <= j <= kw@.len(),
            forall|k: int| 0 <= k < j ==> chars@[pos + k] == kw@[k],
        decreases kw@.len() - j,
    {
        if chars[pos + j] != kw[j] {
            proof {
                assert(chars@.subrange(pos as int, pos + kw@.len())[j as int] != kw@[j as int]);
            }
            return false;
        }
        j = j + 1;
    }
    proof {
        assert(chars@.subrange(pos as int, pos + kw@.len()) =~= kw@);
    }
    let after = pos + kw.len();
    if after < chars.len() && ident_char(chars[after]) {
        return false;
    }
    true
}

/// Index just past a literal quoted with `q` whose body starts at `k` (a backslash escapes the
/// next character); the end of the text when the literal is not closed.
pub open spec fn quote_close(c: Seq<char>, k: int, q: char) -> int
    decreases c.len() - k,
{
    if k >= c.len() {
        c.len() as int
    } else if c[k] == q {
        k + 1
    } else if c[k] == '\\' && k + 1 < c.len() {
        quote_close(c, k + 2, q)
    } else {
        quote_close(c, k + 1, q)
    }
}

/// Index of the first line feed at or after `k`, or the end of the text.
pub open spec fn line_end(c: Seq<char>, k: int) -> int
    decreases c.len() - k,
{
    if k >= c.len() {
        c.len() as int
    } else if c[k] == '\n' {
        k
    } else {
        line_end(c, k + 1)
    }
}

/// Index just past the `*/` that closes a block comment whose body starts at `k`; when there
/// is none, the index of the last character of the text.
pub open spec fn block_end(c: Seq<char>, k: int) -> int
    decreases c.len() - k,
{
    if k + 1 >= c.len() {
        k
    } else if c[k] == '*' && c[k + 1] == '/' {
        k + 2
    } else {
        block_end(c, k + 1)
    }
}

/// Index of the first non-whitespace character at or after `k`.
pub open spec fn skip_space(c: Seq<char>, k: int) -> int
    decreases c.len() - k,
{
    if 0 <= k < c.len() && is_space(c[k]) {
        skip_space(c, k + 1)
    } else {
        k
    }
}

/// Index just past the identifier characters from `k` on.
pub open spec fn ident_end(c: Seq<char>, k: int) -> int
    decreases c.len() - k,
{
    if 0 <= k < c.len() && is_ident_char(c[k]) {
        ident_end(c, k + 1)
    } else {
        k
    }
}

/// Length of the declaration keyword (`let` or `const`) standing at `i`, or 0.
pub open spec fn decl_keyword_len(c: Seq<char>, i: int) -> int {
    if keyword_at(c, i, seq!['l', 'e', 't']) {
        3
    } else if keyword_at(c, i, seq!['c', 'o', 'n', 's', 't']) {
        5
    } else {
        0
    }
}

/// Start of the name declared by the keyword at `i`.
pub open spec fn decl_name_start(c: Seq<char>, i: int) -> int {
    skip_space(c, i + decl_keyword_len(c, i))
}

/// A declaration stands at `i`: `let` or `const`, whitespace, then an identifier.
pub open spec fn decl_at(c: Seq<char>, i: int) -> bool {
    let k = decl_keyword_len(c, i);
    let j = decl_name_start(c, i);
    &&& k > 0
    &&& i + k < c.len()
    &&& is_space(c[i + k])
    &&& j < c.len()
    &&& (is_alpha(c[j]) || c[j] == '_')
}

/// Start of the loop variable of a `for` at `i`.
pub open spec fn for_name_start(c: Seq<char>, i: int) -> int {
    skip_space(c, i + 3)
}

/// A `for <name> in` loop header stands at `i`.
pub open spec fn for_at(c: Seq<char>, i: int) -> bool {
    let j = for_name_start(c, i);
    &&& keyword_at(c, i, seq!['f', 'o', 'r'])
    &&& i + 3 < c.len()
    &&& is_space(c[i + 3])
    &&& j < c.len()
    &&& (is_alpha(c[j]) || c[j] == '_')
    &&& keyword_at(c, skip_space(c, ident_end(c, j)), seq!['i', 'n'])
}

/// A string literal opens at `i`: a double quote, a single quote or a backquote (the script
/// language's interpolated strings).
pub open spec fn string_at(c: Seq<char>, i: int) -> bool {
    c[i] == '"' || c[i] == '\'' || c[i] == '`'
}

/// A line comment opens at `i`.
pub open spec fn line_comment_at(c: Seq<char>, i: int) -> bool {
    c[i] == '/' && i + 1 < c.len() && c[i + 1] == '/'
}

/// A block comment opens at `i`.
pub open spec fn block_comment_at(c: Seq<char>, i: int) -> bool {
    c[i] == '/' && i + 1 < c.len() && c[i + 1] == '*'
}

/// Index just past the token that starts at `i`: a quoted literal, a comment, a declaration up
/// to the end of its name, or a single character.
pub open spec fn token_end(c: Seq<char>, i: int) -> int {
    if string_at(c, i) {
        quote_close(c, i + 1, c[i])
    } else if line_comment_at(c, i) {
        line_end(c, i)
    } else if block_comment_at(c, i) {
        block_end(c, i + 2)
    } else if decl_at(c, i) {
        ident_end(c, decl_name_start(c, i))
    } else {
        i + 1
    }
}

/// `n` spaces.
pub open spec fn spaces(n: int) -> Seq<char> {
    Seq::new(n as nat, |k: int| ' ')
}

/// The rewritten text of the token at `i`: a declaration keyword becomes spaces, everything
/// else is copied.
pub open spec fn token_text(c: Seq<char>, i: int) -> Seq<char> {
    if !string_at(c, i) && !line_comment_at(c, i) && !block_comment_at(c, i) && decl_at(c, i) {
        spaces(decl_keyword_len(c, i)) + c.subrange(i + decl_keyword_len(c, i), token_end(c, i))
    } else {
        c.subrange(i, token_end(c, i))
    }
}

/// Names declared by the token at `i`: the name of a declaration or the variable of a `for`.
pub open spec fn token_names(c: Seq<char>, i: int) -> Seq<Seq<char>> {
    if string_at(c, i) || line_comment_at(c, i) || block_comment_at(c, i) {
        Seq::empty()
    } else if decl_at(c, i) {
        seq![c.subrange(decl_name_start(c, i), token_end(c, i))]
    } else if for_at(c, i) {
        seq![c.subrange(for_name_start(c, i), ident_end(c, for_name_start(c, i)))]
    } else {
        Seq::empty()
    }
}

pub proof fn lemma_quote_close(c: Seq<char>, k: int, q: char)
    requires
        0 <= k <= c.len(),
    ensures
        k <= quote_close(c, k, q) <= c.len(),
    decreases c.len() - k,
{
    if k < c.len() && c[k] != q {
        if c[k] == '\\' && k + 1 < c.len() {
            lemma_quote_close(c, k + 2, q);
        } else {
            lemma_quote_close(c, k + 1, q);
        }
    }
}

pub proof fn lemma_line_end(c: Seq<char>, k: int)
    requires
        0 <= k <= c.len(),
    ensures
        k <= line_end(c, k) <= c.len(),
    decreases c.len() - k,
{
    if k < c.len() && c[k] != '\n' {
        lemma_line_end(c, k + 1);
    }
}

pub proof fn lemma_block_end(c: Seq<char>, k: int)
    requires
        0 <= k <= c.len(),
    ensures
        k <= block_end(c, k) <= c.len(),
    decreases c.len() - k,
{
    if k + 1 < c.len() && !(c[k] == '*' && c[k + 1] == '/') {
        lemma_block_end(c, k + 1);
    }
}

pub proof fn lemma_skip_space(c: Seq<char>, k: int)
    requires
        0 <= k,
    ensures
        k <= skip_space(c, k),
        k <= c.len() ==> skip_space(c, k) <= c.len(),
    decreases c.len() - k,
{
    if 0 <= k < c.len() && is_space(c[k]) {
        lemma_skip_space(c, k + 1);
    }
}

pub proof fn lemma_ident_end(c: Seq<char>, k: int)
    requires
        0 <= k,
    ensures
        k <= ident_end(c, k),
        k <= c.len() ==> ident_end(c, k) <= c.len(),
    decreases c.len() - k,
{
    if 0 <= k < c.len() && is_ident_char(c[k]) {
        lemma_ident_end(c, k + 1);
    }
}

/// Every token moves forward and stays inside the text.
pub proof fn lemma_token_end(c: Seq<char>, i: int)
    requires
        0 <= i < c.len(),
    ensures
        i < token_end(c, i) <= c.len(),
{
    if string_at(c, i) {
        lemma_quote_close(c, i + 1, c[i]);
    } else if line_comment_at(c, i) {
        lemma_line_end(c, i + 1);
    } else if block_comment_at(c, i) {
        lemma_block_end(c, i + 2);
    } else if decl_at(c, i) {
        lemma_skip_space(c, i + decl_keyword_len(c, i));
        lemma_ident_end(c, decl_name_start(c, i));
    }
}

/// The script rewritten from index `i` on.
pub open spec fn hoisted_text(c: Seq<char>, i: int) -> Seq<char>
    decreases c.len() - i,
{
    if 0 <= i < c.len() {
        proof {
            lemma_token_end(c, i);
        }
        token_text(c, i) + hoisted_text(c, token_end(c, i))
    } else {
        Seq::empty()
    }
}

/// The names declared from index `i` on, in order of appearance.
pub open spec fn declared_names(c: Seq<char>, i: int) -> Seq<Seq<char>>
    decreases c.len() - i,
{
    if 0 <= i < c.len() {
        proof {
            lemma_token_end(c, i);
        }
        token_names(c, i) + declared_names(c, token_end(c, i))
    } else {
        Seq::empty()
    }
}

/// The elements of `s` without repeats, each at its first occurrence.
pub open spec fn first_occurrences(s: Seq<Seq<char>>) -> Seq<Seq<char>>
    decreases s.len(),
{
    if s.len() == 0 {
        Seq::empty()
    } else {
        let p = first_occurrences(s.drop_last());
        if p.contains(s.last()) {
            p
        } else {
            p.push(s.last())
        }
    }
}

/// The rewritten text of a token is as long as the token, and each of its characters is the
/// script's character at that place or a space.
proof fn lemma_token_text(c: Seq<char>, i: int)
    requires
        0 <= i < c.len(),
    ensures
        token_text(c, i).len() == token_end(c, i) - i,
        forall|j: int| 0 <= j < token_text(c, i).len() ==> #[trigger] token_text(c, i)[j] == c[i + j] || token_text(c, i)[j] == ' ',
{
    lemma_token_end(c, i);
    if !string_at(c, i) && !line_comment_at(c, i) && !block_comment_at(c, i) && decl_at(c, i) {
        let k = decl_keyword_len(c, i);
        lemma_skip_space(c, i + k);
        lemma_ident_end(c, decl_name_start(c, i));
        let t = token_text(c, i);
        assert forall|j: int| 0 <= j < t.len() implies #[trigger] t[j] == c[i + j] || t[j] == ' ' by {
            if j < k {
                assert(t[j] == spaces(k)[j]);
            } else {
                assert(t[j] == c.subrange(i + k, token_end(c, i))[j - k]);
            }
        }
    }
}

proof fn lemma_hoisted_from(c: Seq<char>, i: int)
    requires
        0 <= i <= c.len(),
    ensures
        hoisted_text(c, i).len() == c.len() - i,
        forall|j: int| 0 <= j < c.len() - i ==> #[trigger] hoisted_text(c, i)[j] == c[i + j] || hoisted_text(c, i)[j] == ' ',
    decreases c.len() - i,
{
    if i < c.len() {
        lemma_token_end(c, i);
        lemma_token_text(c, i);
        let e = token_end(c, i);
        lemma_hoisted_from(c, e);
        let t = token_text(c, i);
        let h = hoisted_text(c, i);
        assert(h == t + hoisted_text(c, e));
        assert forall|j: int| 0 <= j < c.len() - i implies #[trigger] h[j] == c[i + j] || h[j] == ' ' by {
            if j < t.len() {
                assert(h[j] == t[j]);
            } else {
                assert(h[j] == hoisted_text(c, e)[j - t.len()]);
            }
        }
    }
}

/// Hoisting keeps every character in its column: the rewritten script is as long as the
/// script, and each of its characters is the script's character at that place or a space.
pub proof fn law_hoist_keeps_columns(c: Seq<char>)
    ensures
        hoisted_text(c, 0).len() == c.len(),
        forall|j: int| 0 <= j < c.len() ==> #[trigger] hoisted_text(c, 0)[j] == c[j] || hoisted_text(c, 0)[j] == ' ',
{
    lemma_hoisted_from(c, 0);
    assert forall|j: int| 0 <= j < c.len() implies #[trigger] hoisted_text(c, 0)[j] == c[j] || hoisted_text(c, 0)[j] == ' ' by {
        assert(hoisted_text(c, 0)[j] == c[0 + j] || hoisted_text(c, 0)[j] == ' ');
    }
}

/// The hoisted names hold no name twice, and every one of them is declared in the script.
pub proof fn law_hoisted_names_unique(s: Seq<Seq<char>>)
    ensures
        first_occurrences(s).no_duplicates(),
        forall|n: Seq<char>| first_occurrences(s).contains(n) <==> s.contains(n),
    decreases s.len(),
{
    if s.len() > 0 {
        law_hoisted_names_unique(s.drop_last());
        let p = first_occurrences(s.drop_last());
        assert forall|n: Seq<char>| first_occurrences(s).contains(n) <==> s.contains(n) by {
            if s.contains(n) {
                let k = choose|k: int| 0 <= k < s.len() && s[k] == n;
                if k < s.len() - 1 {
                    assert(s.drop_last()[k] == n);
                }
            }
            if s.drop_last().contains(n) {
                let k = choose|k: int| 0 <= k < s.drop_last().len() && s.drop_last()[k] == n;
                assert(s[k] == n);
            }
            if !p.contains(s.last()) {
                if p.push(s.last()).contains(n) {
                    let k = choose|k: int| 0 <= k < p.push(s.last()).len() && p.push(s.last())[k] == n;
                    if k < p.len() {
                        assert(p.contains(n));
                    }
                }
                if p.contains(n) {
                    let k = choose|k: int| 0 <= k < p.len() && p[k] == n;
                    assert(p.push(s.last())[k] == n);
                }
                if n == s.last() {
                    assert(p.push(s.last())[p.len() as int] == n);
                }
            }
        }
    }
}

} // verus!

verus! {

fn quote_close_at(c: &Vec<char>, k0: usize, q: char) -> (r: usize)
    requires
        k0 <= c@.len(),
    ensures
        r == quote_close(c@, k0 as int, q),
{
    let n = c.len();
    let mut k = k0;
    while k < n && c[k] != q
        invariant
            n == c@.len(),
            k <= n,
            quote_close(c@, k as int, q) == quote_close(c@, k0 as int, q),
        decreases n - k,
    {
        if c[k] == '\\' && k + 1 < n {
            k = k + 2;
        } else {
            k = k + 1;
        }
    }
    if k < n {
        k + 1
    } else {
        n
    }
}

fn line_end_at(c: &Vec<char>, k0: usize) -> (r: usize)
    requires
        k0 <= c@.len(),
    ensures
        r == line_end(c@, k0 as int),
{
    let n = c.len();
    let mut k = k0;
    while k < n && c[k] != '\n'
        invariant
            n == c@.len(),
            k <= n,
            line_end(c@, k as int) == line_end(c@, k0 as int),
        decreases n - k,
    {
        k = k + 1;
    }
    k
}

fn block_end_at(c: &Vec<char>, k0: usize) -> (r: usize)
    requires
        k0 <= c@.len(),
    ensures
        r == block_end(c@, k0 as int),
{
    let n = c.len();
    let mut k = k0;
    while k < n && k + 1 < n && !(c[k] == '*' && c[k + 1] == '/')
        invariant
            n == c@.len(),
            k <= n,
            block_end(c@, k as int) == block_end(c@, k0 as int),
        decreases n - k,
    {
        k = k + 1;
    }
    if k < n && k + 1 < n {
        k + 2
    } else {
        k
    }
}

fn skip_space_at(c: &Vec<char>, k0: usize) -> (r: usize)
    requires
        k0 <= c@.len(),
    ensures
        r == skip_space(c@, k0 as int),
        r <= c@.len(),
{
    let n = c.len();
    let mut k = k0;
    while k < n && ascii_space(c[k])
        invariant
            n == c@.len(),
            k <= n,
            skip_space(c@, k as int) == skip_space(c@, k0 as int),
        decreases n - k,
    {
        k = k + 1;
    }
    k
}

fn ident_end_at(c: &Vec<char>, k0: usize) -> (r: usize)
    requires
        k0 <= c@.len(),
    ensures
        r == ident_end(c@, k0 as int),
        k0 <= r <= c@.len(),
{
    let n = c.len();
    let mut k = k0;
    while k < n && ident_char(c[k])
        invariant
            n == c@.len(),
            k0 <= k <= n,
            ident_end(c@, k as int) == ident_end(c@, k0 as int),
        decreases n - k,
    {
        k = k + 1;
    }
    k
}

/// Whether two character vectors are equal.
fn same_chars(a: &Vec<char>, b: &Vec<char>) -> (r: bool)
    ensures
        r == (a@ == b@),
{
    if a.len() != b.len() {
        return false;
    }
    let mut k: usize = 0;
    while k < a.len()
        invariant
            a@.len() == b@.len(),
            k <= a@.len(),
            forall|j: int| 0 <= j < k ==> a@[j] == b@[j],
        decreases a@.len() - k,
    {
        if a[k] != b[k] {
            return false;
        }
        k = k + 1;
    }
    proof {
        assert(a@ =~= b@);
    }
    true
}

/// Adds `name` to `names` unless it is already there.
fn add_name(names: &mut Vec<Vec<char>>, name: Vec<char>)
    ensures
        char_seqs(final(names)@) == if char_seqs(old(names)@).contains(name@) {
            char_seqs(old(names)@)
        } else {
            char_seqs(old(names)@).push(name@)
        },
{
    let mut k: usize = 0;
    while k < names.len()
        invariant
            k <= names@.len(),
            forall|j: int| 0 <= j < k ==> names@[j]@ != name@,
        decreases names@.len() - k,
    {
        if same_chars(&names[k], &name) {
            proof {
                assert(char_seqs(names@)[k as int] == name@);
            }
            return;
        }
        k = k + 1;
    }
    proof {
        assert forall|j: int| 0 <= j < char_seqs(names@).len() implies char_seqs(names@)[j] != name@ by {
            assert(char_seqs(names@)[j] == names@[j]@);
        }
    }
    let ghost before = names@;
    names.push(name);
    proof {
        assert(char_seqs(names@) =~= char_seqs(before).push(name@));
    }
}

} // verus!

verus! {

proof fn lemma_first_occurrences_push(seen: Seq<Seq<char>>, n: Seq<char>)
    ensures
        first_occurrences(seen + seq![n]) == if first_occurrences(seen).contains(n) {
            first_occurrences(seen)
        } else {
            first_occurrences(seen).push(n)
        },
{
    assert(seen + seq![n] =~= seen.push(n));
    assert(seen.push(n).drop_last() =~= seen);
}

/// `n` spaces.
fn push_spaces(out: &mut Vec<char>, n: usize)
    ensures
        final(out)@ == old(out)@ + spaces(n as int),
{
    let mut k: usize = 0;
    while k < n
        invariant
            k <= n,
            out@ == old(out)@ + spaces(k as int),
        decreases n - k,
    {
        out.push(' ');
        proof {
            assert(spaces(k + 1) =~= spaces(k as int).push(' '));
        }
        k = k + 1;
    }
}

/// Handles the token at `i` that is neither a literal nor a comment: a declaration loses its
/// keyword, a `for` loop variable is recorded, any other character is copied.
fn hoist_plain_token(
    c: &Vec<char>,
    i: usize,
    out: &mut Vec<char>,
    names: &mut Vec<Vec<char>>,
    Ghost(seen): Ghost<Seq<Seq<char>>>,
) -> (next: usize)
    requires
        i < c@.len(),
        !string_at(c@, i as int),
        !line_comment_at(c@, i as int),
        !block_comment_at(c@, i as int),
        "let"@ == seq!['l', 'e', 't'],
        "const"@ == seq!['c', 'o', 'n', 's', 't'],
        "for"@ == seq!['f', 'o', 'r'],
        "in"@ == seq!['i', 'n'],
        char_seqs(old(names)@) == first_occurrences(seen),
    ensures
        next == token_end(c@, i as int),
        final(out)@ == old(out)@ + token_text(c@, i as int),
        char_seqs(final(names)@) == first_occurrences(seen + token_names(c@, i as int)),
{
    let ghost cs = c@;
    let ghost gi = i as int;
    let n = c.len();
    let ch = c[i];
    let klen: usize = if starts_with_keyword(c.as_slice(), i, "let") {
        3
    } else if starts_with_keyword(c.as_slice(), i, "const") {
        5
    } else {
        0
    };
    proof {
        assert(klen == decl_keyword_len(cs, gi));
    }
    if klen > 0 && i + klen < n && ascii_space(c[i + klen]) {
        let j = skip_space_at(&c, i + klen);
        if j < n && (ascii_alpha(c[j]) || c[j] == '_') {
            proof {
                lemma_skip_space(cs, gi + klen);
                assert(decl_at(cs, gi));
            }
            let e = ident_end_at(&c, j);
            let name = slice_chars(&c, j, e);
            add_name(names, name);
            proof {
                lemma_first_occurrences_push(seen, cs.subrange(j as int, e as int));
            }
            push_spaces(out, klen);
            push_range(out, &c, i + klen, e);
            proof {
                assert(token_text(cs, gi) == spaces(klen as int) + cs.subrange(gi + klen, e as int));
                assert(out@ =~= old(out)@ + token_text(cs, gi));
            }
            return e;
        }
    }
    proof {
        assert(!decl_at(cs, gi));
    }
    let mut is_for = false;
    let mut fj: usize = 0;
    let mut fe: usize = 0;
    if starts_with_keyword(c.as_slice(), i, "for") && i + 3 < n && ascii_space(c[i + 3]) {
        let j = skip_space_at(&c, i + 3);
        if j < n && (ascii_alpha(c[j]) || c[j] == '_') {
            let e = ident_end_at(&c, j);
            let k = skip_space_at(&c, e);
            if starts_with_keyword(c.as_slice(), k, "in") {
                is_for = true;
                fj = j;
                fe = e;
            }
        }
    }
    proof {
        assert(is_for == for_at(cs, gi));
    }
    if is_for {
        let name = slice_chars(&c, fj, fe);
        add_name(names, name);
        proof {
            lemma_first_occurrences_push(seen, cs.subrange(fj as int, fe as int));
        }
    } else {
        proof {
            assert(token_names(cs, gi) =~= Seq::<Seq<char>>::empty());
            assert(seen + Seq::<Seq<char>>::empty() =~= seen);
        }
    }
    let ghost before = out@;
    out.push(ch);
    proof {
        assert(token_text(cs, gi) =~= seq![ch]);
        assert(before.push(ch) =~= before + seq![ch]);
    }
    i + 1
}

/// Handles the token at `i`, appending its rewritten text to `out` and its declared names to `names`.
fn hoist_token(
    c: &Vec<char>,
    i: usize,
    out: &mut Vec<char>,
    names: &mut Vec<Vec<char>>,
    Ghost(seen): Ghost<Seq<Seq<char>>>,
) -> (next: usize)
    requires
        i < c@.len(),
        "let"@ == seq!['l', 'e', 't'],
        "const"@ == seq!['c', 'o', 'n', 's', 't'],
        "for"@ == seq!['f', 'o', 'r'],
        "in"@ == seq!['i', 'n'],
        char_seqs(old(names)@) == first_occurrences(seen),
    ensures
        next == token_end(c@, i as int),
        final(out)@ == old(out)@ + token_text(c@, i as int),
        char_seqs(final(names)@) == first_occurrences(seen + token_names(c@, i as int)),
{
    let ghost cs = c@;
    let ghost gi = i as int;
    let n = c.len();
    let ch = c[i];
    if ch == '"' || ch == '\'' || ch == '`' || (ch == '/' && i + 1 < n && (c[i + 1] == '/' || c[i + 1] == '*')) {
        let next = if ch == '"' || ch == '\'' || ch == '`' {
            quote_close_at(&c, i + 1, ch)
        } else if c[i + 1] == '/' {
            line_end_at(&c, i)
        } else {
            block_end_at(&c, i + 2)
        };
        proof {
            lemma_token_end(cs, gi);
        }
        push_range(out, &c, i, next);
        proof {
            assert(token_names(cs, gi) =~= Seq::<Seq<char>>::empty());
            assert(seen + Seq::<Seq<char>>::empty() =~= seen);
        }
        next
    } else {
        hoist_plain_token(c, i, out, names, Ghost(seen))
    }
}

/// Rewrites `script` so that `let` and `const` declarations bind to variables of the top-level
/// scope: each declaration keyword outside string literals and comments is replaced by as many
/// spaces (keeping columns aligned). Returns the rewritten script and the names declared by
/// `let`, `const` and `for .. in`, each once, in order of first appearance.
pub fn hoist_variables(script: &str) -> (r: (String, Vec<String>))
    ensures
        r.0@ == hoisted_text(script@, 0),
        r.1@.map_values(|s: String| s@) == first_occurrences(declared_names(script@, 0)),
{
    let c = chars_of(script);
    let n = c.len();
    let mut out: Vec<char> = Vec::new();
    let mut names: Vec<Vec<char>> = Vec::new();
    let ghost mut seen: Seq<Seq<char>> = Seq::empty();
    let mut i: usize = 0;
    proof {
        reveal_strlit("let");
        reveal_strlit("const");
        reveal_strlit("for");
        reveal_strlit("in");
        assert(out@ + hoisted_text(c@, 0) =~= hoisted_text(c@, 0));
        assert(seen + declared_names(c@, 0) =~= declared_names(c@, 0));
        assert(char_seqs(names@) =~= first_occurrences(seen));
    }
    while i < n
        invariant
            c@ == script@,
            n == c@.len(),
            i <= n,
            "let"@ == seq!['l', 'e', 't'],
            "const"@ == seq!['c', 'o', 'n', 's', 't'],
            "for"@ == seq!['f', 'o', 'r'],
            "in"@ == seq!['i', 'n'],
            out@ + hoisted_text(c@, i as int) == hoisted_text(c@, 0),
            seen + declared_names(c@, i as int) == declared_names(c@, 0),
            char_seqs(names@) == first_occurrences(seen),
        decreases n - i,
    {
        let ghost cs = c@;
        let ghost gi = i as int;
        let ghost old_out = out@;
        proof {
            lemma_token_end(cs, gi);
        }
        let next = hoist_token(&c, i, &mut out, &mut names, Ghost(seen));
        proof {
            assert(hoisted_text(cs, gi) == token_text(cs, gi) + hoisted_text(cs, token_end(cs, gi)));
            assert(declared_names(cs, gi) == token_names(cs, gi) + declared_names(cs, token_end(cs, gi)));
            assert(out@ + hoisted_text(cs, next as int) =~= old_out + hoisted_text(cs, gi));
            assert((seen + token_names(cs, gi)) + declared_names(cs, next as int) =~= seen + declared_names(cs, gi));
            seen = seen + token_names(cs, gi);
        }
        i = next;
    }
    let text = text_of(out);
    let mut result: Vec<String> = Vec::new();
    let mut k: usize = 0;
    while k < names.len()
        invariant
            k <= names@.len(),
            result@.len() == k,
            forall|j: int| 0 <= j < k ==> (#[trigger] result@[j])@ == names@[j]@,
        decreases names@.len() - k,
    {
        let copy = slice_chars(&names[k], 0, names[k].len());
        proof {
            assert(names@[k as int]@.subrange(0, names@[k as int]@.len() as int) =~= names@[k as int]@);
        }
        result.push(text_of(copy));
        k = k + 1;
    }
    proof {
        assert(hoisted_text(c@, n as int) =~= Seq::<char>::empty());
        assert(out@ =~= hoisted_text(c@, 0));
        assert(declared_names(c@, n as int) =~= Seq::<Seq<char>>::empty());
        assert(seen =~= declared_names(c@, 0));
        assert(result@.map_values(|s: String| s@) =~= char_seqs(names@));
    }
    (text, result)
}

} // verus!
