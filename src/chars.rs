//! Character classes and positions in a text, shared by the two lexers.

use vstd::prelude::*;

verus! {

/// The Unicode White_Space property, which `char::is_whitespace` follows.
pub open spec fn is_white(c: char) -> bool {
    ||| ('\u{9}' <= c && c <= '\u{d}')
    ||| c == ' '
    ||| c == '\u{85}'
    ||| c == '\u{a0}'
    ||| c == '\u{1680}'
    ||| ('\u{2000}' <= c && c <= '\u{200a}')
    ||| c == '\u{2028}'
    ||| c == '\u{2029}'
    ||| c == '\u{202f}'
    ||| c == '\u{205f}'
    ||| c == '\u{3000}'
}

/// An upper-case ASCII letter.
pub open spec fn is_upper(c: char) -> bool {
    'A' <= c && c <= 'Z'
}

pub fn char_is_whitespace(c: char) -> (r: bool)
    ensures
        r == is_white(c),
{
    ('\u{9}' <= c && c <= '\u{d}') || c == ' ' || c == '\u{85}' || c == '\u{a0}' || c == '\u{1680}'
        || ('\u{2000}' <= c && c <= '\u{200a}') || c == '\u{2028}' || c == '\u{2029}' || c == '\u{202f}'
        || c == '\u{205f}' || c == '\u{3000}'
}

pub fn char_is_upper(c: char) -> (r: bool)
    ensures
        r == is_upper(c),
{
    'A' <= c && c <= 'Z'
}

/// The line of index `i` of `t`, counting from 1.
pub open spec fn line_at(t: Seq<char>, i: int) -> int
    decreases i,
{
    if i <= 0 {
        1
    } else {
        line_at(t, i - 1) + if t[i - 1] == '\n' { 1int } else { 0int }
    }
}

/// The column of index `i` of `t`, counting from 1.
pub open spec fn col_at(t: Seq<char>, i: int) -> int
    decreases i,
{
    if i <= 0 {
        1
    } else if t[i - 1] == '\n' {
        1
    } else {
        col_at(t, i - 1) + 1
    }
}

pub proof fn lemma_line_col_bounds(t: Seq<char>, i: int)
    requires
        0 <= i,
    ensures
        1 <= line_at(t, i) <= i + 1,
        1 <= col_at(t, i) <= i + 1,
    decreases i,
{
    if i > 0 {
        lemma_line_col_bounds(t, i - 1);
    }
}

/// A `'` at `c` that begins a token: at the start of the text, or after
/// white space or an angle bracket. A `'` inside a word (`E'`) begins none.
pub open spec fn comment_start(t: Seq<char>, c: int) -> bool {
    &&& 0 <= c < t.len()
    &&& t[c] == '\''
    &&& (c == 0 || is_white(t[c - 1]) || t[c - 1] == '<' || t[c - 1] == '>')
}

/// Index `k` is inside a comment: one begins at or before it with no line
/// end in between.
pub open spec fn in_comment(t: Seq<char>, k: int) -> bool {
    exists|c: int| 0 <= c <= k && #[trigger] comment_start(t, c) && forall|m: int| c <= m < k ==> #[trigger] t[m] != '\n'
}

} // verus!
