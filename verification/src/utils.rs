//! Settings files may hold comment lines that YAML does not know.

use vstd::prelude::*;

verus! {

/// The line feed.
pub const NEWLINE: u8 = 0x0a;

/// `/`
pub const SLASH: u8 = 0x2f;

/// Space or tab.
pub open spec fn is_blank(b: u8) -> bool {
    b == 0x20 || b == 0x09
}

/// The first position at or after `i` that holds no space or tab.
pub open spec fn blank_end(s: Seq<u8>, i: int) -> int
    decreases s.len() - i,
{
    if 0 <= i < s.len() && is_blank(s[i]) {
        blank_end(s, i + 1)
    } else {
        i
    }
}

/// The first position at or after `i` that holds a line feed; the length of
/// the text where none follows.
pub open spec fn line_end(s: Seq<u8>, i: int) -> int
    decreases s.len() - i,
{
    if 0 <= i < s.len() && s[i] != NEWLINE {
        line_end(s, i + 1)
    } else {
        i
    }
}

/// Whether the line that starts at `i` is a comment: after spaces and tabs,
/// if any, it starts with two slashes.
pub open spec fn is_comment_line(s: Seq<u8>, i: int) -> bool {
    let j: int = blank_end(s, i);
    0 <= j && j + 1 < s.len() && s[j] == SLASH && s[j + 1] == SLASH
}

/// Where the line after the one that starts at `i` starts.
pub open spec fn next_line(s: Seq<u8>, i: int) -> int {
    if line_end(s, i) < s.len() {
        line_end(s, i) + 1
    } else {
        line_end(s, i)
    }
}

/// The text from `i` on, where a line starts, without its comment lines.
/// Every other line stays as it is, with its line feed.
pub open spec fn without_comments(s: Seq<u8>, i: int) -> Seq<u8>
    decreases s.len() - i,
{
    if i < 0 || i >= s.len() || next_line(s, i) <= i || next_line(s, i) > s.len() {
        Seq::empty()
    } else if is_comment_line(s, i) {
        without_comments(s, next_line(s, i))
    } else {
        s.subrange(i, next_line(s, i)) + without_comments(s, next_line(s, i))
    }
}

proof fn lemma_line_end_bounds(s: Seq<u8>, i: int)
    requires
        0 <= i <= s.len(),
    ensures
        i <= line_end(s, i) <= s.len(),
    decreases s.len() - i,
{
    if i < s.len() && s[i] != NEWLINE {
        lemma_line_end_bounds(s, i + 1);
    }
}

fn skip_blank(s: &[u8], i: usize) -> (r: usize)
    requires
        i <= s.len(),
    ensures
        r == blank_end(s@, i as int),
        i <= r <= s.len(),
{
    let mut j: usize = i;
    while j < s.len() && (s[j] == 0x20 || s[j] == 0x09)
        invariant
            i <= j <= s.len(),
            blank_end(s@, i as int) == blank_end(s@, j as int),
        decreases s.len() - j,
    {
        j = j + 1;
    }
    j
}

fn find_line_end(s: &[u8], i: usize) -> (r: usize)
    requires
        i <= s.len(),
    ensures
        r == line_end(s@, i as int),
        i <= r <= s.len(),
{
    let mut j: usize = i;
    while j < s.len() && s[j] != NEWLINE
        invariant
            i <= j <= s.len(),
            line_end(s@, i as int) == line_end(s@, j as int),
        decreases s.len() - j,
    {
        j = j + 1;
    }
    j
}

/// Removes the comment lines of a settings file: each line that starts, after
/// spaces and tabs, with `//`.
pub fn remove_comments(text: &[u8]) -> (r: Vec<u8>)
    ensures
        r@ == without_comments(text@, 0),
{
    let mut out: Vec<u8> = Vec::new();
    let mut i: usize = 0;
    assert(out@ + without_comments(text@, 0) =~= without_comments(text@, 0));
    while i < text.len()
        invariant
            i <= text.len(),
            without_comments(text@, 0) == out@ + without_comments(text@, i as int),
        decreases text.len() - i,
    {
        let end: usize = find_line_end(text, i);
        let next: usize = if end < text.len() {
            end + 1
        } else {
            end
        };
        let j: usize = skip_blank(text, i);
        let comment: bool = j < text.len() && text.len() - j > 1 && text[j] == SLASH && text[j + 1]
            == SLASH;
        let ghost rest = without_comments(text@, next as int);
        if !comment {
            let ghost before = out@;
            let mut k: usize = i;
            while k < next
                invariant
                    i <= k <= next <= text.len(),
                    out@ == before + text@.subrange(i as int, k as int),
                decreases next - k,
            {
                out.push(text[k]);
                assert(out@ =~= before + text@.subrange(i as int, k + 1));
                k = k + 1;
            }
            assert(out@ + rest =~= before + (text@.subrange(i as int, next as int) + rest));
        }
        i = next;
    }
    assert(out@ + without_comments(text@, i as int) =~= out@);
    out
}

} // verus!
