//! The line format of item lists: one item per line, blank lines and lines
//! starting with `#` skipped, and a recipe line `a + b -> c` naming its result.
use vstd::prelude::*;

verus! {

/// The characters `char::is_whitespace` accepts: Unicode's White_Space.
pub open spec fn is_space(c: char) -> bool {
    ||| c == '\t' || c == '\n' || c == '\u{0B}' || c == '\u{0C}' || c == '\r' || c == ' '
    ||| c == '\u{85}' || c == '\u{A0}' || c == '\u{1680}'
    ||| ('\u{2000}' <= c && c <= '\u{200A}')
    ||| c == '\u{2028}' || c == '\u{2029}' || c == '\u{202F}' || c == '\u{205F}' || c == '\u{3000}'
}

fn space(c: char) -> (r: bool)
    ensures
        r == is_space(c),
{
    c == '\t' || c == '\n' || c == '\u{0B}' || c == '\u{0C}' || c == '\r' || c == ' ' || c == '\u{85}'
        || c == '\u{A0}' || c == '\u{1680}' || ('\u{2000}' <= c && c <= '\u{200A}') || c == '\u{2028}'
        || c == '\u{2029}' || c == '\u{202F}' || c == '\u{205F}' || c == '\u{3000}'
}

/// The first position at or after `i` that holds no white space.
pub open spec fn skip_space(l: Seq<char>, i: int) -> int
    decreases l.len() - i,
{
    if i < 0 || i >= l.len() || !is_space(l[i]) {
        i
    } else {
        skip_space(l, i + 1)
    }
}

/// The end of `l[lo..e]` once trailing white space is dropped.
pub open spec fn drop_space(l: Seq<char>, lo: int, e: int) -> int
    decreases e - lo,
{
    if e <= lo || e > l.len() || !is_space(l[e - 1]) {
        e
    } else {
        drop_space(l, lo, e - 1)
    }
}

/// `l[j - 4..j]` is the arrow ` -> `.
pub open spec fn arrow_at(l: Seq<char>, j: int) -> bool {
    4 <= j <= l.len() && l[j - 4] == ' ' && l[j - 3] == '-' && l[j - 2] == '>' && l[j - 1] == ' '
}

/// The end of the last arrow within `l[lo..j]`.
pub open spec fn last_arrow(l: Seq<char>, lo: int, j: int) -> Option<int>
    decreases j - lo,
{
    if j < lo + 4 {
        None
    } else if arrow_at(l, j) {
        Some(j)
    } else {
        last_arrow(l, lo, j - 1)
    }
}

/// Where the item of a line stands: the line without surrounding white
/// space, after its last arrow if it has one; none for a blank line or a
/// comment.
pub open spec fn item_span(l: Seq<char>) -> Option<(int, int)> {
    let s = skip_space(l, 0);
    let e = drop_space(l, s, l.len() as int);
    if s >= e || l[s] == '#' {
        None
    } else {
        match last_arrow(l, s, e) {
            Some(j) => Some((j, e)),
            None => Some((s, e)),
        }
    }
}

/// The positions `[a, b)` of the item that `line` names, if any.
pub fn element_span(line: &[char]) -> (r: Option<(usize, usize)>)
    ensures
        match item_span(line@) {
            Some((a, b)) => r == Some((a as usize, b as usize)),
            None => r is None,
        },
        r matches Some((a, b)) ==> a <= b <= line@.len(),
{
    let n = line.len();
    let mut s: usize = 0;
    while s < n && space(line[s])
        invariant
            s <= n,
            n == line@.len(),
            skip_space(line@, 0) == skip_space(line@, s as int),
        decreases n - s,
    {
        s += 1;
    }
    let mut e: usize = n;
    while e > s && space(line[e - 1])
        invariant
            s <= e <= n,
            n == line@.len(),
            drop_space(line@, s as int, n as int) == drop_space(line@, s as int, e as int),
        decreases e,
    {
        e -= 1;
    }
    assert(skip_space(line@, s as int) == s);
    assert(drop_space(line@, s as int, e as int) == e);
    if s >= e || line[s] == '#' {
        return None;
    }
    let mut j: usize = e;
    while j >= 4 && j - 4 >= s
        invariant
            s < e,
            s <= j <= e,
            s == skip_space(line@, 0),
            e == drop_space(line@, s as int, n as int),
            line@[s as int] != '#',
            e <= n,
            n == line@.len(),
            last_arrow(line@, s as int, e as int) == last_arrow(line@, s as int, j as int),
        decreases j,
    {
        if line[j - 4] == ' ' && line[j - 3] == '-' && line[j - 2] == '>' && line[j - 1] == ' ' {
            return Some((j, e));
        }
        j -= 1;
    }
    Some((s, e))
}

} // verus!
