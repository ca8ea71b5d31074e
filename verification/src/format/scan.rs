//! Scanning text by position: finding characters, skipping blanks, and numbering lines.
use vstd::prelude::*;
use crate::text::{nat_text, push_str, push_usize};

verus! {

/// The first position in `[p, e)` that holds `c`, or `e` when none does.
pub open spec fn find_char(s: Seq<char>, p: int, e: int, c: char) -> int
    decreases e - p,
{
    if p >= e {
        e
    } else if s[p] == c {
        p
    } else {
        find_char(s, p + 1, e, c)
    }
}

/// `find_char` stays within `[p, e]`, and no position before it holds `c`.
pub proof fn lemma_find_char(s: Seq<char>, p: int, e: int, c: char)
    requires
        p <= e,
    ensures
        p <= find_char(s, p, e, c) <= e,
        forall|q: int| p <= q < find_char(s, p, e, c) ==> s[q] != c,
        find_char(s, p, e, c) < e ==> s[find_char(s, p, e, c)] == c,
    decreases e - p,
{
    if p < e && s[p] != c {
        lemma_find_char(s, p + 1, e, c);
    }
}

/// Finds `c` in `s[p..e]` (see `find_char`).
pub fn find_char_exec(s: &[char], p: usize, e: usize, c: char) -> (r: usize)
    requires
        p <= e <= s.len(),
    ensures
        r == find_char(s@, p as int, e as int, c),
{
    let mut q = p;
    while q < e && s[q] != c
        invariant
            p <= q <= e,
            e <= s.len(),
            find_char(s@, p as int, e as int, c) == find_char(s@, q as int, e as int, c),
        decreases e - q,
    {
        q = q + 1;
    }
    q
}

/// The end of the line that position `p` is on: the next line feed, or the end of the text.
pub open spec fn line_end(s: Seq<char>, p: int) -> int {
    find_char(s, p, s.len() as int, '\n')
}

/// A blank within a line: space, tab, or the carriage return of a CRLF line ending.
pub open spec fn is_hws(c: char) -> bool {
    c == ' ' || c == '\t' || c == '\r'
}

/// The first position from `p` on that is not a blank within a line.
pub open spec fn skip_hws(s: Seq<char>, p: int) -> int
    decreases s.len() - p,
{
    if p >= s.len() {
        p
    } else if is_hws(s[p]) {
        skip_hws(s, p + 1)
    } else {
        p
    }
}

pub proof fn lemma_skip_hws(s: Seq<char>, p: int)
    requires
        0 <= p <= s.len(),
    ensures
        p <= skip_hws(s, p) <= s.len(),
        forall|q: int| p <= q < skip_hws(s, p) ==> is_hws(s[q]),
        skip_hws(s, p) < s.len() ==> !is_hws(s[skip_hws(s, p)]),
    decreases s.len() - p,
{
    if p < s.len() && is_hws(s[p]) {
        lemma_skip_hws(s, p + 1);
    }
}

/// Skips blanks within a line (see `skip_hws`).
pub fn skip_hws_exec(s: &[char], p: usize) -> (r: usize)
    requires
        p <= s.len(),
    ensures
        r == skip_hws(s@, p as int),
{
    let mut q = p;
    while q < s.len() && (s[q] == ' ' || s[q] == '\t' || s[q] == '\r')
        invariant
            p <= q <= s.len(),
            skip_hws(s@, p as int) == skip_hws(s@, q as int),
        decreases s.len() - q,
    {
        q = q + 1;
    }
    q
}

/// The number of line feeds in `s`.
pub open spec fn newlines(s: Seq<char>) -> nat
    decreases s.len(),
{
    if s.len() == 0 {
        0
    } else {
        newlines(s.drop_last()) + if s.last() == '\n' {
            1nat
        } else {
            0nat
        }
    }
}

/// The number, from 1, of the line that position `p` is on.
pub open spec fn line_of(s: Seq<char>, p: int) -> nat {
    newlines(s.take(p)) + 1
}

/// A parse error's detail: the line number, then the reason.
pub open spec fn line_message(n: nat, reason: Seq<char>) -> Seq<char> {
    "line "@ + nat_text(n) + ": "@ + reason
}

/// The detail of an error at the line that position `p` is on; it holds no text of the
/// document.
pub fn line_message_at(s: &[char], p: usize, reason: &str) -> (r: String)
    requires
        p < s.len(),
    ensures
        r@ == line_message(line_of(s@, p as int), reason@),
{
    let mut n: usize = 0;
    let mut i: usize = 0;
    while i < p
        invariant
            i <= p < s.len(),
            n == newlines(s@.take(i as int)),
            n <= i,
        decreases p - i,
    {
        assert(s@.take(i + 1).drop_last() =~= s@.take(i as int));
        if s[i] == '\n' {
            n = n + 1;
        }
        i = i + 1;
    }
    let mut r = String::new();
    push_str(&mut r, "line ");
    push_usize(&mut r, n + 1);
    push_str(&mut r, ": ");
    push_str(&mut r, reason);
    assert(r@ =~= line_message(line_of(s@, p as int), reason@));
    r
}

/// The characters `s[a..b]`.
pub fn sub_chars(s: &[char], a: usize, b: usize) -> (r: Vec<char>)
    requires
        a <= b <= s.len(),
    ensures
        r@ == s@.subrange(a as int, b as int),
{
    let mut r: Vec<char> = Vec::new();
    let mut i = a;
    while i < b
        invariant
            a <= i <= b <= s.len(),
            r@ == s@.subrange(a as int, i as int),
        decreases b - i,
    {
        r.push(s[i]);
        assert(s@.subrange(a as int, i + 1) =~= s@.subrange(a as int, i as int).push(s@[i as int]));
        i = i + 1;
    }
    r
}

} // verus!
