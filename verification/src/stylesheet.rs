//! Scanning stylesheet text for `url(...)` references.
//!
//! A reference is the text inside `url(...)`, optionally single- or
//! double-quoted, with surrounding whitespace ignored; an unquoted
//! reference runs to the closing parenthesis and may not contain quotes.

use vstd::prelude::*;
use crate::strings::{to_chars, chars_to_string, str_views};

verus! {

/// Whitespace as far as stylesheet references are concerned.
pub open spec fn is_space(c: char) -> bool {
    c == ' ' || c == '\t' || c == '\n' || c == '\r'
}

/// First index at or after `i` whose character is not whitespace.
pub open spec fn skip_spaces(t: Seq<char>, i: int) -> int
    decreases t.len() - i,
    when 0 <= i <= t.len()
{
    if i < t.len() && is_space(t[i]) {
        skip_spaces(t, i + 1)
    } else {
        i
    }
}

pub proof fn lemma_skip_spaces_bounds(t: Seq<char>, i: int)
    requires
        0 <= i <= t.len(),
    ensures
        i <= skip_spaces(t, i) <= t.len(),
    decreases t.len() - i,
{
    if i < t.len() && is_space(t[i]) {
        lemma_skip_spaces_bounds(t, i + 1);
    }
}

/// First index at or after `i` holding `c`, or `t.len()` if none.
pub open spec fn find_from(t: Seq<char>, i: int, c: char) -> int
    decreases t.len() - i,
    when 0 <= i <= t.len()
{
    if i >= t.len() {
        t.len() as int
    } else if t[i] == c {
        i
    } else {
        find_from(t, i + 1, c)
    }
}

pub proof fn lemma_find_from_bounds(t: Seq<char>, i: int, c: char)
    requires
        0 <= i <= t.len(),
    ensures
        i <= find_from(t, i, c) <= t.len(),
    decreases t.len() - i,
{
    if i < t.len() && t[i] != c {
        lemma_find_from_bounds(t, i + 1, c);
    }
}

/// Last index in `(j, p]` after trailing whitespace is dropped.
pub open spec fn trim_end(t: Seq<char>, j: int, p: int) -> int
    decreases p - j,
    when 0 <= j <= p <= t.len()
{
    if p > j && is_space(t[p - 1]) {
        trim_end(t, j, p - 1)
    } else {
        p
    }
}

/// No single or double quote in `t[a..b)`.
pub open spec fn quote_free(t: Seq<char>, a: int, b: int) -> bool {
    forall|x: int| a <= x < b ==> t[x] != '\'' && t[x] != '"'
}

/// The literal `url(` starting at index `i`.
pub open spec fn starts_url(t: Seq<char>, i: int) -> bool {
    &&& 0 <= i
    &&& i + 4 <= t.len()
    &&& t[i] == 'u'
    &&& t[i + 1] == 'r'
    &&& t[i + 2] == 'l'
    &&& t[i + 3] == '('
}

/// The reference of a `url(...)` form starting at `i`, with the index
/// just past its closing parenthesis, or nothing if no well-formed
/// reference starts here.
pub open spec fn css_match_at(t: Seq<char>, i: int) -> Option<(Seq<char>, int)> {
    if !starts_url(t, i) {
        None
    } else {
        let j = skip_spaces(t, i + 4);
        if j < t.len() && (t[j] == '\'' || t[j] == '"') {
            let m = find_from(t, j + 1, t[j]);
            if m < t.len() {
                let k = skip_spaces(t, m + 1);
                if k < t.len() && t[k] == ')' && m > j + 1 {
                    Some((t.subrange(j + 1, m), k + 1))
                } else {
                    None
                }
            } else {
                None
            }
        } else {
            let p = find_from(t, j, ')');
            if p < t.len() {
                let e = trim_end(t, j, p);
                if e > j && quote_free(t, j, e) {
                    Some((t.subrange(j, e), p + 1))
                } else {
                    None
                }
            } else {
                None
            }
        }
    }
}

/// A match consumes text: what follows it starts strictly later.
pub proof fn lemma_css_match_bounds(t: Seq<char>, i: int)
    requires
        0 <= i <= t.len(),
    ensures
        css_match_at(t, i) matches Some(rn) ==> i < rn.1 <= t.len(),
{
    if starts_url(t, i) {
        lemma_skip_spaces_bounds(t, i + 4);
        let j = skip_spaces(t, i + 4);
        if j < t.len() && (t[j] == '\'' || t[j] == '"') {
            lemma_find_from_bounds(t, j + 1, t[j]);
            let m = find_from(t, j + 1, t[j]);
            if m < t.len() {
                lemma_skip_spaces_bounds(t, m + 1);
            }
        } else {
            lemma_find_from_bounds(t, j, ')');
        }
    }
}

#[via_fn]
proof fn css_refs_from_decreases(t: Seq<char>, i: int) {
    lemma_css_match_bounds(t, i);
}

/// All references of `url(...)` forms of `t` from index `i` on, in
/// order, scanning left to right without overlap.
pub open spec fn css_refs_from(t: Seq<char>, i: int) -> Seq<Seq<char>>
    decreases t.len() - i,
    when 0 <= i <= t.len()
    via css_refs_from_decreases
{
    if i >= t.len() {
        Seq::empty()
    } else {
        match css_match_at(t, i) {
            Some(rn) => seq![rn.0] + css_refs_from(t, rn.1),
            None => css_refs_from(t, i + 1),
        }
    }
}

/// The `url(...)` references of a stylesheet.
pub open spec fn css_refs_spec(t: Seq<char>) -> Seq<Seq<char>> {
    css_refs_from(t, 0)
}

fn is_space_exec(c: char) -> (r: bool)
    ensures
        r == is_space(c),
{
    c == ' ' || c == '\t' || c == '\n' || c == '\r'
}

fn skip_spaces_exec(t: &Vec<char>, i: usize) -> (r: usize)
    requires
        i <= t@.len(),
    ensures
        r == skip_spaces(t@, i as int),
        i <= r <= t@.len(),
{
    let mut j = i;
    while j < t.len() && is_space_exec(t[j])
        invariant
            i <= j <= t@.len(),
            skip_spaces(t@, i as int) == skip_spaces(t@, j as int),
        decreases t@.len() - j,
    {
        j = j + 1;
    }
    proof {
        lemma_skip_spaces_bounds(t@, j as int);
    }
    j
}

fn find_from_exec(t: &Vec<char>, i: usize, c: char) -> (r: usize)
    requires
        i <= t@.len(),
    ensures
        r == find_from(t@, i as int, c),
        i <= r <= t@.len(),
{
    let mut j = i;
    while j < t.len() && t[j] != c
        invariant
            i <= j <= t@.len(),
            find_from(t@, i as int, c) == find_from(t@, j as int, c),
        decreases t@.len() - j,
    {
        j = j + 1;
    }
    proof {
        lemma_find_from_bounds(t@, j as int, c);
    }
    j
}

fn trim_end_exec(t: &Vec<char>, j: usize, p: usize) -> (r: usize)
    requires
        j <= p <= t@.len(),
    ensures
        r == trim_end(t@, j as int, p as int),
        j <= r <= p,
{
    let mut e = p;
    while e > j && is_space_exec(t[e - 1])
        invariant
            j <= e <= p <= t@.len(),
            trim_end(t@, j as int, p as int) == trim_end(t@, j as int, e as int),
        decreases e,
    {
        e = e - 1;
    }
    e
}

fn quote_free_exec(t: &Vec<char>, a: usize, b: usize) -> (r: bool)
    requires
        a <= b <= t@.len(),
    ensures
        r == quote_free(t@, a as int, b as int),
{
    let mut x = a;
    while x < b
        invariant
            a <= x <= b <= t@.len(),
            forall|y: int| a <= y < x ==> t@[y] != '\'' && t@[y] != '"',
        decreases b - x,
    {
        if t[x] == '\'' || t[x] == '"' {
            return false;
        }
        x = x + 1;
    }
    true
}

/// Copy `t[a..b)` into a fresh string.
fn copy_range(t: &Vec<char>, a: usize, b: usize) -> (r: String)
    requires
        a <= b <= t@.len(),
    ensures
        r@ == t@.subrange(a as int, b as int),
{
    let mut v: Vec<char> = Vec::new();
    let mut x = a;
    while x < b
        invariant
            a <= x <= b <= t@.len(),
            v@ == t@.subrange(a as int, x as int),
        decreases b - x,
    {
        v.push(t[x]);
        x = x + 1;
        assert(v@ =~= t@.subrange(a as int, x as int));
    }
    chars_to_string(&v)
}

/// Extract every `url(...)` reference of a stylesheet, in order.
pub fn extract_css_refs(css: &str) -> (r: Vec<String>)
    ensures
        str_views(r@) == css_refs_spec(css@),
{
    let t = to_chars(css);
    let n = t.len();
    let mut out: Vec<String> = Vec::new();
    let mut i: usize = 0;
    proof {
        assert(str_views(out@) + css_refs_from(t@, 0) =~= css_refs_from(t@, 0));
    }
    while i < n
        invariant
            i <= n,
            n == t@.len(),
            t@ == css@,
            css_refs_spec(css@) == str_views(out@) + css_refs_from(t@, i as int),
        decreases n - i,
    {
        let mut advanced = false;
        if n - i >= 4 && t[i] == 'u' && t[i + 1] == 'r' && t[i + 2] == 'l' && t[i + 3] == '(' {
            let j = skip_spaces_exec(&t, i + 4);
            if j < n && (t[j] == '\'' || t[j] == '"') {
                let m = find_from_exec(&t, j + 1, t[j]);
                if m < n {
                    let k = skip_spaces_exec(&t, m + 1);
                    if k < n && t[k] == ')' && m > j + 1 {
                        let s = copy_range(&t, j + 1, m);
                        let ghost out0 = out@;
                        out.push(s);
                        proof {
                            assert(css_match_at(t@, i as int) == Some(
                                (t@.subrange(j + 1, m as int), k + 1 as int),
                            ));
                            assert(str_views(out@) =~= str_views(out0) + seq![
                                t@.subrange(j + 1, m as int),
                            ]);
                        }
                        i = k + 1;
                        advanced = true;
                    }
                }
            } else {
                let p = find_from_exec(&t, j, ')');
                if p < n {
                    let e = trim_end_exec(&t, j, p);
                    if e > j && quote_free_exec(&t, j, e) {
                        let s = copy_range(&t, j, e);
                        let ghost out0 = out@;
                        out.push(s);
                        proof {
                            assert(css_match_at(t@, i as int) == Some(
                                (t@.subrange(j as int, e as int), p + 1 as int),
                            ));
                            assert(str_views(out@) =~= str_views(out0) + seq![
                                t@.subrange(j as int, e as int),
                            ]);
                        }
                        i = p + 1;
                        advanced = true;
                    }
                }
            }
        }
        if !advanced {
            proof {
                assert(css_match_at(t@, i as int) is None);
            }
            i = i + 1;
        }
    }
    proof {
        assert(css_refs_from(t@, n as int) =~= Seq::<Seq<char>>::empty());
        assert(str_views(out@) =~= css_refs_spec(css@));
    }
    out
}

} // verus!
