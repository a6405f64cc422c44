//! URL dissection and resolution.
//!
//! Reference resolution is delegated to the `url` crate; the scheme, host
//! and path of an already-resolved URL string are read off by the verified
//! helpers here.

use vstd::prelude::*;
use crate::strings::{to_chars, chars_to_string, push_char};
use crate::paths::{first_sep, lemma_first_sep_is, SEP};

verus! {

/// What url::Url::parse makes of `link`: the serialized parsed URL, or
/// nothing where the input is not by itself a valid absolute URL.
pub uninterp spec fn abs_url_of(link: Seq<char>) -> Option<Seq<char>>;

/// What parsing `base` and joining `link` against it yields: the
/// serialized joined URL, or nothing where either step fails.
pub uninterp spec fn joined_url_of(base: Seq<char>, link: Seq<char>) -> Option<Seq<char>>;

/// Relies on url::Url::parse: whether a string parses, and the parsed
/// URL's serialization, depend on the string alone.
#[verifier::external_body]
fn parse_absolute(link: &str) -> (r: Option<String>)
    ensures
        r matches Some(u) ==> abs_url_of(link@) == Some(u@),
        r is None ==> abs_url_of(link@) is None,
{
    match url::Url::parse(link) {
        Ok(u) => Some(u.to_string()),
        Err(_) => None,
    }
}

/// Relies on url::Url::parse and url::Url::join: the joined URL's
/// serialization depends on the two strings alone.
#[verifier::external_body]
fn join_with_base(base: &str, link: &str) -> (r: Option<String>)
    ensures
        r matches Some(u) ==> joined_url_of(base@, link@) == Some(u@),
        r is None ==> joined_url_of(base@, link@) is None,
{
    match url::Url::parse(base) {
        Ok(b) => match b.join(link) {
            Ok(u) => Some(u.to_string()),
            Err(_) => None,
        },
        Err(_) => None,
    }
}

/// The absolute form of a reference found on the page at `base`: the
/// reference itself if it is absolute, otherwise the join against `base`.
pub open spec fn resolve_of(base: Seq<char>, link: Seq<char>) -> Option<Seq<char>> {
    if abs_url_of(link) is Some {
        abs_url_of(link)
    } else {
        joined_url_of(base, link)
    }
}

/// Resolve a possibly-relative reference against the page URL it was
/// found on.
pub fn resolve_reference(base: &str, link: &str) -> (r: Option<String>)
    ensures
        r matches Some(u) ==> resolve_of(base@, link@) == Some(u@),
        r is None ==> resolve_of(base@, link@) is None,
{
    match parse_absolute(link) {
        Some(u) => Some(u),
        None => join_with_base(base, link),
    }
}

/// A scheme separator `://` starting at index `i` of `s`.
pub open spec fn scheme_sep_at(s: Seq<char>, i: int) -> bool {
    &&& 0 <= i
    &&& i + 3 <= s.len()
    &&& s[i] == ':'
    &&& s[i + 1] == '/'
    &&& s[i + 2] == '/'
}

/// Index of the first scheme separator of `s`, or `s.len()` if none.
pub open spec fn scheme_sep(s: Seq<char>) -> int
    decreases s.len(),
{
    if s.len() < 3 {
        s.len() as int
    } else if s[0] == ':' && s[1] == '/' && s[2] == '/' {
        0
    } else {
        1 + scheme_sep(s.drop_first())
    }
}

pub proof fn lemma_scheme_sep_bounds(s: Seq<char>)
    ensures
        0 <= scheme_sep(s) <= s.len(),
        scheme_sep(s) < s.len() ==> scheme_sep_at(s, scheme_sep(s)),
        forall|i: int| 0 <= i < scheme_sep(s) ==> !scheme_sep_at(s, i),
    decreases s.len(),
{
    if s.len() < 3 {
    } else if s[0] == ':' && s[1] == '/' && s[2] == '/' {
    } else {
        lemma_scheme_sep_bounds(s.drop_first());
        let d = s.drop_first();
        if scheme_sep(s) < s.len() {
            assert(scheme_sep_at(d, scheme_sep(d)));
            assert(d[scheme_sep(d)] == s[1 + scheme_sep(d)]);
            assert(d[scheme_sep(d) + 1] == s[1 + scheme_sep(d) + 1]);
            assert(d[scheme_sep(d) + 2] == s[1 + scheme_sep(d) + 2]);
        }
        assert forall|i: int| 0 <= i < scheme_sep(s) implies !scheme_sep_at(s, i) by {
            if i == 0 {
                assert(!(s[0] == ':' && s[1] == '/' && s[2] == '/'));
            } else {
                assert(!scheme_sep_at(d, i - 1));
                if scheme_sep_at(s, i) {
                    assert(d[i - 1] == s[i]);
                    assert(d[i] == s[i + 1]);
                    assert(d[i + 1] == s[i + 2]);
                }
            }
        }
    }
}

/// `scheme_sep` is the only index fitting its characterization.
pub proof fn lemma_scheme_sep_is(s: Seq<char>, k: int)
    requires
        0 <= k <= s.len(),
        forall|i: int| 0 <= i < k ==> !scheme_sep_at(s, i),
        k < s.len() ==> scheme_sep_at(s, k),
    ensures
        scheme_sep(s) == k,
{
    lemma_scheme_sep_bounds(s);
    if scheme_sep(s) < k {
        assert(!scheme_sep_at(s, scheme_sep(s)));
        assert(scheme_sep(s) < s.len());
    } else if scheme_sep(s) > k {
        assert(k < s.len());
        assert(!scheme_sep_at(s, k));
    }
}

/// The URL with any leading scheme removed.
pub open spec fn strip_scheme_spec(s: Seq<char>) -> Seq<char> {
    if scheme_sep(s) < s.len() {
        s.skip(scheme_sep(s) + 3)
    } else {
        s
    }
}

/// The host part of a URL: what stands between the scheme separator and
/// the next slash.
pub open spec fn host_of(s: Seq<char>) -> Seq<char> {
    let r = strip_scheme_spec(s);
    r.take(first_sep(r))
}

/// The path part of a URL: everything from the first slash after the
/// host on, or empty if there is none.
pub open spec fn path_of(s: Seq<char>) -> Seq<char> {
    let r = strip_scheme_spec(s);
    r.skip(first_sep(r))
}

/// Split a URL string into the part after the scheme, its host, and its
/// path.
pub fn split_url(url: &str) -> (r: (String, String, String))
    ensures
        r.0@ == strip_scheme_spec(url@),
        r.1@ == host_of(url@),
        r.2@ == path_of(url@),
{
    let t = to_chars(url);
    let n = t.len();
    // find the scheme separator
    let mut j: usize = 0;
    let mut found = false;
    while !found && n - j >= 3
        invariant
            j <= n,
            n == t@.len(),
            n - j < 3 ==> !found,
            forall|i: int| 0 <= i < j ==> !scheme_sep_at(t@, i),
            found ==> scheme_sep_at(t@, j as int),
        decreases n - j, (if found { 0int } else { 1int }),
    {
        if t[j] == ':' && t[j + 1] == '/' && t[j + 2] == '/' {
            found = true;
        } else {
            j = j + 1;
        }
    }
    proof {
        if found {
            lemma_scheme_sep_is(t@, j as int);
        } else {
            assert forall|i: int| 0 <= i < n implies !scheme_sep_at(t@, i) by {
                if i >= j {
                    assert(i + 3 > n);
                }
            }
            lemma_scheme_sep_is(t@, n as int);
        }
    }
    let start: usize = if found {
        j + 3
    } else {
        0
    };
    proof {
        if found {
            assert(strip_scheme_spec(url@) == t@.skip(start as int));
        } else {
            assert(t@.skip(0) =~= t@);
            assert(strip_scheme_spec(url@) == t@.skip(start as int));
        }
    }
    let ghost rest = t@.skip(start as int);
    // find the first slash after the host
    let mut k: usize = start;
    while k < n && t[k] != SEP
        invariant
            start <= k <= n,
            n == t@.len(),
            forall|i: int| start <= i < k ==> t@[i] != SEP,
        decreases n - k,
    {
        k = k + 1;
    }
    proof {
        assert(forall|i: int| 0 <= i < k - start ==> rest[i] != SEP);
        if k < n {
            assert(rest[k - start] == SEP);
        }
        lemma_first_sep_is(rest, k - start);
    }
    let mut stripped = String::new();
    let mut host = String::new();
    let mut path = String::new();
    let mut i: usize = start;
    while i < n
        invariant
            start <= i <= n,
            n == t@.len(),
            stripped@ == t@.subrange(start as int, i as int),
        decreases n - i,
    {
        push_char(&mut stripped, t[i]);
        i = i + 1;
        assert(stripped@ =~= t@.subrange(start as int, i as int));
    }
    let mut i: usize = start;
    while i < k
        invariant
            start <= i <= k <= n,
            n == t@.len(),
            host@ == t@.subrange(start as int, i as int),
        decreases k - i,
    {
        push_char(&mut host, t[i]);
        i = i + 1;
        assert(host@ =~= t@.subrange(start as int, i as int));
    }
    let mut i: usize = k;
    while i < n
        invariant
            k <= i <= n,
            n == t@.len(),
            path@ == t@.subrange(k as int, i as int),
        decreases n - i,
    {
        push_char(&mut path, t[i]);
        i = i + 1;
        assert(path@ =~= t@.subrange(k as int, i as int));
    }
    proof {
        assert(stripped@ =~= rest);
        assert(host@ =~= rest.take(k - start));
        assert(path@ =~= rest.skip(k - start));
    }
    (stripped, host, path)
}

/// Index of the last occurrence of `c` in `s`, or -1 if there is none.
pub open spec fn last_index(s: Seq<char>, c: char) -> int
    decreases s.len(),
{
    if s.len() == 0 {
        -1
    } else if s.last() == c {
        s.len() - 1
    } else {
        last_index(s.drop_last(), c)
    }
}

pub proof fn lemma_last_index_bounds(s: Seq<char>, c: char)
    ensures
        -1 <= last_index(s, c) < s.len(),
        last_index(s, c) >= 0 ==> s[last_index(s, c)] == c,
        forall|i: int| last_index(s, c) < i < s.len() ==> s[i] != c,
    decreases s.len(),
{
    if s.len() == 0 {
    } else if s.last() == c {
    } else {
        lemma_last_index_bounds(s.drop_last(), c);
        let d = s.drop_last();
        if last_index(s, c) >= 0 {
            assert(d[last_index(d, c)] == s[last_index(d, c)]);
        }
        assert forall|i: int| last_index(s, c) < i < s.len() implies s[i] != c by {
            if i < s.len() - 1 {
                assert(d[i] == s[i]);
            }
        }
    }
}

/// `last_index` is the only index fitting its characterization.
pub proof fn lemma_last_index_is(s: Seq<char>, c: char, k: int)
    requires
        -1 <= k < s.len(),
        k >= 0 ==> s[k] == c,
        forall|i: int| k < i < s.len() ==> s[i] != c,
    ensures
        last_index(s, c) == k,
{
    lemma_last_index_bounds(s, c);
    if last_index(s, c) < k {
        assert(s[k] != c);
    } else if last_index(s, c) > k {
        assert(s[last_index(s, c)] == c);
    }
}

/// Find the last occurrence of a character, scanning from the end.
pub fn find_last(s: &str, c: char) -> (r: Option<usize>)
    ensures
        match r {
            Some(k) => last_index(s@, c) == k,
            None => last_index(s@, c) == -1,
        },
{
    let n = s.unicode_len();
    let mut i: usize = n;
    while i > 0
        invariant
            i <= n,
            n == s@.len(),
            forall|j: int| i <= j < n ==> s@[j] != c,
        decreases i,
    {
        i = i - 1;
        if s.get_char(i) == c {
            proof {
                lemma_last_index_is(s@, c, i as int);
            }
            return Some(i);
        }
    }
    proof {
        lemma_last_index_is(s@, c, -1);
    }
    None
}

/// The file extension of a reference: what follows the last dot, if any.
pub open spec fn ext_of(link: Seq<char>) -> Option<Seq<char>> {
    if last_index(link, '.') >= 0 {
        Some(link.skip(last_index(link, '.') + 1))
    } else {
        None
    }
}

/// Extract the extension of a reference.
pub fn extension_of(link: &str) -> (r: Option<String>)
    ensures
        match r {
            Some(e) => ext_of(link@) == Some(e@),
            None => ext_of(link@) is None,
        },
{
    match find_last(link, '.') {
        Some(k) => {
            let n = link.unicode_len();
            proof {
                lemma_last_index_bounds(link@, '.');
            }
            let e = link.substring_char(k + 1, n);
            let r = e.to_owned();
            proof {
                assert(r@ =~= link@.skip(k + 1));
            }
            Some(r)
        },
        None => None,
    }
}

/// The last slash-separated segment of a path.
pub open spec fn last_segment(p: Seq<char>) -> Seq<char> {
    p.skip(last_index(p, SEP) + 1)
}

/// Extract the last slash-separated segment of a path.
pub fn basename_of(p: &str) -> (r: String)
    ensures
        r@ == last_segment(p@),
{
    let n = p.unicode_len();
    proof {
        lemma_last_index_bounds(p@, SEP);
    }
    let s = match find_last(p, SEP) {
        Some(k) => p.substring_char(k + 1, n),
        None => p.substring_char(0, n),
    };
    let r = s.to_owned();
    proof {
        assert(r@ =~= last_segment(p@));
    }
    r
}

} // verus!
