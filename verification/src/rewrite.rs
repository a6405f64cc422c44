//! Link rewriting inside markup and stylesheet text.
//!
//! A reference is replaced only where it stands in attribute-value
//! position: immediately preceded by `=`, `"`, `(` or `'` and immediately
//! followed by `)`, `"` or `'`.  Text that merely resembles the reference
//! elsewhere is left untouched.

use vstd::prelude::*;
use crate::strings::{to_chars, chars_to_string};
use crate::paths::{normalize_path, clean_path_segments};

verus! {

/// Characters that may open an attribute-value context.
pub open spec fn is_open_delim(c: char) -> bool {
    c == '=' || c == '"' || c == '(' || c == '\''
}

/// Characters that may close an attribute-value context.
pub open spec fn is_close_delim(c: char) -> bool {
    c == ')' || c == '"' || c == '\''
}

/// A delimited occurrence of `orig` at the start of `t`.
pub open spec fn delim_match(t: Seq<char>, orig: Seq<char>) -> bool {
    &&& t.len() >= orig.len() + 2
    &&& is_open_delim(t[0])
    &&& t.subrange(1, 1 + orig.len() as int) == orig
    &&& is_close_delim(t[1 + orig.len() as int])
}

/// The text with every delimited occurrence of `orig` replaced by `repl`,
/// scanning left to right without overlap.
pub open spec fn rewrite_delim(t: Seq<char>, orig: Seq<char>, repl: Seq<char>) -> Seq<char>
    decreases t.len(),
{
    if t.len() == 0 {
        Seq::empty()
    } else if delim_match(t, orig) {
        seq![t[0]] + repl + seq![t[1 + orig.len() as int]] + rewrite_delim(
            t.skip(orig.len() + 2 as int),
            orig,
            repl,
        )
    } else {
        seq![t[0]] + rewrite_delim(t.drop_first(), orig, repl)
    }
}

/// Text with no delimited occurrence of `orig` anywhere is not altered.
/// In particular, an occurrence of any other string that is not delimited
/// the same way never changes under rewriting.
pub proof fn lemma_rewrite_untouched(t: Seq<char>, orig: Seq<char>, repl: Seq<char>)
    requires
        forall|i: int| 0 <= i <= t.len() ==> !delim_match(#[trigger] t.skip(i), orig),
    ensures
        rewrite_delim(t, orig, repl) == t,
    decreases t.len(),
{
    if t.len() == 0 {
        assert(rewrite_delim(t, orig, repl) =~= t);
    } else {
        assert(t.skip(0) =~= t);
        assert(!delim_match(t, orig));
        assert forall|i: int| 0 <= i <= t.drop_first().len() implies !delim_match(
            #[trigger] t.drop_first().skip(i),
            orig,
        ) by {
            assert(t.drop_first().skip(i) =~= t.skip(i + 1));
        }
        lemma_rewrite_untouched(t.drop_first(), orig, repl);
        assert(rewrite_delim(t, orig, repl) =~= t);
    }
}

fn is_open_delim_exec(c: char) -> (r: bool)
    ensures
        r == is_open_delim(c),
{
    c == '=' || c == '"' || c == '(' || c == '\''
}

fn is_close_delim_exec(c: char) -> (r: bool)
    ensures
        r == is_close_delim(c),
{
    c == ')' || c == '"' || c == '\''
}

/// Whether `o` occurs in `t` starting at `start`.
fn range_eq(t: &Vec<char>, start: usize, o: &Vec<char>) -> (r: bool)
    requires
        start + o@.len() <= t@.len(),
    ensures
        r == (t@.subrange(start as int, start + o@.len()) == o@),
{
    let tl = t.len();
    let mut k: usize = 0;
    while k < o.len()
        invariant
            tl == t@.len(),
            start + o@.len() <= t@.len(),
            k <= o@.len(),
            forall|j: int| 0 <= j < k ==> t@[start + j] == o@[j],
        decreases o@.len() - k,
    {
        if t[start + k] != o[k] {
            proof {
                assert(t@.subrange(start as int, start + o@.len())[k as int] == t@[start + k]);
            }
            return false;
        }
        k = k + 1;
    }
    assert(t@.subrange(start as int, start + o@.len()) =~= o@);
    true
}

fn push_all(out: &mut Vec<char>, src: &Vec<char>)
    ensures
        final(out)@ == old(out)@ + src@,
{
    let mut k: usize = 0;
    while k < src.len()
        invariant
            k <= src@.len(),
            out@ == old(out)@ + src@.take(k as int),
        decreases src@.len() - k,
    {
        out.push(src[k]);
        k = k + 1;
        assert(out@ =~= old(out)@ + src@.take(k as int));
    }
    assert(out@ =~= old(out)@ + src@);
}

/// Replace every attribute-delimited occurrence of `original` in `content`
/// by `replacement`, which is first canonicalized by the path normalizer.
pub fn replace_exact_link(content: &str, original: &str, replacement: &str) -> (r: String)
    ensures
        r@ == rewrite_delim(content@, original@, normalize_path(replacement@)),
{
    let t = to_chars(content);
    let o = to_chars(original);
    let cleaned = clean_path_segments(replacement);
    let rv = to_chars(cleaned.as_str());
    let mut out: Vec<char> = Vec::new();
    let mut i: usize = 0;
    let n = t.len();
    let m = o.len();
    proof {
        assert(t@.skip(0) =~= t@);
        assert(out@ + rewrite_delim(t@, o@, rv@) =~= rewrite_delim(t@, o@, rv@));
    }
    while i < n
        invariant
            i <= n,
            n == t@.len(),
            m == o@.len(),
            t@ == content@,
            o@ == original@,
            rv@ == normalize_path(replacement@),
            rewrite_delim(t@, o@, rv@) == out@ + rewrite_delim(t@.skip(i as int), o@, rv@),
        decreases n - i,
    {
        let ghost suf = t@.skip(i as int);
        proof {
            assert(suf[0] == t@[i as int]);
            assert(suf.drop_first() =~= t@.skip(i as int + 1));
        }
        let mut matched = false;
        if n - i >= 2 && n - i - 2 >= m && is_open_delim_exec(t[i]) && is_close_delim_exec(
            t[i + 1 + m],
        ) {
            matched = range_eq(&t, i + 1, &o);
        }
        proof {
            if n - i >= m + 2 {
                assert(suf[1 + m as int] == t@[i + 1 + m]);
                assert(suf.subrange(1, 1 + m as int) =~= t@.subrange(i as int + 1, i + 1 + m));
            }
            assert(matched == delim_match(suf, o@));
        }
        let ghost out0 = out@;
        if matched {
            out.push(t[i]);
            push_all(&mut out, &rv);
            out.push(t[i + 1 + m]);
            i = i + m + 2;
            proof {
                assert(suf.skip(m + 2) =~= t@.skip(i as int));
                assert(out@ =~= out0 + seq![suf[0]] + rv@ + seq![suf[1 + m as int]]);
                assert(rewrite_delim(t@, o@, rv@) =~= out@ + rewrite_delim(
                    t@.skip(i as int),
                    o@,
                    rv@,
                ));
            }
        } else {
            out.push(t[i]);
            i = i + 1;
            proof {
                assert(out@ =~= out0 + seq![suf[0]]);
                assert(rewrite_delim(t@, o@, rv@) =~= out@ + rewrite_delim(
                    t@.skip(i as int),
                    o@,
                    rv@,
                ));
            }
        }
    }
    proof {
        assert(t@.skip(n as int) =~= Seq::<char>::empty());
        assert(out@ =~= rewrite_delim(t@, o@, rv@));
    }
    chars_to_string(&out)
}

/// The text with every occurrence of `pat` replaced by `to`, scanning left
/// to right without overlap; an empty pattern changes nothing.
pub open spec fn replace_all_spec(t: Seq<char>, pat: Seq<char>, to: Seq<char>) -> Seq<char>
    decreases t.len(),
{
    if pat.len() == 0 || t.len() == 0 {
        t
    } else if t.len() >= pat.len() && t.take(pat.len() as int) == pat {
        to + replace_all_spec(t.skip(pat.len() as int), pat, to)
    } else {
        seq![t[0]] + replace_all_spec(t.drop_first(), pat, to)
    }
}

/// Replace every occurrence of `pat` in `text` by `to`.
pub fn replace_all(text: &str, pat: &str, to: &str) -> (r: String)
    ensures
        r@ == replace_all_spec(text@, pat@, to@),
{
    let m = pat.unicode_len();
    if m == 0 {
        let r = text.to_owned();
        return r;
    }
    let t = to_chars(text);
    let p = to_chars(pat);
    let tv = to_chars(to);
    let mut out: Vec<char> = Vec::new();
    let mut i: usize = 0;
    let n = t.len();
    proof {
        assert(t@.skip(0) =~= t@);
        assert(out@ + replace_all_spec(t@, p@, tv@) =~= replace_all_spec(t@, p@, tv@));
    }
    while i < n
        invariant
            i <= n,
            n == t@.len(),
            m == p@.len(),
            m > 0,
            t@ == text@,
            p@ == pat@,
            tv@ == to@,
            replace_all_spec(t@, p@, tv@) == out@ + replace_all_spec(t@.skip(i as int), p@, tv@),
        decreases n - i,
    {
        let ghost suf = t@.skip(i as int);
        proof {
            assert(suf[0] == t@[i as int]);
            assert(suf.drop_first() =~= t@.skip(i as int + 1));
        }
        let mut matched = false;
        if n - i >= m {
            matched = range_eq(&t, i, &p);
        }
        proof {
            if n - i >= m {
                assert(suf.take(m as int) =~= t@.subrange(i as int, i + m));
            }
            assert(matched == (suf.len() >= p@.len() && suf.take(p@.len() as int) == p@));
        }
        let ghost out0 = out@;
        if matched {
            push_all(&mut out, &tv);
            i = i + m;
            proof {
                assert(suf.skip(m as int) =~= t@.skip(i as int));
                assert(out@ =~= out0 + tv@);
                assert(replace_all_spec(t@, p@, tv@) =~= out@ + replace_all_spec(
                    t@.skip(i as int),
                    p@,
                    tv@,
                ));
            }
        } else {
            out.push(t[i]);
            i = i + 1;
            proof {
                assert(out@ =~= out0 + seq![suf[0]]);
                assert(replace_all_spec(t@, p@, tv@) =~= out@ + replace_all_spec(
                    t@.skip(i as int),
                    p@,
                    tv@,
                ));
            }
        }
    }
    proof {
        assert(t@.skip(n as int) =~= Seq::<char>::empty());
        assert(out@ =~= replace_all_spec(t@, p@, tv@));
    }
    chars_to_string(&out)
}

} // verus!
