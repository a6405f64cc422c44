//! Path normalization for the mirror's save paths and rewritten links.
//!
//! A slash-delimited path is canonicalized by removing empty segments and
//! collapsing repeated segment patterns: a segment equal to its immediate
//! successor, or to the segment two positions ahead, is redundant and is
//! dropped.  The collapse step is applied until it changes nothing more,
//! which makes normalization idempotent.

use vstd::prelude::*;
use crate::strings::{to_chars, chars_to_string, push_char};

verus! {

pub const SEP: char = '/';

/// Index of the first separator in `s`, or `s.len()` if there is none.
pub open spec fn first_sep(s: Seq<char>) -> int
    decreases s.len(),
{
    if s.len() == 0 {
        0
    } else if s[0] == SEP {
        0
    } else {
        1 + first_sep(s.drop_first())
    }
}

pub proof fn lemma_first_sep_bounds(s: Seq<char>)
    ensures
        0 <= first_sep(s) <= s.len(),
        forall|i: int| 0 <= i < first_sep(s) ==> s[i] != SEP,
        first_sep(s) < s.len() ==> s[first_sep(s)] == SEP,
    decreases s.len(),
{
    if s.len() == 0 {
    } else if s[0] == SEP {
    } else {
        lemma_first_sep_bounds(s.drop_first());
        assert forall|i: int| 0 <= i < first_sep(s) implies s[i] != SEP by {
            if i > 0 {
                assert(s.drop_first()[i - 1] != SEP);
            }
        }
    }
}

/// `first_sep` is the only index fitting its characterization.
pub proof fn lemma_first_sep_is(s: Seq<char>, k: int)
    requires
        0 <= k <= s.len(),
        forall|i: int| 0 <= i < k ==> s[i] != SEP,
        k < s.len() ==> s[k] == SEP,
    ensures
        first_sep(s) == k,
{
    lemma_first_sep_bounds(s);
    if first_sep(s) < k {
        assert(s[first_sep(s)] != SEP);
    } else if first_sep(s) > k {
        assert(s[k] != SEP);
    }
}

#[via_fn]
proof fn split_path_decreases(s: Seq<char>) {
    lemma_first_sep_bounds(s);
}

/// Split `s` on separators; keeps empty segments.
pub open spec fn split_path(s: Seq<char>) -> Seq<Seq<char>>
    decreases s.len(),
    via split_path_decreases
{
    let k = first_sep(s);
    if k == s.len() {
        seq![s]
    } else {
        seq![s.take(k)] + split_path(s.skip(k + 1))
    }
}

/// No element of `segs` contains a separator.
pub open spec fn no_sep(x: Seq<char>) -> bool {
    forall|i: int| 0 <= i < x.len() ==> x[i] != SEP
}

pub proof fn lemma_split_path_no_sep(s: Seq<char>)
    ensures
        forall|j: int| 0 <= j < split_path(s).len() ==> no_sep(#[trigger] split_path(s)[j]),
    decreases s.len(),
{
    lemma_first_sep_bounds(s);
    let k = first_sep(s);
    if k == s.len() {
        assert(no_sep(s));
    } else {
        lemma_split_path_no_sep(s.skip(k + 1));
        assert(no_sep(s.take(k)));
        assert forall|j: int| 0 <= j < split_path(s).len() implies no_sep(
            #[trigger] split_path(s)[j],
        ) by {
            if j > 0 {
                assert(split_path(s)[j] == split_path(s.skip(k + 1))[j - 1]);
            }
        }
    }
}

/// Remove the empty segments.
pub open spec fn drop_empty(segs: Seq<Seq<char>>) -> Seq<Seq<char>>
    decreases segs.len(),
{
    if segs.len() == 0 {
        Seq::empty()
    } else if segs[0].len() == 0 {
        drop_empty(segs.drop_first())
    } else {
        seq![segs[0]] + drop_empty(segs.drop_first())
    }
}

/// One collapse pass: drop each segment equal to its immediate successor
/// or to the segment two positions ahead.
pub open spec fn collapse_once(segs: Seq<Seq<char>>) -> Seq<Seq<char>>
    decreases segs.len(),
{
    if segs.len() == 0 {
        Seq::empty()
    } else if (segs.len() > 1 && segs[0] == segs[1]) || (segs.len() > 2 && segs[0] == segs[2]) {
        collapse_once(segs.drop_first())
    } else {
        seq![segs[0]] + collapse_once(segs.drop_first())
    }
}

pub proof fn lemma_collapse_once_len(segs: Seq<Seq<char>>)
    ensures
        collapse_once(segs).len() <= segs.len(),
        collapse_once(segs).len() == segs.len() ==> collapse_once(segs) == segs,
    decreases segs.len(),
{
    if segs.len() == 0 {
    } else {
        lemma_collapse_once_len(segs.drop_first());
        if collapse_once(segs).len() == segs.len() {
            assert(collapse_once(segs) =~= segs);
        }
    }
}

#[via_fn]
proof fn collapse_decreases(segs: Seq<Seq<char>>) {
    lemma_collapse_once_len(segs);
}

/// Collapse passes applied until nothing changes any more.
pub open spec fn collapse(segs: Seq<Seq<char>>) -> Seq<Seq<char>>
    decreases segs.len(),
    via collapse_decreases
{
    if collapse_once(segs) == segs {
        segs
    } else {
        collapse(collapse_once(segs))
    }
}

pub proof fn lemma_collapse_fixpoint(segs: Seq<Seq<char>>)
    ensures
        collapse_once(collapse(segs)) == collapse(segs),
    decreases segs.len(),
{
    if collapse_once(segs) == segs {
    } else {
        lemma_collapse_once_len(segs);
        lemma_collapse_fixpoint(collapse_once(segs));
    }
}

/// Every element of the result of a pass is an element of the input.
pub proof fn lemma_collapse_once_preserves(segs: Seq<Seq<char>>, p: spec_fn(Seq<char>) -> bool)
    requires
        forall|j: int| 0 <= j < segs.len() ==> p(#[trigger] segs[j]),
    ensures
        forall|j: int| 0 <= j < collapse_once(segs).len() ==> p(#[trigger] collapse_once(segs)[j]),
    decreases segs.len(),
{
    if segs.len() == 0 {
    } else {
        assert(forall|j: int| 0 <= j < segs.drop_first().len() ==> p(
            #[trigger] segs.drop_first()[j],
        ));
        lemma_collapse_once_preserves(segs.drop_first(), p);
        if !((segs.len() > 1 && segs[0] == segs[1]) || (segs.len() > 2 && segs[0] == segs[2])) {
            assert forall|j: int| 0 <= j < collapse_once(segs).len() implies p(
                #[trigger] collapse_once(segs)[j],
            ) by {
                if j > 0 {
                    assert(collapse_once(segs)[j] == collapse_once(segs.drop_first())[j - 1]);
                }
            }
        } else {
            assert forall|j: int| 0 <= j < collapse_once(segs).len() implies p(
                #[trigger] collapse_once(segs)[j],
            ) by {
                assert(collapse_once(segs)[j] == collapse_once(segs.drop_first())[j]);
            }
        }
    }
}

pub proof fn lemma_collapse_preserves(segs: Seq<Seq<char>>, p: spec_fn(Seq<char>) -> bool)
    requires
        forall|j: int| 0 <= j < segs.len() ==> p(#[trigger] segs[j]),
    ensures
        forall|j: int| 0 <= j < collapse(segs).len() ==> p(#[trigger] collapse(segs)[j]),
    decreases segs.len(),
{
    if collapse_once(segs) == segs {
    } else {
        lemma_collapse_once_len(segs);
        lemma_collapse_once_preserves(segs, p);
        lemma_collapse_preserves(collapse_once(segs), p);
        assert forall|j: int| 0 <= j < collapse(segs).len() implies p(
            #[trigger] collapse(segs)[j],
        ) by {
            assert(collapse(segs)[j] == collapse(collapse_once(segs))[j]);
        }
    }
}

pub proof fn lemma_drop_empty_props(segs: Seq<Seq<char>>)
    ensures
        forall|j: int| 0 <= j < drop_empty(segs).len() ==> (#[trigger] drop_empty(segs)[j]).len()
            != 0,
        forall|j: int|
            0 <= j < drop_empty(segs).len() ==> exists|i: int|
                0 <= i < segs.len() && #[trigger] drop_empty(segs)[j] == segs[i],
    decreases segs.len(),
{
    if segs.len() == 0 {
    } else {
        lemma_drop_empty_props(segs.drop_first());
        assert forall|j: int| 0 <= j < drop_empty(segs).len() implies (#[trigger] drop_empty(
            segs,
        )[j]).len() != 0 && exists|i: int|
            0 <= i < segs.len() && drop_empty(segs)[j] == segs[i] by {
            if segs[0].len() == 0 {
                let i0 = choose|i: int|
                    0 <= i < segs.drop_first().len() && drop_empty(segs.drop_first())[j]
                        == segs.drop_first()[i];
                assert(drop_empty(segs)[j] == segs[i0 + 1]);
            } else {
                if j > 0 {
                    assert(drop_empty(segs)[j] == drop_empty(segs.drop_first())[j - 1]);
                    let i0 = choose|i: int|
                        0 <= i < segs.drop_first().len() && drop_empty(segs.drop_first())[j - 1]
                            == segs.drop_first()[i];
                    assert(drop_empty(segs)[j] == segs[i0 + 1]);
                } else {
                    assert(drop_empty(segs)[0] == segs[0]);
                }
            }
        }
    }
}

/// Join segments with separators.
pub open spec fn join_path(segs: Seq<Seq<char>>) -> Seq<char>
    decreases segs.len(),
{
    if segs.len() == 0 {
        Seq::empty()
    } else if segs.len() == 1 {
        segs[0]
    } else {
        segs[0] + seq![SEP] + join_path(segs.drop_first())
    }
}

/// The canonical segment list of a path.
pub open spec fn norm_segments(s: Seq<char>) -> Seq<Seq<char>> {
    collapse(drop_empty(split_path(s)))
}

/// The canonical form of a path.
pub open spec fn normalize_path(s: Seq<char>) -> Seq<char> {
    join_path(norm_segments(s))
}

/// Splitting a join of non-empty, separator-free segments and dropping
/// empties yields the segments back.
pub proof fn lemma_split_join(segs: Seq<Seq<char>>)
    requires
        forall|j: int| 0 <= j < segs.len() ==> (#[trigger] segs[j]).len() != 0,
        forall|j: int| 0 <= j < segs.len() ==> no_sep(#[trigger] segs[j]),
    ensures
        drop_empty(split_path(join_path(segs))) == segs,
    decreases segs.len(),
{
    let s = join_path(segs);
    if segs.len() == 0 {
        assert(s == Seq::<char>::empty());
        lemma_first_sep_is(s, 0);
        assert(split_path(s) == seq![s]);
        assert(seq![s].drop_first() =~= Seq::<Seq<char>>::empty());
        assert(drop_empty(Seq::<Seq<char>>::empty()) == Seq::<Seq<char>>::empty());
        assert(drop_empty(split_path(s)) == drop_empty(seq![s].drop_first()));
        assert(drop_empty(split_path(s)) =~= segs);
    } else if segs.len() == 1 {
        assert(s == segs[0]);
        assert(no_sep(segs[0]));
        lemma_first_sep_is(s, s.len() as int);
        assert(split_path(s) == seq![s]);
        assert(seq![s].drop_first() =~= Seq::<Seq<char>>::empty());
        assert(drop_empty(split_path(s)) == seq![s] + drop_empty(seq![s].drop_first()));
        assert(drop_empty(split_path(s)) =~= segs);
    } else {
        let head = segs[0];
        let rest = join_path(segs.drop_first());
        assert(s == head + seq![SEP] + rest);
        assert(forall|i: int| 0 <= i < head.len() ==> s[i] != SEP);
        assert(s[head.len() as int] == SEP);
        lemma_first_sep_is(s, head.len() as int);
        let k = first_sep(s);
        assert(k == head.len());
        assert(k < s.len());
        assert(s.take(k) =~= head);
        assert(s.skip(k + 1) =~= rest);
        assert(forall|j: int|
            0 <= j < segs.drop_first().len() ==> (#[trigger] segs.drop_first()[j]).len() != 0);
        assert(forall|j: int|
            0 <= j < segs.drop_first().len() ==> no_sep(#[trigger] segs.drop_first()[j]));
        lemma_split_join(segs.drop_first());
        assert(split_path(s) == seq![head] + split_path(rest));
        let tail_split = split_path(rest);
        assert((seq![head] + tail_split)[0] == head);
        assert((seq![head] + tail_split).drop_first() =~= tail_split);
        assert(drop_empty(seq![head] + tail_split) == seq![head] + drop_empty(tail_split));
        assert(drop_empty(split_path(s)) =~= segs);
    }
}

/// The segments of a canonical path satisfy the canonical-segment predicates.
proof fn lemma_norm_segments_props(s: Seq<char>)
    ensures
        forall|j: int| 0 <= j < norm_segments(s).len() ==> (#[trigger] norm_segments(s)[j]).len()
            != 0,
        forall|j: int| 0 <= j < norm_segments(s).len() ==> no_sep(#[trigger] norm_segments(s)[j]),
{
    lemma_split_path_no_sep(s);
    lemma_drop_empty_props(split_path(s));
    let de = drop_empty(split_path(s));
    assert forall|j: int| 0 <= j < de.len() implies no_sep(#[trigger] de[j]) by {
        let i0 = choose|i: int| 0 <= i < split_path(s).len() && de[j] == split_path(s)[i];
        assert(no_sep(split_path(s)[i0]));
    }
    lemma_collapse_preserves(de, |x: Seq<char>| x.len() != 0);
    lemma_collapse_preserves(de, |x: Seq<char>| no_sep(x));
}

/// Normalization is idempotent.
pub proof fn lemma_normalize_idempotent(s: Seq<char>)
    ensures
        normalize_path(normalize_path(s)) == normalize_path(s),
{
    let c = norm_segments(s);
    lemma_norm_segments_props(s);
    lemma_split_join(c);
    lemma_collapse_fixpoint(drop_empty(split_path(s)));
    assert(collapse(c) == c);
    assert(norm_segments(normalize_path(s)) == c);
}

/// The character sequences of a vector of character vectors.
pub open spec fn views(v: Seq<Vec<char>>) -> Seq<Seq<char>> {
    v.map_values(|x: Vec<char>| x@)
}

/// Copy a character vector.
fn copy_chars(v: &Vec<char>) -> (r: Vec<char>)
    ensures
        r@ == v@,
{
    let mut r: Vec<char> = Vec::new();
    let mut i: usize = 0;
    while i < v.len()
        invariant
            i <= v@.len(),
            r@ == v@.take(i as int),
        decreases v@.len() - i,
    {
        r.push(v[i]);
        i = i + 1;
        assert(r@ =~= v@.take(i as int));
    }
    assert(r@ =~= v@);
    r
}

/// Equality of two character vectors.
fn chars_eq(a: &Vec<char>, b: &Vec<char>) -> (r: bool)
    ensures
        r == (a@ == b@),
{
    if a.len() != b.len() {
        return false;
    }
    let mut i: usize = 0;
    while i < a.len()
        invariant
            a@.len() == b@.len(),
            i <= a@.len(),
            forall|j: int| 0 <= j < i ==> a@[j] == b@[j],
        decreases a@.len() - i,
    {
        if a[i] != b[i] {
            return false;
        }
        i = i + 1;
    }
    assert(a@ =~= b@);
    true
}

/// Split a character vector on separators, keeping empty segments.
fn split_exec(s: &Vec<char>) -> (r: Vec<Vec<char>>)
    ensures
        views(r@) == split_path(s@),
{
    let mut r: Vec<Vec<char>> = Vec::new();
    let mut pos: usize = 0;
    let n = s.len();
    proof {
        assert(s@.skip(0) =~= s@);
        assert(views(r@) + split_path(s@) =~= split_path(s@));
    }
    loop
        invariant_except_break
            pos <= n,
            n == s@.len(),
            split_path(s@) == views(r@) + split_path(s@.skip(pos as int)),
        ensures
            views(r@) == split_path(s@),
        decreases n - pos,
    {
        // find the first separator at or after pos
        let mut j: usize = pos;
        while j < n && s[j] != SEP
            invariant
                pos <= j <= n,
                n == s@.len(),
                forall|i: int| pos <= i < j ==> s@[i] != SEP,
            decreases n - j,
        {
            j = j + 1;
        }
        proof {
            let suf = s@.skip(pos as int);
            assert(forall|i: int| 0 <= i < j - pos ==> suf[i] != SEP);
            if j < n {
                assert(suf[j - pos] == SEP);
            }
            lemma_first_sep_is(suf, j - pos);
        }
        let mut seg: Vec<char> = Vec::new();
        let mut i: usize = pos;
        while i < j
            invariant
                pos <= i <= j <= n,
                n == s@.len(),
                seg@ == s@.subrange(pos as int, i as int),
            decreases j - i,
        {
            seg.push(s[i]);
            i = i + 1;
            assert(seg@ =~= s@.subrange(pos as int, i as int));
        }
        let ghost r0 = r@;
        let ghost suf = s@.skip(pos as int);
        if j == n {
            proof {
                assert(suf.take(n - pos) =~= suf);
                assert(seg@ =~= suf);
                assert(split_path(suf) == seq![suf]);
            }
            r.push(seg);
            proof {
                assert(views(r@) =~= views(r0).push(suf));
                assert(views(r0).push(suf) =~= views(r0) + seq![suf]);
                assert(views(r@) =~= split_path(s@));
            }
            break;
        } else {
            proof {
                assert(suf.take(j - pos) =~= s@.subrange(pos as int, j as int));
                assert(suf.skip(j - pos + 1) =~= s@.skip(j + 1));
                assert(split_path(suf) == seq![seg@] + split_path(s@.skip(j + 1)));
            }
            let ghost segv = seg@;
            r.push(seg);
            pos = j + 1;
            proof {
                assert(views(r@) =~= views(r0).push(segv));
                assert(views(r0).push(segv) =~= views(r0) + seq![segv]);
                assert(views(r@) + split_path(s@.skip(pos as int)) =~= views(r0) + split_path(
                    suf,
                ));
            }
        }
    }
    r
}

/// Remove the empty segments of a segment list.
fn drop_empty_exec(segs: &Vec<Vec<char>>) -> (r: Vec<Vec<char>>)
    ensures
        views(r@) == drop_empty(views(segs@)),
{
    let mut r: Vec<Vec<char>> = Vec::new();
    let mut i: usize = 0;
    proof {
        assert(views(segs@).skip(0) =~= views(segs@));
        assert(views(r@) + drop_empty(views(segs@)) =~= drop_empty(views(segs@)));
    }
    while i < segs.len()
        invariant
            i <= segs@.len(),
            drop_empty(views(segs@)) == views(r@) + drop_empty(views(segs@).skip(i as int)),
        decreases segs@.len() - i,
    {
        proof {
            let rest = views(segs@).skip(i as int);
            assert(rest[0] == segs@[i as int]@);
            assert(rest.drop_first() =~= views(segs@).skip(i as int + 1));
        }
        let ghost r0 = r@;
        if segs[i].len() != 0 {
            let c = copy_chars(&segs[i]);
            r.push(c);
            proof {
                assert(views(r@) =~= views(r0).push(segs@[i as int]@));
                assert(views(r0).push(segs@[i as int]@) =~= views(r0) + seq![segs@[i as int]@]);
            }
        }
        i = i + 1;
        proof {
            assert(drop_empty(views(segs@)) =~= views(r@) + drop_empty(
                views(segs@).skip(i as int),
            ));
        }
    }
    proof {
        assert(views(segs@).skip(segs@.len() as int) =~= Seq::<Seq<char>>::empty());
        assert(views(r@) =~= drop_empty(views(segs@)));
    }
    r
}

/// One collapse pass over a segment list.
fn collapse_once_exec(segs: &Vec<Vec<char>>) -> (r: Vec<Vec<char>>)
    ensures
        views(r@) == collapse_once(views(segs@)),
{
    let mut r: Vec<Vec<char>> = Vec::new();
    let mut i: usize = 0;
    let n = segs.len();
    proof {
        assert(views(segs@).skip(0) =~= views(segs@));
        assert(views(r@) + collapse_once(views(segs@)) =~= collapse_once(views(segs@)));
    }
    while i < n
        invariant
            i <= n,
            n == segs@.len(),
            collapse_once(views(segs@)) == views(r@) + collapse_once(views(segs@).skip(i as int)),
        decreases n - i,
    {
        proof {
            let rest = views(segs@).skip(i as int);
            assert(rest[0] == segs@[i as int]@);
            if i + 1 < n {
                assert(rest[1] == segs@[i as int + 1]@);
            }
            if i + 2 < n {
                assert(rest[2] == segs@[i as int + 2]@);
            }
            assert(rest.drop_first() =~= views(segs@).skip(i as int + 1));
        }
        let dup_next = n - i > 1 && chars_eq(&segs[i], &segs[i + 1]);
        let dup_skip = n - i > 2 && chars_eq(&segs[i], &segs[i + 2]);
        let ghost r0 = r@;
        if !dup_next && !dup_skip {
            let c = copy_chars(&segs[i]);
            r.push(c);
            proof {
                assert(views(r@) =~= views(r0).push(segs@[i as int]@));
                assert(views(r0).push(segs@[i as int]@) =~= views(r0) + seq![segs@[i as int]@]);
            }
        }
        i = i + 1;
        proof {
            assert(collapse_once(views(segs@)) =~= views(r@) + collapse_once(
                views(segs@).skip(i as int),
            ));
        }
    }
    proof {
        assert(views(segs@).skip(n as int) =~= Seq::<Seq<char>>::empty());
        assert(views(r@) =~= collapse_once(views(segs@)));
    }
    r
}

/// Equality of two segment lists.
fn segs_eq(a: &Vec<Vec<char>>, b: &Vec<Vec<char>>) -> (r: bool)
    ensures
        r == (views(a@) == views(b@)),
{
    if a.len() != b.len() {
        proof {
            assert(views(a@).len() != views(b@).len());
        }
        return false;
    }
    let mut i: usize = 0;
    while i < a.len()
        invariant
            a@.len() == b@.len(),
            i <= a@.len(),
            forall|j: int| 0 <= j < i ==> views(a@)[j] == views(b@)[j],
        decreases a@.len() - i,
    {
        if !chars_eq(&a[i], &b[i]) {
            proof {
                assert(views(a@)[i as int] == a@[i as int]@);
                assert(views(b@)[i as int] == b@[i as int]@);
            }
            return false;
        }
        proof {
            assert(views(a@)[i as int] == a@[i as int]@);
            assert(views(b@)[i as int] == b@[i as int]@);
        }
        i = i + 1;
    }
    assert(views(a@) =~= views(b@));
    true
}

/// Join a segment list with separators into a string.
fn join_exec(segs: &Vec<Vec<char>>) -> (r: String)
    ensures
        r@ == join_path(views(segs@)),
{
    let mut out = String::new();
    let mut i: usize = 0;
    let n = segs.len();
    proof {
        assert(views(segs@).skip(0) =~= views(segs@));
        assert(out@ + join_path(views(segs@)) =~= join_path(views(segs@)));
    }
    while i < n
        invariant
            i <= n,
            n == segs@.len(),
            join_path(views(segs@)) == out@ + join_path(views(segs@).skip(i as int)),
        decreases n - i,
    {
        proof {
            let rest = views(segs@).skip(i as int);
            assert(rest[0] == segs@[i as int]@);
            assert(rest.drop_first() =~= views(segs@).skip(i as int + 1));
        }
        let seg = chars_to_string(&segs[i]);
        out.append(seg.as_str());
        if i + 1 < n {
            push_char(&mut out, SEP);
        }
        i = i + 1;
        proof {
            assert(join_path(views(segs@)) =~= out@ + join_path(views(segs@).skip(i as int)));
        }
    }
    proof {
        assert(views(segs@).skip(n as int) =~= Seq::<Seq<char>>::empty());
        assert(out@ =~= join_path(views(segs@)));
    }
    out
}

/// Canonicalize a slash-delimited path: empty segments are removed, and
/// segments equal to the next segment or to the one two positions ahead
/// are dropped, repeatedly, until the path no longer changes.
pub fn clean_path_segments(path: &str) -> (r: String)
    ensures
        r@ == normalize_path(path@),
{
    let chars = to_chars(path);
    let raw = split_exec(&chars);
    let filtered = drop_empty_exec(&raw);
    let mut cur = filtered;
    let mut stable = false;
    while !stable
        invariant
            collapse(views(cur@)) == norm_segments(chars@),
            stable ==> collapse_once(views(cur@)) == views(cur@),
        decreases views(cur@).len(), (if stable { 0int } else { 1int }),
    {
        let next = collapse_once_exec(&cur);
        if segs_eq(&next, &cur) {
            stable = true;
        } else {
            proof {
                lemma_collapse_once_len(views(cur@));
            }
            cur = next;
        }
    }
    join_exec(&cur)
}

/// The segment just before the last one of a raw slash-split, if the path
/// has more than one segment.
pub open spec fn parent_dir_spec(s: Seq<char>) -> Option<Seq<char>> {
    let segs = split_path(s);
    if segs.len() > 1 {
        Some(segs[segs.len() - 2])
    } else {
        None
    }
}

/// The immediate parent directory named by a path, if any: the next-to-last
/// slash-separated segment.
pub fn extract_parent_directory(path: &str) -> (r: Option<String>)
    ensures
        match r {
            Some(p) => parent_dir_spec(path@) == Some(p@),
            None => parent_dir_spec(path@) is None,
        },
{
    let chars = to_chars(path);
    let segs = split_exec(&chars);
    if segs.len() > 1 {
        let p = chars_to_string(&segs[segs.len() - 2]);
        proof {
            assert(views(segs@)[segs@.len() - 2] == segs@[segs@.len() - 2]@);
        }
        Some(p)
    } else {
        None
    }
}

} // verus!
