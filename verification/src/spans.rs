//! The span grouper: splits a sequence of lines into contiguous spans, each
//! span starting at a line whose first character is the delimiter. Lines
//! before the first delimiter line form one leading span of their own.

use vstd::prelude::*;
use vstd::string::StrSliceExecFns;
use crate::text::{join_lines, join_lines_exec, lemma_join_lines_snoc};

verus! {

pub open spec fn starts_delim(l: Seq<char>, d: char) -> bool {
    l.len() > 0 && l[0] == d
}

pub fn starts_delim_exec(l: &str, d: char) -> (b: bool)
    ensures
        b == starts_delim(l@, d),
{
    l.unicode_len() > 0 && l.get_char(0) == d
}

/// Index of the first delimiter-starting line of `ls`, or `ls.len()`.
pub open spec fn first_delim(ls: Seq<Seq<char>>, d: char) -> int
    decreases ls.len(),
{
    if ls.len() == 0 {
        0
    } else if starts_delim(ls[0], d) {
        0
    } else {
        1 + first_delim(ls.drop_first(), d)
    }
}

pub proof fn lemma_first_delim(ls: Seq<Seq<char>>, d: char)
    ensures
        0 <= first_delim(ls, d) <= ls.len(),
        forall|j: int| 0 <= j < first_delim(ls, d) ==> !starts_delim(ls[j], d),
        first_delim(ls, d) < ls.len() ==> starts_delim(ls[first_delim(ls, d)], d),
    decreases ls.len(),
{
    if ls.len() == 0 || starts_delim(ls[0], d) {
    } else {
        lemma_first_delim(ls.drop_first(), d);
        assert forall|j: int| 0 <= j < first_delim(ls, d) implies !starts_delim(ls[j], d) by {
            if j > 0 {
                assert(ls.drop_first()[j - 1] == ls[j]);
            }
        }
        if first_delim(ls, d) < ls.len() {
            assert(ls.drop_first()[first_delim(ls, d) - 1] == ls[first_delim(ls, d)]);
        }
    }
}

pub proof fn lemma_first_delim_is(ls: Seq<Seq<char>>, d: char, k: int)
    requires
        0 <= k <= ls.len(),
        forall|j: int| 0 <= j < k ==> !starts_delim(ls[j], d),
        k < ls.len() ==> starts_delim(ls[k], d),
    ensures
        first_delim(ls, d) == k,
    decreases ls.len(),
{
    if ls.len() == 0 {
    } else if k == 0 {
    } else {
        assert(!starts_delim(ls[0], d));
        assert forall|j: int| 0 <= j < k - 1 implies !starts_delim(ls.drop_first()[j], d) by {
            assert(ls.drop_first()[j] == ls[j + 1]);
        }
        if k - 1 < ls.drop_first().len() {
            assert(ls.drop_first()[k - 1] == ls[k]);
        }
        lemma_first_delim_is(ls.drop_first(), d, k - 1);
    }
}

/// Where the first span of `ls` ends: just before the next delimiter-starting
/// line after the first line, or at the end of input.
pub open spec fn span_end(ls: Seq<Seq<char>>, d: char) -> int {
    1 + first_delim(ls.drop_first(), d)
}

/// The spans of `ls`: each is the newline-join of a maximal run of lines in
/// which only the first may start with the delimiter.
pub open spec fn spec_spans(ls: Seq<Seq<char>>, d: char) -> Seq<Seq<char>>
    decreases ls.len(),
{
    if ls.len() == 0 {
        Seq::empty()
    } else {
        let e = span_end(ls, d);
        if 1 <= e < ls.len() {
            seq![join_lines(ls.take(e))] + spec_spans(ls.skip(e), d)
        } else {
            seq![join_lines(ls)]
        }
    }
}

pub proof fn lemma_spans_step(ls: Seq<Seq<char>>, d: char, e: int)
    requires
        1 <= e <= ls.len(),
        forall|j: int| 1 <= j < e ==> !starts_delim(ls[j], d),
        e < ls.len() ==> starts_delim(ls[e], d),
    ensures
        e < ls.len() ==> spec_spans(ls, d) == seq![join_lines(ls.take(e))] + spec_spans(
            ls.skip(e),
            d,
        ),
        e == ls.len() ==> spec_spans(ls, d) == seq![join_lines(ls)],
{
    assert forall|j: int| 0 <= j < e - 1 implies !starts_delim(ls.drop_first()[j], d) by {
        assert(ls.drop_first()[j] == ls[j + 1]);
    }
    if e - 1 < ls.drop_first().len() {
        assert(ls.drop_first()[e - 1] == ls[e]);
    }
    lemma_first_delim_is(ls.drop_first(), d, e - 1);
}

/// Groups `lines` into spans. A span starts at each line whose first
/// character is `delim`; any lines before the first such line form one
/// leading span, so no line is dropped.
pub fn blocks(lines: &Vec<String>, delim: char) -> (r: Vec<String>)
    ensures
        r.deep_view() == spec_spans(lines.deep_view(), delim),
{
    let ghost full = lines.deep_view();
    let n = lines.len();
    let mut result: Vec<String> = Vec::new();
    let mut i: usize = 0;
    proof {
        assert(result.deep_view() =~= Seq::<Seq<char>>::empty());
        assert(full.skip(0) =~= full);
        assert(Seq::<Seq<char>>::empty() + spec_spans(full, delim) =~= spec_spans(full, delim));
    }
    while i < n
        invariant
            0 <= i <= n,
            n == lines.len(),
            full == lines.deep_view(),
            spec_spans(full, delim) == result.deep_view() + spec_spans(
                full.skip(i as int),
                delim,
            ),
        decreases n - i,
    {
        let mut j = i + 1;
        while j < n && !starts_delim_exec(lines[j].as_str(), delim)
            invariant
                i + 1 <= j <= n,
                n == lines.len(),
                full == lines.deep_view(),
                forall|t: int| i < t < j ==> !starts_delim(full[t], delim),
            decreases n - j,
        {
            j += 1;
        }
        let mut piece: Vec<String> = Vec::new();
        let mut k = i;
        while k < j
            invariant
                i <= k <= j <= n,
                n == lines.len(),
                full == lines.deep_view(),
                piece.deep_view() =~= full.subrange(i as int, k as int),
            decreases j - k,
        {
            let l = lines[k].clone();
            proof {
                assert(piece.deep_view().push(l@) =~= full.subrange(i as int, k + 1));
            }
            piece.push(l);
            k += 1;
        }
        let joined = join_lines_exec(&piece);
        proof {
            let rest = full.skip(i as int);
            assert forall|t: int| 1 <= t < j - i implies !starts_delim(rest[t], delim) by {
                assert(rest[t] == full[i + t]);
            }
            if j < n {
                assert(rest[j - i] == full[j as int]);
            }
            lemma_spans_step(rest, delim, j - i);
            assert(rest.take(j - i) =~= full.subrange(i as int, j as int));
            if j - i < rest.len() {
                assert(rest.skip(j - i) =~= full.skip(j as int));
            } else {
                assert(rest =~= full.subrange(i as int, j as int));
                assert(full.skip(j as int) =~= Seq::<Seq<char>>::empty());
            }
            assert(result.deep_view().push(joined@) =~= result.deep_view() + seq![joined@]);
            assert((result.deep_view() + seq![joined@]) + spec_spans(full.skip(j as int), delim)
                =~= result.deep_view() + (seq![joined@] + spec_spans(full.skip(j as int), delim)));
            if j - i >= rest.len() {
                assert(seq![joined@] + spec_spans(full.skip(j as int), delim) =~= seq![joined@]);
            }
        }
        result.push(joined);
        i = j;
    }
    proof {
        assert(full.skip(n as int) =~= Seq::<Seq<char>>::empty());
        assert(result.deep_view() + Seq::<Seq<char>>::empty() =~= result.deep_view());
    }
    result
}

/// How many lines of `ls` start with the delimiter.
pub open spec fn count_delim(ls: Seq<Seq<char>>, d: char) -> int
    decreases ls.len(),
{
    if ls.len() == 0 {
        0
    } else {
        (if starts_delim(ls[0], d) {
            1int
        } else {
            0int
        }) + count_delim(ls.drop_first(), d)
    }
}

pub proof fn lemma_count_delim_split(ls: Seq<Seq<char>>, d: char, e: int)
    requires
        0 <= e <= ls.len(),
    ensures
        count_delim(ls, d) == count_delim(ls.take(e), d) + count_delim(ls.skip(e), d),
    decreases e,
{
    if e == 0 {
        assert(ls.take(0) =~= Seq::<Seq<char>>::empty());
        assert(ls.skip(0) =~= ls);
    } else {
        assert(starts_delim(ls.take(e)[0], d) == starts_delim(ls[0], d));
        lemma_count_delim_split(ls.drop_first(), d, e - 1);
        assert(ls.take(e).drop_first() =~= ls.drop_first().take(e - 1));
        assert(ls.skip(e) =~= ls.drop_first().skip(e - 1));
    }
}

pub proof fn lemma_count_delim_none(ls: Seq<Seq<char>>, d: char)
    requires
        forall|j: int| 0 <= j < ls.len() ==> !starts_delim(ls[j], d),
    ensures
        count_delim(ls, d) == 0,
    decreases ls.len(),
{
    if ls.len() > 0 {
        assert forall|j: int| 0 <= j < ls.drop_first().len() implies !starts_delim(
            ls.drop_first()[j],
            d,
        ) by {
            assert(ls.drop_first()[j] == ls[j + 1]);
        }
        lemma_count_delim_none(ls.drop_first(), d);
    }
}

/// Law: the grouper produces exactly one span per delimiter-starting line,
/// plus one more when the input begins with a non-delimiter remainder; in
/// particular no line sequence ever loses all its lines.
pub proof fn lemma_span_count(ls: Seq<Seq<char>>, d: char)
    ensures
        spec_spans(ls, d).len() == count_delim(ls, d) + (if ls.len() > 0 && !starts_delim(
            ls[0],
            d,
        ) {
            1int
        } else {
            0int
        }),
    decreases ls.len(),
{
    if ls.len() == 0 {
    } else {
        let e = span_end(ls, d);
        lemma_first_delim(ls.drop_first(), d);
        assert forall|j: int| 1 <= j < e implies !starts_delim(ls[j], d) by {
            assert(ls.drop_first()[j - 1] == ls[j]);
        }
        if e < ls.len() {
            assert(ls.drop_first()[e - 1] == ls[e]);
            assert(starts_delim(ls[e], d));
        }
        lemma_count_delim_split(ls, d, e);
        assert forall|j: int| 0 <= j < ls.take(e).drop_first().len() implies !starts_delim(
            ls.take(e).drop_first()[j],
            d,
        ) by {
            assert(ls.take(e).drop_first()[j] == ls[j + 1]);
        }
        lemma_count_delim_none(ls.take(e).drop_first(), d);
        assert(count_delim(ls.take(e), d) == if starts_delim(ls[0], d) {
            1int
        } else {
            0int
        });
        if e < ls.len() {
            lemma_span_count(ls.skip(e), d);
            assert(ls.skip(e)[0] == ls[e]);
        } else {
            assert(ls.skip(e) =~= Seq::<Seq<char>>::empty());
        }
    }
}

} // verus!
