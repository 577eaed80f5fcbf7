//! Character-level text helpers: whitespace trimming, line splitting and
//! joining, and prefix tests. All contracts are stated over `Seq<char>` views.

use vstd::prelude::*;
use vstd::string::StrSliceExecFns;
use vstd::string::StringExecFns;

verus! {

/// The whitespace characters this dialect recognizes.
pub open spec fn is_ws(c: char) -> bool {
    c == ' ' || c == '\t' || c == '\r' || c == '\n'
}

pub fn is_ws_char(c: char) -> (b: bool)
    ensures
        b == is_ws(c),
{
    c == ' ' || c == '\t' || c == '\r' || c == '\n'
}

/// Number of leading whitespace characters of `s`.
pub open spec fn ws_prefix_len(s: Seq<char>) -> int
    decreases s.len(),
{
    if s.len() == 0 || !is_ws(s[0]) {
        0
    } else {
        1 + ws_prefix_len(s.drop_first())
    }
}

pub proof fn lemma_ws_prefix_len(s: Seq<char>)
    ensures
        0 <= ws_prefix_len(s) <= s.len(),
        forall|j: int| 0 <= j < ws_prefix_len(s) ==> is_ws(s[j]),
        ws_prefix_len(s) < s.len() ==> !is_ws(s[ws_prefix_len(s)]),
    decreases s.len(),
{
    if s.len() == 0 || !is_ws(s[0]) {
    } else {
        lemma_ws_prefix_len(s.drop_first());
        assert forall|j: int| 0 <= j < ws_prefix_len(s) implies is_ws(s[j]) by {
            if j > 0 {
                assert(s.drop_first()[j - 1] == s[j]);
            }
        }
        if ws_prefix_len(s) < s.len() {
            assert(s.drop_first()[ws_prefix_len(s) - 1] == s[ws_prefix_len(s)]);
        }
    }
}

/// `ws_prefix_len` is the unique boundary between a whitespace prefix and the
/// first non-whitespace character.
pub proof fn lemma_ws_prefix_len_is(s: Seq<char>, w: int)
    requires
        0 <= w <= s.len(),
        forall|j: int| 0 <= j < w ==> is_ws(s[j]),
        w < s.len() ==> !is_ws(s[w]),
    ensures
        ws_prefix_len(s) == w,
    decreases s.len(),
{
    if s.len() == 0 {
    } else if w == 0 {
        if ws_prefix_len(s) != 0 {
            assert(is_ws(s[0]));
        }
    } else {
        assert(is_ws(s[0]));
        assert forall|j: int| 0 <= j < w - 1 implies is_ws(s.drop_first()[j]) by {
            assert(s.drop_first()[j] == s[j + 1]);
        }
        if w - 1 < s.drop_first().len() {
            assert(s.drop_first()[w - 1] == s[w]);
        }
        lemma_ws_prefix_len_is(s.drop_first(), w - 1);
    }
}

/// Number of trailing whitespace characters of `s`.
pub open spec fn ws_suffix_len(s: Seq<char>) -> int
    decreases s.len(),
{
    if s.len() == 0 || !is_ws(s.last()) {
        0
    } else {
        1 + ws_suffix_len(s.drop_last())
    }
}

pub proof fn lemma_ws_suffix_len(s: Seq<char>)
    ensures
        0 <= ws_suffix_len(s) <= s.len(),
        forall|j: int| s.len() - ws_suffix_len(s) <= j < s.len() ==> is_ws(s[j]),
        ws_suffix_len(s) < s.len() ==> !is_ws(s[s.len() - ws_suffix_len(s) - 1]),
    decreases s.len(),
{
    if s.len() == 0 || !is_ws(s.last()) {
    } else {
        lemma_ws_suffix_len(s.drop_last());
        assert forall|j: int| s.len() - ws_suffix_len(s) <= j < s.len() implies is_ws(s[j]) by {
            if j < s.len() - 1 {
                assert(s.drop_last()[j] == s[j]);
            }
        }
    }
}

pub proof fn lemma_ws_suffix_len_is(s: Seq<char>, w: int)
    requires
        0 <= w <= s.len(),
        forall|j: int| s.len() - w <= j < s.len() ==> is_ws(s[j]),
        w < s.len() ==> !is_ws(s[s.len() - w - 1]),
    ensures
        ws_suffix_len(s) == w,
    decreases s.len(),
{
    if s.len() == 0 {
    } else if w == 0 {
        if ws_suffix_len(s) != 0 {
            assert(is_ws(s.last()));
        }
    } else {
        assert(is_ws(s.last()));
        assert forall|j: int| s.drop_last().len() - (w - 1) <= j < s.drop_last().len()
            implies is_ws(s.drop_last()[j]) by {
            assert(s.drop_last()[j] == s[j]);
        }
        if w - 1 < s.drop_last().len() {
            assert(s.drop_last()[s.drop_last().len() - (w - 1) - 1] == s[s.len() - w - 1]);
        }
        lemma_ws_suffix_len_is(s.drop_last(), w - 1);
    }
}

pub open spec fn spec_trim_start(s: Seq<char>) -> Seq<char> {
    s.skip(ws_prefix_len(s))
}

pub open spec fn spec_trim_end(s: Seq<char>) -> Seq<char> {
    s.take(s.len() - ws_suffix_len(s))
}

pub open spec fn spec_trim(s: Seq<char>) -> Seq<char> {
    spec_trim_end(spec_trim_start(s))
}

pub fn trim_start<'a>(s: &'a str) -> (r: &'a str)
    ensures
        r@ == spec_trim_start(s@),
{
    let n = s.unicode_len();
    let mut i: usize = 0;
    while i < n && is_ws_char(s.get_char(i))
        invariant
            0 <= i <= n,
            n == s@.len(),
            forall|j: int| 0 <= j < i ==> is_ws(s@[j]),
        decreases n - i,
    {
        i += 1;
    }
    proof {
        lemma_ws_prefix_len_is(s@, i as int);
    }
    s.substring_char(i, n)
}

pub fn trim_end<'a>(s: &'a str) -> (r: &'a str)
    ensures
        r@ == spec_trim_end(s@),
{
    let n = s.unicode_len();
    let mut i: usize = n;
    while i > 0 && is_ws_char(s.get_char(i - 1))
        invariant
            0 <= i <= n,
            n == s@.len(),
            forall|j: int| i <= j < n ==> is_ws(s@[j]),
        decreases i,
    {
        i -= 1;
    }
    proof {
        lemma_ws_suffix_len_is(s@, n - i);
    }
    s.substring_char(0, i)
}

pub fn trim<'a>(s: &'a str) -> (r: &'a str)
    ensures
        r@ == spec_trim(s@),
{
    trim_end(trim_start(s))
}

/// Strips at most `n` leading whitespace columns, never past the string's own
/// whitespace, and (when anything is stripped at all) always leaves at least
/// one character.
pub open spec fn spec_trim_start_up_to(n: int, s: Seq<char>) -> Seq<char> {
    let k = if n <= ws_prefix_len(s) {
        n
    } else {
        ws_prefix_len(s)
    };
    if k <= 0 {
        s
    } else if k < s.len() {
        s.skip(k)
    } else {
        s.skip(s.len() - 1)
    }
}

pub fn trim_start_up_to<'a>(n: usize, s: &'a str) -> (r: &'a str)
    ensures
        r@ == spec_trim_start_up_to(n as int, s@),
{
    let len = s.unicode_len();
    let mut i: usize = 0;
    while i < n && i < len && is_ws_char(s.get_char(i))
        invariant
            0 <= i <= n,
            i <= len,
            len == s@.len(),
            forall|j: int| 0 <= j < i ==> is_ws(s@[j]),
        decreases len - i,
    {
        i += 1;
    }
    proof {
        lemma_ws_prefix_len(s@);
        if i < n && i < len {
            lemma_ws_prefix_len_is(s@, i as int);
        }
    }
    if i > 0 && i == len {
        i = len - 1;
    }
    s.substring_char(i, len)
}

/// Index of the first `'\n'` in `s`, or `s.len()` if there is none.
pub open spec fn line_break(s: Seq<char>) -> int
    decreases s.len(),
{
    if s.len() == 0 {
        0
    } else if s[0] == '\n' {
        0
    } else {
        1 + line_break(s.drop_first())
    }
}

pub proof fn lemma_line_break(s: Seq<char>)
    ensures
        0 <= line_break(s) <= s.len(),
        forall|j: int| 0 <= j < line_break(s) ==> s[j] != '\n',
        line_break(s) < s.len() ==> s[line_break(s)] == '\n',
    decreases s.len(),
{
    if s.len() == 0 || s[0] == '\n' {
    } else {
        lemma_line_break(s.drop_first());
        assert forall|j: int| 0 <= j < line_break(s) implies s[j] != '\n' by {
            if j > 0 {
                assert(s.drop_first()[j - 1] == s[j]);
            }
        }
        if line_break(s) < s.len() {
            assert(s.drop_first()[line_break(s) - 1] == s[line_break(s)]);
        }
    }
}

pub proof fn lemma_line_break_is(s: Seq<char>, k: int)
    requires
        0 <= k <= s.len(),
        forall|j: int| 0 <= j < k ==> s[j] != '\n',
        k < s.len() ==> s[k] == '\n',
    ensures
        line_break(s) == k,
    decreases s.len(),
{
    if s.len() == 0 {
    } else if k == 0 {
    } else {
        assert(s[0] != '\n');
        assert forall|j: int| 0 <= j < k - 1 implies s.drop_first()[j] != '\n' by {
            assert(s.drop_first()[j] == s[j + 1]);
        }
        if k - 1 < s.drop_first().len() {
            assert(s.drop_first()[k - 1] == s[k]);
        }
        lemma_line_break_is(s.drop_first(), k - 1);
    }
}

/// Index of the first occurrence of `c` in `s`, or `s.len()` if there is
/// none.
pub open spec fn find_char(s: Seq<char>, c: char) -> int
    decreases s.len(),
{
    if s.len() == 0 {
        0
    } else if s[0] == c {
        0
    } else {
        1 + find_char(s.drop_first(), c)
    }
}

pub proof fn lemma_find_char(s: Seq<char>, c: char)
    ensures
        0 <= find_char(s, c) <= s.len(),
        forall|j: int| 0 <= j < find_char(s, c) ==> s[j] != c,
        find_char(s, c) < s.len() ==> s[find_char(s, c)] == c,
    decreases s.len(),
{
    if s.len() == 0 || s[0] == c {
    } else {
        lemma_find_char(s.drop_first(), c);
        assert forall|j: int| 0 <= j < find_char(s, c) implies s[j] != c by {
            if j > 0 {
                assert(s.drop_first()[j - 1] == s[j]);
            }
        }
        if find_char(s, c) < s.len() {
            assert(s.drop_first()[find_char(s, c) - 1] == s[find_char(s, c)]);
        }
    }
}

pub proof fn lemma_find_char_is(s: Seq<char>, c: char, k: int)
    requires
        0 <= k <= s.len(),
        forall|j: int| 0 <= j < k ==> s[j] != c,
        k < s.len() ==> s[k] == c,
    ensures
        find_char(s, c) == k,
    decreases s.len(),
{
    if s.len() == 0 {
    } else if k == 0 {
    } else {
        assert(s[0] != c);
        assert forall|j: int| 0 <= j < k - 1 implies s.drop_first()[j] != c by {
            assert(s.drop_first()[j] == s[j + 1]);
        }
        if k - 1 < s.drop_first().len() {
            assert(s.drop_first()[k - 1] == s[k]);
        }
        lemma_find_char_is(s.drop_first(), c, k - 1);
    }
}

/// First index `>= from` holding `c`, or `s.len()` if there is none from
/// there on.
pub fn find_char_from(s: &str, c: char, from: usize) -> (r: usize)
    requires
        from <= s@.len(),
    ensures
        r == from + find_char(s@.skip(from as int), c),
        from <= r <= s@.len(),
        forall|j: int| from <= j < r ==> s@[j] != c,
        r < s@.len() ==> s@[r as int] == c,
{
    let n = s.unicode_len();
    let mut i: usize = from;
    while i < n && s.get_char(i) != c
        invariant
            from <= i <= n,
            n == s@.len(),
            forall|j: int| from <= j < i ==> s@[j] != c,
        decreases n - i,
    {
        i += 1;
    }
    proof {
        let t = s@.skip(from as int);
        assert forall|j: int| 0 <= j < i - from implies t[j] != c by {
            assert(t[j] == s@[from + j]);
        }
        if i < n {
            assert(t[i - from] == s@[i as int]);
        }
        lemma_find_char_is(t, c, i - from);
    }
    i
}

/// The lines of `s`, split on `'\n'`; a trailing newline does not produce a
/// final empty line.
pub open spec fn spec_lines(s: Seq<char>) -> Seq<Seq<char>>
    decreases s.len(),
{
    if s.len() == 0 {
        Seq::empty()
    } else {
        let i = line_break(s);
        if 0 <= i < s.len() {
            seq![s.take(i)] + spec_lines(s.skip(i + 1))
        } else {
            seq![s]
        }
    }
}

/// Splitting off one newline-free leading line agrees with `spec_lines`.
pub proof fn lemma_lines_step(s: Seq<char>, k: int)
    requires
        0 <= k < s.len(),
        forall|j: int| 0 <= j < k ==> s[j] != '\n',
        s[k] == '\n',
    ensures
        spec_lines(s) == seq![s.take(k)] + spec_lines(s.skip(k + 1)),
{
    lemma_line_break_is(s, k);
}

pub proof fn lemma_lines_whole(s: Seq<char>)
    requires
        s.len() > 0,
        forall|j: int| 0 <= j < s.len() ==> s[j] != '\n',
    ensures
        spec_lines(s) == seq![s],
{
    lemma_line_break_is(s, s.len() as int);
}

/// Lines joined with `'\n'` separators.
pub open spec fn join_lines(ls: Seq<Seq<char>>) -> Seq<char>
    decreases ls.len(),
{
    if ls.len() == 0 {
        Seq::empty()
    } else if ls.len() == 1 {
        ls[0]
    } else {
        ls[0] + seq!['\n'] + join_lines(ls.drop_first())
    }
}

pub fn split_lines(s: &str) -> (r: Vec<String>)
    ensures
        r.deep_view() == spec_lines(s@),
{
    let n = s.unicode_len();
    let mut res: Vec<String> = Vec::new();
    let mut start: usize = 0;
    let mut i: usize = 0;
    proof {
        assert(res.deep_view() =~= Seq::<Seq<char>>::empty());
        assert(s@.skip(0) =~= s@);
        assert(Seq::<Seq<char>>::empty() + spec_lines(s@) =~= spec_lines(s@));
    }
    while i < n
        invariant
            0 <= start <= i <= n,
            n == s@.len(),
            forall|j: int| start <= j < i ==> s@[j] != '\n',
            spec_lines(s@) == res.deep_view() + spec_lines(s@.skip(start as int)),
        decreases n - i,
    {
        if s.get_char(i) == '\n' {
            let line = s.substring_char(start, i).to_owned();
            proof {
                let rest = s@.skip(start as int);
                assert forall|j: int| 0 <= j < i - start implies rest[j] != '\n' by {
                    assert(rest[j] == s@[start + j]);
                }
                assert(rest[i - start] == s@[i as int]);
                lemma_lines_step(rest, i - start);
                assert(rest.take(i - start) =~= s@.subrange(start as int, i as int));
                assert(rest.skip(i - start + 1) =~= s@.skip(i + 1));
                assert(res.deep_view().push(line@) =~= res.deep_view() + seq![line@]);
                assert(res.deep_view() + (seq![line@] + spec_lines(s@.skip(i + 1))) =~= (
                res.deep_view() + seq![line@]) + spec_lines(s@.skip(i + 1)));
            }
            res.push(line);
            start = i + 1;
        }
        i += 1;
    }
    if start < n {
        let line = s.substring_char(start, n).to_owned();
        proof {
            let rest = s@.skip(start as int);
            assert forall|j: int| 0 <= j < rest.len() implies rest[j] != '\n' by {
                assert(rest[j] == s@[start + j]);
            }
            lemma_lines_whole(rest);
            assert(rest =~= s@.subrange(start as int, n as int));
            assert(res.deep_view().push(line@) =~= res.deep_view() + seq![line@]);
        }
        res.push(line);
    } else {
        proof {
            assert(s@.skip(start as int) =~= Seq::<char>::empty());
            assert(res.deep_view() + Seq::<Seq<char>>::empty() =~= res.deep_view());
        }
    }
    res
}

/// Relies on `String::push`: appends exactly one character to the end of the
/// string.
#[verifier::external_body]
pub(crate) fn push_char(s: &mut String, c: char)
    ensures
        final(s)@ == old(s)@.push(c),
{
    s.push(c)
}

pub fn join_lines_exec(ls: &Vec<String>) -> (r: String)
    ensures
        r@ == join_lines(ls.deep_view()),
{
    let mut r = String::new();
    let n = ls.len();
    let mut i: usize = 0;
    while i < n
        invariant
            0 <= i <= n,
            n == ls.len(),
            r@ == join_lines(ls.deep_view().take(i as int)),
        decreases n - i,
    {
        if i > 0 {
            push_char(&mut r, '\n');
        }
        r.append(ls[i].as_str());
        proof {
            lemma_join_lines_snoc(ls.deep_view().take(i as int), ls.deep_view()[i as int]);
            assert(ls.deep_view().take(i as int).push(ls.deep_view()[i as int]) =~= ls.deep_view()
                .take(i + 1));
        }
        i += 1;
    }
    proof {
        assert(ls.deep_view().take(n as int) =~= ls.deep_view());
    }
    r
}

pub proof fn lemma_join_lines_snoc(ls: Seq<Seq<char>>, l: Seq<char>)
    ensures
        join_lines(ls.push(l)) == if ls.len() == 0 {
            l
        } else {
            join_lines(ls) + seq!['\n'] + l
        },
    decreases ls.len(),
{
    let p = ls.push(l);
    if ls.len() == 0 {
        assert(p.len() == 1);
        assert(p[0] == l);
    } else {
        assert(p[0] == ls[0]);
        assert(p.drop_first() =~= ls.drop_first().push(l));
        lemma_join_lines_snoc(ls.drop_first(), l);
        if ls.len() == 1 {
            assert(join_lines(ls) == ls[0]);
            assert(join_lines(p) == p[0] + seq!['\n'] + join_lines(p.drop_first()));
        } else {
            assert(join_lines(p) == ls[0] + seq!['\n'] + (join_lines(ls.drop_first())
                + seq!['\n'] + l));
            assert(ls[0] + seq!['\n'] + (join_lines(ls.drop_first()) + seq!['\n'] + l) =~= (ls[0]
                + seq!['\n'] + join_lines(ls.drop_first())) + seq!['\n'] + l);
        }
    }
}

/// `s` begins with `p`.
pub open spec fn spec_starts_with(s: Seq<char>, p: Seq<char>) -> bool {
    p.len() <= s.len() && s.take(p.len() as int) == p
}

pub fn starts_with(s: &str, p: &str) -> (b: bool)
    ensures
        b == spec_starts_with(s@, p@),
{
    let sn = s.unicode_len();
    let pn = p.unicode_len();
    if pn > sn {
        proof {
            assert(!spec_starts_with(s@, p@));
        }
        return false;
    }
    let mut i: usize = 0;
    while i < pn
        invariant
            0 <= i <= pn <= sn,
            sn == s@.len(),
            pn == p@.len(),
            forall|j: int| 0 <= j < i ==> s@[j] == p@[j],
        decreases pn - i,
    {
        if s.get_char(i) != p.get_char(i) {
            proof {
                assert(s@.take(pn as int)[i as int] != p@[i as int]);
            }
            return false;
        }
        i += 1;
    }
    proof {
        assert(s@.take(pn as int) =~= p@);
    }
    true
}

pub fn str_eq(s: &str, t: &str) -> (b: bool)
    ensures
        b == (s@ == t@),
{
    let sn = s.unicode_len();
    let tn = t.unicode_len();
    if sn != tn {
        return false;
    }
    let mut i: usize = 0;
    while i < sn
        invariant
            0 <= i <= sn,
            sn == s@.len(),
            tn == t@.len(),
            sn == tn,
            forall|j: int| 0 <= j < i ==> s@[j] == t@[j],
        decreases sn - i,
    {
        if s.get_char(i) != t.get_char(i) {
            return false;
        }
        i += 1;
    }
    proof {
        assert(s@ =~= t@);
    }
    true
}

pub open spec fn spec_spaces(n: int) -> Seq<char> {
    Seq::new(n as nat, |i: int| ' ')
}

/// A run of `n` spaces; mirrors the fixed-size space table of the renderer.
pub fn repeat_space(n: usize) -> (r: String)
    requires
        n <= 16,
    ensures
        r@ == spec_spaces(n as int),
{
    let mut r = String::new();
    let mut i: usize = 0;
    while i < n
        invariant
            0 <= i <= n,
            r@ =~= spec_spaces(i as int),
        decreases n - i,
    {
        push_char(&mut r, ' ');
        proof {
            assert(r@ =~= spec_spaces(i + 1));
        }
        i += 1;
    }
    r
}

/// A list item's text turned back into bare-paragraph form: the `"- "` marker
/// removed and every continuation line un-indented by up to two columns.
pub open spec fn spec_list_to_normal(s: Seq<char>) -> Seq<char>
    recommends
        s.len() > 2,
{
    let ls = spec_lines(s.skip(2));
    join_lines(seq![ls[0]] + ls.drop_first().map_values(|l: Seq<char>| spec_trim_start_up_to(2, l)))
}

pub fn list_item_to_normal(s: &str) -> (r: String)
    requires
        s@.len() > 2,
        s@[0] == '-',
        s@[1] == ' ',
    ensures
        r@ == spec_list_to_normal(s@),
{
    let n = s.unicode_len();
    let b = s.substring_char(2, n);
    let ls = split_lines(b);
    proof {
        assert(b@ == s@.skip(2));
        lemma_lines_nonempty(b@);
    }
    let mut out: Vec<String> = Vec::new();
    out.push(ls[0].clone());
    let mut i: usize = 1;
    while i < ls.len()
        invariant
            1 <= i <= ls.len(),
            ls.deep_view() == spec_lines(s@.skip(2)),
            ls.deep_view().len() > 0,
            out.deep_view() =~= seq![ls.deep_view()[0]] + ls.deep_view().subrange(
                1,
                i as int,
            ).map_values(|l: Seq<char>| spec_trim_start_up_to(2, l)),
        decreases ls.len() - i,
    {
        let t = trim_start_up_to(2, ls[i].as_str()).to_owned();
        proof {
            let dv = ls.deep_view();
            assert(dv.subrange(1, i + 1) =~= dv.subrange(1, i as int).push(dv[i as int]));
            assert(dv.subrange(1, i as int).push(dv[i as int]).map_values(
                |l: Seq<char>| spec_trim_start_up_to(2, l),
            ) =~= dv.subrange(1, i as int).map_values(|l: Seq<char>| spec_trim_start_up_to(2, l))
                .push(spec_trim_start_up_to(2, dv[i as int])));
            assert(out.deep_view().push(t@) =~= out.deep_view() + seq![t@]);
            assert(seq![dv[0]] + dv.subrange(1, i as int).map_values(
                |l: Seq<char>| spec_trim_start_up_to(2, l),
            ) + seq![t@] =~= seq![dv[0]] + dv.subrange(1, i as int).map_values(
                |l: Seq<char>| spec_trim_start_up_to(2, l),
            ).push(t@));
        }
        out.push(t);
        i += 1;
    }
    proof {
        let dv = ls.deep_view();
        assert(dv.subrange(1, dv.len() as int) =~= dv.drop_first());
    }
    join_lines_exec(&out)
}

pub proof fn lemma_lines_nonempty(s: Seq<char>)
    requires
        s.len() > 0,
    ensures
        spec_lines(s).len() > 0,
{
    lemma_line_break(s);
}

/// A bare-paragraph text turned into a list item: `"- "` prepended and every
/// continuation line indented by two columns.
pub open spec fn spec_normal_to_list(s: Seq<char>) -> Seq<char>
    recommends
        s.len() > 0,
{
    let ls = spec_lines(s);
    seq!['-', ' '] + join_lines(
        seq![ls[0]] + ls.drop_first().map_values(|l: Seq<char>| seq![' ', ' '] + l),
    )
}

pub fn normal_to_list_item(s: &str) -> (r: String)
    requires
        s@.len() > 0,
    ensures
        r@ == spec_normal_to_list(s@),
{
    let ls = split_lines(s);
    proof {
        lemma_lines_nonempty(s@);
    }
    let mut out: Vec<String> = Vec::new();
    out.push(ls[0].clone());
    let mut i: usize = 1;
    while i < ls.len()
        invariant
            1 <= i <= ls.len(),
            ls.deep_view() == spec_lines(s@),
            ls.deep_view().len() > 0,
            out.deep_view() =~= seq![ls.deep_view()[0]] + ls.deep_view().subrange(
                1,
                i as int,
            ).map_values(|l: Seq<char>| seq![' ', ' '] + l),
        decreases ls.len() - i,
    {
        let mut t = String::new();
        push_char(&mut t, ' ');
        push_char(&mut t, ' ');
        t.append(ls[i].as_str());
        proof {
            let dv = ls.deep_view();
            assert(t@ =~= seq![' ', ' '] + dv[i as int]);
            assert(dv.subrange(1, i + 1) =~= dv.subrange(1, i as int).push(dv[i as int]));
            assert(dv.subrange(1, i as int).push(dv[i as int]).map_values(
                |l: Seq<char>| seq![' ', ' '] + l,
            ) =~= dv.subrange(1, i as int).map_values(|l: Seq<char>| seq![' ', ' '] + l).push(t@));
            assert(out.deep_view().push(t@) =~= out.deep_view() + seq![t@]);
            assert(seq![dv[0]] + dv.subrange(1, i as int).map_values(
                |l: Seq<char>| seq![' ', ' '] + l,
            ) + seq![t@] =~= seq![dv[0]] + dv.subrange(1, i as int).map_values(
                |l: Seq<char>| seq![' ', ' '] + l,
            ).push(t@));
        }
        out.push(t);
        i += 1;
    }
    proof {
        let dv = ls.deep_view();
        assert(dv.subrange(1, dv.len() as int) =~= dv.drop_first());
    }
    let body = join_lines_exec(&out);
    let mut r = String::new();
    push_char(&mut r, '-');
    push_char(&mut r, ' ');
    r.append(body.as_str());
    proof {
        assert(r@ =~= seq!['-', ' '] + body@);
    }
    r
}

} // verus!
