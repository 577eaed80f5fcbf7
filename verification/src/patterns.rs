//! The textual patterns of the two dialects, written out as verified
//! matchers: image references `![alt](path)`, titled file links
//! `[title]([[url]])`, embeds `{{embed ((id))}}`, titled and standalone
//! identifier references, whole-block math and image tests, and the
//! self-border marker.

use vstd::prelude::*;
use vstd::string::StrSliceExecFns;
use crate::text::{
    find_char, find_char_from, push_char, spec_starts_with, spec_trim, spec_trim_start,
    starts_with, trim, trim_start,
};

verus! {

/// `p` occurs in `s` at position `i`.
pub open spec fn spec_matches_at(s: Seq<char>, i: int, p: Seq<char>) -> bool {
    0 <= i && i + p.len() <= s.len() && s.subrange(i, i + p.len()) == p
}

pub fn matches_at(s: &str, i: usize, p: &str) -> (b: bool)
    ensures
        b == spec_matches_at(s@, i as int, p@),
{
    let sn = s.unicode_len();
    let pn = p.unicode_len();
    if i > sn || pn > sn - i {
        return false;
    }
    let mut j: usize = 0;
    while j < pn
        invariant
            0 <= j <= pn,
            i + pn <= sn,
            sn == s@.len(),
            pn == p@.len(),
            forall|t: int| 0 <= t < j ==> s@[i + t] == p@[t],
        decreases pn - j,
    {
        if s.get_char(i + j) != p.get_char(j) {
            proof {
                assert(s@.subrange(i as int, i + pn)[j as int] != p@[j as int]);
            }
            return false;
        }
        j += 1;
    }
    proof {
        assert(s@.subrange(i as int, i + pn) =~= p@);
    }
    true
}

/// A lowercase hexadecimal digit.
pub open spec fn is_hex_lower(c: char) -> bool {
    (('0' as u32) <= (c as u32) && (c as u32) <= ('9' as u32)) || (('a' as u32) <= (c as u32) && (
    c as u32) <= ('f' as u32))
}

/// A source-dialect identifier token: 8-4-4-4-12 lowercase hexadecimal
/// groups separated by dashes.
pub open spec fn spec_is_uuid(s: Seq<char>) -> bool {
    s.len() == 36 && (forall|i: int|
        0 <= i < 36 ==> (if i == 8 || i == 13 || i == 18 || i == 23 {
            s[i] == '-'
        } else {
            is_hex_lower(s[i])
        }))
}

fn is_hex_lower_exec(c: char) -> (b: bool)
    ensures
        b == is_hex_lower(c),
{
    (('0' as u32) <= (c as u32) && (c as u32) <= ('9' as u32)) || (('a' as u32) <= (c as u32) && (
    c as u32) <= ('f' as u32))
}

/// Does a uuid-shaped token start at position `i` of `s`?
pub fn uuid_at(s: &str, i: usize) -> (b: bool)
    requires
        i <= s@.len(),
    ensures
        b == (i + 36 <= s@.len() && spec_is_uuid(s@.subrange(i as int, i + 36))),
{
    let n = s.unicode_len();
    if n - i < 36 {
        return false;
    }
    let ghost u = s@.subrange(i as int, i + 36);
    let mut j: usize = 0;
    while j < 36
        invariant
            0 <= j <= 36,
            i + 36 <= n,
            n == s@.len(),
            u == s@.subrange(i as int, i + 36),
            forall|t: int|
                0 <= t < j ==> (if t == 8 || t == 13 || t == 18 || t == 23 {
                    u[t] == '-'
                } else {
                    is_hex_lower(u[t])
                }),
        decreases 36 - j,
    {
        let c = s.get_char(i + j);
        proof {
            assert(u[j as int] == s@[i + j]);
        }
        if j == 8 || j == 13 || j == 18 || j == 23 {
            if c != '-' {
                return false;
            }
        } else {
            if !is_hex_lower_exec(c) {
                return false;
            }
        }
        j += 1;
    }
    true
}

/// An image reference at the start of a text: `![alt](path)`, the alt free
/// of `]`, the path free of `)`. Offsets are relative to the text's start.
#[verifier::ext_equal]
pub ghost struct ImgM {
    pub path_start: int,
    pub path_end: int,
    pub end: int,
}

pub open spec fn spec_image_pre(s: Seq<char>) -> Option<ImgM> {
    if s.len() >= 2 && s[0] == '!' && s[1] == '[' {
        let j = 2 + find_char(s.skip(2), ']');
        if j + 1 < s.len() && s[j + 1] == '(' {
            let k = j + 2 + find_char(s.skip(j + 2), ')');
            if k < s.len() {
                Option::Some(ImgM { path_start: j + 2, path_end: k, end: k + 1 })
            } else {
                Option::None
            }
        } else {
            Option::None
        }
    } else {
        Option::None
    }
}

/// Finds an image reference starting at absolute position `i` of `s`;
/// returns absolute `(path_start, path_end, end)`.
pub fn image_prefix_at(s: &str, i: usize) -> (r: Option<(usize, usize, usize)>)
    requires
        i <= s@.len(),
    ensures
        match r {
            Option::Some(m) => i + 4 <= m.0 && m.0 <= m.1 < m.2 <= s@.len() && spec_image_pre(
                s@.skip(i as int),
            ) == Option::Some(
                ImgM { path_start: m.0 - i, path_end: m.1 - i, end: m.2 - i },
            ),
            Option::None => spec_image_pre(s@.skip(i as int)) is None,
        },
{
    let n = s.unicode_len();
    let ghost t = s@.skip(i as int);
    if n - i < 2 || s.get_char(i) != '!' || s.get_char(i + 1) != '[' {
        proof {
            if t.len() >= 2 {
                assert(t[0] == s@[i as int]);
                assert(t[1] == s@[i + 1]);
            }
        }
        return None;
    }
    proof {
        assert(t[0] == s@[i as int]);
        assert(t[1] == s@[i + 1]);
    }
    let j = find_char_from(s, ']', i + 2);
    proof {
        assert(t.skip(2) =~= s@.skip(i + 2));
    }
    if n - j < 2 {
        proof {
            if (j - i) + 1 < t.len() {
                assert(false);
            }
        }
        return None;
    }
    if s.get_char(j + 1) != '(' {
        proof {
            assert(t[(j - i) + 1] == s@[j + 1]);
        }
        return None;
    }
    proof {
        assert(t[(j - i) + 1] == s@[j + 1]);
    }
    let k = find_char_from(s, ')', j + 2);
    proof {
        assert(t.skip((j - i) + 2) =~= s@.skip(j + 2));
    }
    if k >= n {
        return None;
    }
    Some((j + 2, k, k + 1))
}

/// A block that consists solely of a double-dollar math expression,
/// optionally wrapped as a list item.
pub open spec fn spec_only_math(s: Seq<char>) -> bool {
    let t = spec_trim(s);
    let u = if spec_starts_with(t, ("- ")@) {
        t.skip(2)
    } else {
        t
    };
    u.len() >= 4 && u.subrange(0, 2) == ("$$")@ && u.subrange(u.len() - 2, u.len() as int) == (
    "$$")@
}

pub fn only_math(s: &str) -> (b: bool)
    ensures
        b == spec_only_math(s@),
{
    proof {
        reveal_strlit("- ");
        reveal_strlit("$$");
    }
    let t = trim(s);
    let tn = t.unicode_len();
    let u = if starts_with(t, "- ") {
        t.substring_char(2, tn)
    } else {
        t
    };
    proof {
        if spec_starts_with(t@, ("- ")@) {
            assert(t@.skip(2) =~= u@);
        }
    }
    let un = u.unicode_len();
    un >= 4 && matches_at(u, 0, "$$") && matches_at(u, un - 2, "$$")
}

/// A block that consists solely of one image reference, optionally preceded
/// by a list dash.
pub open spec fn spec_only_image(s: Seq<char>) -> bool {
    let t = spec_trim(s);
    let u = if t.len() > 0 && t[0] == '-' {
        spec_trim_start(t.drop_first())
    } else {
        t
    };
    match spec_image_pre(u) {
        Option::Some(m) => m.end == u.len(),
        Option::None => false,
    }
}

pub fn only_image(s: &str) -> (b: bool)
    ensures
        b == spec_only_image(s@),
{
    let t = trim(s);
    let tn = t.unicode_len();
    let u = if tn > 0 && t.get_char(0) == '-' {
        proof {
            assert(t@.skip(1) =~= t@.drop_first());
        }
        trim_start(t.substring_char(1, tn))
    } else {
        t
    };
    proof {
        assert(u@.skip(0) =~= u@);
    }
    match image_prefix_at(u, 0) {
        Some(m) => m.2 == u.unicode_len(),
        None => false,
    }
}

/// A titled file link at the start of a text: `[title]([[url]])`, the title
/// free of `]`, the url non-empty and free of `]`.
#[verifier::ext_equal]
pub ghost struct LinkM {
    pub mid_end: int,
    pub tail_start: int,
    pub end: int,
}

pub open spec fn spec_file_link_pre(s: Seq<char>) -> Option<LinkM> {
    if s.len() >= 1 && s[0] == '[' {
        let j = 1 + find_char(s.skip(1), ']');
        if j < s.len() && spec_matches_at(s, j + 1, ("([[")@) {
            let m = j + 4 + find_char(s.skip(j + 4), ']');
            if m < s.len() && m > j + 4 && spec_matches_at(s, m + 1, ("])")@) {
                Option::Some(LinkM { mid_end: j, tail_start: j + 4, end: m + 3 })
            } else {
                Option::None
            }
        } else {
            Option::None
        }
    } else {
        Option::None
    }
}

/// Finds a titled file link starting at absolute position `i`; returns
/// absolute `(title_end, url_start, url_end)`; the whole match ends at
/// `url_end + 3`.
pub fn file_link_prefix_at(s: &str, i: usize) -> (r: Option<(usize, usize, usize)>)
    requires
        i <= s@.len(),
    ensures
        match r {
            Option::Some(m) => i < m.0 && m.1 == m.0 + 4 && m.1 < m.2 && m.2 + 3 <= s@.len()
                && spec_file_link_pre(s@.skip(i as int)) == Option::Some(
                LinkM { mid_end: m.0 - i, tail_start: m.1 - i, end: m.2 + 3 - i },
            ),
            Option::None => spec_file_link_pre(s@.skip(i as int)) is None,
        },
{
    proof {
        reveal_strlit("([[");
        reveal_strlit("])");
    }
    let n = s.unicode_len();
    let ghost t = s@.skip(i as int);
    if i >= n || s.get_char(i) != '[' {
        proof {
            if t.len() >= 1 {
                assert(t[0] == s@[i as int]);
            }
        }
        return None;
    }
    proof {
        assert(t[0] == s@[i as int]);
    }
    let j = find_char_from(s, ']', i + 1);
    proof {
        assert(t.skip(1) =~= s@.skip(i + 1));
    }
    if j >= n {
        return None;
    }
    if !matches_at(s, j + 1, "([[") {
        proof {
            if (j - i) + 4 <= t.len() {
                assert(t.subrange((j - i) + 1, (j - i) + 4) =~= s@.subrange(j + 1, j + 4));
            }
        }
        return None;
    }
    proof {
        assert(t.subrange((j - i) + 1, (j - i) + 4) =~= s@.subrange(j + 1, j + 4));
    }
    let m = find_char_from(s, ']', j + 4);
    proof {
        assert(t.skip((j - i) + 4) =~= s@.skip(j + 4));
    }
    if m >= n || m == j + 4 {
        return None;
    }
    if !matches_at(s, m + 1, "])") {
        proof {
            if (m - i) + 3 <= t.len() {
                assert(t.subrange((m - i) + 1, (m - i) + 3) =~= s@.subrange(m + 1, m + 3));
            }
        }
        return None;
    }
    proof {
        assert(t.subrange((m - i) + 1, (m - i) + 3) =~= s@.subrange(m + 1, m + 3));
    }
    Some((j, j + 4, m))
}

/// An embed macro at the start of a text: `{{embed ((id))}}` with a
/// uuid-shaped id. The id occupies offsets 10 to 46; the match is 50 long.
pub open spec fn spec_embed_pre(s: Seq<char>) -> bool {
    spec_matches_at(s, 0, ("{{embed ((")@) && s.len() >= 50 && spec_is_uuid(s.subrange(10, 46))
        && spec_matches_at(s, 46, ("))}}")@)
}

pub fn embed_prefix_at(s: &str, i: usize) -> (b: bool)
    requires
        i <= s@.len(),
    ensures
        b == spec_embed_pre(s@.skip(i as int)),
{
    proof {
        reveal_strlit("{{embed ((");
        reveal_strlit("))}}");
    }
    let n = s.unicode_len();
    let ghost t = s@.skip(i as int);
    if n - i < 50 {
        return false;
    }
    let head = matches_at(s, i, "{{embed ((");
    proof {
        assert(t.subrange(0, 10) =~= s@.subrange(i as int, i + 10));
    }
    if !head {
        return false;
    }
    let idok = uuid_at(s, i + 10);
    proof {
        assert(t.subrange(10, 46) =~= s@.subrange(i + 10, i + 46));
    }
    if !idok {
        return false;
    }
    let tail = matches_at(s, i + 46, "))}}");
    proof {
        assert(t.subrange(46, 50) =~= s@.subrange(i + 46, i + 50));
    }
    tail
}

/// A titled identifier link at the start of a text: `[title](((id)))`, the
/// title free of `]`, the id uuid-shaped. With the title ending at offset
/// `j`, the id occupies offsets `j + 4` to `j + 40` and the match ends at
/// `j + 43`.
pub open spec fn spec_link_id_pre(s: Seq<char>) -> Option<int> {
    if s.len() >= 1 && s[0] == '[' {
        let j = 1 + find_char(s.skip(1), ']');
        if j < s.len() && spec_matches_at(s, j + 1, ("(((")@) && j + 43 <= s.len() && spec_is_uuid(
            s.subrange(j + 4, j + 40),
        ) && spec_matches_at(s, j + 40, (")))")@) {
            Option::Some(j)
        } else {
            Option::None
        }
    } else {
        Option::None
    }
}

/// Finds a titled identifier link starting at absolute position `i`;
/// returns the absolute offset of the title's closing bracket.
pub fn link_id_prefix_at(s: &str, i: usize) -> (r: Option<usize>)
    requires
        i <= s@.len(),
    ensures
        match r {
            Option::Some(j) => i < j && j + 43 <= s@.len() && spec_link_id_pre(s@.skip(i as int))
                == Option::Some(j - i),
            Option::None => spec_link_id_pre(s@.skip(i as int)) is None,
        },
{
    proof {
        reveal_strlit("(((");
        reveal_strlit(")))");
    }
    let n = s.unicode_len();
    let ghost t = s@.skip(i as int);
    if i >= n || s.get_char(i) != '[' {
        proof {
            if t.len() >= 1 {
                assert(t[0] == s@[i as int]);
            }
        }
        return None;
    }
    proof {
        assert(t[0] == s@[i as int]);
    }
    let j = find_char_from(s, ']', i + 1);
    proof {
        assert(t.skip(1) =~= s@.skip(i + 1));
    }
    if j >= n {
        return None;
    }
    if !matches_at(s, j + 1, "(((") {
        proof {
            if (j - i) + 4 <= t.len() {
                assert(t.subrange((j - i) + 1, (j - i) + 4) =~= s@.subrange(j + 1, j + 4));
            }
        }
        return None;
    }
    proof {
        assert(t.subrange((j - i) + 1, (j - i) + 4) =~= s@.subrange(j + 1, j + 4));
    }
    if n - j < 43 {
        return None;
    }
    let idok = uuid_at(s, j + 4);
    proof {
        assert(t.subrange((j - i) + 4, (j - i) + 40) =~= s@.subrange(j + 4, j + 40));
    }
    if !idok {
        return None;
    }
    let tail = matches_at(s, j + 40, ")))");
    proof {
        assert(t.subrange((j - i) + 40, (j - i) + 43) =~= s@.subrange(j + 40, j + 43));
    }
    if !tail {
        return None;
    }
    Some(j)
}

/// A standalone identifier reference at the start of a text: any character
/// other than `(`, then `((id))` with a uuid-shaped id. The reference itself
/// (what a rewrite replaces) occupies offsets 1 to 41; the id offsets 3 to
/// 39.
pub open spec fn spec_standalone_pre(s: Seq<char>) -> bool {
    s.len() >= 41 && s[0] != '(' && spec_matches_at(s, 1, ("((")@) && spec_is_uuid(
        s.subrange(3, 39),
    ) && spec_matches_at(s, 39, ("))")@)
}

pub fn standalone_prefix_at(s: &str, i: usize) -> (b: bool)
    requires
        i <= s@.len(),
    ensures
        b == spec_standalone_pre(s@.skip(i as int)),
{
    proof {
        reveal_strlit("((");
        reveal_strlit("))");
    }
    let n = s.unicode_len();
    let ghost t = s@.skip(i as int);
    if n - i < 41 {
        return false;
    }
    proof {
        assert(t[0] == s@[i as int]);
    }
    if s.get_char(i) == '(' {
        return false;
    }
    let head = matches_at(s, i + 1, "((");
    proof {
        assert(t.subrange(1, 3) =~= s@.subrange(i + 1, i + 3));
    }
    if !head {
        return false;
    }
    let idok = uuid_at(s, i + 3);
    proof {
        assert(t.subrange(3, 39) =~= s@.subrange(i + 3, i + 39));
    }
    if !idok {
        return false;
    }
    let tail = matches_at(s, i + 39, "))");
    proof {
        assert(t.subrange(39, 41) =~= s@.subrange(i + 39, i + 41));
    }
    tail
}

/// The marker that flags a block for fenced-definition rendering.
pub open spec fn border_marker() -> Seq<char> {
    ("#.v-self-border")@
}

/// Does the marker occur anywhere in `s`?
pub open spec fn spec_has_marker(s: Seq<char>) -> bool {
    exists|i: int| 0 <= i && spec_matches_at(s, i, border_marker())
}

pub fn has_marker(s: &str) -> (b: bool)
    ensures
        b == spec_has_marker(s@),
{
    let n = s.unicode_len();
    let mut i: usize = 0;
    while i < n
        invariant
            0 <= i <= n,
            n == s@.len(),
            forall|j: int| 0 <= j < i ==> !spec_matches_at(s@, j, border_marker()),
        decreases n - i,
    {
        if matches_at(s, i, "#.v-self-border") {
            proof {
                assert(spec_matches_at(s@, i as int, border_marker()));
            }
            return true;
        }
        i += 1;
    }
    proof {
        assert forall|j: int| 0 <= j implies !spec_matches_at(s@, j, border_marker()) by {
            reveal_strlit("#.v-self-border");
            if j < n {
                assert(!spec_matches_at(s@, j, border_marker()));
            }
        }
    }
    false
}

/// `s` with every occurrence of the marker removed, each together with one
/// directly preceding space if there is one.
pub open spec fn spec_strip_marker(s: Seq<char>) -> Seq<char>
    decreases s.len(),
{
    let m = border_marker();
    if s.len() == 0 {
        Seq::empty()
    } else if m.len() >= 1 && s[0] == ' ' && spec_matches_at(s, 1, m) {
        spec_strip_marker(s.skip(1 + m.len() as int))
    } else if m.len() >= 1 && spec_matches_at(s, 0, m) {
        spec_strip_marker(s.skip(m.len() as int))
    } else {
        seq![s[0]] + spec_strip_marker(s.drop_first())
    }
}

pub fn strip_marker(s: &str) -> (r: String)
    ensures
        r@ == spec_strip_marker(s@),
{
    proof {
        reveal_strlit("#.v-self-border");
    }
    let n = s.unicode_len();
    let mut out = String::new();
    let mut i: usize = 0;
    proof {
        assert(s@.skip(0) =~= s@);
        assert(Seq::<char>::empty() + spec_strip_marker(s@) =~= spec_strip_marker(s@));
    }
    while i < n
        invariant
            0 <= i <= n,
            n == s@.len(),
            spec_strip_marker(s@) == out@ + spec_strip_marker(s@.skip(i as int)),
        decreases n - i,
    {
        let ghost t = s@.skip(i as int);
        proof {
            reveal_strlit("#.v-self-border");
            assert(t[0] == s@[i as int]);
        }
        if s.get_char(i) == ' ' && matches_at(s, i + 1, "#.v-self-border") {
            proof {
                reveal_strlit("#.v-self-border");
            }
            proof {
                assert(t.subrange(1, 16) =~= s@.subrange(i + 1, i + 16));
                assert(t.skip(16) =~= s@.skip(i + 16));
            }
            i += 16;
        } else if matches_at(s, i, "#.v-self-border") {
            proof {
                reveal_strlit("#.v-self-border");
                assert(t.subrange(0, 15) =~= s@.subrange(i as int, i + 15));
                assert(t.skip(15) =~= s@.skip(i + 15));
                if t[0] == ' ' && spec_matches_at(t, 1, border_marker()) {
                    assert(t.subrange(1, 16)[0] == t[1]);
                    assert(t[1] == s@[i + 1]);
                    assert(border_marker()[0] == '#');
                    assert(t.subrange(0, 15)[1] == t[1]);
                    assert(border_marker()[1] == '.');
                    assert(false);
                }
            }
            i += 15;
        } else {
            proof {
                reveal_strlit("#.v-self-border");
                if t[0] == ' ' && spec_matches_at(t, 1, border_marker()) {
                    assert(t.subrange(1, 16) =~= s@.subrange(i + 1, i + 16));
                    assert(false);
                }
                if spec_matches_at(t, 0, border_marker()) {
                    assert(t.subrange(0, 15) =~= s@.subrange(i as int, i + 15));
                    assert(false);
                }
                assert(t.drop_first() =~= s@.skip(i + 1));
            }
            push_char(&mut out, s.get_char(i));
            proof {
                assert(out@ + spec_strip_marker(s@.skip(i + 1)) =~= (out@.drop_last() + (seq![
                    t[0],
                ] + spec_strip_marker(t.drop_first()))));
            }
            i += 1;
        }
    }
    proof {
        assert(s@.skip(n as int) =~= Seq::<char>::empty());
        assert(out@ + Seq::<char>::empty() =~= out@);
    }
    out
}

} // verus!
