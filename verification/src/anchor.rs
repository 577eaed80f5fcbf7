//! Target-dialect anchors for blocks: a sanitized heading anchor when the
//! block starts with a heading, otherwise a stable content hash of the body.

use vstd::prelude::*;
use vstd::string::StrSliceExecFns;
use crate::text::{
    is_ws, is_ws_char, push_char, spec_trim, spec_trim_start, trim, trim_start,
};

verus! {

/// Offset basis of the 64-bit FNV-1a hash.
pub const HASH_BASIS: u64 = 0xcbf29ce484222325;

/// Prime of the 64-bit FNV-1a hash.
pub const HASH_PRIME: u64 = 0x100000001b3;

/// A stable hash of a text: 64-bit FNV-1a over the character code points.
/// A pure function of the text, so equal bodies always hash alike.
pub open spec fn spec_hash(s: Seq<char>) -> u64
    decreases s.len(),
{
    if s.len() == 0 {
        HASH_BASIS
    } else {
        vstd::wrapping::u64_specs::wrapping_mul(
            spec_hash(s.drop_last()) ^ (s.last() as u64),
            HASH_PRIME,
        )
    }
}

pub fn content_hash(s: &str) -> (h: u64)
    ensures
        h == spec_hash(s@),
{
    let n = s.unicode_len();
    let mut h: u64 = HASH_BASIS;
    let mut i: usize = 0;
    proof {
        assert(s@.take(0) =~= Seq::<char>::empty());
    }
    while i < n
        invariant
            0 <= i <= n,
            n == s@.len(),
            h == spec_hash(s@.take(i as int)),
        decreases n - i,
    {
        let c = s.get_char(i);
        h = (h ^ (c as u64)).wrapping_mul(HASH_PRIME);
        proof {
            assert(s@.take(i + 1).drop_last() =~= s@.take(i as int));
            assert(s@.take(i + 1).last() == s@[i as int]);
        }
        i += 1;
    }
    proof {
        assert(s@.take(n as int) =~= s@);
    }
    h
}

pub open spec fn hex_digits() -> Seq<char> {
    seq!['0', '1', '2', '3', '4', '5', '6', '7', '8', '9', 'a', 'b', 'c', 'd', 'e', 'f']
}

/// Lowercase hexadecimal form of `n`, no leading zeroes (`0` is `"0"`).
pub open spec fn spec_hex(n: int) -> Seq<char>
    recommends
        n >= 0,
    decreases n,
{
    if n < 16 {
        seq![hex_digits()[n]]
    } else {
        spec_hex(n / 16).push(hex_digits()[n % 16])
    }
}

fn hex_char(d: u64) -> (c: char)
    requires
        d < 16,
    ensures
        c == hex_digits()[d as int],
{
    if d == 0 {
        '0'
    } else if d == 1 {
        '1'
    } else if d == 2 {
        '2'
    } else if d == 3 {
        '3'
    } else if d == 4 {
        '4'
    } else if d == 5 {
        '5'
    } else if d == 6 {
        '6'
    } else if d == 7 {
        '7'
    } else if d == 8 {
        '8'
    } else if d == 9 {
        '9'
    } else if d == 10 {
        'a'
    } else if d == 11 {
        'b'
    } else if d == 12 {
        'c'
    } else if d == 13 {
        'd'
    } else if d == 14 {
        'e'
    } else {
        'f'
    }
}

pub fn push_hex(s: &mut String, v: u64)
    ensures
        final(s)@ == old(s)@ + spec_hex(v as int),
    decreases v,
{
    if v < 16 {
        push_char(s, hex_char(v));
        proof {
            assert(old(s)@.push(hex_digits()[v as int]) =~= old(s)@ + spec_hex(v as int));
        }
    } else {
        push_hex(s, v / 16);
        push_char(s, hex_char(v % 16));
        proof {
            assert((old(s)@ + spec_hex(v as int / 16)).push(hex_digits()[v as int % 16]) =~= old(
                s,
            )@ + spec_hex(v as int));
        }
    }
}

/// The characters a heading anchor may keep; every run of other characters
/// collapses to a single space.
pub open spec fn allowed_anchor_char(c: char) -> bool {
    (('a' as u32) <= (c as u32) && (c as u32) <= ('z' as u32)) || (('A' as u32) <= (c as u32) && (
    c as u32) <= ('Z' as u32)) || (('0' as u32) <= (c as u32) && (c as u32) <= ('9' as u32)) || c
        == '-' || c == '_' || c == 'ö' || c == 'ä' || c == 'ü' || c == 'Ö' || c == 'Ä' || c == 'Ü'
        || c == 'è' || c == 'à' || c == 'é'
}

fn allowed_anchor_char_exec(c: char) -> (b: bool)
    ensures
        b == allowed_anchor_char(c),
{
    (('a' as u32) <= (c as u32) && (c as u32) <= ('z' as u32)) || (('A' as u32) <= (c as u32) && (
    c as u32) <= ('Z' as u32)) || (('0' as u32) <= (c as u32) && (c as u32) <= ('9' as u32)) || c
        == '-' || c == '_' || c == 'ö' || c == 'ä' || c == 'ü' || c == 'Ö' || c == 'Ä' || c == 'Ü'
        || c == 'è' || c == 'à' || c == 'é'
}

/// Every disallowed character replaced by a space.
pub open spec fn map_anchor_chars(s: Seq<char>) -> Seq<char> {
    s.map_values(
        |c: char|
            if allowed_anchor_char(c) {
                c
            } else {
                ' '
            },
    )
}

/// Consecutive spaces collapsed into one.
pub open spec fn collapse_spaces(s: Seq<char>) -> Seq<char>
    decreases s.len(),
{
    if s.len() == 0 {
        Seq::empty()
    } else if s.len() >= 2 && s[0] == ' ' && s[1] == ' ' {
        collapse_spaces(s.drop_first())
    } else {
        seq![s[0]] + collapse_spaces(s.drop_first())
    }
}

/// A heading sanitized into an anchor: disallowed characters collapse to
/// single spaces, and the result is trimmed.
pub open spec fn spec_sanitize(h: Seq<char>) -> Seq<char> {
    spec_trim(collapse_spaces(map_anchor_chars(h)))
}

pub fn sanitize_header(h: &str) -> (r: String)
    ensures
        r@ == spec_sanitize(h@),
{
    let n = h.unicode_len();
    let ghost m = map_anchor_chars(h@);
    let mut out = String::new();
    let mut i: usize = 0;
    proof {
        assert(m.skip(0) =~= m);
        assert(Seq::<char>::empty() + collapse_spaces(m) =~= collapse_spaces(m));
    }
    while i < n
        invariant
            0 <= i <= n,
            n == h@.len(),
            m == map_anchor_chars(h@),
            collapse_spaces(m) == out@ + collapse_spaces(m.skip(i as int)),
        decreases n - i,
    {
        let c = h.get_char(i);
        let mc = if allowed_anchor_char_exec(c) {
            c
        } else {
            ' '
        };
        proof {
            assert(m[i as int] == mc);
        }
        let mut skip_this = false;
        if mc == ' ' && i + 1 < n {
            let c2 = h.get_char(i + 1);
            let mc2 = if allowed_anchor_char_exec(c2) {
                c2
            } else {
                ' '
            };
            proof {
                assert(m[i + 1] == mc2);
            }
            if mc2 == ' ' {
                skip_this = true;
            }
        }
        proof {
            let rest = m.skip(i as int);
            assert(rest[0] == m[i as int]);
            if rest.len() >= 2 {
                assert(rest[1] == m[i + 1]);
            }
            assert(rest.drop_first() =~= m.skip(i + 1));
        }
        if skip_this {
        } else {
            push_char(&mut out, mc);
            proof {
                let rest = m.skip(i as int);
                assert(out@ + collapse_spaces(m.skip(i + 1)) =~= (out@.drop_last() + (seq![
                    rest[0],
                ] + collapse_spaces(rest.drop_first()))));
            }
        }
        i += 1;
    }
    proof {
        assert(m.skip(n as int) =~= Seq::<char>::empty());
        assert(out@ + Seq::<char>::empty() =~= out@);
    }
    trim(out.as_str()).to_owned()
}

/// The anchor of a block: the sanitized heading prefixed `#` when a heading
/// is present, else the body's content hash prefixed `^`.
pub open spec fn spec_anchor(body: Seq<char>, header: Option<Seq<char>>) -> Seq<char> {
    match header {
        Option::Some(h) => seq!['#'] + spec_sanitize(h),
        Option::None => seq!['^'] + spec_hex(spec_hash(body) as int),
    }
}

pub fn anchor_of(body: &str, header: Option<&String>) -> (r: String)
    ensures
        r@ == spec_anchor(
            body@,
            match header {
                Option::Some(h) => Option::Some(h@),
                Option::None => Option::None,
            },
        ),
{
    match header {
        Option::Some(h) => {
            let mut r = String::new();
            push_char(&mut r, '#');
            let s = sanitize_header(h.as_str());
            r.append(s.as_str());
            proof {
                assert(r@ =~= seq!['#'] + spec_sanitize(h@));
            }
            r
        },
        Option::None => {
            let mut r = String::new();
            push_char(&mut r, '^');
            let hv = content_hash(body);
            proof {
                assert(r@ =~= Seq::<char>::empty().push('^'));
            }
            push_hex(&mut r, hv);
            proof {
                assert(Seq::<char>::empty().push('^') + spec_hex(spec_hash(body@) as int) =~= seq![
                    '^',
                ] + spec_hex(spec_hash(body@) as int));
            }
            r
        },
    }
}

/// The heading of a line, if the line is a heading: optional leading
/// whitespace and list dash, one or more `#`, one whitespace character, then
/// the heading text (trimmed, and it must be non-empty).
pub open spec fn spec_header_of(l: Seq<char>) -> Option<Seq<char>> {
    let t = spec_trim_start(l);
    let u = if t.len() > 0 && t[0] == '-' {
        spec_trim_start(t.drop_first())
    } else {
        t
    };
    let k = hash_marks(u);
    if 1 <= k < u.len() && is_ws(u[k]) {
        let h = spec_trim(u.skip(k + 1));
        if h.len() > 0 {
            Option::Some(h)
        } else {
            Option::None
        }
    } else {
        Option::None
    }
}

/// Number of leading `'#'` characters.
pub open spec fn hash_marks(s: Seq<char>) -> int
    decreases s.len(),
{
    if s.len() == 0 || s[0] != '#' {
        0
    } else {
        1 + hash_marks(s.drop_first())
    }
}

pub proof fn lemma_hash_marks_is(s: Seq<char>, k: int)
    requires
        0 <= k <= s.len(),
        forall|j: int| 0 <= j < k ==> s[j] == '#',
        k < s.len() ==> s[k] != '#',
    ensures
        hash_marks(s) == k,
    decreases s.len(),
{
    if s.len() == 0 {
    } else if k == 0 {
    } else {
        assert(s[0] == '#');
        assert forall|j: int| 0 <= j < k - 1 implies s.drop_first()[j] == '#' by {
            assert(s.drop_first()[j] == s[j + 1]);
        }
        if k - 1 < s.drop_first().len() {
            assert(s.drop_first()[k - 1] == s[k]);
        }
        lemma_hash_marks_is(s.drop_first(), k - 1);
    }
}

pub fn header_of(l: &str) -> (r: Option<String>)
    ensures
        match r {
            Option::Some(h) => spec_header_of(l@) == Option::Some(h@),
            Option::None => spec_header_of(l@) is None,
        },
{
    let t = trim_start(l);
    let tn = t.unicode_len();
    let u = if tn > 0 && t.get_char(0) == '-' {
        proof {
            assert(t@.skip(1) =~= t@.drop_first());
        }
        trim_start(t.substring_char(1, tn))
    } else {
        t
    };
    let un = u.unicode_len();
    let mut k: usize = 0;
    while k < un && u.get_char(k) == '#'
        invariant
            0 <= k <= un,
            un == u@.len(),
            forall|j: int| 0 <= j < k ==> u@[j] == '#',
        decreases un - k,
    {
        k += 1;
    }
    proof {
        lemma_hash_marks_is(u@, k as int);
    }
    if 1 <= k && k < un && is_ws_char(u.get_char(k)) {
        let h = trim(u.substring_char(k + 1, un));
        proof {
            assert(u@.subrange(k + 1, un as int) =~= u@.skip(k + 1));
        }
        if h.unicode_len() > 0 {
            Some(h.to_owned())
        } else {
            None
        }
    } else {
        None
    }
}

} // verus!
