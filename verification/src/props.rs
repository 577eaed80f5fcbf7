//! Declared property lines of the source dialect: `title::`, `alias::`,
//! `id::` and `collapsed::`.

use vstd::prelude::*;
use vstd::string::StrSliceExecFns;
use crate::text::{
    spec_trim, spec_trim_start, spec_starts_with, trim, trim_start, starts_with,
};

verus! {

#[derive(Debug, Clone, Copy, PartialEq, Eq, Structural)]
pub enum Prop {
    Title,
    Alias,
    Id,
    Collapsed,
}

pub open spec fn prop_prefix(p: Prop) -> Seq<char> {
    match p {
        Prop::Title => seq!['t', 'i', 't', 'l', 'e', ':', ':'],
        Prop::Alias => seq!['a', 'l', 'i', 'a', 's', ':', ':'],
        Prop::Id => seq!['i', 'd', ':', ':'],
        Prop::Collapsed => seq!['c', 'o', 'l', 'l', 'a', 'p', 's', 'e', 'd', ':', ':'],
    }
}

/// The property declared by `line`, if any: the trimmed line must begin with
/// one of the four fixed prefixes; the value is the rest, trimmed at the
/// start.
pub open spec fn spec_parse_prop(line: Seq<char>) -> Option<(Prop, Seq<char>)> {
    let t = spec_trim(line);
    if spec_starts_with(t, prop_prefix(Prop::Title)) {
        Some((Prop::Title, spec_trim_start(t.skip(7))))
    } else if spec_starts_with(t, prop_prefix(Prop::Alias)) {
        Some((Prop::Alias, spec_trim_start(t.skip(7))))
    } else if spec_starts_with(t, prop_prefix(Prop::Id)) {
        Some((Prop::Id, spec_trim_start(t.skip(4))))
    } else if spec_starts_with(t, prop_prefix(Prop::Collapsed)) {
        Some((Prop::Collapsed, spec_trim_start(t.skip(11))))
    } else {
        None
    }
}

pub fn parse_prop(line: &str) -> (r: Option<(Prop, String)>)
    ensures
        match r {
            Some((p, v)) => spec_parse_prop(line@) == Some((p, v@)),
            None => spec_parse_prop(line@) is None,
        },
{
    let t = trim(line);
    let n = t.unicode_len();
    proof {
        reveal_strlit("title::");
        reveal_strlit("alias::");
        reveal_strlit("id::");
        reveal_strlit("collapsed::");
        assert(("title::")@ =~= prop_prefix(Prop::Title));
        assert(("alias::")@ =~= prop_prefix(Prop::Alias));
        assert(("id::")@ =~= prop_prefix(Prop::Id));
        assert(("collapsed::")@ =~= prop_prefix(Prop::Collapsed));
    }
    if starts_with(t, "title::") {
        let v = trim_start(t.substring_char(7, n)).to_owned();
        Some((Prop::Title, v))
    } else if starts_with(t, "alias::") {
        let v = trim_start(t.substring_char(7, n)).to_owned();
        Some((Prop::Alias, v))
    } else if starts_with(t, "id::") {
        let v = trim_start(t.substring_char(4, n)).to_owned();
        Some((Prop::Id, v))
    } else if starts_with(t, "collapsed::") {
        let v = trim_start(t.substring_char(11, n)).to_owned();
        Some((Prop::Collapsed, v))
    } else {
        None
    }
}

} // verus!
