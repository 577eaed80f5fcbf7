//! The renderer: serializes a transformed tree into target-dialect text,
//! applying indentation and wrapping rules driven by each node's and its
//! children's list-item mode.

use vstd::prelude::*;
use vstd::string::StrSliceExecFns;
use vstd::string::StringExecFns;
use crate::block::{Block, Page};
use crate::text::{
    join_lines, join_lines_exec, lemma_join_lines_snoc, line_break, lemma_line_break_is,
    push_char, repeat_space, spec_spaces, spec_trim_end, trim_end,
};

verus! {

/// `s` split at every `'\n'`; unlike line splitting, a trailing newline
/// yields a final empty segment, and the empty text yields one empty
/// segment.
pub open spec fn spec_split(s: Seq<char>) -> Seq<Seq<char>>
    decreases s.len(),
{
    let i = line_break(s);
    if 0 <= i < s.len() {
        seq![s.take(i)] + spec_split(s.skip(i + 1))
    } else {
        seq![s]
    }
}

pub proof fn lemma_split_step(s: Seq<char>, k: int)
    requires
        0 <= k < s.len(),
        forall|j: int| 0 <= j < k ==> s[j] != '\n',
        s[k] == '\n',
    ensures
        spec_split(s) == seq![s.take(k)] + spec_split(s.skip(k + 1)),
{
    lemma_line_break_is(s, k);
}

pub proof fn lemma_split_whole(s: Seq<char>)
    requires
        forall|j: int| 0 <= j < s.len() ==> s[j] != '\n',
    ensures
        spec_split(s) == seq![s],
{
    lemma_line_break_is(s, s.len() as int);
}

pub fn split_all(s: &str) -> (r: Vec<String>)
    ensures
        r.deep_view() == spec_split(s@),
{
    let n = s.unicode_len();
    let mut res: Vec<String> = Vec::new();
    let mut start: usize = 0;
    let mut i: usize = 0;
    proof {
        assert(res.deep_view() =~= Seq::<Seq<char>>::empty());
        assert(s@.skip(0) =~= s@);
        assert(Seq::<Seq<char>>::empty() + spec_split(s@) =~= spec_split(s@));
    }
    while i < n
        invariant
            0 <= start <= i <= n,
            n == s@.len(),
            forall|j: int| start <= j < i ==> s@[j] != '\n',
            spec_split(s@) == res.deep_view() + spec_split(s@.skip(start as int)),
        decreases n - i,
    {
        if s.get_char(i) == '\n' {
            let line = s.substring_char(start, i).to_owned();
            proof {
                let rest = s@.skip(start as int);
                assert forall|j: int| 0 <= j < i - start implies rest[j] != '\n' by {
                    assert(rest[j] == s@[start + j]);
                }
                assert(rest[i - start] == s@[i as int]);
                lemma_split_step(rest, i - start);
                assert(rest.take(i - start) =~= s@.subrange(start as int, i as int));
                assert(rest.skip(i - start + 1) =~= s@.skip(i + 1));
                assert(res.deep_view().push(line@) =~= res.deep_view() + seq![line@]);
                assert(res.deep_view() + (seq![line@] + spec_split(s@.skip(i + 1))) =~= (
                res.deep_view() + seq![line@]) + spec_split(s@.skip(i + 1)));
            }
            res.push(line);
            start = i + 1;
        }
        i += 1;
    }
    let line = s.substring_char(start, n).to_owned();
    proof {
        let rest = s@.skip(start as int);
        assert forall|j: int| 0 <= j < rest.len() implies rest[j] != '\n' by {
            assert(rest[j] == s@[start + j]);
        }
        lemma_split_whole(rest);
        assert(rest =~= s@.subrange(start as int, n as int));
        assert(res.deep_view().push(line@) =~= res.deep_view() + seq![line@]);
    }
    res.push(line);
    res
}

/// Each newline-separated segment of `s` prefixed with `ind`.
pub open spec fn spec_indent(s: Seq<char>, ind: Seq<char>) -> Seq<char> {
    join_lines(spec_split(s).map_values(|l: Seq<char>| ind + l))
}

pub fn indent_text(s: &str, ind: &str) -> (r: String)
    ensures
        r@ == spec_indent(s@, ind@),
{
    let parts = split_all(s);
    let mut out: Vec<String> = Vec::new();
    let mut i: usize = 0;
    proof {
        assert(out.deep_view() =~= spec_split(s@).map_values(|l: Seq<char>| ind@ + l).take(0));
    }
    while i < parts.len()
        invariant
            0 <= i <= parts.len(),
            parts.deep_view() == spec_split(s@),
            out.deep_view() =~= spec_split(s@).map_values(|l: Seq<char>| ind@ + l).take(i as int),
        decreases parts.len() - i,
    {
        let mut t = ind.to_owned();
        t.append(parts[i].as_str());
        proof {
            let mp = spec_split(s@).map_values(|l: Seq<char>| ind@ + l);
            assert(t@ == mp[i as int]);
            assert(out.deep_view().push(t@) =~= mp.take(i + 1));
        }
        out.push(t);
        i += 1;
    }
    proof {
        let mp = spec_split(s@).map_values(|l: Seq<char>| ind@ + l);
        assert(mp.take(mp.len() as int) =~= mp);
    }
    join_lines_exec(&out)
}

/// The indentation a child's rendered text receives under its parent.
pub open spec fn spec_child_indent(parent_list: bool, child_list: bool) -> Seq<char> {
    if parent_list && child_list {
        spec_spaces(4)
    } else if parent_list {
        spec_spaces(2)
    } else {
        spec_spaces(0)
    }
}

/// The inline identifier suffix of a node: present only when the node has an
/// id but no heading; on its own line for self-border nodes, appended after
/// a space otherwise.
pub open spec fn spec_id_suffix(b: Block) -> Seq<char> {
    match b.id {
        Option::Some(id) => if b.header is Some {
            Seq::empty()
        } else if b.self_border {
            seq!['\n'] + id.obsdn_id@ + seq!['\n']
        } else {
            seq![' '] + id.obsdn_id@
        },
        Option::None => Seq::empty(),
    }
}

/// The rendered form of a block: its text, its identifier suffix, its
/// indented children after a blank line, wrapped in a fenced definition
/// container when the node is self-border.
pub open spec fn spec_render(b: Block, is_last: bool) -> Seq<char>
    decreases b, 1nat,
{
    let n = b.children.len() as int;
    let ch = join_lines(spec_child_parts(b));
    let idsfx = spec_id_suffix(b);
    let before = if n > 0 {
        seq!['\n']
    } else {
        Seq::<char>::empty()
    };
    if b.self_border {
        ("```ad-def\n")@ + b.text@ + before + spec_trim_end(ch) + ("\n```\n")@ + idsfx
    } else {
        let after = if is_last && n == 0 {
            seq!['\n']
        } else {
            Seq::<char>::empty()
        };
        b.text@ + idsfx + before + ch + after
    }
}

/// The rendered, indented texts of a block's children, in order.
pub open spec fn spec_child_parts(b: Block) -> Seq<Seq<char>>
    decreases b, 0nat,
    via spec_child_parts_decreases
{
    let n = b.children.len() as int;
    Seq::new(
        n as nat,
        |i: int|
            if 0 <= i < n {
                spec_indent(
                    spec_render(b.children[i], i == n - 1),
                    spec_child_indent(b.is_list_item, b.children[i].is_list_item),
                )
            } else {
                Seq::<char>::empty()
            },
    )
}

#[via_fn]
proof fn spec_child_parts_decreases(b: Block) {
    broadcast use vstd::std_specs::vec::group_vec_axioms;
    broadcast use vstd::seq::group_seq_axioms;

    assert forall|i: int| 0 <= i < b.children.len() implies (decreases_to!(b => b.children[i])) by {
        assert(decreases_to!(b => b.children));
        assert(decreases_to!(b.children => b.children@));
        vstd::seq::axiom_seq_index_decreases::<Block>(b.children@, i);
        assert(decreases_to!(b.children@ => b.children@[i]));
        assert(b.children[i] == b.children@[i]);
    }
}

impl Block {
    /// Serializes the (already transformed) block into target-dialect text.
    pub fn to_string(&self, is_last: bool) -> (r: String)
        ensures
            r@ == spec_render(*self, is_last),
        decreases *self,
    {
        let n = self.children.len();
        let ghost parts_spec = spec_child_parts(*self);
        let mut parts: Vec<String> = Vec::new();
        let mut i: usize = 0;
        proof {
            assert(parts.deep_view() =~= parts_spec.take(0));
        }
        while i < n
            invariant
                0 <= i <= n,
                n == self.children.len(),
                parts_spec == spec_child_parts(*self),
                parts.deep_view() =~= parts_spec.take(i as int),
            decreases n - i,
        {
            let c = &self.children[i];
            let rendered = c.to_string(i == n - 1);
            let ind = if c.is_list_item && self.is_list_item {
                repeat_space(4)
            } else if self.is_list_item {
                repeat_space(2)
            } else {
                repeat_space(0)
            };
            let part = indent_text(rendered.as_str(), ind.as_str());
            proof {
                assert(part@ == parts_spec[i as int]);
                assert(parts.deep_view().push(part@) =~= parts_spec.take(i + 1));
            }
            parts.push(part);
            i += 1;
        }
        proof {
            assert(parts_spec.take(n as int) =~= parts_spec);
        }
        let children_str = join_lines_exec(&parts);
        let idsfx = match &self.id {
            Some(id) => {
                if self.header.is_some() {
                    String::new()
                } else if self.self_border {
                    let mut t = String::new();
                    push_char(&mut t, '\n');
                    t.append(id.obsdn_id.as_str());
                    push_char(&mut t, '\n');
                    proof {
                        assert(t@ =~= spec_id_suffix(*self));
                    }
                    t
                } else {
                    let mut t = String::new();
                    push_char(&mut t, ' ');
                    t.append(id.obsdn_id.as_str());
                    proof {
                        assert(t@ =~= spec_id_suffix(*self));
                    }
                    t
                }
            },
            None => String::new(),
        };
        let mut out = String::new();
        if self.self_border {
            out.append("```ad-def\n");
            out.append(self.text.as_str());
            if n > 0 {
                push_char(&mut out, '\n');
            }
            out.append(trim_end(children_str.as_str()));
            out.append("\n```\n");
            out.append(idsfx.as_str());
            proof {
                assert(out@ =~= spec_render(*self, is_last));
            }
        } else {
            out.append(self.text.as_str());
            out.append(idsfx.as_str());
            if n > 0 {
                push_char(&mut out, '\n');
            }
            out.append(children_str.as_str());
            if is_last && n == 0 {
                push_char(&mut out, '\n');
            }
            proof {
                assert(out@ =~= spec_render(*self, is_last));
            }
        }
        out
    }
}

/// The alias front-matter block of a page: absent when there are no
/// aliases.
pub open spec fn spec_front_matter(alias: Seq<Seq<char>>) -> Seq<char> {
    if alias.len() > 0 {
        ("---\naliases: [")@ + join_sep(alias, (", ")@) + ("]\n---\n\n")@
    } else {
        Seq::empty()
    }
}

/// Elements joined with an arbitrary separator.
pub open spec fn join_sep(ls: Seq<Seq<char>>, sep: Seq<char>) -> Seq<char>
    decreases ls.len(),
{
    if ls.len() == 0 {
        Seq::empty()
    } else if ls.len() == 1 {
        ls[0]
    } else {
        ls[0] + sep + join_sep(ls.drop_first(), sep)
    }
}

pub proof fn lemma_join_sep_snoc(ls: Seq<Seq<char>>, sep: Seq<char>, l: Seq<char>)
    ensures
        join_sep(ls.push(l), sep) == if ls.len() == 0 {
            l
        } else {
            join_sep(ls, sep) + sep + l
        },
    decreases ls.len(),
{
    let p = ls.push(l);
    if ls.len() == 0 {
        assert(p.len() == 1);
        assert(p[0] == l);
    } else {
        assert(p[0] == ls[0]);
        assert(p.drop_first() =~= ls.drop_first().push(l));
        lemma_join_sep_snoc(ls.drop_first(), sep, l);
        if ls.len() == 1 {
            assert(join_sep(ls, sep) == ls[0]);
            assert(join_sep(p, sep) == p[0] + sep + join_sep(p.drop_first(), sep));
        } else {
            assert(join_sep(p, sep) == ls[0] + sep + (join_sep(ls.drop_first(), sep) + sep + l));
            assert(ls[0] + sep + (join_sep(ls.drop_first(), sep) + sep + l) =~= (ls[0] + sep
                + join_sep(ls.drop_first(), sep)) + sep + l);
        }
    }
}

pub fn join_sep_exec(ls: &Vec<String>, sep: &str) -> (r: String)
    ensures
        r@ == join_sep(ls.deep_view(), sep@),
{
    let mut r = String::new();
    let n = ls.len();
    let mut i: usize = 0;
    while i < n
        invariant
            0 <= i <= n,
            n == ls.len(),
            r@ == join_sep(ls.deep_view().take(i as int), sep@),
        decreases n - i,
    {
        if i > 0 {
            r.append(sep);
        }
        r.append(ls[i].as_str());
        proof {
            lemma_join_sep_snoc(ls.deep_view().take(i as int), sep@, ls.deep_view()[i as int]);
            assert(ls.deep_view().take(i as int).push(ls.deep_view()[i as int]) =~= ls.deep_view()
                .take(i + 1));
        }
        i += 1;
    }
    proof {
        assert(ls.deep_view().take(n as int) =~= ls.deep_view());
    }
    r
}

/// The rendered form of a page: the alias front matter, then every
/// top-level block's rendering joined by newlines, each block rendered as a
/// last sibling.
/// The rendered texts of a page's top-level blocks; each is rendered as a
/// last sibling.
pub open spec fn spec_page_parts(p: Page) -> Seq<Seq<char>> {
    Seq::new(p.blocks.len() as nat, |i: int| spec_render(p.blocks[i], true))
}

pub open spec fn spec_render_page(p: Page) -> Seq<char> {
    spec_front_matter(p.alias.deep_view()) + join_sep(spec_page_parts(p), seq!['\n'])
}

impl Page {
    /// Serializes the whole page.
    pub fn to_string(&self) -> (r: String)
        ensures
            r@ == spec_render_page(*self),
    {
        let ghost parts_spec = spec_page_parts(*self);
        let mut parts: Vec<String> = Vec::new();
        let mut i: usize = 0;
        proof {
            assert(parts.deep_view() =~= parts_spec.take(0));
        }
        while i < self.blocks.len()
            invariant
                0 <= i <= self.blocks.len(),
                parts_spec == spec_page_parts(*self),
                parts.deep_view() =~= parts_spec.take(i as int),
            decreases self.blocks.len() - i,
        {
            let rendered = self.blocks[i].to_string(true);
            proof {
                assert(parts.deep_view().push(rendered@) =~= parts_spec.take(i + 1));
            }
            parts.push(rendered);
            i += 1;
        }
        proof {
            assert(parts_spec.take(parts_spec.len() as int) =~= parts_spec);
        }
        let blocks_str = join_sep_exec(&parts, "\n");
        proof {
            reveal_strlit("\n");
            assert(("\n")@ =~= seq!['\n']);
        }
        if self.alias.len() > 0 {
            let mut out = String::new();
            out.append("---\naliases: [");
            let joined = join_sep_exec(&self.alias, ", ");
            out.append(joined.as_str());
            out.append("]\n---\n\n");
            out.append(blocks_str.as_str());
            proof {
                assert(out@ =~= spec_render_page(*self));
            }
            out
        } else {
            proof {
                assert(blocks_str@ =~= spec_render_page(*self));
            }
            blocks_str
        }
    }
}

} // verus!
