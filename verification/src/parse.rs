//! The recursive block parser: separates declared properties from body text,
//! detects the nested child region by indentation, and recursively parses
//! children via the span grouper.

use vstd::prelude::*;
use vstd::string::StrSliceExecFns;
use vstd::string::StringExecFns;
use crate::anchor::{anchor_of, header_of, spec_anchor, spec_header_of};
use crate::block::{Block, Page};
use crate::patterns::{has_marker, spec_has_marker, spec_strip_marker, strip_marker};
use crate::props::{parse_prop, spec_parse_prop, Prop};
use crate::registry::{Data, Id, RefV};
use crate::spans::{blocks, spec_spans};
use crate::text::{
    join_lines, join_lines_exec, lemma_line_break, line_break, list_item_to_normal, push_char,
    spec_lines, spec_list_to_normal, spec_starts_with, spec_trim, spec_trim_start,
    spec_trim_start_up_to, split_lines, starts_with, trim, trim_start, trim_start_up_to,
};

verus! {

/// A line that opens a nested child region: its first non-whitespace
/// character is the list dash.
pub open spec fn is_child_start(l: Seq<char>) -> bool {
    spec_trim_start(l).len() > 0 && spec_trim_start(l)[0] == '-'
}

pub fn is_child_start_exec(l: &str) -> (b: bool)
    ensures
        b == is_child_start(l@),
{
    let t = trim_start(l);
    t.unicode_len() > 0 && t.get_char(0) == '-'
}

/// Index of the first child-start line of `ls`, or `ls.len()`.
pub open spec fn first_child_line(ls: Seq<Seq<char>>) -> int
    decreases ls.len(),
{
    if ls.len() == 0 {
        0
    } else if is_child_start(ls[0]) {
        0
    } else {
        1 + first_child_line(ls.drop_first())
    }
}

pub proof fn lemma_first_child_line(ls: Seq<Seq<char>>)
    ensures
        0 <= first_child_line(ls) <= ls.len(),
        forall|j: int| 0 <= j < first_child_line(ls) ==> !is_child_start(ls[j]),
        first_child_line(ls) < ls.len() ==> is_child_start(ls[first_child_line(ls)]),
    decreases ls.len(),
{
    if ls.len() == 0 || is_child_start(ls[0]) {
    } else {
        lemma_first_child_line(ls.drop_first());
        assert forall|j: int| 0 <= j < first_child_line(ls) implies !is_child_start(ls[j]) by {
            if j > 0 {
                assert(ls.drop_first()[j - 1] == ls[j]);
            }
        }
        if first_child_line(ls) < ls.len() {
            assert(ls.drop_first()[first_child_line(ls) - 1] == ls[first_child_line(ls)]);
        }
    }
}

pub proof fn lemma_first_child_line_is(ls: Seq<Seq<char>>, k: int)
    requires
        0 <= k <= ls.len(),
        forall|j: int| 0 <= j < k ==> !is_child_start(ls[j]),
        k < ls.len() ==> is_child_start(ls[k]),
    ensures
        first_child_line(ls) == k,
    decreases ls.len(),
{
    if ls.len() == 0 {
    } else if k == 0 {
    } else {
        assert(!is_child_start(ls[0]));
        assert forall|j: int| 0 <= j < k - 1 implies !is_child_start(ls.drop_first()[j]) by {
            assert(ls.drop_first()[j] == ls[j + 1]);
        }
        if k - 1 < ls.drop_first().len() {
            assert(ls.drop_first()[k - 1] == ls[k]);
        }
        lemma_first_child_line_is(ls.drop_first(), k - 1);
    }
}

/// Where a span's own lines end and its child region begins: the first
/// child-start line after the span's first line, or the end of the span.
pub open spec fn boundary(ls: Seq<Seq<char>>) -> int {
    if ls.len() == 0 {
        0
    } else {
        1 + first_child_line(ls.drop_first())
    }
}

/// The span's own raw text: its lines up to the child boundary, rejoined.
pub open spec fn raw_body(span: Seq<char>) -> Seq<char> {
    let ls = spec_lines(span);
    join_lines(ls.take(boundary(ls)))
}

/// Whether the span declares itself a list item.
pub open spec fn spec_is_list0(span: Seq<char>) -> bool {
    spec_starts_with(raw_body(span), ("- ")@)
}

/// The raw body with the list marker removed.
pub open spec fn stripped_body(span: Seq<char>) -> Seq<char> {
    if spec_is_list0(span) {
        raw_body(span).skip(2)
    } else {
        raw_body(span)
    }
}

/// A body line survives property extraction iff it declares no property.
pub open spec fn keep_line(l: Seq<char>) -> bool {
    spec_parse_prop(l) is None
}

pub open spec fn kept_lines(ls: Seq<Seq<char>>) -> Seq<Seq<char>>
    decreases ls.len(),
{
    if ls.len() == 0 {
        Seq::empty()
    } else if keep_line(ls.last()) {
        kept_lines(ls.drop_last()).push(ls.last())
    } else {
        kept_lines(ls.drop_last())
    }
}

/// The identifier declared by the last `id::` line, if any.
pub open spec fn last_id_value(ls: Seq<Seq<char>>) -> Option<Seq<char>>
    decreases ls.len(),
{
    if ls.len() == 0 {
        Option::None
    } else {
        match spec_parse_prop(ls.last()) {
            Option::Some((p, v)) => if p is Id {
                Option::Some(v)
            } else {
                last_id_value(ls.drop_last())
            },
            Option::None => last_id_value(ls.drop_last()),
        }
    }
}

/// The body after property extraction.
pub open spec fn body_filtered(span: Seq<char>) -> Seq<char> {
    join_lines(kept_lines(spec_lines(stripped_body(span))))
}

/// The body with the list marker restored and the continuation indent
/// normalized.
pub open spec fn body_marked(span: Seq<char>) -> Seq<char> {
    if spec_is_list0(span) {
        ("- ")@ + spec_trim_start_up_to(2, body_filtered(span))
    } else {
        body_filtered(span)
    }
}

/// A list item opening with bold or heading content is demoted to a bare
/// paragraph block.
pub open spec fn demote_cond(span: Seq<char>) -> bool {
    spec_starts_with(body_marked(span), ("- **")@) || spec_starts_with(
        body_marked(span),
        ("- #")@,
    )
}

pub open spec fn body_demoted(span: Seq<char>) -> Seq<char> {
    if demote_cond(span) {
        spec_list_to_normal(body_marked(span))
    } else {
        body_marked(span)
    }
}

/// The list-item mode the parsed block ends up with.
pub open spec fn spec_block_list(span: Seq<char>) -> bool {
    spec_is_list0(span) && !demote_cond(span)
}

pub open spec fn spec_block_border(span: Seq<char>) -> bool {
    spec_has_marker(body_demoted(span))
}

/// The parsed block's final text.
pub open spec fn spec_block_text(span: Seq<char>) -> Seq<char> {
    if spec_has_marker(body_demoted(span)) {
        spec_strip_marker(body_demoted(span))
    } else {
        body_demoted(span)
    }
}

/// The parsed block's heading, read off the final text's first line.
pub open spec fn spec_block_header(span: Seq<char>) -> Option<Seq<char>> {
    let t = spec_block_text(span);
    if spec_lines(t).len() > 0 {
        spec_header_of(spec_lines(t)[0])
    } else {
        Option::None
    }
}

/// The source identifier the span declares, if any.
pub open spec fn spec_block_id(span: Seq<char>) -> Option<Seq<char>> {
    last_id_value(spec_lines(stripped_body(span)))
}

/// Number of leading space or tab characters.
pub open spec fn indent_width(s: Seq<char>) -> int
    decreases s.len(),
{
    if s.len() == 0 || !(s[0] == ' ' || s[0] == '\t') {
        0
    } else {
        1 + indent_width(s.drop_first())
    }
}

pub proof fn lemma_indent_width_is(s: Seq<char>, k: int)
    requires
        0 <= k <= s.len(),
        forall|j: int| 0 <= j < k ==> (s[j] == ' ' || s[j] == '\t'),
        k < s.len() ==> !(s[k] == ' ' || s[k] == '\t'),
    ensures
        indent_width(s) == k,
    decreases s.len(),
{
    if s.len() == 0 {
    } else if k == 0 {
    } else {
        assert(s[0] == ' ' || s[0] == '\t');
        assert forall|j: int| 0 <= j < k - 1 implies (s.drop_first()[j] == ' '
            || s.drop_first()[j] == '\t') by {
            assert(s.drop_first()[j] == s[j + 1]);
        }
        if k - 1 < s.drop_first().len() {
            assert(s.drop_first()[k - 1] == s[k]);
        }
        lemma_indent_width_is(s.drop_first(), k - 1);
    }
}

/// The child region: the lines from the boundary on, each stripped of the
/// first child line's indentation width (capped per line).
pub open spec fn spec_child_region(span: Seq<char>) -> Seq<Seq<char>> {
    let ls = spec_lines(span);
    let b = boundary(ls);
    if b < ls.len() {
        let w = indent_width(ls[b]);
        ls.skip(b).map_values(|l: Seq<char>| spec_trim_start_up_to(w, l))
    } else {
        Seq::empty()
    }
}

/// Spans that survive the blank filter before recursion.
pub open spec fn kept_spans(ss: Seq<Seq<char>>) -> Seq<Seq<char>>
    decreases ss.len(),
{
    if ss.len() == 0 {
        Seq::empty()
    } else if spec_trim(ss.last()).len() > 0 {
        kept_spans(ss.drop_last()).push(ss.last())
    } else {
        kept_spans(ss.drop_last())
    }
}

/// The raw spans the span's children are parsed from, in order.
pub open spec fn spec_child_spans(span: Seq<char>) -> Seq<Seq<char>> {
    kept_spans(spec_spans(spec_child_region(span), '-'))
}

// ------------------------------------------------------------------
// Termination: every child span is strictly shorter than its parent span.
// ------------------------------------------------------------------

/// Splitting a line sequence splits its newline-join around one separator.
pub proof fn lemma_join_split(ls: Seq<Seq<char>>, e: int)
    requires
        1 <= e < ls.len(),
    ensures
        join_lines(ls) == join_lines(ls.take(e)) + seq!['\n'] + join_lines(ls.skip(e)),
    decreases e,
{
    if e == 1 {
        assert(ls.take(1) =~= seq![ls[0]]);
        assert(join_lines(seq![ls[0]]) == ls[0]);
        assert(ls.skip(1) =~= ls.drop_first());
        assert(join_lines(ls) == ls[0] + seq!['\n'] + join_lines(ls.drop_first()));
    } else {
        let df = ls.drop_first();
        lemma_join_split(df, e - 1);
        assert(df.take(e - 1) =~= ls.take(e).drop_first());
        assert(df.skip(e - 1) =~= ls.skip(e));
        assert(join_lines(ls) == ls[0] + seq!['\n'] + join_lines(df));
        assert(ls.take(e)[0] == ls[0]);
        assert(join_lines(ls.take(e)) == ls.take(e)[0] + seq!['\n'] + join_lines(
            ls.take(e).drop_first(),
        ));
        assert(ls[0] + seq!['\n'] + (join_lines(ls.take(e).drop_first()) + seq!['\n'] + join_lines(
            ls.skip(e),
        )) =~= (ls[0] + seq!['\n'] + join_lines(ls.take(e).drop_first())) + seq!['\n'] + join_lines(
            ls.skip(e),
        ));
    }
}

/// Splitting into lines and rejoining never lengthens a text.
pub proof fn lemma_join_of_lines_le(s: Seq<char>)
    ensures
        join_lines(spec_lines(s)).len() <= s.len(),
    decreases s.len(),
{
    if s.len() == 0 {
    } else {
        lemma_line_break(s);
        let lb = line_break(s);
        if lb == s.len() {
            assert(spec_lines(s) == seq![s]);
        } else {
            let rest = s.skip(lb + 1);
            lemma_join_of_lines_le(rest);
            let sub = spec_lines(rest);
            assert(spec_lines(s) == seq![s.take(lb)] + sub);
            if sub.len() == 0 {
                assert(seq![s.take(lb)] + sub =~= seq![s.take(lb)]);
                assert(join_lines(seq![s.take(lb)]) == s.take(lb));
            } else {
                let whole = seq![s.take(lb)] + sub;
                assert(whole.len() >= 2);
                assert(whole[0] == s.take(lb));
                assert(whole.drop_first() =~= sub);
                assert(join_lines(whole) == s.take(lb) + seq!['\n'] + join_lines(sub));
            }
        }
    }
}

/// Joining pointwise-shorter lines gives a text no longer.
pub proof fn lemma_join_pointwise_le(xs: Seq<Seq<char>>, ys: Seq<Seq<char>>)
    requires
        xs.len() == ys.len(),
        forall|i: int| 0 <= i < xs.len() ==> xs[i].len() <= ys[i].len(),
    ensures
        join_lines(xs).len() <= join_lines(ys).len(),
    decreases xs.len(),
{
    if xs.len() <= 1 {
    } else {
        assert forall|i: int| 0 <= i < xs.drop_first().len() implies xs.drop_first()[i].len()
            <= ys.drop_first()[i].len() by {
            assert(xs.drop_first()[i] == xs[i + 1]);
            assert(ys.drop_first()[i] == ys[i + 1]);
        }
        lemma_join_pointwise_le(xs.drop_first(), ys.drop_first());
    }
}

/// Every span the grouper produces is at most as long as the join of all
/// the grouped lines.
pub proof fn lemma_spans_elem_le(ls: Seq<Seq<char>>, d: char)
    ensures
        forall|i: int|
            0 <= i < spec_spans(ls, d).len() ==> #[trigger] spec_spans(ls, d)[i].len()
                <= join_lines(ls).len(),
    decreases ls.len(),
{
    if ls.len() == 0 {
    } else {
        let e = crate::spans::span_end(ls, d);
        crate::spans::lemma_first_delim(ls.drop_first(), d);
        if 1 <= e < ls.len() {
            lemma_join_split(ls, e);
            lemma_spans_elem_le(ls.skip(e), d);
            assert forall|i: int| 0 <= i < spec_spans(ls, d).len() implies #[trigger] spec_spans(
                ls,
                d,
            )[i].len() <= join_lines(ls).len() by {
                if i == 0 {
                    assert(spec_spans(ls, d)[0] == join_lines(ls.take(e)));
                } else {
                    assert(spec_spans(ls, d)[i] == spec_spans(ls.skip(e), d)[i - 1]);
                }
            }
        } else {
            assert(spec_spans(ls, d) == seq![join_lines(ls)]);
        }
    }
}

pub proof fn lemma_trim_up_to_le(n: int, s: Seq<char>)
    ensures
        spec_trim_start_up_to(n, s).len() <= s.len(),
{
    crate::text::lemma_ws_prefix_len(s);
}

/// Every span of the child region is strictly shorter than the span it was
/// carved from.
pub proof fn lemma_child_span_lt(span: Seq<char>)
    ensures
        forall|i: int|
            0 <= i < spec_spans(spec_child_region(span), '-').len() ==> #[trigger] spec_spans(
                spec_child_region(span),
                '-',
            )[i].len() < span.len(),
{
    let ls = spec_lines(span);
    let b = boundary(ls);
    if b < ls.len() {
        let w = indent_width(ls[b]);
        let region0 = ls.skip(b);
        let region = region0.map_values(|l: Seq<char>| spec_trim_start_up_to(w, l));
        lemma_spans_elem_le(region, '-');
        assert forall|i: int| 0 <= i < region.len() implies region[i].len() <= region0[i].len() by {
            lemma_trim_up_to_le(w, region0[i]);
        }
        lemma_join_pointwise_le(region, region0);
        lemma_first_child_line(ls.drop_first());
        assert(b >= 1);
        lemma_join_split(ls, b);
        lemma_join_of_lines_le(span);
        assert(join_lines(region0).len() < join_lines(ls).len());
        assert(join_lines(ls).len() <= span.len());
    } else {
        assert(spec_child_region(span) =~= Seq::<Seq<char>>::empty());
    }
}

/// The first line of a non-empty text.
pub proof fn lemma_first_line(s: Seq<char>)
    requires
        s.len() > 0,
    ensures
        spec_lines(s).len() > 0,
        spec_lines(s)[0] == s.take(line_break(s)),
    decreases s.len(),
{
    lemma_line_break(s);
    if line_break(s) == s.len() {
        assert(s.take(s.len() as int) =~= s);
    }
}

/// Number of leading space or tab characters of `s`.
pub fn indent_prefix_len(s: &str) -> (w: usize)
    ensures
        w == indent_width(s@),
{
    let n = s.unicode_len();
    let mut w: usize = 0;
    while w < n && is_indent_char(s.get_char(w))
        invariant
            0 <= w <= n,
            n == s@.len(),
            forall|j: int| 0 <= j < w ==> (s@[j] == ' ' || s@[j] == '\t'),
        decreases n - w,
    {
        w += 1;
    }
    proof {
        lemma_indent_width_is(s@, w as int);
    }
    w
}

fn is_indent_char(c: char) -> (b: bool)
    ensures
        b == (c == ' ' || c == '\t'),
{
    c == ' ' || c == '\t'
}


/// Every field of a parsed node is the specified function of its raw span.
pub open spec fn parsed_node_ok(b: Block, span: Seq<char>) -> bool {
    b.text@ == spec_block_text(span) && b.is_list_item == spec_block_list(span)
        && b.self_border == spec_block_border(span) && (match b.header {
        Option::Some(h) => spec_block_header(span) == Option::Some(h@),
        Option::None => spec_block_header(span) is None,
    }) && (match b.id {
        Option::Some(id) => spec_block_id(span) == Option::Some(id.logseq_id@) && id.obsdn_id@
            == spec_anchor(spec_block_text(span), spec_block_header(span)),
        Option::None => spec_block_id(span) is None,
    })
}

/// The complete correspondence between a parsed block tree and the raw
/// span it came from: every field of every node is the specified function
/// of its span, and the children line up with the span's child spans.
pub open spec fn parsed_from(b: Block, span: Seq<char>) -> bool
    decreases b, 1int,
    via parsed_from_decreases
{
    parsed_node_ok(b, span) && children_parsed(b.children@, spec_child_spans(span))
}

/// Each block of `cs` was parsed from the corresponding span of `spans`.
pub open spec fn children_parsed(cs: Seq<Block>, spans: Seq<Seq<char>>) -> bool
    decreases cs, 0int,
    via children_parsed_decreases
{
    cs.len() == spans.len() && (cs.len() == 0 || (parsed_from(cs[0], spans[0])
        && children_parsed(cs.drop_first(), spans.drop_first())))
}

#[via_fn]
proof fn parsed_from_decreases(b: Block, span: Seq<char>) {
    broadcast use vstd::std_specs::vec::group_vec_axioms;
    broadcast use vstd::seq::group_seq_axioms;

    assert(decreases_to!(b => b.children));
    assert(decreases_to!(b.children => b.children@));
    assert(decreases_to!(b => b.children@));
}

#[via_fn]
proof fn children_parsed_decreases(cs: Seq<Block>, spans: Seq<Seq<char>>) {
    broadcast use vstd::seq::group_seq_axioms;

    if cs.len() > 0 {
        assert(decreases_to!(cs => cs[0]));
        assert(decreases_to!(cs => cs.drop_first()));
    }
}

/// Assembles `children_parsed` from an elementwise correspondence.
pub proof fn lemma_children_parsed_intro(cs: Seq<Block>, spans: Seq<Seq<char>>)
    requires
        cs.len() == spans.len(),
        forall|i: int| 0 <= i < cs.len() ==> #[trigger] parsed_from(cs[i], spans[i]),
    ensures
        children_parsed(cs, spans),
    decreases cs.len(),
{
    if cs.len() > 0 {
        assert(parsed_from(cs[0], spans[0]));
        assert forall|i: int| 0 <= i < cs.drop_first().len() implies #[trigger] parsed_from(
            cs.drop_first()[i],
            spans.drop_first()[i],
        ) by {
            assert(cs.drop_first()[i] == cs[i + 1]);
            assert(spans.drop_first()[i] == spans[i + 1]);
        }
        lemma_children_parsed_intro(cs.drop_first(), spans.drop_first());
    }
}

/// Reads the elementwise correspondence back off `children_parsed`.
pub proof fn lemma_children_parsed_elim(cs: Seq<Block>, spans: Seq<Seq<char>>)
    requires
        children_parsed(cs, spans),
    ensures
        cs.len() == spans.len(),
        forall|i: int| 0 <= i < cs.len() ==> #[trigger] parsed_from(cs[i], spans[i]),
    decreases cs.len(),
{
    if cs.len() > 0 {
        lemma_children_parsed_elim(cs.drop_first(), spans.drop_first());
        assert forall|i: int| 0 <= i < cs.len() implies #[trigger] parsed_from(
            cs[i],
            spans[i],
        ) by {
            if i > 0 {
                assert(cs.drop_first()[i - 1] == cs[i]);
                assert(spans.drop_first()[i - 1] == spans[i]);
            }
        }
    }
}

impl Block {
    /// Parses one raw span into a block: separates property lines from the
    /// body, normalizes the list marker, detects the self-border flag and
    /// heading, registers a declared identifier under the current page
    /// title, and recursively parses the child region.
    #[verifier::rlimit(100)]
    pub fn parse<D: Data>(span: &str, data: &mut D) -> (r: Block)
        ensures
            parsed_from(r, span@),
            r.text@ == spec_block_text(span@),
            r.is_list_item == spec_block_list(span@),
            r.self_border == spec_block_border(span@),
            (match r.header {
                Option::Some(h) => spec_block_header(span@) == Option::Some(h@),
                Option::None => spec_block_header(span@) is None,
            }),
            (match r.id {
                Option::Some(id) => spec_block_id(span@) == Option::Some(id.logseq_id@)
                    && id.obsdn_id@ == spec_anchor(
                    spec_block_text(span@),
                    spec_block_header(span@),
                ),
                Option::None => spec_block_id(span@) is None,
            }),
            r.children.len() == spec_child_spans(span@).len(),
            final(data).title_view() == old(data).title_view(),
            final(data).assets_view() == old(data).assets_view(),
            forall|p: Seq<char>| final(data).copy_dest(p) == old(data).copy_dest(p),
            forall|k: Seq<char>|
                old(data).refs_view().contains_key(k) ==> final(data).refs_view().contains_key(k),
            forall|k: Seq<char>| #[trigger]
                final(data).refs_view().contains_key(k) ==> (old(data).refs_view().contains_key(k)
                    && final(data).refs_view()[k] == old(data).refs_view()[k]) || (old(data).title_view().len() > 0 && final(data).refs_view()[k].file == old(data).title_view()),
            spec_block_id(span@) is Some && old(data).title_view().len() > 0 ==> final(data).refs_view().contains_key((spec_block_id(span@))->Some_0),
        decreases span@.len(),
    {
        let ghost d0 = *data;
        let ls = split_lines(span);
        let ghost lsv = spec_lines(span@);
        let n = ls.len();
        let mut b: usize = if n == 0 {
            0
        } else {
            1
        };
        while b < n && !is_child_start_exec(ls[b].as_str())
            invariant
                n == ls.len(),
                ls.deep_view() == lsv,
                n == 0 ==> b == 0,
                n > 0 ==> 1 <= b <= n,
                forall|j: int| 1 <= j < b ==> !is_child_start(lsv[j]),
            decreases n - b,
        {
            b += 1;
        }
        proof {
            if n > 0 {
                let df = lsv.drop_first();
                assert forall|j: int| 0 <= j < b - 1 implies !is_child_start(df[j]) by {
                    assert(df[j] == lsv[j + 1]);
                }
                if b < n {
                    assert(df[b - 1] == lsv[b as int]);
                }
                lemma_first_child_line_is(df, b - 1);
            }
            assert(boundary(lsv) == b as int);
        }
        let mut head: Vec<String> = Vec::new();
        let mut i: usize = 0;
        proof {
            assert(head.deep_view() =~= lsv.take(0));
        }
        while i < b
            invariant
                0 <= i <= b <= n,
                n == ls.len(),
                ls.deep_view() == lsv,
                head.deep_view() =~= lsv.take(i as int),
            decreases b - i,
        {
            let line = ls[i].clone();
            proof {
                assert(head.deep_view().push(line@) =~= lsv.take(i + 1));
            }
            head.push(line);
            i += 1;
        }
        let raw = join_lines_exec(&head);
        proof {
            assert(raw@ == raw_body(span@));
        }
        proof {
            reveal_strlit("- ");
        }
        let isl0 = starts_with(raw.as_str(), "- ");
        let rn = raw.as_str().unicode_len();
        let stripped: String;
        if isl0 {
            stripped = raw.as_str().substring_char(2, rn).to_owned();
            proof {
                assert(raw@.subrange(2, rn as int) =~= raw@.skip(2));
            }
        } else {
            stripped = raw;
        }
        proof {
            assert(stripped@ == stripped_body(span@));
        }
        let sls = split_lines(stripped.as_str());
        let ghost slsv = spec_lines(stripped@);
        let mut kept: Vec<String> = Vec::new();
        let mut idv: Option<String> = None;
        let mut i2: usize = 0;
        proof {
            assert(kept.deep_view() =~= kept_lines(slsv.take(0)));
            assert(slsv.take(0) =~= Seq::<Seq<char>>::empty());
        }
        while i2 < sls.len()
            invariant
                0 <= i2 <= sls.len(),
                sls.deep_view() == slsv,
                kept.deep_view() =~= kept_lines(slsv.take(i2 as int)),
                (match idv {
                    Option::Some(v) => last_id_value(slsv.take(i2 as int)) == Option::Some(v@),
                    Option::None => last_id_value(slsv.take(i2 as int)) is None,
                }),
            decreases sls.len() - i2,
        {
            proof {
                assert(slsv.take(i2 + 1).drop_last() =~= slsv.take(i2 as int));
                assert(slsv.take(i2 + 1).last() == slsv[i2 as int]);
            }
            match parse_prop(sls[i2].as_str()) {
                Option::None => {
                    let line = sls[i2].clone();
                    proof {
                        assert(kept.deep_view().push(line@) =~= kept_lines(slsv.take(i2 + 1)));
                    }
                    kept.push(line);
                },
                Option::Some((p, v)) => {
                    match p {
                        Prop::Id => {
                            idv = Some(v);
                        },
                        _ => {},
                    }
                },
            }
            i2 += 1;
        }
        proof {
            assert(slsv.take(sls.len() as int) =~= slsv);
        }
        let b3 = join_lines_exec(&kept);
        let body4: String;
        if isl0 {
            let mut t = String::new();
            push_char(&mut t, '-');
            push_char(&mut t, ' ');
            t.append(trim_start_up_to(2, b3.as_str()));
            proof {
                assert(t@ =~= ("- ")@ + spec_trim_start_up_to(2, body_filtered(span@)));
            }
            body4 = t;
        } else {
            body4 = b3;
        }
        proof {
            assert(body4@ == body_marked(span@));
        }
        proof {
            reveal_strlit("- **");
            reveal_strlit("- #");
        }
        let dem = starts_with(body4.as_str(), "- **") || starts_with(body4.as_str(), "- #");
        let isl: bool;
        let body5: String;
        if dem {
            proof {
                if spec_starts_with(body4@, ("- **")@) {
                    assert(body4@.take(4)[0] == body4@[0]);
                    assert(body4@.take(4)[1] == body4@[1]);
                } else {
                    assert(body4@.take(3)[0] == body4@[0]);
                    assert(body4@.take(3)[1] == body4@[1]);
                }
            }
            body5 = list_item_to_normal(body4.as_str());
            isl = false;
        } else {
            body5 = body4;
            isl = isl0;
        }
        proof {
            assert(body5@ == body_demoted(span@));
            assert(isl == spec_block_list(span@));
        }
        let brd: bool;
        let body6: String;
        if has_marker(body5.as_str()) {
            brd = true;
            body6 = strip_marker(body5.as_str());
        } else {
            brd = false;
            body6 = body5;
        }
        proof {
            assert(body6@ == spec_block_text(span@));
            assert(brd == spec_block_border(span@));
        }
        let hn = body6.as_str().unicode_len();
        let hdr: Option<String>;
        if hn > 0 {
            let lb = crate::text::find_char_from(body6.as_str(), '\n', 0);
            proof {
                crate::text::lemma_line_break_is(body6@, lb as int);
                lemma_first_line(body6@);
            }
            hdr = header_of(body6.as_str().substring_char(0, lb));
            proof {
                assert(body6@.subrange(0, lb as int) =~= spec_lines(body6@)[0]);
            }
        } else {
            hdr = None;
            proof {
                assert(spec_lines(body6@).len() == 0);
            }
        }
        let idf: Option<Id>;
        match idv {
            Option::Some(v) => {
                let anchor = match &hdr {
                    Option::Some(h) => anchor_of(body6.as_str(), Some(h)),
                    Option::None => anchor_of(body6.as_str(), None),
                };
                let idd = Id { logseq_id: v, obsdn_id: anchor };
                data.register_id(&idd);
                idf = Option::Some(idd);
            },
            Option::None => {
                idf = Option::None;
            },
        }
        let mut children: Vec<Block> = Vec::new();
        if b < n {
            let w = indent_prefix_len(ls[b].as_str());
            let mut region: Vec<String> = Vec::new();
            let mut j = b;
            let ghost regionv = lsv.skip(b as int).map_values(
                |l: Seq<char>| spec_trim_start_up_to(w as int, l),
            );
            proof {
                assert(region.deep_view() =~= regionv.take(0));
            }
            while j < n
                invariant
                    b <= j <= n,
                    n == ls.len(),
                    ls.deep_view() == lsv,
                    b < n,
                    regionv == lsv.skip(b as int).map_values(
                        |l: Seq<char>| spec_trim_start_up_to(w as int, l),
                    ),
                    region.deep_view() =~= regionv.take(j - b),
                decreases n - j,
            {
                let t = trim_start_up_to(w, ls[j].as_str()).to_owned();
                proof {
                    assert(regionv[j - b] == spec_trim_start_up_to(w as int, lsv[j as int]));
                    assert(region.deep_view().push(t@) =~= regionv.take(j - b + 1));
                }
                region.push(t);
                j += 1;
            }
            proof {
                assert(regionv.take(regionv.len() as int) =~= regionv);
                assert(regionv == spec_child_region(span@));
            }
            let spans_v = blocks(&region, '-');
            let ghost spv = spans_v.deep_view();
            proof {
                assert(spv == spec_spans(spec_child_region(span@), '-'));
            }
            let mut k: usize = 0;
            proof {
                assert(kept_spans(spv.take(0)).len() == 0) by {
                    assert(spv.take(0) =~= Seq::<Seq<char>>::empty());
                }
            }
            while k < spans_v.len()
                invariant
                    0 <= k <= spans_v.len(),
                    spans_v.deep_view() == spv,
                    spv == spec_spans(spec_child_region(span@), '-'),
                    children.len() == kept_spans(spv.take(k as int)).len(),
                    forall|j: int|
                        0 <= j < children.len() ==> #[trigger] parsed_from(
                            children@[j],
                            kept_spans(spv.take(k as int))[j],
                        ),
                    data.title_view() == d0.title_view(),
                    data.assets_view() == d0.assets_view(),
                    forall|p: Seq<char>| data.copy_dest(p) == d0.copy_dest(p),
                    forall|k2: Seq<char>|
                        d0.refs_view().contains_key(k2) ==> data.refs_view().contains_key(k2),
                    forall|k2: Seq<char>| #[trigger]
                        data.refs_view().contains_key(k2) ==> (d0.refs_view().contains_key(k2)
                            && data.refs_view()[k2] == d0.refs_view()[k2]) || (
                        d0.title_view().len() > 0 && data.refs_view()[k2].file
                            == d0.title_view()),
                    spec_block_id(span@) is Some && d0.title_view().len() > 0
                        ==> data.refs_view().contains_key((spec_block_id(span@))->Some_0),
                decreases spans_v.len() - k,
            {
                let ghost dpre = *data;
                proof {
                    assert(spv.take(k + 1).drop_last() =~= spv.take(k as int));
                    assert(spv.take(k + 1).last() == spv[k as int]);
                }
                let tsp = trim(spans_v[k].as_str());
                if tsp.unicode_len() > 0 {
                    proof {
                        lemma_child_span_lt(span@);
                        assert(spv[k as int].len() < span@.len());
                    }
                    let c = Self::parse(spans_v[k].as_str(), data);
                    let ghost kept_pre = kept_spans(spv.take(k as int));
                    children.push(c);
                    proof {
                        assert(kept_spans(spv.take(k + 1)) =~= kept_pre.push(spv[k as int]));
                        assert forall|j: int| 0 <= j < children.len() implies #[trigger] parsed_from(
                            children@[j],
                            kept_spans(spv.take(k + 1))[j],
                        ) by {
                            if j < children.len() - 1 {
                                assert(parsed_from(children@[j], kept_pre[j]));
                            } else {
                                assert(children@[j] == c);
                                assert(kept_spans(spv.take(k + 1))[j] == spv[k as int]);
                            }
                        }
                    }
                }
                k += 1;
            }
            proof {
                assert(spv.take(spans_v.len() as int) =~= spv);
            }
        } else {
            proof {
                assert(spec_child_region(span@) =~= Seq::<Seq<char>>::empty());
                assert(kept_spans(spec_spans(Seq::<Seq<char>>::empty(), '-')).len() == 0);
            }
        }
        let r = Block { text: body6, id: idf, header: hdr, children, is_list_item: isl, self_border: brd };
        proof {
            assert(r.text@ == spec_block_text(span@));
            assert(r.is_list_item == spec_block_list(span@));
            assert(r.self_border == spec_block_border(span@));
            assert(match r.header {
                Option::Some(h) => spec_block_header(span@) == Option::Some(h@),
                Option::None => spec_block_header(span@) is None,
            });
            assert(match r.id {
                Option::Some(id) => spec_block_id(span@) == Option::Some(id.logseq_id@)
                    && id.obsdn_id@ == spec_anchor(
                    spec_block_text(span@),
                    spec_block_header(span@),
                ),
                Option::None => spec_block_id(span@) is None,
            });
            assert(r.children.len() == spec_child_spans(span@).len());
            assert forall|i: int| 0 <= i < r.children@.len() implies #[trigger] parsed_from(
                r.children@[i],
                spec_child_spans(span@)[i],
            ) by {
                assert(r.children@[i] == children@[i]);
            }
            lemma_children_parsed_intro(r.children@, spec_child_spans(span@));
            assert(parsed_from(r, span@));
        }
        r
    }
}

/// The page-head lines: every non-empty line before the first child-start
/// line. Page properties (`title::`, `alias::`) are read off these.
pub open spec fn head_lines(ls: Seq<Seq<char>>) -> Seq<Seq<char>>
    decreases ls.len(),
{
    if ls.len() == 0 {
        Seq::empty()
    } else if is_child_start(ls[0]) {
        Seq::empty()
    } else if ls[0].len() == 0 {
        head_lines(ls.drop_first())
    } else {
        seq![ls[0]] + head_lines(ls.drop_first())
    }
}

/// The value of the last `title::` line, or empty if there is none.
pub open spec fn last_title(ls: Seq<Seq<char>>) -> Seq<char>
    decreases ls.len(),
{
    if ls.len() == 0 {
        Seq::empty()
    } else {
        match spec_parse_prop(ls.last()) {
            Option::Some((p, v)) => if p is Title {
                v
            } else {
                last_title(ls.drop_last())
            },
            Option::None => last_title(ls.drop_last()),
        }
    }
}

/// The values of all `alias::` lines, in order.
pub open spec fn aliases_of(ls: Seq<Seq<char>>) -> Seq<Seq<char>>
    decreases ls.len(),
{
    if ls.len() == 0 {
        Seq::empty()
    } else {
        match spec_parse_prop(ls.last()) {
            Option::Some((p, v)) => if p is Alias {
                aliases_of(ls.drop_last()).push(v)
            } else {
                aliases_of(ls.drop_last())
            },
            Option::None => aliases_of(ls.drop_last()),
        }
    }
}

pub open spec fn spec_page_title(text: Seq<char>) -> Seq<char> {
    last_title(head_lines(spec_lines(text)))
}

pub open spec fn spec_page_aliases(text: Seq<char>) -> Seq<Seq<char>> {
    aliases_of(head_lines(spec_lines(text)))
}

/// The raw spans of a page's top-level blocks: everything from the first
/// line that begins with the list dash in column zero, grouped on that
/// dash.
pub open spec fn spec_page_spans(text: Seq<char>) -> Seq<Seq<char>> {
    let ls = spec_lines(text);
    spec_spans(ls.skip(crate::spans::first_delim(ls, '-')), '-')
}

impl Page {
    /// Parses a whole source document: reads the page title and aliases off
    /// the head lines, establishes the title as the current output context,
    /// and parses every top-level span into a block.
    pub fn parse<D: Data>(text: &str, data: &mut D) -> (r: Page)
        ensures
            r.title@ == spec_page_title(text@),
            r.alias.deep_view() == spec_page_aliases(text@),
            r.blocks.len() == spec_page_spans(text@).len(),
            children_parsed(r.blocks@, spec_page_spans(text@)),
            final(data).title_view() == spec_trim(spec_page_title(text@)),
            final(data).assets_view() == old(data).assets_view(),
            forall|p: Seq<char>| final(data).copy_dest(p) == old(data).copy_dest(p),
            forall|k: Seq<char>|
                old(data).refs_view().contains_key(k) ==> final(data).refs_view().contains_key(k),
            forall|k: Seq<char>| #[trigger]
                final(data).refs_view().contains_key(k) ==> (old(data).refs_view().contains_key(k)
                    && final(data).refs_view()[k] == old(data).refs_view()[k]) || (spec_trim(
                    spec_page_title(text@),
                ).len() > 0 && final(data).refs_view()[k].file == spec_trim(
                    spec_page_title(text@),
                )),
    {
        let ls = split_lines(text);
        let ghost lsv = spec_lines(text@);
        let n = ls.len();
        let mut head: Vec<String> = Vec::new();
        let mut i: usize = 0;
        proof {
            assert(head.deep_view() =~= Seq::<Seq<char>>::empty());
            assert(lsv.skip(0) =~= lsv);
            assert(Seq::<Seq<char>>::empty() + head_lines(lsv) =~= head_lines(lsv));
        }
        while i < n && !is_child_start_exec(ls[i].as_str())
            invariant
                0 <= i <= n,
                n == ls.len(),
                ls.deep_view() == lsv,
                head_lines(lsv) == head.deep_view() + head_lines(lsv.skip(i as int)),
            decreases n - i,
        {
            let ghost rest = lsv.skip(i as int);
            proof {
                assert(rest[0] == lsv[i as int]);
                assert(rest.drop_first() =~= lsv.skip(i + 1));
            }
            if ls[i].as_str().unicode_len() > 0 {
                let line = ls[i].clone();
                proof {
                    assert(head.deep_view() + (seq![line@] + head_lines(lsv.skip(i + 1))) =~= (
                    head.deep_view() + seq![line@]) + head_lines(lsv.skip(i + 1)));
                    assert(head.deep_view().push(line@) =~= head.deep_view() + seq![line@]);
                }
                head.push(line);
            }
            i += 1;
        }
        proof {
            let rest = lsv.skip(i as int);
            if i < n {
                assert(rest[0] == lsv[i as int]);
                assert(head_lines(rest) =~= Seq::<Seq<char>>::empty());
            } else {
                assert(rest =~= Seq::<Seq<char>>::empty());
            }
            assert(head.deep_view() + Seq::<Seq<char>>::empty() =~= head.deep_view());
            assert(head.deep_view() == head_lines(lsv));
        }
        let ghost headv = head.deep_view();
        let mut title = String::new();
        let mut alias: Vec<String> = Vec::new();
        let mut h: usize = 0;
        proof {
            assert(headv.take(0) =~= Seq::<Seq<char>>::empty());
            assert(alias.deep_view() =~= Seq::<Seq<char>>::empty());
        }
        while h < head.len()
            invariant
                0 <= h <= head.len(),
                head.deep_view() == headv,
                title@ == last_title(headv.take(h as int)),
                alias.deep_view() =~= aliases_of(headv.take(h as int)),
            decreases head.len() - h,
        {
            proof {
                assert(headv.take(h + 1).drop_last() =~= headv.take(h as int));
                assert(headv.take(h + 1).last() == headv[h as int]);
            }
            match parse_prop(head[h].as_str()) {
                Option::Some((p, v)) => {
                    match p {
                        Prop::Title => {
                            title = v;
                        },
                        Prop::Alias => {
                            proof {
                                assert(alias.deep_view().push(v@) =~= aliases_of(
                                    headv.take(h + 1),
                                ));
                            }
                            alias.push(v);
                        },
                        _ => {},
                    }
                },
                Option::None => {},
            }
            h += 1;
        }
        proof {
            assert(headv.take(head.len() as int) =~= headv);
        }
        data.page_title(title.as_str());
        let ghost d1 = *data;
        let mut st: usize = 0;
        while st < n && !crate::spans::starts_delim_exec(ls[st].as_str(), '-')
            invariant
                0 <= st <= n,
                n == ls.len(),
                ls.deep_view() == lsv,
                forall|j: int| 0 <= j < st ==> !crate::spans::starts_delim(lsv[j], '-'),
            decreases n - st,
        {
            st += 1;
        }
        proof {
            crate::spans::lemma_first_delim_is(lsv, '-', st as int);
        }
        let mut region: Vec<String> = Vec::new();
        let mut j = st;
        proof {
            assert(region.deep_view() =~= lsv.skip(st as int).take(0));
        }
        while j < n
            invariant
                st <= j <= n,
                n == ls.len(),
                ls.deep_view() == lsv,
                region.deep_view() =~= lsv.skip(st as int).take(j - st),
            decreases n - j,
        {
            let line = ls[j].clone();
            proof {
                assert(region.deep_view().push(line@) =~= lsv.skip(st as int).take(j - st + 1));
            }
            region.push(line);
            j += 1;
        }
        proof {
            let reg = lsv.skip(st as int);
            assert(reg.take(reg.len() as int) =~= reg);
        }
        let spans_v = blocks(&region, '-');
        let ghost spv = spans_v.deep_view();
        proof {
            assert(spv == spec_page_spans(text@));
        }
        let mut blks: Vec<Block> = Vec::new();
        let mut k: usize = 0;
        while k < spans_v.len()
            invariant
                0 <= k <= spans_v.len(),
                spans_v.deep_view() == spv,
                spv == spec_page_spans(text@),
                blks.len() == k,
                forall|j: int|
                    0 <= j < blks.len() ==> #[trigger] parsed_from(blks@[j], spv[j]),
                data.title_view() == d1.title_view(),
                data.assets_view() == d1.assets_view(),
                forall|p: Seq<char>| data.copy_dest(p) == d1.copy_dest(p),
                forall|k2: Seq<char>|
                    d1.refs_view().contains_key(k2) ==> data.refs_view().contains_key(k2),
                forall|k2: Seq<char>| #[trigger]
                    data.refs_view().contains_key(k2) ==> (d1.refs_view().contains_key(k2)
                        && data.refs_view()[k2] == d1.refs_view()[k2]) || (d1.title_view().len()
                        > 0 && data.refs_view()[k2].file == d1.title_view()),
            decreases spans_v.len() - k,
        {
            let c = Block::parse(spans_v[k].as_str(), data);
            blks.push(c);
            k += 1;
        }
        proof {
            lemma_children_parsed_intro(blks@, spv);
        }
        Page { title, alias, blocks: blks }
    }
}

} // verus!
