//! The transform pipeline: post-order tree traversal applying ordered
//! pattern rewrites to block text, and list-item mode demotions that depend
//! on parent and preceding-sibling state.

use vstd::prelude::*;
use vstd::string::StrSliceExecFns;
use vstd::string::StringExecFns;
use crate::block::{Block, Page};
use crate::patterns::{
    embed_prefix_at, file_link_prefix_at, image_prefix_at, link_id_prefix_at, only_image,
    only_math, spec_embed_pre, spec_file_link_pre, spec_image_pre, spec_is_uuid,
    spec_link_id_pre, spec_only_image, spec_only_math, spec_standalone_pre, standalone_prefix_at,
};
use crate::registry::{Data, RefV, spec_get_link};
use crate::text::{push_char, spec_starts_with};

verus! {

/// The text after the asset-rewrite pass: every image reference's path
/// replaced by what the collaborator rewrites it to; everything else kept.
pub open spec fn spec_rewrite_assets<D: Data>(s: Seq<char>, d: D) -> Seq<char>
    decreases s.len(),
{
    if s.len() == 0 {
        Seq::empty()
    } else {
        match spec_image_pre(s) {
            Option::Some(m) => if 0 < m.path_start <= m.path_end < m.end <= s.len() {
                s.take(m.path_start) + d.copy_dest(s.subrange(m.path_start, m.path_end))
                    + s.subrange(m.path_end, m.end) + spec_rewrite_assets(s.skip(m.end), d)
            } else {
                seq![s[0]] + spec_rewrite_assets(s.drop_first(), d)
            },
            Option::None => seq![s[0]] + spec_rewrite_assets(s.drop_first(), d),
        }
    }
}

/// The image paths of a text, in the order the asset-rewrite pass hands
/// them to the collaborator.
pub open spec fn spec_image_paths(s: Seq<char>) -> Seq<Seq<char>>
    decreases s.len(),
{
    if s.len() == 0 {
        Seq::empty()
    } else {
        match spec_image_pre(s) {
            Option::Some(m) => if 0 < m.path_start <= m.path_end < m.end <= s.len() {
                seq![s.subrange(m.path_start, m.path_end)] + spec_image_paths(s.skip(m.end))
            } else {
                spec_image_paths(s.drop_first())
            },
            Option::None => spec_image_paths(s.drop_first()),
        }
    }
}

/// The asset rewrite depends on the collaborator only through its path
/// rewriting function.
pub proof fn lemma_rewrite_assets_congruent<D: Data>(s: Seq<char>, d1: D, d2: D)
    requires
        forall|p: Seq<char>| d1.copy_dest(p) == d2.copy_dest(p),
    ensures
        spec_rewrite_assets(s, d1) == spec_rewrite_assets(s, d2),
    decreases s.len(),
{
    if s.len() == 0 {
    } else {
        match spec_image_pre(s) {
            Option::Some(m) => {
                if 0 < m.path_start <= m.path_end < m.end <= s.len() {
                    lemma_rewrite_assets_congruent(s.skip(m.end), d1, d2);
                } else {
                    lemma_rewrite_assets_congruent(s.drop_first(), d1, d2);
                }
            },
            Option::None => {
                lemma_rewrite_assets_congruent(s.drop_first(), d1, d2);
            },
        }
    }
}

/// Rewrites every image reference's path through the collaborator, which
/// schedules one asset copy per reference, in text order.
pub fn rewrite_assets<D: Data>(s: &str, data: &mut D) -> (r: String)
    ensures
        r@ == spec_rewrite_assets(s@, *old(data)),
        final(data).assets_view() == old(data).assets_view() + spec_image_paths(s@),
        final(data).title_view() == old(data).title_view(),
        final(data).refs_view() == old(data).refs_view(),
        forall|p: Seq<char>| final(data).copy_dest(p) == old(data).copy_dest(p),
{
    let ghost d0 = *data;
    let ghost a0 = old(data).assets_view();
    let n = s.unicode_len();
    let mut out = String::new();
    let mut i: usize = 0;
    proof {
        assert(s@.skip(0) =~= s@);
        assert(Seq::<char>::empty() + spec_rewrite_assets(s@, d0) =~= spec_rewrite_assets(
            s@,
            d0,
        ));
        assert(a0 + Seq::<Seq<char>>::empty() =~= a0);
        assert(Seq::<Seq<char>>::empty() + spec_image_paths(s@) =~= spec_image_paths(s@));
    }
    while i < n
        invariant
            0 <= i <= n,
            n == s@.len(),
            spec_rewrite_assets(s@, d0) == out@ + spec_rewrite_assets(s@.skip(i as int), d0),
            data.assets_view() == a0 + spec_image_paths(s@).take(
                spec_image_paths(s@).len() - spec_image_paths(s@.skip(i as int)).len(),
            ),
            spec_image_paths(s@.skip(i as int)).len() <= spec_image_paths(s@).len(),
            spec_image_paths(s@) == spec_image_paths(s@).take(
                spec_image_paths(s@).len() - spec_image_paths(s@.skip(i as int)).len(),
            ) + spec_image_paths(s@.skip(i as int)),
            data.title_view() == d0.title_view(),
            data.refs_view() == d0.refs_view(),
            forall|p: Seq<char>| data.copy_dest(p) == d0.copy_dest(p),
        decreases n - i,
    {
        let ghost t = s@.skip(i as int);
        let ghost done = spec_image_paths(s@).take(
            spec_image_paths(s@).len() - spec_image_paths(t).len(),
        );
        let ghost out0 = out@;
        match image_prefix_at(s, i) {
            Option::Some(m) => {
                let (ps, pe, end) = m;
                out.append(s.substring_char(i, ps));
                let path = s.substring_char(ps, pe);
                let dest = data.copy_asset(path);
                out.append(dest.as_str());
                out.append(s.substring_char(pe, end));
                proof {
                    assert(t.take(ps - i) =~= s@.subrange(i as int, ps as int));
                    assert(t.subrange(ps - i, pe - i) =~= s@.subrange(ps as int, pe as int));
                    assert(t.subrange(pe - i, end - i) =~= s@.subrange(pe as int, end as int));
                    assert(t.skip(end - i) =~= s@.skip(end as int));
                    assert(spec_rewrite_assets(t, d0) == t.take(ps - i) + d0.copy_dest(
                        s@.subrange(ps as int, pe as int),
                    ) + t.subrange(pe - i, end - i) + spec_rewrite_assets(
                        s@.skip(end as int),
                        d0,
                    ));
                    assert(out@ =~= out0 + t.take(ps - i) + d0.copy_dest(
                        s@.subrange(ps as int, pe as int),
                    ) + t.subrange(pe - i, end - i));
                    assert(out0 + (t.take(ps - i) + d0.copy_dest(
                        s@.subrange(ps as int, pe as int),
                    ) + t.subrange(pe - i, end - i) + spec_rewrite_assets(
                        s@.skip(end as int),
                        d0,
                    )) =~= (out0 + t.take(ps - i) + d0.copy_dest(
                        s@.subrange(ps as int, pe as int),
                    ) + t.subrange(pe - i, end - i)) + spec_rewrite_assets(
                        s@.skip(end as int),
                        d0,
                    ));
                    assert(spec_image_paths(t) == seq![s@.subrange(ps as int, pe as int)]
                        + spec_image_paths(s@.skip(end as int)));
                    assert(data.assets_view() =~= a0 + done.push(
                        s@.subrange(ps as int, pe as int),
                    ));
                    assert(done.push(s@.subrange(ps as int, pe as int)) =~= spec_image_paths(
                        s@,
                    ).take(
                        spec_image_paths(s@).len() - spec_image_paths(s@.skip(end as int)).len(),
                    ));
                }
                i = end;
            },
            Option::None => {
                push_char(&mut out, s.get_char(i));
                proof {
                    assert(t[0] == s@[i as int]);
                    assert(t.drop_first() =~= s@.skip(i + 1));
                    assert(out@ =~= out0 + seq![t[0]]);
                    assert(out0 + (seq![t[0]] + spec_rewrite_assets(s@.skip(i + 1), d0)) =~= (out0
                        + seq![t[0]]) + spec_rewrite_assets(s@.skip(i + 1), d0));
                }
                i += 1;
            },
        }
    }
    proof {
        assert(s@.skip(n as int) =~= Seq::<char>::empty());
        assert(out@ + Seq::<char>::empty() =~= out@);
        assert(spec_image_paths(s@).take(spec_image_paths(s@).len() as int) =~= spec_image_paths(
            s@,
        ));
    }
    out
}

/// The text after the file-link pass: every `[title]([[url]])` becomes the
/// aliased wiki link `[[url|title]]`.
pub open spec fn spec_rewrite_file_links(s: Seq<char>) -> Seq<char>
    decreases s.len(),
{
    if s.len() == 0 {
        Seq::empty()
    } else {
        match spec_file_link_pre(s) {
            Option::Some(m) => if 1 <= m.mid_end && m.tail_start == m.mid_end + 4
                && m.tail_start < m.end - 3 && m.end <= s.len() {
                ("[[")@ + s.subrange(m.tail_start, m.end - 3) + seq!['|'] + s.subrange(
                    1,
                    m.mid_end,
                ) + ("]]")@ + spec_rewrite_file_links(s.skip(m.end))
            } else {
                seq![s[0]] + spec_rewrite_file_links(s.drop_first())
            },
            Option::None => seq![s[0]] + spec_rewrite_file_links(s.drop_first()),
        }
    }
}

pub fn rewrite_file_links(s: &str) -> (r: String)
    ensures
        r@ == spec_rewrite_file_links(s@),
{
    let n = s.unicode_len();
    let mut out = String::new();
    let mut i: usize = 0;
    proof {
        assert(s@.skip(0) =~= s@);
        assert(Seq::<char>::empty() + spec_rewrite_file_links(s@) =~= spec_rewrite_file_links(
            s@,
        ));
    }
    while i < n
        invariant
            0 <= i <= n,
            n == s@.len(),
            spec_rewrite_file_links(s@) == out@ + spec_rewrite_file_links(s@.skip(i as int)),
        decreases n - i,
    {
        let ghost t = s@.skip(i as int);
        let ghost out0 = out@;
        match file_link_prefix_at(s, i) {
            Option::Some(m) => {
                let (te, us, ue) = m;
                out.append("[[");
                out.append(s.substring_char(us, ue));
                push_char(&mut out, '|');
                out.append(s.substring_char(i + 1, te));
                out.append("]]");
                proof {
                    assert(t.subrange(us - i, ue - i) =~= s@.subrange(us as int, ue as int));
                    assert(t.subrange(1, te - i) =~= s@.subrange(i + 1, te as int));
                    assert(t.skip(ue + 3 - i) =~= s@.skip(ue + 3));
                    assert(out@ =~= out0 + (("[[")@ + s@.subrange(us as int, ue as int)
                        + seq!['|'] + s@.subrange(i + 1, te as int) + ("]]")@));
                    assert(out0 + (("[[")@ + s@.subrange(us as int, ue as int) + seq!['|']
                        + s@.subrange(i + 1, te as int) + ("]]")@ + spec_rewrite_file_links(
                        s@.skip(ue + 3),
                    )) =~= (out0 + (("[[")@ + s@.subrange(us as int, ue as int) + seq!['|']
                        + s@.subrange(i + 1, te as int) + ("]]")@)) + spec_rewrite_file_links(
                        s@.skip(ue + 3),
                    ));
                }
                i = ue + 3;
            },
            Option::None => {
                push_char(&mut out, s.get_char(i));
                proof {
                    assert(t[0] == s@[i as int]);
                    assert(t.drop_first() =~= s@.skip(i + 1));
                    assert(out@ =~= out0 + seq![t[0]]);
                    assert(out0 + (seq![t[0]] + spec_rewrite_file_links(s@.skip(i + 1))) =~= (
                    out0 + seq![t[0]]) + spec_rewrite_file_links(s@.skip(i + 1)));
                }
                i += 1;
            },
        }
    }
    proof {
        assert(s@.skip(n as int) =~= Seq::<char>::empty());
        assert(out@ + Seq::<char>::empty() =~= out@);
    }
    out
}

/// The text after the embed pass: every `{{embed ((id))}}` whose id is in
/// the registry becomes an embed wiki link; unresolved embeds stay as they
/// are.
pub open spec fn spec_rewrite_embeds(
    s: Seq<char>,
    refs: Map<Seq<char>, RefV>,
    title: Seq<char>,
) -> Seq<char>
    decreases s.len(),
{
    if s.len() == 0 {
        Seq::empty()
    } else if spec_embed_pre(s) && 50 <= s.len() {
        let idk = s.subrange(10, 46);
        if refs.contains_key(idk) {
            ("![[")@ + spec_get_link(refs[idk], title) + ("]]")@ + spec_rewrite_embeds(
                s.skip(50),
                refs,
                title,
            )
        } else {
            s.take(50) + spec_rewrite_embeds(s.skip(50), refs, title)
        }
    } else {
        seq![s[0]] + spec_rewrite_embeds(s.drop_first(), refs, title)
    }
}

pub fn rewrite_embeds<D: Data>(s: &str, data: &D) -> (r: String)
    ensures
        r@ == spec_rewrite_embeds(s@, data.refs_view(), data.title_view()),
{
    let ghost refs = data.refs_view();
    let ghost title = data.title_view();
    let n = s.unicode_len();
    let mut out = String::new();
    let mut i: usize = 0;
    proof {
        assert(s@.skip(0) =~= s@);
        assert(Seq::<char>::empty() + spec_rewrite_embeds(s@, refs, title)
            =~= spec_rewrite_embeds(s@, refs, title));
    }
    while i < n
        invariant
            0 <= i <= n,
            n == s@.len(),
            refs == data.refs_view(),
            title == data.title_view(),
            spec_rewrite_embeds(s@, refs, title) == out@ + spec_rewrite_embeds(
                s@.skip(i as int),
                refs,
                title,
            ),
        decreases n - i,
    {
        let ghost t = s@.skip(i as int);
        let ghost out0 = out@;
        if embed_prefix_at(s, i) {
            proof {
                assert(t.subrange(10, 46) =~= s@.subrange(i + 10, i + 46));
                assert(t.skip(50) =~= s@.skip(i + 50));
                assert(t.take(50) =~= s@.subrange(i as int, i + 50));
            }
            let id = s.substring_char(i + 10, i + 46);
            match data.query_id(id) {
                Option::Some(e) => {
                    let curr = data.curr_title();
                    let link = e.get_link(curr.as_str());
                    out.append("![[");
                    out.append(link.as_str());
                    out.append("]]");
                    proof {
                        assert(out@ =~= out0 + (("![[")@ + spec_get_link(refs[t.subrange(10, 46)],
                            title,
                        ) + ("]]")@));
                        assert(out0 + (("![[")@ + spec_get_link(refs[t.subrange(10, 46)], title)
                            + ("]]")@ + spec_rewrite_embeds(s@.skip(i + 50), refs, title)) =~= (
                        out0 + (("![[")@ + spec_get_link(refs[t.subrange(10, 46)], title) + (
                        "]]")@)) + spec_rewrite_embeds(s@.skip(i + 50), refs, title));
                    }
                },
                Option::None => {
                    out.append(s.substring_char(i, i + 50));
                    proof {
                        assert(out@ =~= out0 + t.take(50));
                        assert(out0 + (t.take(50) + spec_rewrite_embeds(
                            s@.skip(i + 50),
                            refs,
                            title,
                        )) =~= (out0 + t.take(50)) + spec_rewrite_embeds(
                            s@.skip(i + 50),
                            refs,
                            title,
                        ));
                    }
                },
            }
            i += 50;
        } else {
            push_char(&mut out, s.get_char(i));
            proof {
                assert(t[0] == s@[i as int]);
                assert(t.drop_first() =~= s@.skip(i + 1));
                assert(out@ =~= out0 + seq![t[0]]);
                assert(out0 + (seq![t[0]] + spec_rewrite_embeds(s@.skip(i + 1), refs, title))
                    =~= (out0 + seq![t[0]]) + spec_rewrite_embeds(s@.skip(i + 1), refs, title));
            }
            i += 1;
        }
    }
    proof {
        assert(s@.skip(n as int) =~= Seq::<char>::empty());
        assert(out@ + Seq::<char>::empty() =~= out@);
    }
    out
}

/// The text after the titled-link pass: every `[title](((id)))` whose id is
/// in the registry becomes `[[target|title]]`; unresolved links stay as
/// they are.
pub open spec fn spec_rewrite_links(
    s: Seq<char>,
    refs: Map<Seq<char>, RefV>,
    title: Seq<char>,
) -> Seq<char>
    decreases s.len(),
{
    if s.len() == 0 {
        Seq::empty()
    } else {
        match spec_link_id_pre(s) {
            Option::Some(j) => if 1 <= j && j + 43 <= s.len() {
                let idk = s.subrange(j + 4, j + 40);
                if refs.contains_key(idk) {
                    ("[[")@ + spec_get_link(refs[idk], title) + seq!['|'] + s.subrange(1, j) + (
                    "]]")@ + spec_rewrite_links(s.skip(j + 43), refs, title)
                } else {
                    s.take(j + 43) + spec_rewrite_links(s.skip(j + 43), refs, title)
                }
            } else {
                seq![s[0]] + spec_rewrite_links(s.drop_first(), refs, title)
            },
            Option::None => seq![s[0]] + spec_rewrite_links(s.drop_first(), refs, title),
        }
    }
}

pub fn rewrite_links<D: Data>(s: &str, data: &D) -> (r: String)
    ensures
        r@ == spec_rewrite_links(s@, data.refs_view(), data.title_view()),
{
    let ghost refs = data.refs_view();
    let ghost title = data.title_view();
    let n = s.unicode_len();
    let mut out = String::new();
    let mut i: usize = 0;
    proof {
        assert(s@.skip(0) =~= s@);
        assert(Seq::<char>::empty() + spec_rewrite_links(s@, refs, title) =~= spec_rewrite_links(
            s@,
            refs,
            title,
        ));
    }
    while i < n
        invariant
            0 <= i <= n,
            n == s@.len(),
            refs == data.refs_view(),
            title == data.title_view(),
            spec_rewrite_links(s@, refs, title) == out@ + spec_rewrite_links(
                s@.skip(i as int),
                refs,
                title,
            ),
        decreases n - i,
    {
        let ghost t = s@.skip(i as int);
        let ghost out0 = out@;
        match link_id_prefix_at(s, i) {
            Option::Some(j) => {
                proof {
                    assert(t.subrange((j - i) + 4, (j - i) + 40) =~= s@.subrange(j + 4, j + 40));
                    assert(t.subrange(1, j - i) =~= s@.subrange(i + 1, j as int));
                    assert(t.skip((j - i) + 43) =~= s@.skip(j + 43));
                    assert(t.take((j - i) + 43) =~= s@.subrange(i as int, j + 43));
                }
                let id = s.substring_char(j + 4, j + 40);
                match data.query_id(id) {
                    Option::Some(e) => {
                        let curr = data.curr_title();
                        let link = e.get_link(curr.as_str());
                        out.append("[[");
                        out.append(link.as_str());
                        push_char(&mut out, '|');
                        out.append(s.substring_char(i + 1, j));
                        out.append("]]");
                        proof {
                            let idk = t.subrange((j - i) + 4, (j - i) + 40);
                            assert(out@ =~= out0 + (("[[")@ + spec_get_link(refs[idk], title)
                                + seq!['|'] + t.subrange(1, j - i) + ("]]")@));
                            assert(out0 + (("[[")@ + spec_get_link(refs[idk], title) + seq!['|']
                                + t.subrange(1, j - i) + ("]]")@ + spec_rewrite_links(
                                s@.skip(j + 43),
                                refs,
                                title,
                            )) =~= (out0 + (("[[")@ + spec_get_link(refs[idk], title) + seq!['|']
                                + t.subrange(1, j - i) + ("]]")@)) + spec_rewrite_links(
                                s@.skip(j + 43),
                                refs,
                                title,
                            ));
                        }
                    },
                    Option::None => {
                        out.append(s.substring_char(i, j + 43));
                        proof {
                            assert(out@ =~= out0 + t.take((j - i) + 43));
                            assert(out0 + (t.take((j - i) + 43) + spec_rewrite_links(
                                s@.skip(j + 43),
                                refs,
                                title,
                            )) =~= (out0 + t.take((j - i) + 43)) + spec_rewrite_links(
                                s@.skip(j + 43),
                                refs,
                                title,
                            ));
                        }
                    },
                }
                i = j + 43;
            },
            Option::None => {
                push_char(&mut out, s.get_char(i));
                proof {
                    assert(t[0] == s@[i as int]);
                    assert(t.drop_first() =~= s@.skip(i + 1));
                    assert(out@ =~= out0 + seq![t[0]]);
                    assert(out0 + (seq![t[0]] + spec_rewrite_links(s@.skip(i + 1), refs, title))
                        =~= (out0 + seq![t[0]]) + spec_rewrite_links(s@.skip(i + 1), refs, title));
                }
                i += 1;
            },
        }
    }
    proof {
        assert(s@.skip(n as int) =~= Seq::<char>::empty());
        assert(out@ + Seq::<char>::empty() =~= out@);
    }
    out
}

/// The text after the standalone-reference pass: every bare `((id))` (not
/// at the very start, not preceded by `(`) whose id is in the registry
/// becomes `[[target]]`; unresolved references stay byte-for-byte as they
/// are.
pub open spec fn spec_rewrite_standalone(
    s: Seq<char>,
    refs: Map<Seq<char>, RefV>,
    title: Seq<char>,
) -> Seq<char>
    decreases s.len(),
{
    if s.len() == 0 {
        Seq::empty()
    } else if spec_standalone_pre(s) && 41 <= s.len() {
        let idk = s.subrange(3, 39);
        if refs.contains_key(idk) {
            seq![s[0]] + ("[[")@ + spec_get_link(refs[idk], title) + ("]]")@
                + spec_rewrite_standalone(s.skip(41), refs, title)
        } else {
            s.take(41) + spec_rewrite_standalone(s.skip(41), refs, title)
        }
    } else {
        seq![s[0]] + spec_rewrite_standalone(s.drop_first(), refs, title)
    }
}

pub fn rewrite_standalone<D: Data>(s: &str, data: &D) -> (r: String)
    ensures
        r@ == spec_rewrite_standalone(s@, data.refs_view(), data.title_view()),
{
    let ghost refs = data.refs_view();
    let ghost title = data.title_view();
    let n = s.unicode_len();
    let mut out = String::new();
    let mut i: usize = 0;
    proof {
        assert(s@.skip(0) =~= s@);
        assert(Seq::<char>::empty() + spec_rewrite_standalone(s@, refs, title)
            =~= spec_rewrite_standalone(s@, refs, title));
    }
    while i < n
        invariant
            0 <= i <= n,
            n == s@.len(),
            refs == data.refs_view(),
            title == data.title_view(),
            spec_rewrite_standalone(s@, refs, title) == out@ + spec_rewrite_standalone(
                s@.skip(i as int),
                refs,
                title,
            ),
        decreases n - i,
    {
        let ghost t = s@.skip(i as int);
        let ghost out0 = out@;
        if standalone_prefix_at(s, i) {
            proof {
                assert(t.subrange(3, 39) =~= s@.subrange(i + 3, i + 39));
                assert(t.skip(41) =~= s@.skip(i + 41));
                assert(t.take(41) =~= s@.subrange(i as int, i + 41));
                assert(t[0] == s@[i as int]);
            }
            let id = s.substring_char(i + 3, i + 39);
            match data.query_id(id) {
                Option::Some(e) => {
                    let curr = data.curr_title();
                    let link = e.get_link(curr.as_str());
                    push_char(&mut out, s.get_char(i));
                    out.append("[[");
                    out.append(link.as_str());
                    out.append("]]");
                    proof {
                        let idk = t.subrange(3, 39);
                        assert(out@ =~= out0 + (seq![t[0]] + ("[[")@ + spec_get_link(
                            refs[idk],
                            title,
                        ) + ("]]")@));
                        assert(out0 + (seq![t[0]] + ("[[")@ + spec_get_link(refs[idk], title) + (
                        "]]")@ + spec_rewrite_standalone(s@.skip(i + 41), refs, title)) =~= (out0
                            + (seq![t[0]] + ("[[")@ + spec_get_link(refs[idk], title) + ("]]")@))
                            + spec_rewrite_standalone(s@.skip(i + 41), refs, title));
                    }
                },
                Option::None => {
                    out.append(s.substring_char(i, i + 41));
                    proof {
                        assert(out@ =~= out0 + t.take(41));
                        assert(out0 + (t.take(41) + spec_rewrite_standalone(
                            s@.skip(i + 41),
                            refs,
                            title,
                        )) =~= (out0 + t.take(41)) + spec_rewrite_standalone(
                            s@.skip(i + 41),
                            refs,
                            title,
                        ));
                    }
                },
            }
            i += 41;
        } else {
            push_char(&mut out, s.get_char(i));
            proof {
                assert(t[0] == s@[i as int]);
                assert(t.drop_first() =~= s@.skip(i + 1));
                assert(out@ =~= out0 + seq![t[0]]);
                assert(out0 + (seq![t[0]] + spec_rewrite_standalone(s@.skip(i + 1), refs, title))
                    =~= (out0 + seq![t[0]]) + spec_rewrite_standalone(
                    s@.skip(i + 1),
                    refs,
                    title,
                ));
            }
            i += 1;
        }
    }
    proof {
        assert(s@.skip(n as int) =~= Seq::<char>::empty());
        assert(out@ + Seq::<char>::empty() =~= out@);
    }
    out
}

/// A text that can safely shed its list marker: it carries one, and more
/// than the bare marker.
pub open spec fn can_unlist(t: Seq<char>) -> bool {
    t.len() > 2 && t[0] == '-' && t[1] == ' '
}

/// Math-block demotion: a block consisting solely of a double-dollar math
/// expression drops its list form when its parent is absent or not a list
/// item.
pub open spec fn step_math(t: Seq<char>, isl: bool, parent: Option<bool>) -> (Seq<char>, bool) {
    if parent != Option::Some(true) && spec_only_math(t) && isl && can_unlist(t) {
        (crate::text::spec_list_to_normal(t), false)
    } else {
        (t, isl)
    }
}

/// Top-level heading unwrap: a root block whose text still carries the
/// redundant list-marker/heading-marker combination sheds one marker.
pub open spec fn step_heading(t: Seq<char>, parent: Option<bool>) -> Seq<char> {
    let t1 = if parent is None && crate::text::spec_starts_with(t, ("- ## ")@) {
        t.take(2) + t.skip(3)
    } else {
        t
    };
    if parent is None && crate::text::spec_starts_with(t1, ("## ")@) {
        t1.skip(1)
    } else {
        t1
    }
}

/// Image-block demotion: a block consisting solely of one image reference
/// drops its list form when neither parent nor preceding sibling is a list
/// item.
pub open spec fn step_image(
    t: Seq<char>,
    isl: bool,
    parent: Option<bool>,
    prev: Option<bool>,
) -> (Seq<char>, bool) {
    if parent != Option::Some(true) && prev != Option::Some(true) && spec_only_image(t) && isl
        && can_unlist(t) {
        (crate::text::spec_list_to_normal(t), false)
    } else {
        (t, isl)
    }
}

/// The structural-demotion chain, in pipeline order.
pub open spec fn spec_demote_text(
    t: Seq<char>,
    isl: bool,
    parent: Option<bool>,
    prev: Option<bool>,
) -> Seq<char> {
    step_image(step_heading(step_math(t, isl, parent).0, parent), step_math(t, isl, parent).1, parent, prev).0
}

pub open spec fn spec_demote_list(
    t: Seq<char>,
    isl: bool,
    parent: Option<bool>,
    prev: Option<bool>,
) -> bool {
    step_image(step_heading(step_math(t, isl, parent).0, parent), step_math(t, isl, parent).1, parent, prev).1
}

/// The full textual-rewrite chain a node's (already demoted) text passes
/// through, in pipeline order: assets, file links, embeds, titled
/// identifier links, standalone identifier references.
pub open spec fn spec_transform_text<D: Data>(t: Seq<char>, d: D) -> Seq<char> {
    spec_rewrite_standalone(
        spec_rewrite_links(
            spec_rewrite_embeds(
                spec_rewrite_file_links(spec_rewrite_assets(t, d)),
                d.refs_view(),
                d.title_view(),
            ),
            d.refs_view(),
            d.title_view(),
        ),
        d.refs_view(),
        d.title_view(),
    )
}


/// The textual-rewrite chain depends on the collaborator only through its
/// registry, its current title, and its path rewriting function.
pub proof fn lemma_transform_text_congruent<D: Data>(t: Seq<char>, d1: D, d2: D)
    requires
        d1.refs_view() == d2.refs_view(),
        d1.title_view() == d2.title_view(),
        forall|p: Seq<char>| d1.copy_dest(p) == d2.copy_dest(p),
    ensures
        spec_transform_text(t, d1) == spec_transform_text(t, d2),
{
    lemma_rewrite_assets_congruent(t, d1, d2);
}

/// The list-item mode the last of a transformed run of siblings presents to
/// its successor.
pub open spec fn last_list_mode(posts: Seq<Block>, prev: Option<bool>) -> Option<bool> {
    if posts.len() == 0 {
        prev
    } else {
        Option::Some(posts.last().is_list_item)
    }
}

/// The complete correspondence between a block tree before and after the
/// transform pass: every node's text and list mode are the specified
/// functions of its pre-transform state and context, everything else is
/// untouched, and each child sees its transformed predecessor's list mode.
pub open spec fn tree_transformed<D: Data>(
    pre: Block,
    post: Block,
    parent: Option<bool>,
    prev: Option<bool>,
    d: D,
) -> bool
    decreases pre, 1int,
{
    proof {
        broadcast use vstd::std_specs::vec::group_vec_axioms;
        broadcast use vstd::seq::group_seq_axioms;

        assert(decreases_to!(pre => pre.children));
        assert(decreases_to!(pre.children => pre.children@));
        assert(decreases_to!(pre => pre.children@));
    }
    post.text@ == spec_transform_text(
        spec_demote_text(pre.text@, pre.is_list_item, parent, prev),
        d,
    ) && post.is_list_item == spec_demote_list(pre.text@, pre.is_list_item, parent, prev)
        && post.id == pre.id && post.header == pre.header && post.self_border == pre.self_border
        && siblings_transformed(
        pre.children@,
        post.children@,
        Option::Some(pre.is_list_item),
        Option::None,
        d,
    )
}

/// Each block of `posts` is the transform of the corresponding block of
/// `pres`, threading each transformed block's list mode to its successor.
pub open spec fn siblings_transformed<D: Data>(
    pres: Seq<Block>,
    posts: Seq<Block>,
    parent: Option<bool>,
    prev: Option<bool>,
    d: D,
) -> bool
    decreases pres, 0int,
{
    proof {
        broadcast use vstd::seq::group_seq_axioms;

        if pres.len() > 0 {
            assert(decreases_to!(pres => pres[0]));
            assert(decreases_to!(pres => pres.drop_first()));
        }
    }
    pres.len() == posts.len() && (pres.len() == 0 || (tree_transformed(
        pres[0],
        posts[0],
        parent,
        prev,
        d,
    ) && siblings_transformed(
        pres.drop_first(),
        posts.drop_first(),
        parent,
        Option::Some(posts[0].is_list_item),
        d,
    )))
}

/// The tree correspondence depends on the collaborator only through its
/// registry, title, and path rewriting function.
pub proof fn lemma_tree_transformed_congruent<D: Data>(
    pre: Block,
    post: Block,
    parent: Option<bool>,
    prev: Option<bool>,
    d1: D,
    d2: D,
)
    requires
        d1.refs_view() == d2.refs_view(),
        d1.title_view() == d2.title_view(),
        forall|p: Seq<char>| d1.copy_dest(p) == d2.copy_dest(p),
    ensures
        tree_transformed(pre, post, parent, prev, d1) == tree_transformed(
            pre,
            post,
            parent,
            prev,
            d2,
        ),
    decreases pre, 1int,
{
    lemma_transform_text_congruent(
        spec_demote_text(pre.text@, pre.is_list_item, parent, prev),
        d1,
        d2,
    );
    lemma_siblings_transformed_congruent(
        pre.children@,
        post.children@,
        Option::Some(pre.is_list_item),
        Option::None,
        d1,
        d2,
    );
}

pub proof fn lemma_siblings_transformed_congruent<D: Data>(
    pres: Seq<Block>,
    posts: Seq<Block>,
    parent: Option<bool>,
    prev: Option<bool>,
    d1: D,
    d2: D,
)
    requires
        d1.refs_view() == d2.refs_view(),
        d1.title_view() == d2.title_view(),
        forall|p: Seq<char>| d1.copy_dest(p) == d2.copy_dest(p),
    ensures
        siblings_transformed(pres, posts, parent, prev, d1) == siblings_transformed(
            pres,
            posts,
            parent,
            prev,
            d2,
        ),
    decreases pres, 0int,
{
    if pres.len() > 0 && pres.len() == posts.len() {
        lemma_tree_transformed_congruent(pres[0], posts[0], parent, prev, d1, d2);
        lemma_siblings_transformed_congruent(
            pres.drop_first(),
            posts.drop_first(),
            parent,
            Option::Some(posts[0].is_list_item),
            d1,
            d2,
        );
    }
}

/// Extends a transformed run of siblings by one more transformed sibling.
pub proof fn lemma_siblings_transformed_snoc<D: Data>(
    pres: Seq<Block>,
    posts: Seq<Block>,
    parent: Option<bool>,
    prev: Option<bool>,
    d: D,
    pre1: Block,
    post1: Block,
)
    requires
        siblings_transformed(pres, posts, parent, prev, d),
        tree_transformed(pre1, post1, parent, last_list_mode(posts, prev), d),
    ensures
        siblings_transformed(pres.push(pre1), posts.push(post1), parent, prev, d),
    decreases pres.len(),
{
    let np = pres.push(pre1);
    let nq = posts.push(post1);
    if pres.len() == 0 {
        assert(np[0] == pre1);
        assert(nq[0] == post1);
        assert(np.drop_first() =~= Seq::<Block>::empty());
        assert(nq.drop_first() =~= Seq::<Block>::empty());
        assert(siblings_transformed(
            np.drop_first(),
            nq.drop_first(),
            parent,
            Option::Some(nq[0].is_list_item),
            d,
        ));
    } else {
        assert(np[0] == pres[0]);
        assert(nq[0] == posts[0]);
        assert(np.drop_first() =~= pres.drop_first().push(pre1));
        assert(nq.drop_first() =~= posts.drop_first().push(post1));
        assert(last_list_mode(posts.drop_first(), Option::Some(posts[0].is_list_item))
            == last_list_mode(posts, prev)) by {
            if posts.drop_first().len() > 0 {
                assert(posts.drop_first().last() == posts.last());
            }
        }
        lemma_siblings_transformed_snoc(
            pres.drop_first(),
            posts.drop_first(),
            parent,
            Option::Some(posts[0].is_list_item),
            d,
            pre1,
            post1,
        );
        assert(siblings_transformed(
            np.drop_first(),
            nq.drop_first(),
            parent,
            Option::Some(nq[0].is_list_item),
            d,
        ));
    }
}

impl Block {
    /// The structural demotions of one node, in pipeline order: math-block
    /// demotion, top-level heading unwrap, image-block demotion.
    #[verifier::rlimit(100)]
    fn demote(&mut self, parent: Option<bool>, prev_sibling: Option<bool>)
        ensures
            final(self).text@ == spec_demote_text(
                old(self).text@,
                old(self).is_list_item,
                parent,
                prev_sibling,
            ),
            final(self).is_list_item == spec_demote_list(
                old(self).text@,
                old(self).is_list_item,
                parent,
                prev_sibling,
            ),
            final(self).id == old(self).id,
            final(self).header == old(self).header,
            final(self).self_border == old(self).self_border,
            final(self).children == old(self).children,
    {
        let ghost self0 = *self;
        let parent_ok = match parent {
            Some(pl) => !pl,
            None => true,
        };
        if parent_ok && only_math(self.text.as_str()) {
            if self.is_list_item {
                let tl = self.text.as_str().unicode_len();
                if tl > 2 && crate::text::starts_with(self.text.as_str(), "- ") {
                    proof {
                        reveal_strlit("- ");
                        assert(self.text@.take(2)[0] == self.text@[0]);
                        assert(self.text@.take(2)[1] == self.text@[1]);
                    }
                    self.set_list_item(false);
                }
            }
        }
        proof {
            reveal_strlit("- ");
            if can_unlist(self0.text@) {
                assert(self0.text@.take(2) =~= ("- ")@);
            }
            if spec_starts_with(self0.text@, ("- ")@) {
                assert(self0.text@.take(2)[0] == self0.text@[0]);
                assert(self0.text@.take(2)[1] == self0.text@[1]);
            }
            assert(self.text@ == step_math(self0.text@, self0.is_list_item, parent).0);
            assert(self.is_list_item == step_math(self0.text@, self0.is_list_item, parent).1);
        }
        let ghost tm = step_math(self0.text@, self0.is_list_item, parent).0;
        proof {
            reveal_strlit("- ## ");
            reveal_strlit("## ");
        }
        let is_root = match parent {
            Some(_) => false,
            None => true,
        };
        if is_root {
            if crate::text::starts_with(self.text.as_str(), "- ## ") {
                let ln = self.text.as_str().unicode_len();
                let mut t = self.text.as_str().substring_char(0, 2).to_owned();
                t.append(self.text.as_str().substring_char(3, ln));
                proof {
                    assert(self.text@.subrange(0, 2) =~= self.text@.take(2));
                    assert(self.text@.subrange(3, ln as int) =~= self.text@.skip(3));
                }
                self.text = t;
            }
            if crate::text::starts_with(self.text.as_str(), "## ") {
                let ln = self.text.as_str().unicode_len();
                let t = self.text.as_str().substring_char(1, ln).to_owned();
                proof {
                    assert(self.text@.subrange(1, ln as int) =~= self.text@.skip(1));
                }
                self.text = t;
            }
        }
        proof {
            assert(self.text@ == step_heading(tm, parent));
        }
        let ghost th = step_heading(tm, parent);
        let prev_ok = match prev_sibling {
            Some(pl) => !pl,
            None => true,
        };
        if parent_ok && prev_ok && only_image(self.text.as_str()) {
            if self.is_list_item {
                let tl = self.text.as_str().unicode_len();
                if tl > 2 && crate::text::starts_with(self.text.as_str(), "- ") {
                    proof {
                        reveal_strlit("- ");
                        assert(self.text@.take(2)[0] == self.text@[0]);
                        assert(self.text@.take(2)[1] == self.text@[1]);
                    }
                    self.set_list_item(false);
                }
            }
        }
        proof {
            reveal_strlit("- ");
            if can_unlist(th) {
                assert(th.take(2) =~= ("- ")@);
            }
            if spec_starts_with(th, ("- ")@) {
                assert(th.take(2)[0] == th[0]);
                assert(th.take(2)[1] == th[1]);
            }
            assert(self.text@ == spec_demote_text(
                self0.text@,
                self0.is_list_item,
                parent,
                prev_sibling,
            ));
            assert(self.is_list_item == spec_demote_list(
                self0.text@,
                self0.is_list_item,
                parent,
                prev_sibling,
            ));
        }
    }

    /// The textual rewrites of one node, in pipeline order.
    fn rewrite_text<D: Data>(&mut self, data: &mut D)
        ensures
            final(self).text@ == spec_transform_text(old(self).text@, *old(data)),
            final(self).is_list_item == old(self).is_list_item,
            final(self).id == old(self).id,
            final(self).header == old(self).header,
            final(self).self_border == old(self).self_border,
            final(self).children == old(self).children,
            final(data).title_view() == old(data).title_view(),
            final(data).refs_view() == old(data).refs_view(),
            forall|p: Seq<char>| final(data).copy_dest(p) == old(data).copy_dest(p),
            final(data).assets_view() == old(data).assets_view() + spec_image_paths(
                old(self).text@,
            ),
    {
        let ghost d0 = *data;
        let ghost t0 = self.text@;
        let t_assets = rewrite_assets(self.text.as_str(), data);
        self.text = t_assets;
        let t_fl = rewrite_file_links(self.text.as_str());
        self.text = t_fl;
        let t_em = rewrite_embeds(self.text.as_str(), &*data);
        self.text = t_em;
        let t_li = rewrite_links(self.text.as_str(), &*data);
        self.text = t_li;
        let t_sa = rewrite_standalone(self.text.as_str(), &*data);
        self.text = t_sa;
        proof {
            assert(self.text@ == spec_transform_text(t0, d0));
        }
    }

    /// Transforms the subtree in post-order: children first (each seeing
    /// its transformed predecessor's list mode), then this node's
    /// demotions and text rewrites. `parent` and `prev_sibling` carry the
    /// list-item mode of the parent and the already-transformed preceding
    /// sibling, if they exist.
    #[verifier::rlimit(100)]
    pub fn transform<D: Data>(
        &mut self,
        parent: Option<bool>,
        prev_sibling: Option<bool>,
        data: &mut D,
    )
        ensures
            tree_transformed(*old(self), *final(self), parent, prev_sibling, *old(data)),
            final(self).text@ == spec_transform_text(
                spec_demote_text(old(self).text@, old(self).is_list_item, parent, prev_sibling),
                *old(data),
            ),
            final(self).is_list_item == spec_demote_list(
                old(self).text@,
                old(self).is_list_item,
                parent,
                prev_sibling,
            ),
            final(self).id == old(self).id,
            final(self).header == old(self).header,
            final(self).self_border == old(self).self_border,
            final(self).children.len() == old(self).children.len(),
            final(data).title_view() == old(data).title_view(),
            final(data).refs_view() == old(data).refs_view(),
            forall|p: Seq<char>| final(data).copy_dest(p) == old(data).copy_dest(p),
            exists|mid: Seq<Seq<char>>|
                final(data).assets_view() == old(data).assets_view() + mid + spec_image_paths(
                    spec_demote_text(
                        old(self).text@,
                        old(self).is_list_item,
                        parent,
                        prev_sibling,
                    ),
                ),
            old(self).children.len() == 0 ==> final(data).assets_view() == old(
                data,
            ).assets_view() + spec_image_paths(
                spec_demote_text(old(self).text@, old(self).is_list_item, parent, prev_sibling),
            ),
        decreases *old(self),
    {
        let ghost d0 = *data;
        let ghost self0 = *self;
        let n = self.children.len();
        let myl = self.is_list_item;
        let mut prev: Option<bool> = None;
        let mut i: usize = 0;
        proof {
            assert(self0.children@.take(0) =~= Seq::<Block>::empty());
            assert(self.children@.take(0) =~= Seq::<Block>::empty());
            assert(siblings_transformed(
                Seq::<Block>::empty(),
                Seq::<Block>::empty(),
                Option::Some(self0.is_list_item),
                Option::<bool>::None,
                d0,
            ));
        }
        while i < n
            invariant
                self0 == *old(self),
                0 <= i <= n,
                self.children.len() == n,
                n == self0.children.len(),
                forall|j: int| i <= j < n ==> self.children@[j] == self0.children@[j],
                siblings_transformed(
                    self0.children@.take(i as int),
                    self.children@.take(i as int),
                    Option::Some(self0.is_list_item),
                    Option::<bool>::None,
                    d0,
                ),
                prev == last_list_mode(self.children@.take(i as int), Option::<bool>::None),
                self.text == self0.text,
                self.id == self0.id,
                self.header == self0.header,
                self.self_border == self0.self_border,
                self.is_list_item == self0.is_list_item,
                myl == self0.is_list_item,
                data.title_view() == d0.title_view(),
                data.refs_view() == d0.refs_view(),
                forall|p: Seq<char>| data.copy_dest(p) == d0.copy_dest(p),
                d0.assets_view().is_prefix_of(data.assets_view()),
                i == 0 ==> data.assets_view() == d0.assets_view(),
            decreases n - i,
        {
            let ghost pre = self.children@;
            let mut c = self.children.remove(i);
            proof {
                broadcast use vstd::std_specs::vec::group_vec_axioms;
                broadcast use vstd::seq::group_seq_axioms;

                assert(c == self0.children@[i as int]);
                assert(decreases_to!(self0 => self0.children));
                assert(decreases_to!(self0.children => self0.children@));
                assert(decreases_to!(self0.children@ => self0.children@[i as int]));
                assert(decreases_to!(self0 => c));
            }
            let ghost dpre = *data;
            let ghost c0 = c;
            c.transform(Some(myl), prev, data);
            prev = Some(c.is_list_item);
            self.children.insert(i, c);
            proof {
                assert(self.children@ =~= pre.update(i as int, c));
                let pres_i = self0.children@.take(i as int);
                let posts_i = pre.take(i as int);
                assert(posts_i =~= self.children@.take(i as int));
                lemma_tree_transformed_congruent(c0, c, Some(myl), prev, dpre, d0);
                assert(tree_transformed(c0, c, Option::Some(self0.is_list_item), prev, d0));
                lemma_siblings_transformed_snoc(
                    pres_i,
                    posts_i,
                    Option::Some(self0.is_list_item),
                    Option::<bool>::None,
                    d0,
                    c0,
                    c,
                );
                assert(self0.children@.take(i + 1) =~= pres_i.push(c0));
                assert(self.children@.take(i + 1) =~= posts_i.push(c));
                assert(self.children@.take(i + 1).last() == c);
            }
            i += 1;
        }
        let ghost a1 = data.assets_view();
        self.demote(parent, prev_sibling);
        let ghost dt = spec_demote_text(self0.text@, self0.is_list_item, parent, prev_sibling);
        let ghost dpre = *data;
        self.rewrite_text(data);
        proof {
            lemma_rewrite_assets_congruent(dt, dpre, d0);
            assert(spec_rewrite_embeds(
                spec_rewrite_file_links(spec_rewrite_assets(dt, dpre)),
                dpre.refs_view(),
                dpre.title_view(),
            ) == spec_rewrite_embeds(
                spec_rewrite_file_links(spec_rewrite_assets(dt, d0)),
                d0.refs_view(),
                d0.title_view(),
            ));
            assert(self.text@ == spec_transform_text(dt, d0));
            let mid = a1.skip(d0.assets_view().len() as int);
            assert(a1 =~= d0.assets_view() + mid);
            assert(data.assets_view() =~= d0.assets_view() + mid + spec_image_paths(dt));
            if self0.children.len() == 0 {
                assert(a1 == d0.assets_view());
                assert(mid =~= Seq::<Seq<char>>::empty());
                assert(d0.assets_view() + Seq::<Seq<char>>::empty() + spec_image_paths(dt)
                    =~= d0.assets_view() + spec_image_paths(dt));
            }
            assert(self0.children@.take(n as int) =~= self0.children@);
            assert(self.children@.take(n as int) =~= self.children@);
            assert(tree_transformed(self0, *self, parent, prev_sibling, d0));
        }
    }
}

impl Page {
    /// Transforms every top-level block in order, each seeing its
    /// predecessor's transformed list mode; top-level blocks have no
    /// parent.
    pub fn transform<D: Data>(&mut self, data: &mut D)
        ensures
            siblings_transformed(
                old(self).blocks@,
                final(self).blocks@,
                Option::<bool>::None,
                Option::<bool>::None,
                *old(data),
            ),
            final(self).title == old(self).title,
            final(self).alias == old(self).alias,
            final(self).blocks.len() == old(self).blocks.len(),
            final(data).title_view() == old(data).title_view(),
            final(data).refs_view() == old(data).refs_view(),
            forall|p: Seq<char>| final(data).copy_dest(p) == old(data).copy_dest(p),
            old(data).assets_view().is_prefix_of(final(data).assets_view()),
    {
        let ghost d0 = *data;
        let ghost self0 = *self;
        let n = self.blocks.len();
        let mut prev: Option<bool> = None;
        let mut i: usize = 0;
        proof {
            assert(self0.blocks@.take(0) =~= Seq::<Block>::empty());
            assert(self.blocks@.take(0) =~= Seq::<Block>::empty());
            assert(siblings_transformed(
                Seq::<Block>::empty(),
                Seq::<Block>::empty(),
                Option::<bool>::None,
                Option::<bool>::None,
                d0,
            ));
        }
        while i < n
            invariant
                self0 == *old(self),
                0 <= i <= n,
                self.blocks.len() == n,
                n == self0.blocks.len(),
                self.title == self0.title,
                self.alias == self0.alias,
                forall|j: int| i <= j < n ==> self.blocks@[j] == self0.blocks@[j],
                siblings_transformed(
                    self0.blocks@.take(i as int),
                    self.blocks@.take(i as int),
                    Option::<bool>::None,
                    Option::<bool>::None,
                    d0,
                ),
                prev == last_list_mode(self.blocks@.take(i as int), Option::<bool>::None),
                data.title_view() == d0.title_view(),
                data.refs_view() == d0.refs_view(),
                forall|p: Seq<char>| data.copy_dest(p) == d0.copy_dest(p),
                d0.assets_view().is_prefix_of(data.assets_view()),
            decreases n - i,
        {
            let ghost pre = self.blocks@;
            let mut c = self.blocks.remove(i);
            proof {
                assert(c == self0.blocks@[i as int]);
            }
            let ghost dpre = *data;
            let ghost c0 = c;
            c.transform(None, prev, data);
            prev = Some(c.is_list_item);
            self.blocks.insert(i, c);
            proof {
                assert(self.blocks@ =~= pre.update(i as int, c));
                let pres_i = self0.blocks@.take(i as int);
                let posts_i = pre.take(i as int);
                assert(posts_i =~= self.blocks@.take(i as int));
                lemma_tree_transformed_congruent(c0, c, Option::<bool>::None, prev, dpre, d0);
                assert(tree_transformed(c0, c, Option::<bool>::None, prev, d0));
                lemma_siblings_transformed_snoc(
                    pres_i,
                    posts_i,
                    Option::<bool>::None,
                    Option::<bool>::None,
                    d0,
                    c0,
                    c,
                );
                assert(self0.blocks@.take(i + 1) =~= pres_i.push(c0));
                assert(self.blocks@.take(i + 1) =~= posts_i.push(c));
                assert(self.blocks@.take(i + 1).last() == c);
            }
            i += 1;
        }
        proof {
            assert(self0.blocks@.take(n as int) =~= self0.blocks@);
            assert(self.blocks@.take(n as int) =~= self.blocks@);
        }
    }
}

} // verus!
