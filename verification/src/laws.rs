//! General laws of the library, each proved from the specification
//! functions that the public contracts are stated over.

use vstd::prelude::*;
use crate::block::Block;
use crate::parse::parsed_from;
use crate::patterns::{spec_image_pre, spec_standalone_pre, ImgM};
use crate::registry::{spec_get_link, Data, RefV};
use crate::text::{is_ws, lemma_ws_prefix_len, spec_trim, spec_trim_start_up_to, ws_prefix_len};
use crate::transform::{spec_image_paths, spec_rewrite_assets, spec_rewrite_standalone};

verus! {

/// Law: trimming up to `n` columns removes only leading whitespace, at most
/// `n` characters of it, and never reaches into content: the result is
/// always a suffix of the input whose removed prefix was whitespace.
pub proof fn lemma_trim_start_up_to_law(n: int, s: Seq<char>)
    requires
        n >= 0,
    ensures
        exists|k: int|
            0 <= k && k <= n && k <= s.len() && spec_trim_start_up_to(n, s) == s.skip(k) && (
            forall|j: int| 0 <= j < k ==> is_ws(s[j])),
{
    lemma_ws_prefix_len(s);
    let k0 = if n <= ws_prefix_len(s) {
        n
    } else {
        ws_prefix_len(s)
    };
    if k0 <= 0 {
        assert(s.skip(0) =~= s);
        assert(0 <= 0 && 0 <= n && 0 <= s.len() && spec_trim_start_up_to(n, s) == s.skip(0) && (
        forall|j: int| 0 <= j < 0 ==> is_ws(s[j])));
    } else if k0 < s.len() {
        assert(spec_trim_start_up_to(n, s) == s.skip(k0));
        assert(forall|j: int| 0 <= j < k0 ==> is_ws(s[j]));
    } else {
        let k = s.len() - 1;
        assert(spec_trim_start_up_to(n, s) == s.skip(k));
        assert(forall|j: int| 0 <= j < k ==> is_ws(s[j]));
    }
}

/// Law: parsing is deterministic in text and anchor — any two blocks parsed
/// from the same raw span carry the same body text, and identical
/// identifiers with identical anchors; in particular, equal body texts with
/// no heading always receive the same `^` content-hash anchor.
pub proof fn lemma_anchor_deterministic(b1: Block, b2: Block, span: Seq<char>)
    requires
        parsed_from(b1, span),
        parsed_from(b2, span),
    ensures
        b1.text@ == b2.text@,
        match (b1.id, b2.id) {
            (Option::Some(i1), Option::Some(i2)) => i1.logseq_id@ == i2.logseq_id@
                && i1.obsdn_id@ == i2.obsdn_id@,
            (Option::None, Option::None) => true,
            _ => false,
        },
{
}

/// Law: an identifier registered under an established (trimmed) page title
/// resolves to a reference owned by that title; its rendered link omits
/// the title inside the owning document and prefixes it from any other
/// document.
pub proof fn lemma_ref_round_trip(
    refs: Map<Seq<char>, RefV>,
    key: Seq<char>,
    title: Seq<char>,
    anchor: Seq<char>,
)
    requires
        title.len() > 0,
        spec_trim(title) == title,
    ensures
        refs.insert(key, RefV { file: title, anchor }).contains_key(key),
        refs.insert(key, RefV { file: title, anchor })[key].file == title,
        spec_get_link(refs.insert(key, RefV { file: title, anchor })[key], title) == anchor,
        forall|other: Seq<char>|
            spec_trim(other) != title ==> spec_get_link(
                refs.insert(key, RefV { file: title, anchor })[key],
                other,
            ) == title + anchor,
{
}

/// No suffix of `s` starts an image reference.
pub open spec fn image_free(s: Seq<char>) -> bool {
    forall|i: int| 0 <= i <= s.len() ==> spec_image_pre(#[trigger] s.skip(i)) is None
}

/// An image-free text passes through the asset pass unchanged and
/// schedules no copies.
pub proof fn lemma_assets_noop<D: Data>(s: Seq<char>, d: D)
    requires
        image_free(s),
    ensures
        spec_rewrite_assets(s, d) == s,
        spec_image_paths(s) == Seq::<Seq<char>>::empty(),
    decreases s.len(),
{
    if s.len() == 0 {
    } else {
        assert(s.skip(0) == s);
        assert(spec_image_pre(s) is None);
        assert forall|i: int| 0 <= i <= s.drop_first().len() implies spec_image_pre(
            #[trigger] s.drop_first().skip(i),
        ) is None by {
            assert(s.drop_first().skip(i) =~= s.skip(i + 1));
        }
        lemma_assets_noop(s.drop_first(), d);
        assert(seq![s[0]] + s.drop_first() =~= s);
    }
}

/// Law: when a text holds exactly one image reference, the asset pass
/// hands its path to the collaborator exactly once and splices the
/// returned path back verbatim, leaving the alt text and everything around
/// the reference untouched.
pub proof fn lemma_single_asset_rewrite<D: Data>(s: Seq<char>, d: D, m: ImgM)
    requires
        spec_image_pre(s) == Option::Some(m),
        0 < m.path_start <= m.path_end < m.end <= s.len(),
        image_free(s.skip(m.end)),
    ensures
        spec_image_paths(s) == seq![s.subrange(m.path_start, m.path_end)],
        spec_rewrite_assets(s, d) == s.take(m.path_start) + d.copy_dest(
            s.subrange(m.path_start, m.path_end),
        ) + s.subrange(m.path_end, m.end) + s.skip(m.end),
{
    lemma_assets_noop(s.skip(m.end), d);
    assert(seq![s.subrange(m.path_start, m.path_end)] + Seq::<Seq<char>>::empty() =~= seq![
        s.subrange(m.path_start, m.path_end),
    ]);
}

/// Law: a standalone identifier reference whose identifier the registry
/// does not know is emitted byte-for-byte unchanged by the
/// standalone-reference pass — an unresolved reference is a no-op.
pub proof fn lemma_unresolved_standalone_noop(
    s: Seq<char>,
    refs: Map<Seq<char>, RefV>,
    title: Seq<char>,
)
    requires
        forall|i: int|
            0 <= i <= s.len() ==> (spec_standalone_pre(#[trigger] s.skip(i))
                ==> !refs.contains_key(s.skip(i).subrange(3, 39))),
    ensures
        spec_rewrite_standalone(s, refs, title) == s,
    decreases s.len(),
{
    if s.len() == 0 {
    } else if spec_standalone_pre(s) && 41 <= s.len() {
        assert(s.skip(0) =~= s);
        assert(spec_standalone_pre(s.skip(0)));
        assert(!refs.contains_key(s.subrange(3, 39))) by {
            assert(s.skip(0).subrange(3, 39) == s.subrange(3, 39));
        }
        assert forall|i: int|
            0 <= i <= s.skip(41).len() && spec_standalone_pre(
                #[trigger] s.skip(41).skip(i),
            ) implies !refs.contains_key(s.skip(41).skip(i).subrange(3, 39)) by {
            assert(s.skip(41).skip(i) =~= s.skip(41 + i));
        }
        lemma_unresolved_standalone_noop(s.skip(41), refs, title);
        assert(s.take(41) + s.skip(41) =~= s);
    } else {
        assert(s.skip(0) =~= s);
        assert forall|i: int|
            0 <= i <= s.drop_first().len() && spec_standalone_pre(
                #[trigger] s.drop_first().skip(i),
            ) implies !refs.contains_key(s.drop_first().skip(i).subrange(3, 39)) by {
            assert(s.drop_first().skip(i) =~= s.skip(i + 1));
        }
        lemma_unresolved_standalone_noop(s.drop_first(), refs, title);
        assert(seq![s[0]] + s.drop_first() =~= s);
    }
}

} // verus!
