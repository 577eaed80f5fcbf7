//! The identifier registry: a persistent mapping from a source-dialect block
//! identifier to its target-dialect reference, together with the collaborator
//! interface the parse and transform passes talk to.

use vstd::prelude::*;
use vstd::string::StrSliceExecFns;
use vstd::string::StringExecFns;
use crate::text::{find_char, find_char_from, spec_trim, str_eq, trim};

verus! {

/// A block identifier: the opaque token naming a block in the source dialect
/// together with the anchor computed for the target dialect.
#[derive(Debug)]
pub struct Id {
    pub logseq_id: String,
    pub obsdn_id: String,
}

impl Clone for Id {
    fn clone(&self) -> (r: Self)
        ensures
            r == *self,
    {
        Id { logseq_id: self.logseq_id.clone(), obsdn_id: self.obsdn_id.clone() }
    }
}

/// Mathematical model of a registry entry.
#[verifier::ext_equal]
pub ghost struct RefV {
    pub file: Seq<char>,
    pub anchor: Seq<char>,
}

/// A registry entry: the title of the document that owns the block, and the
/// block's target-dialect anchor.
#[derive(Debug)]
pub struct Ref {
    pub file: String,
    pub id: String,
}

impl Clone for Ref {
    fn clone(&self) -> (r: Self)
        ensures
            r == *self,
    {
        Ref { file: self.file.clone(), id: self.id.clone() }
    }
}

impl View for Ref {
    type V = RefV;

    open spec fn view(&self) -> RefV {
        RefV { file: self.file@, anchor: self.id@ }
    }
}

/// How a registry entry renders as a link target: the anchor alone inside the
/// owning document, the title followed by the anchor from anywhere else.
pub open spec fn spec_get_link(r: RefV, curr_title: Seq<char>) -> Seq<char> {
    if r.file == spec_trim(curr_title) {
        r.anchor
    } else {
        r.file + r.anchor
    }
}

impl Ref {
    pub fn get_link(&self, curr_title: &str) -> (r: String)
        ensures
            r@ == spec_get_link(self@, curr_title@),
    {
        if str_eq(self.file.as_str(), trim(curr_title)) {
            self.id.clone()
        } else {
            let mut s = self.file.clone();
            s.append(self.id.as_str());
            s
        }
    }
}

/// The persisted registry: an ordered list of (source identifier, entry)
/// pairs, later entries overriding earlier ones for the same identifier.
pub struct RefsFile {
    pub refs: Vec<(String, Ref)>,
}

/// The mapping a list of registry entries denotes: a later pair wins over an
/// earlier pair with the same key.
pub open spec fn entries_map(s: Seq<(String, Ref)>) -> Map<Seq<char>, RefV>
    decreases s.len(),
{
    if s.len() == 0 {
        Map::empty()
    } else {
        entries_map(s.drop_last()).insert(s.last().0@, s.last().1@)
    }
}

pub proof fn lemma_entries_map_last_match(s: Seq<(String, Ref)>, k: Seq<char>, i: int)
    requires
        0 <= i < s.len(),
        s[i].0@ == k,
        forall|j: int| i < j < s.len() ==> s[j].0@ != k,
    ensures
        entries_map(s).contains_key(k),
        entries_map(s)[k] == s[i].1@,
    decreases s.len(),
{
    if i == s.len() - 1 {
    } else {
        assert(s.last().0@ != k);
        assert(s.drop_last()[i] == s[i]);
        assert forall|j: int| i < j < s.drop_last().len() implies s.drop_last()[j].0@ != k by {
            assert(s.drop_last()[j] == s[j]);
        }
        lemma_entries_map_last_match(s.drop_last(), k, i);
    }
}

pub proof fn lemma_entries_map_no_match(s: Seq<(String, Ref)>, k: Seq<char>)
    requires
        forall|j: int| 0 <= j < s.len() ==> s[j].0@ != k,
    ensures
        !entries_map(s).contains_key(k),
    decreases s.len(),
{
    if s.len() > 0 {
        assert forall|j: int| 0 <= j < s.drop_last().len() implies s.drop_last()[j].0@ != k by {
            assert(s.drop_last()[j] == s[j]);
        }
        lemma_entries_map_no_match(s.drop_last(), k);
    }
}

impl RefsFile {
    pub open spec fn map_view(self) -> Map<Seq<char>, RefV> {
        entries_map(self.refs@)
    }

    pub fn empty() -> (r: RefsFile)
        ensures
            r.map_view() == Map::<Seq<char>, RefV>::empty(),
            r.refs@.len() == 0,
    {
        RefsFile { refs: Vec::new() }
    }

    /// Records `value` under `key`, overriding any earlier entry for `key`.
    pub fn insert(&mut self, key: String, value: Ref)
        ensures
            final(self).map_view() == old(self).map_view().insert(key@, value@),
    {
        proof {
            assert(self.refs@.push((key, value)).drop_last() =~= self.refs@);
        }
        self.refs.push((key, value));
    }

    /// Looks `key` up; the most recently inserted entry wins.
    pub fn get(&self, key: &str) -> (r: Option<Ref>)
        ensures
            match r {
                Some(e) => self.map_view().contains_key(key@) && e@ == self.map_view()[key@],
                None => !self.map_view().contains_key(key@),
            },
    {
        let n = self.refs.len();
        let mut i: usize = n;
        while i > 0
            invariant
                0 <= i <= n,
                n == self.refs.len(),
                forall|j: int| i <= j < n ==> self.refs@[j].0@ != key@,
            decreases i,
        {
            i -= 1;
            if str_eq(self.refs[i].0.as_str(), key) {
                let e = self.refs[i].1.clone();
                proof {
                    lemma_entries_map_last_match(self.refs@, key@, i as int);
                }
                return Some(e);
            }
        }
        proof {
            lemma_entries_map_no_match(self.refs@, key@);
        }
        None
    }
}

/// The capability set the parse and transform passes use: establish the
/// current page title, schedule an asset copy, and register or query block
/// identifiers. The caller supplies the implementation.
pub trait Data: Sized {
    /// The current page title, as established by `page_title`.
    spec fn title_view(&self) -> Seq<char>;

    /// The registry contents.
    spec fn refs_view(&self) -> Map<Seq<char>, RefV>;

    /// The asset paths handed to `copy_asset` so far, in call order.
    spec fn assets_view(&self) -> Seq<Seq<char>>;

    /// What `copy_asset` rewrites a given path to.
    spec fn copy_dest(&self, path: Seq<char>) -> Seq<char>;

    /// Establishes the current output document context.
    fn page_title(&mut self, title: &str)
        ensures
            final(self).title_view() == spec_trim(title@),
            final(self).refs_view() == old(self).refs_view(),
            final(self).assets_view() == old(self).assets_view(),
            forall|p: Seq<char>| final(self).copy_dest(p) == old(self).copy_dest(p),
    ;

    /// Schedules copying the referenced file and returns the rewritten
    /// relative path for the target document.
    fn copy_asset(&mut self, path: &str) -> (r: String)
        ensures
            r@ == old(self).copy_dest(path@),
            final(self).assets_view() == old(self).assets_view().push(path@),
            final(self).title_view() == old(self).title_view(),
            final(self).refs_view() == old(self).refs_view(),
            forall|p: Seq<char>| final(self).copy_dest(p) == old(self).copy_dest(p),
    ;

    /// Records the identifier under the current page title; skipped silently
    /// when no page title is established.
    fn register_id(&mut self, id: &Id)
        ensures
            old(self).title_view().len() == 0 ==> final(self).refs_view() == old(
                self,
            ).refs_view(),
            old(self).title_view().len() > 0 ==> final(self).refs_view() == old(
                self,
            ).refs_view().insert(
                id.logseq_id@,
                RefV { file: old(self).title_view(), anchor: id.obsdn_id@ },
            ),
            final(self).title_view() == old(self).title_view(),
            final(self).assets_view() == old(self).assets_view(),
            forall|p: Seq<char>| final(self).copy_dest(p) == old(self).copy_dest(p),
    ;

    /// Read-only registry lookup.
    fn query_id(&self, logseq_id: &str) -> (r: Option<Ref>)
        ensures
            match r {
                Some(e) => self.refs_view().contains_key(logseq_id@) && e@ == self.refs_view()[
                    logseq_id@],
                None => !self.refs_view().contains_key(logseq_id@),
            },
    ;

    /// The title established by the most recent `page_title` call.
    fn curr_title(&self) -> (r: String)
        ensures
            r@ == self.title_view(),
    ;
}

/// Where an asset path is rewritten to: everything after the first path
/// separator (the source dialect keeps assets under one folder that the
/// target vault does not reproduce), or the path unchanged if it has none.
pub open spec fn spec_asset_dest(p: Seq<char>) -> Seq<char> {
    if find_char(p, '/') < p.len() {
        p.skip(find_char(p, '/') + 1)
    } else {
        p
    }
}

/// The concrete conversion context: the current page title, the registry, and
/// the list of scheduled asset copies.
pub struct Vault {
    pub page: String,
    pub refs_file: RefsFile,
    pub assets: Vec<String>,
}

impl Vault {
    pub fn new(refs_file: RefsFile) -> (r: Vault)
        ensures
            r.title_view().len() == 0,
            r.refs_view() == refs_file.map_view(),
            r.assets_view() == Seq::<Seq<char>>::empty(),
    {
        let r = Vault { page: String::new(), refs_file, assets: Vec::new() };
        proof {
            assert(r.assets.deep_view() =~= Seq::<Seq<char>>::empty());
        }
        r
    }
}

impl Data for Vault {
    open spec fn title_view(&self) -> Seq<char> {
        self.page@
    }

    open spec fn refs_view(&self) -> Map<Seq<char>, RefV> {
        self.refs_file.map_view()
    }

    open spec fn assets_view(&self) -> Seq<Seq<char>> {
        self.assets.deep_view()
    }

    open spec fn copy_dest(&self, path: Seq<char>) -> Seq<char> {
        spec_asset_dest(path)
    }

    fn page_title(&mut self, title: &str) {
        self.page = trim(title).to_owned();
    }

    fn copy_asset(&mut self, path: &str) -> (r: String) {
        let n = path.unicode_len();
        let slash = find_char_from(path, '/', 0);
        proof {
            assert(path@.skip(0) =~= path@);
        }
        let dest = if slash < n {
            path.substring_char(slash + 1, n).to_owned()
        } else {
            path.to_owned()
        };
        let owned = path.to_owned();
        let ghost pre = self.assets.deep_view();
        self.assets.push(owned);
        proof {
            assert(self.assets.deep_view() =~= pre.push(path@));
        }
        dest
    }

    fn register_id(&mut self, id: &Id) {
        if self.page.as_str().unicode_len() > 0 {
            let key = id.logseq_id.clone();
            let entry = Ref { file: self.page.clone(), id: id.obsdn_id.clone() };
            self.refs_file.insert(key, entry);
        }
    }

    fn query_id(&self, logseq_id: &str) -> (r: Option<Ref>) {
        self.refs_file.get(logseq_id)
    }

    fn curr_title(&self) -> (r: String) {
        self.page.clone()
    }
}

} // verus!
