//! File sources for the dependency-graph builder: a reference to a file is
//! resolved to a canonical identity and its raw text is fetched. The builder
//! consumes any [`FileFetcher`]; this module supplies an in-memory one.

use vstd::prelude::*;

verus! {

use vstd::string::StringExecFns;
use crate::text::str_eq;

/// A fetched file: its canonical identity and its raw text.
pub struct FetchedFile {
    pub name: String,
    pub content: String,
}

impl FetchedFile {
    pub fn new(name: String, content: String) -> (r: FetchedFile)
        ensures
            r.name == name,
            r.content == content,
    {
        FetchedFile { name, content }
    }
}

/// A reference to a file: either searched globally, or resolved relative to
/// the file that mentions it.
#[derive(Debug, Clone)]
pub enum FileName {
    Global(String),
    LocalTo(String, String),
}

/// Specification-level value of a [`FileName`].
pub enum FileNameModel {
    Global(Seq<char>),
    LocalTo(Seq<char>, Seq<char>),
}

impl View for FileName {
    type V = FileNameModel;

    open spec fn view(&self) -> FileNameModel {
        match self {
            FileName::Global(g) => FileNameModel::Global(g@),
            FileName::LocalTo(l, t) => FileNameModel::LocalTo(l@, t@),
        }
    }
}

/// How a [`FileName`] is rendered inside error messages: `<name>` for the
/// global form, `"name" (local to parent)` for the local form.
pub open spec fn fname_display(n: FileNameModel) -> Seq<char> {
    match n {
        FileNameModel::Global(g) => "<"@ + g + ">"@,
        FileNameModel::LocalTo(l, t) => "\""@ + l + "\" (local to "@ + t + ")"@,
    }
}

impl FileName {
    /// Renders the reference as it appears in error messages; see
    /// [`fname_display`].
    pub fn describe(&self) -> (r: String)
        ensures
            r@ == fname_display(self@),
    {
        match self {
            FileName::Global(g) => {
                let mut s = String::from_str("<");
                s.append(g.as_str());
                s.append(">");
                s
            },
            FileName::LocalTo(l, t) => {
                let mut s = String::from_str("\"");
                s.append(l.as_str());
                s.append("\" (local to ");
                s.append(t.as_str());
                s.append(")");
                s
            },
        }
    }
}

/// A source of files, consumed by the dependency-graph builder.
///
/// The three spec functions are the fetcher's model: the finite set of
/// identities it can ever resolve, the identity a reference resolves to, and
/// the text behind a reference. A verified implementation overrides them and
/// proves the two methods against them; an implementation outside the
/// verified world provides only the two methods and leaves the defaults,
/// which promise nothing. The builder's contracts, and in particular its
/// termination, rely on a fetcher behaving as a pure lookup: neither call
/// changes the fetcher's observable state.
pub trait FileFetcher: Sized {
    /// The set of identities this fetcher can ever resolve.
    open spec fn ids(&self) -> Set<Seq<char>> {
        Set::empty()
    }

    /// The identity that `name` resolves to, if any.
    open spec fn id_of(&self, name: FileNameModel) -> Option<Seq<char>> {
        None
    }

    /// The raw text behind `name`; meaningful only when `id_of(name)` is
    /// `Some`.
    open spec fn text_of(&self, name: FileNameModel) -> Seq<char> {
        Seq::empty()
    }

    /// Returns a source as well as the resolved name. The resolvable
    /// identities form a finite set that covers every resolved name.
    fn fetch(&mut self, name: &FileName) -> (r: Option<FetchedFile>)
        ensures
            *final(self) == *old(self),
            old(self).ids().finite(),
            match r {
                Some(f) => old(self).id_of(name@) == Some(f.name@) && old(self).ids().contains(
                    f.name@,
                ) && f.content@ == old(self).text_of(name@),
                None => old(self).id_of(name@) is None,
            },
    ;

    /// Tries to find the file and if it does, resolve a unique name.
    fn resolve_name(&mut self, name: &FileName) -> (r: Option<String>)
        ensures
            *final(self) == *old(self),
            old(self).ids().finite(),
            match r {
                Some(s) => old(self).id_of(name@) == Some(s@) && old(self).ids().contains(s@),
                None => old(self).id_of(name@) is None,
            },
    ;
}

/// The value behind `key` in an association list, later entries shadowing
/// earlier ones.
pub open spec fn assoc(entries: Seq<(Seq<char>, Seq<char>)>, key: Seq<char>) -> Option<Seq<char>>
    decreases entries.len(),
{
    if entries.len() == 0 {
        None
    } else if entries.last().0 == key {
        Some(entries.last().1)
    } else {
        assoc(entries.drop_last(), key)
    }
}

/// `assoc` finds the match closest to the end.
proof fn lemma_assoc_at(entries: Seq<(Seq<char>, Seq<char>)>, key: Seq<char>, i: int)
    requires
        0 <= i < entries.len(),
        entries[i].0 == key,
        forall|k: int| i < k < entries.len() ==> (#[trigger] entries[k]).0 != key,
    ensures
        assoc(entries, key) == Some(entries[i].1),
    decreases entries.len(),
{
    if i < entries.len() - 1 {
        assert(entries.drop_last()[i] == entries[i]);
        assert(forall|k: int|
            i < k < entries.len() - 1 ==> entries.drop_last()[k] == #[trigger] entries[k]);
        lemma_assoc_at(entries.drop_last(), key, i);
    }
}

/// `assoc` finds nothing when no entry has the key.
proof fn lemma_assoc_none(entries: Seq<(Seq<char>, Seq<char>)>, key: Seq<char>)
    requires
        forall|k: int| 0 <= k < entries.len() ==> (#[trigger] entries[k]).0 != key,
    ensures
        assoc(entries, key) is None,
    decreases entries.len(),
{
    if entries.len() > 0 {
        lemma_assoc_none(entries.drop_last(), key);
    }
}

/// A key with a match lies in the key set.
proof fn lemma_assoc_some_in_keys(entries: Seq<(Seq<char>, Seq<char>)>, key: Seq<char>)
    requires
        assoc(entries, key) is Some,
    ensures
        entries.map_values(|e: (Seq<char>, Seq<char>)| e.0).to_set().contains(key),
    decreases entries.len(),
{
    let keys = entries.map_values(|e: (Seq<char>, Seq<char>)| e.0);
    if entries.last().0 == key {
        assert(keys[entries.len() - 1] == key);
        assert(keys.contains(key));
    } else {
        lemma_assoc_some_in_keys(entries.drop_last(), key);
        let keys0 = entries.drop_last().map_values(|e: (Seq<char>, Seq<char>)| e.0);
        assert(keys0.contains(key));
        let w = choose|w: int| 0 <= w < keys0.len() && keys0[w] == key;
        assert(keys[w] == key);
        assert(keys.contains(key));
    }
}

/// The file name a [`MemoryFetcher`] looks up for a reference: the bare name,
/// for either form of reference.
pub open spec fn mem_key(name: FileNameModel) -> Seq<char> {
    match name {
        FileNameModel::Global(g) => g,
        FileNameModel::LocalTo(l, _) => l,
    }
}

/// A fetcher over an in-memory table of named texts. It resolves a reference
/// by its bare name; the parent of a local reference plays no role, as the
/// table has no directory structure.
pub struct MemoryFetcher(Vec<(String, String)>);

impl MemoryFetcher {
    /// The table as specification data, in insertion order.
    pub closed spec fn store(&self) -> Seq<(Seq<char>, Seq<char>)> {
        Seq::new(self.0@.len(), |i: int| (self.0@[i].0@, self.0@[i].1@))
    }

    pub fn new() -> (r: MemoryFetcher)
        ensures
            r.store() == Seq::<(Seq<char>, Seq<char>)>::empty(),
            forall|name: FileNameModel| #[trigger] r.id_of(name) is None,
    {
        let r = MemoryFetcher(Vec::new());
        proof {
            assert(r.store() =~= Seq::<(Seq<char>, Seq<char>)>::empty());
        }
        r
    }

    /// Adds a file under `name`; a later entry for the same name replaces an
    /// earlier one.
    pub fn add_file(&mut self, name: &str, data: &str)
        ensures
            final(self).store() == old(self).store().push((name@, data@)),
            forall|m: FileNameModel|
                mem_key(m) == name@ ==> #[trigger] final(self).id_of(m) == Some(name@)
                    && final(self).text_of(m) == data@,
            forall|m: FileNameModel|
                mem_key(m) != name@ ==> #[trigger] final(self).id_of(m) == old(self).id_of(m)
                    && final(self).text_of(m) == old(self).text_of(m),
    {
        self.0.push((name.to_owned(), data.to_owned()));
        proof {
            assert(self.store() =~= old(self).store().push((name@, data@)));
            assert(self.store().drop_last() =~= old(self).store());
        }
    }
}

impl FileFetcher for MemoryFetcher {
    closed spec fn ids(&self) -> Set<Seq<char>> {
        self.store().map_values(|e: (Seq<char>, Seq<char>)| e.0).to_set()
    }

    closed spec fn id_of(&self, name: FileNameModel) -> Option<Seq<char>> {
        if assoc(self.store(), mem_key(name)) is Some {
            Some(mem_key(name))
        } else {
            None
        }
    }

    closed spec fn text_of(&self, name: FileNameModel) -> Seq<char> {
        match assoc(self.store(), mem_key(name)) {
            Some(t) => t,
            None => Seq::empty(),
        }
    }

    fn fetch(&mut self, name: &FileName) -> (r: Option<FetchedFile>) {
        let key: &str = match name {
            FileName::Global(g) => g.as_str(),
            FileName::LocalTo(l, _) => l.as_str(),
        };
        proof {
            assert(key@ == mem_key(name@));
        }
        let n = self.0.len();
        let mut i: usize = n;
        while i > 0
            invariant
                0 <= i <= n,
                n == self.0.len(),
                key@ == mem_key(name@),
                forall|k: int| i <= k < n ==> (#[trigger] self.store()[k]).0 != key@,
            decreases i,
        {
            i = i - 1;
            if str_eq(self.0[i].0.as_str(), key) {
                let found_name = self.0[i].0.clone();
                let found_data = self.0[i].1.clone();
                proof {
                    broadcast use vstd::seq_lib::seq_to_set_is_finite;

                    lemma_assoc_at(self.store(), key@, i as int);
                    lemma_assoc_some_in_keys(self.store(), key@);
                }
                return Some(FetchedFile::new(found_name, found_data));
            }
        }
        proof {
            broadcast use vstd::seq_lib::seq_to_set_is_finite;

            lemma_assoc_none(self.store(), key@);
        }
        None
    }

    fn resolve_name(&mut self, name: &FileName) -> (r: Option<String>) {
        let key: &str = match name {
            FileName::Global(g) => g.as_str(),
            FileName::LocalTo(l, _) => l.as_str(),
        };
        proof {
            assert(key@ == mem_key(name@));
        }
        let n = self.0.len();
        let mut i: usize = n;
        while i > 0
            invariant
                0 <= i <= n,
                n == self.0.len(),
                key@ == mem_key(name@),
                forall|k: int| i <= k < n ==> (#[trigger] self.store()[k]).0 != key@,
            decreases i,
        {
            i = i - 1;
            if str_eq(self.0[i].0.as_str(), key) {
                proof {
                    broadcast use vstd::seq_lib::seq_to_set_is_finite;

                    lemma_assoc_at(self.store(), key@, i as int);
                    lemma_assoc_some_in_keys(self.store(), key@);
                }
                return Some(key.to_owned());
            }
        }
        proof {
            broadcast use vstd::seq_lib::seq_to_set_is_finite;

            lemma_assoc_none(self.store(), key@);
        }
        None
    }
}

} // verus!
