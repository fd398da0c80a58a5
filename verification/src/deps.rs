//! The dependency graph and its builder: starting from a seed reference, all
//! transitively referenced files are discovered, and each file's text is
//! recorded together with the ordered insertion points where other files are
//! to be spliced in.

use vstd::prelude::*;

verus! {

use vstd::set_lib::*;
use vstd::seq_lib::*;
use vstd::string::StringExecFns;
use crate::text::{
    lines_of, str_eq, replace_bs, replace_backslashes, str_starts_with,
};
use crate::process::{
    ParseLine, CommandModel, IncludePoint, process_spec, include_points_of, Source,
};
use crate::filefetcher::{FileFetcher, FileName, FileNameModel, FetchedFile, fname_display};

/// An object specifying where- and with what- to insert a dependency.
#[derive(Debug)]
pub struct InsertionPoint {
    /// The line number of the insertion point.
    pub index: usize,
    /// The file name of the source that should be included.
    pub fname: String,
}

/// Specification-level value of an [`InsertionPoint`].
pub struct InsertionPointModel {
    pub index: int,
    pub fname: Seq<char>,
}

impl View for InsertionPoint {
    type V = InsertionPointModel;

    open spec fn view(&self) -> InsertionPointModel {
        InsertionPointModel { index: self.index as int, fname: self.fname@ }
    }
}

impl DeepView for InsertionPoint {
    type V = InsertionPointModel;

    open spec fn deep_view(&self) -> InsertionPointModel {
        self.view()
    }
}

impl InsertionPoint {
    /// Creates a new [`InsertionPoint`].
    pub fn new(index: usize, fname: String) -> (r: InsertionPoint)
        ensures
            r.index == index,
            r.fname == fname,
    {
        InsertionPoint { index, fname }
    }
}

/// The actual source and insertion points (see [`InsertionPoint`]) belonging
/// to a file.
#[derive(Debug)]
pub struct FileData {
    /// The utf-8 encoded string of the source.
    pub source: String,
    /// A list of insertion points (see [`InsertionPoint`]).
    pub points: Vec<InsertionPoint>,
}

/// Specification-level value of a [`FileData`].
pub struct FileDataModel {
    pub source: Seq<char>,
    pub points: Seq<InsertionPointModel>,
}

impl View for FileData {
    type V = FileDataModel;

    open spec fn view(&self) -> FileDataModel {
        FileDataModel { source: self.source@, points: self.points.deep_view() }
    }
}

/// The entries of a dependency graph, as specification data: identities with
/// each file's record, in discovery order.
pub type Entries = Seq<(Seq<char>, FileDataModel)>;

/// The record stored under `key`, taking the first entry with that key.
pub open spec fn tree_lookup(entries: Entries, key: Seq<char>) -> Option<FileDataModel>
    decreases entries.len(),
{
    if entries.len() == 0 {
        None
    } else if entries[0].0 == key {
        Some(entries[0].1)
    } else {
        tree_lookup(entries.drop_first(), key)
    }
}

/// Whether some entry has the key.
pub open spec fn tree_contains(entries: Entries, key: Seq<char>) -> bool {
    tree_lookup(entries, key) is Some
}

/// The keys of the entries, in order.
pub open spec fn keys_of(entries: Entries) -> Seq<Seq<char>> {
    entries.map_values(|e: (Seq<char>, FileDataModel)| e.0)
}

/// The set of keys of the entries.
pub open spec fn key_set(entries: Entries) -> Set<Seq<char>> {
    keys_of(entries).to_set()
}

/// No two entries share a key.
pub open spec fn keys_unique(entries: Entries) -> bool {
    forall|i: int, j: int|
        0 <= i < j < entries.len() ==> (#[trigger] entries[i]).0 != (#[trigger] entries[j]).0
}

/// Every entry with key `key` replaced by `(key, fd)`, in place.
pub open spec fn replace_entry(entries: Entries, key: Seq<char>, fd: FileDataModel) -> Entries {
    Seq::new(
        entries.len(),
        |i: int|
            if entries[i].0 == key {
                (key, fd)
            } else {
                entries[i]
            },
    )
}

/// What inserting into the graph does: replace the record behind an existing
/// key, or append a new entry.
pub open spec fn tree_insert(entries: Entries, key: Seq<char>, fd: FileDataModel) -> Entries {
    if tree_contains(entries, key) {
        replace_entry(entries, key, fd)
    } else {
        entries.push((key, fd))
    }
}

proof fn lemma_contains_iff(entries: Entries, key: Seq<char>)
    ensures
        tree_contains(entries, key) <==> exists|i: int|
            0 <= i < entries.len() && (#[trigger] entries[i]).0 == key,
    decreases entries.len(),
{
    if entries.len() > 0 {
        lemma_contains_iff(entries.drop_first(), key);
        if entries[0].0 == key {
        } else if tree_contains(entries, key) {
            let i = choose|i: int|
                0 <= i < entries.drop_first().len() && (#[trigger] entries.drop_first()[i]).0
                    == key;
            assert(entries[i + 1].0 == key);
        } else if exists|i: int| 0 <= i < entries.len() && (#[trigger] entries[i]).0 == key {
            let i = choose|i: int| 0 <= i < entries.len() && (#[trigger] entries[i]).0 == key;
            assert(entries.drop_first()[i - 1].0 == key);
        }
    }
}

/// `tree_lookup` finds the first matching entry.
pub proof fn lemma_lookup_at(entries: Entries, key: Seq<char>, i: int)
    requires
        0 <= i < entries.len(),
        entries[i].0 == key,
        forall|k: int| 0 <= k < i ==> (#[trigger] entries[k]).0 != key,
    ensures
        tree_lookup(entries, key) == Some(entries[i].1),
    decreases entries.len(),
{
    if i > 0 {
        assert(forall|k: int|
            0 <= k < i - 1 ==> (#[trigger] entries.drop_first()[k]).0 != key);
        assert(entries.drop_first()[i - 1] == entries[i]);
        lemma_lookup_at(entries.drop_first(), key, i - 1);
    }
}

pub proof fn lemma_lookup_none(entries: Entries, key: Seq<char>)
    requires
        forall|k: int| 0 <= k < entries.len() ==> (#[trigger] entries[k]).0 != key,
    ensures
        tree_lookup(entries, key) is None,
    decreases entries.len(),
{
    if entries.len() > 0 {
        lemma_lookup_none(entries.drop_first(), key);
    }
}

/// A successful lookup hands back the record of some entry with that key.
pub proof fn lemma_lookup_in(entries: Entries, key: Seq<char>)
    requires
        tree_lookup(entries, key) is Some,
    ensures
        exists|i: int|
            0 <= i < entries.len() && (#[trigger] entries[i]).0 == key && entries[i].1
                == tree_lookup(entries, key).unwrap(),
    decreases entries.len(),
{
    if entries.len() > 0 {
        if entries[0].0 == key {
            assert(entries[0].0 == key && entries[0].1 == tree_lookup(entries, key).unwrap());
        } else {
            lemma_lookup_in(entries.drop_first(), key);
            let i = choose|i: int|
                0 <= i < entries.drop_first().len() && (#[trigger] entries.drop_first()[i]).0
                    == key && entries.drop_first()[i].1 == tree_lookup(
                    entries.drop_first(),
                    key,
                ).unwrap();
            assert(entries[i + 1].0 == key && entries[i + 1].1 == tree_lookup(
                entries,
                key,
            ).unwrap());
        }
    }
}

/// A key present in a prefix is present in the whole.
proof fn lemma_prefix_contains(t1: Entries, t2: Entries, key: Seq<char>)
    requires
        t1.is_prefix_of(t2),
        tree_contains(t1, key),
    ensures
        tree_contains(t2, key),
{
    lemma_contains_iff(t1, key);
    lemma_contains_iff(t2, key);
    let i = choose|i: int| 0 <= i < t1.len() && (#[trigger] t1[i]).0 == key;
    assert(t2[i] == t2.subrange(0, t1.len() as int)[i]);
}

/// The key set only grows along a prefix extension.
proof fn lemma_prefix_keyset(t1: Entries, t2: Entries)
    requires
        t1.is_prefix_of(t2),
    ensures
        key_set(t1).subset_of(key_set(t2)),
{
    assert forall|k: Seq<char>| key_set(t1).contains(k) implies key_set(t2).contains(k) by {
        let i = choose|i: int| 0 <= i < keys_of(t1).len() && keys_of(t1)[i] == k;
        assert(t1[i] == t2.subrange(0, t1.len() as int)[i]);
        assert(keys_of(t2)[i] == k);
    }
}

/// Membership in the key set is the same as having an entry.
pub proof fn lemma_keyset_contains(entries: Entries, key: Seq<char>)
    ensures
        key_set(entries).contains(key) <==> tree_contains(entries, key),
{
    lemma_contains_iff(entries, key);
    if key_set(entries).contains(key) {
        let i = choose|i: int| 0 <= i < keys_of(entries).len() && keys_of(entries)[i] == key;
        assert(entries[i].0 == key);
    }
    if tree_contains(entries, key) {
        let i = choose|i: int| 0 <= i < entries.len() && (#[trigger] entries[i]).0 == key;
        assert(keys_of(entries)[i] == key);
        assert(keys_of(entries).contains(key));
    }
}

/// Replacing a record leaves the keys unchanged.
proof fn lemma_replace_keys(entries: Entries, key: Seq<char>, fd: FileDataModel)
    ensures
        keys_of(replace_entry(entries, key, fd)) == keys_of(entries),
{
    assert(keys_of(replace_entry(entries, key, fd)) =~= keys_of(entries));
}

/// The reference that a recognized command targets, resolved against the
/// identity of the file the command stands in.
pub open spec fn target_name(cur: Seq<char>, c: CommandModel) -> FileNameModel {
    match c {
        CommandModel::Include(f) => FileNameModel::Global(f),
        CommandModel::IncludeLocal(f) => FileNameModel::LocalTo(f, cur),
    }
}

/// Whether some recorded point already targets `fname`.
pub open spec fn points_contain(points: Seq<InsertionPointModel>, fname: Seq<char>) -> bool {
    exists|j: int| 0 <= j < points.len() && (#[trigger] points[j]).fname == fname
}

/// The error text for an unresolvable reference.
pub open spec fn notfound_msg(n: FileNameModel) -> Seq<char> {
    "file not found "@ + fname_display(n)
}

/// What building from `name` over `tree` yields: the graph extended with
/// `name`'s file and everything transitively reachable from it, or the first
/// error. This is the specification that [`generate_deptree`] implements.
///
/// A file is fetched, a placeholder entry is recorded before its directives
/// are scanned (this is what makes cycles terminate), and the placeholder is
/// replaced by the finished record after the scan.
pub open spec fn build_spec<F: FileFetcher, P: ParseLine>(
    f: F,
    p: P,
    name: FileNameModel,
    tree: Entries,
) -> Result<Entries, Seq<char>>
    decreases f.ids().difference(key_set(tree)).len(), 0int, 0int,
{
    match f.id_of(name) {
        None => Err(notfound_msg(name)),
        Some(id) => {
            if tree_contains(tree, id) {
                Ok(tree)
            } else if !(f.ids().finite() && f.ids().contains(id)) {
                // termination guard: a fetcher that meets the trait contract,
                // whose resolvable identities form a finite covering set,
                // never reaches this branch
                Err(notfound_msg(name))
            } else {
                let text = f.text_of(name);
                let tree1 = tree.push(
                    (id, FileDataModel { source: Seq::empty(), points: Seq::empty() }),
                );
                match process_spec(p, lines_of(text), 0) {
                    Err(e) => Err(e),
                    Ok(cmds) => {
                        proof {
                            lemma_decrease_after_push(f, tree, id);
                        }
                        match scan_spec(f, p, id, cmds, tree1, Seq::empty()) {
                            Err(e) => Err(e),
                            Ok(res) => Ok(
                                replace_entry(
                                    res.1,
                                    id,
                                    FileDataModel { source: text, points: res.0 },
                                ),
                            ),
                        }
                    },
                }
            }
        },
    }
}

/// One scan over the recognized commands of the file `cur`: each command's
/// target is resolved; a target already recorded for this file is dropped; a
/// target not yet in the graph is built recursively before the scan goes on.
pub open spec fn scan_spec<F: FileFetcher, P: ParseLine>(
    f: F,
    p: P,
    cur: Seq<char>,
    cmds: Seq<(int, CommandModel)>,
    tree: Entries,
    acc: Seq<InsertionPointModel>,
) -> Result<(Seq<InsertionPointModel>, Entries), Seq<char>>
    decreases f.ids().difference(key_set(tree)).len(), 1int, cmds.len(),
{
    if cmds.len() == 0 {
        Ok((acc, tree))
    } else {
        let subname = target_name(cur, cmds[0].1);
        match f.id_of(subname) {
            None => Err(notfound_msg(subname)),
            Some(rid) => {
                if points_contain(acc, rid) {
                    scan_spec(f, p, cur, cmds.drop_first(), tree, acc)
                } else {
                    let acc2 = acc.push(InsertionPointModel { index: cmds[0].0, fname: rid });
                    if tree_contains(tree, rid) {
                        scan_spec(f, p, cur, cmds.drop_first(), tree, acc2)
                    } else {
                        match build_spec(f, p, subname, tree) {
                            Err(e) => Err(e),
                            Ok(t2) => {
                                let t3 = if f.ids().finite() && tree.is_prefix_of(t2) {
                                    t2
                                } else {
                                    tree
                                };
                                proof {
                                    if f.ids().finite() && tree.is_prefix_of(t2) {
                                        lemma_decrease_after_extend(f, tree, t2);
                                    }
                                }
                                scan_spec(f, p, cur, cmds.drop_first(), t3, acc2)
                            },
                        }
                    }
                }
            },
        }
    }
}

/// After recording a fresh identity, fewer resolvable identities are missing
/// from the graph.
pub proof fn lemma_decrease_after_push<F: FileFetcher>(f: F, tree: Entries, id: Seq<char>)
    requires
        f.ids().finite(),
        f.ids().contains(id),
        !tree_contains(tree, id),
    ensures
        f.ids().difference(
            key_set(tree.push((id, FileDataModel { source: Seq::empty(), points: Seq::empty() }))),
        ).len() < f.ids().difference(key_set(tree)).len(),
{
    let tree1 = tree.push((id, FileDataModel { source: Seq::empty(), points: Seq::empty() }));
    lemma_keyset_contains(tree, id);
    assert(key_set(tree1) =~= key_set(tree).insert(id)) by {
        assert forall|k: Seq<char>| key_set(tree1).contains(k) implies key_set(
            tree,
        ).insert(id).contains(k) by {
            let i = choose|i: int| 0 <= i < keys_of(tree1).len() && keys_of(tree1)[i] == k;
            if i < tree.len() {
                assert(keys_of(tree)[i] == k);
            }
        }
        assert forall|k: Seq<char>| key_set(tree).insert(id).contains(k) implies key_set(
            tree1,
        ).contains(k) by {
            if k == id {
                assert(keys_of(tree1)[tree.len() as int] == id);
            } else {
                let i = choose|i: int| 0 <= i < keys_of(tree).len() && keys_of(tree)[i] == k;
                assert(keys_of(tree1)[i] == k);
            }
        }
    }
    f.ids().lemma_set_insert_diff_decreases(key_set(tree), id);
}

/// The insertion points of one record are strictly ascending by line index,
/// stay below the number of lines `nlines`, and never target the same
/// identity twice.
pub open spec fn points_wf(points: Seq<InsertionPointModel>, nlines: int) -> bool {
    &&& forall|a: int, b: int|
        0 <= a < b < points.len() ==> (#[trigger] points[a]).index < (#[trigger] points[b]).index
    &&& forall|a: int| 0 <= a < points.len() ==> 0 <= (#[trigger] points[a]).index < nlines
    &&& forall|a: int, b: int|
        0 <= a < points.len() && 0 <= b < points.len() && a != b ==> (#[trigger] points[a]).fname
            != (#[trigger] points[b]).fname
}

/// Every target of the points has an entry in the graph.
pub open spec fn points_closed(points: Seq<InsertionPointModel>, entries: Entries) -> bool {
    forall|a: int|
        0 <= a < points.len() ==> tree_contains(entries, (#[trigger] points[a]).fname)
}

/// One record is well formed with respect to the graph it sits in.
pub open spec fn file_wf(entries: Entries, fd: FileDataModel) -> bool {
    &&& points_wf(fd.points, lines_of(fd.source).len() as int)
    &&& points_closed(fd.points, entries)
}

/// The well-formedness that the builder establishes and the assembler relies
/// on: keys are unique, and every record's insertion points are ascending,
/// in range of its own line count, pairwise distinct in target, and target
/// only identities present in the graph.
pub open spec fn tree_wf(entries: Entries) -> bool {
    &&& keys_unique(entries)
    &&& forall|i: int| 0 <= i < entries.len() ==> file_wf(entries, (#[trigger] entries[i]).1)
}

/// The indices that processing hands back are ascending line numbers.
proof fn lemma_process_indices<P: ParseLine>(p: P, lines: Seq<Seq<char>>, i: int)
    ensures
        match process_spec(p, lines, i) {
            Ok(cmds) => (forall|a: int|
                0 <= a < cmds.len() ==> i <= (#[trigger] cmds[a]).0 < lines.len()) && (forall|
                a: int,
                b: int,
            |
                0 <= a < b < cmds.len() ==> (#[trigger] cmds[a]).0 < (#[trigger] cmds[b]).0),
            Err(_) => true,
        },
    decreases lines.len() - i,
{
    if 0 <= i < lines.len() {
        lemma_process_indices(p, lines, i + 1);
        match p.parse_spec(lines[i]) {
            None => {},
            Some(Ok(c)) => {
                match process_spec(p, lines, i + 1) {
                    Ok(rest) => {
                        let cmds = seq![(i, c)] + rest;
                        assert(forall|a: int|
                            1 <= a < cmds.len() ==> (#[trigger] cmds[a]) == rest[a - 1]);
                        assert(cmds[0] == (i, c));
                    },
                    Err(_) => {},
                }
            },
            Some(Err(_)) => {},
        }
    }
}

/// Unchanged keys under [`replace_entry`]: an identity has an entry after the
/// replacement exactly when it had one before.
proof fn lemma_replace_contains(entries: Entries, key: Seq<char>, fd: FileDataModel, k: Seq<char>)
    ensures
        tree_contains(replace_entry(entries, key, fd), k) <==> tree_contains(entries, k),
{
    let rep = replace_entry(entries, key, fd);
    assert(forall|i: int| 0 <= i < entries.len() ==> (#[trigger] rep[i]).0 == entries[i].0);
    lemma_contains_iff(entries, k);
    lemma_contains_iff(rep, k);
    if tree_contains(entries, k) {
        let i = choose|i: int| 0 <= i < entries.len() && (#[trigger] entries[i]).0 == k;
        assert(rep[i].0 == k);
    }
    if tree_contains(rep, k) {
        let i = choose|i: int| 0 <= i < rep.len() && (#[trigger] rep[i]).0 == k;
        assert(entries[i].0 == k);
    }
}

/// Recording a placeholder for a fresh identity keeps the graph well formed.
proof fn lemma_placeholder_wf(tree: Entries, id: Seq<char>)
    requires
        tree_wf(tree),
        !tree_contains(tree, id),
    ensures
        tree_wf(tree.push((id, FileDataModel { source: Seq::empty(), points: Seq::empty() }))),
        tree.is_prefix_of(
            tree.push((id, FileDataModel { source: Seq::empty(), points: Seq::empty() })),
        ),
{
    let placeholder = FileDataModel { source: Seq::empty(), points: Seq::empty() };
    let tree1 = tree.push((id, placeholder));
    lemma_contains_iff(tree, id);
    assert(tree.is_prefix_of(tree1)) by {
        assert(tree =~= tree1.subrange(0, tree.len() as int));
    }
    assert(forall|i: int| 0 <= i < tree.len() ==> (#[trigger] tree1[i]) == tree[i]);
    assert forall|i: int| 0 <= i < tree1.len() implies file_wf(tree1, (#[trigger] tree1[i]).1) by {
        if i < tree.len() {
            assert(file_wf(tree, tree[i].1));
            assert forall|a: int| 0 <= a < tree[i].1.points.len() implies tree_contains(
                tree1,
                (#[trigger] tree[i].1.points[a]).fname,
            ) by {
                lemma_prefix_contains(tree, tree1, tree[i].1.points[a].fname);
            }
        } else {
            assert(tree1[i].1 == placeholder);
        }
    }
}

/// What [`build_spec`] guarantees of a successful build: the graph is only
/// extended, it stays well formed, and the requested identity is now present.
pub proof fn lemma_build_props<F: FileFetcher, P: ParseLine>(
    f: F,
    p: P,
    name: FileNameModel,
    tree: Entries,
)
    requires
        tree_wf(tree),
    ensures
        match build_spec(f, p, name, tree) {
            Ok(t2) => tree.is_prefix_of(t2) && tree_wf(t2) && f.id_of(name) is Some
                && tree_contains(t2, f.id_of(name).unwrap()) && (tree_contains(
                tree,
                f.id_of(name).unwrap(),
            ) || (f.ids().finite() && f.ids().contains(f.id_of(name).unwrap()))),
            Err(_) => true,
        },
    decreases f.ids().difference(key_set(tree)).len(), 0int, 0int,
{
    match f.id_of(name) {
        None => {},
        Some(id) => {
            if tree_contains(tree, id) {
                assert(tree.is_prefix_of(tree));
            } else if !(f.ids().finite() && f.ids().contains(id)) {
            } else {
                let text = f.text_of(name);
                let nlines = lines_of(text).len() as int;
                let placeholder = FileDataModel { source: Seq::empty(), points: Seq::empty() };
                let tree1 = tree.push((id, placeholder));
                lemma_contains_iff(tree, id);
                lemma_placeholder_wf(tree, id);
                match process_spec(p, lines_of(text), 0) {
                    Err(_) => {},
                    Ok(cmds) => {
                        lemma_process_indices(p, lines_of(text), 0);
                        lemma_decrease_after_push(f, tree, id);
                        lemma_scan_props(f, p, id, cmds, tree1, Seq::empty(), nlines);
                        match scan_spec(f, p, id, cmds, tree1, Seq::empty()) {
                            Err(_) => {},
                            Ok(res) => {
                                let pts = res.0;
                                let t2 = res.1;
                                let newfd = FileDataModel { source: text, points: pts };
                                let fin = replace_entry(t2, id, newfd);
                                lemma_replace_keys(t2, id, newfd);
                                assert(tree1.is_prefix_of(t2));
                                // the entries below the placeholder are untouched by the replacement
                                assert(tree.is_prefix_of(fin)) by {
                                    assert forall|i: int| 0 <= i < tree.len() implies (
                                    #[trigger] fin[i]) == tree[i] by {
                                        assert(t2[i] == tree1.subrange(
                                            0,
                                            tree1.len() as int,
                                        )[i]);
                                        assert(t2[i] == tree[i]);
                                        assert(tree[i].0 != id);
                                    }
                                    assert(tree =~= fin.subrange(0, tree.len() as int));
                                }
                                assert(tree_contains(tree1, id)) by {
                                    lemma_contains_iff(tree1, id);
                                    assert(tree1[tree.len() as int].0 == id);
                                }
                                lemma_prefix_contains(tree1, t2, id);
                                lemma_replace_contains(t2, id, newfd, id);
                                assert(tree_wf(fin)) by {
                                    assert(forall|i: int|
                                        0 <= i < t2.len() ==> (#[trigger] fin[i]).0 == t2[i].0);
                                    assert forall|i: int, j: int|
                                        0 <= i < j < fin.len() implies (#[trigger] fin[i]).0 != (
                                    #[trigger] fin[j]).0 by {
                                        assert(t2[i].0 != t2[j].0);
                                    }
                                    assert forall|i: int| 0 <= i < fin.len() implies file_wf(
                                        fin,
                                        (#[trigger] fin[i]).1,
                                    ) by {
                                        if t2[i].0 == id {
                                            assert(fin[i].1 == newfd);
                                            assert(points_wf(pts, nlines));
                                            assert forall|a: int|
                                                0 <= a < pts.len() implies tree_contains(
                                                fin,
                                                (#[trigger] pts[a]).fname,
                                            ) by {
                                                lemma_replace_contains(
                                                    t2,
                                                    id,
                                                    newfd,
                                                    pts[a].fname,
                                                );
                                            }
                                        } else {
                                            assert(fin[i].1 == t2[i].1);
                                            assert(file_wf(t2, t2[i].1));
                                            assert forall|a: int|
                                                0 <= a < t2[i].1.points.len() implies
                                                tree_contains(
                                                fin,
                                                (#[trigger] t2[i].1.points[a]).fname,
                                            ) by {
                                                lemma_replace_contains(
                                                    t2,
                                                    id,
                                                    newfd,
                                                    t2[i].1.points[a].fname,
                                                );
                                            }
                                        }
                                    }
                                }
                            },
                        }
                    },
                }
            }
        },
    }
}

/// What [`scan_spec`] guarantees of a successful scan, by the same induction
/// as [`lemma_build_props`].
pub proof fn lemma_scan_props<F: FileFetcher, P: ParseLine>(
    f: F,
    p: P,
    cur: Seq<char>,
    cmds: Seq<(int, CommandModel)>,
    tree: Entries,
    acc: Seq<InsertionPointModel>,
    nlines: int,
)
    requires
        tree_wf(tree),
        points_wf(acc, nlines),
        points_closed(acc, tree),
        forall|a: int, b: int|
            0 <= a < b < cmds.len() ==> (#[trigger] cmds[a]).0 < (#[trigger] cmds[b]).0,
        forall|a: int| 0 <= a < cmds.len() ==> 0 <= (#[trigger] cmds[a]).0 < nlines,
        forall|a: int, c: int|
            0 <= a < acc.len() && 0 <= c < cmds.len() ==> (#[trigger] acc[a]).index < (
            #[trigger] cmds[c]).0,
    ensures
        match scan_spec(f, p, cur, cmds, tree, acc) {
            Ok(res) => tree.is_prefix_of(res.1) && tree_wf(res.1) && points_wf(res.0, nlines)
                && points_closed(res.0, res.1),
            Err(_) => true,
        },
    decreases f.ids().difference(key_set(tree)).len(), 1int, cmds.len(),
{
    if cmds.len() == 0 {
        assert(tree.is_prefix_of(tree));
    } else {
        let rest = cmds.drop_first();
        assert(forall|a: int| 0 <= a < rest.len() ==> (#[trigger] rest[a]) == cmds[a + 1]);
        let subname = target_name(cur, cmds[0].1);
        match f.id_of(subname) {
            None => {},
            Some(rid) => {
                if points_contain(acc, rid) {
                    lemma_scan_props(f, p, cur, rest, tree, acc, nlines);
                } else {
                    let acc2 = acc.push(InsertionPointModel { index: cmds[0].0, fname: rid });
                    assert(forall|a: int|
                        0 <= a < acc.len() ==> (#[trigger] acc2[a]) == acc[a]);
                    assert(acc2[acc.len() as int] == InsertionPointModel {
                        index: cmds[0].0,
                        fname: rid,
                    });
                    assert(points_wf(acc2, nlines));
                    if tree_contains(tree, rid) {
                        assert(points_closed(acc2, tree));
                        lemma_scan_props(f, p, cur, rest, tree, acc2, nlines);
                    } else {
                        lemma_build_props(f, p, subname, tree);
                        match build_spec(f, p, subname, tree) {
                            Err(_) => {},
                            Ok(t2) => {
                                assert(tree.is_prefix_of(t2));
                                assert(tree_contains(t2, rid));
                                assert(f.ids().finite());
                                assert(points_closed(acc2, t2)) by {
                                    assert forall|a: int|
                                        0 <= a < acc2.len() implies tree_contains(
                                        t2,
                                        (#[trigger] acc2[a]).fname,
                                    ) by {
                                        if a < acc.len() {
                                            lemma_prefix_contains(tree, t2, acc[a].fname);
                                        }
                                    }
                                }
                                lemma_decrease_after_extend(f, tree, t2);
                                lemma_scan_props(f, p, cur, rest, t2, acc2, nlines);
                                match scan_spec(f, p, cur, rest, t2, acc2) {
                                    Err(_) => {},
                                    Ok(res) => {
                                        assert(tree.is_prefix_of(res.1)) by {
                                            assert(t2.is_prefix_of(res.1));
                                            assert forall|i: int|
                                                0 <= i < tree.len() implies (
                                            #[trigger] res.1[i]) == tree[i] by {
                                                assert(res.1[i] == t2.subrange(
                                                    0,
                                                    t2.len() as int,
                                                )[i]);
                                                assert(t2[i] == tree.subrange(
                                                    0,
                                                    tree.len() as int,
                                                )[i]);
                                            }
                                            assert(tree =~= res.1.subrange(
                                                0,
                                                tree.len() as int,
                                            ));
                                        }
                                    },
                                }
                            },
                        }
                    }
                }
            },
        }
    }
}

/// Extending the graph cannot make more identities missing from it.
pub proof fn lemma_decrease_after_extend<F: FileFetcher>(f: F, tree: Entries, t3: Entries)
    requires
        f.ids().finite(),
        t3 == tree || tree.is_prefix_of(t3),
    ensures
        f.ids().difference(key_set(t3)).len() <= f.ids().difference(key_set(tree)).len(),
{
    if t3 != tree {
        lemma_prefix_keyset(tree, t3);
    }
    assert(f.ids().difference(key_set(t3)).subset_of(f.ids().difference(key_set(tree))));
    lemma_len_subset(f.ids().difference(key_set(t3)), f.ids().difference(key_set(tree)));
}

/// Prefixes compose.
proof fn lemma_prefix_trans(a: Entries, b: Entries, c: Entries)
    requires
        a.is_prefix_of(b),
        b.is_prefix_of(c),
    ensures
        a.is_prefix_of(c),
{
    assert forall|i: int| 0 <= i < a.len() implies (#[trigger] c[i]) == a[i] by {
        assert(a[i] == b.subrange(0, a.len() as int)[i]);
        assert(b[i] == c.subrange(0, b.len() as int)[i]);
    }
    assert(a =~= c.subrange(0, a.len() as int));
}

/// The dependency tree: a mapping from canonical file identity to
/// [`FileData`], kept in discovery order. The entry order decides the order
/// in which the assembler considers roots.
#[derive(Debug)]
pub struct DepTree {
    entries: Vec<(String, FileData)>,
}

impl View for DepTree {
    type V = Entries;

    closed spec fn view(&self) -> Entries {
        Seq::new(self.entries@.len(), |i: int| (self.entries@[i].0@, self.entries@[i].1@))
    }
}

impl DepTree {
    /// An empty dependency tree.
    pub fn new() -> (r: DepTree)
        ensures
            r@ == Seq::<(Seq<char>, FileDataModel)>::empty(),
            keys_unique(r@),
    {
        let r = DepTree { entries: Vec::new() };
        proof {
            assert(r@ =~= Seq::<(Seq<char>, FileDataModel)>::empty());
        }
        r
    }

    /// Whether the tree has no entries.
    pub fn is_empty(&self) -> (r: bool)
        ensures
            r == (self@.len() == 0),
    {
        self.entries.is_empty()
    }

    /// The number of entries.
    pub fn len(&self) -> (r: usize)
        ensures
            r == self@.len(),
    {
        self.entries.len()
    }

    /// The position of the first entry with the key, if any.
    fn find(&self, key: &str) -> (r: Option<usize>)
        ensures
            match r {
                Some(i) => i < self@.len() && self@[i as int].0 == key@ && (forall|k: int|
                    0 <= k < i ==> (#[trigger] self@[k]).0 != key@),
                None => forall|k: int| 0 <= k < self@.len() ==> (#[trigger] self@[k]).0 != key@,
            },
    {
        let n = self.entries.len();
        let mut i: usize = 0;
        while i < n
            invariant
                0 <= i <= n,
                n == self@.len(),
                n == self.entries.len(),
                forall|k: int| 0 <= k < i ==> (#[trigger] self@[k]).0 != key@,
            decreases n - i,
        {
            if str_eq(self.entries[i].0.as_str(), key) {
                proof {
                    assert(self@[i as int].0 == key@);
                }
                return Some(i);
            }
            i = i + 1;
        }
        None
    }

    /// Whether an entry with this identity exists.
    pub fn contains_key(&self, key: &str) -> (r: bool)
        ensures
            r == tree_contains(self@, key@),
    {
        match self.find(key) {
            Some(i) => {
                proof {
                    lemma_lookup_at(self@, key@, i as int);
                }
                true
            },
            None => {
                proof {
                    lemma_lookup_none(self@, key@);
                }
                false
            },
        }
    }

    /// The record behind an identity, if any.
    pub fn get(&self, key: &str) -> (r: Option<&FileData>)
        ensures
            match r {
                Some(fd) => tree_lookup(self@, key@) == Some(fd@),
                None => tree_lookup(self@, key@) is None,
            },
    {
        match self.find(key) {
            Some(i) => {
                proof {
                    lemma_lookup_at(self@, key@, i as int);
                }
                Some(&self.entries[i].1)
            },
            None => {
                proof {
                    lemma_lookup_none(self@, key@);
                }
                None
            },
        }
    }

    /// The identity of the entry at a position.
    pub fn key_at(&self, i: usize) -> (r: &String)
        requires
            i < self@.len(),
        ensures
            r@ == self@[i as int].0,
    {
        &self.entries[i].0
    }

    /// The record of the entry at a position.
    pub fn data_at(&self, i: usize) -> (r: &FileData)
        requires
            i < self@.len(),
        ensures
            r@ == self@[i as int].1,
    {
        &self.entries[i].1
    }

    /// Stores `value` under `key`, replacing an entry with the same key in
    /// place, or appending a new one.
    pub fn insert(&mut self, key: String, value: FileData)
        ensures
            keys_unique(old(self)@) ==> final(self)@ == tree_insert(old(self)@, key@, value@)
                && keys_unique(final(self)@),
    {
        let ghost old_view = self@;
        match self.find(key.as_str()) {
            Some(i) => {
                proof {
                    lemma_lookup_at(old_view, key@, i as int);
                }
                self.entries[i] = (key, value);
                proof {
                    if keys_unique(old_view) {
                        assert(self@ =~= replace_entry(old_view, key@, value@));
                        assert(forall|m: int|
                            0 <= m < self@.len() ==> (#[trigger] self@[m]).0 == old_view[m].0);
                    }
                }
            },
            None => {
                proof {
                    lemma_lookup_none(old_view, key@);
                }
                self.entries.push((key, value));
                proof {
                    assert(self@ =~= old_view.push((key@, value@)));
                }
            },
        }
    }
}

/// Decides [`points_wf`] and closure for one record.
#[verifier::loop_isolation(false)]
fn check_points(tree: &DepTree, fd: &FileData, nlines: usize) -> (r: bool)
    ensures
        r == (points_wf(fd@.points, nlines as int) && points_closed(fd@.points, tree@)),
{
    let k = fd.points.len();
    let mut a: usize = 0;
    while a < k
        invariant
            0 <= a <= k,
            k == fd.points.len(),
            forall|x: int, y: int|
                0 <= x < y < a ==> (#[trigger] fd@.points[x]).index < (
                #[trigger] fd@.points[y]).index,
            forall|x: int|
                0 <= x < a ==> 0 <= (#[trigger] fd@.points[x]).index < nlines as int,
            forall|x: int|
                0 <= x < a ==> tree_contains(tree@, (#[trigger] fd@.points[x]).fname),
        decreases k - a,
    {
        if fd.points[a].index >= nlines {
            proof {
                assert((fd@.points[a as int]).index >= nlines as int);
            }
            return false;
        }
        if a > 0 && fd.points[a - 1].index >= fd.points[a].index {
            proof {
                assert((fd@.points[a as int - 1]).index >= (fd@.points[a as int]).index);
            }
            return false;
        }
        if !tree.contains_key(fd.points[a].fname.as_str()) {
            proof {
                assert(!tree_contains(tree@, (fd@.points[a as int]).fname));
            }
            return false;
        }
        proof {
            if a > 0 {
                assert((fd@.points[a as int - 1]).index < (fd@.points[a as int]).index);
                assert forall|x: int| 0 <= x < a as int implies (#[trigger] fd@.points[x]).index
                    < (fd@.points[a as int]).index by {
                    if x < a as int - 1 {
                        assert((fd@.points[x]).index < (fd@.points[a as int - 1]).index);
                    }
                }
            }
        }
        a = a + 1;
    }
    let mut x: usize = 0;
    while x < k
        invariant
            0 <= x <= k,
            k == fd.points.len(),
            forall|p: int, q: int|
                0 <= p < x && 0 <= q < k && p != q ==> (#[trigger] fd@.points[p]).fname != (
                #[trigger] fd@.points[q]).fname,
        decreases k - x,
    {
        let mut y: usize = x + 1;
        while y < k
            invariant
                x < y <= k,
                x < k,
                k == fd.points.len(),
                forall|q: int|
                    x < q < y ==> (#[trigger] fd@.points[q]).fname != fd@.points[x as int].fname,
            decreases k - y,
        {
            if str_eq(fd.points[x].fname.as_str(), fd.points[y].fname.as_str()) {
                proof {
                    assert((fd@.points[x as int]).fname == (fd@.points[y as int]).fname);
                }
                return false;
            }
            y = y + 1;
        }
        x = x + 1;
    }
    true
}

impl DepTree {
    /// Decides the builder's invariant [`tree_wf`], so that an unverified
    /// caller can test it before asking for assembly. Graphs returned by
    /// [`generate_deptree`] always satisfy it.
    #[verifier::loop_isolation(false)]
    pub fn satisfies_builder_invariant(&self) -> (r: bool)
        ensures
            r == tree_wf(self@),
    {
        let n = self.len();
        let mut i: usize = 0;
        while i < n
            invariant
                0 <= i <= n,
                forall|p: int, q: int|
                    0 <= p < i && 0 <= q < self@.len() && p != q ==> (#[trigger] self@[p]).0 != (
                    #[trigger] self@[q]).0,
            decreases n - i,
        {
            let mut j: usize = i + 1;
            while j < n
                invariant
                    i < j <= n,
                    i < n,
                    forall|q: int| i < q < j ==> (#[trigger] self@[q]).0 != self@[i as int].0,
                decreases n - j,
            {
                if str_eq(self.key_at(i).as_str(), self.key_at(j).as_str()) {
                    proof {
                        assert(self@[i as int].0 == self@[j as int].0);
                    }
                    return false;
                }
                j = j + 1;
            }
            i = i + 1;
        }
        let mut i: usize = 0;
        while i < n
            invariant
                0 <= i <= n,
                keys_unique(self@),
                forall|p: int| 0 <= p < i ==> file_wf(self@, (#[trigger] self@[p]).1),
            decreases n - i,
        {
            let fd = self.data_at(i);
            let lines = crate::text::split_lines(fd.source.as_str());
            proof {
                assert(lines@.len() == lines_of(fd@.source).len());
            }
            if !check_points(self, fd, lines.len()) {
                return false;
            }
            i = i + 1;
        }
        true
    }
}

/// The error text for an unresolvable reference, as executable text.
fn notfound_error(n: &FileName) -> (r: String)
    ensures
        r@ == notfound_msg(n@),
{
    let mut s = String::from_str("file not found ");
    let d = n.describe();
    s.append(d.as_str());
    s
}

/// Whether the list already has a point targeting `name`.
fn points_have(points: &Vec<InsertionPoint>, name: &str) -> (r: bool)
    ensures
        r == points_contain(points.deep_view(), name@),
{
    let n = points.len();
    let mut i: usize = 0;
    while i < n
        invariant
            0 <= i <= n,
            n == points.len(),
            forall|j: int| 0 <= j < i ==> (#[trigger] points.deep_view()[j]).fname != name@,
        decreases n - i,
    {
        if str_eq(points[i].fname.as_str(), name) {
            proof {
                assert(points.deep_view()[i as int].fname == name@);
            }
            return true;
        }
        i = i + 1;
    }
    false
}

/// The reference under which the seed of a build is looked up: local to the
/// working directory.
pub open spec fn seed_name(seed: Seq<char>) -> FileNameModel {
    FileNameModel::LocalTo(seed, "./"@)
}

/// Generate a dependency tree, starting from `seed` and using a `fetcher`,
/// [`FileFetcher`], to retrieve sources and a `parser`, [`ParseLine`], to
/// work on the files. Returns the seed's resolved identity and the finished
/// graph, which is exactly [`build_spec`] over an empty graph and is well
/// formed in the sense of [`tree_wf`]; or the first error, either
/// `file not found <reference>` or the parser's `line <n>: <message>`.
pub fn generate_deptree<F: FileFetcher, P: ParseLine>(
    seed: &str,
    fetcher: &mut F,
    parser: &P,
) -> (r: Result<(String, DepTree), String>)
    ensures
        *final(fetcher) == *old(fetcher),
        match build_spec(*old(fetcher), *parser, seed_name(seed@), Seq::empty()) {
            Ok(t2) => r matches Ok(p) && old(fetcher).id_of(seed_name(seed@)) == Some(p.0@)
                && p.1@ == t2 && tree_wf(t2) && tree_contains(t2, p.0@) && t2.len() > 0,
            Err(m) => r matches Err(e) && e@ == m,
        },
{
    let start = FileName::LocalTo(seed.to_owned(), "./".to_owned());
    proof {
        assert(start@ == seed_name(seed@));
    }
    let fname = match fetcher.resolve_name(&start) {
        Some(f) => f,
        None => {
            return Err(notfound_error(&start));
        },
    };
    let mut deptree = DepTree::new();
    proof {
        assert(tree_wf(deptree@));
        lemma_build_props(*fetcher, *parser, start@, deptree@);
    }
    match build_deptree(start, &mut deptree, fetcher, parser) {
        Ok(()) => Ok((fname, deptree)),
        Err(e) => Err(e),
    }
}

fn build_deptree<F: FileFetcher, P: ParseLine>(
    fname: FileName,
    deptree: &mut DepTree,
    fetcher: &mut F,
    parser: &P,
) -> (r: Result<(), String>)
    requires
        tree_wf(old(deptree)@),
        match old(fetcher).id_of(fname@) {
            Some(id) => !tree_contains(old(deptree)@, id),
            None => true,
        },
    ensures
        *final(fetcher) == *old(fetcher),
        match build_spec(*old(fetcher), *parser, fname@, old(deptree)@) {
            Ok(t2) => r is Ok && final(deptree)@ == t2,
            Err(m) => r matches Err(s) && s@ == m,
        },
    decreases fetcher.ids().difference(key_set(deptree@)).len(),
{
    let ghost f0 = *fetcher;
    let ghost tree0 = deptree@;
    let ff = match fetcher.fetch(&fname) {
        Some(ff) => ff,
        None => {
            return Err(notfound_error(&fname));
        },
    };
    let FetchedFile { name, content } = ff;
    let ghost id = name@;
    let ghost text = content@;
    let placeholder = FileData { source: String::new(), points: Vec::new() };
    proof {
        assert(placeholder@.points =~= Seq::<InsertionPointModel>::empty());
    }
    deptree.insert(name.clone(), placeholder);
    proof {
        assert(deptree@ =~= tree0.push(
            (id, FileDataModel { source: Seq::empty(), points: Seq::empty() }),
        ));
    }
    let ghost tree1 = deptree@;
    let source = Source::from_str(content.as_str());
    let pp = match source.process(parser) {
        Ok(pp) => pp,
        Err(e) => {
            return Err(e);
        },
    };
    let ghost cmds = pp@;
    let ipoints = pp.get_include_points();
    proof {
        assert(tree1.is_prefix_of(tree1)) by {
            assert(tree1 =~= tree1.subrange(0, tree1.len() as int));
        }
        assert(ipoints.deep_view().len() == cmds.len());
        assert(cmds.skip(0) =~= cmds);
        lemma_placeholder_wf(tree0, id);
    }
    let mut points: Vec<InsertionPoint> = Vec::new();
    let n = ipoints.len();
    let mut i: usize = 0;
    while i < n
        invariant
            0 <= i <= n,
            n == ipoints.len(),
            n == cmds.len(),
            ipoints.deep_view() == include_points_of(cmds),
            *fetcher == f0,
            f0 == *old(fetcher),
            tree0 == old(deptree)@,
            name@ == id,
            f0.id_of(fname@) == Some(id),
            f0.ids().finite(),
            f0.ids().contains(id),
            !tree_contains(tree0, id),
            text == f0.text_of(fname@),
            tree1 == tree0.push(
                (id, FileDataModel { source: Seq::empty(), points: Seq::empty() }),
            ),
            process_spec(*parser, lines_of(text), 0) == Ok::<_, Seq<char>>(cmds),
            tree_wf(deptree@),
            tree1.is_prefix_of(deptree@),
            match scan_spec(f0, *parser, id, cmds.skip(i as int), deptree@, points.deep_view()) {
                Ok(res) => scan_spec(f0, *parser, id, cmds, tree1, Seq::empty()) == Ok::<
                    _,
                    Seq<char>,
                >(res),
                Err(e) => scan_spec(f0, *parser, id, cmds, tree1, Seq::empty()) == Err::<
                    (Seq<InsertionPointModel>, Entries),
                    _,
                >(e),
            },
        decreases n - i,
    {
        let ghost rem = cmds.skip(i as int);
        proof {
            assert(rem[0] == cmds[i as int]);
            assert(rem.drop_first() =~= cmds.skip(i as int + 1));
        }
        let (idx, subname): (usize, FileName) = match &ipoints[i] {
            IncludePoint::Global(ln, f) => (*ln, FileName::Global((*f).to_owned())),
            IncludePoint::Local(ln, f) => (*ln, FileName::LocalTo((*f).to_owned(), name.clone())),
        };
        proof {
            assert(include_points_of(cmds)[i as int] == ipoints.deep_view()[i as int]);
            assert(idx as int == cmds[i as int].0 && subname@ == target_name(
                id,
                cmds[i as int].1,
            )) by {
                match cmds[i as int].1 {
                    CommandModel::Include(_) => {},
                    CommandModel::IncludeLocal(_) => {},
                }
            }
        }
        let rname = match fetcher.resolve_name(&subname) {
            Some(rn) => rn,
            None => {
                return Err(notfound_error(&subname));
            },
        };
        let ghost rid = rname@;
        if !points_have(&points, rname.as_str()) {
            let ghost acc2 = points.deep_view().push(
                InsertionPointModel { index: idx as int, fname: rid },
            );
            if !deptree.contains_key(rname.as_str()) {
                let ghost pre = deptree@;
                proof {
                    lemma_decrease_after_push(f0, tree0, id);
                    lemma_decrease_after_extend(f0, tree1, pre);
                }
                match build_deptree(subname, deptree, fetcher, parser) {
                    Ok(()) => {},
                    Err(e) => {
                        return Err(e);
                    },
                }
                proof {
                    lemma_build_props(f0, *parser, target_name(id, cmds[i as int].1), pre);
                    assert(pre.is_prefix_of(deptree@));
                    lemma_prefix_trans(tree1, pre, deptree@);
                }
            }
            points.push(InsertionPoint { index: idx, fname: rname });
            proof {
                assert(points.deep_view() =~= acc2);
            }
        }
        i = i + 1;
    }
    proof {
        assert(cmds.skip(n as int) =~= Seq::<(int, CommandModel)>::empty());
    }
    let fdata = FileData { source: content, points };
    let ghost final_fd = fdata@;
    let ghost pre_insert = deptree@;
    proof {
        assert(tree_contains(pre_insert, id)) by {
            assert(tree_contains(tree1, id)) by {
                lemma_contains_iff(tree1, id);
                assert(tree1[tree0.len() as int].0 == id);
            }
            lemma_prefix_contains(tree1, pre_insert, id);
        }
    }
    deptree.insert(name, fdata);
    proof {
        assert(final_fd == FileDataModel { source: text, points: final_fd.points });
    }
    Ok(())
}

/// What joining two graphs yields: every entry of the second stored into the
/// first, in order.
pub open spec fn tree_join(e1: Entries, e2: Entries) -> Entries
    decreases e2.len(),
{
    if e2.len() == 0 {
        e1
    } else {
        tree_join(tree_insert(e1, e2[0].0, e2[0].1), e2.drop_first())
    }
}

/// Join two dependency trees; an entry of `dep2` replaces an entry of `dep1`
/// with the same identity.
pub fn join_deptrees(dep1: DepTree, dep2: DepTree) -> (r: DepTree)
    ensures
        keys_unique(dep1@) ==> r@ == tree_join(dep1@, dep2@) && keys_unique(r@),
{
    let ghost d1_0 = dep1@;
    let ghost d2_0 = dep2@;
    let mut d1 = dep1;
    let mut d2 = dep2;
    while d2.entries.len() > 0
        invariant
            keys_unique(d1_0) ==> keys_unique(d1@) && tree_join(d1@, d2@) == tree_join(d1_0, d2_0),
        decreases d2.entries.len(),
    {
        let ghost d2_view = d2@;
        let (k, v) = d2.entries.remove(0);
        proof {
            assert(d2@ =~= d2_view.drop_first());
            assert((k@, v@) == d2_view[0]);
        }
        d1.insert(k, v);
    }
    proof {
        assert(d2@.len() == 0);
    }
    d1
}

/// The identity `k` with the optional prefix `root` removed, where it is a
/// prefix; the whole identity otherwise.
pub open spec fn strip_or_keep(k: Seq<char>, root: Option<Seq<char>>) -> Seq<char> {
    match root {
        None => k,
        Some(r) => if r.is_prefix_of(k) {
            k.subrange(r.len() as int, k.len() as int)
        } else {
            k
        },
    }
}

/// The stripped identities of the entries from position `i` on, each led in
/// by one space.
pub open spec fn names_tail(tree: Entries, root: Option<Seq<char>>, i: int) -> Seq<char>
    decreases tree.len() - i,
{
    if i < 0 || i >= tree.len() {
        Seq::empty()
    } else {
        seq![' '] + strip_or_keep(tree[i].0, root) + names_tail(tree, root, i + 1)
    }
}

/// The stripped identities of all entries, joined with single spaces.
pub open spec fn names_join(tree: Entries, root: Option<Seq<char>>) -> Seq<char> {
    if tree.len() == 0 {
        Seq::empty()
    } else {
        strip_or_keep(tree[0].0, root) + names_tail(tree, root, 1)
    }
}

/// The dependency-list line for a graph: the target, a colon, the space-
/// joined identities, with every backslash turned into a forward slash.
pub open spec fn depfile_spec(fname: Seq<char>, root: Option<Seq<char>>, tree: Entries) -> Seq<
    char,
> {
    replace_bs(fname + ": "@ + names_join(tree, root))
}

/// The view of the optional prefix argument of [`create_depfile`].
pub open spec fn root_view(root: Option<&str>) -> Option<Seq<char>> {
    match root {
        Some(r) => Some(r@),
        None => None,
    }
}

/// Appends one identity, stripped of the prefix where it applies.
fn append_stripped(s: &mut String, k: &String, root: Option<&str>)
    ensures
        final(s)@ == old(s)@ + strip_or_keep(k@, root_view(root)),
{
    match root {
        None => {
            s.append(k.as_str());
        },
        Some(r) => {
            if str_starts_with(k.as_str(), r) {
                let rlen = r.unicode_len();
                let klen = k.as_str().unicode_len();
                let tail = k.as_str().substring_char(rlen, klen);
                s.append(tail);
            } else {
                s.append(k.as_str());
            }
        },
    }
}

/// Creates the source for a dependency file:
/// `<file>: [<dependency1> [<dependency2> ...]]`, path separators normalized
/// to forward slashes for build-tool compatibility.
#[verifier::loop_isolation(false)]
pub fn create_depfile(filename: &str, root: Option<&str>, points: &DepTree) -> (r: String)
    ensures
        r@ == depfile_spec(filename@, root_view(root), points@),
{
    let mut s = String::from_str(filename);
    s.append(": ");
    let ghost base = filename@ + ": "@;
    let n = points.len();
    if n > 0 {
        append_stripped(&mut s, points.key_at(0), root);
        let mut i: usize = 1;
        while i < n
            invariant
                1 <= i <= n,
                s@ + names_tail(points@, root_view(root), i as int) == base + names_join(
                    points@,
                    root_view(root),
                ),
            decreases n - i,
        {
            s.append(" ");
            append_stripped(&mut s, points.key_at(i), root);
            proof {
                reveal_strlit(" ");
                assert(" "@ =~= seq![' ']);
            }
            i = i + 1;
        }
        proof {
            assert(names_tail(points@, root_view(root), n as int) =~= Seq::<char>::empty());
            assert(s@ + Seq::<char>::empty() =~= s@);
        }
    }
    proof {
        assert(s@ == base + names_join(points@, root_view(root)));
    }
    replace_backslashes(s.as_str())
}

} // verus!
