//! This crate provides functionality to build a simple source-code
//! preprocessor.
//!
//! The methods available are capable of generating a single file from several
//! source files through inclusion directives embedded in comment lines. The
//! function [`deps::generate_deptree()`] traverses these directives
//! recursively to create a dependency tree, [`deps::DepTree`]. The tree can
//! then be used to build a flattened source file through [`build_file()`]:
//! each directive line is replaced by the expanded content of its target,
//! cyclic and repeated references being emitted only once.
//!
//! Included are simple implementations of [`filefetcher::FileFetcher`] and
//! [`process::ParseLine`] (see [`filefetcher::MemoryFetcher`] and
//! [`process::CommentParser`]) that can help build a very simple
//! preprocessor.

use vstd::prelude::*;

pub mod deps;
pub mod laws;
pub mod filefetcher;
pub mod process;
pub mod text;

verus! {

use vstd::set_lib::lemma_len_subset;
use vstd::string::StringExecFns;
use crate::text::{lines_of, split_lines, join_lines, lemma_join_push, str_eq};
use crate::deps::{
    DepTree, FileData, InsertionPointModel, Entries, tree_lookup, tree_contains, key_set, tree_wf,
    file_wf, lemma_keyset_contains, lemma_lookup_in,
};

/// Whether some record's insertion points target `id`.
pub open spec fn is_mentioned(tree: Entries, id: Seq<char>) -> bool {
    exists|i: int, a: int|
        0 <= i < tree.len() && 0 <= a < (#[trigger] tree[i]).1.points.len()
            && (#[trigger] tree[i].1.points[a]).fname == id
}

/// The graph keys from position `i` on, in entry order, that no insertion
/// point targets.
pub open spec fn roots_list(tree: Entries, i: int) -> Seq<Seq<char>>
    decreases tree.len() - i,
{
    if i < 0 || i >= tree.len() {
        Seq::empty()
    } else if is_mentioned(tree, tree[i].0) {
        roots_list(tree, i + 1)
    } else {
        seq![tree[i].0] + roots_list(tree, i + 1)
    }
}

/// Where assembly starts: the unreferenced keys, in entry order; if every key
/// is referenced (a pure cycle), the first entry stands in — that fallback
/// choice is implementation-defined.
pub open spec fn roots_of(tree: Entries) -> Seq<Seq<char>> {
    if roots_list(tree, 0).len() == 0 && tree.len() > 0 {
        seq![tree[0].0]
    } else {
        roots_list(tree, 0)
    }
}

/// Recording one more visited identity leaves strictly fewer unvisited keys.
pub proof fn lemma_visited_insert_decrease(tree: Entries, visited: Set<Seq<char>>, id: Seq<char>)
    requires
        tree_contains(tree, id),
        !visited.contains(id),
    ensures
        key_set(tree).difference(visited.insert(id)).len() < key_set(tree).difference(
            visited,
        ).len(),
{
    broadcast use vstd::seq_lib::seq_to_set_is_finite;

    lemma_keyset_contains(tree, id);
    key_set(tree).lemma_set_insert_diff_decreases(visited, id);
}

/// A larger visited set leaves no more unvisited keys.
pub proof fn lemma_visited_mono_decrease(tree: Entries, v1: Set<Seq<char>>, v2: Set<Seq<char>>)
    requires
        v1.subset_of(v2),
    ensures
        key_set(tree).difference(v2).len() <= key_set(tree).difference(v1).len(),
{
    broadcast use vstd::seq_lib::seq_to_set_is_finite;

    assert(key_set(tree).difference(v2).subset_of(key_set(tree).difference(v1)));
    lemma_len_subset(key_set(tree).difference(v2), key_set(tree).difference(v1));
}

/// What emitting one file yields: its lines with each insertion point's
/// target spliced in place of the directive line, plus the visited set after
/// the emission. An identity already visited, or absent from the graph,
/// contributes nothing.
pub open spec fn emit_file(tree: Entries, id: Seq<char>, visited: Set<Seq<char>>) -> (
    Seq<Seq<char>>,
    Set<Seq<char>>,
)
    decreases key_set(tree).difference(visited).len(), 0int, 0int,
{
    if !tree_contains(tree, id) || visited.contains(id) {
        (Seq::empty(), visited)
    } else {
        let fd = tree_lookup(tree, id).unwrap();
        proof {
            lemma_visited_insert_decrease(tree, visited, id);
        }
        emit_points(tree, lines_of(fd.source), fd.points, 0, visited.insert(id))
    }
}

/// Walks the insertion points of one file: the lines before each point are
/// copied, the point's target is emitted in its place, the directive line
/// itself is dropped, and the lines after the last point close the file.
pub open spec fn emit_points(
    tree: Entries,
    lines: Seq<Seq<char>>,
    points: Seq<InsertionPointModel>,
    cursor: int,
    visited: Set<Seq<char>>,
) -> (Seq<Seq<char>>, Set<Seq<char>>)
    decreases key_set(tree).difference(visited).len(), 1int, points.len(),
{
    if points.len() == 0 {
        (lines.subrange(cursor, lines.len() as int), visited)
    } else {
        let p = points[0];
        let before = lines.subrange(cursor, p.index);
        let r1 = emit_file(tree, p.fname, visited);
        let v2 = visited.union(r1.1);
        proof {
            assert(visited.subset_of(v2));
            lemma_visited_mono_decrease(tree, visited, v2);
        }
        let r2 = emit_points(tree, lines, points.drop_first(), p.index + 1, v2);
        (before + r1.0 + r2.0, r2.1)
    }
}

/// Emits each root in turn, all sharing one visited set.
pub open spec fn emit_roots(tree: Entries, roots: Seq<Seq<char>>, visited: Set<Seq<char>>) -> (
    Seq<Seq<char>>,
    Set<Seq<char>>,
)
    decreases roots.len(),
{
    if roots.len() == 0 {
        (Seq::empty(), visited)
    } else {
        let r1 = emit_file(tree, roots[0], visited);
        let r2 = emit_roots(tree, roots.drop_first(), r1.1);
        (r1.0 + r2.0, r2.1)
    }
}

/// What assembling a graph yields: the roots' emissions, joined line by line
/// with single newlines. This is the specification that [`build_file`]
/// implements.
pub open spec fn assembled(tree: Entries) -> Seq<char> {
    join_lines(emit_roots(tree, roots_of(tree), Set::empty()).0)
}

/// The visited set never shrinks across an emission.
pub proof fn lemma_emit_file_grows(tree: Entries, id: Seq<char>, visited: Set<Seq<char>>)
    ensures
        visited.subset_of(emit_file(tree, id, visited).1),
    decreases key_set(tree).difference(visited).len(), 0int, 0int,
{
    if !tree_contains(tree, id) || visited.contains(id) {
    } else {
        let fd = tree_lookup(tree, id).unwrap();
        lemma_visited_insert_decrease(tree, visited, id);
        lemma_emit_points_grows(tree, lines_of(fd.source), fd.points, 0, visited.insert(id));
    }
}

/// The visited set never shrinks across a point walk.
pub proof fn lemma_emit_points_grows(
    tree: Entries,
    lines: Seq<Seq<char>>,
    points: Seq<InsertionPointModel>,
    cursor: int,
    visited: Set<Seq<char>>,
)
    ensures
        visited.subset_of(emit_points(tree, lines, points, cursor, visited).1),
    decreases key_set(tree).difference(visited).len(), 1int, points.len(),
{
    if points.len() == 0 {
    } else {
        let p = points[0];
        let r1 = emit_file(tree, p.fname, visited);
        let v2 = visited.union(r1.1);
        lemma_emit_file_grows(tree, p.fname, visited);
        lemma_visited_mono_decrease(tree, visited, v2);
        lemma_emit_points_grows(tree, lines, points.drop_first(), p.index + 1, v2);
    }
}

/// The set the executable visited list stands for.
pub open spec fn vset(v: Seq<Seq<char>>) -> Set<Seq<char>> {
    v.to_set()
}

/// Whether the visited list holds `s`.
fn vec_contains(v: &Vec<String>, s: &str) -> (r: bool)
    ensures
        r == vset(v.deep_view()).contains(s@),
{
    let n = v.len();
    let mut i: usize = 0;
    while i < n
        invariant
            0 <= i <= n,
            n == v.len(),
            forall|j: int| 0 <= j < i ==> (#[trigger] v.deep_view()[j]) != s@,
        decreases n - i,
    {
        if str_eq(v[i].as_str(), s) {
            proof {
                assert(v.deep_view()[i as int] == s@);
                assert(v.deep_view().contains(s@));
            }
            return true;
        }
        i = i + 1;
    }
    proof {
        if vset(v.deep_view()).contains(s@) {
            let j = choose|j: int| 0 <= j < v.deep_view().len() && v.deep_view()[j] == s@;
        }
    }
    false
}

/// Whether any insertion point anywhere in the graph targets `key`.
#[verifier::loop_isolation(false)]
fn is_target(deptree: &DepTree, key: &str) -> (r: bool)
    ensures
        r == is_mentioned(deptree@, key@),
{
    let n = deptree.len();
    let mut i: usize = 0;
    while i < n
        invariant
            0 <= i <= n,
            forall|ii: int, a: int|
                0 <= ii < i && 0 <= a < (#[trigger] deptree@[ii]).1.points.len() ==> (
                #[trigger] deptree@[ii].1.points[a]).fname != key@,
        decreases n - i,
    {
        let fd = deptree.data_at(i);
        let m = fd.points.len();
        let mut a: usize = 0;
        while a < m
            invariant
                0 <= a <= m,
                i < n,
                m == fd.points.len(),
                fd@ == deptree@[i as int].1,
                forall|b: int| 0 <= b < a ==> (#[trigger] fd.points.deep_view()[b]).fname != key@,
            decreases m - a,
        {
            if str_eq(fd.points[a].fname.as_str(), key) {
                proof {
                    assert(deptree@[i as int].1.points[a as int].fname == key@);
                }
                return true;
            }
            a = a + 1;
        }
        i = i + 1;
    }
    false
}

/// Joins the collected lines with single newlines.
#[verifier::loop_isolation(false)]
fn join_exec(acc: &Vec<String>) -> (r: String)
    ensures
        r@ == join_lines(acc.deep_view()),
{
    let mut s = String::new();
    let n = acc.len();
    let mut i: usize = 0;
    while i < n
        invariant
            0 <= i <= n,
            s@ == join_lines(acc.deep_view().subrange(0, i as int)),
        decreases n - i,
    {
        if i > 0 {
            s.append("\n");
        }
        s.append(acc[i].as_str());
        proof {
            reveal_strlit("\n");
            assert("\n"@ =~= seq!['\n']);
            lemma_join_push(acc.deep_view().subrange(0, i as int), acc.deep_view()[i as int]);
            assert(acc.deep_view().subrange(0, i as int).push(acc.deep_view()[i as int])
                =~= acc.deep_view().subrange(0, i as int + 1));
        }
        i = i + 1;
    }
    proof {
        assert(acc.deep_view().subrange(0, n as int) =~= acc.deep_view());
    }
    s
}

/// Appends to `acc` the emission of `fname`: the file's lines with each
/// insertion point's target spliced in, identities already in `visited`
/// contributing nothing. Exactly [`emit_file`].
#[verifier::loop_isolation(false)]
fn subbuild_file(fname: String, acc: &mut Vec<String>, deptree: &DepTree, visited: &mut Vec<String>)
    requires
        tree_wf(deptree@),
    ensures
        final(acc).deep_view() == old(acc).deep_view() + emit_file(
            deptree@,
            fname@,
            vset(old(visited).deep_view()),
        ).0,
        vset(final(visited).deep_view()) == emit_file(
            deptree@,
            fname@,
            vset(old(visited).deep_view()),
        ).1,
    decreases key_set(deptree@).difference(vset(visited.deep_view())).len(),
{
    let ghost v0 = vset(visited.deep_view());
    let ghost acc0 = acc.deep_view();
    if vec_contains(visited, fname.as_str()) {
        proof {
            assert(acc.deep_view() =~= acc0 + Seq::<Seq<char>>::empty());
        }
        return ;
    }
    let fd: &FileData = match deptree.get(fname.as_str()) {
        Some(fd) => fd,
        None => {
            proof {
                assert(acc.deep_view() =~= acc0 + Seq::<Seq<char>>::empty());
            }
            return ;
        },
    };
    let ghost gname = fname@;
    proof {
        lemma_lookup_in(deptree@, gname);
        assert(file_wf(deptree@, fd@)) by {
            let i = choose|i: int|
                0 <= i < deptree@.len() && (#[trigger] deptree@[i]).0 == gname && deptree@[i].1
                    == tree_lookup(deptree@, gname).unwrap();
        }
    }
    let lines: Vec<&str> = split_lines(fd.source.as_str());
    let ghost linesv = lines_of(fd@.source);
    let nlines = lines.len();
    visited.push(fname);
    proof {
        assert(vset(visited.deep_view()) =~= v0.insert(gname)) by {
            assert(visited.deep_view() =~= old(visited).deep_view().push(gname));
            assert forall|x: Seq<char>| vset(visited.deep_view()).contains(x) implies v0.insert(
                gname,
            ).contains(x) by {
                let j = choose|j: int|
                    0 <= j < visited.deep_view().len() && visited.deep_view()[j] == x;
                if j < old(visited).deep_view().len() {
                    assert(old(visited).deep_view()[j] == x);
                }
            }
            assert forall|x: Seq<char>| v0.insert(gname).contains(x) implies vset(
                visited.deep_view(),
            ).contains(x) by {
                if x == gname {
                    assert(visited.deep_view().last() == x);
                } else {
                    let j = choose|j: int|
                        0 <= j < old(visited).deep_view().len() && old(visited).deep_view()[j]
                            == x;
                    assert(visited.deep_view()[j] == x);
                }
            }
        }
    }
    let ghost v1 = vset(visited.deep_view());
    let ghost pts = fd@.points;
    let ghost full = emit_points(deptree@, linesv, pts, 0, v1);
    proof {
        assert(pts.skip(0) =~= pts);
    }
    let npoints = fd.points.len();
    let mut cursor: usize = 0;
    let mut j: usize = 0;
    while j < npoints
        invariant
            0 <= j <= npoints,
            0 <= cursor <= nlines,
            j < npoints ==> cursor <= pts[j as int].index,
            v1.subset_of(vset(visited.deep_view())),
            ({
                let rem = emit_points(
                    deptree@,
                    linesv,
                    pts.skip(j as int),
                    cursor as int,
                    vset(visited.deep_view()),
                );
                acc.deep_view() + rem.0 == acc0 + full.0 && rem.1 == full.1
            }),
        decreases npoints - j,
    {
        let ghost vcur = vset(visited.deep_view());
        let ghost remj = pts.skip(j as int);
        proof {
            assert(remj[0] == pts[j as int]);
            assert(remj.drop_first() =~= pts.skip(j as int + 1));
            assert(0 <= pts[j as int].index < linesv.len());
        }
        let idx = fd.points[j].index;
        proof {
            assert(idx as int == pts[j as int].index);
        }
        let ghost accj = acc.deep_view();
        let ghost cursorj = cursor as int;
        while cursor < idx
            invariant
                cursorj <= cursor as int <= idx,
                acc.deep_view() == accj + linesv.subrange(cursorj, cursor as int),
            decreases idx - cursor,
        {
            let line: &str = lines[cursor];
            let ghost acur = acc.deep_view();
            acc.push(line.to_owned());
            proof {
                assert(acc.deep_view() =~= acur.push(linesv[cursor as int]));
                assert(acur.push(linesv[cursor as int]) =~= accj + linesv.subrange(
                    cursorj,
                    cursor as int + 1,
                ));
            }
            cursor = cursor + 1;
        }
        let ghost before = linesv.subrange(cursorj, idx as int);
        let subname = fd.points[j].fname.clone();
        proof {
            assert(subname@ == pts[j as int].fname);
            lemma_visited_insert_decrease(deptree@, v0, gname);
            lemma_visited_mono_decrease(deptree@, v1, vcur);
        }
        subbuild_file(subname, acc, deptree, visited);
        proof {
            let r1 = emit_file(deptree@, pts[j as int].fname, vcur);
            lemma_emit_file_grows(deptree@, pts[j as int].fname, vcur);
            assert(vcur.union(r1.1) =~= r1.1);
            let r2 = emit_points(
                deptree@,
                linesv,
                pts.skip(j as int + 1),
                pts[j as int].index + 1,
                r1.1,
            );
            assert(emit_points(deptree@, linesv, remj, cursorj, vcur) == (
                before + r1.0 + r2.0,
                r2.1,
            ));
            assert(acc.deep_view() =~= (accj + before) + r1.0);
            assert((accj + before) + r1.0 + r2.0 =~= accj + (before + r1.0 + r2.0));
        }
        cursor = idx + 1;
        j = j + 1;
        proof {
            if j < npoints {
                assert(pts[j - 1].index < pts[j as int].index);
            }
        }
    }
    proof {
        assert(pts.skip(npoints as int) =~= Seq::<InsertionPointModel>::empty());
    }
    let ghost accj = acc.deep_view();
    let ghost cursorj = cursor as int;
    while cursor < nlines
        invariant
            cursorj <= cursor as int <= nlines,
            acc.deep_view() == accj + linesv.subrange(cursorj, cursor as int),
        decreases nlines - cursor,
    {
        let line: &str = lines[cursor];
        let ghost acur = acc.deep_view();
        acc.push(line.to_owned());
        proof {
            assert(acc.deep_view() =~= acur.push(linesv[cursor as int]));
            assert(acur.push(linesv[cursor as int]) =~= accj + linesv.subrange(
                cursorj,
                cursor as int + 1,
            ));
        }
        cursor = cursor + 1;
    }
    proof {
        assert(acc.deep_view() =~= acc0 + full.0);
    }
}

/// Generates a new file from a dependency tree (see [`deps::DepTree`]) by
/// satisfying all dependencies: the result is exactly [`assembled`] over the
/// graph. The graph must satisfy the builder's invariant
/// [`deps::tree_wf`], as graphs from [`deps::generate_deptree`] do.
/// # Error
/// Fails if `deptree` is empty.
#[verifier::loop_isolation(false)]
pub fn build_file(deptree: &DepTree) -> (r: Result<String, String>)
    requires
        tree_wf(deptree@),
    ensures
        deptree@.len() == 0 ==> (r matches Err(e) && e@ == "empty dependency tree"@),
        deptree@.len() > 0 ==> (r matches Ok(s) && s@ == assembled(deptree@)),
{
    if deptree.is_empty() {
        return Err(String::from_str("empty dependency tree"));
    }
    let mut roots: Vec<String> = Vec::new();
    let n = deptree.len();
    let mut i: usize = 0;
    proof {
        assert(roots.deep_view() + roots_list(deptree@, 0) =~= roots_list(deptree@, 0));
    }
    while i < n
        invariant
            0 <= i <= n,
            roots.deep_view() + roots_list(deptree@, i as int) == roots_list(deptree@, 0),
        decreases n - i,
    {
        let k = deptree.key_at(i);
        if !is_target(deptree, k.as_str()) {
            let ghost oldr = roots.deep_view();
            roots.push(k.clone());
            proof {
                assert(roots.deep_view() =~= oldr.push(deptree@[i as int].0));
                assert(oldr.push(deptree@[i as int].0) + roots_list(deptree@, i as int + 1)
                    =~= oldr + (seq![deptree@[i as int].0] + roots_list(deptree@, i as int + 1)));
            }
        }
        i = i + 1;
    }
    proof {
        assert(roots_list(deptree@, n as int) =~= Seq::<Seq<char>>::empty());
        assert(roots.deep_view() =~= roots_list(deptree@, 0));
    }
    if roots.len() == 0 {
        let k0 = deptree.key_at(0);
        roots.push(k0.clone());
        proof {
            assert(roots.deep_view() =~= seq![deptree@[0].0]);
        }
    }
    proof {
        assert(roots.deep_view() == roots_of(deptree@));
    }
    let ghost rootsv = roots.deep_view();
    let mut acc: Vec<String> = Vec::new();
    let mut visited: Vec<String> = Vec::new();
    proof {
        assert(vset(visited.deep_view()) =~= Set::<Seq<char>>::empty());
        assert(rootsv.skip(0) =~= rootsv);
    }
    let ghost full = emit_roots(deptree@, rootsv, Set::empty());
    let nr = roots.len();
    let mut t: usize = 0;
    while t < nr
        invariant
            0 <= t <= nr,
            ({
                let rem = emit_roots(deptree@, rootsv.skip(t as int), vset(visited.deep_view()));
                acc.deep_view() + rem.0 == full.0 && rem.1 == full.1
            }),
        decreases nr - t,
    {
        let ghost remt = rootsv.skip(t as int);
        let ghost vcur = vset(visited.deep_view());
        proof {
            assert(remt[0] == rootsv[t as int]);
            assert(remt.drop_first() =~= rootsv.skip(t as int + 1));
        }
        let root = roots[t].clone();
        let ghost acct = acc.deep_view();
        subbuild_file(root, &mut acc, deptree, &mut visited);
        proof {
            let r1 = emit_file(deptree@, rootsv[t as int], vcur);
            let r2 = emit_roots(deptree@, rootsv.skip(t as int + 1), r1.1);
            assert(emit_roots(deptree@, remt, vcur) == (r1.0 + r2.0, r2.1));
            assert((acct + r1.0) + r2.0 =~= acct + (r1.0 + r2.0));
        }
        t = t + 1;
    }
    proof {
        assert(rootsv.skip(nr as int) =~= Seq::<Seq<char>>::empty());
        assert(acc.deep_view() + Seq::<Seq<char>>::empty() =~= acc.deep_view());
        assert(acc.deep_view() == full.0);
    }
    let out = join_exec(&acc);
    Ok(out)
}

} // verus!
