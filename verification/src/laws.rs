//! The laws of the library: properties of building and assembling that hold
//! of all inputs, stated and proved over the same specification functions
//! that the executable functions' contracts use.

use vstd::prelude::*;

verus! {

use crate::text::{lines_of, join_lines, first_nl, strip_cr, lemma_first_nl};
use crate::deps::{
    Entries, FileDataModel, InsertionPointModel, tree_wf, tree_contains, target_name, scan_spec,
    lemma_lookup_at,
};
use crate::process::CommandModel;
use crate::filefetcher::FileFetcher;
use crate::process::ParseLine;
use crate::{assembled, emit_file, emit_points, emit_roots, roots_list, roots_of, is_mentioned};

/// Splitting into lines and joining with newlines gives the text back, as
/// long as the text has no carriage-return-newline pair (splitting eats the
/// carriage return) and no final newline (joining does not restore it).
pub proof fn lemma_join_lines_of(s: Seq<char>)
    requires
        forall|i: int| 0 <= i < s.len() - 1 ==> !((#[trigger] s[i]) == '\r' && s[i + 1] == '\n'),
        s.len() > 0 ==> s.last() != '\n',
    ensures
        join_lines(lines_of(s)) == s,
    decreases s.len(),
{
    if s.len() > 0 {
        let k = first_nl(s);
        lemma_first_nl(s);
        if k == s.len() {
            assert(lines_of(s) == seq![s]);
            assert(join_lines(seq![s]) == s);
        } else {
            let line = s.subrange(0, k);
            let rest = s.subrange(k + 1, s.len() as int);
            assert(k < s.len() - 1) by {
                assert(s.last() != '\n');
            }
            assert(strip_cr(line) == line) by {
                if line.len() > 0 {
                    assert(s[k - 1] == line.last());
                    assert(!(s[k - 1] == '\r' && s[k] == '\n'));
                }
            }
            assert(forall|i: int|
                0 <= i < rest.len() - 1 ==> !((#[trigger] rest[i]) == '\r' && rest[i + 1] == '\n'));
            assert(rest.len() > 0 && rest.last() == s.last());
            lemma_join_lines_of(rest);
            assert(lines_of(s) == seq![line] + lines_of(rest));
            assert(lines_of(rest).len() > 0);
            let all = seq![line] + lines_of(rest);
            assert(all[0] == line);
            assert(all.drop_first() =~= lines_of(rest));
            assert(join_lines(all) == line + seq!['\n'] + join_lines(lines_of(rest)));
            assert(line + seq!['\n'] + rest =~= s);
        }
    }
}

/// A file with no directives assembles to its own text unchanged, provided
/// the text survives the line round trip of [`lemma_join_lines_of`].
pub proof fn lemma_identity_roundtrip(id: Seq<char>, s: Seq<char>)
    requires
        forall|i: int| 0 <= i < s.len() - 1 ==> !((#[trigger] s[i]) == '\r' && s[i + 1] == '\n'),
        s.len() > 0 ==> s.last() != '\n',
    ensures
        assembled(seq![(id, FileDataModel { source: s, points: Seq::empty() })]) == s,
{
    let fd = FileDataModel { source: s, points: Seq::empty() };
    let tree: Entries = seq![(id, fd)];
    assert(!is_mentioned(tree, id));
    assert(roots_list(tree, 1) =~= Seq::<Seq<char>>::empty());
    assert(roots_list(tree, 0) =~= seq![id] + roots_list(tree, 1));
    assert(roots_of(tree) =~= seq![id]);
    lemma_lookup_at(tree, id, 0);
    let v1 = Set::<Seq<char>>::empty().insert(id);
    assert(emit_points(tree, lines_of(s), fd.points, 0, v1) == (
        lines_of(s).subrange(0, lines_of(s).len() as int),
        v1,
    ));
    assert(lines_of(s).subrange(0, lines_of(s).len() as int) =~= lines_of(s));
    assert(emit_file(tree, id, Set::empty()) == (lines_of(s), v1));
    let roots = roots_of(tree);
    assert(roots.drop_first() =~= Seq::<Seq<char>>::empty());
    assert(emit_roots(tree, roots.drop_first(), v1).0 =~= Seq::<Seq<char>>::empty());
    assert(emit_roots(tree, roots, Set::empty()).0 =~= lines_of(s));
    lemma_join_lines_of(s);
}

/// A linear chain: the first file's directive line is replaced by the second
/// file's text, whose own directive line is replaced in turn by the third
/// file's text, properly nested, all directive lines removed.
pub proof fn lemma_linear_chain(
    a: Seq<char>,
    sa: Seq<char>,
    ia: int,
    b: Seq<char>,
    sb: Seq<char>,
    ib: int,
    c: Seq<char>,
    sc: Seq<char>,
)
    requires
        a != b,
        a != c,
        b != c,
        0 <= ia < lines_of(sa).len(),
        0 <= ib < lines_of(sb).len(),
    ensures
        ({
            let tree: Entries = seq![
                (a, FileDataModel {
                    source: sa,
                    points: seq![InsertionPointModel { index: ia, fname: b }],
                }),
                (b, FileDataModel {
                    source: sb,
                    points: seq![InsertionPointModel { index: ib, fname: c }],
                }),
                (c, FileDataModel { source: sc, points: Seq::empty() }),
            ];
            let la = lines_of(sa);
            let lb = lines_of(sb);
            assembled(tree) == join_lines(
                la.subrange(0, ia) + lb.subrange(0, ib) + lines_of(sc) + lb.subrange(
                    ib + 1,
                    lb.len() as int,
                ) + la.subrange(ia + 1, la.len() as int),
            )
        }),
{
    let fda = FileDataModel {
        source: sa,
        points: seq![InsertionPointModel { index: ia, fname: b }],
    };
    let fdb = FileDataModel {
        source: sb,
        points: seq![InsertionPointModel { index: ib, fname: c }],
    };
    let fdc = FileDataModel { source: sc, points: Seq::empty() };
    let tree: Entries = seq![(a, fda), (b, fdb), (c, fdc)];
    let la = lines_of(sa);
    let lb = lines_of(sb);
    let lc = lines_of(sc);
    // root selection: only `a` is unreferenced
    assert(!is_mentioned(tree, a)) by {
        if is_mentioned(tree, a) {
            let (i, x) = choose|i: int, x: int|
                0 <= i < tree.len() && 0 <= x < (#[trigger] tree[i]).1.points.len()
                    && (#[trigger] tree[i].1.points[x]).fname == a;
            if i == 0 {
                assert(tree[0].1.points[x].fname == b);
            } else if i == 1 {
                assert(tree[1].1.points[x].fname == c);
            } else {
                assert(tree[i].1.points.len() == 0);
            }
        }
    }
    assert(is_mentioned(tree, b)) by {
        assert(tree[0].1.points[0].fname == b);
    }
    assert(is_mentioned(tree, c)) by {
        assert(tree[1].1.points[0].fname == c);
    }
    assert(roots_list(tree, 3) =~= Seq::<Seq<char>>::empty());
    assert(roots_list(tree, 2) =~= Seq::<Seq<char>>::empty());
    assert(roots_list(tree, 1) =~= Seq::<Seq<char>>::empty());
    assert(roots_list(tree, 0) =~= seq![a]);
    assert(roots_of(tree) == seq![a]);
    lemma_lookup_at(tree, a, 0);
    lemma_lookup_at(tree, b, 1);
    lemma_lookup_at(tree, c, 2);
    let va = Set::<Seq<char>>::empty().insert(a);
    let vab = va.insert(b);
    let vabc = vab.insert(c);
    // innermost file: `c` has no points
    assert(emit_points(tree, lc, fdc.points, 0, vabc) == (
        lc.subrange(0, lc.len() as int),
        vabc,
    ));
    assert(lc.subrange(0, lc.len() as int) =~= lc);
    assert(!vab.contains(c));
    assert(emit_file(tree, c, vab) == (lc, vabc));
    // middle file: `b` splices `c` at line ib
    assert(fdb.points.drop_first() =~= Seq::<InsertionPointModel>::empty());
    assert(vab.union(vabc) =~= vabc);
    assert(emit_points(tree, lb, Seq::empty(), ib + 1, vabc) == (
        lb.subrange(ib + 1, lb.len() as int),
        vabc,
    ));
    assert(emit_points(tree, lb, fdb.points, 0, vab) == (
        lb.subrange(0, ib) + lc + lb.subrange(ib + 1, lb.len() as int),
        vabc,
    ));
    assert(!va.contains(b));
    assert(emit_file(tree, b, va) == (
        lb.subrange(0, ib) + lc + lb.subrange(ib + 1, lb.len() as int),
        vabc,
    ));
    // outer file: `a` splices `b` at line ia
    assert(fda.points.drop_first() =~= Seq::<InsertionPointModel>::empty());
    assert(va.union(vabc) =~= vabc);
    assert(emit_points(tree, la, Seq::empty(), ia + 1, vabc) == (
        la.subrange(ia + 1, la.len() as int),
        vabc,
    ));
    let body = lb.subrange(0, ib) + lc + lb.subrange(ib + 1, lb.len() as int);
    assert(!Set::<Seq<char>>::empty().contains(a));
    assert(emit_points(tree, la, fda.points, 0, va) == (
        la.subrange(0, ia) + body + la.subrange(ia + 1, la.len() as int),
        vabc,
    ));
    assert(emit_file(tree, a, Set::empty()) == (
        la.subrange(0, ia) + body + la.subrange(ia + 1, la.len() as int),
        vabc,
    ));
    // one root, then nothing more
    assert(seq![a].drop_first() =~= Seq::<Seq<char>>::empty());
    assert(seq![a][0] == a);
    assert(emit_roots(tree, Seq::<Seq<char>>::empty(), vabc) == (
        Seq::<Seq<char>>::empty(),
        vabc,
    ));
    let out = la.subrange(0, ia) + body + la.subrange(ia + 1, la.len() as int);
    assert(emit_roots(tree, seq![a], Set::empty()).0 == out + Seq::<Seq<char>>::empty());
    assert(out + Seq::<Seq<char>>::empty() =~= out);
    assert(emit_roots(tree, seq![a], Set::empty()).0 =~= la.subrange(0, ia) + body + la.subrange(
        ia + 1,
        la.len() as int,
    ));
    assert(la.subrange(0, ia) + body + la.subrange(ia + 1, la.len() as int) =~= la.subrange(0, ia)
        + lb.subrange(0, ib) + lc + lb.subrange(ib + 1, lb.len() as int) + la.subrange(
        ia + 1,
        la.len() as int,
    ));
}

/// A mutual cycle terminates: the root's content appears with the partner
/// spliced in exactly once, and the partner's back-reference to the root
/// contributes nothing.
pub proof fn lemma_mutual_cycle(
    a: Seq<char>,
    sa: Seq<char>,
    ia: int,
    b: Seq<char>,
    sb: Seq<char>,
    ib: int,
)
    requires
        a != b,
        0 <= ia < lines_of(sa).len(),
        0 <= ib < lines_of(sb).len(),
    ensures
        ({
            let tree: Entries = seq![
                (a, FileDataModel {
                    source: sa,
                    points: seq![InsertionPointModel { index: ia, fname: b }],
                }),
                (b, FileDataModel {
                    source: sb,
                    points: seq![InsertionPointModel { index: ib, fname: a }],
                }),
            ];
            let la = lines_of(sa);
            let lb = lines_of(sb);
            assembled(tree) == join_lines(
                la.subrange(0, ia) + lb.subrange(0, ib) + lb.subrange(ib + 1, lb.len() as int)
                    + la.subrange(ia + 1, la.len() as int),
            )
        }),
{
    let fda = FileDataModel {
        source: sa,
        points: seq![InsertionPointModel { index: ia, fname: b }],
    };
    let fdb = FileDataModel {
        source: sb,
        points: seq![InsertionPointModel { index: ib, fname: a }],
    };
    let tree: Entries = seq![(a, fda), (b, fdb)];
    let la = lines_of(sa);
    let lb = lines_of(sb);
    // every key is referenced, so the first entry stands in as the root
    assert(is_mentioned(tree, a)) by {
        assert(tree[1].1.points[0].fname == a);
    }
    assert(is_mentioned(tree, b)) by {
        assert(tree[0].1.points[0].fname == b);
    }
    assert(roots_list(tree, 2) =~= Seq::<Seq<char>>::empty());
    assert(roots_list(tree, 1) =~= Seq::<Seq<char>>::empty());
    assert(roots_list(tree, 0) =~= Seq::<Seq<char>>::empty());
    assert(roots_of(tree) == seq![a]);
    lemma_lookup_at(tree, a, 0);
    lemma_lookup_at(tree, b, 1);
    let va = Set::<Seq<char>>::empty().insert(a);
    let vab = va.insert(b);
    // the back-reference from `b` to `a` is suppressed
    assert(vab.contains(a));
    assert(emit_file(tree, a, vab) == (Seq::<Seq<char>>::empty(), vab));
    assert(fdb.points.drop_first() =~= Seq::<InsertionPointModel>::empty());
    assert(vab.union(vab) =~= vab);
    assert(emit_points(tree, lb, Seq::empty(), ib + 1, vab) == (
        lb.subrange(ib + 1, lb.len() as int),
        vab,
    ));
    assert(emit_points(tree, lb, fdb.points, 0, vab) == (
        lb.subrange(0, ib) + Seq::<Seq<char>>::empty() + lb.subrange(ib + 1, lb.len() as int),
        vab,
    ));
    assert(!va.contains(b));
    let bodyb = lb.subrange(0, ib) + Seq::<Seq<char>>::empty() + lb.subrange(
        ib + 1,
        lb.len() as int,
    );
    assert(emit_file(tree, b, va) == (bodyb, vab));
    assert(fda.points.drop_first() =~= Seq::<InsertionPointModel>::empty());
    assert(va.union(vab) =~= vab);
    assert(emit_points(tree, la, Seq::empty(), ia + 1, vab) == (
        la.subrange(ia + 1, la.len() as int),
        vab,
    ));
    assert(!Set::<Seq<char>>::empty().contains(a));
    assert(emit_points(tree, la, fda.points, 0, va) == (
        la.subrange(0, ia) + bodyb + la.subrange(ia + 1, la.len() as int),
        vab,
    ));
    assert(emit_file(tree, a, Set::empty()) == (
        la.subrange(0, ia) + bodyb + la.subrange(ia + 1, la.len() as int),
        vab,
    ));
    assert(seq![a].drop_first() =~= Seq::<Seq<char>>::empty());
    assert(seq![a][0] == a);
    assert(emit_roots(tree, Seq::<Seq<char>>::empty(), vab) == (Seq::<Seq<char>>::empty(), vab));
    let out = la.subrange(0, ia) + bodyb + la.subrange(ia + 1, la.len() as int);
    assert(emit_roots(tree, seq![a], Set::empty()).0 == out + Seq::<Seq<char>>::empty());
    assert(out + Seq::<Seq<char>>::empty() =~= out);
    assert(emit_roots(tree, seq![a], Set::empty()).0 =~= la.subrange(0, ia) + bodyb + la.subrange(
        ia + 1,
        la.len() as int,
    ));
    assert(la.subrange(0, ia) + bodyb + la.subrange(ia + 1, la.len() as int) =~= la.subrange(0, ia)
        + lb.subrange(0, ib) + lb.subrange(ib + 1, lb.len() as int) + la.subrange(
        ia + 1,
        la.len() as int,
    ));
}

/// Within one record of a well-formed graph — as the builder returns it — no
/// two insertion points target the same identity: a second directive to the
/// same resolved identity was not retained.
pub proof fn lemma_no_duplicate_targets(tree: Entries, i: int, a: int, b: int)
    requires
        tree_wf(tree),
        0 <= i < tree.len(),
        0 <= a < tree[i].1.points.len(),
        0 <= b < tree[i].1.points.len(),
        a != b,
    ensures
        tree[i].1.points[a].fname != tree[i].1.points[b].fname,
{
}

/// Of two directives in the same file whose targets resolve to the same
/// identity, only the first becomes an insertion point: the scan of the two
/// yields exactly one point, at the first directive's line.
pub proof fn lemma_first_duplicate_retained<F: FileFetcher, P: ParseLine>(
    f: F,
    p: P,
    cur: Seq<char>,
    c1: (int, CommandModel),
    c2: (int, CommandModel),
    tree: Entries,
    rid: Seq<char>,
)
    requires
        f.id_of(target_name(cur, c1.1)) == Some(rid),
        f.id_of(target_name(cur, c2.1)) == Some(rid),
        tree_contains(tree, rid),
    ensures
        scan_spec(f, p, cur, seq![c1, c2], tree, Seq::empty()) == Ok::<_, Seq<char>>(
            (seq![InsertionPointModel { index: c1.0, fname: rid }], tree),
        ),
{
    let cmds = seq![c1, c2];
    let acc0 = Seq::<InsertionPointModel>::empty();
    let pt = InsertionPointModel { index: c1.0, fname: rid };
    let acc1 = acc0.push(pt);
    assert(cmds[0] == c1);
    assert(!crate::deps::points_contain(acc0, rid));
    assert(cmds.drop_first() =~= seq![c2]);
    assert(seq![c2].drop_first() =~= Seq::<(int, CommandModel)>::empty());
    assert(crate::deps::points_contain(acc1, rid)) by {
        assert(acc1[0].fname == rid);
    }
    assert(scan_spec(f, p, cur, Seq::empty(), tree, acc1) == Ok::<_, Seq<char>>((acc1, tree)));
    assert(scan_spec(f, p, cur, seq![c2], tree, acc1) == Ok::<_, Seq<char>>((acc1, tree)));
    assert(acc1 =~= seq![pt]);
}

/// Assembly is deterministic: over one and the same graph it is a function,
/// so repeated runs produce identical output.
pub proof fn lemma_assemble_deterministic(t1: Entries, t2: Entries)
    requires
        t1 == t2,
    ensures
        assembled(t1) == assembled(t2),
{
}

} // verus!
