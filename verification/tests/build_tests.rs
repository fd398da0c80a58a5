use preproc::build_file;
use preproc::deps::{
    create_depfile, generate_deptree, join_deptrees, DepTree, FileData, InsertionPoint,
};
use preproc::filefetcher::{FileFetcher, FileName, MemoryFetcher};
use preproc::process::CommentParser;

/// One graph entry as the builder records it: the raw text and the points
/// where other files are spliced in.
fn entry(tree: &mut DepTree, name: &str, text: &str, points: Vec<(usize, &str)>) {
    let points = points
        .into_iter()
        .map(|(i, f)| InsertionPoint::new(i, f.to_string()))
        .collect();
    tree.insert(name.to_string(), FileData { source: text.to_string(), points });
}

#[test]
fn single_file_roundtrip() {
    let mut fetcher = MemoryFetcher::new();
    fetcher.add_file("solo.txt", "first line\nsecond line\nthird line");
    let parser: CommentParser = "//".into();
    let (name, tree) = generate_deptree("solo.txt", &mut fetcher, &parser).expect("builds");
    assert_eq!(name, "solo.txt");
    let out = build_file(&tree).expect("assembles");
    assert_eq!(out, "first line\nsecond line\nthird line");
}

#[test]
fn trailing_newline_is_not_restored() {
    let mut fetcher = MemoryFetcher::new();
    fetcher.add_file("solo.txt", "only line\n");
    let parser: CommentParser = "//".into();
    let (_, tree) = generate_deptree("solo.txt", &mut fetcher, &parser).expect("builds");
    assert_eq!(build_file(&tree).expect("assembles"), "only line");
}

#[test]
fn crlf_line_endings_become_lf() {
    let mut fetcher = MemoryFetcher::new();
    fetcher.add_file("solo.txt", "alpha\r\nbeta");
    let parser: CommentParser = "//".into();
    let (_, tree) = generate_deptree("solo.txt", &mut fetcher, &parser).expect("builds");
    assert_eq!(build_file(&tree).expect("assembles"), "alpha\nbeta");
}

#[test]
fn linear_chain_splices_nested() {
    let mut fetcher = MemoryFetcher::new();
    fetcher.add_file("a", "A begin\n//&include <b>\nA end");
    fetcher.add_file("b", "B begin\n//&include <c>\nB end");
    fetcher.add_file("c", "C only");
    let parser: CommentParser = "//".into();
    let (name, tree) = generate_deptree("a", &mut fetcher, &parser).expect("builds");
    assert_eq!(name, "a");
    let out = build_file(&tree).expect("assembles");
    assert_eq!(out, "A begin\nB begin\nC only\nB end\nA end");
}

#[test]
fn mutual_cycle_terminates_and_suppresses_backref() {
    let mut fetcher = MemoryFetcher::new();
    fetcher.add_file("a", "A begin\n//&include <b>\nA end");
    fetcher.add_file("b", "B begin\n//&include <a>\nB end");
    let parser: CommentParser = "//".into();
    let (_, tree) = generate_deptree("a", &mut fetcher, &parser).expect("builds");
    let out = build_file(&tree).expect("assembles");
    assert_eq!(out, "A begin\nB begin\nB end\nA end");
}

#[test]
fn duplicate_target_keeps_first_point_only() {
    let mut fetcher = MemoryFetcher::new();
    fetcher.add_file("a", "top\n//&include <b>\nmiddle\n//&include <b>\nbottom");
    fetcher.add_file("b", "B");
    let parser: CommentParser = "//".into();
    let (_, tree) = generate_deptree("a", &mut fetcher, &parser).expect("builds");
    let fd: &FileData = tree.get("a").expect("entry for a");
    assert_eq!(fd.points.len(), 1);
    assert_eq!(fd.points[0].index, 1);
    assert_eq!(fd.points[0].fname, "b");
    // the second directive gains no insertion point, so its raw line stays
    let out = build_file(&tree).expect("assembles");
    assert_eq!(out, "top\nB\nmiddle\n//&include <b>\nbottom");
}

#[test]
fn assembly_is_deterministic() {
    let mut fetcher = MemoryFetcher::new();
    fetcher.add_file("a", "A begin\n//&include <b>\nA end");
    fetcher.add_file("b", "B begin\n//&include <a>\nB end");
    let parser: CommentParser = "//".into();
    let (_, tree) = generate_deptree("a", &mut fetcher, &parser).expect("builds");
    let first = build_file(&tree).expect("assembles");
    let second = build_file(&tree).expect("assembles");
    assert_eq!(first, second);
}

#[test]
fn cyclic_three_file_scenario() {
    // the graph that building from `a.txt` discovers, with the directive of
    // each file on its middle line and `c.txt` referring back to `a.txt`
    let mut tree = DepTree::new();
    entry(
        &mut tree,
        "a.txt",
        "File a.txt begin\n<include b.txt>\nFile a.txt end",
        vec![(1, "b.txt")],
    );
    entry(
        &mut tree,
        "b.txt",
        "File b.txt begin\n<include c.txt>\nFile b.txt end",
        vec![(1, "c.txt")],
    );
    entry(
        &mut tree,
        "c.txt",
        "File c.txt begin\n<include a.txt>\nFile c.txt end",
        vec![(1, "a.txt")],
    );
    let out = build_file(&tree).expect("assembles");
    assert_eq!(
        out,
        "File a.txt begin\nFile b.txt begin\nFile c.txt begin\nFile c.txt end\nFile b.txt end\nFile a.txt end"
    );
}

#[test]
fn empty_tree_is_refused() {
    let tree = DepTree::new();
    let err = build_file(&tree).expect_err("nothing to assemble");
    assert_eq!(err, "empty dependency tree");
}

#[test]
fn missing_seed_reports_not_found() {
    let mut fetcher = MemoryFetcher::new();
    let parser: CommentParser = "//".into();
    let err = generate_deptree("missing.txt", &mut fetcher, &parser).expect_err("no such file");
    assert_eq!(err, "file not found \"missing.txt\" (local to ./)");
}

#[test]
fn missing_target_reports_not_found() {
    let mut fetcher = MemoryFetcher::new();
    fetcher.add_file("a", "head\n//&include <ghost>\ntail");
    let parser: CommentParser = "//".into();
    let err = generate_deptree("a", &mut fetcher, &parser).expect_err("target is missing");
    assert_eq!(err, "file not found <ghost>");
}

#[test]
fn build_aborts_on_malformed_directive() {
    let mut fetcher = MemoryFetcher::new();
    fetcher.add_file("a", "//&wrong <not read>");
    let parser: CommentParser = "//".into();
    let err = generate_deptree("a", &mut fetcher, &parser).expect_err("file shouldn't parse");
    assert_eq!(err, "line 0: invalid preproc statement `wrong <not read>`");
}

#[test]
fn describe_names_both_reference_forms() {
    let g = FileName::Global(String::from("x.h"));
    assert_eq!(g.describe(), "<x.h>");
    let l = FileName::LocalTo(String::from("y.h"), String::from("dir/z.c"));
    assert_eq!(l.describe(), "\"y.h\" (local to dir/z.c)");
}

#[test]
fn memory_fetcher_overwrites_on_same_name() {
    let mut fetcher = MemoryFetcher::new();
    fetcher.add_file("a", "old text");
    fetcher.add_file("a", "new text");
    let fetched = fetcher.fetch(&FileName::Global(String::from("a"))).expect("file exists");
    assert_eq!(fetched.name, "a");
    assert_eq!(fetched.content, "new text");
    assert!(fetcher.fetch(&FileName::Global(String::from("zzz"))).is_none());
    let resolved = fetcher.resolve_name(&FileName::LocalTo(String::from("a"), String::from("p")));
    assert_eq!(resolved, Some(String::from("a")));
}

#[test]
fn join_prefers_second_tree() {
    let mut fetcher1 = MemoryFetcher::new();
    fetcher1.add_file("a", "A1");
    let mut fetcher2 = MemoryFetcher::new();
    fetcher2.add_file("a", "A2");
    fetcher2.add_file("b", "B2");
    let parser: CommentParser = "//".into();
    let (_, t1) = generate_deptree("a", &mut fetcher1, &parser).expect("builds");
    let (_, t2) = generate_deptree("a", &mut fetcher2, &parser).expect("builds");
    let (_, t3) = generate_deptree("b", &mut fetcher2, &parser).expect("builds");
    let joined = join_deptrees(t1, t2);
    let joined = join_deptrees(joined, t3);
    assert_eq!(joined.len(), 2);
    assert_eq!(joined.get("a").expect("kept").source, "A2");
    assert_eq!(joined.get("b").expect("kept").source, "B2");
}

#[test]
fn depfile_lists_and_normalizes() {
    let mut fetcher = MemoryFetcher::new();
    fetcher.add_file("src\\a.c", "head\n//&include <sys\\b.h>\ntail");
    fetcher.add_file("sys\\b.h", "B");
    let parser: CommentParser = "//".into();
    let (_, tree) = generate_deptree("src\\a.c", &mut fetcher, &parser).expect("builds");
    let line = create_depfile("out\\a.i", Some("src\\"), &tree);
    assert_eq!(line, "out/a.i: a.c sys/b.h");
}
