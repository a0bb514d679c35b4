use ez_cli::pattern::{Filter, Glob};
use ez_cli::render::{draw_lines, BLANK, BRANCH, CORNER, LINE, NO_MATCHES};
use ez_cli::tree::{build, names_in_order, Node};

fn file(name: &str) -> Node {
    Node { name: name.to_string(), path: format!("/data/{}", name), is_dir: false, children: Vec::new() }
}

fn dir(name: &str, children: Vec<Node>) -> Node {
    Node { name: name.to_string(), path: format!("/data/{}", name), is_dir: true, children }
}

fn strings(v: &[&str]) -> Vec<String> {
    v.iter().map(|s| s.to_string()).collect()
}

fn filter(includes: &[&str], excludes: &[&str]) -> Filter {
    Filter::new(&strings(includes), &strings(excludes))
}

fn names(n: &Node) -> Vec<String> {
    n.children.iter().map(|c| c.name.clone()).collect()
}

#[test]
fn excluded_log_and_empty_dir_leave_one_file() {
    let root = dir(
        "data",
        vec![file("skip.log"), dir("tmp", vec![file("debug.log")]), file("keep.txt")],
    );
    let f = filter(&[], &["*.log"]);
    let built = build(&root, &f).expect("keep.txt survives");
    assert_eq!(names(&built), vec!["keep.txt".to_string()]);
    let lines = draw_lines("data", &Some(built));
    assert_eq!(lines, vec!["data".to_string(), "└── keep.txt".to_string()]);
}

#[test]
fn everything_filtered_prints_name_and_no_matches() {
    let root = dir("data", vec![file("a.log"), dir("sub", vec![file("b.log")])]);
    let f = filter(&[], &["*.log"]);
    let built = build(&root, &f);
    assert!(built.is_none());
    let lines = draw_lines("data", &built);
    assert_eq!(lines, vec!["data".to_string(), NO_MATCHES.to_string()]);
    assert_eq!(NO_MATCHES, "(No files found matching patterns)");
}

#[test]
fn connectors_for_three_children() {
    let root = dir(
        "root",
        vec![
            dir("c", vec![file("z")]),
            dir("a", vec![file("x")]),
            dir("b", vec![file("y")]),
        ],
    );
    let built = build(&root, &filter(&[], &[])).unwrap();
    let lines = draw_lines("root", &Some(built));
    let expected = vec![
        "root".to_string(),
        format!("{}a", BRANCH),
        format!("{}{}x", LINE, CORNER),
        format!("{}b", BRANCH),
        format!("{}{}y", LINE, CORNER),
        format!("{}c", CORNER),
        format!("{}{}z", BLANK, CORNER),
    ];
    assert_eq!(lines, expected);
    assert_eq!(lines[1], "├── a");
    assert_eq!(lines[2], "│   └── x");
    assert_eq!(lines[6], "    └── z");
}

#[test]
fn empty_filter_keeps_everything_sorted() {
    let root = dir(
        "root",
        vec![
            file("b.txt"),
            dir("src", vec![file("main.rs"), file("lib.rs")]),
            file("B.txt"),
            file("a.txt"),
        ],
    );
    let built = build(&root, &filter(&[], &[])).unwrap();
    assert_eq!(built.name, "root");
    assert!(built.is_dir);
    assert_eq!(names(&built), strings(&["B.txt", "a.txt", "b.txt", "src"]));
    let src = &built.children[3];
    assert!(src.is_dir);
    assert_eq!(names(src), strings(&["lib.rs", "main.rs"]));
    assert_eq!(src.path, "/data/src");
}

#[test]
fn excluded_directory_is_cut_with_its_subtree() {
    let root = dir(
        "repo",
        vec![
            dir(".git", vec![file("config"), dir("objects", vec![file("ab")])]),
            file("README.md"),
        ],
    );
    let built = build(&root, &filter(&[], &[".git"])).unwrap();
    assert_eq!(names(&built), strings(&["README.md"]));
}

#[test]
fn directory_with_only_excluded_content_is_pruned() {
    let root = dir("repo", vec![dir("cache", vec![file("a.pyc"), file("b.pyc")]), file("main.py")]);
    let built = build(&root, &filter(&[], &["*.pyc"])).unwrap();
    assert_eq!(names(&built), strings(&["main.py"]));
}

#[test]
fn exclusion_wins_over_inclusion() {
    let root = dir("repo", vec![file("keep.rs"), file("gen.rs")]);
    let built = build(&root, &filter(&["*.rs"], &["gen*"])).unwrap();
    assert_eq!(names(&built), strings(&["keep.rs"]));
}

#[test]
fn pruning_propagates_through_levels() {
    let root = dir(
        "root",
        vec![
            dir("a", vec![dir("b", vec![dir("c", vec![file("notes.md")])])]),
            file("main.rs"),
        ],
    );
    let built = build(&root, &filter(&["*.rs"], &[])).unwrap();
    assert_eq!(names(&built), strings(&["main.rs"]));
    let none = build(&dir("a", vec![dir("b", vec![file("x.md")])]), &filter(&["*.rs"], &[]));
    assert!(none.is_none());
}

#[test]
fn include_keeps_matching_files_in_nested_dirs() {
    let root = dir("root", vec![dir("src", vec![file("lib.rs"), file("notes.md")]), file("Cargo.toml")]);
    let built = build(&root, &filter(&["*.rs"], &[])).unwrap();
    assert_eq!(names(&built), strings(&["src"]));
    assert_eq!(names(&built.children[0]), strings(&["lib.rs"]));
    let lines = draw_lines("root", &Some(built));
    assert_eq!(lines, strings(&["root", "└── src", "    └── lib.rs"]));
}

#[test]
fn empty_directory_is_pruned() {
    let root = dir("root", vec![dir("empty", vec![]), file("f")]);
    let built = build(&root, &filter(&[], &[])).unwrap();
    assert_eq!(names(&built), strings(&["f"]));
    assert!(build(&dir("empty", vec![]), &filter(&[], &[])).is_none());
}

#[test]
fn single_file_root() {
    let built = build(&file("only.txt"), &filter(&[], &[])).unwrap();
    assert!(!built.is_dir);
    assert!(built.children.is_empty());
    assert!(build(&file("only.txt"), &filter(&["*.rs"], &[])).is_none());
}

#[test]
fn rendering_is_independent_of_listing_order() {
    let one = dir("r", vec![file("b"), dir("d", vec![file("y"), file("x")]), file("a")]);
    let two = dir("r", vec![dir("d", vec![file("x"), file("y")]), file("a"), file("b")]);
    let f = filter(&[], &[]);
    let l1 = draw_lines("r", &build(&one, &f));
    let l2 = draw_lines("r", &build(&two, &f));
    assert_eq!(l1, l2);
    assert_eq!(l1, strings(&["r", "├── a", "├── b", "└── d", "    ├── x", "    └── y"]));
}

#[test]
fn invalid_patterns_are_dropped() {
    let f = filter(&["[abc", "*.rs"], &["a**b"]);
    assert!(f.is_included("main.rs"));
    assert!(!f.is_included("main.py"));
    assert!(!f.is_excluded("a**b"));
    assert!(Glob::parse("[abc").is_none());
    assert!(Glob::parse("***").is_none());
}

#[test]
fn filter_decisions() {
    let f = filter(&[], &["*.log", "target"]);
    assert!(f.is_excluded("x.log"));
    assert!(f.is_excluded("target"));
    assert!(!f.is_excluded("src"));
    assert!(f.is_included("anything"));
    let g = filter(&["c?t", "[!k]og"], &[]);
    assert!(g.is_included("cat"));
    assert!(g.is_included("dog"));
    assert!(!g.is_included("kog"));
    assert!(!g.is_excluded("cat"));
}

#[test]
fn glob_matching_and_text() {
    let g = Glob::parse("d*g").unwrap();
    assert!(g.matches("doog"));
    assert!(!g.matches("cat"));
    assert_eq!(g.as_text(), "d*g");
}

#[test]
fn name_order() {
    assert!(names_in_order("a", "b"));
    assert!(!names_in_order("b", "a"));
    assert!(names_in_order("B", "a"));
    assert!(names_in_order("ab", "abc"));
    assert!(!names_in_order("abc", "ab"));
    assert!(names_in_order("", ""));
    assert!(names_in_order("same", "same"));
    assert!(names_in_order("z", "é"));
}
