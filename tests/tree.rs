use tre::entry::text_less;
use tre::listing::{is_shown, order_entries};
use tre::render::{render_lines, style_name};
use tre::request::{depth_shorthand, resolve_request, DEFAULT_DEPTH};
use tre::tree::{is_current_dir, label_root};
use tre::{tre, Entry};

fn entry(path: &str, is_dir: bool) -> Entry {
    let components = if path.is_empty() {
        Vec::new()
    } else {
        path.split('/').map(|s| s.to_string()).collect()
    };
    Entry { components, is_dir }
}

fn dir(path: &str) -> Entry {
    entry(path, true)
}

fn file(path: &str) -> Entry {
    entry(path, false)
}

/// The directory `tests/case1` as a walk might meet it, in no useful order.
fn case1() -> Vec<Entry> {
    vec![
        dir(""),
        dir("dir_0_0"),
        file("file_2.txt"),
        dir("dir_0_0/dir_1_1"),
        file("dir_0_0/dir_1_1/file_1.txt"),
        dir("dir_0_0/dir_1_1/dir_2_0"),
        dir("dir_0_0/dir_1_1/dir_2_0/dir_3_1"),
        file("dir_0_0/dir_1_1/dir_2_0/dir_3_1/.gitkeep"),
        dir("dir_0_0/dir_1_1/dir_2_0/dir_3_0"),
        file("dir_0_0/dir_1_1/dir_2_0/dir_3_0/file_0.txt"),
        file("dir_0_0/dir_1_1/dir_2_0/file_0.txt"),
        file("dir_0_0/dir_1_1/file_0.txt"),
        dir("dir_0_0/dir_1_0"),
        dir("dir_0_0/dir_1_0/dir_2_1"),
        file("dir_0_0/dir_1_0/dir_2_1/.gitkeep"),
        dir("dir_0_0/dir_1_0/dir_2_0"),
        file("dir_0_0/dir_1_0/dir_2_0/file_1.txt"),
        file("dir_0_0/dir_1_0/dir_2_0/file_0.txt"),
        file("dir_0_0/file_0.txt"),
        file("file_0.txt"),
        file(".gitignore"),
        file("file_1.txt"),
    ]
}

fn names(entries: &[Entry]) -> Vec<String> {
    entries.iter().map(|e| e.components.join("/")).collect()
}

#[test]
fn example1() {
    let expected: Vec<&str> = "\u{1b}[34mtests/case1\u{1b}[0m
├── .gitignore
├── file_0.txt
├── file_1.txt
├── file_2.txt
└── \u{1b}[34mdir_0_0\u{1b}[0m
    ├── file_0.txt
    ├── \u{1b}[34mdir_1_0\u{1b}[0m
    │   ├── \u{1b}[34mdir_2_0\u{1b}[0m
    │   │   ├── file_0.txt
    │   │   └── file_1.txt
    │   └── \u{1b}[34mdir_2_1\u{1b}[0m
    └── \u{1b}[34mdir_1_1\u{1b}[0m
        ├── file_0.txt
        ├── file_1.txt
        └── \u{1b}[34mdir_2_0\u{1b}[0m
            ├── file_0.txt
            ├── \u{1b}[34mdir_3_0\u{1b}[0m
            │   └── file_0.txt
            └── \u{1b}[34mdir_3_1\u{1b}[0m"
        .lines()
        .collect();

    let actual = tre("tests/case1".into(), 7, case1(), None, true).unwrap();
    let actual: Vec<&str> = actual.lines().collect();
    actual
        .iter()
        .zip(expected.clone())
        .rev()
        .for_each(|(&act, exp)| assert_eq!(act, exp));
    assert_eq!(actual.len(), expected.len());
}

const BAR: &str = "│\u{a0}\u{a0} ";
const PAD: &str = " \u{a0}\u{a0} ";

#[test]
fn plain_scenario_is_exact() {
    let rows = [
        "tests/case1".to_string(),
        "├── .gitignore".to_string(),
        "├── file_0.txt".to_string(),
        "├── file_1.txt".to_string(),
        "├── file_2.txt".to_string(),
        "└── dir_0_0".to_string(),
        format!("{PAD}├── file_0.txt"),
        format!("{PAD}├── dir_1_0"),
        format!("{PAD}{BAR}├── dir_2_0"),
        format!("{PAD}{BAR}{BAR}├── file_0.txt"),
        format!("{PAD}{BAR}{BAR}└── file_1.txt"),
        format!("{PAD}{BAR}└── dir_2_1"),
        format!("{PAD}└── dir_1_1"),
        format!("{PAD}{PAD}├── file_0.txt"),
        format!("{PAD}{PAD}├── file_1.txt"),
        format!("{PAD}{PAD}└── dir_2_0"),
        format!("{PAD}{PAD}{PAD}├── file_0.txt"),
        format!("{PAD}{PAD}{PAD}├── dir_3_0"),
        format!("{PAD}{PAD}{PAD}{BAR}└── file_0.txt"),
        format!("{PAD}{PAD}{PAD}└── dir_3_1"),
    ];
    let expected: String = rows.iter().map(|r| format!("{r}\n")).collect();
    let actual = tre("tests/case1".into(), 5, case1(), None, false).unwrap();
    assert_eq!(actual, expected);
}

#[test]
fn ordering_files_before_subdirectories() {
    let ordered = order_entries(case1(), 7);
    assert_eq!(
        names(&ordered),
        vec![
            "",
            ".gitignore",
            "file_0.txt",
            "file_1.txt",
            "file_2.txt",
            "dir_0_0",
            "dir_0_0/file_0.txt",
            "dir_0_0/dir_1_0",
            "dir_0_0/dir_1_0/dir_2_0",
            "dir_0_0/dir_1_0/dir_2_0/file_0.txt",
            "dir_0_0/dir_1_0/dir_2_0/file_1.txt",
            "dir_0_0/dir_1_0/dir_2_1",
            "dir_0_0/dir_1_1",
            "dir_0_0/dir_1_1/file_0.txt",
            "dir_0_0/dir_1_1/file_1.txt",
            "dir_0_0/dir_1_1/dir_2_0",
            "dir_0_0/dir_1_1/dir_2_0/file_0.txt",
            "dir_0_0/dir_1_1/dir_2_0/dir_3_0",
            "dir_0_0/dir_1_1/dir_2_0/dir_3_0/file_0.txt",
            "dir_0_0/dir_1_1/dir_2_0/dir_3_1",
        ]
    );
}

#[test]
fn ordering_keeps_subtrees_together() {
    // "a-b" sorts between "a" and "a/c" as plain text; the tree keeps a's
    // contents under a.
    let walked = vec![dir(""), dir("a-b"), dir("a"), file("a/c"), dir("a/d"), file("a-b/e")];
    let ordered = order_entries(walked, 3);
    assert_eq!(names(&ordered), vec!["", "a", "a/c", "a/d", "a-b", "a-b/e"]);
}

#[test]
fn line_count_matches_entries() {
    let ordered = order_entries(case1(), 7);
    let lines = render_lines(&ordered, "root", false);
    assert_eq!(lines.len(), ordered.len());
    assert_eq!(lines.len(), 20);
    assert!(lines.iter().all(|l| l.ends_with('\n') && l.matches('\n').count() == 1));
    let text = tre("root".into(), 7, case1(), None, false).unwrap();
    assert_eq!(text.matches('\n').count(), 20);
}

#[test]
fn last_child_gets_the_elbow() {
    let walked = vec![dir(""), file("x"), dir("b"), file("a"), dir("c")];
    let text = tre("r".into(), 2, walked, None, false).unwrap();
    assert_eq!(text, "r\n├── a\n├── x\n├── b\n└── c\n");
}

#[test]
fn indentation_has_depth_less_one_segments() {
    let walked = vec![dir(""), dir("a"), dir("a/b"), file("a/b/c"), file("z")];
    let text = tre("r".into(), 5, walked, None, false).unwrap();
    let lines: Vec<&str> = text.lines().collect();
    assert_eq!(lines[0], "r");
    assert_eq!(lines[1], "├── z");
    assert_eq!(lines[2], "└── a");
    assert_eq!(lines[3], format!("{PAD}└── b"));
    assert_eq!(lines[4], format!("{PAD}{PAD}└── c"));
}

#[test]
fn continuation_bar_while_ancestor_open() {
    let walked = vec![dir(""), dir("a"), dir("a/b"), file("a/b/c"), dir("d")];
    let text = tre("r".into(), 5, walked, None, false).unwrap();
    assert_eq!(text, format!("r\n├── a\n{BAR}└── b\n{BAR}{PAD}└── c\n└── d\n"));
}

#[test]
fn redraw_is_identical() {
    let a = tre("tests/case1".into(), 5, case1(), None, true);
    let b = tre("tests/case1".into(), 5, case1(), None, true);
    assert_eq!(a, b);
    let mut reversed = case1();
    reversed.reverse();
    let c = tre("tests/case1".into(), 5, reversed, None, true);
    assert_eq!(a, c);
}

#[test]
fn depth_zero_renders_root_only() {
    let text = tre("tests/case1".into(), 0, case1(), None, false).unwrap();
    assert_eq!(text, "tests/case1\n");
}

#[test]
fn current_dir_shows_its_own_name() {
    let text = tre(".".into(), 1, vec![dir(""), file("a")], Some("project".into()), false).unwrap();
    assert_eq!(text, "project\n└── a\n");
    assert_eq!(label_root(".", Some("project".into())), Some("project".to_string()));
    assert_eq!(label_root("src", Some("project".into())), Some("src".to_string()));
}

#[test]
fn current_dir_without_name_gives_nothing() {
    assert_eq!(tre(".".into(), 1, vec![dir("")], None, false), None);
    assert_eq!(label_root(".", None), None);
    assert!(is_current_dir("."));
    assert!(!is_current_dir("./"));
    assert!(!is_current_dir(".."));
}

#[test]
fn git_directory_and_keep_files_are_left_out() {
    let walked = vec![
        dir(""),
        dir(".git"),
        file(".git/HEAD"),
        file(".gitkeep"),
        dir("sub"),
        file("sub/.gitkeep"),
        dir("sub/.git"),
        dir(".gitkeep"),
    ];
    let text = tre("r".into(), 5, walked, None, false).unwrap();
    assert_eq!(text, format!("r\n├── .gitkeep\n└── sub\n{PAD}└── .git\n"));
    assert!(!is_shown(&dir(".git"), 3));
    assert!(!is_shown(&file(".git/x"), 3));
    assert!(is_shown(&file(".github"), 3));
    assert!(!is_shown(&file("a/.gitkeep"), 3));
    assert!(is_shown(&dir("a/.gitkeep"), 3));
    assert!(!is_shown(&file("a/b"), 1));
    assert!(is_shown(&dir(""), 0));
}

#[test]
fn empty_walk_draws_nothing() {
    assert_eq!(tre("r".into(), 3, Vec::new(), None, true), Some(String::new()));
}

#[test]
fn directories_are_styled_in_blue() {
    assert_eq!(style_name("d", true, true), "\u{1b}[34md\u{1b}[0m");
    assert_eq!(style_name("f", false, true), "f");
    assert_eq!(style_name("d", true, false), "d");
    let text = tre("r".into(), 1, vec![dir(""), dir("d"), file("f")], None, true).unwrap();
    assert_eq!(text, "\u{1b}[34mr\u{1b}[0m\n├── f\n└── \u{1b}[34md\u{1b}[0m\n");
}

#[test]
fn names_compare_by_code_point() {
    assert!(text_less("a", "b"));
    assert!(text_less("a", "ab"));
    assert!(!text_less("ab", "a"));
    assert!(!text_less("a", "a"));
    assert!(text_less("B", "a"));
    assert!(text_less("z", "é"));
    assert!(text_less("", "a"));
}

#[test]
fn bare_number_with_default_depth_means_current_dir() {
    let (path, depth) = resolve_request("4".into(), DEFAULT_DEPTH);
    assert_eq!((path.as_str(), depth), (".", 4));
    let (path, depth) = resolve_request("012".into(), DEFAULT_DEPTH);
    assert_eq!((path.as_str(), depth), (".", 12));
}

#[test]
fn explicit_depth_or_real_path_stands() {
    let (path, depth) = resolve_request("4".into(), 2);
    assert_eq!((path.as_str(), depth), ("4", 2));
    let (path, depth) = resolve_request("src".into(), DEFAULT_DEPTH);
    assert_eq!((path.as_str(), depth), ("src", 5));
    let (path, depth) = resolve_request("+4".into(), DEFAULT_DEPTH);
    assert_eq!((path.as_str(), depth), ("+4", 5));
    let (path, depth) = resolve_request("".into(), DEFAULT_DEPTH);
    assert_eq!((path.as_str(), depth), ("", 5));
}

#[test]
fn depth_shorthand_rejects_overflow() {
    assert_eq!(depth_shorthand("99999999999999999999999"), None);
    assert_eq!(depth_shorthand(&usize::MAX.to_string()), Some(usize::MAX));
    assert_eq!(depth_shorthand("7"), Some(7));
    assert_eq!(depth_shorthand("7a"), None);
}
