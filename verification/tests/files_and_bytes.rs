use lib::dirs::{dir_action, dir_plan, join_path, only_in_line, sort_names, worse_status, DirAction};
use lib::edit::Edit::{Delete, Equal, Insert};
use lib::options::{DiffFormat, DiffOpts};
use lib::report::{diff_lines, diff_report, side_by_side_fits};
use lib::tools::{bytes_report, compare_bytes, parse_bytes_args, BytesCommand, ByteVerdict};

fn lines(v: &[&str]) -> Vec<String> {
    v.iter().map(|s| s.to_string()).collect()
}

#[test]
fn identical_files_report_nothing_or_identity() {
    let a = lines(&["x"]);
    let r = diff_lines("p", "q", &a, &a, &DiffOpts::default()).unwrap();
    assert!(r.lines.is_empty());
    assert_eq!(r.status, 0);
    let mut o = DiffOpts::default();
    o.report_identical = true;
    let r = diff_lines("p", "q", &a, &a, &o).unwrap();
    assert_eq!(r.lines, lines(&["Files p and q are identical"]));
    assert_eq!(r.status, 0);
}

#[test]
fn brief_report() {
    let mut o = DiffOpts::default();
    o.brief = true;
    let r = diff_lines("p", "q", &lines(&["x"]), &lines(&["y"]), &o).unwrap();
    assert_eq!(r.lines, lines(&["Files p and q differ"]));
    assert_eq!(r.status, 1);
}

#[test]
fn report_in_each_form() {
    let a = lines(&["a", "b", "c"]);
    let b = lines(&["a", "x", "c"]);
    let mut o = DiffOpts::default();
    let r = diff_lines("p", "q", &a, &b, &o).unwrap();
    assert_eq!(r.lines, lines(&["2c2", "< b", "---", "> x"]));
    assert_eq!(r.status, 1);
    o.format = DiffFormat::Unified(1);
    let r = diff_lines("p", "q", &a, &b, &o).unwrap();
    assert_eq!(r.lines, lines(&["--- p", "+++ q", "@@ -1,3 +1,3 @@", " a", "-b", "+x", " c"]));
    o.labels = lines(&["L"]);
    o.format = DiffFormat::Context(1);
    let r = diff_lines("p", "q", &a, &b, &o).unwrap();
    assert_eq!(
        r.lines,
        lines(&["*** L", "--- q", "***************", "*** 1,3 ****", "  a", "- b", "  c", "--- 1,3 ----", "  a", "+ x", "  c"])
    );
    o.format = DiffFormat::Ed;
    assert_eq!(diff_lines("p", "q", &a, &b, &o).unwrap().lines, lines(&["2a", "x", ".", "2d"]));
    o.format = DiffFormat::Rcs;
    assert_eq!(diff_lines("p", "q", &a, &b, &o).unwrap().lines, lines(&["d2 1", "a2 1", "x"]));
    o.format = DiffFormat::SideBySide;
    assert_eq!(diff_lines("p", "q", &a, &b, &o).unwrap().lines.len(), 4);
}

#[test]
fn report_from_a_given_script() {
    let a = lines(&["a"]);
    let b = lines(&["b"]);
    let r = diff_report(&[Delete(0), Insert(0)], "p", "q", &a, &b, &DiffOpts::default());
    assert_eq!(r.lines, lines(&["1c1", "< a", "---", "> b"]));
    assert_eq!(r.status, 1);
    let r = diff_report(&[], "p", "q", &a, &b, &DiffOpts::default());
    assert!(r.lines.is_empty());
    assert_eq!(r.status, 0);
}

#[test]
fn side_by_side_refuses_to_cut_inside_a_character() {
    let long = format!("{}é tail tail tail", "a".repeat(34));
    let a = lines(&[long.as_str()]);
    let b = lines(&["b"]);
    assert!(!side_by_side_fits(&[Delete(0), Insert(0)], &a, &b));
    assert!(side_by_side_fits(&[Insert(0)], &a, &b));
    assert!(!side_by_side_fits(&[Equal(0, 0)], &b, &a));
    let mut o = DiffOpts::default();
    o.format = DiffFormat::SideBySide;
    assert!(diff_lines("p", "q", &a, &b, &o).is_none());
    o.brief = true;
    assert!(diff_lines("p", "q", &a, &b, &o).is_some());
}

#[test]
fn bytes_compare_equal() {
    assert_eq!(compare_bytes(b"same\n", b"same\n"), ByteVerdict::Same);
    assert_eq!(compare_bytes(b"", b""), ByteVerdict::Same);
}

#[test]
fn bytes_compare_first_difference() {
    assert_eq!(compare_bytes(b"abc", b"abd"), ByteVerdict::Differ { byte: 3, line: 1 });
    assert_eq!(compare_bytes(b"a\nb\nc", b"a\nb\nX"), ByteVerdict::Differ { byte: 5, line: 3 });
    // a newline at the differing byte already counts
    assert_eq!(compare_bytes(b"a\n", b"ab"), ByteVerdict::Differ { byte: 2, line: 2 });
}

#[test]
fn bytes_compare_early_end() {
    assert_eq!(compare_bytes(b"ab", b"abc"), ByteVerdict::Eof { first_is_shorter: true });
    assert_eq!(compare_bytes(b"abc", b"ab"), ByteVerdict::Eof { first_is_shorter: false });
}

#[test]
fn bytes_command_line() {
    let a = lines(&["-s", "x", "-l", "y", "z"]);
    match parse_bytes_args(&a) {
        BytesCommand::Compare { silent, files } => {
            assert!(silent);
            assert_eq!(files, lines(&["x", "y", "z"]));
        }
        _ => panic!("expected a comparison"),
    }
    assert!(matches!(parse_bytes_args(&lines(&["x", "-"])), BytesCommand::MissingOperand));
    assert!(matches!(parse_bytes_args(&lines(&["x", "y", "--version"])), BytesCommand::Version));
    match parse_bytes_args(&lines(&["--quiet", "x", "y"])) {
        BytesCommand::Compare { silent, .. } => assert!(silent),
        _ => panic!("expected a comparison"),
    }
    match parse_bytes_args(&lines(&["x", "y"])) {
        BytesCommand::Compare { silent, .. } => assert!(!silent),
        _ => panic!("expected a comparison"),
    }
}

#[test]
fn bytes_reports() {
    let r = bytes_report("f1", "f2", ByteVerdict::Differ { byte: 12, line: 3 }, false);
    assert_eq!(r.stdout, Some("f1 f2 differ: byte 12, line 3".to_string()));
    assert_eq!(r.stderr, None);
    assert_eq!(r.status, 1);
    let r = bytes_report("f1", "f2", ByteVerdict::Eof { first_is_shorter: false }, false);
    assert_eq!(r.stderr, Some("cmp: EOF on f2".to_string()));
    assert_eq!(r.status, 1);
    let r = bytes_report("f1", "f2", ByteVerdict::Eof { first_is_shorter: true }, true);
    assert_eq!((r.stdout, r.stderr, r.status), (None, None, 1));
    let r = bytes_report("f1", "f2", ByteVerdict::Same, false);
    assert_eq!((r.stdout, r.stderr, r.status), (None, None, 0));
    let r = bytes_report("f1", "f2", ByteVerdict::Differ { byte: 12, line: 3 }, true);
    assert_eq!((r.stdout, r.stderr, r.status), (None, None, 1));
}

#[test]
fn names_sort_by_code_point() {
    let v = lines(&["b", "B", "a", "ab", "", "é", "a"]);
    assert_eq!(sort_names(&v), lines(&["", "B", "a", "a", "ab", "b", "é"]));
}

#[test]
fn directory_plan() {
    let e1 = lines(&["z", "common", "left"]);
    let e2 = lines(&["right", "common"]);
    let p = dir_plan(&e1, &e2);
    let names: Vec<&str> = p.iter().map(|d| d.name.as_str()).collect();
    assert_eq!(names, vec!["common", "left", "right", "z"]);
    let flags: Vec<(bool, bool)> = p.iter().map(|d| (d.in_first, d.in_second)).collect();
    assert_eq!(flags, vec![(true, true), (true, false), (false, true), (true, false)]);
}

#[test]
fn directory_actions_and_status() {
    assert_eq!(dir_action(true, true, false), DirAction::Compare);
    assert_eq!(dir_action(true, false, false), DirAction::OnlyInFirst);
    assert_eq!(dir_action(false, true, false), DirAction::OnlyInSecond);
    assert_eq!(dir_action(false, true, true), DirAction::Compare);
    assert_eq!(dir_action(true, false, true), DirAction::Compare);
    assert_eq!(worse_status(0, 1), 1);
    assert_eq!(worse_status(2, 1), 2);
    assert_eq!(join_path("d1", "f"), "d1/f");
    assert_eq!(only_in_line("d2", "f"), "Only in d2: f");
}

#[test]
fn scripts_reported_for_one_empty_side() {
    let a: Vec<String> = Vec::new();
    let b = lines(&["n"]);
    let r = diff_lines("p", "q", &a, &b, &DiffOpts::default()).unwrap();
    assert_eq!(r.lines, lines(&["0a1", "> n"]));
    let mut o = DiffOpts::default();
    o.ignore_blank_lines = true;
    let r = diff_lines("p", "q", &a, &lines(&["  "]), &o).unwrap();
    assert_eq!((r.lines.len(), r.status), (0, 0));
    o.format = DiffFormat::Unified(usize::MAX);
    let r = diff_lines("p", "q", &lines(&["a", "b"]), &lines(&["a", "c"]), &o).unwrap();
    assert_eq!(r.lines, lines(&["--- p", "+++ q", "@@ -1,2 +1,2 @@", " a", "-b", "+c"]));
}
