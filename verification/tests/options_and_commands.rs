use lib::cli::{parse_diff_args, DiffCommand};
use lib::options::{normalize_line, DiffFormat, DiffOpts};
use lib::tools::{asks_version, sdiff_args, tool_for, Tool};

fn args(v: &[&str]) -> Vec<String> {
    v.iter().map(|s| s.to_string()).collect()
}

fn compare(v: &[&str]) -> (DiffOpts, Vec<String>) {
    match parse_diff_args(&args(v)) {
        DiffCommand::Compare(o, f) => (o, f),
        _ => panic!("expected a comparison"),
    }
}

#[test]
fn normalizing_with_no_option_keeps_the_line() {
    assert_eq!(normalize_line("  Mixed\tCase ", &DiffOpts::default()), "  Mixed\tCase ");
}

#[test]
fn normalizing_case() {
    let mut o = DiffOpts::default();
    o.ignore_case = true;
    assert_eq!(normalize_line("HeLLo ÀÉ", &o), "hello àé");
}

#[test]
fn normalizing_all_space() {
    let mut o = DiffOpts::default();
    o.ignore_all_space = true;
    assert_eq!(normalize_line(" a \t b\u{a0}c\n", &o), "abc");
}

#[test]
fn normalizing_space_change() {
    let mut o = DiffOpts::default();
    o.ignore_space_change = true;
    assert_eq!(normalize_line("  a \t b  c", &o), " a b c");
    assert_eq!(normalize_line("abc", &o), "abc");
    o.ignore_case = true;
    assert_eq!(normalize_line("A  B", &o), "a b");
}

#[test]
fn all_space_wins_over_space_change() {
    let mut o = DiffOpts::default();
    o.ignore_all_space = true;
    o.ignore_space_change = true;
    assert_eq!(normalize_line("a  b", &o), "ab");
}

#[test]
fn default_options_are_plain() {
    let o = DiffOpts::default();
    assert_eq!(o.format, DiffFormat::Normal);
    assert!(!o.brief && !o.ignore_case && o.labels.is_empty());
}

#[test]
fn two_files_are_compared() {
    let (o, f) = compare(&["old.txt", "new.txt"]);
    assert_eq!(f, args(&["old.txt", "new.txt"]));
    assert_eq!(o.format, DiffFormat::Normal);
}

#[test]
fn version_and_help_stop_reading() {
    assert!(matches!(parse_diff_args(&args(&["a", "--version", "b"])), DiffCommand::Version));
    assert!(matches!(parse_diff_args(&args(&["--help"])), DiffCommand::Help));
    assert!(matches!(parse_diff_args(&args(&["--help", "--version"])), DiffCommand::Help));
}

#[test]
fn missing_operand() {
    assert!(matches!(parse_diff_args(&args(&["only-one"])), DiffCommand::MissingOperand));
    assert!(matches!(parse_diff_args(&args(&["a", "b", "c"])), DiffCommand::MissingOperand));
    assert!(matches!(parse_diff_args(&args(&[])), DiffCommand::MissingOperand));
}

#[test]
fn formats() {
    assert_eq!(compare(&["-u", "a", "b"]).0.format, DiffFormat::Unified(3));
    assert_eq!(compare(&["--context", "a", "b"]).0.format, DiffFormat::Context(3));
    assert_eq!(compare(&["-e", "a", "b"]).0.format, DiffFormat::Ed);
    assert_eq!(compare(&["--rcs", "a", "b"]).0.format, DiffFormat::Rcs);
    assert_eq!(compare(&["-y", "a", "b"]).0.format, DiffFormat::SideBySide);
    assert_eq!(compare(&["-y", "--normal", "a", "b"]).0.format, DiffFormat::Normal);
}

#[test]
fn context_sizes() {
    assert_eq!(compare(&["-U", "5", "a", "b"]).0.format, DiffFormat::Unified(5));
    assert_eq!(compare(&["-U7", "a", "b"]).0.format, DiffFormat::Unified(7));
    assert_eq!(compare(&["-C", "+2", "a", "b"]).0.format, DiffFormat::Context(2));
    assert_eq!(compare(&["-Cx", "a", "b"]).0.format, DiffFormat::Context(3));
    assert_eq!(compare(&["--unified=10", "a", "b"]).0.format, DiffFormat::Unified(10));
    assert_eq!(compare(&["--context=", "a", "b"]).0.format, DiffFormat::Context(3));
    assert_eq!(compare(&["-U", "-1", "a", "b"]).0.format, DiffFormat::Unified(3));
    assert_eq!(
        compare(&["-U", "99999999999999999999999", "a", "b"]).0.format,
        DiffFormat::Unified(3)
    );
}

#[test]
fn flags() {
    let (o, _) = compare(&["-q", "-s", "-r", "-N", "-i", "-w", "-b", "-B", "-a", "a", "b"]);
    assert!(o.brief && o.report_identical && o.recursive && o.new_file);
    assert!(o.ignore_case && o.ignore_all_space && o.ignore_space_change && o.ignore_blank_lines && o.text);
    let (p, _) = compare(&[
        "--brief", "--report-identical-files", "--recursive", "--new-file", "--ignore-case",
        "--ignore-all-space", "--ignore-space-change", "--ignore-blank-lines", "--text", "a", "b",
    ]);
    assert!(p.brief && p.report_identical && p.recursive && p.new_file && p.ignore_case);
    assert!(p.ignore_all_space && p.ignore_space_change && p.ignore_blank_lines && p.text);
}

#[test]
fn labels() {
    let (o, f) = compare(&["--label", "left", "--label=right", "a", "b"]);
    assert_eq!(o.labels, args(&["left", "right"]));
    assert_eq!(f, args(&["a", "b"]));
    let r = parse_diff_args(&args(&["a", "b", "--label"]));
    match r {
        DiffCommand::Compare(o, _) => assert!(o.labels.is_empty()),
        _ => panic!("expected a comparison"),
    }
}

#[test]
fn ignored_options_and_stdin() {
    let (o, f) = compare(&["--color", "--color=never", "--no-dereference", "--frobnicate", "-", "b"]);
    assert_eq!(o.format, DiffFormat::Normal);
    assert_eq!(f, args(&["-", "b"]));
}

#[test]
fn tools_by_name() {
    assert_eq!(tool_for("cmp"), Tool::Bytes);
    assert_eq!(tool_for("sdiff"), Tool::Sdiff);
    assert_eq!(tool_for("diff3"), Tool::Diff3);
    assert_eq!(tool_for("diff"), Tool::Diff);
    assert_eq!(tool_for("anything"), Tool::Diff);
}

#[test]
fn sdiff_runs_diff_side_by_side() {
    assert_eq!(sdiff_args(&args(&["a", "b"])), Some(args(&["-y", "a", "b"])));
    assert_eq!(sdiff_args(&args(&["a", "--version"])), None);
    assert!(asks_version(&args(&["x", "--version"])));
    assert!(!asks_version(&args(&["x", "--versions"])));
}

#[test]
fn unified_spellings_mean_the_same() {
    for v in [&["-u", "x", "y"][..], &["--unified", "x", "y"], &["-U", "3", "x", "y"], &["--unified=3", "x", "y"], &["x", "-U3", "y"]] {
        let (o, f) = compare(v);
        assert_eq!(o.format, DiffFormat::Unified(3));
        assert_eq!(f, args(&["x", "y"]));
    }
}

#[test]
fn colour_and_symlink_options_change_nothing() {
    let (o0, f0) = compare(&["-i", "x", "y"]);
    for opt in ["--color", "--color=always", "--color=auto", "--color=never", "--no-dereference"] {
        let (o, f) = compare(&["-i", opt, "x", "y"]);
        assert_eq!((o.format, o.ignore_case, o.labels.clone()), (o0.format.clone(), o0.ignore_case, o0.labels.clone()));
        assert_eq!(f, f0);
    }
}

#[test]
fn normalizing_twice_changes_nothing_more() {
    let mut o = DiffOpts::default();
    for (w, b) in [(true, false), (false, true), (false, false)] {
        o.ignore_all_space = w;
        o.ignore_space_change = b;
        let once = normalize_line(" a \t b\u{a0} c  ", &o);
        assert_eq!(normalize_line(&once, &o), once);
    }
}
