use lib::diff::compute_diff;
use lib::edit::Edit::{Delete, Equal, Insert};
use lib::hunks::{build_hunks, hunk_range};
use lib::options::DiffOpts;
use lib::render::{print_context, print_ed, print_normal, print_rcs, print_side_by_side, print_unified};
use lib::text::truncate;

fn lines(v: &[&str]) -> Vec<String> {
    v.iter().map(|s| s.to_string()).collect()
}

fn classic() -> (Vec<String>, Vec<String>) {
    (lines(&["a", "b", "c", "a", "b", "b", "a"]), lines(&["c", "b", "a", "b", "a", "c"]))
}

fn multi() -> (Vec<String>, Vec<String>) {
    (
        lines(&["l1", "l2", "l3", "l4", "l5", "l6", "l7", "l8", "l9", "l10"]),
        lines(&["l1", "L2", "l3", "l4", "l5", "l6", "l7", "l8", "X", "l10", "l11"]),
    )
}

#[test]
fn normal_form_of_a_change() {
    let a = lines(&["a", "b", "c"]);
    let b = lines(&["a", "x", "c"]);
    let e = compute_diff(&a, &b, &DiffOpts::default());
    assert_eq!(print_normal(&e, &a, &b), lines(&["2c2", "< b", "---", "> x"]));
}

#[test]
fn normal_form_of_deletions_and_additions() {
    let (a, b) = classic();
    let e = compute_diff(&a, &b, &DiffOpts::default());
    assert_eq!(
        print_normal(&e, &a, &b),
        lines(&["1,2d0", "< a", "< b", "3a2", "> b", "6d5", "< b", "7a6", "> c"])
    );
}

#[test]
fn normal_form_with_ranges_and_append() {
    let (a, b) = multi();
    let e = compute_diff(&a, &b, &DiffOpts::default());
    assert_eq!(
        print_normal(&e, &a, &b),
        lines(&["2c2", "< l2", "---", "> L2", "9c9", "< l9", "---", "> X", "10a11", "> l11"])
    );
    let a2 = lines(&["a", "b"]);
    let b2 = lines(&["a", "x", "y", "b"]);
    let e2 = compute_diff(&a2, &b2, &DiffOpts::default());
    assert_eq!(print_normal(&e2, &a2, &b2), lines(&["1a2,3", "> x", "> y"]));
    let e3 = compute_diff(&b2, &a2, &DiffOpts::default());
    assert_eq!(print_normal(&e3, &b2, &a2), lines(&["2,3d1", "< x", "< y"]));
}

#[test]
fn unified_form_shows_each_context_line_once() {
    let a = lines(&["a", "b", "c"]);
    let b = lines(&["a", "x", "c"]);
    let e = compute_diff(&a, &b, &DiffOpts::default());
    assert_eq!(
        print_unified(&e, &a, &b, 3, "l1", "l2"),
        lines(&["--- l1", "+++ l2", "@@ -1,3 +1,3 @@", " a", "-b", "+x", " c"])
    );
}

#[test]
fn unified_form_with_two_hunks() {
    let (a, b) = multi();
    let e = compute_diff(&a, &b, &DiffOpts::default());
    assert_eq!(
        print_unified(&e, &a, &b, 1, "A", "B"),
        lines(&[
            "--- A", "+++ B", "@@ -1,3 +1,3 @@", " l1", "-l2", "+L2", " l3",
            "@@ -8,3 +8,4 @@", " l8", "-l9", "+X", " l10", "+l11"
        ])
    );
}

#[test]
fn unified_form_without_context() {
    let a = lines(&["a", "b", "c", "d", "e", "f", "g", "h"]);
    let b = lines(&["a", "B", "c", "d", "e", "f", "g", "H"]);
    let e = compute_diff(&a, &b, &DiffOpts::default());
    assert_eq!(
        print_unified(&e, &a, &b, 0, "x", "y"),
        lines(&["--- x", "+++ y", "@@ -2,1 +2,1 @@", "-b", "+B", "@@ -8,1 +8,1 @@", "-h", "+H"])
    );
}

#[test]
fn context_form() {
    let (a, b) = multi();
    let e = compute_diff(&a, &b, &DiffOpts::default());
    assert_eq!(
        print_context(&e, &a, &b, 1, "A", "B"),
        lines(&[
            "*** A", "--- B", "***************", "*** 1,3 ****", "  l1", "- l2", "  l3",
            "--- 1,3 ----", "  l1", "+ L2", "  l3", "***************", "*** 8,10 ****",
            "  l8", "- l9", "  l10", "--- 8,11 ----", "  l8", "+ X", "  l10", "+ l11"
        ])
    );
}

#[test]
fn ed_form_runs_backwards() {
    let (a, b) = classic();
    let e = compute_diff(&a, &b, &DiffOpts::default());
    assert_eq!(print_ed(&e, &b), lines(&["7a", "c", ".", "6d", "3a", "b", ".", "2d", "1d"]));
    let (a2, b2) = multi();
    let e2 = compute_diff(&a2, &b2, &DiffOpts::default());
    assert_eq!(
        print_ed(&e2, &b2),
        lines(&["10a", "l11", ".", "9a", "X", ".", "9d", "2a", "L2", ".", "2d"])
    );
}

#[test]
fn rcs_form() {
    let (a, b) = classic();
    let e = compute_diff(&a, &b, &DiffOpts::default());
    assert_eq!(print_rcs(&e, &a, &b), lines(&["d1 1", "d2 1", "a3 1", "b", "d6 1", "a7 1", "c"]));
    let a2 = lines(&["a", "b"]);
    let b2 = lines(&["a", "x", "y", "b"]);
    let e2 = compute_diff(&a2, &b2, &DiffOpts::default());
    assert_eq!(print_rcs(&e2, &a2, &b2), lines(&["a1 1", "x", "a1 1", "y"]));
}

#[test]
fn side_by_side_form() {
    let a = lines(&["short", "a line that is certainly longer than thirty-eight chars", "same"]);
    let b = lines(&["short", "x", "same", "new"]);
    let e = compute_diff(&a, &b, &DiffOpts::default());
    assert_eq!(e, vec![Equal(0, 0), Delete(1), Insert(1), Equal(2, 2), Insert(3)]);
    assert_eq!(
        print_side_by_side(&e, &a, &b),
        lines(&[
            "short                                    short",
            "a line that is certainly longer tha... <",
            "                                       > x",
            "same                                     same",
            "                                       > new",
        ])
    );
}

#[test]
fn truncation_cuts_on_bytes() {
    assert_eq!(truncate("short", 38), "short");
    assert_eq!(truncate("abcdefgh", 8), "abcdefgh");
    assert_eq!(truncate("abcdefghi", 8), "abcde...");
    assert_eq!(truncate("abcd", 2), "...");
    assert_eq!(truncate("héllo wörld, this line has multibyte chars!!", 38), "héllo wörld, this line has multib...");
    let s = format!("{}é and more text", "a".repeat(33));
    assert_eq!(truncate(&s, 38), format!("{}é...", "a".repeat(33)));
}

#[test]
fn hunks_with_one_line_of_context() {
    let a = lines(&["a", "b", "c", "d", "e", "f", "g", "h"]);
    let b = lines(&["a", "B", "c", "d", "e", "f", "g", "H"]);
    let e = compute_diff(&a, &b, &DiffOpts::default());
    assert_eq!(
        build_hunks(&e, 1),
        vec![
            vec![Equal(0, 0), Delete(1), Insert(1), Equal(2, 2)],
            vec![Equal(6, 6), Delete(7), Insert(7)]
        ]
    );
}

#[test]
fn hunks_without_context_hold_changes_only() {
    let (a, b) = classic();
    let e = compute_diff(&a, &b, &DiffOpts::default());
    assert_eq!(
        build_hunks(&e, 0),
        vec![vec![Delete(0), Delete(1)], vec![Insert(1)], vec![Delete(5)], vec![Insert(5)]]
    );
    assert_eq!(build_hunks(&[Equal(0, 0), Delete(1), Equal(2, 1)], 0), vec![vec![Delete(1)]]);
}

#[test]
fn hunks_are_slices_of_the_script() {
    let e = vec![Equal(0, 0), Delete(1), Equal(2, 1)];
    assert_eq!(build_hunks(&e, 3), vec![e.clone()]);
    let e2 = vec![Delete(0), Equal(1, 0), Delete(2)];
    assert_eq!(build_hunks(&e2, 3), vec![e2.clone()]);
    let e3 = vec![Delete(0), Equal(1, 0), Equal(2, 1), Equal(3, 2), Equal(4, 3), Delete(5)];
    assert_eq!(
        build_hunks(&e3, 1),
        vec![vec![Delete(0), Equal(1, 0)], vec![Equal(4, 3), Delete(5)]]
    );
    assert_eq!(build_hunks(&e3, 2), vec![e3.clone()]);
    assert_eq!(build_hunks(&e3, usize::MAX), vec![e3.clone()]);
}

#[test]
fn side_by_side_shows_the_second_file_on_the_right() {
    let e = vec![Equal(0, 0)];
    let a = lines(&["Hello"]);
    let b = lines(&["hello"]);
    assert_eq!(print_side_by_side(&e, &a, &b), vec![format!("{:<38}   {}", "Hello", "hello")]);
}

#[test]
fn context_form_with_three_lines_of_context() {
    let e = vec![Equal(0, 0), Delete(1), Insert(1), Equal(2, 2)];
    let a = lines(&["a", "b", "c"]);
    let b = lines(&["a", "x", "c"]);
    assert_eq!(
        print_context(&e, &a, &b, 3, "L1", "L2"),
        lines(&["*** L1", "--- L2", "***************", "*** 1,3 ****", "  a", "- b", "  c", "--- 1,3 ----", "  a", "+ x", "  c"])
    );
}

#[test]
fn hunks_of_an_empty_script() {
    assert!(build_hunks(&[], 3).is_empty());
    assert!(build_hunks(&[Equal(0, 0), Equal(1, 1)], 3).is_empty());
}

#[test]
fn hunk_ranges() {
    assert_eq!(hunk_range(&[Equal(0, 0), Delete(1), Insert(1), Equal(2, 2)], 3, 3), (0, 3, 0, 3));
    assert_eq!(hunk_range(&[Insert(4), Insert(5)], 0, 6), (0, 0, 4, 2));
    assert_eq!(hunk_range(&[Delete(2)], 3, 0), (2, 1, 0, 0));
    assert_eq!(hunk_range(&[], 0, 0), (0, 0, 0, 0));
    assert_eq!(hunk_range(&[Equal(7, 9), Equal(3, 5)], 8, 10), (3, 5, 5, 5));
}

fn run_ed(a: &[String], script: &[String]) -> Vec<String> {
    let mut doc: Vec<String> = a.to_vec();
    let mut i = 0;
    while i < script.len() {
        let cmd = &script[i];
        let n: usize = cmd[..cmd.len() - 1].parse().unwrap();
        if cmd.ends_with('d') {
            doc.remove(n - 1);
            i += 1;
        } else {
            assert!(cmd.ends_with('a'));
            assert_eq!(script[i + 2], ".");
            doc.insert(n, script[i + 1].clone());
            i += 3;
        }
    }
    doc
}

fn run_rcs(a: &[String], script: &[String]) -> Vec<String> {
    let mut out: Vec<String> = Vec::new();
    let mut cur = 0;
    let mut i = 0;
    while i < script.len() {
        let cmd = &script[i];
        let n: usize = cmd[1..cmd.len() - 2].parse().unwrap();
        if cmd.starts_with('d') {
            out.extend_from_slice(&a[cur..n - 1]);
            cur = n;
            i += 1;
        } else {
            out.extend_from_slice(&a[cur..n]);
            out.push(script[i + 1].clone());
            cur = n;
            i += 2;
        }
    }
    out.extend_from_slice(&a[cur..]);
    out
}

#[test]
fn ed_form_rebuilds_the_second_file() {
    let (a, b) = classic();
    let e = compute_diff(&a, &b, &DiffOpts::default());
    assert_eq!(run_ed(&a, &print_ed(&e, &b)), b);
    let (a2, b2) = multi();
    let e2 = compute_diff(&a2, &b2, &DiffOpts::default());
    assert_eq!(run_ed(&a2, &print_ed(&e2, &b2)), b2);
    let a3 = lines(&["a", "b"]);
    let b3 = lines(&["x", "y", "a", "b", "z"]);
    let e3 = compute_diff(&a3, &b3, &DiffOpts::default());
    assert_eq!(run_ed(&a3, &print_ed(&e3, &b3)), b3);
}

#[test]
fn rcs_form_rebuilds_the_second_file() {
    let (a, b) = classic();
    let e = compute_diff(&a, &b, &DiffOpts::default());
    assert_eq!(run_rcs(&a, &print_rcs(&e, &a, &b)), b);
    let (a2, b2) = multi();
    let e2 = compute_diff(&a2, &b2, &DiffOpts::default());
    assert_eq!(run_rcs(&a2, &print_rcs(&e2, &a2, &b2)), b2);
    let a3 = lines(&["a", "b", "c"]);
    let b3 = lines(&["q", "b"]);
    let e3 = compute_diff(&a3, &b3, &DiffOpts::default());
    assert_eq!(run_rcs(&a3, &print_rcs(&e3, &a3, &b3)), b3);
}

#[test]
fn unified_headers_count_the_lines_shown() {
    let (a, b) = multi();
    let e = compute_diff(&a, &b, &DiffOpts::default());
    for ctx in [0usize, 1, 2, 3] {
        let out = print_unified(&e, &a, &b, ctx, "A", "B");
        let mut i = 2;
        while i < out.len() {
            let h = &out[i];
            assert!(h.starts_with("@@ -"));
            let parts: Vec<&str> = h.split(' ').collect();
            let acount: usize = parts[1].split(',').nth(1).unwrap().parse().unwrap();
            let bcount: usize = parts[2].split(',').nth(1).unwrap().parse().unwrap();
            let mut j = i + 1;
            let (mut sa, mut sb) = (0, 0);
            while j < out.len() && !out[j].starts_with("@@") {
                if !out[j].starts_with('+') {
                    sa += 1;
                }
                if !out[j].starts_with('-') {
                    sb += 1;
                }
                j += 1;
            }
            assert_eq!((acount, bcount), (sa, sb));
            i = j;
        }
    }
}

fn apply_unified(a: &[String], patch: &[String]) -> Vec<String> {
    let mut out: Vec<String> = Vec::new();
    let mut cur = 0;
    let mut i = 2;
    while i < patch.len() {
        let parts: Vec<&str> = patch[i].split(' ').collect();
        let start: usize = parts[1][1..].split(',').next().unwrap().parse().unwrap();
        out.extend_from_slice(&a[cur..start - 1]);
        cur = start - 1;
        i += 1;
        while i < patch.len() && !patch[i].starts_with("@@") {
            let (tag, text) = patch[i].split_at(1);
            if tag == " " {
                assert_eq!(a[cur], text);
                out.push(text.to_string());
                cur += 1;
            } else if tag == "-" {
                assert_eq!(a[cur], text);
                cur += 1;
            } else {
                out.push(text.to_string());
            }
            i += 1;
        }
    }
    out.extend_from_slice(&a[cur..]);
    out
}

#[test]
fn unified_form_patches_the_first_file_into_the_second() {
    let (a, b) = multi();
    let e = compute_diff(&a, &b, &DiffOpts::default());
    let (c, d) = classic();
    let e2 = compute_diff(&c, &d, &DiffOpts::default());
    for ctx in [1usize, 2, 3, 10] {
        assert_eq!(apply_unified(&a, &print_unified(&e, &a, &b, ctx, "A", "B")), b);
        assert_eq!(apply_unified(&c, &print_unified(&e2, &c, &d, ctx, "A", "B")), d);
    }
}
