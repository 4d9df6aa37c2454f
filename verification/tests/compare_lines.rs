use lib::diff::compute_diff;
use lib::edit::Edit;
use lib::edit::Edit::{Delete, Equal, Insert};
use lib::myers::shortest_edit_script;
use lib::options::DiffOpts;

fn lines(v: &[&str]) -> Vec<String> {
    v.iter().map(|s| s.to_string()).collect()
}

fn changes(es: &[Edit]) -> usize {
    es.iter().filter(|e| !matches!(e, Equal(_, _))).count()
}

#[test]
fn identical_files_have_no_differences() {
    let a = lines(&["one", "two", "three"]);
    let r = compute_diff(&a, &a, &DiffOpts::default());
    assert!(r.is_empty());
}

#[test]
fn one_changed_line() {
    let a = lines(&["a", "b", "c"]);
    let b = lines(&["a", "x", "c"]);
    let r = compute_diff(&a, &b, &DiffOpts::default());
    assert_eq!(r, vec![Equal(0, 0), Delete(1), Insert(1), Equal(2, 2)]);
}

#[test]
fn empty_first_file_inserts_everything() {
    let a: Vec<String> = Vec::new();
    let b = lines(&["x", "y"]);
    let r = compute_diff(&a, &b, &DiffOpts::default());
    assert_eq!(r, vec![Insert(0), Insert(1)]);
}

#[test]
fn empty_second_file_deletes_everything() {
    let a = lines(&["x", "y"]);
    let b: Vec<String> = Vec::new();
    let r = compute_diff(&a, &b, &DiffOpts::default());
    assert_eq!(r, vec![Delete(0), Delete(1)]);
}

#[test]
fn both_files_empty() {
    let a: Vec<String> = Vec::new();
    let r = compute_diff(&a, &a, &DiffOpts::default());
    assert!(r.is_empty());
}

#[test]
fn classic_sequences() {
    let a = lines(&["a", "b", "c", "a", "b", "b", "a"]);
    let b = lines(&["c", "b", "a", "b", "a", "c"]);
    let r = compute_diff(&a, &b, &DiffOpts::default());
    assert_eq!(
        r,
        vec![Delete(0), Delete(1), Equal(2, 0), Insert(1), Equal(3, 2), Equal(4, 3), Delete(5), Equal(6, 4), Insert(5)]
    );
    // the shortest script between these two has five changes
    assert_eq!(changes(&r), 5);
}

#[test]
fn two_separate_changes_and_an_append() {
    let a = lines(&["l1", "l2", "l3", "l4", "l5", "l6", "l7", "l8", "l9", "l10"]);
    let b = lines(&["l1", "L2", "l3", "l4", "l5", "l6", "l7", "l8", "X", "l10", "l11"]);
    let r = compute_diff(&a, &b, &DiffOpts::default());
    assert_eq!(
        r,
        vec![
            Equal(0, 0), Delete(1), Insert(1), Equal(2, 2), Equal(3, 3), Equal(4, 4), Equal(5, 5),
            Equal(6, 6), Equal(7, 7), Delete(8), Insert(8), Equal(9, 9), Insert(10)
        ]
    );
}

#[test]
fn case_is_ignored_when_asked() {
    let a = lines(&["Hello World"]);
    let b = lines(&["hello world"]);
    let plain = compute_diff(&a, &b, &DiffOpts::default());
    assert_eq!(plain, vec![Delete(0), Insert(0)]);
    let mut o = DiffOpts::default();
    o.ignore_case = true;
    assert!(compute_diff(&a, &b, &o).is_empty());
}

#[test]
fn all_whitespace_is_ignored_when_asked() {
    let a = lines(&["a b\tc"]);
    let b = lines(&["abc"]);
    let mut o = DiffOpts::default();
    o.ignore_all_space = true;
    assert!(compute_diff(&a, &b, &o).is_empty());
    assert_eq!(compute_diff(&a, &b, &DiffOpts::default()).len(), 2);
}

#[test]
fn whitespace_amount_is_ignored_when_asked() {
    let a = lines(&["a  \t b"]);
    let b = lines(&["a b"]);
    let c = lines(&["ab"]);
    let mut o = DiffOpts::default();
    o.ignore_space_change = true;
    assert!(compute_diff(&a, &b, &o).is_empty());
    assert_eq!(compute_diff(&a, &c, &o), vec![Delete(0), Insert(0)]);
}

#[test]
fn blank_line_changes_are_ignored_when_asked() {
    let a = lines(&["a", "b"]);
    let b = lines(&["a", "  ", "b"]);
    assert_eq!(compute_diff(&a, &b, &DiffOpts::default()), vec![Equal(0, 0), Insert(1), Equal(1, 2)]);
    let mut o = DiffOpts::default();
    o.ignore_blank_lines = true;
    assert!(compute_diff(&a, &b, &o).is_empty());
}

#[test]
fn blank_lines_are_ignored_when_one_file_is_empty() {
    let a: Vec<String> = Vec::new();
    let b = lines(&[""]);
    let mut o = DiffOpts::default();
    o.ignore_blank_lines = true;
    assert_eq!(compute_diff(&a, &b, &o), vec![]);
    let b2 = lines(&["", "x", " "]);
    assert_eq!(compute_diff(&a, &b2, &o), vec![Insert(1)]);
    assert_eq!(compute_diff(&b2, &a, &o), vec![Delete(1)]);
    o.ignore_blank_lines = false;
    assert_eq!(compute_diff(&a, &b, &o), vec![Insert(0)]);
}

#[test]
fn blank_filter_keeps_other_changes() {
    let a = lines(&["a", "", "b"]);
    let b = lines(&["a", "c"]);
    let mut o = DiffOpts::default();
    o.ignore_blank_lines = true;
    let r = compute_diff(&a, &b, &o);
    assert!(r.iter().all(|e| *e != Delete(1)));
    assert!(r.contains(&Insert(1)));
}

#[test]
fn shortest_script_on_raw_lines() {
    let a = lines(&["x", "y", "z"]);
    let b = lines(&["y", "z", "w"]);
    let r = shortest_edit_script(&a, &b);
    assert_eq!(r, vec![Delete(0), Equal(1, 0), Equal(2, 1), Insert(2)]);
}

#[test]
fn result_replays_second_file() {
    // every script turns the first file into the second
    let a = lines(&["p", "q", "r", "s", "t"]);
    let b = lines(&["q", "r", "x", "t", "u"]);
    let r = compute_diff(&a, &b, &DiffOpts::default());
    let mut rebuilt = Vec::new();
    let mut x = 0;
    for e in &r {
        match e {
            Equal(i, j) => {
                assert_eq!(*i, x);
                assert_eq!(a[*i], b[*j]);
                rebuilt.push(a[*i].clone());
                x += 1;
            }
            Delete(i) => {
                assert_eq!(*i, x);
                x += 1;
            }
            Insert(j) => rebuilt.push(b[*j].clone()),
        }
    }
    assert_eq!(x, a.len());
    assert_eq!(rebuilt, b);
    assert_eq!(changes(&r), 4);
}

#[test]
fn lines_that_normalise_alike_compare_alike() {
    let mut o = DiffOpts::default();
    o.ignore_space_change = true;
    let a1 = lines(&["a  b", "c", "d"]);
    let a2 = lines(&["a b", "c", "d"]);
    let b = lines(&["a\tb", "x", "d"]);
    assert_eq!(compute_diff(&a1, &b, &o), compute_diff(&a2, &b, &o));
    assert_eq!(compute_diff(&a1, &b, &o), vec![Equal(0, 0), Delete(1), Insert(1), Equal(2, 2)]);
}
