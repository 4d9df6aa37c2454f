//! Comparing two files given as lines: the edit script that `diff` reports.
use vstd::prelude::*;
use crate::edit::{
    Edit, walks_from, is_edit_script, change_count, delete_then_insert, lemma_delete_then_insert,
    lemma_walk_counts, lemma_change_count_push, is_shortest, lemma_delete_then_insert_shape,
    lemma_shortest_without_change,
};
use crate::myers::{shortest_edit_script, myers_script};
use crate::text::lines_view;
use crate::options::{DiffOpts, normalized, normalize_line};
use crate::text::{char_is_whitespace, is_whitespace, chars_of};

verus! {

/// Every line of `a` in the form comparison under `opts` looks at.
pub open spec fn normalized_lines(a: Seq<String>, opts: DiffOpts) -> Seq<Seq<char>> {
    a.map_values(|l: String| normalized(l@, opts))
}

/// A line made of whitespace only (or empty).
pub open spec fn is_blank(line: Seq<char>) -> bool {
    forall|i: int| 0 <= i < line.len() ==> char_is_whitespace(#[trigger] line[i])
}

/// A step that survives when changes of blank lines are ignored: every
/// match, and every change whose line is not blank.
pub open spec fn keeps_step(e: Edit, a: Seq<String>, b: Seq<String>) -> bool {
    match e {
        Edit::Delete(i) => !is_blank(a[i as int]@),
        Edit::Insert(j) => !is_blank(b[j as int]@),
        Edit::Equal(_, _) => true,
    }
}

/// `es` without the changes of blank lines.
pub open spec fn drop_blank_changes(es: Seq<Edit>, a: Seq<String>, b: Seq<String>) -> Seq<Edit>
    decreases es.len(),
{
    if es.len() == 0 {
        es
    } else if keeps_step(es.last(), a, b) {
        drop_blank_changes(es.drop_last(), a, b).push(es.last())
    } else {
        drop_blank_changes(es.drop_last(), a, b)
    }
}

/// What is reported of a script between two non-empty inputs: the script
/// (without changes of blank lines if they are ignored), or nothing when no
/// change is left.
pub open spec fn reported(es: Seq<Edit>, a: Seq<String>, b: Seq<String>, ignore_blank_lines: bool) -> Seq<Edit> {
    let kept = if ignore_blank_lines { drop_blank_changes(es, a, b) } else { es };
    if change_count(kept) == 0 { Seq::empty() } else { kept }
}

/// The steps of `es` refer to lines that exist: first-file indices below
/// `n`, second-file indices below `m`.
pub open spec fn indices_within(es: Seq<Edit>, n: int, m: int) -> bool {
    forall|i: int|
        0 <= i < es.len() ==> match #[trigger] es[i] {
            Edit::Equal(p, q) => p < n && q < m,
            Edit::Delete(p) => p < n,
            Edit::Insert(q) => q < m,
        }
}

pub proof fn lemma_walk_indices<T>(es: Seq<Edit>, a: Seq<T>, b: Seq<T>, x: int, y: int)
    requires
        walks_from(es, a, b, x, y),
    ensures
        indices_within(es, a.len() as int, b.len() as int),
    decreases es.len(),
{
    if es.len() > 0 {
        let rest = es.drop_first();
        match es[0] {
            Edit::Equal(_, _) => lemma_walk_indices(rest, a, b, x + 1, y + 1),
            Edit::Delete(_) => lemma_walk_indices(rest, a, b, x + 1, y),
            Edit::Insert(_) => lemma_walk_indices(rest, a, b, x, y + 1),
        }
        assert forall|i: int| 0 <= i < es.len() implies match #[trigger] es[i] {
            Edit::Equal(p, q) => p < a.len() && q < b.len(),
            Edit::Delete(p) => p < a.len(),
            Edit::Insert(q) => q < b.len(),
        } by {
            if i > 0 {
                assert(es[i] == rest[i - 1]);
            }
        }
    }
}

proof fn lemma_script_len(es: Seq<Edit>)
    ensures
        es.len() == change_count(es) + crate::edit::equal_count(es),
    decreases es.len(),
{
    if es.len() > 0 {
        lemma_script_len(es.drop_first());
    }
}

proof fn lemma_drop_blank_sub(es: Seq<Edit>, a: Seq<String>, b: Seq<String>, n: int, m: int)
    requires
        indices_within(es, n, m),
    ensures
        indices_within(drop_blank_changes(es, a, b), n, m),
        drop_blank_changes(es, a, b).len() <= es.len(),
    decreases es.len(),
{
    if es.len() > 0 {
        let p = es.drop_last();
        assert forall|i: int| 0 <= i < p.len() implies match #[trigger] p[i] {
            Edit::Equal(x, y) => x < n && y < m,
            Edit::Delete(x) => x < n,
            Edit::Insert(y) => y < m,
        } by {
            assert(p[i] == es[i]);
        }
        lemma_drop_blank_sub(p, a, b, n, m);
        let d = drop_blank_changes(p, a, b);
        if keeps_step(es.last(), a, b) {
            assert forall|i: int| 0 <= i < d.push(es.last()).len() implies match #[trigger] d.push(es.last())[i] {
                Edit::Equal(x, y) => x < n && y < m,
                Edit::Delete(x) => x < n,
                Edit::Insert(y) => y < m,
            } by {
                if i < d.len() {
                    assert(d.push(es.last())[i] == d[i]);
                } else {
                    assert(d.push(es.last())[i] == es[es.len() - 1]);
                }
            }
        }
    }
}

/// What is reported refers to existing lines, and has no more steps than
/// both files have lines.
pub proof fn lemma_outcome_shape(raw: Seq<Edit>, r: Seq<Edit>, a: Seq<String>, b: Seq<String>, opts: DiffOpts)
    requires
        diff_outcome(raw, r, a, b, opts),
    ensures
        indices_within(r, a.len() as int, b.len() as int),
        r.len() <= a.len() + b.len(),
{
    let na = normalized_lines(a, opts);
    let nb = normalized_lines(b, opts);
    lemma_walk_indices(raw, na, nb, 0, 0);
    lemma_walk_counts(raw, na, nb, 0, 0);
    lemma_script_len(raw);
    lemma_drop_blank_sub(raw, a, b, a.len() as int, b.len() as int);
}

/// Does the line consist of whitespace only?
fn line_is_blank(line: &String) -> (r: bool)
    ensures
        r == is_blank(line@),
{
    let cs = chars_of(line.as_str());
    let mut i: usize = 0;
    while i < cs.len()
        invariant
            i <= cs.len(),
            cs@ == line@,
            forall|j: int| 0 <= j < i ==> char_is_whitespace(#[trigger] line@[j]),
        decreases cs.len() - i,
    {
        if !is_whitespace(cs[i]) {
            return false;
        }
        i = i + 1;
    }
    true
}

fn normalize_all(a: &[String], opts: &DiffOpts) -> (na: Vec<String>)
    ensures
        lines_view(na@) == normalized_lines(a@, *opts),
        na.len() == a.len(),
{
    let mut na: Vec<String> = Vec::new();
    let mut i: usize = 0;
    while i < a.len()
        invariant
            i <= a.len(),
            na.len() == i,
            forall|j: int| 0 <= j < i ==> (#[trigger] na@[j])@ == normalized(a@[j]@, *opts),
        decreases a.len() - i,
    {
        let l = normalize_line(a[i].as_str(), opts);
        na.push(l);
        i = i + 1;
    }
    assert(lines_view(na@) =~= normalized_lines(a@, *opts));
    na
}

/// `r` is what is reported for `a` and `b` under `opts` when `raw` is the
/// shortest edit script found between their normalised lines: the one the
/// greedy search finds when both have lines (when one is empty there is only
/// one script).
pub open spec fn diff_outcome(raw: Seq<Edit>, r: Seq<Edit>, a: Seq<String>, b: Seq<String>, opts: DiffOpts) -> bool {
    &&& is_edit_script(raw, normalized_lines(a, opts), normalized_lines(b, opts))
    &&& is_shortest(raw, normalized_lines(a, opts), normalized_lines(b, opts))
    &&& (a.len() > 0 && b.len() > 0 ==> raw == myers_script(
        normalized_lines(a, opts),
        normalized_lines(b, opts),
    ))
    &&& r == reported(raw, a, b, opts.ignore_blank_lines)
}

/// The script found between `a` and `b` before reporting: every line of
/// the one deleted or of the other inserted when either is empty, else the
/// script of the greedy search between the normalised lines.
pub open spec fn raw_diff(a: Seq<String>, b: Seq<String>, opts: DiffOpts) -> Seq<Edit> {
    if a.len() == 0 || b.len() == 0 {
        delete_then_insert(a.len(), b.len(), 0, 0)
    } else {
        myers_script(normalized_lines(a, opts), normalized_lines(b, opts))
    }
}

/// What `diff` reports between `a` and `b` under `opts`: the script found,
/// without changes of blank lines if they are ignored, and empty when no
/// change is left.
pub open spec fn diff_of(a: Seq<String>, b: Seq<String>, opts: DiffOpts) -> Seq<Edit> {
    reported(raw_diff(a, b, opts), a, b, opts.ignore_blank_lines)
}

/// The script between normalised lines `na` and `nb`: every line of one
/// side deleted or inserted when the other is empty, else the greedy
/// search's script.
fn script_between(na: &Vec<String>, nb: &Vec<String>) -> (r: Vec<Edit>)
    requires
        na.len() + nb.len() <= usize::MAX / 8,
    ensures
        is_edit_script(r@, lines_view(na@), lines_view(nb@)),
        is_shortest(r@, lines_view(na@), lines_view(nb@)),
        na.len() == 0 || nb.len() == 0 ==> r@ == delete_then_insert(na.len() as nat, nb.len() as nat, 0, 0),
        na.len() > 0 && nb.len() > 0 ==> r@ == myers_script(lines_view(na@), lines_view(nb@)),
{
    let ghost ga = lines_view(na@);
    let ghost gb = lines_view(nb@);
    let n = na.len();
    let m = nb.len();
    if n > 0 && m > 0 {
        return shortest_edit_script(na, nb);
    }
    let mut r: Vec<Edit> = Vec::new();
    let mut i: usize = 0;
    if n == 0 {
        while i < m
            invariant
                i <= m,
                n == 0,
                m <= usize::MAX,
                r@ == delete_then_insert(0, m as nat, 0, 0).take(i as int),
            decreases m - i,
        {
            proof {
                lemma_delete_then_insert_shape(0, m as nat, 0, 0);
            }
            r.push(Edit::Insert(i));
            i = i + 1;
            assert(r@ =~= delete_then_insert(0, m as nat, 0, 0).take(i as int));
        }
    } else {
        while i < n
            invariant
                i <= n,
                m == 0,
                n <= usize::MAX,
                r@ == delete_then_insert(n as nat, 0, 0, 0).take(i as int),
            decreases n - i,
        {
            proof {
                lemma_delete_then_insert_shape(n as nat, 0, 0, 0);
            }
            r.push(Edit::Delete(i));
            i = i + 1;
            assert(r@ =~= delete_then_insert(n as nat, 0, 0, 0).take(i as int));
        }
    }
    proof {
        lemma_delete_then_insert(ga, gb, 0, 0);
        lemma_delete_then_insert_shape(n as nat, m as nat, 0, 0);
        assert(r@ =~= delete_then_insert(n as nat, m as nat, 0, 0));
        assert forall|s: Seq<Edit>| #[trigger] is_edit_script(s, ga, gb) implies change_count(r@)
            <= change_count(s) by {
            lemma_walk_counts(s, ga, gb, 0, 0);
        }
    }
    r
}

/// The differences between `a` and `b` (lines compared after normalising
/// them under `opts`): a shortest edit script from `a` to `b`, the one the
/// greedy search finds when both have lines. Changes of blank lines are
/// dropped if `opts` ignores them, and a script with no change left is
/// reported as empty.
pub fn compute_diff(a: &[String], b: &[String], opts: &DiffOpts) -> (r: Vec<Edit>)
    requires
        a.len() + b.len() <= usize::MAX / 8,
    ensures
        r@ == diff_of(a@, b@, *opts),
        exists|raw: Seq<Edit>| #[trigger] diff_outcome(raw, r@, a@, b@, *opts),
        indices_within(r@, a.len() as int, b.len() as int),
        r@.len() <= a.len() + b.len(),
        !opts.ignore_blank_lines ==> (r@.len() == 0 <==> normalized_lines(a@, *opts)
            == normalized_lines(b@, *opts)),
{
    let ghost ga = normalized_lines(a@, *opts);
    let ghost gb = normalized_lines(b@, *opts);
    let na = normalize_all(a, opts);
    let nb = normalize_all(b, opts);
    let raw = script_between(&na, &nb);
    proof {
        lemma_walk_indices(raw@, ga, gb, 0, 0);
        assert(raw@ == raw_diff(a@, b@, *opts));
    }
    let mut kept: Vec<Edit> = Vec::new();
    if opts.ignore_blank_lines {
        let mut i: usize = 0;
        while i < raw.len()
            invariant
                i <= raw.len(),
                indices_within(raw@, a.len() as int, b.len() as int),
                kept@ == drop_blank_changes(raw@.take(i as int), a@, b@),
            decreases raw.len() - i,
        {
            let e = raw[i];
            assert(raw@.take(i + 1).drop_last() =~= raw@.take(i as int));
            let keep = match e {
                Edit::Delete(p) => !line_is_blank(&a[p]),
                Edit::Insert(q) => !line_is_blank(&b[q]),
                Edit::Equal(_, _) => true,
            };
            if keep {
                kept.push(e);
            }
            i = i + 1;
        }
        assert(raw@.take(i as int) =~= raw@);
    } else {
        kept = raw;
    }
    let mut any_change = false;
    let mut i: usize = 0;
    while i < kept.len()
        invariant
            i <= kept.len(),
            any_change == (change_count(kept@.take(i as int)) > 0),
        decreases kept.len() - i,
    {
        assert(kept@.take(i + 1) =~= kept@.take(i as int).push(kept@[i as int]));
        proof {
            lemma_change_count_push(kept@.take(i as int), kept@[i as int]);
        }
        if !kept[i].is_equal() {
            any_change = true;
        }
        i = i + 1;
    }
    assert(kept@.take(i as int) =~= kept@);
    let r = if !any_change {
        Vec::new()
    } else {
        kept
    };
    proof {
        assert(diff_outcome(raw@, r@, a@, b@, *opts));
        lemma_outcome_shape(raw@, r@, a@, b@, *opts);
        lemma_shortest_without_change(raw@, ga, gb);
    }
    r
}

} // verus!

verus! {

proof fn lemma_drop_blank_keeps(es: Seq<Edit>, a: Seq<String>, b: Seq<String>)
    ensures
        forall|k: int|
            0 <= k < drop_blank_changes(es, a, b).len() ==> keeps_step(
                #[trigger] drop_blank_changes(es, a, b)[k],
                a,
                b,
            ),
    decreases es.len(),
{
    if es.len() > 0 {
        lemma_drop_blank_keeps(es.drop_last(), a, b);
        let d = drop_blank_changes(es.drop_last(), a, b);
        if keeps_step(es.last(), a, b) {
            assert forall|k: int| 0 <= k < d.push(es.last()).len() implies keeps_step(
                #[trigger] d.push(es.last())[k],
                a,
                b,
            ) by {
                if k < d.len() {
                    assert(d.push(es.last())[k] == d[k]);
                }
            }
        }
    }
}

/// With changes of blank lines ignored, no reported change deletes or
/// inserts a blank line.
pub proof fn lemma_blank_changes_ignored(a: Seq<String>, b: Seq<String>, opts: DiffOpts)
    requires
        opts.ignore_blank_lines,
    ensures
        forall|k: int|
            0 <= k < diff_of(a, b, opts).len() ==> match #[trigger] diff_of(a, b, opts)[k] {
                Edit::Delete(i) => !is_blank(a[i as int]@),
                Edit::Insert(j) => !is_blank(b[j as int]@),
                Edit::Equal(_, _) => true,
            },
{
    lemma_drop_blank_keeps(raw_diff(a, b, opts), a, b);
    let d = drop_blank_changes(raw_diff(a, b, opts), a, b);
    assert forall|k: int| 0 <= k < diff_of(a, b, opts).len() implies match #[trigger] diff_of(a, b, opts)[k] {
        Edit::Delete(i) => !is_blank(a[i as int]@),
        Edit::Insert(j) => !is_blank(b[j as int]@),
        Edit::Equal(_, _) => true,
    } by {
        assert(diff_of(a, b, opts)[k] == d[k]);
        assert(keeps_step(d[k], a, b));
    }
}

/// The differences depend on the lines only through their normalised
/// forms (when changes of blank lines are not ignored; ignoring them looks
/// at the lines as given).
pub proof fn lemma_depends_on_normalized(a: Seq<String>, b: Seq<String>, a2: Seq<String>, b2: Seq<String>, opts: DiffOpts)
    requires
        !opts.ignore_blank_lines,
        normalized_lines(a, opts) == normalized_lines(a2, opts),
        normalized_lines(b, opts) == normalized_lines(b2, opts),
    ensures
        diff_of(a, b, opts) == diff_of(a2, b2, opts),
{
    assert(a.len() == normalized_lines(a, opts).len());
    assert(a2.len() == normalized_lines(a2, opts).len());
    assert(b.len() == normalized_lines(b, opts).len());
    assert(b2.len() == normalized_lines(b2, opts).len());
}

} // verus!

verus! {

/// The matches of `s`, in order.
pub open spec fn matches_of(s: Seq<Edit>) -> Seq<Edit>
    decreases s.len(),
{
    if s.len() == 0 {
        s
    } else if s.last() is Equal {
        matches_of(s.drop_last()).push(s.last())
    } else {
        matches_of(s.drop_last())
    }
}

proof fn lemma_drop_blank_keeps_matches(es: Seq<Edit>, a: Seq<String>, b: Seq<String>)
    ensures
        matches_of(drop_blank_changes(es, a, b)) == matches_of(es),
    decreases es.len(),
{
    if es.len() > 0 {
        lemma_drop_blank_keeps_matches(es.drop_last(), a, b);
        let d = drop_blank_changes(es.drop_last(), a, b);
        if keeps_step(es.last(), a, b) {
            assert(d.push(es.last()).drop_last() =~= d);
        }
    }
}

/// Ignoring blank lines drops only changes: whenever something is
/// reported, it holds every match of the script found, in order.
pub proof fn lemma_reported_keeps_matches(a: Seq<String>, b: Seq<String>, opts: DiffOpts)
    requires
        diff_of(a, b, opts).len() > 0,
    ensures
        matches_of(diff_of(a, b, opts)) == matches_of(raw_diff(a, b, opts)),
{
    lemma_drop_blank_keeps_matches(raw_diff(a, b, opts), a, b);
}

} // verus!
