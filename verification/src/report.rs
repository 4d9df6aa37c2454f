//! What comparing two files prints, and the exit status.
use vstd::prelude::*;
use crate::edit::Edit;
use crate::diff::{compute_diff, diff_of, indices_within};
use crate::options::{DiffFormat, DiffOpts};
use crate::render::{
    print_normal, print_unified, print_context, print_ed, print_rcs, print_side_by_side,
    normal_lines, unified_lines, context_lines, ed_lines, rcs_prefix, side_by_side_lines,
    side_by_side_cuttable, column, a_indices_below_max,
};
use crate::text::{lines_view, push_str, can_truncate, byte_len};
use vstd::utf8::is_char_boundary;
use vstd::string::StringSliceAdditionalSpecFns;

verus! {

/// Lines to print and exit status of one comparison.
pub struct DiffReport {
    pub lines: Vec<String>,
    pub status: i32,
}

/// `labels[k]` if given, else `path`.
pub open spec fn label_or(labels: Seq<Seq<char>>, k: int, path: Seq<char>) -> Seq<char> {
    if k < labels.len() {
        labels[k]
    } else {
        path
    }
}

/// `Files <p1> and <p2> <verdict>`
pub open spec fn files_line(p1: Seq<char>, p2: Seq<char>, verdict: Seq<char>) -> Seq<char> {
    "Files "@ + p1 + " and "@ + p2 + verdict
}

/// The lines printed for the script `es` between `a` and `b`: nothing (or
/// that the files are identical, if asked) when there is no difference;
/// that they differ when only that is asked; else the script in the chosen
/// form. The status is 0 without differences, 1 with.
pub open spec fn report_of(
    es: Seq<Edit>,
    p1: Seq<char>,
    p2: Seq<char>,
    a: Seq<Seq<char>>,
    b: Seq<Seq<char>>,
    opts: DiffOpts,
) -> (Seq<Seq<char>>, i32) {
    if es.len() == 0 {
        (
            if opts.report_identical {
                seq![files_line(p1, p2, " are identical"@)]
            } else {
                Seq::empty()
            },
            0,
        )
    } else if opts.brief {
        (seq![files_line(p1, p2, " differ"@)], 1)
    } else {
        (
            match opts.format {
                DiffFormat::Normal => normal_lines(es, a, b),
                DiffFormat::Unified(ctx) => unified_lines(
                    es,
                    a,
                    b,
                    ctx as int,
                    label_or(lines_view(opts.labels@), 0, p1),
                    label_or(lines_view(opts.labels@), 1, p2),
                ),
                DiffFormat::Context(ctx) => context_lines(
                    es,
                    a,
                    b,
                    ctx as int,
                    label_or(lines_view(opts.labels@), 0, p1),
                    label_or(lines_view(opts.labels@), 1, p2),
                ),
                DiffFormat::Ed => ed_lines(es, b),
                DiffFormat::Rcs => rcs_prefix(es, b, es.len() as int),
                DiffFormat::SideBySide => side_by_side_lines(es, a, b),
            },
            1,
        )
    }
}

fn files_line_exec(p1: &str, p2: &str, verdict: &str) -> (r: String)
    ensures
        r@ == files_line(p1@, p2@, verdict@),
{
    let mut s = String::new();
    push_str(&mut s, "Files ");
    push_str(&mut s, p1);
    push_str(&mut s, " and ");
    push_str(&mut s, p2);
    push_str(&mut s, verdict);
    assert(s@ =~= files_line(p1@, p2@, verdict@));
    s
}

/// Can every line the side-by-side form shows be cut to the column width?
pub fn side_by_side_fits(edits: &[Edit], a: &[String], b: &[String]) -> (r: bool)
    requires
        indices_within(edits@, a.len() as int, b.len() as int),
    ensures
        r == side_by_side_cuttable(edits@, lines_view(a@), lines_view(b@)),
{
    let mut i: usize = 0;
    while i < edits.len()
        invariant
            i <= edits.len(),
            indices_within(edits@, a.len() as int, b.len() as int),
            forall|j: int|
                0 <= j < i ==> match #[trigger] edits@[j] {
                    Edit::Equal(ai, bj) => can_truncate(lines_view(a@)[ai as int], column()) && can_truncate(
                        lines_view(b@)[bj as int],
                        column(),
                    ),
                    Edit::Delete(ai) => can_truncate(lines_view(a@)[ai as int], column()),
                    Edit::Insert(bi) => can_truncate(lines_view(b@)[bi as int], column()),
                },
        decreases edits.len() - i,
    {
        assert(match edits@[i as int] {
            Edit::Equal(p, q) => p < a.len() && q < b.len(),
            Edit::Delete(p) => p < a.len(),
            Edit::Insert(q) => q < b.len(),
        });
        let (line, other) = match edits[i] {
            Edit::Equal(ai, bj) => (&a[ai], Some(&b[bj])),
            Edit::Delete(ai) => (&a[ai], None),
            Edit::Insert(bi) => (&b[bi], None),
        };
        let s = line.as_str();
        let ok = s.as_bytes().len() <= 38 || s.is_char_boundary(35);
        if !ok {
            return false;
        }
        if let Some(o) = other {
            let t = o.as_str();
            let ok2 = t.as_bytes().len() <= 38 || t.is_char_boundary(35);
            if !ok2 {
                return false;
            }
        }
        i = i + 1;
    }
    true
}

/// What is printed for the script `edits` between the files `path1` (lines
/// `a`) and `path2` (lines `b`), and the exit status.
pub fn diff_report(
    edits: &[Edit],
    path1: &str,
    path2: &str,
    a: &[String],
    b: &[String],
    opts: &DiffOpts,
) -> (r: DiffReport)
    requires
        indices_within(edits@, a.len() as int, b.len() as int),
        opts.format == DiffFormat::SideBySide && edits.len() > 0 && !opts.brief
            ==> side_by_side_cuttable(edits@, lines_view(a@), lines_view(b@)),
    ensures
        (lines_view(r.lines@), r.status) == report_of(
            edits@,
            path1@,
            path2@,
            lines_view(a@),
            lines_view(b@),
            *opts,
        ),
{
    proof {
        reveal_strlit(" are identical");
        reveal_strlit(" differ");
    }
    if edits.len() == 0 {
        let mut lines: Vec<String> = Vec::new();
        if opts.report_identical {
            lines.push(files_line_exec(path1, path2, " are identical"));
        }
        assert(lines_view(lines@) =~= report_of(edits@, path1@, path2@, lines_view(a@), lines_view(b@), *opts).0);
        return DiffReport { lines, status: 0 };
    }
    if opts.brief {
        let mut lines: Vec<String> = Vec::new();
        lines.push(files_line_exec(path1, path2, " differ"));
        assert(lines_view(lines@) =~= report_of(edits@, path1@, path2@, lines_view(a@), lines_view(b@), *opts).0);
        return DiffReport { lines, status: 1 };
    }
    proof {
        assert forall|i: int| 0 <= i < edits@.len() implies match #[trigger] edits@[i] {
            Edit::Equal(p, _) => p < usize::MAX,
            Edit::Delete(p) => p < usize::MAX,
            Edit::Insert(_) => true,
        } by {
            assert(match edits@[i] {
                Edit::Equal(p, q) => p < a.len() && q < b.len(),
                Edit::Delete(p) => p < a.len(),
                Edit::Insert(q) => q < b.len(),
            });
        }
        assert forall|i: int| 0 <= i < edits@.len() implies (#[trigger] edits@[i] matches Edit::Insert(bi)
            ==> bi < b.len()) by {
            assert(match edits@[i] {
                Edit::Equal(p, q) => p < a.len() && q < b.len(),
                Edit::Delete(p) => p < a.len(),
                Edit::Insert(q) => q < b.len(),
            });
        }
    }
    let label1: &str = if opts.labels.len() > 0 { opts.labels[0].as_str() } else { path1 };
    let label2: &str = if opts.labels.len() > 1 { opts.labels[1].as_str() } else { path2 };
    assert(label1@ == label_or(lines_view(opts.labels@), 0, path1@));
    assert(label2@ == label_or(lines_view(opts.labels@), 1, path2@));
    let lines = match opts.format {
        DiffFormat::Normal => print_normal(edits, a, b),
        DiffFormat::Unified(ctx) => print_unified(edits, a, b, ctx, label1, label2),
        DiffFormat::Context(ctx) => print_context(edits, a, b, ctx, label1, label2),
        DiffFormat::Ed => print_ed(edits, b),
        DiffFormat::Rcs => print_rcs(edits, a, b),
        DiffFormat::SideBySide => print_side_by_side(edits, a, b),
    };
    DiffReport { lines, status: 1 }
}

/// Compare the lines `a` of `path1` with the lines `b` of `path2` under
/// `opts`: what is printed and the exit status. `None` when the
/// side-by-side form would have to cut a shown line inside a character.
pub fn diff_lines(path1: &str, path2: &str, a: &[String], b: &[String], opts: &DiffOpts) -> (r: Option<DiffReport>)
    requires
        a.len() + b.len() <= usize::MAX / 8,
    ensures
        r is None <==> (opts.format == DiffFormat::SideBySide && diff_of(a@, b@, *opts).len() > 0 && !opts.brief
            && !side_by_side_cuttable(diff_of(a@, b@, *opts), lines_view(a@), lines_view(b@))),
        r matches Some(rep) ==> (lines_view(rep.lines@), rep.status) == report_of(
            diff_of(a@, b@, *opts),
            path1@,
            path2@,
            lines_view(a@),
            lines_view(b@),
            *opts,
        ),
{
    let edits = compute_diff(a, b, opts);
    if opts.format == DiffFormat::SideBySide && edits.len() > 0 && !opts.brief && !side_by_side_fits(
        edits.as_slice(),
        a,
        b,
    ) {
        return None;
    }
    let rep = diff_report(edits.as_slice(), path1, path2, a, b, opts);
    Some(rep)
}

} // verus!
