//! The textual forms of an edit script: normal, unified, context, ed, RCS
//! and side-by-side. Each produces the lines to print, without newlines.
use vstd::prelude::*;
use crate::edit::Edit;
use crate::diff::indices_within;
use crate::hunks::{opt_int, 
    build_hunks, hunk_range, hunks_of, hunks_view, range_of, drawn_from, lemma_hunks_drawn_from,
    indices_below_max,
};
use crate::text::lines_view;
use crate::text::{decimal, push_decimal, push_str, push_char, pad_right, truncated, can_truncate, truncate, push_padded};

verus! {

/// The hunks drawn from a script whose indices are in range have indices in range.
proof fn lemma_hunk_indices(hs: Seq<Seq<Edit>>, es: Seq<Edit>, n: int, m: int, i: int)
    requires
        drawn_from(hs, es),
        indices_within(es, n, m),
        0 <= i < hs.len(),
        n <= usize::MAX,
        m <= usize::MAX,
    ensures
        indices_within(hs[i], n, m),
        indices_below_max(hs[i]),
{
    assert forall|j: int| 0 <= j < hs[i].len() implies match #[trigger] hs[i][j] {
        Edit::Equal(p, q) => p < n && q < m,
        Edit::Delete(p) => p < n,
        Edit::Insert(q) => q < m,
    } by {
        assert(es.contains(hs[i][j]));
        let k = choose|k: int| 0 <= k < es.len() && es[k] == hs[i][j];
        assert(es[k] == hs[i][j]);
    }
}

// ---------------------------------------------------------------------------
// unified
// ---------------------------------------------------------------------------

/// A step of a hunk in unified form: the line prefixed by ` `, `-` or `+`.
pub open spec fn unified_step(e: Edit, a: Seq<Seq<char>>, b: Seq<Seq<char>>) -> Seq<char> {
    match e {
        Edit::Equal(ai, _) => seq![' '] + a[ai as int],
        Edit::Delete(ai) => seq!['-'] + a[ai as int],
        Edit::Insert(bi) => seq!['+'] + b[bi as int],
    }
}

/// `@@ -<first>,<count> +<first>,<count> @@`, first lines counted from 1.
pub open spec fn unified_header(h: Seq<Edit>) -> Seq<char> {
    let (a_start, a_count, b_start, b_count) = range_of(h);
    seq!['@', '@', ' ', '-'] + decimal((a_start + 1) as nat) + seq![','] + decimal(a_count as nat)
        + seq![' ', '+'] + decimal((b_start + 1) as nat) + seq![','] + decimal(b_count as nat)
        + seq![' ', '@', '@']
}

pub open spec fn unified_hunk(h: Seq<Edit>, a: Seq<Seq<char>>, b: Seq<Seq<char>>) -> Seq<Seq<char>> {
    seq![unified_header(h)] + h.map_values(|e: Edit| unified_step(e, a, b))
}

pub open spec fn unified_hunks(hs: Seq<Seq<Edit>>, a: Seq<Seq<char>>, b: Seq<Seq<char>>) -> Seq<Seq<char>>
    decreases hs.len(),
{
    if hs.len() == 0 {
        Seq::empty()
    } else {
        unified_hunks(hs.drop_last(), a, b) + unified_hunk(hs.last(), a, b)
    }
}

/// The unified diff: `--- label1`, `+++ label2`, then each hunk.
pub open spec fn unified_lines(
    es: Seq<Edit>,
    a: Seq<Seq<char>>,
    b: Seq<Seq<char>>,
    ctx: int,
    label1: Seq<char>,
    label2: Seq<char>,
) -> Seq<Seq<char>> {
    seq![seq!['-', '-', '-', ' '] + label1, seq!['+', '+', '+', ' '] + label2] + unified_hunks(
        hunks_of(es, ctx),
        a,
        b,
    )
}

fn unified_header_line(range: (usize, usize, usize, usize)) -> (r: String)
    requires
        range.0 < usize::MAX,
        range.2 < usize::MAX,
    ensures
        r@ == seq!['@', '@', ' ', '-'] + decimal((range.0 + 1) as nat) + seq![','] + decimal(
            range.1 as nat,
        ) + seq![' ', '+'] + decimal((range.2 + 1) as nat) + seq![','] + decimal(range.3 as nat)
            + seq![' ', '@', '@'],
{
    let (a_start, a_count, b_start, b_count) = range;
    let mut s = String::new();
    push_str(&mut s, "@@ -");
    push_decimal(&mut s, a_start + 1);
    push_char(&mut s, ',');
    push_decimal(&mut s, a_count);
    push_str(&mut s, " +");
    push_decimal(&mut s, b_start + 1);
    push_char(&mut s, ',');
    push_decimal(&mut s, b_count);
    push_str(&mut s, " @@");
    proof {
        reveal_strlit("@@ -");
        reveal_strlit(" +");
        reveal_strlit(" @@");
        assert("@@ -"@ =~= seq!['@', '@', ' ', '-']);
        assert(" +"@ =~= seq![' ', '+']);
        assert(" @@"@ =~= seq![' ', '@', '@']);
    }
    assert(s@ =~= seq!['@', '@', ' ', '-'] + decimal((a_start + 1) as nat) + seq![','] + decimal(
        a_count as nat,
    ) + seq![' ', '+'] + decimal((b_start + 1) as nat) + seq![','] + decimal(b_count as nat)
        + seq![' ', '@', '@']);
    s
}

/// A line made of one prefix character and a line of input.
fn prefixed(c: char, line: &String) -> (r: String)
    ensures
        r@ == seq![c] + line@,
{
    let mut s = String::new();
    push_char(&mut s, c);
    push_str(&mut s, line.as_str());
    assert(s@ =~= seq![c] + line@);
    s
}

/// Render `edits` (between `a` and `b`) as a unified diff with `ctx` lines
/// of context, headed by the two labels.
pub fn print_unified(
    edits: &[Edit],
    a: &[String],
    b: &[String],
    ctx: usize,
    label1: &str,
    label2: &str,
) -> (r: Vec<String>)
    requires
        indices_within(edits@, a.len() as int, b.len() as int),
    ensures
        lines_view(r@) == unified_lines(
            edits@,
            lines_view(a@),
            lines_view(b@),
            ctx as int,
            label1@,
            label2@,
        ),
{
    let ghost la = lines_view(a@);
    let ghost lb = lines_view(b@);
    let mut out: Vec<String> = Vec::new();
    let mut l1 = String::new();
    push_str(&mut l1, "--- ");
    push_str(&mut l1, label1);
    let mut l2 = String::new();
    push_str(&mut l2, "+++ ");
    push_str(&mut l2, label2);
    proof {
        reveal_strlit("--- ");
        reveal_strlit("+++ ");
        assert("--- "@ =~= seq!['-', '-', '-', ' ']);
        assert("+++ "@ =~= seq!['+', '+', '+', ' ']);
    }
    out.push(l1);
    out.push(l2);
    let hunks = build_hunks(edits, ctx);
    let ghost hs = hunks_of(edits@, ctx as int);
    proof {
        lemma_hunks_drawn_from(edits@, ctx as int);
        assert(lines_view(out@) =~= seq![seq!['-', '-', '-', ' '] + label1@, seq!['+', '+', '+', ' '] + label2@]);
        assert(hunks_view(hunks@).len() == hunks@.len());
    }
    let mut i: usize = 0;
    while i < hunks.len()
        invariant
            la == lines_view(a@),
            lb == lines_view(b@),
            hs == hunks_of(edits@, ctx as int),
            hunks_view(hunks@) == hs,
            hunks@.len() == hs.len(),
            drawn_from(hs, edits@),
            indices_within(edits@, a.len() as int, b.len() as int),
            i <= hunks.len(),
            lines_view(out@) == seq![seq!['-', '-', '-', ' '] + label1@, seq!['+', '+', '+', ' ']
                + label2@] + unified_hunks(hs.take(i as int), la, lb),
        decreases hunks.len() - i,
    {
        let hunk = &hunks[i];
        assert(hunk@ == hs[i as int]);
        proof {
            lemma_hunk_indices(hs, edits@, a.len() as int, b.len() as int, i as int);
        }
        let range = hunk_range(hunk.as_slice(), a.len(), b.len());
        proof {
            crate::hunks::lemma_range_bounds(hunk@);
        }
        let header = unified_header_line(range);
        let ghost before = lines_view(out@);
        out.push(header);
        let mut j: usize = 0;
        while j < hunk.len()
            invariant
                la == lines_view(a@),
                lb == lines_view(b@),
                indices_within(hunk@, a.len() as int, b.len() as int),
                j <= hunk.len(),
                lines_view(out@) == before + seq![unified_header(hunk@)] + hunk@.take(j as int).map_values(
                    |e: Edit| unified_step(e, la, lb),
                ),
            decreases hunk.len() - j,
        {
            let line = match hunk[j] {
                Edit::Equal(ai, _) => prefixed(' ', &a[ai]),
                Edit::Delete(ai) => prefixed('-', &a[ai]),
                Edit::Insert(bi) => prefixed('+', &b[bi]),
            };
            assert(line@ == unified_step(hunk@[j as int], la, lb));
            let ghost prev = lines_view(out@);
            out.push(line);
            assert(lines_view(out@) =~= prev.push(line@));
            assert(hunk@.take(j + 1).map_values(|e: Edit| unified_step(e, la, lb)) =~= hunk@.take(
                j as int,
            ).map_values(|e: Edit| unified_step(e, la, lb)).push(unified_step(hunk@[j as int], la, lb)));
            j = j + 1;
            assert(lines_view(out@) =~= before + seq![unified_header(hunk@)] + hunk@.take(j as int).map_values(
                |e: Edit| unified_step(e, la, lb),
            ));
        }
        assert(hunk@.take(j as int) =~= hunk@);
        i = i + 1;
        assert(hs.take(i as int).drop_last() =~= hs.take(i - 1));
        assert(lines_view(out@) =~= seq![seq!['-', '-', '-', ' '] + label1@, seq!['+', '+', '+', ' ']
            + label2@] + unified_hunks(hs.take(i as int), la, lb));
    }
    assert(hs.take(i as int) =~= hs);
    out
}

} // verus!

verus! {

// ---------------------------------------------------------------------------
// context
// ---------------------------------------------------------------------------

/// `***************`
pub open spec fn stars15() -> Seq<char> {
    seq!['*', '*', '*', '*', '*', '*', '*', '*', '*', '*', '*', '*', '*', '*', '*']
}

/// The first-file side of a hunk: matches prefixed `  `, deletions `- `.
pub open spec fn context_old(h: Seq<Edit>, a: Seq<Seq<char>>) -> Seq<Seq<char>>
    decreases h.len(),
{
    if h.len() == 0 {
        Seq::empty()
    } else {
        let p = context_old(h.drop_last(), a);
        match h.last() {
            Edit::Equal(ai, _) => p.push(seq![' ', ' '] + a[ai as int]),
            Edit::Delete(ai) => p.push(seq!['-', ' '] + a[ai as int]),
            Edit::Insert(_) => p,
        }
    }
}

/// The second-file side of a hunk: matches prefixed `  `, insertions `+ `.
pub open spec fn context_new(h: Seq<Edit>, b: Seq<Seq<char>>) -> Seq<Seq<char>>
    decreases h.len(),
{
    if h.len() == 0 {
        Seq::empty()
    } else {
        let p = context_new(h.drop_last(), b);
        match h.last() {
            Edit::Equal(_, bi) => p.push(seq![' ', ' '] + b[bi as int]),
            Edit::Insert(bi) => p.push(seq!['+', ' '] + b[bi as int]),
            Edit::Delete(_) => p,
        }
    }
}

/// `*** <first>,<last> ****` for the first file (lines counted from 1).
pub open spec fn context_old_header(h: Seq<Edit>) -> Seq<char> {
    let (a_start, a_count, _, _) = range_of(h);
    seq!['*', '*', '*', ' '] + decimal((a_start + 1) as nat) + seq![','] + decimal(
        (a_start + a_count) as nat,
    ) + seq![' ', '*', '*', '*', '*']
}

/// `--- <first>,<last> ----` for the second file.
pub open spec fn context_new_header(h: Seq<Edit>) -> Seq<char> {
    let (_, _, b_start, b_count) = range_of(h);
    seq!['-', '-', '-', ' '] + decimal((b_start + 1) as nat) + seq![','] + decimal(
        (b_start + b_count) as nat,
    ) + seq![' ', '-', '-', '-', '-']
}

pub open spec fn context_hunk(h: Seq<Edit>, a: Seq<Seq<char>>, b: Seq<Seq<char>>) -> Seq<Seq<char>> {
    seq![stars15(), context_old_header(h)] + context_old(h, a) + seq![context_new_header(h)]
        + context_new(h, b)
}

pub open spec fn context_hunks(hs: Seq<Seq<Edit>>, a: Seq<Seq<char>>, b: Seq<Seq<char>>) -> Seq<Seq<char>>
    decreases hs.len(),
{
    if hs.len() == 0 {
        Seq::empty()
    } else {
        context_hunks(hs.drop_last(), a, b) + context_hunk(hs.last(), a, b)
    }
}

/// The context diff: `*** label1`, `--- label2`, then each hunk.
pub open spec fn context_lines(
    es: Seq<Edit>,
    a: Seq<Seq<char>>,
    b: Seq<Seq<char>>,
    ctx: int,
    label1: Seq<char>,
    label2: Seq<char>,
) -> Seq<Seq<char>> {
    seq![seq!['*', '*', '*', ' '] + label1, seq!['-', '-', '-', ' '] + label2] + context_hunks(
        hunks_of(es, ctx),
        a,
        b,
    )
}

proof fn lemma_lines_view_push(v: Seq<String>, s: String)
    ensures
        lines_view(v.push(s)) == lines_view(v).push(s@),
{
    assert(lines_view(v.push(s)) =~= lines_view(v).push(s@));
}

/// A line made of two prefix characters and a line of input.
fn prefixed2(c1: char, c2: char, line: &String) -> (r: String)
    ensures
        r@ == seq![c1, c2] + line@,
{
    let mut s = String::new();
    push_char(&mut s, c1);
    push_char(&mut s, c2);
    push_str(&mut s, line.as_str());
    assert(s@ =~= seq![c1, c2] + line@);
    s
}

/// `<lead><first>,<last><tail>` with first counted from 1.
fn range_line(lead: &str, first: usize, last: usize, tail: &str) -> (r: String)
    requires
        first < usize::MAX,
    ensures
        r@ == lead@ + decimal((first + 1) as nat) + seq![','] + decimal(last as nat) + tail@,
{
    let mut s = String::new();
    push_str(&mut s, lead);
    push_decimal(&mut s, first + 1);
    push_char(&mut s, ',');
    push_decimal(&mut s, last);
    push_str(&mut s, tail);
    assert(s@ =~= lead@ + decimal((first + 1) as nat) + seq![','] + decimal(last as nat) + tail@);
    s
}

/// Render `edits` (between `a` and `b`) as a context diff with `ctx` lines
/// of context, headed by the two labels.
pub fn print_context(
    edits: &[Edit],
    a: &[String],
    b: &[String],
    ctx: usize,
    label1: &str,
    label2: &str,
) -> (r: Vec<String>)
    requires
        indices_within(edits@, a.len() as int, b.len() as int),
    ensures
        lines_view(r@) == context_lines(
            edits@,
            lines_view(a@),
            lines_view(b@),
            ctx as int,
            label1@,
            label2@,
        ),
{
    let ghost la = lines_view(a@);
    let ghost lb = lines_view(b@);
    let ghost head = seq![seq!['*', '*', '*', ' '] + label1@, seq!['-', '-', '-', ' '] + label2@];
    let mut out: Vec<String> = Vec::new();
    let mut l1 = String::new();
    push_str(&mut l1, "*** ");
    push_str(&mut l1, label1);
    let mut l2 = String::new();
    push_str(&mut l2, "--- ");
    push_str(&mut l2, label2);
    proof {
        reveal_strlit("*** ");
        reveal_strlit("--- ");
        reveal_strlit(" ****");
        reveal_strlit(" ----");
        reveal_strlit("***************");
        assert("*** "@ =~= seq!['*', '*', '*', ' ']);
        assert("--- "@ =~= seq!['-', '-', '-', ' ']);
        assert(" ****"@ =~= seq![' ', '*', '*', '*', '*']);
        assert(" ----"@ =~= seq![' ', '-', '-', '-', '-']);
        assert("***************"@ =~= stars15());
    }
    out.push(l1);
    out.push(l2);
    let hunks = build_hunks(edits, ctx);
    let ghost hs = hunks_of(edits@, ctx as int);
    proof {
        lemma_hunks_drawn_from(edits@, ctx as int);
        assert(lines_view(out@) =~= head);
        assert(hunks_view(hunks@).len() == hunks@.len());
    }
    let mut i: usize = 0;
    while i < hunks.len()
        invariant
            la == lines_view(a@),
            lb == lines_view(b@),
            hs == hunks_of(edits@, ctx as int),
            hunks_view(hunks@) == hs,
            hunks@.len() == hs.len(),
            drawn_from(hs, edits@),
            indices_within(edits@, a.len() as int, b.len() as int),
            i <= hunks.len(),
            head == seq![seq!['*', '*', '*', ' '] + label1@, seq!['-', '-', '-', ' '] + label2@],
            lines_view(out@) == head + context_hunks(hs.take(i as int), la, lb),
            " ****"@ == seq![' ', '*', '*', '*', '*'],
            " ----"@ == seq![' ', '-', '-', '-', '-'],
            "*** "@ == seq!['*', '*', '*', ' '],
            "--- "@ == seq!['-', '-', '-', ' '],
            "***************"@ == stars15(),
        decreases hunks.len() - i,
    {
        let hunk = &hunks[i];
        assert(hunk@ == hs[i as int]);
        proof {
            lemma_hunk_indices(hs, edits@, a.len() as int, b.len() as int, i as int);
            crate::hunks::lemma_range_bounds(hunk@);
        }
        let (a_start, a_count, b_start, b_count) = hunk_range(hunk.as_slice(), a.len(), b.len());
        let ghost before = lines_view(out@);
        let stars = String::from_str("***************");
        out.push(stars);
        out.push(range_line("*** ", a_start, a_start + a_count, " ****"));
        let ghost mid0 = lines_view(out@);
        assert(mid0 =~= before + seq![stars15(), context_old_header(hunk@)]);
        let mut j: usize = 0;
        while j < hunk.len()
            invariant
                la == lines_view(a@),
                indices_within(hunk@, a.len() as int, b.len() as int),
                j <= hunk.len(),
                lines_view(out@) == mid0 + context_old(hunk@.take(j as int), la),
            decreases hunk.len() - j,
        {
            assert(hunk@.take(j + 1).drop_last() =~= hunk@.take(j as int));
            assert(hunk@.take(j + 1).last() == hunk@[j as int]);
            let ghost prev = lines_view(out@);
            match hunk[j] {
                Edit::Equal(ai, _) => {
                    let line = prefixed2(' ', ' ', &a[ai]);
                    proof {
                        lemma_lines_view_push(out@, line);
                    }
                    out.push(line);
                },
                Edit::Delete(ai) => {
                    let line = prefixed2('-', ' ', &a[ai]);
                    proof {
                        lemma_lines_view_push(out@, line);
                    }
                    out.push(line);
                },
                Edit::Insert(_) => {},
            }
            j = j + 1;
            assert(lines_view(out@) =~= mid0 + context_old(hunk@.take(j as int), la));
        }
        assert(hunk@.take(j as int) =~= hunk@);
        out.push(range_line("--- ", b_start, b_start + b_count, " ----"));
        let ghost mid1 = lines_view(out@);
        assert(mid1 =~= before + seq![stars15(), context_old_header(hunk@)] + context_old(hunk@, la)
            + seq![context_new_header(hunk@)]);
        let mut j: usize = 0;
        while j < hunk.len()
            invariant
                lb == lines_view(b@),
                indices_within(hunk@, a.len() as int, b.len() as int),
                j <= hunk.len(),
                lines_view(out@) == mid1 + context_new(hunk@.take(j as int), lb),
            decreases hunk.len() - j,
        {
            assert(hunk@.take(j + 1).drop_last() =~= hunk@.take(j as int));
            assert(hunk@.take(j + 1).last() == hunk@[j as int]);
            match hunk[j] {
                Edit::Equal(_, bi) => {
                    let line = prefixed2(' ', ' ', &b[bi]);
                    proof {
                        lemma_lines_view_push(out@, line);
                    }
                    out.push(line);
                },
                Edit::Insert(bi) => {
                    let line = prefixed2('+', ' ', &b[bi]);
                    proof {
                        lemma_lines_view_push(out@, line);
                    }
                    out.push(line);
                },
                Edit::Delete(_) => {},
            }
            j = j + 1;
            assert(lines_view(out@) =~= mid1 + context_new(hunk@.take(j as int), lb));
        }
        assert(hunk@.take(j as int) =~= hunk@);
        i = i + 1;
        assert(hs.take(i as int).drop_last() =~= hs.take(i - 1));
        assert(lines_view(out@) =~= head + context_hunks(hs.take(i as int), la, lb));
    }
    assert(hs.take(i as int) =~= hs);
    out
}

} // verus!

verus! {

// ---------------------------------------------------------------------------
// ed and RCS
// ---------------------------------------------------------------------------

/// The first-file line (counted from 1) after which position `i` of the
/// script falls: one past the line of the nearest match or deletion before
/// it, or 0 when there is none.
pub open spec fn anchor(es: Seq<Edit>, i: int) -> int
    decreases i,
{
    if i <= 0 {
        0
    } else {
        match es[i - 1] {
            Edit::Equal(ai, _) => ai + 1,
            Edit::Delete(ai) => ai + 1,
            Edit::Insert(_) => anchor(es, i - 1),
        }
    }
}

/// Every first-file index in `es` is below `usize::MAX`, so one past it is a `usize`.
pub open spec fn a_indices_below_max(es: Seq<Edit>) -> bool {
    forall|i: int|
        0 <= i < es.len() ==> match #[trigger] es[i] {
            Edit::Equal(p, _) => p < usize::MAX,
            Edit::Delete(p) => p < usize::MAX,
            Edit::Insert(_) => true,
        }
}

fn anchor_before(edits: &[Edit], i: usize) -> (r: usize)
    requires
        i <= edits.len(),
        a_indices_below_max(edits@),
    ensures
        r == anchor(edits@, i as int),
{
    let mut j = i;
    while j > 0
        invariant
            j <= i <= edits.len(),
            a_indices_below_max(edits@),
            anchor(edits@, i as int) == anchor(edits@, j as int),
        decreases j,
    {
        match edits[j - 1] {
            Edit::Equal(ai, _) => {
                return ai + 1;
            },
            Edit::Delete(ai) => {
                return ai + 1;
            },
            Edit::Insert(_) => {
                j = j - 1;
            },
        }
    }
    0
}

/// The ed commands for step `i`: `<n>d` for a deletion of line `n`;
/// `<n>a`, the line, `.` for an insertion after line `n`.
pub open spec fn ed_step(es: Seq<Edit>, i: int, b: Seq<Seq<char>>) -> Seq<Seq<char>> {
    match es[i] {
        Edit::Equal(_, _) => Seq::empty(),
        Edit::Delete(ai) => seq![decimal((ai + 1) as nat) + seq!['d']],
        Edit::Insert(bi) => seq![decimal(anchor(es, i) as nat) + seq!['a'], b[bi as int], seq!['.']],
    }
}

/// The ed commands of steps `i..`, last step first.
pub open spec fn ed_suffix(es: Seq<Edit>, b: Seq<Seq<char>>, i: int) -> Seq<Seq<char>>
    decreases es.len() - i,
{
    if i >= es.len() || i < 0 {
        Seq::empty()
    } else {
        ed_suffix(es, b, i + 1) + ed_step(es, i, b)
    }
}

/// The ed script: the commands of every step, from the last step to the first.
pub open spec fn ed_lines(es: Seq<Edit>, b: Seq<Seq<char>>) -> Seq<Seq<char>> {
    ed_suffix(es, b, 0)
}

/// Render `edits` as an ed script that turns the first file into the second.
pub fn print_ed(edits: &[Edit], b: &[String]) -> (r: Vec<String>)
    requires
        a_indices_below_max(edits@),
        forall|i: int|
            0 <= i < edits@.len() ==> (#[trigger] edits@[i] matches Edit::Insert(bi) ==> bi < b.len()),
    ensures
        lines_view(r@) == ed_lines(edits@, lines_view(b@)),
{
    let ghost lb = lines_view(b@);
    let mut out: Vec<String> = Vec::new();
    let mut i = edits.len();
    assert(lines_view(out@) =~= ed_suffix(edits@, lb, i as int));
    while i > 0
        invariant
            lb == lines_view(b@),
            i <= edits.len(),
            a_indices_below_max(edits@),
            forall|k: int|
                0 <= k < edits@.len() ==> (#[trigger] edits@[k] matches Edit::Insert(bi) ==> bi < b.len()),
            lines_view(out@) == ed_suffix(edits@, lb, i as int),
        decreases i,
    {
        i = i - 1;
        let ghost prev = lines_view(out@);
        match edits[i] {
            Edit::Equal(_, _) => {},
            Edit::Delete(ai) => {
                let mut s = String::new();
                push_decimal(&mut s, ai + 1);
                push_char(&mut s, 'd');
                assert(s@ =~= decimal((ai + 1) as nat) + seq!['d']);
                proof {
                    lemma_lines_view_push(out@, s);
                }
                out.push(s);
            },
            Edit::Insert(bi) => {
                let a_pos = anchor_before(edits, i);
                let mut s = String::new();
                push_decimal(&mut s, a_pos);
                push_char(&mut s, 'a');
                assert(s@ =~= decimal(a_pos as nat) + seq!['a']);
                proof {
                    lemma_lines_view_push(out@, s);
                }
                out.push(s);
                let line = b[bi].clone();
                proof {
                    lemma_lines_view_push(out@, line);
                }
                out.push(line);
                let mut dot = String::new();
                push_char(&mut dot, '.');
                assert(dot@ =~= seq!['.']);
                proof {
                    lemma_lines_view_push(out@, dot);
                }
                out.push(dot);
            },
        }
        assert(lines_view(out@) =~= prev + ed_step(edits@, i as int, lb));
        assert(ed_suffix(edits@, lb, i as int) == ed_suffix(edits@, lb, i + 1) + ed_step(edits@, i as int, lb));
    }
    out
}

/// The RCS commands for step `i`: `d<n> 1` deletes line `n`; `a<n> 1` and
/// the line add it after line `n`.
pub open spec fn rcs_step(es: Seq<Edit>, i: int, b: Seq<Seq<char>>) -> Seq<Seq<char>> {
    match es[i] {
        Edit::Equal(_, _) => Seq::empty(),
        Edit::Delete(ai) => seq![seq!['d'] + decimal((ai + 1) as nat) + seq![' ', '1']],
        Edit::Insert(bi) => seq![seq!['a'] + decimal(anchor(es, i) as nat) + seq![' ', '1'], b[bi as int]],
    }
}

/// The RCS commands of the first `i` steps, in order.
pub open spec fn rcs_prefix(es: Seq<Edit>, b: Seq<Seq<char>>, i: int) -> Seq<Seq<char>>
    decreases i,
{
    if i <= 0 {
        Seq::empty()
    } else {
        rcs_prefix(es, b, i - 1) + rcs_step(es, i - 1, b)
    }
}

/// Render `edits` in RCS form.
pub fn print_rcs(edits: &[Edit], a: &[String], b: &[String]) -> (r: Vec<String>)
    requires
        a_indices_below_max(edits@),
        forall|i: int|
            0 <= i < edits@.len() ==> (#[trigger] edits@[i] matches Edit::Insert(bi) ==> bi < b.len()),
    ensures
        lines_view(r@) == rcs_prefix(edits@, lines_view(b@), edits@.len() as int),
{
    let ghost lb = lines_view(b@);
    let mut out: Vec<String> = Vec::new();
    let mut i: usize = 0;
    assert(lines_view(out@) =~= rcs_prefix(edits@, lb, 0));
    proof {
        reveal_strlit(" 1");
        assert(" 1"@ =~= seq![' ', '1']);
    }
    while i < edits.len()
        invariant
            lb == lines_view(b@),
            i <= edits.len(),
            a_indices_below_max(edits@),
            forall|k: int|
                0 <= k < edits@.len() ==> (#[trigger] edits@[k] matches Edit::Insert(bi) ==> bi < b.len()),
            lines_view(out@) == rcs_prefix(edits@, lb, i as int),
            " 1"@ == seq![' ', '1'],
        decreases edits.len() - i,
    {
        let ghost prev = lines_view(out@);
        match edits[i] {
            Edit::Equal(_, _) => {},
            Edit::Delete(ai) => {
                let mut s = String::new();
                push_char(&mut s, 'd');
                push_decimal(&mut s, ai + 1);
                push_str(&mut s, " 1");
                proof {
                    lemma_lines_view_push(out@, s);
                }
                out.push(s);
            },
            Edit::Insert(bi) => {
                let a_pos = anchor_before(edits, i);
                let mut s = String::new();
                push_char(&mut s, 'a');
                push_decimal(&mut s, a_pos);
                push_str(&mut s, " 1");
                proof {
                    lemma_lines_view_push(out@, s);
                }
                out.push(s);
                let line = b[bi].clone();
                proof {
                    lemma_lines_view_push(out@, line);
                }
                out.push(line);
            },
        }
        assert(lines_view(out@) =~= prev + rcs_step(edits@, i as int, lb));
        i = i + 1;
    }
    let _ = a;
    out
}

} // verus!

verus! {

// ---------------------------------------------------------------------------
// side by side
// ---------------------------------------------------------------------------

/// Width of each column of the side-by-side form.
pub open spec fn column() -> nat {
    38
}

/// One line of the side-by-side form: the first-file line cut to the column
/// width and padded to it, then `   ` and the matching second-file line for
/// a match, ` <` for a deletion; for an insertion an empty column, ` > ` and
/// the second-file line.
pub open spec fn side_by_side_step(e: Edit, a: Seq<Seq<char>>, b: Seq<Seq<char>>) -> Seq<char> {
    match e {
        Edit::Equal(ai, bj) => pad_right(truncated(a[ai as int], column()), column()) + seq![' ', ' ', ' ']
            + truncated(b[bj as int], column()),
        Edit::Delete(ai) => pad_right(truncated(a[ai as int], column()), column()) + seq![' ', '<'],
        Edit::Insert(bi) => pad_right(Seq::empty(), column()) + seq![' ', '>', ' '] + truncated(
            b[bi as int],
            column(),
        ),
    }
}

pub open spec fn side_by_side_lines(es: Seq<Edit>, a: Seq<Seq<char>>, b: Seq<Seq<char>>) -> Seq<Seq<char>> {
    es.map_values(|e: Edit| side_by_side_step(e, a, b))
}

/// Every line the side-by-side form shows can be cut to the column width.
pub open spec fn side_by_side_cuttable(es: Seq<Edit>, a: Seq<Seq<char>>, b: Seq<Seq<char>>) -> bool {
    forall|i: int|
        0 <= i < es.len() ==> match #[trigger] es[i] {
            Edit::Equal(ai, bj) => can_truncate(a[ai as int], column()) && can_truncate(b[bj as int], column()),
            Edit::Delete(ai) => can_truncate(a[ai as int], column()),
            Edit::Insert(bi) => can_truncate(b[bi as int], column()),
        }
}

/// Render `edits` in two columns of 38 characters.
pub fn print_side_by_side(edits: &[Edit], a: &[String], b: &[String]) -> (r: Vec<String>)
    requires
        indices_within(edits@, a.len() as int, b.len() as int),
        side_by_side_cuttable(edits@, lines_view(a@), lines_view(b@)),
    ensures
        lines_view(r@) == side_by_side_lines(edits@, lines_view(a@), lines_view(b@)),
{
    let ghost la = lines_view(a@);
    let ghost lb = lines_view(b@);
    let width: usize = 80;
    let col = (width - 3) / 2;
    let mut out: Vec<String> = Vec::new();
    let mut i: usize = 0;
    proof {
        reveal_strlit("   ");
        reveal_strlit(" <");
        reveal_strlit(" > ");
        reveal_strlit("");
        assert("   "@ =~= seq![' ', ' ', ' ']);
        assert(" <"@ =~= seq![' ', '<']);
        assert(" > "@ =~= seq![' ', '>', ' ']);
        assert(""@ =~= Seq::<char>::empty());
    }
    while i < edits.len()
        invariant
            la == lines_view(a@),
            lb == lines_view(b@),
            col == column(),
            i <= edits.len(),
            indices_within(edits@, a.len() as int, b.len() as int),
            side_by_side_cuttable(edits@, la, lb),
            lines_view(out@) == side_by_side_lines(edits@.take(i as int), la, lb),
            "   "@ == seq![' ', ' ', ' '],
            " <"@ == seq![' ', '<'],
            " > "@ == seq![' ', '>', ' '],
            ""@ == Seq::<char>::empty(),
        decreases edits.len() - i,
    {
        let mut s = String::new();
        match edits[i] {
            Edit::Equal(ai, bj) => {
                let t = truncate(a[ai].as_str(), col);
                push_padded(&mut s, t.as_str(), col);
                push_str(&mut s, "   ");
                let u = truncate(b[bj].as_str(), col);
                push_str(&mut s, u.as_str());
            },
            Edit::Delete(ai) => {
                let t = truncate(a[ai].as_str(), col);
                push_padded(&mut s, t.as_str(), col);
                push_str(&mut s, " <");
            },
            Edit::Insert(bi) => {
                let t = truncate(b[bi].as_str(), col);
                push_padded(&mut s, "", col);
                push_str(&mut s, " > ");
                push_str(&mut s, t.as_str());
            },
        }
        assert(s@ =~= side_by_side_step(edits@[i as int], la, lb));
        proof {
            lemma_lines_view_push(out@, s);
        }
        out.push(s);
        i = i + 1;
        assert(side_by_side_lines(edits@.take(i as int), la, lb) =~= side_by_side_lines(
            edits@.take(i - 1),
            la,
            lb,
        ).push(side_by_side_step(edits@[i - 1], la, lb)));
    }
    assert(edits@.take(i as int) =~= edits@);
    out
}

} // verus!

verus! {

/// Every side-by-side row keeps its left column 38 characters wide (wider
/// only if the cut line is): the row starts with the cut first-file line,
/// or nothing for an insertion, then spaces up to that width; the gutter
/// marker follows (`   ` for a match, ` <` for a deletion, ` > ` for an
/// insertion), and after it the cut second-file line of a match or an
/// insertion.
pub proof fn lemma_side_by_side_columns(es: Seq<Edit>, a: Seq<Seq<char>>, b: Seq<Seq<char>>, k: int)
    requires
        0 <= k < es.len(),
    ensures
        ({
            let row = side_by_side_lines(es, a, b)[k];
            let text = match es[k] {
                Edit::Equal(ai, _) => truncated(a[ai as int], 38),
                Edit::Delete(ai) => truncated(a[ai as int], 38),
                Edit::Insert(_) => Seq::<char>::empty(),
            };
            let w = if text.len() >= 38 { text.len() as int } else { 38 };
            &&& row.len() >= w + 2
            &&& row.take(text.len() as int) == text
            &&& forall|t: int| text.len() <= t < w ==> row[t] == ' '
            &&& match es[k] {
                Edit::Equal(_, bj) => row.subrange(w, w + 3) == seq![' ', ' ', ' '] && row.skip(w + 3)
                    == truncated(b[bj as int], 38),
                Edit::Delete(_) => row.skip(w) == seq![' ', '<'],
                Edit::Insert(bi) => row.subrange(w, w + 3) == seq![' ', '>', ' '] && row.skip(w + 3)
                    == truncated(b[bi as int], 38),
            }
        }),
{
    let row = side_by_side_lines(es, a, b)[k];
    assert(row == side_by_side_step(es[k], a, b));
    let text = match es[k] {
        Edit::Equal(ai, _) => truncated(a[ai as int], 38),
        Edit::Delete(ai) => truncated(a[ai as int], 38),
        Edit::Insert(_) => Seq::<char>::empty(),
    };
    let w = if text.len() >= 38 { text.len() as int } else { 38 };
    let padded = pad_right(text, 38);
    assert(padded.len() == w);
    assert(padded.take(text.len() as int) =~= text);
    assert forall|t: int| text.len() <= t < w implies padded[t] == ' ' by {}
    let rest = match es[k] {
        Edit::Equal(_, bj) => seq![' ', ' ', ' '] + truncated(b[bj as int], 38),
        Edit::Delete(_) => seq![' ', '<'],
        Edit::Insert(bi) => seq![' ', '>', ' '] + truncated(b[bi as int], 38),
    };
    assert(row =~= padded + rest);
    assert(row.take(text.len() as int) =~= padded.take(text.len() as int));
    assert(row.skip(w) =~= rest);
    match es[k] {
        Edit::Equal(_, bj) => {
            assert(row.subrange(w, w + 3) =~= seq![' ', ' ', ' ']);
            assert(row.skip(w + 3) =~= truncated(b[bj as int], 38));
        },
        Edit::Delete(_) => {},
        Edit::Insert(bi) => {
            assert(row.subrange(w, w + 3) =~= seq![' ', '>', ' ']);
            assert(row.skip(w + 3) =~= truncated(b[bi as int], 38));
        },
    }
}

} // verus!

verus! {

// ---------------------------------------------------------------------------
// normal
// ---------------------------------------------------------------------------

/// From step `j`, the deletions that continue a run of consecutive lines
/// ending at line `end`: the step after them and the last line deleted.
pub open spec fn del_run(es: Seq<Edit>, j: int, end: int) -> (int, int)
    decreases es.len() - j,
{
    if 0 <= j < es.len() {
        match es[j] {
            Edit::Delete(aj) => if aj == end + 1 {
                del_run(es, j + 1, aj as int)
            } else {
                (j, end)
            },
            _ => (j, end),
        }
    } else {
        (j, end)
    }
}

/// From step `j`, the insertions that continue a run of consecutive lines
/// ending at line `end`: the step after them and the last line inserted.
pub open spec fn ins_consecutive_run(es: Seq<Edit>, j: int, end: int) -> (int, int)
    decreases es.len() - j,
{
    if 0 <= j < es.len() {
        match es[j] {
            Edit::Insert(bj) => if bj == end + 1 {
                ins_consecutive_run(es, j + 1, bj as int)
            } else {
                (j, end)
            },
            _ => (j, end),
        }
    } else {
        (j, end)
    }
}

/// From step `k`, the insertions that follow (whatever their lines): the
/// step after them, the line of the first (if any) and of the last.
pub open spec fn ins_run(es: Seq<Edit>, k: int, first: Option<int>, last: int) -> (int, Option<int>, int)
    decreases es.len() - k,
{
    if 0 <= k < es.len() {
        match es[k] {
            Edit::Insert(bi) => ins_run(
                es,
                k + 1,
                if first is None { Some(bi as int) } else { first },
                bi as int,
            ),
            _ => (k, first, last),
        }
    } else {
        (k, first, last)
    }
}

pub proof fn lemma_del_run(es: Seq<Edit>, j: int, end: int)
    requires
        0 <= j,
    ensures
        ({
            let r = del_run(es, j, end);
            &&& j <= r.0
            &&& (r.0 <= es.len() || r.0 == j)
            &&& r.1 >= end
            &&& r.0 == j ==> r.1 == end
            &&& r.0 > j ==> (es[r.0 - 1] matches Edit::Delete(p) && p == r.1)
        }),
    decreases es.len() - j,
{
    if 0 <= j < es.len() {
        match es[j] {
            Edit::Delete(aj) => if aj == end + 1 {
                lemma_del_run(es, j + 1, aj as int);
            },
            _ => {},
        }
    }
}

pub proof fn lemma_ins_consecutive_run(es: Seq<Edit>, j: int, end: int)
    requires
        0 <= j,
    ensures
        ({
            let r = ins_consecutive_run(es, j, end);
            &&& j <= r.0
            &&& (r.0 <= es.len() || r.0 == j)
            &&& r.1 >= end
            &&& r.0 == j ==> r.1 == end
            &&& r.0 > j ==> (es[r.0 - 1] matches Edit::Insert(p) && p == r.1)
        }),
    decreases es.len() - j,
{
    if 0 <= j < es.len() {
        match es[j] {
            Edit::Insert(bj) => if bj == end + 1 {
                lemma_ins_consecutive_run(es, j + 1, bj as int);
            },
            _ => {},
        }
    }
}

pub proof fn lemma_ins_run(es: Seq<Edit>, k: int, first: Option<int>, last: int)
    requires
        0 <= k,
    ensures
        ({
            let r = ins_run(es, k, first, last);
            &&& k <= r.0
            &&& (r.0 <= es.len() || r.0 == k)
            &&& r.0 == k ==> r.1 == first && r.2 == last
            &&& r.0 > k ==> (es[r.0 - 1] matches Edit::Insert(p) && p == r.2)
            &&& r.0 > k && first is None ==> (r.1 is Some && (es[k] matches Edit::Insert(p) && p == r.1->0))
            &&& first is Some ==> r.1 == first
        }),
    decreases es.len() - k,
{
    if 0 <= k < es.len() {
        match es[k] {
            Edit::Insert(bi) => {
                lemma_ins_run(es, k + 1, if first is None { Some(bi as int) } else { first }, bi as int);
            },
            _ => {},
        }
    }
}

/// `,<end + 1>` when the range has more than one line.
pub open spec fn range_tail(start: int, end: int) -> Seq<char> {
    if end > start {
        seq![','] + decimal((end + 1) as nat)
    } else {
        Seq::empty()
    }
}

/// `prefix` followed by each of the lines `lo..=hi`.
pub open spec fn range_lines(prefix: Seq<char>, lines: Seq<Seq<char>>, lo: int, hi: int) -> Seq<Seq<char>> {
    Seq::new(if hi >= lo { (hi - lo + 1) as nat } else { 0 }, |t: int| prefix + lines[lo + t])
}

/// The normal form of the steps from `i` on: each run of deletions of
/// consecutive lines, with the insertions right after it, is a change
/// `<a-range>c<b-range>` (old lines `< `, `---`, new lines `> `), or alone a
/// deletion `<a-range>d<first line - 1>`; each run of insertions of
/// consecutive lines not after deletions is `<anchor>a<b-range>`.
pub open spec fn normal_from(es: Seq<Edit>, a: Seq<Seq<char>>, b: Seq<Seq<char>>, i: int) -> Seq<Seq<char>>
    decreases es.len() - i,
{
    if i < 0 || i >= es.len() {
        Seq::empty()
    } else {
        match es[i] {
            Edit::Equal(_, _) => normal_from(es, a, b, i + 1),
            Edit::Delete(ai) => {
                let start = ai as int;
                let (j, end) = del_run(es, i + 1, start);
                let (k, first, ins_end) = ins_run(es, j, None, 0);
                proof {
                    lemma_del_run(es, i + 1, start);
                    lemma_ins_run(es, j, None, 0);
                }
                match first {
                    Some(is) => seq![
                        decimal((start + 1) as nat) + range_tail(start, end) + seq!['c'] + decimal(
                            (is + 1) as nat,
                        ) + range_tail(is, ins_end),
                    ] + range_lines(seq!['<', ' '], a, start, end) + seq![seq!['-', '-', '-']]
                        + range_lines(seq!['>', ' '], b, is, ins_end) + normal_from(es, a, b, k),
                    None => seq![
                        decimal((start + 1) as nat) + range_tail(start, end) + seq!['d'] + decimal(
                            start as nat,
                        ),
                    ] + range_lines(seq!['<', ' '], a, start, end) + normal_from(es, a, b, j),
                }
            },
            Edit::Insert(bi) => {
                let start = bi as int;
                let (j, end) = ins_consecutive_run(es, i + 1, start);
                proof {
                    lemma_ins_consecutive_run(es, i + 1, start);
                }
                seq![
                    decimal(anchor(es, i) as nat) + seq!['a'] + decimal((start + 1) as nat)
                        + range_tail(start, end),
                ] + range_lines(seq!['>', ' '], b, start, end) + normal_from(es, a, b, j)
            },
        }
    }
}

/// The normal diff of a script.
pub open spec fn normal_lines(es: Seq<Edit>, a: Seq<Seq<char>>, b: Seq<Seq<char>>) -> Seq<Seq<char>> {
    normal_from(es, a, b, 0)
}

} // verus!

verus! {

fn push_range_tail(s: &mut String, start: usize, end: usize)
    requires
        end < usize::MAX,
    ensures
        final(s)@ == old(s)@ + range_tail(start as int, end as int),
{
    if end > start {
        push_char(s, ',');
        push_decimal(s, end + 1);
    }
    assert(final(s)@ =~= old(s)@ + range_tail(start as int, end as int));
}

fn push_range_lines(out: &mut Vec<String>, c1: char, c2: char, lines: &[String], lo: usize, hi: usize)
    requires
        hi >= lo ==> hi < lines.len(),
    ensures
        lines_view(final(out)@) == lines_view(old(out)@) + range_lines(
            seq![c1, c2],
            lines_view(lines@),
            lo as int,
            hi as int,
        ),
{
    let ghost start = lines_view(out@);
    let ghost ll = lines_view(lines@);
    if hi >= lo {
        let mut idx = lo;
        while idx <= hi
            invariant
                lo <= idx <= hi + 1,
                hi < lines.len(),
                ll == lines_view(lines@),
                lines_view(out@) == start + range_lines(seq![c1, c2], ll, lo as int, idx - 1),
            decreases hi + 1 - idx,
        {
            let line = prefixed2(c1, c2, &lines[idx]);
            proof {
                lemma_lines_view_push(out@, line);
            }
            out.push(line);
            idx = idx + 1;
            assert(lines_view(out@) =~= start + range_lines(seq![c1, c2], ll, lo as int, idx - 1));
        }
    } else {
        assert(lines_view(out@) =~= start + range_lines(seq![c1, c2], ll, lo as int, hi as int));
    }
}

/// Render `edits` (between `a` and `b`) in the normal diff form.
#[verifier::rlimit(40)]
pub fn print_normal(edits: &[Edit], a: &[String], b: &[String]) -> (r: Vec<String>)
    requires
        indices_within(edits@, a.len() as int, b.len() as int),
    ensures
        lines_view(r@) == normal_lines(edits@, lines_view(a@), lines_view(b@)),
{
    let ghost es = edits@;
    let ghost la = lines_view(a@);
    let ghost lb = lines_view(b@);
    let mut out: Vec<String> = Vec::new();
    let mut i: usize = 0;
    assert(lines_view(out@) + normal_from(es, la, lb, 0) =~= normal_lines(es, la, lb));
    while i < edits.len()
        invariant
            es == edits@,
            la == lines_view(a@),
            lb == lines_view(b@),
            indices_within(es, a.len() as int, b.len() as int),
            i <= edits.len(),
            lines_view(out@) + normal_from(es, la, lb, i as int) == normal_lines(es, la, lb),
        decreases edits.len() - i,
    {
        let ghost before = lines_view(out@);
        assert(match es[i as int] {
            Edit::Equal(p, q) => p < a.len() && q < b.len(),
            Edit::Delete(p) => p < a.len(),
            Edit::Insert(q) => q < b.len(),
        });
        match edits[i] {
            Edit::Equal(_, _) => {
                i = i + 1;
            },
            Edit::Delete(ai) => {
                let start = ai;
                let mut end = start;
                let mut j = i + 1;
                let mut go = true;
                proof {
                    lemma_del_run(es, i + 1, start as int);
                }
                while go && j < edits.len()
                    invariant
                        es == edits@,
                        indices_within(es, a.len() as int, b.len() as int),
                        i < j <= edits.len(),
                        start <= end < a.len(),
                        del_run(es, j as int, end as int) == del_run(es, i + 1, start as int),
                        !go ==> del_run(es, j as int, end as int) == (j as int, end as int),
                    decreases edits.len() - j, if go { 1int } else { 0int },
                {
                    assert(match es[j as int] {
                        Edit::Equal(p, q) => p < a.len() && q < b.len(),
                        Edit::Delete(p) => p < a.len(),
                        Edit::Insert(q) => q < b.len(),
                    });
                    match edits[j] {
                        Edit::Delete(aj) => {
                            if aj == end + 1 {
                                end = aj;
                                j = j + 1;
                            } else {
                                go = false;
                            }
                        },
                        _ => {
                            go = false;
                        },
                    }
                }
                assert(del_run(es, i + 1, start as int) == (j as int, end as int));
                let mut ins_start: Option<usize> = None;
                let mut ins_end: usize = 0;
                let mut k = j;
                let mut go = true;
                proof {
                    lemma_ins_run(es, j as int, None, 0);
                }
                while go && k < edits.len()
                    invariant
                        es == edits@,
                        indices_within(es, a.len() as int, b.len() as int),
                        j <= k <= edits.len(),
                        ins_start is Some ==> ins_start->0 < b.len() && ins_end < b.len(),
                        ins_start is None ==> ins_end == 0,
                        ins_run(es, k as int, opt_int(ins_start), ins_end as int) == ins_run(
                            es,
                            j as int,
                            None,
                            0,
                        ),
                        !go ==> ins_run(es, k as int, opt_int(ins_start), ins_end as int) == (
                            k as int,
                            opt_int(ins_start),
                            ins_end as int,
                        ),
                    decreases edits.len() - k, if go { 1int } else { 0int },
                {
                    assert(match es[k as int] {
                        Edit::Equal(p, q) => p < a.len() && q < b.len(),
                        Edit::Delete(p) => p < a.len(),
                        Edit::Insert(q) => q < b.len(),
                    });
                    match edits[k] {
                        Edit::Insert(bi) => {
                            if ins_start.is_none() {
                                ins_start = Some(bi);
                            }
                            ins_end = bi;
                            k = k + 1;
                        },
                        _ => {
                            go = false;
                        },
                    }
                }
                assert(ins_run(es, j as int, None, 0) == (k as int, opt_int(ins_start), ins_end as int));
                if let Some(is) = ins_start {
                    let mut s = String::new();
                    push_decimal(&mut s, start + 1);
                    push_range_tail(&mut s, start, end);
                    push_char(&mut s, 'c');
                    push_decimal(&mut s, is + 1);
                    push_range_tail(&mut s, is, ins_end);
                    assert(s@ =~= decimal((start + 1) as nat) + range_tail(start as int, end as int)
                        + seq!['c'] + decimal((is + 1) as nat) + range_tail(is as int, ins_end as int));
                    proof {
                        lemma_lines_view_push(out@, s);
                    }
                    out.push(s);
                    push_range_lines(&mut out, '<', ' ', a, start, end);
                    let mut sep = String::new();
                    push_char(&mut sep, '-');
                    push_char(&mut sep, '-');
                    push_char(&mut sep, '-');
                    assert(sep@ =~= seq!['-', '-', '-']);
                    proof {
                        lemma_lines_view_push(out@, sep);
                    }
                    out.push(sep);
                    push_range_lines(&mut out, '>', ' ', b, is, ins_end);
                    i = k;
                } else {
                    let mut s = String::new();
                    push_decimal(&mut s, start + 1);
                    push_range_tail(&mut s, start, end);
                    push_char(&mut s, 'd');
                    push_decimal(&mut s, start);
                    assert(s@ =~= decimal((start + 1) as nat) + range_tail(start as int, end as int)
                        + seq!['d'] + decimal(start as nat));
                    proof {
                        lemma_lines_view_push(out@, s);
                    }
                    out.push(s);
                    push_range_lines(&mut out, '<', ' ', a, start, end);
                    i = j;
                }
            },
            Edit::Insert(bi) => {
                let start = bi;
                let mut end = start;
                let mut j = i + 1;
                let mut go = true;
                proof {
                    lemma_ins_consecutive_run(es, i + 1, start as int);
                }
                while go && j < edits.len()
                    invariant
                        es == edits@,
                        indices_within(es, a.len() as int, b.len() as int),
                        i < j <= edits.len(),
                        start <= end < b.len(),
                        ins_consecutive_run(es, j as int, end as int) == ins_consecutive_run(
                            es,
                            i + 1,
                            start as int,
                        ),
                        !go ==> ins_consecutive_run(es, j as int, end as int) == (j as int, end as int),
                    decreases edits.len() - j, if go { 1int } else { 0int },
                {
                    assert(match es[j as int] {
                        Edit::Equal(p, q) => p < a.len() && q < b.len(),
                        Edit::Delete(p) => p < a.len(),
                        Edit::Insert(q) => q < b.len(),
                    });
                    match edits[j] {
                        Edit::Insert(bj) => {
                            if bj == end + 1 {
                                end = bj;
                                j = j + 1;
                            } else {
                                go = false;
                            }
                        },
                        _ => {
                            go = false;
                        },
                    }
                }
                proof {
                    assert forall|t: int| 0 <= t < es.len() implies match #[trigger] es[t] {
                        Edit::Equal(p, _) => p < usize::MAX,
                        Edit::Delete(p) => p < usize::MAX,
                        Edit::Insert(_) => true,
                    } by {
                        assert(match es[t] {
                            Edit::Equal(p, q) => p < a.len() && q < b.len(),
                            Edit::Delete(p) => p < a.len(),
                            Edit::Insert(q) => q < b.len(),
                        });
                    }
                }
                let a_pos = anchor_before(edits, i);
                let mut s = String::new();
                push_decimal(&mut s, a_pos);
                push_char(&mut s, 'a');
                push_decimal(&mut s, start + 1);
                push_range_tail(&mut s, start, end);
                assert(s@ =~= decimal(a_pos as nat) + seq!['a'] + decimal((start + 1) as nat)
                    + range_tail(start as int, end as int));
                proof {
                    lemma_lines_view_push(out@, s);
                }
                out.push(s);
                push_range_lines(&mut out, '>', ' ', b, start, end);
                i = j;
            },
        }
        assert(lines_view(out@) + normal_from(es, la, lb, i as int) =~= normal_lines(es, la, lb));
    }
    assert(lines_view(out@) =~= normal_lines(es, la, lb));
    out
}

} // verus!
