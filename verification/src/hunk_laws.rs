//! What a hunk's line ranges count: for a hunk of an edit script, the
//! first-file range spans exactly the lines the hunk shows from the first
//! file, and likewise for the second file.
use vstd::prelude::*;
use crate::edit::{Edit, walks_from, is_edit_script};
use crate::hunks::{
    a_span, b_span, range_of, hunks_of, hunk_spans, lemma_hunks_keep_changes, change_groups, groups_ordered,
    groups_cover, change_at, within, in_span, lemma_group_state, all_groups, group_state,
};

verus! {

/// Steps of `h` that show a first-file line: matches and deletions.
pub open spec fn a_count(h: Seq<Edit>) -> nat
    decreases h.len(),
{
    if h.len() == 0 {
        0
    } else {
        a_count(h.drop_last()) + if h.last() is Insert { 0nat } else { 1nat }
    }
}

/// Steps of `h` that show a second-file line: matches and insertions.
pub open spec fn b_count(h: Seq<Edit>) -> nat
    decreases h.len(),
{
    if h.len() == 0 {
        0
    } else {
        b_count(h.drop_last()) + if h.last() is Delete { 0nat } else { 1nat }
    }
}

proof fn lemma_counts_add(s: Seq<Edit>, t: Seq<Edit>)
    ensures
        a_count(s + t) == a_count(s) + a_count(t),
        b_count(s + t) == b_count(s) + b_count(t),
    decreases t.len(),
{
    if t.len() == 0 {
        assert(s + t =~= s);
    } else {
        lemma_counts_add(s, t.drop_last());
        assert((s + t).drop_last() =~= s + t.drop_last());
        assert((s + t).last() == t.last());
    }
}

proof fn lemma_single_counts(e: Edit)
    ensures
        a_count(seq![e]) == if e is Insert { 0nat } else { 1nat },
        b_count(seq![e]) == if e is Delete { 0nat } else { 1nat },
{
    reveal_with_fuel(a_count, 2);
    reveal_with_fuel(b_count, 2);
    assert(seq![e].drop_last() =~= Seq::<Edit>::empty());
}

/// Along a walk from `(x, y)`, the step at `k` names first-file line `x`
/// plus the first-file steps before it, and second-file line `y` plus the
/// second-file steps before it.
proof fn lemma_walk_positions(es: Seq<Edit>, a: Seq<Seq<char>>, b: Seq<Seq<char>>, x: int, y: int)
    requires
        walks_from(es, a, b, x, y),
    ensures
        forall|k: int|
            0 <= k < es.len() ==> match #[trigger] es[k] {
                Edit::Equal(p, q) => p == x + a_count(es.take(k)) && q == y + b_count(es.take(k)) && p < a.len()
                    && q < b.len() && a[p as int] == b[q as int],
                Edit::Delete(p) => p == x + a_count(es.take(k)) && p < a.len(),
                Edit::Insert(q) => q == y + b_count(es.take(k)) && q < b.len(),
            },
        x + a_count(es) == a.len(),
        y + b_count(es) == b.len(),
    decreases es.len(),
{
    if es.len() > 0 {
        let r = es.drop_first();
        let (x1, y1) = match es[0] {
            Edit::Equal(_, _) => (x + 1, y + 1),
            Edit::Delete(_) => (x + 1, y),
            Edit::Insert(_) => (x, y + 1),
        };
        lemma_walk_positions(r, a, b, x1, y1);
        assert forall|k: int| 0 <= k < es.len() implies match #[trigger] es[k] {
            Edit::Equal(p, q) => p == x + a_count(es.take(k)) && q == y + b_count(es.take(k)) && p < a.len()
                && q < b.len() && a[p as int] == b[q as int],
            Edit::Delete(p) => p == x + a_count(es.take(k)) && p < a.len(),
            Edit::Insert(q) => q == y + b_count(es.take(k)) && q < b.len(),
        } by {
            if k == 0 {
                assert(es.take(0) =~= Seq::<Edit>::empty());
            } else {
                assert(es[k] == r[k - 1]);
                assert(es.take(k) =~= seq![es[0]] + r.take(k - 1));
                lemma_counts_add(seq![es[0]], r.take(k - 1));
                lemma_single_counts(es[0]);
            }
        }
        assert(es =~= seq![es[0]] + r);
        lemma_counts_add(seq![es[0]], r);
        lemma_single_counts(es[0]);
    }
}

/// The first-file span of the slice `es[s..t]` of a script from `a`: empty
/// when the slice shows no first-file line, else from the number of
/// first-file steps before `s` to the number before `t`.
#[verifier::rlimit(40)]
proof fn lemma_slice_spans(es: Seq<Edit>, a: Seq<Seq<char>>, b: Seq<Seq<char>>, s: int, t: int)
    requires
        walks_from(es, a, b, 0, 0),
        a.len() <= usize::MAX,
        b.len() <= usize::MAX,
        0 <= s <= t <= es.len(),
    ensures
        a_span(es.subrange(s, t)) == if a_count(es.subrange(s, t)) == 0 {
            (usize::MAX as int, 0int)
        } else {
            (a_count(es.take(s)) as int, a_count(es.take(t)) as int)
        },
        b_span(es.subrange(s, t)) == if b_count(es.subrange(s, t)) == 0 {
            (usize::MAX as int, 0int)
        } else {
            (b_count(es.take(s)) as int, b_count(es.take(t)) as int)
        },
        a_count(es.take(t)) == a_count(es.take(s)) + a_count(es.subrange(s, t)),
        b_count(es.take(t)) == b_count(es.take(s)) + b_count(es.subrange(s, t)),
        a_count(es.subrange(s, t)) > 0 ==> a_count(es.take(t)) <= a.len(),
        b_count(es.subrange(s, t)) > 0 ==> b_count(es.take(t)) <= b.len(),
    decreases t - s,
{
    assert(es.take(t) =~= es.take(s) + es.subrange(s, t));
    lemma_counts_add(es.take(s), es.subrange(s, t));
    if t > s {
        lemma_slice_spans(es, a, b, s, t - 1);
        lemma_walk_positions(es, a, b, 0, 0);
        let sub = es.subrange(s, t);
        assert(sub.drop_last() =~= es.subrange(s, t - 1));
        assert(sub.last() == es[t - 1]);
        assert(es.take(t).drop_last() =~= es.take(t - 1));
        assert(es.take(t).last() == es[t - 1]);
        let xa = a_count(es.take(t - 1));
        let xb = b_count(es.take(t - 1));
        match es[t - 1] {
            Edit::Equal(p, q) => {
                assert(p == xa && p < a.len() && q == xb && q < b.len());
            },
            Edit::Delete(p) => {
                assert(p == xa && p < a.len());
            },
            Edit::Insert(q) => {
                assert(q == xb && q < b.len());
            },
        }
    } else {
        assert(es.subrange(s, t) =~= Seq::<Edit>::empty());
    }
}

/// In the hunks of an edit script, each `@@`/`***` range counts exactly the
/// lines the hunk shows from that file: matches and deletions from the
/// first, matches and insertions from the second.
pub proof fn lemma_hunk_ranges_count_lines(es: Seq<Edit>, a: Seq<Seq<char>>, b: Seq<Seq<char>>, ctx: int)
    requires
        is_edit_script(es, a, b),
        a.len() <= usize::MAX,
        b.len() <= usize::MAX,
        ctx >= 0,
    ensures
        forall|j: int|
            0 <= j < hunks_of(es, ctx).len() ==> range_of(#[trigger] hunks_of(es, ctx)[j]).1 == a_count(
                hunks_of(es, ctx)[j],
            ) && range_of(hunks_of(es, ctx)[j]).3 == b_count(hunks_of(es, ctx)[j]),
{
    lemma_hunks_keep_changes(es, ctx);
    let sp = hunk_spans(es, ctx);
    assert forall|j: int| 0 <= j < hunks_of(es, ctx).len() implies range_of(#[trigger] hunks_of(es, ctx)[j]).1
        == a_count(hunks_of(es, ctx)[j]) && range_of(hunks_of(es, ctx)[j]).3 == b_count(hunks_of(es, ctx)[j]) by {
        assert(sp[j] == sp[j]);
        lemma_slice_spans(es, a, b, sp[j].0, sp[j].1);
    }
}

/// The lines a hunk leaves in the patched file: its matches (as shown,
/// from the first file) and its insertions, in order.
pub open spec fn hunk_new_lines(h: Seq<Edit>, a: Seq<Seq<char>>, b: Seq<Seq<char>>) -> Seq<Seq<char>>
    decreases h.len(),
{
    if h.len() == 0 {
        Seq::empty()
    } else {
        let p = hunk_new_lines(h.drop_last(), a, b);
        match h.last() {
            Edit::Equal(i, _) => p.push(a[i as int]),
            Edit::Insert(j) => p.push(b[j as int]),
            Edit::Delete(_) => p,
        }
    }
}

/// Reading hunks in order as `patch` reads a unified or context diff:
/// copy the first file up to the line where the hunk's first-file range
/// starts, write the hunk's new lines, and go on after its range. The lines
/// written so far and the first-file lines dealt with.
pub open spec fn patch_state(a: Seq<Seq<char>>, b: Seq<Seq<char>>, hs: Seq<Seq<Edit>>) -> (Seq<Seq<char>>, int)
    decreases hs.len(),
{
    if hs.len() == 0 {
        (Seq::empty(), 0)
    } else {
        let (out, cur) = patch_state(a, b, hs.drop_last());
        let r = range_of(hs.last());
        (out + a.subrange(cur, r.0) + hunk_new_lines(hs.last(), a, b), r.0 + r.1)
    }
}

/// The first file patched with `hs`: what the hunks build, then the rest.
pub open spec fn apply_hunks(a: Seq<Seq<char>>, b: Seq<Seq<char>>, hs: Seq<Seq<Edit>>) -> Seq<Seq<char>> {
    patch_state(a, b, hs).0 + a.skip(patch_state(a, b, hs).1)
}

/// Step `k` of a walk from the start names the lines its position gives.
pub(crate) proof fn lemma_step_position(es: Seq<Edit>, a: Seq<Seq<char>>, b: Seq<Seq<char>>, k: int)
    requires
        walks_from(es, a, b, 0, 0),
        0 <= k < es.len(),
    ensures
        match es[k] {
            Edit::Equal(p, q) => p == a_count(es.take(k)) && q == b_count(es.take(k)) && p < a.len() && q < b.len()
                && a[p as int] == b[q as int],
            Edit::Delete(p) => p == a_count(es.take(k)) && p < a.len(),
            Edit::Insert(q) => q == b_count(es.take(k)) && q < b.len(),
        },
{
    lemma_walk_positions(es, a, b, 0, 0);
    assert(es[k] == es[k]);
}

/// The first `t` steps of a walk pass no more lines than the files have.
proof fn lemma_prefix_bounded(es: Seq<Edit>, a: Seq<Seq<char>>, b: Seq<Seq<char>>, t: int)
    requires
        walks_from(es, a, b, 0, 0),
        0 <= t <= es.len(),
    ensures
        a_count(es.take(t)) <= a.len(),
        b_count(es.take(t)) <= b.len(),
        a_count(es) == a.len(),
        b_count(es) == b.len(),
{
    lemma_walk_positions(es, a, b, 0, 0);
    assert(es =~= es.take(t) + es.skip(t));
    lemma_counts_add(es.take(t), es.skip(t));
}

/// Where steps `t..u` of a walk are all matches, the first-file lines
/// they pass equal the second-file lines they pass.
proof fn lemma_match_run(es: Seq<Edit>, a: Seq<Seq<char>>, b: Seq<Seq<char>>, t: int, u: int)
    requires
        walks_from(es, a, b, 0, 0),
        0 <= t <= u <= es.len(),
        forall|k: int| t <= k < u ==> !change_at(es, k),
    ensures
        a_count(es.take(u)) - a_count(es.take(t)) == u - t,
        b_count(es.take(u)) - b_count(es.take(t)) == u - t,
        a.subrange(a_count(es.take(t)) as int, a_count(es.take(u)) as int) == b.subrange(
            b_count(es.take(t)) as int,
            b_count(es.take(u)) as int,
        ),
    decreases u - t,
{
    
    lemma_prefix_bounded(es, a, b, t);
    if u > t {
        lemma_match_run(es, a, b, t, u - 1);
        lemma_step_position(es, a, b, u - 1);
        assert(!change_at(es, u - 1));
        assert(es.take(u).drop_last() =~= es.take(u - 1));
        assert(es.take(u).last() == es[u - 1]);
        let xa = a_count(es.take(t)) as int;
        let xb = b_count(es.take(t)) as int;
        match es[u - 1] {
            Edit::Equal(p, q) => {
                assert(a.subrange(xa, p + 1) =~= a.subrange(xa, p as int).push(a[p as int]));
                assert(b.subrange(xb, q + 1) =~= b.subrange(xb, q as int).push(b[q as int]));
            },
            _ => {},
        }
    } else {
        assert(a.subrange(a_count(es.take(t)) as int, a_count(es.take(t)) as int) =~= Seq::<Seq<char>>::empty());
        assert(b.subrange(b_count(es.take(t)) as int, b_count(es.take(t)) as int) =~= Seq::<Seq<char>>::empty());
    }
}

/// The new lines of the slice `es[s..t]` of a walk are the second-file
/// lines it passes.
#[verifier::rlimit(100)]
proof fn lemma_slice_new_lines(es: Seq<Edit>, a: Seq<Seq<char>>, b: Seq<Seq<char>>, s: int, t: int)
    requires
        walks_from(es, a, b, 0, 0),
        0 <= s <= t <= es.len(),
    ensures
        hunk_new_lines(es.subrange(s, t), a, b) == b.subrange(b_count(es.take(s)) as int, b_count(es.take(t)) as int),
        b_count(es.take(s)) <= b_count(es.take(t)) <= b.len(),
    decreases t - s,
{
    
    assert(es.take(t) =~= es.take(s) + es.subrange(s, t));
    lemma_counts_add(es.take(s), es.subrange(s, t));
    lemma_prefix_bounded(es, a, b, t);
    let yb = b_count(es.take(s)) as int;
    if t > s {
        lemma_slice_new_lines(es, a, b, s, t - 1);
        lemma_step_position(es, a, b, t - 1);
        let sub = es.subrange(s, t);
        assert(sub.drop_last() =~= es.subrange(s, t - 1));
        assert(sub.last() == es[t - 1]);
        assert(es.take(t).drop_last() =~= es.take(t - 1));
        assert(es.take(t).last() == es[t - 1]);
        match es[t - 1] {
            Edit::Equal(p, q) => {
                assert(b.subrange(yb, q + 1) =~= b.subrange(yb, q as int).push(b[q as int]));
            },
            Edit::Insert(q) => {
                assert(b.subrange(yb, q + 1) =~= b.subrange(yb, q as int).push(b[q as int]));
            },
            Edit::Delete(_) => {},
        }
    } else {
        assert(b.subrange(yb, yb) =~= Seq::<Seq<char>>::empty());
        assert(es.subrange(s, t) =~= Seq::<Edit>::empty());
    }
}

/// With at least one line of context, a hunk of a script whose first file
/// has lines shows some line of the first file.
#[verifier::rlimit(100)]
proof fn lemma_hunk_shows_first_file(es: Seq<Edit>, a: Seq<Seq<char>>, b: Seq<Seq<char>>, ctx: int, j: int)
    requires
        walks_from(es, a, b, 0, 0),
        ctx >= 1,
        a.len() > 0,
        0 <= j < hunk_spans(es, ctx).len(),
    ensures
        a_count(es.subrange(hunk_spans(es, ctx)[j].0, hunk_spans(es, ctx)[j].1)) > 0,
{
    lemma_hunks_keep_changes(es, ctx);
    lemma_group_state(es, ctx, es.len() as int);
    lemma_walk_positions(es, a, b, 0, 0);
    let sp = hunk_spans(es, ctx);
    let gs = change_groups(es, ctx);
    let (s, e) = sp[j];
    let (f, l) = gs[j];
    assert(gs[j] == gs[j]);
    assert(sp[j] == sp[j]);
    let k = if f > 0 {
        f - 1
    } else if l + 1 < es.len() {
        l + 1
    } else {
        -1
    };
    if k >= 0 {
        if change_at(es, k) {
            let g = choose|g: int| 0 <= g < gs.len() && #[trigger] within(gs[g], k);
            assert(gs[g] == gs[g]);
            if g < j {
                assert(gs[j].0 - gs[g].1 - 1 > 2 * ctx);
            } else if g > j {
                assert(gs[g].0 - gs[j].1 - 1 > 2 * ctx);
            }
        }
        assert(es.subrange(s, e) =~= es.subrange(s, k) + seq![es[k]] + es.subrange(k + 1, e));
        lemma_counts_add(es.subrange(s, k) + seq![es[k]], es.subrange(k + 1, e));
        lemma_counts_add(es.subrange(s, k), seq![es[k]]);
        lemma_single_counts(es[k]);
    } else {
        assert(es.subrange(s, e) =~= es);
    }
}

/// With at least one line of context, patching the first file with the
/// hunks of an edit script between the two files (lines compared exactly)
/// gives the second file.
#[verifier::rlimit(100)]
pub proof fn lemma_hunks_patch_back(es: Seq<Edit>, a: Seq<Seq<char>>, b: Seq<Seq<char>>, ctx: int)
    requires
        is_edit_script(es, a, b),
        a.len() <= usize::MAX,
        b.len() <= usize::MAX,
        ctx >= 1,
    ensures
        apply_hunks(a, b, hunks_of(es, ctx)) == b,
{
    lemma_hunks_keep_changes(es, ctx);
    lemma_hunk_ranges_count_lines(es, a, b, ctx);
    assert(es.take(es.len() as int) =~= es);
    let hs = hunks_of(es, ctx);
    let sp = hunk_spans(es, ctx);
    lemma_patch_prefix(es, a, b, ctx, hs.len() as int);
    assert(hs.take(hs.len() as int) =~= hs);
    let t = if hs.len() == 0 { 0 } else { sp[hs.len() - 1].1 };
    if hs.len() > 0 {
        assert(sp[hs.len() - 1] == sp[hs.len() - 1]);
    }
    lemma_prefix_bounded(es, a, b, t);
    assert forall|k: int| t <= k < es.len() implies !change_at(es, k) by {
        if change_at(es, k) {
            let g = choose|g: int| 0 <= g < sp.len() && #[trigger] in_span(sp[g], k);
            assert(sp[g] == sp[g]);
            if g < hs.len() - 1 {
                assert(sp[g].1 <= sp[hs.len() - 1].0);
            }
        }
    }
    lemma_match_run(es, a, b, t, es.len() as int);
    assert(a.skip(a_count(es.take(t)) as int) =~= a.subrange(a_count(es.take(t)) as int, a.len() as int));
    assert(b =~= b.take(b_count(es.take(t)) as int) + b.subrange(b_count(es.take(t)) as int, b.len() as int));
}

/// After the first `j` hunks, patching has written the second file up to
/// the end of hunk `j - 1` and dealt with the first file up to there.
#[verifier::rlimit(100)]
proof fn lemma_patch_prefix(es: Seq<Edit>, a: Seq<Seq<char>>, b: Seq<Seq<char>>, ctx: int, j: int)
    requires
        is_edit_script(es, a, b),
        a.len() <= usize::MAX,
        b.len() <= usize::MAX,
        ctx >= 1,
        0 <= j <= hunks_of(es, ctx).len(),
    ensures
        ({
            let t = if j == 0 { 0 } else { hunk_spans(es, ctx)[j - 1].1 };
            patch_state(a, b, hunks_of(es, ctx).take(j)) == (
                b.take(b_count(es.take(t)) as int),
                a_count(es.take(t)) as int,
            )
        }),
    decreases j,
{
    lemma_hunks_keep_changes(es, ctx);
    lemma_hunk_ranges_count_lines(es, a, b, ctx);
    let hs = hunks_of(es, ctx);
    let sp = hunk_spans(es, ctx);
    if j == 0 {
        assert(hs.take(0) =~= Seq::<Seq<Edit>>::empty());
        assert(es.take(0) =~= Seq::<Edit>::empty());
        assert(b.take(0) =~= Seq::<Seq<char>>::empty());
    } else {
        lemma_patch_prefix(es, a, b, ctx, j - 1);
        assert(hs.take(j).drop_last() =~= hs.take(j - 1));
        assert(hs.take(j).last() == hs[j - 1]);
        let t0 = if j == 1 { 0 } else { sp[j - 2].1 };
        assert(sp[j - 1] == sp[j - 1]);
        if j >= 2 {
            assert(sp[j - 2] == sp[j - 2]);
        }
        let (s, e) = sp[j - 1];
        let h = hs[j - 1];
        assert(h == es.subrange(s, e));
        assert(t0 <= s);
        assert forall|k: int| t0 <= k < s implies !change_at(es, k) by {
            if change_at(es, k) {
                let g = choose|g: int| 0 <= g < sp.len() && #[trigger] in_span(sp[g], k);
                assert(sp[g] == sp[g]);
                if g < j - 1 {
                    if g < j - 2 {
                        assert(sp[g].1 <= sp[j - 2].0);
                    }
                } else if g > j - 1 {
                    assert(sp[j - 1].1 <= sp[g].0);
                }
            }
        }
        lemma_match_run(es, a, b, t0, s);
        lemma_slice_spans(es, a, b, s, e);
        lemma_slice_new_lines(es, a, b, s, e);
        lemma_slice_new_lines(es, a, b, t0, s);
        if a.len() > 0 {
            lemma_hunk_shows_first_file(es, a, b, ctx, j - 1);
        } else {
            lemma_slice_spans(es, a, b, 0, s);
        }
        let y0 = b_count(es.take(t0)) as int;
        let y1 = b_count(es.take(s)) as int;
        let y2 = b_count(es.take(e)) as int;
        assert(b.take(y2) =~= b.take(y0) + b.subrange(y0, y1) + b.subrange(y1, y2));
    }
}

} // verus!
