//! Grouping an edit script into hunks with surrounding context, and the
//! line ranges a hunk covers.
use vstd::prelude::*;
use crate::edit::Edit;

verus! {

/// Grouping of changes after some steps: the closed groups and the open
/// one, each as the positions of its first and last change.
pub type GroupState = (Seq<(int, int)>, Option<(int, int)>);

/// Take step `i` of `es` into the grouping. A change joins the open group
/// when at most `2 * ctx` steps lie between it and the group's last change
/// (their context would meet); otherwise it closes that group and opens a
/// new one.
pub open spec fn group_step(st: GroupState, es: Seq<Edit>, i: int, ctx: int) -> GroupState {
    if es[i].is_change() {
        match st.1 {
            None => (st.0, Some((i, i))),
            Some(g) => if i - g.1 - 1 <= 2 * ctx {
                (st.0, Some((g.0, i)))
            } else {
                (st.0.push(g), Some((i, i)))
            },
        }
    } else {
        st
    }
}

/// The grouping after the first `i` steps.
pub open spec fn group_state(es: Seq<Edit>, ctx: int, i: int) -> GroupState
    decreases i,
{
    if i <= 0 {
        (Seq::empty(), None)
    } else {
        group_step(group_state(es, ctx, i - 1), es, i - 1, ctx)
    }
}

/// All groups of a grouping, the open one last.
pub open spec fn all_groups(st: GroupState) -> Seq<(int, int)> {
    match st.1 {
        Some(g) => st.0.push(g),
        None => st.0,
    }
}

/// The groups of changes of `es` with `ctx` lines of context.
pub open spec fn change_groups(es: Seq<Edit>, ctx: int) -> Seq<(int, int)> {
    all_groups(group_state(es, ctx, es.len() as int))
}

/// Where the hunk of a group whose first change is at `f` starts: `ctx`
/// steps earlier, or at the start of the script.
pub open spec fn hunk_start(f: int, ctx: int) -> int {
    if f >= ctx {
        f - ctx
    } else {
        0
    }
}

/// Where the hunk of a group whose last change is at `l` ends (exclusive):
/// `ctx` steps later, or at the end of the script.
pub open spec fn hunk_end(es: Seq<Edit>, l: int, ctx: int) -> int {
    if l + ctx + 1 <= es.len() {
        l + ctx + 1
    } else {
        es.len() as int
    }
}

/// The slice of `es` each hunk is.
pub open spec fn hunk_spans(es: Seq<Edit>, ctx: int) -> Seq<(int, int)> {
    change_groups(es, ctx).map_values(|g: (int, int)| (hunk_start(g.0, ctx), hunk_end(es, g.1, ctx)))
}

/// The hunks of `es` with `ctx` lines of context: for each group of
/// changes, the steps from `ctx` before its first change to `ctx` after its
/// last one.
pub open spec fn hunks_of(es: Seq<Edit>, ctx: int) -> Seq<Seq<Edit>> {
    hunk_spans(es, ctx).map_values(|sp: (int, int)| es.subrange(sp.0, sp.1))
}

/// The contents of a vector of hunks.
pub open spec fn hunks_view(h: Seq<Vec<Edit>>) -> Seq<Seq<Edit>> {
    h.map_values(|v: Vec<Edit>| v@)
}

pub open spec fn opt_int(o: Option<usize>) -> Option<int> {
    match o {
        Some(v) => Some(v as int),
        None => None,
    }
}

/// Groups as positions.
pub open spec fn groups_view(v: Seq<(usize, usize)>) -> Seq<(int, int)> {
    v.map_values(|g: (usize, usize)| (g.0 as int, g.1 as int))
}

/// A group as positions.
pub open spec fn opt_group(o: Option<(usize, usize)>) -> Option<(int, int)> {
    match o {
        Some(g) => Some((g.0 as int, g.1 as int)),
        None => None,
    }
}

/// Groups whose first and last positions are changes below `n`, in order,
/// with more than `2 * ctx` steps between one group and any later one.
pub open spec fn groups_ordered(gs: Seq<(int, int)>, es: Seq<Edit>, ctx: int, n: int) -> bool {
    &&& forall|j: int|
        #![trigger gs[j]]
        0 <= j < gs.len() ==> 0 <= gs[j].0 <= gs[j].1 < n && es[gs[j].0].is_change()
            && es[gs[j].1].is_change()
    &&& forall|j: int, j2: int|
        #![trigger gs[j], gs[j2]]
        0 <= j < j2 < gs.len() ==> gs[j2].0 - gs[j].1 - 1 > 2 * ctx
}

/// Step `c` of `es` is a change.
pub open spec fn change_at(es: Seq<Edit>, c: int) -> bool {
    es[c].is_change()
}

/// Position `c` lies within the group `g` (first and last position).
pub open spec fn within(g: (int, int), c: int) -> bool {
    g.0 <= c <= g.1
}

/// Every change before `n` lies within one of the groups.
pub open spec fn groups_cover(gs: Seq<(int, int)>, es: Seq<Edit>, n: int) -> bool {
    forall|c: int|
        0 <= c < n && #[trigger] change_at(es, c) ==> exists|j: int| 0 <= j < gs.len() && #[trigger] within(gs[j], c)
}

proof fn lemma_groups_first(gs: Seq<(int, int)>, es: Seq<Edit>, ctx: int, c0: int)
    requires
        gs.len() == 0,
        groups_cover(gs, es, c0),
        0 <= c0 < es.len(),
        es[c0].is_change(),
    ensures
        groups_ordered(seq![(c0, c0)], es, ctx, c0 + 1),
        groups_cover(seq![(c0, c0)], es, c0 + 1),
{
    let gs2 = seq![(c0, c0)];
    assert forall|c: int| 0 <= c < c0 + 1 && #[trigger] change_at(es, c) implies exists|j: int|
        0 <= j < gs2.len() && #[trigger] within(gs2[j], c) by {
        if c < c0 {
            assert(exists|j: int| 0 <= j < gs.len() && #[trigger] within(gs[j], c));
        }
        assert(within(gs2[0], c));
    }
}

proof fn lemma_groups_join(gs: Seq<(int, int)>, es: Seq<Edit>, ctx: int, c0: int)
    requires
        gs.len() > 0,
        groups_ordered(gs, es, ctx, c0),
        groups_cover(gs, es, c0),
        0 <= c0 < es.len(),
        es[c0].is_change(),
    ensures
        groups_ordered(gs.update(gs.len() - 1, (gs.last().0, c0)), es, ctx, c0 + 1),
        groups_cover(gs.update(gs.len() - 1, (gs.last().0, c0)), es, c0 + 1),
{
    let last = gs.len() - 1;
    let gs2 = gs.update(last, (gs.last().0, c0));
    assert(gs[last] == gs.last());
    assert forall|j: int, j2: int| 0 <= j < j2 < gs2.len() implies #[trigger] gs2[j2].0 - #[trigger] gs2[j].1 - 1
        > 2 * ctx by {
        assert(gs[j2].0 - gs[j].1 - 1 > 2 * ctx);
    }
    assert forall|j: int| 0 <= j < gs2.len() implies 0 <= #[trigger] gs2[j].0 <= gs2[j].1 < c0 + 1
        && es[gs2[j].0].is_change() && es[gs2[j].1].is_change() by {
        assert(gs[j] == gs[j]);
    }
    assert forall|c: int| 0 <= c < c0 + 1 && #[trigger] change_at(es, c) implies exists|j: int|
        0 <= j < gs2.len() && #[trigger] within(gs2[j], c) by {
        if c == c0 {
            assert(within(gs2[last], c));
        } else {
            let j = choose|j: int| 0 <= j < gs.len() && #[trigger] within(gs[j], c);
            assert(within(gs2[j], c));
        }
    }
}

proof fn lemma_groups_split(gs: Seq<(int, int)>, es: Seq<Edit>, ctx: int, c0: int)
    requires
        gs.len() > 0,
        groups_ordered(gs, es, ctx, c0),
        groups_cover(gs, es, c0),
        0 <= c0 < es.len(),
        es[c0].is_change(),
        c0 - gs.last().1 - 1 > 2 * ctx,
    ensures
        groups_ordered(gs.push((c0, c0)), es, ctx, c0 + 1),
        groups_cover(gs.push((c0, c0)), es, c0 + 1),
{
    let last = gs.len() - 1;
    let gs2 = gs.push((c0, c0));
    assert(gs[last] == gs.last());
    assert forall|j: int, j2: int| 0 <= j < j2 < gs2.len() implies #[trigger] gs2[j2].0 - #[trigger] gs2[j].1 - 1
        > 2 * ctx by {
        if j2 < gs.len() {
            assert(gs[j2].0 - gs[j].1 - 1 > 2 * ctx);
        } else if j < last {
            assert(gs[last].0 - gs[j].1 - 1 > 2 * ctx);
            assert(gs[last].0 <= gs[last].1);
        }
    }
    assert forall|j: int| 0 <= j < gs2.len() implies 0 <= #[trigger] gs2[j].0 <= gs2[j].1 < c0 + 1
        && es[gs2[j].0].is_change() && es[gs2[j].1].is_change() by {
        if j < gs.len() {
            assert(gs2[j] == gs[j]);
        }
    }
    assert forall|c: int| 0 <= c < c0 + 1 && #[trigger] change_at(es, c) implies exists|j: int|
        0 <= j < gs2.len() && #[trigger] within(gs2[j], c) by {
        if c == c0 {
            assert(within(gs2[gs.len() as int], c));
        } else {
            let j = choose|j: int| 0 <= j < gs.len() && #[trigger] within(gs[j], c);
            assert(gs2[j] == gs[j]);
            assert(within(gs2[j], c));
        }
    }
}

proof fn lemma_groups_skip(gs: Seq<(int, int)>, es: Seq<Edit>, ctx: int, c0: int)
    requires
        groups_ordered(gs, es, ctx, c0),
        groups_cover(gs, es, c0),
        0 <= c0 < es.len(),
        !es[c0].is_change(),
    ensures
        groups_ordered(gs, es, ctx, c0 + 1),
        groups_cover(gs, es, c0 + 1),
{
    assert forall|c: int| 0 <= c < c0 + 1 && #[trigger] change_at(es, c) implies exists|j: int|
        0 <= j < gs.len() && #[trigger] within(gs[j], c) by {
        assert(c < c0);
    }
}

pub(crate) proof fn lemma_group_state(es: Seq<Edit>, ctx: int, i: int)
    requires
        0 <= i <= es.len(),
        ctx >= 0,
    ensures
        group_state(es, ctx, i).1 is None ==> group_state(es, ctx, i).0.len() == 0,
        groups_ordered(all_groups(group_state(es, ctx, i)), es, ctx, i),
        groups_cover(all_groups(group_state(es, ctx, i)), es, i),
    decreases i,
{
    if i > 0 {
        lemma_group_state(es, ctx, i - 1);
        let st = group_state(es, ctx, i - 1);
        let gs = all_groups(st);
        let c0 = i - 1;
        assert(group_state(es, ctx, i) == group_step(st, es, c0, ctx));
        if es[c0].is_change() {
            match st.1 {
                None => {
                    lemma_groups_first(gs, es, ctx, c0);
                    assert(all_groups(group_state(es, ctx, i)) =~= seq![(c0, c0)]);
                },
                Some(g) => {
                    assert(gs.last() == g);
                    if c0 - g.1 - 1 <= 2 * ctx {
                        lemma_groups_join(gs, es, ctx, c0);
                        assert(all_groups(group_state(es, ctx, i)) =~= gs.update(gs.len() - 1, (g.0, c0)));
                    } else {
                        lemma_groups_split(gs, es, ctx, c0);
                        assert(all_groups(group_state(es, ctx, i)) =~= gs.push((c0, c0)));
                    }
                },
            }
        } else {
            lemma_groups_skip(gs, es, ctx, c0);
        }
    } else {
        let gs = all_groups(group_state(es, ctx, 0));
        assert(gs.len() == 0);
    }
}

/// Group `edits` into hunks with `ctx` lines of context.
pub fn build_hunks(edits: &[Edit], ctx: usize) -> (r: Vec<Vec<Edit>>)
    ensures
        hunks_view(r@) == hunks_of(edits@, ctx as int),
{
    let ghost es = edits@;
    let mut groups: Vec<(usize, usize)> = Vec::new();
    let mut open: Option<(usize, usize)> = None;
    let mut i: usize = 0;
    assert(groups_view(groups@) =~= Seq::<(int, int)>::empty());
    while i < edits.len()
        invariant
            es == edits@,
            i <= edits.len(),
            (groups_view(groups@), opt_group(open)) == group_state(es, ctx as int, i as int),
            open matches Some(g) ==> g.0 <= g.1 < i,
        decreases edits.len() - i,
    {
        let ghost st = group_state(es, ctx as int, i as int);
        assert(group_state(es, ctx as int, i + 1) == group_step(st, es, i as int, ctx as int));
        if !edits[i].is_equal() {
            match open {
                None => {
                    open = Some((i, i));
                },
                Some(g) => {
                    let gap = i - g.1 - 1;
                    if gap <= ctx || gap - ctx <= ctx {
                        open = Some((g.0, i));
                    } else {
                        groups.push(g);
                        open = Some((i, i));
                        assert(groups_view(groups@) =~= st.0.push((g.0 as int, g.1 as int)));
                    }
                },
            }
        }
        i = i + 1;
    }
    if let Some(g) = open {
        groups.push(g);
    }
    let ghost gs = change_groups(es, ctx as int);
    assert(groups_view(groups@) =~= gs);
    proof {
        lemma_group_state(es, ctx as int, es.len() as int);
    }
    let mut hunks: Vec<Vec<Edit>> = Vec::new();
    let mut k: usize = 0;
    assert(hunks_view(hunks@) =~= hunks_of(es, ctx as int).take(0));
    while k < groups.len()
        invariant
            es == edits@,
            gs == change_groups(es, ctx as int),
            groups_view(groups@) == gs,
            groups_ordered(gs, es, ctx as int, es.len() as int),
            k <= groups.len(),
            hunks_view(hunks@) == hunks_of(es, ctx as int).take(k as int),
        decreases groups.len() - k,
    {
        let g = groups[k];
        assert(gs[k as int] == (g.0 as int, g.1 as int));
        let s = if g.0 >= ctx { g.0 - ctx } else { 0 };
        let e = if edits.len() - g.1 - 1 <= ctx { edits.len() } else { g.1 + ctx + 1 };
        let mut h: Vec<Edit> = Vec::new();
        let mut j = s;
        while j < e
            invariant
                es == edits@,
                s <= j <= e,
                e <= edits.len(),
                h@ == es.subrange(s as int, j as int),
            decreases e - j,
        {
            h.push(edits[j]);
            j = j + 1;
            assert(h@ =~= es.subrange(s as int, j as int));
        }
        assert(hunks_of(es, ctx as int).len() == groups.len());
        assert(hunks_of(es, ctx as int)[k as int] == h@);
        let ghost old_hunks = hunks@;
        hunks.push(h);
        assert(hunks_view(hunks@) =~= hunks_view(old_hunks).push(h@));
        assert(hunks_of(es, ctx as int).take(k + 1) =~= hunks_of(es, ctx as int).take(k as int).push(
            hunks_of(es, ctx as int)[k as int],
        ));
        k = k + 1;
        assert(hunks_view(hunks@) =~= hunks_of(es, ctx as int).take(k as int));
    }
    assert(hunks_of(es, ctx as int).take(k as int) =~= hunks_of(es, ctx as int));
    hunks
}

/// Position `c` lies within the slice `sp` (start, end exclusive).
pub open spec fn in_span(sp: (int, int), c: int) -> bool {
    sp.0 <= c < sp.1
}

/// Grouping into hunks neither loses, duplicates nor reorders a change:
/// each hunk is a slice of the script, the slices come in order without
/// overlapping, and every change of the script lies in one of them. Each
/// slice reaches at most `ctx` steps beyond its first and last change.
pub proof fn lemma_hunks_keep_changes(es: Seq<Edit>, ctx: int)
    requires
        ctx >= 0,
    ensures
        ({
            let sp = hunk_spans(es, ctx);
            let gs = change_groups(es, ctx);
            &&& hunks_of(es, ctx).len() == sp.len()
            &&& forall|j: int|
                #![trigger sp[j]]
                0 <= j < sp.len() ==> 0 <= sp[j].0 < sp[j].1 <= es.len() && hunks_of(es, ctx)[j]
                    == es.subrange(sp[j].0, sp[j].1) && sp[j].0 <= gs[j].0 && gs[j].0 - sp[j].0 <= ctx
                    && gs[j].1 < sp[j].1 && sp[j].1 - gs[j].1 - 1 <= ctx && es[gs[j].0].is_change()
                    && es[gs[j].1].is_change()
            &&& forall|j: int, j2: int| #![trigger sp[j], sp[j2]] 0 <= j < j2 < sp.len() ==> sp[j].1 <= sp[j2].0
            &&& forall|c: int|
                0 <= c < es.len() && #[trigger] change_at(es, c) ==> exists|j: int|
                    0 <= j < sp.len() && #[trigger] in_span(sp[j], c)
        }),
{
    lemma_group_state(es, ctx, es.len() as int);
    let sp = hunk_spans(es, ctx);
    let gs = change_groups(es, ctx);
    lemma_spans_ordered(es, ctx);
    assert forall|c: int| 0 <= c < es.len() && #[trigger] change_at(es, c) implies exists|j: int|
        0 <= j < sp.len() && #[trigger] in_span(sp[j], c) by {
        let j = choose|j: int| 0 <= j < gs.len() && #[trigger] within(gs[j], c);
        assert(in_span(sp[j], c));
    }
}

proof fn lemma_spans_ordered(es: Seq<Edit>, ctx: int)
    requires
        ctx >= 0,
        groups_ordered(change_groups(es, ctx), es, ctx, es.len() as int),
    ensures
        forall|j: int, j2: int|
            #![trigger hunk_spans(es, ctx)[j], hunk_spans(es, ctx)[j2]]
            0 <= j < j2 < hunk_spans(es, ctx).len() ==> hunk_spans(es, ctx)[j].1 <= hunk_spans(es, ctx)[j2].0,
{
    let sp = hunk_spans(es, ctx);
    let gs = change_groups(es, ctx);
    assert forall|j: int, j2: int| 0 <= j < j2 < sp.len() implies #[trigger] sp[j].1 <= #[trigger] sp[j2].0 by {
        assert(gs[j2].0 - gs[j].1 - 1 > 2 * ctx);
    }
}

} // verus!

verus! {

/// Lowest first-file line index in `h` and one past the highest; `usize::MAX`
/// and `0` when `h` touches no line of the first file.
pub open spec fn a_span(h: Seq<Edit>) -> (int, int)
    decreases h.len(),
{
    if h.len() == 0 {
        (usize::MAX as int, 0)
    } else {
        let (lo, hi) = a_span(h.drop_last());
        match h.last() {
            Edit::Equal(ai, _) => (if ai < lo { ai as int } else { lo }, if hi < ai + 1 { ai + 1 } else { hi }),
            Edit::Delete(ai) => (if ai < lo { ai as int } else { lo }, if hi < ai + 1 { ai + 1 } else { hi }),
            Edit::Insert(_) => (lo, hi),
        }
    }
}

/// Lowest second-file line index in `h` and one past the highest.
pub open spec fn b_span(h: Seq<Edit>) -> (int, int)
    decreases h.len(),
{
    if h.len() == 0 {
        (usize::MAX as int, 0)
    } else {
        let (lo, hi) = b_span(h.drop_last());
        match h.last() {
            Edit::Equal(_, bi) => (if bi < lo { bi as int } else { lo }, if hi < bi + 1 { bi + 1 } else { hi }),
            Edit::Insert(bi) => (if bi < lo { bi as int } else { lo }, if hi < bi + 1 { bi + 1 } else { hi }),
            Edit::Delete(_) => (lo, hi),
        }
    }
}

/// First line and line count of a hunk in each file (first line 0 when
/// the hunk has no line there).
pub open spec fn range_of(h: Seq<Edit>) -> (int, int, int, int) {
    let (alo, ahi) = a_span(h);
    let (blo, bhi) = b_span(h);
    let a_start = if alo == usize::MAX { 0 } else { alo };
    let b_start = if blo == usize::MAX { 0 } else { blo };
    (a_start, ahi - a_start, b_start, bhi - b_start)
}

/// No index in `h` is `usize::MAX`.
pub open spec fn indices_below_max(h: Seq<Edit>) -> bool {
    forall|i: int|
        0 <= i < h.len() ==> match #[trigger] h[i] {
            Edit::Equal(p, q) => p < usize::MAX && q < usize::MAX,
            Edit::Delete(p) => p < usize::MAX,
            Edit::Insert(q) => q < usize::MAX,
        }
}

proof fn lemma_spans(h: Seq<Edit>)
    requires
        indices_below_max(h),
    ensures
        0 <= a_span(h).1 <= usize::MAX,
        0 <= a_span(h).0 <= usize::MAX,
        a_span(h).0 != usize::MAX ==> a_span(h).0 < a_span(h).1,
        a_span(h).0 == usize::MAX ==> a_span(h).1 == 0,
        0 <= b_span(h).1 <= usize::MAX,
        0 <= b_span(h).0 <= usize::MAX,
        b_span(h).0 != usize::MAX ==> b_span(h).0 < b_span(h).1,
        b_span(h).0 == usize::MAX ==> b_span(h).1 == 0,
    decreases h.len(),
{
    if h.len() > 0 {
        assert forall|i: int| 0 <= i < h.drop_last().len() implies match #[trigger] h.drop_last()[i] {
            Edit::Equal(p, q) => p < usize::MAX && q < usize::MAX,
            Edit::Delete(p) => p < usize::MAX,
            Edit::Insert(q) => q < usize::MAX,
        } by {
            assert(h.drop_last()[i] == h[i]);
        }
        lemma_spans(h.drop_last());
        assert(match h[h.len() - 1] {
            Edit::Equal(p, q) => p < usize::MAX && q < usize::MAX,
            Edit::Delete(p) => p < usize::MAX,
            Edit::Insert(q) => q < usize::MAX,
        });
    }
}

/// First line and line count, in each file, that a hunk covers.
pub fn hunk_range(hunk: &[Edit], _a_len: usize, _b_len: usize) -> (r: (usize, usize, usize, usize))
    requires
        indices_below_max(hunk@),
    ensures
        (r.0 as int, r.1 as int, r.2 as int, r.3 as int) == range_of(hunk@),
{
    let mut a_start: usize = usize::MAX;
    let mut a_end: usize = 0;
    let mut b_start: usize = usize::MAX;
    let mut b_end: usize = 0;
    let mut i: usize = 0;
    while i < hunk.len()
        invariant
            i <= hunk.len(),
            indices_below_max(hunk@),
            (a_start as int, a_end as int) == a_span(hunk@.take(i as int)),
            (b_start as int, b_end as int) == b_span(hunk@.take(i as int)),
        decreases hunk.len() - i,
    {
        assert(hunk@.take(i + 1).drop_last() =~= hunk@.take(i as int));
        assert(hunk@.take(i + 1).last() == hunk@[i as int]);
        match hunk[i] {
            Edit::Equal(ai, bi) => {
                if ai < a_start {
                    a_start = ai;
                }
                if a_end < ai + 1 {
                    a_end = ai + 1;
                }
                if bi < b_start {
                    b_start = bi;
                }
                if b_end < bi + 1 {
                    b_end = bi + 1;
                }
            },
            Edit::Delete(ai) => {
                if ai < a_start {
                    a_start = ai;
                }
                if a_end < ai + 1 {
                    a_end = ai + 1;
                }
            },
            Edit::Insert(bi) => {
                if bi < b_start {
                    b_start = bi;
                }
                if b_end < bi + 1 {
                    b_end = bi + 1;
                }
            },
        }
        i = i + 1;
    }
    assert(hunk@.take(i as int) =~= hunk@);
    proof {
        lemma_spans(hunk@);
    }
    if a_start == usize::MAX {
        a_start = 0;
    }
    if b_start == usize::MAX {
        b_start = 0;
    }
    (a_start, a_end - a_start, b_start, b_end - b_start)
}

/// Every step of every hunk is a step of the script.
pub open spec fn drawn_from(hs: Seq<Seq<Edit>>, es: Seq<Edit>) -> bool {
    forall|i: int, j: int|
        0 <= i < hs.len() && 0 <= j < hs[i].len() ==> es.contains(#[trigger] hs[i][j])
}

/// Every step of every hunk is a step of the script it was built from.
pub proof fn lemma_hunks_drawn_from(es: Seq<Edit>, ctx: int)
    requires
        ctx >= 0,
    ensures
        drawn_from(hunks_of(es, ctx), es),
{
    lemma_hunks_keep_changes(es, ctx);
    let hs = hunks_of(es, ctx);
    let sp = hunk_spans(es, ctx);
    assert forall|a: int, b: int| 0 <= a < hs.len() && 0 <= b < hs[a].len() implies es.contains(
        #[trigger] hs[a][b],
    ) by {
        assert(sp[a] == sp[a]);
        assert(hs[a][b] == es[sp[a].0 + b]);
    }
}

} // verus!

verus! {

/// The first lines a hunk reports are below `usize::MAX`.
pub proof fn lemma_range_bounds(h: Seq<Edit>)
    requires
        indices_below_max(h),
    ensures
        0 <= range_of(h).0 < usize::MAX,
        0 <= range_of(h).1 <= usize::MAX,
        0 <= range_of(h).2 < usize::MAX,
        0 <= range_of(h).3 <= usize::MAX,
        range_of(h).0 + range_of(h).1 <= usize::MAX,
        range_of(h).2 + range_of(h).3 <= usize::MAX,
{
    lemma_spans(h);
}

} // verus!
