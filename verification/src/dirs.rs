//! Comparing directories: which names to look at, in which order, and how
//! each one is treated.
use vstd::prelude::*;
use vstd::seq_lib::{to_multiset_build, to_multiset_insert, to_multiset_contains};
use crate::text::{lines_view, chars_of, push_str, push_char};

verus! {

/// Lexicographic order of names by character (Unicode scalar value), the
/// order of their UTF-8 bytes.
pub open spec fn name_le(s: Seq<char>, t: Seq<char>) -> bool
    decreases s.len(),
{
    if s.len() == 0 {
        true
    } else if t.len() == 0 {
        false
    } else if s[0] != t[0] {
        (s[0] as int) < (t[0] as int)
    } else {
        name_le(s.drop_first(), t.drop_first())
    }
}

pub proof fn lemma_name_le_total(s: Seq<char>, t: Seq<char>)
    ensures
        name_le(s, t) || name_le(t, s),
    decreases s.len(),
{
    if s.len() > 0 && t.len() > 0 && s[0] == t[0] {
        lemma_name_le_total(s.drop_first(), t.drop_first());
    }
}

pub proof fn lemma_name_le_antisymmetric(s: Seq<char>, t: Seq<char>)
    requires
        name_le(s, t),
        name_le(t, s),
    ensures
        s == t,
    decreases s.len(),
{
    if s.len() > 0 && t.len() > 0 {
        if s[0] == t[0] {
            lemma_name_le_antisymmetric(s.drop_first(), t.drop_first());
            assert(s =~= seq![s[0]] + s.drop_first());
            assert(t =~= seq![t[0]] + t.drop_first());
        } else {
        }
    } else {
        assert(s =~= t);
    }
}

pub proof fn lemma_name_le_transitive(s: Seq<char>, t: Seq<char>, u: Seq<char>)
    requires
        name_le(s, t),
        name_le(t, u),
    ensures
        name_le(s, u),
    decreases s.len(),
{
    if s.len() > 0 && t.len() > 0 && u.len() > 0 {
        if s[0] == t[0] && t[0] == u[0] {
            lemma_name_le_transitive(s.drop_first(), t.drop_first(), u.drop_first());
        } else {
        }
    }
}

/// Is `s` before or equal to `t` in name order?
pub fn name_before_or_equal(s: &str, t: &str) -> (r: bool)
    ensures
        r == name_le(s@, t@),
{
    let cs = chars_of(s);
    let ct = chars_of(t);
    let mut i: usize = 0;
    assert(s@.skip(0) =~= s@);
    assert(t@.skip(0) =~= t@);
    while i < cs.len() && i < ct.len() && cs[i] == ct[i]
        invariant
            cs@ == s@,
            ct@ == t@,
            i <= cs.len(),
            i <= ct.len(),
            name_le(s@, t@) == name_le(s@.skip(i as int), t@.skip(i as int)),
        decreases cs.len() - i,
    {
        assert(s@.skip(i as int).drop_first() =~= s@.skip(i + 1));
        assert(t@.skip(i as int).drop_first() =~= t@.skip(i + 1));
        i = i + 1;
    }
    if i == cs.len() {
        true
    } else if i == ct.len() {
        false
    } else {
        assert(s@.skip(i as int)[0] == cs@[i as int]);
        assert(t@.skip(i as int)[0] == ct@[i as int]);
        cs[i] < ct[i]
    }
}

/// In name order.
pub open spec fn names_sorted(v: Seq<Seq<char>>) -> bool {
    forall|i: int, j: int| 0 <= i < j < v.len() ==> name_le(#[trigger] v[i], #[trigger] v[j])
}

/// The names of `v` in name order.
pub fn sort_names(v: &[String]) -> (r: Vec<String>)
    ensures
        names_sorted(lines_view(r@)),
        lines_view(r@).to_multiset() == lines_view(v@).to_multiset(),
{
    let mut out: Vec<String> = Vec::new();
    let mut i: usize = 0;
    assert(lines_view(out@) =~= lines_view(v@).take(0));
    while i < v.len()
        invariant
            i <= v.len(),
            names_sorted(lines_view(out@)),
            lines_view(out@).to_multiset() == lines_view(v@).take(i as int).to_multiset(),
        decreases v.len() - i,
    {
        let x = v[i].clone();
        let mut pos: usize = 0;
        while pos < out.len() && name_before_or_equal(out[pos].as_str(), x.as_str())
            invariant
                pos <= out.len(),
                forall|k: int| 0 <= k < pos ==> name_le(#[trigger] out@[k]@, x@),
            decreases out.len() - pos,
        {
            pos = pos + 1;
        }
        let ghost before = lines_view(out@);
        proof {
            if pos < out.len() {
                lemma_name_le_total(out@[pos as int]@, x@);
            }
            assert forall|k: int| pos <= k < before.len() implies name_le(x@, #[trigger] before[k]) by {
                lemma_name_le_total(before[pos as int], x@);
                if k > pos {
                    lemma_name_le_transitive(x@, before[pos as int], before[k]);
                }
            }
        }
        out.insert(pos, x);
        assert(lines_view(out@) =~= before.insert(pos as int, x@));
        proof {
            before.insert_ensures(pos as int, x@);
            let after = lines_view(out@);
            assert forall|p: int, q: int| 0 <= p < q < after.len() implies name_le(#[trigger] after[p], #[trigger] after[q]) by {
                if q < pos {
                    assert(after[p] == before[p] && after[q] == before[q]);
                } else if q == pos {
                    assert(after[p] == before[p]);
                } else if p < pos {
                    assert(after[p] == before[p]);
                    assert(after[q] == before[q - 1]);
                    lemma_name_le_transitive(before[p], x@, before[q - 1]);
                } else if p == pos {
                    assert(after[q] == before[q - 1]);
                } else {
                    assert(after[p] == before[p - 1] && after[q] == before[q - 1]);
                }
            }
            to_multiset_insert(before, pos as int, x@);
            to_multiset_build(lines_view(v@).take(i as int), x@);
            assert(lines_view(v@).take(i + 1) =~= lines_view(v@).take(i as int).push(x@));
        }
        i = i + 1;
    }
    assert(lines_view(v@).take(i as int) =~= lines_view(v@));
    out
}

} // verus!

verus! {

/// The names of `e1`, then those of `e2` not met yet.
pub open spec fn merged_names(e1: Seq<Seq<char>>, e2: Seq<Seq<char>>) -> Seq<Seq<char>>
    decreases e2.len(),
{
    if e2.len() == 0 {
        e1
    } else {
        let m = merged_names(e1, e2.drop_last());
        if m.contains(e2.last()) {
            m
        } else {
            m.push(e2.last())
        }
    }
}

/// How often `x` is looked at when comparing directories listing `e1` and
/// `e2`: as often as the first lists it, or once if only the second does.
pub open spec fn name_count(e1: Seq<Seq<char>>, e2: Seq<Seq<char>>, x: Seq<char>) -> nat {
    e1.to_multiset().count(x) + if !e1.contains(x) && e2.contains(x) { 1nat } else { 0nat }
}

proof fn lemma_merged_count(e1: Seq<Seq<char>>, e2: Seq<Seq<char>>, x: Seq<char>)
    ensures
        merged_names(e1, e2).to_multiset().count(x) == name_count(e1, e2, x),
        merged_names(e1, e2).contains(x) <==> (e1.contains(x) || e2.contains(x)),
    decreases e2.len(),
{
    to_multiset_contains(e1, x);
    if e2.len() > 0 {
        let p = e2.drop_last();
        lemma_merged_count(e1, p, x);
        let m = merged_names(e1, p);
        assert(e2 =~= p.push(e2.last()));
        assert(e2.contains(x) <==> (p.contains(x) || e2.last() == x)) by {
            if e2.contains(x) {
                let k = choose|k: int| 0 <= k < e2.len() && e2[k] == x;
                if k < p.len() {
                    assert(p[k] == x);
                }
            }
            if p.contains(x) {
                let k = choose|k: int| 0 <= k < p.len() && p[k] == x;
                assert(e2[k] == x);
            }
            if e2.last() == x {
                assert(e2[e2.len() - 1] == x);
            }
        }
        if !m.contains(e2.last()) {
            to_multiset_build(m, e2.last());
            to_multiset_contains(m, x);
            assert(m.push(e2.last())[m.len() as int] == e2.last());
            if m.push(e2.last()).contains(x) {
                let k = choose|k: int| 0 <= k < m.len() + 1 && m.push(e2.last())[k] == x;
                if k < m.len() {
                    assert(m[k] == x);
                }
            }
            if m.contains(x) {
                let k = choose|k: int| 0 <= k < m.len() && m[k] == x;
                assert(m.push(e2.last())[k] == x);
            }
        }
    }
}

/// Does `v` list `x`?
pub fn contains_name(v: &[String], x: &str) -> (r: bool)
    ensures
        r == lines_view(v@).contains(x@),
{
    let mut i: usize = 0;
    while i < v.len()
        invariant
            i <= v.len(),
            forall|k: int| 0 <= k < i ==> v@[k]@ != x@,
        decreases v.len() - i,
    {
        if crate::text::same_text(v[i].as_str(), x) {
            assert(lines_view(v@)[i as int] == x@);
            return true;
        }
        i = i + 1;
    }
    assert forall|k: int| 0 <= k < lines_view(v@).len() implies lines_view(v@)[k] != x@ by {
        assert(lines_view(v@)[k] == v@[k]@);
    }
    false
}

/// One name to look at when comparing two directories.
pub struct DirEntryPlan {
    pub name: String,
    pub in_first: bool,
    pub in_second: bool,
}

/// The names of a plan, in order.
pub open spec fn plan_names(p: Seq<DirEntryPlan>) -> Seq<Seq<char>> {
    p.map_values(|e: DirEntryPlan| e.name@)
}

/// The names to look at when comparing directories listing `entries1` and
/// `entries2`, in name order, each with where it is listed.
pub fn dir_plan(entries1: &[String], entries2: &[String]) -> (r: Vec<DirEntryPlan>)
    ensures
        names_sorted(plan_names(r@)),
        forall|x: Seq<char>|
            #[trigger] plan_names(r@).to_multiset().count(x) == name_count(
                lines_view(entries1@),
                lines_view(entries2@),
                x,
            ),
        forall|i: int|
            0 <= i < r.len() ==> (#[trigger] r@[i]).in_first == lines_view(entries1@).contains(
                r@[i].name@,
            ) && r@[i].in_second == lines_view(entries2@).contains(r@[i].name@),
{
    let s1 = sort_names(entries1);
    let s2 = sort_names(entries2);
    let mut all: Vec<String> = Vec::new();
    let mut i: usize = 0;
    while i < s1.len()
        invariant
            i <= s1.len(),
            lines_view(all@) == lines_view(s1@).take(i as int),
        decreases s1.len() - i,
    {
        let x = s1[i].clone();
        assert(lines_view(all@.push(x)) =~= lines_view(all@).push(x@));
        all.push(x);
        i = i + 1;
        assert(lines_view(s1@).take(i as int) =~= lines_view(s1@).take(i - 1).push(x@));
    }
    assert(lines_view(s1@).take(i as int) =~= lines_view(s1@));
    let mut j: usize = 0;
    while j < s2.len()
        invariant
            j <= s2.len(),
            lines_view(all@) == merged_names(lines_view(s1@), lines_view(s2@).take(j as int)),
        decreases s2.len() - j,
    {
        let e = s2[j].clone();
        assert(lines_view(s2@).take(j + 1).drop_last() =~= lines_view(s2@).take(j as int));
        assert(lines_view(s2@).take(j + 1).last() == e@);
        if !contains_name(all.as_slice(), e.as_str()) {
            assert(lines_view(all@.push(e)) =~= lines_view(all@).push(e@));
            all.push(e);
        }
        j = j + 1;
    }
    assert(lines_view(s2@).take(j as int) =~= lines_view(s2@));
    let sorted = sort_names(all.as_slice());
    let mut plan: Vec<DirEntryPlan> = Vec::new();
    let mut k: usize = 0;
    while k < sorted.len()
        invariant
            k <= sorted.len(),
            plan.len() == k,
            plan_names(plan@) == lines_view(sorted@).take(k as int),
            forall|t: int|
                0 <= t < k ==> (#[trigger] plan@[t]).in_first == lines_view(entries1@).contains(
                    plan@[t].name@,
                ) && plan@[t].in_second == lines_view(entries2@).contains(plan@[t].name@),
        decreases sorted.len() - k,
    {
        let name = sorted[k].clone();
        let in_first = contains_name(entries1, name.as_str());
        let in_second = contains_name(entries2, name.as_str());
        let ghost old_plan = plan@;
        plan.push(DirEntryPlan { name, in_first, in_second });
        k = k + 1;
        assert(plan_names(plan@) =~= lines_view(sorted@).take(k as int));
        assert forall|t: int| 0 <= t < k implies (#[trigger] plan@[t]).in_first == lines_view(
            entries1@,
        ).contains(plan@[t].name@) && plan@[t].in_second == lines_view(entries2@).contains(
            plan@[t].name@,
        ) by {
            if t < k - 1 {
                assert(plan@[t] == old_plan[t]);
            }
        }
    }
    assert(lines_view(sorted@).take(k as int) =~= lines_view(sorted@));
    proof {
        let e1 = lines_view(entries1@);
        let e2 = lines_view(entries2@);
        let m = merged_names(lines_view(s1@), lines_view(s2@));
        assert forall|x: Seq<char>| #[trigger] plan_names(plan@).to_multiset().count(x)
            == name_count(e1, e2, x) by {
            lemma_merged_count(lines_view(s1@), lines_view(s2@), x);
            to_multiset_contains(lines_view(s1@), x);
            to_multiset_contains(e1, x);
            to_multiset_contains(lines_view(s2@), x);
            to_multiset_contains(e2, x);
        }
    }
    plan
}

/// How one name of a directory comparison is treated.
#[derive(Debug, Clone, Copy, PartialEq, Eq, Structural)]
pub enum DirAction {
    /// Compare the two files of that name.
    Compare,
    /// Report that only the first directory has it.
    OnlyInFirst,
    /// Report that only the second directory has it.
    OnlyInSecond,
}

/// A name in both directories is compared; a name in one only is reported,
/// or compared against an absent file when absent files count as empty.
pub fn dir_action(in_first: bool, in_second: bool, new_file: bool) -> (r: DirAction)
    ensures
        r == if in_first && in_second {
            DirAction::Compare
        } else if new_file {
            DirAction::Compare
        } else if in_first {
            DirAction::OnlyInFirst
        } else {
            DirAction::OnlyInSecond
        },
{
    if in_first && in_second {
        DirAction::Compare
    } else if in_first && !in_second {
        if new_file {
            DirAction::Compare
        } else {
            DirAction::OnlyInFirst
        }
    } else {
        if new_file {
            DirAction::Compare
        } else {
            DirAction::OnlyInSecond
        }
    }
}

/// The status of a directory comparison so far combined with that of one
/// more name: the worse (larger) of the two.
pub fn worse_status(so_far: i32, next: i32) -> (r: i32)
    ensures
        r == if next > so_far { next } else { so_far },
{
    if next > so_far {
        next
    } else {
        so_far
    }
}

/// `<dir>/<name>`
pub fn join_path(dir: &str, name: &str) -> (r: String)
    ensures
        r@ == dir@ + seq!['/'] + name@,
{
    let mut s = String::new();
    push_str(&mut s, dir);
    push_char(&mut s, '/');
    push_str(&mut s, name);
    assert(s@ =~= dir@ + seq!['/'] + name@);
    s
}

/// `Only in <dir>: <name>`
pub fn only_in_line(dir: &str, name: &str) -> (r: String)
    ensures
        r@ == "Only in "@ + dir@ + ": "@ + name@,
{
    let mut s = String::new();
    push_str(&mut s, "Only in ");
    push_str(&mut s, dir);
    push_str(&mut s, ": ");
    push_str(&mut s, name);
    assert(s@ =~= "Only in "@ + dir@ + ": "@ + name@);
    s
}

} // verus!
