//! Edit scripts: what they are and what it means for one to turn one
//! sequence of lines into another.
use vstd::prelude::*;

verus! {

/// One step of an edit script.
/// `Equal(i, j)`: line `i` of the first input matches line `j` of the second;
/// `Delete(i)`: line `i` of the first input is removed;
/// `Insert(j)`: line `j` of the second input is added.
#[derive(Debug, Clone, Copy, PartialEq, Eq, Structural)]
pub enum Edit {
    Equal(usize, usize),
    Delete(usize),
    Insert(usize),
}

impl Edit {
    /// A step that is not a match.
    pub open spec fn is_change(self) -> bool {
        !(self is Equal)
    }

    /// Is this step an `Equal`?
    pub fn is_equal(&self) -> (r: bool)
        ensures
            r == (*self is Equal),
    {
        match self {
            Edit::Equal(_, _) => true,
            _ => false,
        }
    }
}

/// Walking the steps `es` from position `(x, y)` (next line of `a`, next
/// line of `b`) consumes every remaining line of both inputs, in order, and
/// every `Equal` pairs two equal lines.
pub open spec fn walks_from<T>(es: Seq<Edit>, a: Seq<T>, b: Seq<T>, x: int, y: int) -> bool
    decreases es.len(),
{
    if es.len() == 0 {
        x == a.len() && y == b.len()
    } else {
        match es[0] {
            Edit::Equal(i, j) => {
                &&& i == x
                &&& j == y
                &&& 0 <= x < a.len()
                &&& 0 <= y < b.len()
                &&& a[x] == b[y]
                &&& walks_from(es.drop_first(), a, b, x + 1, y + 1)
            },
            Edit::Delete(i) => {
                &&& i == x
                &&& 0 <= x < a.len()
                &&& walks_from(es.drop_first(), a, b, x + 1, y)
            },
            Edit::Insert(j) => {
                &&& j == y
                &&& 0 <= y < b.len()
                &&& walks_from(es.drop_first(), a, b, x, y + 1)
            },
        }
    }
}

/// `es` is an edit script that turns `a` into `b`.
pub open spec fn is_edit_script<T>(es: Seq<Edit>, a: Seq<T>, b: Seq<T>) -> bool {
    walks_from(es, a, b, 0, 0)
}

/// Number of deletions and insertions in `es`.
pub open spec fn change_count(es: Seq<Edit>) -> nat
    decreases es.len(),
{
    if es.len() == 0 {
        0
    } else {
        (if es[0].is_change() { 1nat } else { 0nat }) + change_count(es.drop_first())
    }
}

/// Number of matches in `es`.
pub open spec fn equal_count(es: Seq<Edit>) -> nat
    decreases es.len(),
{
    if es.len() == 0 {
        0
    } else {
        (if es[0].is_change() { 0nat } else { 1nat }) + equal_count(es.drop_first())
    }
}

/// Every script from `(x, y)` accounts for all remaining lines: each match
/// consumes one line of each input, each change one line of one input.
pub proof fn lemma_walk_counts<T>(es: Seq<Edit>, a: Seq<T>, b: Seq<T>, x: int, y: int)
    requires
        walks_from(es, a, b, x, y),
    ensures
        change_count(es) + 2 * equal_count(es) == (a.len() - x) + (b.len() - y),
        equal_count(es) <= a.len() - x,
        equal_count(es) <= b.len() - y,
    decreases es.len(),
{
    if es.len() > 0 {
        match es[0] {
            Edit::Equal(_, _) => lemma_walk_counts(es.drop_first(), a, b, x + 1, y + 1),
            Edit::Delete(_) => lemma_walk_counts(es.drop_first(), a, b, x + 1, y),
            Edit::Insert(_) => lemma_walk_counts(es.drop_first(), a, b, x, y + 1),
        }
    }
}

/// A script with no changes exists exactly when the inputs are equal.
pub proof fn lemma_no_changes_iff_equal<T>(es: Seq<Edit>, a: Seq<T>, b: Seq<T>, x: int, y: int)
    requires
        walks_from(es, a, b, x, y),
        0 <= x <= a.len(),
        0 <= y <= b.len(),
        change_count(es) == 0,
    ensures
        a.len() - x == b.len() - y,
        a.subrange(x, a.len() as int) == b.subrange(y, b.len() as int),
    decreases es.len(),
{
    if es.len() > 0 {
        match es[0] {
            Edit::Equal(_, _) => {
                lemma_no_changes_iff_equal(es.drop_first(), a, b, x + 1, y + 1);
                assert(a.subrange(x, a.len() as int) =~= seq![a[x]] + a.subrange(x + 1, a.len() as int));
                assert(b.subrange(y, b.len() as int) =~= seq![b[y]] + b.subrange(y + 1, b.len() as int));
            },
            _ => {},
        }
    } else {
        assert(a.subrange(x, a.len() as int) =~= b.subrange(y, b.len() as int));
    }
}

/// The all-match script, starting at line `x` of both inputs.
pub open spec fn all_equal_from(n: nat, x: nat) -> Seq<Edit>
    decreases n - x,
{
    if x >= n || x >= usize::MAX {
        Seq::empty()
    } else {
        seq![Edit::Equal(x as usize, x as usize)] + all_equal_from(n, x + 1)
    }
}

/// Equal inputs are related by a script with no changes.
pub proof fn lemma_all_equal_script<T>(a: Seq<T>, b: Seq<T>, x: nat)
    requires
        a == b,
        x <= a.len(),
        a.len() <= usize::MAX,
    ensures
        walks_from(all_equal_from(a.len(), x), a, b, x as int, x as int),
        change_count(all_equal_from(a.len(), x)) == 0,
    decreases a.len() - x,
{
    if x < a.len() {
        lemma_all_equal_script(a, b, x + 1);
        let es = all_equal_from(a.len(), x);
        assert(es.drop_first() =~= all_equal_from(a.len(), x + 1));
    }
}

/// The script that deletes the lines `x..` of `a` and then inserts the
/// lines `y..` of `b`.
pub open spec fn delete_then_insert(n: nat, m: nat, x: nat, y: nat) -> Seq<Edit>
    decreases (if x < n { n - x } else { 0 }) + (if y < m { m - y } else { 0 }),
{
    if x < n && x < usize::MAX {
        seq![Edit::Delete(x as usize)] + delete_then_insert(n, m, x + 1, y)
    } else if y < m && y < usize::MAX {
        seq![Edit::Insert(y as usize)] + delete_then_insert(n, m, x, y + 1)
    } else {
        Seq::empty()
    }
}

pub proof fn lemma_delete_then_insert<T>(a: Seq<T>, b: Seq<T>, x: nat, y: nat)
    requires
        x <= a.len(),
        y <= b.len(),
        a.len() <= usize::MAX,
        b.len() <= usize::MAX,
        y > 0 ==> x == a.len(),
    ensures
        walks_from(delete_then_insert(a.len(), b.len(), x, y), a, b, x as int, y as int),
        change_count(delete_then_insert(a.len(), b.len(), x, y)) == (a.len() - x) + (b.len() - y),
    decreases a.len() + b.len() - x - y,
{
    let es = delete_then_insert(a.len(), b.len(), x, y);
    if x < a.len() {
        lemma_delete_then_insert(a, b, x + 1, y);
        assert(es.drop_first() =~= delete_then_insert(a.len(), b.len(), x + 1, y));
    } else if y < b.len() {
        lemma_delete_then_insert(a, b, x, y + 1);
        assert(es.drop_first() =~= delete_then_insert(a.len(), b.len(), x, y + 1));
    }
}

} // verus!

verus! {

pub proof fn lemma_change_count_push(s: Seq<Edit>, e: Edit)
    ensures
        change_count(s.push(e)) == change_count(s) + if e.is_change() { 1nat } else { 0nat },
    decreases s.len(),
{
    if s.len() > 0 {
        lemma_change_count_push(s.drop_first(), e);
        assert(s.push(e).drop_first() =~= s.drop_first().push(e));
    } else {
        assert(s.push(e).drop_first() =~= s);
    }
}

} // verus!

verus! {

/// No edit script between `a` and `b` has fewer changes than `es`.
pub open spec fn is_shortest<T>(es: Seq<Edit>, a: Seq<T>, b: Seq<T>) -> bool {
    forall|s: Seq<Edit>| #[trigger] is_edit_script(s, a, b) ==> change_count(es) <= change_count(s)
}

pub proof fn lemma_delete_then_insert_shape(n: nat, m: nat, x: nat, y: nat)
    requires
        x <= n <= usize::MAX,
        y <= m <= usize::MAX,
        y > 0 ==> x == n,
    ensures
        delete_then_insert(n, m, x, y).len() == (n - x) + (m - y),
        forall|i: int|
            0 <= i < n - x ==> #[trigger] delete_then_insert(n, m, x, y)[i] == Edit::Delete(
                (x + i) as usize,
            ),
        forall|i: int|
            n - x <= i < (n - x) + (m - y) ==> #[trigger] delete_then_insert(n, m, x, y)[i]
                == Edit::Insert((y + i - (n - x)) as usize),
    decreases (n - x) + (m - y),
{
    let es = delete_then_insert(n, m, x, y);
    if x < n {
        lemma_delete_then_insert_shape(n, m, x + 1, y);
        let r = delete_then_insert(n, m, x + 1, y);
        assert forall|i: int| 0 < i < es.len() implies es[i] == r[i - 1] by {}
    } else if y < m {
        lemma_delete_then_insert_shape(n, m, x, y + 1);
        let r = delete_then_insert(n, m, x, y + 1);
        assert forall|i: int| 0 < i < es.len() implies es[i] == r[i - 1] by {}
    }
}

/// A shortest script has no change exactly when the inputs are equal.
pub proof fn lemma_shortest_without_change<T>(es: Seq<Edit>, a: Seq<T>, b: Seq<T>)
    requires
        is_edit_script(es, a, b),
        is_shortest(es, a, b),
        a.len() <= usize::MAX,
    ensures
        change_count(es) == 0 <==> a == b,
{
    if change_count(es) == 0 {
        lemma_no_changes_iff_equal(es, a, b, 0, 0);
        assert(a =~= a.subrange(0, a.len() as int));
        assert(b =~= b.subrange(0, b.len() as int));
    }
    if a == b {
        lemma_all_equal_script(a, b, 0);
        assert(is_edit_script(all_equal_from(a.len(), 0), a, b));
    }
}

} // verus!
