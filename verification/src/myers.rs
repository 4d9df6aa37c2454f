//! Greedy shortest-edit-script search on the edit graph of two line
//! sequences: the furthest point each number of changes reaches on each
//! diagonal, and the facts about it that make the search exact.
use vstd::prelude::*;
use crate::text::lines_view;
use crate::edit::{Edit, walks_from, is_edit_script, change_count, delete_then_insert, lemma_delete_then_insert, is_shortest};

verus! {

/// Follow matching lines diagonally from `(x, y)` as far as they go; the
/// `x` where the run stops.
pub open spec fn snake(a: Seq<Seq<char>>, b: Seq<Seq<char>>, x: int, y: int) -> int
    decreases a.len() - x,
{
    if 0 <= x < a.len() && 0 <= y < b.len() && a[x] == b[y] {
        snake(a, b, x + 1, y + 1)
    } else {
        x
    }
}

/// Diagonal `k` (`x - y == k`) can be reached with exactly `d` changes.
pub open spec fn on_diag(d: int, k: int) -> bool {
    0 <= d && -d <= k <= d && (d - k) % 2 == 0
}

/// Furthest `x` reached on diagonal `k` with `d` changes, as computed by
/// the greedy search: take the better of the neighbouring diagonals of the
/// previous round, make one change, then slide along matching lines.
pub open spec fn furthest(a: Seq<Seq<char>>, b: Seq<Seq<char>>, d: nat, k: int) -> int
    decreases d,
{
    if d == 0 {
        snake(a, b, 0, 0)
    } else {
        let x0 = if k == -d || (k != d && furthest(a, b, (d - 1) as nat, k - 1) < furthest(
            a,
            b,
            (d - 1) as nat,
            k + 1,
        )) {
            furthest(a, b, (d - 1) as nat, k + 1)
        } else {
            furthest(a, b, (d - 1) as nat, k - 1) + 1
        };
        snake(a, b, x0, x0 - k)
    }
}

/// Where round `d` of the search starts on diagonal `k`, before sliding.
pub open spec fn start_x(a: Seq<Seq<char>>, b: Seq<Seq<char>>, d: nat, k: int) -> int {
    if d == 0 {
        0
    } else if k == -d || (k != d && furthest(a, b, (d - 1) as nat, k - 1) < furthest(
        a,
        b,
        (d - 1) as nat,
        k + 1,
    )) {
        furthest(a, b, (d - 1) as nat, k + 1)
    } else {
        furthest(a, b, (d - 1) as nat, k - 1) + 1
    }
}

/// Round `d` enters diagonal `k` by a step down (an insertion) from
/// diagonal `k + 1`, rather than by a step right (a deletion) from `k - 1`.
pub open spec fn enters_down(a: Seq<Seq<char>>, b: Seq<Seq<char>>, d: nat, k: int) -> bool {
    k == -d || (k != d && furthest(a, b, (d - 1) as nat, k - 1) < furthest(a, b, (d - 1) as nat, k + 1))
}

/// The matches on diagonal `k` from first-file line `x0` up to `x`.
pub open spec fn matches_run(x0: int, x: int, k: int) -> Seq<Edit> {
    Seq::new((x - x0) as nat, |i: int| Edit::Equal((x0 + i) as usize, (x0 + i - k) as usize))
}

/// The steps that lead, through the rounds of the search, to first-file
/// line `x` of diagonal `k` in round `d`: the path into the round's start
/// point on that diagonal, then its matches up to `x`.
pub open spec fn traced_upto(a: Seq<Seq<char>>, b: Seq<Seq<char>>, d: nat, k: int, x: int) -> Seq<Edit>
    decreases d,
{
    let x0 = start_x(a, b, d, k);
    let head = if d == 0 {
        Seq::empty()
    } else if enters_down(a, b, d, k) {
        traced_upto(a, b, (d - 1) as nat, k + 1, furthest(a, b, (d - 1) as nat, k + 1)).push(
            Edit::Insert((x0 - k - 1) as usize),
        )
    } else {
        traced_upto(a, b, (d - 1) as nat, k - 1, furthest(a, b, (d - 1) as nat, k - 1)).push(
            Edit::Delete((x0 - 1) as usize),
        )
    };
    head + matches_run(x0, x, k)
}

/// The path of the search to the furthest point of diagonal `k` in round `d`.
pub open spec fn traced(a: Seq<Seq<char>>, b: Seq<Seq<char>>, d: nat, k: int) -> Seq<Edit> {
    traced_upto(a, b, d, k, furthest(a, b, d, k))
}

/// Some shortest edit script from `a` to `b` makes `d` changes.
pub open spec fn shortest_makes(a: Seq<Seq<char>>, b: Seq<Seq<char>>, d: nat) -> bool {
    exists|s: Seq<Edit>| #[trigger] is_edit_script(s, a, b) && is_shortest(s, a, b) && change_count(s) == d
}

/// The fewest changes an edit script from `a` to `b` can make.
pub open spec fn edit_distance(a: Seq<Seq<char>>, b: Seq<Seq<char>>) -> nat {
    choose|d: nat| shortest_makes(a, b, d)
}

/// The script the greedy search settles on: its path to the end of both
/// inputs in the first round that gets there.
pub open spec fn myers_script(a: Seq<Seq<char>>, b: Seq<Seq<char>>) -> Seq<Edit> {
    traced(a, b, edit_distance(a, b), a.len() - b.len())
}

/// The point of diagonal `k` reached with `d` changes covers the end of both inputs.
pub open spec fn covers_end(a: Seq<Seq<char>>, b: Seq<Seq<char>>, d: nat, k: int) -> bool {
    furthest(a, b, d, k) >= a.len() && furthest(a, b, d, k) - k >= b.len()
}

pub proof fn lemma_snake(a: Seq<Seq<char>>, b: Seq<Seq<char>>, x: int, y: int)
    ensures
        snake(a, b, x, y) >= x,
        x <= a.len() ==> snake(a, b, x, y) <= a.len(),
        x >= a.len() ==> snake(a, b, x, y) == x,
        y <= b.len() ==> snake(a, b, x, y) - (x - y) <= b.len(),
        y >= b.len() ==> snake(a, b, x, y) == x,
        forall|i: int|
            x <= i < snake(a, b, x, y) ==> 0 <= i < a.len() && 0 <= i - (x - y) < b.len() && a[i]
                == b[i - (x - y)],
        !({
            let s = snake(a, b, x, y);
            0 <= s < a.len() && 0 <= s - (x - y) < b.len() && a[s] == b[s - (x - y)]
        }),
    decreases a.len() - x,
{
    if 0 <= x < a.len() && 0 <= y < b.len() && a[x] == b[y] {
        lemma_snake(a, b, x + 1, y + 1);
    }
}

/// Basic bounds: every point the search reaches lies in the quadrant of the
/// edit graph and overshoots the end of an input by at most one step per
/// change in that direction.
pub proof fn lemma_furthest_bounds(a: Seq<Seq<char>>, b: Seq<Seq<char>>, d: nat, k: int)
    requires
        on_diag(d as int, k),
    ensures
        furthest(a, b, d, k) >= 0,
        furthest(a, b, d, k) - k >= 0,
        2 * (furthest(a, b, d, k) - a.len()) <= d + k,
        2 * (furthest(a, b, d, k) - k - b.len()) <= d - k,
    decreases d,
{
    let x0 = start_x(a, b, d, k);
    lemma_snake(a, b, x0, x0 - k);
    if d > 0 {
        let dd = (d - 1) as nat;
        if k == -d || (k != d && furthest(a, b, dd, k - 1) < furthest(a, b, dd, k + 1)) {
            lemma_furthest_bounds(a, b, dd, k + 1);
        } else {
            lemma_furthest_bounds(a, b, dd, k - 1);
        }
    }
}

/// One more change spent as a deletion moves at least one step further right.
pub proof fn lemma_delete_step(a: Seq<Seq<char>>, b: Seq<Seq<char>>, d: nat, k: int)
    requires
        on_diag(d as int, k),
    ensures
        furthest(a, b, d + 1, k + 1) >= furthest(a, b, d, k) + 1,
{
    let x0 = start_x(a, b, d + 1, k + 1);
    lemma_snake(a, b, x0, x0 - (k + 1));
    assert(furthest(a, b, d + 1, k + 1) == snake(a, b, x0, x0 - (k + 1)));
}

/// One more change spent as an insertion keeps `x` at least where it was.
pub proof fn lemma_insert_step(a: Seq<Seq<char>>, b: Seq<Seq<char>>, d: nat, k: int)
    requires
        on_diag(d as int, k),
    ensures
        furthest(a, b, d + 1, k - 1) >= furthest(a, b, d, k),
{
    let x0 = start_x(a, b, d + 1, k - 1);
    lemma_snake(a, b, x0, x0 - (k - 1));
    assert(furthest(a, b, d + 1, k - 1) == snake(a, b, x0, x0 - (k - 1)));
}

/// A point right of the end of `a` was preceded, `j` changes earlier, by a
/// point on the last column at the same height.
pub proof fn lemma_right_overshoot(a: Seq<Seq<char>>, b: Seq<Seq<char>>, d: nat, k: int)
    requires
        on_diag(d as int, k),
        furthest(a, b, d, k) > a.len(),
    ensures
        ({
            let j = furthest(a, b, d, k) - a.len();
            &&& on_diag(d - j, k - j)
            &&& furthest(a, b, (d - j) as nat, k - j) >= a.len()
        }),
    decreases d,
{
    let f = furthest(a, b, d, k);
    let n = a.len() as int;
    let j = f - n;
    lemma_furthest_bounds(a, b, d, k);
    let x0 = start_x(a, b, d, k);
    lemma_snake(a, b, x0, x0 - k);
    if d == 0 {
        lemma_snake(a, b, 0, 0);
    } else {
        let dd = (d - 1) as nat;
        assert(x0 == f);
        if k == -d || (k != d && furthest(a, b, dd, k - 1) < furthest(a, b, dd, k + 1)) {
            // the last change was an insertion from diagonal k + 1
            assert(on_diag(dd as int, k + 1));
            lemma_right_overshoot(a, b, dd, k + 1);
            lemma_insert_step(a, b, (dd - j) as nat, k + 1 - j);
            assert((dd - j) as nat + 1 == (d - j) as nat);
        } else {
            assert(on_diag(dd as int, k - 1));
            if f - 1 > n {
                lemma_right_overshoot(a, b, dd, k - 1);
            }
        }
    }
}

/// A point below the end of `b` was preceded, `j` changes earlier, by a
/// point on the last row reaching at least as far right.
pub proof fn lemma_down_overshoot(a: Seq<Seq<char>>, b: Seq<Seq<char>>, d: nat, k: int)
    requires
        on_diag(d as int, k),
        furthest(a, b, d, k) - k > b.len(),
    ensures
        ({
            let j = furthest(a, b, d, k) - k - b.len();
            &&& on_diag(d - j, k + j)
            &&& furthest(a, b, (d - j) as nat, k + j) >= furthest(a, b, d, k)
        }),
    decreases d,
{
    let f = furthest(a, b, d, k);
    let m = b.len() as int;
    let j = f - k - m;
    lemma_furthest_bounds(a, b, d, k);
    let x0 = start_x(a, b, d, k);
    lemma_snake(a, b, x0, x0 - k);
    if d == 0 {
        lemma_snake(a, b, 0, 0);
    } else {
        let dd = (d - 1) as nat;
        assert(x0 == f);
        if k == -d || (k != d && furthest(a, b, dd, k - 1) < furthest(a, b, dd, k + 1)) {
            assert(on_diag(dd as int, k + 1));
            if f - (k + 1) > m {
                lemma_down_overshoot(a, b, dd, k + 1);
            }
        } else {
            assert(on_diag(dd as int, k - 1));
            lemma_down_overshoot(a, b, dd, k - 1);
            lemma_delete_step(a, b, (dd - j) as nat, k - 1 + j);
            assert((dd - j) as nat + 1 == (d - j) as nat);
        }
    }
}

/// If no earlier round covered the end of both inputs, a point of round `d`
/// that covers it is exactly the end.
pub proof fn lemma_first_cover_is_exact(a: Seq<Seq<char>>, b: Seq<Seq<char>>, d: nat, k: int)
    requires
        on_diag(d as int, k),
        covers_end(a, b, d, k),
        forall|e: nat, kk: int| e < d && on_diag(e as int, kk) ==> !covers_end(a, b, e, kk),
    ensures
        furthest(a, b, d, k) == a.len(),
        furthest(a, b, d, k) - k == b.len(),
{
    let f = furthest(a, b, d, k);
    if f > a.len() {
        lemma_right_overshoot(a, b, d, k);
        let j = f - a.len();
        assert(covers_end(a, b, (d - j) as nat, k - j));
    }
    if f - k > b.len() {
        lemma_down_overshoot(a, b, d, k);
        let j = f - k - b.len();
        assert(covers_end(a, b, (d - j) as nat, k + j));
    }
}

/// Whatever script finishes a walk from `(x, y)`, the search started from a
/// round that got at least as far as `x` on that diagonal covers the end
/// after spending as many more changes as the script does.
pub proof fn lemma_reach(
    a: Seq<Seq<char>>,
    b: Seq<Seq<char>>,
    es: Seq<Edit>,
    x: int,
    y: int,
    d: nat,
)
    requires
        walks_from(es, a, b, x, y),
        0 <= x,
        0 <= y,
        on_diag(d as int, x - y),
        x <= furthest(a, b, d, x - y),
    ensures
        on_diag((d + change_count(es)) as int, a.len() - b.len()),
        covers_end(a, b, d + change_count(es), a.len() - b.len()),
    decreases es.len(),
{
    let k = x - y;
    if es.len() > 0 {
        let rest = es.drop_first();
        match es[0] {
            Edit::Equal(_, _) => {
                let f = furthest(a, b, d, k);
                let x0 = start_x(a, b, d, k);
                lemma_snake(a, b, x0, x0 - k);
                assert(f == snake(a, b, x0, x0 - k));
                lemma_reach(a, b, rest, x + 1, y + 1, d);
            },
            Edit::Delete(_) => {
                lemma_delete_step(a, b, d, k);
                lemma_reach(a, b, rest, x + 1, y, d + 1);
                assert(d + 1 + change_count(rest) == d + change_count(es));
            },
            Edit::Insert(_) => {
                lemma_insert_step(a, b, d, k);
                lemma_reach(a, b, rest, x, y + 1, d + 1);
                assert(d + 1 + change_count(rest) == d + change_count(es));
            },
        }
    }
}

/// Any edit script with `c` changes makes round `c` cover the end.
pub proof fn lemma_script_covers(a: Seq<Seq<char>>, b: Seq<Seq<char>>, es: Seq<Edit>)
    requires
        is_edit_script(es, a, b),
    ensures
        on_diag(change_count(es) as int, a.len() - b.len()),
        covers_end(a, b, change_count(es), a.len() - b.len()),
{
    lemma_snake(a, b, 0, 0);
    lemma_reach(a, b, es, 0, 0, 0);
}

} // verus!

verus! {

/// Row `row` holds, on every diagonal reachable with `e - 1` changes, the
/// furthest point reached there (diagonal `k` at index `k + max`); before
/// the first round the row is zero where the first round reads it.
pub open spec fn round_row(a: Seq<Seq<char>>, b: Seq<Seq<char>>, row: Seq<usize>, e: nat, max: int) -> bool {
    &&& row.len() == 2 * max + 1
    &&& (e == 0 ==> row[max + 1] == 0)
    &&& (e > 0 ==> forall|k: int|
        #![trigger furthest(a, b, (e - 1) as nat, k)]
        on_diag(e - 1, k) ==> row[k + max] == furthest(a, b, (e - 1) as nat, k))
}

/// Slide from `(x, y)` along matching lines.
fn slide(na: &Vec<String>, nb: &Vec<String>, x: usize, y: usize) -> (r: usize)
    requires
        x + nb.len() <= usize::MAX,
        y + na.len() <= usize::MAX,
    ensures
        r == snake(lines_view(na@), lines_view(nb@), x as int, y as int),
{
    let ghost a = lines_view(na@);
    let ghost b = lines_view(nb@);
    let mut i = x;
    let mut j = y;
    while i < na.len() && j < nb.len() && na[i] == nb[j]
        invariant
            a == lines_view(na@),
            b == lines_view(nb@),
            x <= i,
            j - i == y - x,
            i <= x + nb.len() && j <= y + na.len(),
            x + nb.len() <= usize::MAX,
            y + na.len() <= usize::MAX,
            snake(a, b, i as int, j as int) == snake(a, b, x as int, y as int),
        decreases na.len() - i,
    {
        assert(a[i as int] == na@[i as int]@);
        assert(b[j as int] == nb@[j as int]@);
        i = i + 1;
        j = j + 1;
    }
    proof {
        if i < na.len() && j < nb.len() {
            assert(a[i as int] == na@[i as int]@);
            assert(b[j as int] == nb@[j as int]@);
        }
    }
    i
}

} // verus!

verus! {

/// Copy of a row.
fn copy_row(v: &Vec<usize>) -> (r: Vec<usize>)
    ensures
        r@ == v@,
{
    let mut r: Vec<usize> = Vec::new();
    let mut i: usize = 0;
    while i < v.len()
        invariant
            i <= v.len(),
            r@ == v@.take(i as int),
        decreases v.len() - i,
    {
        r.push(v[i]);
        i = i + 1;
        assert(r@ =~= v@.take(i as int));
    }
    assert(v@.take(i as int) =~= v@);
    r
}

/// Rounds of the greedy search, one per number of changes, until a round
/// reaches the end of both inputs. Returns the row of every round before
/// the last (indexed by round) and the number of the last round.
#[verifier::rlimit(40)]
fn search(na: &Vec<String>, nb: &Vec<String>) -> (res: (Vec<Vec<usize>>, usize))
    requires
        1 <= na.len() + nb.len() <= usize::MAX / 8,
    ensures
        ({
            let (trace, dend) = res;
            let a = lines_view(na@);
            let b = lines_view(nb@);
            let max = na.len() + nb.len();
            &&& trace.len() == dend + 1
            &&& dend <= max
            &&& forall|e: int|
                #![trigger trace@[e]]
                0 <= e <= dend ==> round_row(a, b, trace@[e]@, e as nat, max as int)
            &&& on_diag(dend as int, a.len() - b.len())
            &&& furthest(a, b, dend as nat, a.len() - b.len()) == a.len()
            &&& forall|e: nat, k: int|
                #![trigger covers_end(a, b, e, k)]
                e < dend && on_diag(e as int, k) ==> !covers_end(a, b, e, k)
        }),
{
    let ghost a = lines_view(na@);
    let ghost b = lines_view(nb@);
    let n = na.len();
    let m = nb.len();
    let max = n + m;
    let sz = 2 * max + 1;
    let mut v: Vec<usize> = Vec::new();
    let mut i: usize = 0;
    while i < sz
        invariant
            i <= sz,
            v.len() == i,
            forall|j: int| 0 <= j < i ==> v@[j] == 0,
        decreases sz - i,
    {
        v.push(0);
        i = i + 1;
    }
    proof {
        let es = delete_then_insert(a.len(), b.len(), 0, 0);
        lemma_delete_then_insert(a, b, 0, 0);
        lemma_script_covers(a, b, es);
    }
    let mut trace: Vec<Vec<usize>> = Vec::new();
    let mut d: usize = 0;
    loop
        invariant
            a == lines_view(na@),
            b == lines_view(nb@),
            n == na.len(),
            m == nb.len(),
            a.len() == n,
            b.len() == m,
            max == n + m,
            sz == 2 * max + 1,
            1 <= max <= usize::MAX / 8,
            d <= max,
            trace.len() == d,
            forall|e: int|
                #![trigger trace@[e]]
                0 <= e < d ==> round_row(a, b, trace@[e]@, e as nat, max as int),
            round_row(a, b, v@, d as nat, max as int),
            forall|e: nat, k: int|
                #![trigger covers_end(a, b, e, k)]
                e < d && on_diag(e as int, k) ==> !covers_end(a, b, e, k),
            on_diag(max as int, n - m),
            covers_end(a, b, max as nat, n - m),
        decreases max - d,
    {
        let row = copy_row(&v);
        trace.push(row);
        let mut kk: usize = max - d;
        while kk <= max + d
            invariant
                a == lines_view(na@),
                b == lines_view(nb@),
                n == na.len(),
                m == nb.len(),
                a.len() == n,
                b.len() == m,
                max == n + m,
                sz == 2 * max + 1,
                1 <= max <= usize::MAX / 8,
                d <= max,
                trace.len() == d + 1,
                forall|e: int|
                    #![trigger trace@[e]]
                    0 <= e <= d ==> round_row(a, b, trace@[e]@, e as nat, max as int),
                round_row(a, b, v@, d as nat, max as int),
                forall|e: nat, k: int|
                    #![trigger covers_end(a, b, e, k)]
                    e < d && on_diag(e as int, k) ==> !covers_end(a, b, e, k),
                on_diag(max as int, n - m),
                covers_end(a, b, max as nat, n - m),
                max - d <= kk <= max + d + 2,
                (kk - (max - d)) % 2 == 0,
                forall|k: int|
                    #![trigger furthest(a, b, d as nat, k)]
                    on_diag(d as int, k) && k + max < kk ==> v@[k + max] == furthest(
                        a,
                        b,
                        d as nat,
                        k,
                    ) && !covers_end(a, b, d as nat, k),
            decreases max + d + 2 - kk,
        {
            let ghost k: int = kk - max;
            proof {
                if d > 0 {
                    if k != -d {
                        assert(on_diag(d - 1, k - 1));
                        assert(v@[(k - 1) + max] == furthest(a, b, (d - 1) as nat, k - 1));
                        lemma_furthest_bounds(a, b, (d - 1) as nat, k - 1);
                    }
                    if k != d {
                        assert(on_diag(d - 1, k + 1));
                        assert(v@[(k + 1) + max] == furthest(a, b, (d - 1) as nat, k + 1));
                        lemma_furthest_bounds(a, b, (d - 1) as nat, k + 1);
                    }
                }
            }
            let x0 = if kk == max - d || (kk != max + d && v[kk - 1] < v[kk + 1]) {
                v[kk + 1]
            } else {
                v[kk - 1] + 1
            };
            assert(x0 == start_x(a, b, d as nat, k));
            let y0 = x0 + max - kk;
            let x = slide(na, nb, x0, y0);
            assert(x == furthest(a, b, d as nat, k));
            proof {
                lemma_furthest_bounds(a, b, d as nat, k);
            }
            v.set(kk, x);
            let y = x + max - kk;
            if x >= n && y >= m {
                proof {
                    assert(covers_end(a, b, d as nat, k));
                    lemma_first_cover_is_exact(a, b, d as nat, k);
                }
                return (trace, d);
            }
            kk = kk + 2;
        }
        proof {
            if d == max {
                assert(on_diag(d as int, n - m));
                assert((n - m) + max < kk);
                assert(v@[(n - m) + max] == furthest(a, b, d as nat, n - m));
            }
        }
        d = d + 1;
    }
}

} // verus!

verus! {

/// Stepping back over the last match of a round drops it from the path.
proof fn lemma_traced_step_back(a: Seq<Seq<char>>, b: Seq<Seq<char>>, d: nat, k: int, x: int)
    requires
        start_x(a, b, d, k) < x,
    ensures
        traced_upto(a, b, d, k, x) == traced_upto(a, b, d, k, x - 1) + seq![
            Edit::Equal((x - 1) as usize, (x - 1 - k) as usize),
        ],
{
    let x0 = start_x(a, b, d, k);
    assert(matches_run(x0, x, k) =~= matches_run(x0, x - 1, k) + seq![
        Edit::Equal((x - 1) as usize, (x - 1 - k) as usize),
    ]);
    let t1 = traced_upto(a, b, d, k, x);
    let t0 = traced_upto(a, b, d, k, x - 1);
    assert(t1 =~= t0 + seq![Edit::Equal((x - 1) as usize, (x - 1 - k) as usize)]);
}

proof fn lemma_prepend(e: Edit, s: Seq<Edit>)
    ensures
        s.push(e).reverse() == seq![e] + s.reverse(),
        (seq![e] + s.reverse()).drop_first() == s.reverse(),
        (seq![e] + s.reverse())[0] == e,
{
    assert(s.push(e).reverse() =~= seq![e] + s.reverse());
    assert((seq![e] + s.reverse()).drop_first() =~= s.reverse());
}

/// Follow the rounds back from the end: on each round, slide back along the
/// matches, then undo the change that led into the diagonal. Produces the
/// steps in reverse order.
#[verifier::rlimit(60)]
fn trace_back(na: &Vec<String>, nb: &Vec<String>, trace: &Vec<Vec<usize>>, dend: usize) -> (rev: Vec<Edit>)
    requires
        1 <= na.len() + nb.len() <= usize::MAX / 8,
        ({
            let a = lines_view(na@);
            let b = lines_view(nb@);
            let max = na.len() + nb.len();
            &&& trace.len() == dend + 1
            &&& dend <= max
            &&& forall|e: int|
                #![trigger trace@[e]]
                0 <= e <= dend ==> round_row(a, b, trace@[e]@, e as nat, max as int)
            &&& on_diag(dend as int, a.len() - b.len())
            &&& furthest(a, b, dend as nat, a.len() - b.len()) == a.len()
        }),
    ensures
        is_edit_script(rev@.reverse(), lines_view(na@), lines_view(nb@)),
        change_count(rev@.reverse()) == dend,
        rev@.reverse() == traced(lines_view(na@), lines_view(nb@), dend as nat, na.len() - nb.len()),
{
    let ghost a = lines_view(na@);
    let ghost b = lines_view(nb@);
    let n = na.len();
    let m = nb.len();
    let max = n + m;
    let mut rev: Vec<Edit> = Vec::new();
    let mut x = n;
    let mut y = m;
    let mut dd = dend + 1;
    while dd > 0
        invariant
            a == lines_view(na@),
            b == lines_view(nb@),
            n == na.len(),
            m == nb.len(),
            a.len() == n,
            b.len() == m,
            max == n + m,
            1 <= max <= usize::MAX / 8,
            trace.len() == dend + 1,
            dend <= max,
            forall|e: int|
                #![trigger trace@[e]]
                0 <= e <= dend ==> round_row(a, b, trace@[e]@, e as nat, max as int),
            dd <= dend + 1,
            x <= n,
            y <= m,
            dd >= 1 ==> on_diag(dd - 1, x - y) && x == furthest(a, b, (dd - 1) as nat, x - y),
            dd == 0 ==> x == 0 && y == 0,
            walks_from(rev@.reverse(), a, b, x as int, y as int),
            change_count(rev@.reverse()) == dend - (if dd >= 1 { dd - 1 } else { 0 }),
            dd >= 1 ==> traced(a, b, dend as nat, n - m) == traced_upto(a, b, (dd - 1) as nat, x - y, x as int)
                + rev@.reverse(),
            dd == 0 ==> traced(a, b, dend as nat, n - m) == rev@.reverse(),
        decreases dd,
    {
        let d = dd - 1;
        let ghost k: int = x - y;
        let ghost x_top: int = x as int;
        let tv = &trace[d];
        assert(round_row(a, b, trace@[d as int]@, d as nat, max as int));
        let kk = x + max - y;
        proof {
            lemma_furthest_bounds(a, b, d as nat, k);
            if d > 0 {
                if k != -d {
                    assert(on_diag(d - 1, k - 1));
                    assert(tv@[(k - 1) + max] == furthest(a, b, (d - 1) as nat, k - 1));
                    lemma_furthest_bounds(a, b, (d - 1) as nat, k - 1);
                }
                if k != d {
                    assert(on_diag(d - 1, k + 1));
                    assert(tv@[(k + 1) + max] == furthest(a, b, (d - 1) as nat, k + 1));
                    lemma_furthest_bounds(a, b, (d - 1) as nat, k + 1);
                }
            }
        }
        let prev_kk = if kk == max - d || (kk != max + d && tv[kk - 1] < tv[kk + 1]) {
            kk + 1
        } else {
            kk - 1
        };
        let prev_x = tv[prev_kk];
        let ghost x0 = start_x(a, b, d as nat, k);
        proof {
            lemma_snake(a, b, x0, x0 - k);
            assert(x == snake(a, b, x0, x0 - k));
            if d == 0 {
                assert(prev_x == 0);
            }
        }
        // slide back along the matches of this round
        while x > prev_x && y + prev_kk > prev_x + max
            invariant
                a == lines_view(na@),
                b == lines_view(nb@),
                a.len() == n,
                b.len() == m,
                max == n + m,
                1 <= max <= usize::MAX / 8,
                x0 <= x <= x_top,
                x - y == k,
                x_top <= n,
                y <= m,
                x_top == snake(a, b, x0, x0 - k),
                (d == 0 ==> x0 == 0 && prev_x == 0 && prev_kk == max + 1),
                (d > 0 && prev_kk == kk + 1) ==> x0 == prev_x,
                (d > 0 && prev_kk == kk - 1) ==> x0 == prev_x + 1,
                prev_kk == kk + 1 || prev_kk == kk - 1,
                kk == k + max,
                walks_from(rev@.reverse(), a, b, x as int, y as int),
                change_count(rev@.reverse()) == dend - d,
                traced(a, b, dend as nat, n - m) == traced_upto(a, b, d as nat, k, x as int) + rev@.reverse(),
                x0 == start_x(a, b, d as nat, k),
            decreases x,
        {
            x = x - 1;
            y = y - 1;
            let ghost old_rev = rev@;
            rev.push(Edit::Equal(x, y));
            proof {
                lemma_prepend(Edit::Equal(x, y), old_rev);
                lemma_snake(a, b, x0, x0 - k);
                assert(a[x as int] == b[x - k]);
                lemma_traced_step_back(a, b, d as nat, k, x as int + 1);
                assert(traced_upto(a, b, d as nat, k, x + 1) + old_rev.reverse() =~= traced_upto(
                    a,
                    b,
                    d as nat,
                    k,
                    x as int,
                ) + rev@.reverse());
            }
        }
        assert(x == x0);
        proof {
            assert(matches_run(x0, x0, k) =~= Seq::<Edit>::empty());
        }
        if d > 0 {
            let ghost old_rev = rev@;
            if x == prev_x {
                y = y - 1;
                rev.push(Edit::Insert(y));
                proof {
                    lemma_prepend(Edit::Insert(y), old_rev);
                    assert(enters_down(a, b, d as nat, k));
                    assert(traced_upto(a, b, d as nat, k, x0) + old_rev.reverse() =~= traced_upto(
                        a,
                        b,
                        (d - 1) as nat,
                        k + 1,
                        x as int,
                    ) + rev@.reverse());
                }
            } else {
                x = x - 1;
                rev.push(Edit::Delete(x));
                proof {
                    lemma_prepend(Edit::Delete(x), old_rev);
                    assert(!enters_down(a, b, d as nat, k));
                    assert(traced_upto(a, b, d as nat, k, x0) + old_rev.reverse() =~= traced_upto(
                        a,
                        b,
                        (d - 1) as nat,
                        k - 1,
                        x as int,
                    ) + rev@.reverse());
                }
            }
            proof {
                assert(on_diag(d - 1, x - y));
                assert(tv@[(x - y) + max] == furthest(a, b, (d - 1) as nat, x - y));
            }
        }
        dd = dd - 1;
    }
    rev
}

} // verus!

verus! {

/// A shortest edit script turning `na` into `nb` (lines compared exactly):
/// no edit script between them has fewer changes. Of the shortest scripts,
/// it is the one the greedy search finds.
pub fn shortest_edit_script(na: &Vec<String>, nb: &Vec<String>) -> (es: Vec<Edit>)
    requires
        1 <= na.len() + nb.len() <= usize::MAX / 8,
    ensures
        is_edit_script(es@, lines_view(na@), lines_view(nb@)),
        is_shortest(es@, lines_view(na@), lines_view(nb@)),
        es@ == myers_script(lines_view(na@), lines_view(nb@)),
{
    let ghost a = lines_view(na@);
    let ghost b = lines_view(nb@);
    let (trace, dend) = search(na, nb);
    let rev = trace_back(na, nb, &trace, dend);
    let mut es: Vec<Edit> = Vec::new();
    let mut i = rev.len();
    while i > 0
        invariant
            i <= rev.len(),
            es@ == rev@.reverse().take(rev.len() - i),
        decreases i,
    {
        i = i - 1;
        es.push(rev[i]);
        assert(es@ =~= rev@.reverse().take(rev.len() - i));
    }
    assert(es@ =~= rev@.reverse());
    proof {
        assert forall|s: Seq<Edit>| #[trigger] is_edit_script(s, a, b) implies change_count(es@)
            <= change_count(s) by {
            lemma_script_covers(a, b, s);
            if change_count(s) < dend {
                assert(covers_end(a, b, change_count(s), a.len() - b.len()));
            }
        }
        assert(is_edit_script(es@, a, b));
        assert(shortest_makes(a, b, dend as nat));
        let d2 = edit_distance(a, b);
        assert(shortest_makes(a, b, d2));
        let s2 = choose|s: Seq<Edit>| #[trigger] is_edit_script(s, a, b) && is_shortest(s, a, b) && change_count(s) == d2;
        assert(change_count(es@) <= change_count(s2));
        assert(change_count(s2) <= change_count(es@));
    }
    es
}

} // verus!
