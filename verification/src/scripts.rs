//! What the ed and RCS forms mean: each output line group is read as a
//! command on the first file, and running the commands gives the second.
use vstd::prelude::*;
use crate::edit::{Edit, walks_from, is_edit_script};
use crate::render::{anchor, ed_step, ed_suffix, ed_lines, rcs_step, rcs_prefix};
use crate::text::decimal;

verus! {

/// An editing command, by its meaning on a list of lines.
/// `DeleteLine(n)`: remove line `n` (counted from 1);
/// `AppendAfter(n, t)`: put the line `t` after line `n` (0 for the top).
pub enum LineCommand {
    DeleteLine(int),
    AppendAfter(int, Seq<char>),
}

/// Carry out one command on `doc`.
pub open spec fn apply_command(doc: Seq<Seq<char>>, c: LineCommand) -> Seq<Seq<char>> {
    match c {
        LineCommand::DeleteLine(n) => doc.take(n - 1) + doc.skip(n),
        LineCommand::AppendAfter(n, t) => doc.take(n) + seq![t] + doc.skip(n),
    }
}

/// Carry out `cs` on `doc`, first command first.
pub open spec fn run_commands(doc: Seq<Seq<char>>, cs: Seq<LineCommand>) -> Seq<Seq<char>>
    decreases cs.len(),
{
    if cs.len() == 0 {
        doc
    } else {
        apply_command(run_commands(doc, cs.drop_last()), cs.last())
    }
}

// ---------------------------------------------------------------------------
// ed
// ---------------------------------------------------------------------------

/// The ed text of one command: `<n>d`, or `<n>a`, the line and `.`.
pub open spec fn ed_text(c: LineCommand) -> Seq<Seq<char>> {
    match c {
        LineCommand::DeleteLine(n) => seq![decimal(n as nat) + seq!['d']],
        LineCommand::AppendAfter(n, t) => seq![decimal(n as nat) + seq!['a'], t, seq!['.']],
    }
}

/// The ed text of a list of commands, first command first.
pub open spec fn ed_script_text(cs: Seq<LineCommand>) -> Seq<Seq<char>>
    decreases cs.len(),
{
    if cs.len() == 0 {
        Seq::empty()
    } else {
        ed_script_text(cs.drop_last()) + ed_text(cs.last())
    }
}

/// The command that step `i` of `es` stands for in the ed and RCS forms,
/// if any: a deletion deletes its line, an insertion appends its line after
/// the first-file line of the step's anchor.
pub open spec fn step_command(es: Seq<Edit>, i: int, b: Seq<Seq<char>>) -> Seq<LineCommand> {
    match es[i] {
        Edit::Equal(_, _) => Seq::empty(),
        Edit::Delete(ai) => seq![LineCommand::DeleteLine(ai + 1)],
        Edit::Insert(bi) => seq![LineCommand::AppendAfter(anchor(es, i), b[bi as int])],
    }
}

/// The commands of steps `i..` of `es`, last step first, as the ed form
/// writes them.
pub open spec fn ed_commands_from(es: Seq<Edit>, b: Seq<Seq<char>>, i: int) -> Seq<LineCommand>
    decreases es.len() - i,
{
    if i >= es.len() || i < 0 {
        Seq::empty()
    } else {
        ed_commands_from(es, b, i + 1) + step_command(es, i, b)
    }
}

/// The commands of the whole ed form of `es`.
pub open spec fn ed_commands(es: Seq<Edit>, b: Seq<Seq<char>>) -> Seq<LineCommand> {
    ed_commands_from(es, b, 0)
}

proof fn lemma_ed_text_push(cs: Seq<LineCommand>, c: Seq<LineCommand>)
    requires
        c.len() <= 1,
    ensures
        ed_script_text(cs + c) == ed_script_text(cs) + ed_script_text(c),
        c.len() == 1 ==> ed_script_text(c) == ed_text(c[0]),
{
    reveal_with_fuel(ed_script_text, 2);
    if c.len() == 0 {
        assert(cs + c =~= cs);
        assert(ed_script_text(cs) + ed_script_text(c) =~= ed_script_text(cs));
    } else {
        assert((cs + c).drop_last() =~= cs);
        assert(c.drop_last() =~= Seq::<LineCommand>::empty());
        assert(ed_script_text(c) =~= ed_text(c[0]));
    }
}

proof fn lemma_run_push(doc: Seq<Seq<char>>, cs: Seq<LineCommand>, c: Seq<LineCommand>)
    requires
        c.len() <= 1,
    ensures
        run_commands(doc, cs + c) == run_commands(run_commands(doc, cs), c),
        c.len() == 0 ==> run_commands(doc, cs + c) == run_commands(doc, cs),
        c.len() == 1 ==> run_commands(doc, cs + c) == apply_command(run_commands(doc, cs), c[0]),
{
    reveal_with_fuel(run_commands, 2);
    if c.len() == 0 {
        assert(cs + c =~= cs);
    } else {
        assert((cs + c).drop_last() =~= cs);
        assert(c.drop_last() =~= Seq::<LineCommand>::empty());
    }
}

proof fn lemma_ed_suffix_text(es: Seq<Edit>, b: Seq<Seq<char>>, i: int)
    requires
        0 <= i <= es.len(),
    ensures
        ed_suffix(es, b, i) == ed_script_text(ed_commands_from(es, b, i)),
    decreases es.len() - i,
{
    if i < es.len() {
        lemma_ed_suffix_text(es, b, i + 1);
        lemma_ed_text_push(ed_commands_from(es, b, i + 1), step_command(es, i, b));
        let c = step_command(es, i, b);
        match es[i] {
            Edit::Equal(_, _) => {
                assert(ed_script_text(c) =~= Seq::<Seq<char>>::empty());
            },
            _ => {
                assert(c.drop_last() =~= Seq::<LineCommand>::empty());
                assert(ed_script_text(c) =~= ed_step(es, i, b));
            },
        }
        assert(ed_suffix(es, b, i) =~= ed_suffix(es, b, i + 1) + ed_step(es, i, b));
    } else {
        assert(ed_suffix(es, b, i) =~= Seq::<Seq<char>>::empty());
    }
}

/// Running the commands of steps `i..` (last first) on `a` leaves the lines
/// of `a` before the walk's position untouched and turns the rest into the
/// rest of `b`.
proof fn lemma_ed_suffix_run(es: Seq<Edit>, a: Seq<Seq<char>>, b: Seq<Seq<char>>, i: int, x: int, y: int)
    requires
        0 <= i <= es.len(),
        walks_from(es.skip(i), a, b, x, y),
        anchor(es, i) == x,
        0 <= x <= a.len(),
        0 <= y <= b.len(),
    ensures
        run_commands(a, ed_commands_from(es, b, i)) == a.take(x) + b.skip(y),
    decreases es.len() - i,
{
    if i == es.len() {
        assert(es.skip(i).len() == 0);
        assert(a.take(x) + b.skip(y) =~= a);
    } else {
        let rest = es.skip(i);
        assert(rest[0] == es[i]);
        assert(rest.drop_first() =~= es.skip(i + 1));
        let c = step_command(es, i, b);
        lemma_run_push(a, ed_commands_from(es, b, i + 1), c);
        match es[i] {
            Edit::Equal(_, _) => {
                lemma_ed_suffix_run(es, a, b, i + 1, x + 1, y + 1);
                assert(a.take(x + 1) + b.skip(y + 1) =~= a.take(x) + b.skip(y));
                assert(run_commands(a.take(x) + b.skip(y), c) == a.take(x) + b.skip(y));
            },
            Edit::Delete(_) => {
                lemma_ed_suffix_run(es, a, b, i + 1, x + 1, y);
                let doc = a.take(x + 1) + b.skip(y);
                assert(c.drop_last() =~= Seq::<LineCommand>::empty());
                assert(doc.take(x) + doc.skip(x + 1) =~= a.take(x) + b.skip(y));
            },
            Edit::Insert(_) => {
                lemma_ed_suffix_run(es, a, b, i + 1, x, y + 1);
                let doc = a.take(x) + b.skip(y + 1);
                assert(c.drop_last() =~= Seq::<LineCommand>::empty());
                assert(doc.take(x) + seq![b[y]] + doc.skip(x) =~= a.take(x) + b.skip(y));
            },
        }
    }
}

/// The ed form of an edit script from `a` to `b` is the text of a list of
/// commands, and running those commands on `a`, in the order written,
/// gives `b`. (ed itself ends appended text at a line `.`, so it reads the
/// text back as these commands only where no inserted line is `.`.)
pub proof fn lemma_ed_script_rebuilds(es: Seq<Edit>, a: Seq<Seq<char>>, b: Seq<Seq<char>>)
    requires
        is_edit_script(es, a, b),
    ensures
        ed_lines(es, b) == ed_script_text(ed_commands(es, b)),
        run_commands(a, ed_commands(es, b)) == b,
{
    lemma_ed_suffix_text(es, b, 0);
    assert(es.skip(0) =~= es);
    lemma_ed_suffix_run(es, a, b, 0, 0, 0);
    assert(a.take(0) + b.skip(0) =~= b);
}

// ---------------------------------------------------------------------------
// RCS
// ---------------------------------------------------------------------------

/// The RCS text of one command: `d<n> 1`, or `a<n> 1` and the line.
pub open spec fn rcs_text(c: LineCommand) -> Seq<Seq<char>> {
    match c {
        LineCommand::DeleteLine(n) => seq![seq!['d'] + decimal(n as nat) + seq![' ', '1']],
        LineCommand::AppendAfter(n, t) => seq![seq!['a'] + decimal(n as nat) + seq![' ', '1'], t],
    }
}

/// The RCS text of a list of commands, first command first.
pub open spec fn rcs_script_text(cs: Seq<LineCommand>) -> Seq<Seq<char>>
    decreases cs.len(),
{
    if cs.len() == 0 {
        Seq::empty()
    } else {
        rcs_script_text(cs.drop_last()) + rcs_text(cs.last())
    }
}

/// The commands of the first `i` steps of `es`, in order, as the RCS form
/// writes them.
pub open spec fn rcs_commands_upto(es: Seq<Edit>, b: Seq<Seq<char>>, i: int) -> Seq<LineCommand>
    decreases i,
{
    if i <= 0 {
        Seq::empty()
    } else {
        rcs_commands_upto(es, b, i - 1) + step_command(es, i - 1, b)
    }
}

/// The commands of the whole RCS form of `es`.
pub open spec fn rcs_commands(es: Seq<Edit>, b: Seq<Seq<char>>) -> Seq<LineCommand> {
    rcs_commands_upto(es, b, es.len() as int)
}

/// RCS commands name lines of the original file and come in file order.
/// Reading them in turn builds the result from the front: `cur` lines of
/// the original have been dealt with and `out` has been written so far.
/// A deletion copies the original up to the line before it and skips that
/// line; an append copies the original up to its line and writes its text.
pub open spec fn rcs_state(a: Seq<Seq<char>>, cs: Seq<LineCommand>) -> (Seq<Seq<char>>, int)
    decreases cs.len(),
{
    if cs.len() == 0 {
        (Seq::empty(), 0)
    } else {
        let (out, cur) = rcs_state(a, cs.drop_last());
        match cs.last() {
            LineCommand::DeleteLine(n) => (out + a.subrange(cur, n - 1), n),
            LineCommand::AppendAfter(n, t) => (out + a.subrange(cur, n) + seq![t], n),
        }
    }
}

/// Carry out the RCS commands `cs` on the original `a`: what they build,
/// then the rest of the original.
pub open spec fn run_rcs(a: Seq<Seq<char>>, cs: Seq<LineCommand>) -> Seq<Seq<char>> {
    rcs_state(a, cs).0 + a.skip(rcs_state(a, cs).1)
}

proof fn lemma_rcs_push(a: Seq<Seq<char>>, cs: Seq<LineCommand>, c: Seq<LineCommand>)
    requires
        c.len() <= 1,
    ensures
        rcs_script_text(cs + c) == rcs_script_text(cs) + rcs_script_text(c),
        c.len() == 0 ==> rcs_state(a, cs + c) == rcs_state(a, cs),
        c.len() == 1 ==> rcs_script_text(c) == rcs_text(c[0]),
        c.len() == 1 ==> rcs_state(a, cs + c) == (match c[0] {
            LineCommand::DeleteLine(n) => (rcs_state(a, cs).0 + a.subrange(rcs_state(a, cs).1, n - 1), n),
            LineCommand::AppendAfter(n, t) => (rcs_state(a, cs).0 + a.subrange(rcs_state(a, cs).1, n)
                + seq![t], n),
        }),
{
    reveal_with_fuel(rcs_script_text, 2);
    if c.len() == 0 {
        assert(cs + c =~= cs);
        assert(rcs_script_text(cs) + rcs_script_text(c) =~= rcs_script_text(cs));
    } else {
        assert((cs + c).drop_last() =~= cs);
        assert(c.drop_last() =~= Seq::<LineCommand>::empty());
        assert(rcs_script_text(c) =~= rcs_text(c[0]));
    }
}

proof fn lemma_rcs_prefix_text(es: Seq<Edit>, b: Seq<Seq<char>>, i: int)
    requires
        0 <= i <= es.len(),
    ensures
        rcs_prefix(es, b, i) == rcs_script_text(rcs_commands_upto(es, b, i)),
    decreases i,
{
    if i > 0 {
        lemma_rcs_prefix_text(es, b, i - 1);
        let c = step_command(es, i - 1, b);
        lemma_rcs_push(Seq::empty(), rcs_commands_upto(es, b, i - 1), c);
        match es[i - 1] {
            Edit::Equal(_, _) => {
                assert(rcs_script_text(c) =~= Seq::<Seq<char>>::empty());
            },
            _ => {
                assert(rcs_script_text(c) =~= rcs_step(es, i - 1, b));
            },
        }
    } else {
        assert(rcs_prefix(es, b, i) =~= Seq::<Seq<char>>::empty());
    }
}

/// After the commands of the first `i` steps, whose walk stands at
/// `(x, y)`, what was written together with the original lines still to be
/// copied up to `x` is the first `y` lines of `b`; running the rest of the
/// commands then gives all of `b`.
proof fn lemma_rcs_prefix_run(es: Seq<Edit>, a: Seq<Seq<char>>, b: Seq<Seq<char>>, i: int, x: int, y: int)
    requires
        0 <= i <= es.len(),
        walks_from(es.skip(i), a, b, x, y),
        anchor(es, i) == x,
        0 <= x <= a.len(),
        0 <= y <= b.len(),
        0 <= rcs_state(a, rcs_commands_upto(es, b, i)).1 <= x,
        rcs_state(a, rcs_commands_upto(es, b, i)).0 + a.subrange(
            rcs_state(a, rcs_commands_upto(es, b, i)).1,
            x,
        ) == b.take(y),
    ensures
        run_rcs(a, rcs_commands(es, b)) == b,
    decreases es.len() - i,
{
    let (out, cur) = rcs_state(a, rcs_commands_upto(es, b, i));
    if i == es.len() {
        assert(es.skip(i).len() == 0);
        assert(a.skip(cur) =~= a.subrange(cur, x));
        assert(b.take(y) =~= b);
    } else {
        let rest = es.skip(i);
        assert(rest[0] == es[i]);
        assert(rest.drop_first() =~= es.skip(i + 1));
        let c = step_command(es, i, b);
        lemma_rcs_push(a, rcs_commands_upto(es, b, i), c);
        assert(rcs_commands_upto(es, b, i + 1) == rcs_commands_upto(es, b, i) + c);
        match es[i] {
            Edit::Equal(_, _) => {
                assert(out + a.subrange(cur, x + 1) =~= out + a.subrange(cur, x) + seq![a[x]]);
                assert(b.take(y + 1) =~= b.take(y) + seq![b[y]]);
                lemma_rcs_prefix_run(es, a, b, i + 1, x + 1, y + 1);
            },
            Edit::Delete(_) => {
                assert(out + a.subrange(cur, x) + a.subrange(x + 1, x + 1) =~= out + a.subrange(cur, x));
                lemma_rcs_prefix_run(es, a, b, i + 1, x + 1, y);
            },
            Edit::Insert(_) => {
                assert(b.take(y + 1) =~= b.take(y) + seq![b[y]]);
                assert(out + a.subrange(cur, x) + seq![b[y]] + a.subrange(x, x) =~= b.take(y + 1));
                lemma_rcs_prefix_run(es, a, b, i + 1, x, y + 1);
            },
        }
    }
}

/// The RCS form of an edit script from `a` to `b` is the text of a list of
/// commands on the lines of `a`, and running those commands on `a` gives
/// `b`.
pub proof fn lemma_rcs_script_rebuilds(es: Seq<Edit>, a: Seq<Seq<char>>, b: Seq<Seq<char>>)
    requires
        is_edit_script(es, a, b),
    ensures
        rcs_prefix(es, b, es.len() as int) == rcs_script_text(rcs_commands(es, b)),
        run_rcs(a, rcs_commands(es, b)) == b,
{
    lemma_rcs_prefix_text(es, b, es.len() as int);
    assert(es.skip(0) =~= es);
    assert(rcs_commands_upto(es, b, 0) =~= Seq::<LineCommand>::empty());
    assert(a.subrange(0, 0) =~= b.take(0));
    assert(Seq::<Seq<char>>::empty() + a.subrange(0, 0) =~= b.take(0));
    lemma_rcs_prefix_run(es, a, b, 0, 0, 0);
}

} // verus!
