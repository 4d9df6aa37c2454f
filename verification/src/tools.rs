//! The byte comparison of `cmp` and the command lines of `cmp`, `sdiff`
//! and `diff3`, and which tool a program name selects.
use vstd::prelude::*;
use crate::text::{lines_view, same_text, starts_with, push_str, push_decimal, decimal, has_prefix_spec};

verus! {

/// How two byte strings compare.
#[derive(Debug, Clone, Copy, PartialEq, Eq, Structural)]
pub enum ByteVerdict {
    /// Equal.
    Same,
    /// They first differ at byte `byte` (from 1), on line `line` (from 1) of the first.
    Differ { byte: usize, line: usize },
    /// One is a proper prefix of the other.
    Eof { first_is_shorter: bool },
}

/// The first position below both lengths where the two differ, searching from `i`.
pub open spec fn first_difference_from(d1: Seq<u8>, d2: Seq<u8>, i: int) -> Option<int>
    decreases d1.len() - i,
{
    if i < 0 || i >= d1.len() || i >= d2.len() {
        None
    } else if d1[i] != d2[i] {
        Some(i)
    } else {
        first_difference_from(d1, d2, i + 1)
    }
}

/// Number of newline bytes among the first `k` bytes of `d`.
pub open spec fn newlines_in(d: Seq<u8>, k: int) -> nat
    decreases k,
{
    if k <= 0 {
        0
    } else {
        newlines_in(d, k - 1) + if d[k - 1] == 10u8 { 1nat } else { 0nat }
    }
}

/// The comparison `cmp` reports: the first differing byte with its line
/// (a newline at that byte already counts), else which input ends first,
/// else equality.
pub open spec fn byte_verdict(d1: Seq<u8>, d2: Seq<u8>) -> ByteVerdict {
    match first_difference_from(d1, d2, 0) {
        Some(p) => ByteVerdict::Differ { byte: (p + 1) as usize, line: (1 + newlines_in(d1, p + 1)) as usize },
        None => if d1.len() != d2.len() {
            ByteVerdict::Eof { first_is_shorter: d1.len() < d2.len() }
        } else {
            ByteVerdict::Same
        },
    }
}

proof fn lemma_newlines_bound(d: Seq<u8>, k: int)
    requires
        0 <= k,
    ensures
        newlines_in(d, k) <= k,
    decreases k,
{
    if k > 0 {
        lemma_newlines_bound(d, k - 1);
    }
}

/// Compare two byte strings as `cmp` does.
pub fn compare_bytes(d1: &[u8], d2: &[u8]) -> (r: ByteVerdict)
    requires
        d1.len() < usize::MAX,
    ensures
        r == byte_verdict(d1@, d2@),
{
    let mut byte_pos: usize = 0;
    let mut line: usize = 1;
    let mut i: usize = 0;
    while i < d1.len() && i < d2.len()
        invariant
            i <= d1.len(),
            i <= d2.len(),
            d1.len() < usize::MAX,
            byte_pos == i,
            line == 1 + newlines_in(d1@, i as int),
            first_difference_from(d1@, d2@, 0) == first_difference_from(d1@, d2@, i as int),
        decreases d1.len() - i,
    {
        proof {
            lemma_newlines_bound(d1@, i + 1);
        }
        let b1 = d1[i];
        let b2 = d2[i];
        byte_pos = byte_pos + 1;
        if b1 == 10u8 {
            line = line + 1;
        }
        if b1 != b2 {
            return ByteVerdict::Differ { byte: byte_pos, line };
        }
        i = i + 1;
    }
    if d1.len() != d2.len() {
        ByteVerdict::Eof { first_is_shorter: d1.len() < d2.len() }
    } else {
        ByteVerdict::Same
    }
}

/// Two inputs compare `Same` exactly when they are equal.
pub proof fn lemma_same_iff_equal(d1: Seq<u8>, d2: Seq<u8>)
    ensures
        byte_verdict(d1, d2) == ByteVerdict::Same <==> d1 == d2,
{
    lemma_no_difference_from(d1, d2, 0);
    if byte_verdict(d1, d2) == ByteVerdict::Same {
        assert(d1 =~= d2);
    }
    if d1 == d2 {
        lemma_equal_no_difference(d1, 0);
    }
}

proof fn lemma_no_difference_from(d1: Seq<u8>, d2: Seq<u8>, i: int)
    requires
        0 <= i,
    ensures
        first_difference_from(d1, d2, i) is None ==> forall|j: int|
            i <= j < d1.len() && j < d2.len() ==> d1[j] == d2[j],
        first_difference_from(d1, d2, i) matches Some(p) ==> i <= p < d1.len() && p < d2.len()
            && d1[p] != d2[p],
    decreases d1.len() - i,
{
    if 0 <= i < d1.len() && i < d2.len() && d1[i] == d2[i] {
        lemma_no_difference_from(d1, d2, i + 1);
    }
}

proof fn lemma_equal_no_difference(d: Seq<u8>, i: int)
    requires
        0 <= i,
    ensures
        first_difference_from(d, d, i) is None,
    decreases d.len() - i,
{
    if i < d.len() {
        lemma_equal_no_difference(d, i + 1);
    }
}

/// What a `cmp` command line asks for.
pub enum BytesCommand {
    Version,
    Compare { silent: bool, files: Vec<String> },
    MissingOperand,
}

/// Read a `cmp` command line: `--version` stops; `-s`, `--silent`,
/// `--quiet` silence the report; every other argument starting with `-` is
/// ignored; the rest are file operands, of which two are needed.
pub fn parse_bytes_args(args: &[String]) -> (r: BytesCommand)
    ensures
        r is Version <==> exists|i: int| 0 <= i < args.len() && args@[i]@ == "--version"@,
        r matches BytesCommand::Compare { silent, files } ==> {
            &&& files.len() >= 2
            &&& silent == exists|i: int|
                0 <= i < args.len() && (args@[i]@ == "-s"@ || args@[i]@ == "--silent"@ || args@[i]@
                    == "--quiet"@)
            &&& lines_view(files@) == operands(lines_view(args@))
        },
        r is MissingOperand ==> operands(lines_view(args@)).len() < 2,
        !(r is Version) && operands(lines_view(args@)).len() >= 2 ==> r is Compare,
{
    let mut silent = false;
    let mut files: Vec<String> = Vec::new();
    let mut i: usize = 0;
    assert(lines_view(files@) =~= operands(lines_view(args@).take(0)));
    while i < args.len()
        invariant
            i <= args.len(),
            forall|j: int| 0 <= j < i ==> args@[j]@ != "--version"@,
            silent == exists|j: int|
                0 <= j < i && (args@[j]@ == "-s"@ || args@[j]@ == "--silent"@ || args@[j]@
                    == "--quiet"@),
            lines_view(files@) == operands(lines_view(args@).take(i as int)),
        decreases args.len() - i,
    {
        let arg = args[i].as_str();
        assert(lines_view(args@).take(i + 1).drop_last() =~= lines_view(args@).take(i as int));
        assert(lines_view(args@).take(i + 1).last() == arg@);
        proof {
            reveal_strlit("-");
            reveal_strlit("-s");
            reveal_strlit("--silent");
            reveal_strlit("--quiet");
            reveal_strlit("-l");
            reveal_strlit("--verbose");
            reveal_strlit("--version");
        }
        if same_text(arg, "--version") {
            return BytesCommand::Version;
        } else if same_text(arg, "-s") || same_text(arg, "--silent") || same_text(arg, "--quiet") {
            silent = true;
            assert(arg@.take(1) =~= "-"@);
        } else if same_text(arg, "-l") || same_text(arg, "--verbose") {
            assert(arg@.take(1) =~= "-"@);
        } else if starts_with(arg, "-") {
        } else {
            let f = args[i].clone();
            assert(lines_view(files@.push(f)) =~= lines_view(files@).push(f@));
            files.push(f);
        }
        i = i + 1;
    }
    assert(lines_view(args@).take(i as int) =~= lines_view(args@));
    if files.len() < 2 {
        BytesCommand::MissingOperand
    } else {
        BytesCommand::Compare { silent, files }
    }
}

/// The arguments of `cmp` that are not options (do not start with `-`).
pub open spec fn operands(args: Seq<Seq<char>>) -> Seq<Seq<char>>
    decreases args.len(),
{
    if args.len() == 0 {
        args
    } else if has_prefix_spec(args.last(), "-"@) {
        operands(args.drop_last())
    } else {
        operands(args.drop_last()).push(args.last())
    }
}

/// What `cmp` prints and its status.
pub struct BytesReport {
    pub stdout: Option<String>,
    pub stderr: Option<String>,
    pub status: i32,
}

/// `<f1> <f2> differ: byte <b>, line <l>`
pub open spec fn differ_line(f1: Seq<char>, f2: Seq<char>, byte: usize, line: usize) -> Seq<char> {
    f1 + " "@ + f2 + " differ: byte "@ + decimal(byte as nat) + ", line "@ + decimal(line as nat)
}

/// The report of `cmp` on the files `f1`, `f2` compared with outcome `o`:
/// a difference is told on standard output, an early end on standard error
/// (neither when silent); status 1 for either, 0 for equal files.
pub fn bytes_report(f1: &str, f2: &str, o: ByteVerdict, silent: bool) -> (r: BytesReport)
    ensures
        r.status == if o == ByteVerdict::Same { 0i32 } else { 1i32 },
        r.stdout matches Some(s) ==> (o matches ByteVerdict::Differ { byte, line } && s@ == differ_line(f1@, f2@, byte, line)),
        r.stdout is None <==> (silent || !(o is Differ)),
        r.stderr matches Some(s) ==> (o matches ByteVerdict::Eof { first_is_shorter } && s@ == "cmp: EOF on "@
            + if first_is_shorter { f1@ } else { f2@ }),
        r.stderr is None <==> (silent || !(o is Eof)),
        silent ==> r.stdout is None && r.stderr is None,
{
    match o {
        ByteVerdict::Same => BytesReport { stdout: None, stderr: None, status: 0 },
        ByteVerdict::Differ { byte, line } => {
            if silent {
                BytesReport { stdout: None, stderr: None, status: 1 }
            } else {
                let mut s = String::new();
                push_str(&mut s, f1);
                push_str(&mut s, " ");
                push_str(&mut s, f2);
                push_str(&mut s, " differ: byte ");
                push_decimal(&mut s, byte);
                push_str(&mut s, ", line ");
                push_decimal(&mut s, line);
                assert(s@ =~= differ_line(f1@, f2@, byte, line));
                BytesReport { stdout: Some(s), stderr: None, status: 1 }
            }
        },
        ByteVerdict::Eof { first_is_shorter } => {
            if silent {
                BytesReport { stdout: None, stderr: None, status: 1 }
            } else {
                let mut s = String::new();
                push_str(&mut s, "cmp: EOF on ");
                if first_is_shorter {
                    push_str(&mut s, f1);
                } else {
                    push_str(&mut s, f2);
                }
                BytesReport { stdout: None, stderr: Some(s), status: 1 }
            }
        },
    }
}

/// Which tool a program name runs.
#[derive(Debug, Clone, Copy, PartialEq, Eq, Structural)]
pub enum Tool {
    Diff,
    Bytes,
    Sdiff,
    Diff3,
}

/// `cmp`, `sdiff` and `diff3` run those tools; any other name runs `diff`.
pub fn tool_for(name: &str) -> (r: Tool)
    ensures
        r == if name@ == "cmp"@ {
            Tool::Bytes
        } else if name@ == "sdiff"@ {
            Tool::Sdiff
        } else if name@ == "diff3"@ {
            Tool::Diff3
        } else {
            Tool::Diff
        },
{
    if same_text(name, "cmp") {
        Tool::Bytes
    } else if same_text(name, "sdiff") {
        Tool::Sdiff
    } else if same_text(name, "diff3") {
        Tool::Diff3
    } else {
        Tool::Diff
    }
}

/// Is `--version` among the arguments?
pub fn asks_version(args: &[String]) -> (r: bool)
    ensures
        r == exists|i: int| 0 <= i < args.len() && args@[i]@ == "--version"@,
{
    let mut i: usize = 0;
    while i < args.len()
        invariant
            i <= args.len(),
            forall|j: int| 0 <= j < i ==> args@[j]@ != "--version"@,
        decreases args.len() - i,
    {
        if same_text(args[i].as_str(), "--version") {
            return true;
        }
        i = i + 1;
    }
    false
}

/// The `diff` arguments `sdiff` runs with: `-y` before its own; `None` when
/// it is asked for its version.
pub fn sdiff_args(args: &[String]) -> (r: Option<Vec<String>>)
    ensures
        r is None <==> exists|i: int| 0 <= i < args.len() && args@[i]@ == "--version"@,
        r matches Some(v) ==> lines_view(v@) == seq!["-y"@] + lines_view(args@),
{
    if asks_version(args) {
        return None;
    }
    let mut v: Vec<String> = Vec::new();
    v.push(String::from_str("-y"));
    let mut i: usize = 0;
    while i < args.len()
        invariant
            i <= args.len(),
            lines_view(v@) == seq!["-y"@] + lines_view(args@).take(i as int),
        decreases args.len() - i,
    {
        let s = args[i].clone();
        assert(lines_view(v@.push(s)) =~= lines_view(v@).push(s@));
        v.push(s);
        i = i + 1;
        assert(lines_view(v@) =~= seq!["-y"@] + lines_view(args@).take(i as int));
    }
    assert(lines_view(args@).take(i as int) =~= lines_view(args@));
    Some(v)
}

} // verus!

verus! {

proof fn lemma_first_difference_at(d1: Seq<u8>, d2: Seq<u8>, i: int, p: int)
    requires
        0 <= i <= p < d1.len(),
        p < d2.len(),
        d1[p] != d2[p],
        forall|q: int| 0 <= q < p ==> d1[q] == d2[q],
    ensures
        first_difference_from(d1, d2, i) == Some(p),
    decreases p - i,
{
    if i < p {
        lemma_first_difference_at(d1, d2, i + 1, p);
    }
}

/// Where the inputs differ at a position below both lengths, `cmp` reports
/// the first such position (byte `p + 1`), whatever the lengths.
pub proof fn lemma_first_difference_reported(d1: Seq<u8>, d2: Seq<u8>, p: int)
    requires
        0 <= p < d1.len(),
        p < d2.len(),
        d1[p] != d2[p],
        forall|q: int| 0 <= q < p ==> d1[q] == d2[q],
    ensures
        byte_verdict(d1, d2) == (ByteVerdict::Differ {
            byte: (p + 1) as usize,
            line: (1 + newlines_in(d1, p + 1)) as usize,
        }),
{
    lemma_first_difference_at(d1, d2, 0, p);
}

/// A reported difference is real and first; an early end is reported
/// only when one input is a proper prefix of the other.
pub proof fn lemma_verdict_meaning(d1: Seq<u8>, d2: Seq<u8>)
    requires
        d1.len() < usize::MAX,
    ensures
        byte_verdict(d1, d2) matches ByteVerdict::Differ { byte, line } ==> 1 <= byte <= d1.len() && byte
            <= d2.len() && d1[byte - 1] != d2[byte - 1] && forall|q: int|
            0 <= q < byte - 1 ==> d1[q] == d2[q],
        byte_verdict(d1, d2) matches ByteVerdict::Eof { first_is_shorter } ==> if first_is_shorter {
            d1.len() < d2.len() && d2.take(d1.len() as int) == d1
        } else {
            d2.len() < d1.len() && d1.take(d2.len() as int) == d2
        },
{
    lemma_no_difference_from(d1, d2, 0);
    match first_difference_from(d1, d2, 0) {
        Some(p) => {
            lemma_first_difference_first(d1, d2, 0);
        },
        None => {
            if d1.len() < d2.len() {
                assert(d2.take(d1.len() as int) =~= d1);
            } else if d2.len() < d1.len() {
                assert(d1.take(d2.len() as int) =~= d2);
            }
        },
    }
}

proof fn lemma_first_difference_first(d1: Seq<u8>, d2: Seq<u8>, i: int)
    requires
        0 <= i,
    ensures
        first_difference_from(d1, d2, i) matches Some(p) ==> forall|q: int|
            i <= q < p ==> d1[q] == d2[q],
    decreases d1.len() - i,
{
    if 0 <= i < d1.len() && i < d2.len() && d1[i] == d2[i] {
        lemma_first_difference_first(d1, d2, i + 1);
    }
}

} // verus!
