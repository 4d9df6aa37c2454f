//! Command lines of the tools: what each argument asks for.
use vstd::prelude::*;
use crate::options::{DiffFormat, DiffOpts, OptsModel, plain_opts};
use crate::text::{lines_view, same_text, starts_with, text_after, parse_usize, usize_from_decimal, chars_of, digits_value};

verus! {

/// What a `diff` command line asks for.
pub enum DiffCommand {
    /// Print the version and stop.
    Version,
    /// Print the usage and stop.
    Help,
    /// Compare the two named files with these options.
    Compare(DiffOpts, Vec<String>),
    /// Not exactly two file operands.
    MissingOperand,
}

/// A `diff` command line's meaning as values.
pub enum DiffCommandModel {
    Version,
    Help,
    Compare(OptsModel, Seq<Seq<char>>),
    MissingOperand,
}

impl DiffCommand {
    pub open spec fn model(&self) -> DiffCommandModel {
        match self {
            DiffCommand::Version => DiffCommandModel::Version,
            DiffCommand::Help => DiffCommandModel::Help,
            DiffCommand::Compare(o, f) => DiffCommandModel::Compare(o@, lines_view(f@)),
            DiffCommand::MissingOperand => DiffCommandModel::MissingOperand,
        }
    }
}

pub open spec fn with_format(o: OptsModel, f: DiffFormat) -> OptsModel {
    OptsModel { format: f, ..o }
}

/// A context size given on the command line; 3 when it does not parse.
pub open spec fn count_or_default(s: Seq<char>) -> usize {
    match usize_from_decimal(s) {
        Some(n) => n,
        None => 3,
    }
}

/// The meaning of the arguments from `i` on, given the options `o` and the
/// file operands `files` gathered so far. Options are read left to right;
/// a later format replaces an earlier one; unknown options are ignored;
/// anything not starting with `-` (and `-` itself) is a file operand.
pub open spec fn diff_args_from(args: Seq<Seq<char>>, i: int, o: OptsModel, files: Seq<Seq<char>>) -> DiffCommandModel
    decreases args.len() + 1 - i,
{
    if i < 0 || i >= args.len() {
        if files.len() != 2 {
            DiffCommandModel::MissingOperand
        } else {
            DiffCommandModel::Compare(o, files)
        }
    } else {
        let a = args[i];
        if a == "--version"@ {
            DiffCommandModel::Version
        } else if a == "--help"@ {
            DiffCommandModel::Help
        } else if a == "-u"@ || a == "--unified"@ {
            diff_args_from(args, i + 1, with_format(o, DiffFormat::Unified(3)), files)
        } else if a == "-c"@ || a == "--context"@ {
            diff_args_from(args, i + 1, with_format(o, DiffFormat::Context(3)), files)
        } else if a == "-e"@ || a == "--ed"@ {
            diff_args_from(args, i + 1, with_format(o, DiffFormat::Ed), files)
        } else if a == "-n"@ || a == "--rcs"@ {
            diff_args_from(args, i + 1, with_format(o, DiffFormat::Rcs), files)
        } else if a == "-y"@ || a == "--side-by-side"@ {
            diff_args_from(args, i + 1, with_format(o, DiffFormat::SideBySide), files)
        } else if a == "-q"@ || a == "--brief"@ {
            diff_args_from(args, i + 1, OptsModel { brief: true, ..o }, files)
        } else if a == "-s"@ || a == "--report-identical-files"@ {
            diff_args_from(args, i + 1, OptsModel { report_identical: true, ..o }, files)
        } else if a == "-r"@ || a == "--recursive"@ {
            diff_args_from(args, i + 1, OptsModel { recursive: true, ..o }, files)
        } else if a == "-N"@ || a == "--new-file"@ {
            diff_args_from(args, i + 1, OptsModel { new_file: true, ..o }, files)
        } else if a == "-i"@ || a == "--ignore-case"@ {
            diff_args_from(args, i + 1, OptsModel { ignore_case: true, ..o }, files)
        } else if a == "-w"@ || a == "--ignore-all-space"@ {
            diff_args_from(args, i + 1, OptsModel { ignore_all_space: true, ..o }, files)
        } else if a == "-b"@ || a == "--ignore-space-change"@ {
            diff_args_from(args, i + 1, OptsModel { ignore_space_change: true, ..o }, files)
        } else if a == "-B"@ || a == "--ignore-blank-lines"@ {
            diff_args_from(args, i + 1, OptsModel { ignore_blank_lines: true, ..o }, files)
        } else if a == "-a"@ || a == "--text"@ {
            diff_args_from(args, i + 1, OptsModel { text: true, ..o }, files)
        } else if a == "--label"@ {
            if i + 1 < args.len() {
                diff_args_from(args, i + 2, OptsModel { labels: o.labels.push(args[i + 1]), ..o }, files)
            } else {
                diff_args_from(args, i + 2, o, files)
            }
        } else if a == "--normal"@ {
            diff_args_from(args, i + 1, with_format(o, DiffFormat::Normal), files)
        } else if a == "--color"@ || a == "--color=always"@ || a == "--color=auto"@ || a
            == "--color=never"@ || a == "--no-dereference"@ {
            diff_args_from(args, i + 1, o, files)
        } else if a == "-U"@ {
            if i + 1 < args.len() {
                diff_args_from(
                    args,
                    i + 2,
                    with_format(o, DiffFormat::Unified(count_or_default(args[i + 1]))),
                    files,
                )
            } else {
                diff_args_from(args, i + 2, o, files)
            }
        } else if a == "-C"@ {
            if i + 1 < args.len() {
                diff_args_from(
                    args,
                    i + 2,
                    with_format(o, DiffFormat::Context(count_or_default(args[i + 1]))),
                    files,
                )
            } else {
                diff_args_from(args, i + 2, o, files)
            }
        } else if crate::text::has_prefix_spec(a, "-U"@) {
            diff_args_from(
                args,
                i + 1,
                with_format(o, DiffFormat::Unified(count_or_default(a.skip("-U"@.len() as int)))),
                files,
            )
        } else if crate::text::has_prefix_spec(a, "-C"@) {
            diff_args_from(
                args,
                i + 1,
                with_format(o, DiffFormat::Context(count_or_default(a.skip("-C"@.len() as int)))),
                files,
            )
        } else if crate::text::has_prefix_spec(a, "--unified="@) {
            diff_args_from(
                args,
                i + 1,
                with_format(
                    o,
                    DiffFormat::Unified(count_or_default(a.skip("--unified="@.len() as int))),
                ),
                files,
            )
        } else if crate::text::has_prefix_spec(a, "--context="@) {
            diff_args_from(
                args,
                i + 1,
                with_format(
                    o,
                    DiffFormat::Context(count_or_default(a.skip("--context="@.len() as int))),
                ),
                files,
            )
        } else if crate::text::has_prefix_spec(a, "--label="@) {
            diff_args_from(
                args,
                i + 1,
                OptsModel { labels: o.labels.push(a.skip("--label="@.len() as int)), ..o },
                files,
            )
        } else if crate::text::has_prefix_spec(a, "-"@) && a.len() > 1 {
            diff_args_from(args, i + 1, o, files)
        } else {
            diff_args_from(args, i + 1, o, files.push(a))
        }
    }
}

/// The meaning of a `diff` command line (the arguments after the program name).
pub open spec fn diff_args(args: Seq<Seq<char>>) -> DiffCommandModel {
    diff_args_from(args, 0, plain_opts(), Seq::empty())
}

/// Either of two spellings.
fn is_one_of(arg: &str, short: &str, long: &str) -> (r: bool)
    ensures
        r == (arg@ == short@ || arg@ == long@),
{
    same_text(arg, short) || same_text(arg, long)
}

/// The context size in `s`, or 3.
fn count_in(s: &str) -> (r: usize)
    ensures
        r == count_or_default(s@),
{
    match parse_usize(s) {
        Some(n) => n,
        None => 3,
    }
}

/// The context size after a prefix of `arg`, or 3.
fn count_after(arg: &str, prefix: &str) -> (r: usize)
    requires
        crate::text::has_prefix_spec(arg@, prefix@),
    ensures
        r == count_or_default(arg@.skip(prefix@.len() as int)),
{
    let n = chars_of(prefix).len();
    let rest = text_after(arg, n);
    count_in(rest.as_str())
}

/// Read a `diff` command line.
#[verifier::spinoff_prover]
#[verifier::rlimit(100)]
pub fn parse_diff_args(args: &[String]) -> (r: DiffCommand)
    requires
        args.len() < usize::MAX,
    ensures
        r.model() == diff_args(lines_view(args@)),
{
    let ghost la = lines_view(args@);
    let mut opts = DiffOpts::default();
    let mut files: Vec<String> = Vec::new();
    let mut i: usize = 0;
    assert(lines_view(opts.labels@) =~= Seq::<Seq<char>>::empty());
    assert(opts@ =~= plain_opts());
    assert(lines_view(files@) =~= Seq::<Seq<char>>::empty());
    while i < args.len()
        invariant
            la == lines_view(args@),
            args.len() < usize::MAX,
            i <= args.len() + 1,
            diff_args_from(la, i as int, opts@, lines_view(files@)) == diff_args(la),
        decreases args.len() + 1 - i,
    {
        let arg = args[i].as_str();
        let ghost a = la[i as int];
        assert(arg@ == a);
        let ghost o = opts@;
        let ghost fs = lines_view(files@);
        if same_text(arg, "--version") {
            return DiffCommand::Version;
        } else if same_text(arg, "--help") {
            return DiffCommand::Help;
        } else if is_one_of(arg, "-u", "--unified") {
            opts.format = DiffFormat::Unified(3);
        } else if is_one_of(arg, "-c", "--context") {
            opts.format = DiffFormat::Context(3);
        } else if is_one_of(arg, "-e", "--ed") {
            opts.format = DiffFormat::Ed;
        } else if is_one_of(arg, "-n", "--rcs") {
            opts.format = DiffFormat::Rcs;
        } else if is_one_of(arg, "-y", "--side-by-side") {
            opts.format = DiffFormat::SideBySide;
        } else if is_one_of(arg, "-q", "--brief") {
            opts.brief = true;
        } else if is_one_of(arg, "-s", "--report-identical-files") {
            opts.report_identical = true;
        } else if is_one_of(arg, "-r", "--recursive") {
            opts.recursive = true;
        } else if is_one_of(arg, "-N", "--new-file") {
            opts.new_file = true;
        } else if is_one_of(arg, "-i", "--ignore-case") {
            opts.ignore_case = true;
        } else if is_one_of(arg, "-w", "--ignore-all-space") {
            opts.ignore_all_space = true;
        } else if is_one_of(arg, "-b", "--ignore-space-change") {
            opts.ignore_space_change = true;
        } else if is_one_of(arg, "-B", "--ignore-blank-lines") {
            opts.ignore_blank_lines = true;
        } else if is_one_of(arg, "-a", "--text") {
            opts.text = true;
        } else if same_text(arg, "--label") {
            i = i + 1;
            if i < args.len() {
                let l = args[i].clone();
                proof {
                    assert(lines_view(opts.labels@.push(l)) =~= lines_view(opts.labels@).push(l@));
                }
                opts.labels.push(l);
            }
        } else if same_text(arg, "--normal") {
            opts.format = DiffFormat::Normal;
        } else if is_one_of(arg, "--color", "--color=always") || is_one_of(
            arg,
            "--color=auto",
            "--color=never",
        ) || same_text(arg, "--no-dereference") {
        } else if same_text(arg, "-U") {
            i = i + 1;
            if i < args.len() {
                let n = count_in(args[i].as_str());
                opts.format = DiffFormat::Unified(n);
            }
        } else if same_text(arg, "-C") {
            i = i + 1;
            if i < args.len() {
                let n = count_in(args[i].as_str());
                opts.format = DiffFormat::Context(n);
            }
        } else if starts_with(arg, "-U") {
            opts.format = DiffFormat::Unified(count_after(arg, "-U"));
        } else if starts_with(arg, "-C") {
            opts.format = DiffFormat::Context(count_after(arg, "-C"));
        } else if starts_with(arg, "--unified=") {
            opts.format = DiffFormat::Unified(count_after(arg, "--unified="));
        } else if starts_with(arg, "--context=") {
            opts.format = DiffFormat::Context(count_after(arg, "--context="));
        } else if starts_with(arg, "--label=") {
            let n = chars_of("--label=").len();
            let l = text_after(arg, n);
            proof {
                assert(lines_view(opts.labels@.push(l)) =~= lines_view(opts.labels@).push(l@));
            }
            opts.labels.push(l);
        } else if starts_with(arg, "-") && chars_of(arg).len() > 1 {
        } else {
            let f = args[i].clone();
            proof {
                assert(lines_view(files@.push(f)) =~= lines_view(files@).push(f@));
            }
            files.push(f);
        }
        i = i + 1;
    }
    if files.len() != 2 {
        DiffCommand::MissingOperand
    } else {
        DiffCommand::Compare(opts, files)
    }
}

} // verus!

verus! {

/// `-u`, `--unified`, `-U 3` and `--unified=3` mean the same wherever they
/// stand, whatever was read before: unified output with 3 lines of context,
/// then the arguments after them.
pub proof fn lemma_unified_spellings(args: Seq<Seq<char>>, i: int, o: OptsModel, files: Seq<Seq<char>>)
    requires
        0 <= i < args.len(),
    ensures
        args[i] == "-u"@ || args[i] == "--unified"@ || args[i] == "--unified=3"@ ==> diff_args_from(args, i, o, files)
            == diff_args_from(args, i + 1, with_format(o, DiffFormat::Unified(3)), files),
        args[i] == "-U"@ && i + 1 < args.len() && args[i + 1] == "3"@ ==> diff_args_from(args, i, o, files)
            == diff_args_from(args, i + 2, with_format(o, DiffFormat::Unified(3)), files),
{
    reveal_strlit("--version");
    reveal_strlit("--help");
    reveal_strlit("-u");
    reveal_strlit("--unified");
    reveal_strlit("-c");
    reveal_strlit("--context");
    reveal_strlit("-e");
    reveal_strlit("--ed");
    reveal_strlit("-n");
    reveal_strlit("--rcs");
    reveal_strlit("-y");
    reveal_strlit("--side-by-side");
    reveal_strlit("-q");
    reveal_strlit("--brief");
    reveal_strlit("-s");
    reveal_strlit("--report-identical-files");
    reveal_strlit("-r");
    reveal_strlit("--recursive");
    reveal_strlit("-N");
    reveal_strlit("--new-file");
    reveal_strlit("-i");
    reveal_strlit("--ignore-case");
    reveal_strlit("-w");
    reveal_strlit("--ignore-all-space");
    reveal_strlit("-b");
    reveal_strlit("--ignore-space-change");
    reveal_strlit("-B");
    reveal_strlit("--ignore-blank-lines");
    reveal_strlit("-a");
    reveal_strlit("--text");
    reveal_strlit("--label");
    reveal_strlit("--normal");
    reveal_strlit("--color");
    reveal_strlit("--color=always");
    reveal_strlit("--color=auto");
    reveal_strlit("--color=never");
    reveal_strlit("--no-dereference");
    reveal_strlit("-U");
    reveal_strlit("-C");
    reveal_strlit("3");
    reveal_strlit("--unified=3");
    reveal_strlit("--unified=");
    assert("3"@.drop_last() =~= Seq::<char>::empty());
    assert(digits_value("3"@.drop_last()) == 0);
    assert(digits_value("3"@) == 3);
    assert(usize_from_decimal("3"@) == Some(3usize));
    assert(count_or_default("3"@) == 3);
    if args[i] == "-U"@ {
        let a = args[i];
        assert(a[1] == 'U');
        assert("-u"@[1] == 'u');
        assert("-c"@[1] == 'c');
        assert("-e"@[1] == 'e');
        assert("-n"@[1] == 'n');
        assert("-y"@[1] == 'y');
        assert("-q"@[1] == 'q');
        assert("-s"@[1] == 's');
        assert("-r"@[1] == 'r');
        assert("-N"@[1] == 'N');
        assert("-i"@[1] == 'i');
        assert("-w"@[1] == 'w');
        assert("-b"@[1] == 'b');
        assert("-B"@[1] == 'B');
        assert("-a"@[1] == 'a');
    }
    if args[i] == "--unified=3"@ {
        let a = args[i];
        assert(a.take(2) =~= seq!['-', '-']);
        assert(a.take(10) =~= "--unified="@);
        assert(a.skip(10) =~= "3"@);
    }
}

/// The colour and symlink options change nothing, wherever they stand.
pub proof fn lemma_ignored_options(args: Seq<Seq<char>>, i: int, o: OptsModel, files: Seq<Seq<char>>)
    requires
        0 <= i < args.len(),
        args[i] == "--color"@ || args[i] == "--color=always"@ || args[i] == "--color=auto"@ || args[i]
            == "--color=never"@ || args[i] == "--no-dereference"@,
    ensures
        diff_args_from(args, i, o, files) == diff_args_from(args, i + 1, o, files),
{
    reveal_strlit("--version");
    reveal_strlit("--help");
    reveal_strlit("-u");
    reveal_strlit("--unified");
    reveal_strlit("-c");
    reveal_strlit("--context");
    reveal_strlit("-e");
    reveal_strlit("--ed");
    reveal_strlit("-n");
    reveal_strlit("--rcs");
    reveal_strlit("-y");
    reveal_strlit("--side-by-side");
    reveal_strlit("-q");
    reveal_strlit("--brief");
    reveal_strlit("-s");
    reveal_strlit("--report-identical-files");
    reveal_strlit("-r");
    reveal_strlit("--recursive");
    reveal_strlit("-N");
    reveal_strlit("--new-file");
    reveal_strlit("-i");
    reveal_strlit("--ignore-case");
    reveal_strlit("-w");
    reveal_strlit("--ignore-all-space");
    reveal_strlit("-b");
    reveal_strlit("--ignore-space-change");
    reveal_strlit("-B");
    reveal_strlit("--ignore-blank-lines");
    reveal_strlit("-a");
    reveal_strlit("--text");
    reveal_strlit("--label");
    reveal_strlit("--normal");
    reveal_strlit("--color");
    reveal_strlit("--color=always");
    reveal_strlit("--color=auto");
    reveal_strlit("--color=never");
    reveal_strlit("--no-dereference");
    if args[i] == "--color"@ {
        let a = args[i];
        assert(a[2] == 'c');
        assert("--brief"@[2] == 'b');
        assert("--label"@[2] == 'l');
    }
    if args[i] == "--color=always"@ {
        let a = args[i];
        assert(a[2] == 'c');
        assert("--side-by-side"@[2] == 's');
    }
    if args[i] == "--color=never"@ {
        let a = args[i];
        assert(a[2] == 'c');
        assert("--ignore-case"@[2] == 'i');
    }
}

} // verus!
