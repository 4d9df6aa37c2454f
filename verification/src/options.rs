//! Comparison options and the per-line normalisation they ask for.
use vstd::prelude::*;
use crate::text::{char_is_whitespace, lowercase, is_whitespace, to_lowercase, push_char, chars_of};

verus! {

/// How differences are rendered.
#[derive(Debug, Clone, Copy, PartialEq, Eq, Structural)]
pub enum DiffFormat {
    Normal,
    Unified(usize),
    Context(usize),
    Ed,
    Rcs,
    SideBySide,
}

impl Default for DiffFormat {
    fn default() -> (r: Self)
        ensures
            r == DiffFormat::Normal,
    {
        DiffFormat::Normal
    }
}

/// Options of one comparison.
#[derive(Debug)]
pub struct DiffOpts {
    pub format: DiffFormat,
    pub brief: bool,
    pub report_identical: bool,
    pub recursive: bool,
    pub new_file: bool,
    pub ignore_case: bool,
    pub ignore_all_space: bool,
    pub ignore_space_change: bool,
    pub ignore_blank_lines: bool,
    pub text: bool,
    pub labels: Vec<String>,
}

impl DiffOpts {
    /// No option set: normal format, nothing ignored, no labels.
    pub open spec fn is_plain(self) -> bool {
        &&& self.format == DiffFormat::Normal
        &&& !self.brief
        &&& !self.report_identical
        &&& !self.recursive
        &&& !self.new_file
        &&& !self.ignore_case
        &&& !self.ignore_all_space
        &&& !self.ignore_space_change
        &&& !self.ignore_blank_lines
        &&& !self.text
        &&& self.labels@.len() == 0
    }
}

impl Default for DiffOpts {
    fn default() -> (r: Self)
        ensures
            r.is_plain(),
    {
        DiffOpts {
            format: DiffFormat::Normal,
            brief: false,
            report_identical: false,
            recursive: false,
            new_file: false,
            ignore_case: false,
            ignore_all_space: false,
            ignore_space_change: false,
            ignore_blank_lines: false,
            text: false,
            labels: Vec::new(),
        }
    }
}

/// `s` with every whitespace character removed.
pub open spec fn without_whitespace(s: Seq<char>) -> Seq<char>
    decreases s.len(),
{
    if s.len() == 0 {
        s
    } else if char_is_whitespace(s.last()) {
        without_whitespace(s.drop_last())
    } else {
        without_whitespace(s.drop_last()).push(s.last())
    }
}

/// `s` with every run of whitespace characters replaced by one space.
pub open spec fn squeeze_whitespace(s: Seq<char>) -> Seq<char>
    decreases s.len(),
{
    if s.len() == 0 {
        s
    } else if char_is_whitespace(s.last()) {
        if s.len() > 1 && char_is_whitespace(s[s.len() - 2]) {
            squeeze_whitespace(s.drop_last())
        } else {
            squeeze_whitespace(s.drop_last()).push(' ')
        }
    } else {
        squeeze_whitespace(s.drop_last()).push(s.last())
    }
}

/// The form of a line that comparison under `opts` looks at: lowercased if
/// case is ignored, then stripped of all whitespace, or with whitespace runs
/// squeezed to one space.
pub open spec fn normalized(line: Seq<char>, opts: DiffOpts) -> Seq<char> {
    let s = if opts.ignore_case { lowercase(line) } else { line };
    if opts.ignore_all_space {
        without_whitespace(s)
    } else if opts.ignore_space_change {
        squeeze_whitespace(s)
    } else {
        s
    }
}

/// Normalise one line for comparison under `opts`.
pub fn normalize_line(line: &str, opts: &DiffOpts) -> (r: String)
    ensures
        r@ == normalized(line@, *opts),
{
    let s: String = if opts.ignore_case {
        to_lowercase(line)
    } else {
        line.to_owned()
    };
    let ghost sv = s@;
    if opts.ignore_all_space {
        let cs = chars_of(s.as_str());
        let mut result = String::new();
        let mut i: usize = 0;
        while i < cs.len()
            invariant
                i <= cs.len(),
                cs@ == sv,
                result@ == without_whitespace(sv.take(i as int)),
            decreases cs.len() - i,
        {
            let c = cs[i];
            assert(sv.take(i + 1).drop_last() =~= sv.take(i as int));
            if !is_whitespace(c) {
                push_char(&mut result, c);
            }
            i = i + 1;
        }
        assert(sv.take(i as int) =~= sv);
        result
    } else if opts.ignore_space_change {
        let cs = chars_of(s.as_str());
        let mut result = String::new();
        let mut in_space = false;
        let mut i: usize = 0;
        while i < cs.len()
            invariant
                i <= cs.len(),
                cs@ == sv,
                result@ == squeeze_whitespace(sv.take(i as int)),
                in_space == (i > 0 && char_is_whitespace(sv[i - 1])),
            decreases cs.len() - i,
        {
            let c = cs[i];
            assert(sv.take(i + 1).drop_last() =~= sv.take(i as int));
            if is_whitespace(c) {
                if !in_space {
                    push_char(&mut result, ' ');
                    in_space = true;
                }
            } else {
                push_char(&mut result, c);
                in_space = false;
            }
            i = i + 1;
        }
        assert(sv.take(i as int) =~= sv);
        result
    } else {
        s
    }
}

/// Nothing that ignoring all whitespace keeps is whitespace.
pub proof fn lemma_without_whitespace_has_none(s: Seq<char>)
    ensures
        forall|i: int|
            0 <= i < without_whitespace(s).len() ==> !char_is_whitespace(
                #[trigger] without_whitespace(s)[i],
            ),
    decreases s.len(),
{
    if s.len() > 0 {
        lemma_without_whitespace_has_none(s.drop_last());
        let p = without_whitespace(s.drop_last());
        assert forall|i: int| 0 <= i < without_whitespace(s).len() implies !char_is_whitespace(
            #[trigger] without_whitespace(s)[i],
        ) by {
            if i < p.len() {
                assert(without_whitespace(s)[i] == p[i]);
            }
        }
    }
}

} // verus!

verus! {

/// The options of a comparison as values.
pub struct OptsModel {
    pub format: DiffFormat,
    pub brief: bool,
    pub report_identical: bool,
    pub recursive: bool,
    pub new_file: bool,
    pub ignore_case: bool,
    pub ignore_all_space: bool,
    pub ignore_space_change: bool,
    pub ignore_blank_lines: bool,
    pub text: bool,
    pub labels: Seq<Seq<char>>,
}

impl View for DiffOpts {
    type V = OptsModel;

    open spec fn view(&self) -> OptsModel {
        OptsModel {
            format: self.format,
            brief: self.brief,
            report_identical: self.report_identical,
            recursive: self.recursive,
            new_file: self.new_file,
            ignore_case: self.ignore_case,
            ignore_all_space: self.ignore_all_space,
            ignore_space_change: self.ignore_space_change,
            ignore_blank_lines: self.ignore_blank_lines,
            text: self.text,
            labels: crate::text::lines_view(self.labels@),
        }
    }
}

/// The options when none is given.
pub open spec fn plain_opts() -> OptsModel {
    OptsModel {
        format: DiffFormat::Normal,
        brief: false,
        report_identical: false,
        recursive: false,
        new_file: false,
        ignore_case: false,
        ignore_all_space: false,
        ignore_space_change: false,
        ignore_blank_lines: false,
        text: false,
        labels: Seq::empty(),
    }
}

} // verus!

verus! {

proof fn lemma_without_whitespace_keeps_clean(s: Seq<char>)
    requires
        forall|i: int| 0 <= i < s.len() ==> !char_is_whitespace(#[trigger] s[i]),
    ensures
        without_whitespace(s) == s,
    decreases s.len(),
{
    if s.len() > 0 {
        assert(s.last() == s[s.len() - 1]);
        lemma_without_whitespace_keeps_clean(s.drop_last());
        assert(s.drop_last().push(s.last()) =~= s);
    }
}

proof fn lemma_squeeze_last(s: Seq<char>)
    requires
        char_is_whitespace(' '),
    ensures
        s.len() > 0 ==> squeeze_whitespace(s).len() > 0 && (char_is_whitespace(squeeze_whitespace(s).last())
            <==> char_is_whitespace(s.last())),
        s.len() == 0 ==> squeeze_whitespace(s).len() == 0,
    decreases s.len(),
{
    if s.len() > 0 {
        lemma_squeeze_last(s.drop_last());
        if s.len() > 1 {
            assert(s.drop_last().last() == s[s.len() - 2]);
        }
    }
}

proof fn lemma_squeeze_idempotent(s: Seq<char>)
    requires
        char_is_whitespace(' '),
    ensures
        squeeze_whitespace(squeeze_whitespace(s)) == squeeze_whitespace(s),
    decreases s.len(),
{
    if s.len() > 0 {
        let p = s.drop_last();
        let t = squeeze_whitespace(p);
        lemma_squeeze_idempotent(p);
        lemma_squeeze_last(p);
        if char_is_whitespace(s.last()) {
            if s.len() > 1 && char_is_whitespace(s[s.len() - 2]) {
            } else {
                let u = t.push(' ');
                assert(u.drop_last() =~= t);
                if p.len() > 0 {
                    assert(p.last() == s[s.len() - 2]);
                    assert(u[u.len() - 2] == t.last());
                }
            }
        } else {
            let u = t.push(s.last());
            assert(u.drop_last() =~= t);
        }
    }
}

/// Normalising a line twice gives what normalising it once gives, when
/// case is kept (the space that whitespace runs become is itself
/// whitespace, as `char::is_whitespace` has it).
pub proof fn lemma_normalized_idempotent(line: Seq<char>, opts: DiffOpts)
    requires
        !opts.ignore_case,
        char_is_whitespace(' '),
    ensures
        normalized(normalized(line, opts), opts) == normalized(line, opts),
{
    if opts.ignore_all_space {
        lemma_without_whitespace_has_none(line);
        lemma_without_whitespace_keeps_clean(without_whitespace(line));
    } else if opts.ignore_space_change {
        lemma_squeeze_idempotent(line);
    }
}

} // verus!

verus! {

/// Ignoring case holds under every white-space option: two lines whose
/// lowercase forms are equal normalise to the same text.
pub proof fn lemma_case_ignored_under_every_option(l1: Seq<char>, l2: Seq<char>, opts: DiffOpts)
    requires
        opts.ignore_case,
        lowercase(l1) == lowercase(l2),
    ensures
        normalized(l1, opts) == normalized(l2, opts),
{
}

/// Ignoring all white space leaves none in the normalised line, whatever
/// else is ignored.
pub proof fn lemma_all_space_leaves_none(line: Seq<char>, opts: DiffOpts)
    requires
        opts.ignore_all_space,
    ensures
        forall|i: int|
            0 <= i < normalized(line, opts).len() ==> !char_is_whitespace(#[trigger] normalized(line, opts)[i]),
{
    let s = if opts.ignore_case { lowercase(line) } else { line };
    lemma_without_whitespace_has_none(s);
}

} // verus!
