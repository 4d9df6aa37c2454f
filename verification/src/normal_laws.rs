//! What the change commands of the normal form say: the second-file range
//! of a change names exactly the lines printed after its `---`.
use vstd::prelude::*;
use crate::edit::{Edit, is_edit_script};
use crate::render::{normal_from, normal_lines, ins_run, del_run, range_tail, range_lines, lemma_ins_run, lemma_del_run, lemma_ins_consecutive_run, ins_consecutive_run, anchor};
use crate::text::{decimal, digit_char};
use crate::hunk_laws::{b_count, lemma_step_position};

verus! {

/// `s` ends with `t`.
pub open spec fn ends_with(s: Seq<char>, t: Seq<char>) -> bool {
    t.len() <= s.len() && s.skip(s.len() - t.len()) == t
}

/// `s` starts with the character `c`.
pub open spec fn starts_with_char(s: Seq<char>, c: char) -> bool {
    s.len() > 0 && s[0] == c
}

/// The text of a range of `n` lines starting at line `first + 1`: the first
/// line's number, and `,` and the last line's number when there are more.
pub open spec fn range_text(first: int, n: int) -> Seq<char> {
    decimal((first + 1) as nat) + if n > 1 {
        seq![','] + decimal((first + n) as nat)
    } else {
        Seq::empty()
    }
}

/// In the lines `out`, the `---` at `k` closes a change whose header is at
/// `h`: the header ends with `c` and the range of the `n` second-file lines
/// from `q0`, the lines between are old lines `< `, and the `n` lines after
/// the `---` are exactly those second-file lines (`> `), and no more.
pub open spec fn change_block_at(out: Seq<Seq<char>>, b: Seq<Seq<char>>, k: int, h: int, q0: int, n: int) -> bool {
    &&& 0 <= h < k
    &&& n >= 1
    &&& k + 1 + n <= out.len()
    &&& ends_with(out[h], seq!['c'] + range_text(q0, n))
    &&& forall|t: int| h < t < k ==> starts_with_char(#[trigger] out[t], '<')
    &&& forall|t: int| 0 <= t < n ==> #[trigger] out[k + 1 + t] == seq!['>', ' '] + b[q0 + t]
    &&& (k + 1 + n == out.len() || !starts_with_char(out[k + 1 + n], '>'))
}

/// Every `---` in `out` closes such a change.
pub open spec fn changes_well_formed(out: Seq<Seq<char>>, b: Seq<Seq<char>>) -> bool {
    forall|k: int|
        0 <= k < out.len() && #[trigger] out[k] == seq!['-', '-', '-'] ==> exists|h: int, q0: int, n: int|
            #[trigger] change_block_at(out, b, k, h, q0, n)
}

proof fn lemma_decimal_starts_with_digit(n: nat)
    ensures
        decimal(n).len() > 0,
        48 <= decimal(n)[0] as int <= 57,
    decreases n,
{
    if n >= 10 {
        lemma_decimal_starts_with_digit(n / 10);
        assert(decimal(n)[0] == decimal(n / 10)[0]);
    } else {
        assert(decimal(n)[0] == digit_char(n));
    }
}

proof fn lemma_normal_first_line(es: Seq<Edit>, a: Seq<Seq<char>>, b: Seq<Seq<char>>, i: int)
    ensures
        normal_from(es, a, b, i).len() > 0 ==> normal_from(es, a, b, i)[0].len() > 0 && 48
            <= normal_from(es, a, b, i)[0][0] as int <= 57,
    decreases es.len() - i,
{
    if 0 <= i < es.len() {
        match es[i] {
            Edit::Equal(_, _) => {
                lemma_normal_first_line(es, a, b, i + 1);
            },
            Edit::Delete(ai) => {
                let start = ai as int;
                let (j, end) = del_run(es, i + 1, start);
                let (k, first, ins_end) = ins_run(es, j, None, 0);
                lemma_decimal_starts_with_digit((start + 1) as nat);
                let out = normal_from(es, a, b, i);
                match first {
                    Some(is) => {
                        let hdr = decimal((start + 1) as nat) + range_tail(start, end) + seq!['c'] + decimal(
                            (is + 1) as nat,
                        ) + range_tail(is, ins_end);
                        assert(out[0] == hdr);
                        assert(hdr[0] == decimal((start + 1) as nat)[0]);
                    },
                    None => {
                        let hdr = decimal((start + 1) as nat) + range_tail(start, end) + seq!['d'] + decimal(
                            start as nat,
                        );
                        assert(out[0] == hdr);
                        assert(hdr[0] == decimal((start + 1) as nat)[0]);
                    },
                }
            },
            Edit::Insert(bi) => {
                let start = bi as int;
                let (j, end) = ins_consecutive_run(es, i + 1, start);
                lemma_decimal_starts_with_digit(anchor(es, i) as nat);
                let hdr = decimal(anchor(es, i) as nat) + seq!['a'] + decimal((start + 1) as nat) + range_tail(
                    start,
                    end,
                );
                assert(normal_from(es, a, b, i)[0] == hdr);
                assert(hdr[0] == decimal(anchor(es, i) as nat)[0]);
            },
        }
    }
}

/// Along a walk, a run of insertions names consecutive second-file lines:
/// from step `k` (after an insertion of line `l`), the run ends `r.0 - k`
/// lines after `l`.
proof fn lemma_ins_run_consecutive(es: Seq<Edit>, a: Seq<Seq<char>>, b: Seq<Seq<char>>, k: int, f: int, l: int)
    requires
        is_edit_script(es, a, b),
        1 <= k <= es.len(),
        es[k - 1] matches Edit::Insert(q) && q == l,
    ensures
        ins_run(es, k, Some(f), l).1 == Some(f),
        ins_run(es, k, Some(f), l).2 - l == ins_run(es, k, Some(f), l).0 - k,
        k <= ins_run(es, k, Some(f), l).0 <= es.len(),
    decreases es.len() - k,
{
    if k < es.len() {
        match es[k] {
            Edit::Insert(q2) => {
                lemma_step_position(es, a, b, k);
                lemma_step_position(es, a, b, k - 1);
                assert(es.take(k).drop_last() =~= es.take(k - 1));
                assert(es.take(k).last() == es[k - 1]);
                assert(q2 == l + 1);
                lemma_ins_run_consecutive(es, a, b, k + 1, f, q2 as int);
            },
            _ => {},
        }
    }
}

/// A change block found in `rest` is found, shifted, after any lines put
/// before it.
proof fn lemma_block_shift(pre: Seq<Seq<char>>, rest: Seq<Seq<char>>, b: Seq<Seq<char>>, k: int, h: int, q0: int, n: int)
    requires
        change_block_at(rest, b, k, h, q0, n),
    ensures
        change_block_at(pre + rest, b, k + pre.len(), h + pre.len(), q0, n),
{
    let out = pre + rest;
    let p = pre.len() as int;
    assert(out[h + p] == rest[h]);
    assert forall|t: int| h + p < t < k + p implies starts_with_char(#[trigger] out[t], '<') by {
        assert(out[t] == rest[t - p]);
        assert(starts_with_char(rest[t - p], '<'));
    }
    assert forall|t: int| 0 <= t < n implies #[trigger] out[k + p + 1 + t] == seq!['>', ' '] + b[q0 + t] by {
        assert(out[k + p + 1 + t] == rest[k + 1 + t]);
    }
    if k + 1 + n < rest.len() {
        assert(out[k + p + 1 + n] == rest[k + 1 + n]);
    }
}

/// Every `---` of the normal form of a walk's steps from `i` closes a
/// change whose second-file range names exactly the lines after it.
proof fn lemma_normal_blocks(es: Seq<Edit>, a: Seq<Seq<char>>, b: Seq<Seq<char>>, i: int)
    requires
        is_edit_script(es, a, b),
        0 <= i,
    ensures
        changes_well_formed(normal_from(es, a, b, i), b),
    decreases es.len() - i,
{
    let dash = seq!['-', '-', '-'];
    let out = normal_from(es, a, b, i);
    if i >= es.len() {
        assert(out.len() == 0);
    } else {
        match es[i] {
            Edit::Equal(_, _) => {
                lemma_normal_blocks(es, a, b, i + 1);
            },
            Edit::Delete(ai) => {
                let start = ai as int;
                let (j, end) = del_run(es, i + 1, start);
                lemma_del_run(es, i + 1, start);
                let (k, first, ins_end) = ins_run(es, j, None, 0);
                lemma_ins_run(es, j, None, 0);
                let lt = range_lines(seq!['<', ' '], a, start, end);
                assert forall|t: int| 0 <= t < lt.len() implies starts_with_char(#[trigger] lt[t], '<') by {
                    assert(lt[t] == seq!['<', ' '] + a[start + t]);
                }
                lemma_decimal_starts_with_digit((start + 1) as nat);
                match first {
                    Some(is) => {
                        lemma_normal_blocks(es, a, b, k);
                        lemma_normal_first_line(es, a, b, k);
                        let rest = normal_from(es, a, b, k);
                        let tail = range_tail(is, ins_end);
                        let hdr = decimal((start + 1) as nat) + range_tail(start, end) + seq!['c'] + decimal(
                            (is + 1) as nat,
                        ) + tail;
                        let gt = range_lines(seq!['>', ' '], b, is, ins_end);
                        let block = seq![hdr] + lt + seq![dash] + gt;
                        assert(out =~= block + rest);
                        assert(es[j] matches Edit::Insert(q) && q == is);
                        assert(j < es.len());
                        lemma_ins_run_consecutive(es, a, b, j + 1, is, is);
                        assert(ins_run(es, j, None, 0) == ins_run(es, j + 1, Some(is), is));
                        let n = k - j;
                        assert(ins_end - is == n - 1);
                        assert(gt.len() == n);
                        let k0: int = 1 + lt.len() as int;
                        assert(hdr[0] == decimal((start + 1) as nat)[0]);
                        assert forall|t: int| 0 <= t < gt.len() implies starts_with_char(#[trigger] gt[t], '>') by {
                            assert(gt[t] == seq!['>', ' '] + b[is + t]);
                        }
                        let ct = seq!['c'] + range_text(is, n);
                        assert(range_text(is, n) =~= decimal((is + 1) as nat) + tail);
                        assert(hdr =~= (decimal((start + 1) as nat) + range_tail(start, end)) + ct);
                        assert(hdr.skip(hdr.len() - ct.len()) =~= ct);
                        assert(change_block_at(out, b, k0, 0, is, n)) by {
                            assert(out[0] == hdr);
                            assert forall|t: int| 0 < t < k0 implies starts_with_char(#[trigger] out[t], '<') by {
                                assert(out[t] == lt[t - 1]);
                            }
                            assert forall|t: int| 0 <= t < n implies #[trigger] out[k0 + 1 + t] == seq!['>', ' ']
                                + b[is + t] by {
                                assert(out[k0 + 1 + t] == gt[t]);
                            }
                            if k0 + 1 + n < out.len() {
                                assert(out[k0 + 1 + n] == rest[0]);
                            }
                        }
                        assert forall|kk: int| 0 <= kk < out.len() && #[trigger] out[kk] == dash implies exists|
                            h: int,
                            q0: int,
                            nn: int,
                        | #[trigger] change_block_at(out, b, kk, h, q0, nn) by {
                            if kk < block.len() {
                                if kk == 0 {
                                    assert(out[0] == hdr);
                                    assert(out[0][0] == dash[0]);
                                } else if kk < k0 {
                                    assert(out[kk] == lt[kk - 1]);
                                    assert(out[kk][0] == dash[0]);
                                } else if kk > k0 {
                                    assert(out[kk] == gt[kk - k0 - 1]);
                                    assert(out[kk][0] == dash[0]);
                                }
                            } else {
                                assert(out[kk] == rest[kk - block.len()]);
                                let (h, q0, nn) = choose|h: int, q0: int, nn: int|
                                    #[trigger] change_block_at(rest, b, kk - block.len(), h, q0, nn);
                                lemma_block_shift(block, rest, b, kk - block.len(), h, q0, nn);
                            }
                        }
                    },
                    None => {
                        lemma_normal_blocks(es, a, b, j);
                        let rest = normal_from(es, a, b, j);
                        let hdr = decimal((start + 1) as nat) + range_tail(start, end) + seq!['d'] + decimal(
                            start as nat,
                        );
                        let block = seq![hdr] + lt;
                        assert(out =~= block + rest);
                        assert(hdr[0] == decimal((start + 1) as nat)[0]);
                        assert forall|kk: int| 0 <= kk < out.len() && #[trigger] out[kk] == dash implies exists|
                            h: int,
                            q0: int,
                            nn: int,
                        | #[trigger] change_block_at(out, b, kk, h, q0, nn) by {
                            if kk < block.len() {
                                if kk == 0 {
                                    assert(out[0] == hdr);
                                    assert(out[0][0] == dash[0]);
                                } else {
                                    assert(out[kk] == lt[kk - 1]);
                                    assert(out[kk][0] == dash[0]);
                                }
                            } else {
                                assert(out[kk] == rest[kk - block.len()]);
                                let (h, q0, nn) = choose|h: int, q0: int, nn: int|
                                    #[trigger] change_block_at(rest, b, kk - block.len(), h, q0, nn);
                                lemma_block_shift(block, rest, b, kk - block.len(), h, q0, nn);
                            }
                        }
                    },
                }
            },
            Edit::Insert(bi) => {
                let start = bi as int;
                let (j, end) = ins_consecutive_run(es, i + 1, start);
                lemma_ins_consecutive_run(es, i + 1, start);
                lemma_normal_blocks(es, a, b, j);
                let rest = normal_from(es, a, b, j);
                lemma_decimal_starts_with_digit(anchor(es, i) as nat);
                let hdr = decimal(anchor(es, i) as nat) + seq!['a'] + decimal((start + 1) as nat) + range_tail(
                    start,
                    end,
                );
                let gt = range_lines(seq!['>', ' '], b, start, end);
                let block = seq![hdr] + gt;
                assert(out =~= block + rest);
                assert(hdr[0] == decimal(anchor(es, i) as nat)[0]);
                assert forall|kk: int| 0 <= kk < out.len() && #[trigger] out[kk] == dash implies exists|
                    h: int,
                    q0: int,
                    nn: int,
                | #[trigger] change_block_at(out, b, kk, h, q0, nn) by {
                    if kk < block.len() {
                        if kk == 0 {
                            assert(out[0] == hdr);
                            assert(out[0][0] == dash[0]);
                        } else {
                            assert(out[kk] == gt[kk - 1]);
                            assert(gt[kk - 1] == seq!['>', ' '] + b[start + kk - 1]);
                            assert(out[kk][0] == dash[0]);
                        }
                    } else {
                        assert(out[kk] == rest[kk - block.len()]);
                        let (h, q0, nn) = choose|h: int, q0: int, nn: int|
                            #[trigger] change_block_at(rest, b, kk - block.len(), h, q0, nn);
                        lemma_block_shift(block, rest, b, kk - block.len(), h, q0, nn);
                    }
                }
            },
        }
    }
}

/// In the normal form of an edit script, every change command
/// `<a-range>c<b-range>` is followed by its old lines and `---`, and the
/// b-range names exactly the second-file lines printed after the `---`:
/// it starts at the first of them and counts them all (with `,last` when
/// there is more than one).
pub proof fn lemma_normal_change_ranges(es: Seq<Edit>, a: Seq<Seq<char>>, b: Seq<Seq<char>>)
    requires
        is_edit_script(es, a, b),
    ensures
        changes_well_formed(normal_lines(es, a, b), b),
{
    lemma_normal_blocks(es, a, b, 0);
}

} // verus!
