//! The line merger: splices an ordered sequence of transcript lines into one
//! string, re-emitting only the part of each line that does not overlap the
//! end of the previous line.
//!
//! The overlap of two adjacent lines is the longest suffix of the previous
//! line that is a prefix of the current line, measured in characters. When a
//! line has no overlap with its predecessor, a single space separates the two
//! in the output.

use crate::errors::MergeTranscriptError;
use crate::text::chars_of;
use crate::text::string_views;
use vstd::prelude::*;
use vstd::string::StrSliceExecFns;

verus! {

/// The overlap search, part way through: the scan tries each suffix of
/// `prev` starting at character offset `i`, longest first, and returns the
/// character count of the first suffix that is a prefix of `cur`; 0 if none
/// matches.
pub open spec fn overlap_from(prev: Seq<char>, cur: Seq<char>, i: int) -> nat
    decreases prev.len() - i,
{
    if i < 0 || i >= prev.len() {
        0
    } else if prev.skip(i).is_prefix_of(cur) {
        (prev.len() - i) as nat
    } else {
        overlap_from(prev, cur, i + 1)
    }
}

/// The character count of the longest suffix of `prev` that is a prefix of
/// `cur`; 0 when no non-empty suffix matches.
pub open spec fn overlap_len(prev: Seq<char>, cur: Seq<char>) -> nat {
    overlap_from(prev, cur, 0)
}

/// What the merge appends after the first line: for each line from position
/// `k` on, a separating space when the line has no overlap with its
/// predecessor, then the non-overlapping remainder of the line.
pub open spec fn merge_rest(lines: Seq<Seq<char>>, k: int) -> Seq<char>
    decreases lines.len() - k,
{
    if k < 1 || k >= lines.len() {
        Seq::empty()
    } else {
        let ol = overlap_len(lines[k - 1], lines[k]) as int;
        let sep: Seq<char> = if ol == 0 {
            seq![' ']
        } else {
            Seq::empty()
        };
        sep + lines[k].skip(ol) + merge_rest(lines, k + 1)
    }
}

/// The merged text of an ordered sequence of lines: the first line in full,
/// then the spliced remainders of the lines that follow.
pub open spec fn merge_spec(lines: Seq<Seq<char>>) -> Seq<char> {
    if lines.len() == 0 {
        Seq::empty()
    } else {
        lines[0] + merge_rest(lines, 1)
    }
}

/// The sum of the character counts of the lines from position `k` on.
pub open spec fn sum_len_from(lines: Seq<Seq<char>>, k: int) -> nat
    decreases lines.len() - k,
{
    if k < 0 || k >= lines.len() {
        0
    } else {
        lines[k].len() + sum_len_from(lines, k + 1)
    }
}

/// The sum of the character counts of all lines.
pub open spec fn total_len(lines: Seq<Seq<char>>) -> nat {
    sum_len_from(lines, 0)
}

/// How many separating spaces the merge inserts from position `k` on.
pub open spec fn seps_from(lines: Seq<Seq<char>>, k: int) -> nat
    decreases lines.len() - k,
{
    if k < 1 || k >= lines.len() {
        0
    } else {
        (if overlap_len(lines[k - 1], lines[k]) == 0 {
            1nat
        } else {
            0nat
        }) + seps_from(lines, k + 1)
    }
}

/// How many separating spaces the merge inserts in all.
pub open spec fn num_separators(lines: Seq<Seq<char>>) -> nat {
    seps_from(lines, 1)
}

proof fn lemma_overlap_from_le(prev: Seq<char>, cur: Seq<char>, i: int)
    ensures
        overlap_from(prev, cur, i) <= cur.len(),
        0 <= i <= prev.len() ==> overlap_from(prev, cur, i) <= prev.len() - i,
    decreases prev.len() - i,
{
    if i < 0 || i >= prev.len() {
    } else if prev.skip(i).is_prefix_of(cur) {
    } else {
        lemma_overlap_from_le(prev, cur, i + 1);
    }
}

/// The overlap never exceeds the current line's length.
pub proof fn lemma_overlap_le(prev: Seq<char>, cur: Seq<char>)
    ensures
        overlap_len(prev, cur) <= cur.len(),
        overlap_len(prev, cur) <= prev.len(),
{
    lemma_overlap_from_le(prev, cur, 0);
}

/// Whether `cur` starts with the suffix of `prev` that begins at character
/// offset `i`.
fn prefix_matches(prev: &Vec<char>, i: usize, cur: &Vec<char>) -> (r: bool)
    requires
        i <= prev@.len(),
    ensures
        r == prev@.skip(i as int).is_prefix_of(cur@),
{
    let m = prev.len() - i;
    if m > cur.len() {
        return false;
    }
    let mut j: usize = 0;
    while j < m
        invariant
            i + m == prev@.len(),
            prev@.len() <= usize::MAX,
            m <= cur@.len(),
            j <= m,
            forall|t: int| 0 <= t < j ==> prev@[i + t] == cur@[t],
        decreases m - j,
    {
        if prev[i + j] != cur[j] {
            proof {
                if prev@.skip(i as int).is_prefix_of(cur@) {
                    assert(prev@.skip(i as int)[j as int] == cur@.subrange(
                        0,
                        prev@.skip(i as int).len() as int,
                    )[j as int]);
                    assert(prev@[i + j] == cur@[j as int]);
                }
            }
            return false;
        }
        j = j + 1;
    }
    proof {
        assert(prev@.skip(i as int) =~= cur@.subrange(0, (prev@.len() - i) as int));
    }
    true
}

/// The character count of the longest suffix of `prev` that is a prefix of
/// `cur`, scanning the suffixes of `prev` longest first.
fn overlap_len_exec(prev: &Vec<char>, cur: &Vec<char>) -> (r: usize)
    ensures
        r as nat == overlap_len(prev@, cur@),
{
    let mut i: usize = 0;
    while i < prev.len()
        invariant
            i <= prev@.len(),
            overlap_from(prev@, cur@, 0) == overlap_from(prev@, cur@, i as int),
        decreases prev@.len() - i,
    {
        if prefix_matches(prev, i, cur) {
            return prev.len() - i;
        }
        i = i + 1;
    }
    0
}

/// Merges consecutive, overlapping transcript lines into one text stream.
pub struct TranscriptMerger {
    pub input_file: String,
}

impl TranscriptMerger {
    /// Creates a merger that remembers the path of the transcript it is for.
    pub fn new(input_file: &str) -> (r: Self)
        ensures
            r.input_file@ == input_file@,
    {
        TranscriptMerger { input_file: input_file.to_owned() }
    }

    /// Splices the given ordered lines into one string: the first line in
    /// full, then, for each following line, a separating space when the line
    /// has no overlap with its predecessor and the line's non-overlapping
    /// remainder. An empty line sequence is rejected.
    pub fn merge(&self, lines: &Vec<String>) -> (r: Result<String, MergeTranscriptError>)
        ensures
            lines@.len() > 0 <==> r is Ok,
            r matches Ok(out) ==> out@ == merge_spec(string_views(lines@)),
            r matches Err(e) ==> e matches MergeTranscriptError::InvalidInput(m) && m@
                == "Input file is empty"@,
    {
        if lines.len() == 0 {
            return Err(MergeTranscriptError::InvalidInput("Input file is empty".to_owned()));
        }
        let ghost lv: Seq<Seq<char>> = string_views(lines@);
        let mut out = String::new();
        out.append(lines[0].as_str());
        proof {
            assert(out@ =~= lv[0]);
        }
        let mut k: usize = 1;
        while k < lines.len()
            invariant
                1 <= k <= lines@.len(),
                lv == string_views(lines@),
                lv.len() == lines@.len(),
                merge_spec(lv) == out@ + merge_rest(lv, k as int),
            decreases lines@.len() - k,
        {
            let ghost out_before: Seq<char> = out@;
            let prev_chars = chars_of(lines[k - 1].as_str());
            let cur_chars = chars_of(lines[k].as_str());
            proof {
                assert(prev_chars@ == lv[k - 1]);
                assert(cur_chars@ == lv[k as int]);
                lemma_overlap_le(prev_chars@, cur_chars@);
            }
            let pl = overlap_len_exec(&prev_chars, &cur_chars);
            if pl == 0 {
                out.append(" ");
            }
            let cur_len = cur_chars.len();
            out.append(lines[k].as_str().substring_char(pl, cur_len));
            proof {
                reveal_strlit(" ");
                let ol = overlap_len(lv[k - 1], lv[k as int]) as int;
                let sep: Seq<char> = if ol == 0 {
                    seq![' ']
                } else {
                    Seq::empty()
                };
                assert(" "@ =~= seq![' ']);
                assert(lv[k as int].subrange(pl as int, cur_len as int) =~= lv[k as int].skip(ol));
                assert(out@ =~= out_before + sep + lv[k as int].skip(ol));
                assert(merge_rest(lv, k as int) == sep + lv[k as int].skip(ol) + merge_rest(
                    lv,
                    k + 1,
                ));
                assert(out_before + merge_rest(lv, k as int) =~= out@ + merge_rest(lv, k + 1));
            }
            k = k + 1;
        }
        proof {
            assert(merge_rest(lv, lines@.len() as int) == Seq::<char>::empty());
            assert(out@ + merge_rest(lv, lines@.len() as int) =~= out@);
        }
        Ok(out)
    }
}

/// The merged text is never longer than the sum of the input lines' lengths
/// plus the number of inserted separators.
pub proof fn lemma_merge_length_bound(lines: Seq<Seq<char>>)
    requires
        lines.len() > 0,
    ensures
        merge_spec(lines).len() <= total_len(lines) + num_separators(lines),
{
    lemma_merge_rest_len(lines, 1);
}

proof fn lemma_merge_rest_len(lines: Seq<Seq<char>>, k: int)
    requires
        1 <= k,
    ensures
        merge_rest(lines, k).len() <= sum_len_from(lines, k) + seps_from(lines, k),
    decreases lines.len() - k,
{
    if k >= lines.len() {
    } else {
        lemma_merge_rest_len(lines, k + 1);
        lemma_overlap_le(lines[k - 1], lines[k]);
    }
}

proof fn lemma_overlap_self(s: Seq<char>)
    requires
        s.len() > 0,
    ensures
        overlap_len(s, s) == s.len(),
{
    assert(s.skip(0) =~= s);
    assert(s.subrange(0, s.len() as int) =~= s);
    assert(s.is_prefix_of(s));
}

proof fn lemma_merge_rest_identical(lines: Seq<Seq<char>>, s: Seq<char>, k: int)
    requires
        1 <= k,
        s.len() > 0,
        forall|i: int| 0 <= i < lines.len() ==> lines[i] == s,
    ensures
        merge_rest(lines, k) == Seq::<char>::empty(),
    decreases lines.len() - k,
{
    if k >= lines.len() {
    } else {
        lemma_overlap_self(s);
        lemma_merge_rest_identical(lines, s, k + 1);
        assert(lines[k].skip(s.len() as int) =~= Seq::<char>::empty());
        assert(merge_rest(lines, k) =~= Seq::<char>::empty());
    }
}

/// Merging a sequence of lines that are all the one non-empty string `s`
/// collapses them into a single copy of `s`: each line fully overlaps its
/// predecessor, so nothing further is emitted.
pub proof fn lemma_merge_identical_lines(lines: Seq<Seq<char>>, s: Seq<char>)
    requires
        lines.len() >= 1,
        s.len() > 0,
        forall|i: int| 0 <= i < lines.len() ==> lines[i] == s,
    ensures
        merge_spec(lines) == s,
{
    lemma_merge_rest_identical(lines, s, 1);
    assert(merge_spec(lines) =~= s);
}

} // verus!
