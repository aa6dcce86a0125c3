//! The word deduplicator: filters an ordered sequence of word tokens under a
//! selectable policy and joins the kept tokens with single spaces.
//!
//! `Consecutive` suppresses a token only when it equals the most recently
//! kept token; `All` suppresses a token that was kept anywhere earlier. Both
//! policies keep the surviving tokens in their input order.

use crate::subsequence::is_subsequence_of;
use crate::subsequence::lemma_subsequence_cons;
use crate::text::str_eq;
use crate::text::str_views;
use crate::text::string_views;
use vstd::prelude::*;

verus! {

/// The deduplication policy: suppress only a token equal to the immediately
/// preceding kept token, or suppress any token kept earlier in the sequence.
#[derive(Clone, Copy, PartialEq, Eq, Structural, Debug)]
pub enum DeduplicationLevel {
    Consecutive,
    All,
}

/// Consecutive filtering, part way through: `last` is the most recently kept
/// token, if any; a token equal to it is dropped, any other token is kept
/// and becomes the new `last`.
pub open spec fn dedup_consec_rec(ws: Seq<Seq<char>>, last: Option<Seq<char>>) -> Seq<Seq<char>>
    decreases ws.len(),
{
    if ws.len() == 0 {
        Seq::empty()
    } else if last == Some(ws[0]) {
        dedup_consec_rec(ws.skip(1), last)
    } else {
        seq![ws[0]] + dedup_consec_rec(ws.skip(1), Some(ws[0]))
    }
}

/// The tokens that survive consecutive deduplication, in order.
pub open spec fn dedup_consecutive(ws: Seq<Seq<char>>) -> Seq<Seq<char>> {
    dedup_consec_rec(ws, None)
}

/// Global filtering, part way through: `seen` holds the tokens kept so far;
/// a token among them is dropped, any other token is kept and recorded.
pub open spec fn dedup_all_rec(ws: Seq<Seq<char>>, seen: Seq<Seq<char>>) -> Seq<Seq<char>>
    decreases ws.len(),
{
    if ws.len() == 0 {
        Seq::empty()
    } else if seen.contains(ws[0]) {
        dedup_all_rec(ws.skip(1), seen)
    } else {
        seq![ws[0]] + dedup_all_rec(ws.skip(1), seen.push(ws[0]))
    }
}

/// The tokens that survive global deduplication, in order.
pub open spec fn dedup_all(ws: Seq<Seq<char>>) -> Seq<Seq<char>> {
    dedup_all_rec(ws, Seq::empty())
}

/// The tokens that survive deduplication under the given policy.
pub open spec fn dedup_filter(level: DeduplicationLevel, ws: Seq<Seq<char>>) -> Seq<Seq<char>> {
    match level {
        DeduplicationLevel::Consecutive => dedup_consecutive(ws),
        DeduplicationLevel::All => dedup_all(ws),
    }
}

/// What follows the first token in a space-joined rendering: a space before
/// each further token.
pub open spec fn join_tail(ws: Seq<Seq<char>>) -> Seq<char>
    decreases ws.len(),
{
    if ws.len() == 0 {
        Seq::empty()
    } else {
        seq![' '] + ws[0] + join_tail(ws.skip(1))
    }
}

/// The tokens joined into one text with a single space between neighbours.
pub open spec fn join_spaces(ws: Seq<Seq<char>>) -> Seq<char> {
    if ws.len() == 0 {
        Seq::empty()
    } else {
        ws[0] + join_tail(ws.skip(1))
    }
}

/// The most recently kept token, if any tokens have been kept.
pub open spec fn last_kept(kv: Seq<Seq<char>>) -> Option<Seq<char>> {
    if kv.len() == 0 {
        None
    } else {
        Some(kv.last())
    }
}

/// No two neighbouring tokens are equal.
pub open spec fn no_adjacent_duplicates(ws: Seq<Seq<char>>) -> bool {
    forall|i: int| 0 <= i && i + 1 < ws.len() ==> #[trigger] ws[i] != ws[i + 1]
}

/// No token occurs twice.
pub open spec fn has_no_duplicates(ws: Seq<Seq<char>>) -> bool {
    forall|i: int, j: int| 0 <= i < j < ws.len() ==> ws[i] != ws[j]
}

/// Whether one of the string slices in `ws` has exactly the characters of
/// `w`.
fn contains_str(ws: &Vec<&str>, w: &str) -> (r: bool)
    ensures
        r == str_views(ws@).contains(w@),
{
    let mut i: usize = 0;
    while i < ws.len()
        invariant
            i <= ws@.len(),
            forall|j: int| 0 <= j < i ==> str_views(ws@)[j] != w@,
        decreases ws@.len() - i,
    {
        if str_eq(ws[i], w) {
            proof {
                assert(str_views(ws@)[i as int] == w@);
            }
            return true;
        }
        i = i + 1;
    }
    proof {
        if str_views(ws@).contains(w@) {
            let j = choose|j: int|
                0 <= j < str_views(ws@).len() && str_views(ws@)[j] == w@;
            assert(str_views(ws@)[j] != w@);
        }
    }
    false
}

/// Joins the given tokens into one string with a single space between
/// neighbours.
fn join_with_spaces(ws: &Vec<&str>) -> (r: String)
    ensures
        r@ == join_spaces(str_views(ws@)),
{
    let mut out = String::new();
    if ws.len() == 0 {
        return out;
    }
    out.append(ws[0]);
    proof {
        assert(out@ =~= str_views(ws@)[0]);
    }
    let mut i: usize = 1;
    while i < ws.len()
        invariant
            1 <= i <= ws@.len(),
            join_spaces(str_views(ws@)) == out@ + join_tail(str_views(ws@).skip(i as int)),
        decreases ws@.len() - i,
    {
        let ghost ob = out@;
        out.append(" ");
        out.append(ws[i]);
        proof {
            reveal_strlit(" ");
            let wvv = str_views(ws@);
            assert(" "@ =~= seq![' ']);
            assert(wvv.skip(i as int)[0] == wvv[i as int]);
            assert(wvv.skip(i as int).skip(1) =~= wvv.skip(i + 1));
            assert(out@ =~= ob + seq![' '] + wvv[i as int]);
            assert(ob + join_tail(wvv.skip(i as int)) =~= out@ + join_tail(wvv.skip(i + 1)));
        }
        i = i + 1;
    }
    proof {
        assert(str_views(ws@).skip(ws@.len() as int) =~= Seq::<Seq<char>>::empty());
        assert(out@ + join_tail(str_views(ws@).skip(ws@.len() as int)) =~= out@);
    }
    out
}

/// Removes duplicate word tokens under a fixed policy, recording the message
/// of each failure in an error log that acts as the pluggable
/// error-reporting sink.
pub struct Deduplicator {
    pub dedup_level: DeduplicationLevel,
    pub error_log: Vec<String>,
}

impl Deduplicator {
    /// Creates a deduplicator with the given policy and an empty error log.
    pub fn new(dedup_level: DeduplicationLevel) -> (r: Deduplicator)
        ensures
            r.dedup_level == dedup_level,
            r.error_log@ == Seq::<String>::empty(),
    {
        Deduplicator { dedup_level, error_log: Vec::new() }
    }

    /// Records one failure message in the error log.
    pub fn handle_error(&mut self, message: &str)
        ensures
            final(self).dedup_level == old(self).dedup_level,
            string_views(final(self).error_log@) == string_views(old(self).error_log@).push(
                message@,
            ),
    {
        self.error_log.push(message.to_owned());
        proof {
            assert(string_views(self.error_log@) =~~= string_views(old(self).error_log@).push(
                message@,
            ));
        }
    }

    /// Filters the given tokens under this deduplicator's policy and joins
    /// the kept tokens with single spaces. An empty token sequence is
    /// rejected, and its failure message is recorded in the error log.
    pub fn deduplicate_words(&mut self, words: &Vec<&str>) -> (r: Result<String, String>)
        ensures
            final(self).dedup_level == old(self).dedup_level,
            words@.len() > 0 <==> r is Ok,
            r matches Ok(out) ==> out@ == join_spaces(
                dedup_filter(old(self).dedup_level, str_views(words@)),
            ) && *final(self) == *old(self),
            r matches Err(m) ==> m@ == "Input vector must not be empty"@ && string_views(
                final(self).error_log@,
            ) == string_views(old(self).error_log@).push(m@),
    {
        if words.len() == 0 {
            let message: String = "Input vector must not be empty".to_owned();
            self.handle_error(message.as_str());
            return Err(message);
        }
        let ghost wv: Seq<Seq<char>> = str_views(words@);
        let mut kept: Vec<&str> = Vec::new();
        proof {
            assert(str_views(kept@) =~= Seq::<Seq<char>>::empty());
            assert(wv.skip(0) =~= wv);
            assert(Seq::<Seq<char>>::empty() + dedup_consec_rec(wv, None) =~= dedup_consec_rec(
                wv,
                None,
            ));
            assert(Seq::<Seq<char>>::empty() + dedup_all_rec(wv, Seq::empty()) =~= dedup_all_rec(
                wv,
                Seq::empty(),
            ));
        }
        match self.dedup_level {
            DeduplicationLevel::Consecutive => {
                let mut i: usize = 0;
                while i < words.len()
                    invariant
                        i <= words@.len(),
                        wv == str_views(words@),
                        wv.len() == words@.len(),
                        dedup_consecutive(wv) == str_views(kept@) + dedup_consec_rec(
                            wv.skip(i as int),
                            last_kept(str_views(kept@)),
                        ),
                    decreases words@.len() - i,
                {
                    let ghost kv0 = str_views(kept@);
                    let w = words[i];
                    proof {
                        assert(wv.skip(i as int)[0] == wv[i as int]);
                        assert(wv[i as int] == w@);
                        assert(wv.skip(i as int).skip(1) =~= wv.skip(i + 1));
                    }
                    let keep = if kept.len() == 0 {
                        true
                    } else {
                        proof {
                            assert(kv0.last() == kept@[kept@.len() - 1]@);
                        }
                        !str_eq(kept[kept.len() - 1], w)
                    };
                    if keep {
                        proof {
                            assert(last_kept(kv0) != Some(wv[i as int]));
                            assert(dedup_consec_rec(wv.skip(i as int), last_kept(kv0)) == seq![
                                wv[i as int],
                            ] + dedup_consec_rec(wv.skip(i + 1), Some(wv[i as int])));
                        }
                        kept.push(w);
                        proof {
                            assert(str_views(kept@) =~= kv0 + seq![w@]);
                            assert(last_kept(str_views(kept@)) == Some(wv[i as int]));
                            assert(kv0 + (seq![wv[i as int]] + dedup_consec_rec(
                                wv.skip(i + 1),
                                Some(wv[i as int]),
                            )) =~= str_views(kept@) + dedup_consec_rec(
                                wv.skip(i + 1),
                                Some(wv[i as int]),
                            ));
                        }
                    } else {
                        proof {
                            assert(last_kept(kv0) == Some(wv[i as int]));
                            assert(dedup_consec_rec(wv.skip(i as int), last_kept(kv0))
                                == dedup_consec_rec(wv.skip(i + 1), last_kept(kv0)));
                        }
                    }
                    i = i + 1;
                }
                proof {
                    assert(wv.skip(wv.len() as int) =~= Seq::<Seq<char>>::empty());
                    assert(str_views(kept@) + Seq::<Seq<char>>::empty() =~= str_views(kept@));
                }
            },
            DeduplicationLevel::All => {
                let mut i: usize = 0;
                while i < words.len()
                    invariant
                        i <= words@.len(),
                        wv == str_views(words@),
                        wv.len() == words@.len(),
                        dedup_all(wv) == str_views(kept@) + dedup_all_rec(
                            wv.skip(i as int),
                            str_views(kept@),
                        ),
                    decreases words@.len() - i,
                {
                    let ghost kv0 = str_views(kept@);
                    let w = words[i];
                    proof {
                        assert(wv.skip(i as int)[0] == wv[i as int]);
                        assert(wv[i as int] == w@);
                        assert(wv.skip(i as int).skip(1) =~= wv.skip(i + 1));
                    }
                    if !contains_str(&kept, w) {
                        proof {
                            assert(dedup_all_rec(wv.skip(i as int), kv0) == seq![wv[i as int]]
                                + dedup_all_rec(wv.skip(i + 1), kv0.push(wv[i as int])));
                        }
                        kept.push(w);
                        proof {
                            assert(str_views(kept@) =~= kv0.push(wv[i as int]));
                            assert(kv0 + (seq![wv[i as int]] + dedup_all_rec(
                                wv.skip(i + 1),
                                kv0.push(wv[i as int]),
                            )) =~= str_views(kept@) + dedup_all_rec(
                                wv.skip(i + 1),
                                str_views(kept@),
                            ));
                        }
                    } else {
                        proof {
                            assert(dedup_all_rec(wv.skip(i as int), kv0) == dedup_all_rec(
                                wv.skip(i + 1),
                                kv0,
                            ));
                        }
                    }
                    i = i + 1;
                }
                proof {
                    assert(wv.skip(wv.len() as int) =~= Seq::<Seq<char>>::empty());
                    assert(str_views(kept@) + Seq::<Seq<char>>::empty() =~= str_views(kept@));
                }
            },
        }
        let out = join_with_spaces(&kept);
        Ok(out)
    }
}

proof fn lemma_consec_rec_shape(ws: Seq<Seq<char>>, last: Option<Seq<char>>)
    ensures
        no_adjacent_duplicates(dedup_consec_rec(ws, last)),
        dedup_consec_rec(ws, last).len() > 0 ==> Some(dedup_consec_rec(ws, last)[0]) != last,
    decreases ws.len(),
{
    if ws.len() == 0 {
    } else if last == Some(ws[0]) {
        lemma_consec_rec_shape(ws.skip(1), last);
    } else {
        lemma_consec_rec_shape(ws.skip(1), Some(ws[0]));
        let r2 = dedup_consec_rec(ws.skip(1), Some(ws[0]));
        let r = seq![ws[0]] + r2;
        assert forall|i: int| 0 <= i && i + 1 < r.len() implies #[trigger] r[i] != r[i + 1] by {
            if i == 0 {
                assert(r[0] == ws[0]);
                assert(r[1] == r2[0]);
            } else {
                assert(r[i] == r2[i - 1]);
                assert(r[i + 1] == r2[i]);
            }
        }
    }
}

proof fn lemma_consec_rec_stable(ws: Seq<Seq<char>>, last: Option<Seq<char>>)
    requires
        no_adjacent_duplicates(ws),
        ws.len() > 0 ==> Some(ws[0]) != last,
    ensures
        dedup_consec_rec(ws, last) == ws,
    decreases ws.len(),
{
    if ws.len() == 0 {
        assert(dedup_consec_rec(ws, last) =~= ws);
    } else {
        let tail = ws.skip(1);
        assert forall|i: int| 0 <= i && i + 1 < tail.len() implies #[trigger] tail[i] != tail[i + 1] by {
            assert(tail[i] == ws[i + 1]);
            assert(tail[i + 1] == ws[i + 2]);
        }
        if tail.len() > 0 {
            assert(tail[0] == ws[1]);
            assert(ws[0] != ws[1]);
        }
        lemma_consec_rec_stable(tail, Some(ws[0]));
        assert(seq![ws[0]] + tail =~= ws);
    }
}

/// Applying consecutive deduplication to its own output changes nothing: no
/// two adjacent output tokens are ever equal.
pub proof fn lemma_consecutive_idempotent(ws: Seq<Seq<char>>)
    ensures
        no_adjacent_duplicates(dedup_consecutive(ws)),
        dedup_consecutive(dedup_consecutive(ws)) == dedup_consecutive(ws),
{
    lemma_consec_rec_shape(ws, None);
    lemma_consec_rec_stable(dedup_consecutive(ws), None);
}

proof fn lemma_contains_split<T>(ws: Seq<T>, x: T)
    requires
        ws.len() > 0,
    ensures
        ws.contains(x) <==> (ws[0] == x || ws.skip(1).contains(x)),
{
    if ws.contains(x) {
        let j = choose|j: int| 0 <= j < ws.len() && ws[j] == x;
        if j > 0 {
            assert(ws.skip(1)[j - 1] == x);
        }
    }
    if ws.skip(1).contains(x) {
        let j = choose|j: int| 0 <= j < ws.skip(1).len() && ws.skip(1)[j] == x;
        assert(ws[j + 1] == x);
    }
}

proof fn lemma_contains_push<T>(s: Seq<T>, x: T, y: T)
    ensures
        s.push(x).contains(y) <==> (s.contains(y) || y == x),
{
    if s.push(x).contains(y) {
        let j = choose|j: int| 0 <= j < s.push(x).len() && s.push(x)[j] == y;
        if j < s.len() {
            assert(s[j] == y);
        } else {
            assert(y == x);
        }
    }
    if s.contains(y) {
        let j = choose|j: int| 0 <= j < s.len() && s[j] == y;
        assert(s.push(x)[j] == y);
    }
    if y == x {
        assert(s.push(x)[s.len() as int] == y);
    }
}

proof fn lemma_all_rec_props(ws: Seq<Seq<char>>, seen: Seq<Seq<char>>)
    ensures
        has_no_duplicates(dedup_all_rec(ws, seen)),
        forall|x: Seq<char>|
            dedup_all_rec(ws, seen).contains(x) <==> (ws.contains(x) && !seen.contains(x)),
    decreases ws.len(),
{
    let r = dedup_all_rec(ws, seen);
    if ws.len() == 0 {
    } else if seen.contains(ws[0]) {
        lemma_all_rec_props(ws.skip(1), seen);
        assert forall|x: Seq<char>| r.contains(x) <==> (ws.contains(x) && !seen.contains(x)) by {
            lemma_contains_split(ws, x);
        }
    } else {
        lemma_all_rec_props(ws.skip(1), seen.push(ws[0]));
        let r2 = dedup_all_rec(ws.skip(1), seen.push(ws[0]));
        assert(r[0] == ws[0]);
        assert(r.skip(1) =~= r2);
        assert forall|x: Seq<char>| r.contains(x) <==> (ws.contains(x) && !seen.contains(x)) by {
            lemma_contains_split(r, x);
            lemma_contains_split(ws, x);
            lemma_contains_push(seen, ws[0], x);
        }
        assert forall|i: int, j: int| 0 <= i < j < r.len() implies r[i] != r[j] by {
            if i == 0 {
                assert(r[j] == r2[j - 1]);
                assert(r2.contains(r2[j - 1]));
                lemma_contains_push(seen, ws[0], r2[j - 1]);
            } else {
                assert(r[i] == r2[i - 1]);
                assert(r[j] == r2[j - 1]);
            }
        }
    }
}

/// Global deduplication yields no duplicate tokens, and keeps exactly the
/// set of tokens that occur in the input.
pub proof fn lemma_all_removes_duplicates(ws: Seq<Seq<char>>)
    ensures
        has_no_duplicates(dedup_all(ws)),
        dedup_all(ws).to_set() == ws.to_set(),
{
    lemma_all_rec_props(ws, Seq::empty());
    assert(dedup_all(ws).to_set() =~= ws.to_set());
}

proof fn lemma_consec_rec_subsequence(ws: Seq<Seq<char>>, last: Option<Seq<char>>)
    ensures
        is_subsequence_of(dedup_consec_rec(ws, last), ws),
    decreases ws.len(),
{
    if ws.len() == 0 {
    } else if last == Some(ws[0]) {
        lemma_consec_rec_subsequence(ws.skip(1), last);
        lemma_subsequence_cons(dedup_consec_rec(ws.skip(1), last), ws.skip(1), ws[0]);
        assert(seq![ws[0]] + ws.skip(1) =~= ws);
    } else {
        lemma_consec_rec_subsequence(ws.skip(1), Some(ws[0]));
        let r = seq![ws[0]] + dedup_consec_rec(ws.skip(1), Some(ws[0]));
        assert(r[0] == ws[0]);
        assert(r.skip(1) =~= dedup_consec_rec(ws.skip(1), Some(ws[0])));
    }
}

proof fn lemma_all_rec_subsequence(ws: Seq<Seq<char>>, seen: Seq<Seq<char>>)
    ensures
        is_subsequence_of(dedup_all_rec(ws, seen), ws),
    decreases ws.len(),
{
    if ws.len() == 0 {
    } else if seen.contains(ws[0]) {
        lemma_all_rec_subsequence(ws.skip(1), seen);
        lemma_subsequence_cons(dedup_all_rec(ws.skip(1), seen), ws.skip(1), ws[0]);
        assert(seq![ws[0]] + ws.skip(1) =~= ws);
    } else {
        lemma_all_rec_subsequence(ws.skip(1), seen.push(ws[0]));
        let r = seq![ws[0]] + dedup_all_rec(ws.skip(1), seen.push(ws[0]));
        assert(r[0] == ws[0]);
        assert(r.skip(1) =~= dedup_all_rec(ws.skip(1), seen.push(ws[0])));
    }
}

/// Under either policy, the kept tokens are a subsequence of the input
/// tokens: filtering never reorders.
pub proof fn lemma_output_is_subsequence(level: DeduplicationLevel, ws: Seq<Seq<char>>)
    ensures
        is_subsequence_of(dedup_filter(level, ws), ws),
{
    match level {
        DeduplicationLevel::Consecutive => {
            lemma_consec_rec_subsequence(ws, None);
        },
        DeduplicationLevel::All => {
            lemma_all_rec_subsequence(ws, Seq::empty());
        },
    }
}

} // verus!
