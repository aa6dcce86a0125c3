//! Splitting the merged text into word tokens: the maximal runs of
//! non-whitespace characters, in order.

use crate::text::string_views;
use crate::text::chars_of;
use vstd::prelude::*;
use vstd::string::StrSliceExecFns;

verus! {

/// Whether a character counts as whitespace for tokenization; the meaning of
/// `char::is_whitespace`.
pub uninterp spec fn is_whitespace_char(c: char) -> bool;

/// Relies on `char::is_whitespace`: whether the character has the Unicode
/// `White_Space` property, a function of the character alone.
#[verifier::external_body]
fn is_whitespace(c: char) -> (r: bool)
    ensures
        r == is_whitespace_char(c),
{
    c.is_whitespace()
}

/// Tokenization, part way through: `cur` holds the characters of the word
/// being read. A whitespace character ends the current word, if one is open;
/// any other character extends it.
pub open spec fn split_acc(s: Seq<char>, cur: Seq<char>) -> Seq<Seq<char>>
    decreases s.len(),
{
    if s.len() == 0 {
        if cur.len() == 0 {
            Seq::empty()
        } else {
            seq![cur]
        }
    } else if is_whitespace_char(s[0]) {
        if cur.len() == 0 {
            split_acc(s.skip(1), Seq::empty())
        } else {
            seq![cur] + split_acc(s.skip(1), Seq::empty())
        }
    } else {
        split_acc(s.skip(1), cur.push(s[0]))
    }
}

/// The maximal whitespace-delimited tokens of a text, in order.
pub open spec fn split_whitespace_spec(s: Seq<char>) -> Seq<Seq<char>> {
    split_acc(s, Seq::empty())
}

/// Splits a text into its maximal whitespace-delimited tokens, in order.
pub fn split_words(text: &str) -> (r: Vec<String>)
    ensures
        string_views(r@) == split_whitespace_spec(text@),
{
    let cs = chars_of(text);
    let n = cs.len();
    let mut words: Vec<String> = Vec::new();
    let mut i: usize = 0;
    let mut start: usize = 0;
    proof {
        assert(string_views(words@) =~= Seq::<Seq<char>>::empty());
        assert(text@.skip(0) =~= text@);
        assert(text@.subrange(0, 0) =~= Seq::<char>::empty());
        assert(Seq::<Seq<char>>::empty() + split_whitespace_spec(text@) =~= split_whitespace_spec(
            text@,
        ));
    }
    while i < n
        invariant
            cs@ == text@,
            n == text@.len(),
            start <= i <= n,
            split_whitespace_spec(text@) == string_views(words@) + split_acc(
                text@.skip(i as int),
                text@.subrange(start as int, i as int),
            ),
        decreases n - i,
    {
        let ghost cur = text@.subrange(start as int, i as int);
        let ghost kv0 = string_views(words@);
        proof {
            assert(text@.skip(i as int)[0] == text@[i as int]);
            assert(text@.skip(i as int).skip(1) =~= text@.skip(i + 1));
        }
        if is_whitespace(cs[i]) {
            if start < i {
                let w = text.substring_char(start, i);
                words.push(w.to_owned());
                proof {
                    assert(split_acc(text@.skip(i as int), cur) == seq![cur] + split_acc(
                        text@.skip(i + 1),
                        Seq::empty(),
                    ));
                    assert(string_views(words@) =~~= kv0.push(cur));
                    assert(kv0 + (seq![cur] + split_acc(text@.skip(i + 1), Seq::empty()))
                        =~= string_views(words@) + split_acc(text@.skip(i + 1), Seq::empty()));
                }
            } else {
                proof {
                    assert(cur =~= Seq::<char>::empty());
                    assert(split_acc(text@.skip(i as int), cur) == split_acc(
                        text@.skip(i + 1),
                        Seq::empty(),
                    ));
                }
            }
            i = i + 1;
            start = i;
            proof {
                assert(text@.subrange(start as int, start as int) =~= Seq::<char>::empty());
            }
        } else {
            proof {
                assert(cur.push(text@[i as int]) =~= text@.subrange(start as int, i + 1));
                assert(split_acc(text@.skip(i as int), cur) == split_acc(
                    text@.skip(i + 1),
                    text@.subrange(start as int, i + 1),
                ));
            }
            i = i + 1;
        }
    }
    proof {
        assert(text@.skip(n as int) =~= Seq::<char>::empty());
    }
    if start < n {
        let ghost cur = text@.subrange(start as int, n as int);
        let ghost kv0 = string_views(words@);
        let w = text.substring_char(start, n);
        words.push(w.to_owned());
        proof {
            assert(split_acc(text@.skip(n as int), cur) == seq![cur]);
            assert(string_views(words@) =~~= kv0.push(cur));
            assert(kv0 + seq![cur] =~= string_views(words@));
        }
    } else {
        proof {
            assert(text@.subrange(start as int, n as int) =~= Seq::<char>::empty());
            assert(split_acc(text@.skip(n as int), text@.subrange(start as int, n as int))
                == Seq::<Seq<char>>::empty());
            assert(string_views(words@) + Seq::<Seq<char>>::empty() =~= string_views(words@));
        }
    }
    words
}

} // verus!
