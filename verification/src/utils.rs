//! The word counter: a word is a maximal whitespace-delimited run of
//! characters, and the count of a list of strings is the sum of the counts of
//! its members.

use vstd::prelude::*;

verus! {

/// What `char::is_whitespace` returns for a character: whether it has the
/// Unicode `White_Space` property, a function of the character alone.
pub uninterp spec fn is_ws(c: char) -> bool;

/// Relies on `char::is_whitespace`: whether the character has the Unicode
/// `White_Space` property; it depends on the character alone.
#[verifier::external_body]
fn char_is_whitespace(c: char) -> (r: bool)
    ensures
        r == is_ws(c),
{
    c.is_whitespace()
}

/// Relies on `str::chars`: it yields exactly the characters of the string,
/// in order.
#[verifier::external_body]
fn chars_of(s: &str) -> (r: Vec<char>)
    ensures
        r@ == s@,
{
    s.chars().collect()
}

/// Whether position `i` of `s` starts a word: a non-whitespace character
/// standing at the front of the string or right after a whitespace character.
pub open spec fn is_word_start(s: Seq<char>, i: int) -> bool {
    &&& !is_ws(s[i])
    &&& (i == 0 || is_ws(s[i - 1]))
}

/// The number of words among the first `n` characters of `s`, counted as the
/// number of word starts there.
pub open spec fn word_count_upto(s: Seq<char>, n: int) -> nat
    decreases n,
{
    if n <= 0 {
        0
    } else {
        word_count_upto(s, n - 1) + (if is_word_start(s, n - 1) {
            1nat
        } else {
            0nat
        })
    }
}

/// The number of maximal whitespace-delimited words in `s`.
pub open spec fn word_count(s: Seq<char>) -> nat {
    word_count_upto(s, s.len() as int)
}

/// The sum of the word counts of a sequence of strings.
pub open spec fn sum_word_counts(texts: Seq<Seq<char>>) -> nat
    decreases texts.len(),
{
    if texts.len() == 0 {
        0
    } else {
        sum_word_counts(texts.drop_last()) + word_count(texts.last())
    }
}

proof fn lemma_word_count_upto_le(s: Seq<char>, n: int)
    requires
        0 <= n <= s.len(),
    ensures
        word_count_upto(s, n) <= n,
    decreases n,
{
    if n > 0 {
        lemma_word_count_upto_le(s, n - 1);
    }
}

/// The number of words in one string.
pub fn word_count_str(s: &str) -> (r: usize)
    ensures
        r == word_count(s@),
{
    let cs = chars_of(s);
    let mut count: usize = 0;
    let mut prev_ws: bool = true;
    let mut i: usize = 0;
    while i < cs.len()
        invariant
            cs@ == s@,
            i <= cs.len(),
            prev_ws == (i == 0 || is_ws(s@[i as int - 1])),
            count == word_count_upto(s@, i as int),
        decreases cs.len() - i,
    {
        proof {
            lemma_word_count_upto_le(s@, i as int);
        }
        let ws = char_is_whitespace(cs[i]);
        if !ws && prev_ws {
            count = count + 1;
        }
        prev_ws = ws;
        i = i + 1;
    }
    count
}

/// Count the words of a list of text strings: the sum over the strings of the
/// number of whitespace-delimited words in each. `None` exactly when that sum
/// does not fit in `usize`.
pub fn count_words(texts: &Vec<String>) -> (r: Option<usize>)
    ensures
        r is Some <==> sum_word_counts(texts.deep_view()) <= usize::MAX,
        r is Some ==> r->0 == sum_word_counts(texts.deep_view()),
{
    let ghost all = texts.deep_view();
    let mut acc: usize = 0;
    let mut i: usize = 0;
    while i < texts.len()
        invariant
            all == texts.deep_view(),
            i <= texts.len(),
            acc == sum_word_counts(all.take(i as int)),
        decreases texts.len() - i,
    {
        let w = word_count_str(texts[i].as_str());
        proof {
            assert(all.take(i + 1).drop_last() =~= all.take(i as int));
            assert(all.take(i + 1).last() == texts[i as int]@);
        }
        match acc.checked_add(w) {
            Some(next) => {
                acc = next;
            },
            None => {
                proof {
                    lemma_sum_word_counts_take_le(all, i + 1);
                }
                return None;
            },
        }
        i = i + 1;
    }
    proof {
        assert(all.take(texts.len() as int) =~= all);
    }
    Some(acc)
}

/// The word-count sum of a prefix never exceeds that of the whole sequence.
proof fn lemma_sum_word_counts_take_le(texts: Seq<Seq<char>>, n: int)
    requires
        0 <= n <= texts.len(),
    ensures
        sum_word_counts(texts.take(n)) <= sum_word_counts(texts),
    decreases texts.len(),
{
    if n == texts.len() {
        assert(texts.take(n) =~= texts);
    } else {
        assert(texts.drop_last().take(n) =~= texts.take(n));
        lemma_sum_word_counts_take_le(texts.drop_last(), n);
    }
}

} // verus!
