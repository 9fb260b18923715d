//! Word normalization and tokenization.
//!
//! A token is a maximal run of non-whitespace characters in a line.  Its
//! counted form strips every ASCII punctuation character and lowercases
//! what remains; a token that comes out empty is discarded.

use vstd::prelude::*;
use vstd::string::*;

verus! {

/// ASCII punctuation: `!`..`/`, `:`..`@`, `[`..`` ` ``, `{`..`~`.
pub open spec fn is_ascii_punct(c: char) -> bool {
    let u = c as u32;
    (0x21 <= u && u <= 0x2f) || (0x3a <= u && u <= 0x40) || (0x5b <= u && u <= 0x60) || (0x7b
        <= u && u <= 0x7e)
}

/// Runtime test for `is_ascii_punct`.
pub fn is_punct(c: char) -> (r: bool)
    ensures
        r == is_ascii_punct(c),
{
    let u = c as u32;
    (0x21 <= u && u <= 0x2f) || (0x3a <= u && u <= 0x40) || (0x5b <= u && u <= 0x60) || (0x7b
        <= u && u <= 0x7e)
}

/// The Unicode lowercase mapping of one character, as a sequence of
/// characters.  It depends on the character alone.
pub uninterp spec fn lower_chars_of(c: char) -> Seq<char>;

/// Relies on char::to_lowercase: yields the Unicode lowercase mapping of
/// the character, a function of the character alone.
#[verifier::external_body]
pub(crate) fn lower_char(c: char) -> (r: String)
    ensures
        r@ == lower_chars_of(c),
{
    c.to_lowercase().collect()
}

/// Whether one character has the Unicode white-space property.
pub uninterp spec fn is_space_char(c: char) -> bool;

/// Relies on char::is_whitespace: true exactly when the character has the
/// Unicode white-space property, a function of the character alone.
#[verifier::external_body]
pub(crate) fn char_is_space(c: char) -> (r: bool)
    ensures
        r == is_space_char(c),
{
    c.is_whitespace()
}

/// The counted form of a token: ASCII punctuation removed, the rest
/// lowercased.
pub open spec fn norm_of(s: Seq<char>) -> Seq<char>
    decreases s.len(),
{
    if s.len() == 0 {
        Seq::empty()
    } else {
        norm_of(s.drop_last()) + (if is_ascii_punct(s.last()) {
            Seq::<char>::empty()
        } else {
            lower_chars_of(s.last())
        })
    }
}

/// Normalizes one raw token: removes every ASCII punctuation character,
/// then lowercases the remainder.  The result may be empty; an empty
/// result is never counted.
pub fn process_word(word: &str) -> (r: String)
    ensures
        r@ == norm_of(word@),
{
    let n = word.unicode_len();
    let mut r = String::new();
    let mut i: usize = 0;
    while i < n
        invariant
            i <= n,
            n == word@.len(),
            r@ == norm_of(word@.subrange(0, i as int)),
        decreases n - i,
    {
        let c = word.get_char(i);
        if !is_punct(c) {
            let l = lower_char(c);
            r.append(l.as_str());
        }
        proof {
            let pre = word@.subrange(0, (i + 1) as int);
            assert(pre.drop_last() =~= word@.subrange(0, i as int));
            assert(pre.last() == word@[i as int]);
        }
        i = i + 1;
    }
    proof {
        assert(word@.subrange(0, n as int) =~= word@);
    }
    r
}

/// Length of the maximal non-whitespace run at the head of `s`.
pub open spec fn run_len(s: Seq<char>) -> nat
    decreases s.len(),
{
    if s.len() == 0 || is_space_char(s[0]) {
        0
    } else {
        1 + run_len(s.drop_first())
    }
}

pub proof fn lemma_run_len_le(s: Seq<char>)
    ensures
        run_len(s) <= s.len(),
    decreases s.len(),
{
    if s.len() > 0 && !is_space_char(s[0]) {
        lemma_run_len_le(s.drop_first());
    }
}

/// `run_len` is pinned by what the characters are: `k` non-whitespace
/// characters followed by whitespace or the end.
pub proof fn lemma_run_len_at(s: Seq<char>, k: int)
    requires
        0 <= k <= s.len(),
        forall|m: int| 0 <= m < k ==> !is_space_char(s[m]),
        k == s.len() || is_space_char(s[k]),
    ensures
        run_len(s) == k,
    decreases k,
{
    if k == 0 {
    } else {
        assert(!is_space_char(s[0]));
        lemma_run_len_at(s.drop_first(), k - 1);
    }
}

/// The raw tokens of a line: its maximal non-whitespace runs, in order.
pub open spec fn tokens_of(s: Seq<char>) -> Seq<Seq<char>>
    decreases s.len(),
    via tokens_of_decreases
{
    if s.len() == 0 {
        Seq::empty()
    } else if is_space_char(s[0]) {
        tokens_of(s.drop_first())
    } else {
        seq![s.take(run_len(s) as int)] + tokens_of(s.skip(run_len(s) as int))
    }
}

#[via_fn]
proof fn tokens_of_decreases(s: Seq<char>) {
    if s.len() > 0 && !is_space_char(s[0]) {
        lemma_run_len_le(s);
    }
}

/// A line never holds more tokens than characters.
pub proof fn lemma_tokens_le(s: Seq<char>)
    ensures
        tokens_of(s).len() <= s.len(),
    decreases s.len(),
{
    if s.len() == 0 {
    } else if is_space_char(s[0]) {
        lemma_tokens_le(s.drop_first());
    } else {
        lemma_run_len_le(s);
        lemma_tokens_le(s.skip(run_len(s) as int));
    }
}

/// Splits a line into its raw whitespace-separated tokens.
pub fn split_tokens(line: &str) -> (ts: Vec<String>)
    ensures
        ts.deep_view() == tokens_of(line@),
{
    let n = line.unicode_len();
    let mut ts: Vec<String> = Vec::new();
    proof {
        assert(line@.skip(0) =~= line@);
        assert(ts.deep_view() =~= Seq::<Seq<char>>::empty());
        assert(ts.deep_view() + tokens_of(line@) =~= tokens_of(line@));
    }
    let mut i: usize = 0;
    while i < n
        invariant
            i <= n,
            n == line@.len(),
            ts.deep_view() + tokens_of(line@.skip(i as int)) == tokens_of(line@),
        decreases n - i,
    {
        let c = line.get_char(i);
        if char_is_space(c) {
            proof {
                assert(line@.skip(i as int).drop_first() =~= line@.skip(i + 1 as int));
            }
            i = i + 1;
        } else {
            let ghost rest = line@.skip(i as int);
            let mut j: usize = i + 1;
            loop
                invariant
                    i < j <= n,
                    n == line@.len(),
                    forall|m: int| i <= m < j ==> !is_space_char(line@[m]),
                ensures
                    i < j <= n,
                    forall|m: int| i <= m < j ==> !is_space_char(line@[m]),
                    j == n || is_space_char(line@[j as int]),
                decreases n - j,
            {
                if j == n {
                    break ;
                }
                let c2 = line.get_char(j);
                if char_is_space(c2) {
                    break ;
                }
                j = j + 1;
            }
            let tok = line.substring_char(i, j).to_owned();
            let ghost old_ts = ts.deep_view();
            ts.push(tok);
            proof {
                let k = (j - i) as int;
                assert forall|m: int| 0 <= m < k implies !is_space_char(rest[m]) by {
                    assert(rest[m] == line@[i + m]);
                }
                if k < rest.len() {
                    assert(rest[k] == line@[j as int]);
                }
                lemma_run_len_at(rest, k);
                assert(rest.take(k) =~= line@.subrange(i as int, j as int));
                assert(rest.skip(k) =~= line@.skip(j as int));
                assert(tokens_of(rest) == seq![rest.take(k)] + tokens_of(rest.skip(k)));
                assert(ts.deep_view() =~= old_ts.push(tok@));
                assert(ts.deep_view() + tokens_of(line@.skip(j as int)) =~= (old_ts + tokens_of(
                    line@.skip(i as int),
                )));
            }
            i = j;
        }
    }
    proof {
        assert(line@.skip(n as int) =~= Seq::<char>::empty());
        assert(ts.deep_view() + Seq::<Seq<char>>::empty() =~= ts.deep_view());
    }
    ts
}

/// The counted keys a token sequence yields: each token normalized, empty
/// results discarded.
pub open spec fn keys_of_tokens(ts: Seq<Seq<char>>) -> Seq<Seq<char>>
    decreases ts.len(),
{
    if ts.len() == 0 {
        Seq::empty()
    } else {
        keys_of_tokens(ts.drop_last()) + (if norm_of(ts.last()).len() > 0 {
            seq![norm_of(ts.last())]
        } else {
            Seq::<Seq<char>>::empty()
        })
    }
}

pub proof fn lemma_keys_of_tokens_le(ts: Seq<Seq<char>>)
    ensures
        keys_of_tokens(ts).len() <= ts.len(),
    decreases ts.len(),
{
    if ts.len() > 0 {
        lemma_keys_of_tokens_le(ts.drop_last());
    }
}

pub proof fn lemma_keys_of_tokens_concat(a: Seq<Seq<char>>, b: Seq<Seq<char>>)
    ensures
        keys_of_tokens(a + b) == keys_of_tokens(a) + keys_of_tokens(b),
    decreases b.len(),
{
    if b.len() == 0 {
        assert(a + b =~= a);
        assert(keys_of_tokens(a) + keys_of_tokens(b) =~= keys_of_tokens(a));
    } else {
        assert((a + b).drop_last() =~= a + b.drop_last());
        assert((a + b).last() == b.last());
        lemma_keys_of_tokens_concat(a, b.drop_last());
        assert(keys_of_tokens(a) + keys_of_tokens(b.drop_last()) + (if norm_of(b.last()).len()
            > 0 {
            seq![norm_of(b.last())]
        } else {
            Seq::<Seq<char>>::empty()
        }) =~= keys_of_tokens(a) + keys_of_tokens(b));
    }
}

/// The counted keys of one line.
pub open spec fn keys_of_line(line: Seq<char>) -> Seq<Seq<char>> {
    keys_of_tokens(tokens_of(line))
}

/// The counted keys of a sequence of lines, in order.
pub open spec fn keys_of_lines(lines: Seq<Seq<char>>) -> Seq<Seq<char>>
    decreases lines.len(),
{
    if lines.len() == 0 {
        Seq::empty()
    } else {
        keys_of_lines(lines.drop_last()) + keys_of_line(lines.last())
    }
}

pub proof fn lemma_keys_of_lines_concat(a: Seq<Seq<char>>, b: Seq<Seq<char>>)
    ensures
        keys_of_lines(a + b) == keys_of_lines(a) + keys_of_lines(b),
    decreases b.len(),
{
    if b.len() == 0 {
        assert(a + b =~= a);
        assert(keys_of_lines(a) + keys_of_lines(b) =~= keys_of_lines(a));
    } else {
        assert((a + b).drop_last() =~= a + b.drop_last());
        assert((a + b).last() == b.last());
        lemma_keys_of_lines_concat(a, b.drop_last());
        assert(keys_of_lines(a) + keys_of_lines(b.drop_last()) + keys_of_line(b.last())
            =~= keys_of_lines(a) + keys_of_lines(b));
    }
}

/// How often `key` occurs in a key sequence.
pub open spec fn count_occ(keys: Seq<Seq<char>>, key: Seq<char>) -> nat
    decreases keys.len(),
{
    if keys.len() == 0 {
        0
    } else {
        count_occ(keys.drop_last(), key) + (if keys.last() == key {
            1nat
        } else {
            0nat
        })
    }
}

pub proof fn lemma_count_occ_concat(a: Seq<Seq<char>>, b: Seq<Seq<char>>, key: Seq<char>)
    ensures
        count_occ(a + b, key) == count_occ(a, key) + count_occ(b, key),
    decreases b.len(),
{
    if b.len() == 0 {
        assert(a + b =~= a);
    } else {
        assert((a + b).drop_last() =~= a + b.drop_last());
        lemma_count_occ_concat(a, b.drop_last(), key);
    }
}

/// A key never occurs more often than there are keys.
pub proof fn lemma_count_occ_le(keys: Seq<Seq<char>>, key: Seq<char>)
    ensures
        count_occ(keys, key) <= keys.len(),
    decreases keys.len(),
{
    if keys.len() > 0 {
        lemma_count_occ_le(keys.drop_last(), key);
    }
}

} // verus!
