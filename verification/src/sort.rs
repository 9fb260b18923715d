//! Deterministic ordering of the result entries.
//!
//! Entries are ordered by a two-tier comparator: when both keys consist
//! entirely of ASCII digits they are compared as unsigned integers, of any
//! length; otherwise they are compared lexicographically by code point.
//! Digits order below letters, so purely numeric keys come out ahead of
//! alphabetic ones either way.

use vstd::prelude::*;
use vstd::seq_lib::{to_multiset_build, to_multiset_insert};
use vstd::string::*;

use crate::counts::{ccount, entries_wf, kcount, lemma_ccount_concat, lemma_kcount_concat};

verus! {

/// An ASCII digit.
pub open spec fn is_digit(c: char) -> bool {
    0x30 <= (c as u32) && (c as u32) <= 0x39
}

/// A non-empty key made of ASCII digits only.
pub open spec fn all_digits(s: Seq<char>) -> bool {
    s.len() >= 1 && forall|i: int| 0 <= i < s.len() ==> is_digit(#[trigger] s[i])
}

/// The numeric value of one digit.
pub open spec fn digit_val(c: char) -> nat
    recommends
        is_digit(c),
{
    ((c as u32) - 0x30) as nat
}

/// The unsigned integer a digit string denotes, of any length.
pub open spec fn digits_val(s: Seq<char>) -> nat
    decreases s.len(),
{
    if s.len() == 0 {
        0
    } else {
        digits_val(s.drop_last()) * 10 + digit_val(s.last())
    }
}

/// Lexicographic order on code points.
pub open spec fn lex_le(a: Seq<char>, b: Seq<char>) -> bool
    decreases a.len(),
{
    if a.len() == 0 {
        true
    } else if b.len() == 0 {
        false
    } else if (a[0] as u32) < (b[0] as u32) {
        true
    } else if (a[0] as u32) > (b[0] as u32) {
        false
    } else {
        lex_le(a.drop_first(), b.drop_first())
    }
}

/// The two-tier order: numeric when both keys are all digits, else
/// lexicographic.
pub open spec fn key_le(a: Seq<char>, b: Seq<char>) -> bool {
    if all_digits(a) && all_digits(b) {
        digits_val(a) <= digits_val(b)
    } else {
        lex_le(a, b)
    }
}

/// Any two keys compare one way or the other.
pub proof fn lemma_key_le_total(a: Seq<char>, b: Seq<char>)
    ensures
        key_le(a, b) || key_le(b, a),
    decreases a.len(),
{
    if !(all_digits(a) && all_digits(b)) {
        if a.len() > 0 && b.len() > 0 && (a[0] as u32) == (b[0] as u32) {
            lemma_key_le_total_lex(a.drop_first(), b.drop_first());
        }
    }
}

proof fn lemma_key_le_total_lex(a: Seq<char>, b: Seq<char>)
    ensures
        lex_le(a, b) || lex_le(b, a),
    decreases a.len(),
{
    if a.len() > 0 && b.len() > 0 && (a[0] as u32) == (b[0] as u32) {
        lemma_key_le_total_lex(a.drop_first(), b.drop_first());
    }
}

/// A key shape under which the two-tier order is transitive: all digits,
/// or opening with a non-digit character.  A key that starts with a digit
/// but goes on with other characters sits between the numeric and the
/// lexicographic tier and can break transitivity.
pub open spec fn uniform_key(s: Seq<char>) -> bool {
    all_digits(s) || (s.len() >= 1 && !is_digit(s[0]))
}

/// A lexicographically smaller key never has the larger first code point.
proof fn lemma_lex_le_first(a: Seq<char>, b: Seq<char>)
    requires
        a.len() > 0,
        b.len() > 0,
        lex_le(a, b),
    ensures
        (a[0] as u32) <= (b[0] as u32),
{
}

proof fn lemma_lex_le_trans(a: Seq<char>, b: Seq<char>, c: Seq<char>)
    requires
        lex_le(a, b),
        lex_le(b, c),
    ensures
        lex_le(a, c),
    decreases a.len(),
{
    if a.len() > 0 {
        if (a[0] as u32) == (b[0] as u32) && (b[0] as u32) == (c[0] as u32) {
            lemma_lex_le_trans(a.drop_first(), b.drop_first(), c.drop_first());
        }
    }
}

/// On keys of uniform shape the two-tier order is transitive.
pub proof fn lemma_key_le_trans(a: Seq<char>, b: Seq<char>, c: Seq<char>)
    requires
        uniform_key(a),
        uniform_key(b),
        uniform_key(c),
        key_le(a, b),
        key_le(b, c),
    ensures
        key_le(a, c),
{
    let da = all_digits(a);
    let db = all_digits(b);
    let dc = all_digits(c);
    if da && db && dc {
        // numeric throughout
    } else if !da && !db {
        // both comparisons were lexicographic, and so is the goal
        lemma_lex_le_trans(a, b, c);
    } else if da && !db && !dc {
        lemma_lex_le_trans(a, b, c);
    } else if da && db && !dc {
        // c opens with a non-digit; a digit first character either beats
        // every digit or loses to every digit
        lemma_lex_le_first(b, c);
        assert(0x30 <= (b[0] as u32) <= 0x39);
        assert((c[0] as u32) > 0x39 || (c[0] as u32) < 0x30);
        if (c[0] as u32) > 0x39 {
            assert((a[0] as u32) <= 0x39 < (c[0] as u32));
        } else {
            assert(false);
        }
    } else if da && !db && dc {
        // b opens with a non-digit between the two digit keys: impossible
        lemma_lex_le_first(a, b);
        lemma_lex_le_first(b, c);
        assert(0x30 <= (a[0] as u32) <= 0x39);
        assert(0x30 <= (c[0] as u32) <= 0x39);
        assert((b[0] as u32) > 0x39 || (b[0] as u32) < 0x30);
        assert(false);
    } else {
        // a opens with a non-digit while b (and perhaps c) is numeric
        assert(!da && db);
        lemma_lex_le_first(a, b);
        assert(0x30 <= (b[0] as u32) <= 0x39);
        assert((a[0] as u32) > 0x39 || (a[0] as u32) < 0x30);
        if (a[0] as u32) < 0x30 {
            if dc {
                assert((a[0] as u32) < 0x30 <= (c[0] as u32));
            } else {
                lemma_lex_le_first(b, c);
                assert((a[0] as u32) < (c[0] as u32));
            }
        } else {
            assert(false);
        }
    }
}

/// With keys of uniform shape, a list whose neighbours are in order is in
/// order as a whole.
pub proof fn lemma_sorted_adj_strong(v: Seq<(String, u64)>)
    requires
        sorted_adj(v),
        forall|i: int| 0 <= i < v.len() ==> uniform_key((#[trigger] v[i].0)@),
    ensures
        sorted_strong(v),
{
    assert forall|i: int, j: int| 0 <= i < j < v.len() implies #[trigger] key_le(
        v[i].0@,
        v[j].0@,
    ) by {
        lemma_key_le_chain(v, i, j);
    }
}

proof fn lemma_key_le_chain(v: Seq<(String, u64)>, i: int, j: int)
    requires
        sorted_adj(v),
        forall|m: int| 0 <= m < v.len() ==> uniform_key((#[trigger] v[m].0)@),
        0 <= i < j < v.len(),
    ensures
        key_le(v[i].0@, v[j].0@),
    decreases j - i,
{
    if i + 1 == j {
    } else {
        lemma_key_le_chain(v, i, j - 1);
        let m = j - 1;
        assert(key_le(v[m].0@, v[m + 1].0@));
        lemma_key_le_trans(v[i].0@, v[j - 1].0@, v[j].0@);
    }
}

pub open spec fn pow10(n: nat) -> nat
    decreases n,
{
    if n == 0 {
        1
    } else {
        10 * pow10((n - 1) as nat)
    }
}

proof fn lemma_pow10_pos(n: nat)
    ensures
        pow10(n) >= 1,
    decreases n,
{
    if n > 0 {
        lemma_pow10_pos((n - 1) as nat);
    }
}

proof fn lemma_pow10_mono(m: nat, n: nat)
    requires
        m <= n,
    ensures
        pow10(m) <= pow10(n),
    decreases n,
{
    if m < n {
        lemma_pow10_mono(m, (n - 1) as nat);
    }
}

/// Horner form read from the front: the first digit weighs a power of ten.
proof fn lemma_digits_val_front(s: Seq<char>)
    requires
        s.len() >= 1,
    ensures
        digits_val(s) == digit_val(s[0]) * pow10((s.len() - 1) as nat) + digits_val(
            s.drop_first(),
        ),
    decreases s.len(),
{
    if s.len() == 1 {
        assert(s.drop_last() =~= Seq::<char>::empty());
        assert(s.drop_first() =~= Seq::<char>::empty());
        assert(s.last() == s[0]);
        assert(digit_val(s[0]) * 1 == digit_val(s[0])) by (nonlinear_arith);
    } else {
        let dl = s.drop_last();
        let df = s.drop_first();
        lemma_digits_val_front(dl);
        assert(dl[0] == s[0]);
        assert(dl.drop_first() =~= df.drop_last());
        assert(df.last() == s.last());
        let d0 = digit_val(s[0]);
        let p = pow10((s.len() - 2) as nat);
        let x = digits_val(df.drop_last());
        assert(digits_val(s) == (d0 * p + x) * 10 + digit_val(s.last()));
        assert((d0 * p + x) * 10 == d0 * (10 * p) + x * 10) by (nonlinear_arith);
        assert(pow10((s.len() - 1) as nat) == 10 * p);
        assert(digits_val(df) == x * 10 + digit_val(df.last()));
    }
}

/// A digit string of length `n` denotes a value below ten to the `n`.
proof fn lemma_digits_val_bound(s: Seq<char>)
    requires
        forall|i: int| 0 <= i < s.len() ==> is_digit(#[trigger] s[i]),
    ensures
        digits_val(s) < pow10(s.len()),
    decreases s.len(),
{
    if s.len() > 0 {
        assert forall|i: int| 0 <= i < s.drop_last().len() implies is_digit(
            #[trigger] s.drop_last()[i],
        ) by {
            assert(s.drop_last()[i] == s[i]);
        }
        lemma_digits_val_bound(s.drop_last());
        assert(s.last() == s[s.len() - 1]);
        assert(digit_val(s.last()) <= 9);
    }
}

/// Leading zeros do not change the value.
proof fn lemma_digits_val_skip_zeros(s: Seq<char>, k: int)
    requires
        0 <= k <= s.len(),
        forall|m: int| 0 <= m < k ==> (#[trigger] s[m] as u32) == 0x30,
    ensures
        digits_val(s.skip(k)) == digits_val(s),
    decreases k,
{
    if k == 0 {
        assert(s.skip(0) =~= s);
    } else {
        lemma_digits_val_front(s);
        assert(digit_val(s[0]) == 0);
        assert(0 * pow10((s.len() - 1) as nat) == 0) by (nonlinear_arith);
        assert forall|m: int| 0 <= m < k - 1 implies (#[trigger] s.drop_first()[m] as u32)
            == 0x30 by {
            assert(s.drop_first()[m] == s[m + 1]);
        }
        lemma_digits_val_skip_zeros(s.drop_first(), k - 1);
        assert(s.drop_first().skip(k - 1) =~= s.skip(k));
    }
}

/// With no leading zero on the longer string, a shorter digit string
/// denotes a smaller value.
proof fn lemma_digits_lt_len(a: Seq<char>, b: Seq<char>)
    requires
        forall|i: int| 0 <= i < a.len() ==> is_digit(#[trigger] a[i]),
        forall|i: int| 0 <= i < b.len() ==> is_digit(#[trigger] b[i]),
        a.len() < b.len(),
        digit_val(b[0]) >= 1,
    ensures
        digits_val(a) < digits_val(b),
{
    lemma_digits_val_bound(a);
    lemma_digits_val_front(b);
    lemma_pow10_mono(a.len(), (b.len() - 1) as nat);
    let p = pow10((b.len() - 1) as nat);
    assert(digit_val(b[0]) * p >= 1 * p) by (nonlinear_arith)
        requires
            digit_val(b[0]) >= 1,
            p >= 0,
    ;
    assert(1 * p == p) by (nonlinear_arith);
}

/// Equal-length digit strings compare at their first differing digit.
proof fn lemma_digits_lex(a: Seq<char>, b: Seq<char>, d: int)
    requires
        a.len() == b.len(),
        forall|i: int| 0 <= i < a.len() ==> is_digit(#[trigger] a[i]),
        forall|i: int| 0 <= i < b.len() ==> is_digit(#[trigger] b[i]),
        0 <= d < a.len(),
        forall|m: int| 0 <= m < d ==> (#[trigger] a[m] as u32) == (b[m] as u32),
        digit_val(a[d]) < digit_val(b[d]),
    ensures
        digits_val(a) < digits_val(b),
    decreases d,
{
    lemma_digits_val_front(a);
    lemma_digits_val_front(b);
    let p = pow10((a.len() - 1) as nat);
    if d == 0 {
        assert forall|i: int| 0 <= i < a.drop_first().len() implies is_digit(
            #[trigger] a.drop_first()[i],
        ) by {
            assert(a.drop_first()[i] == a[i + 1]);
        }
        lemma_digits_val_bound(a.drop_first());
        assert(digits_val(a) < digit_val(a[0]) * p + p);
        assert(digit_val(a[0]) * p + p == (digit_val(a[0]) + 1) * p) by (nonlinear_arith);
        assert((digit_val(a[0]) + 1) * p <= digit_val(b[0]) * p) by (nonlinear_arith)
            requires
                digit_val(a[0]) + 1 <= digit_val(b[0]),
                p >= 0,
        ;
        assert(digits_val(b) >= digit_val(b[0]) * p);
    } else {
        assert((a[0] as u32) == (b[0] as u32));
        assert(digit_val(a[0]) == digit_val(b[0]));
        assert forall|m: int| 0 <= m < d - 1 implies (#[trigger] a.drop_first()[m] as u32) == (
        b.drop_first()[m] as u32) by {
            assert(a.drop_first()[m] == a[m + 1]);
            assert(b.drop_first()[m] == b[m + 1]);
        }
        assert forall|i: int| 0 <= i < a.drop_first().len() implies is_digit(
            #[trigger] a.drop_first()[i],
        ) by {
            assert(a.drop_first()[i] == a[i + 1]);
        }
        assert forall|i: int| 0 <= i < b.drop_first().len() implies is_digit(
            #[trigger] b.drop_first()[i],
        ) by {
            assert(b.drop_first()[i] == b[i + 1]);
        }
        assert(a.drop_first()[d - 1] == a[d]);
        assert(b.drop_first()[d - 1] == b[d]);
        lemma_digits_lex(a.drop_first(), b.drop_first(), d - 1);
    }
}

/// Runtime test for `all_digits`.
pub fn is_all_digits(s: &str) -> (r: bool)
    ensures
        r == all_digits(s@),
{
    let n = s.unicode_len();
    if n == 0 {
        return false;
    }
    let mut i: usize = 0;
    while i < n
        invariant
            i <= n,
            n == s@.len(),
            forall|j: int| 0 <= j < i ==> is_digit(#[trigger] s@[j]),
        decreases n - i,
    {
        let u = s.get_char(i) as u32;
        if u < 0x30 || u > 0x39 {
            return false;
        }
        i = i + 1;
    }
    true
}

/// Compares two all-digit keys as unsigned integers, of any length:
/// leading zeros are skipped, then a longer string is larger, and equal
/// lengths compare at the first differing digit.
fn digits_le(a: &str, b: &str) -> (r: bool)
    requires
        all_digits(a@),
        all_digits(b@),
    ensures
        r == (digits_val(a@) <= digits_val(b@)),
{
    let an = a.unicode_len();
    let bn = b.unicode_len();
    let mut za: usize = 0;
    loop
        invariant
            za <= an,
            an == a@.len(),
            forall|m: int| 0 <= m < za ==> (#[trigger] a@[m] as u32) == 0x30,
        ensures
            za <= an,
            forall|m: int| 0 <= m < za ==> (#[trigger] a@[m] as u32) == 0x30,
            za == an || (a@[za as int] as u32) != 0x30,
        decreases an - za,
    {
        if za == an {
            break ;
        }
        if (a.get_char(za) as u32) != 0x30 {
            break ;
        }
        za = za + 1;
    }
    let mut zb: usize = 0;
    loop
        invariant
            zb <= bn,
            bn == b@.len(),
            forall|m: int| 0 <= m < zb ==> (#[trigger] b@[m] as u32) == 0x30,
        ensures
            zb <= bn,
            forall|m: int| 0 <= m < zb ==> (#[trigger] b@[m] as u32) == 0x30,
            zb == bn || (b@[zb as int] as u32) != 0x30,
        decreases bn - zb,
    {
        if zb == bn {
            break ;
        }
        if (b.get_char(zb) as u32) != 0x30 {
            break ;
        }
        zb = zb + 1;
    }
    let ghost sa = a@.skip(za as int);
    let ghost sb = b@.skip(zb as int);
    proof {
        lemma_digits_val_skip_zeros(a@, za as int);
        lemma_digits_val_skip_zeros(b@, zb as int);
        assert forall|i: int| 0 <= i < sa.len() implies is_digit(#[trigger] sa[i]) by {
            assert(sa[i] == a@[za + i]);
        }
        assert forall|i: int| 0 <= i < sb.len() implies is_digit(#[trigger] sb[i]) by {
            assert(sb[i] == b@[zb + i]);
        }
    }
    let la = an - za;
    let lb = bn - zb;
    if la < lb {
        proof {
            assert(sb[0] == b@[zb as int]);
            assert(digit_val(sb[0]) >= 1);
            lemma_digits_lt_len(sa, sb);
        }
        return true;
    }
    if lb < la {
        proof {
            assert(sa[0] == a@[za as int]);
            assert(digit_val(sa[0]) >= 1);
            lemma_digits_lt_len(sb, sa);
        }
        return false;
    }
    let mut d: usize = 0;
    loop
        invariant
            d <= la,
            la == lb,
            za + la == an,
            zb + lb == bn,
            an == a@.len(),
            bn == b@.len(),
            sa == a@.skip(za as int),
            sb == b@.skip(zb as int),
            forall|m: int| 0 <= m < d ==> (#[trigger] sa[m] as u32) == (sb[m] as u32),
        ensures
            d <= la,
            forall|m: int| 0 <= m < d ==> (#[trigger] sa[m] as u32) == (sb[m] as u32),
            d == la || (sa[d as int] as u32) != (sb[d as int] as u32),
        decreases la - d,
    {
        if d == la {
            break ;
        }
        let ca = a.get_char(za + d) as u32;
        let cb = b.get_char(zb + d) as u32;
        proof {
            assert(sa[d as int] == a@[za + d]);
            assert(sb[d as int] == b@[zb + d]);
        }
        if ca != cb {
            break ;
        }
        d = d + 1;
    }
    if d == la {
        proof {
            assert forall|m: int| 0 <= m < sa.len() implies sa[m] == sb[m] by {
                assert((sa[m] as u32) == (sb[m] as u32));
                assert(is_digit(sa[m]) && is_digit(sb[m]));
                assert(digit_val(sa[m]) == digit_val(sb[m]));
                lemma_char_code_eq(sa[m], sb[m]);
            }
            assert(sa =~= sb);
        }
        return true;
    }
    let ca = a.get_char(za + d) as u32;
    let cb = b.get_char(zb + d) as u32;
    proof {
        assert(sa[d as int] == a@[za + d]);
        assert(sb[d as int] == b@[zb + d]);
    }
    if ca < cb {
        proof {
            lemma_digits_lex(sa, sb, d as int);
        }
        true
    } else {
        proof {
            lemma_digits_lex(sb, sa, d as int);
        }
        false
    }
}

/// Characters with equal code points are equal.
proof fn lemma_char_code_eq(a: char, b: char)
    requires
        (a as u32) == (b as u32),
    ensures
        a == b,
{
    vstd::utf8::char_u32_cast(a, a as u32);
    vstd::utf8::char_u32_cast(b, b as u32);
}

/// Lexicographic comparison by code point.
fn lex_le_str(a: &str, b: &str) -> (r: bool)
    ensures
        r == lex_le(a@, b@),
{
    let an = a.unicode_len();
    let bn = b.unicode_len();
    proof {
        assert(a@.skip(0) =~= a@);
        assert(b@.skip(0) =~= b@);
    }
    let mut i: usize = 0;
    loop
        invariant
            i <= an,
            i <= bn,
            an == a@.len(),
            bn == b@.len(),
            lex_le(a@, b@) == lex_le(a@.skip(i as int), b@.skip(i as int)),
        ensures
            i <= an,
            i <= bn,
            an == a@.len(),
            bn == b@.len(),
            lex_le(a@, b@) == lex_le(a@.skip(i as int), b@.skip(i as int)),
            i == an || i == bn || (a@[i as int] as u32) != (b@[i as int] as u32),
        decreases an - i,
    {
        if i == an || i == bn {
            break ;
        }
        let ca = a.get_char(i) as u32;
        let cb = b.get_char(i) as u32;
        if ca != cb {
            break ;
        }
        proof {
            assert(a@.skip(i as int)[0] == a@[i as int]);
            assert(b@.skip(i as int)[0] == b@[i as int]);
            assert(a@.skip(i as int).drop_first() =~= a@.skip(i + 1));
            assert(b@.skip(i as int).drop_first() =~= b@.skip(i + 1));
        }
        i = i + 1;
    }
    if i == an {
        proof {
            assert(a@.skip(i as int).len() == 0);
        }
        return true;
    }
    if i == bn {
        return false;
    }
    let ca = a.get_char(i) as u32;
    let cb = b.get_char(i) as u32;
    proof {
        assert(a@.skip(i as int)[0] == a@[i as int]);
        assert(b@.skip(i as int)[0] == b@[i as int]);
    }
    ca < cb
}

/// The two-tier comparator on keys.
pub fn key_le_str(a: &str, b: &str) -> (r: bool)
    ensures
        r == key_le(a@, b@),
{
    if is_all_digits(a) && is_all_digits(b) {
        digits_le(a, b)
    } else {
        lex_le_str(a, b)
    }
}

/// Neighbouring entries are in order.
pub open spec fn sorted_adj(v: Seq<(String, u64)>) -> bool {
    forall|i: int| 0 <= i < v.len() - 1 ==> #[trigger] key_le(v[i].0@, v[i + 1].0@)
}

/// Every pair of entries is in order.
pub open spec fn sorted_strong(v: Seq<(String, u64)>) -> bool {
    forall|i: int, j: int| 0 <= i < j < v.len() ==> #[trigger] key_le(v[i].0@, v[j].0@)
}

/// Inserts one entry into a sorted list, after any entries its key ties
/// with.  An entry no smaller than every present one is appended.
fn insert_entry(v: &mut Vec<(String, u64)>, e: (String, u64))
    requires
        sorted_adj(old(v)@),
    ensures
        sorted_adj(final(v)@),
        final(v)@.to_multiset() == old(v)@.to_multiset().insert(e),
        (forall|i: int|
            0 <= i < old(v)@.len() ==> key_le(#[trigger] old(v)@[i].0@, e.0@)) ==> final(v)@ == old(
            v,
        )@.push(e),
        forall|k: Seq<char>|
            #[trigger] ccount(final(v)@, k) == ccount(old(v)@, k) + (if e.0@ == k {
                e.1 as nat
            } else {
                0nat
            }),
        forall|k: Seq<char>|
            #[trigger] kcount(final(v)@, k) == kcount(old(v)@, k) + (if e.0@ == k {
                1nat
            } else {
                0nat
            }),
        entries_wf(old(v)@) && e.1 >= 1 && e.0@.len() >= 1 ==> entries_wf(final(v)@),
{
    let n = v.len();
    let mut p: usize = 0;
    loop
        invariant
            p <= n,
            n == v@.len(),
            *v == *old(v),
            sorted_adj(v@),
            forall|i: int| 0 <= i < p ==> key_le(#[trigger] v@[i].0@, e.0@),
        ensures
            p <= n,
            *v == *old(v),
            forall|i: int| 0 <= i < p ==> key_le(#[trigger] v@[i].0@, e.0@),
            p == n || !key_le(v@[p as int].0@, e.0@),
        decreases n - p,
    {
        if p == n {
            break ;
        }
        if !key_le_str(v[p].0.as_str(), e.0.as_str()) {
            break ;
        }
        p = p + 1;
    }
    let ghost s0 = v@;
    let ghost ge = e;
    proof {
        to_multiset_insert(s0, p as int, ge);
        s0.insert_ensures(p as int, ge);
        if p < n {
            lemma_key_le_total(s0[p as int].0@, ge.0@);
        }
    }
    v.insert(p, e);
    proof {
        let s1 = v@;
        assert(s1 == s0.insert(p as int, ge));
        assert forall|i: int| 0 <= i < s1.len() - 1 implies #[trigger] key_le(
            s1[i].0@,
            s1[i + 1].0@,
        ) by {
            if i < p as int - 1 {
                assert(s1[i] == s0[i] && s1[i + 1] == s0[i + 1]);
            } else if i == p as int - 1 {
                assert(s1[i] == s0[i] && s1[i + 1] == ge);
            } else if i == p as int {
                assert(s1[i] == ge && s1[i + 1] == s0[i]);
            } else {
                assert(s1[i] == s0[i - 1] && s1[i + 1] == s0[i]);
            }
        }
        if p == n {
            assert(s1 =~= s0.push(ge));
        }
        let pre = s0.take(p as int);
        let post = s0.skip(p as int);
        assert(s1 =~= (pre + seq![ge]) + post);
        assert(s0 =~= pre + post);
        assert(seq![ge].drop_last() =~= Seq::<(String, u64)>::empty());
        assert(seq![ge].last() == ge);
        assert forall|k: Seq<char>| true implies #[trigger] ccount(s1, k) == ccount(s0, k) + (
        if ge.0@ == k {
            ge.1 as nat
        } else {
            0nat
        }) by {
            lemma_ccount_concat(pre + seq![ge], post, k);
            lemma_ccount_concat(pre, seq![ge], k);
            lemma_ccount_concat(pre, post, k);
            assert(ccount(seq![ge], k) == (if ge.0@ == k {
                ge.1 as nat
            } else {
                0nat
            })) by {
                assert(seq![ge].drop_last() =~= Seq::<(String, u64)>::empty());
                assert(seq![ge].last() == ge);
                assert(ccount(Seq::<(String, u64)>::empty(), k) == 0);
            }
            assert(ccount(s1, k) == ccount(pre + seq![ge], k) + ccount(post, k));
            assert(ccount(s0, k) == ccount(pre, k) + ccount(post, k));
        }
        assert forall|k: Seq<char>| true implies #[trigger] kcount(s1, k) == kcount(s0, k) + (
        if ge.0@ == k {
            1nat
        } else {
            0nat
        }) by {
            lemma_kcount_concat(pre + seq![ge], post, k);
            lemma_kcount_concat(pre, seq![ge], k);
            lemma_kcount_concat(pre, post, k);
            assert(kcount(seq![ge], k) == (if ge.0@ == k {
                1nat
            } else {
                0nat
            })) by {
                assert(seq![ge].drop_last() =~= Seq::<(String, u64)>::empty());
                assert(seq![ge].last() == ge);
                assert(kcount(Seq::<(String, u64)>::empty(), k) == 0);
            }
            assert(kcount(s1, k) == kcount(pre + seq![ge], k) + kcount(post, k));
            assert(kcount(s0, k) == kcount(pre, k) + kcount(post, k));
        }
        if entries_wf(s0) && ge.1 >= 1 && ge.0@.len() >= 1 {
            assert forall|i: int| 0 <= i < s1.len() implies (#[trigger] s1[i].1) >= 1
                && s1[i].0@.len() >= 1 by {
                if i < p as int {
                    assert(s1[i] == s0[i]);
                } else if i == p as int {
                    assert(s1[i] == ge);
                } else {
                    assert(s1[i] == s0[i - 1]);
                }
            }
        }
    }
}

/// Sorts entries under the two-tier comparator.  The result holds the
/// same entries, neighbours are in order, and a list whose entries were
/// already pairwise in order comes back unchanged.
pub fn sort_entries(v: &Vec<(String, u64)>) -> (r: Vec<(String, u64)>)
    ensures
        sorted_adj(r@),
        r@.to_multiset() == v@.to_multiset(),
        sorted_strong(v@) ==> r@ == v@,
        forall|k: Seq<char>| #[trigger] ccount(r@, k) == ccount(v@, k),
        forall|k: Seq<char>| #[trigger] kcount(r@, k) == kcount(v@, k),
        entries_wf(v@) ==> entries_wf(r@),
{
    let n = v.len();
    let mut r: Vec<(String, u64)> = Vec::new();
    proof {
        assert(v@.take(0) =~= Seq::<(String, u64)>::empty());
        assert(r@ =~= v@.take(0));
        assert(r@.to_multiset() =~= v@.take(0).to_multiset());
    }
    let mut i: usize = 0;
    while i < n
        invariant
            i <= n,
            n == v@.len(),
            sorted_adj(r@),
            r@.to_multiset() == v@.take(i as int).to_multiset(),
            sorted_strong(v@) ==> r@ == v@.take(i as int),
            forall|k: Seq<char>| #[trigger] ccount(r@, k) == ccount(v@.take(i as int), k),
            forall|k: Seq<char>| #[trigger] kcount(r@, k) == kcount(v@.take(i as int), k),
            entries_wf(v@) ==> entries_wf(r@),
        decreases n - i,
    {
        let e = (v[i].0.clone(), v[i].1);
        let ghost ge = e;
        proof {
            assert(ge == v@[i as int]);
            assert(v@.take(i + 1).drop_last() =~= v@.take(i as int));
            assert(v@.take(i + 1) =~= v@.take(i as int).push(v@[i as int]));
            to_multiset_build(v@.take(i as int), v@[i as int]);
            if entries_wf(v@) {
                assert(v@[i as int].1 >= 1 && v@[i as int].0@.len() >= 1);
            }
        }
        let ghost r0 = r@;
        insert_entry(&mut r, e);
        proof {
            assert(v@.take(i + 1).last() == ge);
            if sorted_strong(v@) {
                assert forall|k: int| 0 <= k < r0.len() implies key_le(
                    #[trigger] r0[k].0@,
                    ge.0@,
                ) by {
                    assert(r0[k] == v@.take(i as int)[k]);
                    assert(v@.take(i as int)[k] == v@[k]);
                    assert(key_le(v@[k].0@, v@[i as int].0@));
                }
                assert(r@ == r0.push(ge));
                assert(r@ =~= v@.take(i + 1));
            }
        }
        i = i + 1;
    }
    proof {
        assert(v@.take(n as int) =~= v@);
    }
    r
}

} // verus!
