//! Rendering the sorted counts.
//!
//! Each entry becomes one line, `key: count`, with a trailing newline per
//! line; counts are written in decimal without leading zeros.

use vstd::prelude::*;
use vstd::string::*;

verus! {

/// The decimal digit character for one value below ten.
pub open spec fn digit_char(d: nat) -> char
    recommends
        d < 10,
{
    if d == 0 {
        '0'
    } else if d == 1 {
        '1'
    } else if d == 2 {
        '2'
    } else if d == 3 {
        '3'
    } else if d == 4 {
        '4'
    } else if d == 5 {
        '5'
    } else if d == 6 {
        '6'
    } else if d == 7 {
        '7'
    } else if d == 8 {
        '8'
    } else {
        '9'
    }
}

/// The decimal digits of `n`, most significant first, without leading
/// zeros; zero itself is the single digit `0`.
pub open spec fn dec_of(n: nat) -> Seq<char>
    decreases n,
{
    if n < 10 {
        seq![digit_char(n)]
    } else {
        dec_of(n / 10) + seq![digit_char(n % 10)]
    }
}

/// One digit as a string.
fn digit_str(d: u64) -> (s: String)
    requires
        d < 10,
    ensures
        s@ == seq![digit_char(d as nat)],
{
    if d == 0 {
        let s = "0".to_owned();
        proof {
            reveal_strlit("0");
            assert(s@ =~= seq![digit_char(0)]);
        }
        s
    } else if d == 1 {
        let s = "1".to_owned();
        proof {
            reveal_strlit("1");
            assert(s@ =~= seq![digit_char(1)]);
        }
        s
    } else if d == 2 {
        let s = "2".to_owned();
        proof {
            reveal_strlit("2");
            assert(s@ =~= seq![digit_char(2)]);
        }
        s
    } else if d == 3 {
        let s = "3".to_owned();
        proof {
            reveal_strlit("3");
            assert(s@ =~= seq![digit_char(3)]);
        }
        s
    } else if d == 4 {
        let s = "4".to_owned();
        proof {
            reveal_strlit("4");
            assert(s@ =~= seq![digit_char(4)]);
        }
        s
    } else if d == 5 {
        let s = "5".to_owned();
        proof {
            reveal_strlit("5");
            assert(s@ =~= seq![digit_char(5)]);
        }
        s
    } else if d == 6 {
        let s = "6".to_owned();
        proof {
            reveal_strlit("6");
            assert(s@ =~= seq![digit_char(6)]);
        }
        s
    } else if d == 7 {
        let s = "7".to_owned();
        proof {
            reveal_strlit("7");
            assert(s@ =~= seq![digit_char(7)]);
        }
        s
    } else if d == 8 {
        let s = "8".to_owned();
        proof {
            reveal_strlit("8");
            assert(s@ =~= seq![digit_char(8)]);
        }
        s
    } else {
        let s = "9".to_owned();
        proof {
            reveal_strlit("9");
            assert(s@ =~= seq![digit_char(9)]);
        }
        s
    }
}

/// Writes `n` in decimal.
pub fn dec_str(n: u64) -> (s: String)
    ensures
        s@ == dec_of(n as nat),
    decreases n,
{
    if n < 10 {
        digit_str(n)
    } else {
        let mut s = dec_str(n / 10);
        let d = digit_str(n % 10);
        s.append(d.as_str());
        s
    }
}

/// One output line's characters, without its newline.
pub open spec fn entry_line(key: Seq<char>, count: nat) -> Seq<char> {
    key + seq![':', ' '] + dec_of(count)
}

/// Renders one entry as `key: count`.
pub fn format_entry(key: &String, count: u64) -> (s: String)
    ensures
        s@ == entry_line(key@, count as nat),
{
    let mut s = key.clone();
    s.append(": ");
    let d = dec_str(count);
    s.append(d.as_str());
    proof {
        reveal_strlit(": ");
        assert(": "@ =~= seq![':', ' ']);
    }
    s
}

/// The full rendered output: one line per entry, in order, each closed by
/// a newline.
pub open spec fn rendered(es: Seq<(String, u64)>) -> Seq<char>
    decreases es.len(),
{
    if es.len() == 0 {
        Seq::empty()
    } else {
        rendered(es.drop_last()) + entry_line(es.last().0@, es.last().1 as nat) + seq!['\n']
    }
}

/// Renders every entry, in order.
pub fn render_entries(es: &Vec<(String, u64)>) -> (out: String)
    ensures
        out@ == rendered(es@),
{
    let n = es.len();
    let mut out = String::new();
    proof {
        assert(es@.take(0) =~= Seq::<(String, u64)>::empty());
        assert(out@ =~= rendered(es@.take(0)));
    }
    let mut i: usize = 0;
    while i < n
        invariant
            i <= n,
            n == es@.len(),
            out@ == rendered(es@.take(i as int)),
        decreases n - i,
    {
        let line = format_entry(&es[i].0, es[i].1);
        out.append(line.as_str());
        out.append("\n");
        proof {
            reveal_strlit("\n");
            assert("\n"@ =~= seq!['\n']);
            assert(es@.take(i + 1).drop_last() =~= es@.take(i as int));
            assert(es@.take(i + 1).last() == es@[i as int]);
            assert(out@ =~= rendered(es@.take(i + 1)));
        }
        i = i + 1;
    }
    proof {
        assert(es@.take(n as int) =~= es@);
    }
    out
}

} // verus!
