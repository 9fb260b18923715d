//! Reading the lines of one chunk.
//!
//! The reader walks the raw lines from a chunk's start offset and keeps a
//! line while the bytes consumed so far stay within the chunk's length —
//! except that it always keeps at least one line with text on it, even
//! when that line overruns the chunk: an overlong line belongs entirely to
//! the chunk that started reading it.  Kept lines are decoded from UTF-8,
//! trimmed, and dropped when nothing remains.

use vstd::prelude::*;
use vstd::slice::{slice_subrange, slice_to_vec};
use vstd::string::*;
use vstd::utf8::{decode_utf8, length_of_first_scalar, pop_first_scalar, valid_utf8};

use crate::plan::ByteRange;
use crate::text::{
    byte_sum, is_line_boundary, lemma_line_end_bounds, lemma_line_end_within, line_end,
    lines_between, scan_line_end,
};
use crate::words::{
    char_is_space, is_space_char, keys_of_line, keys_of_lines, keys_of_tokens, lemma_keys_of_lines_concat,
    lemma_keys_of_tokens_le, lemma_tokens_le, tokens_of,
};
use crate::WcError;

verus! {

/// `s` without its leading whitespace.
pub open spec fn trim_front(s: Seq<char>) -> Seq<char>
    decreases s.len(),
{
    if s.len() > 0 && is_space_char(s[0]) {
        trim_front(s.drop_first())
    } else {
        s
    }
}

/// `s` without its trailing whitespace.
pub open spec fn trim_back(s: Seq<char>) -> Seq<char>
    decreases s.len(),
{
    if s.len() > 0 && is_space_char(s.last()) {
        trim_back(s.drop_last())
    } else {
        s
    }
}

/// `s` without leading and trailing whitespace.
pub open spec fn trim_chars(s: Seq<char>) -> Seq<char> {
    trim_back(trim_front(s))
}

proof fn lemma_trim_front_skip(s: Seq<char>, k: int)
    requires
        0 <= k <= s.len(),
        forall|m: int| 0 <= m < k ==> is_space_char(s[m]),
        k == s.len() || !is_space_char(s[k]),
    ensures
        trim_front(s) == s.skip(k),
    decreases k,
{
    if k == 0 {
        assert(s.skip(0) =~= s);
    } else {
        lemma_trim_front_skip(s.drop_first(), k - 1);
        assert(s.drop_first().skip(k - 1) =~= s.skip(k));
    }
}

proof fn lemma_trim_back_take(s: Seq<char>, k: int)
    requires
        0 <= k <= s.len(),
        forall|m: int| k <= m < s.len() ==> is_space_char(s[m]),
        k == 0 || !is_space_char(s[k - 1]),
    ensures
        trim_back(s) == s.take(k),
    decreases s.len() - k,
{
    if k == s.len() {
        if s.len() > 0 {
            assert(!is_space_char(s.last()));
        }
        assert(s.take(k) =~= s);
    } else {
        assert(is_space_char(s.last()));
        lemma_trim_back_take(s.drop_last(), k);
        assert(s.drop_last().take(k) =~= s.take(k));
    }
}

pub proof fn lemma_trim_front_le(s: Seq<char>)
    ensures
        trim_front(s).len() <= s.len(),
    decreases s.len(),
{
    if s.len() > 0 && is_space_char(s[0]) {
        lemma_trim_front_le(s.drop_first());
    }
}

pub proof fn lemma_trim_back_le(s: Seq<char>)
    ensures
        trim_back(s).len() <= s.len(),
    decreases s.len(),
{
    if s.len() > 0 && is_space_char(s.last()) {
        lemma_trim_back_le(s.drop_last());
    }
}

pub proof fn lemma_trim_le(s: Seq<char>)
    ensures
        trim_chars(s).len() <= s.len(),
{
    lemma_trim_front_le(s);
    lemma_trim_back_le(trim_front(s));
}

/// Removes leading and trailing whitespace from a string.
pub fn trim_str(s: &str) -> (t: String)
    ensures
        t@ == trim_chars(s@),
{
    let n = s.unicode_len();
    let mut a: usize = 0;
    loop
        invariant
            a <= n,
            n == s@.len(),
            forall|m: int| 0 <= m < a ==> is_space_char(s@[m]),
        ensures
            a <= n,
            forall|m: int| 0 <= m < a ==> is_space_char(s@[m]),
            a == n || !is_space_char(s@[a as int]),
        decreases n - a,
    {
        if a == n {
            break ;
        }
        if !char_is_space(s.get_char(a)) {
            break ;
        }
        a = a + 1;
    }
    proof {
        lemma_trim_front_skip(s@, a as int);
    }
    if a == n {
        proof {
            assert(s@.skip(n as int) =~= Seq::<char>::empty());
        }
        return String::new();
    }
    let mut b: usize = n;
    loop
        invariant
            a < b <= n,
            n == s@.len(),
            !is_space_char(s@[a as int]),
            forall|m: int| b <= m < n ==> is_space_char(s@[m]),
        ensures
            a < b <= n,
            forall|m: int| b <= m < n ==> is_space_char(s@[m]),
            !is_space_char(s@[b - 1]),
        decreases b,
    {
        if !char_is_space(s.get_char(b - 1)) {
            break ;
        }
        b = b - 1;
    }
    let t = s.substring_char(a, b).to_owned();
    proof {
        let rest = s@.skip(a as int);
        let k = (b - a) as int;
        assert forall|m: int| k <= m < rest.len() implies is_space_char(rest[m]) by {
            assert(rest[m] == s@[a + m]);
        }
        assert(rest[k - 1] == s@[b - 1]);
        lemma_trim_back_take(rest, k);
        assert(rest.take(k) =~= s@.subrange(a as int, b as int));
    }
    t
}

/// Relies on String::from_utf8: succeeds exactly on valid UTF-8 input and
/// yields the characters those bytes encode.
#[verifier::external_body]
pub(crate) fn decode_line(raw: &Vec<u8>) -> (r: Option<String>)
    ensures
        r is Some <==> valid_utf8(raw@),
        r matches Some(s) ==> s@ == decode_utf8(raw@),
{
    match String::from_utf8(raw.clone()) {
        Ok(s) => Some(s),
        Err(_) => None,
    }
}

/// What reading a chunk yields, line by line: `pos` is the current offset,
/// `budget` the bytes the chunk may still consume, and `got` whether a
/// line has been kept already.  `None` means a consumed line was not valid
/// UTF-8.
pub open spec fn read_model(data: Seq<u8>, pos: int, budget: int, got: bool) -> Option<
    Seq<Seq<char>>,
>
    decreases data.len() - pos,
    via read_model_decreases
{
    if budget <= 0 || pos < 0 || pos >= data.len() {
        Some(Seq::empty())
    } else {
        let e = line_end(data, pos);
        let lb = e - pos;
        if lb > budget && got {
            Some(Seq::empty())
        } else {
            let raw = data.subrange(pos, e);
            if !valid_utf8(raw) {
                None
            } else {
                let t = trim_chars(decode_utf8(raw));
                let emit = t.len() > 0;
                let rest = if lb >= budget {
                    Some(Seq::<Seq<char>>::empty())
                } else {
                    read_model(data, e, budget - lb, got || emit)
                };
                match rest {
                    None => None,
                    Some(rs) => Some(
                        (if emit {
                            seq![t]
                        } else {
                            Seq::<Seq<char>>::empty()
                        }) + rs,
                    ),
                }
            }
        }
    }
}

#[via_fn]
proof fn read_model_decreases(data: Seq<u8>, pos: int, budget: int, got: bool) {
    if 0 <= pos < data.len() {
        lemma_line_end_bounds(data, pos);
    }
}

/// Extracts the trimmed, non-empty lines of one chunk.
///
/// The result is exactly what `read_model` says for the chunk's start and
/// length; the call fails, with `OtherIo`, exactly when a consumed line is
/// not valid UTF-8.
pub fn read_chunk(data: &Vec<u8>, chunk: &ByteRange) -> (r: Result<Vec<String>, WcError>)
    requires
        chunk.start <= chunk.end,
    ensures
        ({
            let m = read_model(data@, chunk.start as int, chunk.end - chunk.start, false);
            match r {
                Ok(lines) => m == Some(lines.deep_view()),
                Err(e) => m is None && e is OtherIo,
            }
        }),
{
    let ghost start0 = chunk.start as int;
    let ghost budget0 = chunk.end - chunk.start;
    let mut lines: Vec<String> = Vec::new();
    let len = data.len();
    proof {
        assert(lines.deep_view() =~= Seq::<Seq<char>>::empty());
    }
    if chunk.start >= chunk.end || chunk.start >= len as u64 {
        return Ok(lines);
    }
    let mut pos: usize = chunk.start as usize;
    let mut rem: u64 = chunk.end - chunk.start;
    let mut got = false;
    loop
        invariant_except_break
            pos <= len,
            len == data@.len(),
            rem >= 1,
            start0 == chunk.start as int,
            budget0 == chunk.end - chunk.start,
            ({
                let inner = read_model(data@, pos as int, rem as int, got);
                let full = read_model(data@, start0, budget0, false);
                match inner {
                    Some(rs) => full == Some(lines.deep_view() + rs),
                    None => full is None,
                }
            }),
        ensures
            read_model(data@, start0, budget0, false) == Some(lines.deep_view()),
        decreases len - pos,
    {
        if pos >= len {
            proof {
                assert(read_model(data@, pos as int, rem as int, got) == Some(
                    Seq::<Seq<char>>::empty(),
                ));
                assert(lines.deep_view() + Seq::<Seq<char>>::empty() =~= lines.deep_view());
            }
            break ;
        }
        let e = scan_line_end(data, pos);
        proof {
            lemma_line_end_bounds(data@, pos as int);
        }
        let lb = (e - pos) as u64;
        if lb > rem && got {
            proof {
                assert(read_model(data@, pos as int, rem as int, got) == Some(
                    Seq::<Seq<char>>::empty(),
                ));
                assert(lines.deep_view() + Seq::<Seq<char>>::empty() =~= lines.deep_view());
            }
            break ;
        }
        let raw: Vec<u8> = slice_to_vec(slice_subrange(data.as_slice(), pos, e));
        let ghost rawv = data@.subrange(pos as int, e as int);
        proof {
            assert(raw@ =~= rawv);
        }
        match decode_line(&raw) {
            None => {
                proof {
                    assert(read_model(data@, pos as int, rem as int, got) is None);
                    assert(read_model(data@, start0, budget0, false) is None);
                }
                return Err(
                    WcError::OtherIo("a line held bytes that are not valid UTF-8".to_owned()),
                );
            },
            Some(s) => {
                let t = trim_str(s.as_str());
                let emit = !t.as_str().is_empty();
                let ghost got_old = got;
                let ghost old_lines = lines.deep_view();
                let ghost tview = t@;
                let ghost emitseq: Seq<Seq<char>> = if tview.len() > 0 {
                    seq![tview]
                } else {
                    Seq::<Seq<char>>::empty()
                };
                if emit {
                    lines.push(t);
                    got = true;
                }
                proof {
                    assert(tview == trim_chars(decode_utf8(rawv)));
                    if emit {
                        assert(lines.deep_view() =~= old_lines.push(tview));
                    }
                    assert(lines.deep_view() =~= old_lines + emitseq);
                    assert(got == (got_old || tview.len() > 0));
                }
                if lb >= rem {
                    proof {
                        assert(read_model(data@, pos as int, rem as int, got_old) == Some(
                            emitseq + Seq::<Seq<char>>::empty(),
                        ));
                        assert(emitseq + Seq::<Seq<char>>::empty() =~= emitseq);
                        assert(lines.deep_view() + Seq::<Seq<char>>::empty() =~= lines.deep_view());
                    }
                    break ;
                }
                proof {
                    let inner_rest = read_model(data@, e as int, rem - lb, got);
                    match inner_rest {
                        Some(rs) => {
                            assert(read_model(data@, pos as int, rem as int, got_old) == Some(
                                emitseq + rs,
                            ));
                            assert(old_lines + (emitseq + rs) =~= lines.deep_view() + rs);
                        },
                        None => {
                            assert(read_model(data@, pos as int, rem as int, got_old) is None);
                        },
                    }
                }
                rem = rem - lb;
                pos = e;
            },
        }
    }
    Ok(lines)
}

/// What a sequence of raw lines contributes: each line decoded and
/// trimmed, empty results dropped; `None` when a line is not valid UTF-8.
pub open spec fn emit_lines(raws: Seq<Seq<u8>>) -> Option<Seq<Seq<char>>>
    decreases raws.len(),
{
    if raws.len() == 0 {
        Some(Seq::<Seq<char>>::empty())
    } else if !valid_utf8(raws[0]) {
        None
    } else {
        let t = trim_chars(decode_utf8(raws[0]));
        match emit_lines(raws.drop_first()) {
            None => None,
            Some(rs) => Some(
                (if t.len() > 0 {
                    seq![t]
                } else {
                    Seq::<Seq<char>>::empty()
                }) + rs,
            ),
        }
    }
}

pub proof fn lemma_emit_lines_concat(a: Seq<Seq<u8>>, b: Seq<Seq<u8>>)
    ensures
        emit_lines(a + b) == match (emit_lines(a), emit_lines(b)) {
            (Some(x), Some(y)) => Some(x + y),
            _ => None::<Seq<Seq<char>>>,
        },
    decreases a.len(),
{
    if a.len() == 0 {
        assert(a + b =~= b);
        match emit_lines(b) {
            Some(y) => {
                assert(Seq::<Seq<char>>::empty() + y =~= y);
            },
            None => {},
        }
    } else {
        assert((a + b)[0] == a[0]);
        assert((a + b).drop_first() =~= a.drop_first() + b);
        lemma_emit_lines_concat(a.drop_first(), b);
        if valid_utf8(a[0]) {
            let t = trim_chars(decode_utf8(a[0]));
            let ts: Seq<Seq<char>> = if t.len() > 0 {
                seq![t]
            } else {
                Seq::<Seq<char>>::empty()
            };
            match (emit_lines(a.drop_first()), emit_lines(b)) {
                (Some(x), Some(y)) => {
                    assert(ts + (x + y) =~= (ts + x) + y);
                },
                _ => {},
            }
        }
    }
}

/// On a chunk that ends at a line boundary, the reader's model is exactly
/// the contribution of the raw lines between the chunk's offsets: every
/// line fits, so the overrun rule never fires and the kept-line flag does
/// not matter.
pub proof fn lemma_read_aligned(data: Seq<u8>, s: int, e: int, got: bool)
    requires
        0 <= s <= e <= data.len(),
        is_line_boundary(data, e),
    ensures
        read_model(data, s, e - s, got) == emit_lines(lines_between(data, s, e)),
    decreases e - s,
{
    if s >= e {
    } else {
        let le = line_end(data, s);
        lemma_line_end_bounds(data, s);
        lemma_line_end_within(data, s, e);
        let raw = data.subrange(s, le);
        assert(lines_between(data, s, e)[0] == raw);
        assert(lines_between(data, s, e).drop_first() =~= lines_between(data, le, e));
        if valid_utf8(raw) {
            if le >= e {
                assert(le == e);
                assert(lines_between(data, le, e) =~= Seq::<Seq<u8>>::empty());
            } else {
                lemma_read_aligned(data, le, e, got || trim_chars(decode_utf8(raw)).len() > 0);
            }
        }
    }
}

/// Decoding UTF-8 never yields more characters than there were bytes.
pub proof fn lemma_decode_le(bytes: Seq<u8>)
    requires
        valid_utf8(bytes),
    ensures
        decode_utf8(bytes).len() <= bytes.len(),
    decreases bytes.len(),
{
    if bytes.len() != 0 {
        assert(1 <= length_of_first_scalar(bytes) <= bytes.len());
        lemma_decode_le(pop_first_scalar(bytes));
    }
}

/// A kept line never yields more counted keys than its raw bytes.
pub proof fn lemma_line_keys_le(raw: Seq<u8>)
    requires
        valid_utf8(raw),
    ensures
        keys_of_line(trim_chars(decode_utf8(raw))).len() <= raw.len(),
{
    let t = trim_chars(decode_utf8(raw));
    lemma_keys_of_tokens_le(tokens_of(t));
    lemma_tokens_le(t);
    lemma_trim_le(decode_utf8(raw));
    lemma_decode_le(raw);
}

/// Whatever range the reader was given, the keys of the lines it kept are
/// no more numerous than the bytes it could reach.
pub proof fn lemma_model_keys_le(data: Seq<u8>, pos: int, budget: int, got: bool)
    requires
        0 <= pos <= data.len(),
        read_model(data, pos, budget, got) is Some,
    ensures
        keys_of_lines(read_model(data, pos, budget, got).unwrap()).len() <= data.len() - pos,
    decreases data.len() - pos,
{
    if budget <= 0 || pos >= data.len() {
        assert(keys_of_lines(Seq::<Seq<char>>::empty()).len() == 0);
    } else {
        let e = line_end(data, pos);
        lemma_line_end_bounds(data, pos);
        let lb = e - pos;
        if lb > budget && got {
            assert(keys_of_lines(Seq::<Seq<char>>::empty()).len() == 0);
        } else {
            let raw = data.subrange(pos, e);
            let t = trim_chars(decode_utf8(raw));
            let ts: Seq<Seq<char>> = if t.len() > 0 {
                seq![t]
            } else {
                Seq::<Seq<char>>::empty()
            };
            let rest = if lb >= budget {
                Some(Seq::<Seq<char>>::empty())
            } else {
                read_model(data, e, budget - lb, got || t.len() > 0)
            };
            let rs = rest.unwrap();
            lemma_keys_of_lines_concat(ts, rs);
            if t.len() > 0 {
                assert(ts.drop_last() =~= Seq::<Seq<char>>::empty());
                assert(keys_of_lines(ts) == keys_of_lines(Seq::<Seq<char>>::empty())
                    + keys_of_line(t));
                assert(keys_of_lines(ts) =~= keys_of_line(t));
            } else {
                assert(keys_of_lines(ts).len() == 0);
            }
            lemma_line_keys_le(raw);
            if lb >= budget {
                assert(keys_of_lines(rs).len() == 0);
            } else {
                lemma_model_keys_le(data, e, budget - lb, got || t.len() > 0);
            }
        }
    }
}

/// The counted keys of what a chunk contributes are no more numerous than
/// the chunk's raw bytes.
pub proof fn lemma_emit_keys_le_bytes(raws: Seq<Seq<u8>>)
    requires
        emit_lines(raws) is Some,
    ensures
        keys_of_lines(emit_lines(raws).unwrap()).len() <= byte_sum(raws),
    decreases raws.len(),
{
    if raws.len() == 0 {
        assert(keys_of_lines(Seq::<Seq<char>>::empty()).len() == 0);
    } else {
        let t = trim_chars(decode_utf8(raws[0]));
        let ts: Seq<Seq<char>> = if t.len() > 0 {
            seq![t]
        } else {
            Seq::<Seq<char>>::empty()
        };
        let rs = emit_lines(raws.drop_first()).unwrap();
        lemma_emit_keys_le_bytes(raws.drop_first());
        lemma_keys_of_lines_concat(ts, rs);
        if t.len() > 0 {
            assert(ts.drop_last() =~= Seq::<Seq<char>>::empty());
            assert(keys_of_lines(ts) == keys_of_lines(Seq::<Seq<char>>::empty()) + keys_of_line(
                t,
            ));
            assert(keys_of_lines(ts) =~= keys_of_line(t));
        } else {
            assert(keys_of_lines(ts).len() == 0);
        }
        lemma_line_keys_le(raws[0]);
    }
}

} // verus!
