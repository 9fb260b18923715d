//! A line-boundary-safe word-frequency counter.
//!
//! The library splits a text's bytes into line-aligned chunks, extracts the
//! trimmed non-empty lines of each chunk, counts normalized word frequencies,
//! merges the per-chunk counts, and renders the result deterministically
//! sorted.  All of the logic is verified; reading and writing files is left
//! to the caller.

pub mod booking;
pub mod counts;
pub mod orders;
pub mod output;
pub mod plan;
pub mod read;
pub mod sort;
pub mod text;
pub mod words;

use vstd::prelude::*;

use crate::counts::{ccount, count_words, entries_wf, kcount, FrequencyMap};
use crate::counts::lemma_distinct_kcount;
use crate::output::{render_entries, rendered};
use crate::plan::{chunks_cover, plan_chunks, ByteRange};
use crate::read::{
    emit_lines, lemma_emit_keys_le_bytes, lemma_emit_lines_concat, lemma_model_keys_le,
    lemma_read_aligned, read_chunk, read_model,
};
use crate::sort::{sort_entries, sorted_adj};
use crate::text::{
    is_line_boundary, lemma_lines_between_bytes, lemma_lines_between_split, lemma_lines_split,
    lines_between, lines_of, raw_lines_from,
};
use crate::words::{count_occ, keys_of_lines, lemma_keys_of_lines_concat};

verus! {

/// The error kinds that a run of the counter can surface.  All I/O failures
/// map onto one of these; `OtherIo` carries a human-readable detail.
#[derive(Debug, Clone, PartialEq, Eq)]
pub enum WcError {
    FileNotFound,
    PermissionDenied,
    OtherIo(String),
}

/// Reads one chunk and counts its words: the per-worker step of the
/// pipeline.  Fails, with `OtherIo`, exactly when a consumed line is not
/// valid UTF-8.
pub fn count_chunk(data: &Vec<u8>, chunk: &ByteRange) -> (r: Result<FrequencyMap, WcError>)
    requires
        chunk.start <= chunk.end,
    ensures
        ({
            let m = read_model(data@, chunk.start as int, chunk.end - chunk.start, false);
            match r {
                Ok(fm) => {
                    &&& m is Some
                    &&& fm.wf()
                    &&& forall|k: Seq<char>|
                        #[trigger] fm.count_of(k) == count_occ(keys_of_lines(m.unwrap()), k)
                    &&& fm.total() == keys_of_lines(m.unwrap()).len()
                },
                Err(e) => m is None && e is OtherIo,
            }
        }),
{
    match read_chunk(data, chunk) {
        Err(e) => Err(e),
        Ok(lines) => {
            proof {
                if chunk.start as int <= data@.len() {
                    lemma_model_keys_le(
                        data@,
                        chunk.start as int,
                        chunk.end - chunk.start,
                        false,
                    );
                } else {
                    assert(lines.deep_view() =~= Seq::<Seq<char>>::empty());
                    assert(keys_of_lines(lines.deep_view()).len() == 0);
                }
                vstd::std_specs::vec::axiom_spec_len(data);
                assert(data@.len() <= usize::MAX);
                assert(usize::MAX as nat <= u64::MAX as nat);
            }
            Ok(count_words(&lines))
        },
    }
}

/// Counts the whole text: plans line-aligned chunks, counts each chunk,
/// and merges the local maps into one.  The resulting counts depend on the
/// data alone — any requested chunk count yields the same map.  Fails,
/// with `OtherIo`, exactly when a line of the text is not valid UTF-8.
pub fn count_content(data: &Vec<u8>, requested: usize) -> (r: Result<FrequencyMap, WcError>)
    requires
        requested >= 1,
    ensures
        ({
            let el = emit_lines(lines_of(data@));
            match r {
                Ok(fm) => {
                    &&& el is Some
                    &&& fm.wf()
                    &&& forall|k: Seq<char>|
                        #[trigger] fm.count_of(k) == count_occ(keys_of_lines(el.unwrap()), k)
                    &&& fm.total() == keys_of_lines(el.unwrap()).len()
                },
                Err(e) => el is None && e is OtherIo,
            }
        }),
{
    let chunks = plan_chunks(data, requested);
    let mut global = FrequencyMap::new();
    let n = chunks.len();
    let mut pos: u64 = 0;
    let mut i: usize = 0;
    proof {
        assert(lines_between(data@, 0, 0) =~= Seq::<Seq<u8>>::empty());
        assert(emit_lines(lines_between(data@, 0, 0)) == Some(Seq::<Seq<char>>::empty()));
        assert(keys_of_lines(Seq::<Seq<char>>::empty()).len() == 0);
    }
    while i < n
        invariant
            i <= n,
            n == chunks@.len(),
            chunks_cover(data@, chunks@),
            i < n ==> chunks@[i as int].start == pos,
            i == n ==> pos == data@.len(),
            pos <= data@.len(),
            is_line_boundary(data@, pos as int),
            global.wf(),
            emit_lines(lines_between(data@, 0, pos as int)) is Some,
            forall|k: Seq<char>|
                #[trigger] global.count_of(k) == count_occ(
                    keys_of_lines(emit_lines(lines_between(data@, 0, pos as int)).unwrap()),
                    k,
                ),
            global.total() == keys_of_lines(
                emit_lines(lines_between(data@, 0, pos as int)).unwrap(),
            ).len(),
            global.total() <= pos,
        decreases n - i,
    {
        let c = chunks[i];
        let ghost s = c.start as int;
        let ghost e = c.end as int;
        proof {
            assert(is_line_boundary(data@, e));
            assert(e <= data@.len());
            lemma_read_aligned(data@, s, e, false);
        }
        match count_chunk(data, &c) {
            Err(err) => {
                proof {
                    lemma_lines_split(data@, 0, pos as int);
                    lemma_lines_split(data@, pos as int, e);
                    lemma_emit_lines_concat(
                        lines_between(data@, pos as int, e),
                        raw_lines_from(data@, e),
                    );
                    lemma_emit_lines_concat(
                        lines_between(data@, 0, pos as int),
                        raw_lines_from(data@, pos as int),
                    );
                }
                return Err(err);
            },
            Ok(local) => {
                let ghost pl = emit_lines(lines_between(data@, 0, pos as int)).unwrap();
                let ghost cl = emit_lines(lines_between(data@, pos as int, e)).unwrap();
                proof {
                    lemma_emit_keys_le_bytes(lines_between(data@, pos as int, e));
                    lemma_lines_between_bytes(data@, pos as int, e);
                    assert(local.total() <= e - pos);
                    assert(usize::MAX as nat <= u64::MAX as nat);
                }
                global.merge(&local);
                proof {
                    lemma_lines_between_split(data@, 0, pos as int, e);
                    lemma_emit_lines_concat(
                        lines_between(data@, 0, pos as int),
                        lines_between(data@, pos as int, e),
                    );
                    assert(emit_lines(lines_between(data@, 0, e)) == Some(pl + cl));
                    lemma_keys_of_lines_concat(pl, cl);
                    assert forall|k: Seq<char>| true implies #[trigger] global.count_of(k)
                        == count_occ(keys_of_lines(pl + cl), k) by {
                        crate::words::lemma_count_occ_concat(
                            keys_of_lines(pl),
                            keys_of_lines(cl),
                            k,
                        );
                    }
                    if i + 1 < n {
                        assert(chunks@[i as int].end == chunks@[i as int + 1].start);
                    } else {
                        assert(chunks@[i as int] == chunks@.last());
                    }
                }
                pos = c.end;
                i = i + 1;
            },
        }
    }
    proof {
        lemma_lines_split(data@, 0, pos as int);
        assert(raw_lines_from(data@, data@.len() as int) =~= Seq::<Seq<u8>>::empty());
        assert(lines_of(data@) =~= lines_between(data@, 0, pos as int));
    }
    Ok(global)
}

/// Merging per-chunk counts is commutative in effect: any two frequency
/// maps that count the same text — whatever chunk counts and merge orders
/// produced them — agree on every key.  `count_content` gives each of its
/// results the premise, with no mention of the requested chunk count.
pub proof fn lemma_counts_depend_on_data_alone(
    data: Seq<u8>,
    fm1: FrequencyMap,
    fm2: FrequencyMap,
)
    requires
        emit_lines(lines_of(data)) is Some,
        forall|k: Seq<char>|
            #[trigger] fm1.count_of(k) == count_occ(
                keys_of_lines(emit_lines(lines_of(data)).unwrap()),
                k,
            ),
        forall|k: Seq<char>|
            #[trigger] fm2.count_of(k) == count_occ(
                keys_of_lines(emit_lines(lines_of(data)).unwrap()),
                k,
            ),
    ensures
        forall|k: Seq<char>| #[trigger] fm1.count_of(k) == fm2.count_of(k),
{
}

/// Runs the whole pipeline on in-memory text: counts the words, sorts the
/// entries under the two-tier comparator, and renders one `key: count`
/// line per entry.  Fails, with `OtherIo`, exactly when a line of the text
/// is not valid UTF-8.
pub fn process_content(data: &Vec<u8>, requested: usize) -> (r: Result<String, WcError>)
    requires
        requested >= 1,
    ensures
        ({
            let el = emit_lines(lines_of(data@));
            match r {
                Ok(out) => el is Some && exists|es: Seq<(String, u64)>|
                    {
                        &&& out@ == rendered(es)
                        &&& sorted_adj(es)
                        &&& entries_wf(es)
                        &&& forall|k: Seq<char>| #[trigger] kcount(es, k) <= 1
                        &&& forall|k: Seq<char>|
                            #[trigger] ccount(es, k) == count_occ(
                                keys_of_lines(el.unwrap()),
                                k,
                            )
                    },
                Err(e) => el is None && e is OtherIo,
            }
        }),
{
    let fm = match count_content(data, requested) {
        Err(e) => {
            return Err(e);
        },
        Ok(fm) => fm,
    };
    let entries = fm.to_entries();
    let sorted = sort_entries(&entries);
    let out = render_entries(&sorted);
    proof {
        let el = emit_lines(lines_of(data@));
        assert forall|k: Seq<char>| true implies #[trigger] kcount(sorted@, k) <= 1 by {
            lemma_distinct_kcount(entries@, k);
        }
        assert(entries_wf(entries@));
        assert forall|k: Seq<char>| true implies #[trigger] ccount(sorted@, k) == count_occ(
            keys_of_lines(el.unwrap()),
            k,
        ) by {
            assert(ccount(entries@, k) == fm.count_of(k));
        }
        assert({
            &&& out@ == rendered(sorted@)
            &&& sorted_adj(sorted@)
            &&& entries_wf(sorted@)
            &&& forall|k: Seq<char>| #[trigger] kcount(sorted@, k) <= 1
            &&& forall|k: Seq<char>|
                #[trigger] ccount(sorted@, k) == count_occ(keys_of_lines(el.unwrap()), k)
        });
    }
    Ok(out)
}

} // verus!
