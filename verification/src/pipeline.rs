//! The whole pipeline on one byte stream: partition, scan, render.

use vstd::prelude::*;
use vstd::slice::slice_subrange;

use crate::part::{chunk_partition, lemma_partition_coverage, partition_chunks, ChunkRange};
use crate::render::{is_render_of, render};
use crate::scan::{
    clean_state, lemma_clean_after_newline, lemma_scan_from_concat, scan_chunk, scan_from,
    ScanState,
};
use crate::table::{empty_agg, LocalAgg};
use crate::AggError;

verus! {

/// The aggregate of a whole stream: the partition must succeed, and then
/// the scan of every byte from a fresh state. Chunk sizes do not appear:
/// the result is a function of the bytes alone.
pub open spec fn file_agg(s: Seq<u8>, max: int) -> Result<Map<Seq<u8>, Seq<u64>>, AggError> {
    match chunk_partition(s, max) {
        Err(e) => Err(e),
        Ok(_) => match scan_from(clean_state(empty_agg()), s) {
            Ok(st) => Ok(st.agg),
            Err(e) => Err(e),
        },
    }
}

/// The byte offset where chunk `i` begins: zero, or one past the end of
/// the chunk before it.
pub open spec fn chunk_pos(cs: Seq<ChunkRange>, i: int) -> int {
    if i <= 0 {
        0
    } else {
        cs[i - 1].end + 1
    }
}

/// Runs the pipeline on a byte stream, single-threaded: partitions it,
/// scans chunk after chunk into one aggregate map, renders the result.
/// The output is a function of the bytes alone — any chunk size gives
/// byte-for-byte the same answer.
pub fn run(bytes: &[u8], max_size: usize) -> (r: Result<Vec<u8>, AggError>)
    ensures
        match r {
            Ok(out) => file_agg(bytes@, max_size as int) matches Ok(m) && is_render_of(out@, m),
            Err(e) => file_agg(bytes@, max_size as int) == Err::<Map<Seq<u8>, Seq<u64>>, AggError>(
                e,
            ),
        },
{
    let n_bytes = bytes.len();
    let chunks = match partition_chunks(bytes, max_size) {
        Ok(cs) => cs,
        Err(e) => {
            return Err(e);
        },
    };
    proof {
        lemma_partition_coverage(bytes@, max_size as int, 0);
    }
    let mut agg = LocalAgg::new();
    let n_chunks = chunks.len();
    let ghost cs = chunks@;
    let ghost st0 = clean_state(empty_agg());
    let mut i: usize = 0;
    proof {
        assert(bytes@.take(0) =~= Seq::<u8>::empty());
        assert(scan_from(st0, bytes@.take(0)) == Ok::<ScanState, AggError>(clean_state(agg@)));
    }
    while i < n_chunks
        invariant
            n_bytes == bytes@.len(),
            n_chunks == cs.len(),
            cs == chunks@,
            i <= n_chunks,
            st0 == clean_state(empty_agg()),
            chunk_partition(bytes@, max_size as int) == Ok::<Seq<ChunkRange>, AggError>(cs),
            agg.wf(),
            0 <= chunk_pos(cs, i as int) <= n_bytes,
            agg.records_model() <= chunk_pos(cs, i as int),
            scan_from(st0, bytes@.take(chunk_pos(cs, i as int))) == Ok::<ScanState, AggError>(
                clean_state(agg@),
            ),
        decreases n_chunks - i,
    {
        proof {
            lemma_partition_coverage(bytes@, max_size as int, 0);
            assert(cs[i as int].start <= cs[i as int].end < n_bytes);
            assert(cs[i as int].start == chunk_pos(cs, i as int));
        }
        let c = chunks[i];
        let ghost pos = chunk_pos(cs, i as int);
        let ghost pre = agg@;
        let chunk_slice = slice_subrange(bytes, c.start, c.end + 1);
        proof {
            assert(usize::MAX <= u64::MAX);
            assert(agg.records_model() + chunk_slice@.len() <= u64::MAX);
        }
        let ghost chunk_seq = chunk_slice@;
        match scan_chunk(&mut agg, chunk_slice) {
            Ok(_) => {},
            Err(e) => {
                proof {
                    lemma_scan_from_concat(st0, bytes@.take(pos), chunk_seq);
                    assert(bytes@.take(pos) + chunk_seq =~= bytes@.take(c.end + 1));
                    lemma_scan_from_concat(st0, bytes@.take(c.end + 1), bytes@.skip(c.end + 1));
                    assert(bytes@.take(c.end + 1) + bytes@.skip(c.end + 1) =~= bytes@);
                    assert(scan_from(st0, bytes@) == Err::<ScanState, AggError>(e));
                }
                return Err(e);
            },
        }
        proof {
            lemma_scan_from_concat(st0, bytes@.take(pos), chunk_seq);
            assert(bytes@.take(pos) + chunk_seq =~= bytes@.take(c.end + 1));
            assert(chunk_seq.len() > 0);
            assert(chunk_seq.last() == bytes@[c.end as int]);
            assert(chunk_seq.last() == 10u8);
            lemma_clean_after_newline(clean_state(pre), chunk_seq);
            assert(scan_from(st0, bytes@.take(c.end + 1)) == Ok::<ScanState, AggError>(
                clean_state(agg@),
            ));
            assert(chunk_pos(cs, i as int + 1) == c.end + 1);
        }
        i += 1;
    }
    proof {
        if n_chunks == 0 {
            assert(n_bytes == 0);
            assert(bytes@.take(0) =~= bytes@);
        } else {
            lemma_partition_coverage(bytes@, max_size as int, 0);
            assert(cs[n_chunks - 1].end == n_bytes - 1);
            assert(bytes@.take(n_bytes as int) =~= bytes@);
        }
        assert(scan_from(st0, bytes@) == Ok::<ScanState, AggError>(clean_state(agg@)));
    }
    let out = render(agg);
    Ok(out)
}

} // verus!
