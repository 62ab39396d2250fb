//! The chunk partitioner.
//!
//! A byte stream is cut into line-aligned chunks: from each start offset
//! the tentative end is `min(start + max_size, len - 1)`, advanced to the
//! first newline at or after it. The chunks partition `[0, len)` exactly,
//! and every chunk ends on a newline byte. A scan window that runs past
//! the end of the stream, or holds a non-ASCII byte, is a malformed input.
//!
//! The partition invariant — contiguous, non-overlapping, covering every
//! byte — is proved once and for all (`lemma_partition_coverage`), so no
//! runtime accounting check is needed.

use vstd::prelude::*;

use crate::AggError;

verus! {

/// A byte range of the input, both offsets inclusive.
#[derive(Clone, Copy, Debug, PartialEq, Eq, Structural)]
pub struct ChunkRange {
    pub start: usize,
    pub end: usize,
}

/// The first newline at or after `i`, or a malformed-input failure if a
/// non-ASCII byte stands before it or the stream ends first.
pub open spec fn newline_from(s: Seq<u8>, i: int) -> Result<int, AggError>
    decreases s.len() - i,
{
    if i < 0 || i >= s.len() {
        Err(AggError::MalformedInput)
    } else if s[i] > 127 {
        Err(AggError::MalformedInput)
    } else if s[i] == 10 {
        Ok(i)
    } else {
        newline_from(s, i + 1)
    }
}

pub proof fn lemma_newline_from(s: Seq<u8>, i: int)
    requires
        0 <= i <= s.len(),
        newline_from(s, i) is Ok,
    ensures
        i <= newline_from(s, i)->Ok_0 < s.len(),
        s[newline_from(s, i)->Ok_0] == 10,
    decreases s.len() - i,
{
    if i < s.len() && s[i] <= 127 && s[i] != 10 {
        lemma_newline_from(s, i + 1);
    }
}

/// The chunks from `start` on: tentative end `min(start + max, len - 1)`,
/// advanced to the next newline; the following chunk starts one past it.
pub open spec fn chunks_from(s: Seq<u8>, max: int, start: int) -> Result<Seq<ChunkRange>, AggError>
    decreases s.len() - start,
{
    if start < 0 || start >= s.len() {
        Ok(Seq::empty())
    } else {
        let tentative = if start + max < s.len() - 1 {
            start + max
        } else {
            s.len() - 1
        };
        match newline_from(s, tentative) {
            Err(e) => Err(e),
            Ok(end) => if end < start || end >= s.len() {
                Err(AggError::MalformedInput)
            } else {
                match chunks_from(s, max, end + 1) {
                    Err(e) => Err(e),
                    Ok(rest) => Ok(
                        seq![ChunkRange { start: start as usize, end: end as usize }] + rest,
                    ),
                }
            },
        }
    }
}

/// The partition of the whole stream.
pub open spec fn chunk_partition(s: Seq<u8>, max: int) -> Result<Seq<ChunkRange>, AggError> {
    chunks_from(s, max, 0)
}

/// Partition coverage: the chunks are contiguous from `start`, end at the
/// last byte of the stream, do not overlap, and each ends on a newline.
pub proof fn lemma_partition_coverage(s: Seq<u8>, max: int, start: int)
    requires
        0 <= start,
        max >= 0,
        s.len() <= usize::MAX,
        chunks_from(s, max, start) is Ok,
    ensures
        ({
            let cs = chunks_from(s, max, start)->Ok_0;
            &&& (cs.len() == 0 <==> start >= s.len())
            &&& (cs.len() > 0 ==> cs[0].start == start && cs[cs.len() - 1].end == s.len() - 1)
            &&& forall|i: int|
                0 <= i < cs.len() ==> (#[trigger] cs[i].start) <= cs[i].end < s.len()
                    && s[cs[i].end as int] == 10
            &&& forall|i: int| 0 < i < cs.len() ==> (#[trigger] cs[i].start) == cs[i - 1].end + 1
        }),
    decreases s.len() - start,
{
    if start < s.len() {
        let tentative = if start + max < s.len() - 1 {
            start + max
        } else {
            s.len() - 1
        };
        let end = newline_from(s, tentative)->Ok_0;
        lemma_newline_from(s, tentative);
        lemma_partition_coverage(s, max, end + 1);
        let rest = chunks_from(s, max, end + 1)->Ok_0;
        let cs = chunks_from(s, max, start)->Ok_0;
        assert(cs == seq![ChunkRange { start: start as usize, end: end as usize }] + rest);
        assert(cs[0].start == start && cs[0].end == end);
        assert(forall|i: int| 0 < i < cs.len() ==> cs[i] == rest[i - 1]);
        if rest.len() == 0 {
            assert(end + 1 >= s.len());
            assert(cs[cs.len() - 1].end == s.len() - 1);
        }
    }
}

/// The pending chunks, consumed destructively by workers. Any chunk may
/// go to any worker; the most recently appended chunk is returned first.
pub struct WorkQueue {
    items: Vec<ChunkRange>,
}

impl View for WorkQueue {
    type V = Seq<ChunkRange>;

    closed spec fn view(&self) -> Seq<ChunkRange> {
        self.items@
    }
}

impl WorkQueue {
    /// A queue holding the given chunks.
    pub fn load(chunks: Vec<ChunkRange>) -> (q: WorkQueue)
        ensures
            q@ == chunks@,
    {
        WorkQueue { items: chunks }
    }

    /// Removes and returns one chunk, or reports the queue empty.
    pub fn try_take(&mut self) -> (r: Option<ChunkRange>)
        ensures
            match r {
                Some(c) => old(self)@.len() > 0 && c == old(self)@.last() && final(self)@ == old(
                    self,
                )@.drop_last(),
                None => old(self)@.len() == 0 && final(self)@ == old(self)@,
            },
    {
        self.items.pop()
    }
}

/// Cuts the stream into line-aligned chunks of at most `max_size + 1`
/// bytes (one past the tentative end), exactly as `chunk_partition` says.
pub fn partition_chunks(bytes: &[u8], max_size: usize) -> (r: Result<Vec<ChunkRange>, AggError>)
    ensures
        match r {
            Ok(cs) => chunk_partition(bytes@, max_size as int) == Ok::<Seq<ChunkRange>, AggError>(
                cs@,
            ),
            Err(e) => chunk_partition(bytes@, max_size as int) == Err::<Seq<ChunkRange>, AggError>(
                e,
            ),
        },
{
    let n = bytes.len();
    let mut out: Vec<ChunkRange> = Vec::new();
    let mut start: usize = 0;
    proof {
        assert(out@ =~= Seq::<ChunkRange>::empty());
    }
    while start < n
        invariant
            n == bytes@.len(),
            start <= n || start == n,
            chunks_from(bytes@, max_size as int, 0) == (match chunks_from(
                bytes@,
                max_size as int,
                start as int,
            ) {
                Ok(rest) => Ok::<Seq<ChunkRange>, AggError>(out@ + rest),
                Err(e) => Err::<Seq<ChunkRange>, AggError>(e),
            }),
        decreases n - start,
    {
        let tentative: usize = if n - 1 - start > max_size {
            start + max_size
        } else {
            n - 1
        };
        let mut e: usize = tentative;
        while e < n && bytes[e] <= 127 && bytes[e] != 10
            invariant
                n == bytes@.len(),
                tentative <= e <= n,
                newline_from(bytes@, tentative as int) == newline_from(bytes@, e as int),
            decreases n - e,
        {
            e += 1;
        }
        if e >= n || bytes[e] > 127 {
            proof {
                assert(newline_from(bytes@, e as int) == Err::<int, AggError>(
                    AggError::MalformedInput,
                ));
            }
            return Err(AggError::MalformedInput);
        }
        proof {
            assert(newline_from(bytes@, tentative as int) == Ok::<int, AggError>(e as int));
        }
        let ghost out_pre = out@;
        out.push(ChunkRange { start, end: e });
        proof {
            let s = bytes@;
            let mi = max_size as int;
            let c = ChunkRange { start, end: e };
            let spec_tent: int = if start + mi < s.len() - 1 {
                start + mi
            } else {
                s.len() - 1
            };
            assert(spec_tent == tentative as int);
            assert(chunks_from(s, mi, start as int) == (match chunks_from(s, mi, e as int + 1) {
                Ok(rest2) => Ok::<Seq<ChunkRange>, AggError>(seq![c] + rest2),
                Err(err) => Err::<Seq<ChunkRange>, AggError>(err),
            }));
            match chunks_from(s, mi, e as int + 1) {
                Ok(rest2) => {
                    assert(out_pre + (seq![c] + rest2) =~= out@ + rest2);
                },
                Err(_) => {},
            }
        }
        start = e + 1;
    }
    proof {
        assert(chunks_from(bytes@, max_size as int, start as int) == Ok::<
            Seq<ChunkRange>,
            AggError,
        >(Seq::empty()));
        assert(out@ + Seq::<ChunkRange>::empty() =~= out@);
    }
    Ok(out)
}

} // verus!
