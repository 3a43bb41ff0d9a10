use vstd::prelude::*;
use vstd::slice::slice_subrange;
use crate::aggregate::{joined, lemma_pieces, merged_tables};
use crate::parser::find_byte;
use crate::record::{is_complete, records, summary, NEWLINE};

verus! {

/// `chunks` cut `data` into consecutive non-empty ranges that cover it, each
/// but the last ending just after a newline.
pub open spec fn is_partition(chunks: Seq<(usize, usize)>, data: Seq<u8>) -> bool {
    &&& chunks.len() == 0 <==> data.len() == 0
    &&& chunks.len() > 0 ==> chunks[0].0 == 0 && chunks.last().1 == data.len()
    &&& forall|i: int| 0 <= i < chunks.len() ==> (#[trigger] chunks[i]).0 < chunks[i].1
    &&& forall|i: int| 0 <= i < chunks.len() - 1 ==> (#[trigger] chunks[i]).1 == chunks[i + 1].0
    &&& forall|i: int| 0 <= i < chunks.len() - 1 ==> data[(#[trigger] chunks[i]).1 - 1] == NEWLINE
}

/// The bytes of each range.
pub open spec fn pieces(chunks: Seq<(usize, usize)>, data: Seq<u8>) -> Seq<Seq<u8>> {
    chunks.map_values(|c: (usize, usize)| data.subrange(c.0 as int, c.1 as int))
}

/// Cuts `data` into at most `threads` line-aligned ranges: each range starts
/// where the previous one ended and, but for the last, ends just after the
/// first newline at or after an equal share of the data.
pub fn plan_chunks(data: &[u8], threads: usize) -> (r: Vec<(usize, usize)>)
    requires
        threads >= 1,
    ensures
        is_partition(r@, data@),
        r@.len() <= threads,
{
    let len = data.len();
    let share = len / threads;
    let mut chunks: Vec<(usize, usize)> = Vec::new();
    let mut start: usize = 0;
    let mut i: usize = 1;
    while i < threads && start < len
        invariant
            len == data@.len(),
            share == len / threads,
            1 <= i <= threads,
            chunks@.len() < i,
            start <= len,
            chunks@.len() == 0 <==> start == 0,
            chunks@.len() > 0 ==> chunks@[0].0 == 0 && chunks@.last().1 == start,
            forall|j: int| 0 <= j < chunks@.len() ==> (#[trigger] chunks@[j]).0 < chunks@[j].1,
            forall|j: int| 0 <= j < chunks@.len() - 1 ==> (#[trigger] chunks@[j]).1 == chunks@[j + 1].0,
            forall|j: int| 0 <= j < chunks@.len() ==> data@[(#[trigger] chunks@[j]).1 - 1] == NEWLINE,
        decreases threads - i,
    {
        assert(i * share <= len) by (nonlinear_arith)
            requires
                share == len / threads,
                i < threads,
                threads >= 1,
        ;
        let guess = i * share;
        let from = if guess > start {
            guess
        } else {
            start
        };
        let rest = slice_subrange(data, from, len);
        match find_byte(NEWLINE, rest) {
            Some(off) => {
                let end = from + off + 1;
                assert(data@[end - 1] == rest@[off as int]);
                chunks.push((start, end));
                start = end;
            },
            None => {
                break;
            },
        }
        i += 1;
    }
    if start < len {
        chunks.push((start, len));
    }
    chunks
}

/// Each range of a partition of whole lines is whole lines, and together they
/// are the data.
#[verifier::rlimit(40)]
pub proof fn lemma_partition_pieces(chunks: Seq<(usize, usize)>, data: Seq<u8>)
    requires
        is_partition(chunks, data),
        is_complete(data),
    ensures
        joined(pieces(chunks, data)) == data,
        forall|i: int| 0 <= i < chunks.len() ==> is_complete(#[trigger] pieces(chunks, data)[i]),
    decreases chunks.len(),
{
    let ps = pieces(chunks, data);
    if chunks.len() == 0 {
        assert(data =~= Seq::<u8>::empty());
    } else {
        let n = chunks.len() - 1;
        let last = chunks[n];
        let front = data.subrange(0, last.0 as int);
        let cs = chunks.drop_last();
        assert(is_partition(cs, front)) by {
            if cs.len() > 0 {
                assert(cs.last().1 == last.0);
                assert forall|i: int| 0 <= i < cs.len() - 1 implies front[(#[trigger] cs[i]).1 - 1] == NEWLINE by {
                    assert(cs[i] == chunks[i]);
                    assert(chunks[i].1 <= chunks[i + 1].0) by {
                        assert(chunks[i + 1].0 < chunks[i + 1].1);
                    }
                    lemma_partition_ordered(chunks, i, n);
                }
            } else {
                assert(last.0 == 0);
            }
        }
        assert(is_complete(front)) by {
            if last.0 > 0 {
                assert(front.last() == data[chunks[n - 1].1 - 1]);
            }
        }
        lemma_partition_pieces(cs, front);
        assert(ps.drop_last() =~= pieces(cs, front)) by {
            assert forall|i: int| 0 <= i < cs.len() implies ps.drop_last()[i] == pieces(cs, front)[i] by {
                lemma_partition_ordered(chunks, i, n);
                assert(data.subrange(cs[i].0 as int, cs[i].1 as int) =~= front.subrange(cs[i].0 as int, cs[i].1 as int));
            }
        }
        assert(joined(ps) =~= data);
        assert forall|i: int| 0 <= i < chunks.len() implies is_complete(#[trigger] ps[i]) by {
            if i < n {
                assert(ps[i] == pieces(cs, front)[i]);
            } else {
                assert(ps[i].last() == data.last());
            }
        }
    }
}

/// The ranges of a partition come in increasing order.
proof fn lemma_partition_ordered(chunks: Seq<(usize, usize)>, i: int, j: int)
    requires
        forall|k: int| 0 <= k < chunks.len() ==> (#[trigger] chunks[k]).0 < chunks[k].1,
        forall|k: int| 0 <= k < chunks.len() - 1 ==> (#[trigger] chunks[k]).1 == chunks[k + 1].0,
        0 <= i < j < chunks.len(),
    ensures
        chunks[i].1 <= chunks[j].0,
    decreases j - i,
{
    if i + 1 < j {
        lemma_partition_ordered(chunks, i + 1, j);
    }
}

/// However many workers the data is planned for, merging the tables of the
/// planned ranges gives the table of the whole data.
pub proof fn lemma_any_thread_count(data: Seq<u8>, chunks: Seq<(usize, usize)>)
    requires
        is_complete(data),
        is_partition(chunks, data),
    ensures
        merged_tables(pieces(chunks, data)) == summary(records(data)),
{
    lemma_partition_pieces(chunks, data);
    lemma_pieces(pieces(chunks, data));
}

/// Relies on memchr::memrchr: the index of the last occurrence of `needle` in
/// `haystack`, or `None` when it does not occur.
#[verifier::external_body]
fn find_last_byte(needle: u8, haystack: &[u8]) -> (r: Option<usize>)
    ensures
        match r {
            Some(i) => {
                &&& i < haystack@.len()
                &&& haystack@[i as int] == needle
                &&& forall|j: int| i < j < haystack@.len() ==> haystack@[j] != needle
            },
            None => forall|j: int| 0 <= j < haystack@.len() ==> haystack@[j] != needle,
        },
{
    memchr::memrchr(needle, haystack)
}

/// Cuts a stream of bytes, as it is read, into chunks of whole lines.
pub struct ChunkDecoder;

impl ChunkDecoder {
    /// How many bytes at the front of `src` form whole lines, up to and
    /// including its last newline; `None` when it holds no newline yet. What
    /// follows that prefix is the start of the next chunk.
    pub fn decode(&self, src: &[u8]) -> (r: Option<usize>)
        ensures
            match r {
                Some(n) => {
                    &&& 1 <= n <= src@.len()
                    &&& is_complete(src@.subrange(0, n as int))
                    &&& forall|j: int| n <= j < src@.len() ==> src@[j] != NEWLINE
                },
                None => forall|j: int| 0 <= j < src@.len() ==> src@[j] != NEWLINE,
            },
    {
        let len = src.len();
        match find_last_byte(NEWLINE, src) {
            Some(index) => {
                assert(index < len);
                assert(src@.subrange(0, index + 1).last() == src@[index as int]);
                Some(index + 1)
            },
            None => None,
        }
    }
}

} // verus!
