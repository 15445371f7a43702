//! The chunk reader: turns a byte source read in fixed-size blocks into a
//! forward-only sequence of chunks, each ending exactly at a record
//! boundary.  A partial trailing record is carried over to the next block,
//! so no record is ever split across chunks (as long as each record fits in
//! one block).

use crate::measurement::{contains_byte, RECORD_TERMINATOR};
use vstd::prelude::*;

verus! {

/// Index of the last occurrence of `b` in `s` (meaningful only when one is
/// present).
pub open spec fn last_index_of(s: Seq<u8>, b: u8) -> int
    decreases s.len(),
{
    if s.len() == 0 {
        0
    } else if s.last() == b {
        s.len() - 1
    } else {
        last_index_of(s.drop_last(), b)
    }
}

pub proof fn lemma_last_index_of(s: Seq<u8>, b: u8)
    requires
        contains_byte(s, b),
    ensures
        0 <= last_index_of(s, b) < s.len(),
        s[last_index_of(s, b)] == b,
        forall|j: int| last_index_of(s, b) < j < s.len() ==> s[j] != b,
    decreases s.len(),
{
    if s.last() != b {
        let t = s.drop_last();
        assert(contains_byte(t, b)) by {
            let i = choose|i: int| 0 <= i < s.len() && #[trigger] s[i] == b;
            assert(t[i] == s[i]);
        }
        lemma_last_index_of(t, b);
        assert(s[last_index_of(s, b)] == t[last_index_of(t, b)]);
        assert forall|j: int| last_index_of(s, b) < j < s.len() implies s[j] != b by {
            if j < s.len() - 1 {
                assert(t[j] == s[j]);
            }
        }
    }
}

/// The part of the pending bytes that the next chunk consists of:
/// everything up to the last record terminator, or everything when there is
/// no terminator at all.
pub open spec fn chunk_of(data: Seq<u8>) -> Seq<u8> {
    if contains_byte(data, RECORD_TERMINATOR) {
        data.take(last_index_of(data, RECORD_TERMINATOR))
    } else {
        data
    }
}

/// The partial trailing record carried over to the next block.
pub open spec fn carry_of(data: Seq<u8>) -> Seq<u8> {
    if contains_byte(data, RECORD_TERMINATOR) {
        data.skip(last_index_of(data, RECORD_TERMINATOR) + 1)
    } else {
        Seq::empty()
    }
}

/// The chunk reader's state: the bytes of a partial trailing record left
/// over by the previous block.
pub struct ChunkReader {
    pub overflow: Vec<u8>,
}

impl View for ChunkReader {
    type V = Seq<u8>;

    open spec fn view(&self) -> Seq<u8> {
        self.overflow@
    }
}

impl ChunkReader {
    pub fn new() -> (r: Self)
        ensures
            r@ == Seq::<u8>::empty(),
    {
        let r = ChunkReader { overflow: Vec::new() };
        proof {
            assert(r@ =~= Seq::<u8>::empty());
        }
        r
    }

    /// Feed the next block of bytes read from the source and produce the
    /// next chunk: the pending bytes up to their last record terminator.
    /// The terminator itself is dropped; what follows it becomes the new
    /// carry.  When no terminator is pending the whole buffer is emitted,
    /// which only happens when one record outgrows the block size.
    pub fn push_block(&mut self, block: &[u8]) -> (chunk: Vec<u8>)
        ensures
            chunk@ == chunk_of(old(self)@ + block@),
            final(self)@ == carry_of(old(self)@ + block@),
    {
        let ghost gdata = old(self)@ + block@;
        let mut data: Vec<u8> = Vec::new();
        data.extend_from_slice(self.overflow.as_slice());
        data.extend_from_slice(block);
        proof {
            assert(data@ =~= gdata);
        }
        let n = data.len();
        let mut i: usize = n;
        while i > 0 && data[i - 1] != RECORD_TERMINATOR
            invariant
                0 <= i <= n == data@.len(),
                forall|j: int| i <= j < n ==> data@[j] != RECORD_TERMINATOR,
            decreases i,
        {
            i = i - 1;
        }
        if i == 0 {
            proof {
                assert(!contains_byte(gdata, RECORD_TERMINATOR)) by {
                    if contains_byte(gdata, RECORD_TERMINATOR) {
                        let t = choose|t: int|
                            0 <= t < gdata.len() && #[trigger] gdata[t] == RECORD_TERMINATOR;
                        assert(data@[t] == RECORD_TERMINATOR);
                    }
                }
            }
            self.overflow = Vec::new();
            proof {
                assert(self@ =~= carry_of(gdata));
            }
            data
        } else {
            proof {
                assert(data@[i - 1] == RECORD_TERMINATOR);
                assert(contains_byte(gdata, RECORD_TERMINATOR));
                lemma_last_index_of(gdata, RECORD_TERMINATOR);
                let li = last_index_of(gdata, RECORD_TERMINATOR);
                assert(li == i - 1) by {
                    assert(!(li < i - 1) && !(i - 1 < li));
                }
            }
            self.overflow = vstd::slice::slice_to_vec(
                vstd::slice::slice_subrange(data.as_slice(), i, n),
            );
            let mut chunk = data;
            chunk.truncate(i - 1);
            proof {
                assert(chunk@ =~= chunk_of(gdata));
                assert(self@ =~= carry_of(gdata));
            }
            chunk
        }
    }

    /// The source is exhausted: the pending partial record, if any, becomes
    /// the final chunk.
    pub fn finish(self) -> (r: Option<Vec<u8>>)
        ensures
            self@.len() > 0 ==> (r matches Some(c) && c@ == self@),
            self@.len() == 0 ==> r is None,
    {
        if self.overflow.len() > 0 {
            Some(self.overflow)
        } else {
            None
        }
    }
}

/// The views of a sequence of chunk buffers.
pub open spec fn chunk_views(cs: Seq<Vec<u8>>) -> Seq<Seq<u8>> {
    cs.map_values(|c: Vec<u8>| c@)
}

/// The byte source that a sequence of chunks stands for: the chunks in
/// order, with one record terminator put back after every chunk whose
/// terminator the reader dropped.
pub open spec fn reconstruct(cs: Seq<Seq<u8>>, seps: Seq<bool>) -> Seq<u8>
    decreases cs.len(),
{
    if cs.len() == 0 {
        Seq::empty()
    } else {
        reconstruct(cs.drop_last(), seps.drop_last()) + cs.last() + (if seps.last() {
            seq![RECORD_TERMINATOR]
        } else {
            Seq::<u8>::empty()
        })
    }
}

/// Total length of a sequence of chunks.
pub open spec fn sum_lens(cs: Seq<Seq<u8>>) -> int
    decreases cs.len(),
{
    if cs.len() == 0 {
        0
    } else {
        sum_lens(cs.drop_last()) + cs.last().len()
    }
}

/// The chunks that reading `rest` in blocks of `bs` bytes produces, with
/// `carry` pending from an earlier block: each block's pending bytes are cut
/// at their last record terminator, and a final partial record becomes a
/// chunk of its own.
pub open spec fn chunk_split(carry: Seq<u8>, rest: Seq<u8>, bs: int) -> Seq<Seq<u8>>
    decreases rest.len(),
    when bs >= 1
{
    if rest.len() == 0 {
        if carry.len() > 0 {
            seq![carry]
        } else {
            Seq::empty()
        }
    } else {
        let step = if rest.len() < bs {
            rest.len() as int
        } else {
            bs
        };
        let data = carry + rest.take(step);
        seq![chunk_of(data)] + chunk_split(carry_of(data), rest.skip(step), bs)
    }
}

/// Split `input` into chunks exactly as reading it in blocks of
/// `block_size` bytes would: every chunk ends at a record boundary, and
/// putting the dropped terminators back reproduces the input, byte for
/// byte.
#[verifier::rlimit(80)]
pub fn read_as_chunks(input: &[u8], block_size: usize) -> (chunks: Vec<Vec<u8>>)
    requires
        block_size >= 1,
    ensures
        chunk_views(chunks@) == chunk_split(Seq::empty(), input@, block_size as int),
        exists|seps: Seq<bool>|
            seps.len() == chunks@.len() && #[trigger] reconstruct(chunk_views(chunks@), seps)
                == input@,
        sum_lens(chunk_views(chunks@)) <= input@.len(),
{
    let n = input.len();
    let mut reader = ChunkReader::new();
    let mut chunks: Vec<Vec<u8>> = Vec::new();
    let ghost mut seps: Seq<bool> = Seq::empty();
    let mut pos: usize = 0;
    let ghost full = chunk_split(Seq::<u8>::empty(), input@, block_size as int);
    proof {
        assert(chunk_views(chunks@) =~= Seq::<Seq<u8>>::empty());
        assert(reconstruct(Seq::empty(), seps) + reader@ =~= input@.take(0));
        assert(input@.skip(0) =~= input@);
        assert(Seq::<Seq<u8>>::empty() + chunk_split(reader@, input@.skip(0), block_size as int)
            =~= chunk_split(reader@, input@.skip(0), block_size as int));
    }
    while pos < n
        invariant
            block_size >= 1,
            n == input@.len(),
            0 <= pos <= n,
            seps.len() == chunks@.len(),
            full == chunk_split(Seq::<u8>::empty(), input@, block_size as int),
            chunk_views(chunks@) + chunk_split(reader@, input@.skip(pos as int), block_size as int)
                == full,
            reconstruct(chunk_views(chunks@), seps) + reader@ == input@.take(
                pos as int,
            ),
            sum_lens(chunk_views(chunks@)) + reader@.len() <= pos,
        decreases n - pos,
    {
        let end = if n - pos < block_size {
            n
        } else {
            pos + block_size
        };
        let block = vstd::slice::slice_subrange(input, pos, end);
        let ghost data = reader@ + block@;
        let ghost cs0 = chunk_views(chunks@);
        let ghost carry0 = reader@;
        let chunk = reader.push_block(block);
        chunks.push(chunk);
        proof {
            let seps0 = seps;
            seps = seps.push(contains_byte(data, RECORD_TERMINATOR));
            let cs1 = chunk_views(chunks@);
            assert(cs1 =~= cs0.push(chunk_of(data)));
            assert(cs1.drop_last() =~= cs0);
            assert(seps.drop_last() =~= seps0);
            if contains_byte(data, RECORD_TERMINATOR) {
                lemma_last_index_of(data, RECORD_TERMINATOR);
                assert(chunk_of(data) + seq![RECORD_TERMINATOR] + carry_of(data) =~= data);
            } else {
                assert(chunk_of(data) + carry_of(data) =~= data);
            }
            assert(reconstruct(cs1, seps) + reader@ =~= reconstruct(cs0, seps.drop_last())
                + data);
            assert(reconstruct(cs0, seps.drop_last()) + data =~= input@.take(pos as int)
                + block@);
            assert(input@.take(pos as int) + block@ =~= input@.take(end as int));
            let rest = input@.skip(pos as int);
            let step = if rest.len() < block_size as int {
                rest.len() as int
            } else {
                block_size as int
            };
            assert(step == end - pos);
            assert(rest.take(step) =~= block@);
            assert(carry0 + rest.take(step) =~= data);
            assert(rest.skip(step) =~= input@.skip(end as int));
            assert(chunk_split(carry0, rest, block_size as int) == seq![chunk_of(data)]
                + chunk_split(carry_of(data), input@.skip(end as int), block_size as int));
            assert(cs0 + (seq![chunk_of(data)] + chunk_split(
                carry_of(data),
                input@.skip(end as int),
                block_size as int,
            )) =~= cs1 + chunk_split(carry_of(data), input@.skip(end as int), block_size as int));
        }
        pos = end;
    }
    proof {
        assert(input@.take(n as int) =~= input@);
        assert(input@.skip(n as int) =~= Seq::<u8>::empty());
    }
    match reader.finish() {
        Some(last) => {
            let ghost cs0 = chunk_views(chunks@);
            let ghost carry0 = reader@;
            chunks.push(last);
            proof {
                let seps0 = seps;
                seps = seps.push(false);
                let cs1 = chunk_views(chunks@);
                assert(cs1 =~= cs0.push(carry0));
                assert(cs1.drop_last() =~= cs0);
                assert(seps.drop_last() =~= seps0);
                assert(reconstruct(cs1, seps) =~= reconstruct(cs0, seps0) + carry0);
                assert(reconstruct(cs1, seps) =~= input@);
                assert(chunk_split(carry0, Seq::<u8>::empty(), block_size as int) == seq![carry0]);
                assert(cs0 + seq![carry0] =~= cs1);
            }
        },
        None => {
            proof {
                assert(reconstruct(chunk_views(chunks@), seps) =~= input@);
                assert(chunk_split(reader@, Seq::<u8>::empty(), block_size as int)
                    =~= Seq::<Seq<u8>>::empty());
                assert(chunk_views(chunks@) + Seq::<Seq<u8>>::empty() =~= chunk_views(chunks@));
            }
        },
    }
    chunks
}

} // verus!
