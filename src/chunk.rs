//! Cutting a stream of blocks into chunks that hold only whole records.
use vstd::prelude::*;
use crate::aggregate::{add_text, add_chunks, ends_in_newline, lemma_add_text_concat};
use crate::stats::TempStats;
use crate::parse::NEWLINE;

verus! {

/// Position of the last `b` in `s`, or -1 when there is none.
pub open spec fn last_index(s: Seq<u8>, b: u8) -> int
    decreases s.len(),
{
    if s.len() == 0 {
        -1
    } else if s.last() == b {
        s.len() - 1
    } else {
        last_index(s.drop_last(), b)
    }
}

pub proof fn lemma_last_index(s: Seq<u8>, b: u8)
    ensures
        -1 <= last_index(s, b) < s.len(),
        last_index(s, b) >= 0 ==> s[last_index(s, b)] == b,
        forall|j: int| last_index(s, b) < j < s.len() ==> s[j] != b,
    decreases s.len(),
{
    if s.len() > 0 && s.last() != b {
        let t = s.drop_last();
        lemma_last_index(t, b);
        assert forall|j: int| last_index(s, b) < j < s.len() implies s[j] != b by {
            if j < t.len() {
                assert(t[j] == s[j]);
            }
        }
    }
}

/// One step of the boundary repair: the carried-over bytes and the new block
/// are joined; everything up to the last newline is published, the rest is
/// carried on.
pub open spec fn repair_step(leftover: Seq<u8>, block: Seq<u8>) -> (Option<Seq<u8>>, Seq<u8>) {
    let c = leftover + block;
    let p = last_index(c, 10);
    if p >= 0 {
        (Some(c.subrange(0, p + 1)), c.subrange(p + 1, c.len() as int))
    } else {
        (None, c)
    }
}

/// The chunks published while reading `blocks` with `leftover` carried in,
/// the non-empty rest included as the last chunk at the end of the stream.
pub open spec fn chunks_of_run(leftover: Seq<u8>, blocks: Seq<Seq<u8>>) -> Seq<Seq<u8>>
    decreases blocks.len(),
{
    if blocks.len() == 0 {
        if leftover.len() > 0 {
            seq![leftover]
        } else {
            Seq::empty()
        }
    } else {
        let (c, rest) = repair_step(leftover, blocks[0]);
        let tail = chunks_of_run(rest, blocks.drop_first());
        match c {
            Some(x) => seq![x] + tail,
            None => tail,
        }
    }
}

/// Chunking changes nothing that can be observed: the chunks joined are the
/// bytes read, every chunk but the last ends in a newline, and aggregating
/// chunk after chunk gives the totals of the whole text.
pub proof fn lemma_chunking_is_transparent(
    m: Map<Seq<u8>, TempStats>,
    leftover: Seq<u8>,
    blocks: Seq<Seq<u8>>,
)
    ensures
        chunks_of_run(leftover, blocks).flatten() == leftover + blocks.flatten(),
        forall|i: int|
            0 <= i < chunks_of_run(leftover, blocks).len() - 1 ==> ends_in_newline(
                #[trigger] chunks_of_run(leftover, blocks)[i],
            ),
        add_chunks(m, chunks_of_run(leftover, blocks)) == add_text(m, leftover + blocks.flatten()),
    decreases blocks.len(),
{
    let cs = chunks_of_run(leftover, blocks);
    if blocks.len() == 0 {
        assert(leftover + blocks.flatten() =~= leftover);
        if leftover.len() > 0 {
            assert(cs.drop_first() =~= Seq::<Seq<u8>>::empty());
            assert(cs.flatten() == cs[0] + cs.drop_first().flatten());
            assert(cs.flatten() =~= leftover);
            assert(add_chunks(m, cs) == add_chunks(add_text(m, leftover), Seq::<Seq<u8>>::empty()));
        } else {
            assert(add_text(m, leftover) == m);
        }
    } else {
        let c = leftover + blocks[0];
        let (x, rest) = repair_step(leftover, blocks[0]);
        let bs = blocks.drop_first();
        let tail = chunks_of_run(rest, bs);
        lemma_chunking_is_transparent(m, rest, bs);
        assert(blocks.flatten() == blocks[0] + bs.flatten());
        assert(leftover + blocks.flatten() =~= c + bs.flatten());
        let p = last_index(c, 10);
        lemma_last_index(c, 10);
        if p >= 0 {
            let h = c.subrange(0, p + 1);
            assert(cs == seq![h] + tail);
            assert(cs[0] == h);
            assert(cs.drop_first() =~= tail);
            assert(c =~= h + rest);
            assert(cs.flatten() == h + tail.flatten());
            assert(cs.flatten() =~= leftover + blocks.flatten());
            assert forall|i: int| 0 <= i < cs.len() - 1 implies ends_in_newline(#[trigger] cs[i]) by {
                if i > 0 {
                    assert(cs[i] == tail[i - 1]);
                }
            }
            lemma_chunking_is_transparent(add_text(m, h), rest, bs);
            lemma_add_text_concat(m, h, rest + bs.flatten());
            assert(h + (rest + bs.flatten()) =~= c + bs.flatten());
        } else {
            assert(cs == tail);
        }
    }
}

/// Carries the bytes after the last newline from one block to the next.
pub struct ChunkSplitter {
    leftover: Vec<u8>,
}

impl ChunkSplitter {
    /// The bytes read but not yet published.
    pub closed spec fn pending(&self) -> Seq<u8> {
        self.leftover@
    }

    pub fn new() -> (r: ChunkSplitter)
        ensures
            r.pending() == Seq::<u8>::empty(),
    {
        ChunkSplitter { leftover: Vec::new() }
    }

    /// Takes the next block read from the stream. Returns the chunk up to and
    /// including the last newline seen so far, or `None` when the bytes held
    /// contain no newline yet.
    pub fn push_block(&mut self, block: &[u8]) -> (r: Option<Vec<u8>>)
        ensures
            (match r {
                Some(c) => Some(c@),
                None => None,
            }) == repair_step(old(self).pending(), block@).0,
            final(self).pending() == repair_step(old(self).pending(), block@).1,
    {
        let mut combined: Vec<u8> = Vec::new();
        std::mem::swap(&mut combined, &mut self.leftover);
        let ghost c0 = combined@;
        combined.extend_from_slice(block);
        let ghost c = combined@;
        assert(c =~= c0 + block@);
        let mut i: usize = combined.len();
        while i > 0 && combined[i - 1] != NEWLINE
            invariant
                i <= combined@.len(),
                combined@ == c,
                forall|j: int| i <= j < c.len() ==> c[j] != 10,
            decreases i,
        {
            i = i - 1;
        }
        proof {
            lemma_last_index(c, 10);
        }
        if i == 0 {
            assert(last_index(c, 10) == -1);
            self.leftover = combined;
            None
        } else {
            assert(last_index(c, 10) == i - 1);
            let rest = combined.split_off(i);
            self.leftover = rest;
            Some(combined)
        }
    }

    /// Ends the stream: the bytes still held, if any, form the last chunk.
    pub fn finish(self) -> (r: Option<Vec<u8>>)
        ensures
            match r {
                Some(c) => self.pending().len() > 0 && c@ == self.pending(),
                None => self.pending().len() == 0,
            },
    {
        if self.leftover.len() > 0 {
            Some(self.leftover)
        } else {
            None
        }
    }
}

} // verus!
