//! The totals one worker builds, how the coordinator combines them, and the
//! whole computation run on one thread.
use vstd::prelude::*;
use vstd::slice::slice_subrange;
use crate::aggregate::{aggregate_chunk, add_text, totals_wf, lemma_add_text_concat};
use crate::chunk::{ChunkSplitter, repair_step, last_index, lemma_last_index};
use crate::merge::{join_totals, merge_into};
use crate::order::{sorted_entries, strictly_sorted, lists_totals};
use crate::report::{render_report, report_text};
use crate::stats::{TempStats, MAX_COUNT};
use crate::table::{StatsTable, table_contents, table_new};

verus! {

/// A table together with the number of input bytes it was built from. No
/// count can exceed that number, which keeps every accumulator in range.
pub struct Totals {
    table: StatsTable,
    bytes_seen: u64,
}

impl Totals {
    pub closed spec fn contents(&self) -> Map<Seq<u8>, TempStats> {
        table_contents(self.table)
    }

    pub closed spec fn bytes(&self) -> nat {
        self.bytes_seen as nat
    }

    pub closed spec fn wf(&self) -> bool {
        &&& totals_wf(table_contents(self.table))
        &&& self.bytes_seen <= MAX_COUNT
        &&& forall|k: Seq<u8>| #[trigger] table_contents(self.table).contains_key(k)
            ==> table_contents(self.table)[k].count <= self.bytes_seen
    }

    pub fn new() -> (r: Totals)
        ensures
            r.wf(),
            r.contents() == Map::<Seq<u8>, TempStats>::empty(),
            r.bytes() == 0,
    {
        Totals { table: table_new(), bytes_seen: 0 }
    }

    /// The number of input bytes added so far.
    pub fn bytes_seen(&self) -> (r: u64)
        ensures
            r == self.bytes(),
    {
        self.bytes_seen
    }

    /// Adds every record of `chunk`. Refuses, changing nothing, when the bytes
    /// seen would exceed `MAX_COUNT`.
    pub fn add_chunk(&mut self, chunk: &[u8]) -> (r: bool)
        requires
            old(self).wf(),
        ensures
            final(self).wf(),
            r == (old(self).bytes() + chunk@.len() <= MAX_COUNT),
            r ==> final(self).contents() == add_text(old(self).contents(), chunk@)
                && final(self).bytes() == old(self).bytes() + chunk@.len(),
            !r ==> *final(self) == *old(self),
    {
        if chunk.len() as u64 > MAX_COUNT - self.bytes_seen {
            return false;
        }
        aggregate_chunk(&mut self.table, chunk);
        self.bytes_seen = self.bytes_seen + chunk.len() as u64;
        true
    }

    /// Merges `other` into these totals. Refuses, changing nothing, when the
    /// bytes seen together would exceed `MAX_COUNT`.
    pub fn absorb(&mut self, other: Totals) -> (r: bool)
        requires
            old(self).wf(),
            other.wf(),
        ensures
            final(self).wf(),
            r == (old(self).bytes() + other.bytes() <= MAX_COUNT),
            r ==> final(self).contents() == join_totals(old(self).contents(), other.contents())
                && final(self).bytes() == old(self).bytes() + other.bytes(),
            !r ==> *final(self) == *old(self),
    {
        if other.bytes_seen > MAX_COUNT - self.bytes_seen {
            return false;
        }
        merge_into(&mut self.table, other.table);
        self.bytes_seen = self.bytes_seen + other.bytes_seen;
        true
    }

    /// The totals in increasing byte order of their keys.
    pub fn into_sorted(self) -> (r: Vec<(Vec<u8>, TempStats)>)
        requires
            self.wf(),
        ensures
            strictly_sorted(r@),
            lists_totals(r@, self.contents()),
            forall|i: int| 0 <= i < r@.len() ==> (#[trigger] r@[i]).1.wf(),
    {
        let ghost m = self.contents();
        let r = sorted_entries(self.table);
        assert forall|i: int| 0 <= i < r@.len() implies (#[trigger] r@[i]).1.wf() by {
            assert(m.contains_key(r@[i].0@));
        }
        r
    }

    /// The report line of these totals.
    pub fn report(self) -> (r: Vec<u8>)
        requires
            self.wf(),
        ensures
            exists|es: Seq<(Vec<u8>, TempStats)>|
                strictly_sorted(es) && lists_totals(es, self.contents()) && r@ == report_text(es),
    {
        let es = self.into_sorted();
        render_report(&es)
    }
}

/// The join of the totals of a sequence of parts, last part first.
pub open spec fn join_parts(ps: Seq<Totals>) -> Map<Seq<u8>, TempStats>
    decreases ps.len(),
{
    if ps.len() == 0 {
        Map::empty()
    } else {
        join_totals(join_parts(ps.drop_first()), ps[0].contents())
    }
}

pub open spec fn bytes_total(ps: Seq<Totals>) -> int
    decreases ps.len(),
{
    if ps.len() == 0 {
        0
    } else {
        bytes_total(ps.drop_first()) + ps[0].bytes()
    }
}

proof fn lemma_bytes_total_suffix(ps: Seq<Totals>, j: int)
    requires
        0 <= j <= ps.len(),
    ensures
        bytes_total(ps.subrange(j, ps.len() as int)) <= bytes_total(ps),
        bytes_total(ps.subrange(j, ps.len() as int)) >= 0,
    decreases j,
{
    if j == 0 {
        assert(ps.subrange(0, ps.len() as int) =~= ps);
        lemma_bytes_total_nonneg(ps);
    } else {
        lemma_bytes_total_suffix(ps.drop_first(), j - 1);
        assert(ps.drop_first().subrange(j - 1, ps.len() - 1) =~= ps.subrange(j, ps.len() as int));
    }
}

proof fn lemma_bytes_total_nonneg(ps: Seq<Totals>)
    ensures
        bytes_total(ps) >= 0,
    decreases ps.len(),
{
    if ps.len() > 0 {
        lemma_bytes_total_nonneg(ps.drop_first());
    }
}

/// Combines the workers' totals into one. Returns `None` when together they
/// were built from more than `MAX_COUNT` bytes.
pub fn combine(parts: Vec<Totals>) -> (r: Option<Totals>)
    requires
        forall|i: int| 0 <= i < parts@.len() ==> (#[trigger] parts@[i]).wf(),
    ensures
        r is Some <==> bytes_total(parts@) <= MAX_COUNT,
        r matches Some(t) ==> t.wf() && t.contents() == join_parts(parts@),
{
    let ghost all = parts@;
    let mut rest = parts;
    let mut acc = Totals::new();
    assert(all.subrange(all.len() as int, all.len() as int) =~= Seq::<Totals>::empty());
    while rest.len() > 0
        invariant
            rest@ == all.subrange(0, rest@.len() as int),
            rest@.len() <= all.len(),
            all == parts@,
            forall|i: int| 0 <= i < all.len() ==> (#[trigger] all[i]).wf(),
            acc.wf(),
            acc.contents() == join_parts(all.subrange(rest@.len() as int, all.len() as int)),
            acc.bytes() == bytes_total(all.subrange(rest@.len() as int, all.len() as int)),
        decreases rest@.len(),
    {
        let ghost k = rest@.len() - 1;
        let t = rest.pop().unwrap();
        let ghost tail = all.subrange(k + 1, all.len() as int);
        let ghost cur = all.subrange(k, all.len() as int);
        assert(cur.drop_first() =~= tail);
        assert(cur[0] == t);
        assert(bytes_total(cur) == bytes_total(tail) + t.bytes());
        if !acc.absorb(t) {
            proof {
                lemma_bytes_total_suffix(all, k);
                assert(bytes_total(cur) > MAX_COUNT);
                assert(bytes_total(all) > MAX_COUNT);
            }
            return None;
        }
        assert(rest@ =~= all.subrange(0, rest@.len() as int));
    }
    assert(all.subrange(0, all.len() as int) =~= all);
    Some(acc)
}

/// One repair step keeps the text still to aggregate intact: what is
/// published ends in a newline, so aggregating it first changes nothing.
proof fn lemma_repair_step(m: Map<Seq<u8>, TempStats>, pending: Seq<u8>, block: Seq<u8>, rest: Seq<u8>)
    ensures
        ({
            let (c, carried) = repair_step(pending, block);
            match c {
                Some(x) => x.len() + carried.len() == pending.len() + block.len() && add_text(
                    add_text(m, x),
                    carried + rest,
                ) == add_text(m, pending + (block + rest)),
                None => carried + rest == pending + (block + rest),
            }
        }),
{
    let c = pending + block;
    lemma_last_index(c, 10);
    let p = last_index(c, 10);
    if p >= 0 {
        let x = c.subrange(0, p + 1);
        let carried = c.subrange(p + 1, c.len() as int);
        assert(x.last() == 10);
        lemma_add_text_concat(m, x, carried + rest);
        assert(x + (carried + rest) =~= pending + (block + rest));
    } else {
        assert(c + rest =~= pending + (block + rest));
    }
}

/// The report for `text`, read in blocks of `block_size` bytes, cut into
/// chunks at newlines and aggregated on one thread. Returns `None` when the
/// text is longer than `MAX_COUNT` bytes.
pub fn summarize(text: &[u8], block_size: usize) -> (r: Option<Vec<u8>>)
    requires
        block_size > 0,
    ensures
        r is Some <==> text@.len() <= MAX_COUNT,
        r matches Some(out) ==> exists|es: Seq<(Vec<u8>, TempStats)>|
            strictly_sorted(es) && lists_totals(es, add_text(Map::empty(), text@))
                && out@ == report_text(es),
{
    if text.len() as u64 > MAX_COUNT {
        return None;
    }
    let n = text.len();
    let mut splitter = ChunkSplitter::new();
    let mut totals = Totals::new();
    let mut pos: usize = 0;
    assert(splitter.pending() + text@.subrange(0, n as int) =~= text@);
    while pos < n
        invariant
            pos <= n,
            n == text@.len(),
            n <= MAX_COUNT,
            block_size > 0,
            totals.wf(),
            totals.bytes() + splitter.pending().len() == pos,
            add_text(totals.contents(), splitter.pending() + text@.subrange(pos as int, n as int))
                == add_text(Map::empty(), text@),
        decreases n - pos,
    {
        let end: usize = if n - pos > block_size { pos + block_size } else { n };
        let block = slice_subrange(text, pos, end);
        let ghost pending = splitter.pending();
        let ghost rest = text@.subrange(end as int, n as int);
        assert(text@.subrange(pos as int, n as int) =~= block@ + rest);
        let ghost m = totals.contents();
        proof {
            lemma_repair_step(m, pending, block@, rest);
        }
        let published = splitter.push_block(block);
        match published {
            Some(chunk) => {
                let ok = totals.add_chunk(chunk.as_slice());
                assert(ok);
            },
            None => {},
        }
        pos = end;
    }
    let last = splitter.finish();
    match last {
        Some(chunk) => {
            let ok = totals.add_chunk(chunk.as_slice());
            assert(ok);
            assert(chunk@ =~= chunk@ + text@.subrange(n as int, n as int));
        },
        None => {
            assert(text@.subrange(n as int, n as int) =~= Seq::<u8>::empty());
        },
    }
    Some(totals.report())
}

} // verus!
