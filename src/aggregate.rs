//! The worker's aggregation loop: every record of a chunk folded into a table.
use vstd::prelude::*;
use vstd::slice::{slice_subrange, slice_to_vec};
use crate::parse::{first_index, lemma_first_index, is_first_index, record_of, find_byte,
    split_record, NEWLINE};
use crate::stats::{TempStats, stats_of, stats_add, MAX_COUNT};
use crate::table::{StatsTable, table_contents, table_get, table_insert};

verus! {

/// Every accumulator of the table is well formed.
pub open spec fn totals_wf(m: Map<Seq<u8>, TempStats>) -> bool {
    forall|k: Seq<u8>| #[trigger] m.contains_key(k) ==> m[k].wf()
}

/// Every accumulator can take `n` more observations.
pub open spec fn room_for(m: Map<Seq<u8>, TempStats>, n: int) -> bool {
    &&& n <= MAX_COUNT
    &&& forall|k: Seq<u8>| #[trigger] m.contains_key(k) ==> m[k].count + n <= MAX_COUNT
}

/// Each count of `b` exceeds the one of `a` (zero for a new key) by at most `n`.
pub open spec fn counts_grow_by(a: Map<Seq<u8>, TempStats>, b: Map<Seq<u8>, TempStats>, n: int) -> bool {
    forall|k: Seq<u8>|
        #[trigger] b.contains_key(k) ==> b[k].count <= (if a.contains_key(k) {
            a[k].count as int
        } else {
            0
        }) + n
}

/// The totals after one more observation `v` under `key`.
pub open spec fn add_record(m: Map<Seq<u8>, TempStats>, key: Seq<u8>, v: i16) -> Map<
    Seq<u8>,
    TempStats,
> {
    if m.contains_key(key) {
        m.insert(key, stats_add(m[key], v))
    } else {
        m.insert(key, stats_of(v))
    }
}

/// The totals after one line: unchanged when the line holds no valid record.
pub open spec fn add_line(m: Map<Seq<u8>, TempStats>, line: Seq<u8>) -> Map<Seq<u8>, TempStats> {
    match record_of(line) {
        Some((key, v)) => add_record(m, key, v),
        None => m,
    }
}

/// The totals after every line of `s`, in order. Lines are separated by
/// newline bytes; the last one need not end in a newline.
pub open spec fn add_text(m: Map<Seq<u8>, TempStats>, s: Seq<u8>) -> Map<Seq<u8>, TempStats>
    decreases s.len(),
{
    if s.len() == 0 {
        m
    } else {
        let e = first_index(s, 10);
        let m2 = add_line(m, s.subrange(0, e));
        if 0 <= e < s.len() {
            add_text(m2, s.subrange(e + 1, s.len() as int))
        } else {
            m2
        }
    }
}

/// The totals after every chunk of `cs`, in order.
pub open spec fn add_chunks(m: Map<Seq<u8>, TempStats>, cs: Seq<Seq<u8>>) -> Map<
    Seq<u8>,
    TempStats,
>
    decreases cs.len(),
{
    if cs.len() == 0 {
        m
    } else {
        add_chunks(add_text(m, cs[0]), cs.drop_first())
    }
}

pub open spec fn ends_in_newline(s: Seq<u8>) -> bool {
    s.len() > 0 && s.last() == 10
}

/// Text that ends in a newline holds only whole lines: what follows it is
/// aggregated as if it had been read on its own.
pub proof fn lemma_add_text_concat(m: Map<Seq<u8>, TempStats>, a: Seq<u8>, b: Seq<u8>)
    requires
        a.len() == 0 || ends_in_newline(a),
    ensures
        add_text(m, a + b) == add_text(add_text(m, a), b),
    decreases a.len(),
{
    if a.len() == 0 {
        assert(a + b =~= b);
    } else {
        let s = a + b;
        lemma_first_index(a, 10);
        lemma_first_index(s, 10);
        let e = first_index(a, 10);
        assert(e < a.len());
        assert(is_first_index(s, 10, e)) by {
            assert forall|j: int| 0 <= j < e implies s[j] != 10 by {
                assert(s[j] == a[j]);
            }
            assert(s[e] == a[e]);
        }
        assert(s.subrange(0, e) =~= a.subrange(0, e));
        let rest = a.subrange(e + 1, a.len() as int);
        assert(s.subrange(e + 1, s.len() as int) =~= rest + b);
        let m2 = add_line(m, a.subrange(0, e));
        if rest.len() > 0 {
            assert(rest.last() == a.last());
        }
        lemma_add_text_concat(m2, rest, b);
    }
}

/// Adds every record of `chunk` to the table. Lines without `;` or with a
/// malformed value are skipped.
pub fn aggregate_chunk(table: &mut StatsTable, chunk: &[u8])
    requires
        totals_wf(table_contents(*old(table))),
        room_for(table_contents(*old(table)), chunk@.len() as int),
    ensures
        table_contents(*final(table)) == add_text(table_contents(*old(table)), chunk@),
        totals_wf(table_contents(*final(table))),
        counts_grow_by(table_contents(*old(table)), table_contents(*final(table)), chunk@.len() as int),
{
    let n = chunk.len();
    let mut pos: usize = 0;
    assert(chunk@.subrange(0, n as int) =~= chunk@);
    while pos < n
        invariant
            n == chunk@.len(),
            pos <= n,
            add_text(table_contents(*table), chunk@.subrange(pos as int, n as int)) == add_text(
                table_contents(*old(table)),
                chunk@,
            ),
            totals_wf(table_contents(*table)),
            room_for(table_contents(*table), n - pos),
            counts_grow_by(table_contents(*old(table)), table_contents(*table), pos as int),
        decreases n - pos,
    {
        let rest = slice_subrange(chunk, pos, n);
        let e = find_byte(NEWLINE, rest);
        proof {
            lemma_first_index(rest@, 10);
        }
        let line = slice_subrange(rest, 0, e);
        let ghost before = table_contents(*table);
        match split_record(line) {
            Some((k, v)) => {
                let key = slice_to_vec(slice_subrange(line, 0, k));
                assert(key@ =~= line@.subrange(0, k as int));
                match table_get(table, key.as_slice()) {
                    Some(s) => {
                        let mut s2 = s;
                        s2.update(v);
                        table_insert(table, key, s2);
                    },
                    None => {
                        table_insert(table, key, TempStats::new(v));
                    },
                }
                assert(table_contents(*table) == add_line(before, line@));
            },
            None => {},
        }
        assert(line@ =~= rest@.subrange(0, e as int));
        if e < rest.len() {
            pos = pos + e + 1;
            assert(rest@.subrange(e + 1, rest@.len() as int) =~= chunk@.subrange(pos as int, n as int));
        } else {
            pos = n;
            assert(chunk@.subrange(pos as int, n as int).len() == 0);
        }
    }
    assert(chunk@.subrange(pos as int, n as int).len() == 0);
}

} // verus!
