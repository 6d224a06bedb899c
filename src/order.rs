//! Byte-lexicographic order of keys, and the sorted listing of a table.
use vstd::prelude::*;
use crate::stats::TempStats;
use crate::table::{StatsTable, table_contents, table_into_entries};

verus! {

/// `a` comes strictly before `b` when compared byte by byte, a proper prefix
/// coming first.
pub open spec fn bytes_lt(a: Seq<u8>, b: Seq<u8>) -> bool
    decreases a.len(),
{
    if a.len() == 0 {
        b.len() > 0
    } else if b.len() == 0 {
        false
    } else if a[0] != b[0] {
        a[0] < b[0]
    } else {
        bytes_lt(a.drop_first(), b.drop_first())
    }
}

pub proof fn lemma_bytes_lt_total(a: Seq<u8>, b: Seq<u8>)
    ensures
        a == b || bytes_lt(a, b) || bytes_lt(b, a),
    decreases a.len(),
{
    if a.len() > 0 && b.len() > 0 && a[0] == b[0] {
        lemma_bytes_lt_total(a.drop_first(), b.drop_first());
        if a.drop_first() == b.drop_first() {
            assert(a =~= seq![a[0]] + a.drop_first());
            assert(b =~= seq![b[0]] + b.drop_first());
        }
    } else if a.len() == 0 && b.len() == 0 {
        assert(a =~= b);
    }
}

pub proof fn lemma_bytes_lt_transitive(a: Seq<u8>, b: Seq<u8>, c: Seq<u8>)
    requires
        bytes_lt(a, b),
        bytes_lt(b, c),
    ensures
        bytes_lt(a, c),
    decreases a.len(),
{
    if a.len() > 0 && b.len() > 0 && c.len() > 0 && a[0] == b[0] && b[0] == c[0] {
        lemma_bytes_lt_transitive(a.drop_first(), b.drop_first(), c.drop_first());
    }
}

/// Compares two keys byte by byte.
pub fn key_less(a: &[u8], b: &[u8]) -> (r: bool)
    ensures
        r == bytes_lt(a@, b@),
{
    let mut i: usize = 0;
    assert(a@.subrange(0, a@.len() as int) =~= a@);
    assert(b@.subrange(0, b@.len() as int) =~= b@);
    while i < a.len() && i < b.len() && a[i] == b[i]
        invariant
            i <= a@.len(),
            i <= b@.len(),
            bytes_lt(a@, b@) == bytes_lt(
                a@.subrange(i as int, a@.len() as int),
                b@.subrange(i as int, b@.len() as int),
            ),
        decreases a@.len() - i,
    {
        let ghost sa = a@.subrange(i as int, a@.len() as int);
        let ghost sb = b@.subrange(i as int, b@.len() as int);
        assert(sa.drop_first() =~= a@.subrange(i + 1, a@.len() as int));
        assert(sb.drop_first() =~= b@.subrange(i + 1, b@.len() as int));
        i = i + 1;
    }
    if i == a.len() {
        i < b.len()
    } else if i == b.len() {
        false
    } else {
        a[i] < b[i]
    }
}

/// Keys strictly increase along the listing.
pub open spec fn strictly_sorted(es: Seq<(Vec<u8>, TempStats)>) -> bool {
    forall|i: int, j: int| 0 <= i < j < es.len() ==> bytes_lt(es[i].0@, es[j].0@)
}

/// The listing holds the totals `m`: each entry is one of them, and each key
/// of `m` has an entry.
pub open spec fn lists_totals(es: Seq<(Vec<u8>, TempStats)>, m: Map<Seq<u8>, TempStats>) -> bool {
    &&& forall|i: int|
        0 <= i < es.len() ==> m.contains_key(#[trigger] es[i].0@) && m[es[i].0@] == es[i].1
    &&& forall|k: Seq<u8>| #[trigger] m.contains_key(k) ==> exists|i: int| 0 <= i < es.len() && es[i].0@ == k
}

pub type Listing = Seq<(Vec<u8>, TempStats)>;

/// Every entry of `out` has the key of one of the first `i` entries.
#[verifier::opaque]
pub open spec fn drawn_from(out: Listing, entries: Listing, i: int) -> bool {
    forall|j: int|
        0 <= j < out.len() ==> exists|x: int| 0 <= x < i && #[trigger] out[j].0@ == entries[x].0@
}

/// Each of the first `i` entries has its key in `out`.
#[verifier::opaque]
pub open spec fn covers(out: Listing, entries: Listing, i: int) -> bool {
    forall|x: int| #![trigger entries[x]] 0 <= x < i ==> exists|j: int|
        0 <= j < out.len() && #[trigger] out[j].0@ == entries[x].0@
}

/// Every entry of `out` agrees with `m`.
#[verifier::opaque]
pub open spec fn agrees_with(out: Listing, m: Map<Seq<u8>, TempStats>) -> bool {
    forall|j: int| 0 <= j < out.len() ==> m.contains_key(#[trigger] out[j].0@) && m[out[j].0@] == out[j].1
}

proof fn lemma_insert_sorted(before: Listing, pos: int, e: (Vec<u8>, TempStats))
    requires
        strictly_sorted(before),
        0 <= pos <= before.len(),
        forall|j: int| 0 <= j < pos ==> bytes_lt(#[trigger] before[j].0@, e.0@),
        forall|j: int| pos <= j < before.len() ==> bytes_lt(e.0@, #[trigger] before[j].0@),
    ensures
        strictly_sorted(before.insert(pos, e)),
{
    let out = before.insert(pos, e);
    assert forall|a: int, b: int| 0 <= a < b < out.len() implies bytes_lt(out[a].0@, out[b].0@) by {
        if b < pos {
            assert(out[a] == before[a] && out[b] == before[b]);
        } else if b == pos {
            assert(out[a] == before[a]);
        } else if a < pos {
            assert(out[a] == before[a] && out[b] == before[b - 1]);
            lemma_bytes_lt_transitive(out[a].0@, e.0@, out[b].0@);
        } else if a == pos {
            assert(out[b] == before[b - 1]);
        } else {
            assert(out[a] == before[a - 1] && out[b] == before[b - 1]);
        }
    }
}

proof fn lemma_insert_drawn(before: Listing, pos: int, e: (Vec<u8>, TempStats), entries: Listing, i: int)
    requires
        0 <= pos <= before.len(),
        0 <= i < entries.len(),
        e.0@ == entries[i].0@,
        drawn_from(before, entries, i),
    ensures
        drawn_from(before.insert(pos, e), entries, i + 1),
{
    reveal(drawn_from);
    let out = before.insert(pos, e);
    assert forall|j: int| 0 <= j < out.len() implies exists|x: int|
        0 <= x < i + 1 && #[trigger] out[j].0@ == entries[x].0@ by {
        if j < pos {
            assert(out[j] == before[j]);
            let x = choose|x: int| 0 <= x < i && #[trigger] before[j].0@ == entries[x].0@;
        } else if j == pos {
            assert(out[j].0@ == entries[i].0@);
        } else {
            assert(out[j] == before[j - 1]);
            let x = choose|x: int| 0 <= x < i && #[trigger] before[j - 1].0@ == entries[x].0@;
        }
    }
}

proof fn lemma_insert_covers(before: Listing, pos: int, e: (Vec<u8>, TempStats), entries: Listing, i: int)
    requires
        0 <= pos <= before.len(),
        0 <= i < entries.len(),
        e.0@ == entries[i].0@,
        covers(before, entries, i),
    ensures
        covers(before.insert(pos, e), entries, i + 1),
{
    reveal(covers);
    let out = before.insert(pos, e);
    assert forall|x: int| #![trigger entries[x]] 0 <= x < i + 1 implies exists|j: int|
        0 <= j < out.len() && #[trigger] out[j].0@ == entries[x].0@ by {
        if x == i {
            assert(out[pos].0@ == entries[x].0@);
        } else {
            assert(entries[x] == entries[x]);
            let j = choose|j: int| 0 <= j < before.len() && #[trigger] before[j].0@ == entries[x].0@;
            if j < pos {
                assert(out[j] == before[j]);
            } else {
                assert(out[j + 1] == before[j]);
            }
        }
    }
}

proof fn lemma_insert_agrees(before: Listing, pos: int, e: (Vec<u8>, TempStats), m: Map<Seq<u8>, TempStats>)
    requires
        0 <= pos <= before.len(),
        m.contains_key(e.0@) && m[e.0@] == e.1,
        agrees_with(before, m),
    ensures
        agrees_with(before.insert(pos, e), m),
{
    reveal(agrees_with);
    let out = before.insert(pos, e);
    assert forall|j: int| 0 <= j < out.len() implies m.contains_key(#[trigger] out[j].0@) && m[out[j].0@]
        == out[j].1 by {
        if j < pos {
            assert(out[j] == before[j]);
        } else if j > pos {
            assert(out[j] == before[j - 1]);
        }
    }
}

/// The entries of a table, in increasing byte order of their keys.
pub fn sorted_entries(table: StatsTable) -> (r: Vec<(Vec<u8>, TempStats)>)
    ensures
        strictly_sorted(r@),
        lists_totals(r@, table_contents(table)),
{
    let ghost m = table_contents(table);
    let entries = table_into_entries(table);
    let mut out: Vec<(Vec<u8>, TempStats)> = Vec::new();
    let mut i: usize = 0;
    proof {
        reveal(drawn_from);
        reveal(covers);
        reveal(agrees_with);
    }
    while i < entries.len()
        invariant
            i <= entries@.len(),
            forall|x: int, y: int| 0 <= x < y < entries@.len() ==> entries@[x].0@ != entries@[y].0@,
            forall|x: int|
                0 <= x < entries@.len() ==> m.contains_key(#[trigger] entries@[x].0@)
                    && m[entries@[x].0@] == entries@[x].1,
            strictly_sorted(out@),
            drawn_from(out@, entries@, i as int),
            covers(out@, entries@, i as int),
            agrees_with(out@, m),
        decreases entries@.len() - i,
    {
        let key = entries[i].0.clone();
        let value = entries[i].1;
        let ghost k = key@;
        assert(k == entries@[i as int].0@);
        let mut pos: usize = 0;
        while pos < out.len() && key_less(out[pos].0.as_slice(), key.as_slice())
            invariant
                pos <= out@.len(),
                key@ == k,
                forall|j: int| 0 <= j < pos ==> bytes_lt(#[trigger] out@[j].0@, k),
            decreases out@.len() - pos,
        {
            pos = pos + 1;
        }
        proof {
            // `k` is new: every key listed so far came from an earlier entry.
            reveal(drawn_from);
            assert forall|j: int| 0 <= j < out@.len() implies out@[j].0@ != k by {
                let x = choose|x: int| 0 <= x < i && #[trigger] out@[j].0@ == entries@[x].0@;
                assert(entries@[x].0@ != entries@[i as int].0@);
            }
            if pos < out@.len() {
                lemma_bytes_lt_total(out@[pos as int].0@, k);
                assert forall|j: int| pos <= j < out@.len() implies bytes_lt(k, #[trigger] out@[j].0@) by {
                    if j > pos {
                        lemma_bytes_lt_transitive(k, out@[pos as int].0@, out@[j].0@);
                    }
                }
            }
            lemma_insert_sorted(out@, pos as int, (key, value));
            lemma_insert_drawn(out@, pos as int, (key, value), entries@, i as int);
            lemma_insert_covers(out@, pos as int, (key, value), entries@, i as int);
            lemma_insert_agrees(out@, pos as int, (key, value), m);
        }
        out.insert(pos, (key, value));
        i = i + 1;
    }
    proof {
        reveal(drawn_from);
        reveal(covers);
        reveal(agrees_with);
        assert forall|k: Seq<u8>| #[trigger] m.contains_key(k) implies exists|j: int|
            0 <= j < out@.len() && out@[j].0@ == k by {
            let x = choose|x: int| 0 <= x < entries@.len() && entries@[x].0@ == k;
            let j = choose|j: int| 0 <= j < out@.len() && #[trigger] out@[j].0@ == entries@[x].0@;
        }
    }
    out
}

} // verus!
