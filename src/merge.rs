//! Folding the workers' tables into one.
use vstd::prelude::*;
use crate::aggregate::{totals_wf, room_for, counts_grow_by, add_record, add_line, add_text,
    ends_in_newline, lemma_add_text_concat};
use crate::parse::{first_index, lemma_first_index, record_of};
use crate::stats::{TempStats, stats_join, lemma_join_wf, lemma_merge_associative, MAX_COUNT};
use crate::table::{StatsTable, table_contents, table_get, table_insert, table_into_entries};

verus! {

/// The key-wise join of two totals: a key of one side keeps its accumulator,
/// a key of both sides gets the two joined.
pub open spec fn join_totals(a: Map<Seq<u8>, TempStats>, b: Map<Seq<u8>, TempStats>) -> Map<
    Seq<u8>,
    TempStats,
> {
    Map::new(
        |k: Seq<u8>| a.contains_key(k) || b.contains_key(k),
        |k: Seq<u8>|
            if a.contains_key(k) && b.contains_key(k) {
                stats_join(a[k], b[k])
            } else if a.contains_key(k) {
                a[k]
            } else {
                b[k]
            },
    )
}

/// A key present on both sides can hold the observations of both.
pub open spec fn can_join_totals(a: Map<Seq<u8>, TempStats>, b: Map<Seq<u8>, TempStats>) -> bool {
    forall|k: Seq<u8>|
        #[trigger] a.contains_key(k) && b.contains_key(k) ==> a[k].count + b[k].count <= MAX_COUNT
}

pub proof fn lemma_join_totals_wf(a: Map<Seq<u8>, TempStats>, b: Map<Seq<u8>, TempStats>)
    requires
        totals_wf(a),
        totals_wf(b),
        can_join_totals(a, b),
    ensures
        totals_wf(join_totals(a, b)),
{
    assert forall|k: Seq<u8>| #[trigger] join_totals(a, b).contains_key(k) implies join_totals(
        a,
        b,
    )[k].wf() by {
        if a.contains_key(k) && b.contains_key(k) {
            lemma_join_wf(a[k], b[k]);
        }
    }
}

/// Merges every entry of `worker` into `global`: a new key is inserted as it
/// is, a known one has the two accumulators joined.
pub fn merge_into(global: &mut StatsTable, worker: StatsTable)
    requires
        totals_wf(table_contents(*old(global))),
        totals_wf(table_contents(worker)),
        can_join_totals(table_contents(*old(global)), table_contents(worker)),
    ensures
        table_contents(*final(global)) == join_totals(
            table_contents(*old(global)),
            table_contents(worker),
        ),
        totals_wf(table_contents(*final(global))),
{
    let ghost g0 = table_contents(*global);
    let ghost b = table_contents(worker);
    let entries = table_into_entries(worker);
    let ghost mut done: Set<Seq<u8>> = Set::empty();
    let mut i: usize = 0;
    while i < entries.len()
        invariant
            i <= entries@.len(),
            totals_wf(g0),
            totals_wf(b),
            can_join_totals(g0, b),
            forall|x: int, y: int| 0 <= x < y < entries@.len() ==> entries@[x].0@ != entries@[y].0@,
            forall|x: int|
                0 <= x < entries@.len() ==> b.contains_key(#[trigger] entries@[x].0@)
                    && b[entries@[x].0@] == entries@[x].1,
            forall|k: Seq<u8>| #[trigger] b.contains_key(k) ==> exists|x: int|
                0 <= x < entries@.len() && entries@[x].0@ == k,
            forall|k: Seq<u8>| #[trigger] done.contains(k) ==> exists|x: int|
                0 <= x < i && entries@[x].0@ == k,
            forall|x: int| 0 <= x < i ==> #[trigger] done.contains(entries@[x].0@),
            done.subset_of(b.dom()),
            table_contents(*global) == join_totals(g0, b.restrict(done)),
        decreases entries@.len() - i,
    {
        let key = entries[i].0.clone();
        let value = entries[i].1;
        assert(key@ == entries@[i as int].0@);
        let ghost k = key@;
        assert(!done.contains(k)) by {
            if done.contains(k) {
                let x = choose|x: int| 0 <= x < i && entries@[x].0@ == k;
                assert(entries@[x].0@ != entries@[i as int].0@);
            }
        }
        assert(b.contains_key(k));
        match table_get(global, key.as_slice()) {
            Some(s) => {
                let mut s2 = s;
                assert(g0.contains_key(k));
                s2.merge(&value);
                table_insert(global, key, s2);
            },
            None => {
                table_insert(global, key, value);
            },
        }
        proof {
            done = done.insert(k);
            assert(table_contents(*global) =~= join_totals(g0, b.restrict(done)));
        }
        i = i + 1;
    }
    proof {
        assert(done =~= b.dom()) by {
            assert forall|k: Seq<u8>| b.contains_key(k) implies done.contains(k) by {
                let x = choose|x: int| 0 <= x < entries@.len() && entries@[x].0@ == k;
                assert(done.contains(entries@[x].0@));
            }
        }
        assert(b.restrict(done) =~= b);
        lemma_join_totals_wf(g0, b);
    }
}


proof fn lemma_join_empty(m: Map<Seq<u8>, TempStats>)
    ensures
        join_totals(m, Map::empty()) == m,
        join_totals(Map::empty(), m) == m,
{
    assert(join_totals(m, Map::empty()) =~= m);
    assert(join_totals(Map::empty(), m) =~= m);
}

/// Joining totals does not depend on their order.
pub proof fn lemma_join_totals_commutative(a: Map<Seq<u8>, TempStats>, b: Map<Seq<u8>, TempStats>)
    ensures
        join_totals(a, b) == join_totals(b, a),
{
    assert(join_totals(a, b) =~= join_totals(b, a));
}

/// Joining totals does not depend on how they are grouped, as long as no
/// key's joined count exceeds the bound.
pub proof fn lemma_join_totals_associative(
    x: Map<Seq<u8>, TempStats>,
    y: Map<Seq<u8>, TempStats>,
    z: Map<Seq<u8>, TempStats>,
)
    requires
        totals_wf(x),
        totals_wf(y),
        totals_wf(z),
        forall|k: Seq<u8>|
            #[trigger] x.contains_key(k) && y.contains_key(k) && z.contains_key(k) ==> x[k].count
                + y[k].count + z[k].count <= MAX_COUNT,
    ensures
        join_totals(join_totals(x, y), z) == join_totals(x, join_totals(y, z)),
{
    assert forall|k: Seq<u8>| #[trigger] join_totals(join_totals(x, y), z).contains_key(k) implies
        join_totals(join_totals(x, y), z)[k] == join_totals(x, join_totals(y, z))[k] by {
        if x.contains_key(k) && y.contains_key(k) && z.contains_key(k) {
            lemma_merge_associative(x[k], y[k], z[k]);
        }
    }
    assert(join_totals(join_totals(x, y), z) =~= join_totals(x, join_totals(y, z)));
}

proof fn lemma_add_line_is_join(m: Map<Seq<u8>, TempStats>, line: Seq<u8>)
    ensures
        add_line(m, line) == join_totals(m, add_line(Map::empty(), line)),
{
    match record_of(line) {
        Some((k, v)) => {
            let e = Map::<Seq<u8>, TempStats>::empty();
            assert(add_record(m, k, v) =~= join_totals(m, add_record(e, k, v)));
        },
        None => {
            lemma_join_empty(m);
        },
    }
}

proof fn lemma_add_line_bounds(m: Map<Seq<u8>, TempStats>, line: Seq<u8>, n: int)
    requires
        totals_wf(m),
        room_for(m, n + 1),
        n >= 0,
    ensures
        totals_wf(add_line(m, line)),
        room_for(add_line(m, line), n),
        counts_grow_by(m, add_line(m, line), 1),
{
    match record_of(line) {
        Some((k, v)) => {
            if m.contains_key(k) {
                crate::stats::lemma_add_wf(m[k], v);
            }
        },
        None => {},
    }
}

proof fn lemma_add_text_bounds(m: Map<Seq<u8>, TempStats>, s: Seq<u8>)
    requires
        totals_wf(m),
        room_for(m, s.len() as int),
    ensures
        totals_wf(add_text(m, s)),
        counts_grow_by(m, add_text(m, s), s.len() as int),
    decreases s.len(),
{
    if s.len() > 0 {
        lemma_first_index(s, 10);
        let e = first_index(s, 10);
        let line = s.subrange(0, e);
        let m2 = add_line(m, line);
        lemma_add_line_bounds(m, line, s.len() - 1);
        if e < s.len() {
            let rest = s.subrange(e + 1, s.len() as int);
            assert(room_for(m2, rest.len() as int));
            lemma_add_text_bounds(m2, rest);
        }
    }
}

/// Aggregating text onto totals is joining them with the text's own totals.
proof fn lemma_add_text_is_join(m: Map<Seq<u8>, TempStats>, s: Seq<u8>)
    requires
        totals_wf(m),
        room_for(m, s.len() as int),
    ensures
        add_text(m, s) == join_totals(m, add_text(Map::empty(), s)),
    decreases s.len(),
{
    let e0 = Map::<Seq<u8>, TempStats>::empty();
    if s.len() == 0 {
        lemma_join_empty(m);
    } else {
        lemma_first_index(s, 10);
        let e = first_index(s, 10);
        let line = s.subrange(0, e);
        let m2 = add_line(m, line);
        let l = add_line(e0, line);
        lemma_add_line_is_join(m, line);
        lemma_add_line_bounds(m, line, s.len() - 1);
        lemma_add_line_bounds(e0, line, s.len() - 1);
        if e < s.len() {
            let rest = s.subrange(e + 1, s.len() as int);
            let t = add_text(e0, rest);
            lemma_add_text_is_join(m2, rest);
            lemma_add_text_is_join(l, rest);
            lemma_add_text_bounds(e0, rest);
            lemma_join_totals_associative(m, l, t);
        }
    }
}

/// Two workers that take the text's parts before and after a line boundary
/// produce, joined in either order, the totals of one worker taking it all.
pub proof fn lemma_workers_agree(a: Seq<u8>, b: Seq<u8>)
    requires
        a.len() == 0 || ends_in_newline(a),
        a.len() + b.len() <= MAX_COUNT,
    ensures
        join_totals(add_text(Map::empty(), a), add_text(Map::empty(), b)) == add_text(
            Map::empty(),
            a + b,
        ),
        join_totals(add_text(Map::empty(), b), add_text(Map::empty(), a)) == add_text(
            Map::empty(),
            a + b,
        ),
{
    let e0 = Map::<Seq<u8>, TempStats>::empty();
    lemma_add_text_concat(e0, a, b);
    lemma_add_text_bounds(e0, a);
    lemma_add_text_is_join(add_text(e0, a), b);
    lemma_join_totals_commutative(add_text(e0, a), add_text(e0, b));
}

/// The join of the totals of each text of `ps`, one worker per text.
pub open spec fn joined_texts(ps: Seq<Seq<u8>>) -> Map<Seq<u8>, TempStats>
    decreases ps.len(),
{
    if ps.len() == 0 {
        Map::empty()
    } else {
        join_totals(add_text(Map::empty(), ps[0]), joined_texts(ps.drop_first()))
    }
}

/// However the text is cut at line boundaries into parts for any number of
/// workers, joining the workers' totals gives the totals of the whole text.
pub proof fn lemma_many_workers_agree(ps: Seq<Seq<u8>>)
    requires
        forall|i: int| 0 <= i < ps.len() - 1 ==> (#[trigger] ps[i]).len() == 0 || ends_in_newline(ps[i]),
        ps.flatten().len() <= MAX_COUNT,
    ensures
        joined_texts(ps) == add_text(Map::empty(), ps.flatten()),
    decreases ps.len(),
{
    if ps.len() > 0 {
        let rest = ps.drop_first();
        assert(ps.flatten() == ps[0] + rest.flatten());
        assert forall|i: int| 0 <= i < rest.len() - 1 implies (#[trigger] rest[i]).len() == 0
            || ends_in_newline(rest[i]) by {
            assert(rest[i] == ps[i + 1]);
        }
        lemma_many_workers_agree(rest);
        if ps.len() == 1 {
            assert(rest.flatten() =~= Seq::<u8>::empty());
            assert(ps[0] + rest.flatten() =~= ps[0]);
            lemma_join_empty(add_text(Map::empty(), ps[0]));
        } else {
            lemma_workers_agree(ps[0], rest.flatten());
        }
    }
}

} // verus!
