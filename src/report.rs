//! Rendering the sorted totals as one line of text.
use vstd::prelude::*;
use crate::stats::{TempStats, lemma_sum_bounds};

verus! {

/// The decimal digits of `n`, most significant first.
pub open spec fn digits_text(n: nat) -> Seq<u8>
    decreases n,
{
    if n < 10 {
        seq![(48 + n) as u8]
    } else {
        digits_text(n / 10) + seq![(48 + n % 10) as u8]
    }
}

pub open spec fn abs(v: int) -> int {
    if v < 0 {
        -v
    } else {
        v
    }
}

/// A scaled value written with one fractional digit (`-32` as `-3.2`).
pub open spec fn tenths_text(v: int) -> Seq<u8> {
    (if v < 0 {
        seq![45u8]
    } else {
        Seq::empty()
    }) + digits_text((abs(v) / 10) as nat) + seq![46u8, (48 + abs(v) % 10) as u8]
}

/// The mean in tenths, `sum / count` rounded to the nearest integer with
/// halves rounded away from zero.
pub open spec fn mean_tenths(s: TempStats) -> int {
    let q = (2 * abs(s.sum as int) + s.count) / (2 * s.count);
    if s.sum < 0 {
        -q
    } else {
        q
    }
}

/// `key: min/mean/max`.
pub open spec fn entry_text(e: (Vec<u8>, TempStats)) -> Seq<u8> {
    e.0@ + seq![58u8, 32u8] + tenths_text(e.1.min as int) + seq![47u8] + tenths_text(
        mean_tenths(e.1),
    ) + seq![47u8] + tenths_text(e.1.max as int)
}

/// The entries' texts joined by `", "`.
pub open spec fn entries_text(es: Seq<(Vec<u8>, TempStats)>) -> Seq<u8>
    decreases es.len(),
{
    if es.len() == 0 {
        Seq::empty()
    } else if es.len() == 1 {
        entry_text(es[0])
    } else {
        entries_text(es.drop_last()) + seq![44u8, 32u8] + entry_text(es.last())
    }
}

/// The report: the entries joined by `", "`, ending in a newline.
pub open spec fn report_text(es: Seq<(Vec<u8>, TempStats)>) -> Seq<u8> {
    entries_text(es) + seq![10u8]
}

fn push_digits(out: &mut Vec<u8>, n: u64)
    ensures
        final(out)@ == old(out)@ + digits_text(n as nat),
    decreases n,
{
    if n >= 10 {
        push_digits(out, n / 10);
    }
    out.push((48 + n % 10) as u8);
    assert(out@ =~= old(out)@ + digits_text(n as nat));
}

fn push_tenths(out: &mut Vec<u8>, v: i64)
    requires
        v > i64::MIN,
    ensures
        final(out)@ == old(out)@ + tenths_text(v as int),
{
    let a: u64 = if v < 0 { (-v) as u64 } else { v as u64 };
    if v < 0 {
        out.push(45);
    }
    push_digits(out, a / 10);
    out.push(46);
    out.push((48 + a % 10) as u8);
    assert(out@ =~= old(out)@ + tenths_text(v as int));
}

/// The mean of the accumulator in tenths, as `mean_tenths` states.
pub fn mean_in_tenths(s: &TempStats) -> (r: i64)
    requires
        s.wf(),
    ensures
        r == mean_tenths(*s),
        r > i64::MIN,
{
    proof {
        lemma_sum_bounds(*s);
    }
    let a: u64 = if s.sum < 0 { (-s.sum) as u64 } else { s.sum as u64 };
    let c: u64 = s.count as u64;
    let q: u64 = (2 * a + c) / (2 * c);
    assert(q <= 2 * a + c) by (nonlinear_arith)
        requires q == (2 * a + c) / (2 * c), c >= 1;
    if s.sum < 0 {
        -(q as i64)
    } else {
        q as i64
    }
}

fn push_entry(out: &mut Vec<u8>, e: &(Vec<u8>, TempStats))
    requires
        e.1.wf(),
    ensures
        final(out)@ == old(out)@ + entry_text(*e),
{
    out.extend_from_slice(e.0.as_slice());
    out.push(58);
    out.push(32);
    push_tenths(out, e.1.min as i64);
    out.push(47);
    let m = mean_in_tenths(&e.1);
    push_tenths(out, m);
    out.push(47);
    push_tenths(out, e.1.max as i64);
    assert(out@ =~= old(out)@ + entry_text(*e));
}

/// Renders `key: min/mean/max` for each entry, in the given order, joined by
/// `", "` and ending in a newline. Keys are written as their raw bytes.
pub fn render_report(entries: &Vec<(Vec<u8>, TempStats)>) -> (r: Vec<u8>)
    requires
        forall|i: int| 0 <= i < entries@.len() ==> (#[trigger] entries@[i]).1.wf(),
    ensures
        r@ == report_text(entries@),
{
    let mut out: Vec<u8> = Vec::new();
    let mut i: usize = 0;
    while i < entries.len()
        invariant
            i <= entries@.len(),
            forall|j: int| 0 <= j < entries@.len() ==> (#[trigger] entries@[j]).1.wf(),
            out@ == entries_text(entries@.subrange(0, i as int)),
        decreases entries@.len() - i,
    {
        let ghost prev = entries@.subrange(0, i as int);
        let ghost next = entries@.subrange(0, i + 1);
        assert(next.drop_last() =~= prev);
        if i > 0 {
            out.push(44);
            out.push(32);
        }
        push_entry(&mut out, &entries[i]);
        assert(out@ =~= entries_text(next));
        i = i + 1;
    }
    assert(entries@.subrange(0, i as int) =~= entries@);
    out.push(10);
    out
}

} // verus!
