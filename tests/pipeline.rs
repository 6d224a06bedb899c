use station_stats::chunk::ChunkSplitter;
use station_stats::pipeline::{combine, summarize, Totals};

fn text_of(report: Option<Vec<u8>>) -> String {
    String::from_utf8(report.unwrap()).unwrap()
}

fn chunks_for(text: &[u8], block_size: usize) -> Vec<Vec<u8>> {
    let mut splitter = ChunkSplitter::new();
    let mut chunks = Vec::new();
    for block in text.chunks(block_size) {
        if let Some(c) = splitter.push_block(block) {
            chunks.push(c);
        }
    }
    if let Some(c) = splitter.finish() {
        chunks.push(c);
    }
    chunks
}

fn report_with_workers(text: &[u8], block_size: usize, workers: usize) -> Vec<u8> {
    let mut parts: Vec<Totals> = (0..workers).map(|_| Totals::new()).collect();
    for (i, chunk) in chunks_for(text, block_size).iter().enumerate() {
        assert!(parts[i % workers].add_chunk(chunk));
    }
    combine(parts).unwrap().report()
}

#[test]
fn end_to_end_two_keys() {
    let out = summarize(b"A;5.0\nB;-3.2\nA;9.0\n", 1 << 20);
    assert_eq!(text_of(out), "A: 5.0/7.0/9.0, B: -3.2/-3.2/-3.2\n");
}

#[test]
fn end_to_end_drops_malformed_line() {
    let out = summarize(b"A;5.0\nbadline\nA;-1.0\n", 1 << 20);
    assert_eq!(text_of(out), "A: -1.0/2.0/5.0\n");
}

#[test]
fn keys_are_sorted_by_raw_bytes() {
    let out = summarize(b"Zurich;1.0\namman;2.0\nAmman;3.0\n", 64);
    assert_eq!(text_of(out), "Amman: 3.0/3.0/3.0, Zurich: 1.0/1.0/1.0, amman: 2.0/2.0/2.0\n");
}

#[test]
fn prefix_key_sorts_first() {
    let out = summarize(b"ab;1.0\na;2.0\n", 64);
    assert_eq!(text_of(out), "a: 2.0/2.0/2.0, ab: 1.0/1.0/1.0\n");
}

#[test]
fn straddling_record_is_counted_once() {
    let input = b"Hamburg;12.0\nBulawayo;8.9\nHamburg;34.2\n";
    let expected = "Bulawayo: 8.9/8.9/8.9, Hamburg: 12.0/23.1/34.2\n";
    for size in 1..input.len() + 2 {
        assert_eq!(text_of(summarize(input, size)), expected);
    }
}

#[test]
fn missing_final_newline_and_carriage_returns() {
    let out = summarize(b"A;1.0\r\nA;2.0\r\nB;-0.5", 3);
    assert_eq!(text_of(out), "A: 1.0/1.5/2.0, B: -0.5/-0.5/-0.5\n");
}

#[test]
fn empty_input_gives_an_empty_line() {
    assert_eq!(text_of(summarize(b"", 4)), "\n");
    assert_eq!(text_of(summarize(b"\n\n\n", 1)), "\n");
}

#[test]
fn chunks_end_at_newlines_and_rejoin_to_the_input() {
    let input = b"a;1.0\nbb;2.0\nccc;3.0\nlast;4.0";
    for size in 1..input.len() + 1 {
        let chunks = chunks_for(input, size);
        let joined: Vec<u8> = chunks.concat();
        assert_eq!(joined, input.to_vec());
        for c in &chunks[..chunks.len() - 1] {
            assert_eq!(*c.last().unwrap(), b'\n');
        }
        let lines: Vec<&[u8]> = joined.split(|b| *b == b'\n').collect();
        let whole: Vec<&[u8]> = input.split(|b| *b == b'\n').collect();
        assert_eq!(lines, whole);
    }
}

#[test]
fn splitter_holds_bytes_until_a_newline() {
    let mut s = ChunkSplitter::new();
    assert_eq!(s.push_block(b"abc"), None);
    assert_eq!(s.push_block(b"d\nef"), Some(b"abcd\n".to_vec()));
    assert_eq!(s.push_block(b"g\n"), Some(b"efg\n".to_vec()));
    assert_eq!(s.finish(), None);
}

#[test]
fn one_worker_and_many_workers_agree() {
    let input = b"Oslo;-3.1\nRome;20.4\nOslo;1.2\nLima;15.5\nRome;18.0\nOslo;-10.0\nLima;16.6\n";
    let single = report_with_workers(input, 7, 1);
    for workers in 2..6 {
        assert_eq!(report_with_workers(input, 7, workers), single);
    }
    assert_eq!(
        String::from_utf8(single).unwrap(),
        "Lima: 15.5/16.1/16.6, Oslo: -10.0/-4.0/1.2, Rome: 18.0/19.2/20.4\n"
    );
}

#[test]
fn combine_merges_shared_keys() {
    let mut a = Totals::new();
    let mut b = Totals::new();
    assert!(a.add_chunk(b"K;1.0\nX;5.0\n"));
    assert!(b.add_chunk(b"K;3.0\n"));
    assert_eq!(a.bytes_seen(), 12);
    let total = combine(vec![a, b]).unwrap();
    assert_eq!(String::from_utf8(total.report()).unwrap(), "K: 1.0/2.0/3.0, X: 5.0/5.0/5.0\n");
}

#[test]
fn combine_of_nothing_is_empty() {
    let total = combine(Vec::new()).unwrap();
    assert_eq!(total.bytes_seen(), 0);
    assert_eq!(total.report(), b"\n".to_vec());
}
