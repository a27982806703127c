use std::ops::Range;

use binmerge::diff_iter::{diff_buffered, diff_bytes, diff_threaded, BytesDiffIter, MemchrDiffIter, ThreadedDiffIter};

fn naive(a: &[u8], b: &[u8]) -> Vec<Range<u64>> {
    let mut out = Vec::new();
    let mut start: Option<usize> = None;
    for i in 0..a.len() {
        match (a[i] != b[i], start) {
            (true, None) => start = Some(i),
            (false, Some(s)) => {
                out.push(s as u64..i as u64);
                start = None;
            }
            _ => {}
        }
    }
    if let Some(s) = start {
        out.push(s as u64..a.len() as u64);
    }
    out
}

fn all_strategies(a: &[u8], b: &[u8]) -> Vec<Vec<Range<u64>>> {
    vec![
        diff_bytes(a, b),
        diff_buffered(a, b, 1),
        diff_buffered(a, b, 7),
        diff_buffered(a, b, 4096),
        diff_threaded(a, b, 1, 1),
        diff_threaded(a, b, 3, 5),
        diff_threaded(a, b, 4096, 1000),
    ]
}

#[test]
fn identical_mebibyte_of_zeros() {
    let a = vec![0u8; 1 << 20];
    let b = vec![0u8; 1 << 20];
    assert!(diff_bytes(&a, &b).is_empty());
    assert!(diff_buffered(&a, &b, 8 * 1024 * 1024).is_empty());
    assert!(diff_buffered(&a, &b, 65536).is_empty());
    assert!(diff_threaded(&a, &b, 65536, 100000).is_empty());
}

#[test]
fn single_byte_difference_at_five() {
    let a = vec![0u8; 16];
    let mut b = vec![0u8; 16];
    b[5] = 1;
    for found in all_strategies(&a, &b) {
        assert_eq!(found, vec![5..6]);
    }
}

#[test]
fn run_reaching_the_end() {
    let a = vec![1u8, 2, 3, 4, 5, 6];
    let b = vec![1u8, 2, 3, 9, 9, 9];
    for found in all_strategies(&a, &b) {
        assert_eq!(found, vec![3..6]);
    }
}

#[test]
fn run_at_the_start_and_whole_file() {
    let a = vec![1u8, 2, 3, 4];
    let b = vec![9u8, 9, 3, 4];
    for found in all_strategies(&a, &b) {
        assert_eq!(found, vec![0..2]);
    }
    let c = vec![5u8, 6, 7, 8];
    for found in all_strategies(&a, &c) {
        assert_eq!(found, vec![0..4]);
    }
}

#[test]
fn empty_inputs_have_no_diffs() {
    for found in all_strategies(&[], &[]) {
        assert!(found.is_empty());
    }
}

#[test]
fn two_diffs_in_sixteen_bytes() {
    let a = vec![0u8; 16];
    let mut b = vec![0u8; 16];
    b[3] = 1;
    b[4] = 2;
    b[10] = 3;
    b[11] = 4;
    for found in all_strategies(&a, &b) {
        assert_eq!(found, vec![3..5, 10..12]);
    }
}

struct Lcg(u64);

impl Lcg {
    fn next(&mut self) -> u64 {
        self.0 = self.0.wrapping_mul(6364136223846793005).wrapping_add(1442695040888963407);
        self.0 >> 33
    }
}

#[test]
fn strategies_agree_on_random_inputs() {
    let mut rng = Lcg(42);
    for round in 0..200 {
        let len = (rng.next() % 300) as usize;
        let a: Vec<u8> = (0..len).map(|_| (rng.next() % 4) as u8).collect();
        let b: Vec<u8> = if round % 3 == 0 {
            a.iter().map(|&x| if rng.next() % 10 == 0 { x ^ 1 } else { x }).collect()
        } else {
            (0..len).map(|_| (rng.next() % 4) as u8).collect()
        };
        let expected = naive(&a, &b);
        for found in all_strategies(&a, &b) {
            assert_eq!(found, expected);
        }
    }
}

#[test]
fn runs_cover_exactly_the_differing_offsets() {
    let mut rng = Lcg(3);
    for _ in 0..100 {
        let len = (rng.next() % 200) as usize;
        let a: Vec<u8> = (0..len).map(|_| (rng.next() % 3) as u8).collect();
        let b: Vec<u8> = (0..len).map(|_| (rng.next() % 3) as u8).collect();
        let runs = diff_bytes(&a, &b);
        for w in runs.windows(2) {
            assert!(w[0].end < w[1].start);
        }
        for o in 0..len {
            let held = runs.iter().any(|r| r.start <= o as u64 && (o as u64) < r.end);
            assert_eq!(held, a[o] != b[o]);
        }
    }
}

#[test]
fn bytes_state_machine_hands_out_runs() {
    let mut d = BytesDiffIter::new();
    assert_eq!(d.push(1, 1), None);
    assert_eq!(d.push(1, 2), None);
    assert_eq!(d.push(1, 2), None);
    assert_eq!(d.push(3, 3), Some(1..3));
    assert_eq!(d.push(4, 5), None);
    assert_eq!(d.finish(), Some(4..5));
}

#[test]
fn buffered_scan_stops_after_closing_a_run() {
    let mut d = MemchrDiffIter::new();
    let a = [0u8, 1, 1, 0, 0, 1];
    let b = [0u8, 2, 2, 0, 0, 2];
    assert_eq!(d.scan_buffers(&a, &b), (4, Some(1..3)));
    assert_eq!(d.scan_buffers(&a[4..], &b[4..]), (2, None));
    assert_eq!(d.finish(), Some(5..6));
}

#[test]
fn buffered_scan_takes_the_shorter_buffer() {
    let mut d = MemchrDiffIter::new();
    assert_eq!(d.scan_buffers(&[1, 2, 3], &[1, 2]), (2, None));
    assert_eq!(d.finish(), None);
}

#[test]
fn threaded_consumer_with_uneven_buffers() {
    let mut d = ThreadedDiffIter::new();
    assert!(d.needs_a());
    assert!(d.needs_b());
    d.feed_a(vec![0, 1, 1, 0]);
    d.feed_b(vec![0, 2]);
    assert_eq!(d.step(), None);
    assert!(d.needs_b());
    assert!(!d.needs_a());
    d.feed_b(vec![2, 0]);
    assert_eq!(d.step(), Some(1..3));
    assert!(d.needs_a());
    assert!(d.needs_b());
    assert_eq!(d.finish(), None);
}
