use binmerge::range_tree::RangeTree;

fn collect(t: &RangeTree) -> Vec<std::ops::Range<u64>> {
    let mut v = Vec::new();
    for i in 0..t.len() {
        v.push(t.get(i).unwrap().clone());
    }
    v
}

#[test]
fn lookup_index_examples() {
    let t = RangeTree::from_vec(vec![1..2, 3..4, 4..8, 9..10]);
    let expected = [(0, 0), (1, 0), (2, 1), (3, 1), (4, 2), (7, 2), (8, 3), (9, 3), (10, 4), (100, 4)];
    for (e, k) in expected {
        assert_eq!(t.lookup_index(e), k, "lookup_index({})", e);
    }
}

#[test]
fn contains_examples() {
    let t = RangeTree::from_vec(vec![0..2, 3..4, 4..8, 9..10]);
    assert!(t.contains(1));
    assert!(!t.contains(2));
    assert!(t.contains(3));
    assert!(t.contains(4));
    assert!(!t.contains(8));
    assert!(!t.contains(10));
}

#[test]
fn from_vec_sorts() {
    let t = RangeTree::from_vec(vec![9..10, 0..2, 4..8, 3..4]);
    assert_eq!(collect(&t), vec![0..2, 3..4, 4..8, 9..10]);
}

#[test]
fn ranges_touching_from_inside() {
    let t = RangeTree::from_vec(vec![0..2, 3..4, 4..8, 9..10]);
    let mut ranges = t.ranges_touching(4..9);
    assert_eq!(ranges.next(), Some(4..8));
    assert_eq!(ranges.next(), Some(9..10));
    assert_eq!(ranges.next(), None);
}

#[test]
fn ranges_touching_from_gap() {
    let t = RangeTree::from_vec(vec![0..2, 3..4, 4..8, 9..10]);
    let mut ranges = t.ranges_touching(2..8);
    assert_eq!(ranges.next(), Some(3..4));
    assert_eq!(ranges.next(), Some(4..8));
    assert_eq!(ranges.next(), None);
}

#[test]
fn two_diffs_lookup_and_contains() {
    let mut t = RangeTree::new();
    t.append(3..5);
    t.append(10..12);
    assert_eq!(t.lookup_index(7), 1);
    assert!(t.contains(10));
    assert!(!t.contains(5));
}

#[test]
fn empty_tree_queries() {
    let t = RangeTree::new();
    assert_eq!(t.len(), 0);
    assert!(t.is_empty());
    assert_eq!(t.lookup_index(0), 0);
    assert_eq!(t.lookup_index(u64::MAX), 0);
    assert!(!t.contains(0));
    assert!(!t.contains_range_exact(0..1));
    assert_eq!(t.get(0), None);
}

#[test]
fn below_and_above_all_ranges() {
    let t = RangeTree::from_vec(vec![10..20, 30..40]);
    assert_eq!(t.lookup_index(5), 0);
    assert!(!t.contains(5));
    assert_eq!(t.lookup_index(45), 2);
    assert!(!t.contains(45));
    assert!(t.contains(10));
    assert!(!t.contains(20));
    assert!(t.contains(39));
    assert!(!t.contains(40));
}

#[test]
fn insert_keeps_order() {
    let mut t = RangeTree::new();
    t.insert(10..12);
    t.insert(3..5);
    t.insert(6..8);
    t.insert(12..13);
    assert_eq!(collect(&t), vec![3..5, 6..8, 10..12, 12..13]);
}

#[test]
fn contains_range_exact_cases() {
    let t = RangeTree::from_vec(vec![3..5, 10..12]);
    assert!(t.contains_range_exact(3..5));
    assert!(t.contains_range_exact(10..12));
    assert!(!t.contains_range_exact(3..4));
    assert!(!t.contains_range_exact(4..5));
    assert!(!t.contains_range_exact(3..6));
    assert!(!t.contains_range_exact(5..10));
    assert!(!t.contains_range_exact(5..5));
}

#[test]
fn remove_range_exact_cases() {
    let mut t = RangeTree::from_vec(vec![3..5, 10..12, 20..30]);
    assert!(!t.remove_range_exact(3..4));
    assert_eq!(t.len(), 3);
    assert!(t.remove_range_exact(10..12));
    assert_eq!(collect(&t), vec![3..5, 20..30]);
    assert!(!t.remove_range_exact(10..12));
    assert!(t.remove_range_exact(3..5));
    assert!(t.remove_range_exact(20..30));
    assert!(t.is_empty());
}

#[test]
fn into_inner_gives_ranges() {
    let t = RangeTree::from_vec(vec![5..6, 1..2]);
    assert_eq!(t.into_inner(), vec![1..2, 5..6]);
}

struct Lcg(u64);

impl Lcg {
    fn next(&mut self) -> u64 {
        self.0 = self.0.wrapping_mul(6364136223846793005).wrapping_add(1442695040888963407);
        self.0 >> 33
    }
}

#[test]
fn random_operations_keep_tree_sorted() {
    let mut rng = Lcg(7);
    let mut t = RangeTree::new();
    let mut model: Vec<std::ops::Range<u64>> = Vec::new();
    for _ in 0..2000 {
        let start = rng.next() % 500;
        let len = 1 + rng.next() % 8;
        let r = start..start + len;
        match rng.next() % 3 {
            0 | 1 => {
                if model.iter().all(|m| m.end <= r.start || r.end <= m.start) {
                    t.insert(r.clone());
                    model.push(r);
                }
            }
            _ => {
                let present = model.contains(&r);
                assert_eq!(t.remove_range_exact(r.clone()), present);
                model.retain(|m| *m != r);
            }
        }
        let got = collect(&t);
        for w in got.windows(2) {
            assert!(w[0].start <= w[0].end && w[0].end <= w[1].start);
        }
        let mut sorted = model.clone();
        sorted.sort_by_key(|m| m.start);
        assert_eq!(got, sorted);
        let e = rng.next() % 520;
        let k = t.lookup_index(e);
        let held = got.iter().any(|m| m.start <= e && e < m.end);
        assert_eq!(t.contains(e), held);
        assert_eq!(held, k < got.len() && got[k].start <= e);
    }
}
