//! An ordered index of non-overlapping half-open ranges of offsets.
use std::ops::Range;
use vstd::prelude::*;

verus! {

/// A range holds the offset `e` when `start <= e < end`.
pub open spec fn holds(r: Range<u64>, e: int) -> bool {
    r.start <= e < r.end
}

/// Two ranges share at least one offset.
pub open spec fn overlaps(r: Range<u64>, q: Range<u64>) -> bool {
    r.start < q.end && q.start < r.end
}

/// Every range is well-formed and each one ends before the next one starts.
pub open spec fn sorted_disjoint(s: Seq<Range<u64>>) -> bool {
    &&& forall|i: int| 0 <= i < s.len() ==> (#[trigger] s[i]).start <= s[i].end
    &&& forall|i: int, j: int| 0 <= i < j < s.len() ==> (#[trigger] s[i]).end <= (#[trigger] s[j]).start
}

/// Some stored range holds `e`.
pub open spec fn seq_holds(s: Seq<Range<u64>>, e: int) -> bool {
    exists|i: int| 0 <= i < s.len() && holds(#[trigger] s[i], e)
}

/// `k` splits `s` into the ranges that end at or before `e` and those that end after it.
pub open spec fn is_lookup_index(s: Seq<Range<u64>>, e: u64, k: int) -> bool {
    &&& 0 <= k <= s.len()
    &&& forall|i: int| 0 <= i < k ==> (#[trigger] s[i]).end <= e
    &&& forall|i: int| k <= i < s.len() ==> e < (#[trigger] s[i]).end
}

/// `s` stores exactly `r`, which is not empty.
pub open spec fn has_exact(s: Seq<Range<u64>>, r: Range<u64>) -> bool {
    r.start < r.end && s.contains(r)
}

/// Whenever one range starts no later than another, it ends before the other
/// one starts; every range is well-formed. In any order by start, such ranges
/// are sorted and disjoint.
pub open spec fn pairwise_ordered(s: Seq<Range<u64>>) -> bool {
    &&& forall|i: int| 0 <= i < s.len() ==> (#[trigger] s[i]).start <= s[i].end
    &&& forall|i: int, j: int|
        0 <= i < s.len() && 0 <= j < s.len() && i != j && (#[trigger] s[i]).start <= (#[trigger] s[j]).start
            ==> s[i].end <= s[j].start
}

/// Relies on slice::sort_by_key: the result is a reordering of the input,
/// ascending by start.
#[verifier::external_body]
fn sort_by_start(v: &mut Vec<Range<u64>>)
    ensures
        final(v)@.to_multiset() == old(v)@.to_multiset(),
        forall|i: int, j: int|
            0 <= i < j < final(v)@.len() ==> (#[trigger] final(v)@[i]).start <= (#[trigger] final(v)@[j]).start,
{
    v.sort_by_key(|r| r.start);
}

/// A value found at two places of `s` is found at two places of any
/// reordering `r` of `s`.
proof fn lemma_twice_in_reordering<A>(s: Seq<A>, r: Seq<A>, i: int, j: int) -> (ab: (int, int))
    requires
        s.to_multiset() == r.to_multiset(),
        0 <= i < j < s.len(),
        s[i] == s[j],
    ensures
        0 <= ab.0 < r.len(),
        0 <= ab.1 < r.len(),
        ab.0 != ab.1,
        r[ab.0] == s[i],
        r[ab.1] == s[i],
{
    broadcast use vstd::seq_lib::group_to_multiset_ensures;
    broadcast use vstd::multiset::group_multiset_axioms;

    let x = s[i];
    let s0 = s.subrange(0, j);
    let s1 = s.subrange(j, s.len() as int);
    assert(s == s0 + s1);
    vstd::seq_lib::lemma_multiset_commutative(s0, s1);
    assert(s0[i] == x);
    assert(s1[0] == x);
    assert(s0.contains(x));
    assert(s1.contains(x));
    assert(r.to_multiset().count(x) >= 2);
    assert(r.contains(x));
    let a = choose|a: int| 0 <= a < r.len() && r[a] == x;
    let rr = r.remove(a);
    assert(rr.to_multiset().count(x) >= 1);
    assert(rr.contains(x));
    let b0 = choose|b: int| 0 <= b < rr.len() && rr[b] == x;
    let b = if b0 < a { b0 } else { b0 + 1 };
    assert(r[b] == x);
    (a, b)
}

/// In sorted, disjoint ranges, an offset is held by some range exactly when
/// the range at its lookup index starts at or before it.
pub proof fn lemma_lookup_consistent_with_contains(s: Seq<Range<u64>>, e: u64, k: int)
    requires
        sorted_disjoint(s),
        is_lookup_index(s, e, k),
    ensures
        seq_holds(s, e as int) <==> (k < s.len() && s[k].start <= e),
{
    if seq_holds(s, e as int) {
        let i = choose|i: int| 0 <= i < s.len() && holds(s[i], e as int);
        if i > k {
            assert(s[k].end <= s[i].start);
        }
    }
    if k < s.len() && s[k].start <= e {
        assert(holds(s[k], e as int));
    }
}

/// A tree of non-overlapping ranges (with gaps), kept in ascending order.
pub struct RangeTree {
    ranges: Vec<Range<u64>>,
}

impl View for RangeTree {
    type V = Seq<Range<u64>>;

    closed spec fn view(&self) -> Seq<Range<u64>> {
        self.ranges@
    }
}

impl RangeTree {
    pub open spec fn wf(&self) -> bool {
        sorted_disjoint(self@)
    }

    pub fn new() -> (t: RangeTree)
        ensures
            t.wf(),
            t@ == Seq::<Range<u64>>::empty(),
    {
        RangeTree { ranges: Vec::new() }
    }

    /// Append a range which must lie after all ranges added so far.
    pub fn append(&mut self, range: Range<u64>)
        requires
            old(self).wf(),
            range.start <= range.end,
            old(self)@.len() > 0 ==> old(self)@.last().end <= range.start,
        ensures
            final(self).wf(),
            final(self)@ == old(self)@.push(range),
    {
        self.ranges.push(range);
    }

    pub fn len(&self) -> (n: usize)
        ensures
            n == self@.len(),
    {
        self.ranges.len()
    }

    pub fn is_empty(&self) -> (b: bool)
        ensures
            b == (self@.len() == 0),
    {
        self.ranges.len() == 0
    }

    pub fn get(&self, index: usize) -> (r: Option<&Range<u64>>)
        ensures
            index < self@.len() ==> r == Some(&self@[index as int]),
            index >= self@.len() ==> r.is_none(),
    {
        if index < self.ranges.len() {
            Some(&self.ranges[index])
        } else {
            None
        }
    }

    /// The index of the range holding `element`, or where a range holding it
    /// would be inserted.
    pub fn lookup_index(&self, element: u64) -> (k: usize)
        requires
            self.wf(),
        ensures
            is_lookup_index(self@, element, k as int),
    {
        let mut lo: usize = 0;
        let mut hi: usize = self.ranges.len();
        while lo < hi
            invariant
                self.wf(),
                0 <= lo <= hi <= self@.len(),
                forall|i: int| 0 <= i < lo ==> (#[trigger] self@[i]).end <= element,
                forall|i: int| hi <= i < self@.len() ==> element < (#[trigger] self@[i]).end,
            decreases hi - lo,
        {
            let mid = lo + (hi - lo) / 2;
            if self.ranges[mid].end <= element {
                proof {
                    assert forall|i: int| 0 <= i < mid + 1 implies (#[trigger] self@[i]).end <= element by {
                        if i < mid {
                            assert(self@[i].end <= self@[mid as int].start);
                        }
                    }
                }
                lo = mid + 1;
            } else {
                proof {
                    assert forall|i: int| mid <= i < self@.len() implies element < (#[trigger] self@[i]).end by {
                        if i > mid {
                            assert(self@[mid as int].end <= self@[i].start);
                        }
                    }
                }
                hi = mid;
            }
        }
        lo
    }

    /// Whether any range of this tree holds `element`.
    pub fn contains(&self, element: u64) -> (b: bool)
        requires
            self.wf(),
        ensures
            b == seq_holds(self@, element as int),
    {
        let k = self.lookup_index(element);
        if k < self.ranges.len() {
            let b = self.ranges[k].start <= element;
            proof {
                if !b {
                    assert forall|i: int| 0 <= i < self@.len() implies !holds(#[trigger] self@[i], element as int) by {
                        if i > k {
                            assert(self@[k as int].end <= self@[i].start);
                        }
                    }
                }
            }
            b
        } else {
            proof {
                assert forall|i: int| 0 <= i < self@.len() implies !holds(#[trigger] self@[i], element as int) by {}
            }
            false
        }
    }

    proof fn lemma_exact_at_lookup(&self, range: Range<u64>, k: int)
        requires
            self.wf(),
            is_lookup_index(self@, range.start, k),
            range.start < range.end,
        ensures
            self@.contains(range) <==> (k < self@.len() && self@[k] == range),
    {
        if self@.contains(range) {
            let j = choose|j: int| 0 <= j < self@.len() && self@[j] == range;
            if j > k {
                assert(self@[k].end <= self@[j].start);
            }
        }
    }

    /// Whether this tree stores exactly `range`; an empty range is never found.
    pub fn contains_range_exact(&self, range: Range<u64>) -> (b: bool)
        requires
            self.wf(),
            range.start <= range.end,
        ensures
            b == has_exact(self@, range),
    {
        let k = self.lookup_index(range.start);
        proof {
            if range.start < range.end {
                self.lemma_exact_at_lookup(range, k as int);
            }
        }
        if k < self.ranges.len() {
            let r = &self.ranges[k];
            r.start == range.start && r.end == range.end
        } else {
            false
        }
    }

    /// Remove `range` if this tree stores exactly it, returning whether it did.
    pub fn remove_range_exact(&mut self, range: Range<u64>) -> (removed: bool)
        requires
            old(self).wf(),
            range.start <= range.end,
        ensures
            final(self).wf(),
            removed == has_exact(old(self)@, range),
            removed ==> exists|k: int|
                0 <= k < old(self)@.len() && old(self)@[k] == range && final(self)@ == old(self)@.remove(k),
            !removed ==> final(self)@ == old(self)@,
            forall|x: Range<u64>| #[trigger] final(self)@.contains(x) <==> (old(self)@.contains(x) && (removed ==> x != range)),
    {
        let k = self.lookup_index(range.start);
        proof {
            if range.start < range.end {
                self.lemma_exact_at_lookup(range, k as int);
            }
        }
        if k < self.ranges.len() && self.ranges[k].start == range.start && self.ranges[k].end == range.end {
            let ghost before = self@;
            self.ranges.remove(k);
            proof {
                assert(before[k as int] == range);
                assert forall|x: Range<u64>| #[trigger] self@.contains(x) <==> (before.contains(x) && x != range) by {
                    if before.contains(x) && x != range {
                        let j = choose|j: int| 0 <= j < before.len() && before[j] == x;
                        if j < k {
                            assert(self@[j] == x);
                        } else {
                            assert(self@[j - 1] == x);
                        }
                    }
                    if self@.contains(x) {
                        let j = choose|j: int| 0 <= j < self@.len() && self@[j] == x;
                        if j < k {
                            assert(before[j] == x);
                            assert(before[j].end <= before[k as int].start);
                        } else {
                            assert(before[j + 1] == x);
                            assert(before[k as int].end <= before[j + 1].start);
                        }
                    }
                }
                assert forall|i: int, j: int| 0 <= i < j < self@.len() implies (#[trigger] self@[i]).end <= (#[trigger] self@[j]).start by {
                    let ii = if i < k { i } else { i + 1 };
                    let jj = if j < k { j } else { j + 1 };
                    assert(self@[i] == before[ii]);
                    assert(self@[j] == before[jj]);
                }
            }
            true
        } else {
            false
        }
    }

    /// Insert a range that overlaps no stored range, keeping the order.
    pub fn insert(&mut self, range: Range<u64>)
        requires
            old(self).wf(),
            range.start <= range.end,
            forall|i: int| 0 <= i < old(self)@.len() ==> !overlaps(#[trigger] old(self)@[i], range),
        ensures
            final(self).wf(),
            exists|k: int|
                is_lookup_index(old(self)@, range.start, k) && final(self)@ == old(self)@.insert(k, range),
            forall|x: Range<u64>| #[trigger] final(self)@.contains(x) <==> (old(self)@.contains(x) || x == range),
    {
        let k = self.lookup_index(range.start);
        let ghost before = self@;
        proof {
            if k < before.len() {
                assert(!overlaps(before[k as int], range));
            }
        }
        self.ranges.insert(k, range);
        proof {
            assert(self@ == before.insert(k as int, range));
            assert forall|i: int, j: int| 0 <= i < j < self@.len() implies (#[trigger] self@[i]).end <= (#[trigger] self@[j]).start by {
                if j < k {
                } else if j == k {
                } else if i == k {
                    assert(self@[j] == before[j - 1]);
                    if j - 1 > k {
                        assert(before[k as int].end <= before[j - 1].start);
                    }
                } else if i < k {
                    assert(self@[j] == before[j - 1]);
                } else {
                    assert(self@[j] == before[j - 1]);
                    assert(self@[i] == before[i - 1]);
                }
            }
            assert forall|i: int| 0 <= i < self@.len() implies (#[trigger] self@[i]).start <= self@[i].end by {
                if i > k {
                    assert(self@[i] == before[i - 1]);
                }
            }
            assert forall|x: Range<u64>| #[trigger] self@.contains(x) <==> (before.contains(x) || x == range) by {
                if before.contains(x) {
                    let j = choose|j: int| 0 <= j < before.len() && before[j] == x;
                    if j < k {
                        assert(self@[j] == x);
                    } else {
                        assert(self@[j + 1] == x);
                    }
                }
                if x == range {
                    assert(self@[k as int] == x);
                }
                if self@.contains(x) {
                    let j = choose|j: int| 0 <= j < self@.len() && self@[j] == x;
                    if j < k {
                        assert(before[j] == x);
                    } else if j > k {
                        assert(before[j - 1] == x);
                    }
                }
            }
        }
    }

    /// The stored ranges, in order.
    pub fn into_inner(self) -> (v: Vec<Range<u64>>)
        ensures
            v@ == self@,
    {
        self.ranges
    }

    /// Build a tree from ranges given in any order.
    pub fn from_vec(ranges: Vec<Range<u64>>) -> (t: RangeTree)
        requires
            pairwise_ordered(ranges@),
        ensures
            t.wf(),
            t@.to_multiset() == ranges@.to_multiset(),
    {
        let mut ranges = ranges;
        let ghost given = ranges@;
        sort_by_start(&mut ranges);
        proof {
            broadcast use vstd::seq_lib::group_to_multiset_ensures;

            let s = ranges@;
            assert forall|i: int| 0 <= i < s.len() implies (#[trigger] s[i]).start <= s[i].end by {
                assert(s.contains(s[i]));
                assert(given.to_multiset().count(s[i]) > 0);
                assert(given.contains(s[i]));
            }
            assert forall|i: int, j: int| 0 <= i < j < s.len() implies (#[trigger] s[i]).end <= (#[trigger] s[j]).start by {
                if s[i] == s[j] {
                    let (a, b) = lemma_twice_in_reordering(s, given, i, j);
                    assert(given[a].start <= given[b].start);
                } else {
                    assert(s.contains(s[i]));
                    assert(s.contains(s[j]));
                    assert(given.to_multiset().count(s[i]) > 0);
                    assert(given.to_multiset().count(s[j]) > 0);
                    assert(given.contains(s[i]));
                    assert(given.contains(s[j]));
                    let a = choose|a: int| 0 <= a < given.len() && given[a] == s[i];
                    let b = choose|b: int| 0 <= b < given.len() && given[b] == s[j];
                    assert(given[a].start <= given[b].start);
                }
            }
        }
        RangeTree { ranges }
    }

    /// The stored ranges from the one that holds or follows `range.start` on,
    /// for as long as they start at or before `range.end`.
    pub fn ranges_touching(&self, range: Range<u64>) -> (it: RangesTouching<'_>)
        requires
            self.wf(),
        ensures
            it.range_tree == self,
            is_lookup_index(self@, range.start, it.index as int),
            it.end == range.end,
    {
        RangesTouching { range_tree: self, index: self.lookup_index(range.start), end: range.end }
    }
}

/// A cursor over the ranges of a tree that touch a given range.
pub struct RangesTouching<'a> {
    pub range_tree: &'a RangeTree,
    pub index: usize,
    pub end: u64,
}

impl<'a> RangesTouching<'a> {
    /// The next touching range, if any.
    pub fn next(&mut self) -> (r: Option<Range<u64>>)
        ensures
            final(self).range_tree == old(self).range_tree,
            final(self).end == old(self).end,
            ({
                let s = old(self).range_tree@;
                let k = old(self).index as int;
                if k < s.len() && s[k].start <= old(self).end {
                    r == Some(s[k]) && final(self).index == k + 1
                } else {
                    r.is_none() && final(self).index == k
                }
            }),
    {
        if self.index < self.range_tree.ranges.len() {
            let r = &self.range_tree.ranges[self.index];
            if r.start <= self.end {
                self.index = self.index + 1;
                return Some(Range { start: r.start, end: r.end });
            }
        }
        None
    }
}

} // verus!
