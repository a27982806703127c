//! The state shared by the views: the viewport, the diffs found so far, and
//! the three sets of decisions taken on them.
use std::ops::Range;
use vstd::prelude::*;

use crate::range_tree::RangeTree;

verus! {

/// `n` rounded up to a multiple of 16.
pub open spec fn round_up16(n: int) -> int {
    if n % 16 == 0 {
        n
    } else {
        n - n % 16 + 16
    }
}

/// The highest offset a viewport of `height` rows may start at without
/// reaching past the file's length rounded up to a whole row.
pub open spec fn max_pos(len: u64, height: u16) -> int {
    let m = round_up16(len as int) - height * 16;
    if m < 0 {
        0
    } else {
        m
    }
}

/// `x - y`, or 0 where that is negative.
pub open spec fn sat_sub(x: int, y: int) -> int {
    if x < y {
        0
    } else {
        x - y
    }
}

/// The viewport offset that shows the diff `[start, end)`: centered when it
/// fits with three rows to spare, otherwise two rows below the top; aligned
/// down to a row, and never past `max_pos`.
pub open spec fn center_pos(start: int, end: int, len: u64, height: u16) -> int {
    let shown = height * 16;
    let l = end - start;
    let p = if l + 48 <= shown {
        sat_sub(start, (shown - l) / 2)
    } else {
        sat_sub(start, 32)
    };
    let aligned = p - p % 16;
    if aligned <= max_pos(len, height) {
        aligned
    } else {
        max_pos(len, height)
    }
}

/// No diff carries two decisions.
pub open spec fn decisions_disjoint(m12: Seq<Range<u64>>, m21: Seq<Range<u64>>, lu: Seq<Range<u64>>) -> bool {
    &&& forall|x: Range<u64>| !(m12.contains(x) && m21.contains(x))
    &&& forall|x: Range<u64>| !(m12.contains(x) && lu.contains(x))
    &&& forall|x: Range<u64>| !(m21.contains(x) && lu.contains(x))
}

/// Every range of `t` is one of `s`.
pub open spec fn all_in(t: Seq<Range<u64>>, s: Seq<Range<u64>>) -> bool {
    forall|x: Range<u64>| #[trigger] t.contains(x) ==> s.contains(x)
}

/// The diff selected after stepping forward from `cur` among `n` diffs, wrapping
/// round at the end.
pub open spec fn next_index(cur: Option<usize>, n: nat) -> Option<usize> {
    match cur {
        None => if n == 0 {
            None
        } else {
            Some(0usize)
        },
        Some(i) => Some(((i + 1) % (n as int)) as usize),
    }
}

/// The diff selected after stepping back from `cur` among `n` diffs, wrapping
/// round at the start.
pub open spec fn prev_index(cur: Option<usize>, n: nat) -> Option<usize> {
    match cur {
        None => if n == 0 {
            None
        } else {
            Some((n - 1) as usize)
        },
        Some(i) => if i == 0 {
            Some(sat_sub(n as int, 1) as usize)
        } else {
            Some((i - 1) as usize)
        },
    }
}

/// Whether `x` is in the set of decision `which` after deciding `d` on `r`,
/// when it was in it before exactly if `before`.
pub open spec fn after_decision(before: bool, x: Range<u64>, r: Range<u64>, d: Decision, which: Decision) -> bool {
    if x == r {
        d == which
    } else {
        before
    }
}

/// Put `r`, one of the diffs, into a set of decisions.
fn put(tree: &mut RangeTree, r: Range<u64>, diffs: &RangeTree)
    requires
        old(tree).wf(),
        diffs.wf(),
        forall|i: int| 0 <= i < diffs@.len() ==> (#[trigger] diffs@[i]).start < diffs@[i].end,
        all_in(old(tree)@, diffs@),
        diffs@.contains(r),
    ensures
        final(tree).wf(),
        all_in(final(tree)@, diffs@),
        forall|x: Range<u64>| #[trigger] final(tree)@.contains(x) <==> (old(tree)@.contains(x) || x == r),
{
    let k = Ghost(choose|k: int| 0 <= k < diffs@.len() && diffs@[k] == r);
    if !tree.contains_range_exact(Range { start: r.start, end: r.end }) {
        proof {
            assert forall|i: int| 0 <= i < tree@.len() implies !crate::range_tree::overlaps(#[trigger] tree@[i], r) by {
                let x = tree@[i];
                assert(tree@.contains(x));
                let j = choose|j: int| 0 <= j < diffs@.len() && diffs@[j] == x;
                assert(j != k@);
                if j < k@ {
                    assert(diffs@[j].end <= diffs@[k@].start);
                } else {
                    assert(diffs@[k@].end <= diffs@[j].start);
                }
            }
        }
        tree.insert(r);
    }
}

/// Take `r`, a non-empty range, out of a set of decisions.
fn take_out(tree: &mut RangeTree, r: Range<u64>, diffs: &RangeTree)
    requires
        old(tree).wf(),
        r.start < r.end,
        all_in(old(tree)@, diffs@),
    ensures
        final(tree).wf(),
        all_in(final(tree)@, diffs@),
        forall|x: Range<u64>| #[trigger] final(tree)@.contains(x) <==> (old(tree)@.contains(x) && x != r),
{
    tree.remove_range_exact(r);
}

/// Sorted ranges that are not empty are all distinct.
proof fn lemma_no_duplicates(s: Seq<Range<u64>>, d: Seq<Range<u64>>)
    requires
        crate::range_tree::sorted_disjoint(s),
        all_in(s, d),
        forall|i: int| 0 <= i < d.len() ==> (#[trigger] d[i]).start < d[i].end,
    ensures
        s.no_duplicates(),
        s.to_set().len() == s.len(),
        s.to_set().finite(),
{
    assert forall|i: int, j: int| 0 <= i < s.len() && 0 <= j < s.len() && i != j implies s[i] != s[j] by {
        assert(s.contains(s[i]));
        let k = choose|k: int| 0 <= k < d.len() && d[k] == s[i];
        if i < j {
            assert(s[i].end <= s[j].start);
        } else {
            assert(s[j].end <= s[i].start);
        }
    }
    s.unique_seq_to_set();
    vstd::seq_lib::seq_to_set_is_finite(s);
}

/// What to do with one diff.
#[derive(PartialEq, Eq, Structural, Debug, Copy, Clone)]
pub enum Decision {
    /// Copy the first file's bytes over the second's.
    MergeRight,
    /// Copy the second file's bytes over the first's.
    MergeLeft,
    /// Keep both sides as they are.
    LeaveUnmerged,
    /// Take back any decision.
    Reset,
}

/// The interactive state.
pub struct AppCtx {
    pub name1: String,
    pub name2: String,
    pub exit: bool,
    pub apply_requested: bool,
    pub shown_data_height: u16,
    pub pos: u64,
    pub len: u64,
    pub diffs: RangeTree,
    pub current_diff_index: Option<usize>,
    pub all_diffs_loaded: bool,
    pub merges_1_into_2: RangeTree,
    pub merges_2_into_1: RangeTree,
    pub leave_unmerged: RangeTree,
}

impl AppCtx {
    pub open spec fn wf(&self) -> bool {
        &&& self.pos % 16 == 0
        &&& self.pos <= max_pos(self.len, self.shown_data_height)
        &&& self.len <= u64::MAX - 15
        &&& self.diffs.wf()
        &&& self.merges_1_into_2.wf()
        &&& self.merges_2_into_1.wf()
        &&& self.leave_unmerged.wf()
        &&& forall|i: int| 0 <= i < self.diffs@.len() ==> (#[trigger] self.diffs@[i]).start < self.diffs@[i].end
        &&& (self.current_diff_index matches Some(i) ==> i < self.diffs@.len())
        &&& all_in(self.merges_1_into_2@, self.diffs@)
        &&& all_in(self.merges_2_into_1@, self.diffs@)
        &&& all_in(self.leave_unmerged@, self.diffs@)
        &&& decisions_disjoint(self.merges_1_into_2@, self.merges_2_into_1@, self.leave_unmerged@)
    }

    /// Nothing but the viewport offset differs between `self` and `o`.
    pub open spec fn same_but_pos(&self, o: &AppCtx) -> bool {
        &&& self.name1 == o.name1
        &&& self.name2 == o.name2
        &&& self.exit == o.exit
        &&& self.apply_requested == o.apply_requested
        &&& self.shown_data_height == o.shown_data_height
        &&& self.len == o.len
        &&& self.diffs == o.diffs
        &&& self.current_diff_index == o.current_diff_index
        &&& self.all_diffs_loaded == o.all_diffs_loaded
        &&& self.merges_1_into_2 == o.merges_1_into_2
        &&& self.merges_2_into_1 == o.merges_2_into_1
        &&& self.leave_unmerged == o.leave_unmerged
    }

    /// The state for two files of `len` bytes each, before any diff is known.
    pub fn new(name1: String, name2: String, len: u64) -> (c: AppCtx)
        requires
            len <= u64::MAX - 15,
        ensures
            c.wf(),
            c.name1 == name1,
            c.name2 == name2,
            c.len == len,
            c.pos == 0,
            c.shown_data_height == 0,
            !c.exit,
            !c.apply_requested,
            !c.all_diffs_loaded,
            c.current_diff_index.is_none(),
            c.diffs@.len() == 0,
            c.merges_1_into_2@.len() == 0,
            c.merges_2_into_1@.len() == 0,
            c.leave_unmerged@.len() == 0,
    {
        AppCtx {
            name1,
            name2,
            exit: false,
            apply_requested: false,
            shown_data_height: 0,
            pos: 0,
            len,
            diffs: RangeTree::new(),
            current_diff_index: None,
            all_diffs_loaded: false,
            merges_1_into_2: RangeTree::new(),
            merges_2_into_1: RangeTree::new(),
            leave_unmerged: RangeTree::new(),
        }
    }

    /// Move the viewport up by `by` bytes, stopping at the top.
    pub fn decrease_pos(&mut self, by: u64)
        requires
            old(self).wf(),
            by % 16 == 0,
        ensures
            final(self).wf(),
            final(self).same_but_pos(old(self)),
            final(self).pos == sat_sub(old(self).pos as int, by as int),
    {
        self.pos = self.pos.saturating_sub(by);
    }

    /// Move the viewport down by `by` bytes, stopping at `max_pos`.
    pub fn increase_pos(&mut self, by: u64)
        requires
            old(self).wf(),
            by % 16 == 0,
        ensures
            final(self).wf(),
            final(self).same_but_pos(old(self)),
            final(self).pos == if old(self).pos + by <= max_pos(old(self).len, old(self).shown_data_height) {
                old(self).pos + by
            } else {
                max_pos(old(self).len, old(self).shown_data_height)
            },
    {
        let m = self.max_pos();
        if by <= m && self.pos <= m - by {
            self.pos = self.pos + by;
        } else {
            self.pos = m;
        }
    }

    /// The highest offset the viewport may start at.
    pub fn max_pos(&self) -> (m: u64)
        requires
            self.len <= u64::MAX - 15,
        ensures
            m == max_pos(self.len, self.shown_data_height),
            m % 16 == 0,
    {
        let rem = self.len % 16;
        let up = if rem == 0 { self.len } else { self.len - rem + 16 };
        let shown = self.shown_data_height as u64 * 16;
        if up < shown {
            0
        } else {
            up - shown
        }
    }

    /// Record the number of rows the viewport shows, pulling the viewport up
    /// where it would now reach past the end.
    pub fn set_shown_data_height(&mut self, height: u16)
        requires
            old(self).wf(),
        ensures
            final(self).wf(),
            final(self).shown_data_height == height,
            final(self).pos == if old(self).pos <= max_pos(old(self).len, height) {
                old(self).pos as int
            } else {
                max_pos(old(self).len, height)
            },
            final(self).same_but_pos(&(AppCtx { shown_data_height: height, ..*old(self) })),
    {
        self.shown_data_height = height;
        let m = self.max_pos();
        if self.pos > m {
            self.pos = m;
        }
    }

    /// Add a newly found diff, which lies after all diffs found so far.
    pub fn add_diff(&mut self, range: Range<u64>)
        requires
            old(self).wf(),
            range.start < range.end,
            old(self).diffs@.len() > 0 ==> old(self).diffs@.last().end <= range.start,
        ensures
            final(self).wf(),
            final(self).diffs@ == old(self).diffs@.push(range),
            final(self).same_but_pos(&(AppCtx { diffs: final(self).diffs, ..*old(self) })),
            final(self).pos == old(self).pos,
    {
        let ghost before = self.diffs@;
        self.diffs.append(range);
        proof {
            assert forall|x: Range<u64>| before.contains(x) implies #[trigger] self.diffs@.contains(x) by {
                let j = choose|j: int| 0 <= j < before.len() && before[j] == x;
                assert(self.diffs@[j] == x);
            }
        }
    }

    /// Point the viewport at the selected diff.
    fn center_diff(&mut self)
        requires
            old(self).wf(),
        ensures
            final(self).wf(),
            final(self).same_but_pos(old(self)),
            final(self).pos == match old(self).current_diff_index {
                Some(i) => center_pos(
                    old(self).diffs@[i as int].start as int,
                    old(self).diffs@[i as int].end as int,
                    old(self).len,
                    old(self).shown_data_height,
                ),
                None => old(self).pos as int,
            },
    {
        let index = match self.current_diff_index {
            Some(i) => i,
            None => return
        };
        let (start, end) = match self.diffs.get(index) {
            Some(r) => (r.start, r.end),
            None => return
        };
        let l = end - start;
        let shown = self.shown_data_height as u64 * 16;
        let p = if shown >= 48 && l <= shown - 48 {
            start.saturating_sub((shown - l) / 2)
        } else {
            start.saturating_sub(32)
        };
        let aligned = p - p % 16;
        let m = self.max_pos();
        self.pos = if aligned <= m { aligned } else { m };
    }

    /// Select the next diff, wrapping round, and point the viewport at it.
    pub fn next_diff(&mut self)
        requires
            old(self).wf(),
        ensures
            final(self).wf(),
            final(self).current_diff_index == next_index(old(self).current_diff_index, old(self).diffs@.len()),
            final(self).same_but_pos(&(AppCtx { current_diff_index: final(self).current_diff_index, ..*old(self) })),
            final(self).pos == match final(self).current_diff_index {
                Some(i) => center_pos(
                    old(self).diffs@[i as int].start as int,
                    old(self).diffs@[i as int].end as int,
                    old(self).len,
                    old(self).shown_data_height,
                ),
                None => old(self).pos as int,
            },
    {
        let n = self.diffs.len();
        self.current_diff_index = match self.current_diff_index {
            None => if n == 0 {
                None
            } else {
                Some(0)
            },
            Some(index) => Some((index + 1) % n),
        };
        self.center_diff();
    }

    /// Select the previous diff, wrapping round, and point the viewport at it.
    pub fn prev_diff(&mut self)
        requires
            old(self).wf(),
        ensures
            final(self).wf(),
            final(self).current_diff_index == prev_index(old(self).current_diff_index, old(self).diffs@.len()),
            final(self).same_but_pos(&(AppCtx { current_diff_index: final(self).current_diff_index, ..*old(self) })),
            final(self).pos == match final(self).current_diff_index {
                Some(i) => center_pos(
                    old(self).diffs@[i as int].start as int,
                    old(self).diffs@[i as int].end as int,
                    old(self).len,
                    old(self).shown_data_height,
                ),
                None => old(self).pos as int,
            },
    {
        self.current_diff_index = match self.current_diff_index {
            None => if self.diffs.is_empty() {
                None
            } else {
                Some(self.diffs.len() - 1)
            },
            Some(0) => Some(self.diffs.len().saturating_sub(1)),
            Some(index) => Some(index - 1),
        };
        self.center_diff();
    }

    /// `new` is `self` after deciding `d` on the selected diff: it leaves the
    /// other two sets of decisions, and joins the one that `d` names.
    pub open spec fn classified(&self, new: &AppCtx, d: Decision) -> bool {
        &&& new.same_but_pos(&(AppCtx {
            merges_1_into_2: new.merges_1_into_2,
            merges_2_into_1: new.merges_2_into_1,
            leave_unmerged: new.leave_unmerged,
            ..*self
        }))
        &&& new.pos == self.pos
        &&& match self.current_diff_index {
            Some(i) => {
                let r = self.diffs@[i as int];
                &&& forall|x: Range<u64>| #[trigger] new.merges_1_into_2@.contains(x)
                    == after_decision(self.merges_1_into_2@.contains(x), x, r, d, Decision::MergeRight)
                &&& forall|x: Range<u64>| #[trigger] new.merges_2_into_1@.contains(x)
                    == after_decision(self.merges_2_into_1@.contains(x), x, r, d, Decision::MergeLeft)
                &&& forall|x: Range<u64>| #[trigger] new.leave_unmerged@.contains(x)
                    == after_decision(self.leave_unmerged@.contains(x), x, r, d, Decision::LeaveUnmerged)
            },
            None => {
                &&& new.merges_1_into_2 == self.merges_1_into_2
                &&& new.merges_2_into_1 == self.merges_2_into_1
                &&& new.leave_unmerged == self.leave_unmerged
            },
        }
    }

    /// Decide `d` on the selected diff.
    pub fn classify(&mut self, d: Decision)
        requires
            old(self).wf(),
        ensures
            final(self).wf(),
            old(self).classified(final(self), d),
    {
        let index = match self.current_diff_index {
            Some(i) => i,
            None => return
        };
        let (start, end) = match self.diffs.get(index) {
            Some(r) => (r.start, r.end),
            None => return
        };
        proof {
            assert(self.diffs@.contains(self.diffs@[index as int]));
        }
        match d {
            Decision::MergeRight => {
                put(&mut self.merges_1_into_2, start..end, &self.diffs);
                take_out(&mut self.merges_2_into_1, start..end, &self.diffs);
                take_out(&mut self.leave_unmerged, start..end, &self.diffs);
            },
            Decision::MergeLeft => {
                take_out(&mut self.merges_1_into_2, start..end, &self.diffs);
                put(&mut self.merges_2_into_1, start..end, &self.diffs);
                take_out(&mut self.leave_unmerged, start..end, &self.diffs);
            },
            Decision::LeaveUnmerged => {
                take_out(&mut self.merges_1_into_2, start..end, &self.diffs);
                take_out(&mut self.merges_2_into_1, start..end, &self.diffs);
                put(&mut self.leave_unmerged, start..end, &self.diffs);
            },
            Decision::Reset => {
                take_out(&mut self.merges_1_into_2, start..end, &self.diffs);
                take_out(&mut self.merges_2_into_1, start..end, &self.diffs);
                take_out(&mut self.leave_unmerged, start..end, &self.diffs);
            },
        }
    }

    /// The three sets of decisions together hold no more ranges than there are diffs.
    pub proof fn lemma_decided_count(&self)
        requires
            self.wf(),
        ensures
            self.merges_1_into_2@.len() + self.merges_2_into_1@.len() + self.leave_unmerged@.len() <= self.diffs@.len(),
    {
        let d = self.diffs@;
        lemma_no_duplicates(d, d);
        lemma_no_duplicates(self.merges_1_into_2@, d);
        lemma_no_duplicates(self.merges_2_into_1@, d);
        lemma_no_duplicates(self.leave_unmerged@, d);
        let a = self.merges_1_into_2@.to_set();
        let b = self.merges_2_into_1@.to_set();
        let c = self.leave_unmerged@.to_set();
        assert(a.disjoint(b));
        assert(a.disjoint(c));
        assert(b.disjoint(c));
        vstd::set_lib::lemma_set_disjoint_lens(a, b);
        assert((a + b).disjoint(c));
        vstd::set_lib::lemma_set_disjoint_lens(a + b, c);
        assert((a + b + c).subset_of(d.to_set()));
        vstd::set_lib::lemma_len_subset(a + b + c, d.to_set());
    }

    /// How many diffs carry a decision.
    pub fn decided_count(&self) -> (n: usize)
        requires
            self.wf(),
        ensures
            n == self.merges_1_into_2@.len() + self.merges_2_into_1@.len() + self.leave_unmerged@.len(),
            n <= self.diffs@.len(),
    {
        let total = self.diffs.len();
        proof {
            self.lemma_decided_count();
        }
        assert(self.merges_1_into_2@.len() + self.merges_2_into_1@.len() + self.leave_unmerged@.len() <= total);
        self.merges_1_into_2.len() + self.merges_2_into_1.len() + self.leave_unmerged.len()
    }

    /// How many diffs carry no decision yet.
    pub fn undecided_count(&self) -> (n: usize)
        requires
            self.wf(),
        ensures
            n == self.diffs@.len() - (self.merges_1_into_2@.len() + self.merges_2_into_1@.len() + self.leave_unmerged@.len()),
    {
        self.diffs.len() - self.decided_count()
    }
}

} // verus!
