//! Carrying out the decisions: which ranges are copied in which direction,
//! in how large pieces, and what the files hold afterwards.
use std::ops::Range;
use vstd::prelude::*;

use crate::app_ctx::AppCtx;
use crate::diff_iter::{diff_runs, is_diff_run, lemma_diff_runs, lemma_runs_meet, runs_hold, runs_of};
use crate::range_tree::RangeTree;

verus! {

/// The largest piece copied at once.
pub const COPY_BUF_LEN: usize = 8 * 1024 * 1024;

/// `a` with the bytes of `b` at every offset that a range of `from_b` holds.
pub open spec fn overwritten(a: Seq<u8>, b: Seq<u8>, from_b: Seq<(int, int)>) -> Seq<u8> {
    Seq::new(a.len(), |o: int| if runs_hold(from_b, o) { b[o] } else { a[o] })
}

/// Both files after the merges: first the ranges `into_1` are copied from the
/// second file into the first, then the ranges `into_2` from the (updated)
/// first file into the second.
pub open spec fn applied(a: Seq<u8>, b: Seq<u8>, into_1: Seq<(int, int)>, into_2: Seq<(int, int)>) -> (Seq<u8>, Seq<u8>) {
    let a2 = overwritten(a, b, into_1);
    (a2, overwritten(b, a2, into_2))
}

/// Every range of `m` is one of `r`.
pub open spec fn runs_in(m: Seq<(int, int)>, r: Seq<(int, int)>) -> bool {
    forall|x: (int, int)| #[trigger] m.contains(x) ==> r.contains(x)
}

/// An offset held by a range of `m`, whose ranges are all diff runs, lies in
/// one such run.
proof fn lemma_held_by_run(a: Seq<u8>, b: Seq<u8>, m: Seq<(int, int)>, o: int) -> (c: (int, int))
    requires
        a.len() == b.len(),
        runs_in(m, diff_runs(a, b)),
        runs_hold(m, o),
    ensures
        m.contains(c),
        is_diff_run(a, b, c.0, c.1),
        c.0 <= o < c.1,
{
    lemma_diff_runs(a, b);
    let k = choose|k: int| 0 <= k < m.len() && (#[trigger] m[k]).0 <= o < m[k].1;
    assert(m.contains(m[k]));
    m[k]
}

/// Applying merges, then running the differ on the resulting files, leaves
/// exactly the diffs that carried no merge: the offsets that still differ are
/// those that differed and lie in no merged range, and the runs found are the
/// earlier runs less the merged ones.
pub proof fn lemma_apply_leaves_unmerged(a: Seq<u8>, b: Seq<u8>, into_1: Seq<(int, int)>, into_2: Seq<(int, int)>)
    requires
        a.len() == b.len(),
        runs_in(into_1, diff_runs(a, b)),
        runs_in(into_2, diff_runs(a, b)),
        forall|x: (int, int)| !(into_1.contains(x) && into_2.contains(x)),
    ensures
        ({
            let (a2, b2) = applied(a, b, into_1, into_2);
            &&& a2.len() == a.len() && b2.len() == b.len()
            &&& forall|o: int| 0 <= o < a.len() ==> (#[trigger] a2[o] != b2[o] <==> a[o] != b[o] && !runs_hold(into_1, o) && !runs_hold(into_2, o))
            &&& forall|s: int, e: int| #[trigger] diff_runs(a2, b2).contains((s, e)) <==> diff_runs(a, b).contains((s, e))
                && !into_1.contains((s, e)) && !into_2.contains((s, e))
        }),
{
    let (a2, b2) = applied(a, b, into_1, into_2);
    let n = a.len() as int;
    lemma_diff_runs(a, b);
    lemma_diff_runs(a2, b2);
    assert forall|o: int| 0 <= o < n implies (#[trigger] a2[o] != b2[o] <==> a[o] != b[o] && !runs_hold(into_1, o) && !runs_hold(into_2, o)) by {
        if runs_hold(into_1, o) {
            let c1 = lemma_held_by_run(a, b, into_1, o);
            if runs_hold(into_2, o) {
                let c2 = lemma_held_by_run(a, b, into_2, o);
                lemma_runs_meet(a, b, c1.0, c1.1, c2.0, c2.1, o);
                assert(c1 == c2);
            }
        }
    }
    // an offset that still differs, or that differed and lies in no merged range
    assert forall|s: int, e: int| #[trigger] diff_runs(a2, b2).contains((s, e)) implies diff_runs(a, b).contains((s, e))
        && !into_1.contains((s, e)) && !into_2.contains((s, e)) by {
        assert(is_diff_run(a2, b2, s, e));
        assert(a2[s] != b2[s]);
        assert(!runs_hold(into_1, s) && !runs_hold(into_2, s));
        if s > 0 && a[s - 1] != b[s - 1] {
            assert(a2[s - 1] == b2[s - 1]);
            let c = if runs_hold(into_1, s - 1) {
                lemma_held_by_run(a, b, into_1, s - 1)
            } else {
                lemma_held_by_run(a, b, into_2, s - 1)
            };
            if c.1 > s {
                assert(into_1.contains(c) ==> runs_hold(into_1, s)) by {
                    if into_1.contains(c) {
                        let k = choose|k: int| 0 <= k < into_1.len() && into_1[k] == c;
                        assert(into_1[k].0 <= s < into_1[k].1);
                    }
                }
                assert(into_2.contains(c) ==> runs_hold(into_2, s)) by {
                    if into_2.contains(c) {
                        let k = choose|k: int| 0 <= k < into_2.len() && into_2[k] == c;
                        assert(into_2[k].0 <= s < into_2[k].1);
                    }
                }
            } else {
                assert(a[s] != b[s]);
            }
        }
        if e < n && a[e] != b[e] {
            assert(a2[e] == b2[e]);
            assert(a2[e - 1] != b2[e - 1]);
            assert(!runs_hold(into_1, e - 1) && !runs_hold(into_2, e - 1));
            let c = if runs_hold(into_1, e) {
                lemma_held_by_run(a, b, into_1, e)
            } else {
                lemma_held_by_run(a, b, into_2, e)
            };
            if c.0 < e {
                assert(into_1.contains(c) ==> runs_hold(into_1, e - 1)) by {
                    if into_1.contains(c) {
                        let k = choose|k: int| 0 <= k < into_1.len() && into_1[k] == c;
                        assert(into_1[k].0 <= e - 1 < into_1[k].1);
                    }
                }
                assert(into_2.contains(c) ==> runs_hold(into_2, e - 1)) by {
                    if into_2.contains(c) {
                        let k = choose|k: int| 0 <= k < into_2.len() && into_2[k] == c;
                        assert(into_2[k].0 <= e - 1 < into_2[k].1);
                    }
                }
            } else {
                assert(a[e - 1] != b[e - 1]);
            }
        }
        assert forall|o: int| s <= o < e implies #[trigger] a[o] != b[o] by {
            assert(a2[o] != b2[o]);
        }
        assert(is_diff_run(a, b, s, e));
        assert(into_1.contains((s, e)) ==> runs_hold(into_1, s)) by {
            if into_1.contains((s, e)) {
                let k = choose|k: int| 0 <= k < into_1.len() && into_1[k] == (s, e);
                assert(into_1[k].0 <= s < into_1[k].1);
            }
        }
        assert(into_2.contains((s, e)) ==> runs_hold(into_2, s)) by {
            if into_2.contains((s, e)) {
                let k = choose|k: int| 0 <= k < into_2.len() && into_2[k] == (s, e);
                assert(into_2[k].0 <= s < into_2[k].1);
            }
        }
    }
    assert forall|s: int, e: int| diff_runs(a, b).contains((s, e)) && !into_1.contains((s, e)) && !into_2.contains(
        (s, e),
    ) implies #[trigger] diff_runs(a2, b2).contains((s, e)) by {
        assert(is_diff_run(a, b, s, e));
        assert forall|o: int| s <= o < e implies #[trigger] a2[o] != b2[o] by {
            assert(a[o] != b[o]);
            if runs_hold(into_1, o) {
                let c = lemma_held_by_run(a, b, into_1, o);
                lemma_runs_meet(a, b, c.0, c.1, s, e, o);
            }
            if runs_hold(into_2, o) {
                let c = lemma_held_by_run(a, b, into_2, o);
                lemma_runs_meet(a, b, c.0, c.1, s, e, o);
            }
        }
        if s > 0 {
            assert(a[s - 1] == b[s - 1]);
        }
        if e < n {
            assert(a[e] == b[e]);
        }
        assert(is_diff_run(a2, b2, s, e));
    }
}

/// How many bytes to copy next, at `pos`, of a range ending at `end`.
pub fn copy_chunk_len(pos: u64, end: u64) -> (n: usize)
    requires
        pos < end,
    ensures
        n == if end - pos < COPY_BUF_LEN { end - pos } else { COPY_BUF_LEN as int },
        0 < n,
{
    if end - pos < COPY_BUF_LEN as u64 {
        (end - pos) as usize
    } else {
        COPY_BUF_LEN
    }
}

impl AppCtx {
    /// Take out the merges to carry out: first the ranges to copy from the
    /// second file into the first, then those to copy from the first into
    /// the second. Both sets of merges are left empty.
    pub fn take_merges(&mut self) -> (m: (Vec<Range<u64>>, Vec<Range<u64>>))
        requires
            old(self).wf(),
        ensures
            final(self).wf(),
            m.0@ == old(self).merges_2_into_1@,
            m.1@ == old(self).merges_1_into_2@,
            final(self).merges_2_into_1@.len() == 0,
            final(self).merges_1_into_2@.len() == 0,
            final(self).same_but_pos(&(AppCtx {
                merges_1_into_2: final(self).merges_1_into_2,
                merges_2_into_1: final(self).merges_2_into_1,
                ..*old(self)
            })),
            final(self).pos == old(self).pos,
    {
        let mut merges_1_into_2 = RangeTree::new();
        let mut merges_2_into_1 = RangeTree::new();
        std::mem::swap(&mut self.merges_1_into_2, &mut merges_1_into_2);
        std::mem::swap(&mut self.merges_2_into_1, &mut merges_2_into_1);
        (merges_2_into_1.into_inner(), merges_1_into_2.into_inner())
    }
}


/// A pair of `runs_of(t)` comes from a range of `t`.
proof fn lemma_runs_of_contains(t: Seq<Range<u64>>, p: (int, int)) -> (r: Range<u64>)
    requires
        runs_of(t).contains(p),
    ensures
        t.contains(r),
        p == (r.start as int, r.end as int),
{
    let k = choose|k: int| 0 <= k < runs_of(t).len() && runs_of(t)[k] == p;
    assert(t.contains(t[k]));
    t[k]
}

/// A range of `t` gives a pair of `runs_of(t)`.
proof fn lemma_runs_of_has(t: Seq<Range<u64>>, r: Range<u64>)
    requires
        t.contains(r),
    ensures
        runs_of(t).contains((r.start as int, r.end as int)),
{
    let k = choose|k: int| 0 <= k < t.len() && t[k] == r;
    assert(runs_of(t)[k] == (r.start as int, r.end as int));
}

impl AppCtx {
    /// Applying the merges decided in this state to files `a` and `b`, whose
    /// diffs are all found, then running the differ again, yields exactly the
    /// diffs that carry no merge decision.
    pub proof fn lemma_apply_decisions(&self, a: Seq<u8>, b: Seq<u8>)
        requires
            self.wf(),
            a.len() == b.len(),
            runs_of(self.diffs@) == diff_runs(a, b),
        ensures
            ({
                let (a2, b2) = applied(a, b, runs_of(self.merges_2_into_1@), runs_of(self.merges_1_into_2@));
                forall|s: int, e: int| #[trigger] diff_runs(a2, b2).contains((s, e)) <==> runs_of(self.diffs@).contains((s, e))
                    && !runs_of(self.merges_1_into_2@).contains((s, e)) && !runs_of(self.merges_2_into_1@).contains((s, e))
            }),
    {
        let d = self.diffs@;
        let into_1 = runs_of(self.merges_2_into_1@);
        let into_2 = runs_of(self.merges_1_into_2@);
        assert forall|p: (int, int)| #[trigger] into_1.contains(p) implies diff_runs(a, b).contains(p) by {
            let r = lemma_runs_of_contains(self.merges_2_into_1@, p);
            lemma_runs_of_has(d, r);
        }
        assert forall|p: (int, int)| #[trigger] into_2.contains(p) implies diff_runs(a, b).contains(p) by {
            let r = lemma_runs_of_contains(self.merges_1_into_2@, p);
            lemma_runs_of_has(d, r);
        }
        assert forall|p: (int, int)| !(into_1.contains(p) && into_2.contains(p)) by {
            if into_1.contains(p) && into_2.contains(p) {
                let r1 = lemma_runs_of_contains(self.merges_2_into_1@, p);
                let r2 = lemma_runs_of_contains(self.merges_1_into_2@, p);
                assert(r1 == r2);
            }
        }
        lemma_apply_leaves_unmerged(a, b, into_1, into_2);
    }
}

} // verus!
