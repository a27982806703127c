//! Locating the byte ranges where two equally long byte streams disagree.
//!
//! All strategies are held to one model: `scan` walks the bytes one at a time
//! and closes a run of differing offsets at the first equal byte after it;
//! `diff_runs` also closes the run that reaches the end.
use std::ops::Range;
use vstd::prelude::*;
use vstd::slice::{slice_subrange, slice_to_vec};

pub mod bytes;
pub mod memchr;
pub mod threaded;

pub use bytes::BytesDiffIter;
pub use memchr::MemchrDiffIter;
pub use threaded::ThreadedDiffIter;

verus! {

/// The plain strategy: one byte pair at a time.
pub type DiffIter = BytesDiffIter;

/// The runs closed so far and the start of the run still open, after the
/// first `n` offsets.
pub open spec fn scan(a: Seq<u8>, b: Seq<u8>, n: nat) -> (Seq<(int, int)>, Option<int>)
    decreases n,
{
    if n == 0 {
        (Seq::empty(), None)
    } else {
        let prev = scan(a, b, (n - 1) as nat);
        let i = n - 1;
        if a[i] != b[i] {
            (prev.0, if prev.1.is_some() { prev.1 } else { Some(i) })
        } else {
            (
                match prev.1 {
                    Some(s) => prev.0.push((s, i)),
                    None => prev.0,
                },
                None,
            )
        }
    }
}

/// The runs closed by the first `n` offsets.
pub open spec fn closed_runs(a: Seq<u8>, b: Seq<u8>, n: nat) -> Seq<(int, int)> {
    scan(a, b, n).0
}

/// The start of the run still open after the first `n` offsets.
pub open spec fn open_run(a: Seq<u8>, b: Seq<u8>, n: nat) -> Option<int> {
    scan(a, b, n).1
}

/// Every maximal run `[start, end)` of offsets at which `a` and `b` differ,
/// in ascending order.
pub open spec fn diff_runs(a: Seq<u8>, b: Seq<u8>) -> Seq<(int, int)> {
    let n = a.len();
    match open_run(a, b, n) {
        Some(s) => closed_runs(a, b, n).push((s, n as int)),
        None => closed_runs(a, b, n),
    }
}

/// `[s, e)` is a maximal non-empty run of offsets at which `a` and `b` differ.
pub open spec fn is_diff_run(a: Seq<u8>, b: Seq<u8>, s: int, e: int) -> bool {
    &&& 0 <= s < e <= a.len()
    &&& forall|o: int| s <= o < e ==> #[trigger] a[o] != b[o]
    &&& s == 0 || a[s - 1] == b[s - 1]
    &&& e == a.len() || a[e] == b[e]
}

/// Some run of `r` holds offset `o`.
pub open spec fn runs_hold(r: Seq<(int, int)>, o: int) -> bool {
    exists|k: int| 0 <= k < r.len() && (#[trigger] r[k]).0 <= o < r[k].1
}

/// The ranges as pairs of integers.
pub open spec fn runs_of(v: Seq<Range<u64>>) -> Seq<(int, int)> {
    v.map_values(|r: Range<u64>| (r.start as int, r.end as int))
}

/// No run, or the one given.
pub open spec fn opt_run(r: Option<Range<u64>>) -> Seq<(int, int)> {
    match r {
        Some(x) => seq![(x.start as int, x.end as int)],
        None => Seq::empty(),
    }
}

pub open spec fn scan_inv(a: Seq<u8>, b: Seq<u8>, n: nat) -> bool {
    let c = closed_runs(a, b, n);
    let o = open_run(a, b, n);
    &&& forall|k: int| 0 <= k < c.len() ==> is_diff_run(a, b, (#[trigger] c[k]).0, c[k].1) && c[k].1 < n
    &&& forall|i: int, j: int| 0 <= i < j < c.len() ==> (#[trigger] c[i]).1 < (#[trigger] c[j]).0
    &&& match o {
        Some(s) => {
            &&& 0 <= s < n
            &&& forall|x: int| s <= x < n ==> #[trigger] a[x] != b[x]
            &&& s == 0 || a[s - 1] == b[s - 1]
            &&& forall|k: int| 0 <= k < c.len() ==> (#[trigger] c[k]).1 < s
        },
        None => n == 0 || a[n - 1] == b[n - 1],
    }
    &&& forall|x: int|
        0 <= x < n && #[trigger] a[x] != b[x] ==> runs_hold(c, x) || (o.is_some() && o.unwrap() <= x)
}

/// What `scan` has found holds for every prefix.
pub proof fn lemma_scan(a: Seq<u8>, b: Seq<u8>, n: nat)
    requires
        a.len() == b.len(),
        n <= a.len(),
    ensures
        scan_inv(a, b, n),
    decreases n,
{
    if n > 0 {
        lemma_scan(a, b, (n - 1) as nat);
        let c = closed_runs(a, b, (n - 1) as nat);
        let o = open_run(a, b, (n - 1) as nat);
        let c2 = closed_runs(a, b, n);
        let o2 = open_run(a, b, n);
        let i = n - 1;
        if a[i] == b[i] && o.is_some() {
            let s = o.unwrap();
            assert(c2 == c.push((s, i)));
            assert forall|x: int| 0 <= x < n && #[trigger] a[x] != b[x] implies runs_hold(c2, x) by {
                if runs_hold(c, x) {
                    let k = choose|k: int| 0 <= k < c.len() && (#[trigger] c[k]).0 <= x < c[k].1;
                    assert(c2[k] == c[k]);
                } else {
                    assert(c2[c.len() as int] == (s, i));
                }
            }
        }
    }
}

/// Two maximal runs that share an offset are the same run.
pub proof fn lemma_runs_meet(a: Seq<u8>, b: Seq<u8>, s1: int, e1: int, s2: int, e2: int, x: int)
    requires
        is_diff_run(a, b, s1, e1),
        is_diff_run(a, b, s2, e2),
        s1 <= x < e1,
        s2 <= x < e2,
    ensures
        s1 == s2,
        e1 == e2,
{
    if s1 < s2 {
        assert(a[s2 - 1] != b[s2 - 1]);
    }
    if s2 < s1 {
        assert(a[s1 - 1] != b[s1 - 1]);
    }
    if e1 < e2 {
        assert(a[e1] != b[e1]);
    }
    if e2 < e1 {
        assert(a[e2] != b[e2]);
    }
}

/// The differ's output: its ranges are exactly the maximal runs of differing
/// offsets, they ascend with gaps between them, and together they hold exactly
/// the offsets at which the two sequences differ.
pub proof fn lemma_diff_runs(a: Seq<u8>, b: Seq<u8>)
    requires
        a.len() == b.len(),
    ensures
        forall|k: int| 0 <= k < diff_runs(a, b).len() ==> is_diff_run(a, b, (#[trigger] diff_runs(a, b)[k]).0, diff_runs(a, b)[k].1),
        forall|i: int, j: int|
            0 <= i < j < diff_runs(a, b).len() ==> (#[trigger] diff_runs(a, b)[i]).1 < (#[trigger] diff_runs(a, b)[j]).0,
        forall|o: int| 0 <= o < a.len() ==> (#[trigger] a[o] != b[o] <==> runs_hold(diff_runs(a, b), o)),
        forall|s: int, e: int| is_diff_run(a, b, s, e) <==> #[trigger] diff_runs(a, b).contains((s, e)),
{
    let n = a.len();
    lemma_scan(a, b, n);
    let c = closed_runs(a, b, n);
    let o = open_run(a, b, n);
    let r = diff_runs(a, b);
    if o.is_some() {
        let s = o.unwrap();
        assert(r == c.push((s, n as int)));
        assert forall|k: int| 0 <= k < r.len() implies is_diff_run(a, b, (#[trigger] r[k]).0, r[k].1) by {
            if k < c.len() {
                assert(r[k] == c[k]);
            }
        }
        assert forall|x: int| 0 <= x < n && #[trigger] a[x] != b[x] implies runs_hold(r, x) by {
            if runs_hold(c, x) {
                let k = choose|k: int| 0 <= k < c.len() && (#[trigger] c[k]).0 <= x < c[k].1;
                assert(r[k] == c[k]);
            } else {
                assert(r[c.len() as int] == (s, n as int));
            }
        }
    }
    assert forall|x: int| 0 <= x < n && runs_hold(r, x) implies #[trigger] a[x] != b[x] by {
        let k = choose|k: int| 0 <= k < r.len() && (#[trigger] r[k]).0 <= x < r[k].1;
        assert(is_diff_run(a, b, r[k].0, r[k].1));
    }
    assert forall|s: int, e: int| is_diff_run(a, b, s, e) implies #[trigger] r.contains((s, e)) by {
        assert(a[s] != b[s]);
        assert(runs_hold(r, s));
        let k = choose|k: int| 0 <= k < r.len() && (#[trigger] r[k]).0 <= s < r[k].1;
        lemma_runs_meet(a, b, s, e, r[k].0, r[k].1, s);
        assert(r[k] == (s, e));
    }
}

/// `scan` over the first `n` offsets reads nothing beyond them.
pub proof fn lemma_scan_prefix(a: Seq<u8>, b: Seq<u8>, a2: Seq<u8>, b2: Seq<u8>, n: nat)
    requires
        n <= a.len(),
        n <= b.len(),
        n <= a2.len(),
        n <= b2.len(),
        forall|i: int| 0 <= i < n ==> a[i] == a2[i] && b[i] == b2[i],
    ensures
        scan(a, b, n) == scan(a2, b2, n),
    decreases n,
{
    if n > 0 {
        lemma_scan_prefix(a, b, a2, b2, (n - 1) as nat);
    }
}

proof fn lemma_runs_of_push(v: Seq<Range<u64>>, r: Option<Range<u64>>, w: Seq<Range<u64>>)
    requires
        w == (match r {
            Some(x) => v.push(x),
            None => v,
        }),
    ensures
        runs_of(w) == runs_of(v) + opt_run(r),
{
    assert(runs_of(w) =~= runs_of(v) + opt_run(r));
}

fn push_found(out: &mut Vec<Range<u64>>, r: Option<Range<u64>>)
    ensures
        runs_of(final(out)@) == runs_of(old(out)@) + opt_run(r),
{
    let ghost before = out@;
    match r {
        Some(x) => out.push(x),
        None => {},
    }
    proof {
        lemma_runs_of_push(before, r, out@);
    }
}

/// Every run where `a` and `b` differ, found one byte pair at a time.
pub fn diff_bytes(a: &[u8], b: &[u8]) -> (r: Vec<Range<u64>>)
    requires
        a@.len() == b@.len(),
    ensures
        runs_of(r@) == diff_runs(a@, b@),
{
    let mut d = BytesDiffIter::new();
    let mut out: Vec<Range<u64>> = Vec::new();
    let mut i: usize = 0;
    while i < a.len()
        invariant
            a@.len() == b@.len(),
            i <= a@.len(),
            d.wf(),
            d.seen_a() == a@.subrange(0, i as int),
            d.seen_b() == b@.subrange(0, i as int),
            runs_of(out@) == d.emitted(),
        decreases a@.len() - i,
    {
        let found = d.push(a[i], b[i]);
        push_found(&mut out, found);
        i = i + 1;
        assert(d.seen_a() =~= a@.subrange(0, i as int));
        assert(d.seen_b() =~= b@.subrange(0, i as int));
    }
    assert(a@.subrange(0, i as int) =~= a@);
    assert(b@.subrange(0, i as int) =~= b@);
    let last = d.finish();
    push_found(&mut out, last);
    out
}

/// Every run where `a` and `b` differ, found by scanning paired buffers of
/// `chunk` bytes.
pub fn diff_buffered(a: &[u8], b: &[u8], chunk: usize) -> (r: Vec<Range<u64>>)
    requires
        a@.len() == b@.len(),
        chunk > 0,
    ensures
        runs_of(r@) == diff_runs(a@, b@),
{
    let mut d = MemchrDiffIter::new();
    let mut out: Vec<Range<u64>> = Vec::new();
    let mut i: usize = 0;
    while i < a.len()
        invariant
            a@.len() == b@.len(),
            chunk > 0,
            i <= a@.len(),
            d.wf(),
            d.seen_a() == a@.subrange(0, i as int),
            d.seen_b() == b@.subrange(0, i as int),
            runs_of(out@) == d.emitted(),
        decreases a@.len() - i,
    {
        let end = if a.len() - i < chunk { a.len() } else { i + chunk };
        let ab = slice_subrange(a, i, end);
        let bb = slice_subrange(b, i, end);
        let ghost before = d.emitted();
        let (taken, found) = d.scan_buffers(ab, bb);
        proof {
            if taken == 0 {
                assert(d.seen_a() =~= a@.subrange(0, i as int));
                assert(d.seen_b() =~= b@.subrange(0, i as int));
                assert(d.emitted() == before);
                assert((before + opt_run(found)).len() == before.len() + opt_run(found).len());
            }
        }
        push_found(&mut out, found);
        i = i + taken;
        assert(d.seen_a() =~= a@.subrange(0, i as int));
        assert(d.seen_b() =~= b@.subrange(0, i as int));
    }
    assert(a@.subrange(0, i as int) =~= a@);
    assert(b@.subrange(0, i as int) =~= b@);
    let last = d.finish();
    push_found(&mut out, last);
    out
}

/// Every run where `a` and `b` differ, found by the threaded strategy's
/// consumer, with the two sides handed over in buffers of different sizes.
pub fn diff_threaded(a: &[u8], b: &[u8], chunk_a: usize, chunk_b: usize) -> (r: Vec<Range<u64>>)
    requires
        a@.len() == b@.len(),
        chunk_a > 0,
        chunk_b > 0,
    ensures
        runs_of(r@) == diff_runs(a@, b@),
{
    let mut d = ThreadedDiffIter::new();
    let mut out: Vec<Range<u64>> = Vec::new();
    let mut ia: usize = 0;
    let mut ib: usize = 0;
    loop
        invariant
            a@.len() == b@.len(),
            chunk_a > 0,
            chunk_b > 0,
            ia <= a@.len(),
            ib <= b@.len(),
            d.wf(),
            d.seen_a() + d.pending_a() == a@.subrange(0, ia as int),
            d.seen_b() + d.pending_b() == b@.subrange(0, ib as int),
            d.seen_a().len() == d.seen_b().len(),
            runs_of(out@) == d.emitted(),
        ensures
            d.wf(),
            d.seen_a() == a@,
            d.seen_b() == b@,
            runs_of(out@) == d.emitted(),
        decreases a@.len() - d.seen_a().len(), a@.len() - ia + b@.len() - ib,
    {
        if d.needs_a() && ia < a.len() {
            let end = if a.len() - ia < chunk_a { a.len() } else { ia + chunk_a };
            let buf = slice_to_vec(slice_subrange(a, ia, end));
            d.feed_a(buf);
            ia = end;
            assert(d.seen_a() + d.pending_a() =~= a@.subrange(0, ia as int));
        } else if d.needs_b() && ib < b.len() {
            let end = if b.len() - ib < chunk_b { b.len() } else { ib + chunk_b };
            let buf = slice_to_vec(slice_subrange(b, ib, end));
            d.feed_b(buf);
            ib = end;
            assert(d.seen_b() + d.pending_b() =~= b@.subrange(0, ib as int));
        } else if d.needs_a() || d.needs_b() {
            proof {
                let sa = d.seen_a();
                let sb = d.seen_b();
                let pa = d.pending_a();
                let pb = d.pending_b();
                assert((sa + pa).len() == ia);
                assert((sb + pb).len() == ib);
                if pa.len() == 0 {
                    assert(ia == a@.len());
                    assert(pb.len() == 0);
                } else {
                    assert(ib == b@.len());
                    assert(pa.len() == 0);
                }
                assert(sa + pa =~= sa);
                assert(sb + pb =~= sb);
                assert(a@.subrange(0, ia as int) =~= a@);
                assert(b@.subrange(0, ib as int) =~= b@);
                assert(d.seen_a() == a@);
                assert(d.seen_b() == b@);
                assert(d.seen_a() =~= a@);
                assert(d.seen_b() =~= b@);
            }
            break;
        } else {
            let ghost sa = d.seen_a();
            let ghost sb = d.seen_b();
            let ghost pa = d.pending_a();
            let ghost pb = d.pending_b();
            let ghost before = d.emitted();
            assert((d.seen_a() + d.pending_a()).len() <= a@.len());
            let found = d.step();
            proof {
                if d.seen_a().len() == sa.len() {
                    assert(d.seen_a() =~= (d.seen_a() + d.pending_a()).subrange(0, sa.len() as int));
                    assert((sa + pa).subrange(0, sa.len() as int) =~= sa);
                    assert(d.seen_b() =~= (d.seen_b() + d.pending_b()).subrange(0, sb.len() as int));
                    assert((sb + pb).subrange(0, sb.len() as int) =~= sb);
                    assert(d.emitted() == before);
                    assert((before + opt_run(found)).len() == before.len() + opt_run(found).len());
                    assert(d.pending_a() =~= (sa + pa).subrange(sa.len() as int, (sa + pa).len() as int));
                    assert(pa =~= (sa + pa).subrange(sa.len() as int, (sa + pa).len() as int));
                    assert(d.pending_b() =~= (sb + pb).subrange(sb.len() as int, (sb + pb).len() as int));
                    assert(pb =~= (sb + pb).subrange(sb.len() as int, (sb + pb).len() as int));
                    assert(false);
                }
            }
            push_found(&mut out, found);
        }
    }
    let last = d.finish();
    push_found(&mut out, last);
    out
}

} // verus!
