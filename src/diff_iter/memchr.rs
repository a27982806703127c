//! The buffered strategy: scan paired buffers for the first byte that ends
//! the current phase, equal or different.
use std::ops::Range;
use vstd::prelude::*;

use super::{closed_runs, diff_runs, lemma_scan_prefix, open_run, opt_run, scan};

verus! {

/// Follows runs over paired buffers, handing out at most one run per call.
pub struct MemchrDiffIter {
    pos: u64,
    run_start: Option<u64>,
    seen_a: Ghost<Seq<u8>>,
    seen_b: Ghost<Seq<u8>>,
}

impl MemchrDiffIter {
    /// The bytes of the first stream taken so far.
    pub closed spec fn seen_a(&self) -> Seq<u8> {
        self.seen_a@
    }

    /// The bytes of the second stream taken so far.
    pub closed spec fn seen_b(&self) -> Seq<u8> {
        self.seen_b@
    }

    /// The runs already handed out: those closed by the bytes taken so far.
    pub open spec fn emitted(&self) -> Seq<(int, int)> {
        closed_runs(self.seen_a(), self.seen_b(), self.seen_a().len())
    }

    pub closed spec fn wf(&self) -> bool {
        let n = self.seen_a@.len();
        &&& self.seen_b@.len() == n
        &&& self.pos == n
        &&& match self.run_start {
            Some(s) => open_run(self.seen_a@, self.seen_b@, n) == Some(s as int),
            None => open_run(self.seen_a@, self.seen_b@, n).is_none(),
        }
    }

    pub fn new() -> (d: MemchrDiffIter)
        ensures
            d.wf(),
            d.seen_a() == Seq::<u8>::empty(),
            d.seen_b() == Seq::<u8>::empty(),
    {
        MemchrDiffIter { pos: 0, run_start: None, seen_a: Ghost(Seq::empty()), seen_b: Ghost(Seq::empty()) }
    }

    /// Scan the paired prefix of two buffers. Takes bytes up to and including
    /// the first one that closes a run, and hands that run out; takes the
    /// whole paired prefix when no run closes in it. Returns how many bytes
    /// were taken from each buffer.
    pub fn scan_buffers(&mut self, a: &[u8], b: &[u8]) -> (res: (usize, Option<Range<u64>>))
        requires
            old(self).wf(),
            old(self).seen_a().len() + a@.len() <= u64::MAX,
        ensures
            final(self).wf(),
            res.0 <= a@.len(),
            res.0 <= b@.len(),
            final(self).seen_a() == old(self).seen_a() + a@.subrange(0, res.0 as int),
            final(self).seen_b() == old(self).seen_b() + b@.subrange(0, res.0 as int),
            final(self).emitted() == old(self).emitted() + opt_run(res.1),
            res.1.is_none() ==> res.0 == a@.len() || res.0 == b@.len(),
            res.1.is_some() ==> res.1.unwrap().end + 1 == final(self).seen_a().len(),
    {
        let len = if a.len() < b.len() { a.len() } else { b.len() };
        let ghost sa = self.seen_a@;
        let ghost sb = self.seen_b@;
        let ghost n0 = sa.len();
        let ghost fa = sa + a@.subrange(0, len as int);
        let ghost fb = sb + b@.subrange(0, len as int);
        let ghost c0 = closed_runs(sa, sb, n0);
        proof {
            lemma_scan_prefix(sa, sb, fa, fb, n0);
        }
        let mut i: usize = 0;
        if self.run_start.is_none() {
            // get rid of equal bytes
            while i < len && a[i] == b[i]
                invariant
                    i <= len <= a@.len(),
                    len <= b@.len(),
                    fa == sa + a@.subrange(0, len as int),
                    fb == sb + b@.subrange(0, len as int),
                    n0 == sa.len(),
                    n0 == sb.len(),
                    scan(fa, fb, (n0 + i) as nat) == (c0, Option::<int>::None),
                decreases len - i,
            {
                assert(fa[n0 + i] == a@[i as int]);
                assert(fb[n0 + i] == b@[i as int]);
                i = i + 1;
            }
            if i == len {
                return self.advance(a, b, len, len, None, Ghost(fa), Ghost(fb));
            }
            assert(fa[n0 + i] == a@[i as int]);
            assert(fb[n0 + i] == b@[i as int]);
            self.run_start = Some(self.pos + i as u64);
            i = i + 1;
        }
        // we found a diff
        let start = match self.run_start {
            Some(s) => s,
            None => 0,
        };
        while i < len && a[i] != b[i]
            invariant
                i <= len <= a@.len(),
                len <= b@.len(),
                fa == sa + a@.subrange(0, len as int),
                fb == sb + b@.subrange(0, len as int),
                n0 == sa.len(),
                n0 == sb.len(),
                self.run_start == Some(start),
                scan(fa, fb, (n0 + i) as nat) == (c0, Some(start as int)),
            decreases len - i,
        {
            assert(fa[n0 + i] == a@[i as int]);
            assert(fb[n0 + i] == b@[i as int]);
            i = i + 1;
        }
        if i == len {
            return self.advance(a, b, len, len, Some(start), Ghost(fa), Ghost(fb));
        }
        assert(fa[n0 + i] == a@[i as int]);
        assert(fb[n0 + i] == b@[i as int]);
        let r = start..self.pos + i as u64;
        self.run_start = None;
        let res = self.advance(a, b, len, i + 1, None, Ghost(fa), Ghost(fb));
        (res.0, Some(r))
    }

    /// Take `k` bytes of the scanned prefix, leaving the run open at `run_start`.
    fn advance(
        &mut self,
        a: &[u8],
        b: &[u8],
        len: usize,
        k: usize,
        run_start: Option<u64>,
        fa: Ghost<Seq<u8>>,
        fb: Ghost<Seq<u8>>,
    ) -> (res: (usize, Option<Range<u64>>))
        requires
            old(self).seen_a().len() == old(self).pos,
            old(self).seen_b().len() == old(self).pos,
            k <= len <= a@.len(),
            len <= b@.len(),
            old(self).pos + k <= u64::MAX,
            fa@ == old(self).seen_a() + a@.subrange(0, len as int),
            fb@ == old(self).seen_b() + b@.subrange(0, len as int),
            match run_start {
                Some(s) => open_run(fa@, fb@, (old(self).pos + k) as nat) == Some(s as int),
                None => open_run(fa@, fb@, (old(self).pos + k) as nat).is_none(),
            },
        ensures
            final(self).wf(),
            res == (k, Option::<Range<u64>>::None),
            final(self).seen_a() == old(self).seen_a() + a@.subrange(0, k as int),
            final(self).seen_b() == old(self).seen_b() + b@.subrange(0, k as int),
            final(self).seen_a() == fa@.subrange(0, final(self).seen_a().len() as int),
            final(self).seen_b() == fb@.subrange(0, final(self).seen_b().len() as int),
            scan(final(self).seen_a(), final(self).seen_b(), final(self).seen_a().len()) == scan(fa@, fb@, (old(self).pos + k) as nat),
    {
        let ghost n = (self.pos + k) as int;
        let ghost na = self.seen_a@ + a@.subrange(0, k as int);
        let ghost nb = self.seen_b@ + b@.subrange(0, k as int);
        proof {
            assert(na =~= fa@.subrange(0, n));
            assert(nb =~= fb@.subrange(0, n));
            lemma_scan_prefix(na, nb, fa@, fb@, n as nat);
        }
        self.seen_a = Ghost(na);
        self.seen_b = Ghost(nb);
        self.pos = self.pos + k as u64;
        self.run_start = run_start;
        (k, None)
    }

    /// How many bytes of each stream have been taken so far.
    pub fn taken(&self) -> (n: u64)
        requires
            self.wf(),
        ensures
            n == self.seen_a().len(),
    {
        self.pos
    }

    /// At the end of both streams: hands out the run that reaches the end, if any.
    pub fn finish(self) -> (r: Option<Range<u64>>)
        requires
            self.wf(),
        ensures
            self.emitted() + opt_run(r) == diff_runs(self.seen_a(), self.seen_b()),
    {
        match self.run_start {
            None => {
                proof {
                    assert(self.emitted() + opt_run(None) =~= self.emitted());
                }
                None
            },
            Some(start) => Some(start..self.pos),
        }
    }
}

} // verus!
