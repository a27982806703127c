//! The consumer side of the threaded strategy: two readers hand over buffers
//! independently, and the consumer scans whatever both sides have pending.
use std::ops::Range;
use vstd::prelude::*;

use super::memchr::MemchrDiffIter;
use super::{diff_runs, opt_run};

verus! {

/// Holds the unscanned rest of the last buffer of each side.
pub struct ThreadedDiffIter {
    a: Vec<u8>,
    a_off: usize,
    b: Vec<u8>,
    b_off: usize,
    scanner: MemchrDiffIter,
}

impl ThreadedDiffIter {
    /// The bytes of the first stream taken so far.
    pub open spec fn seen_a(&self) -> Seq<u8> {
        self.scanner().seen_a()
    }

    /// The bytes of the second stream taken so far.
    pub open spec fn seen_b(&self) -> Seq<u8> {
        self.scanner().seen_b()
    }

    pub closed spec fn scanner(&self) -> MemchrDiffIter {
        self.scanner
    }

    /// The runs already handed out: those closed by the bytes taken so far.
    pub open spec fn emitted(&self) -> Seq<(int, int)> {
        self.scanner().emitted()
    }

    /// Bytes of the first stream received and not yet scanned.
    pub closed spec fn pending_a(&self) -> Seq<u8> {
        self.a@.subrange(self.a_off as int, self.a@.len() as int)
    }

    /// Bytes of the second stream received and not yet scanned.
    pub closed spec fn pending_b(&self) -> Seq<u8> {
        self.b@.subrange(self.b_off as int, self.b@.len() as int)
    }

    pub closed spec fn wf(&self) -> bool {
        &&& self.scanner.wf()
        &&& self.a_off <= self.a@.len()
        &&& self.b_off <= self.b@.len()
    }

    pub fn new() -> (d: ThreadedDiffIter)
        ensures
            d.wf(),
            d.seen_a() == Seq::<u8>::empty(),
            d.seen_b() == Seq::<u8>::empty(),
            d.pending_a() == Seq::<u8>::empty(),
            d.pending_b() == Seq::<u8>::empty(),
    {
        let d = ThreadedDiffIter { a: Vec::new(), a_off: 0, b: Vec::new(), b_off: 0, scanner: MemchrDiffIter::new() };
        proof {
            assert(d.pending_a() =~= Seq::<u8>::empty());
            assert(d.pending_b() =~= Seq::<u8>::empty());
        }
        d
    }

    /// Whether the first side has nothing left to scan.
    pub fn needs_a(&self) -> (r: bool)
        requires
            self.wf(),
        ensures
            r == (self.pending_a().len() == 0),
    {
        self.a_off == self.a.len()
    }

    /// Whether the second side has nothing left to scan.
    pub fn needs_b(&self) -> (r: bool)
        requires
            self.wf(),
        ensures
            r == (self.pending_b().len() == 0),
    {
        self.b_off == self.b.len()
    }

    /// Hand over the next buffer of the first side, once its last one is used up.
    pub fn feed_a(&mut self, buf: Vec<u8>)
        requires
            old(self).wf(),
            old(self).pending_a().len() == 0,
        ensures
            final(self).wf(),
            final(self).pending_a() == buf@,
            final(self).pending_b() == old(self).pending_b(),
            final(self).scanner() == old(self).scanner(),
    {
        self.a = buf;
        self.a_off = 0;
        proof {
            assert(self.pending_a() =~= self.a@);
        }
    }

    /// Hand over the next buffer of the second side, once its last one is used up.
    pub fn feed_b(&mut self, buf: Vec<u8>)
        requires
            old(self).wf(),
            old(self).pending_b().len() == 0,
        ensures
            final(self).wf(),
            final(self).pending_b() == buf@,
            final(self).pending_a() == old(self).pending_a(),
            final(self).scanner() == old(self).scanner(),
    {
        self.b = buf;
        self.b_off = 0;
        proof {
            assert(self.pending_b() =~= self.b@);
        }
    }

    /// Scan the pending bytes of both sides, up to the first byte that closes
    /// a run (which is handed out) or until one side runs dry.
    pub fn step(&mut self) -> (r: Option<Range<u64>>)
        requires
            old(self).wf(),
            old(self).seen_a().len() + old(self).pending_a().len() <= u64::MAX,
        ensures
            final(self).wf(),
            final(self).seen_a() + final(self).pending_a() == old(self).seen_a() + old(self).pending_a(),
            final(self).seen_b() + final(self).pending_b() == old(self).seen_b() + old(self).pending_b(),
            final(self).seen_a().len() - old(self).seen_a().len() == final(self).seen_b().len() - old(self).seen_b().len(),
            old(self).seen_a().len() <= final(self).seen_a().len(),
            final(self).emitted() == old(self).emitted() + opt_run(r),
            r.is_none() ==> final(self).pending_a().len() == 0 || final(self).pending_b().len() == 0,
            r.is_some() ==> r.unwrap().end + 1 == final(self).seen_a().len(),
    {
        let ghost pa = self.pending_a();
        let ghost pb = self.pending_b();
        let ghost sa = self.seen_a();
        let ghost sb = self.seen_b();
        let a_rest = &self.a.as_slice()[self.a_off..self.a.len()];
        let b_rest = &self.b.as_slice()[self.b_off..self.b.len()];
        assert(a_rest@ == pa);
        assert(b_rest@ == pb);
        let (taken, found) = self.scanner.scan_buffers(a_rest, b_rest);
        self.a_off = self.a_off + taken;
        self.b_off = self.b_off + taken;
        proof {
            assert(self.seen_a() + self.pending_a() =~= sa + pa);
            assert(self.seen_b() + self.pending_b() =~= sb + pb);
        }
        found
    }

    /// How many bytes of the first stream are received and not yet scanned.
    pub fn pending_len_a(&self) -> (n: usize)
        requires
            self.wf(),
        ensures
            n == self.pending_a().len(),
    {
        self.a.len() - self.a_off
    }

    /// How many bytes of each stream have been taken so far.
    pub fn taken(&self) -> (n: u64)
        requires
            self.wf(),
        ensures
            n == self.seen_a().len(),
    {
        self.scanner.taken()
    }

    /// At the end of both streams: hands out the run that reaches the end, if any.
    pub fn finish(self) -> (r: Option<Range<u64>>)
        requires
            self.wf(),
        ensures
            self.emitted() + opt_run(r) == diff_runs(self.seen_a(), self.seen_b()),
    {
        self.scanner.finish()
    }
}

} // verus!
