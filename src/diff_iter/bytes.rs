//! The byte-at-a-time strategy: a two-state machine over paired bytes.
use std::ops::Range;
use vstd::prelude::*;

use super::{closed_runs, diff_runs, lemma_scan_prefix, open_run, opt_run, scan};

verus! {

/// The run being followed: its start and its length so far.
#[derive(Debug, Copy, Clone)]
pub enum State {
    Equal(u64, u64),
    Different(u64, u64),
}

/// Follows runs of equal and of differing bytes, one pair at a time.
pub struct BytesDiffIter {
    state: State,
    seen_a: Ghost<Seq<u8>>,
    seen_b: Ghost<Seq<u8>>,
}

impl BytesDiffIter {
    /// The bytes of the first stream taken so far.
    pub closed spec fn seen_a(&self) -> Seq<u8> {
        self.seen_a@
    }

    /// The bytes of the second stream taken so far.
    pub closed spec fn seen_b(&self) -> Seq<u8> {
        self.seen_b@
    }

    /// The runs already handed out: those closed by the bytes taken so far.
    pub open spec fn emitted(&self) -> Seq<(int, int)> {
        closed_runs(self.seen_a(), self.seen_b(), self.seen_a().len())
    }

    pub closed spec fn wf(&self) -> bool {
        let n = self.seen_a@.len();
        &&& self.seen_b@.len() == n
        &&& n <= u64::MAX
        &&& match self.state {
            State::Equal(s, l) => s + l == n && open_run(self.seen_a@, self.seen_b@, n).is_none(),
            State::Different(s, l) => s + l == n && open_run(self.seen_a@, self.seen_b@, n) == Some(s as int),
        }
    }

    pub fn new() -> (d: BytesDiffIter)
        ensures
            d.wf(),
            d.seen_a() == Seq::<u8>::empty(),
            d.seen_b() == Seq::<u8>::empty(),
    {
        BytesDiffIter { state: State::Equal(0, 0), seen_a: Ghost(Seq::empty()), seen_b: Ghost(Seq::empty()) }
    }

    /// Take the next pair of bytes; hands out the run that the pair closes.
    pub fn push(&mut self, a: u8, b: u8) -> (r: Option<Range<u64>>)
        requires
            old(self).wf(),
            old(self).seen_a().len() < u64::MAX,
        ensures
            final(self).wf(),
            final(self).seen_a() == old(self).seen_a().push(a),
            final(self).seen_b() == old(self).seen_b().push(b),
            final(self).emitted() == old(self).emitted() + opt_run(r),
    {
        let ghost sa = self.seen_a@;
        let ghost sb = self.seen_b@;
        let ghost n = sa.len();
        self.seen_a = Ghost(sa.push(a));
        self.seen_b = Ghost(sb.push(b));
        proof {
            lemma_scan_prefix(sa, sb, self.seen_a@, self.seen_b@, n);
            assert(self.seen_a@[n as int] == a);
            assert(self.seen_b@[n as int] == b);
        }
        let mut out: Option<Range<u64>> = None;
        self.state = match (a == b, self.state) {
            (true, State::Equal(start, len)) => State::Equal(start, len + 1),
            (true, State::Different(start, len_diff)) => {
                out = Some(start..start + len_diff);
                State::Equal(start + len_diff, 1)
            },
            (false, State::Equal(start, len)) => State::Different(start + len, 1),
            (false, State::Different(start, len_diff)) => State::Different(start, len_diff + 1),
        };
        proof {
            assert(scan(self.seen_a@, self.seen_b@, n) == scan(sa, sb, n));
            assert(self.seen_a().len() == n + 1);
            if out.is_none() {
                assert(self.emitted() =~= old(self).emitted() + opt_run(out));
            }
        }
        out
    }

    /// How many bytes of each stream have been taken so far.
    pub fn taken(&self) -> (n: u64)
        requires
            self.wf(),
        ensures
            n == self.seen_a().len(),
    {
        match self.state {
            State::Equal(s, l) => s + l,
            State::Different(s, l) => s + l,
        }
    }

    /// At the end of both streams: hands out the run that reaches the end, if any.
    pub fn finish(self) -> (r: Option<Range<u64>>)
        requires
            self.wf(),
        ensures
            self.emitted() + opt_run(r) == diff_runs(self.seen_a(), self.seen_b()),
    {
        match self.state {
            State::Equal(..) => {
                proof {
                    assert(self.emitted() + opt_run(None) =~= self.emitted());
                }
                None
            },
            State::Different(start, len_diff) => Some(start..start + len_diff),
        }
    }
}

} // verus!
