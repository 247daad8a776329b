use vstd::prelude::*;

verus! {

/// How many frame timestamps the counter keeps.
pub const HISTORY_SIZE: usize = 64;

/// Nanoseconds between two timestamps, clamped to zero when the clock
/// moved backwards.
pub open spec fn elapsed(earlier: u64, later: u64) -> u64 {
    if later >= earlier {
        (later - earlier) as u64
    } else {
        0u64
    }
}

/// Relies on std::time::SystemTime::now: reads the wall clock. Nothing is
/// promised of the value; the counter's contracts hold whatever comes back.
#[verifier::external_body]
fn clock_nanos() -> u64 {
    std::time::SystemTime::now()
        .duration_since(std::time::SystemTime::UNIX_EPOCH)
        .map(|d| d.as_nanos() as u64)
        .unwrap_or(0)
}

/// A ring of the last `HISTORY_SIZE` frame timestamps, in nanoseconds,
/// with `ptr` naming the slot the next frame will overwrite.
pub struct FpsCounter {
    pub history: Vec<u64>,
    pub ptr: usize,
}

impl FpsCounter {
    /// The ring is always full-size and the cursor stays inside it.
    pub open spec fn wf(self) -> bool {
        self.history.len() == HISTORY_SIZE && self.ptr < HISTORY_SIZE
    }

    /// The timestamps in chronological ring order, oldest first.
    pub open spec fn rotated(self) -> Seq<u64> {
        self.history@.subrange(self.ptr as int, HISTORY_SIZE as int) + self.history@.subrange(
            0,
            self.ptr as int,
        )
    }

    /// A fresh counter: every slot holds the same current timestamp and
    /// the cursor stands on slot 1.
    pub fn new() -> (r: FpsCounter)
        ensures
            r.wf(),
            r.ptr == 1,
            forall|i: int, j: int|
                0 <= i < HISTORY_SIZE && 0 <= j < HISTORY_SIZE ==> #[trigger] r.history@[i]
                    == #[trigger] r.history@[j],
    {
        let t = clock_nanos();
        let mut history: Vec<u64> = Vec::new();
        let mut i: usize = 0;
        while i < HISTORY_SIZE
            invariant
                i <= HISTORY_SIZE,
                history.len() == i,
                forall|k: int| 0 <= k < i ==> history@[k] == t,
            decreases HISTORY_SIZE - i,
        {
            history.push(t);
            i = i + 1;
        }
        proof {
            assert(history@ =~= Seq::new(HISTORY_SIZE as nat, |i: int| t));
        }
        FpsCounter { history, ptr: 1 }
    }

    /// Capacity of the ring.
    pub fn len(&self) -> (r: usize)
        ensures
            r == HISTORY_SIZE,
    {
        HISTORY_SIZE
    }

    /// Writes one timestamp at the cursor and advances it, wrapping at the
    /// end of the ring.
    pub fn record_tick(&mut self, t: u64)
        requires
            old(self).wf(),
        ensures
            final(self).wf(),
            final(self).history@ == old(self).history@.update(old(self).ptr as int, t),
            final(self).ptr == if old(self).ptr + 1 == HISTORY_SIZE {
                0usize
            } else {
                (old(self).ptr + 1) as usize
            },
    {
        self.history[self.ptr] = t;
        self.ptr = self.ptr + 1;
        if self.ptr == HISTORY_SIZE {
            self.ptr = 0;
        }
    }

    /// Stamps the current frame with the live clock.
    pub fn tick(&mut self)
        requires
            old(self).wf(),
        ensures
            final(self).wf(),
            final(self).ptr == if old(self).ptr + 1 == HISTORY_SIZE {
                0usize
            } else {
                (old(self).ptr + 1) as usize
            },
            exists|t: u64|
                final(self).history@ == old(self).history@.update(old(self).ptr as int, t),
    {
        let t = clock_nanos();
        self.record_tick(t);
    }

    /// Nanoseconds between consecutive frames, oldest pair first: entry
    /// `j` is the time from ring-ordered timestamp `j` to timestamp
    /// `j + 1`, clamped to zero if the clock went backwards.
    pub fn durations(&self) -> (r: Vec<u64>)
        requires
            self.wf(),
        ensures
            r@.len() == HISTORY_SIZE - 1,
            forall|j: int|
                0 <= j < HISTORY_SIZE - 1 ==> r@[j] == elapsed(
                    #[trigger] self.rotated()[j],
                    self.rotated()[j + 1],
                ),
    {
        let mut r: Vec<u64> = Vec::new();
        let mut k: usize = 0;
        while k < HISTORY_SIZE - 1
            invariant
                self.wf(),
                k <= HISTORY_SIZE - 1,
                r.len() == k,
                forall|j: int|
                    0 <= j < k ==> r@[j] == elapsed(
                        #[trigger] self.rotated()[j],
                        self.rotated()[j + 1],
                    ),
            decreases HISTORY_SIZE - 1 - k,
        {
            let i1 = if self.ptr + k < HISTORY_SIZE {
                self.ptr + k
            } else {
                self.ptr + k - HISTORY_SIZE
            };
            let i2 = if self.ptr + k + 1 < HISTORY_SIZE {
                self.ptr + k + 1
            } else {
                self.ptr + k + 1 - HISTORY_SIZE
            };
            proof {
                assert(self.rotated()[k as int] == self.history@[i1 as int]);
                assert(self.rotated()[k as int + 1] == self.history@[i2 as int]);
            }
            let earlier = self.history[i1];
            let later = self.history[i2];
            let d = if later >= earlier {
                later - earlier
            } else {
                0
            };
            r.push(d);
            k = k + 1;
        }
        r
    }
}

} // verus!
