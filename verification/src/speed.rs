//! The rolling two-second window of byte samples behind the transfer speed.
use std::collections::VecDeque;
use vstd::prelude::*;

verus! {

/// How far back, in nanoseconds, samples count towards the speed.
pub const SPEED_WINDOW_NS: u64 = 2_000_000_000;

/// A transfer rate as an exact fraction: `bytes` moved in `nanos`
/// nanoseconds (`nanos > 0`).
#[derive(Debug, Clone, Copy)]
pub struct Rate {
    pub bytes: u128,
    pub nanos: u64,
}

/// How long ago, in nanoseconds, a sample taken at `t` was when the clock reads
/// `now` (zero for a sample from the future, as `Instant::duration_since`
/// saturates).
pub open spec fn sample_age(now: u64, t: u64) -> nat {
    if now >= t {
        (now - t) as nat
    } else {
        0
    }
}

/// The number of leading samples older than the window at time `now`.
pub open spec fn stale_prefix(s: Seq<(u64, u64)>, now: u64) -> nat
    decreases s.len(),
{
    if s.len() == 0 {
        0
    } else if sample_age(now, s[0].0) > SPEED_WINDOW_NS {
        1 + stale_prefix(s.drop_first(), now)
    } else {
        0
    }
}

/// The window after recording `bytes` at time `now`: the new sample is
/// appended, then samples are dropped from the front while they are older
/// than the window.
pub open spec fn after_add(s: Seq<(u64, u64)>, now: u64, bytes: u64) -> Seq<(u64, u64)> {
    let t = s.push((now, bytes));
    t.skip(stale_prefix(t, now) as int)
}

/// The bytes of all samples in the window.
pub open spec fn window_bytes(s: Seq<(u64, u64)>) -> nat
    decreases s.len(),
{
    if s.len() == 0 {
        0
    } else {
        window_bytes(s.drop_last()) + s.last().1 as nat
    }
}

/// The rate over the window: all bytes in the window over the time from its
/// first to its last sample; none with fewer than two samples or no time
/// between them (the app shows a speed of zero then).
pub open spec fn window_rate(s: Seq<(u64, u64)>) -> Option<(nat, nat)> {
    if s.len() < 2 {
        None
    } else {
        let elapsed = sample_age(s.last().0, s[0].0);
        if elapsed == 0 {
            None
        } else {
            Some((window_bytes(s), elapsed))
        }
    }
}

/// The sample times never decrease along the window.
pub open spec fn times_sorted(s: Seq<(u64, u64)>) -> bool {
    forall|i: int, j: int| 0 <= i <= j < s.len() ==> s[i].0 <= s[j].0
}

/// Tracks recent byte counts to report a rolling transfer speed.
pub struct SpeedTracker {
    window: VecDeque<(u64, u64)>,
}

impl View for SpeedTracker {
    type V = Seq<(u64, u64)>;

    closed spec fn view(&self) -> Seq<(u64, u64)> {
        self.window@
    }
}

proof fn lemma_stale_prefix_bound(s: Seq<(u64, u64)>, now: u64)
    ensures
        stale_prefix(s, now) <= s.len(),
        stale_prefix(s, now) < s.len() ==> sample_age(now, s[stale_prefix(s, now) as int].0)
            <= SPEED_WINDOW_NS,
        forall|i: int| 0 <= i < stale_prefix(s, now) ==> sample_age(now, #[trigger] s[i].0)
            > SPEED_WINDOW_NS,
    decreases s.len(),
{
    if s.len() > 0 && sample_age(now, s[0].0) > SPEED_WINDOW_NS {
        lemma_stale_prefix_bound(s.drop_first(), now);
        assert forall|i: int| 0 <= i < stale_prefix(s, now) implies sample_age(
            now,
            #[trigger] s[i].0,
        ) > SPEED_WINDOW_NS by {
            if i > 0 {
                assert(s[i] == s.drop_first()[i - 1]);
            }
        }
    }
}

proof fn lemma_window_bytes_bound(s: Seq<(u64, u64)>)
    ensures
        window_bytes(s) <= s.len() * 0xffff_ffff_ffff_ffff,
    decreases s.len(),
{
    if s.len() > 0 {
        lemma_window_bytes_bound(s.drop_last());
        let n = s.drop_last().len();
        assert(n * 0xffff_ffff_ffff_ffff + 0xffff_ffff_ffff_ffff == (n + 1) * 0xffff_ffff_ffff_ffff)
            by (nonlinear_arith);
    }
}

impl SpeedTracker {
    /// An empty tracker.
    pub fn new() -> (t: Self)
        ensures
            t@ == Seq::<(u64, u64)>::empty(),
    {
        SpeedTracker { window: VecDeque::new() }
    }

    /// Records `bytes` moved at time `now` (nanoseconds on a monotonic clock)
    /// and forgets the samples that have fallen out of the window.
    pub fn add(&mut self, now: u64, bytes: u64)
        ensures
            final(self)@ == after_add(old(self)@, now, bytes),
    {
        let ghost t = old(self)@.push((now, bytes));
        self.window.push_back((now, bytes));
        let ghost mut k: nat = 0;
        loop
            invariant
                self.window@ == t.skip(k as int),
                k <= t.len(),
                stale_prefix(t, now) == k + stale_prefix(self.window@, now),
            ensures
                self.window@ == t.skip(stale_prefix(t, now) as int),
            decreases self.window@.len(),
        {
            if self.window.len() == 0 {
                break;
            }
            let front_time = self.window[0].0;
            if now.saturating_sub(front_time) > SPEED_WINDOW_NS {
                let ghost before = self.window@;
                self.window.pop_front();
                proof {
                    assert(self.window@ =~= before.drop_first());
                    assert(t.skip(k + 1 as int) =~= t.skip(k as int).drop_first());
                    k = k + 1;
                }
            } else {
                break;
            }
        }
    }

    /// The rate over the current window, if it spans any time.
    pub fn speed(&self) -> (r: Option<Rate>)
        ensures
            match window_rate(self@) {
                None => r is None,
                Some((bytes, nanos)) => r matches Some(rate) && rate.bytes == bytes && rate.nanos
                    == nanos,
            },
    {
        let n = self.window.len();
        if n < 2 {
            return None;
        }
        let first_time = self.window[0].0;
        let last_time = self.window[n - 1].0;
        let elapsed = last_time.saturating_sub(first_time);
        if elapsed == 0 {
            return None;
        }
        let mut total: u128 = 0;
        let mut i: usize = 0;
        while i < n
            invariant
                n == self@.len(),
                i <= n,
                total == window_bytes(self@.take(i as int)),
            decreases n - i,
        {
            proof {
                lemma_window_bytes_bound(self@.take(i as int));
                assert(self@.take(i as int).len() == i);
                assert(i * 0xffff_ffff_ffff_ffffu128 + 0xffff_ffff_ffff_ffff < 0xffff_ffff_ffff_ffff_ffff_ffff_ffff_ffffu128)
                    by (nonlinear_arith)
                    requires
                        i < 0x1_0000_0000_0000_0000u128,
                ;
                assert(self@.take(i + 1).drop_last() =~= self@.take(i as int));
            }
            total = total + self.window[i].1 as u128;
            i = i + 1;
        }
        assert(self@.take(n as int) =~= self@);
        Some(Rate { bytes: total, nanos: elapsed })
    }
}

/// With a clock that never runs backwards, recording a sample keeps the
/// newest sample, keeps the samples in time order, and leaves only samples at
/// most two seconds older than the newest one. It drops nothing else: the new
/// window is the old one plus the sample with a prefix removed, and every
/// sample of the old window at most two seconds old is still in it, at the
/// same place relative to the ones kept.
pub proof fn law_window_recent(s: Seq<(u64, u64)>, now: u64, bytes: u64)
    requires
        times_sorted(s),
        forall|i: int| 0 <= i < s.len() ==> #[trigger] s[i].0 <= now,
    ensures
        after_add(s, now, bytes).len() >= 1,
        after_add(s, now, bytes).last() == (now, bytes),
        times_sorted(after_add(s, now, bytes)),
        forall|i: int|
            0 <= i < after_add(s, now, bytes).len() ==> sample_age(
                now,
                #[trigger] after_add(s, now, bytes)[i].0,
            ) <= SPEED_WINDOW_NS,
        ({
            let t = s.push((now, bytes));
            let r = after_add(s, now, bytes);
            &&& r.len() <= t.len()
            &&& r == t.skip(t.len() - r.len())
            &&& forall|i: int|
                0 <= i < t.len() && sample_age(now, #[trigger] t[i].0) <= SPEED_WINDOW_NS ==> i
                    >= t.len() - r.len()
            &&& forall|i: int|
                0 <= i < s.len() && sample_age(now, #[trigger] s[i].0) <= SPEED_WINDOW_NS ==> r[i
                    - (t.len() - r.len())] == s[i]
        }),
{
    let t = s.push((now, bytes));
    let k = stale_prefix(t, now);
    lemma_stale_prefix_bound(t, now);
    if k >= t.len() {
        assert(sample_age(now, t[t.len() - 1].0) > SPEED_WINDOW_NS);
    }
    let r = after_add(s, now, bytes);
    assert(r.len() == t.len() - k);
    assert(r =~= t.skip(t.len() - r.len()));
    assert forall|i: int|
        0 <= i < t.len() && sample_age(now, #[trigger] t[i].0) <= SPEED_WINDOW_NS implies i
            >= t.len() - r.len() by {
        if i < k {
            assert(sample_age(now, t[i].0) > SPEED_WINDOW_NS);
        }
    }
    assert forall|i: int|
        0 <= i < s.len() && sample_age(now, #[trigger] s[i].0) <= SPEED_WINDOW_NS implies r[i - (
        t.len() - r.len())] == s[i] by {
        assert(t[i] == s[i]);
        if i < k {
            assert(sample_age(now, t[i].0) > SPEED_WINDOW_NS);
        }
    }
    assert(r.last() == t.last());
    assert forall|i: int, j: int| 0 <= i <= j < r.len() implies r[i].0 <= r[j].0 by {
        assert(r[i] == t[i + k]);
        assert(r[j] == t[j + k]);
    }
    assert forall|i: int| 0 <= i < r.len() implies sample_age(now, #[trigger] r[i].0)
        <= SPEED_WINDOW_NS by {
        assert(r[i] == t[i + k]);
        assert(t[k as int].0 <= t[i + k].0);
    }
}

} // verus!
