//! Progress reporting: which frame a run is on, how long the last one took,
//! and when a status line is due again. Times are nanoseconds from an
//! instant of the caller's choosing, read from a monotonic clock.
use vstd::prelude::*;

verus! {

/// Nanoseconds per millisecond.
pub const NANOS_PER_MILLI: u64 = 1_000_000;

/// `later - earlier`, or 0 where `later` comes first.
pub open spec fn elapsed(earlier: u64, later: u64) -> u64 {
    if later >= earlier {
        (later - earlier) as u64
    } else {
        0
    }
}

/// One step of a [`FrameCounter`].
#[derive(Clone, Copy, Debug, PartialEq, Eq)]
pub struct FrameTick {
    /// The frame now starting, counted from 0.
    pub frame: usize,
    /// Milliseconds since the previous frame started, from the second frame on.
    pub last_frame_ms: Option<u64>,
}

/// Counts `n` frames and times each.
pub struct FrameCounter {
    last_time: Option<u64>,
    idx: usize,
    n: usize,
}

impl FrameCounter {
    /// Frames counted so far.
    pub closed spec fn index(&self) -> nat {
        self.idx as nat
    }

    /// Frames to count.
    pub closed spec fn total(&self) -> nat {
        self.n as nat
    }

    /// When the last counted frame started.
    pub closed spec fn started(&self) -> Option<u64> {
        self.last_time
    }

    pub closed spec fn wf(&self) -> bool {
        self.idx <= self.n
    }

    /// A counter of `n` frames.
    pub fn new(n: usize) -> (r: FrameCounter)
        ensures
            r.wf(),
            r.index() == 0,
            r.total() == n,
            r.started() == None::<u64>,
    {
        FrameCounter { last_time: None, idx: 0, n }
    }

    /// The number of frames to count.
    pub fn len(&self) -> (r: usize)
        ensures
            r == self.total(),
    {
        self.n
    }

    /// Starts the next frame at `now`: its index and the time since the
    /// previous one started; `None` once all frames were counted.
    pub fn next_frame(&mut self, now: u64) -> (r: Option<FrameTick>)
        requires
            old(self).wf(),
        ensures
            final(self).wf(),
            final(self).total() == old(self).total(),
            old(self).index() == old(self).total() ==> r == None::<FrameTick> && final(self).index() == old(self).index()
                && final(self).started() == old(self).started(),
            old(self).index() < old(self).total() ==> r == Some(
                FrameTick {
                    frame: old(self).index() as usize,
                    last_frame_ms: match old(self).started() {
                        Some(t) => Some((elapsed(t, now) / NANOS_PER_MILLI) as u64),
                        None => None,
                    },
                },
            ) && final(self).index() == old(self).index() + 1 && final(self).started() == Some(now),
    {
        if self.idx == self.n {
            return None;
        }
        let last_frame_ms = match self.last_time {
            Some(t) => Some(
                if now >= t {
                    (now - t) / NANOS_PER_MILLI
                } else {
                    0
                },
            ),
            None => None,
        };
        let tick = FrameTick { frame: self.idx, last_frame_ms };
        self.last_time = Some(now);
        self.idx = self.idx + 1;
        Some(tick)
    }
}

/// Decides when a status line is due: at most once per refresh interval.
pub struct RealtimeDisplay {
    last_update: u64,
    refresh_interval: u64,
}

impl RealtimeDisplay {
    /// When the status line was last due.
    pub closed spec fn last_update(&self) -> u64 {
        self.last_update
    }

    /// The shortest time between two status lines.
    pub closed spec fn refresh_interval(&self) -> u64 {
        self.refresh_interval
    }

    /// A display refreshed every `refresh_interval`, last refreshed at `now`.
    pub fn from_interval(refresh_interval: u64, now: u64) -> (r: RealtimeDisplay)
        ensures
            r.last_update() == now,
            r.refresh_interval() == refresh_interval,
    {
        RealtimeDisplay { last_update: now, refresh_interval }
    }

    /// Whether a refresh interval has passed at `now` since the last update;
    /// if so, `now` becomes the last update.
    pub fn needs_update(&mut self, now: u64) -> (r: bool)
        ensures
            r == (elapsed(old(self).last_update(), now) >= old(self).refresh_interval()),
            final(self).refresh_interval() == old(self).refresh_interval(),
            final(self).last_update() == if r {
                now
            } else {
                old(self).last_update()
            },
    {
        let elapsed = if now >= self.last_update {
            now - self.last_update
        } else {
            0
        };
        if elapsed >= self.refresh_interval {
            self.last_update = now;
            true
        } else {
            false
        }
    }
}

} // verus!
