//! The pipelined scheduler: it keeps up to `lookahead` jobs in flight on the
//! rendering backend, takes their results back in the order it submitted
//! them, composites each into the open frame buffer, and closes a frame when
//! the next result belongs to another frame or when all work is done.
//!
//! The scheduler does no outside work itself. Its caller asks it for the next
//! [`Action`], performs that action against the backend or the output sink,
//! and reports the outcome back with one of the `on_` methods.
use vstd::prelude::*;
use crate::error::ErrorKind;
use crate::jobs::{Job, frame_major, frame_runs, lemma_runs_last, lemma_runs_rise, lemma_runs_step};
use crate::tiles::{blit_rgb, blit_fits, blitted};

verus! {

/// Whether a frame buffer is being assembled, and for which frame.
#[derive(Clone, Copy, Debug, PartialEq, Eq, Structural)]
pub enum FrameState {
    NoFrameOpen,
    FrameOpen(usize),
}

/// The first failure of a run, and the job or frame it struck.
#[derive(Clone, Copy, Debug, PartialEq, Eq)]
pub struct PipelineError {
    pub kind: ErrorKind,
    /// The frame of the failing job, or the frame that could not be written.
    pub frame_idx: usize,
    /// The failing job's tile index; `None` when writing a frame failed.
    pub tile_idx: Option<usize>,
}

/// What the caller is to do next.
#[derive(Clone, Copy, Debug, PartialEq, Eq)]
pub enum Action {
    /// Submit this job to the backend, then call `on_submitted`.
    Submit(Job),
    /// Retrieve the backend's oldest outstanding result, which is this job's
    /// tile, and hand it to `on_retrieved`.
    Retrieve(Job),
    /// Hand the frame buffer, which holds this frame complete, to the output
    /// sink, then call `on_written`.
    WriteFrame(usize),
    /// Every frame has been assembled and written.
    Finished,
    /// The run has stopped on this error; nothing more is to be done.
    Failed(PipelineError),
}

/// The index of the first job of the run of jobs of one frame that ends
/// with job `k - 1`.
pub open spec fn run_start(jobs: Seq<Job>, k: int) -> int
    decreases k,
{
    if k <= 1 {
        0
    } else if jobs[k - 2].frame_idx != jobs[k - 1].frame_idx {
        k - 1
    } else {
        run_start(jobs, k - 1)
    }
}

/// The frame `base` after the tiles `tiles[from .. to]` were composited into
/// it in order, each at the origin of its job in `jobs`.
pub open spec fn composite_jobs(
    jobs: Seq<Job>,
    tiles: Seq<Seq<u8>>,
    from: int,
    to: int,
    base: Seq<u8>,
    image_size: (usize, usize),
    tile_size: (usize, usize),
) -> Seq<u8>
    decreases to - from,
{
    if to <= from {
        base
    } else {
        blitted(
            tiles[to - 1],
            composite_jobs(jobs, tiles, from, to - 1, base, image_size, tile_size),
            jobs[to - 1].pos,
            image_size,
            tile_size,
        )
    }
}

/// The composite depends only on the tiles in its range.
proof fn lemma_composite_same_tiles(
    jobs: Seq<Job>,
    tiles: Seq<Seq<u8>>,
    other: Seq<Seq<u8>>,
    from: int,
    to: int,
    base: Seq<u8>,
    image_size: (usize, usize),
    tile_size: (usize, usize),
)
    requires
        forall|i: int| from <= i < to ==> tiles[i] == other[i],
    ensures
        composite_jobs(jobs, tiles, from, to, base, image_size, tile_size) == composite_jobs(
            jobs,
            other,
            from,
            to,
            base,
            image_size,
            tile_size,
        ),
    decreases to - from,
{
    if to > from {
        lemma_composite_same_tiles(jobs, tiles, other, from, to - 1, base, image_size, tile_size);
    }
}

/// The run that ends with job `k - 1` starts at `run_start`: its jobs all
/// belong to the frame of job `k - 1`, and the job before it to another.
proof fn lemma_run_start(jobs: Seq<Job>, k: int)
    requires
        0 < k <= jobs.len(),
    ensures
        0 <= run_start(jobs, k) < k,
        forall|i: int| run_start(jobs, k) <= i < k ==> #[trigger] jobs[i].frame_idx == jobs[k - 1].frame_idx,
        run_start(jobs, k) > 0 ==> jobs[run_start(jobs, k) - 1].frame_idx != jobs[run_start(jobs, k)].frame_idx,
    decreases k,
{
    if k > 1 && jobs[k - 2].frame_idx == jobs[k - 1].frame_idx {
        lemma_run_start(jobs, k - 1);
    }
}

/// The error that the failure of `action`'s outside work stands for. Only
/// `Submit`, `Retrieve` and `WriteFrame` ask for outside work; the other
/// actions are never reported as failed.
pub open spec fn failure_of(action: Action) -> PipelineError {
    match action {
        Action::Submit(job) => PipelineError {
            kind: ErrorKind::BackendSubmitFailed,
            frame_idx: job.frame_idx,
            tile_idx: Some(job.tile_idx),
        },
        Action::Retrieve(job) => PipelineError {
            kind: ErrorKind::BackendRetrieveFailed,
            frame_idx: job.frame_idx,
            tile_idx: Some(job.tile_idx),
        },
        Action::WriteFrame(frame) => PipelineError { kind: ErrorKind::OutputWriteFailed, frame_idx: frame, tile_idx: None },
        Action::Finished => PipelineError { kind: ErrorKind::InvalidTileGeometry, frame_idx: 0, tile_idx: None },
        Action::Failed(e) => e,
    }
}

/// Whether `action` asks for outside work whose outcome is to be reported.
pub open spec fn is_pending_work(action: Action) -> bool {
    action is Submit || action is Retrieve || action is WriteFrame
}

/// The state of a [`Scheduler`].
pub struct SchedulerModel {
    /// All jobs of the run, in submission order.
    pub jobs: Seq<Job>,
    /// The most jobs that may be in flight at once.
    pub lookahead: nat,
    pub image_size: (usize, usize),
    pub tile_size: (usize, usize),
    /// Jobs `0 .. submitted` have been submitted.
    pub submitted: nat,
    /// Jobs `0 .. retrieved` have been retrieved and composited; jobs
    /// `retrieved .. submitted` are in flight.
    pub retrieved: nat,
    pub frame: FrameState,
    /// The frame buffer, row-major RGB.
    pub buffer: Seq<u8>,
    /// The tile data delivered for jobs `0 .. retrieved`, in order.
    pub delivered: Seq<Seq<u8>>,
    pub failure: Option<PipelineError>,
}

impl SchedulerModel {
    /// The state before any job was submitted.
    pub open spec fn initial(
        jobs: Seq<Job>,
        lookahead: nat,
        image_size: (usize, usize),
        tile_size: (usize, usize),
    ) -> SchedulerModel {
        SchedulerModel {
            jobs,
            lookahead,
            image_size,
            tile_size,
            submitted: 0,
            retrieved: 0,
            frame: FrameState::NoFrameOpen,
            buffer: Seq::new((3 * image_size.0 * image_size.1) as nat, |_i: int| 0u8),
            delivered: Seq::empty(),
            failure: None,
        }
    }

    /// The jobs submitted and not yet retrieved, oldest first.
    pub open spec fn in_flight(self) -> Seq<Job> {
        self.jobs.subrange(self.retrieved as int, self.submitted as int)
    }

    pub open spec fn wf(self) -> bool {
        &&& self.lookahead >= 1
        &&& self.retrieved <= self.submitted <= self.jobs.len()
        &&& self.in_flight().len() <= self.lookahead
        &&& self.buffer.len() == 3 * self.image_size.0 * self.image_size.1
        &&& self.delivered.len() == self.retrieved
        &&& self.buffer == self.assembled()
        &&& self.jobs.len() <= usize::MAX
        &&& self.lookahead <= usize::MAX
        &&& match self.frame {
            FrameState::FrameOpen(f) => self.retrieved > 0 && self.jobs[self.retrieved - 1].frame_idx == f,
            FrameState::NoFrameOpen => 0 < self.retrieved < self.jobs.len() ==> self.jobs[self.retrieved as int].frame_idx
                != self.jobs[self.retrieved - 1].frame_idx,
        }
    }

    /// The next thing to do: submit while a slot is free and work is left;
    /// otherwise close the open frame when the oldest job in flight belongs
    /// to another, else retrieve that job; with nothing in flight and
    /// nothing left, close the last frame and finish.
    pub open spec fn action(self) -> Action {
        if self.failure is Some {
            Action::Failed(self.failure->0)
        } else if self.submitted < self.jobs.len() && self.in_flight().len() < self.lookahead {
            Action::Submit(self.jobs[self.submitted as int])
        } else if self.retrieved < self.submitted {
            let job = self.jobs[self.retrieved as int];
            match self.frame {
                FrameState::FrameOpen(f) => if f != job.frame_idx {
                    Action::WriteFrame(f)
                } else {
                    Action::Retrieve(job)
                },
                FrameState::NoFrameOpen => Action::Retrieve(job),
            }
        } else {
            match self.frame {
                FrameState::FrameOpen(f) => Action::WriteFrame(f),
                FrameState::NoFrameOpen => Action::Finished,
            }
        }
    }

    /// After the backend accepted the next job.
    pub open spec fn after_submit(self) -> SchedulerModel {
        SchedulerModel { submitted: self.submitted + 1, ..self }
    }

    /// After the backend delivered `tile`, the pixels of the oldest job in
    /// flight: composited into the frame buffer, which is now that job's
    /// frame; or, where the tile does not fit, the run fails.
    pub open spec fn after_retrieve(self, tile: Seq<u8>) -> SchedulerModel {
        let job = self.jobs[self.retrieved as int];
        if blit_fits(tile.len() as int, self.buffer.len() as int, job.pos, self.image_size, self.tile_size) {
            SchedulerModel {
                retrieved: self.retrieved + 1,
                frame: FrameState::FrameOpen(job.frame_idx),
                buffer: blitted(tile, self.buffer, job.pos, self.image_size, self.tile_size),
                delivered: self.delivered.push(tile),
                ..self
            }
        } else {
            SchedulerModel {
                failure: Some(
                    PipelineError {
                        kind: ErrorKind::InvalidTileGeometry,
                        frame_idx: job.frame_idx,
                        tile_idx: Some(job.tile_idx),
                    },
                ),
                ..self
            }
        }
    }

    /// After the output sink stored the open frame: no frame is open, and the
    /// buffer is cleared for the next.
    pub open spec fn after_write(self) -> SchedulerModel {
        SchedulerModel {
            frame: FrameState::NoFrameOpen,
            buffer: Seq::new(self.buffer.len(), |_i: int| 0u8),
            ..self
        }
    }

    /// After the outside work of the current action failed.
    pub open spec fn after_failure(self) -> SchedulerModel {
        SchedulerModel { failure: Some(failure_of(self.action())), ..self }
    }

    /// A cleared frame buffer.
    pub open spec fn cleared(self) -> Seq<u8> {
        Seq::new((3 * self.image_size.0 * self.image_size.1) as nat, |_i: int| 0u8)
    }

    /// What the frame buffer holds: with a frame open, the tiles delivered
    /// for that frame's jobs so far, composited in order onto a cleared
    /// buffer; with none open, a cleared buffer.
    pub open spec fn assembled(self) -> Seq<u8> {
        match self.frame {
            FrameState::FrameOpen(_) => composite_jobs(
                self.jobs,
                self.delivered,
                run_start(self.jobs, self.retrieved as int),
                self.retrieved as int,
                self.cleared(),
                self.image_size,
                self.tile_size,
            ),
            FrameState::NoFrameOpen => self.cleared(),
        }
    }

    /// The frames handed to the output sink so far, in order.
    pub open spec fn frames_closed(self) -> Seq<usize> {
        let runs = frame_runs(self.jobs.take(self.retrieved as int));
        match self.frame {
            FrameState::FrameOpen(_) => runs.drop_last(),
            FrameState::NoFrameOpen => runs,
        }
    }
}

/// Drives a render run: decides what the backend and the output sink do
/// next, and assembles frames from the tiles the backend delivers.
pub struct Scheduler {
    jobs: Vec<Job>,
    lookahead: usize,
    image_size: (usize, usize),
    tile_size: (usize, usize),
    submitted: usize,
    retrieved: usize,
    frame: FrameState,
    buffer: Vec<u8>,
    delivered: Ghost<Seq<Seq<u8>>>,
    failure: Option<PipelineError>,
}

impl View for Scheduler {
    type V = SchedulerModel;

    closed spec fn view(&self) -> SchedulerModel {
        SchedulerModel {
            jobs: self.jobs@,
            lookahead: self.lookahead as nat,
            image_size: self.image_size,
            tile_size: self.tile_size,
            submitted: self.submitted as nat,
            retrieved: self.retrieved as nat,
            frame: self.frame,
            buffer: self.buffer@,
            delivered: self.delivered@,
            failure: self.failure,
        }
    }
}

/// A buffer of `len` zero bytes.
fn zeroed(len: usize) -> (r: Vec<u8>)
    ensures
        r@ == Seq::new(len as nat, |_i: int| 0u8),
{
    let mut r: Vec<u8> = Vec::new();
    let mut i: usize = 0;
    while i < len
        invariant
            i <= len,
            r@ == Seq::new(i as nat, |_i: int| 0u8),
        decreases len - i,
    {
        r.push(0);
        i += 1;
        assert(r@ =~= Seq::new(i as nat, |_i: int| 0u8));
    }
    r
}

impl Scheduler {
    /// A scheduler for `jobs`, in that order, that keeps at most `lookahead`
    /// of them in flight and assembles frames of `image_size` pixels from
    /// tiles of `tile_size` pixels.
    pub fn new(jobs: Vec<Job>, lookahead: usize, image_size: (usize, usize), tile_size: (usize, usize)) -> (r: Scheduler)
        requires
            lookahead >= 1,
            3 * image_size.0 * image_size.1 <= usize::MAX,
        ensures
            r@ == SchedulerModel::initial(jobs@, lookahead as nat, image_size, tile_size),
            r@.wf(),
    {
        proof {
            assert(3 * image_size.0 * image_size.1 == 3 * (image_size.0 * image_size.1)) by (nonlinear_arith);
        }
        assert(jobs@.len() == jobs.len());
        let area = image_size.0 * image_size.1;
        let buffer = zeroed(3 * area);
        Scheduler {
            jobs,
            lookahead,
            image_size,
            tile_size,
            submitted: 0,
            retrieved: 0,
            frame: FrameState::NoFrameOpen,
            buffer,
            delivered: Ghost(Seq::empty()),
            failure: None,
        }
    }

    /// What the caller is to do next.
    pub fn next_action(&self) -> (r: Action)
        requires
            self@.wf(),
        ensures
            r == self@.action(),
    {
        if let Some(e) = self.failure {
            return Action::Failed(e);
        }
        if self.submitted < self.jobs.len() && self.submitted - self.retrieved < self.lookahead {
            return Action::Submit(self.jobs[self.submitted]);
        }
        if self.retrieved < self.submitted {
            let job = self.jobs[self.retrieved];
            if let FrameState::FrameOpen(f) = self.frame {
                if f != job.frame_idx {
                    return Action::WriteFrame(f);
                }
            }
            return Action::Retrieve(job);
        }
        match self.frame {
            FrameState::FrameOpen(f) => Action::WriteFrame(f),
            FrameState::NoFrameOpen => Action::Finished,
        }
    }

    /// The backend accepted the job of the current `Submit` action.
    pub fn on_submitted(&mut self)
        requires
            old(self)@.wf(),
            old(self)@.action() is Submit,
        ensures
            final(self)@ == old(self)@.after_submit(),
            final(self)@.wf(),
            final(self)@.frames_closed() == old(self)@.frames_closed(),
    {
        self.submitted = self.submitted + 1;
    }

    /// The backend delivered `tile`, the pixels of the job of the current
    /// `Retrieve` action; it is composited into the frame buffer.
    pub fn on_retrieved(&mut self, tile: &[u8])
        requires
            old(self)@.wf(),
            old(self)@.action() is Retrieve,
        ensures
            final(self)@ == old(self)@.after_retrieve(tile@),
            final(self)@.wf(),
            final(self)@.frames_closed() == old(self)@.frames_closed(),
    {
        let job = self.jobs[self.retrieved];
        let ghost before = self@;
        match blit_rgb(tile, self.buffer.as_mut_slice(), job.pos, self.image_size, self.tile_size) {
            Ok(()) => {
                proof {
                    lemma_runs_step(before.jobs, before.retrieved + 1 as int);
                    assert(before.jobs.take(0) =~= Seq::<Job>::empty());
                    let r = before.retrieved as int;
                    let delivered = before.delivered.push(tile@);
                    let after = before.after_retrieve(tile@);
                    if r > 0 {
                        lemma_run_start(before.jobs, r);
                    }
                    lemma_composite_same_tiles(
                        before.jobs,
                        before.delivered,
                        delivered,
                        run_start(before.jobs, r),
                        r,
                        before.cleared(),
                        before.image_size,
                        before.tile_size,
                    );
                    let start = run_start(before.jobs, r + 1);
                    match before.frame {
                        FrameState::FrameOpen(_) => {
                            assert(start == run_start(before.jobs, r));
                        },
                        FrameState::NoFrameOpen => {
                            assert(start == r);
                        },
                    }
                    assert(composite_jobs(before.jobs, delivered, start, r, before.cleared(), before.image_size, before.tile_size)
                        == before.buffer);
                    assert(after.delivered == delivered);
                    assert(after.cleared() == before.cleared());
                    assert(delivered[r] == tile@);
                    assert(after.buffer == after.assembled());
                }
                self.delivered = Ghost(self.delivered@.push(tile@));
                self.retrieved = self.retrieved + 1;
                self.frame = FrameState::FrameOpen(job.frame_idx);
            },
            Err(kind) => {
                self.failure = Some(PipelineError { kind, frame_idx: job.frame_idx, tile_idx: Some(job.tile_idx) });
            },
        }
    }

    /// The output sink stored the frame of the current `WriteFrame` action.
    pub fn on_written(&mut self)
        requires
            old(self)@.wf(),
            old(self)@.action() is WriteFrame,
        ensures
            final(self)@ == old(self)@.after_write(),
            final(self)@.wf(),
            final(self)@.frames_closed() == old(self)@.frames_closed().push(old(self)@.action()->WriteFrame_0),
    {
        proof {
            lemma_runs_last(self@.jobs, self@.retrieved as int);
            assert(frame_runs(self@.jobs.take(self@.retrieved as int)).drop_last().push(self@.action()->WriteFrame_0)
                =~= frame_runs(self@.jobs.take(self@.retrieved as int)));
        }
        self.buffer = zeroed(self.buffer.len());
        self.frame = FrameState::NoFrameOpen;
    }

    /// The outside work of the current action failed: the run stops here.
    pub fn on_failed(&mut self)
        requires
            old(self)@.wf(),
            is_pending_work(old(self)@.action()),
        ensures
            final(self)@ == old(self)@.after_failure(),
            final(self)@.wf(),
            final(self)@.frames_closed() == old(self)@.frames_closed(),
            final(self)@.action() == Action::Failed(failure_of(old(self)@.action())),
    {
        let action = self.next_action();
        let error = match action {
            Action::Submit(job) => PipelineError {
                kind: ErrorKind::BackendSubmitFailed,
                frame_idx: job.frame_idx,
                tile_idx: Some(job.tile_idx),
            },
            Action::Retrieve(job) => PipelineError {
                kind: ErrorKind::BackendRetrieveFailed,
                frame_idx: job.frame_idx,
                tile_idx: Some(job.tile_idx),
            },
            Action::WriteFrame(frame) => PipelineError { kind: ErrorKind::OutputWriteFailed, frame_idx: frame, tile_idx: None },
            Action::Finished => PipelineError { kind: ErrorKind::InvalidTileGeometry, frame_idx: 0, tile_idx: None },
            Action::Failed(e) => e,
        };
        self.failure = Some(error);
    }

    /// The frame buffer: row-major RGB of the frame being assembled.
    pub fn frame_buffer(&self) -> (r: &[u8])
        ensures
            r@ == self@.buffer,
    {
        self.buffer.as_slice()
    }

    /// The number of jobs in flight.
    pub fn in_flight(&self) -> (r: usize)
        requires
            self@.wf(),
        ensures
            r == self@.in_flight().len(),
    {
        self.submitted - self.retrieved
    }
}

/// A run that finished has handed every frame of its jobs to the output
/// sink exactly once, in the order the frames first appear. For a work queue
/// that is every requested frame, in order.
pub proof fn lemma_finished_wrote_every_frame(m: SchedulerModel)
    requires
        m.wf(),
        m.action() == Action::Finished,
    ensures
        m.frames_closed() == frame_runs(m.jobs),
{
    assert(m.jobs.take(m.jobs.len() as int) =~= m.jobs);
}

/// A frame is written only once all of its tiles have been retrieved and
/// composited, when the jobs come frame by frame.
pub proof fn lemma_frame_written_after_its_tiles(m: SchedulerModel)
    requires
        m.wf(),
        frame_major(m.jobs),
        m.action() is WriteFrame,
    ensures
        forall|i: int| 0 <= i < m.jobs.len() && #[trigger] m.jobs[i].frame_idx == m.action()->WriteFrame_0
            ==> i < m.retrieved,
{
    let f = m.action()->WriteFrame_0;
    assert forall|i: int| 0 <= i < m.jobs.len() && #[trigger] m.jobs[i].frame_idx == f implies i < m.retrieved by {
        if i >= m.retrieved {
            let r = m.retrieved as int;
            assert(m.jobs[r - 1].frame_idx <= m.jobs[r].frame_idx);
            assert(m.jobs[r].frame_idx <= m.jobs[i].frame_idx);
        }
    }
}

/// A frame is written whole and alone: when the jobs come frame by frame,
/// the buffer handed to the output sink holds exactly the tiles delivered for
/// that frame's jobs, all of them and no other, composited in job order onto
/// a cleared buffer.
pub proof fn lemma_written_frame_holds_its_tiles(m: SchedulerModel)
    requires
        m.wf(),
        frame_major(m.jobs),
        m.action() is WriteFrame,
    ensures
        forall|i: int| 0 <= i < m.jobs.len() ==> (#[trigger] m.jobs[i].frame_idx == m.action()->WriteFrame_0 <==> run_start(
            m.jobs,
            m.retrieved as int,
        ) <= i < m.retrieved),
        m.buffer == composite_jobs(
            m.jobs,
            m.delivered,
            run_start(m.jobs, m.retrieved as int),
            m.retrieved as int,
            m.cleared(),
            m.image_size,
            m.tile_size,
        ),
{
    let f = m.action()->WriteFrame_0;
    let r = m.retrieved as int;
    lemma_frame_written_after_its_tiles(m);
    lemma_run_start(m.jobs, r);
    let start = run_start(m.jobs, r);
    assert forall|i: int| 0 <= i < m.jobs.len() implies (#[trigger] m.jobs[i].frame_idx == f <==> start <= i < r) by {
        if i < start {
            assert(m.jobs[i].frame_idx <= m.jobs[start - 1].frame_idx);
            assert(m.jobs[start - 1].frame_idx <= m.jobs[start].frame_idx);
        }
    }
}

/// A job is submitted only while fewer than `lookahead` are in flight, so
/// the window never grows past `lookahead`: once `lookahead` jobs have been
/// submitted, each further submission waits for a retrieval.
pub proof fn lemma_submit_needs_free_slot(m: SchedulerModel)
    requires
        m.wf(),
        m.action() is Submit,
    ensures
        m.in_flight().len() < m.lookahead,
        m.retrieved + m.lookahead > m.submitted,
        m.after_submit().in_flight().len() <= m.lookahead,
        m.after_submit().wf(),
{
}

/// When retrieving a job's tile fails, the run stops before that job's frame
/// is written, and no further job is submitted: a failed scheduler asks for
/// no more outside work.
pub proof fn lemma_failed_retrieval_stops_run(m: SchedulerModel)
    requires
        m.wf(),
        frame_major(m.jobs),
        m.action() is Retrieve,
    ensures
        m.after_failure().action() == Action::Failed(failure_of(m.action())),
        !is_pending_work(m.after_failure().action()),
        m.after_failure().submitted == m.submitted,
        !m.after_failure().frames_closed().contains(m.action()->Retrieve_0.frame_idx),
{
    let job = m.action()->Retrieve_0;
    let r = m.retrieved as int;
    let closed = m.frames_closed();
    if r > 0 {
        lemma_runs_last(m.jobs, r);
        lemma_runs_rise(m.jobs, r);
        let runs = frame_runs(m.jobs.take(r));
        assert(m.jobs[r - 1].frame_idx <= m.jobs[r].frame_idx);
        match m.frame {
            FrameState::FrameOpen(_) => {
                assert forall|i: int| 0 <= i < closed.len() implies closed[i] != job.frame_idx by {
                    assert(runs[i] < runs[runs.len() - 1]);
                }
            },
            FrameState::NoFrameOpen => {
                assert forall|i: int| 0 <= i < closed.len() implies closed[i] != job.frame_idx by {
                    assert(runs[i] <= m.jobs[r - 1].frame_idx);
                }
            },
        }
    } else {
        assert(m.jobs.take(0) =~= Seq::<Job>::empty());
    }
}

/// Runs are reproducible: two runs over the same jobs and frame geometry,
/// whatever their lookahead, that were delivered the same tile data for a
/// frame's jobs write that frame byte for byte the same.
pub proof fn lemma_written_frames_reproducible(a: SchedulerModel, b: SchedulerModel)
    requires
        a.wf(),
        b.wf(),
        a.jobs == b.jobs,
        a.image_size == b.image_size,
        a.tile_size == b.tile_size,
        frame_major(a.jobs),
        a.action() is WriteFrame,
        b.action() == a.action(),
        forall|i: int| 0 <= i < a.retrieved && i < b.retrieved && #[trigger] a.jobs[i].frame_idx == a.action()->WriteFrame_0
            ==> a.delivered[i] == b.delivered[i],
    ensures
        a.buffer == b.buffer,
{
    let f = a.action()->WriteFrame_0;
    lemma_written_frame_holds_its_tiles(a);
    lemma_written_frame_holds_its_tiles(b);
    let (ra, rb) = (a.retrieved as int, b.retrieved as int);
    let (sa, sb) = (run_start(a.jobs, ra), run_start(b.jobs, rb));
    lemma_run_start(a.jobs, ra);
    lemma_run_start(b.jobs, rb);
    assert(a.jobs[ra - 1].frame_idx == f);
    assert(b.jobs[rb - 1].frame_idx == f);
    assert(a.jobs[sa].frame_idx == f);
    assert(b.jobs[sb].frame_idx == f);
    assert(ra == rb && sa == sb);
    assert forall|i: int| sa <= i < ra implies a.delivered[i] == b.delivered[i] by {
        assert(a.jobs[i].frame_idx == f);
    }
    lemma_composite_same_tiles(a.jobs, a.delivered, b.delivered, sa, ra, a.cleared(), a.image_size, a.tile_size);
}

} // verus!
