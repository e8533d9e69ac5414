//! The work queue: one job per tile of every requested frame, frame by frame.
use vstd::prelude::*;
use vstd::arithmetic::div_mod::{lemma_div_is_ordered, lemma_fundamental_div_mod, lemma_fundamental_div_mod_converse};

verus! {

/// One tile of one frame, to be rendered by the backend. The frame index also
/// fixes the time the frame shows: `rate * frame_idx` for a rate in time
/// units per frame.
#[derive(Clone, Copy, Debug, PartialEq, Eq)]
pub struct Job {
    /// Origin of the tile in the frame.
    pub pos: (usize, usize),
    /// The frame the tile belongs to.
    pub frame_idx: usize,
    /// Position of the tile in its frame's tile sequence.
    pub tile_idx: usize,
}

/// The jobs for frames `first_frame .. first_frame + frame_count`, each frame
/// covered by the tiles `tiles`: frame by frame, and within a frame in the
/// order of `tiles`.
pub open spec fn work_order(first_frame: usize, frame_count: usize, tiles: Seq<(usize, usize)>) -> Seq<Job> {
    let n = tiles.len() as int;
    Seq::new(
        (frame_count * n) as nat,
        |i: int| Job { pos: tiles[i % n], frame_idx: (first_frame + i / n) as usize, tile_idx: (i % n) as usize },
    )
}

/// Whether the jobs come frame by frame: frame indices never decrease along
/// the sequence.
pub open spec fn frame_major(jobs: Seq<Job>) -> bool {
    forall|i: int, j: int| 0 <= i <= j < jobs.len() ==> #[trigger] jobs[i].frame_idx <= #[trigger] jobs[j].frame_idx
}

/// The frame indices of `jobs` with repeats in a row collapsed: for jobs that
/// come frame by frame, the frames in the order they complete.
pub open spec fn frame_runs(jobs: Seq<Job>) -> Seq<usize>
    decreases jobs.len(),
{
    if jobs.len() == 0 {
        Seq::empty()
    } else {
        let earlier = frame_runs(jobs.drop_last());
        if jobs.len() >= 2 && jobs[jobs.len() - 2].frame_idx == jobs.last().frame_idx {
            earlier
        } else {
            earlier.push(jobs.last().frame_idx)
        }
    }
}

/// The frame runs of the first `k` jobs, from those of the first `k - 1`.
pub(crate) proof fn lemma_runs_step(jobs: Seq<Job>, k: int)
    requires
        0 < k <= jobs.len(),
    ensures
        frame_runs(jobs.take(k)) == if k >= 2 && jobs[k - 2].frame_idx == jobs[k - 1].frame_idx {
            frame_runs(jobs.take(k - 1))
        } else {
            frame_runs(jobs.take(k - 1)).push(jobs[k - 1].frame_idx)
        },
{
    assert(jobs.take(k).drop_last() =~= jobs.take(k - 1));
}

/// The frame runs of a nonempty prefix end with the frame of its last job.
pub(crate) proof fn lemma_runs_last(jobs: Seq<Job>, k: int)
    requires
        0 < k <= jobs.len(),
    ensures
        frame_runs(jobs.take(k)).len() > 0,
        frame_runs(jobs.take(k)).last() == jobs[k - 1].frame_idx,
    decreases k,
{
    lemma_runs_step(jobs, k);
    if k >= 2 && jobs[k - 2].frame_idx == jobs[k - 1].frame_idx {
        lemma_runs_last(jobs, k - 1);
    }
}

/// For jobs that come frame by frame, the frame runs of a nonempty prefix
/// rise strictly and none exceeds the frame of its last job.
pub(crate) proof fn lemma_runs_rise(jobs: Seq<Job>, k: int)
    requires
        frame_major(jobs),
        0 < k <= jobs.len(),
    ensures
        forall|i: int, j: int| 0 <= i < j < frame_runs(jobs.take(k)).len()
            ==> frame_runs(jobs.take(k))[i] < frame_runs(jobs.take(k))[j],
        forall|i: int| 0 <= i < frame_runs(jobs.take(k)).len() ==> frame_runs(jobs.take(k))[i] <= jobs[k - 1].frame_idx,
    decreases k,
{
    lemma_runs_step(jobs, k);
    if k == 1 {
        assert(jobs.take(0) =~= Seq::<Job>::empty());
    } else {
        lemma_runs_rise(jobs, k - 1);
        assert(jobs[k - 2].frame_idx <= jobs[k - 1].frame_idx);
    }
}

/// Builds the work queue for frames `first_frame .. first_frame + frame_count`,
/// each covered by the tile origins `tiles`.
pub fn work_queue(first_frame: usize, frame_count: usize, tiles: &[(usize, usize)]) -> (r: Vec<Job>)
    requires
        first_frame + frame_count <= usize::MAX,
    ensures
        r@ == work_order(first_frame, frame_count, tiles@),
{
    let n = tiles.len();
    let ghost order = work_order(first_frame, frame_count, tiles@);
    let mut jobs: Vec<Job> = Vec::new();
    let mut frame: usize = 0;
    while frame < frame_count
        invariant
            frame <= frame_count,
            first_frame + frame_count <= usize::MAX,
            n == tiles@.len(),
            order == work_order(first_frame, frame_count, tiles@),
            jobs.len() == frame * n,
            forall|k: int| 0 <= k < jobs.len() ==> jobs@[k] == #[trigger] order[k],
        decreases frame_count - frame,
    {
        let mut tile: usize = 0;
        while tile < n
            invariant
                frame < frame_count,
                tile <= n,
                first_frame + frame_count <= usize::MAX,
                n == tiles@.len(),
                order == work_order(first_frame, frame_count, tiles@),
                jobs.len() == frame * n + tile,
                forall|k: int| 0 <= k < jobs.len() ==> jobs@[k] == #[trigger] order[k],
            decreases n - tile,
        {
            proof {
                let k = frame * n + tile;
                lemma_fundamental_div_mod_converse(k, n as int, frame as int, tile as int);
                assert(k < frame_count * n) by (nonlinear_arith)
                    requires
                        k == frame * n + tile,
                        tile < n,
                        frame < frame_count,
                        frame >= 0,
                        tile >= 0,
                ;
            }
            jobs.push(Job { pos: tiles[tile], frame_idx: first_frame + frame, tile_idx: tile });
            tile += 1;
        }
        frame += 1;
        assert(jobs.len() == frame * n) by (nonlinear_arith)
            requires
                jobs.len() == (frame - 1) * n + n,
        ;
    }
    assert(jobs@ =~= order);
    jobs
}

/// The work queue comes frame by frame.
pub proof fn lemma_work_order_frame_major(first_frame: usize, frame_count: usize, tiles: Seq<(usize, usize)>)
    requires
        first_frame + frame_count <= usize::MAX,
    ensures
        frame_major(work_order(first_frame, frame_count, tiles)),
{
    let jobs = work_order(first_frame, frame_count, tiles);
    let n = tiles.len() as int;
    assert forall|i: int, j: int| 0 <= i <= j < jobs.len() implies #[trigger] jobs[i].frame_idx <= #[trigger] jobs[j].frame_idx by {
        lemma_div_is_ordered(i, j, n);
        lemma_frame_in_range(i, n, frame_count as int);
        lemma_frame_in_range(j, n, frame_count as int);
    }
}

/// A job of the first `count` frames belongs to one of them.
proof fn lemma_frame_in_range(j: int, n: int, count: int)
    requires
        0 <= j < count * n,
        n > 0,
    ensures
        0 <= j / n < count,
{
    lemma_fundamental_div_mod(j, n);
    assert(0 <= j / n < count) by (nonlinear_arith)
        requires
            j == n * (j / n) + j % n,
            0 <= j % n < n,
            0 <= j < count * n,
            n > 0,
    ;
}

/// Where `k - 1` falls relative to `k` in steps of `n`.
proof fn lemma_div_predecessor(k: int, n: int)
    requires
        k >= 1,
        n > 0,
    ensures
        k % n == 0 ==> (k - 1) / n + 1 == k / n,
        k % n != 0 ==> (k - 1) / n == k / n,
{
    lemma_fundamental_div_mod(k, n);
    let q = k / n;
    let r = k % n;
    assert(k == q * n + r && 0 <= r < n) by (nonlinear_arith)
        requires
            k == n * q + r,
            r == k % n,
            n > 0,
    ;
    if r == 0 {
        assert(k - 1 == (q - 1) * n + (n - 1)) by (nonlinear_arith)
            requires
                k == q * n,
        ;
        lemma_fundamental_div_mod_converse(k - 1, n, q - 1, n - 1);
    } else {
        lemma_fundamental_div_mod_converse(k - 1, n, q, r - 1);
    }
}

/// The frame runs of the first `k` jobs of the work queue: the frames that
/// those jobs reach into.
proof fn lemma_work_order_runs_prefix(first_frame: usize, frame_count: usize, tiles: Seq<(usize, usize)>, k: int)
    requires
        first_frame + frame_count <= usize::MAX,
        tiles.len() > 0,
        1 <= k <= frame_count * tiles.len(),
    ensures
        frame_runs(work_order(first_frame, frame_count, tiles).take(k)) == Seq::new(
            ((k - 1) / (tiles.len() as int) + 1) as nat,
            |i: int| (first_frame + i) as usize,
        ),
    decreases k,
{
    let jobs = work_order(first_frame, frame_count, tiles);
    let n = tiles.len() as int;
    lemma_runs_step(jobs, k);
    if k == 1 {
        assert(jobs.take(0) =~= Seq::<Job>::empty());
        assert(0int / n == 0);
        assert(frame_runs(jobs.take(k)) =~= Seq::new(((k - 1) / n + 1) as nat, |i: int| (first_frame + i) as usize));
    } else {
        lemma_work_order_runs_prefix(first_frame, frame_count, tiles, k - 1);
        lemma_div_predecessor(k - 1, n);
        lemma_frame_in_range(k - 1, n, frame_count as int);
        lemma_frame_in_range(k - 2, n, frame_count as int);
        assert(jobs[k - 1].frame_idx == first_frame + (k - 1) / n);
        assert(jobs[k - 2].frame_idx == first_frame + (k - 2) / n);
        assert(frame_runs(jobs.take(k)) =~= Seq::new(((k - 1) / n + 1) as nat, |i: int| (first_frame + i) as usize));
    }
}

/// Every frame of the work queue appears once in its frame runs, in order:
/// with at least one tile per frame, they are exactly the requested frames.
pub proof fn lemma_work_order_runs(first_frame: usize, frame_count: usize, tiles: Seq<(usize, usize)>)
    requires
        first_frame + frame_count <= usize::MAX,
        tiles.len() > 0,
    ensures
        frame_runs(work_order(first_frame, frame_count, tiles)) == Seq::new(
            frame_count as nat,
            |i: int| (first_frame + i) as usize,
        ),
{
    let jobs = work_order(first_frame, frame_count, tiles);
    let n = tiles.len() as int;
    let total = frame_count * n;
    assert(total == jobs.len());
    if total == 0 {
        assert(frame_count == 0) by (nonlinear_arith)
            requires
                total == frame_count * n,
                total == 0,
                n > 0,
        ;
        assert(frame_runs(jobs) =~= Seq::new(frame_count as nat, |i: int| (first_frame + i) as usize));
    } else {
        lemma_work_order_runs_prefix(first_frame, frame_count, tiles, total);
        assert(jobs.take(total) =~= jobs);
        assert(total - 1 == (frame_count - 1) * n + (n - 1)) by (nonlinear_arith)
            requires
                total == frame_count * n,
        ;
        lemma_fundamental_div_mod_converse(total - 1, n, frame_count - 1, n - 1);
    }
}

} // verus!
