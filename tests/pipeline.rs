use bosrender::error::ErrorKind;
use bosrender::jobs::{work_queue, Job};
use bosrender::scheduler::{Action, PipelineError, Scheduler};
use bosrender::tiles::tiles;

#[derive(Debug, Clone, PartialEq)]
enum Event {
    Submit(usize, usize),
    Retrieve(usize, usize),
    Write(usize, Vec<u8>),
}

struct Run {
    events: Vec<Event>,
    most_in_flight: usize,
    result: Result<(), PipelineError>,
}

/// A backend that renders each tile in one colour, from its frame and origin.
fn render(job: &Job, tile: (usize, usize)) -> Vec<u8> {
    let value = (job.frame_idx * 50 + job.pos.0 + job.pos.1 * 3) as u8;
    vec![value; tile.0 * tile.1 * 3]
}

fn drive(jobs: Vec<Job>, lookahead: usize, image: (usize, usize), tile: (usize, usize), fail_retrieval: Option<usize>) -> Run {
    let mut scheduler = Scheduler::new(jobs, lookahead, image, tile);
    let mut events = Vec::new();
    let mut retrievals = 0;
    let mut most_in_flight = 0;
    let result = loop {
        match scheduler.next_action() {
            Action::Submit(job) => {
                events.push(Event::Submit(job.frame_idx, job.tile_idx));
                scheduler.on_submitted();
                most_in_flight = most_in_flight.max(scheduler.in_flight());
            }
            Action::Retrieve(job) => {
                retrievals += 1;
                if fail_retrieval == Some(retrievals) {
                    scheduler.on_failed();
                } else {
                    events.push(Event::Retrieve(job.frame_idx, job.tile_idx));
                    scheduler.on_retrieved(&render(&job, tile));
                }
            }
            Action::WriteFrame(frame) => {
                events.push(Event::Write(frame, scheduler.frame_buffer().to_vec()));
                scheduler.on_written();
            }
            Action::Finished => break Ok(()),
            Action::Failed(e) => break Err(e),
        }
    };
    assert!(matches!(scheduler.next_action(), Action::Finished | Action::Failed(_)));
    Run { events, most_in_flight, result }
}

/// Three frames of three tiles each: a 6x2 image in 2x2 tiles.
fn three_by_three() -> Vec<Job> {
    work_queue(0, 3, &tiles((6, 2), (2, 2)))
}

fn written_frames(run: &Run) -> Vec<usize> {
    run.events
        .iter()
        .filter_map(|e| match e {
            Event::Write(f, _) => Some(*f),
            _ => None,
        })
        .collect()
}

#[test]
fn work_queue_is_frame_major() {
    let jobs = work_queue(5, 2, &[(0, 0), (4, 0), (0, 4)]);
    assert_eq!(jobs.len(), 6);
    assert_eq!(jobs[0], Job { pos: (0, 0), frame_idx: 5, tile_idx: 0 });
    assert_eq!(jobs[2], Job { pos: (0, 4), frame_idx: 5, tile_idx: 2 });
    assert_eq!(jobs[3], Job { pos: (0, 0), frame_idx: 6, tile_idx: 0 });
    assert_eq!(jobs[5], Job { pos: (0, 4), frame_idx: 6, tile_idx: 2 });
    assert!(work_queue(0, 0, &[(0, 0)]).is_empty());
}

#[test]
fn frames_written_once_in_order_after_their_last_tile() {
    let jobs = three_by_three();
    let frames: Vec<usize> = jobs.iter().map(|j| j.frame_idx).collect();
    assert_eq!(frames, vec![0, 0, 0, 1, 1, 1, 2, 2, 2]);
    let run = drive(jobs, 3, (6, 2), (2, 2), None);
    assert_eq!(run.result, Ok(()));
    assert_eq!(written_frames(&run), vec![0, 1, 2]);
    for frame in 0..3 {
        let write_at = run.events.iter().position(|e| matches!(e, Event::Write(f, _) if *f == frame)).unwrap();
        let third_tile_at = run.events.iter().position(|e| *e == Event::Retrieve(frame, 2)).unwrap();
        assert!(third_tile_at < write_at);
        let later_tiles = run.events[..write_at].iter().filter(|e| matches!(e, Event::Retrieve(f, _) if *f > frame)).count();
        assert_eq!(later_tiles, 0);
    }
}

#[test]
fn written_frame_holds_every_tile() {
    let run = drive(three_by_three(), 3, (6, 2), (2, 2), None);
    match &run.events.iter().find(|e| matches!(e, Event::Write(1, _))) {
        Some(Event::Write(_, bytes)) => {
            assert_eq!(bytes.len(), 36);
            // Frame 1: tiles at x = 0, 2, 4 hold 50, 52, 54.
            let row: Vec<u8> = bytes[..18].iter().step_by(3).copied().collect();
            assert_eq!(row, vec![50, 50, 52, 52, 54, 54]);
            assert_eq!(bytes[..18], bytes[18..]);
        }
        _ => panic!("frame 1 was not written"),
    }
}

#[test]
fn in_flight_window_stays_within_lookahead() {
    let run = drive(three_by_three(), 3, (6, 2), (2, 2), None);
    assert_eq!(run.most_in_flight, 3);
    let mut submitted = 0;
    let mut retrieved = 0;
    for e in &run.events {
        match e {
            Event::Submit(..) => {
                submitted += 1;
                if submitted > 3 {
                    assert!(retrieved >= submitted - 3);
                }
            }
            Event::Retrieve(..) => retrieved += 1,
            Event::Write(..) => {}
        }
    }
    assert_eq!((submitted, retrieved), (9, 9));
    // The first three submissions prime the backend before any retrieval.
    assert!(matches!(run.events[..3], [Event::Submit(0, 0), Event::Submit(0, 1), Event::Submit(0, 2)]));
    assert_eq!(run.events[3], Event::Retrieve(0, 0));
    assert_eq!(run.events[4], Event::Submit(1, 0));
}

#[test]
fn lookahead_of_one_is_synchronous() {
    let run = drive(three_by_three(), 1, (6, 2), (2, 2), None);
    assert_eq!(run.most_in_flight, 1);
    assert_eq!(written_frames(&run), vec![0, 1, 2]);
}

#[test]
fn identical_runs_write_identical_frames() {
    let first = drive(three_by_three(), 3, (6, 2), (2, 2), None);
    let second = drive(three_by_three(), 3, (6, 2), (2, 2), None);
    assert_eq!(first.events, second.events);
    let other_depth = drive(three_by_three(), 2, (6, 2), (2, 2), None);
    let frames = |run: &Run| run.events.iter().filter(|e| matches!(e, Event::Write(..))).cloned().collect::<Vec<_>>();
    assert_eq!(frames(&first), frames(&other_depth));
}

#[test]
fn retrieval_failure_stops_before_its_frame_is_written() {
    let run = drive(three_by_three(), 3, (6, 2), (2, 2), Some(5));
    assert_eq!(
        run.result,
        Err(PipelineError { kind: ErrorKind::BackendRetrieveFailed, frame_idx: 1, tile_idx: Some(1) })
    );
    assert_eq!(written_frames(&run), vec![0]);
    let submissions = run.events.iter().filter(|e| matches!(e, Event::Submit(..))).count();
    // Jobs 1 to 7 were submitted: three to prime, one after each of the four retrievals.
    assert_eq!(submissions, 7);
    assert!(matches!(run.events.last(), Some(Event::Submit(2, 0))));
}

#[test]
fn submit_failure_is_reported_with_its_job() {
    let mut scheduler = Scheduler::new(three_by_three(), 2, (6, 2), (2, 2));
    assert!(matches!(scheduler.next_action(), Action::Submit(_)));
    scheduler.on_submitted();
    assert!(matches!(scheduler.next_action(), Action::Submit(Job { tile_idx: 1, .. })));
    scheduler.on_failed();
    let expected = PipelineError { kind: ErrorKind::BackendSubmitFailed, frame_idx: 0, tile_idx: Some(1) };
    assert_eq!(scheduler.next_action(), Action::Failed(expected));
}

#[test]
fn write_failure_is_reported_with_its_frame() {
    let jobs = work_queue(4, 1, &[(0, 0)]);
    let mut scheduler = Scheduler::new(jobs, 1, (1, 1), (1, 1));
    scheduler.on_submitted();
    assert!(matches!(scheduler.next_action(), Action::Retrieve(_)));
    scheduler.on_retrieved(&[1, 2, 3]);
    assert_eq!(scheduler.next_action(), Action::WriteFrame(4));
    assert_eq!(scheduler.frame_buffer(), &[1, 2, 3]);
    scheduler.on_failed();
    let expected = PipelineError { kind: ErrorKind::OutputWriteFailed, frame_idx: 4, tile_idx: None };
    assert_eq!(scheduler.next_action(), Action::Failed(expected));
}

#[test]
fn misshapen_tile_fails_the_run() {
    let mut scheduler = Scheduler::new(three_by_three(), 3, (6, 2), (2, 2));
    scheduler.on_submitted();
    scheduler.on_retrieved(&[0u8; 5]);
    let expected = PipelineError { kind: ErrorKind::InvalidTileGeometry, frame_idx: 0, tile_idx: Some(0) };
    assert_eq!(scheduler.next_action(), Action::Failed(expected));
}

#[test]
fn buffer_is_cleared_between_frames() {
    let jobs = vec![
        Job { pos: (0, 0), frame_idx: 0, tile_idx: 0 },
        Job { pos: (1, 0), frame_idx: 0, tile_idx: 1 },
        Job { pos: (0, 0), frame_idx: 1, tile_idx: 0 },
    ];
    let run = drive(jobs, 2, (2, 1), (1, 1), None);
    let frames: Vec<&Event> = run.events.iter().filter(|e| matches!(e, Event::Write(..))).collect();
    assert_eq!(*frames[0], Event::Write(0, vec![0, 0, 0, 1, 1, 1]));
    // Frame 1 has only its first tile: the rest is cleared, not left from frame 0.
    assert_eq!(*frames[1], Event::Write(1, vec![50, 50, 50, 0, 0, 0]));
}

#[test]
fn no_jobs_writes_nothing() {
    let run = drive(Vec::new(), 3, (4, 4), (2, 2), None);
    assert_eq!(run.result, Ok(()));
    assert!(run.events.is_empty());
}
