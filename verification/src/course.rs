//! The course of a live run as a whole: what follows on what, and when it ends with
//! files.
use crate::cli::RenderArgs;
use crate::session::{
    completes_slot, course_of, Course, Outcome, Request, RunError, Session, Stage,
};
use vstd::prelude::*;

verus! {

/// Whether event `k` of a run is a recorded job with a completed slot: it comes while
/// that job is being recorded.
pub open spec fn takes_slot(course: Course, events: Seq<(Outcome, bool)>, k: int) -> bool {
    let before = Session::history(course, events.take(k)).0;
    &&& completes_slot(events[k])
    &&& before.stage matches Stage::Recording(j) && j < before.jobs
}

/// A run knows exactly whether some recorded job has a completed slot, whichever job
/// it was: it ends with its files where one has, and with an error where none has.
pub proof fn lemma_completed_slots_decide_the_end(course: Course, events: Seq<(Outcome, bool)>)
    ensures
        ({
            let (last, requests) = Session::history(course, events);
            &&& last.any_completed <==> exists|k: int|
                0 <= k < events.len() && #[trigger] takes_slot(course, events, k)
            &&& requests.len() == events.len()
            &&& events.len() > 0 && requests.last() == Request::Finish ==> last.any_completed
            &&& events.len() > 0 && requests.last() == Request::Fail(RunError::NothingRendered)
                ==> !last.any_completed
        }),
    decreases events.len(),
{
    if events.len() > 0 {
        let front = events.drop_last();
        let n = front.len() as int;
        let (before, earlier) = Session::history(course, front);
        let (last, requests) = Session::history(course, events);
        lemma_completed_slots_decide_the_end(course, front);
        assert(events.take(n) =~= front);
        assert forall|k: int| 0 <= k < n implies takes_slot(course, events, k) == #[trigger] takes_slot(
            course,
            front,
            k,
        ) by {
            assert(events.take(k) =~= front.take(k));
        }
        if last.any_completed {
            if before.any_completed {
                let k = choose|k: int| 0 <= k < n && #[trigger] takes_slot(course, front, k);
                assert(takes_slot(course, events, k));
            } else {
                assert(takes_slot(course, events, n));
            }
        }
        if exists|k: int| 0 <= k < events.len() && #[trigger] takes_slot(course, events, k) {
            let k = choose|k: int| 0 <= k < events.len() && #[trigger] takes_slot(course, events, k);
            if k < n {
                assert(takes_slot(course, front, k));
            }
        }
    }
}

/// A run goes through its stages as its arguments ask for: a dry one prints its plan, a
/// test records its note, and any other probes unless that is switched off and nothing
/// is measured, measures where the slot length is to be chosen, and then plans.
pub proof fn lemma_run_prepares_as_asked(args: RenderArgs, outcome: Outcome)
    ensures
        ({
            let start = Session::fresh(course_of(args));
            let (opening, first) = start.follow(outcome, false);
            let (probing, second) = opening.follow(outcome, false);
            let (measuring, third) = probing.follow(outcome, false);
            let (_, fourth) = measuring.follow(outcome, false);
            &&& args.dry_run ==> first == Request::PrintPlan
            &&& !args.dry_run ==> {
                &&& first == Request::OpenDevices
                &&& args.test_note matches Some(note) ==> second == Request::TestNote(note) && third
                    == Request::Nothing
                &&& args.test_note is None && (!args.no_probe || args.auto_slot_length) ==> second
                    == Request::Probe && third == (if args.auto_slot_length {
                    Request::Measure
                } else {
                    Request::Plan
                }) && (args.auto_slot_length ==> fourth == Request::Plan)
                &&& args.test_note is None && args.no_probe && !args.auto_slot_length ==> second
                    == Request::Plan
            }
        }),
{
}

/// A planned run records its first job at once where it takes no more than 512 MiB, and
/// counts five seconds down before that where it takes more.
pub proof fn lemma_large_runs_count_down(run: Session, jobs: usize, peak_bytes: usize)
    requires
        run.stage == Stage::Planning,
        jobs > 0,
    ensures
        ({
            let (next, request) = run.follow(Outcome::Planned { jobs, peak_bytes }, false);
            &&& next.jobs == jobs
            &&& peak_bytes <= 536_870_912 ==> request == Request::Record(0) && next.stage
                == Stage::Recording(0)
            &&& peak_bytes > 536_870_912 ==> request == Request::Countdown(5) && next.stage
                == Stage::Counting(5)
        }),
{
}

/// A countdown goes on second by second, and ends with the first job.
pub proof fn lemma_countdown_ends_with_a_job(run: Session, left: u8, outcome: Outcome)
    requires
        run.stage == Stage::Counting(left),
        run.jobs > 0,
    ensures
        left > 1 ==> run.follow(outcome, false).1 == Request::Countdown((left - 1) as u8),
        left > 1 ==> run.follow(outcome, false).0.stage == Stage::Counting((left - 1) as u8),
        left <= 1 ==> run.follow(outcome, false).1 == Request::Record(0),
{
}

} // verus!
