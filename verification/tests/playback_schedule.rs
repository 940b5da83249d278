use bevy_dice::render::schedule::{
    choose_refill, job_effect, playback_failure, retry_delay_ms, JobEffect, RefillCandidate, StartPass, StartStep,
    TakenFacts, WaitingFacts,
};
use bevy_dice::render::RollFailure;

fn ready(ready: usize) -> WaitingFacts {
    WaitingFacts {
        arena_exists: true,
        composition_empty: false,
        queue_exists: true,
        failure: None,
        ready,
        prepared: true,
    }
}

fn playable() -> TakenFacts {
    TakenFacts { corrections: Ok(()), diceset_exists: true, handles_ready: true }
}

#[test]
fn rolls_of_one_arena_start_in_submission_order() {
    // Arena 1 has an empty queue, arena 2 a ready one.
    let mut pass = StartPass::new(vec![1, 2, 1, 2], vec![]);
    assert_eq!(pass.current(), Some(0));
    assert_eq!(pass.decide(ready(0)), StartStep::Wait);
    assert_eq!(pass.current(), Some(1));
    assert_eq!(pass.decide(ready(2)), StartStep::Take);
    assert_eq!(pass.taken(playable()), None);
    // Arena 1's later roll waits behind the first, even with throws ready now.
    assert_eq!(pass.decide(ready(2)), StartStep::Wait);
    // Arena 2 is playing, so its second roll waits too.
    assert_eq!(pass.decide(ready(1)), StartStep::Wait);
    assert_eq!(pass.current(), None);
    assert_eq!(pass.finish(), vec![0, 2, 3]);
}

#[test]
fn busy_arenas_hold_their_rolls() {
    let mut pass = StartPass::new(vec![7, 8], vec![7]);
    assert_eq!(pass.decide(ready(2)), StartStep::Wait);
    assert_eq!(pass.decide(ready(2)), StartStep::Take);
    assert_eq!(pass.taken(playable()), None);
    assert_eq!(pass.finish(), vec![0]);
}

#[test]
fn failures_and_completions_leave_the_queue() {
    let mut pass = StartPass::new(vec![1, 1, 1, 1, 1], vec![]);
    let mut gone = ready(2);
    gone.arena_exists = false;
    assert_eq!(pass.decide(gone), StartStep::Fail(RollFailure::MissingArena));
    let mut empty = ready(0);
    empty.composition_empty = true;
    assert_eq!(pass.decide(empty), StartStep::Complete);
    let mut broken = ready(0);
    broken.failure = Some(RollFailure::InvalidGeometry);
    assert_eq!(pass.decide(broken), StartStep::Fail(RollFailure::InvalidGeometry));
    assert_eq!(pass.decide(ready(1)), StartStep::Take);
    let refused = TakenFacts { corrections: Err(RollFailure::InvalidGeometry), diceset_exists: true, handles_ready: true };
    assert_eq!(pass.taken(refused), Some(RollFailure::InvalidGeometry));
    let mut unprepared = ready(1);
    unprepared.prepared = false;
    assert_eq!(pass.decide(unprepared), StartStep::Wait);
    assert_eq!(pass.finish(), vec![4]);
}

#[test]
fn missing_queue_diceset_or_handles_fail_the_roll() {
    let mut pass = StartPass::new(vec![3, 3, 3], vec![]);
    let mut no_queue = ready(1);
    no_queue.queue_exists = false;
    assert_eq!(pass.decide(no_queue), StartStep::Fail(RollFailure::MissingArena));
    assert_eq!(pass.decide(ready(1)), StartStep::Take);
    let no_diceset = TakenFacts { corrections: Ok(()), diceset_exists: false, handles_ready: false };
    assert_eq!(pass.taken(no_diceset), Some(RollFailure::MissingDiceset));
    assert_eq!(pass.decide(ready(1)), StartStep::Take);
    let loading = TakenFacts { corrections: Ok(()), diceset_exists: true, handles_ready: false };
    assert_eq!(pass.taken(loading), Some(RollFailure::AssetUnavailable));
    assert!(pass.finish().is_empty());
}

fn candidate(last_refill: u64, demanded: bool, ready: usize) -> RefillCandidate {
    RefillCandidate { has_template: true, failed: false, cooling: false, ready, last_refill, demanded }
}

#[test]
fn refill_prefers_demanded_then_stale_then_emptier_queues() {
    assert_eq!(choose_refill(&[]), None);
    assert_eq!(choose_refill(&[candidate(3, false, 1), candidate(1, false, 1)]), Some(1));
    assert_eq!(choose_refill(&[candidate(1, false, 0), candidate(1, true, 1)]), Some(1));
    assert_eq!(choose_refill(&[candidate(1, true, 1), candidate(1, true, 0)]), Some(1));
    assert_eq!(choose_refill(&[candidate(1, true, 1), candidate(1, true, 1)]), Some(0));
    let full = candidate(0, true, 2);
    let mut failed = candidate(0, true, 0);
    failed.failed = true;
    let mut bare = candidate(0, true, 0);
    bare.has_template = false;
    let mut cooling = candidate(0, true, 0);
    cooling.cooling = true;
    assert_eq!(choose_refill(&[full, failed, bare, cooling]), None);
    assert_eq!(choose_refill(&[full, failed, bare, cooling, candidate(9, false, 1)]), Some(4));
}

#[test]
fn waiting_rolls_take_priority_over_top_ups() {
    assert_eq!(choose_refill(&[candidate(3, false, 1), candidate(5, true, 1)]), Some(1));
    assert_eq!(choose_refill(&[candidate(0, false, 0), candidate(9, true, 1), candidate(2, true, 1)]), Some(2));
}

#[test]
fn unsettled_throws_retry_after_a_doubling_delay() {
    assert_eq!(retry_delay_ms(0), 0);
    assert_eq!(retry_delay_ms(1), 250);
    assert_eq!(retry_delay_ms(2), 500);
    assert_eq!(retry_delay_ms(3), 1000);
    assert_eq!(retry_delay_ms(5), 4000);
    assert_eq!(retry_delay_ms(6), 8000);
    assert_eq!(retry_delay_ms(7), 8000);
    assert_eq!(retry_delay_ms(u32::MAX), 8000);
}

#[test]
fn finished_jobs_store_retry_fail_or_vanish() {
    assert_eq!(job_effect(false, Ok(()), 0, 0), JobEffect::Discard);
    assert_eq!(job_effect(true, Ok(()), 1, 3), JobEffect::Store { keep_recording: true });
    assert_eq!(job_effect(true, Ok(()), 2, 0), JobEffect::Store { keep_recording: false });
    assert_eq!(
        job_effect(true, Err(RollFailure::SimulationFailed), 0, 0),
        JobEffect::Retry { unsettled: 1, delay_ms: 250 }
    );
    assert_eq!(
        job_effect(true, Err(RollFailure::SimulationFailed), 0, 2),
        JobEffect::Retry { unsettled: 3, delay_ms: 1000 }
    );
    assert_eq!(
        job_effect(true, Err(RollFailure::SimulationFailed), 0, u32::MAX),
        JobEffect::Retry { unsettled: u32::MAX, delay_ms: 8000 }
    );
    assert_eq!(
        job_effect(true, Err(RollFailure::InvalidGeometry), 0, 0),
        JobEffect::Fail(RollFailure::InvalidGeometry)
    );
}

#[test]
fn playback_stops_for_the_first_reason() {
    assert_eq!(playback_failure(true, true, true), None);
    assert_eq!(playback_failure(false, false, false), Some(RollFailure::MissingArena));
    assert_eq!(playback_failure(true, false, false), Some(RollFailure::ArenaChanged));
    assert_eq!(playback_failure(true, true, false), Some(RollFailure::DiceRemoved));
}
