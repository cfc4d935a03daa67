use oxanus::batcher::{BatcherAction, BatcherEvent, BatcherPhase, BatcherState};

#[test]
fn batcher_collects_until_the_batch_is_full() {
    let mut s = BatcherState::new(3, false);
    assert_eq!(s.step(BatcherEvent::Job), BatcherAction::StartTimer);
    assert_eq!(s.step(BatcherEvent::Job), BatcherAction::Wait);
    assert_eq!(s.step(BatcherEvent::Job), BatcherAction::SpawnBatch(3));
    assert_eq!(s.phase, BatcherPhase::Idle);
    assert_eq!(s.pending, 0);
}

#[test]
fn batcher_runs_partial_batches_on_timeout() {
    let mut s = BatcherState::new(10, false);
    s.step(BatcherEvent::Job);
    s.step(BatcherEvent::Job);
    assert_eq!(s.step(BatcherEvent::Timeout), BatcherAction::SpawnBatch(2));
    assert_eq!(s.step(BatcherEvent::Timeout), BatcherAction::Wait);
}

#[test]
fn batcher_with_zero_timeout_runs_each_job() {
    let mut s = BatcherState::new(10, true);
    assert_eq!(s.step(BatcherEvent::Job), BatcherAction::SpawnBatch(1));
    let mut single = BatcherState::new(1, false);
    assert_eq!(single.step(BatcherEvent::Job), BatcherAction::SpawnBatch(1));
}

#[test]
fn batcher_drains_on_shutdown() {
    let mut s = BatcherState::new(3, false);
    s.step(BatcherEvent::Job);
    assert_eq!(s.step(BatcherEvent::Cancelled), BatcherAction::CloseChannel);
    assert_eq!(s.phase, BatcherPhase::Draining);
    assert_eq!(s.step(BatcherEvent::Job), BatcherAction::Wait);
    assert_eq!(s.step(BatcherEvent::Job), BatcherAction::SpawnBatch(3));
    assert_eq!(s.step(BatcherEvent::Job), BatcherAction::Wait);
    assert_eq!(s.step(BatcherEvent::Closed), BatcherAction::SpawnBatch(1));
    assert_eq!(s.phase, BatcherPhase::Done);
    assert_eq!(s.step(BatcherEvent::Job), BatcherAction::Wait);
}

#[test]
fn batcher_closed_channel_flushes_pending_jobs() {
    let mut s = BatcherState::new(5, false);
    s.step(BatcherEvent::Job);
    assert_eq!(s.step(BatcherEvent::Closed), BatcherAction::SpawnBatch(1));
    assert_eq!(s.phase, BatcherPhase::Done);
    let mut idle = BatcherState::new(5, false);
    assert_eq!(idle.step(BatcherEvent::Closed), BatcherAction::Wait);
    assert_eq!(idle.phase, BatcherPhase::Done);
}
