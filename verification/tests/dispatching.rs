//! The dispatch registry and channels: fan-out, silent drops, drain
//! semantics, and the one-tick lag for events written after their drain.

use saga_engine::{Chain, HandlerKind, HandlerRef, Invocation, SagaRegistry, SagaRunner,
    StageOutput};

/// The schedule point all pipelines in this program run under.
const UPDATE: u64 = 0;

const EVENT: usize = 0;

struct RecordingRunner {
    seen: Vec<(u64, u64)>,
}

impl SagaRunner<u64> for RecordingRunner {
    fn run_handler(&mut self, handler: u64, event: u64) -> StageOutput<u64> {
        self.seen.push((handler, event));
        StageOutput::Finished
    }
}

/// Every written event is delivered to all registered handlers exactly once
/// per tick, in registration order.
#[test]
fn fan_out_delivers_to_every_handler_in_order() {
    let mut registry: SagaRegistry<u64> = SagaRegistry::new();
    registry.register_pipeline(UPDATE, Chain::handler(1, EVENT));
    registry.register(EVENT, HandlerRef { id: 2, kind: HandlerKind::Terminal });
    registry.register(EVENT, HandlerRef { id: 3, kind: HandlerKind::Terminal });
    registry.write_event(EVENT, 41);
    registry.write_event(EVENT, 42);
    let mut runner = RecordingRunner { seen: Vec::new() };
    registry.run_tick(UPDATE, &mut runner);
    assert_eq!(
        runner.seen,
        vec![(1, 41), (2, 41), (3, 41), (1, 42), (2, 42), (3, 42)]
    );
}

/// An event written to a channel with no registered handlers is silently
/// discarded on its drain; no error is raised.
#[test]
fn unhandled_events_are_silently_discarded() {
    let mut registry: SagaRegistry<u64> = SagaRegistry::new();
    registry.write_event(EVENT, 9);
    let mut runner = RecordingRunner { seen: Vec::new() };
    let log = registry.drain_and_dispatch(EVENT, &mut runner);
    assert!(log.is_empty());
    // The channel was cleared: a second drain finds nothing either.
    let log = registry.drain_and_dispatch(EVENT, &mut runner);
    assert!(log.is_empty());
}

/// A second drain of an already drained channel is a no-op.
#[test]
fn second_drain_is_a_no_op() {
    let mut registry: SagaRegistry<u64> = SagaRegistry::new();
    registry.register_pipeline(UPDATE, Chain::handler(1, EVENT));
    registry.write_event(EVENT, 5);
    let mut runner = RecordingRunner { seen: Vec::new() };
    let first = registry.drain_and_dispatch(EVENT, &mut runner);
    assert_eq!(first.len(), 1);
    let second = registry.drain_and_dispatch(EVENT, &mut runner);
    assert!(second.is_empty());
}

/// A tick over an empty registry, or one with empty channels, does nothing.
#[test]
fn empty_tick_is_a_no_op() {
    let mut registry: SagaRegistry<u64> = SagaRegistry::new();
    let mut runner = RecordingRunner { seen: Vec::new() };
    assert!(registry.run_tick(UPDATE, &mut runner).is_empty());
    registry.register_pipeline(UPDATE, Chain::handler(1, EVENT));
    assert!(registry.run_tick(UPDATE, &mut runner).is_empty());
}

/// Writing the same value twice queues it twice: deliveries are never
/// coalesced.
#[test]
fn duplicate_writes_are_delivered_independently() {
    let mut registry: SagaRegistry<u64> = SagaRegistry::new();
    registry.register_pipeline(UPDATE, Chain::handler(1, EVENT));
    registry.write_event(EVENT, 6);
    registry.write_event(EVENT, 6);
    let mut runner = RecordingRunner { seen: Vec::new() };
    registry.run_tick(UPDATE, &mut runner);
    assert_eq!(runner.seen, vec![(1, 6), (1, 6)]);
}

struct SelfFeedingRunner;

impl SagaRunner<u64> for SelfFeedingRunner {
    fn run_handler(&mut self, _handler: u64, event: u64) -> StageOutput<u64> {
        StageOutput::Emit(event + 1)
    }
}

/// An event written into a channel after that channel's unit has already
/// drained in the same tick lags one tick: it is processed by the next
/// tick, not reprocessed in the same one.
#[test]
fn reemitted_events_lag_one_tick() {
    let mut registry: SagaRegistry<u64> = SagaRegistry::new();
    // A processor that feeds its own input channel.
    registry.register_pipeline(UPDATE, Chain::processor(1, EVENT, EVENT));
    registry.write_event(EVENT, 0);
    let mut runner = SelfFeedingRunner;
    let first = registry.run_tick(UPDATE, &mut runner);
    assert_eq!(first.len(), 1);
    assert_eq!(first[0].input, 0);
    let second = registry.run_tick(UPDATE, &mut runner);
    assert_eq!(second.len(), 1);
    assert_eq!(second[0].input, 1);
}

/// Registering against an already used event tag appends to its handler
/// list rather than replacing it.
#[test]
fn registration_appends_for_shared_event_types() {
    let mut registry: SagaRegistry<u64> = SagaRegistry::new();
    registry.register_pipeline(UPDATE, Chain::handler(1, EVENT));
    registry.register_pipeline(UPDATE, Chain::handler(2, EVENT));
    registry.write_event(EVENT, 3);
    let mut runner = RecordingRunner { seen: Vec::new() };
    let log = registry.run_tick(UPDATE, &mut runner);
    // Both pipelines' units drain the shared channel; the first one
    // delivers to both handlers, the second finds it empty.
    assert_eq!(runner.seen, vec![(1, 3), (2, 3)]);
    assert_eq!(
        log,
        vec![
            Invocation { handler: 1, tag: EVENT, input: 3, output: StageOutput::Finished },
            Invocation { handler: 2, tag: EVENT, input: 3, output: StageOutput::Finished },
        ]
    );
}

/// A tick runs only the dispatch units of the pipelines registered under
/// its schedule point; other pipelines' channels stay queued.
#[test]
fn schedule_points_partition_the_pipelines() {
    const POST_UPDATE: u64 = 1;
    const LATE_EVENT: usize = 1;
    let mut registry: SagaRegistry<u64> = SagaRegistry::new();
    registry.register_pipeline(UPDATE, Chain::handler(1, EVENT));
    registry.register_pipeline(POST_UPDATE, Chain::handler(2, LATE_EVENT));
    registry.write_event(EVENT, 8);
    registry.write_event(LATE_EVENT, 9);
    let mut runner = RecordingRunner { seen: Vec::new() };
    registry.run_tick(POST_UPDATE, &mut runner);
    // Only the pipeline scheduled under the requested point drained; the
    // other pipeline's event stays queued for its own schedule point.
    assert_eq!(runner.seen, vec![(2, 9)]);
    registry.run_tick(UPDATE, &mut runner);
    assert_eq!(runner.seen, vec![(2, 9), (1, 8)]);
}
