//! Linear pipelines driven through whole ticks: same-tick completion,
//! request/response round trips, and fan-in of several chains.

use saga_engine::{Chain, SagaRegistry, SagaRunner, StageOutput};

/// The schedule point all pipelines in this program run under.
const UPDATE: u64 = 0;

const REQUEST: usize = 0;
const RESPONSE: usize = 1;

/// Counts every invocation and forwards the event unchanged; terminal
/// handlers are the ids at or above `first_terminal`.
struct CountingRunner {
    counter: u64,
    first_terminal: u64,
}

impl SagaRunner<u64> for CountingRunner {
    fn run_handler(&mut self, handler: u64, event: u64) -> StageOutput<u64> {
        self.counter += 1;
        if handler >= self.first_terminal {
            StageOutput::Finished
        } else {
            StageOutput::Emit(event)
        }
    }
}

struct GreetingRunner {
    counter: u64,
    message: String,
}

impl SagaRunner<&'static str> for GreetingRunner {
    fn run_handler(&mut self, handler: u64, event: &'static str) -> StageOutput<&'static str> {
        if handler == 1 {
            self.counter += 1;
            self.message = format!("Hello, {}!", event);
            StageOutput::Emit(event)
        } else {
            self.counter += 2;
            println!("{}", self.message);
            StageOutput::Finished
        }
    }
}

#[test]
fn request_response_main() {
    let mut registry: SagaRegistry<&'static str> = SagaRegistry::new();
    let saga = Chain::processor(1, REQUEST, RESPONSE)
        .and_then(Chain::handler(2, RESPONSE))
        .unwrap();
    registry.register_pipeline(UPDATE, saga);
    registry.write_event(REQUEST, "Player");
    let mut runner = GreetingRunner { counter: 0, message: String::new() };
    registry.run_tick(UPDATE, &mut runner);
    assert_eq!(runner.counter, 3);
    assert_eq!(runner.message, "Hello, Player!");
}

/// A three-stage chain handles one input entirely within one tick.
#[test]
fn event_chaining_main() {
    const INTERMEDIARY: usize = 1;
    const OUTPUT: usize = 2;
    let mut registry: SagaRegistry<u64> = SagaRegistry::new();
    let saga = Chain::processor(1, REQUEST, INTERMEDIARY)
        .and_then(Chain::processor(2, INTERMEDIARY, OUTPUT))
        .unwrap()
        .and_then(Chain::handler(3, OUTPUT))
        .unwrap();
    registry.register_pipeline(UPDATE, saga);
    // One player with 10 health is hit once.
    registry.write_event(REQUEST, 10);
    let mut runner = CountingRunner { counter: 0, first_terminal: 3 };
    let log = registry.run_tick(UPDATE, &mut runner);
    assert_eq!(runner.counter, 3);
    assert_eq!(log.len(), 3);
    assert_eq!(log[2].input, 10);
}

#[test]
fn big_big_saga_for_big_decisions() {
    let mut registry: SagaRegistry<u64> = SagaRegistry::new();
    let mut saga = Chain::processor(1, 0, 1);
    let mut stage: u64 = 2;
    while stage <= 15 {
        let input = (stage - 1) as usize;
        saga = saga
            .and_then(Chain::processor(stage, input, input + 1))
            .unwrap();
        stage += 1;
    }
    let saga = saga.and_then(Chain::handler(16, 15)).unwrap();
    registry.register_pipeline(UPDATE, saga);
    registry.write_event(0, 0);
    let mut runner = CountingRunner { counter: 0, first_terminal: 16 };
    registry.run_tick(UPDATE, &mut runner);
    assert_eq!(16, runner.counter);
}

struct OrderCheckingRunner {
    counter: u64,
}

impl SagaRunner<u64> for OrderCheckingRunner {
    fn run_handler(&mut self, handler: u64, _event: u64) -> StageOutput<u64> {
        if handler == 1 {
            // The processing stage's members run before the next stage.
            assert!(self.counter < 2);
            self.counter += 1;
            StageOutput::Emit(0)
        } else if handler == 2 {
            assert!(self.counter < 2);
            self.counter += 1;
            StageOutput::Finished
        } else {
            assert_eq!(self.counter, 2);
            self.counter += 1;
            StageOutput::Finished
        }
    }
}

/// A sibling handler runs in the same stage slot as its processor; the next
/// stage's handler only runs after both.
#[test]
fn intermediary_handler_main() {
    const INPUT: usize = 0;
    const OUTPUT: usize = 1;
    let mut registry: SagaRegistry<u64> = SagaRegistry::new();
    let saga = Chain::processor(1, INPUT, OUTPUT)
        .with_sibling(2)
        .and_then(Chain::handler(3, OUTPUT))
        .unwrap();
    registry.register_pipeline(UPDATE, saga);
    registry.write_event(INPUT, 0);
    let mut runner = OrderCheckingRunner { counter: 0 };
    registry.run_tick(UPDATE, &mut runner);
    assert_eq!(runner.counter, 3);
}

struct MpmcRunner {
    consumed: u64,
}

impl SagaRunner<u64> for MpmcRunner {
    fn run_handler(&mut self, handler: u64, event: u64) -> StageOutput<u64> {
        if handler == 7 {
            self.consumed += 1;
            println!("{} events consumed", self.consumed);
            StageOutput::Finished
        } else {
            StageOutput::Emit(event)
        }
    }
}

/// Three chains share the producing event type and the consuming event
/// type: the shared consumer is registered once per chain, so it sees each
/// consumed event once per registration, not once in total.
#[test]
fn event_mpmc_main() {
    const PRODUCER: usize = 0;
    const PRODUCED1: usize = 1;
    const PRODUCED2: usize = 2;
    const PRODUCED3: usize = 3;
    const CONSUMED: usize = 4;
    let mut registry: SagaRegistry<u64> = SagaRegistry::new();
    let saga1 = Chain::processor(1, PRODUCER, PRODUCED1)
        .and_then(Chain::processor(4, PRODUCED1, CONSUMED))
        .unwrap()
        .and_then(Chain::handler(7, CONSUMED))
        .unwrap();
    let saga2 = Chain::processor(2, PRODUCER, PRODUCED2)
        .and_then(Chain::processor(5, PRODUCED2, CONSUMED))
        .unwrap()
        .and_then(Chain::handler(7, CONSUMED))
        .unwrap();
    let saga3 = Chain::processor(3, PRODUCER, PRODUCED3)
        .and_then(Chain::processor(6, PRODUCED3, CONSUMED))
        .unwrap()
        .and_then(Chain::handler(7, CONSUMED))
        .unwrap();
    registry.register_pipeline(UPDATE, saga1);
    registry.register_pipeline(UPDATE, saga2);
    registry.register_pipeline(UPDATE, saga3);
    registry.write_event(PRODUCER, 0);
    let mut runner = MpmcRunner { consumed: 0 };
    registry.run_tick(UPDATE, &mut runner);
    assert_ne!(3, runner.consumed);
    assert_eq!(9, runner.consumed);
}

struct NameRunner {
    responses: Vec<String>,
}

impl SagaRunner<&'static str> for NameRunner {
    fn run_handler(&mut self, handler: u64, event: &'static str) -> StageOutput<&'static str> {
        if handler == 1 {
            StageOutput::Emit(event)
        } else {
            self.responses.push(format!("Hello, {}!", event));
            StageOutput::Finished
        }
    }
}

#[test]
fn request() {
    let mut registry: SagaRegistry<&'static str> = SagaRegistry::new();
    let saga = Chain::processor(1, REQUEST, RESPONSE)
        .and_then(Chain::handler(2, RESPONSE))
        .unwrap();
    registry.register_pipeline(UPDATE, saga);
    registry.write_event(REQUEST, "Vicky");
    registry.write_event(REQUEST, "Luna");
    let mut runner = NameRunner { responses: Vec::new() };
    registry.run_tick(UPDATE, &mut runner);
    assert_eq!(runner.responses, vec!["Hello, Vicky!", "Hello, Luna!"]);
}

/// As `request`, but the pipeline is registered after the events are
/// already queued: the tick still delivers both.
#[test]
fn request_after() {
    let mut registry: SagaRegistry<&'static str> = SagaRegistry::new();
    registry.write_event(REQUEST, "Vicky");
    registry.write_event(REQUEST, "Luna");
    let saga = Chain::processor(1, REQUEST, RESPONSE)
        .and_then(Chain::handler(2, RESPONSE))
        .unwrap();
    registry.register_pipeline(UPDATE, saga);
    let mut runner = NameRunner { responses: Vec::new() };
    registry.run_tick(UPDATE, &mut runner);
    assert_eq!(runner.responses, vec!["Hello, Vicky!", "Hello, Luna!"]);
}

#[test]
fn request_response() {
    let mut registry: SagaRegistry<&'static str> = SagaRegistry::new();
    let saga = Chain::processor(1, REQUEST, RESPONSE)
        .and_then(Chain::handler(2, RESPONSE))
        .unwrap();
    registry.register_pipeline(UPDATE, saga);
    registry.write_event(REQUEST, "Vicky");
    registry.write_event(REQUEST, "Luna");
    let mut runner = NameRunner { responses: Vec::new() };
    let log = registry.run_tick(UPDATE, &mut runner);
    // Each request once through the processor, once through the handler.
    assert_eq!(log.len(), 4);
    assert_eq!(runner.responses.len(), 2);
}

/// A piped request: the handler consumes the request directly, with no
/// response stage.
#[test]
fn piped_request() {
    let mut registry: SagaRegistry<&'static str> = SagaRegistry::new();
    registry.register_pipeline(UPDATE, Chain::handler(2, REQUEST));
    registry.write_event(REQUEST, "Vicky");
    registry.write_event(REQUEST, "Luna");
    let mut runner = NameRunner { responses: Vec::new() };
    let log = registry.run_tick(UPDATE, &mut runner);
    assert_eq!(log.len(), 2);
    assert_eq!(runner.responses, vec!["Hello, Vicky!", "Hello, Luna!"]);
}
