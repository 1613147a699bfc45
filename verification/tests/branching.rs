//! The three branch routers: option filter, result split, and the N-way
//! enumeration router.

use saga_engine::{
    Chain, EnumRouter, HandlerKind, HandlerRef, OptionProcessor, ResultHandler, SagaRegistry,
    SagaRunner, StageOutput,
};

/// The schedule point all pipelines in this program run under.
const UPDATE: u64 = 0;

const INPUT: usize = 0;
const OUTPUT: usize = 1;

struct OptionRunner {
    lets_through: bool,
    counter: u64,
}

impl SagaRunner<u64> for OptionRunner {
    fn run_handler(&mut self, handler: u64, event: u64) -> StageOutput<u64> {
        if handler == 1 {
            if self.lets_through {
                StageOutput::Emit(4)
            } else {
                StageOutput::Skip
            }
        } else {
            self.counter = event;
            StageOutput::Finished
        }
    }
}

fn option_scenario(lets_through: bool) -> u64 {
    let mut registry: SagaRegistry<u64> = SagaRegistry::new();
    let saga = OptionProcessor { id: 1, input: INPUT, output: OUTPUT }
        .chain()
        .and_then(Chain::handler(2, OUTPUT))
        .unwrap();
    registry.register_pipeline(UPDATE, saga);
    registry.write_event(INPUT, 0);
    let mut runner = OptionRunner { lets_through, counter: 0 };
    registry.run_tick(UPDATE, &mut runner);
    runner.counter
}

#[test]
fn test_success() {
    assert_eq!(option_scenario(true), 4);
}

#[test]
fn test_failure() {
    assert_eq!(option_scenario(false), 0);
}

const OK_PATH: usize = 1;
const ERR_PATH: usize = 2;

struct ResultRunner {
    take_ok_path: bool,
    counter: u64,
}

impl SagaRunner<u64> for ResultRunner {
    fn run_handler(&mut self, handler: u64, event: u64) -> StageOutput<u64> {
        if handler == 1 {
            if self.take_ok_path {
                StageOutput::Success(1)
            } else {
                StageOutput::Failure(2)
            }
        } else if handler == 2 {
            // The sibling handler of the splitting stage.
            StageOutput::Finished
        } else {
            self.counter = event;
            StageOutput::Finished
        }
    }
}

fn result_scenario(with_sibling: bool, take_ok_path: bool) -> u64 {
    let mut registry: SagaRegistry<u64> = SagaRegistry::new();
    let saga = ResultHandler {
        result_source: 1,
        input: INPUT,
        ok_saga: Chain::handler(3, OK_PATH),
        err_saga: Chain::handler(4, ERR_PATH),
    }
    .chain();
    registry.register_pipeline(UPDATE, saga);
    if with_sibling {
        registry.register(INPUT, HandlerRef { id: 2, kind: HandlerKind::Terminal });
    }
    registry.write_event(INPUT, 0);
    let mut runner = ResultRunner { take_ok_path, counter: 0 };
    registry.run_tick(UPDATE, &mut runner);
    runner.counter
}

#[test]
fn test_ok() {
    assert_eq!(1, result_scenario(true, true));
}

#[test]
fn test_err() {
    assert_eq!(2, result_scenario(false, false));
}

/// For any input, exactly one of the two continuation handlers runs.
#[test]
fn result_split_is_exclusive() {
    let mut registry: SagaRegistry<u64> = SagaRegistry::new();
    let saga = ResultHandler {
        result_source: 1,
        input: INPUT,
        ok_saga: Chain::handler(3, OK_PATH),
        err_saga: Chain::handler(4, ERR_PATH),
    }
    .chain();
    registry.register_pipeline(UPDATE, saga);
    registry.write_event(INPUT, 10);
    registry.write_event(INPUT, 11);
    let mut runner = ResultRunner { take_ok_path: true, counter: 0 };
    let log = registry.run_tick(UPDATE, &mut runner);
    // Two split invocations, then two successes; the failure handler never
    // runs.
    assert_eq!(log.len(), 4);
    assert_eq!(log[2].handler, 3);
    assert_eq!(log[3].handler, 3);
    assert!(log.iter().all(|e| e.handler != 4));
}

const FOOBAR: usize = 1;
const FOO: usize = 2;
const BAR: usize = 3;
const BAZ: usize = 4;

struct RouterRunner {
    identifier: Option<String>,
}

impl SagaRunner<u64> for RouterRunner {
    fn run_handler(&mut self, handler: u64, event: u64) -> StageOutput<u64> {
        match handler {
            // pre_route forwards the wrapped enumeration value.
            1 => StageOutput::Emit(event),
            // The sibling input handler.
            2 => StageOutput::Finished,
            // The router reports which variant the event carries.
            3 => StageOutput::Route(event as usize, event),
            4 => {
                self.identifier = Some("apple".to_string());
                StageOutput::Finished
            },
            5 => {
                self.identifier = Some("banana".to_string());
                StageOutput::Finished
            },
            // The sibling handler on the banana branch.
            6 => StageOutput::Finished,
            _ => {
                self.identifier = Some("cherry".to_string());
                StageOutput::Finished
            },
        }
    }
}

fn routed(input: u64, expected: &str) {
    let mut registry: SagaRegistry<u64> = SagaRegistry::new();
    let router = EnumRouter {
        id: 3,
        input: FOOBAR,
        branches: vec![
            Chain::handler(4, FOO),
            Chain::handler(5, BAR).with_sibling(6),
            Chain::handler(7, BAZ),
        ],
    };
    let saga = Chain::processor(1, INPUT, FOOBAR)
        .with_sibling(2)
        .and_then(router.chain())
        .unwrap();
    registry.register_pipeline(UPDATE, saga);
    registry.write_event(INPUT, input);
    let mut runner = RouterRunner { identifier: None };
    registry.run_tick(UPDATE, &mut runner);
    if let Some(identifier) = &runner.identifier {
        assert_eq!(identifier, expected)
    } else {
        panic!("Identifier was still None.")
    }
}

#[test]
fn switched_event() {
    routed(0, "apple");
    routed(1, "banana");
    routed(2, "cherry");
}

/// One event of each variant reaches exactly its own continuation, exactly
/// once, with no cross-delivery.
#[test]
fn router_is_exhaustive() {
    let mut registry: SagaRegistry<u64> = SagaRegistry::new();
    let router = EnumRouter {
        id: 3,
        input: INPUT,
        branches: vec![
            Chain::handler(10, FOO),
            Chain::handler(11, BAR),
            Chain::handler(12, BAZ),
        ],
    };
    registry.register_pipeline(UPDATE, router.chain());
    registry.write_event(INPUT, 0);
    registry.write_event(INPUT, 1);
    registry.write_event(INPUT, 2);
    let mut runner = RouterRunner { identifier: None };
    let mut log = registry.run_tick(UPDATE, &mut runner);
    // Three routing invocations, then one per branch.
    let continuations: Vec<(u64, u64)> =
        log.drain(..).skip(3).map(|e| (e.handler, e.input)).collect();
    assert_eq!(continuations, vec![(10, 0), (11, 1), (12, 2)]);
}

struct NestedRunner {
    trace: Vec<u64>,
}

impl SagaRunner<u64> for NestedRunner {
    fn run_handler(&mut self, handler: u64, event: u64) -> StageOutput<u64> {
        self.trace.push(handler);
        match handler {
            // The splitting source: succeed on even events.
            1 => {
                if event % 2 == 0 {
                    StageOutput::Success(event)
                } else {
                    StageOutput::Failure(event)
                }
            },
            // The option filter inside the success branch: keep positives.
            2 => {
                if event > 0 {
                    StageOutput::Emit(event)
                } else {
                    StageOutput::Skip
                }
            },
            _ => StageOutput::Finished,
        }
    }
}

/// Branch constructs return ordinary chains, so a branch's continuation may
/// itself branch again.
#[test]
fn branches_nest() {
    const KEPT: usize = 3;
    let mut registry: SagaRegistry<u64> = SagaRegistry::new();
    let ok_saga = OptionProcessor { id: 2, input: OK_PATH, output: KEPT }
        .chain()
        .and_then(Chain::handler(5, KEPT))
        .unwrap();
    let saga = ResultHandler {
        result_source: 1,
        input: INPUT,
        ok_saga,
        err_saga: Chain::handler(6, ERR_PATH),
    }
    .chain();
    registry.register_pipeline(UPDATE, saga);
    // An even positive event runs the whole success branch; an even zero
    // event is filtered out inside it; an odd event takes the failure
    // branch.
    registry.write_event(INPUT, 4);
    let mut runner = NestedRunner { trace: Vec::new() };
    registry.run_tick(UPDATE, &mut runner);
    assert_eq!(runner.trace, vec![1, 2, 5]);

    registry.write_event(INPUT, 0);
    let mut runner = NestedRunner { trace: Vec::new() };
    registry.run_tick(UPDATE, &mut runner);
    assert_eq!(runner.trace, vec![1, 2]);

    registry.write_event(INPUT, 3);
    let mut runner = NestedRunner { trace: Vec::new() };
    registry.run_tick(UPDATE, &mut runner);
    assert_eq!(runner.trace, vec![1, 6]);
}
