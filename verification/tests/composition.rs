//! Chain composition: the registration-time type check and associativity.

use saga_engine::{Chain, ComposeError, HandlerKind, HandlerRef, SagaRegistry, SagaRunner,
    StageOutput};

/// The schedule point all pipelines in this program run under.
const UPDATE: u64 = 0;

const INPUT: usize = 0;
const MID_A: usize = 1;
const MID_B: usize = 2;
const OUTPUT: usize = 3;

struct NullRunner;

impl SagaRunner<u64> for NullRunner {
    fn run_handler(&mut self, _handler: u64, event: u64) -> StageOutput<u64> {
        StageOutput::Emit(event)
    }
}

/// A chain of processors with sibling handlers composes and registers.
#[test]
fn test() {
    let a = Chain::processor(1, INPUT, MID_A);
    let b = Chain::processor(2, MID_A, MID_B).with_sibling(3);
    let c = Chain::processor(4, MID_B, OUTPUT);
    let d = Chain::handler(5, OUTPUT);
    let linked = a
        .and_then(b)
        .unwrap()
        .and_then(c)
        .unwrap()
        .and_then(d)
        .unwrap();
    assert_eq!(linked.input, INPUT);
    assert_eq!(linked.output, None);
    assert_eq!(linked.stages.len(), 4);
    let mut registry: SagaRegistry<u64> = SagaRegistry::new();
    registry.register_pipeline(UPDATE, linked);
}

#[test]
fn composition_is_associative() {
    let left = Chain::processor(1, INPUT, MID_A)
        .and_then(Chain::processor(2, MID_A, MID_B))
        .unwrap()
        .and_then(Chain::handler(3, MID_B))
        .unwrap();
    let right = Chain::processor(1, INPUT, MID_A)
        .and_then(
            Chain::processor(2, MID_A, MID_B)
                .and_then(Chain::handler(3, MID_B))
                .unwrap(),
        )
        .unwrap();
    assert_eq!(left, right);
}

#[test]
fn mismatched_stages_are_rejected_before_registration() {
    let a = Chain::processor(1, INPUT, MID_A);
    let b = Chain::processor(2, MID_B, OUTPUT);
    let err = a.and_then(b).unwrap_err();
    assert_eq!(
        err,
        ComposeError { expected: Some(MID_A), found: MID_B }
    );

    let closed = Chain::handler(1, INPUT);
    let next = Chain::handler(2, MID_A);
    let err = closed.and_then(next).unwrap_err();
    assert_eq!(err, ComposeError { expected: None, found: MID_A });
}

#[test]
fn sibling_handlers_share_the_stage_input() {
    let chain = Chain::processor(1, INPUT, MID_A).with_sibling(2).with_sibling(3);
    assert_eq!(chain.stages.len(), 1);
    assert_eq!(chain.stages[0].input, INPUT);
    assert_eq!(
        chain.stages[0].handlers,
        vec![
            HandlerRef { id: 1, kind: HandlerKind::Processor { out: MID_A } },
            HandlerRef { id: 2, kind: HandlerKind::Terminal },
            HandlerRef { id: 3, kind: HandlerKind::Terminal },
        ]
    );
}

/// Registering either association of the same stages produces registries
/// that dispatch identically.
#[test]
fn associated_chains_register_identical_structures() {
    let mut left_registry: SagaRegistry<u64> = SagaRegistry::new();
    let mut right_registry: SagaRegistry<u64> = SagaRegistry::new();
    let left = Chain::processor(1, INPUT, MID_A)
        .and_then(Chain::processor(2, MID_A, MID_B))
        .unwrap()
        .and_then(Chain::handler(3, MID_B))
        .unwrap();
    let right = Chain::processor(1, INPUT, MID_A)
        .and_then(
            Chain::processor(2, MID_A, MID_B)
                .and_then(Chain::handler(3, MID_B))
                .unwrap(),
        )
        .unwrap();
    left_registry.register_pipeline(UPDATE, left);
    right_registry.register_pipeline(UPDATE, right);
    left_registry.write_event(INPUT, 7);
    right_registry.write_event(INPUT, 7);
    let left_log = left_registry.run_tick(UPDATE, &mut NullRunner);
    let right_log = right_registry.run_tick(UPDATE, &mut NullRunner);
    assert_eq!(left_log, right_log);
}
