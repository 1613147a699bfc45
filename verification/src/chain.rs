//! The chain-building algebra: composing stages into a pipeline while
//! checking that each stage's output channel matches the next stage's input.

use vstd::prelude::*;

use crate::stage::{HandlerKind, HandlerRef, HandlerView, KindView, Stage, StageView};

verus! {

/// Mathematical view of a [`Chain`].
#[verifier::ext_equal]
pub ghost struct ChainView {
    pub input: usize,
    pub output: Option<usize>,
    pub stages: Seq<StageView>,
}

/// A composed, immutable sequence of stages: the pipeline under
/// construction. `input` is the channel the whole chain accepts; `output` is
/// the channel its open end produces, or `None` once the chain is closed by
/// a terminal stage or by a branching stage that owns its continuations.
///
/// A chain exists only during pipeline construction; registering it with
/// [`crate::SagaRegistry::register_pipeline`] consumes it.
#[derive(Clone, Debug, PartialEq, Eq)]
pub struct Chain {
    pub input: usize,
    pub output: Option<usize>,
    pub stages: Vec<Stage>,
}

impl View for Chain {
    type V = ChainView;

    open spec fn view(&self) -> ChainView {
        ChainView {
            input: self.input,
            output: self.output,
            stages: self.stages@.map_values(|s: Stage| s@),
        }
    }
}

/// Two chains compose exactly when the first one's open output channel is
/// the second one's input channel.
pub open spec fn compose_ok(a: ChainView, b: ChainView) -> bool {
    a.output == Some(b.input)
}

/// The composition of two composable chains: the first chain's stages
/// followed by the second's, accepting the first one's input and producing
/// at the second one's open end.
pub open spec fn composed(a: ChainView, b: ChainView) -> ChainView {
    ChainView { input: a.input, output: b.output, stages: a.stages + b.stages }
}

/// A rejected composition: the first chain does not produce on the channel
/// the second chain accepts. Raised before the pipeline can be registered,
/// never at runtime.
#[derive(Clone, Copy, Debug, PartialEq, Eq)]
pub struct ComposeError {
    /// The channel the first chain produces on, if it is open at all.
    pub expected: Option<usize>,
    /// The channel the second chain accepts.
    pub found: usize,
}

impl Chain {
    /// A one-stage chain around a processing function: it accepts `input`
    /// and writes its result to `output`.
    pub fn processor(id: u64, input: usize, output: usize) -> (c: Chain)
        ensures
            c@ == (ChainView {
                input,
                output: Some(output),
                stages: seq![
                    StageView {
                        input,
                        handlers: seq![
                            HandlerView { id, kind: KindView::Processor { out: output } },
                        ],
                    },
                ],
            }),
    {
        let handlers = vec![HandlerRef { id, kind: HandlerKind::Processor { out: output } }];
        let stages = vec![Stage { input, handlers }];
        let c = Chain { input, output: Some(output), stages };
        proof {
            assert(c@.stages =~~= seq![
                StageView {
                    input,
                    handlers: seq![HandlerView { id, kind: KindView::Processor { out: output } }],
                },
            ]);
        }
        c
    }

    /// A one-stage closed chain around a terminal handler: it accepts
    /// `input` and ends the pipeline.
    pub fn handler(id: u64, input: usize) -> (c: Chain)
        ensures
            c@ == (ChainView {
                input,
                output: None,
                stages: seq![
                    StageView {
                        input,
                        handlers: seq![HandlerView { id, kind: KindView::Terminal }],
                    },
                ],
            }),
    {
        let handlers = vec![HandlerRef { id, kind: HandlerKind::Terminal }];
        let stages = vec![Stage { input, handlers }];
        let c = Chain { input, output: None, stages };
        proof {
            assert(c@.stages =~~= seq![
                StageView {
                    input,
                    handlers: seq![HandlerView { id, kind: KindView::Terminal }],
                },
            ]);
        }
        c
    }

    /// Adds a sibling terminal handler to the last stage of the chain: it
    /// shares that stage's input event and consumes its own copy of it.
    pub fn with_sibling(self, id: u64) -> (c: Chain)
        requires
            self@.stages.len() > 0,
        ensures
            c@.input == self@.input,
            c@.output == self@.output,
            c@.stages.len() == self@.stages.len(),
            c@.stages.last() == (StageView {
                input: self@.stages.last().input,
                handlers: self@.stages.last().handlers.push(
                    HandlerView { id, kind: KindView::Terminal },
                ),
            }),
            forall|i: int| 0 <= i < self@.stages.len() - 1
                ==> #[trigger] c@.stages[i] == self@.stages[i],
    {
        let Chain { input, output, mut stages } = self;
        let last = stages.len() - 1;
        let mut stage = stages.remove(last);
        stage.handlers.push(HandlerRef { id, kind: HandlerKind::Terminal });
        stages.push(stage);
        let c = Chain { input, output, stages };
        proof {
            assert(c@.stages.last() =~~= (StageView {
                input: self@.stages.last().input,
                handlers: self@.stages.last().handlers.push(
                    HandlerView { id, kind: KindView::Terminal },
                ),
            }));
        }
        c
    }

    /// Composes this chain with `next`, checking that the channel this chain
    /// produces on is the channel `next` accepts. A mismatch is reported
    /// before anything can be registered; this check is the registration-time
    /// replacement for a compile-time type check.
    pub fn and_then(self, next: Chain) -> (r: Result<Chain, ComposeError>)
        ensures
            compose_ok(self@, next@)
                ==> (r matches Ok(c) && c@ == composed(self@, next@)),
            !compose_ok(self@, next@)
                ==> (r matches Err(e) && e == (ComposeError {
                    expected: self@.output,
                    found: next@.input,
                })),
    {
        let fits = match self.output {
            Some(t) => t == next.input,
            None => false,
        };
        if fits {
            let Chain { input, output: _, mut stages } = self;
            let Chain { input: _, output, stages: mut next_stages } = next;
            stages.append(&mut next_stages);
            let c = Chain { input, output, stages };
            proof {
                assert(c@.stages =~~= composed(self@, next@).stages);
                assert(c@ =~~= composed(self@, next@));
            }
            Ok(c)
        } else {
            Err(ComposeError { expected: self.output, found: next.input })
        }
    }
}

/// Composition of chains is associative: whichever way three composable
/// chains are parenthesised, the same composition succeeds and yields the
/// same chain, so registering either result produces identical dispatch
/// lists and ordering structures.
pub proof fn lemma_compose_associative(a: ChainView, b: ChainView, c: ChainView)
    ensures
        (compose_ok(a, b) && compose_ok(composed(a, b), c))
            <==> (compose_ok(b, c) && compose_ok(a, composed(b, c))),
        (compose_ok(a, b) && compose_ok(composed(a, b), c))
            ==> composed(composed(a, b), c) == composed(a, composed(b, c)),
{
    if compose_ok(a, b) && compose_ok(composed(a, b), c) {
        assert(composed(composed(a, b), c).stages =~~= composed(a, composed(b, c)).stages);
        assert(composed(composed(a, b), c) =~~= composed(a, composed(b, c)));
    }
}

} // verus!
