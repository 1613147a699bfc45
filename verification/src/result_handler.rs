//! The two-way branch: a processor returning success or failure, each with
//! its own continuation pipeline.

use vstd::prelude::*;

use crate::chain::{Chain, ChainView};
use crate::stage::{HandlerKind, HandlerRef, HandlerView, KindView, Stage, StageView};

verus! {

/// A closed chain built from a result-producing source and two continuation
/// sagas: per input instance exactly one of the two sub-pipelines receives
/// an event, selected by whether the host reports
/// [`crate::StageOutput::Success`] or [`crate::StageOutput::Failure`].
/// Both sub-pipelines are scheduled after the splitting stage.
#[derive(Clone, Debug, PartialEq, Eq)]
pub struct ResultHandler {
    /// Handler reference of the result-producing function.
    pub result_source: u64,
    /// The channel the splitting stage accepts.
    pub input: usize,
    /// The continuation run on success; its input channel receives the
    /// produced event.
    pub ok_saga: Chain,
    /// The continuation run on failure.
    pub err_saga: Chain,
}

impl ResultHandler {
    /// The mathematical view of the chain this handler builds: the splitting
    /// stage, then the success continuation's stages, then the failure
    /// continuation's stages.
    pub open spec fn chain_view(self) -> ChainView {
        ChainView {
            input: self.input,
            output: None,
            stages: seq![
                StageView {
                    input: self.input,
                    handlers: seq![
                        HandlerView {
                            id: self.result_source,
                            kind: KindView::ResultSplit {
                                ok: self.ok_saga@.input,
                                err: self.err_saga@.input,
                            },
                        },
                    ],
                },
            ] + self.ok_saga@.stages + self.err_saga@.stages,
        }
    }

    /// Builds the closed chain: split stage first, then the two continuation
    /// sub-pipelines, so both are scheduled after the split.
    pub fn chain(self) -> (c: Chain)
        ensures
            c@ == self.chain_view(),
    {
        let ghost sketch = self.chain_view();
        let ResultHandler { result_source, input, ok_saga, err_saga } = self;
        let split = HandlerRef {
            id: result_source,
            kind: HandlerKind::ResultSplit { ok: ok_saga.input, err: err_saga.input },
        };
        let mut stages = vec![Stage { input, handlers: vec![split] }];
        let Chain { input: _, output: _, stages: mut ok_stages } = ok_saga;
        let Chain { input: _, output: _, stages: mut err_stages } = err_saga;
        stages.append(&mut ok_stages);
        stages.append(&mut err_stages);
        let c = Chain { input, output: None, stages };
        proof {
            assert(c@.stages =~~= sketch.stages);
            assert(c@ =~~= sketch);
        }
        c
    }
}

} // verus!
