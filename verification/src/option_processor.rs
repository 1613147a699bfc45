//! The optional short-circuit branch: a processor that either produces the
//! next event or silently halts the pipeline for that event instance.

use vstd::prelude::*;

use crate::chain::{Chain, ChainView};
use crate::stage::{HandlerKind, HandlerRef, HandlerView, KindView, Stage, StageView};

verus! {

/// A processing stage whose function returns an optional event: when the
/// host reports [`crate::StageOutput::Emit`], the continuation pipeline runs
/// as if the stage had produced the event directly; when it reports
/// [`crate::StageOutput::Skip`], no downstream event is ever written and no
/// error is signalled.
#[derive(Clone, Copy, Debug, PartialEq, Eq)]
pub struct OptionProcessor {
    pub id: u64,
    pub input: usize,
    pub output: usize,
}

impl OptionProcessor {
    /// The one-stage open chain around this filter: it accepts `input` and,
    /// for the instances the filter lets through, produces on `output`.
    pub fn chain(self) -> (c: Chain)
        ensures
            c@ == (ChainView {
                input: self.input,
                output: Some(self.output),
                stages: seq![
                    StageView {
                        input: self.input,
                        handlers: seq![
                            HandlerView {
                                id: self.id,
                                kind: KindView::OptionFilter { out: self.output },
                            },
                        ],
                    },
                ],
            }),
    {
        let handlers = vec![
            HandlerRef { id: self.id, kind: HandlerKind::OptionFilter { out: self.output } },
        ];
        let stages = vec![Stage { input: self.input, handlers }];
        let c = Chain { input: self.input, output: Some(self.output), stages };
        proof {
            assert(c@.stages =~~= seq![
                StageView {
                    input: self.input,
                    handlers: seq![
                        HandlerView {
                            id: self.id,
                            kind: KindView::OptionFilter { out: self.output },
                        },
                    ],
                },
            ]);
        }
        c
    }
}

} // verus!
