//! The N-way branch: a processor returning one variant of an enumeration,
//! each variant wrapping the event of one continuation pipeline.

use vstd::prelude::*;

use crate::chain::{Chain, ChainView};
use crate::stage::{HandlerKind, HandlerRef, HandlerView, KindView, Stage, StageView};

verus! {

/// The input channels of a sequence of continuation chains, in order: the
/// routing table from variant index to target channel.
pub open spec fn branch_inputs(branches: Seq<ChainView>) -> Seq<usize> {
    branches.map_values(|b: ChainView| b.input)
}

/// The stages of a sequence of continuation chains, concatenated in order.
pub open spec fn branch_stages(branches: Seq<ChainView>) -> Seq<StageView>
    decreases branches.len(),
{
    if branches.len() == 0 {
        Seq::empty()
    } else {
        branches[0].stages + branch_stages(branches.drop_first())
    }
}

/// A closed chain built from a routing source and one continuation saga per
/// variant of the routed enumeration: per input instance the host reports
/// [`crate::StageOutput::Route`] with a variant index, and the produced
/// event is written into the matching continuation's input channel only.
/// All continuations are scheduled after the routing stage.
#[derive(Clone, Debug, PartialEq, Eq)]
pub struct EnumRouter {
    /// Handler reference of the routing function.
    pub id: u64,
    /// The channel the routing stage accepts.
    pub input: usize,
    /// One continuation pipeline per variant, in variant order.
    pub branches: Vec<Chain>,
}

impl EnumRouter {
    /// The views of the continuation chains, in variant order.
    pub open spec fn branch_views(self) -> Seq<ChainView> {
        self.branches@.map_values(|b: Chain| b@)
    }

    /// The mathematical view of the chain this router builds: the routing
    /// stage, then every continuation's stages in variant order.
    pub open spec fn chain_view(self) -> ChainView {
        ChainView {
            input: self.input,
            output: None,
            stages: seq![
                StageView {
                    input: self.input,
                    handlers: seq![
                        HandlerView {
                            id: self.id,
                            kind: KindView::Router {
                                outs: branch_inputs(self.branch_views()),
                            },
                        },
                    ],
                },
            ] + branch_stages(self.branch_views()),
        }
    }

    /// Builds the closed chain: routing stage first, then the continuation
    /// sub-pipelines, so every continuation is scheduled after the router.
    pub fn chain(self) -> (c: Chain)
        ensures
            c@ == self.chain_view(),
    {
        let ghost sketch = self.chain_view();
        let ghost views = self.branch_views();
        let EnumRouter { id, input, mut branches } = self;

        let mut outs: Vec<usize> = Vec::new();
        let n = branches.len();
        for i in 0..n
            invariant
                branches@.map_values(|b: Chain| b@) == views,
                views.len() == n,
                outs@ =~= branch_inputs(views).take(i as int),
        {
            let b = &branches[i];
            outs.push(b.input);
            proof {
                assert(outs@ =~= branch_inputs(views).take(i + 1));
            }
        }
        proof {
            assert(outs@ =~= branch_inputs(views));
        }

        let router = HandlerRef { id, kind: HandlerKind::Router { outs } };
        let mut stages = vec![Stage { input, handlers: vec![router] }];
        proof {
            assert(stages@.map_values(|s: Stage| s@) =~~= seq![sketch.stages[0]]);
        }

        while branches.len() > 0
            invariant
                stages@.map_values(|s: Stage| s@) + branch_stages(
                    branches@.map_values(|b: Chain| b@),
                ) =~= sketch.stages,
            decreases branches.len(),
        {
            let ghost before = branches@.map_values(|b: Chain| b@);
            let first = branches.remove(0);
            proof {
                assert(branches@.map_values(|b: Chain| b@) =~= before.drop_first());
                assert(before[0] == first@);
            }
            let Chain { input: _, output: _, stages: mut branch } = first;
            stages.append(&mut branch);
            proof {
                assert(stages@.map_values(|s: Stage| s@) + branch_stages(
                    branches@.map_values(|b: Chain| b@),
                ) =~= sketch.stages);
            }
        }

        let c = Chain { input, output: None, stages };
        proof {
            assert(branch_stages(branches@.map_values(|b: Chain| b@)) =~= Seq::empty());
            assert(c@.stages =~~= sketch.stages);
            assert(c@ =~~= sketch);
        }
        c
    }
}

} // verus!
