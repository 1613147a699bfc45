//! Event payloads, handler references, and the stages a chain is built from.

use vstd::prelude::*;

verus! {

/// Marker for payload types that may flow through a saga.
///
/// Every event entering a pipeline must be cloneable so that each registered
/// handler receives an independent copy; the engine restricts this to `Copy`
/// payloads so that a delivered copy is known to equal the queued value.
/// The payload is the type-erased representation shared by every channel of
/// one registry; the event *type* is the channel tag, not the payload type.
pub trait SagaEvent: Copy {
}

impl<T: Copy> SagaEvent for T {
}

/// What a handler is allowed to do with the event it receives: consume it,
/// transform it into the event of a target channel, or route it into one of
/// several target channels.
#[derive(Clone, Debug, PartialEq, Eq)]
pub enum HandlerKind {
    /// Consumes the event; never writes a downstream event.
    Terminal,
    /// Transforms the event and writes the result to channel `out`.
    Processor { out: usize },
    /// Either transforms the event and writes to channel `out`, or drops it,
    /// silently halting the pipeline for that event instance.
    OptionFilter { out: usize },
    /// Splits into a success and a failure continuation; exactly one of the
    /// channels `ok` and `err` receives the produced event.
    ResultSplit { ok: usize, err: usize },
    /// Routes the produced event into exactly one of the channels in `outs`,
    /// selected by the variant the handler reports.
    Router { outs: Vec<usize> },
}

/// Mathematical view of a [`HandlerKind`].
#[verifier::ext_equal]
pub ghost enum KindView {
    Terminal,
    Processor { out: usize },
    OptionFilter { out: usize },
    ResultSplit { ok: usize, err: usize },
    Router { outs: Seq<usize> },
}

impl View for HandlerKind {
    type V = KindView;

    open spec fn view(&self) -> KindView {
        match self {
            HandlerKind::Terminal => KindView::Terminal,
            HandlerKind::Processor { out } => KindView::Processor { out: *out },
            HandlerKind::OptionFilter { out } => KindView::OptionFilter { out: *out },
            HandlerKind::ResultSplit { ok, err } => KindView::ResultSplit { ok: *ok, err: *err },
            HandlerKind::Router { outs } => KindView::Router { outs: outs@ },
        }
    }
}

/// The channels a handler of this kind may write to.
pub open spec fn kind_targets(kind: KindView) -> Seq<usize> {
    match kind {
        KindView::Terminal => Seq::empty(),
        KindView::Processor { out } => seq![out],
        KindView::OptionFilter { out } => seq![out],
        KindView::ResultSplit { ok, err } => seq![ok, err],
        KindView::Router { outs } => outs,
    }
}

/// All channels this kind writes to exist in a registry of `n` channels.
pub open spec fn kind_wf(kind: KindView, n: int) -> bool {
    forall|i: int| 0 <= i < kind_targets(kind).len() ==> #[trigger] kind_targets(kind)[i] < n
}

/// An opaque reference to a stored callable, registered once at
/// pipeline-construction time and invoked by reference on every drain.
/// The `id` is chosen by the host; the engine never interprets it beyond
/// handing it back to the host's [`crate::SagaRunner`].
#[derive(Clone, Debug, PartialEq, Eq)]
pub struct HandlerRef {
    pub id: u64,
    pub kind: HandlerKind,
}

/// Mathematical view of a [`HandlerRef`].
#[verifier::ext_equal]
pub ghost struct HandlerView {
    pub id: u64,
    pub kind: KindView,
}

impl View for HandlerRef {
    type V = HandlerView;

    open spec fn view(&self) -> HandlerView {
        HandlerView { id: self.id, kind: self.kind@ }
    }
}

/// One stage of a chain: a set of handlers sharing one input channel, of
/// which at most one produces an output event; the others are side-effecting
/// siblings for the same input.
#[derive(Clone, Debug, PartialEq, Eq)]
pub struct Stage {
    pub input: usize,
    pub handlers: Vec<HandlerRef>,
}

/// Mathematical view of a [`Stage`].
#[verifier::ext_equal]
pub ghost struct StageView {
    pub input: usize,
    pub handlers: Seq<HandlerView>,
}

impl View for Stage {
    type V = StageView;

    open spec fn view(&self) -> StageView {
        StageView {
            input: self.input,
            handlers: self.handlers@.map_values(|h: HandlerRef| h@),
        }
    }
}

/// What a handler reports back to the engine for one invocation. The engine
/// combines this with the handler's registered [`HandlerKind`] to decide
/// which channel, if any, receives the produced event; a report that does not
/// fit the kind writes nothing.
#[derive(Clone, Copy, Debug, PartialEq, Eq)]
pub enum StageOutput<E> {
    /// A terminal handler ran; nothing is produced.
    Finished,
    /// A processor or option filter produced an output event.
    Emit(E),
    /// An option filter declined; the pipeline halts for this instance.
    Skip,
    /// A result-splitting handler succeeded.
    Success(E),
    /// A result-splitting handler failed.
    Failure(E),
    /// A routing handler selected the variant with the given index and
    /// produced an event for it.
    Route(usize, E),
}

} // verus!
