//! A composition-and-scheduling engine for typed, multi-stage event pipelines
//! ("sagas") inside a host simulation loop.
//!
//! A pipeline accepts one event type, runs it through processing stages that
//! transform it into successive event types, and ends in terminal handlers
//! that consume the final event. Event types are runtime tags; the payloads
//! flowing through the channels share one representation chosen by the host.
//!
//! The engine owns three structures, all held by [`SagaRegistry`]:
//! per-tag event channels, a per-tag ordered handler list, and a schedule of
//! dispatch units derived from the registered chains. Running one tick drains
//! the channels in schedule order, so a chain registered front to back always
//! propagates an input event to its terminal stage within a single tick.
//!
//! Handlers are opaque references: the host supplies their behaviour through
//! the [`SagaRunner`] trait, and the engine records every invocation it makes
//! in a log whose exact shape, together with the resulting channel contents,
//! is pinned by the contract of [`SagaRegistry::run_tick`].

use vstd::prelude::*;

pub mod chain;
pub mod dispatch;
pub mod laws;
pub mod option_processor;
pub mod registry;
pub mod result_handler;
pub mod router;
pub mod stage;

pub use chain::{Chain, ChainView, ComposeError};
pub use dispatch::{Invocation, SagaRunner};
pub use option_processor::OptionProcessor;
pub use registry::{SagaRegistry, SagaView};
pub use result_handler::ResultHandler;
pub use router::EnumRouter;
pub use stage::{
    HandlerKind, HandlerRef, HandlerView, KindView, SagaEvent, Stage, StageOutput, StageView,
};
