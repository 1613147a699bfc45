//! The behavioural laws of the engine, proved from the replay semantics:
//! fan-out delivery, same-tick completion of linear chains, and the
//! correctness of the three branch routers.

use vstd::prelude::*;

use crate::dispatch::{
    lemma_replay_pipe_split, lemma_replay_value_split, lemma_replay_values_split, replay_pipe,
    replay_unit, replay_value, replay_values, step_channels, Invocation,
};
use crate::stage::{HandlerView, KindView, StageOutput};
use vstd::pervasive::arbitrary;

verus! {

/// The delivery an invocation performed: which handler, on which channel,
/// with which event — the log stripped of what the host reported back.
pub open spec fn deliveries<E>(log: Seq<Invocation<E>>) -> Seq<(u64, usize, E)> {
    log.map_values(|e: Invocation<E>| (e.handler, e.tag, e.input))
}

/// One event delivered to every handler of a channel, in registration order.
pub open spec fn fanout_row<E>(tag: usize, v: E, hs: Seq<HandlerView>) -> Seq<(u64, usize, E)> {
    hs.map_values(|h: HandlerView| (h.id, tag, v))
}

/// Every queued event delivered to every handler, events in queue order,
/// handlers in registration order.
pub open spec fn fanout_deliveries<E>(tag: usize, vs: Seq<E>, hs: Seq<HandlerView>) -> Seq<
    (u64, usize, E),
>
    decreases vs.len(),
{
    if vs.len() == 0 {
        Seq::empty()
    } else {
        fanout_deliveries(tag, vs.drop_last(), hs) + fanout_row(tag, vs.last(), hs)
    }
}

/// Delivering one event to the handlers `hs` invokes exactly those
/// handlers, in order, each with that event.
proof fn lemma_replay_value_shape<E>(
    chs: Seq<Seq<E>>,
    tag: usize,
    v: E,
    hs: Seq<HandlerView>,
    log: Seq<Invocation<E>>,
    c1: Seq<Seq<E>>,
)
    requires
        replay_value(chs, tag, v, hs, log) == Some((c1, Seq::<Invocation<E>>::empty())),
    ensures
        deliveries(log) == fanout_row(tag, v, hs),
        log.len() == hs.len(),
    decreases hs.len(),
{
    if hs.len() == 0 {
        assert(log =~= Seq::<Invocation<E>>::empty());
        assert(deliveries(log) =~= fanout_row(tag, v, hs));
    } else {
        match replay_value(chs, tag, v, hs.drop_last(), log) {
            Some((c0, l0)) => {
                lemma_replay_value_split(chs, tag, v, hs.drop_last(), log, c0, l0);
                let prefix = log.take(log.len() - l0.len());
                lemma_replay_value_shape(chs, tag, v, hs.drop_last(), prefix, c0);
                assert(l0.drop_first() =~= Seq::<Invocation<E>>::empty());
                assert(l0 =~= seq![l0[0]]);
                assert(log =~= prefix.push(l0[0]));
                assert(deliveries(log) =~= deliveries(prefix).push((l0[0].handler, l0[0].tag,
                    l0[0].input)));
                assert(fanout_row(tag, v, hs) =~= fanout_row(tag, v, hs.drop_last()).push(
                    (hs.last().id, tag, v)));
            },
            None => {
                assert(false);
            },
        }
    }
}

/// Delivering the queued events `vs` to the handlers `hs` performs exactly
/// the cross product of deliveries: each event to each handler exactly
/// once, events in queue order, handlers in registration order.
proof fn lemma_replay_values_shape<E>(
    chs: Seq<Seq<E>>,
    tag: usize,
    vs: Seq<E>,
    hs: Seq<HandlerView>,
    log: Seq<Invocation<E>>,
    c1: Seq<Seq<E>>,
)
    requires
        replay_values(chs, tag, vs, hs, log) == Some((c1, Seq::<Invocation<E>>::empty())),
    ensures
        deliveries(log) == fanout_deliveries(tag, vs, hs),
    decreases vs.len(),
{
    if vs.len() == 0 {
        assert(log =~= Seq::<Invocation<E>>::empty());
        assert(deliveries(log) =~= fanout_deliveries(tag, vs, hs));
    } else {
        match replay_values(chs, tag, vs.drop_last(), hs, log) {
            Some((c0, l0)) => {
                lemma_replay_values_split(chs, tag, vs.drop_last(), hs, log, c0, l0);
                let prefix = log.take(log.len() - l0.len());
                lemma_replay_values_shape(chs, tag, vs.drop_last(), hs, prefix, c0);
                lemma_replay_value_shape(c0, tag, vs.last(), hs, l0, c1);
                assert(log =~= prefix + l0);
                assert(deliveries(log) =~= deliveries(prefix) + deliveries(l0));
            },
            None => {
                assert(false);
            },
        }
    }
}

/// Fan-out: one drain of a channel delivers every queued event to every
/// registered handler exactly once — each event in queue order, to the
/// handlers in registration order — with no other invocation.
pub proof fn lemma_fan_out<E>(
    chs: Seq<Seq<E>>,
    tag: usize,
    reg: Seq<Seq<HandlerView>>,
    log: Seq<Invocation<E>>,
    c1: Seq<Seq<E>>,
)
    requires
        tag < chs.len(),
        tag < reg.len(),
        replay_unit(chs, tag, reg, log) == Some((c1, Seq::<Invocation<E>>::empty())),
    ensures
        deliveries(log) == fanout_deliveries(tag, chs[tag as int], reg[tag as int]),
{
    lemma_replay_values_shape(
        chs.update(tag as int, Seq::empty()),
        tag,
        chs[tag as int],
        reg[tag as int],
        log,
        c1,
    );
}

/// The channels after applying a handler's registered kind to every
/// reported output in the log, in order.
pub open spec fn stepped<E>(
    chs: Seq<Seq<E>>,
    kind: KindView,
    log: Seq<Invocation<E>>,
) -> Seq<Seq<E>>
    decreases log.len(),
{
    if log.len() == 0 {
        chs
    } else {
        step_channels(stepped(chs, kind, log.drop_last()), kind, log.last().output)
    }
}

/// Draining a channel with a single registered handler invokes that handler
/// once per queued event, in queue order, and the resulting channels are
/// the drained channels stepped by the reported outputs in order.
pub proof fn lemma_single_handler_unit<E>(
    chs: Seq<Seq<E>>,
    tag: usize,
    h: HandlerView,
    reg: Seq<Seq<HandlerView>>,
    log: Seq<Invocation<E>>,
    c1: Seq<Seq<E>>,
)
    requires
        tag < chs.len(),
        tag < reg.len(),
        reg[tag as int] == seq![h],
        replay_unit(chs, tag, reg, log) == Some((c1, Seq::<Invocation<E>>::empty())),
    ensures
        log.len() == chs[tag as int].len(),
        forall|k: int|
            0 <= k < log.len() ==> (#[trigger] log[k]).handler == h.id && log[k].tag == tag
                && log[k].input == chs[tag as int][k],
        c1 == stepped(chs.update(tag as int, Seq::empty()), h.kind, log),
{
    lemma_replay_values_single(
        chs.update(tag as int, Seq::empty()),
        tag,
        chs[tag as int],
        h,
        log,
        c1,
    );
}

/// Each queued event causes exactly one invocation of the lone handler, and
/// the channels step once per reported output.
proof fn lemma_replay_values_single<E>(
    chs: Seq<Seq<E>>,
    tag: usize,
    vs: Seq<E>,
    h: HandlerView,
    log: Seq<Invocation<E>>,
    c1: Seq<Seq<E>>,
)
    requires
        replay_values(chs, tag, vs, seq![h], log) == Some((c1, Seq::<Invocation<E>>::empty())),
    ensures
        log.len() == vs.len(),
        forall|k: int|
            0 <= k < log.len() ==> (#[trigger] log[k]).handler == h.id && log[k].tag == tag
                && log[k].input == vs[k],
        c1 == stepped(chs, h.kind, log),
    decreases vs.len(),
{
    if vs.len() == 0 {
        assert(log =~= Seq::<Invocation<E>>::empty());
    } else {
        match replay_values(chs, tag, vs.drop_last(), seq![h], log) {
            Some((c0, l0)) => {
                lemma_replay_values_split(chs, tag, vs.drop_last(), seq![h], log, c0, l0);
                let prefix = log.take(log.len() - l0.len());
                lemma_replay_values_single(chs, tag, vs.drop_last(), h, prefix, c0);
                let hs1: Seq<HandlerView> = seq![h];
                assert(hs1.drop_last() =~= Seq::<HandlerView>::empty());
                assert(hs1.last() == h);
                assert(replay_value(c0, tag, vs.last(), hs1.drop_last(), l0) == Some((c0, l0)));
                assert(replay_value(c0, tag, vs.last(), hs1, l0) == Some(
                    (c1, Seq::<Invocation<E>>::empty()),
                ));
                assert(l0.drop_first() =~= Seq::<Invocation<E>>::empty());
                assert(l0 =~= seq![l0[0]]);
                assert(log =~= prefix.push(l0[0]));
                assert(log.drop_last() =~= prefix);
                assert(c1 == step_channels(c0, h.kind, l0[0].output));
            },
            None => {
                assert(false);
            },
        }
    }
}

/// The events an option filter let through, in order.
pub open spec fn emitted<E>(log: Seq<Invocation<E>>) -> Seq<E>
    decreases log.len(),
{
    if log.len() == 0 {
        Seq::empty()
    } else {
        emitted(log.drop_last()) + match log.last().output {
            StageOutput::Emit(x) => seq![x],
            _ => Seq::empty(),
        }
    }
}

/// The events reported as successes, in order.
pub open spec fn successes<E>(log: Seq<Invocation<E>>) -> Seq<E>
    decreases log.len(),
{
    if log.len() == 0 {
        Seq::empty()
    } else {
        successes(log.drop_last()) + match log.last().output {
            StageOutput::Success(x) => seq![x],
            _ => Seq::empty(),
        }
    }
}

/// The events reported as failures, in order.
pub open spec fn failures<E>(log: Seq<Invocation<E>>) -> Seq<E>
    decreases log.len(),
{
    if log.len() == 0 {
        Seq::empty()
    } else {
        failures(log.drop_last()) + match log.last().output {
            StageOutput::Failure(x) => seq![x],
            _ => Seq::empty(),
        }
    }
}

/// The events routed to variant `branch`, in order.
pub open spec fn routed<E>(log: Seq<Invocation<E>>, branch: usize) -> Seq<E>
    decreases log.len(),
{
    if log.len() == 0 {
        Seq::empty()
    } else {
        routed(log.drop_last(), branch) + match log.last().output {
            StageOutput::Route(i, x) => if i == branch {
                seq![x]
            } else {
                Seq::empty()
            },
            _ => Seq::empty(),
        }
    }
}

/// Stepping by an option filter's outputs appends exactly the let-through
/// events to the target channel and touches no other channel.
pub proof fn lemma_stepped_option<E>(
    chs: Seq<Seq<E>>,
    target: usize,
    log: Seq<Invocation<E>>,
)
    requires
        target < chs.len(),
    ensures
        stepped(chs, KindView::OptionFilter { out: target }, log).len() == chs.len(),
        stepped(chs, KindView::OptionFilter { out: target }, log)[target as int] == chs[
            target as int] + emitted(log),
        forall|t: int|
            0 <= t < chs.len() && t != target ==> #[trigger] stepped(
                chs,
                KindView::OptionFilter { out: target },
                log,
            )[t] == chs[t],
    decreases log.len(),
{
    let kind = KindView::OptionFilter { out: target };
    if log.len() == 0 {
        assert(chs[target as int] + emitted(log) =~= chs[target as int]);
    } else {
        lemma_stepped_option(chs, target, log.drop_last());
        let before = stepped(chs, kind, log.drop_last());
        match log.last().output {
            StageOutput::Emit(x) => {
                assert(chs[target as int] + emitted(log) =~= (chs[target as int] + emitted(
                    log.drop_last(),
                )).push(x));
            },
            _ => {
                assert(emitted(log) =~= emitted(log.drop_last()));
            },
        }
    }
}

/// Stepping by a result splitter's outputs appends exactly the successes to
/// the success channel and exactly the failures to the failure channel:
/// per invocation exactly one of the two channels receives exactly one
/// event, and no other channel is touched.
pub proof fn lemma_stepped_result<E>(
    chs: Seq<Seq<E>>,
    ok: usize,
    err: usize,
    log: Seq<Invocation<E>>,
)
    requires
        ok < chs.len(),
        err < chs.len(),
        ok != err,
        forall|k: int|
            0 <= k < log.len() ==> ((#[trigger] log[k]).output is Success || log[k].output
                is Failure),
    ensures
        stepped(chs, KindView::ResultSplit { ok, err }, log).len() == chs.len(),
        stepped(chs, KindView::ResultSplit { ok, err }, log)[ok as int] == chs[ok as int]
            + successes(log),
        stepped(chs, KindView::ResultSplit { ok, err }, log)[err as int] == chs[err as int]
            + failures(log),
        successes(log).len() + failures(log).len() == log.len(),
        forall|t: int|
            0 <= t < chs.len() && t != ok && t != err ==> #[trigger] stepped(
                chs,
                KindView::ResultSplit { ok, err },
                log,
            )[t] == chs[t],
    decreases log.len(),
{
    let kind = KindView::ResultSplit { ok, err };
    if log.len() == 0 {
        assert(chs[ok as int] + successes(log) =~= chs[ok as int]);
        assert(chs[err as int] + failures(log) =~= chs[err as int]);
    } else {
        assert(forall|k: int|
            0 <= k < log.len() - 1 ==> log.drop_last()[k] == (#[trigger] log[k]));
        lemma_stepped_result(chs, ok, err, log.drop_last());
        assert(log.last() == log[log.len() - 1]);
        match log.last().output {
            StageOutput::Success(x) => {
                assert(chs[ok as int] + successes(log) =~= (chs[ok as int] + successes(
                    log.drop_last(),
                )).push(x));
                assert(failures(log) =~= failures(log.drop_last()));
            },
            StageOutput::Failure(x) => {
                assert(chs[err as int] + failures(log) =~= (chs[err as int] + failures(
                    log.drop_last(),
                )).push(x));
                assert(successes(log) =~= successes(log.drop_last()));
            },
            _ => {
                assert(false);
            },
        }
    }
}

/// Stepping by a router's outputs appends to each branch channel exactly
/// the events routed to that branch, with no cross-delivery into any other
/// branch's channel and no other channel touched.
pub proof fn lemma_stepped_router<E>(
    chs: Seq<Seq<E>>,
    outs: Seq<usize>,
    log: Seq<Invocation<E>>,
)
    requires
        forall|b: int| 0 <= b < outs.len() ==> (#[trigger] outs[b]) < chs.len(),
        forall|a: int, b: int|
            0 <= a < outs.len() && 0 <= b < outs.len() && a != b ==> outs[a] != outs[b],
        forall|k: int|
            0 <= k < log.len() ==> ((#[trigger] log[k]).output matches StageOutput::Route(i, _)
                && i < outs.len()),
    ensures
        stepped(chs, KindView::Router { outs }, log).len() == chs.len(),
        forall|b: usize|
            b < outs.len() ==> #[trigger] stepped(chs, KindView::Router { outs }, log)[outs[
                b as int] as int] == chs[outs[b as int] as int] + routed(log, b),
        forall|t: int|
            0 <= t < chs.len() && !outs.contains(t as usize) ==> #[trigger] stepped(
                chs,
                KindView::Router { outs },
                log,
            )[t] == chs[t],
    decreases log.len(),
{
    let kind = KindView::Router { outs };
    if log.len() == 0 {
        assert forall|b: usize| b < outs.len() implies #[trigger] stepped(chs, kind, log)[outs[
            b as int] as int] == chs[outs[b as int] as int] + routed(log, b) by {
            assert(chs[outs[b as int] as int] + routed(log, b) =~= chs[outs[b as int] as int]);
        }
    } else {
        assert(forall|k: int|
            0 <= k < log.len() - 1 ==> log.drop_last()[k] == (#[trigger] log[k]));
        lemma_stepped_router(chs, outs, log.drop_last());
        assert(log.last() == log[log.len() - 1]);
        match log.last().output {
            StageOutput::Route(i, x) => {
                assert(i < outs.len());
                assert forall|b: usize| b < outs.len() implies #[trigger] stepped(
                    chs,
                    kind,
                    log,
                )[outs[b as int] as int] == chs[outs[b as int] as int] + routed(log, b) by {
                    if b == i {
                        assert(chs[outs[b as int] as int] + routed(log, b) =~= (chs[outs[
                            b as int] as int] + routed(log.drop_last(), b)).push(x));
                    } else {
                        assert(outs[b as int] != outs[i as int]);
                        assert(routed(log, b) =~= routed(log.drop_last(), b));
                    }
                }
            },
            _ => {
                assert(false);
            },
        }
    }
}

/// Option filter correctness: draining a channel whose single handler is an
/// option filter invokes the filter once per queued event, the continuation
/// channel receives exactly the let-through events, in order, and an event
/// the filter skipped produces nothing downstream — the pipeline halts for
/// that instance with no error.
pub proof fn lemma_option_filter<E>(
    chs: Seq<Seq<E>>,
    tag: usize,
    id: u64,
    target: usize,
    reg: Seq<Seq<HandlerView>>,
    log: Seq<Invocation<E>>,
    c1: Seq<Seq<E>>,
)
    requires
        tag < chs.len(),
        tag < reg.len(),
        target < chs.len(),
        target != tag,
        reg[tag as int] == seq![
            HandlerView { id, kind: KindView::OptionFilter { out: target } },
        ],
        replay_unit(chs, tag, reg, log) == Some((c1, Seq::<Invocation<E>>::empty())),
    ensures
        log.len() == chs[tag as int].len(),
        forall|k: int|
            0 <= k < log.len() ==> (#[trigger] log[k]).handler == id && log[k].tag == tag
                && log[k].input == chs[tag as int][k],
        c1.len() == chs.len(),
        c1[target as int] == chs[target as int] + emitted(log),
        c1[tag as int] == Seq::<E>::empty(),
        forall|t: int| 0 <= t < chs.len() && t != tag && t != target ==> #[trigger] c1[t] == chs[t],
{
    let h = HandlerView { id, kind: KindView::OptionFilter { out: target } };
    lemma_single_handler_unit(chs, tag, h, reg, log, c1);
    let cleared = chs.update(tag as int, Seq::<E>::empty());
    lemma_stepped_option(cleared, target, log);
}

/// Result split exclusivity: draining a channel whose single handler splits
/// into success and failure invokes it once per queued event, and per event
/// exactly one of the two continuation channels receives exactly one event
/// — the success channel gets exactly the successes, the failure channel
/// exactly the failures, never both, never neither.
pub proof fn lemma_result_split<E>(
    chs: Seq<Seq<E>>,
    tag: usize,
    id: u64,
    ok: usize,
    err: usize,
    reg: Seq<Seq<HandlerView>>,
    log: Seq<Invocation<E>>,
    c1: Seq<Seq<E>>,
)
    requires
        tag < chs.len(),
        tag < reg.len(),
        ok < chs.len(),
        err < chs.len(),
        ok != err,
        ok != tag,
        err != tag,
        reg[tag as int] == seq![HandlerView { id, kind: KindView::ResultSplit { ok, err } }],
        replay_unit(chs, tag, reg, log) == Some((c1, Seq::<Invocation<E>>::empty())),
        forall|k: int|
            0 <= k < log.len() ==> ((#[trigger] log[k]).output is Success || log[k].output
                is Failure),
    ensures
        log.len() == chs[tag as int].len(),
        forall|k: int|
            0 <= k < log.len() ==> (#[trigger] log[k]).handler == id && log[k].tag == tag
                && log[k].input == chs[tag as int][k],
        c1.len() == chs.len(),
        c1[ok as int] == chs[ok as int] + successes(log),
        c1[err as int] == chs[err as int] + failures(log),
        successes(log).len() + failures(log).len() == log.len(),
        c1[tag as int] == Seq::<E>::empty(),
        forall|t: int|
            0 <= t < chs.len() && t != tag && t != ok && t != err ==> #[trigger] c1[t] == chs[t],
{
    let h = HandlerView { id, kind: KindView::ResultSplit { ok, err } };
    lemma_single_handler_unit(chs, tag, h, reg, log, c1);
    let cleared = chs.update(tag as int, Seq::<E>::empty());
    lemma_stepped_result(cleared, ok, err, log);
}

/// Enumeration router exhaustiveness: draining a channel whose single
/// handler routes over `outs` invokes it once per queued event, each branch
/// channel receives exactly the events routed to its variant, in order, and
/// no event is delivered into a non-matching variant's channel.
pub proof fn lemma_enum_router<E>(
    chs: Seq<Seq<E>>,
    tag: usize,
    id: u64,
    outs: Seq<usize>,
    reg: Seq<Seq<HandlerView>>,
    log: Seq<Invocation<E>>,
    c1: Seq<Seq<E>>,
)
    requires
        tag < chs.len(),
        tag < reg.len(),
        forall|b: int| 0 <= b < outs.len() ==> (#[trigger] outs[b]) < chs.len() && outs[b] != tag,
        forall|a: int, b: int|
            0 <= a < outs.len() && 0 <= b < outs.len() && a != b ==> outs[a] != outs[b],
        reg[tag as int] == seq![HandlerView { id, kind: KindView::Router { outs } }],
        replay_unit(chs, tag, reg, log) == Some((c1, Seq::<Invocation<E>>::empty())),
        forall|k: int|
            0 <= k < log.len() ==> ((#[trigger] log[k]).output matches StageOutput::Route(i, _)
                && i < outs.len()),
    ensures
        log.len() == chs[tag as int].len(),
        forall|k: int|
            0 <= k < log.len() ==> (#[trigger] log[k]).handler == id && log[k].tag == tag
                && log[k].input == chs[tag as int][k],
        c1.len() == chs.len(),
        forall|b: usize|
            b < outs.len() ==> #[trigger] c1[outs[b as int] as int] == chs[outs[b as int] as int]
                + routed(log, b),
        c1[tag as int] == Seq::<E>::empty(),
        forall|t: int|
            0 <= t < chs.len() && t != tag && !outs.contains(t as usize) ==> #[trigger] c1[t]
                == chs[t],
{
    let h = HandlerView { id, kind: KindView::Router { outs } };
    lemma_single_handler_unit(chs, tag, h, reg, log, c1);
    let cleared = chs.update(tag as int, Seq::<E>::empty());
    lemma_stepped_router(cleared, outs, log);
    assert forall|b: usize| b < outs.len() implies #[trigger] c1[outs[b as int] as int] == chs[
        outs[b as int] as int] + routed(log, b) by {
        assert(outs[b as int] != tag);
        assert(cleared[outs[b as int] as int] == chs[outs[b as int] as int]);
    }
}

/// The event a processor's report carries.
pub open spec fn emit_payload<E>(o: StageOutput<E>) -> E
    recommends
        o is Emit,
{
    match o {
        StageOutput::Emit(x) => x,
        _ => arbitrary(),
    }
}

/// The channel stage `i` of a linear run of processors produces on: the
/// next stage's channel, or `out` for the last stage.
pub open spec fn chain_target(tags: Seq<usize>, out: usize, i: int) -> usize {
    if i == tags.len() - 1 {
        out
    } else {
        tags[i + 1]
    }
}

/// Running a pipeline of processor stages with distinct channels on one
/// queued event invokes each stage's handler exactly once, front to back,
/// each stage consuming the event the previous stage produced, and leaves
/// exactly one produced event in the channel `out` past the last stage —
/// provided every invocation off the channel `allow` reported an output.
#[verifier::rlimit(100)]
proof fn lemma_linear_prefix<E>(
    chs: Seq<Seq<E>>,
    tags: Seq<usize>,
    ids: Seq<u64>,
    out: usize,
    allow: usize,
    v: E,
    reg: Seq<Seq<HandlerView>>,
    log: Seq<Invocation<E>>,
    c1: Seq<Seq<E>>,
)
    requires
        tags.len() >= 1,
        ids.len() == tags.len(),
        forall|a: int, b: int|
            0 <= a < tags.len() && 0 <= b < tags.len() && a != b ==> tags[a] != tags[b],
        forall|i: int|
            0 <= i < tags.len() ==> (#[trigger] tags[i]) < reg.len() && tags[i] < chs.len()
                && tags[i] != out && tags[i] != allow,
        out < chs.len(),
        forall|i: int|
            0 <= i < tags.len() ==> reg[(#[trigger] tags[i]) as int] == seq![
                HandlerView {
                    id: ids[i],
                    kind: KindView::Processor { out: chain_target(tags, out, i) },
                },
            ],
        chs[tags[0] as int] == seq![v],
        forall|i: int| 1 <= i < tags.len() ==> chs[(#[trigger] tags[i]) as int] =~= Seq::<E>::empty(),
        replay_pipe(chs, tags, reg, log) == Some((c1, Seq::<Invocation<E>>::empty())),
        forall|k: int|
            0 <= k < log.len() ==> ((#[trigger] log[k]).output is Emit || log[k].tag == allow),
    ensures
        log.len() == tags.len(),
        forall|k: int|
            0 <= k < log.len() ==> (#[trigger] log[k]).handler == ids[k] && log[k].tag == tags[k],
        log[0].input == v,
        forall|k: int| 1 <= k < log.len() ==> (#[trigger] log[k]).input == emit_payload(
            log[k - 1].output),
        log.last().output is Emit,
        c1.len() == chs.len(),
        forall|i: int| 0 <= i < tags.len() ==> c1[(#[trigger] tags[i]) as int] =~= Seq::<E>::empty(),
        c1[out as int] == chs[out as int].push(emit_payload(log.last().output)),
        forall|t: int|
            0 <= t < chs.len() && t != out && (forall|i: int|
                0 <= i < tags.len() ==> tags[i] != t) ==> #[trigger] c1[t] == chs[t],
    decreases tags.len(),
{
    let n = tags.len() as int;
    if n == 1 {
        assert(tags.drop_last() =~= Seq::<usize>::empty());
        assert(replay_pipe(chs, tags.drop_last(), reg, log) == Some((chs, log)));
        assert(tags.last() == tags[0]);
        assert(replay_unit(chs, tags[0], reg, log) == Some((c1, Seq::<Invocation<E>>::empty())));
        let h = HandlerView { id: ids[0], kind: KindView::Processor { out } };
        assert(chain_target(tags, out, 0) == out);
        assert(reg[tags[0] as int] == seq![h]);
        lemma_single_handler_unit(chs, tags[0], h, reg, log, c1);
        assert(log.len() == 1);
        assert(log[0].tag == tags[0]);
        assert(log[0].output is Emit);
        let x = emit_payload(log[0].output);
        let cleared = chs.update(tags[0] as int, Seq::<E>::empty());
        assert(log.drop_last() =~= Seq::<Invocation<E>>::empty());
        assert(log.last() == log[0]);
        assert(stepped(cleared, h.kind, Seq::<Invocation<E>>::empty()) == cleared);
        assert(stepped(cleared, h.kind, log) == step_channels(cleared, h.kind, log[0].output));
        assert(c1[out as int] == chs[out as int].push(x));
        assert(c1[tags[0] as int] =~= Seq::<E>::empty());
    } else {
        match replay_pipe(chs, tags.drop_last(), reg, log) {
            Some((c0, l0)) => {
                lemma_replay_pipe_split(chs, tags.drop_last(), reg, log, c0, l0);
                let prefix = log.take(log.len() - l0.len());
                let tags1 = tags.drop_last();
                let ids1 = ids.drop_last();
                let out1 = tags.last();
                assert(forall|i: int|
                    0 <= i < tags1.len() ==> (#[trigger] tags1[i]) == tags[i]);
                assert(forall|i: int| 0 <= i < ids1.len() ==> (#[trigger] ids1[i]) == ids[i]);
                assert(out1 == tags[n - 1]);
                assert forall|i: int|
                    0 <= i < tags1.len() implies reg[(#[trigger] tags1[i]) as int] == seq![
                    HandlerView {
                        id: ids1[i],
                        kind: KindView::Processor { out: chain_target(tags1, out1, i) },
                    },
                ] by {
                    assert(chain_target(tags1, out1, i) == chain_target(tags, out, i) || i
                        == tags1.len() - 1);
                    assert(chain_target(tags1, out1, tags1.len() - 1) == tags.last());
                    assert(chain_target(tags, out, tags1.len() - 1) == tags[n - 1]);
                }
                assert(forall|k: int|
                    0 <= k < prefix.len() ==> prefix[k] == (#[trigger] log[k]));
                lemma_linear_prefix(chs, tags1, ids1, out1, allow, v, reg, prefix, c0);
                let w0 = emit_payload(prefix.last().output);
                assert(c0[out1 as int] == chs[out1 as int].push(w0));
                assert(c0[out1 as int] =~= seq![w0]);
                let h = HandlerView {
                    id: ids.last(),
                    kind: KindView::Processor { out: chain_target(tags, out, n - 1) },
                };
                assert(chain_target(tags, out, n - 1) == out);
                assert(reg[tags.last() as int] == seq![h]);
                assert(replay_unit(c0, tags.last(), reg, l0) == Some(
                    (c1, Seq::<Invocation<E>>::empty()),
                ));
                assert(c0.len() == chs.len());
                lemma_single_handler_unit(c0, tags.last(), h, reg, l0, c1);
                assert(l0.len() == 1);
                assert(log =~= prefix + l0);
                assert(log.len() == n);
                assert(l0[0] == log[n - 1]);
                assert(log[n - 1].tag == tags.last());
                assert(tags.last() != allow);
                assert(log[n - 1].output is Emit);
                let x = emit_payload(log[n - 1].output);
                assert(l0[0].input == c0[out1 as int][0]);
                assert(c0[out1 as int][0] == w0);
                let cleared = c0.update(tags.last() as int, Seq::<E>::empty());
                assert(l0.drop_last() =~= Seq::<Invocation<E>>::empty());
                assert(l0.last() == l0[0]);
                assert(stepped(cleared, h.kind, Seq::<Invocation<E>>::empty()) == cleared);
                assert(stepped(cleared, h.kind, l0) == step_channels(cleared, h.kind,
                    l0[0].output));
                assert(c1 == step_channels(cleared, h.kind, l0[0].output));
                assert(c1[out as int] == cleared[out as int].push(x));
                assert(cleared[out as int] == c0[out as int]);
                assert(c0[out as int] == chs[out as int]);
                assert(log.last() == log[n - 1]);
                assert forall|k: int|
                    0 <= k < log.len() implies (#[trigger] log[k]).handler == ids[k] && log[
                    k].tag == tags[k] by {
                    if k < n - 1 {
                        assert(log[k] == prefix[k]);
                    }
                }
                assert forall|k: int|
                    1 <= k < log.len() implies (#[trigger] log[k]).input == emit_payload(
                    log[k - 1].output) by {
                    if k < n - 1 {
                        assert(log[k] == prefix[k]);
                        assert(log[k - 1] == prefix[k - 1]);
                    } else {
                        assert(log[k].input == w0);
                        assert(log[k - 1] == prefix[n - 2]);
                        assert(prefix.last() == prefix[n - 2]);
                    }
                }
                assert forall|i: int|
                    0 <= i < tags.len() implies c1[(#[trigger] tags[i]) as int]
                    =~= Seq::<E>::empty() by {
                    if i < n - 1 {
                        assert(c0[tags[i] as int] =~= Seq::<E>::empty());
                        assert(tags[i] != tags.last());
                        assert(tags[i] != out);
                        assert(c1[tags[i] as int] == cleared[tags[i] as int]);
                    } else {
                        assert(c1[tags[i] as int] == cleared[tags.last() as int]);
                    }
                }
            },
            None => {
                assert(false);
            },
        }
    }
}

/// A linear chain of depth `tags.len()`, registered with one handler per
/// stage: every stage but the last is a processor producing on the next
/// stage's channel, and the last stage is the terminal handler.
pub open spec fn linear_registry(
    tags: Seq<usize>,
    ids: Seq<u64>,
    reg: Seq<Seq<HandlerView>>,
) -> bool {
    &&& tags.len() >= 1
    &&& ids.len() == tags.len()
    &&& forall|a: int, b: int|
        0 <= a < tags.len() && 0 <= b < tags.len() && a != b ==> tags[a] != tags[b]
    &&& forall|i: int| 0 <= i < tags.len() ==> (#[trigger] tags[i]) < reg.len()
    &&& forall|i: int|
        0 <= i < tags.len() - 1 ==> reg[(#[trigger] tags[i]) as int] == seq![
            HandlerView { id: ids[i], kind: KindView::Processor { out: tags[i + 1] } },
        ]
    &&& reg[tags.last() as int] == seq![
        HandlerView { id: ids.last(), kind: KindView::Terminal },
    ]
}

/// Same-tick completion: writing one event into the front of a linear
/// chain of any depth and running the chain's dispatch units once invokes
/// every stage exactly once, front to back — each stage consuming the event
/// the previous stage produced, the terminal stage observing exactly one
/// event — and leaves every channel of the chain empty, provided every
/// processor reported an output. No other channel is touched.
#[verifier::rlimit(100)]
pub proof fn lemma_same_tick_completion<E>(
    chs: Seq<Seq<E>>,
    tags: Seq<usize>,
    ids: Seq<u64>,
    v: E,
    reg: Seq<Seq<HandlerView>>,
    log: Seq<Invocation<E>>,
    c1: Seq<Seq<E>>,
)
    requires
        linear_registry(tags, ids, reg),
        forall|i: int| 0 <= i < tags.len() ==> (#[trigger] tags[i]) < chs.len(),
        chs[tags[0] as int] == seq![v],
        forall|i: int| 1 <= i < tags.len() ==> chs[(#[trigger] tags[i]) as int] =~= Seq::<E>::empty(),
        replay_pipe(chs, tags, reg, log) == Some((c1, Seq::<Invocation<E>>::empty())),
        forall|k: int|
            0 <= k < log.len() ==> ((#[trigger] log[k]).output is Emit || log[k].tag
                == tags.last()),
    ensures
        log.len() == tags.len(),
        forall|k: int|
            0 <= k < log.len() ==> (#[trigger] log[k]).handler == ids[k] && log[k].tag == tags[k],
        log[0].input == v,
        forall|k: int| 1 <= k < log.len() ==> (#[trigger] log[k]).input == emit_payload(
            log[k - 1].output),
        c1.len() == chs.len(),
        forall|i: int| 0 <= i < tags.len() ==> c1[(#[trigger] tags[i]) as int] =~= Seq::<E>::empty(),
        forall|t: int|
            0 <= t < chs.len() && (forall|i: int| 0 <= i < tags.len() ==> tags[i] != t)
                ==> #[trigger] c1[t] == chs[t],
{
    let n = tags.len() as int;
    if n == 1 {
        assert(tags.drop_last() =~= Seq::<usize>::empty());
        assert(replay_pipe(chs, tags.drop_last(), reg, log) == Some((chs, log)));
        assert(tags.last() == tags[0]);
        assert(replay_unit(chs, tags[0], reg, log) == Some((c1, Seq::<Invocation<E>>::empty())));
        let h = HandlerView { id: ids[0], kind: KindView::Terminal };
        assert(reg[tags[0] as int] == seq![h]);
        lemma_single_handler_unit(chs, tags[0], h, reg, log, c1);
        assert(log.len() == 1);
        let cleared = chs.update(tags[0] as int, Seq::<E>::empty());
        assert(log.drop_last() =~= Seq::<Invocation<E>>::empty());
        assert(log.last() == log[0]);
        assert(stepped(cleared, h.kind, Seq::<Invocation<E>>::empty()) == cleared);
        assert(stepped(cleared, h.kind, log) == step_channels(cleared, h.kind, log[0].output));
        assert(c1 == cleared);
    } else {
        match replay_pipe(chs, tags.drop_last(), reg, log) {
            Some((c0, l0)) => {
                lemma_replay_pipe_split(chs, tags.drop_last(), reg, log, c0, l0);
                let prefix = log.take(log.len() - l0.len());
                let tags1 = tags.drop_last();
                let ids1 = ids.drop_last();
                let out1 = tags.last();
                assert(forall|i: int|
                    0 <= i < tags1.len() ==> (#[trigger] tags1[i]) == tags[i]);
                assert(forall|i: int| 0 <= i < ids1.len() ==> (#[trigger] ids1[i]) == ids[i]);
                assert forall|i: int|
                    0 <= i < tags1.len() implies reg[(#[trigger] tags1[i]) as int] == seq![
                    HandlerView {
                        id: ids1[i],
                        kind: KindView::Processor { out: chain_target(tags1, out1, i) },
                    },
                ] by {
                    if i < tags1.len() - 1 {
                        assert(chain_target(tags1, out1, i) == tags[i + 1]);
                    } else {
                        assert(chain_target(tags1, out1, i) == tags.last());
                        assert(tags.last() == tags[i + 1]);
                    }
                }
                assert(forall|k: int|
                    0 <= k < prefix.len() ==> prefix[k] == (#[trigger] log[k]));
                lemma_linear_prefix(chs, tags1, ids1, out1, out1, v, reg, prefix, c0);
                let w0 = emit_payload(prefix.last().output);
                assert(c0[out1 as int] == chs[out1 as int].push(w0));
                assert(c0[out1 as int] =~= seq![w0]);
                let h = HandlerView { id: ids.last(), kind: KindView::Terminal };
                assert(reg[tags.last() as int] == seq![h]);
                assert(replay_unit(c0, tags.last(), reg, l0) == Some(
                    (c1, Seq::<Invocation<E>>::empty()),
                ));
                assert(c0.len() == chs.len());
                lemma_single_handler_unit(c0, tags.last(), h, reg, l0, c1);
                assert(l0.len() == 1);
                assert(log =~= prefix + l0);
                assert(log.len() == n);
                assert(l0[0] == log[n - 1]);
                assert(l0[0].input == c0[out1 as int][0]);
                assert(c0[out1 as int][0] == w0);
                let cleared = c0.update(tags.last() as int, Seq::<E>::empty());
                assert(l0.drop_last() =~= Seq::<Invocation<E>>::empty());
                assert(l0.last() == l0[0]);
                assert(stepped(cleared, h.kind, Seq::<Invocation<E>>::empty()) == cleared);
                assert(stepped(cleared, h.kind, l0) == step_channels(cleared, h.kind,
                    l0[0].output));
                assert(c1 == cleared);
                assert(log.last() == log[n - 1]);
                assert forall|k: int|
                    0 <= k < log.len() implies (#[trigger] log[k]).handler == ids[k] && log[
                    k].tag == tags[k] by {
                    if k < n - 1 {
                        assert(log[k] == prefix[k]);
                    }
                }
                assert forall|k: int|
                    1 <= k < log.len() implies (#[trigger] log[k]).input == emit_payload(
                    log[k - 1].output) by {
                    if k < n - 1 {
                        assert(log[k] == prefix[k]);
                        assert(log[k - 1] == prefix[k - 1]);
                    } else {
                        assert(log[k].input == w0);
                        assert(log[k - 1] == prefix[n - 2]);
                        assert(prefix.last() == prefix[n - 2]);
                    }
                }
                assert forall|i: int|
                    0 <= i < tags.len() implies c1[(#[trigger] tags[i]) as int]
                    =~= Seq::<E>::empty() by {
                    if i < n - 1 {
                        assert(c0[tags[i] as int] =~= Seq::<E>::empty());
                        assert(tags[i] != tags.last());
                    }
                }
            },
            None => {
                assert(false);
            },
        }
    }
}

/// A drain of an empty channel is a no-op: it invokes nothing and changes
/// nothing, so a second drain after any drain is always a no-op.
pub proof fn lemma_empty_drain_no_op<E>(
    chs: Seq<Seq<E>>,
    tag: usize,
    reg: Seq<Seq<HandlerView>>,
    log: Seq<Invocation<E>>,
    c1: Seq<Seq<E>>,
)
    requires
        tag < chs.len() ==> chs[tag as int] =~= Seq::<E>::empty(),
        replay_unit(chs, tag, reg, log) == Some((c1, Seq::<Invocation<E>>::empty())),
    ensures
        log =~= Seq::<Invocation<E>>::empty(),
        c1 == chs,
{
    if tag < chs.len() && tag < reg.len() {
        assert(chs.update(tag as int, Seq::<E>::empty()) =~= chs);
    }
}

/// An event queued on a channel with no registered handlers is silently
/// discarded by the channel's drain: no handler is invoked, no error is
/// raised, and the channel is simply cleared.
pub proof fn lemma_unhandled_events_discarded<E>(
    chs: Seq<Seq<E>>,
    tag: usize,
    reg: Seq<Seq<HandlerView>>,
    log: Seq<Invocation<E>>,
    c1: Seq<Seq<E>>,
)
    requires
        tag < chs.len(),
        tag < reg.len(),
        reg[tag as int] =~= Seq::<HandlerView>::empty(),
        replay_unit(chs, tag, reg, log) == Some((c1, Seq::<Invocation<E>>::empty())),
    ensures
        log =~= Seq::<Invocation<E>>::empty(),
        c1 == chs.update(tag as int, Seq::<E>::empty()),
{
    lemma_replay_values_discarded(
        chs.update(tag as int, Seq::empty()),
        tag,
        chs[tag as int],
        log,
        c1,
    );
}

/// Delivering any queue of events to an empty handler list does nothing.
proof fn lemma_replay_values_discarded<E>(
    chs: Seq<Seq<E>>,
    tag: usize,
    vs: Seq<E>,
    log: Seq<Invocation<E>>,
    c1: Seq<Seq<E>>,
)
    requires
        replay_values(chs, tag, vs, Seq::<HandlerView>::empty(), log) == Some(
            (c1, Seq::<Invocation<E>>::empty()),
        ),
    ensures
        log =~= Seq::<Invocation<E>>::empty(),
        c1 == chs,
    decreases vs.len(),
{
    if vs.len() > 0 {
        match replay_values(chs, tag, vs.drop_last(), Seq::<HandlerView>::empty(), log) {
            Some((c0, l0)) => {
                assert(replay_value(c0, tag, vs.last(), Seq::<HandlerView>::empty(), l0)
                    == Some((c0, l0)));
                lemma_replay_values_discarded(chs, tag, vs.drop_last(), log, c1);
            },
            None => {
                assert(false);
            },
        }
    }
}

} // verus!
