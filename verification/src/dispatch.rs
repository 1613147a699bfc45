//! The dispatch semantics: what one drain of a channel does, and what one
//! whole tick does.
//!
//! The engine cannot know what a user-supplied stage function computes; the
//! host runs those functions through [`SagaRunner`] and reports each result.
//! What the engine *does* guarantee is pinned by the `replay_*` functions
//! below: given the channels before a drain, the registered handler lists
//! and the log of invocations the engine made, they reconstruct the channels
//! after the drain — and they succeed only on logs with exactly the right
//! invocations, in exactly the right order. Each dispatch routine ensures
//! that replaying its log from the pre-state succeeds, consumes the whole
//! log and yields the post-state, whatever the host reported.

use vstd::prelude::*;

use crate::stage::{HandlerKind, HandlerRef, HandlerView, KindView, SagaEvent, StageOutput};

verus! {

/// One handler invocation the engine performed: which handler ran, on which
/// channel, with which event copy, and what the host reported back.
#[derive(Clone, Copy, Debug, PartialEq, Eq)]
pub struct Invocation<E> {
    pub handler: u64,
    pub tag: usize,
    pub input: E,
    pub output: StageOutput<E>,
}

/// The host side of a dispatch: runs the stored callable behind a handler
/// reference on one event copy and reports what it produced. The engine
/// assumes nothing about the report; its guarantees hold for every outcome.
pub trait SagaRunner<E: SagaEvent> {
    fn run_handler(&mut self, handler: u64, event: E) -> StageOutput<E>;
}

/// The channel contents as mathematical sequences.
pub open spec fn cview<E>(channels: Vec<Vec<E>>) -> Seq<Seq<E>> {
    channels@.map_values(|c: Vec<E>| c@)
}

/// The registered handler lists as mathematical sequences.
pub open spec fn rview(handlers: Vec<Vec<HandlerRef>>) -> Seq<Seq<HandlerView>> {
    handlers@.map_values(|r: Vec<HandlerRef>| r@.map_values(|h: HandlerRef| h@))
}

/// The registered pipelines — each a schedule point label and a tag order —
/// as mathematical sequences.
pub open spec fn pview(pipelines: Vec<(u64, Vec<usize>)>) -> Seq<(u64, Seq<usize>)> {
    pipelines@.map_values(|p: (u64, Vec<usize>)| (p.0, p.1@))
}

/// Appends `x` to channel `tag`; a write to a channel that does not exist
/// changes nothing.
pub open spec fn channel_push<E>(chs: Seq<Seq<E>>, tag: usize, x: E) -> Seq<Seq<E>> {
    if tag < chs.len() {
        chs.update(tag as int, chs[tag as int].push(x))
    } else {
        chs
    }
}

/// The channel writes one invocation causes: the handler's registered kind
/// decides which channel, if any, receives the event the host reported.
/// A report that does not fit the kind writes nothing: in particular a
/// terminal handler never writes, and a route to a variant index outside the
/// routing table writes nothing.
pub open spec fn step_channels<E>(chs: Seq<Seq<E>>, kind: KindView, out: StageOutput<E>) -> Seq<
    Seq<E>,
> {
    match kind {
        KindView::Terminal => chs,
        KindView::Processor { out: target } => match out {
            StageOutput::Emit(x) => channel_push(chs, target, x),
            _ => chs,
        },
        KindView::OptionFilter { out: target } => match out {
            StageOutput::Emit(x) => channel_push(chs, target, x),
            _ => chs,
        },
        KindView::ResultSplit { ok, err } => match out {
            StageOutput::Success(x) => channel_push(chs, ok, x),
            StageOutput::Failure(x) => channel_push(chs, err, x),
            _ => chs,
        },
        KindView::Router { outs } => match out {
            StageOutput::Route(variant, x) => if variant < outs.len() {
                channel_push(chs, outs[variant as int], x)
            } else {
                chs
            },
            _ => chs,
        },
    }
}

/// Replays the delivery of one event copy `v` on channel `tag` to the
/// handlers `hs`, in order, against a prefix of `log`: each handler must
/// appear as the next log entry, with `tag` and `v` as its inputs, and its
/// reported output is applied to the channels. Returns the channels after
/// the delivery and the unconsumed rest of the log, or `None` if the log
/// does not record exactly this delivery.
pub open spec fn replay_value<E>(
    chs: Seq<Seq<E>>,
    tag: usize,
    v: E,
    hs: Seq<HandlerView>,
    log: Seq<Invocation<E>>,
) -> Option<(Seq<Seq<E>>, Seq<Invocation<E>>)>
    decreases hs.len(),
{
    if hs.len() == 0 {
        Some((chs, log))
    } else {
        match replay_value(chs, tag, v, hs.drop_last(), log) {
            Some((c1, l1)) => {
                if l1.len() > 0 && l1[0].handler == hs.last().id && l1[0].tag == tag
                    && l1[0].input == v {
                    Some((step_channels(c1, hs.last().kind, l1[0].output), l1.drop_first()))
                } else {
                    None
                }
            },
            None => None,
        }
    }
}

/// Replays the delivery of the drained events `vs`, in queue order, each to
/// every handler in `hs`.
pub open spec fn replay_values<E>(
    chs: Seq<Seq<E>>,
    tag: usize,
    vs: Seq<E>,
    hs: Seq<HandlerView>,
    log: Seq<Invocation<E>>,
) -> Option<(Seq<Seq<E>>, Seq<Invocation<E>>)>
    decreases vs.len(),
{
    if vs.len() == 0 {
        Some((chs, log))
    } else {
        match replay_values(chs, tag, vs.drop_last(), hs, log) {
            Some((c1, l1)) => replay_value(c1, tag, vs.last(), hs, l1),
            None => None,
        }
    }
}

/// Replays one dispatch unit: channel `tag` is drained first, then every
/// drained event is delivered to every handler registered for `tag`, in
/// registration order. Draining first means an event a handler writes back
/// into `tag` stays queued for a later drain, not this one. A unit for a
/// channel that does not exist is a no-op, as is a unit whose channel is
/// empty or has no handlers.
pub open spec fn replay_unit<E>(
    chs: Seq<Seq<E>>,
    tag: usize,
    reg: Seq<Seq<HandlerView>>,
    log: Seq<Invocation<E>>,
) -> Option<(Seq<Seq<E>>, Seq<Invocation<E>>)> {
    if tag < chs.len() && tag < reg.len() {
        replay_values(
            chs.update(tag as int, Seq::empty()),
            tag,
            chs[tag as int],
            reg[tag as int],
            log,
        )
    } else {
        Some((chs, log))
    }
}

/// Replays one pipeline's dispatch units front to back: the ordering
/// constraint that stage `i + 1`'s unit runs after stage `i`'s.
pub open spec fn replay_pipe<E>(
    chs: Seq<Seq<E>>,
    tags: Seq<usize>,
    reg: Seq<Seq<HandlerView>>,
    log: Seq<Invocation<E>>,
) -> Option<(Seq<Seq<E>>, Seq<Invocation<E>>)>
    decreases tags.len(),
{
    if tags.len() == 0 {
        Some((chs, log))
    } else {
        match replay_pipe(chs, tags.drop_last(), reg, log) {
            Some((c1, l1)) => replay_unit(c1, tags.last(), reg, l1),
            None => None,
        }
    }
}

/// Replays one whole tick: every registered pipeline's units, pipelines in
/// registration order, each pipeline front to back.
pub open spec fn replay_all<E>(
    chs: Seq<Seq<E>>,
    pipes: Seq<Seq<usize>>,
    reg: Seq<Seq<HandlerView>>,
    log: Seq<Invocation<E>>,
) -> Option<(Seq<Seq<E>>, Seq<Invocation<E>>)>
    decreases pipes.len(),
{
    if pipes.len() == 0 {
        Some((chs, log))
    } else {
        match replay_all(chs, pipes.drop_last(), reg, log) {
            Some((c1, l1)) => replay_pipe(c1, pipes.last(), reg, l1),
            None => None,
        }
    }
}

/// A replay that succeeds on `log` succeeds unchanged when more entries
/// follow: the extra entries pass through unconsumed.
pub proof fn lemma_replay_value_extend<E>(
    chs: Seq<Seq<E>>,
    tag: usize,
    v: E,
    hs: Seq<HandlerView>,
    log: Seq<Invocation<E>>,
    ext: Seq<Invocation<E>>,
    c1: Seq<Seq<E>>,
    l1: Seq<Invocation<E>>,
)
    requires
        replay_value(chs, tag, v, hs, log) == Some((c1, l1)),
    ensures
        replay_value(chs, tag, v, hs, log + ext) == Some((c1, l1 + ext)),
    decreases hs.len(),
{
    if hs.len() == 0 {
        assert(log + ext == l1 + ext);
    } else {
        match replay_value(chs, tag, v, hs.drop_last(), log) {
            Some((c0, l0)) => {
                lemma_replay_value_extend(chs, tag, v, hs.drop_last(), log, ext, c0, l0);
                assert((l0 + ext)[0] == l0[0]);
                assert((l0 + ext).drop_first() =~= l0.drop_first() + ext);
            },
            None => {
                assert(false);
            },
        }
    }
}

/// A replay that succeeds on `log` succeeds unchanged when more entries
/// follow: the extra entries pass through unconsumed.
pub proof fn lemma_replay_values_extend<E>(
    chs: Seq<Seq<E>>,
    tag: usize,
    vs: Seq<E>,
    hs: Seq<HandlerView>,
    log: Seq<Invocation<E>>,
    ext: Seq<Invocation<E>>,
    c1: Seq<Seq<E>>,
    l1: Seq<Invocation<E>>,
)
    requires
        replay_values(chs, tag, vs, hs, log) == Some((c1, l1)),
    ensures
        replay_values(chs, tag, vs, hs, log + ext) == Some((c1, l1 + ext)),
    decreases vs.len(),
{
    if vs.len() == 0 {
        assert(log + ext == l1 + ext);
    } else {
        match replay_values(chs, tag, vs.drop_last(), hs, log) {
            Some((c0, l0)) => {
                lemma_replay_values_extend(chs, tag, vs.drop_last(), hs, log, ext, c0, l0);
                lemma_replay_value_extend(c0, tag, vs.last(), hs, l0, ext, c1, l1);
            },
            None => {
                assert(false);
            },
        }
    }
}

/// A replay that succeeds on `log` succeeds unchanged when more entries
/// follow: the extra entries pass through unconsumed.
pub proof fn lemma_replay_unit_extend<E>(
    chs: Seq<Seq<E>>,
    tag: usize,
    reg: Seq<Seq<HandlerView>>,
    log: Seq<Invocation<E>>,
    ext: Seq<Invocation<E>>,
    c1: Seq<Seq<E>>,
    l1: Seq<Invocation<E>>,
)
    requires
        replay_unit(chs, tag, reg, log) == Some((c1, l1)),
    ensures
        replay_unit(chs, tag, reg, log + ext) == Some((c1, l1 + ext)),
{
    if tag < chs.len() && tag < reg.len() {
        lemma_replay_values_extend(
            chs.update(tag as int, Seq::empty()),
            tag,
            chs[tag as int],
            reg[tag as int],
            log,
            ext,
            c1,
            l1,
        );
    } else {
        assert(log + ext == l1 + ext);
    }
}

/// A replay that succeeds on `log` succeeds unchanged when more entries
/// follow: the extra entries pass through unconsumed.
pub proof fn lemma_replay_pipe_extend<E>(
    chs: Seq<Seq<E>>,
    tags: Seq<usize>,
    reg: Seq<Seq<HandlerView>>,
    log: Seq<Invocation<E>>,
    ext: Seq<Invocation<E>>,
    c1: Seq<Seq<E>>,
    l1: Seq<Invocation<E>>,
)
    requires
        replay_pipe(chs, tags, reg, log) == Some((c1, l1)),
    ensures
        replay_pipe(chs, tags, reg, log + ext) == Some((c1, l1 + ext)),
    decreases tags.len(),
{
    if tags.len() == 0 {
        assert(log + ext == l1 + ext);
    } else {
        match replay_pipe(chs, tags.drop_last(), reg, log) {
            Some((c0, l0)) => {
                lemma_replay_pipe_extend(chs, tags.drop_last(), reg, log, ext, c0, l0);
                lemma_replay_unit_extend(c0, tags.last(), reg, l0, ext, c1, l1);
            },
            None => {
                assert(false);
            },
        }
    }
}

/// A replay that succeeds on `log` succeeds unchanged when more entries
/// follow: the extra entries pass through unconsumed.
pub proof fn lemma_replay_all_extend<E>(
    chs: Seq<Seq<E>>,
    pipes: Seq<Seq<usize>>,
    reg: Seq<Seq<HandlerView>>,
    log: Seq<Invocation<E>>,
    ext: Seq<Invocation<E>>,
    c1: Seq<Seq<E>>,
    l1: Seq<Invocation<E>>,
)
    requires
        replay_all(chs, pipes, reg, log) == Some((c1, l1)),
    ensures
        replay_all(chs, pipes, reg, log + ext) == Some((c1, l1 + ext)),
    decreases pipes.len(),
{
    if pipes.len() == 0 {
        assert(log + ext == l1 + ext);
    } else {
        match replay_all(chs, pipes.drop_last(), reg, log) {
            Some((c0, l0)) => {
                lemma_replay_all_extend(chs, pipes.drop_last(), reg, log, ext, c0, l0);
                lemma_replay_pipe_extend(c0, pipes.last(), reg, l0, ext, c1, l1);
            },
            None => {
                assert(false);
            },
        }
    }
}

/// A replay that succeeds leaving a rest consumed exactly the log prefix in
/// front of that rest, and succeeds on that prefix alone.
pub proof fn lemma_replay_value_split<E>(
    chs: Seq<Seq<E>>,
    tag: usize,
    v: E,
    hs: Seq<HandlerView>,
    log: Seq<Invocation<E>>,
    c1: Seq<Seq<E>>,
    l1: Seq<Invocation<E>>,
)
    requires
        replay_value(chs, tag, v, hs, log) == Some((c1, l1)),
    ensures
        l1.len() <= log.len(),
        log == log.take(log.len() - l1.len()) + l1,
        replay_value(chs, tag, v, hs, log.take(log.len() - l1.len())) == Some(
            (c1, Seq::<Invocation<E>>::empty()),
        ),
    decreases hs.len(),
{
    if hs.len() == 0 {
        assert(log.take(log.len() - l1.len()) =~= Seq::<Invocation<E>>::empty());
        assert(log =~= log.take(log.len() - l1.len()) + l1);
    } else {
        match replay_value(chs, tag, v, hs.drop_last(), log) {
            Some((c0, l0)) => {
                lemma_replay_value_split(chs, tag, v, hs.drop_last(), log, c0, l0);
                let prefix = log.take(log.len() - l0.len());
                lemma_replay_value_extend(
                    chs,
                    tag,
                    v,
                    hs.drop_last(),
                    prefix,
                    seq![l0[0]],
                    c0,
                    Seq::empty(),
                );
                assert((Seq::<Invocation<E>>::empty() + seq![l0[0]])[0] == l0[0]);
                assert((Seq::<Invocation<E>>::empty() + seq![l0[0]]).drop_first()
                    =~= Seq::<Invocation<E>>::empty());
                assert(l1 == l0.drop_first());
                assert(log.take(log.len() - l1.len()) =~= prefix + seq![l0[0]]);
                assert(log =~= log.take(log.len() - l1.len()) + l1);
            },
            None => {
                assert(false);
            },
        }
    }
}

/// A replay that succeeds leaving a rest consumed exactly the log prefix in
/// front of that rest, and succeeds on that prefix alone.
pub proof fn lemma_replay_values_split<E>(
    chs: Seq<Seq<E>>,
    tag: usize,
    vs: Seq<E>,
    hs: Seq<HandlerView>,
    log: Seq<Invocation<E>>,
    c1: Seq<Seq<E>>,
    l1: Seq<Invocation<E>>,
)
    requires
        replay_values(chs, tag, vs, hs, log) == Some((c1, l1)),
    ensures
        l1.len() <= log.len(),
        log == log.take(log.len() - l1.len()) + l1,
        replay_values(chs, tag, vs, hs, log.take(log.len() - l1.len())) == Some(
            (c1, Seq::<Invocation<E>>::empty()),
        ),
    decreases vs.len(),
{
    if vs.len() == 0 {
        assert(log.take(log.len() - l1.len()) =~= Seq::<Invocation<E>>::empty());
        assert(log =~= log.take(log.len() - l1.len()) + l1);
    } else {
        match replay_values(chs, tag, vs.drop_last(), hs, log) {
            Some((c0, l0)) => {
                lemma_replay_values_split(chs, tag, vs.drop_last(), hs, log, c0, l0);
                let prefix = log.take(log.len() - l0.len());
                lemma_replay_value_split(c0, tag, vs.last(), hs, l0, c1, l1);
                let valpart = l0.take(l0.len() - l1.len());
                lemma_replay_values_extend(
                    chs,
                    tag,
                    vs.drop_last(),
                    hs,
                    prefix,
                    valpart,
                    c0,
                    Seq::empty(),
                );
                lemma_replay_value_extend(
                    c0,
                    tag,
                    vs.last(),
                    hs,
                    valpart,
                    Seq::empty(),
                    c1,
                    Seq::empty(),
                );
                assert(valpart + Seq::<Invocation<E>>::empty() =~= valpart);
                assert(Seq::<Invocation<E>>::empty() + valpart =~= valpart);
                assert(log.take(log.len() - l1.len()) =~= prefix + valpart);
                assert(log =~= log.take(log.len() - l1.len()) + l1);
            },
            None => {
                assert(false);
            },
        }
    }
}

/// A replay that succeeds leaving a rest consumed exactly the log prefix in
/// front of that rest, and succeeds on that prefix alone.
pub proof fn lemma_replay_unit_split<E>(
    chs: Seq<Seq<E>>,
    tag: usize,
    reg: Seq<Seq<HandlerView>>,
    log: Seq<Invocation<E>>,
    c1: Seq<Seq<E>>,
    l1: Seq<Invocation<E>>,
)
    requires
        replay_unit(chs, tag, reg, log) == Some((c1, l1)),
    ensures
        l1.len() <= log.len(),
        log == log.take(log.len() - l1.len()) + l1,
        replay_unit(chs, tag, reg, log.take(log.len() - l1.len())) == Some(
            (c1, Seq::<Invocation<E>>::empty()),
        ),
{
    if tag < chs.len() && tag < reg.len() {
        lemma_replay_values_split(
            chs.update(tag as int, Seq::empty()),
            tag,
            chs[tag as int],
            reg[tag as int],
            log,
            c1,
            l1,
        );
    } else {
        assert(log.take(log.len() - l1.len()) =~= Seq::<Invocation<E>>::empty());
        assert(log =~= log.take(log.len() - l1.len()) + l1);
    }
}

/// A replay that succeeds leaving a rest consumed exactly the log prefix in
/// front of that rest, and succeeds on that prefix alone.
pub proof fn lemma_replay_pipe_split<E>(
    chs: Seq<Seq<E>>,
    tags: Seq<usize>,
    reg: Seq<Seq<HandlerView>>,
    log: Seq<Invocation<E>>,
    c1: Seq<Seq<E>>,
    l1: Seq<Invocation<E>>,
)
    requires
        replay_pipe(chs, tags, reg, log) == Some((c1, l1)),
    ensures
        l1.len() <= log.len(),
        log == log.take(log.len() - l1.len()) + l1,
        replay_pipe(chs, tags, reg, log.take(log.len() - l1.len())) == Some(
            (c1, Seq::<Invocation<E>>::empty()),
        ),
    decreases tags.len(),
{
    if tags.len() == 0 {
        assert(log.take(log.len() - l1.len()) =~= Seq::<Invocation<E>>::empty());
        assert(log =~= log.take(log.len() - l1.len()) + l1);
    } else {
        match replay_pipe(chs, tags.drop_last(), reg, log) {
            Some((c0, l0)) => {
                lemma_replay_pipe_split(chs, tags.drop_last(), reg, log, c0, l0);
                let prefix = log.take(log.len() - l0.len());
                lemma_replay_unit_split(c0, tags.last(), reg, l0, c1, l1);
                let unitpart = l0.take(l0.len() - l1.len());
                lemma_replay_pipe_extend(
                    chs,
                    tags.drop_last(),
                    reg,
                    prefix,
                    unitpart,
                    c0,
                    Seq::empty(),
                );
                lemma_replay_unit_extend(c0, tags.last(), reg, unitpart, Seq::empty(), c1,
                    Seq::empty());
                assert(unitpart + Seq::<Invocation<E>>::empty() =~= unitpart);
                assert(Seq::<Invocation<E>>::empty() + unitpart =~= unitpart);
                assert(log.take(log.len() - l1.len()) =~= prefix + unitpart);
                assert(log =~= log.take(log.len() - l1.len()) + l1);
            },
            None => {
                assert(false);
            },
        }
    }
}

/// Appends one event to one channel in place.
pub(crate) fn push_channel<E: SagaEvent>(channels: &mut Vec<Vec<E>>, tag: usize, x: E)
    ensures
        cview(*final(channels)) == channel_push(cview(*old(channels)), tag, x),
        final(channels)@.len() == old(channels)@.len(),
{
    if tag < channels.len() {
        let ghost pre = channels@;
        let mut row = channels.remove(tag);
        row.push(x);
        channels.insert(tag, row);
        proof {
            assert(channels@ =~= pre.update(tag as int, channels@[tag as int]));
            assert(channels@[tag as int]@ == pre[tag as int]@.push(x));
            assert(cview(*channels) =~= channel_push(cview(*old(channels)), tag, x));
        }
    }
}

/// Performs the channel write one invocation causes, mirroring
/// [`step_channels`] exactly.
fn apply_step<E: SagaEvent>(channels: &mut Vec<Vec<E>>, kind: &HandlerKind, out: StageOutput<E>)
    ensures
        cview(*final(channels)) == step_channels(cview(*old(channels)), kind@, out),
        final(channels)@.len() == old(channels)@.len(),
{
    match kind {
        HandlerKind::Terminal => {},
        HandlerKind::Processor { out: target } => {
            if let StageOutput::Emit(x) = out {
                push_channel(channels, *target, x);
            }
        },
        HandlerKind::OptionFilter { out: target } => {
            if let StageOutput::Emit(x) = out {
                push_channel(channels, *target, x);
            }
        },
        HandlerKind::ResultSplit { ok, err } => {
            match out {
                StageOutput::Success(x) => push_channel(channels, *ok, x),
                StageOutput::Failure(x) => push_channel(channels, *err, x),
                _ => {},
            }
        },
        HandlerKind::Router { outs } => {
            if let StageOutput::Route(variant, x) = out {
                if variant < outs.len() {
                    let target = outs[variant];
                    push_channel(channels, target, x);
                }
            }
        },
    }
}

/// Drains channel `tag` and delivers every drained event to every handler
/// registered for `tag`, in registration order, running each through the
/// host's `runner`. Returns the invocation log; replaying it from the
/// pre-state reconstructs the post-state exactly.
pub(crate) fn dispatch_unit<E: SagaEvent, R: SagaRunner<E>>(
    channels: &mut Vec<Vec<E>>,
    handlers: &Vec<Vec<HandlerRef>>,
    tag: usize,
    runner: &mut R,
) -> (log: Vec<Invocation<E>>)
    requires
        old(channels)@.len() == handlers@.len(),
    ensures
        final(channels)@.len() == old(channels)@.len(),
        replay_unit(cview(*old(channels)), tag, rview(*handlers), log@) == Some(
            (cview(*final(channels)), Seq::<Invocation<E>>::empty()),
        ),
{
    let mut log: Vec<Invocation<E>> = Vec::new();
    if tag >= channels.len() {
        proof {
            assert(log@ =~= Seq::<Invocation<E>>::empty());
        }
        return log;
    }
    let ghost c_orig = cview(*channels);
    let ghost rv = rview(*handlers);
    let vs = channels.remove(tag);
    channels.insert(tag, Vec::new());
    proof {
        assert(channels@ =~= old(channels)@.update(tag as int, channels@[tag as int]));
        assert(cview(*channels) =~= c_orig.update(tag as int, Seq::<E>::empty()));
        assert(vs@ == c_orig[tag as int]);
    }
    let ghost c_clear = cview(*channels);
    let ghost rowv = rv[tag as int];

    let n = vs.len();
    let mut i: usize = 0;
    while i < n
        invariant
            i <= n,
            n == vs@.len(),
            channels@.len() == handlers@.len(),
            tag < channels@.len(),
            rv == rview(*handlers),
            rowv == rv[tag as int],
            replay_values(c_clear, tag, vs@.take(i as int), rowv, log@) == Some(
                (cview(*channels), Seq::<Invocation<E>>::empty()),
            ),
        decreases n - i,
    {
        let v = vs[i];
        let ghost c_vstart = cview(*channels);
        let ghost log_start = log@;
        let row_len = handlers[tag].len();
        proof {
            assert(rowv.len() == row_len);
        }
        let mut j: usize = 0;
        while j < row_len
            invariant
                j <= row_len,
                channels@.len() == handlers@.len(),
                tag < channels@.len(),
                rv == rview(*handlers),
                rowv == rv[tag as int],
                row_len == rowv.len(),
                log_start.len() <= log@.len(),
                log_start =~= log@.take(log_start.len() as int),
                replay_value(
                    c_vstart,
                    tag,
                    v,
                    rowv.take(j as int),
                    log@.skip(log_start.len() as int),
                ) == Some((cview(*channels), Seq::<Invocation<E>>::empty())),
            decreases row_len - j,
        {
            let hid = handlers[tag][j].id;
            let out = runner.run_handler(hid, v);
            let ghost c_before = cview(*channels);
            let ghost mid = log@.skip(log_start.len() as int);
            apply_step(channels, &handlers[tag][j].kind, out);
            let inv = Invocation { handler: hid, tag, input: v, output: out };
            log.push(inv);
            proof {
                lemma_replay_value_extend(
                    c_vstart,
                    tag,
                    v,
                    rowv.take(j as int),
                    mid,
                    seq![inv],
                    c_before,
                    Seq::empty(),
                );
                assert(rowv.take(j + 1).drop_last() =~= rowv.take(j as int));
                assert(rowv.take(j + 1).last() == rowv[j as int]);
                assert(rowv[j as int] == handlers@[tag as int]@[j as int]@);
                assert((Seq::<Invocation<E>>::empty() + seq![inv])[0] == inv);
                assert((Seq::<Invocation<E>>::empty() + seq![inv]).drop_first()
                    =~= Seq::<Invocation<E>>::empty());
                assert(log@.skip(log_start.len() as int) =~= mid + seq![inv]);
                assert(log_start =~= log@.take(log_start.len() as int));
                assert(replay_value(
                    c_vstart,
                    tag,
                    v,
                    rowv.take(j + 1),
                    log@.skip(log_start.len() as int),
                ) == Some((cview(*channels), Seq::<Invocation<E>>::empty())));
            }
            j += 1;
        }
        proof {
            assert(rowv.take(row_len as int) =~= rowv);
            let mid_final = log@.skip(log_start.len() as int);
            lemma_replay_values_extend(
                c_clear,
                tag,
                vs@.take(i as int),
                rowv,
                log_start,
                mid_final,
                c_vstart,
                Seq::empty(),
            );
            assert(log_start + mid_final =~= log@);
            assert(vs@.take(i + 1).drop_last() =~= vs@.take(i as int));
            assert(vs@.take(i + 1).last() == vs@[i as int]);
            assert(replay_values(c_clear, tag, vs@.take(i + 1), rowv, log@) == Some(
                (cview(*channels), Seq::<Invocation<E>>::empty()),
            ));
        }
        i += 1;
    }
    proof {
        assert(vs@.take(n as int) =~= vs@);
    }
    log
}

} // verus!
