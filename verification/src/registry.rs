//! The pipeline registry: per-tag event channels, per-tag ordered handler
//! lists, and the schedule of dispatch units derived from registered chains,
//! grouped under opaque schedule point labels that the host runs one tick at
//! a time.

use vstd::prelude::*;

use crate::chain::{Chain, ChainView};
use crate::dispatch::{
    cview, dispatch_unit, lemma_replay_all_extend, lemma_replay_pipe_extend, push_channel, pview,
    replay_all, replay_pipe, replay_unit, rview, Invocation, SagaRunner,
};
use crate::stage::{
    kind_targets, kind_wf, HandlerKind, HandlerRef, HandlerView, KindView, SagaEvent, Stage,
    StageView,
};

verus! {

/// Mathematical view of a [`SagaRegistry`]: channel contents, registered
/// handler lists, and for every registered pipeline its schedule point
/// label and its tag order.
#[verifier::ext_equal]
pub ghost struct SagaView<E> {
    pub channels: Seq<Seq<E>>,
    pub handlers: Seq<Seq<HandlerView>>,
    pub pipelines: Seq<(u64, Seq<usize>)>,
}

/// Every handler list entry only targets channels that exist.
pub open spec fn reg_wf(reg: Seq<Seq<HandlerView>>, n: int) -> bool {
    forall|t: int, j: int|
        0 <= t < reg.len() && 0 <= j < reg[t].len() ==> kind_wf((#[trigger] reg[t][j]).kind, n)
}

/// Every scheduled dispatch unit drains a channel that exists.
pub open spec fn pipes_wf(pipes: Seq<(u64, Seq<usize>)>, n: int) -> bool {
    forall|p: int, i: int|
        0 <= p < pipes.len() && 0 <= i < pipes[p].1.len() ==> (#[trigger] pipes[p].1[i]) < n
}

/// The tag orders of the pipelines registered under one schedule point, in
/// registration order: the dispatch units one tick of that schedule point
/// runs.
pub open spec fn scheduled_for(pipes: Seq<(u64, Seq<usize>)>, label: u64) -> Seq<Seq<usize>>
    decreases pipes.len(),
{
    if pipes.len() == 0 {
        Seq::empty()
    } else if pipes.last().0 == label {
        scheduled_for(pipes.drop_last(), label).push(pipes.last().1)
    } else {
        scheduled_for(pipes.drop_last(), label)
    }
}

impl<E> SagaView<E> {
    /// Well-formedness: there is one handler list per channel, every
    /// registered handler targets existing channels, and every scheduled
    /// dispatch unit drains an existing channel.
    pub open spec fn wf(self) -> bool {
        &&& self.channels.len() == self.handlers.len()
        &&& reg_wf(self.handlers, self.channels.len() as int)
        &&& pipes_wf(self.pipelines, self.channels.len() as int)
    }
}

/// Pads a registry table with empty rows until it has at least `n` rows.
pub open spec fn grown<T>(s: Seq<Seq<T>>, n: int) -> Seq<Seq<T>> {
    if s.len() >= n {
        s
    } else {
        s + Seq::new((n - s.len()) as nat, |i: int| Seq::empty())
    }
}

/// The largest tag in `s`, or `0` for an empty `s`.
pub open spec fn seq_max(s: Seq<usize>) -> nat
    decreases s.len(),
{
    if s.len() == 0 {
        0
    } else if s.last() as nat > seq_max(s.drop_last()) {
        s.last() as nat
    } else {
        seq_max(s.drop_last())
    }
}

/// No element of a sequence exceeds its maximum.
pub proof fn lemma_seq_max_bound(s: Seq<usize>)
    ensures
        forall|i: int| 0 <= i < s.len() ==> (#[trigger] s[i]) as nat <= seq_max(s),
    decreases s.len(),
{
    if s.len() > 0 {
        lemma_seq_max_bound(s.drop_last());
        assert(forall|i: int| 0 <= i < s.len() - 1 ==> s[i] == s.drop_last()[i]);
    }
}

/// The number of channels registering a handler of this kind on `tag` must
/// bring into existence: one past the largest channel it touches.
pub open spec fn needed(tag: usize, kind: KindView) -> int {
    if tag as nat > seq_max(kind_targets(kind)) {
        tag as int + 1
    } else {
        seq_max(kind_targets(kind)) as int + 1
    }
}

/// Registering one handler: the tables grow to cover every channel the
/// handler touches — channels are created lazily, on first registration —
/// and the handler is appended to `tag`'s list. Appending is the whole
/// effect on the list: registering against a tag twice extends the existing
/// list, it never replaces it.
pub open spec fn register_one<E>(v: SagaView<E>, tag: usize, h: HandlerView) -> SagaView<E> {
    let n = needed(tag, h.kind);
    let chs = grown(v.channels, n);
    let reg = grown(v.handlers, n);
    SagaView {
        channels: chs,
        handlers: reg.update(tag as int, reg[tag as int].push(h)),
        pipelines: v.pipelines,
    }
}

/// Registering a stage's handlers, in order, against the stage's input tag.
pub open spec fn register_handlers<E>(
    v: SagaView<E>,
    tag: usize,
    hs: Seq<HandlerView>,
) -> SagaView<E>
    decreases hs.len(),
{
    if hs.len() == 0 {
        v
    } else {
        register_handlers(register_one(v, tag, hs[0]), tag, hs.drop_first())
    }
}

/// Growing both tables in step: the channels and handler lists reach at
/// least `n` rows.
pub open spec fn tables_grown<E>(v: SagaView<E>, n: int) -> SagaView<E> {
    SagaView {
        channels: grown(v.channels, n),
        handlers: grown(v.handlers, n),
        pipelines: v.pipelines,
    }
}

/// Registering one stage: its input channel comes into existence — the
/// stage's dispatch unit will drain it — and then each of its handlers is
/// registered against that channel, in order.
pub open spec fn register_stage<E>(v: SagaView<E>, s: StageView) -> SagaView<E> {
    register_handlers(tables_grown(v, s.input as int + 1), s.input, s.handlers)
}

/// Registering every stage of a chain, front to back.
pub open spec fn register_stages<E>(v: SagaView<E>, stages: Seq<StageView>) -> SagaView<E>
    decreases stages.len(),
{
    if stages.len() == 0 {
        v
    } else {
        register_stages(register_stage(v, stages[0]), stages.drop_first())
    }
}

/// The input tags of a chain's stages, in order: the dispatch units the
/// chain schedules, and the order they run in within a tick.
pub open spec fn stage_inputs(stages: Seq<StageView>) -> Seq<usize> {
    stages.map_values(|s: StageView| s.input)
}

/// Registering a whole chain under a schedule point: every stage's
/// handlers enter the registry, and the chain's tag order is appended to
/// the schedule as one pipeline of that schedule point.
pub open spec fn register_chain<E>(v: SagaView<E>, label: u64, c: ChainView) -> SagaView<E> {
    let v1 = register_stages(v, c.stages);
    SagaView {
        channels: v1.channels,
        handlers: v1.handlers,
        pipelines: v1.pipelines.push((label, stage_inputs(c.stages))),
    }
}

/// Queueing one event: the channel tables grow to cover `tag` — a write
/// creates the channel it needs — and the value is appended to `tag`'s
/// channel. Writes are never coalesced: writing the same value twice queues
/// it twice.
pub open spec fn queued<E>(v: SagaView<E>, tag: usize, value: E) -> SagaView<E> {
    let n = tag as int + 1;
    let chs = grown(v.channels, n);
    SagaView {
        channels: chs.update(tag as int, chs[tag as int].push(value)),
        handlers: grown(v.handlers, n),
        pipelines: v.pipelines,
    }
}

/// The composition root's pipeline registry: owns the per-tag event
/// channels, the per-tag handler lists and the derived schedule, and runs
/// them one tick at a time. Channel tags play the role of event types;
/// handlers are opaque references interpreted by the host's [`SagaRunner`].
pub struct SagaRegistry<E> {
    channels: Vec<Vec<E>>,
    handlers: Vec<Vec<HandlerRef>>,
    pipelines: Vec<(u64, Vec<usize>)>,
}

impl<E> View for SagaRegistry<E> {
    type V = SagaView<E>;

    closed spec fn view(&self) -> SagaView<E> {
        SagaView {
            channels: cview(self.channels),
            handlers: rview(self.handlers),
            pipelines: pview(self.pipelines),
        }
    }
}

impl<E: SagaEvent> SagaRegistry<E> {
    /// An empty registry: no channels, no handlers, no schedule.
    pub fn new() -> (s: SagaRegistry<E>)
        ensures
            s@ == (SagaView::<E> {
                channels: Seq::empty(),
                handlers: Seq::empty(),
                pipelines: Seq::empty(),
            }),
            s@.wf(),
    {
        let s = SagaRegistry { channels: Vec::new(), handlers: Vec::new(), pipelines: Vec::new() };
        proof {
            assert(s@ =~~= (SagaView::<E> {
                channels: Seq::empty(),
                handlers: Seq::empty(),
                pipelines: Seq::empty(),
            }));
        }
        s
    }

    /// Grows both tables so that at least `need + 1` channels exist.
    fn ensure_channel(&mut self, need: usize)
        requires
            old(self)@.channels.len() == old(self)@.handlers.len(),
        ensures
            final(self)@.channels == grown(old(self)@.channels, need as int + 1),
            final(self)@.handlers == grown(old(self)@.handlers, need as int + 1),
            final(self)@.pipelines == old(self)@.pipelines,
    {
        let ghost pre = self@;
        while self.channels.len() <= need
            invariant
                self@.channels.len() >= pre.channels.len(),
                self@.channels.len() <= if pre.channels.len() > need as int + 1 {
                    pre.channels.len() as int
                } else {
                    need as int + 1
                },
                self@.channels == grown(pre.channels, self@.channels.len() as int),
                self@.handlers == grown(pre.handlers, self@.channels.len() as int),
                self@.pipelines == pre.pipelines,
                self@.channels.len() == self@.handlers.len(),
            decreases need + 1 - self.channels.len(),
        {
            let ghost len0 = self@.channels.len() as int;
            let ghost snap_c = self@.channels;
            let ghost snap_h = self@.handlers;
            self.channels.push(Vec::new());
            self.handlers.push(Vec::new());
            proof {
                assert(self@.channels.len() == len0 + 1);
                assert(grown(pre.channels, len0 + 1).len() == len0 + 1);
                assert forall|i: int|
                    0 <= i < len0 + 1 implies #[trigger] self@.channels[i] == grown(
                        pre.channels,
                        len0 + 1,
                    )[i] by {
                    if i < len0 {
                        assert(self@.channels[i] == snap_c[i]);
                        assert(snap_c == grown(pre.channels, len0));
                        assert(grown(pre.channels, len0)[i] == grown(pre.channels, len0 + 1)[i]);
                    } else {
                        assert(self@.channels[i] =~= Seq::<E>::empty());
                        assert(grown(pre.channels, len0 + 1)[i] =~= Seq::<E>::empty());
                    }
                }
                assert(self@.channels =~= grown(pre.channels, len0 + 1));
                assert(self@.handlers.len() == len0 + 1);
                assert(grown(pre.handlers, len0 + 1).len() == len0 + 1);
                assert forall|i: int|
                    0 <= i < len0 + 1 implies #[trigger] self@.handlers[i] == grown(
                        pre.handlers,
                        len0 + 1,
                    )[i] by {
                    if i < len0 {
                        assert(self@.handlers[i] == snap_h[i]);
                        assert(snap_h == grown(pre.handlers, len0));
                        assert(grown(pre.handlers, len0)[i] == grown(pre.handlers, len0 + 1)[i]);
                    } else {
                        assert(self@.handlers[i] =~= Seq::<HandlerView>::empty());
                        assert(grown(pre.handlers, len0 + 1)[i] =~= Seq::<HandlerView>::empty());
                    }
                }
                assert(self@.handlers =~= grown(pre.handlers, len0 + 1));
            }
        }
        proof {
            assert(self@.channels =~= grown(pre.channels, need as int + 1));
            assert(self@.handlers =~= grown(pre.handlers, need as int + 1));
        }
    }

    /// Registers one handler reference against the event tag it consumes,
    /// creating the channel and every channel the handler targets on first
    /// use, and appending to the tag's existing handler list otherwise.
    pub fn register(&mut self, tag: usize, handler: HandlerRef)
        requires
            old(self)@.wf(),
        ensures
            final(self)@ == register_one(old(self)@, tag, handler@),
            final(self)@.wf(),
            final(self)@.channels.len() >= old(self)@.channels.len(),
            final(self)@.channels.len() > tag,
            final(self)@.pipelines == old(self)@.pipelines,
    {
        let ghost pre = self@;
        let mut need = tag;
        match &handler.kind {
            HandlerKind::Terminal => {},
            HandlerKind::Processor { out } => {
                if *out > need {
                    need = *out;
                }
            },
            HandlerKind::OptionFilter { out } => {
                if *out > need {
                    need = *out;
                }
            },
            HandlerKind::ResultSplit { ok, err } => {
                if *ok > need {
                    need = *ok;
                }
                if *err > need {
                    need = *err;
                }
            },
            HandlerKind::Router { outs } => {
                let m = outs.len();
                let mut idx: usize = 0;
                while idx < m
                    invariant
                        idx <= m,
                        m == outs@.len(),
                        need as nat == if tag as nat > seq_max(outs@.take(idx as int)) {
                            tag as nat
                        } else {
                            seq_max(outs@.take(idx as int))
                        },
                    decreases m - idx,
                {
                    proof {
                        assert(outs@.take(idx + 1).drop_last() =~= outs@.take(idx as int));
                        assert(outs@.take(idx + 1).last() == outs@[idx as int]);
                    }
                    if outs[idx] > need {
                        need = outs[idx];
                    }
                    idx += 1;
                }
                proof {
                    assert(outs@.take(m as int) =~= outs@);
                }
            },
        }
        proof {
            let k = handler@.kind;
            assert(seq_max(Seq::<usize>::empty()) == 0);
            match k {
                KindView::Terminal => {
                    assert(kind_targets(k) =~= Seq::<usize>::empty());
                },
                KindView::Processor { out } => {
                    assert(kind_targets(k) =~= seq![out]);
                    assert(seq![out].drop_last() =~= Seq::<usize>::empty());
                    assert(seq_max(seq![out]) == out);
                },
                KindView::OptionFilter { out } => {
                    assert(kind_targets(k) =~= seq![out]);
                    assert(seq![out].drop_last() =~= Seq::<usize>::empty());
                    assert(seq_max(seq![out]) == out);
                },
                KindView::ResultSplit { ok, err } => {
                    assert(kind_targets(k) =~= seq![ok, err]);
                    assert(seq![ok, err].drop_last() =~= seq![ok]);
                    assert(seq![ok].drop_last() =~= Seq::<usize>::empty());
                    assert(seq_max(seq![ok]) == ok);
                    assert(seq![ok, err].last() == err);
                },
                KindView::Router { .. } => {},
            }
            assert(need as int + 1 == needed(tag, k));
        }
        self.ensure_channel(need);
        let ghost mid = self@;
        proof {
            assert(mid.handlers.len() >= need as int + 1);
            assert(tag < self.handlers@.len());
        }
        let mut row = self.handlers.remove(tag);
        row.push(handler);
        self.handlers.insert(tag, row);
        proof {
            assert(self@.handlers =~~= mid.handlers.update(
                tag as int,
                mid.handlers[tag as int].push(handler@),
            ));
            assert(self@.channels == mid.channels);
            assert(self@.pipelines == mid.pipelines);
            assert(self@ =~~= register_one(pre, tag, handler@));
            lemma_register_one_wf(pre, tag, handler@);
        }
    }

    /// Registers a fully composed chain under a named schedule point:
    /// every stage's handlers enter the per-tag registry, and the chain's
    /// stage order is recorded as one pipeline of dispatch units of that
    /// schedule point, so that each stage's unit runs after the previous
    /// stage's within a tick of it. The schedule point is an opaque label;
    /// the host decides which tick phase runs which label. The chain is
    /// consumed: after registration its effect lives entirely in the
    /// registry.
    pub fn register_pipeline(&mut self, schedule_point: u64, chain: Chain)
        requires
            old(self)@.wf(),
        ensures
            final(self)@ == register_chain(old(self)@, schedule_point, chain@),
            final(self)@.wf(),
    {
        let ghost pre = self@;
        let ghost cv = chain@;
        let ghost goal = register_stages(pre, cv.stages);
        let Chain { input: _, output: _, mut stages } = chain;
        let mut tags: Vec<usize> = Vec::new();
        while stages.len() > 0
            invariant
                register_stages(self@, stages@.map_values(|s: Stage| s@)) == goal,
                tags@ =~= stage_inputs(cv.stages).take(cv.stages.len() - stages@.len()),
                stages@.len() <= cv.stages.len(),
                stages@.map_values(|s: Stage| s@) =~= cv.stages.skip(
                    cv.stages.len() - stages@.len(),
                ),
                self@.wf(),
                forall|x: int|
                    0 <= x < tags@.len() ==> (#[trigger] tags@[x]) < self@.channels.len(),
            decreases stages.len(),
        {
            let ghost before = stages@.map_values(|s: Stage| s@);
            let ghost v_start = self@;
            let st = stages.remove(0);
            proof {
                assert(stages@.map_values(|s: Stage| s@) =~= before.drop_first());
                assert(st@ == before[0]);
            }
            tags.push(st.input);
            self.ensure_channel(st.input);
            proof {
                assert(self@ =~~= tables_grown(v_start, st@.input as int + 1));
                lemma_grown_wf(v_start, st@.input as int + 1);
                assert(self@.wf());
                assert(self@.channels.len() > st@.input);
                assert(self@.channels.len() >= v_start.channels.len());
            }
            let ghost hgoal = register_handlers(self@, st@.input, st@.handlers);
            proof {
                assert(register_stage(v_start, st@) == hgoal);
            }
            let mut hs = st.handlers;
            while hs.len() > 0
                invariant
                    register_handlers(
                        self@,
                        st@.input,
                        hs@.map_values(|h: HandlerRef| h@),
                    ) == hgoal,
                    self@.wf(),
                    forall|x: int|
                        0 <= x < tags@.len() ==> (#[trigger] tags@[x]) < self@.channels.len(),
                decreases hs.len(),
            {
                let ghost hbefore = hs@.map_values(|h: HandlerRef| h@);
                let h = hs.remove(0);
                proof {
                    assert(hs@.map_values(|x: HandlerRef| x@) =~= hbefore.drop_first());
                    assert(h@ == hbefore[0]);
                }
                self.register(st.input, h);
            }
            proof {
                assert(hs@.map_values(|h: HandlerRef| h@) =~= Seq::<HandlerView>::empty());
                assert(self@ == hgoal);
                assert(tags@ =~= stage_inputs(cv.stages).take(
                    cv.stages.len() - stages@.len(),
                ));
            }
        }
        proof {
            assert(stages@.map_values(|s: Stage| s@) =~= Seq::<StageView>::empty());
            assert(self@ == goal);
            assert(tags@ =~= stage_inputs(cv.stages));
        }
        let ghost before_push = self@;
        self.pipelines.push((schedule_point, tags));
        proof {
            assert(self@.pipelines =~= before_push.pipelines.push((schedule_point, tags@)));
            assert(self@.channels == before_push.channels);
            assert(self@.handlers == before_push.handlers);
            assert(self@ =~~= register_chain(pre, schedule_point, cv));
        }
    }

    /// Enqueues a value into its tag's channel, creating the channel if it
    /// does not exist yet. May be called from outside any stage — the
    /// external trigger of a pipeline — or by the host from within one.
    /// An event written to a channel that never gains a handler or a
    /// scheduled unit simply stays queued and is silently discarded from
    /// the pipeline's point of view; no error is raised.
    pub fn write_event(&mut self, tag: usize, value: E)
        requires
            old(self)@.wf(),
        ensures
            final(self)@ == queued(old(self)@, tag, value),
            final(self)@.wf(),
    {
        let ghost pre = self@;
        self.ensure_channel(tag);
        let ghost mid = self@;
        push_channel(&mut self.channels, tag, value);
        proof {
            assert(tag < mid.channels.len());
            assert(self@.channels =~= mid.channels.update(
                tag as int,
                mid.channels[tag as int].push(value),
            ));
            assert(self@ =~~= queued(pre, tag, value));
            lemma_grown_wf(pre, tag as int + 1);
            let g = tables_grown(pre, tag as int + 1);
            assert(g.wf());
            assert(self@.channels.len() == g.channels.len());
            assert(self@.handlers == g.handlers);
            assert(self@.pipelines == g.pipelines);
            assert(self@.wf());
        }
    }

    /// Drains one tag's channel and delivers every drained event to every
    /// handler registered for it, in registration order, handing each
    /// invocation to the host's `runner` and logging it. A drain of an
    /// empty or unknown channel is a no-op. The log replays exactly:
    /// see [`replay_unit`].
    pub fn drain_and_dispatch<R: SagaRunner<E>>(&mut self, tag: usize, runner: &mut R) -> (log:
        Vec<Invocation<E>>)
        requires
            old(self)@.wf(),
        ensures
            final(self)@.wf(),
            final(self)@.handlers == old(self)@.handlers,
            final(self)@.pipelines == old(self)@.pipelines,
            final(self)@.channels.len() == old(self)@.channels.len(),
            replay_unit(old(self)@.channels, tag, old(self)@.handlers, log@) == Some(
                (final(self)@.channels, Seq::<Invocation<E>>::empty()),
            ),
    {
        let log = dispatch_unit(&mut self.channels, &self.handlers, tag, runner);
        proof {
            assert(self@.handlers == old(self)@.handlers);
            assert(self@.pipelines == old(self)@.pipelines);
            assert(self@.wf());
        }
        log
    }

    /// Runs one tick of a schedule point: every pipeline registered under
    /// it, pipelines in registration order, each pipeline's units front to
    /// back, so that an event written before the tick reaches every
    /// downstream stage of its chain within this tick. Pipelines under
    /// other schedule points do not run. Returns the full invocation log;
    /// the log and the contract of [`replay_all`] pin the new channel
    /// contents and the exact sequence of deliveries for whatever the host
    /// reported.
    pub fn run_tick<R: SagaRunner<E>>(&mut self, schedule_point: u64, runner: &mut R) -> (log:
        Vec<Invocation<E>>)
        requires
            old(self)@.wf(),
        ensures
            final(self)@.wf(),
            final(self)@.handlers == old(self)@.handlers,
            final(self)@.pipelines == old(self)@.pipelines,
            final(self)@.channels.len() == old(self)@.channels.len(),
            replay_all(
                old(self)@.channels,
                scheduled_for(old(self)@.pipelines, schedule_point),
                old(self)@.handlers,
                log@,
            ) == Some((final(self)@.channels, Seq::<Invocation<E>>::empty())),
    {
        let ghost c0 = self@.channels;
        let ghost pipes = self@.pipelines;
        let ghost reg = self@.handlers;
        let mut log: Vec<Invocation<E>> = Vec::new();
        let np = self.pipelines.len();
        let mut p: usize = 0;
        while p < np
            invariant
                p <= np,
                np == pipes.len(),
                self@.handlers == reg,
                self@.pipelines == pipes,
                self@.wf(),
                self@.channels.len() == c0.len(),
                replay_all(c0, scheduled_for(pipes.take(p as int), schedule_point), reg, log@)
                    == Some((self@.channels, Seq::<Invocation<E>>::empty())),
            decreases np - p,
        {
            let ghost c_pipe = self@.channels;
            let ghost log_pipe = log@;
            let entry = &self.pipelines[p];
            let label = entry.0;
            let nt = entry.1.len();
            proof {
                assert(pipes[p as int].0 == label);
                assert(pipes[p as int].1.len() == nt);
                assert(pipes.take(p + 1).drop_last() =~= pipes.take(p as int));
                assert(pipes.take(p + 1).last() == pipes[p as int]);
            }
            if label == schedule_point {
                let mut k: usize = 0;
                while k < nt
                    invariant
                        k <= nt,
                        p < pipes.len(),
                        nt == pipes[p as int].1.len(),
                        self@.handlers == reg,
                        self@.pipelines == pipes,
                        self@.wf(),
                        self@.channels.len() == c0.len(),
                        log_pipe.len() <= log@.len(),
                        log_pipe =~= log@.take(log_pipe.len() as int),
                        replay_all(
                            c0,
                            scheduled_for(pipes.take(p as int), schedule_point),
                            reg,
                            log_pipe,
                        ) == Some((c_pipe, Seq::<Invocation<E>>::empty())),
                        replay_pipe(
                            c_pipe,
                            pipes[p as int].1.take(k as int),
                            reg,
                            log@.skip(log_pipe.len() as int),
                        ) == Some((self@.channels, Seq::<Invocation<E>>::empty())),
                    decreases nt - k,
                {
                    let prow = &self.pipelines[p];
                    let t = prow.1[k];
                    proof {
                        assert(pipes[p as int].1[k as int] == t);
                    }
                    let ghost c_before = self@.channels;
                    let ghost mid = log@.skip(log_pipe.len() as int);
                    let mut part = dispatch_unit(&mut self.channels, &self.handlers, t, runner);
                    let ghost part_snap = part@;
                    log.append(&mut part);
                    proof {
                        lemma_replay_pipe_extend(
                            c_pipe,
                            pipes[p as int].1.take(k as int),
                            reg,
                            mid,
                            part_snap,
                            c_before,
                            Seq::empty(),
                        );
                        assert(pipes[p as int].1.take(k + 1).drop_last() =~= pipes[
                            p as int].1.take(k as int));
                        assert(pipes[p as int].1.take(k + 1).last() == pipes[p as int].1[
                            k as int]);
                        assert(log@.skip(log_pipe.len() as int) =~= mid + part_snap);
                        assert(log_pipe =~= log@.take(log_pipe.len() as int));
                        assert(replay_pipe(
                            c_pipe,
                            pipes[p as int].1.take(k + 1),
                            reg,
                            log@.skip(log_pipe.len() as int),
                        ) == Some((self@.channels, Seq::<Invocation<E>>::empty())));
                    }
                    k += 1;
                }
                proof {
                    assert(pipes[p as int].1.take(nt as int) =~= pipes[p as int].1);
                    let suffix = log@.skip(log_pipe.len() as int);
                    lemma_replay_all_extend(
                        c0,
                        scheduled_for(pipes.take(p as int), schedule_point),
                        reg,
                        log_pipe,
                        suffix,
                        c_pipe,
                        Seq::empty(),
                    );
                    assert(log_pipe + suffix =~= log@);
                    let sched = scheduled_for(pipes.take(p + 1), schedule_point);
                    assert(sched == scheduled_for(pipes.take(p as int), schedule_point).push(
                        pipes[p as int].1,
                    ));
                    assert(sched.drop_last() =~= scheduled_for(
                        pipes.take(p as int),
                        schedule_point,
                    ));
                    assert(sched.last() == pipes[p as int].1);
                    assert(replay_all(c0, sched, reg, log@) == Some(
                        (self@.channels, Seq::<Invocation<E>>::empty()),
                    ));
                }
            } else {
                proof {
                    assert(scheduled_for(pipes.take(p + 1), schedule_point) == scheduled_for(
                        pipes.take(p as int),
                        schedule_point,
                    ));
                }
            }
            p += 1;
        }
        proof {
            assert(pipes.take(np as int) =~= pipes);
        }
        log
    }
}

/// Registering one handler preserves well-formedness: the tables grow in
/// step, and the grown length covers every channel the new handler targets.
pub proof fn lemma_register_one_wf<E>(v: SagaView<E>, tag: usize, h: HandlerView)
    requires
        v.wf(),
    ensures
        register_one(v, tag, h).wf(),
{
    let n = needed(tag, h.kind);
    let after = register_one(v, tag, h);
    lemma_seq_max_bound(kind_targets(h.kind));
    assert(after.channels.len() >= n);
    assert forall|t: int, j: int|
        0 <= t < after.handlers.len() && 0 <= j < after.handlers[t].len() implies kind_wf(
        (#[trigger] after.handlers[t][j]).kind,
        after.channels.len() as int,
    ) by {
        let reg = grown(v.handlers, n);
        if t == tag && j == after.handlers[t].len() - 1 {
            assert(after.handlers[t][j] == h);
        } else {
            assert(after.handlers[t][j] == reg[t][j]);
            if t < v.handlers.len() {
                assert(reg[t] == v.handlers[t]);
                assert(kind_wf(v.handlers[t][j].kind, v.channels.len() as int));
            } else {
                assert(reg[t].len() == 0);
            }
        }
    }
}

/// Growing the tables in step preserves well-formedness.
pub proof fn lemma_grown_wf<E>(v: SagaView<E>, n: int)
    requires
        v.wf(),
    ensures
        (SagaView::<E> {
            channels: grown(v.channels, n),
            handlers: grown(v.handlers, n),
            pipelines: v.pipelines,
        }).wf(),
{
    let after = SagaView::<E> {
        channels: grown(v.channels, n),
        handlers: grown(v.handlers, n),
        pipelines: v.pipelines,
    };
    assert forall|t: int, j: int|
        0 <= t < after.handlers.len() && 0 <= j < after.handlers[t].len() implies kind_wf(
        (#[trigger] after.handlers[t][j]).kind,
        after.channels.len() as int,
    ) by {
        if t < v.handlers.len() {
            assert(after.handlers[t] == v.handlers[t]);
            assert(kind_wf(v.handlers[t][j].kind, v.channels.len() as int));
        } else {
            assert(after.handlers[t].len() == 0);
        }
    }
}

} // verus!
