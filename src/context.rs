use vstd::prelude::*;

use std::time::Duration;

use crate::event::{Event, Size};
use crate::layer::{
    distinct_ids, index_in, lemma_dispatch_order_distinct, reversed, Layer, LayerId, LayerStack,
};

verus! {

/// What a hook handed to one hook call: the time since the last frame, and the
/// requests that the hook made of the host.
pub struct LayerContext {
    delta_time: Duration,
    exit_sink: bool,
    exit_requested: bool,
    resize_request: Option<Size>,
}

impl LayerContext {
    /// Whether an exit request has somewhere to go.
    pub closed spec fn has_exit_sink(&self) -> bool {
        self.exit_sink
    }

    pub closed spec fn exit_requested_spec(&self) -> bool {
        self.exit_requested
    }

    pub closed spec fn resize_request_spec(&self) -> Option<Size> {
        self.resize_request
    }

    pub closed spec fn delta_time_spec(&self) -> Duration {
        self.delta_time
    }

    /// A fresh context with no request made. Without an exit sink, as during
    /// setup before the loop runs, `exit` is a no-op.
    pub fn new(delta_time: Duration, exit_sink: bool) -> (r: LayerContext)
        ensures
            r.delta_time_spec() == delta_time,
            r.has_exit_sink() == exit_sink,
            !r.exit_requested_spec(),
            r.resize_request_spec().is_none(),
    {
        LayerContext { delta_time, exit_sink, exit_requested: false, resize_request: None }
    }

    pub fn delta_time(&self) -> (r: Duration)
        ensures
            r == self.delta_time_spec(),
    {
        self.delta_time
    }

    /// Asks the host to leave its loop at the end of the current iteration.
    pub fn exit(&mut self)
        ensures
            final(self).exit_requested_spec() == (old(self).exit_requested_spec()
                || old(self).has_exit_sink()),
            final(self).has_exit_sink() == old(self).has_exit_sink(),
            final(self).resize_request_spec() == old(self).resize_request_spec(),
            final(self).delta_time_spec() == old(self).delta_time_spec(),
    {
        if self.exit_sink {
            self.exit_requested = true;
        }
    }

    /// Asks the host to resize its surface; the last request of a hook wins.
    pub fn resize(&mut self, size: Size)
        ensures
            final(self).resize_request_spec() == Some(size),
            final(self).exit_requested_spec() == old(self).exit_requested_spec(),
            final(self).has_exit_sink() == old(self).has_exit_sink(),
            final(self).delta_time_spec() == old(self).delta_time_spec(),
    {
        self.resize_request = Some(size);
    }

    pub fn has_exit_sink_exec(&self) -> (r: bool)
        ensures
            r == self.has_exit_sink(),
    {
        self.exit_sink
    }

    pub fn exit_requested(&self) -> (r: bool)
        ensures
            r == self.exit_requested_spec(),
    {
        self.exit_requested
    }

    pub fn resize_request(&self) -> (r: Option<Size>)
        ensures
            r == self.resize_request_spec(),
    {
        self.resize_request
    }
}

/// The hooks of a layer.
#[derive(Copy, Clone, Debug, PartialEq, Eq, Structural)]
pub enum HookKind {
    Attach,
    Detach,
    Update,
    Event,
}

/// One event handed to the entry `id`, and whether it reported it handled.
#[derive(Copy, Clone, Debug, PartialEq, Eq, Structural)]
pub struct EventReply {
    pub id: LayerId,
    pub event: Event,
    pub handled: bool,
}

/// One call of a hook on the entry with handle `id`.
#[derive(Copy, Clone, Debug, PartialEq, Eq, Structural)]
pub struct HookCall {
    pub id: LayerId,
    pub kind: HookKind,
}

/// The hooks called on the entry `id`, in the order of `log`.
pub open spec fn hooks_of(log: Seq<HookCall>, id: LayerId) -> Seq<HookKind>
    decreases log.len(),
{
    if log.len() == 0 {
        Seq::empty()
    } else if log.last().id == id {
        hooks_of(log.drop_last(), id).push(log.last().kind)
    } else {
        hooks_of(log.drop_last(), id)
    }
}

/// The hooks of an entry that is in the stack: one attach, then only updates
/// and events.
pub open spec fn live_hooks(h: Seq<HookKind>) -> bool {
    &&& h.len() >= 1
    &&& h[0] == HookKind::Attach
    &&& forall|i: int| 1 <= i < h.len() ==> #[trigger] h[i] == HookKind::Update || h[i] == HookKind::Event
}

/// The hooks of an entry that was removed: one attach, then only updates and
/// events, and last one detach.
pub open spec fn closed_hooks(h: Seq<HookKind>) -> bool {
    &&& h.len() >= 2
    &&& live_hooks(h.drop_last())
    &&& h.last() == HookKind::Detach
}

pub proof fn lemma_hooks_of_push(log: Seq<HookCall>, c: HookCall, id: LayerId)
    ensures
        hooks_of(log.push(c), id) == if c.id == id {
            hooks_of(log, id).push(c.kind)
        } else {
            hooks_of(log, id)
        },
{
    assert(log.push(c).drop_last() == log);
}

pub proof fn lemma_prefix_push(s: Seq<HookCall>, c: HookCall)
    ensures
        s.is_prefix_of(s.push(c)),
{
    assert(s =~= s.push(c).subrange(0, s.len() as int));
}

pub proof fn lemma_prefix_refl(s: Seq<HookCall>)
    ensures
        s.is_prefix_of(s),
{
    assert(s =~= s.subrange(0, s.len() as int));
}

/// The log agrees with the stack: entries in the stack, and the entry `out`
/// that is taken out while one of its hooks runs, are live; every other entry
/// was never attached or has been detached; handles not yet handed out have
/// seen no hook.
pub open spec fn lifecycle_ok<L>(log: Seq<HookCall>, stack: LayerStack<L>, out: Option<LayerId>) -> bool {
    &&& out.is_some() ==> !stack.contains(out.unwrap()) && 1 <= out.unwrap()@ < stack.next_id()
        && stack.ids().len() + 1 < stack.next_id()
    &&& forall|id: LayerId|
        (stack.contains(id) || out == Some(id)) ==> live_hooks(#[trigger] hooks_of(log, id))
    &&& forall|id: LayerId|
        !(stack.contains(id) || out == Some(id)) ==> (#[trigger] hooks_of(log, id) =~= Seq::empty()
            || closed_hooks(hooks_of(log, id)))
    &&& forall|id: LayerId| id@ >= stack.next_id() ==> #[trigger] hooks_of(log, id) =~= Seq::empty()
    &&& forall|id: LayerId| 1 <= id@ < stack.next_id() ==> #[trigger] hooks_of(log, id).len() > 0
}

/// The entries of `log` from index `from` on are attaches and detaches only.
pub open spec fn only_lifecycle(log: Seq<HookCall>, from: int) -> bool {
    forall|i: int| from <= i < log.len() ==> (#[trigger] log[i]).kind == HookKind::Attach
        || log[i].kind == HookKind::Detach
}

/// The entries that were handed an event, in order, among the calls of `log`
/// from index `from` on.
pub open spec fn event_ids_from(log: Seq<HookCall>, from: int) -> Seq<LayerId>
    decreases log.len(),
{
    if log.len() <= from || log.len() == 0 {
        Seq::empty()
    } else if log.last().kind == HookKind::Event {
        event_ids_from(log.drop_last(), from).push(log.last().id)
    } else {
        event_ids_from(log.drop_last(), from)
    }
}

/// `ev` is `order` with some entries left out, all of them taken from the
/// first `upto` of `order`.
pub open spec fn in_order_within(ev: Seq<LayerId>, order: Seq<LayerId>, upto: int) -> bool {
    exists|pos: Seq<int>| #[trigger] positions_of(pos, ev, order, upto)
}

pub open spec fn positions_of(pos: Seq<int>, ev: Seq<LayerId>, order: Seq<LayerId>, upto: int) -> bool {
    &&& pos.len() == ev.len()
    &&& forall|j: int| 0 <= j < pos.len() ==> 0 <= #[trigger] pos[j] < upto && pos[j] < order.len()
        && order[pos[j]] == ev[j]
    &&& forall|i: int, j: int| 0 <= i < j < pos.len() ==> pos[i] < pos[j]
}

pub proof fn lemma_event_ids_push(log: Seq<HookCall>, c: HookCall, from: int)
    requires
        0 <= from <= log.len(),
    ensures
        event_ids_from(log.push(c), from) == if c.kind == HookKind::Event {
            event_ids_from(log, from).push(c.id)
        } else {
            event_ids_from(log, from)
        },
{
    assert(log.push(c).drop_last() == log);
}

/// Attaches and detaches appended to a log hand no entry an event.
pub proof fn lemma_event_ids_lifecycle(s: Seq<HookCall>, t: Seq<HookCall>, from: int)
    requires
        0 <= from <= s.len(),
        s.is_prefix_of(t),
        only_lifecycle(t, s.len() as int),
    ensures
        event_ids_from(t, from) == event_ids_from(s, from),
    decreases t.len(),
{
    if t.len() > s.len() {
        let u = t.drop_last();
        assert(s =~= u.subrange(0, s.len() as int));
        assert forall|i: int| s.len() <= i < u.len() implies (#[trigger] u[i]).kind == HookKind::Attach
            || u[i].kind == HookKind::Detach by {
            assert(u[i] == t[i]);
        }
        lemma_event_ids_lifecycle(s, u, from);
        assert(t[t.len() - 1].kind != HookKind::Event);
    } else {
        assert(s =~= t);
    }
}

/// The hooks that an entry saw in a log are a prefix of those it saw in any
/// longer log.
pub proof fn lemma_hooks_prefix(s: Seq<HookCall>, t: Seq<HookCall>, id: LayerId)
    requires
        s.is_prefix_of(t),
    ensures
        hooks_of(s, id).is_prefix_of(hooks_of(t, id)),
    decreases t.len(),
{
    if t.len() > s.len() {
        let u = t.drop_last();
        assert(s =~= u.subrange(0, s.len() as int));
        lemma_hooks_prefix(s, u, id);
        let hs = hooks_of(s, id);
        let hu = hooks_of(u, id);
        if t.last().id == id {
            assert(hs =~= hu.push(t.last().kind).subrange(0, hs.len() as int));
        }
    } else {
        assert(s =~= t);
        assert(hooks_of(s, id) =~= hooks_of(t, id).subrange(0, hooks_of(s, id).len() as int));
    }
}

/// The context of one event dispatch: a frame context, and the stack, so that
/// a layer may push and pop entries while it handles the event.
pub struct EventContext<L> {
    frame: LayerContext,
    stack: LayerStack<L>,
    log: Ghost<Seq<HookCall>>,
    out: Ghost<Option<LayerId>>,
    replies: Ghost<Seq<EventReply>>,
}

impl<L> EventContext<L> {
    pub closed spec fn frame_spec(&self) -> LayerContext {
        self.frame
    }

    pub closed spec fn stack_spec(&self) -> LayerStack<L> {
        self.stack
    }

    /// Every hook called through this context so far, in order.
    pub closed spec fn log(&self) -> Seq<HookCall> {
        self.log@
    }

    /// Every event handed to an entry through this context, with its answer.
    pub closed spec fn replies(&self) -> Seq<EventReply> {
        self.replies@
    }

    /// The entry taken out of the stack while one of its own hooks runs.
    pub closed spec fn out(&self) -> Option<LayerId> {
        self.out@
    }

    pub open spec fn wf(&self) -> bool {
        &&& self.stack_spec().wf()
        &&& lifecycle_ok(self.log(), self.stack_spec(), self.out())
    }

    /// `after` is what `before` can become through the methods of this type:
    /// still well formed, its log grown by attaches and detaches only, the
    /// same entry taken out, no handle handed out again, and every handle
    /// already handed out still marked as layer or overlay as before.
    pub open spec fn follows(before: &Self, after: &Self) -> bool {
        &&& after.wf()
        &&& before.log().is_prefix_of(after.log())
        &&& after.out() == before.out()
        &&& after.replies() == before.replies()
        &&& after.stack_spec().next_id() >= before.stack_spec().next_id()
        &&& only_lifecycle(after.log(), before.log().len() as int)
        &&& forall|x: LayerId| x@ < before.stack_spec().next_id() ==> after.stack_spec().is_overlay(x)
            == before.stack_spec().is_overlay(x)
    }
}

impl<L: Layer> EventContext<L> {
    pub(crate) fn new(frame: LayerContext) -> (r: Self)
        ensures
            r.wf(),
            r.frame_spec() == frame,
            r.stack_spec().ids() == Seq::<LayerId>::empty(),
            r.stack_spec().boundary() == 0,
            r.log() == Seq::<HookCall>::empty(),
            r.out().is_none(),
    {
        let r = EventContext {
            frame,
            stack: LayerStack::new(),
            log: Ghost(Seq::empty()),
            out: Ghost(None),
            replies: Ghost(Seq::empty()),
        };
        proof {
            assert forall|id: LayerId| #[trigger] hooks_of(r.log@, id) =~= Seq::empty() by {}
        }
        r
    }

    pub fn delta_time(&self) -> (r: Duration)
        ensures
            r == self.frame_spec().delta_time_spec(),
    {
        self.frame.delta_time()
    }

    pub fn exit(&mut self)
        requires
            old(self).wf(),
        ensures
            Self::follows(old(self), final(self)),
            final(self).stack_spec() == old(self).stack_spec(),
            final(self).log() == old(self).log(),
            final(self).frame_spec().exit_requested_spec() == (
            old(self).frame_spec().exit_requested_spec() || old(self).frame_spec().has_exit_sink()),
            final(self).frame_spec().resize_request_spec() == old(
                self,
            ).frame_spec().resize_request_spec(),
            final(self).frame_spec().has_exit_sink() == old(self).frame_spec().has_exit_sink(),
            final(self).frame_spec().delta_time_spec() == old(self).frame_spec().delta_time_spec(),
    {
        self.frame.exit();
    }

    pub fn resize(&mut self, size: Size)
        requires
            old(self).wf(),
        ensures
            Self::follows(old(self), final(self)),
            final(self).stack_spec() == old(self).stack_spec(),
            final(self).log() == old(self).log(),
            final(self).frame_spec().resize_request_spec() == Some(size),
            final(self).frame_spec().exit_requested_spec() == old(
                self,
            ).frame_spec().exit_requested_spec(),
            final(self).frame_spec().has_exit_sink() == old(self).frame_spec().has_exit_sink(),
            final(self).frame_spec().delta_time_spec() == old(self).frame_spec().delta_time_spec(),
    {
        self.frame.resize(size);
    }

    pub fn stack(&self) -> (r: &LayerStack<L>)
        ensures
            *r == self.stack_spec(),
    {
        &self.stack
    }

    pub fn can_push(&self) -> (r: bool)
        ensures
            r == (self.stack_spec().next_id() < usize::MAX),
    {
        self.stack.can_push()
    }
    /// Replaces the frame, for the next dispatch or update pass.
    pub(crate) fn set_frame(&mut self, frame: LayerContext)
        requires
            old(self).wf(),
        ensures
            final(self).wf(),
            final(self).frame_spec() == frame,
            final(self).stack_spec() == old(self).stack_spec(),
            final(self).log() == old(self).log(),
            final(self).out() == old(self).out(),
            final(self).replies() == old(self).replies(),
    {
        self.frame = frame;
    }

    pub fn exit_requested(&self) -> (r: bool)
        ensures
            r == self.frame_spec().exit_requested_spec(),
    {
        self.frame.exit_requested()
    }

    pub fn resize_request(&self) -> (r: Option<Size>)
        ensures
            r == self.frame_spec().resize_request_spec(),
    {
        self.frame.resize_request()
    }

    /// Calls `on_update` on every entry in dispatch order, each with a fresh
    /// frame, and gathers the requests they made into this context's frame.
    pub(crate) fn update(&mut self)
        requires
            old(self).wf(),
            old(self).out().is_none(),
        ensures
            final(self).wf(),
            final(self).out().is_none(),
            final(self).stack_spec().ids() == old(self).stack_spec().ids(),
            final(self).stack_spec().boundary() == old(self).stack_spec().boundary(),
            final(self).stack_spec().next_id() == old(self).stack_spec().next_id(),
            final(self).log() == old(self).log() + update_calls(reversed(old(self).stack_spec().ids())),
            final(self).replies() == old(self).replies(),
            final(self).frame_spec().has_exit_sink() == old(self).frame_spec().has_exit_sink(),
            final(self).frame_spec().delta_time_spec() == old(self).frame_spec().delta_time_spec(),
            old(self).frame_spec().exit_requested_spec() ==> final(self).frame_spec().exit_requested_spec(),
            old(self).frame_spec().resize_request_spec().is_some() ==> final(self).frame_spec().resize_request_spec().is_some(),
    {
        let n = self.stack.len();
        let ghost start = *self;
        let ghost order = reversed(self.stack.ids());
        let mut k: usize = 0;
        proof {
            assert(self.log@ =~= start.log@ + update_calls(order).subrange(0, 0));
        }
        while k < n
            invariant
                self.stack.wf(),
                lifecycle_ok(self.log@, self.stack, None),
                self.out@.is_none(),
                start == *old(self),
                order == reversed(start.stack.ids()),
                n == start.stack.ids().len(),
                k <= n,
                self.stack.ids() == start.stack.ids(),
                self.stack.boundary() == start.stack.boundary(),
                self.stack.next_id() == start.stack.next_id(),
                forall|x: LayerId| self.stack.is_overlay(x) == start.stack.is_overlay(x),
                self.log@ == start.log@ + update_calls(order).subrange(0, k as int),
                self.replies@ == start.replies@,
                self.frame.has_exit_sink() == start.frame.has_exit_sink(),
                self.frame.delta_time_spec() == start.frame.delta_time_spec(),
                start.frame.exit_requested_spec() ==> self.frame.exit_requested_spec(),
                start.frame.resize_request_spec().is_some() ==> self.frame.resize_request_spec().is_some(),
            decreases n - k,
        {
            let index = n - 1 - k;
            let id = self.stack.id_at(index);
            let mut frame = LayerContext::new(self.frame.delta_time(), self.frame.has_exit_sink_exec());
            let layer = self.stack.get_mut(index);
            layer.on_update(&mut frame);
            if frame.exit_requested() {
                self.frame.exit();
            }
            match frame.resize_request() {
                Some(size) => self.frame.resize(size),
                None => {},
            }
            proof {
                let c = HookCall { id, kind: HookKind::Update };
                let old_log = self.log@;
                self.log@ = self.log@.push(c);
                lemma_logged_update(old_log, self.stack, id);
                assert(update_calls(order)[k as int] == c);
                assert(self.log@ =~= start.log@ + update_calls(order).subrange(0, k + 1));
            }
            k = k + 1;
        }
        proof {
            assert(update_calls(order).subrange(0, n as int) =~= update_calls(order));
        }
    }
    /// Calls `on_attach` on `layer` with this context's frame, then inserts it
    /// at the end of the layer region.
    pub fn push_layer(&mut self, layer: L) -> (id: LayerId)
        requires
            old(self).wf(),
            old(self).stack_spec().next_id() < usize::MAX,
        ensures
            Self::follows(old(self), final(self)),
            id@ == old(self).stack_spec().next_id(),
            final(self).stack_spec().ids() == old(self).stack_spec().ids().insert(
                old(self).stack_spec().boundary() as int,
                id,
            ),
            final(self).stack_spec().boundary() == old(self).stack_spec().boundary() + 1,
            final(self).stack_spec().next_id() == old(self).stack_spec().next_id() + 1,
            exists|l: L| final(self).stack_spec().layers() == old(self).stack_spec().layers().insert(
                old(self).stack_spec().boundary() as int,
                l,
            ),
            final(self).log() == old(self).log().push(HookCall { id, kind: HookKind::Attach }),
            final(self).replies() == old(self).replies(),
    {
        let mut layer = layer;
        layer.on_attach(&mut self.frame);
        let ghost before = *self;
        let id = self.stack.push_layer(layer);
        proof {
            self.log@ = self.log@.push(HookCall { id, kind: HookKind::Attach });
            lemma_attached(before.log@, before.stack, self.stack, id, before.stack.boundary() as int, self.out@);
            lemma_prefix_push(before.log@, HookCall { id, kind: HookKind::Attach });
        }
        id
    }

    /// Calls `on_attach` on `overlay` with this context's frame, then appends
    /// it after every other entry.
    pub fn push_overlay(&mut self, overlay: L) -> (id: LayerId)
        requires
            old(self).wf(),
            old(self).stack_spec().next_id() < usize::MAX,
        ensures
            Self::follows(old(self), final(self)),
            id@ == old(self).stack_spec().next_id(),
            final(self).stack_spec().ids() == old(self).stack_spec().ids().push(id),
            final(self).stack_spec().boundary() == old(self).stack_spec().boundary(),
            final(self).stack_spec().next_id() == old(self).stack_spec().next_id() + 1,
            exists|l: L| final(self).stack_spec().layers() == old(self).stack_spec().layers().push(l),
            final(self).log() == old(self).log().push(HookCall { id, kind: HookKind::Attach }),
            final(self).replies() == old(self).replies(),
    {
        let mut overlay = overlay;
        overlay.on_attach(&mut self.frame);
        let ghost before = *self;
        let id = self.stack.push_overlay(overlay);
        proof {
            self.log@ = self.log@.push(HookCall { id, kind: HookKind::Attach });
            assert(before.stack.ids().push(id) =~= before.stack.ids().insert(before.stack.ids().len() as int, id));
            lemma_attached(before.log@, before.stack, self.stack, id, before.stack.ids().len() as int, self.out@);
            lemma_prefix_push(before.log@, HookCall { id, kind: HookKind::Attach });
        }
        id
    }

    /// Removes the entry `id` of the layer region, calls its `on_detach` with
    /// this context's frame and hands it back; `None`, with nothing changed,
    /// where the layer region holds no such entry.
    pub fn pop_layer(&mut self, id: LayerId) -> (r: Option<L>)
        requires
            old(self).wf(),
        ensures
            Self::follows(old(self), final(self)),
            r.is_some() == old(self).stack_spec().has_layer(id),
            r.is_some() ==> final(self).log() == old(self).log().push(
                HookCall { id, kind: HookKind::Detach },
            ) && final(self).stack_spec().boundary() == old(self).stack_spec().boundary() - 1
                && final(self).stack_spec().ids() == old(self).stack_spec().ids().remove(
                index_in(old(self).stack_spec().ids(), 0, old(self).stack_spec().boundary() as int, id).unwrap(),
            ) && final(self).stack_spec().layers() == old(self).stack_spec().layers().remove(
                index_in(old(self).stack_spec().ids(), 0, old(self).stack_spec().boundary() as int, id).unwrap(),
            ),
            final(self).replies() == old(self).replies(),
            r.is_none() ==> *final(self) == *old(self),
    {
        let ghost before = *self;
        match self.stack.pop_layer(id) {
            Some(layer) => {
                let mut layer = layer;
                layer.on_detach(&mut self.frame);
                proof {
                    self.log@ = self.log@.push(HookCall { id, kind: HookKind::Detach });
                    let i = index_in(before.stack.ids(), 0, before.stack.boundary() as int, id).unwrap();
                    lemma_detached(before.log@, before.stack, self.stack, id, i, self.out@);
                    lemma_prefix_push(before.log@, HookCall { id, kind: HookKind::Detach });
                }
                Some(layer)
            },
            None => {
                proof {
                    lemma_prefix_refl(before.log@);
                }
                None
            },
        }
    }

    /// Removes the entry `id` of the overlay region, calls its `on_detach` with
    /// this context's frame and hands it back; `None`, with nothing changed,
    /// where the overlay region holds no such entry.
    pub fn pop_overlay(&mut self, id: LayerId) -> (r: Option<L>)
        requires
            old(self).wf(),
        ensures
            Self::follows(old(self), final(self)),
            r.is_some() == old(self).stack_spec().has_overlay(id),
            r.is_some() ==> final(self).log() == old(self).log().push(
                HookCall { id, kind: HookKind::Detach },
            ) && final(self).stack_spec().boundary() == old(self).stack_spec().boundary()
                && final(self).stack_spec().ids() == old(self).stack_spec().ids().remove(
                index_in(
                    old(self).stack_spec().ids(),
                    old(self).stack_spec().boundary() as int,
                    old(self).stack_spec().ids().len() as int,
                    id,
                ).unwrap(),
            ) && final(self).stack_spec().layers() == old(self).stack_spec().layers().remove(
                index_in(
                    old(self).stack_spec().ids(),
                    old(self).stack_spec().boundary() as int,
                    old(self).stack_spec().ids().len() as int,
                    id,
                ).unwrap(),
            ),
            final(self).replies() == old(self).replies(),
            r.is_none() ==> *final(self) == *old(self),
    {
        let ghost before = *self;
        match self.stack.pop_overlay(id) {
            Some(layer) => {
                let mut layer = layer;
                layer.on_detach(&mut self.frame);
                proof {
                    self.log@ = self.log@.push(HookCall { id, kind: HookKind::Detach });
                    let i = index_in(
                        before.stack.ids(),
                        before.stack.boundary() as int,
                        before.stack.ids().len() as int,
                        id,
                    ).unwrap();
                    lemma_detached(before.log@, before.stack, self.stack, id, i, self.out@);
                    lemma_prefix_push(before.log@, HookCall { id, kind: HookKind::Detach });
                }
                Some(layer)
            },
            None => {
                proof {
                    lemma_prefix_refl(before.log@);
                }
                None
            },
        }
    }
    /// Hands `event` to the entries in dispatch order, each taken out of the
    /// stack while its hook runs, until one reports it handled; returns that
    /// one. Entries popped before their turn are skipped; entries pushed
    /// during the walk are not visited.
    pub(crate) fn dispatch(&mut self, event: &Event) -> (r: Option<LayerId>)
        requires
            old(self).wf(),
            old(self).out().is_none(),
        ensures
            final(self).wf(),
            final(self).out().is_none(),
            old(self).log().is_prefix_of(final(self).log()),
            final(self).stack_spec().next_id() >= old(self).stack_spec().next_id(),
            old(self).replies().is_prefix_of(final(self).replies()),
            dispatched(
                reversed(old(self).stack_spec().ids()),
                event_ids_from(final(self).log(), old(self).log().len() as int),
                final(self).replies().subrange(old(self).replies().len() as int, final(self).replies().len() as int),
                final(self).log(),
                old(self).log().len() as int,
                *event,
                r,
            ),
    {
        let order = self.stack.dispatch_order();
        let ghost start = *self;
        let ghost l0 = self.log@.len() as int;
        let ghost r0 = self.replies@.len() as int;
        let ghost mut pos: Seq<int> = Seq::empty();
        let mut k: usize = 0;
        proof {
            lemma_prefix_refl(self.log@);
            lemma_dispatch_order_distinct(self.stack);
            assert(event_ids_from(self.log@, l0) =~= Seq::<LayerId>::empty());
            assert(self.replies@.is_prefix_of(self.replies@)) by {
                assert(self.replies@ =~= self.replies@.subrange(0, r0));
            }
        }
        while k < order.len()
            invariant
                self.wf(),
                self.out@.is_none(),
                order@ == reversed(start.stack.ids()),
                start == *old(self),
                start.log@.is_prefix_of(self.log@),
                l0 == start.log@.len(),
                self.stack.next_id() >= start.stack.next_id(),
                start.stack.wf(),
                lifecycle_ok(start.log@, start.stack, None),
                k <= order@.len(),
                positions_of(pos, event_ids_from(self.log@, l0), order@, k as int),
                distinct_ids(order@),
                walk_segments(self.log@, l0),
                events_before(self.log@, l0, order@, k as int),
                forall|p: int| 0 <= p < k ==> event_ids_from(self.log@, l0).contains(#[trigger] order@[p])
                    || detached_before_turn(self.log@, l0, order@, p),
                r0 == start.replies@.len(),
                start.replies@.is_prefix_of(self.replies@),
                replies_match(
                    event_ids_from(self.log@, l0),
                    self.replies@.subrange(r0, self.replies@.len() as int),
                    *event,
                ),
                forall|j: int| r0 <= j < self.replies@.len() ==> !(#[trigger] self.replies@[j]).handled,
            decreases order@.len() - k,
        {
            let id = order[k];
            proof {
                assert(start.stack.ids().contains(id)) by {
                    assert(start.stack.ids()[start.stack.ids().len() - 1 - k] == id);
                }
                let j = choose|j: int| 0 <= j < start.stack.ids().len() && start.stack.ids()[j] == id;
                assert(1 <= start.stack.ids()[j]@ < start.stack.next_id());
            }
            let ghost before_take = *self;
            match self.stack.take(id) {
                Some(entry) => {
                    let (layer, overlay) = entry;
                    let mut layer = layer;
                    let ghost ev0 = event_ids_from(self.log@, l0);
                    proof {
                        let c = HookCall { id, kind: HookKind::Event };
                        lemma_taken(before_take.log@, before_take.stack, self.stack, id);
                        lemma_hooks_of_push(self.log@, c, id);
                        lemma_event_ids_push(self.log@, c, l0);
                        lemma_prefix_push(self.log@, c);
                        let old_log = self.log@;
                        lemma_segments_event(old_log, l0, order@, k as int);
                        self.out@ = Some(id);
                        self.log@ = self.log@.push(c);
                        lemma_logged_event(old_log, self.stack, id);
                        pos = pos.push(k as int);
                        assert(event_ids_from(self.log@, l0) == ev0.push(id));
                    }
                    let ghost before_hook = *self;
                    let handled = layer.on_event(self, event);
                    proof {
                        let old_replies = self.replies@;
                        self.replies@ = self.replies@.push(EventReply { id, event: *event, handled });
                        assert(self.replies@.subrange(r0, self.replies@.len() as int) =~= old_replies.subrange(
                            r0,
                            old_replies.len() as int,
                        ).push(EventReply { id, event: *event, handled }));
                        assert(start.replies@ =~= self.replies@.subrange(0, r0));
                        lemma_event_ids_lifecycle(before_hook.log@, self.log@, l0);
                        lemma_hooks_prefix(before_hook.log@, self.log@, id);
                        assert(self.log@.len() >= before_hook.log@.len());
                        assert(start.log@ =~= self.log@.subrange(0, start.log@.len() as int)) by {
                            assert(start.log@ =~= before_hook.log@.subrange(0, start.log@.len() as int));
                            assert(before_hook.log@ =~= self.log@.subrange(0, before_hook.log@.len() as int));
                        }
                        assert(start.log@.is_prefix_of(self.log@));
                        lemma_segments_grow(before_hook.log@, self.log@, l0, order@, k + 1);
                        assert(before_take.log@.is_prefix_of(self.log@)) by {
                            assert(before_take.log@ =~= before_hook.log@.subrange(0, before_take.log@.len() as int));
                            assert(before_hook.log@ =~= self.log@.subrange(0, before_hook.log@.len() as int));
                            assert(before_take.log@ =~= self.log@.subrange(0, before_take.log@.len() as int));
                        }
                    }
                    self.stack.restore(id, layer, overlay);
                    proof {
                        lemma_restored(self.log@, self.stack, id);
                        self.out@ = None;
                        let ev = event_ids_from(self.log@, l0);
                        assert forall|p: int| 0 <= p < k + 1 implies ev.contains(#[trigger] order@[p])
                            || detached_before_turn(self.log@, l0, order@, p) by {
                            if p == k {
                                assert(ev[ev.len() - 1] == id);
                            } else {
                                let x = order@[p];
                                if ev0.contains(x) {
                                    let q = choose|q: int| 0 <= q < ev0.len() && ev0[q] == x;
                                    assert(ev[q] == x);
                                } else {
                                    lemma_detached_before_turn_grow(before_take.log@, self.log@, l0, order@, p);
                                }
                            }
                        }
                    }
                    if handled {
                        proof {
                            assert(positions_of(pos, event_ids_from(self.log@, l0), order@, k + 1));
                            let rs = self.replies@.subrange(r0, self.replies@.len() as int);
                            assert forall|j: int| 0 <= j < rs.len() - 1 implies !(#[trigger] rs[j]).handled by {
                                assert(rs[j] == self.replies@[r0 + j]);
                            }
                            assert(order@[k as int] == id);
                        }
                        return Some(id);
                    }
                    proof {
                        let rs = self.replies@.subrange(r0, self.replies@.len() as int);
                        assert forall|j: int| r0 <= j < self.replies@.len() implies !(
                        #[trigger] self.replies@[j]).handled by {}
                    }
                },
                None => {
                    proof {
                        let h = hooks_of(self.log@, id);
                        assert(h.len() > 0);
                        assert(closed_hooks(h));
                        assert(h[h.len() - 1] == HookKind::Detach);
                        assert(h.contains(HookKind::Detach));
                        assert(self.log@.subrange(0, l0) =~= start.log@) by {
                            lemma_prefix_index(start.log@, self.log@);
                        }
                        let h0 = hooks_of(start.log@, id);
                        assert(live_hooks(h0));
                        assert(!h0.contains(HookKind::Detach)) by {
                            if h0.contains(HookKind::Detach) {
                                let q = choose|q: int| 0 <= q < h0.len() && h0[q] == HookKind::Detach;
                                assert(h0[q] == HookKind::Update || h0[q] == HookKind::Event || q == 0);
                            }
                        }
                        lemma_hooks_origin(self.log@, id, HookKind::Detach, l0);
                        let i = choose|i: int|
                            l0 <= i < self.log@.len() && #[trigger] self.log@[i] == HookCall {
                                id,
                                kind: HookKind::Detach,
                            };
                        let sub = self.log@.subrange(0, i);
                        assert forall|i2: int, q: int|
                            l0 <= i2 < sub.len() && (#[trigger] sub[i2]).kind == HookKind::Event && 0 <= q
                                < order@.len() && #[trigger] order@[q] == sub[i2].id implies q < k by {
                            assert(sub[i2] == self.log@[i2]);
                        }
                        assert(order@[k as int] == id);
                        assert(detached_at(self.log@, l0, order@, k as int, i));
                    }
                },
            }
            k = k + 1;
        }
        proof {
            let rs = self.replies@.subrange(r0, self.replies@.len() as int);
            assert forall|j: int| 0 <= j < rs.len() implies !(#[trigger] rs[j]).handled by {
                assert(rs[j] == self.replies@[r0 + j]);
            }
        }
        None
    }
}

/// The calls logged from `from` on form one segment per notified entry: the
/// event call to that entry first, then only the attaches and detaches that
/// its hook made, up to the next event call. No update is among them.
pub open spec fn walk_segments(log: Seq<HookCall>, from: int) -> bool {
    &&& log.len() > from ==> log[from].kind == HookKind::Event
    &&& forall|i: int| from <= i < log.len() ==> (#[trigger] log[i]).kind != HookKind::Update
}

/// Every event call logged from `from` on went to an entry that stands in
/// `order` before position `k`.
pub open spec fn events_before(log: Seq<HookCall>, from: int, order: Seq<LayerId>, k: int) -> bool {
    forall|i: int, q: int|
        from <= i < log.len() && (#[trigger] log[i]).kind == HookKind::Event && 0 <= q < order.len()
            && #[trigger] order[q] == log[i].id ==> q < k
}

/// The entry `order[q]` was detached after `from`, before any event call to
/// an entry at or after position `q` of `order`: by the hook of an entry
/// before it, before its own turn came.
pub open spec fn detached_before_turn(log: Seq<HookCall>, from: int, order: Seq<LayerId>, q: int) -> bool {
    exists|i: int| #[trigger] detached_at(log, from, order, q, i)
}

/// The call at `i` detached `order[q]`, and every event call from `from` up
/// to `i` went to an entry before position `q` of `order`.
pub open spec fn detached_at(log: Seq<HookCall>, from: int, order: Seq<LayerId>, q: int, i: int) -> bool {
    &&& from <= i < log.len()
    &&& log[i] == HookCall { id: order[q], kind: HookKind::Detach }
    &&& events_before(log.subrange(0, i), from, order, q)
}

proof fn lemma_prefix_index(s: Seq<HookCall>, t: Seq<HookCall>)
    requires
        s.is_prefix_of(t),
    ensures
        forall|i: int| 0 <= i < s.len() ==> #[trigger] t[i] == s[i],
{
    assert forall|i: int| 0 <= i < s.len() implies #[trigger] t[i] == s[i] by {
        assert(s[i] == t.subrange(0, s.len() as int)[i]);
    }
}

/// A detach before an entry's turn stays so as the log grows.
proof fn lemma_detached_before_turn_grow(
    log: Seq<HookCall>,
    log2: Seq<HookCall>,
    from: int,
    order: Seq<LayerId>,
    q: int,
)
    requires
        0 <= from,
        log.is_prefix_of(log2),
        detached_before_turn(log, from, order, q),
    ensures
        detached_before_turn(log2, from, order, q),
{
    let i = choose|i: int| #[trigger] detached_at(log, from, order, q, i);
    lemma_prefix_index(log, log2);
    assert(log2[i] == log[i]);
    assert(log2.subrange(0, i) =~= log.subrange(0, i));
    assert(detached_at(log2, from, order, q, i));
}

/// Attaches and detaches appended after an event call keep the segments.
proof fn lemma_segments_grow(log: Seq<HookCall>, log2: Seq<HookCall>, from: int, order: Seq<LayerId>, k: int)
    requires
        log.is_prefix_of(log2),
        only_lifecycle(log2, log.len() as int),
        log.len() > from >= 0,
        walk_segments(log, from),
        events_before(log, from, order, k),
    ensures
        walk_segments(log2, from),
        events_before(log2, from, order, k),
{
    lemma_prefix_index(log, log2);
    assert(log2[from] == log[from]);
    assert forall|i: int| from <= i < log2.len() implies (#[trigger] log2[i]).kind != HookKind::Update by {
        if i < log.len() {
            assert(log2[i] == log[i]);
        }
    }
    assert forall|i: int, q: int|
        from <= i < log2.len() && (#[trigger] log2[i]).kind == HookKind::Event && 0 <= q < order.len()
            && #[trigger] order[q] == log2[i].id implies q < k by {
        if i < log.len() {
            assert(log2[i] == log[i]);
        }
    }
}

/// The event call to `order[k]` opens its segment.
proof fn lemma_segments_event(log: Seq<HookCall>, from: int, order: Seq<LayerId>, k: int)
    requires
        0 <= from <= log.len(),
        0 <= k < order.len(),
        distinct_ids(order),
        walk_segments(log, from),
        events_before(log, from, order, k),
    ensures
        walk_segments(log.push(HookCall { id: order[k], kind: HookKind::Event }), from),
        events_before(log.push(HookCall { id: order[k], kind: HookKind::Event }), from, order, k + 1),
{
    let c = HookCall { id: order[k], kind: HookKind::Event };
    let l2 = log.push(c);
    assert forall|i: int| from <= i < l2.len() implies (#[trigger] l2[i]).kind != HookKind::Update by {
        if i < log.len() {
            assert(l2[i] == log[i]);
        }
    }
    assert forall|i: int, q: int|
        from <= i < l2.len() && (#[trigger] l2[i]).kind == HookKind::Event && 0 <= q < order.len()
            && #[trigger] order[q] == l2[i].id implies q < k + 1 by {
        if i < log.len() {
            assert(l2[i] == log[i]);
        } else {
            assert(order[q]@ == order[k]@);
        }
    }
}

/// Where a hook sequence holds a kind that its earlier part did not, the log
/// holds a call of that kind on that entry past the earlier part.
proof fn lemma_hooks_origin(log: Seq<HookCall>, id: LayerId, k: HookKind, from: int)
    requires
        0 <= from <= log.len(),
        hooks_of(log, id).contains(k),
        !hooks_of(log.subrange(0, from), id).contains(k),
    ensures
        exists|i: int| from <= i < log.len() && #[trigger] log[i] == (HookCall { id, kind: k }),
    decreases log.len(),
{
    if log.len() == from {
        assert(log.subrange(0, from) =~= log);
    } else {
        let c = log.last();
        if c == (HookCall { id, kind: k }) {
            assert(log[log.len() - 1] == HookCall { id, kind: k });
        } else {
            let u = log.drop_last();
            let hu = hooks_of(u, id);
            let j = choose|j: int| 0 <= j < hooks_of(log, id).len() && hooks_of(log, id)[j] == k;
            if c.id == id {
                assert(hooks_of(log, id) == hu.push(c.kind));
                assert(c.kind != k);
                assert(j < hu.len());
                assert(hu[j] == k);
            } else {
                assert(hooks_of(log, id) == hu);
            }
            assert(hu.contains(k));
            assert(u.subrange(0, from) =~= log.subrange(0, from));
            lemma_hooks_origin(u, id, k, from);
            let i = choose|i: int| from <= i < u.len() && #[trigger] u[i] == HookCall { id, kind: k };
            assert(log[i] == u[i]);
        }
    }
}

/// The replies `rs` answer the entries `ev` one for one, each for `event`.
pub open spec fn replies_match(ev: Seq<LayerId>, rs: Seq<EventReply>, event: Event) -> bool {
    &&& rs.len() == ev.len()
    &&& forall|j: int| 0 <= j < rs.len() ==> (#[trigger] rs[j]).id == ev[j] && rs[j].event == event
}

/// What a dispatch of `event` over `order` has done, where `ev` are the
/// entries it handed the event to, in order, `rs` their replies, and `log`
/// the hook log whose calls from `from` on the dispatch made. Each notified
/// entry got `event`, in dispatch order; the log from `from` on is one segment
/// per notified entry. With `Some(h)`, `h` was the last one notified and the
/// only one that reported the event handled, and every entry before it in
/// `order` was notified or had been detached, by an earlier hook, before its
/// turn; none after it was notified. With `None`, no entry reported it
/// handled, and every entry of `order` was notified or had been detached
/// before its turn.
pub open spec fn dispatched(
    order: Seq<LayerId>,
    ev: Seq<LayerId>,
    rs: Seq<EventReply>,
    log: Seq<HookCall>,
    from: int,
    event: Event,
    r: Option<LayerId>,
) -> bool {
    &&& replies_match(ev, rs, event)
    &&& walk_segments(log, from)
    &&& match r {
        Some(h) => {
            &&& ev.len() > 0
            &&& ev.last() == h
            &&& rs.last().handled
            &&& forall|j: int| 0 <= j < rs.len() - 1 ==> !(#[trigger] rs[j]).handled
            &&& exists|p: int|
                0 <= p < order.len() && order[p] == h && in_order_within(ev, order, p + 1) && forall|q: int|
                    0 <= q <= p ==> ev.contains(#[trigger] order[q]) || detached_before_turn(log, from, order, q)
        },
        None => {
            &&& forall|j: int| 0 <= j < rs.len() ==> !(#[trigger] rs[j]).handled
            &&& in_order_within(ev, order, order.len() as int)
            &&& forall|p: int|
                0 <= p < order.len() ==> ev.contains(#[trigger] order[p]) || detached_before_turn(log, from, order, p)
        },
    }
}

/// Once an entry handles an event, no entry after it in dispatch order was
/// handed that event, and no entry was handed it twice.
pub proof fn lemma_short_circuit(
    order: Seq<LayerId>,
    ev: Seq<LayerId>,
    rs: Seq<EventReply>,
    log: Seq<HookCall>,
    from: int,
    event: Event,
    h: LayerId,
)
    requires
        distinct_ids(order),
        dispatched(order, ev, rs, log, from, event, Some(h)),
    ensures
        exists|p: int|
            0 <= p < order.len() && order[p] == h && forall|q: int|
                p < q < order.len() ==> !ev.contains(#[trigger] order[q]),
        distinct_ids(ev),
{
    let p = choose|p: int|
        0 <= p < order.len() && order[p] == h && in_order_within(ev, order, p + 1) && forall|q: int|
            0 <= q <= p ==> ev.contains(#[trigger] order[q]) || detached_before_turn(log, from, order, q);
    let pos = choose|pos: Seq<int>| #[trigger] positions_of(pos, ev, order, p + 1);
    assert forall|q: int| p < q < order.len() implies !ev.contains(#[trigger] order[q]) by {
        if ev.contains(order[q]) {
            let j = choose|j: int| 0 <= j < ev.len() && ev[j] == order[q];
            assert(order[pos[j]] == order[q]);
            assert(pos[j] < p + 1);
            assert(order[pos[j]]@ != order[q]@);
        }
    }
    assert forall|i: int, j: int| 0 <= i < ev.len() && 0 <= j < ev.len() && i != j implies ev[i]@
        != ev[j]@ by {
        assert(pos[i] != pos[j]);
        assert(order[pos[i]] == ev[i]);
        assert(order[pos[j]] == ev[j]);
    }
}

/// Every entry has been attached at most once, before any other hook, and
/// detached at most once, after every other hook; an entry in the stack, or
/// out of it while its own hook runs, has been attached and not detached; an
/// entry handed out and no longer there has been detached.
pub proof fn lemma_lifecycle<L>(ctx: EventContext<L>, id: LayerId)
    requires
        ctx.wf(),
    ensures
        ({
            let h = hooks_of(ctx.log(), id);
            &&& h.len() > 0 ==> h[0] == HookKind::Attach
            &&& forall|i: int| 0 < i < h.len() ==> #[trigger] h[i] != HookKind::Attach
            &&& forall|i: int| 0 <= i < h.len() - 1 ==> #[trigger] h[i] != HookKind::Detach
            &&& (ctx.stack_spec().contains(id) || ctx.out() == Some(id)) ==> h.len() > 0 && h.last()
                != HookKind::Detach
            &&& !(ctx.stack_spec().contains(id) || ctx.out() == Some(id)) && 1 <= id@ < ctx.stack_spec().next_id()
                ==> h.len() >= 2 && h.last() == HookKind::Detach
        }),
{
    let h = hooks_of(ctx.log(), id);
    if ctx.stack_spec().contains(id) || ctx.out() == Some(id) {
        assert(live_hooks(h));
        if h.len() > 1 {
            assert(h[h.len() - 1] == HookKind::Update || h[h.len() - 1] == HookKind::Event);
        }
    } else if h.len() > 0 {
        assert(closed_hooks(h));
        let d = h.drop_last();
        assert forall|i: int| 0 < i < h.len() implies #[trigger] h[i] != HookKind::Attach by {
            if i < h.len() - 1 {
                assert(h[i] == d[i]);
            }
        }
        assert forall|i: int| 0 <= i < h.len() - 1 implies #[trigger] h[i] != HookKind::Detach by {
            assert(h[i] == d[i]);
        }
    }
}

/// Taking an entry out of the stack keeps the log in agreement once that
/// entry is marked as out.
proof fn lemma_taken<L>(log: Seq<HookCall>, before: LayerStack<L>, after: LayerStack<L>, id: LayerId)
    requires
        before.wf(),
        after.wf(),
        lifecycle_ok(log, before, None),
        before.contains(id),
        after.next_id() == before.next_id(),
        forall|x: LayerId| after.contains(x) == (before.contains(x) && x != id),
        after.ids().len() + 1 == before.ids().len(),
    ensures
        lifecycle_ok(log, after, Some(id)),
{
    let j = choose|j: int| 0 <= j < before.ids().len() && before.ids()[j] == id;
    assert(1 <= before.ids()[j]@ < before.next_id());
    assert forall|x: LayerId| (after.contains(x) || Some(id) == Some(x)) == before.contains(x) by {}
}

/// An event logged for the entry that is out keeps it live.
proof fn lemma_logged_event<L>(log: Seq<HookCall>, stack: LayerStack<L>, id: LayerId)
    requires
        lifecycle_ok(log, stack, Some(id)),
    ensures
        lifecycle_ok(log.push(HookCall { id, kind: HookKind::Event }), stack, Some(id)),
{
    let c = HookCall { id, kind: HookKind::Event };
    let nl = log.push(c);
    assert forall|x: LayerId| #[trigger] hooks_of(nl, x) == if x == id {
        hooks_of(log, x).push(HookKind::Event)
    } else {
        hooks_of(log, x)
    } by {
        lemma_hooks_of_push(log, c, x);
    }
    let h = hooks_of(log, id);
    assert(live_hooks(h));
    assert(live_hooks(h.push(HookKind::Event))) by {
        assert forall|i: int| 1 <= i < h.len() + 1 implies #[trigger] h.push(HookKind::Event)[i]
            == HookKind::Update || h.push(HookKind::Event)[i] == HookKind::Event by {
            if i < h.len() {
                assert(h.push(HookKind::Event)[i] == h[i]);
            }
        }
    }
}

/// Putting back the entry that was out keeps the log in agreement.
proof fn lemma_restored<L>(log: Seq<HookCall>, after: LayerStack<L>, id: LayerId)
    requires
        after.contains(id),
        after.wf(),
        exists|before: LayerStack<L>|
            #![auto]
            lifecycle_ok(log, before, Some(id)) && after.next_id() == before.next_id() && forall|
                x: LayerId,
            | after.contains(x) == (before.contains(x) || x == id),
    ensures
        lifecycle_ok(log, after, None),
{
    let before = choose|before: LayerStack<L>|
        #![auto]
        lifecycle_ok(log, before, Some(id)) && after.next_id() == before.next_id() && forall|
            x: LayerId,
        | after.contains(x) == (before.contains(x) || x == id);
    assert forall|x: LayerId| (after.contains(x) || None::<LayerId> == Some(x)) == (before.contains(x)
        || Some(id) == Some(x)) by {}
}

/// One update call on each entry of `order`, in order.
pub open spec fn update_calls(order: Seq<LayerId>) -> Seq<HookCall> {
    Seq::new(order.len(), |i: int| HookCall { id: order[i], kind: HookKind::Update })
}

/// An update logged for an entry in the stack keeps it live.
proof fn lemma_logged_update<L>(log: Seq<HookCall>, stack: LayerStack<L>, id: LayerId)
    requires
        stack.wf(),
        lifecycle_ok(log, stack, None),
        stack.contains(id),
    ensures
        lifecycle_ok(log.push(HookCall { id, kind: HookKind::Update }), stack, None),
{
    let c = HookCall { id, kind: HookKind::Update };
    let nl = log.push(c);
    assert forall|x: LayerId| #[trigger] hooks_of(nl, x) == if x == id {
        hooks_of(log, x).push(HookKind::Update)
    } else {
        hooks_of(log, x)
    } by {
        lemma_hooks_of_push(log, c, x);
    }
    let h = hooks_of(log, id);
    assert(live_hooks(h.push(HookKind::Update))) by {
        assert forall|i: int| 1 <= i < h.len() + 1 implies #[trigger] h.push(HookKind::Update)[i]
            == HookKind::Update || h.push(HookKind::Update)[i] == HookKind::Event by {
            if i < h.len() {
                assert(h.push(HookKind::Update)[i] == h[i]);
            }
        }
    }
    let j = choose|j: int| 0 <= j < stack.ids().len() && stack.ids()[j] == id;
    assert(1 <= stack.ids()[j]@ < stack.next_id());
}

/// A fresh entry, attached and then pushed, keeps the log in agreement with
/// the stack.
proof fn lemma_attached<L>(
    log: Seq<HookCall>,
    before: LayerStack<L>,
    after: LayerStack<L>,
    id: LayerId,
    p: int,
    out: Option<LayerId>,
)
    requires
        before.wf(),
        lifecycle_ok(log, before, out),
        id@ == before.next_id(),
        after.next_id() == before.next_id() + 1,
        0 <= p <= before.ids().len(),
        after.ids() == before.ids().insert(p, id),
    ensures
        lifecycle_ok(log.push(HookCall { id, kind: HookKind::Attach }), after, out),
{
    let nl = log.push(HookCall { id, kind: HookKind::Attach });
    assert forall|x: LayerId| after.contains(x) <==> before.contains(x) || x == id by {
        if after.contains(x) {
            let j = choose|j: int| 0 <= j < after.ids().len() && after.ids()[j] == x;
            if j < p {
                assert(before.ids()[j] == x);
            } else if j > p {
                assert(before.ids()[j - 1] == x);
            }
        }
        if before.contains(x) {
            let j = choose|j: int| 0 <= j < before.ids().len() && before.ids()[j] == x;
            if j < p {
                assert(after.ids()[j] == x);
            } else {
                assert(after.ids()[j + 1] == x);
            }
        }
        if x == id {
            assert(after.ids()[p] == x);
        }
    }
    assert forall|x: LayerId| #[trigger] hooks_of(nl, x) == if x == id {
        seq![HookKind::Attach]
    } else {
        hooks_of(log, x)
    } by {
        lemma_hooks_of_push(log, HookCall { id, kind: HookKind::Attach }, x);
        if x == id {
            assert(hooks_of(log, x) =~= Seq::empty());
            assert(Seq::<HookKind>::empty().push(HookKind::Attach) =~= seq![HookKind::Attach]);
        }
    }
    assert forall|x: LayerId| (after.contains(x) || out == Some(x)) implies live_hooks(
        #[trigger] hooks_of(nl, x),
    ) by {
        if x != id {
            assert(before.contains(x) || out == Some(x));
            assert(live_hooks(hooks_of(log, x)));
        }
    }
    assert forall|x: LayerId| x@ >= after.next_id() implies #[trigger] hooks_of(nl, x) =~= Seq::empty() by {
        assert(x != id);
        assert(hooks_of(log, x) =~= Seq::empty());
    }
    assert forall|x: LayerId| !(after.contains(x) || out == Some(x)) implies (#[trigger] hooks_of(
        nl,
        x,
    ) =~= Seq::empty() || closed_hooks(hooks_of(nl, x))) by {
        assert(x != id);
        assert(!(before.contains(x) || out == Some(x)));
        assert(hooks_of(log, x) =~= Seq::empty() || closed_hooks(hooks_of(log, x)));
    }
    assert forall|x: LayerId| 1 <= x@ < after.next_id() implies #[trigger] hooks_of(nl, x).len() > 0 by {
        LayerId::lemma_view_injective(x, id);
    }
    if out.is_some() {
        let o = out.unwrap();
        assert(o != id);
    }
}

/// An entry removed and then detached keeps the log in agreement with the
/// stack.
proof fn lemma_detached<L>(
    log: Seq<HookCall>,
    before: LayerStack<L>,
    after: LayerStack<L>,
    id: LayerId,
    i: int,
    out: Option<LayerId>,
)
    requires
        before.wf(),
        after.wf(),
        lifecycle_ok(log, before, out),
        0 <= i < before.ids().len(),
        before.ids()[i] == id,
        after.ids() == before.ids().remove(i),
        after.next_id() == before.next_id(),
    ensures
        lifecycle_ok(log.push(HookCall { id, kind: HookKind::Detach }), after, out),
{
    let nl = log.push(HookCall { id, kind: HookKind::Detach });
    assert(before.contains(id));
    assert forall|x: LayerId| after.contains(x) <==> before.contains(x) && x != id by {
        if after.contains(x) {
            let j = choose|j: int| 0 <= j < after.ids().len() && after.ids()[j] == x;
            let oj = if j < i { j } else { j + 1 };
            assert(before.ids()[oj] == x);
            assert(before.ids()[oj]@ != before.ids()[i]@ || oj == i);
        }
        if before.contains(x) && x != id {
            let j = choose|j: int| 0 <= j < before.ids().len() && before.ids()[j] == x;
            assert(j != i);
            let nj = if j < i { j } else { j - 1 };
            assert(after.ids()[nj] == x);
        }
    }
    assert forall|x: LayerId| #[trigger] hooks_of(nl, x) == if x == id {
        hooks_of(log, x).push(HookKind::Detach)
    } else {
        hooks_of(log, x)
    } by {
        lemma_hooks_of_push(log, HookCall { id, kind: HookKind::Detach }, x);
    }
    assert(live_hooks(hooks_of(log, id)));
    assert(hooks_of(nl, id).drop_last() =~= hooks_of(log, id));
    assert forall|x: LayerId| (after.contains(x) || out == Some(x)) implies live_hooks(
        #[trigger] hooks_of(nl, x),
    ) by {
        if x != id {
            assert(before.contains(x) || out == Some(x));
        }
    }
    assert forall|x: LayerId| x@ >= after.next_id() implies #[trigger] hooks_of(nl, x) =~= Seq::empty() by {
        let k = before.ids()[i];
        assert(k@ < before.next_id());
        assert(x != id);
        assert(hooks_of(log, x) =~= Seq::empty());
    }
    assert forall|x: LayerId| !(after.contains(x) || out == Some(x)) implies (#[trigger] hooks_of(
        nl,
        x,
    ) =~= Seq::empty() || closed_hooks(hooks_of(nl, x))) by {
        if x != id {
            assert(!(before.contains(x) || out == Some(x)));
            assert(hooks_of(log, x) =~= Seq::empty() || closed_hooks(hooks_of(log, x)));
        }
    }
    assert forall|x: LayerId| 1 <= x@ < after.next_id() implies #[trigger] hooks_of(nl, x).len() > 0 by {
        if x != id {
            assert(hooks_of(log, x).len() > 0);
        }
    }
    if out.is_some() {
        assert(out.unwrap() != id);
    }
}

} // verus!
