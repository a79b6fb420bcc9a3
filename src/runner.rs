use vstd::prelude::*;

use std::time::Duration;

use crate::context::{
    dispatched, event_ids_from, update_calls, EventContext, EventReply, HookCall, HookKind, LayerContext,
};
use crate::event::{converted, ConversionError, Event, RawEvent, Size};
use crate::layer::{index_in, reversed, Layer, LayerId, LayerStack};

verus! {

/// Relies on `Duration::from_secs`, which never panics; nothing is known of
/// the value.
pub assume_specification[ core::time::Duration::from_secs ](secs: u64) -> Duration;

/// The host's own handlers of window events, run before the layers see them.
pub trait Application {
    /// By default, a close request asks the host to exit.
    fn on_window_close(&mut self, ctx: &mut LayerContext) {
        ctx.exit();
    }

    /// By default, a resize is ignored.
    fn on_window_resize(&mut self, ctx: &mut LayerContext, width: u32, height: u32) {
    }
}

/// What a surface reported when a frame could not be acquired.
#[derive(Copy, Clone, Debug, PartialEq, Eq, Structural)]
pub enum SurfaceError {
    Lost,
    OutOfMemory,
    Other,
}

/// What the host does about a surface error.
#[derive(Copy, Clone, Debug, PartialEq, Eq, Structural)]
pub enum SurfaceAction {
    /// Configure the surface again, at this size.
    Reconfigure(Size),
    /// Leave the loop.
    Exit,
    /// Skip this frame and go on.
    SkipFrame,
}

/// What the host does after one window notification.
#[derive(Copy, Clone, Debug, PartialEq, Eq, Structural)]
pub enum WindowResponse {
    /// Render a frame, then hand the outcome to `after_render`.
    Redraw,
    /// The notification has no normalized event; nothing was done.
    Ignored,
    /// The event went to the host handler and the layers; `reconfigure` is the
    /// new surface size for a resize.
    Dispatched { reconfigure: Option<Size>, handled_by: Option<LayerId> },
}

/// A call of one of the host's own handlers.
#[derive(Copy, Clone, Debug, PartialEq, Eq, Structural)]
pub enum HostCall {
    WindowClose,
    WindowResize { width: u32, height: u32 },
}

/// The host calls that `event` brings, each paired with `at`, the length of
/// the hook log when it was made.
pub open spec fn host_calls_for(event: Event, at: nat) -> Seq<(HostCall, nat)> {
    match event {
        Event::WindowClose => seq![(HostCall::WindowClose, at)],
        Event::WindowResize { width, height } => seq![(HostCall::WindowResize { width, height }, at)],
        _ => Seq::empty(),
    }
}

/// What the host does about each surface error, with `size` the last known
/// surface size.
pub open spec fn surface_action(error: SurfaceError, size: Size) -> SurfaceAction {
    match error {
        SurfaceError::Lost => SurfaceAction::Reconfigure(size),
        SurfaceError::OutOfMemory => SurfaceAction::Exit,
        SurfaceError::Other => SurfaceAction::SkipFrame,
    }
}

#[derive(Clone, Debug, PartialEq, Eq)]
pub enum Error {
    Unknown(String),
}

/// The host: its application, its layers, and what was asked of it.
pub struct Context<A, L> {
    application: A,
    events: EventContext<L>,
    size: Size,
    exit_requested: bool,
    resize_request: Option<Size>,
    host_calls: Ghost<Seq<(HostCall, nat)>>,
}

impl<A, L> Context<A, L> {
    pub closed spec fn events_spec(&self) -> EventContext<L> {
        self.events
    }

    pub closed spec fn size_spec(&self) -> Size {
        self.size
    }

    pub closed spec fn exit_requested_spec(&self) -> bool {
        self.exit_requested
    }

    pub closed spec fn resize_request_spec(&self) -> Option<Size> {
        self.resize_request
    }

    pub open spec fn stack_spec(&self) -> LayerStack<L> {
        self.events_spec().stack_spec()
    }

    pub open spec fn log(&self) -> Seq<HookCall> {
        self.events_spec().log()
    }

    pub open spec fn replies(&self) -> Seq<EventReply> {
        self.events_spec().replies()
    }

    /// Every call of the host's own handlers, each with the length of the
    /// hook log when it was made.
    pub closed spec fn host_calls(&self) -> Seq<(HostCall, nat)> {
        self.host_calls@
    }

    /// `after` is `before` after `event` went to the host handler, once for a
    /// close or a resize and before any layer, and then to the layers, with
    /// the result `r`.
    pub open spec fn handled_event(before: Self, after: Self, event: Event, r: Option<LayerId>) -> bool {
        &&& after.wf()
        &&& before.log().is_prefix_of(after.log())
        &&& before.replies().is_prefix_of(after.replies())
        &&& after.host_calls() == before.host_calls() + host_calls_for(event, before.log().len())
        &&& dispatched(
            reversed(before.stack_spec().ids()),
            event_ids_from(after.log(), before.log().len() as int),
            after.replies().subrange(before.replies().len() as int, after.replies().len() as int),
            after.log(),
            before.log().len() as int,
            event,
            r,
        )
    }

    /// What the hooks asked for through the context's frame reached the host:
    /// an exit request, and the size of a resize request.
    pub open spec fn requests_handed_over(c: Self) -> bool {
        &&& c.events_spec().frame_spec().exit_requested_spec() ==> c.exit_requested_spec()
        &&& c.events_spec().frame_spec().resize_request_spec() is Some ==> c.resize_request_spec()
            == c.events_spec().frame_spec().resize_request_spec()
    }

    pub open spec fn wf(&self) -> bool {
        &&& self.events_spec().wf()
        &&& self.events_spec().out().is_none()
    }
}

impl<A: Application, L: Layer> Context<A, L> {
    pub fn new(application: A, size: Size) -> (r: Self)
        ensures
            r.wf(),
            r.stack_spec().ids() == Seq::<LayerId>::empty(),
            r.log() == Seq::<HookCall>::empty(),
            r.size_spec() == size,
            !r.exit_requested_spec(),
            r.resize_request_spec().is_none(),
            r.host_calls() == Seq::<(HostCall, nat)>::empty(),
    {
        let frame = LayerContext::new(Duration::from_secs(0), false);
        Context {
            application,
            events: EventContext::new(frame),
            size,
            exit_requested: false,
            resize_request: None,
            host_calls: Ghost(Seq::empty()),
        }
    }

    pub fn application(&self) -> &A {
        &self.application
    }

    pub fn layer_stack(&self) -> (r: &LayerStack<L>)
        ensures
            *r == self.stack_spec(),
    {
        self.events.stack()
    }

    pub fn size(&self) -> (r: Size)
        ensures
            r == self.size_spec(),
    {
        self.size
    }

    pub fn exit_requested(&self) -> (r: bool)
        ensures
            r == self.exit_requested_spec(),
    {
        self.exit_requested
    }

    /// Hands out the surface size that a hook asked for last, if any, and
    /// forgets it.
    pub fn take_resize_request(&mut self) -> (r: Option<Size>)
        ensures
            r == old(self).resize_request_spec(),
            final(self).resize_request_spec().is_none(),
            final(self).events_spec() == old(self).events_spec(),
            final(self).size_spec() == old(self).size_spec(),
            final(self).exit_requested_spec() == old(self).exit_requested_spec(),
            final(self).host_calls() == old(self).host_calls(),
    {
        let r = self.resize_request;
        self.resize_request = None;
        r
    }

    /// Takes over the requests made through `frame`.
    fn absorb(&mut self, frame: &LayerContext)
        ensures
            final(self).exit_requested_spec() == (old(self).exit_requested_spec()
                || frame.exit_requested_spec()),
            final(self).resize_request_spec() == (match frame.resize_request_spec() {
                Some(s) => Some(s),
                None => old(self).resize_request_spec(),
            }),
            final(self).events_spec() == old(self).events_spec(),
            final(self).size_spec() == old(self).size_spec(),
            final(self).host_calls() == old(self).host_calls(),
    {
        if frame.exit_requested() {
            self.exit_requested = true;
        }
        match frame.resize_request() {
            Some(size) => {
                self.resize_request = Some(size);
            },
            None => {},
        }
    }

    /// A frame for hooks that run before the loop, where `exit` does nothing.
    fn setup_frame(&mut self)
        requires
            old(self).wf(),
        ensures
            final(self).wf(),
            final(self).stack_spec() == old(self).stack_spec(),
            final(self).log() == old(self).log(),
            !final(self).events_spec().frame_spec().has_exit_sink(),
            !final(self).events_spec().frame_spec().exit_requested_spec(),
            final(self).events_spec().frame_spec().resize_request_spec().is_none(),
            final(self).size_spec() == old(self).size_spec(),
            final(self).exit_requested_spec() == old(self).exit_requested_spec(),
            final(self).resize_request_spec() == old(self).resize_request_spec(),
            final(self).host_calls() == old(self).host_calls(),
            final(self).replies() == old(self).replies(),
    {
        self.events.set_frame(LayerContext::new(Duration::from_secs(0), false));
    }

    /// Attaches `layer` and inserts it at the end of the layer region.
    pub fn push_layer(&mut self, layer: L) -> (id: LayerId)
        requires
            old(self).wf(),
            old(self).stack_spec().next_id() < usize::MAX,
        ensures
            final(self).wf(),
            final(self).size_spec() == old(self).size_spec(),
            final(self).exit_requested_spec() == old(self).exit_requested_spec(),
            final(self).resize_request_spec() == old(self).resize_request_spec(),
            final(self).host_calls() == old(self).host_calls(),
            id@ == old(self).stack_spec().next_id(),
            final(self).stack_spec().ids() == old(self).stack_spec().ids().insert(
                old(self).stack_spec().boundary() as int,
                id,
            ),
            final(self).stack_spec().boundary() == old(self).stack_spec().boundary() + 1,
            final(self).stack_spec().next_id() == old(self).stack_spec().next_id() + 1,
            exists|l: L| final(self).stack_spec().layers() == old(self).stack_spec().layers().insert(
                old(self).stack_spec().boundary() as int,
                l,
            ),
            final(self).log() == old(self).log().push(HookCall { id, kind: HookKind::Attach }),
    {
        self.setup_frame();
        let id = self.events.push_layer(layer);
        id
    }

    /// Attaches `overlay` and appends it after every other entry.
    pub fn push_overlay(&mut self, overlay: L) -> (id: LayerId)
        requires
            old(self).wf(),
            old(self).stack_spec().next_id() < usize::MAX,
        ensures
            final(self).wf(),
            final(self).size_spec() == old(self).size_spec(),
            final(self).exit_requested_spec() == old(self).exit_requested_spec(),
            final(self).resize_request_spec() == old(self).resize_request_spec(),
            final(self).host_calls() == old(self).host_calls(),
            id@ == old(self).stack_spec().next_id(),
            final(self).stack_spec().ids() == old(self).stack_spec().ids().push(id),
            final(self).stack_spec().boundary() == old(self).stack_spec().boundary(),
            final(self).stack_spec().next_id() == old(self).stack_spec().next_id() + 1,
            exists|l: L| final(self).stack_spec().layers() == old(self).stack_spec().layers().push(l),
            final(self).log() == old(self).log().push(HookCall { id, kind: HookKind::Attach }),
    {
        self.setup_frame();
        let id = self.events.push_overlay(overlay);
        id
    }

    /// Removes the layer `id`, detaches it and hands it back; `None` where the
    /// layer region holds no such entry.
    pub fn pop_layer(&mut self, id: LayerId) -> (r: Option<L>)
        requires
            old(self).wf(),
        ensures
            final(self).wf(),
            final(self).size_spec() == old(self).size_spec(),
            final(self).exit_requested_spec() == old(self).exit_requested_spec(),
            final(self).resize_request_spec() == old(self).resize_request_spec(),
            final(self).host_calls() == old(self).host_calls(),
            r.is_some() == old(self).stack_spec().has_layer(id),
            r.is_some() ==> ({
                let i = index_in(old(self).stack_spec().ids(), 0, old(self).stack_spec().boundary() as int, id).unwrap();
                &&& final(self).log() == old(self).log().push(HookCall { id, kind: HookKind::Detach })
                &&& final(self).stack_spec().boundary() == old(self).stack_spec().boundary() - 1
                &&& final(self).stack_spec().ids() == old(self).stack_spec().ids().remove(i)
                &&& final(self).stack_spec().layers() == old(self).stack_spec().layers().remove(i)
            }),
            r.is_none() ==> final(self).stack_spec() == old(self).stack_spec() && final(self).log()
                == old(self).log(),
    {
        self.setup_frame();
        self.events.pop_layer(id)
    }

    /// Removes the overlay `id`, detaches it and hands it back; `None` where
    /// the overlay region holds no such entry.
    pub fn pop_overlay(&mut self, id: LayerId) -> (r: Option<L>)
        requires
            old(self).wf(),
        ensures
            final(self).wf(),
            final(self).size_spec() == old(self).size_spec(),
            final(self).exit_requested_spec() == old(self).exit_requested_spec(),
            final(self).resize_request_spec() == old(self).resize_request_spec(),
            final(self).host_calls() == old(self).host_calls(),
            r.is_some() == old(self).stack_spec().has_overlay(id),
            r.is_some() ==> ({
                let i = index_in(
                    old(self).stack_spec().ids(),
                    old(self).stack_spec().boundary() as int,
                    old(self).stack_spec().ids().len() as int,
                    id,
                ).unwrap();
                &&& final(self).log() == old(self).log().push(HookCall { id, kind: HookKind::Detach })
                &&& final(self).stack_spec().boundary() == old(self).stack_spec().boundary()
                &&& final(self).stack_spec().ids() == old(self).stack_spec().ids().remove(i)
                &&& final(self).stack_spec().layers() == old(self).stack_spec().layers().remove(i)
            }),
            r.is_none() ==> final(self).stack_spec() == old(self).stack_spec() && final(self).log()
                == old(self).log(),
    {
        self.setup_frame();
        self.events.pop_overlay(id)
    }

    /// Offers `event` to the host handler, for a close or a resize, and then
    /// to the layers in dispatch order until one handles it; returns that one.
    pub fn on_event(&mut self, event: &Event, delta_time: Duration) -> (r: Option<LayerId>)
        requires
            old(self).wf(),
        ensures
            Self::handled_event(*old(self), *final(self), *event, r),
            final(self).size_spec() == old(self).size_spec(),
            old(self).exit_requested_spec() ==> final(self).exit_requested_spec(),
            Self::requests_handed_over(*final(self)),
    {
        let mut host_frame = LayerContext::new(delta_time, true);
        proof {
            self.host_calls@ = self.host_calls@ + host_calls_for(*event, self.events.log().len());
        }
        match *event {
            Event::WindowClose => self.application.on_window_close(&mut host_frame),
            Event::WindowResize { width, height } => self.application.on_window_resize(
                &mut host_frame,
                width,
                height,
            ),
            _ => {},
        }
        self.absorb(&host_frame);
        self.events.set_frame(LayerContext::new(delta_time, true));
        let r = self.events.dispatch(event);
        let exit = self.events.exit_requested();
        let resize = self.events.resize_request();
        if exit {
            self.exit_requested = true;
        }
        match resize {
            Some(size) => {
                self.resize_request = Some(size);
            },
            None => {},
        }
        r
    }

    /// Calls `on_update` on every entry in dispatch order, each with a fresh
    /// frame.
    pub fn on_update(&mut self, delta_time: Duration)
        requires
            old(self).wf(),
        ensures
            final(self).wf(),
            final(self).stack_spec().ids() == old(self).stack_spec().ids(),
            final(self).stack_spec().boundary() == old(self).stack_spec().boundary(),
            final(self).log() == old(self).log() + update_calls(reversed(old(self).stack_spec().ids())),
            final(self).size_spec() == old(self).size_spec(),
            old(self).exit_requested_spec() ==> final(self).exit_requested_spec(),
            Self::requests_handed_over(*final(self)),
            final(self).events_spec().frame_spec().has_exit_sink(),
    {
        self.events.set_frame(LayerContext::new(delta_time, true));
        self.events.update();
        let exit = self.events.exit_requested();
        let resize = self.events.resize_request();
        if exit {
            self.exit_requested = true;
        }
        match resize {
            Some(size) => {
                self.resize_request = Some(size);
            },
            None => {},
        }
    }

    /// Handles one window notification: a redraw goes to the renderer, after
    /// which the caller hands the outcome to `after_render`; one
    /// without a normalized event is dropped, a resize also sets the surface
    /// size, and every other one is dispatched.
    pub fn window_event(&mut self, raw: &RawEvent, delta_time: Duration) -> (r: WindowResponse)
        requires
            old(self).wf(),
        ensures
            final(self).wf(),
            *raw is RedrawRequested ==> r == WindowResponse::Redraw && *final(self) == *old(self),
            !(*raw is RedrawRequested) ==> match converted(*raw) {
                Err(_) => r == WindowResponse::Ignored && *final(self) == *old(self),
                Ok(e) => match r {
                    WindowResponse::Dispatched { reconfigure, handled_by } => {
                        &&& reconfigure == (match *raw {
                            RawEvent::Resized { width, height } => Some(Size { width, height }),
                            _ => None,
                        })
                        &&& final(self).size_spec() == (match *raw {
                            RawEvent::Resized { width, height } => Size { width, height },
                            _ => old(self).size_spec(),
                        })
                        &&& Self::handled_event(*old(self), *final(self), e, handled_by)
                    },
                    _ => false,
                },
            },
    {
        if let RawEvent::RedrawRequested = *raw {
            return WindowResponse::Redraw;
        }
        match Event::convert(raw) {
            Err(ConversionError::UnsupportedEvent) => WindowResponse::Ignored,
            Ok(event) => {
                let reconfigure = match *raw {
                    RawEvent::Resized { width, height } => {
                        self.size = Size { width, height };
                        Some(self.size)
                    },
                    _ => None,
                };
                let handled_by = self.on_event(&event, delta_time);
                WindowResponse::Dispatched { reconfigure, handled_by }
            },
        }
    }

    /// A lost surface is configured again at the last known size; running
    /// out of memory ends the loop; any other error skips the frame.
    pub fn on_surface_error(&self, error: SurfaceError) -> (r: SurfaceAction)
        ensures
            r == surface_action(error, self.size_spec()),
    {
        match error {
            SurfaceError::Lost => SurfaceAction::Reconfigure(self.size),
            SurfaceError::OutOfMemory => SurfaceAction::Exit,
            SurfaceError::Other => SurfaceAction::SkipFrame,
        }
    }

    /// Takes what came of rendering a frame: where it was drawn, every entry
    /// gets its per-frame update, in dispatch order, and `None` is returned;
    /// where the surface failed, nothing runs and the action for the error is
    /// returned.
    pub fn after_render(&mut self, rendered: Result<(), SurfaceError>, delta_time: Duration) -> (r: Option<
        SurfaceAction,
    >)
        requires
            old(self).wf(),
        ensures
            final(self).wf(),
            match rendered {
                Ok(()) => {
                    &&& r.is_none()
                    &&& final(self).stack_spec().ids() == old(self).stack_spec().ids()
                    &&& final(self).log() == old(self).log() + update_calls(
                        reversed(old(self).stack_spec().ids()),
                    )
                },
                Err(error) => r == Some(surface_action(error, old(self).size_spec())) && *final(self)
                    == *old(self),
            },
    {
        match rendered {
            Ok(()) => {
                self.on_update(delta_time);
                None
            },
            Err(error) => Some(self.on_surface_error(error)),
        }
    }
}

} // verus!
