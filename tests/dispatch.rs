use std::cell::RefCell;
use std::rc::Rc;
use std::time::Duration;

use hazel::context::{EventContext, LayerContext};
use hazel::event::{Event, Size};
use hazel::layer::{Layer, LayerId};
use hazel::runner::{Application, Context};

type Journal = Rc<RefCell<Vec<String>>>;

#[derive(Clone, Copy, PartialEq, Eq, Debug)]
enum Action {
    Nothing,
    PushOverlayOnEvent,
    PopLayerOnEvent(LayerId),
    ExitOnAttach,
    ExitOnEvent,
    ResizeOnUpdate(u32, u32),
}

struct Probe {
    name: &'static str,
    handles: bool,
    action: Action,
    journal: Journal,
}

impl Probe {
    fn new(name: &'static str, handles: bool, journal: &Journal) -> Probe {
        Probe { name, handles, action: Action::Nothing, journal: journal.clone() }
    }

    fn with(name: &'static str, handles: bool, action: Action, journal: &Journal) -> Probe {
        Probe { name, handles, action, journal: journal.clone() }
    }

    fn note(&self, what: &str) {
        self.journal.borrow_mut().push(format!("{}.{}", self.name, what));
    }
}

impl Layer for Probe {
    fn name(&self) -> &str {
        self.name
    }

    fn on_attach(&mut self, ctx: &mut LayerContext) {
        self.note("attach");
        if self.action == Action::ExitOnAttach {
            ctx.exit();
        }
    }

    fn on_detach(&mut self, _ctx: &mut LayerContext) {
        self.note("detach");
    }

    fn on_update(&mut self, ctx: &mut LayerContext) {
        self.note("update");
        if let Action::ResizeOnUpdate(w, h) = self.action {
            ctx.resize(Size::new(w, h));
        }
    }

    fn on_event(&mut self, ctx: &mut EventContext<Self>, _event: &Event) -> bool {
        self.note("event");
        match self.action {
            Action::PushOverlayOnEvent => {
                self.action = Action::Nothing;
                ctx.push_overlay(Probe::new("pushed", false, &self.journal));
            },
            Action::PopLayerOnEvent(id) => {
                self.action = Action::Nothing;
                let popped = ctx.pop_layer(id);
                self.journal.borrow_mut().push(format!("popped:{}", popped.is_some()));
            },
            Action::ExitOnEvent => ctx.exit(),
            _ => {},
        }
        self.handles
    }
}

struct Host {
    journal: Journal,
    default_close: bool,
}

impl Application for Host {
    fn on_window_close(&mut self, ctx: &mut LayerContext) {
        self.journal.borrow_mut().push("host.close".to_string());
        if self.default_close {
            ctx.exit();
        }
    }

    fn on_window_resize(&mut self, _ctx: &mut LayerContext, width: u32, height: u32) {
        self.journal.borrow_mut().push(format!("host.resize {}x{}", width, height));
    }
}

struct Plain;

impl Application for Plain {}

fn frame() -> Duration {
    Duration::from_millis(16)
}

fn host(journal: &Journal) -> Context<Host, Probe> {
    Context::new(Host { journal: journal.clone(), default_close: true }, Size::new(640, 480))
}

fn entries(journal: &Journal) -> Vec<String> {
    journal.borrow().clone()
}

fn clear(journal: &Journal) {
    journal.borrow_mut().clear();
}

#[test]
fn resize_goes_to_host_and_stops_at_the_overlay() {
    let journal: Journal = Rc::new(RefCell::new(Vec::new()));
    let mut ctx = host(&journal);
    let a = ctx.push_layer(Probe::new("A", false, &journal));
    let b = ctx.push_overlay(Probe::new("B", true, &journal));
    assert_eq!(a.value(), 1);
    assert_eq!(b.value(), 2);
    clear(&journal);
    let handled = ctx.on_event(&Event::WindowResize { width: 800, height: 600 }, frame());
    assert_eq!(handled, Some(b));
    assert_eq!(entries(&journal), vec!["host.resize 800x600", "B.event"]);
}

#[test]
fn dispatch_stops_at_the_first_layer_that_handles() {
    let journal: Journal = Rc::new(RefCell::new(Vec::new()));
    let mut ctx = host(&journal);
    ctx.push_layer(Probe::new("L1", false, &journal));
    let l2 = ctx.push_layer(Probe::new("L2", true, &journal));
    ctx.push_overlay(Probe::new("O1", false, &journal));
    clear(&journal);
    let handled = ctx.on_event(&Event::AppTick, frame());
    assert_eq!(handled, Some(l2));
    assert_eq!(entries(&journal), vec!["O1.event", "L2.event"]);
}

#[test]
fn unhandled_event_reaches_every_layer_in_dispatch_order() {
    let journal: Journal = Rc::new(RefCell::new(Vec::new()));
    let mut ctx = host(&journal);
    ctx.push_layer(Probe::new("L1", false, &journal));
    ctx.push_layer(Probe::new("L2", false, &journal));
    ctx.push_overlay(Probe::new("O1", false, &journal));
    clear(&journal);
    let handled = ctx.on_event(&Event::KeyTyped { character: 'x' }, frame());
    assert_eq!(handled, None);
    assert_eq!(entries(&journal), vec!["O1.event", "L2.event", "L1.event"]);
}

#[test]
fn update_visits_every_layer_in_dispatch_order() {
    let journal: Journal = Rc::new(RefCell::new(Vec::new()));
    let mut ctx = host(&journal);
    ctx.push_overlay(Probe::new("O1", true, &journal));
    ctx.push_layer(Probe::new("L1", true, &journal));
    ctx.push_layer(Probe::new("L2", true, &journal));
    clear(&journal);
    ctx.on_update(frame());
    assert_eq!(entries(&journal), vec!["O1.update", "L2.update", "L1.update"]);
}

#[test]
fn attach_comes_first_and_detach_before_pop_returns() {
    let journal: Journal = Rc::new(RefCell::new(Vec::new()));
    let mut ctx = host(&journal);
    let a = ctx.push_layer(Probe::new("A", false, &journal));
    ctx.on_update(frame());
    ctx.on_event(&Event::AppUpdate, frame());
    let popped = ctx.pop_layer(a);
    assert!(popped.is_some());
    assert_eq!(entries(&journal), vec!["A.attach", "A.update", "A.event", "A.detach"]);
    assert_eq!(popped.unwrap().name(), "A");
    assert!(ctx.pop_layer(a).is_none());
    ctx.on_update(frame());
    assert_eq!(entries(&journal).len(), 4);
}

#[test]
fn overlay_pops_detach_too() {
    let journal: Journal = Rc::new(RefCell::new(Vec::new()));
    let mut ctx = host(&journal);
    let o = ctx.push_overlay(Probe::new("O", false, &journal));
    assert!(ctx.pop_layer(o).is_none());
    assert!(ctx.pop_overlay(o).is_some());
    assert_eq!(entries(&journal), vec!["O.attach", "O.detach"]);
}

#[test]
fn layer_pushed_during_dispatch_is_attached_at_once_and_not_visited() {
    let journal: Journal = Rc::new(RefCell::new(Vec::new()));
    let mut ctx = host(&journal);
    ctx.push_layer(Probe::new("L1", false, &journal));
    ctx.push_layer(Probe::with("L2", false, Action::PushOverlayOnEvent, &journal));
    clear(&journal);
    assert_eq!(ctx.on_event(&Event::AppTick, frame()), None);
    assert_eq!(entries(&journal), vec!["L2.event", "pushed.attach", "L1.event"]);
    assert_eq!(ctx.layer_stack().len(), 3);
    clear(&journal);
    ctx.on_event(&Event::AppTick, frame());
    assert_eq!(entries(&journal), vec!["pushed.event", "L2.event", "L1.event"]);
}

#[test]
fn layer_popped_during_dispatch_is_detached_and_skipped() {
    let journal: Journal = Rc::new(RefCell::new(Vec::new()));
    let mut ctx = host(&journal);
    let l1 = ctx.push_layer(Probe::new("L1", false, &journal));
    ctx.push_overlay(Probe::with("O1", false, Action::PopLayerOnEvent(l1), &journal));
    clear(&journal);
    assert_eq!(ctx.on_event(&Event::AppTick, frame()), None);
    assert_eq!(entries(&journal), vec!["O1.event", "L1.detach", "popped:true"]);
    assert_eq!(ctx.layer_stack().len(), 1);
    assert_eq!(ctx.layer_stack().layer_insert(), 0);
}

#[test]
fn default_close_handler_requests_exit() {
    let mut ctx: Context<Plain, Probe> = Context::new(Plain, Size::new(10, 10));
    assert!(!ctx.exit_requested());
    ctx.on_event(&Event::WindowClose, frame());
    assert!(ctx.exit_requested());
}

#[test]
fn default_resize_handler_does_nothing() {
    let mut ctx: Context<Plain, Probe> = Context::new(Plain, Size::new(10, 10));
    ctx.on_event(&Event::WindowResize { width: 5, height: 6 }, frame());
    assert!(!ctx.exit_requested());
    assert_eq!(ctx.take_resize_request(), None);
}

#[test]
fn host_close_without_exit_keeps_running() {
    let journal: Journal = Rc::new(RefCell::new(Vec::new()));
    let mut ctx: Context<Host, Probe> =
        Context::new(Host { journal: journal.clone(), default_close: false }, Size::new(1, 1));
    ctx.on_event(&Event::WindowClose, frame());
    assert!(!ctx.exit_requested());
    assert_eq!(entries(&journal), vec!["host.close"]);
}

#[test]
fn exit_during_setup_is_a_no_op() {
    let journal: Journal = Rc::new(RefCell::new(Vec::new()));
    let mut ctx = host(&journal);
    ctx.push_layer(Probe::with("A", false, Action::ExitOnAttach, &journal));
    assert!(!ctx.exit_requested());
}

#[test]
fn exit_from_a_layer_reaches_the_host() {
    let journal: Journal = Rc::new(RefCell::new(Vec::new()));
    let mut ctx = host(&journal);
    ctx.push_layer(Probe::with("A", false, Action::ExitOnEvent, &journal));
    ctx.on_event(&Event::AppTick, frame());
    assert!(ctx.exit_requested());
}

#[test]
fn resize_requested_in_update_reaches_the_host_once() {
    let journal: Journal = Rc::new(RefCell::new(Vec::new()));
    let mut ctx = host(&journal);
    ctx.push_layer(Probe::with("A", false, Action::ResizeOnUpdate(320, 200), &journal));
    ctx.on_update(frame());
    assert_eq!(ctx.take_resize_request(), Some(Size::new(320, 200)));
    assert_eq!(ctx.take_resize_request(), None);
}

#[test]
fn layer_context_reports_its_frame_time() {
    let mut c = LayerContext::new(Duration::from_millis(5), false);
    assert_eq!(c.delta_time(), Duration::from_millis(5));
    c.exit();
    assert!(!c.exit_requested());
    let mut d = LayerContext::new(Duration::from_millis(5), true);
    d.exit();
    assert!(d.exit_requested());
    d.resize(Size::new(3, 4));
    assert_eq!(d.resize_request(), Some(Size::new(3, 4)));
}

#[test]
fn rendered_frame_runs_the_updates() {
    let journal: Journal = Rc::new(RefCell::new(Vec::new()));
    let mut ctx = host(&journal);
    ctx.push_layer(Probe::new("L1", false, &journal));
    ctx.push_overlay(Probe::new("O1", false, &journal));
    clear(&journal);
    assert_eq!(ctx.after_render(Ok(()), frame()), None);
    assert_eq!(entries(&journal), vec!["O1.update", "L1.update"]);
}

#[test]
fn failed_frame_runs_no_update() {
    let journal: Journal = Rc::new(RefCell::new(Vec::new()));
    let mut ctx = host(&journal);
    ctx.push_layer(Probe::new("L1", false, &journal));
    clear(&journal);
    assert_eq!(
        ctx.after_render(Err(hazel::runner::SurfaceError::Lost), frame()),
        Some(hazel::runner::SurfaceAction::Reconfigure(Size::new(640, 480)))
    );
    assert_eq!(
        ctx.after_render(Err(hazel::runner::SurfaceError::OutOfMemory), frame()),
        Some(hazel::runner::SurfaceAction::Exit)
    );
    assert_eq!(
        ctx.after_render(Err(hazel::runner::SurfaceError::Other), frame()),
        Some(hazel::runner::SurfaceAction::SkipFrame)
    );
    assert!(entries(&journal).is_empty());
}

#[test]
fn events_other_than_close_and_resize_skip_the_host() {
    let journal: Journal = Rc::new(RefCell::new(Vec::new()));
    let mut ctx = host(&journal);
    ctx.push_layer(Probe::new("L1", true, &journal));
    clear(&journal);
    ctx.on_event(&Event::WindowFocusGained, frame());
    assert_eq!(entries(&journal), vec!["L1.event"]);
}
