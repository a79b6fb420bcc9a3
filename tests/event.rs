use std::time::Duration;

use hazel::context::{EventContext, LayerContext};
use hazel::event::{
    ConversionError, ElementState, Event, Fixed, KeyCode, MouseButton, RawEvent, RawKey, ScrollDelta, Size,
};
use hazel::layer::Layer;
use hazel::log::Level;
use hazel::runner::{Application, Context, SurfaceAction, SurfaceError, WindowResponse};

fn convert(raw: RawEvent) -> Result<Event, ConversionError> {
    Event::convert(&raw)
}

#[test]
fn window_notifications_convert() {
    assert_eq!(convert(RawEvent::CloseRequested), Ok(Event::WindowClose));
    assert_eq!(
        convert(RawEvent::Resized { width: 800, height: 600 }),
        Ok(Event::WindowResize { width: 800, height: 600 })
    );
    assert_eq!(convert(RawEvent::Focused(true)), Ok(Event::WindowFocusGained));
    assert_eq!(convert(RawEvent::Focused(false)), Ok(Event::WindowFocusLost));
    assert_eq!(
        convert(RawEvent::Moved { x: -3, y: 7 }),
        Ok(Event::WindowMoved { x: Fixed::from_raw(-196608), y: Fixed::from_raw(458752) })
    );
    let factor = Fixed::from_raw(98304);
    assert_eq!(
        convert(RawEvent::ScaleFactorChanged { factor }),
        Ok(Event::WindowScaleChanged { factor })
    );
    assert_eq!(convert(RawEvent::RedrawRequested), Ok(Event::AppRender));
}

#[test]
fn keyboard_notifications_convert() {
    let key = KeyCode { code: 65 };
    assert_eq!(
        convert(RawEvent::KeyboardInput { key: RawKey::Code(key), state: ElementState::Pressed, repeat: true }),
        Ok(Event::KeyPressed { key, is_repeat: true })
    );
    assert_eq!(
        convert(RawEvent::KeyboardInput { key: RawKey::Code(key), state: ElementState::Released, repeat: false }),
        Ok(Event::KeyReleased { key })
    );
    assert_eq!(convert(RawEvent::ReceivedCharacter('q')), Ok(Event::KeyTyped { character: 'q' }));
}

#[test]
fn unmapped_keys_and_unknown_kinds_are_unsupported() {
    assert_eq!(
        convert(RawEvent::KeyboardInput { key: RawKey::Unidentified, state: ElementState::Pressed, repeat: false }),
        Err(ConversionError::UnsupportedEvent)
    );
    assert_eq!(convert(RawEvent::Unhandled), Err(ConversionError::UnsupportedEvent));
}

#[test]
fn mouse_notifications_convert() {
    assert_eq!(
        convert(RawEvent::MouseInput { state: ElementState::Pressed, button: MouseButton::Left }),
        Ok(Event::MouseButtonPressed(MouseButton::Left))
    );
    assert_eq!(
        convert(RawEvent::MouseInput { state: ElementState::Released, button: MouseButton::Other(9) }),
        Ok(Event::MouseButtonReleased(MouseButton::Other(9)))
    );
    let x = Fixed::from_int(12);
    let y = Fixed::from_raw(-32768);
    assert_eq!(convert(RawEvent::CursorMoved { x, y }), Ok(Event::MouseMoved { x, y }));
}

#[test]
fn line_scrolls_are_scaled_to_pixels() {
    let r = convert(RawEvent::MouseWheel {
        delta: ScrollDelta::Lines { x: Fixed::from_int(1), y: Fixed::from_raw(-98304) },
    });
    assert_eq!(
        r,
        Ok(Event::MouseScrolled { x_offset: Fixed::from_raw(131072), y_offset: Fixed::from_raw(-196608) })
    );
}

#[test]
fn pixel_scrolls_are_kept() {
    let x = Fixed::from_raw(5);
    let y = Fixed::from_raw(-7);
    assert_eq!(
        convert(RawEvent::MouseWheel { delta: ScrollDelta::Pixels { x, y } }),
        Ok(Event::MouseScrolled { x_offset: x, y_offset: y })
    );
}

#[test]
fn huge_line_scrolls_saturate() {
    let r = convert(RawEvent::MouseWheel {
        delta: ScrollDelta::Lines { x: Fixed::from_raw(i64::MAX), y: Fixed::from_raw(i64::MIN) },
    });
    assert_eq!(
        r,
        Ok(Event::MouseScrolled { x_offset: Fixed::from_raw(i64::MAX), y_offset: Fixed::from_raw(i64::MIN) })
    );
}

#[test]
fn fixed_from_int_is_exact() {
    assert_eq!(Fixed::from_int(3).raw, 196608);
    assert_eq!(Fixed::from_int(-1).raw, -65536);
}

struct Silent;

impl Layer for Silent {
    fn name(&self) -> &str {
        "silent"
    }

    fn on_attach(&mut self, _ctx: &mut LayerContext) {}

    fn on_detach(&mut self, _ctx: &mut LayerContext) {}

    fn on_update(&mut self, _ctx: &mut LayerContext) {}

    fn on_event(&mut self, _ctx: &mut EventContext<Self>, _event: &Event) -> bool {
        false
    }
}

struct Quiet;

impl Application for Quiet {}

fn frame() -> Duration {
    Duration::from_millis(16)
}

#[test]
fn redraw_is_handed_to_the_renderer() {
    let mut ctx: Context<Quiet, Silent> = Context::new(Quiet, Size::new(100, 50));
    assert_eq!(ctx.window_event(&RawEvent::RedrawRequested, frame()), WindowResponse::Redraw);
}

#[test]
fn unsupported_notifications_are_ignored() {
    let mut ctx: Context<Quiet, Silent> = Context::new(Quiet, Size::new(100, 50));
    assert_eq!(ctx.window_event(&RawEvent::Unhandled, frame()), WindowResponse::Ignored);
}

#[test]
fn resize_notification_reconfigures_and_dispatches() {
    let mut ctx: Context<Quiet, Silent> = Context::new(Quiet, Size::new(100, 50));
    ctx.push_layer(Silent);
    let r = ctx.window_event(&RawEvent::Resized { width: 800, height: 600 }, frame());
    assert_eq!(r, WindowResponse::Dispatched { reconfigure: Some(Size::new(800, 600)), handled_by: None });
    assert_eq!(ctx.size(), Size::new(800, 600));
}

#[test]
fn other_notifications_dispatch_without_reconfigure() {
    let mut ctx: Context<Quiet, Silent> = Context::new(Quiet, Size::new(100, 50));
    let r = ctx.window_event(&RawEvent::Focused(true), frame());
    assert_eq!(r, WindowResponse::Dispatched { reconfigure: None, handled_by: None });
    assert_eq!(ctx.size(), Size::new(100, 50));
}

#[test]
fn surface_errors_map_to_actions() {
    let mut ctx: Context<Quiet, Silent> = Context::new(Quiet, Size::new(100, 50));
    assert_eq!(ctx.on_surface_error(SurfaceError::Lost), SurfaceAction::Reconfigure(Size::new(100, 50)));
    assert_eq!(ctx.on_surface_error(SurfaceError::OutOfMemory), SurfaceAction::Exit);
    assert_eq!(ctx.on_surface_error(SurfaceError::Other), SurfaceAction::SkipFrame);
    ctx.window_event(&RawEvent::Resized { width: 7, height: 9 }, frame());
    assert_eq!(ctx.on_surface_error(SurfaceError::Lost), SurfaceAction::Reconfigure(Size::new(7, 9)));
}

#[test]
fn level_labels() {
    assert_eq!(Level::Trace.label(), "TRACE");
    assert_eq!(Level::Debug.label(), "\x1B[36mDEBUG\x1B[0m");
    assert_eq!(Level::Info.label(), "\x1B[32mINFO\x1B[0m");
    assert_eq!(Level::Warn.label(), "\x1B[33mWARN\x1B[0m");
    assert_eq!(Level::Error.label(), "\x1B[31mERROR\x1B[0m");
}
