use vstd::prelude::*;

verus! {

/// Number of pixels that one line of a line-based scroll wheel stands for.
pub const LINE_SCALE: i64 = 2;

/// A signed real number held in fixed point: the value is `raw / 2^16`.
/// Positions, offsets and scale factors of events are all held in this form.
#[derive(Copy, Clone, Debug, PartialEq, Eq, Structural)]
pub struct Fixed {
    pub raw: i64,
}

impl Fixed {
    pub fn from_raw(raw: i64) -> (r: Fixed)
        ensures
            r.raw == raw,
    {
        Fixed { raw }
    }

    /// The whole number `n`, exactly.
    pub fn from_int(n: i32) -> (r: Fixed)
        ensures
            r == whole(n),
            r.raw == n as int * 65536,
    {
        Fixed { raw: n as i64 * 65536 }
    }
}

/// The whole number `n` in fixed point.
pub open spec fn whole(n: i32) -> Fixed {
    Fixed { raw: (n as int * 65536) as i64 }
}

/// Width and height of a window or surface, in physical pixels.
#[derive(Copy, Clone, Debug, PartialEq, Eq, Structural)]
pub struct Size {
    pub width: u32,
    pub height: u32,
}

impl Size {
    pub fn new(width: u32, height: u32) -> (r: Size)
        ensures
            r.width == width,
            r.height == height,
    {
        Size { width, height }
    }
}

/// A key, as a code that the windowing side assigned to it.
#[derive(Copy, Clone, Debug, PartialEq, Eq, Structural)]
pub struct KeyCode {
    pub code: u32,
}

#[derive(Copy, Clone, Debug, PartialEq, Eq, Structural)]
pub enum MouseButton {
    Left,
    Right,
    Middle,
    Back,
    Forward,
    Other(u16),
}

/// One normalized occurrence, handed to the layers.
#[derive(Copy, Clone, Debug, PartialEq, Eq, Structural)]
pub enum Event {
    WindowClose,
    WindowResize { width: u32, height: u32 },
    WindowFocusGained,
    WindowFocusLost,
    WindowMoved { x: Fixed, y: Fixed },
    WindowScaleChanged { factor: Fixed },
    AppTick,
    AppUpdate,
    AppRender,
    KeyPressed { key: KeyCode, is_repeat: bool },
    KeyReleased { key: KeyCode },
    KeyTyped { character: char },
    MouseButtonPressed(MouseButton),
    MouseButtonReleased(MouseButton),
    MouseMoved { x: Fixed, y: Fixed },
    MouseScrolled { x_offset: Fixed, y_offset: Fixed },
}

#[derive(Copy, Clone, Debug, PartialEq, Eq, Structural)]
pub enum ElementState {
    Pressed,
    Released,
}

/// A key as the windowing side reports it: mapped to a code, or not.
#[derive(Copy, Clone, Debug, PartialEq, Eq, Structural)]
pub enum RawKey {
    Code(KeyCode),
    Unidentified,
}

/// A scroll amount, in lines or in pixels.
#[derive(Copy, Clone, Debug, PartialEq, Eq, Structural)]
pub enum ScrollDelta {
    Lines { x: Fixed, y: Fixed },
    Pixels { x: Fixed, y: Fixed },
}

/// One notification of the windowing side, before it is normalized.
#[derive(Copy, Clone, Debug, PartialEq, Eq, Structural)]
pub enum RawEvent {
    CloseRequested,
    Resized { width: u32, height: u32 },
    Focused(bool),
    Moved { x: i32, y: i32 },
    ScaleFactorChanged { factor: Fixed },
    KeyboardInput { key: RawKey, state: ElementState, repeat: bool },
    ReceivedCharacter(char),
    MouseInput { state: ElementState, button: MouseButton },
    MouseWheel { delta: ScrollDelta },
    CursorMoved { x: Fixed, y: Fixed },
    RedrawRequested,
    /// A kind of notification that has no normalized counterpart.
    Unhandled,
}

#[derive(Copy, Clone, Debug, PartialEq, Eq, Structural)]
pub enum ConversionError {
    UnsupportedEvent,
}

/// A line count turned into pixels, held at the bounds of `i64` where the
/// product leaves them.
pub open spec fn line_pixels(v: i64) -> i64 {
    let p = v as int * LINE_SCALE as int;
    if p > i64::MAX as int {
        i64::MAX
    } else if p < i64::MIN as int {
        i64::MIN
    } else {
        p as i64
    }
}

/// The offset that a scroll amount normalizes to.
pub open spec fn scroll_offset(delta: ScrollDelta) -> (Fixed, Fixed) {
    match delta {
        ScrollDelta::Lines { x, y } => (Fixed { raw: line_pixels(x.raw) }, Fixed { raw: line_pixels(y.raw) }),
        ScrollDelta::Pixels { x, y } => (x, y),
    }
}

/// The normalized event for a notification, or `UnsupportedEvent` for one
/// that has none.
pub open spec fn converted(raw: RawEvent) -> Result<Event, ConversionError> {
    match raw {
        RawEvent::CloseRequested => Ok(Event::WindowClose),
        RawEvent::Resized { width, height } => Ok(Event::WindowResize { width, height }),
        RawEvent::Focused(focused) => Ok(
            if focused {
                Event::WindowFocusGained
            } else {
                Event::WindowFocusLost
            },
        ),
        RawEvent::Moved { x, y } => Ok(Event::WindowMoved { x: whole(x), y: whole(y) }),
        RawEvent::ScaleFactorChanged { factor } => Ok(Event::WindowScaleChanged { factor }),
        RawEvent::KeyboardInput { key, state, repeat } => match key {
            RawKey::Code(key) => Ok(
                match state {
                    ElementState::Pressed => Event::KeyPressed { key, is_repeat: repeat },
                    ElementState::Released => Event::KeyReleased { key },
                },
            ),
            RawKey::Unidentified => Err(ConversionError::UnsupportedEvent),
        },
        RawEvent::ReceivedCharacter(character) => Ok(Event::KeyTyped { character }),
        RawEvent::MouseInput { state, button } => Ok(
            match state {
                ElementState::Pressed => Event::MouseButtonPressed(button),
                ElementState::Released => Event::MouseButtonReleased(button),
            },
        ),
        RawEvent::MouseWheel { delta } => Ok(
            Event::MouseScrolled { x_offset: scroll_offset(delta).0, y_offset: scroll_offset(delta).1 },
        ),
        RawEvent::CursorMoved { x, y } => Ok(Event::MouseMoved { x, y }),
        RawEvent::RedrawRequested => Ok(Event::AppRender),
        RawEvent::Unhandled => Err(ConversionError::UnsupportedEvent),
    }
}

fn scale_lines(v: Fixed) -> (r: Fixed)
    ensures
        r.raw == line_pixels(v.raw),
{
    if v.raw > i64::MAX / LINE_SCALE {
        Fixed { raw: i64::MAX }
    } else if v.raw < i64::MIN / LINE_SCALE {
        Fixed { raw: i64::MIN }
    } else {
        Fixed { raw: v.raw * LINE_SCALE }
    }
}

impl Event {
    /// Normalizes one notification of the windowing side.
    pub fn convert(raw: &RawEvent) -> (r: Result<Event, ConversionError>)
        ensures
            r == converted(*raw),
    {
        match *raw {
            RawEvent::CloseRequested => Ok(Event::WindowClose),
            RawEvent::Resized { width, height } => Ok(Event::WindowResize { width, height }),
            RawEvent::Focused(focused) => {
                if focused {
                    Ok(Event::WindowFocusGained)
                } else {
                    Ok(Event::WindowFocusLost)
                }
            },
            RawEvent::Moved { x, y } => Ok(Event::WindowMoved { x: Fixed::from_int(x), y: Fixed::from_int(y) }),
            RawEvent::ScaleFactorChanged { factor } => Ok(Event::WindowScaleChanged { factor }),
            RawEvent::KeyboardInput { key, state, repeat } => match key {
                RawKey::Code(key) => match state {
                    ElementState::Pressed => Ok(Event::KeyPressed { key, is_repeat: repeat }),
                    ElementState::Released => Ok(Event::KeyReleased { key }),
                },
                RawKey::Unidentified => Err(ConversionError::UnsupportedEvent),
            },
            RawEvent::ReceivedCharacter(character) => Ok(Event::KeyTyped { character }),
            RawEvent::MouseInput { state, button } => match state {
                ElementState::Pressed => Ok(Event::MouseButtonPressed(button)),
                ElementState::Released => Ok(Event::MouseButtonReleased(button)),
            },
            RawEvent::MouseWheel { delta } => match delta {
                ScrollDelta::Lines { x, y } => Ok(
                    Event::MouseScrolled { x_offset: scale_lines(x), y_offset: scale_lines(y) },
                ),
                ScrollDelta::Pixels { x, y } => Ok(Event::MouseScrolled { x_offset: x, y_offset: y }),
            },
            RawEvent::CursorMoved { x, y } => Ok(Event::MouseMoved { x, y }),
            RawEvent::RedrawRequested => Ok(Event::AppRender),
            RawEvent::Unhandled => Err(ConversionError::UnsupportedEvent),
        }
    }
}

/// Every notification yields exactly one event, or is unsupported; it is
/// unsupported exactly when it has no normalized kind or names an unmapped key.
pub proof fn lemma_conversion_total_or_ignore(raw: RawEvent)
    ensures
        converted(raw) is Ok || converted(raw) == Err::<Event, ConversionError>(
            ConversionError::UnsupportedEvent,
        ),
        converted(raw) is Err <==> (raw is Unhandled || (raw is KeyboardInput && raw->key
            is Unidentified)),
{
}

} // verus!
