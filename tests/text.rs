use hazel::event::{Event, Fixed, KeyCode, MouseButton};

#[test]
fn window_events_describe() {
    assert_eq!(Event::WindowClose.describe(), "WindowClose");
    assert_eq!(Event::WindowResize { width: 800, height: 600 }.describe(), "WindowResize: 800, 600");
    assert_eq!(Event::WindowFocusGained.describe(), "WindowFocusGained");
    assert_eq!(Event::WindowFocusLost.describe(), "WindowFocusLost");
    assert_eq!(
        Event::WindowMoved { x: Fixed::from_int(-12), y: Fixed::from_int(0) }.describe(),
        "WindowMoved: -12.0000, 0.0000"
    );
    assert_eq!(
        Event::WindowMoved { x: Fixed::from_int(i32::MIN), y: Fixed::from_int(i32::MAX) }.describe(),
        "WindowMoved: -2147483648.0000, 2147483647.0000"
    );
    assert_eq!(
        Event::WindowScaleChanged { factor: Fixed::from_raw(98304) }.describe(),
        "WindowScaleChanged: 1.5000"
    );
}

#[test]
fn app_events_describe() {
    assert_eq!(Event::AppTick.describe(), "AppTick");
    assert_eq!(Event::AppUpdate.describe(), "AppUpdate");
    assert_eq!(Event::AppRender.describe(), "AppRender");
}

#[test]
fn key_events_describe() {
    let key = KeyCode { code: 30 };
    assert_eq!(Event::KeyPressed { key, is_repeat: false }.describe(), "KeyPressed: 30");
    assert_eq!(Event::KeyPressed { key, is_repeat: true }.describe(), "KeyPressed: 30 (repeat)");
    assert_eq!(Event::KeyReleased { key }.describe(), "KeyReleased: 30");
    assert_eq!(Event::KeyTyped { character: 'x' }.describe(), "KeyTyped: x");
    assert_eq!(Event::KeyTyped { character: 'é' }.describe(), "KeyTyped: é");
}

#[test]
fn mouse_events_describe() {
    assert_eq!(Event::MouseButtonPressed(MouseButton::Left).describe(), "MouseButtonPressed: Left");
    assert_eq!(Event::MouseButtonReleased(MouseButton::Other(9)).describe(), "MouseButtonReleased: Other 9");
    assert_eq!(
        Event::MouseMoved { x: Fixed::from_raw(-32768), y: Fixed::from_int(7) }.describe(),
        "MouseMoved: -0.5000, 7.0000"
    );
    assert_eq!(
        Event::MouseScrolled { x_offset: Fixed::from_raw(6554), y_offset: Fixed::from_raw(655) }.describe(),
        "MouseScrolled: 0.1000, 0.0099"
    );
}

#[test]
fn extreme_fixed_values_describe() {
    assert_eq!(
        Event::MouseMoved { x: Fixed::from_raw(i64::MIN), y: Fixed::from_raw(1) }.describe(),
        "MouseMoved: -140737488355328.0000, 0.0000"
    );
}
