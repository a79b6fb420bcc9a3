use vstd::prelude::*;
use vstd::string::StringExecFns;

use crate::event::{Event, Fixed, MouseButton};

verus! {

pub open spec fn digit_char(d: nat) -> char {
    if d == 0 {
        '0'
    } else if d == 1 {
        '1'
    } else if d == 2 {
        '2'
    } else if d == 3 {
        '3'
    } else if d == 4 {
        '4'
    } else if d == 5 {
        '5'
    } else if d == 6 {
        '6'
    } else if d == 7 {
        '7'
    } else if d == 8 {
        '8'
    } else {
        '9'
    }
}

/// `n` in decimal, without leading zeros.
pub open spec fn decimal(n: nat) -> Seq<char>
    decreases n,
{
    if n < 10 {
        seq![digit_char(n)]
    } else {
        decimal(n / 10).push(digit_char(n % 10))
    }
}

/// `f`, below ten thousand, in four digits.
pub open spec fn four_digits(f: nat) -> Seq<char> {
    if f < 10 {
        seq!['0', '0', '0'] + decimal(f)
    } else if f < 100 {
        seq!['0', '0'] + decimal(f)
    } else if f < 1000 {
        seq!['0'] + decimal(f)
    } else {
        decimal(f)
    }
}

/// A fixed-point value in decimal with four places, cut toward zero.
pub open spec fn fixed_text(v: Fixed) -> Seq<char> {
    let a: nat = if v.raw < 0 {
        (-v.raw) as nat
    } else {
        v.raw as nat
    };
    let sign = if v.raw < 0 {
        seq!['-']
    } else {
        Seq::<char>::empty()
    };
    sign + decimal(a / 65536) + seq!['.'] + four_digits((a % 65536) * 10000 / 65536)
}

pub open spec fn button_text(b: MouseButton) -> Seq<char> {
    match b {
        MouseButton::Left => "Left"@,
        MouseButton::Right => "Right"@,
        MouseButton::Middle => "Middle"@,
        MouseButton::Back => "Back"@,
        MouseButton::Forward => "Forward"@,
        MouseButton::Other(n) => "Other "@ + decimal(n as nat),
    }
}

/// The text of an event for logs and traces.
pub open spec fn event_text(e: Event) -> Seq<char> {
    match e {
        Event::WindowClose => "WindowClose"@,
        Event::WindowResize { width, height } => "WindowResize: "@ + decimal(width as nat) + ", "@
            + decimal(height as nat),
        Event::WindowFocusGained => "WindowFocusGained"@,
        Event::WindowFocusLost => "WindowFocusLost"@,
        Event::WindowMoved { x, y } => "WindowMoved: "@ + fixed_text(x) + ", "@ + fixed_text(y),
        Event::WindowScaleChanged { factor } => "WindowScaleChanged: "@ + fixed_text(factor),
        Event::AppTick => "AppTick"@,
        Event::AppUpdate => "AppUpdate"@,
        Event::AppRender => "AppRender"@,
        Event::KeyPressed { key, is_repeat } => "KeyPressed: "@ + decimal(key.code as nat) + if is_repeat {
            " (repeat)"@
        } else {
            Seq::<char>::empty()
        },
        Event::KeyReleased { key } => "KeyReleased: "@ + decimal(key.code as nat),
        Event::KeyTyped { character } => "KeyTyped: "@ + seq![character],
        Event::MouseButtonPressed(b) => "MouseButtonPressed: "@ + button_text(b),
        Event::MouseButtonReleased(b) => "MouseButtonReleased: "@ + button_text(b),
        Event::MouseMoved { x, y } => "MouseMoved: "@ + fixed_text(x) + ", "@ + fixed_text(y),
        Event::MouseScrolled { x_offset, y_offset } => "MouseScrolled: "@ + fixed_text(x_offset) + ", "@
            + fixed_text(y_offset),
    }
}

/// Relies on `String::push`: appends one char.
#[verifier::external_body]
fn push_char(s: &mut String, c: char)
    ensures
        final(s)@ == old(s)@.push(c),
{
    s.push(c);
}

fn push_digit(s: &mut String, d: u64)
    requires
        d < 10,
    ensures
        final(s)@ == old(s)@.push(digit_char(d as nat)),
{
    let c = if d == 0 {
        '0'
    } else if d == 1 {
        '1'
    } else if d == 2 {
        '2'
    } else if d == 3 {
        '3'
    } else if d == 4 {
        '4'
    } else if d == 5 {
        '5'
    } else if d == 6 {
        '6'
    } else if d == 7 {
        '7'
    } else if d == 8 {
        '8'
    } else {
        '9'
    };
    push_char(s, c);
}

fn push_decimal(s: &mut String, n: u64)
    ensures
        final(s)@ == old(s)@ + decimal(n as nat),
    decreases n,
{
    let ghost start = s@;
    if n >= 10 {
        push_decimal(s, n / 10);
        push_digit(s, n % 10);
        proof {
            assert(s@ =~= start + decimal(n as nat));
        }
    } else {
        push_digit(s, n);
        proof {
            assert(s@ =~= start + decimal(n as nat));
        }
    }
}

fn push_fixed(s: &mut String, v: Fixed)
    ensures
        final(s)@ == old(s)@ + fixed_text(v),
{
    let ghost start = s@;
    let a: u64 = if v.raw < 0 {
        (-(v.raw as i128)) as u64
    } else {
        v.raw as u64
    };
    if v.raw < 0 {
        push_char(s, '-');
    }
    push_decimal(s, a / 65536);
    push_char(s, '.');
    let f = (a % 65536) * 10000 / 65536;
    if f < 10 {
        s.append("000");
    } else if f < 100 {
        s.append("00");
    } else if f < 1000 {
        s.append("0");
    }
    push_decimal(s, f);
    proof {
        reveal_strlit("000");
        reveal_strlit("00");
        reveal_strlit("0");
        assert(s@ =~= start + fixed_text(v));
    }
}

fn push_button(s: &mut String, b: MouseButton)
    ensures
        final(s)@ == old(s)@ + button_text(b),
{
    let ghost start = s@;
    match b {
        MouseButton::Left => s.append("Left"),
        MouseButton::Right => s.append("Right"),
        MouseButton::Middle => s.append("Middle"),
        MouseButton::Back => s.append("Back"),
        MouseButton::Forward => s.append("Forward"),
        MouseButton::Other(n) => {
            s.append("Other ");
            push_decimal(s, n as u64);
            proof {
                assert(s@ =~= start + button_text(b));
            }
        },
    }
}

impl Event {
    /// The text of this event for logs and traces: the same for the same
    /// event, on every run.
    pub fn describe(&self) -> (r: String)
        ensures
            r@ == event_text(*self),
    {
        let mut s = String::new();
        match *self {
            Event::WindowClose => s.append("WindowClose"),
            Event::WindowResize { width, height } => {
                s.append("WindowResize: ");
                push_decimal(&mut s, width as u64);
                s.append(", ");
                push_decimal(&mut s, height as u64);
            },
            Event::WindowFocusGained => s.append("WindowFocusGained"),
            Event::WindowFocusLost => s.append("WindowFocusLost"),
            Event::WindowMoved { x, y } => {
                s.append("WindowMoved: ");
                push_fixed(&mut s, x);
                s.append(", ");
                push_fixed(&mut s, y);
            },
            Event::WindowScaleChanged { factor } => {
                s.append("WindowScaleChanged: ");
                push_fixed(&mut s, factor);
            },
            Event::AppTick => s.append("AppTick"),
            Event::AppUpdate => s.append("AppUpdate"),
            Event::AppRender => s.append("AppRender"),
            Event::KeyPressed { key, is_repeat } => {
                s.append("KeyPressed: ");
                push_decimal(&mut s, key.code as u64);
                if is_repeat {
                    s.append(" (repeat)");
                }
            },
            Event::KeyReleased { key } => {
                s.append("KeyReleased: ");
                push_decimal(&mut s, key.code as u64);
            },
            Event::KeyTyped { character } => {
                s.append("KeyTyped: ");
                push_char(&mut s, character);
            },
            Event::MouseButtonPressed(b) => {
                s.append("MouseButtonPressed: ");
                push_button(&mut s, b);
            },
            Event::MouseButtonReleased(b) => {
                s.append("MouseButtonReleased: ");
                push_button(&mut s, b);
            },
            Event::MouseMoved { x, y } => {
                s.append("MouseMoved: ");
                push_fixed(&mut s, x);
                s.append(", ");
                push_fixed(&mut s, y);
            },
            Event::MouseScrolled { x_offset, y_offset } => {
                s.append("MouseScrolled: ");
                push_fixed(&mut s, x_offset);
                s.append(", ");
                push_fixed(&mut s, y_offset);
            },
        }
        proof {
            assert(s@ =~= event_text(*self));
        }
        s
    }
}

} // verus!
