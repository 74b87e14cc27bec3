//! Input events as the library's logic reads them, and the pressed-key and
//! mouse-button state that they build up.
use std::collections::HashSet;
use vstd::prelude::*;

verus! {

broadcast use vstd::std_specs::hash::group_hash_axioms;

#[derive(Clone, Copy, Debug, Eq, PartialEq, Structural)]
pub enum MouseButton {
    Left,
    Right,
    Middle,
    Other(u16),
}

#[derive(Clone, Copy, Debug, PartialEq, Eq, Structural)]
/// A key named by what it means rather than by where it sits.
pub enum SemanticKeyCode {
    /// The '1' key over the letters.
    Key1,
    /// The '2' key over the letters.
    Key2,
    /// The '3' key over the letters.
    Key3,
    /// The '4' key over the letters.
    Key4,
    /// The '5' key over the letters.
    Key5,
    /// The '6' key over the letters.
    Key6,
    /// The '7' key over the letters.
    Key7,
    /// The '8' key over the letters.
    Key8,
    /// The '9' key over the letters.
    Key9,
    /// The '0' key over the 'O' and 'P' keys.
    Key0,

    A,
    B,
    C,
    D,
    E,
    F,
    G,
    H,
    I,
    J,
    K,
    L,
    M,
    N,
    O,
    P,
    Q,
    R,
    S,
    T,
    U,
    V,
    W,
    X,
    Y,
    Z,

    /// The Escape key, next to F1.
    Escape,

    F1,
    F2,
    F3,
    F4,
    F5,
    F6,
    F7,
    F8,
    F9,
    F10,
    F11,
    F12,
    F13,
    F14,
    F15,
    F16,
    F17,
    F18,
    F19,
    F20,
    F21,
    F22,
    F23,
    F24,

    /// Print Screen/SysRq.
    Snapshot,
    /// Scroll Lock.
    Scroll,
    /// Pause/Break key, next to Scroll lock.
    Pause,

    /// `Insert`, next to Backspace.
    Insert,
    Home,
    Delete,
    End,
    PageDown,
    PageUp,

    Left,
    Up,
    Right,
    Down,

    /// The Backspace key, right over Enter.
    Back,
    /// The Enter key.
    Return,
    /// The space bar.
    Space,

    /// The "Compose" key on Linux.
    Compose,

    Caret,

    Numlock,
    Numpad0,
    Numpad1,
    Numpad2,
    Numpad3,
    Numpad4,
    Numpad5,
    Numpad6,
    Numpad7,
    Numpad8,
    Numpad9,
    NumpadAdd,
    NumpadDivide,
    NumpadDecimal,
    NumpadComma,
    NumpadEnter,
    NumpadEquals,
    NumpadMultiply,
    NumpadSubtract,

    AbntC1,
    AbntC2,
    Apostrophe,
    Apps,
    Asterisk,
    At,
    Ax,
    Backslash,
    Calculator,
    Capital,
    Colon,
    Comma,
    Convert,
    Equals,
    Grave,
    Kana,
    Kanji,
    LAlt,
    LBracket,
    LControl,
    LShift,
    LWin,
    Mail,
    MediaSelect,
    MediaStop,
    Minus,
    Mute,
    MyComputer,
    // also called "Next"
    NavigateForward,
    // also called "Prior"
    NavigateBackward,
    NextTrack,
    NoConvert,
    OEM102,
    Period,
    PlayPause,
    Plus,
    Power,
    PrevTrack,
    RAlt,
    RBracket,
    RControl,
    RShift,
    RWin,
    Semicolon,
    Slash,
    Sleep,
    Stop,
    Sysrq,
    Tab,
    Underline,
    Unlabeled,
    VolumeDown,
    VolumeUp,
    Wake,
    WebBack,
    WebFavorites,
    WebForward,
    WebHome,
    WebRefresh,
    WebSearch,
    WebStop,
    Yen,
    Copy,
    Paste,
    Cut,
}

/// Whether the event loop goes on after an event.
#[derive(Debug, Clone, Copy, PartialEq, Eq, Structural)]
pub enum ControlFlow {
    Continue,
    Quit,
}

/// The part of an input event that changes which keys and buttons are
/// held: presses and releases of mouse buttons and of keys (by scan code).
#[derive(Clone, Copy, Debug, Eq, PartialEq, Structural)]
pub enum ButtonEvent {
    MouseDown { button: MouseButton },
    MouseUp { button: MouseButton },
    KeyDown { scan_code: u32 },
    KeyUp { scan_code: u32 },
    /// Any other event, which leaves keys and buttons as they are.
    Other,
}

/// Which keys and mouse buttons are held down.
pub struct ButtonState {
    pub keycodes_down: HashSet<u32>,
    pub right_mouse_down: bool,
    pub middle_mouse_down: bool,
    pub left_mouse_down: bool,
}

/// The pressed keys and held buttons, as plain values.
pub struct ButtonView {
    pub keys: Set<u32>,
    pub right: bool,
    pub middle: bool,
    pub left: bool,
}

/// The held keys and buttons after `e`: a press marks its key or button
/// held, a release marks it free; other buttons and other events change
/// nothing.
pub open spec fn apply_button_event(v: ButtonView, e: ButtonEvent) -> ButtonView {
    match e {
        ButtonEvent::MouseDown { button } => match button {
            MouseButton::Left => ButtonView { left: true, ..v },
            MouseButton::Middle => ButtonView { middle: true, ..v },
            MouseButton::Right => ButtonView { right: true, ..v },
            MouseButton::Other(_) => v,
        },
        ButtonEvent::MouseUp { button } => match button {
            MouseButton::Left => ButtonView { left: false, ..v },
            MouseButton::Middle => ButtonView { middle: false, ..v },
            MouseButton::Right => ButtonView { right: false, ..v },
            MouseButton::Other(_) => v,
        },
        ButtonEvent::KeyDown { scan_code } => ButtonView { keys: v.keys.insert(scan_code), ..v },
        ButtonEvent::KeyUp { scan_code } => ButtonView { keys: v.keys.remove(scan_code), ..v },
        ButtonEvent::Other => v,
    }
}

/// The held keys and buttons after the events `es`, in order.
pub open spec fn apply_button_events(v: ButtonView, es: Seq<ButtonEvent>) -> ButtonView
    decreases es.len(),
{
    if es.len() == 0 {
        v
    } else {
        apply_button_event(apply_button_events(v, es.drop_last()), es.last())
    }
}

impl ButtonState {
    /// The held keys and buttons.
    pub open spec fn view(&self) -> ButtonView {
        ButtonView {
            keys: self.keycodes_down@,
            right: self.right_mouse_down,
            middle: self.middle_mouse_down,
            left: self.left_mouse_down,
        }
    }

    /// Nothing held.
    pub fn new() -> (s: Self)
        ensures
            s.view() == (ButtonView { keys: Set::empty(), right: false, middle: false, left: false }),
    {
        ButtonState {
            keycodes_down: HashSet::new(),
            right_mouse_down: false,
            middle_mouse_down: false,
            left_mouse_down: false,
        }
    }

    /// Applies one event.
    pub fn apply(&mut self, event: &ButtonEvent)
        ensures
            final(self).view() == apply_button_event(old(self).view(), *event),
    {
        match *event {
            ButtonEvent::MouseDown { button } => match button {
                MouseButton::Left => self.left_mouse_down = true,
                MouseButton::Middle => self.middle_mouse_down = true,
                MouseButton::Right => self.right_mouse_down = true,
                MouseButton::Other(_) => {},
            },
            ButtonEvent::MouseUp { button } => match button {
                MouseButton::Left => self.left_mouse_down = false,
                MouseButton::Middle => self.middle_mouse_down = false,
                MouseButton::Right => self.right_mouse_down = false,
                MouseButton::Other(_) => {},
            },
            ButtonEvent::KeyDown { scan_code } => {
                self.keycodes_down.insert(scan_code);
            },
            ButtonEvent::KeyUp { scan_code } => {
                self.keycodes_down.remove(&scan_code);
            },
            ButtonEvent::Other => {},
        }
    }

    /// Applies the events of a frame in order.
    pub fn process_events(&mut self, events: &[ButtonEvent])
        ensures
            final(self).view() == apply_button_events(old(self).view(), events@),
    {
        let ghost start = self.view();
        let mut i: usize = 0;
        while i < events.len()
            invariant
                i <= events@.len(),
                self.view() == apply_button_events(start, events@.take(i as int)),
            decreases events@.len() - i,
        {
            self.apply(&events[i]);
            proof {
                assert(events@.take(i as int + 1).drop_last() =~= events@.take(i as int));
                assert(events@.take(i as int + 1).last() == events@[i as int]);
            }
            i = i + 1;
        }
        assert(events@.take(i as int) =~= events@);
    }

    /// Whether the key with this scan code is held.
    pub fn key_down(&self, scan_code: u32) -> (r: bool)
        ensures
            r == self.view().keys.contains(scan_code),
    {
        self.keycodes_down.contains(&scan_code)
    }
}

/// Pressing a key and releasing it again leaves it free, and pressing a key
/// leaves it held, whatever came before.
pub proof fn lemma_key_press_release(v: ButtonView, scan_code: u32)
    ensures
        apply_button_event(v, ButtonEvent::KeyDown { scan_code }).keys.contains(scan_code),
        !apply_button_event(
            apply_button_event(v, ButtonEvent::KeyDown { scan_code }),
            ButtonEvent::KeyUp { scan_code },
        ).keys.contains(scan_code),
        apply_button_event(
            apply_button_event(v, ButtonEvent::KeyDown { scan_code }),
            ButtonEvent::KeyUp { scan_code },
        ).keys == v.keys.remove(scan_code),
{
    assert(v.keys.insert(scan_code).remove(scan_code) =~= v.keys.remove(scan_code));
}

/// Pressing a mouse button marks that button held, releasing it marks it
/// free, and either leaves the other buttons and the keys as they were.
pub proof fn lemma_mouse_press_release(v: ButtonView, button: MouseButton)
    ensures
        ({
            let p = apply_button_event(v, ButtonEvent::MouseDown { button });
            &&& p.left == (v.left || button is Left)
            &&& p.middle == (v.middle || button is Middle)
            &&& p.right == (v.right || button is Right)
            &&& p.keys == v.keys
        }),
        ({
            let r = apply_button_event(v, ButtonEvent::MouseUp { button });
            &&& r.left == (v.left && !(button is Left))
            &&& r.middle == (v.middle && !(button is Middle))
            &&& r.right == (v.right && !(button is Right))
            &&& r.keys == v.keys
        }),
{
}

/// Key events change only the held keys, a press adding its key and a
/// release removing it; other events change nothing.
pub proof fn lemma_key_events_keep_buttons(v: ButtonView, scan_code: u32)
    ensures
        ({
            let p = apply_button_event(v, ButtonEvent::KeyDown { scan_code });
            &&& p.keys == v.keys.insert(scan_code)
            &&& p.left == v.left && p.middle == v.middle && p.right == v.right
        }),
        ({
            let r = apply_button_event(v, ButtonEvent::KeyUp { scan_code });
            &&& r.keys == v.keys.remove(scan_code)
            &&& r.left == v.left && r.middle == v.middle && r.right == v.right
        }),
        apply_button_event(v, ButtonEvent::Other) == v,
{
}

} // verus!
