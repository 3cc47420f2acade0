//! Key codes.
use vstd::prelude::*;
use vstd::std_specs::cmp::PartialEqSpecImpl;

verus! {

/// A key of the keyboard that the host sees.
#[derive(Debug, Copy, Clone, Eq, PartialOrd, Ord, Hash)]
pub enum KeyCode {
    /// The placeholder that stands for no key.
    No,
    /// Error: too many keys are pressed at once.
    ErrorRollOver,
    /// Error: the power-on self test failed.
    PostFail,
    /// Error: undefined.
    ErrorUndefined,
    /// `a` and `A`.
    A,
    /// `b` and `B`.
    B,
    /// `c` and `C`.
    C,
    /// `d` and `D`.
    D,
    /// `e` and `E`.
    E,
    /// `f` and `F`.
    F,
    /// `g` and `G`.
    G,
    /// `h` and `H`.
    H,
    /// `i` and `I`.
    I,
    /// `j` and `J`.
    J,
    /// `k` and `K`.
    K,
    /// `l` and `L`.
    L,
    /// `m` and `M`.
    M,
    /// `n` and `N`.
    N,
    /// `o` and `O`.
    O,
    /// `p` and `P`.
    P,
    /// `q` and `Q`.
    Q,
    /// `r` and `R`.
    R,
    /// `s` and `S`.
    S,
    /// `t` and `T`.
    T,
    /// `u` and `U`.
    U,
    /// `v` and `V`.
    V,
    /// `w` and `W`.
    W,
    /// `x` and `X`.
    X,
    /// `y` and `Y`.
    Y,
    /// `z` and `Z`.
    Z,
    /// `1` and `!`.
    Kb1,
    /// `2` and `@`.
    Kb2,
    /// `3` and `#`.
    Kb3,
    /// `4` and `$`.
    Kb4,
    /// `5` and `%`.
    Kb5,
    /// `6` and `^`.
    Kb6,
    /// `7` and `&`.
    Kb7,
    /// `8` and `*`.
    Kb8,
    /// `9` and `(`.
    Kb9,
    /// `0` and `)`.
    Kb0,
    /// Enter.
    Enter,
    /// Escape.
    Escape,
    /// Backspace.
    BSpace,
    /// Tab.
    Tab,
    /// Space.
    Space,
    /// `-` and `_`.
    Minus,
    /// `=` and `+`.
    Equal,
    /// `[` and `{`.
    LBracket,
    /// `]` and `}`.
    RBracket,
    /// `\` and `|`.
    Bslash,
    /// Non-US `#`.
    NonUsHash,
    /// `;` and `:`.
    SColon,
    /// `'` and `"`.
    Quote,
    /// Grave accent and `~`.
    Grave,
    /// `,` and `<`.
    Comma,
    /// `.` and `>`.
    Dot,
    /// `/` and `?`.
    Slash,
    /// Caps lock.
    CapsLock,
    /// F1.
    F1,
    /// F2.
    F2,
    /// F3.
    F3,
    /// F4.
    F4,
    /// F5.
    F5,
    /// F6.
    F6,
    /// F7.
    F7,
    /// F8.
    F8,
    /// F9.
    F9,
    /// F10.
    F10,
    /// F11.
    F11,
    /// F12.
    F12,
    /// Print screen.
    PScreen,
    /// Scroll lock.
    ScrollLock,
    /// Pause.
    Pause,
    /// Insert.
    Insert,
    /// Home.
    Home,
    /// Page up.
    PgUp,
    /// Delete.
    Delete,
    /// End.
    End,
    /// Page down.
    PgDown,
    /// Right arrow.
    Right,
    /// Left arrow.
    Left,
    /// Down arrow.
    Down,
    /// Up arrow.
    Up,
    /// Num lock.
    NumLock,
    /// Keypad `/`.
    KpSlash,
    /// Keypad `*`.
    KpAsterisk,
    /// Keypad `-`.
    KpMinus,
    /// Keypad `+`.
    KpPlus,
    /// Keypad enter.
    KpEnter,
    /// Keypad `1`.
    Kp1,
    /// Keypad `2`.
    Kp2,
    /// Keypad `3`.
    Kp3,
    /// Keypad `4`.
    Kp4,
    /// Keypad `5`.
    Kp5,
    /// Keypad `6`.
    Kp6,
    /// Keypad `7`.
    Kp7,
    /// Keypad `8`.
    Kp8,
    /// Keypad `9`.
    Kp9,
    /// Keypad `0`.
    Kp0,
    /// Keypad `.`.
    KpDot,
    /// Non-US `\`.
    NonUsBslash,
    /// Application.
    Application,
    /// Power.
    Power,
    /// Keypad `=`.
    KpEqual,
    /// F13.
    F13,
    /// F14.
    F14,
    /// F15.
    F15,
    /// F16.
    F16,
    /// F17.
    F17,
    /// F18.
    F18,
    /// F19.
    F19,
    /// F20.
    F20,
    /// F21.
    F21,
    /// F22.
    F22,
    /// F23.
    F23,
    /// F24.
    F24,
    /// Execute.
    Execute,
    /// Help.
    Help,
    /// Menu.
    Menu,
    /// Select.
    Select,
    /// Stop.
    Stop,
    /// Again.
    Again,
    /// Undo.
    Undo,
    /// Cut.
    Cut,
    /// Copy.
    Copy,
    /// Paste.
    Paste,
    /// Find.
    Find,
    /// Mute.
    Mute,
    /// Volume up.
    VolUp,
    /// Volume down.
    VolDown,
    /// Left control.
    LCtrl,
    /// Left shift.
    LShift,
    /// Left alt.
    LAlt,
    /// Left gui.
    LGui,
    /// Right control.
    RCtrl,
    /// Right shift.
    RShift,
    /// Right alt.
    RAlt,
    /// Right gui.
    RGui,
    /// Play or pause.
    MediaPlayPause,
    /// Stop playing.
    MediaStop,
    /// Previous song.
    MediaPreviousSong,
    /// Next song.
    MediaNextSong,
    /// Media volume up.
    MediaVolUp,
    /// Media volume down.
    MediaVolDown,
    /// Media mute.
    MediaMute,
}

impl PartialEq for KeyCode {
    fn eq(&self, other: &Self) -> (equal: bool) {
        (*self as u8) == (*other as u8)
    }
}

/// Two key codes are equal exactly if they are the same key.
impl PartialEqSpecImpl for KeyCode {
    open spec fn obeys_eq_spec() -> bool {
        true
    }

    open spec fn eq_spec(&self, other: &Self) -> bool {
        *self == *other
    }
}

} // verus!
