//! Teletype devices: their settings and the line discipline that decides what
//! an input byte does.
use vstd::prelude::*;

verus! {

/// Input flag: enable start/stop output control.
pub const IXON: u32 = 0x400;
/// Input flag: translate carriage return to newline on input.
pub const ICRNL: u32 = 0x100;
/// Output flag: post-process output.
pub const OPOST: u32 = 0x1;
/// Local flag: echo input characters.
pub const ECHO: u32 = 0x8;
/// Local flag: canonical mode (line editing).
pub const ICANON: u32 = 0x2;
/// Local flag: generate signals for the interrupt and suspend characters.
pub const ISIG: u32 = 0x1;
/// Local flag: extended input processing (literal next).
pub const IEXTEN: u32 = 0x8000;

/// Get the open pseudo terminal indexes
pub fn get_open_pseudo_terminal_indexes() -> (r: Vec<usize>)
    ensures
        r@.len() == 0,
{
    Vec::new()
}

/// The settings of a teletype device.
#[derive(Clone, Copy, Debug)]
pub struct TeletypeSettings {
    pub input_flags: u32,
    pub output_flags: u32,
    pub control_flags: u32,
    pub local_flags: u32,
    pub line_discipline: u8,
    pub control_characters: [u8; 32],
    pub input_speed: u32,
    pub output_speed: u32,
}

impl TeletypeSettings {
    /// The default settings: start/stop control and carriage return
    /// translation on input, output post-processing, and echo, canonical
    /// mode, signals and extended processing.
    pub fn new() -> (r: Self)
        ensures
            r.input_flags == IXON | ICRNL,
            r.output_flags == OPOST,
            r.control_flags == 0,
            r.local_flags == ECHO | ICANON | ISIG | IEXTEN,
            r.line_discipline == 0,
            forall|i: int| 0 <= i < 32 ==> r.control_characters@[i] == 0,
            r.input_speed == 0,
            r.output_speed == 0,
    {
        Self {
            input_flags: IXON | ICRNL,
            output_flags: OPOST,
            control_flags: 0,
            local_flags: ECHO | ICANON | ISIG | IEXTEN,
            line_discipline: 0,
            control_characters: [0u8; 32],
            input_speed: 0,
            output_speed: 0,
        }
    }
}

/// The signal that an input byte asks to send to the foreground process
/// group.
#[derive(Clone, Copy, Debug, PartialEq, Eq, Structural)]
pub enum TeletypeSignal {
    Interrupt,
    Stop,
}

/// What the line discipline does with an input byte.
#[derive(Clone, Copy, Debug, PartialEq, Eq, Structural)]
pub enum TeletypeInputAction {
    /// The byte was preceded by the literal-next character: the pending
    /// literal is cleared and the byte goes through untouched.
    Literal,
    /// Output is resumed (start character).
    Resume,
    /// Output is paused and the byte is dropped.
    Drop,
    /// Output is paused (stop character).
    Pause,
    /// The next byte is taken literally (literal-next character).
    LiteralNext,
    /// The signal is sent to the foreground process group.
    Signal(TeletypeSignal),
    /// The last character of the line is erased; `echo` tells whether the
    /// erasure is echoed.
    Erase { echo: bool },
    /// The byte goes on as input, with `echo` written back where there is
    /// something to echo.
    Pass { echo: Option<u8> },
}

impl TeletypeInputAction {
    /// The byte was consumed by the line discipline (and is not input).
    pub open spec fn spec_consumed(self) -> bool {
        !(self is Literal || self is Pass)
    }

    /// Whether the byte was consumed by the line discipline.
    pub fn consumed(&self) -> (r: bool)
        ensures
            r == self.spec_consumed(),
    {
        match self {
            TeletypeInputAction::Literal => false,
            TeletypeInputAction::Pass { .. } => false,
            _ => true,
        }
    }
}

/// Flag `f` is set in `flags`.
pub open spec fn has(flags: u32, f: u32) -> bool {
    flags & f != 0
}

/// The action of the line discipline for `byte`, given the settings, whether
/// output is paused and whether the previous byte was the literal-next
/// character. The rules are tried in this order.
pub open spec fn input_action_spec(settings: TeletypeSettings, paused: bool, literal: bool, byte: u8) -> TeletypeInputAction {
    let ixon = has(settings.input_flags, IXON);
    let iexten = has(settings.local_flags, IEXTEN);
    let isig = has(settings.local_flags, ISIG);
    let echo = has(settings.local_flags, ECHO);
    if iexten && literal && (!ixon || !paused) {
        TeletypeInputAction::Literal
    } else if ixon && byte == 17 {
        TeletypeInputAction::Resume
    } else if paused && ixon {
        TeletypeInputAction::Drop
    } else if ixon && byte == 19 {
        TeletypeInputAction::Pause
    } else if iexten && byte == 22 {
        TeletypeInputAction::LiteralNext
    } else if isig && byte == 3 {
        TeletypeInputAction::Signal(TeletypeSignal::Interrupt)
    } else if isig && byte == 26 {
        TeletypeInputAction::Signal(TeletypeSignal::Stop)
    } else if 0x20 <= byte < 0x7F {
        TeletypeInputAction::Pass { echo: if echo { Some(byte) } else { None } }
    } else if byte == 0x7F && has(settings.local_flags, ICANON) {
        TeletypeInputAction::Erase { echo }
    } else if byte == 0xD && has(settings.input_flags, ICRNL) {
        TeletypeInputAction::Pass { echo: if echo { Some(0x0Au8) } else { None } }
    } else {
        TeletypeInputAction::Pass { echo: None }
    }
}

/// Decide what an input byte does: flow control (start 17, stop 19), the
/// literal-next character (22), the interrupt (3) and suspend (26)
/// characters, echo of printable bytes, erasure (127) in canonical mode and
/// carriage return (13) echoed as a newline.
pub fn handle_input(settings: &TeletypeSettings, paused: bool, literal: bool, byte: u8) -> (r: TeletypeInputAction)
    ensures
        r == input_action_spec(*settings, paused, literal, byte),
{
    let ixon = settings.input_flags & IXON != 0;
    let iexten = settings.local_flags & IEXTEN != 0;

    if iexten && literal && (!ixon || !paused) {
        return TeletypeInputAction::Literal;
    }
    if ixon && byte == 17 {
        return TeletypeInputAction::Resume;
    }
    if paused && ixon {
        return TeletypeInputAction::Drop;
    }
    if ixon && byte == 19 {
        return TeletypeInputAction::Pause;
    }
    if iexten && byte == 22 {
        return TeletypeInputAction::LiteralNext;
    }
    if settings.local_flags & ISIG != 0 {
        if byte == 3 {
            return TeletypeInputAction::Signal(TeletypeSignal::Interrupt);
        } else if byte == 26 {
            return TeletypeInputAction::Signal(TeletypeSignal::Stop);
        }
    }
    let echo = settings.local_flags & ECHO != 0;
    if byte >= 0x20 && byte < 0x7F {
        TeletypeInputAction::Pass { echo: if echo { Some(byte) } else { None } }
    } else if byte == 0x7F {
        if settings.local_flags & ICANON != 0 {
            TeletypeInputAction::Erase { echo }
        } else {
            TeletypeInputAction::Pass { echo: None }
        }
    } else if byte == 0xD && settings.input_flags & ICRNL != 0 {
        TeletypeInputAction::Pass { echo: if echo { Some(0x0A) } else { None } }
    } else {
        TeletypeInputAction::Pass { echo: None }
    }
}

/// The rules of the line discipline, each stated for the inputs it covers.
/// With `lit` the case of a byte after the literal-next character and
/// `held` the case of output paused under flow control:
/// - after the literal-next character the byte goes through as it is;
/// - under flow control the start character resumes output, any other byte
///   is dropped while output is paused, and the stop character pauses it;
/// - the literal-next, interrupt and suspend characters act when their
///   flags are set;
/// - a printable byte (0x20 to 0x7E) goes on as input, echoed exactly when
///   ECHO is set;
/// - the delete byte erases in canonical mode (echoing the erasure with
///   ECHO) and is plain input otherwise;
/// - a carriage return is echoed as a newline with ICRNL and ECHO;
/// - every other byte goes on as input without echo.
pub proof fn lemma_line_discipline(settings: TeletypeSettings, paused: bool, literal: bool, b: u8)
    ensures
        ({
            let ixon = settings.input_flags & IXON != 0;
            let icrnl = settings.input_flags & ICRNL != 0;
            let iexten = settings.local_flags & IEXTEN != 0;
            let isig = settings.local_flags & ISIG != 0;
            let echo = settings.local_flags & ECHO != 0;
            let icanon = settings.local_flags & ICANON != 0;
            let lit = iexten && literal && (!ixon || !paused);
            let held = ixon && paused;
            let r = input_action_spec(settings, paused, literal, b);
            &&& lit ==> r == TeletypeInputAction::Literal
            &&& !lit && ixon && b == 17 ==> r == TeletypeInputAction::Resume
            &&& !lit && held && b != 17 ==> r == TeletypeInputAction::Drop
            &&& !lit && !held && ixon && b == 19 ==> r == TeletypeInputAction::Pause
            &&& !lit && !held && iexten && b == 22 && !(ixon && (b == 17 || b == 19))
                ==> r == TeletypeInputAction::LiteralNext
            &&& !lit && !held && isig && b == 3 ==> r == TeletypeInputAction::Signal(TeletypeSignal::Interrupt)
            &&& !lit && !held && isig && b == 26 ==> r == TeletypeInputAction::Signal(TeletypeSignal::Stop)
            &&& !lit && !held && 0x20 <= b < 0x7F && echo ==> r == TeletypeInputAction::Pass { echo: Some(b) }
            &&& !lit && !held && 0x20 <= b < 0x7F && !echo ==> r == TeletypeInputAction::Pass { echo: None }
            &&& !lit && !held && b == 0x7F && icanon ==> r == TeletypeInputAction::Erase { echo: echo }
            &&& !lit && !held && b == 0x7F && !icanon ==> r == TeletypeInputAction::Pass { echo: None }
            &&& !lit && !held && b == 0x0D && icrnl && echo ==> r == TeletypeInputAction::Pass {
                echo: Some(0x0Au8),
            }
            &&& !lit && !held && b == 0x0D && !(icrnl && echo) ==> r == TeletypeInputAction::Pass { echo: None }
            &&& !lit && !held && (b < 0x20 || b > 0x7F) && b != 0x0D && !(ixon && (b == 17 || b == 19)) && !(
            iexten && b == 22) && !(isig && (b == 3 || b == 26)) ==> r == TeletypeInputAction::Pass { echo: None }
            &&& r.spec_consumed() == !(r is Literal || r is Pass)
        }),
{
}

/// The flow-control state after each action: the start character clears
/// the pause, the stop character sets it, the literal-next character sets
/// the pending literal, a literal byte clears it, and every other action
/// keeps both.
pub proof fn lemma_flow_state(paused: bool, literal: bool, a: TeletypeInputAction)
    ensures
        a is Resume ==> state_after_spec(paused, literal, a) == (false, literal),
        a is Pause ==> state_after_spec(paused, literal, a) == (true, literal),
        a is LiteralNext ==> state_after_spec(paused, literal, a) == (paused, true),
        a is Literal ==> state_after_spec(paused, literal, a) == (paused, false),
        !(a is Resume || a is Pause || a is LiteralNext || a is Literal) ==> state_after_spec(paused, literal, a) == (
        paused, literal),
{
}

/// The flow-control state (output paused, literal-next pending) after the
/// line discipline took `action` in state (`paused`, `literal`).
pub open spec fn state_after_spec(paused: bool, literal: bool, action: TeletypeInputAction) -> (bool, bool) {
    match action {
        TeletypeInputAction::Literal => (paused, false),
        TeletypeInputAction::Resume => (false, literal),
        TeletypeInputAction::Pause => (true, literal),
        TeletypeInputAction::LiteralNext => (paused, true),
        _ => (paused, literal),
    }
}

/// The flow-control state after an action: the start character resumes
/// output, the stop character pauses it, the literal-next character makes
/// the next byte literal, and a literal byte clears that.
pub fn state_after(paused: bool, literal: bool, action: TeletypeInputAction) -> (r: (bool, bool))
    ensures
        r == state_after_spec(paused, literal, action),
{
    match action {
        TeletypeInputAction::Literal => (paused, false),
        TeletypeInputAction::Resume => (false, literal),
        TeletypeInputAction::Pause => (true, literal),
        TeletypeInputAction::LiteralNext => (paused, true),
        _ => (paused, literal),
    }
}

/// The bytes written back for an erase of the line discipline, given
/// whether a character was taken off the line and whether the erasure is
/// echoed: backspace, space, backspace where both hold, nothing otherwise.
pub fn erase_echo_bytes(erased: bool, echo: bool) -> (r: Vec<u8>)
    ensures
        r@ == (if erased && echo {
            seq![0x08u8, 0x20u8, 0x08u8]
        } else {
            Seq::<u8>::empty()
        }),
{
    let mut r: Vec<u8> = Vec::new();
    if erased && echo {
        r.push(0x08);
        r.push(0x20);
        r.push(0x08);
        assert(r@ =~= seq![0x08u8, 0x20u8, 0x08u8]);
    }
    r
}

/// The teletype I/O control commands.
#[derive(Clone, Copy, Debug, PartialEq, Eq, Structural)]
pub enum TeletypeIoctl {
    GetSettings,
    SetSettingsNoWait,
    SetSettingsDrain,
    SetSettingsFlush,
    GetProcessGroup,
    SetProcessGroup,
    /// A command that is not a teletype command.
    Other,
}

/// What a teletype does for an I/O control command.
#[derive(Clone, Copy, Debug, PartialEq, Eq, Structural)]
pub enum TeletypeIoctlAction {
    /// Write the settings into the response.
    ReportSettings,
    /// Take the settings of the response.
    ApplySettings,
    /// Flush the teletype, then take the settings of the response.
    FlushThenApplySettings,
    /// Write the foreground process group into the response.
    ReportProcessGroup,
    /// Take the foreground process group of the response.
    SetProcessGroup,
    /// The command is not supported.
    Unsupported,
}

/// The action for an I/O control command.
pub open spec fn ioctl_action_spec(cmd: TeletypeIoctl) -> TeletypeIoctlAction {
    match cmd {
        TeletypeIoctl::GetSettings => TeletypeIoctlAction::ReportSettings,
        TeletypeIoctl::SetSettingsNoWait => TeletypeIoctlAction::ApplySettings,
        TeletypeIoctl::SetSettingsFlush => TeletypeIoctlAction::FlushThenApplySettings,
        TeletypeIoctl::GetProcessGroup => TeletypeIoctlAction::ReportProcessGroup,
        TeletypeIoctl::SetProcessGroup => TeletypeIoctlAction::SetProcessGroup,
        _ => TeletypeIoctlAction::Unsupported,
    }
}

/// Decide what an I/O control command on a teletype does. Setting the
/// settings after draining the output is not implemented.
pub fn ioctl_action(cmd: TeletypeIoctl) -> (r: TeletypeIoctlAction)
    requires
        cmd != TeletypeIoctl::SetSettingsDrain,
    ensures
        r == ioctl_action_spec(cmd),
{
    match cmd {
        TeletypeIoctl::GetSettings => TeletypeIoctlAction::ReportSettings,
        TeletypeIoctl::SetSettingsNoWait => TeletypeIoctlAction::ApplySettings,
        TeletypeIoctl::SetSettingsFlush => TeletypeIoctlAction::FlushThenApplySettings,
        TeletypeIoctl::GetProcessGroup => TeletypeIoctlAction::ReportProcessGroup,
        TeletypeIoctl::SetProcessGroup => TeletypeIoctlAction::SetProcessGroup,
        _ => TeletypeIoctlAction::Unsupported,
    }
}

/// Each teletype command has its action: the settings are reported,
/// applied at once, or applied after a flush; the foreground process group
/// is reported or set; any other command is not supported.
pub proof fn lemma_ioctl_actions()
    ensures
        ioctl_action_spec(TeletypeIoctl::GetSettings) == TeletypeIoctlAction::ReportSettings,
        ioctl_action_spec(TeletypeIoctl::SetSettingsNoWait) == TeletypeIoctlAction::ApplySettings,
        ioctl_action_spec(TeletypeIoctl::SetSettingsFlush) == TeletypeIoctlAction::FlushThenApplySettings,
        ioctl_action_spec(TeletypeIoctl::GetProcessGroup) == TeletypeIoctlAction::ReportProcessGroup,
        ioctl_action_spec(TeletypeIoctl::SetProcessGroup) == TeletypeIoctlAction::SetProcessGroup,
        ioctl_action_spec(TeletypeIoctl::Other) == TeletypeIoctlAction::Unsupported,
{
}

/// The answer to an I/O control command once its action is done: 0, or
/// the code `not_supported` for a command the teletype does not support.
pub fn ioctl_answer(action: TeletypeIoctlAction, not_supported: usize) -> (r: usize)
    ensures
        r == (if action == TeletypeIoctlAction::Unsupported {
            not_supported
        } else {
            0
        }),
{
    match action {
        TeletypeIoctlAction::Unsupported => not_supported,
        _ => 0,
    }
}

/// The teletype attached to the UART.
pub struct UARTTeletype {}

impl UARTTeletype {
    /// Create the UART teletype.
    pub fn new() -> (r: Self)
        ensures
            r == (UARTTeletype {}),
    {
        Self {}
    }
}

} // verus!
