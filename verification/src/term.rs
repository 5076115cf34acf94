//! The terminal modes and the stack that keeps them in order.
//!
//! A mode is entered by a side effect on the terminal and left by another.
//! The stack records the modes in the order in which they were entered and
//! hands them back in reverse, each once, so that the terminal is left as
//! it was found. The side effects are the caller's: this module says what
//! they are and in which order they come.

use vstd::prelude::*;
use crate::ansi::{
    mouse_reporting, private_mode, push_private_mode, ALT_SCREEN, CURSOR, LINE_WRAP, MOUSE_MOTION,
    MOUSE_SGR,
};

verus! {

/// A change to the terminal that can be undone.
#[derive(Clone, Copy, Debug, PartialEq, Eq, Structural)]
pub enum Mode {
    /// Input comes byte by byte, unechoed, and control characters raise no
    /// signals. Entered and left by setting the attributes of the line.
    Raw,
    /// The terminal reports the mouse.
    MouseInput,
    /// The cursor does not show.
    HideCursor,
    /// Long lines do not wrap.
    NoWrap,
    /// The alternate screen shows, and the primary one is kept aside.
    AltScreen,
    /// Changes of the terminal's size are watched for. Entered and left by
    /// subscribing to the signal that tells of them.
    TerminalResizes,
}

impl Mode {
    /// The bytes that enter the mode when written to the terminal: none for
    /// the two modes that are not entered by writing.
    pub open spec fn entry(self) -> Seq<u8> {
        match self {
            Mode::Raw => Seq::<u8>::empty(),
            Mode::MouseInput => mouse_reporting(true),
            Mode::HideCursor => private_mode(CURSOR as nat, false),
            Mode::NoWrap => private_mode(LINE_WRAP as nat, false),
            Mode::AltScreen => private_mode(ALT_SCREEN as nat, true),
            Mode::TerminalResizes => Seq::<u8>::empty(),
        }
    }

    /// The bytes that leave the mode when written to the terminal.
    pub open spec fn exit(self) -> Seq<u8> {
        match self {
            Mode::Raw => Seq::<u8>::empty(),
            Mode::MouseInput => mouse_reporting(false),
            Mode::HideCursor => private_mode(CURSOR as nat, true),
            Mode::NoWrap => private_mode(LINE_WRAP as nat, true),
            Mode::AltScreen => private_mode(ALT_SCREEN as nat, false),
            Mode::TerminalResizes => Seq::<u8>::empty(),
        }
    }

    /// The bytes to write for entering the mode.
    pub fn enter_sequence(self) -> (res: Vec<u8>)
        ensures
            res@ == self.entry(),
    {
        let mut out: Vec<u8> = Vec::new();
        match self {
            Mode::Raw => {},
            Mode::MouseInput => {
                push_private_mode(&mut out, MOUSE_MOTION, true);
                push_private_mode(&mut out, MOUSE_SGR, true);
            },
            Mode::HideCursor => push_private_mode(&mut out, CURSOR, false),
            Mode::NoWrap => push_private_mode(&mut out, LINE_WRAP, false),
            Mode::AltScreen => push_private_mode(&mut out, ALT_SCREEN, true),
            Mode::TerminalResizes => {},
        }
        assert(out@ =~= self.entry());
        out
    }

    /// The bytes to write for leaving the mode. Writing them when the mode
    /// is not active does no harm.
    pub fn exit_sequence(self) -> (res: Vec<u8>)
        ensures
            res@ == self.exit(),
    {
        let mut out: Vec<u8> = Vec::new();
        match self {
            Mode::Raw => {},
            Mode::MouseInput => {
                push_private_mode(&mut out, MOUSE_MOTION, false);
                push_private_mode(&mut out, MOUSE_SGR, false);
            },
            Mode::HideCursor => push_private_mode(&mut out, CURSOR, true),
            Mode::NoWrap => push_private_mode(&mut out, LINE_WRAP, true),
            Mode::AltScreen => push_private_mode(&mut out, ALT_SCREEN, false),
            Mode::TerminalResizes => {},
        }
        assert(out@ =~= self.exit());
        out
    }
}

/// A mode that was entered, with what is needed to leave it. `A` is the type
/// of the line's attributes.
#[derive(Debug)]
pub enum ActiveMode<A> {
    /// Raw mode, with the attributes that the line had before.
    Raw(A),
    MouseInput,
    HideCursor,
    NoWrap,
    AltScreen,
    TerminalResizes,
}

impl<A> ActiveMode<A> {
    /// The mode that was entered.
    pub open spec fn kind(self) -> Mode {
        match self {
            ActiveMode::Raw(_) => Mode::Raw,
            ActiveMode::MouseInput => Mode::MouseInput,
            ActiveMode::HideCursor => Mode::HideCursor,
            ActiveMode::NoWrap => Mode::NoWrap,
            ActiveMode::AltScreen => Mode::AltScreen,
            ActiveMode::TerminalResizes => Mode::TerminalResizes,
        }
    }

    /// The mode that was entered.
    pub fn mode(&self) -> (res: Mode)
        ensures
            res == self.kind(),
    {
        match self {
            ActiveMode::Raw(_) => Mode::Raw,
            ActiveMode::MouseInput => Mode::MouseInput,
            ActiveMode::HideCursor => Mode::HideCursor,
            ActiveMode::NoWrap => Mode::NoWrap,
            ActiveMode::AltScreen => Mode::AltScreen,
            ActiveMode::TerminalResizes => Mode::TerminalResizes,
        }
    }
}

/// The modes that are active, in the order in which they were entered.
pub struct ModeStack<A> {
    modes: Vec<ActiveMode<A>>,
}

impl<A> View for ModeStack<A> {
    type V = Seq<ActiveMode<A>>;

    /// The active modes, the one entered first at the front.
    closed spec fn view(&self) -> Seq<ActiveMode<A>> {
        self.modes@
    }
}

impl<A> ModeStack<A> {
    /// A stack with no mode active.
    pub fn new() -> (res: ModeStack<A>)
        ensures
            res@ == Seq::<ActiveMode<A>>::empty(),
    {
        ModeStack { modes: Vec::new() }
    }

    /// The number of active modes.
    pub fn depth(&self) -> (res: usize)
        ensures
            res == self@.len(),
    {
        self.modes.len()
    }

    /// Records `mode` as entered and hands out the bytes that enter it.
    ///
    /// The mode is recorded before anything is written, so that a release
    /// also leaves a mode whose entry failed half way.
    pub fn enter(&mut self, mode: ActiveMode<A>) -> (res: Vec<u8>)
        ensures
            final(self)@ == old(self)@.push(mode),
            res@ == mode.kind().entry(),
    {
        let bytes = mode.mode().enter_sequence();
        self.modes.push(mode);
        bytes
    }

    /// Hands out all active modes for leaving, the one entered last first,
    /// and forgets them: a second release hands out nothing.
    pub fn release(&mut self) -> (res: Vec<ActiveMode<A>>)
        ensures
            res@ == old(self)@.reverse(),
            final(self)@ == Seq::<ActiveMode<A>>::empty(),
    {
        let mut out: Vec<ActiveMode<A>> = Vec::new();
        let ghost n = self.modes@.len();
        while self.modes.len() > 0
            invariant
                n == old(self)@.len(),
                self.modes@.len() + out@.len() == n,
                self.modes@ == old(self)@.subrange(0, self.modes@.len() as int),
                forall|i: int| 0 <= i < out@.len() ==> out@[i] == old(self)@[n - 1 - i],
            decreases self.modes@.len(),
        {
            let top = self.modes.pop();
            if let Some(mode) = top {
                out.push(mode);
            }
            assert(self.modes@ =~= old(self)@.subrange(0, self.modes@.len() as int));
        }
        assert(out@ =~= old(self)@.reverse());
        assert(self.modes@ =~= Seq::<ActiveMode<A>>::empty());
        out
    }
}

/// Modes are left in the reverse of the order in which they were entered:
/// what was entered on top of a stack is handed out for leaving before what
/// was on it, the mode entered last first.
pub proof fn lemma_release_reverses_entry<A>(
    stack: Seq<ActiveMode<A>>,
    entered: Seq<ActiveMode<A>>,
)
    ensures
        (stack + entered).reverse() == entered.reverse() + stack.reverse(),
        entered.reverse().len() == entered.len(),
        forall|i: int|
            0 <= i < entered.len() ==> #[trigger] entered.reverse()[i] == entered[entered.len() - 1
                - i],
{
    assert((stack + entered).reverse() =~= entered.reverse() + stack.reverse());
}

/// The attributes of a terminal line, as `termios` holds them. Nothing of
/// what is inside is known here: the values are carried from where they are
/// read to where they are set.
#[verifier::external_type_specification]
#[verifier::external_body]
pub struct ExTermios(termios::Termios);

/// What `termios::cfmakeraw` makes of the attributes `found`: the same
/// attributes with the flags set that switch all processing of input and
/// output off, which is what raw mode asks of the line. Which flags these
/// are is the C library's to say. The name says that the result depends on
/// `found` alone.
pub uninterp spec fn raw_attributes(found: termios::Termios) -> termios::Termios;

/// Calls `termios::cfmakeraw`, which sets in `attributes` the flags that
/// switch all processing of input and output off, going by nothing but what
/// `attributes` holds. The line itself is not touched. The claim is that
/// the attributes afterwards are [`raw_attributes`] of those before; of the
/// flags themselves nothing is claimed.
#[verifier::external_body]
fn make_raw(attributes: &mut termios::Termios)
    ensures
        *final(attributes) == raw_attributes(*old(attributes)),
{
    termios::cfmakeraw(attributes)
}

impl ModeStack<termios::Termios> {
    /// Records raw mode as entered, with `found` being the attributes of the
    /// line as they are now, and hands out the attributes to set on the line
    /// for raw mode. A release hands `found` back for restoring.
    pub fn enter_raw(&mut self, found: termios::Termios) -> (raw: termios::Termios)
        ensures
            final(self)@ == old(self)@.push(ActiveMode::Raw(found)),
            raw == raw_attributes(found),
    {
        let mut raw = found;
        make_raw(&mut raw);
        self.modes.push(ActiveMode::Raw(found));
        raw
    }
}

} // verus!
