//! The interactive shell's line editor: what each typed key does to the
//! line and what the console must show.
use vstd::prelude::*;

pub mod commands;
pub mod output;

verus! {

/// Bytes a line may hold, one of them kept free.
pub const BUFFER_CAPACITY: usize = 80;

/// A key the editor stores: printable ASCII.
pub open spec fn printable(c: char) -> bool {
    0x20 <= c as u32 <= 0x7E
}

/// What the console does after a key.
#[derive(Debug, Clone, PartialEq, Eq)]
pub enum ShellAction {
    /// Nothing to show.
    Nothing,
    /// Erase the last character shown.
    Erase,
    /// Show the character.
    Echo(char),
    /// End the line: run the line typed, if any, then show a new prompt.
    Submit(Option<Vec<u8>>),
}

/// The line being typed.
pub struct LineEditor {
    line: Vec<u8>,
}

impl View for LineEditor {
    type V = Seq<u8>;

    closed spec fn view(&self) -> Seq<u8> {
        self.line@
    }
}

/// Every byte of `s` is printable ASCII.
pub open spec fn printable_bytes(s: Seq<u8>) -> bool {
    forall|i: int| 0 <= i < s.len() ==> 0x20 <= #[trigger] s[i] <= 0x7E
}

impl LineEditor {
    pub open spec fn wf(&self) -> bool {
        self@.len() < BUFFER_CAPACITY && printable_bytes(self@)
    }

    /// An empty line.
    pub fn new() -> (r: Self)
        ensures
            r.wf(),
            r@ == Seq::<u8>::empty(),
    {
        LineEditor { line: Vec::new() }
    }

    /// The line typed so far.
    pub fn line(&self) -> (r: &[u8])
        ensures
            r@ == self@,
    {
        self.line.as_slice()
    }

    /// Handles one key: backspace removes the last character, Enter hands
    /// out the line (spaces around it trimmed) and starts a new one, a
    /// printable ASCII character is added while there is room; anything
    /// else is ignored.
    pub fn feed(&mut self, c: char) -> (r: ShellAction)
        requires
            old(self).wf(),
        ensures
            final(self).wf(),
            c == '\x08' ==> if old(self)@.len() > 0 {
                r == ShellAction::Erase && final(self)@ == old(self)@.drop_last()
            } else {
                r == ShellAction::Nothing && final(self)@ == old(self)@
            },
            c == '\n' ==> final(self)@ == Seq::<u8>::empty() && (if old(self)@.len() > 0 {
                r matches ShellAction::Submit(Some(line)) && line@ == crate::shell::commands::trimmed(old(self)@)
            } else {
                r == ShellAction::Submit(None)
            }),
            c != '\x08' && c != '\n' && printable(c) && old(self)@.len() < BUFFER_CAPACITY - 1 ==> r
                == ShellAction::Echo(c) && final(self)@ == old(self)@.push(c as u8),
            c != '\x08' && c != '\n' && !(printable(c) && old(self)@.len() < BUFFER_CAPACITY - 1) ==> r
                == ShellAction::Nothing && final(self)@ == old(self)@,
    {
        if c == '\x08' {
            if self.line.len() > 0 {
                self.line.pop();
                return ShellAction::Erase;
            }
            return ShellAction::Nothing;
        }
        if c == '\n' {
            if self.line.len() > 0 {
                let line = crate::shell::commands::trim(self.line.as_slice());
                self.line = Vec::new();
                return ShellAction::Submit(Some(line));
            }
            return ShellAction::Submit(None);
        }
        let code = c as u32;
        if 0x20 <= code && code <= 0x7E && self.line.len() < BUFFER_CAPACITY - 1 {
            self.line.push(code as u8);
            return ShellAction::Echo(c);
        }
        ShellAction::Nothing
    }
}

} // verus!
