use vstd::prelude::*;

verus! {

/// The colours that the report can be written in.
#[derive(Clone, Copy, Debug, PartialEq, Eq, Structural)]
pub enum ANSICode {
    Reset,
    Red,
    Green,
    Yellow,
    Blue,
    Magenta,
    Cyan,
    White,
}

/// The ANSI escape sequence that selects a colour.
pub open spec fn ansi_text(c: ANSICode) -> Seq<char> {
    match c {
        ANSICode::Reset => "\x1b[0m"@,
        ANSICode::Red => "\x1b[31m"@,
        ANSICode::Green => "\x1b[32m"@,
        ANSICode::Yellow => "\x1b[33m"@,
        ANSICode::Blue => "\x1b[34m"@,
        ANSICode::Magenta => "\x1b[35m"@,
        ANSICode::Cyan => "\x1b[36m"@,
        ANSICode::White => "\x1b[37m"@,
    }
}

impl ANSICode {
    pub fn value(&self) -> (r: &'static str)
        ensures
            r@ == ansi_text(*self),
    {
        match self {
            ANSICode::Reset => "\x1b[0m",
            ANSICode::Red => "\x1b[31m",
            ANSICode::Green => "\x1b[32m",
            ANSICode::Yellow => "\x1b[33m",
            ANSICode::Blue => "\x1b[34m",
            ANSICode::Magenta => "\x1b[35m",
            ANSICode::Cyan => "\x1b[36m",
            ANSICode::White => "\x1b[37m",
        }
    }
}

/// A text sink that writes in one colour at a time and resets it after each write.
pub struct Terminal {
    pub ansi_color: ANSICode,
    pub ansi_reset: ANSICode,
}

/// What a write of `text` puts out: the colour, the text, the reset sequence.
pub open spec fn colored(color: ANSICode, reset: ANSICode, text: Seq<char>) -> Seq<char> {
    ansi_text(color) + text + ansi_text(reset)
}

impl Terminal {
    pub fn new() -> (r: Terminal)
        ensures
            r.ansi_color == ANSICode::White,
            r.ansi_reset == ANSICode::Reset,
    {
        Terminal { ansi_color: ANSICode::White, ansi_reset: ANSICode::Reset }
    }

    pub fn set_ansi_color(&mut self, ansi_color: ANSICode)
        ensures
            final(self).ansi_color == ansi_color,
            final(self).ansi_reset == old(self).ansi_reset,
    {
        self.ansi_color = ansi_color;
    }

    /// The line that a write of `text` puts out, in the current colour.
    pub fn render(&self, text: &str) -> (r: String)
        ensures
            r@ == colored(self.ansi_color, self.ansi_reset, text@),
    {
        let mut s = String::from_str(self.ansi_color.value());
        s.append(text);
        s.append(self.ansi_reset.value());
        s
    }
}

} // verus!
