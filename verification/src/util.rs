//! Colouring of terminal output with ANSI escape sequences.
use vstd::prelude::*;

verus! {

/// The colours a text can be printed in; `Reset` returns to the terminal's
/// default.
#[derive(Clone, Copy, Debug, PartialEq, Eq, Structural)]
pub enum AnsiColor {
    Red,
    Green,
    Yellow,
    Blue,
    Grey,
    Reset,
}

/// The escape sequence that switches the terminal to colour `c`.
pub open spec fn ansi_code(c: AnsiColor) -> Seq<char> {
    match c {
        AnsiColor::Red => seq!['\x1b', '[', '3', '1', 'm'],
        AnsiColor::Green => seq!['\x1b', '[', '3', '2', 'm'],
        AnsiColor::Yellow => seq!['\x1b', '[', '3', '3', 'm'],
        AnsiColor::Blue => seq!['\x1b', '[', '3', '4', 'm'],
        AnsiColor::Grey => seq!['\x1b', '[', '3', '7', 'm'],
        AnsiColor::Reset => seq!['\x1b', '[', '0', 'm'],
    }
}

impl AnsiColor {
    /// The escape sequence of the colour.
    pub fn code(self) -> (r: &'static str)
        ensures
            r@ == ansi_code(self),
    {
        match self {
            AnsiColor::Red => {
                proof {
                    reveal_strlit("\x1b[31m");
                }
                "\x1b[31m"
            },
            AnsiColor::Green => {
                proof {
                    reveal_strlit("\x1b[32m");
                }
                "\x1b[32m"
            },
            AnsiColor::Yellow => {
                proof {
                    reveal_strlit("\x1b[33m");
                }
                "\x1b[33m"
            },
            AnsiColor::Blue => {
                proof {
                    reveal_strlit("\x1b[34m");
                }
                "\x1b[34m"
            },
            AnsiColor::Grey => {
                proof {
                    reveal_strlit("\x1b[37m");
                }
                "\x1b[37m"
            },
            AnsiColor::Reset => {
                proof {
                    reveal_strlit("\x1b[0m");
                }
                "\x1b[0m"
            },
        }
    }
}

/// `text` in colour `color`, followed by the sequence that resets the
/// colour.
pub fn as_colored(text: &str, color: AnsiColor) -> (r: String)
    ensures
        r@ == ansi_code(color) + text@ + ansi_code(AnsiColor::Reset),
{
    let mut s = String::new();
    s.append(color.code());
    s.append(text);
    s.append(AnsiColor::Reset.code());
    s
}

} // verus!
