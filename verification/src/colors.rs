//! ANSI color escape codes used to highlight search matches.

use vstd::prelude::*;

verus! {

/// The available terminal colors, plus the reset code `End`.
pub enum Colors {
    Red,
    Green,
    Yellow,
    Blue,
    Purple,
    Cyan,
    White,
    End,
}

/// The escape sequence that `color` returns for each member.
pub open spec fn color_spec(colors: Colors) -> Seq<char> {
    match colors {
        Colors::Red => "\x1b[1;91m"@,
        Colors::Green => "\x1b[1;92m"@,
        Colors::Yellow => "\x1b[1;93m"@,
        Colors::Blue => "\x1b[1;94m"@,
        Colors::Purple => "\x1b[1;95m"@,
        Colors::Cyan => "\x1b[1;96m"@,
        Colors::White => "\x1b[1;97m"@,
        Colors::End => "\x1b[0m"@,
    }
}

/// Get a color based on the enum member.
/// e.g. Colors::Red -> \x1b[1;91m
pub fn color(colors: Colors) -> (r: &'static str)
    ensures
        r@ == color_spec(colors),
{
    match colors {
        Colors::Red => "\x1b[1;91m",
        Colors::Green => "\x1b[1;92m",
        Colors::Yellow => "\x1b[1;93m",
        Colors::Blue => "\x1b[1;94m",
        Colors::Purple => "\x1b[1;95m",
        Colors::Cyan => "\x1b[1;96m",
        Colors::White => "\x1b[1;97m",
        Colors::End => "\x1b[0m",
    }
}

} // verus!
