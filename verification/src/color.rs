//! Colours for terminal output.

use crate::text;
use vstd::prelude::*;

verus! {

/// Whether to write colours: never where `NO_COLOR` is set, always where
/// `FORCE_COLOR` is, else where the output is a terminal.
pub open spec fn is_enabled(no_color: bool, force_color: bool, terminal: bool) -> bool {
    !no_color && (force_color || terminal)
}

/// Whether to write colours.
pub fn enabled(no_color: bool, force_color: bool, terminal: bool) -> (r: bool)
    ensures
        r == is_enabled(no_color, force_color, terminal),
{
    if no_color {
        return false;
    }
    if force_color {
        return true;
    }
    terminal
}

/// A text between the escape codes of a colour, where colours are written.
pub open spec fn painted(code: Seq<char>, s: Seq<char>, colored: bool) -> Seq<char> {
    if colored {
        "\x1b["@ + code + "m"@ + s + "\x1b[0m"@
    } else {
        s
    }
}

fn paint(code: &str, s: &str, colored: bool) -> (r: String)
    ensures
        r@ == painted(code@, s@, colored),
{
    if colored {
        let mut out = text::concat3("\x1b[", code, "m");
        out.append(s);
        out.append("\x1b[0m");
        out
    } else {
        s.to_owned()
    }
}

pub fn green(s: &str, colored: bool) -> (r: String)
    ensures
        r@ == painted("32"@, s@, colored),
{
    paint("32", s, colored)
}

pub fn red(s: &str, colored: bool) -> (r: String)
    ensures
        r@ == painted("31"@, s@, colored),
{
    paint("31", s, colored)
}

pub fn yellow(s: &str, colored: bool) -> (r: String)
    ensures
        r@ == painted("33"@, s@, colored),
{
    paint("33", s, colored)
}

pub fn cyan(s: &str, colored: bool) -> (r: String)
    ensures
        r@ == painted("36"@, s@, colored),
{
    paint("36", s, colored)
}

pub fn bold(s: &str, colored: bool) -> (r: String)
    ensures
        r@ == painted("1"@, s@, colored),
{
    paint("1", s, colored)
}

/// The line for a step that succeeded.
pub fn success(msg: &str, colored: bool) -> (r: String)
    ensures
        r@ == painted("32"@, "✓"@, colored) + " "@ + msg@,
{
    text::concat3(green("✓", colored).as_str(), " ", msg)
}

/// The line for an error.
pub fn error(msg: &str, colored: bool) -> (r: String)
    ensures
        r@ == painted("31"@, "✗"@, colored) + " "@ + msg@,
{
    text::concat3(red("✗", colored).as_str(), " ", msg)
}

/// The line for a warning.
pub fn warn(msg: &str, colored: bool) -> (r: String)
    ensures
        r@ == painted("33"@, "!"@, colored) + " "@ + msg@,
{
    text::concat3(yellow("!", colored).as_str(), " ", msg)
}

/// The line for a piece of information.
pub fn info(msg: &str, colored: bool) -> (r: String)
    ensures
        r@ == painted("36"@, "•"@, colored) + " "@ + msg@,
{
    text::concat3(cyan("•", colored).as_str(), " ", msg)
}

/// Without colours a text is left as it is.
pub proof fn lemma_plain_without_color(code: Seq<char>, s: Seq<char>)
    ensures
        painted(code, s, false) == s,
{
}

} // verus!
