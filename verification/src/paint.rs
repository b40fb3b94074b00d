//! Text in colour: the escape sequences that make a terminal write text in a
//! colour, and the calls that produce them.

use crate::text::decimal;
use nu_ansi_term::Color;
use vstd::prelude::*;

verus! {

/// A colour of the terminal.
#[derive(Debug, Clone, Copy, PartialEq, Eq)]
pub enum Tint {
    Blue,
    Cyan,
    Green,
    Red,
    Yellow,
    Purple,
    /// The colour with the given red, green and blue part.
    Rgb(u8, u8, u8),
}

/// What tells a terminal to write text in a colour: a number of its own for
/// each of the named colours, and the three parts of any other one, in decimal
/// digits.
pub open spec fn tint_code(tint: Tint) -> Seq<char> {
    match tint {
        Tint::Blue => seq!['3', '4'],
        Tint::Cyan => seq!['3', '6'],
        Tint::Green => seq!['3', '2'],
        Tint::Red => seq!['3', '1'],
        Tint::Yellow => seq!['3', '3'],
        Tint::Purple => seq!['3', '5'],
        Tint::Rgb(red, green, blue) => seq!['3', '8', ';', '2', ';'] + decimal(red as nat) + seq![';']
            + decimal(green as nat) + seq![';'] + decimal(blue as nat),
    }
}

/// The escape sequence after which a terminal writes as it did before.
pub open spec fn ansi_reset() -> Seq<char> {
    seq!['\u{1b}', '[', '0', 'm']
}

/// `text` between the escape sequences that make a terminal write it in the
/// colour `tint`.
pub open spec fn painted(tint: Tint, text: Seq<char>) -> Seq<char> {
    seq!['\u{1b}', '['] + tint_code(tint) + seq!['m'] + text + ansi_reset()
}

/// `text` between the escape sequences that make a terminal write it in
/// italics and in the colour `tint`.
pub open spec fn painted_italic(tint: Tint, text: Seq<char>) -> Seq<char> {
    seq!['\u{1b}', '[', '3', ';'] + tint_code(tint) + seq!['m'] + text + ansi_reset()
}

/// `text` in the colour `tint`, as `nu_ansi_term::Color::paint` renders it: the
/// escape sequence that sets the colour of the text, the text, and the escape
/// sequence that resets the terminal. Nothing of this is proved here.
#[verifier::external_body]
pub(crate) fn paint(tint: Tint, text: &str) -> (r: String)
    ensures
        r@ == painted(tint, text@),
{
    let color = match tint {
        Tint::Blue => Color::Blue,
        Tint::Cyan => Color::Cyan,
        Tint::Green => Color::Green,
        Tint::Red => Color::Red,
        Tint::Yellow => Color::Yellow,
        Tint::Purple => Color::Purple,
        Tint::Rgb(red, green, blue) => Color::Rgb(red, green, blue),
    };
    color.paint(text).to_string()
}

/// `text` in italics and in the colour `tint`, as `nu_ansi_term::Style::paint`
/// renders it for the style that `Color::italic` gives: the escape sequence
/// that sets italics and the colour of the text, the text, and the escape
/// sequence that resets the terminal. Nothing of this is proved here.
#[verifier::external_body]
pub(crate) fn paint_italic(tint: Tint, text: &str) -> (r: String)
    ensures
        r@ == painted_italic(tint, text@),
{
    let color = match tint {
        Tint::Blue => Color::Blue,
        Tint::Cyan => Color::Cyan,
        Tint::Green => Color::Green,
        Tint::Red => Color::Red,
        Tint::Yellow => Color::Yellow,
        Tint::Purple => Color::Purple,
        Tint::Rgb(red, green, blue) => Color::Rgb(red, green, blue),
    };
    color.italic().paint(text).to_string()
}

} // verus!
