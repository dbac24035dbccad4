use vstd::prelude::*;
use crate::text::{chars_eq, chars_of};

verus! {

/// A fully resolved terminal color: one of the eight ANSI names, or an
/// RGB triple.
#[derive(Debug, PartialEq, Eq, Structural, Clone, Copy)]
pub enum Color {
    BLACK,
    RED,
    GREEN,
    YELLOW,
    BLUE,
    MAGENTA,
    CYAN,
    WHITE,
    RGB(u8, u8, u8),
}

impl Default for Color {
    /// The default terminal color is white.
    fn default() -> (r: Self)
        ensures
            r == Color::WHITE,
    {
        Color::WHITE
    }
}

/// The color a name denotes: each ANSI color under its upper-case and
/// lower-case spelling, nothing else.
pub open spec fn color_of_name(s: Seq<char>) -> Option<Color> {
    if s == "BLACK"@ || s == "black"@ {
        Some(Color::BLACK)
    } else if s == "RED"@ || s == "red"@ {
        Some(Color::RED)
    } else if s == "GREEN"@ || s == "green"@ {
        Some(Color::GREEN)
    } else if s == "YELLOW"@ || s == "yellow"@ {
        Some(Color::YELLOW)
    } else if s == "BLUE"@ || s == "blue"@ {
        Some(Color::BLUE)
    } else if s == "MAGENTA"@ || s == "magenta"@ {
        Some(Color::MAGENTA)
    } else if s == "CYAN"@ || s == "cyan"@ {
        Some(Color::CYAN)
    } else if s == "WHITE"@ || s == "white"@ {
        Some(Color::WHITE)
    } else {
        None
    }
}

fn word_eq(cs: &Vec<char>, w: &str) -> (r: bool)
    ensures
        r == (cs@ == w@),
{
    let wc = chars_of(w);
    chars_eq(cs, &wc)
}

/// The color a name denotes, or nothing when the name is none of the
/// eight ANSI color names in either spelling.
pub fn color_from_name(s: &str) -> (r: Option<Color>)
    ensures
        r == color_of_name(s@),
{
    let cs = chars_of(s);
    if word_eq(&cs, "BLACK") || word_eq(&cs, "black") {
        Some(Color::BLACK)
    } else if word_eq(&cs, "RED") || word_eq(&cs, "red") {
        Some(Color::RED)
    } else if word_eq(&cs, "GREEN") || word_eq(&cs, "green") {
        Some(Color::GREEN)
    } else if word_eq(&cs, "YELLOW") || word_eq(&cs, "yellow") {
        Some(Color::YELLOW)
    } else if word_eq(&cs, "BLUE") || word_eq(&cs, "blue") {
        Some(Color::BLUE)
    } else if word_eq(&cs, "MAGENTA") || word_eq(&cs, "magenta") {
        Some(Color::MAGENTA)
    } else if word_eq(&cs, "CYAN") || word_eq(&cs, "cyan") {
        Some(Color::CYAN)
    } else if word_eq(&cs, "WHITE") || word_eq(&cs, "white") {
        Some(Color::WHITE)
    } else {
        None
    }
}

/// The character standing for a decimal digit.
pub open spec fn digit_char(d: int) -> char {
    if d == 0 {
        '0'
    } else if d == 1 {
        '1'
    } else if d == 2 {
        '2'
    } else if d == 3 {
        '3'
    } else if d == 4 {
        '4'
    } else if d == 5 {
        '5'
    } else if d == 6 {
        '6'
    } else if d == 7 {
        '7'
    } else if d == 8 {
        '8'
    } else {
        '9'
    }
}

/// The decimal digits of a non-negative number, most significant first.
pub open spec fn dec_spec(n: int) -> Seq<char>
    decreases n,
{
    if n <= 9 {
        seq![digit_char(n)]
    } else {
        dec_spec(n / 10).push(digit_char(n % 10))
    }
}

fn push_digit(out: &mut Vec<char>, d: u8)
    requires
        d <= 9,
    ensures
        final(out)@ == old(out)@.push(digit_char(d as int)),
{
    let c: char = if d == 0 {
        '0'
    } else if d == 1 {
        '1'
    } else if d == 2 {
        '2'
    } else if d == 3 {
        '3'
    } else if d == 4 {
        '4'
    } else if d == 5 {
        '5'
    } else if d == 6 {
        '6'
    } else if d == 7 {
        '7'
    } else if d == 8 {
        '8'
    } else {
        '9'
    };
    out.push(c);
}

/// Appends the decimal form of `n` to `out`.
fn push_dec(out: &mut Vec<char>, n: u8)
    ensures
        final(out)@ == old(out)@ + dec_spec(n as int),
    decreases n,
{
    if n <= 9 {
        push_digit(out, n);
        assert(out@ =~= old(out)@ + dec_spec(n as int));
    } else {
        push_dec(out, n / 10);
        push_digit(out, n % 10);
        assert(out@ =~= old(out)@ + dec_spec(n as int));
    }
}

/// The escape sequence that switches the terminal to a color.
pub open spec fn color_code(c: Color) -> Seq<char> {
    match c {
        Color::BLACK => seq!['\u{1b}', '[', '3', '0', 'm'],
        Color::RED => seq!['\u{1b}', '[', '3', '1', 'm'],
        Color::GREEN => seq!['\u{1b}', '[', '3', '2', 'm'],
        Color::YELLOW => seq!['\u{1b}', '[', '3', '3', 'm'],
        Color::BLUE => seq!['\u{1b}', '[', '3', '4', 'm'],
        Color::MAGENTA => seq!['\u{1b}', '[', '3', '5', 'm'],
        Color::CYAN => seq!['\u{1b}', '[', '3', '6', 'm'],
        Color::WHITE => seq!['\u{1b}', '[', '3', '7', 'm'],
        Color::RGB(r, g, b) => seq!['\u{1b}', '[', '3', '8', ';', '2', ';'] + dec_spec(r as int)
            + seq![';'] + dec_spec(g as int) + seq![';'] + dec_spec(b as int) + seq!['m'],
    }
}

/// The escape sequence that resets the terminal color to its default.
pub open spec fn reset_code() -> Seq<char> {
    seq!['\u{1b}', '[', '0', 'm']
}

fn push_named_code(out: &mut Vec<char>, second: char)
    ensures
        final(out)@ == old(out)@ + seq!['\u{1b}', '[', '3', second, 'm'],
{
    out.push('\u{1b}');
    out.push('[');
    out.push('3');
    out.push(second);
    out.push('m');
    assert(out@ =~= old(out)@ + seq!['\u{1b}', '[', '3', second, 'm']);
}

/// Appends the escape sequence for `c` to `out`.
pub fn push_color_code(out: &mut Vec<char>, c: &Color)
    ensures
        final(out)@ == old(out)@ + color_code(*c),
{
    match c {
        Color::BLACK => push_named_code(out, '0'),
        Color::RED => push_named_code(out, '1'),
        Color::GREEN => push_named_code(out, '2'),
        Color::YELLOW => push_named_code(out, '3'),
        Color::BLUE => push_named_code(out, '4'),
        Color::MAGENTA => push_named_code(out, '5'),
        Color::CYAN => push_named_code(out, '6'),
        Color::WHITE => push_named_code(out, '7'),
        Color::RGB(r, g, b) => {
            out.push('\u{1b}');
            out.push('[');
            out.push('3');
            out.push('8');
            out.push(';');
            out.push('2');
            out.push(';');
            push_dec(out, *r);
            out.push(';');
            push_dec(out, *g);
            out.push(';');
            push_dec(out, *b);
            out.push('m');
            assert(out@ =~= old(out)@ + color_code(*c));
        },
    }
}

/// Appends the reset escape sequence to `out`.
pub fn push_reset_code(out: &mut Vec<char>)
    ensures
        final(out)@ == old(out)@ + reset_code(),
{
    out.push('\u{1b}');
    out.push('[');
    out.push('0');
    out.push('m');
    assert(out@ =~= old(out)@ + reset_code());
}

} // verus!
