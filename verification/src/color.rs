//! Palette colours and their hexadecimal text form.

use vstd::prelude::*;

verus! {

/// One palette entry: an opaque 8-bit RGB colour.
#[derive(Clone, Copy, Debug, PartialEq, Eq)]
pub struct Color {
    pub r: u8,
    pub g: u8,
    pub b: u8,
}

/// The upper-case hexadecimal digit that stands for `n`, for `n` below 16.
pub open spec fn hex_digit(n: int) -> char {
    if n == 0 {
        '0'
    } else if n == 1 {
        '1'
    } else if n == 2 {
        '2'
    } else if n == 3 {
        '3'
    } else if n == 4 {
        '4'
    } else if n == 5 {
        '5'
    } else if n == 6 {
        '6'
    } else if n == 7 {
        '7'
    } else if n == 8 {
        '8'
    } else if n == 9 {
        '9'
    } else if n == 10 {
        'A'
    } else if n == 11 {
        'B'
    } else if n == 12 {
        'C'
    } else if n == 13 {
        'D'
    } else if n == 14 {
        'E'
    } else {
        'F'
    }
}

/// The two hexadecimal digits of one channel, high nibble first.
pub open spec fn hex_pair(v: u8) -> Seq<char> {
    seq![hex_digit(v as int / 16), hex_digit(v as int % 16)]
}

/// The six-digit `RRGGBB` text of a colour.
pub open spec fn hex_text(r: u8, g: u8, b: u8) -> Seq<char> {
    hex_pair(r) + hex_pair(g) + hex_pair(b)
}

fn digit_text(n: u8) -> (s: &'static str)
    requires
        n < 16,
    ensures
        s@ == seq![hex_digit(n as int)],
{
    proof {
        reveal_strlit("0");
        reveal_strlit("1");
        reveal_strlit("2");
        reveal_strlit("3");
        reveal_strlit("4");
        reveal_strlit("5");
        reveal_strlit("6");
        reveal_strlit("7");
        reveal_strlit("8");
        reveal_strlit("9");
        reveal_strlit("A");
        reveal_strlit("B");
        reveal_strlit("C");
        reveal_strlit("D");
        reveal_strlit("E");
        reveal_strlit("F");
    }
    let s = match n {
        0 => "0",
        1 => "1",
        2 => "2",
        3 => "3",
        4 => "4",
        5 => "5",
        6 => "6",
        7 => "7",
        8 => "8",
        9 => "9",
        10 => "A",
        11 => "B",
        12 => "C",
        13 => "D",
        14 => "E",
        _ => "F",
    };
    assert(s@ =~= seq![hex_digit(n as int)]);
    s
}

fn push_hex_pair(out: &mut String, v: u8)
    ensures
        final(out)@ == old(out)@ + hex_pair(v),
{
    out.append(digit_text(v / 16));
    out.append(digit_text(v % 16));
    assert(out@ =~= old(out)@ + hex_pair(v));
}

/// Formats a colour as six upper-case hexadecimal digits, `RRGGBB`.
pub fn format_hex(r: u8, g: u8, b: u8) -> (text: String)
    ensures
        text@ == hex_text(r, g, b),
{
    let mut text = String::new();
    push_hex_pair(&mut text, r);
    push_hex_pair(&mut text, g);
    push_hex_pair(&mut text, b);
    assert(text@ =~= hex_text(r, g, b));
    text
}

impl Color {
    /// The colour as six upper-case hexadecimal digits, `RRGGBB`.
    pub fn to_hex(&self) -> (text: String)
        ensures
            text@ == hex_text(self.r, self.g, self.b),
    {
        format_hex(self.r, self.g, self.b)
    }
}

} // verus!
