//! Textual renderings of a color: hex notation and a terminal color swatch.

use vstd::prelude::*;
use crate::color::RGB;

verus! {

/// The uppercase hex (and decimal) digit characters.
pub open spec fn hex_char(d: int) -> char {
    if d == 0 {
        '0'
    } else if d == 1 {
        '1'
    } else if d == 2 {
        '2'
    } else if d == 3 {
        '3'
    } else if d == 4 {
        '4'
    } else if d == 5 {
        '5'
    } else if d == 6 {
        '6'
    } else if d == 7 {
        '7'
    } else if d == 8 {
        '8'
    } else if d == 9 {
        '9'
    } else if d == 10 {
        'A'
    } else if d == 11 {
        'B'
    } else if d == 12 {
        'C'
    } else if d == 13 {
        'D'
    } else if d == 14 {
        'E'
    } else {
        'F'
    }
}

/// A channel as two uppercase hex digits.
pub open spec fn hex_pair_str(n: int) -> Seq<char> {
    seq![hex_char(n / 16), hex_char(n % 16)]
}

/// `#RRGGBB` for a color.
pub open spec fn hex_str_spec(c: RGB) -> Seq<char> {
    seq!['#'] + hex_pair_str(c.r as int) + hex_pair_str(c.g as int) + hex_pair_str(c.b as int)
}

/// A channel in decimal, without leading zeros.
pub open spec fn dec_digits(n: int) -> Seq<char> {
    if n < 10 {
        seq![hex_char(n)]
    } else if n < 100 {
        seq![hex_char(n / 10), hex_char(n % 10)]
    } else {
        seq![hex_char(n / 100), hex_char((n / 10) % 10), hex_char(n % 10)]
    }
}

/// The escape sequence that paints an eight-column block in the color's RGB
/// background, then resets the terminal.
pub open spec fn ansi_block_spec(c: RGB) -> Seq<char> {
    seq!['\u{1b}', '[', '4', '8', ';', '2', ';'] + dec_digits(c.r as int) + seq![';']
        + dec_digits(c.g as int) + seq![';'] + dec_digits(c.b as int) + seq![
        'm',
        ' ',
        ' ',
        ' ',
        ' ',
        ' ',
        ' ',
        ' ',
        ' ',
        '\u{1b}',
        '[',
        '0',
        'm',
    ]
}

/// The swatch followed by the hex notation.
pub open spec fn display_spec(c: RGB) -> Seq<char> {
    ansi_block_spec(c) + seq![' '] + hex_str_spec(c)
}

/// One digit as a string slice.
fn hex_digit_str(d: u8) -> (r: &'static str)
    requires
        d < 16,
    ensures
        r@ == seq![hex_char(d as int)],
{
    if d == 0 {
        proof {
            reveal_strlit("0");
        }
        assert(("0")@ =~= seq![hex_char(0)]);
        "0"
    } else if d == 1 {
        proof {
            reveal_strlit("1");
        }
        assert(("1")@ =~= seq![hex_char(1)]);
        "1"
    } else if d == 2 {
        proof {
            reveal_strlit("2");
        }
        assert(("2")@ =~= seq![hex_char(2)]);
        "2"
    } else if d == 3 {
        proof {
            reveal_strlit("3");
        }
        assert(("3")@ =~= seq![hex_char(3)]);
        "3"
    } else if d == 4 {
        proof {
            reveal_strlit("4");
        }
        assert(("4")@ =~= seq![hex_char(4)]);
        "4"
    } else if d == 5 {
        proof {
            reveal_strlit("5");
        }
        assert(("5")@ =~= seq![hex_char(5)]);
        "5"
    } else if d == 6 {
        proof {
            reveal_strlit("6");
        }
        assert(("6")@ =~= seq![hex_char(6)]);
        "6"
    } else if d == 7 {
        proof {
            reveal_strlit("7");
        }
        assert(("7")@ =~= seq![hex_char(7)]);
        "7"
    } else if d == 8 {
        proof {
            reveal_strlit("8");
        }
        assert(("8")@ =~= seq![hex_char(8)]);
        "8"
    } else if d == 9 {
        proof {
            reveal_strlit("9");
        }
        assert(("9")@ =~= seq![hex_char(9)]);
        "9"
    } else if d == 10 {
        proof {
            reveal_strlit("A");
        }
        assert(("A")@ =~= seq![hex_char(10)]);
        "A"
    } else if d == 11 {
        proof {
            reveal_strlit("B");
        }
        assert(("B")@ =~= seq![hex_char(11)]);
        "B"
    } else if d == 12 {
        proof {
            reveal_strlit("C");
        }
        assert(("C")@ =~= seq![hex_char(12)]);
        "C"
    } else if d == 13 {
        proof {
            reveal_strlit("D");
        }
        assert(("D")@ =~= seq![hex_char(13)]);
        "D"
    } else if d == 14 {
        proof {
            reveal_strlit("E");
        }
        assert(("E")@ =~= seq![hex_char(14)]);
        "E"
    } else {
        proof {
            reveal_strlit("F");
        }
        assert(("F")@ =~= seq![hex_char(15)]);
        "F"
    }
}

/// A channel rendered in decimal.
fn dec_str(n: u8) -> (r: String)
    ensures
        r@ == dec_digits(n as int),
{
    if n < 10 {
        let mut out = String::new();
        out.append(hex_digit_str(n));
        assert(out@ =~= dec_digits(n as int));
        out
    } else if n < 100 {
        let mut out = String::new();
        out.append(hex_digit_str(n / 10));
        out.append(hex_digit_str(n % 10));
        assert(out@ =~= dec_digits(n as int));
        out
    } else {
        let mut out = String::new();
        out.append(hex_digit_str(n / 100));
        out.append(hex_digit_str((n / 10) % 10));
        out.append(hex_digit_str(n % 10));
        assert(out@ =~= dec_digits(n as int));
        out
    }
}

impl RGB {
    /// `#RRGGBB` with uppercase hex digits.
    pub fn to_hex(&self) -> (result: String)
        ensures
            result@ == hex_str_spec(*self),
    {
        proof {
            reveal_strlit("#");
        }
        let mut out = String::new();
        out.append("#");
        out.append(hex_digit_str(self.r / 16));
        out.append(hex_digit_str(self.r % 16));
        out.append(hex_digit_str(self.g / 16));
        out.append(hex_digit_str(self.g % 16));
        out.append(hex_digit_str(self.b / 16));
        out.append(hex_digit_str(self.b % 16));
        assert(out@ =~= hex_str_spec(*self));
        out
    }

    /// An eight-column terminal block in this color's background.
    pub fn to_ansi_color_block(&self) -> (result: String)
        ensures
            result@ == ansi_block_spec(*self),
    {
        proof {
            reveal_strlit("\u{1b}[48;2;");
            reveal_strlit(";");
            reveal_strlit("m        \u{1b}[0m");
        }
        let mut out = String::new();
        out.append("\u{1b}[48;2;");
        let rs = dec_str(self.r);
        out.append(rs.as_str());
        out.append(";");
        let gs = dec_str(self.g);
        out.append(gs.as_str());
        out.append(";");
        let bs = dec_str(self.b);
        out.append(bs.as_str());
        out.append("m        \u{1b}[0m");
        assert(out@ =~= ansi_block_spec(*self));
        out
    }

    /// The swatch and the hex notation, space separated.
    pub fn display_with_color(&self) -> (result: String)
        ensures
            result@ == display_spec(*self),
    {
        proof {
            reveal_strlit(" ");
        }
        let mut out = self.to_ansi_color_block();
        out.append(" ");
        let hx = self.to_hex();
        out.append(hx.as_str());
        assert(out@ =~= display_spec(*self));
        out
    }
}

} // verus!
