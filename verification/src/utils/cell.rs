//! The presentation-level cell state and its two renderings: a short text
//! (one glyph per cell) and a texture path for an image-based view.

use vstd::prelude::*;

verus! {

/// What one cell of the board looks like to the player. Derived from the
/// engine state at query time; it owns nothing.
#[derive(Debug, Copy, Clone, PartialEq, Eq, Structural)]
pub enum Cell {
    /// An opened cell with that many adjacent mines (1 to 8 on a real board).
    Num(u8),
    Flag,
    /// An unopened mine, shown only after the game is lost.
    Mine,
    /// Transiently pressed during a chord gesture.
    Pressed,
    Closed,
    /// An opened cell with no adjacent mines.
    Opened,
    /// The mine that was actually opened.
    Exploded,
}

/// The character for a single decimal digit (and '9' past the digits, which
/// no caller asks for).
pub open spec fn digit_char(d: nat) -> char {
    if d == 0 {
        '0'
    } else if d == 1 {
        '1'
    } else if d == 2 {
        '2'
    } else if d == 3 {
        '3'
    } else if d == 4 {
        '4'
    } else if d == 5 {
        '5'
    } else if d == 6 {
        '6'
    } else if d == 7 {
        '7'
    } else if d == 8 {
        '8'
    } else {
        '9'
    }
}

/// The decimal digits of `n`, most significant first.
pub open spec fn decimal_chars(n: nat) -> Seq<char>
    decreases n,
{
    if n < 10 {
        seq![digit_char(n)]
    } else {
        decimal_chars(n / 10).push(digit_char(n % 10))
    }
}

/// One decimal digit as a string slice.
fn digit_str(d: u8) -> (r: &'static str)
    requires
        d < 10,
    ensures
        r@ == seq![digit_char(d as nat)],
{
    let r: &'static str = if d == 0 {
        "0"
    } else if d == 1 {
        "1"
    } else if d == 2 {
        "2"
    } else if d == 3 {
        "3"
    } else if d == 4 {
        "4"
    } else if d == 5 {
        "5"
    } else if d == 6 {
        "6"
    } else if d == 7 {
        "7"
    } else if d == 8 {
        "8"
    } else {
        "9"
    };
    proof {
        reveal_strlit("0");
        reveal_strlit("1");
        reveal_strlit("2");
        reveal_strlit("3");
        reveal_strlit("4");
        reveal_strlit("5");
        reveal_strlit("6");
        reveal_strlit("7");
        reveal_strlit("8");
        reveal_strlit("9");
        assert(r@ =~= seq![digit_char(d as nat)]);
    }
    r
}

/// Renders `n` in decimal.
pub fn decimal_string(n: u8) -> (r: String)
    ensures
        r@ == decimal_chars(n as nat),
    decreases n,
{
    if n < 10 {
        digit_str(n).to_owned()
    } else {
        proof {
            vstd::arithmetic::div_mod::lemma_div_is_strictly_smaller(n as int, 10);
        }
        let mut s = decimal_string(n / 10);
        s.append(digit_str(n % 10));
        proof {
            assert(s@ =~= decimal_chars(n as nat));
        }
        s
    }
}

/// The glyph a cell shows in the textual view: counts are set off by spaces,
/// every other state is an emoji block followed by a space.
pub open spec fn glyph(c: Cell) -> Seq<char> {
    match c {
        Cell::Num(n) => " "@ + decimal_chars(n as nat) + " "@,
        Cell::Flag => "🚩 "@,
        Cell::Mine => "💣 "@,
        Cell::Pressed => "🔲 "@,
        Cell::Closed => "⬛ "@,
        Cell::Opened => "⬜ "@,
        Cell::Exploded => "💥 "@,
    }
}

/// The texture file the image-based view shows for a cell.
pub open spec fn texture_path_chars(c: Cell) -> Seq<char> {
    match c {
        Cell::Num(n) => "img/type"@ + decimal_chars(n as nat) + ".svg"@,
        Cell::Flag => "img/flag.svg"@,
        Cell::Mine => "img/mine.svg"@,
        Cell::Pressed => "img/pressed.svg"@,
        Cell::Closed => "img/closed.svg"@,
        Cell::Opened => "img/type0.svg"@,
        Cell::Exploded => "img/mine_red.svg"@,
    }
}

impl Cell {
    /// The cell's glyph in the textual view.
    pub fn text(&self) -> (r: String)
        ensures
            r@ == glyph(*self),
    {
        match *self {
            Cell::Num(num) => {
                let mut s = String::from_str(" ");
                let d = decimal_string(num);
                s.append(d.as_str());
                s.append(" ");
                proof {
                    assert(s@ =~= glyph(Cell::Num(num)));
                }
                s
            },
            Cell::Flag => String::from_str("🚩 "),
            Cell::Mine => String::from_str("💣 "),
            Cell::Pressed => String::from_str("🔲 "),
            Cell::Closed => String::from_str("⬛ "),
            Cell::Opened => String::from_str("⬜ "),
            Cell::Exploded => String::from_str("💥 "),
        }
    }
}

/// Mapping a cell state to the texture the image-based view draws for it.
pub trait ConvertToTexture {
    /// The characters of the path the conversion must return.
    spec fn texture_spec(&self) -> Seq<char>;

    /// The path of the texture for this value.
    fn to_texture_path(&self) -> (r: String)
        ensures
            r@ == self.texture_spec(),
    ;
}

impl ConvertToTexture for Cell {
    open spec fn texture_spec(&self) -> Seq<char> {
        texture_path_chars(*self)
    }

    fn to_texture_path(&self) -> (r: String) {
        match *self {
            Cell::Num(num) => {
                let mut s = String::from_str("img/type");
                let d = decimal_string(num);
                s.append(d.as_str());
                s.append(".svg");
                proof {
                    assert(s@ =~= texture_path_chars(Cell::Num(num)));
                }
                s
            },
            Cell::Flag => String::from_str("img/flag.svg"),
            Cell::Mine => String::from_str("img/mine.svg"),
            Cell::Pressed => String::from_str("img/pressed.svg"),
            Cell::Closed => String::from_str("img/closed.svg"),
            Cell::Opened => String::from_str("img/type0.svg"),
            Cell::Exploded => String::from_str("img/mine_red.svg"),
        }
    }
}

} // verus!
