//! Presentation helpers: the field-type enum an alternative grid builder
//! would produce, and its texture mapping.

use crate::utils::cell::{decimal_chars, decimal_string};
use vstd::prelude::*;

pub mod cell;
pub mod view;

verus! {

/// A builder of a grid of field types (an alternative to the cell-state
/// builder of the engine; no type of this crate implements it).
pub trait MineFieldBuilder {
    /// Derives the full presentation grid, row-major.
    fn build(&self) -> Vec<Vec<FieldType>>;
}

/// Mapping a field type to the texture the image-based view draws for it.
pub trait FieldToTexturePath {
    /// The characters of the path the conversion must return.
    spec fn path_spec(&self) -> Seq<char>;

    /// The path of the texture for this value.
    fn to_path(&self) -> (r: String)
        ensures
            r@ == self.path_spec(),
    ;
}

/// What one cell of the board looks like to the player, as a standalone
/// presentation type.
#[derive(Debug, Copy, Clone, PartialEq, Eq, Structural)]
pub enum FieldType {
    /// An opened cell with that many adjacent mines.
    Num(u8),
    Flag,
    /// An unopened mine, shown only after the game is lost.
    Mine,
    /// Transiently pressed during a chord gesture.
    Pressed,
    Closed,
    /// An opened cell with no adjacent mines.
    Opened,
    /// The mine that was actually opened.
    Exploded,
}

/// The glyph a field type shows in the textual view: counts are set off by
/// spaces, every other state is an emoji block followed by a space.
pub open spec fn field_glyph(f: FieldType) -> Seq<char> {
    match f {
        FieldType::Num(n) => " "@ + decimal_chars(n as nat) + " "@,
        FieldType::Flag => "🚩 "@,
        FieldType::Mine => "💣 "@,
        FieldType::Pressed => "🔲 "@,
        FieldType::Closed => "⬛ "@,
        FieldType::Opened => "⬜ "@,
        FieldType::Exploded => "💥 "@,
    }
}

impl FieldType {
    /// The field type's glyph in the textual view.
    pub fn text(&self) -> (r: String)
        ensures
            r@ == field_glyph(*self),
    {
        match *self {
            FieldType::Num(num) => {
                let mut s = String::from_str(" ");
                let d = decimal_string(num);
                s.append(d.as_str());
                s.append(" ");
                proof {
                    assert(s@ =~= field_glyph(FieldType::Num(num)));
                }
                s
            },
            FieldType::Flag => String::from_str("🚩 "),
            FieldType::Mine => String::from_str("💣 "),
            FieldType::Pressed => String::from_str("🔲 "),
            FieldType::Closed => String::from_str("⬛ "),
            FieldType::Opened => String::from_str("⬜ "),
            FieldType::Exploded => String::from_str("💥 "),
        }
    }
}

/// The texture file the image-based view shows for a field type.
pub open spec fn field_path_chars(f: FieldType) -> Seq<char> {
    match f {
        FieldType::Num(n) => "img/type"@ + decimal_chars(n as nat) + ".svg"@,
        FieldType::Flag => "img/flag.svg"@,
        FieldType::Mine => "img/mine.svg"@,
        FieldType::Pressed => "img/pressed.svg"@,
        FieldType::Closed => "img/closed.svg"@,
        FieldType::Opened => "img/type0.svg"@,
        FieldType::Exploded => "img/mine_red.svg"@,
    }
}

impl FieldToTexturePath for FieldType {
    open spec fn path_spec(&self) -> Seq<char> {
        field_path_chars(*self)
    }

    fn to_path(&self) -> (r: String) {
        match *self {
            FieldType::Num(num) => {
                let mut s = String::from_str("img/type");
                let d = decimal_string(num);
                s.append(d.as_str());
                s.append(".svg");
                proof {
                    assert(s@ =~= field_path_chars(FieldType::Num(num)));
                }
                s
            },
            FieldType::Flag => String::from_str("img/flag.svg"),
            FieldType::Mine => String::from_str("img/mine.svg"),
            FieldType::Pressed => String::from_str("img/pressed.svg"),
            FieldType::Closed => String::from_str("img/closed.svg"),
            FieldType::Opened => String::from_str("img/type0.svg"),
            FieldType::Exploded => String::from_str("img/mine_red.svg"),
        }
    }
}

} // verus!
