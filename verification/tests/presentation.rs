use minesweeper::utils::cell::{decimal_string, Cell, ConvertToTexture};
use minesweeper::utils::view::{View, ViewType};
use minesweeper::utils::{FieldToTexturePath, FieldType};

#[test]
fn cell_glyphs() {
    assert_eq!(Cell::Closed.text(), "⬛ ");
    assert_eq!(Cell::Opened.text(), "⬜ ");
    assert_eq!(Cell::Flag.text(), "🚩 ");
    assert_eq!(Cell::Mine.text(), "💣 ");
    assert_eq!(Cell::Pressed.text(), "🔲 ");
    assert_eq!(Cell::Exploded.text(), "💥 ");
    assert_eq!(Cell::Num(1).text(), " 1 ");
    assert_eq!(Cell::Num(8).text(), " 8 ");
}

#[test]
fn cell_texture_paths() {
    assert_eq!(Cell::Num(3).to_texture_path(), "img/type3.svg");
    assert_eq!(Cell::Flag.to_texture_path(), "img/flag.svg");
    assert_eq!(Cell::Mine.to_texture_path(), "img/mine.svg");
    assert_eq!(Cell::Pressed.to_texture_path(), "img/pressed.svg");
    assert_eq!(Cell::Closed.to_texture_path(), "img/closed.svg");
    assert_eq!(Cell::Opened.to_texture_path(), "img/type0.svg");
    assert_eq!(Cell::Exploded.to_texture_path(), "img/mine_red.svg");
}

#[test]
fn field_type_texture_paths() {
    assert_eq!(FieldType::Num(7).to_path(), "img/type7.svg");
    assert_eq!(FieldType::Num(12).to_path(), "img/type12.svg");
    assert_eq!(FieldType::Flag.to_path(), "img/flag.svg");
    assert_eq!(FieldType::Exploded.to_path(), "img/mine_red.svg");
}

#[test]
fn field_type_glyphs() {
    assert_eq!(FieldType::Closed.text(), "⬛ ");
    assert_eq!(FieldType::Flag.text(), "🚩 ");
    assert_eq!(FieldType::Num(5).text(), " 5 ");
}

#[test]
fn decimal_rendering() {
    assert_eq!(decimal_string(0), "0");
    assert_eq!(decimal_string(9), "9");
    assert_eq!(decimal_string(10), "10");
    assert_eq!(decimal_string(107), "107");
    assert_eq!(decimal_string(255), "255");
}

#[test]
fn view_starts_terminal_and_switches() {
    let mut view = View::new();
    assert_eq!(view.get_type(), ViewType::Terminal);
    view.switch(ViewType::Classic);
    assert_eq!(view.get_type(), ViewType::Classic);
    view.switch(ViewType::Terminal);
    assert_eq!(view.get_type(), ViewType::Terminal);
}

#[test]
fn view_type_names_round_trip() {
    assert_eq!(ViewType::Classic.name(), "classic");
    assert_eq!(ViewType::Terminal.name(), "terminal");
    assert_eq!(ViewType::from_name("classic"), ViewType::Classic);
    assert_eq!(ViewType::from_name("terminal"), ViewType::Terminal);
    // anything unknown falls back to the image-based view
    assert_eq!(ViewType::from_name("something"), ViewType::Classic);
}
