use minesweeper::minesweeper::{MineFieldBuilder, Minesweeper};
use minesweeper::utils::cell::Cell;

#[test]
fn test() {
    let mut ms = Minesweeper::new(10, 10, 5);
    ms.open((5, 5));
    ms.toggle_flag((0, 0));
    ms.open((0, 0));

    println!("{}", ms.to_text());
}

fn board(width: usize, height: usize, mines: Vec<(usize, usize)>) -> Minesweeper {
    Minesweeper::with_mines(width, height, &mines).expect("valid board")
}

#[test]
fn with_mines_rejects_bad_boards() {
    assert!(Minesweeper::with_mines(0, 3, &vec![(0, 0)]).is_none());
    assert!(Minesweeper::with_mines(3, 0, &vec![(0, 0)]).is_none());
    assert!(Minesweeper::with_mines(3, 3, &vec![]).is_none());
    assert!(Minesweeper::with_mines(3, 3, &vec![(3, 0)]).is_none());
    assert!(Minesweeper::with_mines(3, 3, &vec![(0, 3)]).is_none());
    assert!(Minesweeper::with_mines(3, 3, &vec![(1, 1), (1, 1)]).is_none());
    assert!(Minesweeper::with_mines(3, 3, &vec![(1, 1), (2, 2)]).is_some());
}

#[test]
fn new_board_starts_closed_and_running() {
    let ms = Minesweeper::new(4, 3, 2);
    assert!(!ms.is_game_over());
    assert!(!ms.is_game_finished());
    let grid = ms.build();
    assert_eq!(grid.len(), 3);
    for row in &grid {
        assert_eq!(row.len(), 4);
        for cell in row {
            assert_eq!(*cell, Cell::Closed);
        }
    }
}

#[test]
fn all_mine_board_is_finished_after_new_and_reset() {
    // the only window on the random mine count: with as many mines as cells,
    // the win condition holds with zero cells opened
    let mut ms = Minesweeper::new(2, 2, 4);
    assert!(ms.is_game_finished());
    ms.reset();
    assert!(ms.is_game_finished());
}

#[test]
fn one_by_one_board_with_one_mine_starts_finished() {
    let mut ms = Minesweeper::new(1, 1, 1);
    assert!(ms.is_game_finished());
    assert!(!ms.is_game_over());
    // the pre-won board blocks every action
    ms.open((0, 0));
    assert!(!ms.is_game_over());
    assert_eq!(ms.build()[0][0], Cell::Closed);
}

#[test]
fn opening_zero_region_cascades_to_border() {
    // one mine in the corner: opening the opposite corner opens everything
    // else; the mine stays closed because the game is not over
    let mut ms = board(3, 3, vec![(2, 2)]);
    ms.open((0, 0));
    assert!(!ms.is_game_over());
    assert!(ms.is_game_finished());
    let grid = ms.build();
    assert_eq!(grid[2][2], Cell::Closed);
    assert_eq!(grid[0][0], Cell::Opened);
    assert_eq!(grid[0][1], Cell::Opened);
    assert_eq!(grid[0][2], Cell::Opened);
    assert_eq!(grid[1][0], Cell::Opened);
    assert_eq!(grid[2][0], Cell::Opened);
    assert_eq!(grid[1][1], Cell::Num(1));
    assert_eq!(grid[1][2], Cell::Num(1));
    assert_eq!(grid[2][1], Cell::Num(1));
}

#[test]
fn flood_stops_at_numbered_border() {
    // 6 x 1 strip with a mine in the middle: the flood from the left opens
    // the zero region and its numbered border, and nothing beyond
    let mut ms = board(6, 1, vec![(3, 0)]);
    ms.open((0, 0));
    assert!(!ms.is_game_over());
    assert!(!ms.is_game_finished());
    let row = &ms.build()[0];
    assert_eq!(row[0], Cell::Opened);
    assert_eq!(row[1], Cell::Opened);
    assert_eq!(row[2], Cell::Num(1));
    assert_eq!(row[3], Cell::Closed);
    assert_eq!(row[4], Cell::Closed);
    assert_eq!(row[5], Cell::Closed);
}

#[test]
fn opening_last_safe_cell_finishes_the_game() {
    let mut ms = board(2, 1, vec![(0, 0)]);
    assert!(!ms.is_game_finished());
    ms.open((1, 0));
    assert!(ms.is_game_finished());
    assert!(!ms.is_game_over());
}

#[test]
fn opening_a_mine_ends_the_game_and_freezes_state() {
    let mut ms = board(2, 2, vec![(0, 0)]);
    ms.open((1, 1));
    assert_eq!(ms.build()[1][1], Cell::Num(1));
    ms.open((0, 0));
    assert!(ms.is_game_over());
    let grid = ms.build();
    assert_eq!(grid[0][0], Cell::Exploded);
    // no further action changes anything
    ms.open((1, 0));
    ms.toggle_flag((0, 1));
    assert!(ms.is_game_over());
    assert_eq!(ms.build(), grid);
}

#[test]
fn flag_budget_caps_flags_and_removal_always_works() {
    // one mine means a budget of one flag
    let mut ms = board(2, 2, vec![(0, 0)]);
    ms.toggle_flag((0, 1));
    assert_eq!(ms.build()[1][0], Cell::Flag);
    // budget exhausted: a second flag is refused
    ms.toggle_flag((1, 1));
    assert_eq!(ms.build()[1][1], Cell::Closed);
    // removing the existing flag always works
    ms.toggle_flag((0, 1));
    assert_eq!(ms.build()[1][0], Cell::Closed);
}

#[test]
fn flagged_cell_cannot_be_opened() {
    let mut ms = board(2, 2, vec![(0, 0)]);
    ms.toggle_flag((1, 1));
    ms.open((1, 1));
    assert_eq!(ms.build()[1][1], Cell::Flag);
    assert!(!ms.is_game_finished());
}

#[test]
fn satisfied_chord_opens_remaining_neighbors() {
    let mut ms = board(3, 3, vec![(0, 0)]);
    ms.open((1, 1));
    assert_eq!(ms.build()[1][1], Cell::Num(1));
    ms.toggle_flag((0, 0));
    // as many neighboring flags as mines: chording opens the rest
    ms.open((1, 1));
    assert!(!ms.is_game_over());
    assert!(ms.is_game_finished());
    let grid = ms.build();
    assert_eq!(grid[0][0], Cell::Flag);
    assert_eq!(grid[0][1], Cell::Num(1));
    assert_eq!(grid[1][0], Cell::Num(1));
    assert_eq!(grid[2][2], Cell::Opened);
}

#[test]
fn wrongly_flagged_chord_hits_the_mine() {
    let mut ms = board(3, 3, vec![(0, 0)]);
    ms.open((1, 1));
    ms.toggle_flag((2, 2));
    // the flag count matches but marks the wrong cell: the chord cascades
    // into the mine
    ms.open((1, 1));
    assert!(ms.is_game_over());
    assert_eq!(ms.build()[0][0], Cell::Exploded);
}

#[test]
fn partial_chord_depresses_instead_of_opening() {
    let mut ms = board(3, 3, vec![(0, 0), (2, 0)]);
    ms.open((1, 1));
    assert_eq!(ms.build()[1][1], Cell::Num(2));
    ms.toggle_flag((0, 0));
    // fewer flags than mines around the cell: neighbors are only depressed
    ms.open((1, 1));
    assert!(!ms.is_game_over());
    let grid = ms.build();
    assert_eq!(grid[0][0], Cell::Flag);
    assert_eq!(grid[0][1], Cell::Pressed);
    assert_eq!(grid[0][2], Cell::Pressed);
    assert_eq!(grid[1][0], Cell::Pressed);
    assert_eq!(grid[1][2], Cell::Pressed);
    assert_eq!(grid[1][1], Cell::Num(2));
    // every other cell of the 3 x 3 board neighbors the center too
    assert_eq!(grid[2][0], Cell::Pressed);
    // releasing the gesture clears the hint and opens nothing
    ms.clear_depressed_cells();
    let grid = ms.build();
    assert_eq!(grid[0][1], Cell::Closed);
    assert_eq!(grid[1][1], Cell::Num(2));
    assert!(!ms.is_game_finished());
}

#[test]
fn reset_clears_player_state_and_keeps_dimensions() {
    let mut ms = board(2, 2, vec![(0, 0), (0, 1), (1, 0), (1, 1)]);
    ms.reset();
    assert!(!ms.is_game_over());
    // the mine count carried over: four mines on four cells
    assert!(ms.is_game_finished());
    let grid = ms.build();
    assert_eq!(grid.len(), 2);
    assert_eq!(grid[0].len(), 2);
    assert_eq!(grid[0][0], Cell::Closed);
}

#[test]
fn to_text_renders_rows_with_newlines() {
    let mut ms = board(2, 1, vec![(0, 0)]);
    assert_eq!(ms.to_text(), "⬛ ⬛ \n");
    ms.open((1, 0));
    assert_eq!(ms.to_text(), "⬛  1 \n");
    let tall = board(1, 2, vec![(0, 0)]);
    assert_eq!(tall.to_text(), "⬛ \n⬛ \n");
}
