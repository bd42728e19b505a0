use kanoodle::board::{Board, Pyramid, Rectangle, EMPTY_SLOT};
use kanoodle::layer::{Layers, Position};
use kanoodle::pieces::Shape;

fn domino(letter: char) -> Shape {
    let mut text = String::new();
    text.push(letter);
    text.push(letter);
    Shape::parse(&vec![text], letter).unwrap().unwrap()
}

fn board_cells(board: &Board<Rectangle>) -> Vec<Vec<char>> {
    let mut out = Vec::new();
    let (rows, cols) = board.layers.dimensions(0);
    for r in 0..rows {
        let mut row = Vec::new();
        for c in 0..cols {
            row.push(board.layers.at(0, r, c));
        }
        out.push(row);
    }
    out
}

#[test]
fn add_places_the_letter_and_advances_the_cursor() {
    let mut board = Board::from_layers(Rectangle::with_dims(2, 3));
    let shape = domino('A');
    assert!(board.try_add_shape(&shape, 'A').is_ok());
    let cells = board_cells(&board);
    assert_eq!(cells[0], vec!['A', 'A', EMPTY_SLOT]);
    assert_eq!(cells[1], vec![EMPTY_SLOT, EMPTY_SLOT, EMPTY_SLOT]);
    assert_eq!(board.next_pos, Position(0, 0, 2));
}

#[test]
fn add_fails_where_the_shape_does_not_fit() {
    let mut board = Board::from_layers(Rectangle::with_dims(2, 3));
    let shape = domino('A');
    // a horizontal domino cannot start in the last column
    assert!(board.try_add_shape_at(&shape, 'A', &Position(0, 0, 2)).is_err());
    // the failed attempt leaves the board untouched
    for row in board_cells(&board) {
        for cell in row {
            assert_eq!(cell, EMPTY_SLOT);
        }
    }
}

#[test]
fn add_then_remove_restores_the_board() {
    let mut board = Board::from_layers(Rectangle::with_dims(3, 4));
    let first = domino('A');
    assert!(board.try_add_shape(&first, 'A').is_ok());
    let before = board_cells(&board);
    let second = domino('B');
    assert!(board.try_add_shape(&second, 'B').is_ok());
    board.remove_shape('B');
    assert_eq!(board_cells(&board), before);
    // the cursor lands on a cell that is empty after the removal
    let Position(l, r, c) = board.next_pos;
    assert_eq!(board.layers.at(l, r, c), EMPTY_SLOT);
}

#[test]
fn remove_of_an_absent_name_changes_nothing() {
    let mut board = Board::from_layers(Rectangle::with_dims(2, 2));
    let shape = domino('A');
    assert!(board.try_add_shape(&shape, 'A').is_ok());
    let before = board_cells(&board);
    let cursor = board.next_pos;
    board.remove_shape('Z');
    assert_eq!(board_cells(&board), before);
    assert_eq!(board.next_pos, cursor);
}

#[test]
fn solved_is_true_exactly_when_no_empty_slot_remains() {
    let mut board = Board::from_layers(Rectangle::with_dims(1, 3));
    let single_x = Shape::parse(&vec![String::from("X")], 'X').unwrap().unwrap();
    let single_y = Shape::parse(&vec![String::from("Y")], 'Y').unwrap().unwrap();
    let single_z = Shape::parse(&vec![String::from("Z")], 'Z').unwrap().unwrap();
    assert!(!board.solved());
    assert!(board.try_add_shape(&single_x, 'X').is_ok());
    assert!(board.try_add_shape(&single_y, 'Y').is_ok());
    // exactly one empty cell remains
    assert!(!board.solved());
    assert!(board.try_add_shape(&single_z, 'Z').is_ok());
    assert!(board.solved());
}

#[test]
fn pyramid_board_spans_five_layers() {
    let board = Board::<Pyramid>::new();
    assert_eq!(board.layers.layer_count(), 5);
    assert_eq!(board.layers.dimensions(0), (5, 5));
    assert_eq!(board.layers.dimensions(4), (1, 1));
    assert!(!board.solved());
}

#[test]
fn erected_piece_climbs_pyramid_layers() {
    let mut board = Board::<Pyramid>::new();
    let flat = domino('A');
    let erected = flat.erect();
    assert!(erected.is_3d);
    // the erected domino occupies one base cell and one cell on layer 1
    assert!(board.try_add_shape_at(&erected, 'A', &Position(0, 1, 1)).is_ok());
    assert_eq!(board.layers.at(0, 1, 1), 'A');
    assert_eq!(board.layers.at(1, 0, 0), 'A');
}

#[test]
fn offsets_follow_the_first_base_cell() {
    let text = vec![String::from("..A\nAAA")];
    let shape = Shape::parse(&text, 'A').unwrap().unwrap();
    let off = kanoodle::board::calculate_shape_offsets(&shape);
    assert_eq!(off, (0, 2));
}
