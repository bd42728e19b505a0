use kanoodle::board::{Board, BoardType, Rectangle, Variation};
use kanoodle::layer::Position;
use kanoodle::pieces::{standard_pieces, Piece};
use kanoodle::placements::{Placements, RequestedPiece};
use kanoodle::solver::{
    convert_requested_pieces_to_path_string, find_solutions, solve, SolveError,
};

/// Two dominoes named A and B, flat orientations only: each has a
/// horizontal and a vertical form.
fn domino_catalog() -> Vec<Piece> {
    vec![
        Piece::parse("AA", 'A', false).unwrap(),
        Piece::parse("BB", 'B', false).unwrap(),
    ]
}

fn run_two_by_two(ending_at: Option<Vec<RequestedPiece>>) -> Vec<String> {
    let mut board = Variation::Rectangle(Board::from_layers(Rectangle::with_dims(2, 2)));
    let mut placements = Placements::new(domino_catalog());
    let first = placements.initialize(vec![RequestedPiece { name: 'A', orientation_index: 0 }]);
    assert!(first.is_some());
    let report = solve(&mut board, &mut placements, first, &ending_at);
    report.solutions
}

#[test]
fn two_dominoes_tile_a_two_by_two_board_in_two_ways() {
    // stopping before the B-first labelings leaves exactly the two
    // tilings: the horizontal split and the vertical split
    let stop = vec![RequestedPiece { name: 'B', orientation_index: 0 }];
    let solutions = run_two_by_two(Some(stop));
    assert_eq!(solutions.len(), 2);
    assert_eq!(solutions[0], "A[00]; B[00]; ");
    assert_eq!(solutions[1], "A[01]; B[01]; ");
}

#[test]
fn the_unbounded_search_also_reports_the_mirrored_labelings() {
    let solutions = run_two_by_two(None);
    assert_eq!(
        solutions,
        vec![
            String::from("A[00]; B[00]; "),
            String::from("A[01]; B[01]; "),
            String::from("B[00]; A[00]; "),
            String::from("B[01]; A[01]; "),
        ]
    );
}

#[test]
fn reported_paths_strictly_increase() {
    let solutions = run_two_by_two(None);
    assert!(solutions.len() > 1);
    for i in 1..solutions.len() {
        assert!(solutions[i - 1] < solutions[i]);
    }
}

#[test]
fn stopping_at_the_first_solution_reports_none() {
    // the stop check is strictly-less-than, so a stop path equal to the
    // very first solution excludes that solution itself
    let stop = vec![
        RequestedPiece { name: 'A', orientation_index: 0 },
        RequestedPiece { name: 'B', orientation_index: 0 },
    ];
    let solutions = run_two_by_two(Some(stop));
    assert_eq!(solutions.len(), 0);
}

#[test]
fn stopping_past_the_first_solution_reports_one() {
    let stop = vec![
        RequestedPiece { name: 'A', orientation_index: 0 },
        RequestedPiece { name: 'Z', orientation_index: 0 },
    ];
    let solutions = run_two_by_two(Some(stop));
    assert_eq!(solutions.len(), 1);
    assert_eq!(solutions[0], "A[00]; B[00]; ");
}

#[test]
fn an_unrecognized_initial_orientation_is_fatal() {
    // a lone 'A' cell is no orientation of the four-cell A piece
    let pieces = standard_pieces(false);
    let state = vec![String::from("A..........")];
    let r = find_solutions(pieces, Some(BoardType::Rectangle), Some(state), None, None);
    assert_eq!(r.err(), Some(SolveError::UnrecognizedOrientation('A')));
}

#[test]
fn an_initial_piece_off_the_board_is_fatal() {
    // J drawn in columns 9 through 12 runs past the 11-column board
    let pieces = standard_pieces(false);
    let state = vec![String::from(".........JJJJ")];
    let r = find_solutions(pieces, Some(BoardType::Rectangle), Some(state), None, None);
    assert_eq!(r.err(), Some(SolveError::UnplaceablePiece('J', Position(0, 0, 9))));
}

#[test]
fn a_malformed_initial_piece_is_fatal() {
    // six cells in one row cannot be a five-wide shape
    let pieces = standard_pieces(false);
    let state = vec![String::from("KKKKKK")];
    let r = find_solutions(pieces, Some(BoardType::Rectangle), Some(state), None, None);
    assert_eq!(r.err(), Some(SolveError::MalformedPiece('K')));
}

#[test]
fn initial_placements_seed_the_search() {
    // on a 2x2 board with A drawn vertically, only the vertical-B
    // completion remains
    let mut board = Variation::Rectangle(Board::from_layers(Rectangle::with_dims(2, 2)));
    let mut placements = Placements::new(domino_catalog());
    // A[1] is the vertical domino
    let a = kanoodle::pieces::get_piece_orientation(&placements.catalog, 'A', 1).unwrap();
    assert!(board.try_add_shape(&a, 'A').is_ok());
    let last = placements
        .initialize(vec![RequestedPiece { name: 'A', orientation_index: 1 }])
        .unwrap();
    let first = placements
        .get_next_piece_to_try_after_success(last)
        .map(|s| s.piece);
    placements.prevent_backtracking();
    let report = solve(&mut board, &mut placements, first, &None);
    assert_eq!(report.solutions, vec![String::from("A[01]; B[01]; ")]);
}

#[test]
fn requested_pieces_render_as_a_path_string() {
    let qs = vec![
        RequestedPiece { name: 'A', orientation_index: 0 },
        RequestedPiece { name: 'B', orientation_index: 5 },
        RequestedPiece { name: 'C', orientation_index: 12 },
    ];
    assert_eq!(
        convert_requested_pieces_to_path_string(&qs),
        "A[00]; B[05]; C[12]; "
    );
}

#[test]
fn an_empty_catalog_search_finds_nothing() {
    let r = find_solutions(Vec::new(), Some(BoardType::Rectangle), None, None, None);
    let report = r.unwrap();
    assert_eq!(report.solutions.len(), 0);
}
