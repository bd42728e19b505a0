use kanoodle::pieces::{standard_pieces, Piece, Shape, ShapeError};

fn cells_of(shape: &Shape) -> Vec<(usize, usize, usize)> {
    let mut out = Vec::new();
    for k in 0..5 {
        let (rows, cols) = shape.dimensions(k);
        for r in 0..rows {
            for c in 0..cols {
                if shape.is_set(k, r, c) {
                    out.push((k, r, c));
                }
            }
        }
    }
    out
}

#[test]
fn parse_reads_the_letter_cells() {
    let text = vec![String::from("AAB\nA.B")];
    let shape = Shape::parse(&text, 'A').unwrap().unwrap();
    assert!(!shape.is_3d);
    assert_eq!(cells_of(&shape), vec![(0, 0, 0), (0, 0, 1), (0, 1, 0)]);
}

#[test]
fn parse_missing_letter_gives_nothing() {
    let text = vec![String::from("BBB\nB.B")];
    let r = Shape::parse(&text, 'A').unwrap();
    assert!(r.is_none());
}

#[test]
fn parse_rejects_a_too_wide_shape() {
    let text = vec![String::from("AAAAAA")];
    let r = Shape::parse(&text, 'A');
    assert_eq!(r.err(), Some(ShapeError::CellOutOfRange));
}

#[test]
fn parse_aligns_to_the_first_occurrence() {
    let text = vec![String::from("...\n.AA\n..A")];
    let shape = Shape::parse(&text, 'A').unwrap().unwrap();
    assert_eq!(cells_of(&shape), vec![(0, 0, 0), (0, 0, 1), (0, 1, 1)]);
}

#[test]
fn rotate_turns_clockwise() {
    let text = vec![String::from("AA\nA.")];
    let shape = Shape::parse(&text, 'A').unwrap().unwrap();
    let rotated = shape.rotate();
    // (r, c) -> (c, size-1-r): cells (0,0),(0,1),(1,0) land on
    // (0,4),(1,4),(0,3) before normalization; rotate does not snap
    let snapped = rotated.snap_to_top_left();
    assert_eq!(cells_of(&snapped), vec![(0, 0, 0), (0, 0, 1), (0, 1, 1)]);
}

#[test]
fn reflect_transposes() {
    let text = vec![String::from("AA\nA.")];
    let shape = Shape::parse(&text, 'A').unwrap().unwrap();
    let reflected = shape.reflect();
    assert_eq!(cells_of(&reflected), vec![(0, 0, 0), (0, 0, 1), (0, 1, 0)]);
}

#[test]
fn erect_folds_a_domino_up_the_diagonal() {
    let text = vec![String::from("AA")];
    let shape = Shape::parse(&text, 'A').unwrap().unwrap();
    let erected = shape.erect();
    assert!(erected.is_3d);
    // after drifting below the probed superdiagonal, the diagonal cell
    // stays on the base layer and the cell left of it rises one layer
    assert_eq!(cells_of(&erected), vec![(0, 1, 1), (1, 0, 0)]);
}

#[test]
fn to_int_weights_rows_and_columns() {
    let single = Shape::parse(&vec![String::from("X")], 'X').unwrap().unwrap();
    assert_eq!(kanoodle::pieces::to_int(&single), 1);
    let square = Shape::parse(&vec![String::from("KK\nKK")], 'K').unwrap().unwrap();
    // row 0 contributes 1 + 2, row 1 contributes (1 + 2) * 10
    assert_eq!(kanoodle::pieces::to_int(&square), 33);
}

#[test]
fn a_piece_needs_its_letter_in_the_text() {
    let r = Piece::parse("BBB", 'A', false);
    assert_eq!(r.err(), Some(ShapeError::LetterMissing));
}

#[test]
fn square_piece_has_one_orientation() {
    let piece = Piece::parse("KK\nKK", 'K', false).unwrap();
    assert_eq!(piece.orientations.len(), 1);
}

#[test]
fn asymmetric_piece_has_eight_orientations() {
    let piece = Piece::parse("A\nAAA", 'A', false).unwrap();
    assert_eq!(piece.orientations.len(), 8);
}

#[test]
fn orientations_are_distinct_and_stable() {
    let first = Piece::parse("HH\n.HH\n..H", 'H', true).unwrap();
    let second = Piece::parse("HH\n.HH\n..H", 'H', true).unwrap();
    assert_eq!(first.orientations.len(), second.orientations.len());
    for (a, b) in first.orientations.iter().zip(second.orientations.iter()) {
        assert!(a.equals(b));
    }
    for i in 0..first.orientations.len() {
        for j in 0..first.orientations.len() {
            if i != j {
                assert!(!first.orientations[i].equals(&first.orientations[j]));
            }
        }
    }
}

#[test]
fn standard_catalog_has_twelve_pieces() {
    let pieces = standard_pieces(false);
    assert_eq!(pieces.len(), 12);
    let letters: Vec<char> = pieces.iter().map(|p| p.letter).collect();
    assert_eq!(letters, vec!['A', 'B', 'C', 'D', 'E', 'F', 'G', 'H', 'I', 'J', 'K', 'L']);
    for p in &pieces {
        assert!(p.orientations.len() >= 1);
        for i in 0..p.orientations.len() {
            for j in 0..p.orientations.len() {
                if i != j {
                    assert!(!p.orientations[i].equals(&p.orientations[j]));
                }
            }
        }
    }
    let with_3d = standard_pieces(true);
    for (flat, full) in pieces.iter().zip(with_3d.iter()) {
        assert!(full.orientations.len() >= flat.orientations.len());
    }
}
