//! The solver driver: repeatedly asks the cursor for a candidate, asks the
//! board whether it fits, commits it or advances to the next candidate on
//! failure, and reports each solved state whose placement path lies below
//! the caller's stop path, until the search space is exhausted.

use crate::board::{create_board, BoardType, Variation};
use crate::layer::Position;
use crate::board::{
    can_place, offset_of, place_depth, place_spec, pyramid_grid, rect_grid,
};
use crate::pieces::{
    catalog_wf, layer_occs, lemma_find_unique, multi_layer, parse_bad, parse_has,
    parsed_shape_spec, Piece, Shape,
};
use crate::placements::{
    chars_lt, lemma_path_strings_ordered, lemma_stack_bounds, lemma_sugg_bounds,
    lemma_toks_lt_extend, lemma_toks_value_bound, lemma_toks_value_lt, path_spec, pow_base,
    req_tok, tok, tok_lt, toks, toks_bounded, toks_lt, toks_value, valid_sugg, PieceAfterFailure,
    PieceSuggestion, Placements, RequestedPiece,
};
use vstd::prelude::*;

verus! {

/// Comparing token sequences with an equal prefix reduces to comparing
/// what follows the prefix.
pub proof fn lemma_toks_lt_skip(a: Seq<(int, int)>, b: Seq<(int, int)>, i: int)
    requires
        0 <= i <= a.len(),
        i <= b.len(),
        forall|j: int| 0 <= j < i ==> a[j] == #[trigger] b[j],
    ensures
        toks_lt(a, b) == toks_lt(a.skip(i), b.skip(i)),
    decreases i,
{
    if i > 0 {
        assert(a.len() > 0 && b.len() > 0);
        assert(a[0] == b[0]);
        assert(a.drop_first().skip(i - 1) =~= a.skip(i));
        assert(b.drop_first().skip(i - 1) =~= b.skip(i));
        assert forall|j: int| 0 <= j < i - 1 implies a.drop_first()[j] == #[trigger] b.drop_first()[j] by {
            assert(a.drop_first()[j] == a[j + 1]);
            assert(b.drop_first()[j] == b[j + 1]);
        }
        lemma_toks_lt_skip(a.drop_first(), b.drop_first(), i - 1);
    } else {
        assert(a.skip(0) =~= a);
        assert(b.skip(0) =~= b);
    }
}

/// True when the placed stack's token path strictly precedes the
/// requested token path.
fn stack_precedes(positions: &Vec<PieceSuggestion>, other: &Vec<RequestedPiece>) -> (r: bool)
    ensures
        r == toks_lt(toks(positions@), other@.map_values(|q: RequestedPiece| req_tok(q))),
{
    let ghost at = toks(positions@);
    let ghost bt = other@.map_values(|q: RequestedPiece| req_tok(q));
    let n = positions.len();
    let m = other.len();
    let mut i: usize = 0;
    while i < n && i < m
        invariant
            i <= n,
            i <= m,
            n == at.len(),
            m == bt.len(),
            at == toks(positions@),
            bt == other@.map_values(|q: RequestedPiece| req_tok(q)),
            forall|j: int| 0 <= j < i ==> at[j] == #[trigger] bt[j],
        decreases n - i,
    {
        let a_name = positions[i].name;
        let a_idx = positions[i].orientation_index;
        let b_name = other[i].name;
        let b_idx = other[i].orientation_index;
        proof {
            assert(at[i as int] == tok(positions@[i as int]));
            assert(bt[i as int] == req_tok(other@[i as int]));
        }
        if (a_name as u32) < (b_name as u32) || (a_name == b_name && a_idx < b_idx) {
            proof {
                lemma_toks_lt_skip(at, bt, i as int);
                assert(at.skip(i as int)[0] == at[i as int]);
                assert(bt.skip(i as int)[0] == bt[i as int]);
                assert(tok_lt(at[i as int], bt[i as int]));
                assert(at[i as int] != bt[i as int]);
            }
            return true;
        }
        if (a_name as u32) != (b_name as u32) || a_idx != b_idx {
            proof {
                lemma_toks_lt_skip(at, bt, i as int);
                assert(at.skip(i as int)[0] == at[i as int]);
                assert(bt.skip(i as int)[0] == bt[i as int]);
                assert(at[i as int] != bt[i as int]);
                assert(!tok_lt(at[i as int], bt[i as int]));
            }
            return false;
        }
        proof {
            assert(at[i as int] == bt[i as int]);
        }
        i = i + 1;
    }
    proof {
        lemma_toks_lt_skip(at, bt, i as int);
        if i == n {
            assert(at.skip(i as int).len() == 0);
        } else {
            assert(bt.skip(i as int).len() == 0);
            assert(at.skip(i as int).len() > 0);
        }
    }
    n < m
}

/// Copies the placed stack's tokens into plain requested pieces.
fn stack_to_requested(positions: &Vec<PieceSuggestion>) -> (r: Vec<RequestedPiece>)
    ensures
        r@.map_values(|q: RequestedPiece| req_tok(q)) == toks(positions@),
{
    let mut r: Vec<RequestedPiece> = Vec::new();
    let n = positions.len();
    for i in 0..n
        invariant
            n == positions@.len(),
            r@.len() == i,
            forall|j: int|
                0 <= j < i ==> req_tok(#[trigger] r@[j]) == tok(positions@[j]),
    {
        r.push(
            RequestedPiece {
                name: positions[i].name,
                orientation_index: positions[i].orientation_index,
            },
        );
    }
    proof {
        assert(r@.map_values(|q: RequestedPiece| req_tok(q)) =~= toks(positions@));
    }
    r
}

/// The token sequence of the search state: the placed stack followed by
/// the pending candidate, when there is one.
pub open spec fn state_toks(ps: Seq<PieceSuggestion>, next: Option<PieceSuggestion>) -> Seq<
    (int, int),
> {
    match next {
        Option::Some(p) => toks(ps).push(tok(p)),
        Option::None => toks(ps),
    }
}

/// The outcome of a solver run: one placement-path string per reported
/// solution, in the order they were found, together with the reported
/// stacks themselves for specification purposes.
pub struct SolveReport {
    pub solutions: Vec<String>,
    pub paths: Ghost<Seq<Seq<PieceSuggestion>>>,
}

/// Runs the search loop on a prepared board and cursor, starting from the
/// given first candidate. Every reported placement path is strictly
/// lexicographically greater than the one before it, and strictly below
/// the stop path when one is given.
///
/// A solved state is reported only when its path exceeds the last
/// reported one. On the ordinary success path that comparison always
/// holds, since the cursor only ever advances; it can fail only for a
/// solved state met on the cursor-exhausted path, where a smaller path
/// would violate the ordering guarantee, and such a state is then not
/// reported.
pub fn solve(
    board: &mut Variation,
    placements: &mut Placements,
    first: Option<PieceSuggestion>,
    ending_at: &Option<Vec<RequestedPiece>>,
) -> (report: SolveReport)
    requires
        old(board).wf(),
        old(placements).wf(),
        match first {
            Option::Some(p) => valid_sugg(old(placements).catalog@, p) && !old(
                placements,
            ).used_letters@[p.name as int - 65],
            Option::None => true,
        },
    ensures
        final(board).wf(),
        final(placements).wf(),
        report.solutions@.len() == report.paths@.len(),
        forall|i: int|
            0 <= i < report.paths@.len() ==> report.solutions@[i]@ == path_spec(
                #[trigger] report.paths@[i],
            ),
        forall|i: int|
            0 <= i < report.paths@.len() - 1 ==> toks_lt(
                toks(#[trigger] report.paths@[i]),
                toks(report.paths@[i + 1]),
            ),
        forall|i: int|
            0 <= i < report.solutions@.len() - 1 ==> chars_lt(
                (#[trigger] report.solutions@[i])@,
                report.solutions@[i + 1]@,
            ),
        match ending_at {
            Option::Some(e) => e@.len() > 0 ==> forall|i: int|
                0 <= i < report.paths@.len() ==> toks_lt(
                    toks(#[trigger] report.paths@[i]),
                    e@.map_values(|q: RequestedPiece| req_tok(q)),
                ),
            Option::None => true,
        },
{
    let mut solutions: Vec<String> = Vec::new();
    let ghost mut gpaths: Seq<Seq<PieceSuggestion>> = Seq::empty();
    let mut last_reported: Vec<RequestedPiece> = Vec::new();
    let mut next_piece: Option<PieceSuggestion> = first;
    loop
        invariant
            board.wf(),
            placements.wf(),
            placements.catalog@ == old(placements).catalog@,
            match next_piece {
                Option::Some(p) => valid_sugg(placements.catalog@, p)
                    && !placements.used_letters@[p.name as int - 65],
                Option::None => true,
            },
            solutions@.len() == gpaths.len(),
            forall|i: int|
                0 <= i < gpaths.len() ==> solutions@[i]@ == path_spec(#[trigger] gpaths[i]),
            forall|i: int|
                0 <= i < gpaths.len() - 1 ==> toks_lt(
                    toks(#[trigger] gpaths[i]),
                    toks(gpaths[i + 1]),
                ),
            match ending_at {
                Option::Some(e) => e@.len() > 0 ==> forall|i: int|
                    0 <= i < gpaths.len() ==> toks_lt(
                        toks(#[trigger] gpaths[i]),
                        e@.map_values(|q: RequestedPiece| req_tok(q)),
                    ),
                Option::None => true,
            },
            forall|i: int| 0 <= i < gpaths.len() ==> toks_bounded(toks(#[trigger] gpaths[i])),
            gpaths.len() > 0 ==> last_reported@.map_values(|q: RequestedPiece| req_tok(q)) == toks(
                gpaths.last(),
            ),
        ensures
            board.wf(),
            placements.wf(),
            solutions@.len() == gpaths.len(),
            forall|i: int|
                0 <= i < gpaths.len() ==> solutions@[i]@ == path_spec(#[trigger] gpaths[i]),
            forall|i: int|
                0 <= i < gpaths.len() - 1 ==> toks_lt(
                    toks(#[trigger] gpaths[i]),
                    toks(gpaths[i + 1]),
                ),
            forall|i: int| 0 <= i < gpaths.len() ==> toks_bounded(toks(#[trigger] gpaths[i])),
            match ending_at {
                Option::Some(e) => e@.len() > 0 ==> forall|i: int|
                    0 <= i < gpaths.len() ==> toks_lt(
                        toks(#[trigger] gpaths[i]),
                        e@.map_values(|q: RequestedPiece| req_tok(q)),
                    ),
                Option::None => true,
            },
        decreases (match next_piece {
            Option::Some(p) => pow_base(27) - toks_value(
                state_toks(placements.positions@, next_piece),
                27,
            ),
            Option::None => 0,
        }),
    {
        let p = match next_piece {
            Option::Some(pp) => pp,
            Option::None => { break ; },
        };
        let ghost pre_stack = placements.positions@;
        let ghost pre_state = toks(pre_stack).push(tok(p));
        proof {
            assert(state_toks(pre_stack, Option::Some(p)) == pre_state);
            lemma_stack_bounds(placements.catalog@, pre_stack);
            lemma_sugg_bounds(placements.catalog@, p);
            assert(toks_bounded(pre_state)) by {
                assert forall|i: int| 0 <= i < pre_state.len() implies crate::placements::tok_bounded(
                    #[trigger] pre_state[i],
                ) by {
                    if i < toks(pre_stack).len() {
                        assert(pre_state[i] == toks(pre_stack)[i]);
                    } else {
                        assert(pre_state[i] == tok(p));
                    }
                }
            }
            lemma_toks_value_bound(pre_state, 27);
        }
        let ghost pre_measure = pow_base(27) - toks_value(pre_state, 27);
        let pname = p.name;
        let added = board.try_add_shape(&p.shape, pname);
        match added {
            Result::Ok(()) => {
                match placements.get_next_piece_to_try_after_success(p) {
                    Option::Some(pa) => {
                        next_piece = Option::Some(pa.piece);
                    },
                    Option::None => {
                        next_piece = Option::None;
                    },
                }
                proof {
                    assert(toks(placements.positions@) =~= pre_state);
                }
            },
            Result::Err(()) => {
                match placements.get_next_piece_to_try_after_failure(p) {
                    Option::Some(pf) => {
                        let PieceAfterFailure { piece, to_remove } = pf;
                        let m = to_remove.len();
                        for i in 0..m
                            invariant
                                board.wf(),
                                m == to_remove@.len(),
                        {
                            board.remove_shape(to_remove[i].name);
                        }
                        next_piece = Option::Some(piece);
                    },
                    Option::None => {
                        next_piece = Option::None;
                    },
                }
            },
        }
        proof {
            let ghost np = next_piece;
            match np {
                Option::Some(q) => {
                    assert(toks_lt(pre_state, state_toks(placements.positions@, np))) by {
                        if added is Ok {
                            let st = toks(placements.positions@);
                            assert(st == pre_state);
                            let ns = state_toks(placements.positions@, np);
                            assert(ns == st.push(tok(q)));
                            lemma_toks_lt_extend(pre_state, ns);
                        }
                    }
                },
                Option::None => {},
            }
        }
        if next_piece.is_none() {
            if board.solved() {
                let within = match ending_at {
                    Option::Some(e) => {
                        if e.len() == 0 {
                            true
                        } else {
                            stack_precedes(&placements.positions, e)
                        }
                    },
                    Option::None => true,
                };
                if !within {
                    break ;
                }
                // a solution is reported only when its path exceeds the
                // last reported one; on the success path this always holds,
                // and on the cursor-exhausted path it keeps the ordering
                // guarantee
                let ordered = if solutions.len() == 0 {
                    true
                } else {
                    let cur = stack_to_requested(&placements.positions);
                    stack_precedes_requested(&last_reported, &cur)
                };
                if ordered {
                    let path = placements.path_string();
                    solutions.push(path);
                    last_reported = stack_to_requested(&placements.positions);
                    proof {
                        lemma_stack_bounds(placements.catalog@, placements.positions@);
                        gpaths = gpaths.push(placements.positions@);
                        assert(gpaths.last() == placements.positions@);
                        assert forall|i: int| 0 <= i < gpaths.len() - 1 implies toks_lt(
                            toks(#[trigger] gpaths[i]),
                            toks(gpaths[i + 1]),
                        ) by {
                            if i < gpaths.len() - 2 {
                                assert(gpaths[i] == gpaths.drop_last()[i]);
                                assert(gpaths[i + 1] == gpaths.drop_last()[i + 1]);
                            }
                        }
                        assert forall|i: int| 0 <= i < gpaths.len() implies toks_bounded(
                            toks(#[trigger] gpaths[i]),
                        ) by {
                            if i < gpaths.len() - 1 {
                                assert(gpaths[i] == gpaths.drop_last()[i]);
                            }
                        }
                    }
                }
                let ghost rep_stack = placements.positions@;
                match placements.remove_last_piece() {
                    Option::Some(last) => {
                        proof {
                            if !(added is Ok) {
                                assert(false);
                            }
                            assert(toks(rep_stack) == pre_state);
                        }
                        board.remove_shape(last.name);
                        proof {
                            lemma_sugg_bounds(placements.catalog@, last);
                        }
                        let ghost popped_stack = placements.positions@;
                        let ghost popped_state = toks(popped_stack).push(tok(last));
                        proof {
                            assert(popped_stack == rep_stack.drop_last());
                            assert(popped_state =~= toks(rep_stack));
                        }
                        match placements.get_next_piece_to_try_after_failure(last) {
                            Option::Some(pf) => {
                                let PieceAfterFailure { piece, to_remove } = pf;
                                let m = to_remove.len();
                                for i in 0..m
                                    invariant
                                        board.wf(),
                                        m == to_remove@.len(),
                                {
                                    board.remove_shape(to_remove[i].name);
                                }
                                next_piece = Option::Some(piece);
                                proof {
                                    assert(toks_lt(
                                        popped_state,
                                        state_toks(placements.positions@, next_piece),
                                    ));
                                    assert(toks_lt(
                                        pre_state,
                                        state_toks(placements.positions@, next_piece),
                                    ));
                                }
                            },
                            Option::None => {
                                next_piece = Option::None;
                            },
                        }
                    },
                    Option::None => {
                        next_piece = Option::None;
                    },
                }
            }
        }
        proof {
            let ghost np = next_piece;
            match np {
                Option::Some(q) => {
                    let new_state = state_toks(placements.positions@, np);
                    assert(toks_lt(pre_state, new_state));
                    lemma_stack_bounds(placements.catalog@, placements.positions@);
                    lemma_sugg_bounds(placements.catalog@, q);
                    assert(toks_bounded(new_state)) by {
                        assert forall|i: int|
                            0 <= i < new_state.len() implies crate::placements::tok_bounded(
                            #[trigger] new_state[i],
                        ) by {
                            if i < toks(placements.positions@).len() {
                                assert(new_state[i] == toks(placements.positions@)[i]);
                            } else {
                                assert(new_state[i] == tok(q));
                            }
                        }
                    }
                    lemma_toks_value_lt(pre_state, new_state, 27);
                    lemma_toks_value_bound(new_state, 27);
                },
                Option::None => {},
            }
        }
    }
    proof {
        assert forall|i: int| 0 <= i < solutions@.len() - 1 implies chars_lt(
            (#[trigger] solutions@[i])@,
            solutions@[i + 1]@,
        ) by {
            lemma_path_strings_ordered(gpaths[i], gpaths[i + 1]);
        }
    }
    SolveReport { solutions, paths: Ghost(gpaths) }
}

/// True when the first requested token path strictly precedes the second.
fn stack_precedes_requested(a: &Vec<RequestedPiece>, b: &Vec<RequestedPiece>) -> (r: bool)
    ensures
        r == toks_lt(
            a@.map_values(|q: RequestedPiece| req_tok(q)),
            b@.map_values(|q: RequestedPiece| req_tok(q)),
        ),
{
    let ghost at = a@.map_values(|q: RequestedPiece| req_tok(q));
    let ghost bt = b@.map_values(|q: RequestedPiece| req_tok(q));
    let n = a.len();
    let m = b.len();
    let mut i: usize = 0;
    while i < n && i < m
        invariant
            i <= n,
            i <= m,
            n == at.len(),
            m == bt.len(),
            at == a@.map_values(|q: RequestedPiece| req_tok(q)),
            bt == b@.map_values(|q: RequestedPiece| req_tok(q)),
            forall|j: int| 0 <= j < i ==> at[j] == #[trigger] bt[j],
        decreases n - i,
    {
        let a_name = a[i].name;
        let a_idx = a[i].orientation_index;
        let b_name = b[i].name;
        let b_idx = b[i].orientation_index;
        proof {
            assert(at[i as int] == req_tok(a@[i as int]));
            assert(bt[i as int] == req_tok(b@[i as int]));
        }
        if (a_name as u32) < (b_name as u32) || (a_name == b_name && a_idx < b_idx) {
            proof {
                lemma_toks_lt_skip(at, bt, i as int);
                assert(at.skip(i as int)[0] == at[i as int]);
                assert(bt.skip(i as int)[0] == bt[i as int]);
                assert(tok_lt(at[i as int], bt[i as int]));
                assert(at[i as int] != bt[i as int]);
            }
            return true;
        }
        if (a_name as u32) != (b_name as u32) || a_idx != b_idx {
            proof {
                lemma_toks_lt_skip(at, bt, i as int);
                assert(at.skip(i as int)[0] == at[i as int]);
                assert(bt.skip(i as int)[0] == bt[i as int]);
                assert(at[i as int] != bt[i as int]);
                assert(!tok_lt(at[i as int], bt[i as int]));
            }
            return false;
        }
        proof {
            assert(at[i as int] == bt[i as int]);
        }
        i = i + 1;
    }
    proof {
        lemma_toks_lt_skip(at, bt, i as int);
        if i == n {
            assert(at.skip(i as int).len() == 0);
        } else {
            assert(bt.skip(i as int).len() == 0);
            assert(at.skip(i as int).len() > 0);
        }
    }
    n < m
}

/// A fatal initialization failure: the run cannot proceed with an
/// inconsistent initial board state.
#[derive(Clone, Copy, Debug, PartialEq, Eq, Structural)]
pub enum SolveError {
    /// The initial state draws the piece in no recognized orientation.
    UnrecognizedOrientation(char),
    /// The initial state places the piece where it does not fit, at the
    /// position of its first occurrence.
    UnplaceablePiece(char, Position),
    /// The initial state draws the piece outside the shape dimensions.
    MalformedPiece(char),
}

/// Finds the position of the first occurrence of the letter in the
/// initial-state text, scanning layers, then rows, then columns.
pub fn parse_shape_position(board_state: &Vec<String>, letter: char) -> (r: Option<Position>)
    ensures
        match r {
            Option::Some(p) => {
                &&& 0 <= p@.0 < board_state.deep_view().len()
                &&& layer_occs(board_state.deep_view(), letter, p@.0).len() > 0
                &&& forall|l: int|
                    0 <= l < p@.0 ==> (#[trigger] layer_occs(
                        board_state.deep_view(),
                        letter,
                        l,
                    )).len() == 0
                &&& (p@.1, p@.2) == layer_occs(board_state.deep_view(), letter, p@.0)[0]
            },
            Option::None => !parse_has(board_state.deep_view(), letter),
        },
{
    let ghost sv = board_state.deep_view();
    let layer_count = board_state.len();
    for li in 0..layer_count
        invariant
            sv == board_state.deep_view(),
            layer_count == sv.len(),
            forall|l: int| 0 <= l < li ==> (#[trigger] layer_occs(sv, letter, l)).len() == 0,
    {
        proof {
            assert(board_state@[li as int]@ == sv[li as int]);
        }
        let scanned = crate::pieces::scan_occurrences(board_state[li].as_str(), letter);
        if scanned.len() > 0 {
            let (row, col) = scanned[0];
            proof {
                assert(layer_occs(sv, letter, li as int)[0] == (row as int, col as int));
            }
            return Option::Some(Position(li, row, col));
        }
        proof {
            assert(layer_occs(sv, letter, li as int).len() == 0);
        }
    }
    proof {
        assert(!parse_has(sv, letter)) by {
            if parse_has(sv, letter) {
                let l = choose|l: int|
                    0 <= l < sv.len() && (#[trigger] layer_occs(sv, letter, l)).len() > 0;
            }
        }
    }
    Option::None
}


/// The initial-state text, layer by layer, as character sequences.
pub open spec fn state_views(initial_state: Option<Vec<String>>) -> Seq<Seq<char>> {
    match initial_state {
        Option::Some(v) => v.deep_view(),
        Option::None => Seq::<Seq<char>>::empty(),
    }
}

/// The empty grid of the chosen board geometry.
pub open spec fn base_grid(board_type: BoardType) -> Seq<Seq<Seq<char>>> {
    if board_type is Rectangle {
        rect_grid(5, 11)
    } else {
        pyramid_grid()
    }
}

/// The first layer of the initial-state text in which the letter occurs;
/// negative when it occurs nowhere.
pub open spec fn first_drawn_layer(sv: Seq<Seq<char>>, letter: char, l: int) -> int
    decreases sv.len() - l,
{
    if !(0 <= l < sv.len()) {
        -1
    } else if layer_occs(sv, letter, l).len() > 0 {
        l
    } else {
        first_drawn_layer(sv, letter, l + 1)
    }
}

/// A layer below which the letter does not occur is the first drawn layer.
pub proof fn lemma_first_drawn_layer(sv: Seq<Seq<char>>, letter: char, l: int, l0: int)
    requires
        0 <= l0 <= l < sv.len(),
        layer_occs(sv, letter, l).len() > 0,
        forall|l2: int| l0 <= l2 < l ==> (#[trigger] layer_occs(sv, letter, l2)).len() == 0,
    ensures
        first_drawn_layer(sv, letter, l0) == l,
    decreases l - l0,
{
    if l0 < l {
        lemma_first_drawn_layer(sv, letter, l, l0 + 1);
    }
}

/// The position of the first occurrence of the letter in the text,
/// scanning layers, then rows, then columns.
pub open spec fn drawn_pos(sv: Seq<Seq<char>>, letter: char) -> (int, int, int) {
    let l = first_drawn_layer(sv, letter, 0);
    (l, layer_occs(sv, letter, l)[0].0, layer_occs(sv, letter, l)[0].1)
}

/// The first catalog orientation of the piece holding exactly these cells
/// and this flag, scanning from index `i`; negative when none matches.
pub open spec fn match_orientation_from(p: Piece, v: Seq<Seq<Seq<bool>>>, d: bool, i: int) -> int
    decreases p.orientations@.len() - i,
{
    if !(0 <= i < p.orientations@.len()) {
        -1
    } else if p.orientations@[i]@ == v && p.orientations@[i].is_3d == d {
        i
    } else {
        match_orientation_from(p, v, d, i + 1)
    }
}

/// The grid after committing the drawn pieces of the catalog letters
/// before `upto`, each at the position of its first occurrence.
pub open spec fn place_drawn(
    base: Seq<Seq<Seq<char>>>,
    cat: Seq<Piece>,
    sv: Seq<Seq<char>>,
    upto: int,
) -> Seq<Seq<Seq<char>>>
    decreases upto,
{
    if upto <= 0 {
        base
    } else {
        let g1 = place_drawn(base, cat, sv, upto - 1);
        let letter = cat[upto - 1].letter;
        if parse_has(sv, letter) && !parse_bad(sv, letter) {
            let shp = parsed_shape_spec(sv, letter);
            let d = multi_layer(shp);
            let pos = drawn_pos(sv, letter);
            if can_place(g1, shp, d, pos) {
                place_spec(g1, shp, letter, pos, offset_of(shp), place_depth(g1, shp, d, pos))
            } else {
                g1
            }
        } else {
            g1
        }
    }
}

/// The placement tokens of the drawn pieces, in catalog-letter order.
pub open spec fn drawn_tokens(cat: Seq<Piece>, sv: Seq<Seq<char>>, upto: int) -> Seq<(int, int)>
    decreases upto,
{
    if upto <= 0 {
        Seq::<(int, int)>::empty()
    } else {
        let pre = drawn_tokens(cat, sv, upto - 1);
        let letter = cat[upto - 1].letter;
        if parse_has(sv, letter) && !parse_bad(sv, letter) {
            let shp = parsed_shape_spec(sv, letter);
            pre.push(
                (letter as int, match_orientation_from(cat[upto - 1], shp, multi_layer(shp), 0)),
            )
        } else {
            pre
        }
    }
}

/// The exec position built from a drawn position.
pub open spec fn pos_of(t: (int, int, int)) -> Position {
    Position(t.0 as usize, t.1 as usize, t.2 as usize)
}

/// Why initializing catalog letter `k` fails, given the grid the earlier
/// letters build; nothing when it is absent from the text or places
/// cleanly.
pub open spec fn init_failure(
    cat: Seq<Piece>,
    sv: Seq<Seq<char>>,
    base: Seq<Seq<Seq<char>>>,
    k: int,
) -> Option<SolveError> {
    let letter = cat[k].letter;
    if !parse_has(sv, letter) && !parse_bad(sv, letter) {
        Option::None::<SolveError>
    } else if parse_bad(sv, letter) {
        Option::Some(SolveError::MalformedPiece(letter))
    } else {
        let shp = parsed_shape_spec(sv, letter);
        let d = multi_layer(shp);
        if match_orientation_from(cat[k], shp, d, 0) < 0 {
            Option::Some(SolveError::UnrecognizedOrientation(letter))
        } else {
            let pos = drawn_pos(sv, letter);
            if pos.1 > usize::MAX - 5 || pos.2 > usize::MAX - 5 || !can_place(
                place_drawn(base, cat, sv, k),
                shp,
                d,
                pos,
            ) {
                Option::Some(SolveError::UnplaceablePiece(letter, pos_of(pos)))
            } else {
                Option::None::<SolveError>
            }
        }
    }
}

/// Initializing fails at catalog index `k` with error `e`, every earlier
/// letter having initialized cleanly.
pub open spec fn init_failure_at(
    cat: Seq<Piece>,
    sv: Seq<Seq<char>>,
    base: Seq<Seq<Seq<char>>>,
    k: int,
    e: SolveError,
) -> bool {
    &&& 0 <= k < cat.len()
    &&& init_failure(cat, sv, base, k) == Option::Some(e)
    &&& forall|k2: int| 0 <= k2 < k ==> (#[trigger] init_failure(cat, sv, base, k2)) is None
}

/// Some catalog letter is the first to fail initialization, with error `e`.
pub open spec fn first_init_failure_is(
    cat: Seq<Piece>,
    sv: Seq<Seq<char>>,
    base: Seq<Seq<Seq<char>>>,
    e: SolveError,
) -> bool {
    exists|k: int| #[trigger] init_failure_at(cat, sv, base, k, e)
}

/// Builds the board and the cursor from the run parameters: parses the
/// caller's initial state, places each drawn piece on the board at the
/// position of its first occurrence (in catalog-letter order), seeds the
/// cursor with those placements, and returns the first candidate for the
/// search loop. The first catalog letter whose drawing is malformed, in
/// no recognized orientation, or cannot be placed is a fatal error naming
/// the piece and, for a failed placement, its position.
pub fn initialize(
    pieces: Vec<Piece>,
    initial_state: &Option<Vec<String>>,
    board_type: &BoardType,
    allow_backtracking: bool,
) -> (r: Result<(Variation, Placements, Option<PieceSuggestion>), SolveError>)
    requires
        catalog_wf(pieces@),
    ensures
        ({
            let sv = state_views(*initial_state);
            let base = base_grid(*board_type);
            let dt = drawn_tokens(pieces@, sv, pieces@.len() as int);
            match r {
                Result::Ok((board, placements, first)) => {
                    &&& board.wf()
                    &&& placements.wf()
                    &&& placements.catalog@ == pieces@
                    &&& forall|k: int|
                        0 <= k < pieces@.len() ==> (#[trigger] init_failure(
                            pieces@,
                            sv,
                            base,
                            k,
                        )) is None
                    &&& board.grid() == place_drawn(base, pieces@, sv, pieces@.len() as int)
                    &&& toks(placements.positions@) == dt
                    &&& placements.floor as int == (if allow_backtracking {
                        0int
                    } else {
                        placements.positions@.len() as int
                    })
                    &&& ({
                        let nu = crate::placements::next_unused(placements.used_letters@, 0);
                        match first {
                            Option::Some(p) => {
                                &&& valid_sugg(placements.catalog@, p)
                                &&& !placements.used_letters@[p.name as int - 65]
                                &&& (if dt.len() == 0 {
                                    tok(p) == (65int, 0int)
                                } else {
                                    nu < 26 && tok(p) == (nu + 65, 0int)
                                })
                            },
                            Option::None => (if dt.len() == 0 {
                                crate::pieces::find_from(pieces@, 'A', 0) < 0
                            } else {
                                nu >= 26 || crate::pieces::find_from(
                                    pieces@,
                                    crate::placements::tok_char(nu + 65),
                                    0,
                                ) < 0
                            }),
                        }
                    })
                },
                Result::Err(e) => {
                    &&& *initial_state is Some
                    &&& first_init_failure_is(pieces@, sv, base, e)
                },
            }
        }),
{
    let ghost sv = state_views(*initial_state);
    let ghost state_given = *initial_state is Some;
    let empty_state: Vec<String> = Vec::new();
    let board_state: &Vec<String> = match initial_state {
        Option::Some(v) => v,
        Option::None => &empty_state,
    };
    proof {
        assert(board_state.deep_view() =~= sv);
        if !state_given {
            assert(sv.len() == 0);
        }
    }
    let mut board = create_board(board_type);
    let ghost base = base_grid(*board_type);
    proof {
        assert(board.grid() == base);
    }
    let mut placements = Placements::new(pieces);
    let mut requested: Vec<RequestedPiece> = Vec::new();
    let catalog_len = placements.catalog.len();
    for pi_idx in 0..catalog_len
        invariant
            board.wf(),
            placements.wf(),
            placements.positions@.len() == 0,
            placements.floor == 0,
            catalog_len == placements.catalog@.len(),
            placements.catalog@ == pieces@,
            catalog_wf(pieces@),
            sv == board_state.deep_view(),
            sv == state_views(*initial_state),
            state_given == (*initial_state is Some),
            !state_given ==> sv.len() == 0,
            base == base_grid(*board_type),
            board.grid() == place_drawn(base, pieces@, sv, pi_idx as int),
            forall|k: int|
                0 <= k < pi_idx ==> (#[trigger] init_failure(pieces@, sv, base, k)) is None,
            requested@.map_values(|q: RequestedPiece| req_tok(q)) == drawn_tokens(
                pieces@,
                sv,
                pi_idx as int,
            ),
            forall|a: int|
                0 <= a < requested@.len() ==> crate::placements::valid_req(
                    pieces@,
                    #[trigger] requested@[a],
                ),
            forall|a: int, b: int|
                #![trigger requested@[a], requested@[b]]
                0 <= a < b < requested@.len() ==> (requested@[a].name as int)
                    < (requested@[b].name as int),
            pi_idx < catalog_len ==> forall|a: int|
                0 <= a < requested@.len() ==> ((#[trigger] requested@[a]).name as int)
                    < (pieces@[pi_idx as int].letter as int),
    {
        let letter = placements.catalog[pi_idx].letter;
        let ghost k = pi_idx as int;
        match Shape::parse(board_state, letter) {
            Result::Ok(Option::Some(shape)) => {
                proof {
                    if !state_given {
                        assert(!parse_has(sv, letter)) by {
                            if parse_has(sv, letter) {
                                let l = choose|l: int|
                                    0 <= l < sv.len() && (#[trigger] layer_occs(
                                        sv,
                                        letter,
                                        l,
                                    )).len() > 0;
                            }
                        }
                        assert(false);
                    }
                    assert(crate::pieces::piece_wf(pieces@[k]));
                }
                // look the drawn orientation up: the first structural match
                let norient = placements.catalog[pi_idx].orientations.len();
                let mut found: Option<usize> = Option::None;
                for oi in 0..norient
                    invariant
                        placements.wf(),
                        placements.catalog@ == pieces@,
                        k == pi_idx as int,
                        0 <= k < pieces@.len(),
                        shape.wf(),
                        shape@ == parsed_shape_spec(sv, letter),
                        shape.is_3d == multi_layer(shape@),
                        norient == pieces@[k].orientations@.len(),
                        crate::pieces::piece_wf(pieces@[k]),
                        match found {
                            Option::Some(f) => f < norient && match_orientation_from(
                                pieces@[k],
                                shape@,
                                shape.is_3d,
                                0,
                            ) == f,
                            Option::None => match_orientation_from(
                                pieces@[k],
                                shape@,
                                shape.is_3d,
                                0,
                            ) == match_orientation_from(pieces@[k], shape@, shape.is_3d, oi as int),
                        },
                {
                    if found.is_none() && placements.catalog[pi_idx].orientations[oi].equals(&shape)
                    {
                        found = Option::Some(oi);
                    }
                }
                let oi = match found {
                    Option::Some(f) => f,
                    Option::None => {
                        proof {
                            assert(match_orientation_from(pieces@[k], shape@, shape.is_3d, 0)
                                == -1);
                            assert(init_failure(pieces@, sv, base, k) == Option::Some(
                                SolveError::UnrecognizedOrientation(letter),
                            ));
                            assert(init_failure_at(
                                pieces@,
                                sv,
                                base,
                                k,
                                SolveError::UnrecognizedOrientation(letter),
                            ));
                            assert(first_init_failure_is(
                                pieces@,
                                sv,
                                base,
                                SolveError::UnrecognizedOrientation(letter),
                            ));
                        }
                        return Result::Err(SolveError::UnrecognizedOrientation(letter));
                    },
                };
                let pos = match parse_shape_position(board_state, letter) {
                    Option::Some(p) => p,
                    Option::None => {
                        proof {
                            assert(parse_has(board_state.deep_view(), letter));
                            assert(false);
                        }
                        return Result::Err(SolveError::UnrecognizedOrientation(letter));
                    },
                };
                proof {
                    lemma_first_drawn_layer(sv, letter, pos@.0, 0);
                    assert(drawn_pos(sv, letter) == pos@);
                }
                if pos.1 > usize::MAX - 5 || pos.2 > usize::MAX - 5 {
                    proof {
                        assert(init_failure(pieces@, sv, base, k) == Option::Some(
                            SolveError::UnplaceablePiece(letter, pos_of(drawn_pos(sv, letter))),
                        ));
                        assert(pos_of(drawn_pos(sv, letter)) == pos);
                        assert(init_failure_at(
                            pieces@,
                            sv,
                            base,
                            k,
                            SolveError::UnplaceablePiece(letter, pos),
                        ));
                        assert(first_init_failure_is(
                            pieces@,
                            sv,
                            base,
                            SolveError::UnplaceablePiece(letter, pos),
                        ));
                    }
                    return Result::Err(SolveError::UnplaceablePiece(letter, pos));
                }
                let added = board.try_add_shape_at(&shape, letter, &pos);
                match added {
                    Result::Ok(()) => {
                        proof {
                            assert(board.grid() == place_drawn(base, pieces@, sv, k + 1));
                        }
                    },
                    Result::Err(()) => {
                        proof {
                            assert(init_failure(pieces@, sv, base, k) == Option::Some(
                                SolveError::UnplaceablePiece(letter, pos_of(drawn_pos(sv, letter))),
                            ));
                            assert(pos_of(drawn_pos(sv, letter)) == pos);
                            assert(init_failure_at(
                                pieces@,
                                sv,
                                base,
                                k,
                                SolveError::UnplaceablePiece(letter, pos),
                            ));
                            assert(first_init_failure_is(
                                pieces@,
                                sv,
                                base,
                                SolveError::UnplaceablePiece(letter, pos),
                            ));
                        }
                        return Result::Err(SolveError::UnplaceablePiece(letter, pos));
                    },
                }
                proof {
                    lemma_find_unique(pieces@, k);
                    assert(init_failure(pieces@, sv, base, k) is None);
                    assert(drawn_tokens(pieces@, sv, k + 1) == drawn_tokens(pieces@, sv, k).push(
                        (letter as int, oi as int),
                    ));
                }
                requested.push(RequestedPiece { name: letter, orientation_index: oi });
                proof {
                    assert(requested@.map_values(|q: RequestedPiece| req_tok(q)) =~= drawn_tokens(
                        pieces@,
                        sv,
                        k + 1,
                    ));
                }
            },
            Result::Ok(Option::None) => {
                proof {
                    assert(init_failure(pieces@, sv, base, k) is None);
                    assert(place_drawn(base, pieces@, sv, k + 1) == place_drawn(
                        base,
                        pieces@,
                        sv,
                        k,
                    ));
                    assert(drawn_tokens(pieces@, sv, k + 1) == drawn_tokens(pieces@, sv, k));
                }
            },
            Result::Err(_) => {
                proof {
                    if !state_given {
                        assert(!parse_bad(sv, letter)) by {
                            if parse_bad(sv, letter) {
                                let (l, i) = choose|l: int, i: int| #[trigger] crate::pieces::bad_occ(
                                    sv,
                                    letter,
                                    l,
                                    i,
                                );
                            }
                        }
                        assert(false);
                    }
                    assert(init_failure(pieces@, sv, base, k) == Option::Some(
                        SolveError::MalformedPiece(letter),
                    ));
                    assert(init_failure_at(pieces@, sv, base, k, SolveError::MalformedPiece(letter)));
                    assert(first_init_failure_is(
                        pieces@,
                        sv,
                        base,
                        SolveError::MalformedPiece(letter),
                    ));
                }
                return Result::Err(SolveError::MalformedPiece(letter));
            },
        }
    }
    let ghost dt = drawn_tokens(pieces@, sv, pieces@.len() as int);
    let first: Option<PieceSuggestion>;
    if requested.len() == 0 {
        proof {
            assert(dt.len() == 0);
        }
        match crate::pieces::get_piece_orientation(&placements.catalog, 'A', 0) {
            Option::Some(_) => {
                let mut one: Vec<RequestedPiece> = Vec::new();
                one.push(RequestedPiece { name: 'A', orientation_index: 0 });
                first = placements.initialize(one);
                proof {
                    assert(first is Some);
                }
            },
            Option::None => {
                proof {
                    let pi = crate::pieces::find_from(pieces@, 'A', 0);
                    if pi >= 0 {
                        crate::pieces::lemma_find_from(pieces@, 'A', 0);
                        assert(crate::pieces::piece_wf(pieces@[pi]));
                    }
                }
                first = Option::None;
            },
        }
    } else {
        let last = placements.initialize(requested);
        match last {
            Option::Some(s) => {
                let ghost n = requested@.len() as int;
                proof {
                    assert(requested@.map_values(|q: RequestedPiece| req_tok(q)) == dt);
                    assert(dt.len() == n);
                    assert forall|j: int|
                        0 <= j < n - 1 implies #[trigger] toks(placements.positions@)[j] == dt[j] by {
                        assert(toks(placements.positions@)[j] == requested@.take(n - 1).map_values(
                            |q: RequestedPiece| req_tok(q),
                        )[j]);
                        assert(requested@.take(n - 1)[j] == requested@[j]);
                        assert(dt[j] == req_tok(requested@[j]));
                    }
                    assert(tok(s) == req_tok(requested@[n - 1]));
                    assert(tok(s) == dt[n - 1]);
                    assert(toks(placements.positions@) == requested@.take(n - 1).map_values(
                        |q: RequestedPiece| req_tok(q),
                    ));
                    assert(requested@.take(n - 1).len() == n - 1);
                    assert(toks(placements.positions@).len() == placements.positions@.len());
                    assert(placements.positions@.len() == n - 1);
                }
                let ghost stack_pre = placements.positions@;
                match placements.get_next_piece_to_try_after_success(s) {
                    Option::Some(pa) => {
                        proof {
                            assert(placements.positions@ == stack_pre.push(s));
                            assert(toks(placements.positions@).len() == n);
                            assert forall|j: int|
                                0 <= j < n implies #[trigger] toks(placements.positions@)[j]
                                == dt[j] by {
                                assert(toks(placements.positions@)[j] == tok(
                                    stack_pre.push(s)[j],
                                ));
                                if j < n - 1 {
                                    assert(stack_pre.push(s)[j] == stack_pre[j]);
                                    assert(toks(stack_pre)[j] == tok(stack_pre[j]));
                                } else {
                                    assert(stack_pre.push(s)[j] == s);
                                }
                            }
                            assert(toks(placements.positions@) =~= dt);
                        }
                        first = Option::Some(pa.piece);
                    },
                    Option::None => {
                        proof {
                            assert(placements.positions@ == stack_pre.push(s));
                            assert(toks(placements.positions@).len() == n);
                            assert forall|j: int|
                                0 <= j < n implies #[trigger] toks(placements.positions@)[j]
                                == dt[j] by {
                                assert(toks(placements.positions@)[j] == tok(
                                    stack_pre.push(s)[j],
                                ));
                                if j < n - 1 {
                                    assert(stack_pre.push(s)[j] == stack_pre[j]);
                                    assert(toks(stack_pre)[j] == tok(stack_pre[j]));
                                } else {
                                    assert(stack_pre.push(s)[j] == s);
                                }
                            }
                            assert(toks(placements.positions@) =~= dt);
                        }
                        first = Option::None;
                    },
                }
            },
            Option::None => {
                proof {
                    assert(false);
                }
                first = Option::None;
            },
        }
    }
    if !allow_backtracking {
        placements.prevent_backtracking();
    }
    Result::Ok((board, placements, first))
}

/// Finds the solutions reachable from the initial state, in lexicographic
/// order of their placement paths, stopping before any solution at or
/// beyond the stop path. The reported paths are strictly increasing and,
/// when a non-empty stop path is given, strictly below it.
pub fn find_solutions(
    pieces: Vec<Piece>,
    board_type: Option<BoardType>,
    initial_state: Option<Vec<String>>,
    allow_backtracking: Option<bool>,
    ending_at: Option<Vec<RequestedPiece>>,
) -> (r: Result<SolveReport, SolveError>)
    requires
        catalog_wf(pieces@),
    ensures
        match r {
            Result::Ok(report) => {
                &&& report.solutions@.len() == report.paths@.len()
                &&& forall|i: int|
                    0 <= i < report.paths@.len() ==> report.solutions@[i]@ == path_spec(
                        #[trigger] report.paths@[i],
                    )
                &&& forall|i: int|
                    0 <= i < report.paths@.len() - 1 ==> toks_lt(
                        toks(#[trigger] report.paths@[i]),
                        toks(report.paths@[i + 1]),
                    )
                &&& forall|i: int|
                    0 <= i < report.solutions@.len() - 1 ==> chars_lt(
                        (#[trigger] report.solutions@[i])@,
                        report.solutions@[i + 1]@,
                    )
                &&& match ending_at {
                    Option::Some(e) => e@.len() > 0 ==> forall|i: int|
                        0 <= i < report.paths@.len() ==> toks_lt(
                            toks(#[trigger] report.paths@[i]),
                            e@.map_values(|q: RequestedPiece| req_tok(q)),
                        ),
                    Option::None => true,
                }
            },
            Result::Err(e) => {
                &&& initial_state is Some
                &&& first_init_failure_is(
                    pieces@,
                    state_views(initial_state),
                    base_grid(
                        match board_type {
                            Option::Some(t) => t,
                            Option::None => BoardType::Rectangle,
                        },
                    ),
                    e,
                )
            },
        },
{
    let requested_board_type = match board_type {
        Option::Some(t) => t,
        Option::None => BoardType::Rectangle,
    };
    let backtracking = match allow_backtracking {
        Option::Some(b) => b,
        Option::None => false,
    };
    match initialize(pieces, &initial_state, &requested_board_type, backtracking) {
        Result::Ok((mut board, mut placements, first)) => {
            let report = solve(&mut board, &mut placements, first, &ending_at);
            Result::Ok(report)
        },
        Result::Err(e) => Result::Err(e),
    }
}

/// The seven characters of one requested token, as in "A[03]; ".
pub open spec fn req_chars(q: RequestedPiece) -> Seq<char> {
    seq![
        q.name,
        '[',
        crate::placements::digit_char(q.orientation_index as int / 10),
        crate::placements::digit_char(q.orientation_index as int % 10),
        ']',
        ';',
        ' ',
    ]
}

/// The path string of a requested-piece list, token by token.
pub open spec fn req_path_spec(qs: Seq<RequestedPiece>) -> Seq<char>
    decreases qs.len(),
{
    if qs.len() == 0 {
        Seq::<char>::empty()
    } else {
        req_chars(qs[0]) + req_path_spec(qs.drop_first())
    }
}

/// Renders a requested-piece list as a placement-path string, for display
/// beside the paths the solver reports.
pub fn convert_requested_pieces_to_path_string(qs: &Vec<RequestedPiece>) -> (r: String)
    requires
        forall|i: int| 0 <= i < qs@.len() ==> (#[trigger] qs@[i]).orientation_index <= 99,
    ensures
        r@ == req_path_spec(qs@),
{
    let mut r = String::new();
    let n = qs.len();
    proof {
        assert(qs@.skip(0) == qs@);
    }
    for i in 0..n
        invariant
            n == qs@.len(),
            forall|k: int| 0 <= k < qs@.len() ==> (#[trigger] qs@[k]).orientation_index <= 99,
            r@ + req_path_spec(qs@.skip(i as int)) == req_path_spec(qs@),
    {
        let name = qs[i].name;
        let idx = qs[i].orientation_index;
        crate::placements::string_push(&mut r, name);
        crate::placements::string_push(&mut r, '[');
        crate::placements::string_push(&mut r, crate::placements::digit_to_char(idx / 10));
        crate::placements::string_push(&mut r, crate::placements::digit_to_char(idx % 10));
        crate::placements::string_push(&mut r, ']');
        crate::placements::string_push(&mut r, ';');
        crate::placements::string_push(&mut r, ' ');
        proof {
            let rest = qs@.skip(i as int);
            assert(rest[0] == qs@[i as int]);
            assert(rest.drop_first() =~= qs@.skip(i + 1));
            assert(req_path_spec(rest) == req_chars(qs@[i as int]) + req_path_spec(qs@.skip(i + 1)));
            assert(r@ + req_path_spec(qs@.skip(i + 1)) =~= req_path_spec(qs@));
        }
    }
    proof {
        assert(qs@.skip(n as int) =~= Seq::<RequestedPiece>::empty());
        assert(r@ =~= req_path_spec(qs@));
    }
    r
}

} // verus!
