//! The placement cursor: a deterministic, resumable depth-first state
//! machine over (piece, orientation) pairs. It keeps the stack of pieces
//! currently placed, the set of used piece names, and an optional floor
//! below which backtracking may not retreat, and it suggests the next
//! candidate in strict lexicographic (name, then orientation index) order.

use crate::pieces::{catalog_wf, find_from, get_piece_orientation, piece_wf, Piece, Shape};
use vstd::prelude::*;

verus! {

/// A suggested piece to be placed on or removed from the board. The
/// wrapped shape is in the orientation in which the piece is expected to
/// be placed.
pub struct PieceSuggestion {
    pub name: char,
    pub shape: Shape,
    pub orientation_index: usize,
}

/// The suggestion to try next after a successful placement.
pub struct PieceAfterSuccess {
    pub piece: PieceSuggestion,
}

/// The suggestion to try next after a failed placement; the pieces in
/// `to_remove` must be removed from the board before attempting it.
pub struct PieceAfterFailure {
    pub piece: PieceSuggestion,
    pub to_remove: Vec<PieceSuggestion>,
}

/// A piece name with an orientation index, as requested by a caller.
#[derive(Debug, Clone, Copy, PartialEq, Eq, Structural)]
pub struct RequestedPiece {
    pub name: char,
    pub orientation_index: usize,
}

/// The (name, orientation) token of a suggestion, as integers.
pub open spec fn tok(s: PieceSuggestion) -> (int, int) {
    (s.name as int, s.orientation_index as int)
}

/// The token of a requested piece.
pub open spec fn req_tok(r: RequestedPiece) -> (int, int) {
    (r.name as int, r.orientation_index as int)
}

/// The token sequence of a suggestion stack.
pub open spec fn toks(ps: Seq<PieceSuggestion>) -> Seq<(int, int)> {
    ps.map_values(|s: PieceSuggestion| tok(s))
}

/// Strict order on tokens: by name, then by orientation index.
pub open spec fn tok_lt(a: (int, int), b: (int, int)) -> bool {
    a.0 < b.0 || (a.0 == b.0 && a.1 < b.1)
}

/// Strict lexicographic order on token sequences, where a proper prefix
/// precedes its extensions.
pub open spec fn toks_lt(a: Seq<(int, int)>, b: Seq<(int, int)>) -> bool
    decreases a.len(),
{
    if a.len() == 0 {
        b.len() > 0
    } else if b.len() == 0 {
        false
    } else if a[0] == b[0] {
        toks_lt(a.drop_first(), b.drop_first())
    } else {
        tok_lt(a[0], b[0])
    }
}

/// The suggestion is one of the catalog's pieces with a valid orientation
/// index and carries exactly that orientation's shape.
pub open spec fn valid_sugg(cat: Seq<Piece>, s: PieceSuggestion) -> bool {
    let pi = find_from(cat, s.name, 0);
    &&& 0 <= pi < cat.len()
    &&& (s.orientation_index as int) < cat[pi].orientations@.len()
    &&& s.shape.wf()
    &&& crate::pieces::shape_nonempty(s.shape@)
    &&& s.shape@ == cat[pi].orientations@[s.orientation_index as int]@
    &&& s.shape.is_3d == cat[pi].orientations@[s.orientation_index as int].is_3d
}

/// Some stack entry bears the letter with 0-based index `l`.
pub open spec fn letter_on_stack(ps: Seq<PieceSuggestion>, l: int) -> bool {
    exists|i: int| 0 <= i < ps.len() && (#[trigger] ps[i]).name as int == l + 65
}

/// The smallest unused letter index at or after `j`; 26 when none.
pub open spec fn next_unused(used: Seq<bool>, j: int) -> int
    decreases 26 - j,
{
    if !(0 <= j < 26) {
        26
    } else if !used[j] {
        j
    } else {
        next_unused(used, j + 1)
    }
}

/// The search for an unused letter never looks backward.
pub proof fn lemma_next_unused_ge(used: Seq<bool>, j: int)
    requires
        0 <= j <= 26,
    ensures
        next_unused(used, j) >= j,
    decreases 26 - j,
{
    if 0 <= j < 26 && used[j] {
        lemma_next_unused_ge(used, j + 1);
    }
}


/// The character with the given code point (used for letters A through Z).
pub open spec fn tok_char(n: int) -> char {
    ((n as u8) as char)
}

/// An upper-case letter's code round-trips through `tok_char`.
pub proof fn lemma_tok_char_id(c: char)
    requires
        65 <= c as int <= 90,
    ensures
        tok_char(c as int) == c,
{
    assert(tok_char(c as int) as int == c as int);
}

/// The candidate the cursor proposes for a failed token without popping:
/// the same piece's next orientation when the catalog has one; otherwise
/// the first orientation of the smallest unused name after it, when the
/// catalog holds that name; otherwise nothing.
pub open spec fn step_candidate(cat: Seq<Piece>, used: Seq<bool>, fail: (int, int)) -> Option<
    (int, int),
> {
    let pi = find_from(cat, tok_char(fail.0), 0);
    if pi >= 0 && fail.1 + 1 < cat[pi].orientations@.len() {
        Option::Some((fail.0, fail.1 + 1))
    } else {
        let nu = next_unused(used, fail.0 - 64);
        if nu < 26 && find_from(cat, tok_char(nu + 65), 0) >= 0 {
            Option::Some((nu + 65, 0))
        } else {
            Option::None
        }
    }
}

/// The full failure transition: starting from a failed token, either a
/// candidate is found after popping some number of stack records (the
/// count and the candidate token are returned), or the stack runs down to
/// the backtracking floor with no candidate anywhere.
pub open spec fn cascade(
    cat: Seq<Piece>,
    stack: Seq<PieceSuggestion>,
    used: Seq<bool>,
    fail: (int, int),
    floor: int,
) -> Option<(int, (int, int))>
    decreases stack.len(),
{
    match step_candidate(cat, used, fail) {
        Option::Some(t) => Option::Some((0, t)),
        Option::None => {
            if stack.len() == 0 || stack.len() <= floor {
                Option::None::<(int, (int, int))>
            } else {
                let prev = stack.last();
                match cascade(
                    cat,
                    stack.drop_last(),
                    used.update(prev.name as int - 65, false),
                    tok(prev),
                    floor,
                ) {
                    Option::Some((k, t)) => Option::Some((k + 1, t)),
                    Option::None => Option::None,
                }
            }
        },
    }
}

/// Keeps track of which pieces are currently placed and suggests the next
/// piece to try, in ascending order by piece name and orientation, so
/// that no placement context is ever suggested twice.
pub struct Placements {
    pub catalog: Vec<Piece>,
    pub positions: Vec<PieceSuggestion>,
    pub used_letters: Vec<bool>,
    pub floor: usize,
}

impl Placements {
    pub open spec fn wf(&self) -> bool {
        &&& catalog_wf(self.catalog@)
        &&& self.used_letters@.len() == 26
        &&& self.floor <= self.positions@.len()
        &&& forall|i: int|
            0 <= i < self.positions@.len() ==> valid_sugg(
                self.catalog@,
                #[trigger] self.positions@[i],
            )
        &&& forall|i: int, j: int|
            #![trigger self.positions@[i].name, self.positions@[j].name]
            0 <= i < j < self.positions@.len() ==> self.positions@[i].name
                != self.positions@[j].name
        &&& forall|l: int|
            0 <= l < 26 ==> (#[trigger] self.used_letters@[l]) == letter_on_stack(
                self.positions@,
                l,
            )
    }

    /// A fresh cursor over the given piece catalog, with nothing placed.
    pub fn new(catalog: Vec<Piece>) -> (p: Placements)
        requires
            catalog_wf(catalog@),
        ensures
            p.wf(),
            p.catalog@ == catalog@,
            p.positions@.len() == 0,
            p.floor == 0,
    {
        let mut used_letters: Vec<bool> = Vec::new();
        for i in 0..26usize
            invariant
                used_letters@.len() == i,
                forall|l: int| 0 <= l < i ==> !(#[trigger] used_letters@[l]),
        {
            used_letters.push(false);
        }
        let p = Placements { catalog, positions: Vec::new(), used_letters, floor: 0 };
        proof {
            assert forall|l: int| 0 <= l < 26 implies (#[trigger] p.used_letters@[l])
                == letter_on_stack(p.positions@, l) by {
                assert(!letter_on_stack(p.positions@, l));
            }
        }
        p
    }

    /// Forbids backtracking below the current stack depth, protecting
    /// caller-supplied initial placements from being undone.
    pub fn prevent_backtracking(&mut self)
        requires
            old(self).wf(),
        ensures
            final(self).wf(),
            final(self).floor == old(self).positions@.len(),
            final(self).catalog == old(self).catalog,
            final(self).positions == old(self).positions,
            final(self).used_letters == old(self).used_letters,
    {
        self.floor = self.positions.len();
    }

    /// True when a piece with this letter is currently placed.
    fn used_contains(&self, letter: char) -> (b: bool)
        requires
            self.wf(),
            65 <= letter as int <= 90,
        ensures
            b == self.used_letters@[letter as int - 65],
    {
        let idx = (letter as u32 - 65) as usize;
        self.used_letters[idx]
    }

    /// Suggests the first orientation of the smallest unused piece name
    /// strictly after `after_char`, or nothing when that name is not in
    /// the catalog.
    fn get_next_piece_to_try(&self, after_char: char) -> (r: Option<PieceSuggestion>)
        requires
            self.wf(),
            64 <= after_char as int <= 90,
        ensures
            ({
                let nu = next_unused(self.used_letters@, after_char as int - 64);
                match r {
                    Option::Some(s) => {
                        &&& nu < 26
                        &&& !self.used_letters@[nu]
                        &&& forall|l: int|
                            after_char as int - 64 <= l < nu ==> #[trigger] self.used_letters@[l]
                        &&& tok(s) == (nu + 65, 0int)
                        &&& valid_sugg(self.catalog@, s)
                    },
                    Option::None => nu >= 26 || find_from(
                        self.catalog@,
                        ((nu + 65) as u8) as char,
                        0,
                    ) < 0,
                }
            }),
    {
        let start: usize = (after_char as u32 - 64) as usize;
        let mut j: usize = start;
        while j < 26 && self.used_letters[j]
            invariant
                self.wf(),
                start <= j <= 26,
                next_unused(self.used_letters@, start as int) == next_unused(
                    self.used_letters@,
                    j as int,
                ),
                forall|l: int| start <= l < j ==> #[trigger] self.used_letters@[l],
            decreases 26 - j,
        {
            j = j + 1;
        }
        if j >= 26 {
            return Option::None;
        }
        let next_name: char = ((65 + j) as u8) as char;
        proof {
            assert(next_unused(self.used_letters@, j as int) == j);
            assert(next_name as int == 65 + j);
        }
        match get_piece_orientation(&self.catalog, next_name, 0) {
            Option::Some(shape) => {
                let s = PieceSuggestion { name: next_name, shape, orientation_index: 0 };
                Option::Some(s)
            },
            Option::None => {
                proof {
                    let cat = self.catalog@;
                    let pi = find_from(cat, next_name, 0);
                    if pi >= 0 {
                        crate::pieces::lemma_find_from(cat, next_name, 0);
                        assert(piece_wf(cat[pi]));
                    }
                    assert(next_name == ((next_unused(self.used_letters@, after_char as int - 64)
                        + 65) as u8) as char);
                }
                Option::None
            },
        }
    }
}

/// A requested (name, orientation) pair that exists in the catalog.
pub open spec fn valid_req(cat: Seq<Piece>, r: RequestedPiece) -> bool {
    let pi = find_from(cat, r.name, 0);
    &&& 0 <= pi < cat.len()
    &&& (r.orientation_index as int) < cat[pi].orientations@.len()
}

/// A valid suggestion's name is an upper-case letter and its orientation
/// index fits in two digits.
pub proof fn lemma_sugg_bounds(cat: Seq<Piece>, s: PieceSuggestion)
    requires
        catalog_wf(cat),
        valid_sugg(cat, s),
    ensures
        65 <= s.name as int <= 90,
        s.orientation_index <= 98,
{
    let pi = find_from(cat, s.name, 0);
    crate::pieces::lemma_find_from(cat, s.name, 0);
    assert(piece_wf(cat[pi]));
}

/// A proper prefix precedes its extensions.
pub proof fn lemma_toks_lt_extend(a: Seq<(int, int)>, b: Seq<(int, int)>)
    requires
        a.len() < b.len(),
        forall|j: int| 0 <= j < a.len() ==> a[j] == #[trigger] b[j],
    ensures
        toks_lt(a, b),
    decreases a.len(),
{
    if a.len() > 0 {
        lemma_toks_lt_extend(a.drop_first(), b.drop_first());
    }
}

/// A sequence precedes any sequence that agrees before position `i` and
/// is larger there.
pub proof fn lemma_toks_lt_diff(a: Seq<(int, int)>, b: Seq<(int, int)>, i: int)
    requires
        0 <= i < a.len(),
        i < b.len(),
        forall|j: int| 0 <= j < i ==> a[j] == #[trigger] b[j],
        tok_lt(a[i], b[i]),
    ensures
        toks_lt(a, b),
    decreases i,
{
    if i == 0 {
        assert(a[0] != b[0]);
    } else {
        lemma_toks_lt_diff(a.drop_first(), b.drop_first(), i - 1);
    }
}

/// Every token is an upper-case letter with a two-digit orientation.
pub open spec fn tok_bounded(t: (int, int)) -> bool {
    65 <= t.0 <= 90 && 0 <= t.1 <= 98
}

pub open spec fn toks_bounded(s: Seq<(int, int)>) -> bool {
    forall|i: int| 0 <= i < s.len() ==> tok_bounded(#[trigger] s[i])
}

/// A token packed into one positive integer below 2701.
pub open spec fn tok_val(t: (int, int)) -> int {
    (t.0 - 64) * 100 + t.1 + 1
}

/// Powers of the token base.
pub open spec fn pow_base(e: int) -> int
    decreases e,
{
    if e <= 0 {
        1
    } else {
        2701 * pow_base(e - 1)
    }
}

pub proof fn lemma_pow_base_pos(e: int)
    ensures
        pow_base(e) >= 1,
    decreases e,
{
    if e > 0 {
        lemma_pow_base_pos(e - 1);
    }
}

/// A token sequence packed into one integer, most significant token
/// first, with `slots` positions available.
pub open spec fn toks_value(s: Seq<(int, int)>, slots: int) -> int
    decreases s.len(),
{
    if s.len() == 0 {
        0
    } else {
        tok_val(s[0]) * pow_base(slots - 1) + toks_value(s.drop_first(), slots - 1)
    }
}

pub proof fn lemma_toks_value_bound(s: Seq<(int, int)>, slots: int)
    requires
        toks_bounded(s),
        s.len() <= slots,
    ensures
        0 <= toks_value(s, slots) < pow_base(slots),
    decreases s.len(),
{
    lemma_pow_base_pos(slots);
    if s.len() > 0 {
        let p = pow_base(slots - 1);
        lemma_pow_base_pos(slots - 1);
        assert(toks_bounded(s.drop_first())) by {
            assert forall|i: int| 0 <= i < s.drop_first().len() implies tok_bounded(
                #[trigger] s.drop_first()[i],
            ) by {
                assert(s.drop_first()[i] == s[i + 1]);
            }
        }
        lemma_toks_value_bound(s.drop_first(), slots - 1);
        let tv = tok_val(s[0]);
        assert(tok_bounded(s[0]));
        assert(1 <= tv <= 2700);
        assert(tv * p >= 1 * p) by (nonlinear_arith)
            requires
                tv >= 1,
                p >= 1,
        ;
        assert(tv * p <= 2700 * p) by (nonlinear_arith)
            requires
                tv <= 2700,
                p >= 1,
        ;
        assert(pow_base(slots) == 2701 * p);
    }
}

/// The packed value respects the lexicographic order.
pub proof fn lemma_toks_value_lt(a: Seq<(int, int)>, b: Seq<(int, int)>, slots: int)
    requires
        toks_lt(a, b),
        toks_bounded(a),
        toks_bounded(b),
        a.len() <= slots,
        b.len() <= slots,
    ensures
        toks_value(a, slots) < toks_value(b, slots),
    decreases a.len(),
{
    let p = pow_base(slots - 1);
    lemma_pow_base_pos(slots - 1);
    lemma_toks_value_bound(a, slots);
    lemma_toks_value_bound(b, slots);
    if a.len() == 0 {
        assert(b.len() > 0);
        let tv = tok_val(b[0]);
        assert(tok_bounded(b[0]));
        assert(toks_bounded(b.drop_first())) by {
            assert forall|i: int| 0 <= i < b.drop_first().len() implies tok_bounded(
                #[trigger] b.drop_first()[i],
            ) by {
                assert(b.drop_first()[i] == b[i + 1]);
            }
        }
        lemma_toks_value_bound(b.drop_first(), slots - 1);
        assert(tv * p >= 1 * p) by (nonlinear_arith)
            requires
                tv >= 1,
                p >= 1,
        ;
    } else {
        assert(b.len() > 0);
        assert(toks_bounded(a.drop_first())) by {
            assert forall|i: int| 0 <= i < a.drop_first().len() implies tok_bounded(
                #[trigger] a.drop_first()[i],
            ) by {
                assert(a.drop_first()[i] == a[i + 1]);
            }
        }
        assert(toks_bounded(b.drop_first())) by {
            assert forall|i: int| 0 <= i < b.drop_first().len() implies tok_bounded(
                #[trigger] b.drop_first()[i],
            ) by {
                assert(b.drop_first()[i] == b[i + 1]);
            }
        }
        if a[0] == b[0] {
            lemma_toks_value_lt(a.drop_first(), b.drop_first(), slots - 1);
        } else {
            assert(tok_lt(a[0], b[0]));
            let ta = tok_val(a[0]);
            let tb = tok_val(b[0]);
            assert(tok_bounded(a[0]));
            assert(tok_bounded(b[0]));
            assert(ta < tb);
            lemma_toks_value_bound(a.drop_first(), slots - 1);
            lemma_toks_value_bound(b.drop_first(), slots - 1);
            assert((ta + 1) * p <= tb * p) by (nonlinear_arith)
                requires
                    ta + 1 <= tb,
                    p >= 1,
            ;
            assert((ta + 1) * p == ta * p + p) by (nonlinear_arith);
        }
    }
}

impl Placements {
    /// Marks the suggestion's letter used and pushes it onto the stack.
    fn push_placed(&mut self, s: PieceSuggestion)
        requires
            old(self).wf(),
            valid_sugg(old(self).catalog@, s),
            !old(self).used_letters@[s.name as int - 65],
        ensures
            final(self).wf(),
            final(self).catalog == old(self).catalog,
            final(self).floor == old(self).floor,
            final(self).positions@ == old(self).positions@.push(s),
            final(self).used_letters@ == old(self).used_letters@.update(s.name as int - 65, true),
    {
        proof {
            lemma_sugg_bounds(self.catalog@, s);
        }
        let idx = (s.name as u32 - 65) as usize;
        self.used_letters[idx] = true;
        let ghost name = s.name;
        self.positions.push(s);
        proof {
            let ps = self.positions@;
            let ops = old(self).positions@;
            assert forall|i: int| 0 <= i < ps.len() implies valid_sugg(
                self.catalog@,
                #[trigger] ps[i],
            ) by {
                if i < ops.len() {
                    assert(ps[i] == ops[i]);
                }
            }
            assert forall|i: int, j: int|
                #![trigger ps[i].name, ps[j].name]
                0 <= i < j < ps.len() implies ps[i].name != ps[j].name by {
                if j == ps.len() - 1 {
                    assert(ps[i] == ops[i]);
                    if ps[i].name == name {
                        assert(letter_on_stack(ops, name as int - 65));
                    }
                } else {
                    assert(ps[i] == ops[i]);
                    assert(ps[j] == ops[j]);
                }
            }
            assert forall|l: int| 0 <= l < 26 implies (#[trigger] self.used_letters@[l])
                == letter_on_stack(ps, l) by {
                if l == name as int - 65 {
                    assert(ps[ps.len() - 1].name as int == l + 65);
                    assert(letter_on_stack(ps, l));
                } else {
                    if letter_on_stack(ps, l) {
                        let i = choose|i: int|
                            0 <= i < ps.len() && (#[trigger] ps[i]).name as int == l + 65;
                        assert(i < ops.len());
                        assert(ops[i] == ps[i]);
                        assert(letter_on_stack(ops, l));
                    }
                    if letter_on_stack(ops, l) {
                        let i = choose|i: int|
                            0 <= i < ops.len() && (#[trigger] ops[i]).name as int == l + 65;
                        assert(ps[i] == ops[i]);
                        assert(letter_on_stack(ps, l));
                    }
                }
            }
        }
    }

    /// Pops the top of the stack and clears its letter's used mark.
    fn pop_placed(&mut self) -> (s: PieceSuggestion)
        requires
            old(self).wf(),
            old(self).positions@.len() > old(self).floor,
        ensures
            final(self).wf(),
            final(self).catalog == old(self).catalog,
            final(self).floor == old(self).floor,
            s == old(self).positions@.last(),
            final(self).positions@ == old(self).positions@.drop_last(),
            final(self).used_letters@ == old(self).used_letters@.update(s.name as int - 65, false),
            valid_sugg(final(self).catalog@, s),
            !final(self).used_letters@[s.name as int - 65],
    {
        let prev_opt = self.positions.pop();
        match prev_opt {
            Option::Some(prev) => {
                proof {
                    assert(valid_sugg(self.catalog@, prev));
                    lemma_sugg_bounds(self.catalog@, prev);
                }
                let idx = (prev.name as u32 - 65) as usize;
                self.used_letters[idx] = false;
                proof {
                    let ps = self.positions@;
                    let ops = old(self).positions@;
                    let name = prev.name;
                    assert(ps == ops.drop_last());
                    assert forall|i: int| 0 <= i < ps.len() implies valid_sugg(
                        self.catalog@,
                        #[trigger] ps[i],
                    ) by {
                        assert(ps[i] == ops[i]);
                    }
                    assert forall|i: int, j: int|
                        #![trigger ps[i].name, ps[j].name]
                        0 <= i < j < ps.len() implies ps[i].name != ps[j].name by {
                        assert(ps[i] == ops[i]);
                        assert(ps[j] == ops[j]);
                    }
                    assert forall|l: int| 0 <= l < 26 implies (#[trigger] self.used_letters@[l])
                        == letter_on_stack(ps, l) by {
                        if l == name as int - 65 {
                            if letter_on_stack(ps, l) {
                                let i = choose|i: int|
                                    0 <= i < ps.len() && (#[trigger] ps[i]).name as int == l + 65;
                                assert(ops[i] == ps[i]);
                                assert(ops[i].name == ops[ops.len() - 1].name);
                            }
                        } else {
                            if letter_on_stack(ps, l) {
                                let i = choose|i: int|
                                    0 <= i < ps.len() && (#[trigger] ps[i]).name as int == l + 65;
                                assert(ops[i] == ps[i]);
                                assert(letter_on_stack(ops, l));
                            }
                            if letter_on_stack(ops, l) {
                                let i = choose|i: int|
                                    0 <= i < ops.len() && (#[trigger] ops[i]).name as int == l
                                        + 65;
                                assert(i != ops.len() - 1);
                                assert(ps[i] == ops[i]);
                                assert(letter_on_stack(ps, l));
                            }
                        }
                    }
                }
                prev
            },
            Option::None => {
                proof {
                    assert(false);
                }
                PieceSuggestion {
                    name: 'A',
                    shape: crate::pieces::Shape {
                        layers: crate::pieces::ShapeLayers::new_empty(),
                        is_3d: false,
                    },
                    orientation_index: 0,
                }
            },
        }
    }

    /// Initializes a fresh cursor from the caller's starting placements:
    /// all but the last are recorded as already placed, and the last is
    /// returned as the suggestion that resumes the search. An empty list
    /// yields nothing.
    pub fn initialize(&mut self, start_at: Vec<RequestedPiece>) -> (r: Option<PieceSuggestion>)
        requires
            old(self).wf(),
            old(self).positions@.len() == 0,
            forall|i: int|
                0 <= i < start_at@.len() ==> valid_req(old(self).catalog@, #[trigger] start_at@[i]),
            forall|i: int, j: int|
                #![trigger start_at@[i].name, start_at@[j].name]
                0 <= i < j < start_at@.len() ==> start_at@[i].name != start_at@[j].name,
        ensures
            final(self).wf(),
            final(self).catalog == old(self).catalog,
            final(self).floor == old(self).floor,
            match r {
                Option::Some(s) => {
                    &&& start_at@.len() > 0
                    &&& toks(final(self).positions@) == start_at@.take(
                        start_at@.len() - 1,
                    ).map_values(|q: RequestedPiece| req_tok(q))
                    &&& tok(s) == req_tok(start_at@.last())
                    &&& valid_sugg(final(self).catalog@, s)
                    &&& !final(self).used_letters@[s.name as int - 65]
                },
                Option::None => start_at@.len() == 0 && final(self).positions@ == old(
                    self,
                ).positions@,
            },
    {
        let n = start_at.len();
        if n == 0 {
            return Option::None;
        }
        for i in 0..n - 1
            invariant
                self.wf(),
                self.catalog == old(self).catalog,
                self.floor == old(self).floor,
                n == start_at@.len(),
                n >= 1,
                self.positions@.len() == i,
                forall|j: int|
                    0 <= j < start_at@.len() ==> valid_req(self.catalog@, #[trigger] start_at@[j]),
                forall|j1: int, j2: int|
                    #![trigger start_at@[j1].name, start_at@[j2].name]
                    0 <= j1 < j2 < start_at@.len() ==> start_at@[j1].name != start_at@[j2].name,
                forall|j: int|
                    0 <= j < i ==> tok(#[trigger] self.positions@[j]) == req_tok(start_at@[j]),
                forall|j: int| 0 <= j < i ==> (#[trigger] self.positions@[j]).name
                    == start_at@[j].name,
        {
            let req = start_at[i];
            let shape_opt = get_piece_orientation(&self.catalog, req.name, req.orientation_index);
            match shape_opt {
                Option::Some(shape) => {
                    let sugg = PieceSuggestion {
                        name: req.name,
                        shape,
                        orientation_index: req.orientation_index,
                    };
                    proof {
                        assert(valid_sugg(self.catalog@, sugg));
                        lemma_sugg_bounds(self.catalog@, sugg);
                        if self.used_letters@[sugg.name as int - 65] {
                            let j = choose|j: int|
                                0 <= j < self.positions@.len() && (#[trigger] self.positions@[j]).name as int
                                    == sugg.name as int - 65 + 65;
                            assert(self.positions@[j].name == start_at@[j].name);
                            assert(start_at@[j].name == start_at@[i as int].name);
                        }
                    }
                    self.push_placed(sugg);
                },
                Option::None => {
                    proof {
                        assert(valid_req(self.catalog@, start_at@[i as int]));
                        assert(false);
                    }
                },
            }
        }
        let last = start_at[n - 1];
        let shape_opt = get_piece_orientation(&self.catalog, last.name, last.orientation_index);
        match shape_opt {
            Option::Some(shape) => {
                let s = PieceSuggestion {
                    name: last.name,
                    shape,
                    orientation_index: last.orientation_index,
                };
                proof {
                    assert(valid_sugg(self.catalog@, s));
                    lemma_sugg_bounds(self.catalog@, s);
                    if self.used_letters@[s.name as int - 65] {
                        let j = choose|j: int|
                            0 <= j < self.positions@.len() && (#[trigger] self.positions@[j]).name as int
                                == s.name as int - 65 + 65;
                        assert(self.positions@[j].name == start_at@[j].name);
                        assert(start_at@[j].name == start_at@[n - 1].name);
                    }
                    assert(toks(self.positions@) =~= start_at@.take(start_at@.len() - 1).map_values(
                        |q: RequestedPiece| req_tok(q),
                    ));
                }
                Option::Some(s)
            },
            Option::None => {
                proof {
                    assert(valid_req(self.catalog@, start_at@[n - 1]));
                    assert(false);
                }
                Option::None
            },
        }
    }

    /// Removes the last placed piece (when backtracking may undo it) and
    /// returns it, so that the caller can resume searching for further
    /// solutions past a solved state.
    pub fn remove_last_piece(&mut self) -> (r: Option<PieceSuggestion>)
        requires
            old(self).wf(),
        ensures
            final(self).wf(),
            final(self).catalog == old(self).catalog,
            final(self).floor == old(self).floor,
            match r {
                Option::Some(s) => {
                    &&& old(self).positions@.len() > old(self).floor
                    &&& s == old(self).positions@.last()
                    &&& valid_sugg(final(self).catalog@, s)
                    &&& !final(self).used_letters@[s.name as int - 65]
                    &&& final(self).positions@ == old(self).positions@.drop_last()
                },
                Option::None => {
                    &&& old(self).positions@.len() <= old(self).floor
                    &&& *final(self) == *old(self)
                },
            },
    {
        if self.positions.len() <= self.floor {
            return Option::None;
        }
        Option::Some(self.pop_placed())
    }

    /// After a suggested piece was successfully placed, records it and
    /// suggests the first orientation of the smallest unused piece name.
    pub fn get_next_piece_to_try_after_success(&mut self, success: PieceSuggestion) -> (r: Option<
        PieceAfterSuccess,
    >)
        requires
            old(self).wf(),
            valid_sugg(old(self).catalog@, success),
            !old(self).used_letters@[success.name as int - 65],
        ensures
            final(self).wf(),
            final(self).catalog == old(self).catalog,
            final(self).floor == old(self).floor,
            final(self).positions@ == old(self).positions@.push(success),
            ({
                let nu = next_unused(final(self).used_letters@, 0);
                match r {
                    Option::Some(pa) => {
                        &&& valid_sugg(final(self).catalog@, pa.piece)
                        &&& !final(self).used_letters@[pa.piece.name as int - 65]
                        &&& nu < 26
                        &&& tok(pa.piece) == (nu + 65, 0int)
                    },
                    Option::None => nu >= 26 || find_from(
                        final(self).catalog@,
                        ((nu + 65) as u8) as char,
                        0,
                    ) < 0,
                }
            }),
    {
        self.push_placed(success);
        let at_sign: char = 64u8 as char;
        proof {
            assert(at_sign as int == 64);
        }
        match self.get_next_piece_to_try(at_sign) {
            Option::Some(piece) => {
                proof {
                    let nu = next_unused(self.used_letters@, 0);
                    assert(!self.used_letters@[piece.name as int - 65]);
                }
                Option::Some(PieceAfterSuccess { piece })
            },
            Option::None => Option::None,
        }
    }

    /// After a suggested piece failed to fit, suggests the next candidate
    /// in lexicographic order: the same piece's next orientation, then the
    /// next unused piece name, and otherwise pops previously placed pieces
    /// (down to the backtracking floor) until a candidate appears. The
    /// pieces handed back in `to_remove` must be removed from the board.
    pub fn get_next_piece_to_try_after_failure(&mut self, failure: PieceSuggestion) -> (r: Option<
        PieceAfterFailure,
    >)
        requires
            old(self).wf(),
            65 <= failure.name as int <= 90,
            failure.orientation_index <= 98,
            !old(self).used_letters@[failure.name as int - 65],
        ensures
            final(self).wf(),
            final(self).catalog == old(self).catalog,
            final(self).floor == old(self).floor,
            ({
                let cas = cascade(
                    old(self).catalog@,
                    old(self).positions@,
                    old(self).used_letters@,
                    (failure.name as int, failure.orientation_index as int),
                    old(self).floor as int,
                );
                match r {
                    Option::Some(pf) => {
                        &&& cas == Option::Some((pf.to_remove@.len() as int, tok(pf.piece)))
                        &&& pf.to_remove@.len() <= old(self).positions@.len()
                        &&& final(self).positions@ == old(self).positions@.take(
                            old(self).positions@.len() - pf.to_remove@.len(),
                        )
                        &&& forall|i: int|
                            0 <= i < pf.to_remove@.len() ==> #[trigger] pf.to_remove@[i] == old(
                                self,
                            ).positions@[old(self).positions@.len() - 1 - i]
                        &&& valid_sugg(final(self).catalog@, pf.piece)
                        &&& !final(self).used_letters@[pf.piece.name as int - 65]
                        &&& toks_lt(
                            toks(old(self).positions@).push(tok(failure)),
                            toks(final(self).positions@).push(tok(pf.piece)),
                        )
                    },
                    Option::None => {
                        &&& cas is None
                        &&& final(self).positions@ == old(self).positions@.take(
                            old(self).floor as int,
                        )
                    },
                }
            }),
    {
        let ghost oldseq = toks(old(self).positions@).push(tok(failure));
        let mut to_remove: Vec<PieceSuggestion> = Vec::new();
        let mut fail_name = failure.name;
        let mut fail_idx = failure.orientation_index;
        proof {
            let cas0 = cascade(
                self.catalog@,
                self.positions@,
                self.used_letters@,
                (failure.name as int, failure.orientation_index as int),
                self.floor as int,
            );
            match cas0 {
                Option::Some((k, t)) => {
                    assert(k + 0 == k);
                },
                Option::None => {},
            }
        }
        loop
            invariant
                self.wf(),
                self.catalog == old(self).catalog,
                self.floor == old(self).floor,
                65 <= fail_name as int <= 90,
                fail_idx <= 98,
                !self.used_letters@[fail_name as int - 65],
                oldseq == toks(old(self).positions@).push(tok(failure)),
                oldseq.len() == old(self).positions@.len() + 1,
                to_remove@.len() + self.positions@.len() == old(self).positions@.len(),
                self.positions@ == old(self).positions@.take(self.positions@.len() as int),
                forall|i: int|
                    0 <= i < to_remove@.len() ==> #[trigger] to_remove@[i] == old(
                        self,
                    ).positions@[old(self).positions@.len() - 1 - i],
                oldseq[self.positions@.len() as int] == (fail_name as int, fail_idx as int),
                forall|j: int|
                    0 <= j < self.positions@.len() ==> oldseq[j] == #[trigger] toks(
                        self.positions@,
                    )[j],
                cascade(
                    old(self).catalog@,
                    old(self).positions@,
                    old(self).used_letters@,
                    (failure.name as int, failure.orientation_index as int),
                    old(self).floor as int,
                ) == (match cascade(
                    self.catalog@,
                    self.positions@,
                    self.used_letters@,
                    (fail_name as int, fail_idx as int),
                    self.floor as int,
                ) {
                    Option::Some((k, t)) => Option::Some((k + to_remove@.len() as int, t)),
                    Option::None => Option::None::<(int, (int, int))>,
                }),
            decreases self.positions@.len(),
        {
            proof {
                lemma_tok_char_id(fail_name);
            }
            let next_index = fail_idx + 1;
            match get_piece_orientation(&self.catalog, fail_name, next_index) {
                Option::Some(shape) => {
                    let piece = PieceSuggestion {
                        name: fail_name,
                        shape,
                        orientation_index: next_index,
                    };
                    proof {
                        assert(valid_sugg(self.catalog@, piece));
                        let newseq = toks(self.positions@).push(tok(piece));
                        let cl = self.positions@.len() as int;
                        assert(newseq[cl] == tok(piece));
                        assert(tok_lt(oldseq[cl], newseq[cl]));
                        lemma_toks_lt_diff(oldseq, newseq, cl);
                        assert(step_candidate(
                            self.catalog@,
                            self.used_letters@,
                            (fail_name as int, fail_idx as int),
                        ) == Option::Some((fail_name as int, fail_idx + 1 as int)));
                        assert(cascade(
                            self.catalog@,
                            self.positions@,
                            self.used_letters@,
                            (fail_name as int, fail_idx as int),
                            self.floor as int,
                        ) == Option::Some((0int, tok(piece))));
                    }
                    return Option::Some(PieceAfterFailure { piece, to_remove });
                },
                Option::None => {},
            }
            match self.get_next_piece_to_try(fail_name) {
                Option::Some(piece) => {
                    proof {
                        let newseq = toks(self.positions@).push(tok(piece));
                        let cl = self.positions@.len() as int;
                        assert(newseq[cl] == tok(piece));
                        lemma_next_unused_ge(self.used_letters@, fail_name as int - 64);
                        assert(piece.name as int >= fail_name as int + 1);
                        assert(tok_lt(oldseq[cl], newseq[cl]));
                        lemma_toks_lt_diff(oldseq, newseq, cl);
                        let nu = next_unused(self.used_letters@, fail_name as int - 64);
                        lemma_tok_char_id(piece.name);
                        assert(find_from(self.catalog@, tok_char(nu + 65), 0) >= 0);
                        assert(step_candidate(
                            self.catalog@,
                            self.used_letters@,
                            (fail_name as int, fail_idx as int),
                        ) == Option::Some((nu + 65, 0int)));
                        assert(cascade(
                            self.catalog@,
                            self.positions@,
                            self.used_letters@,
                            (fail_name as int, fail_idx as int),
                            self.floor as int,
                        ) == Option::Some((0int, tok(piece))));
                    }
                    return Option::Some(PieceAfterFailure { piece, to_remove });
                },
                Option::None => {},
            }
            if self.positions.len() <= self.floor {
                proof {
                    assert(self.positions@.len() == self.floor);
                    assert(step_candidate(
                        self.catalog@,
                        self.used_letters@,
                        (fail_name as int, fail_idx as int),
                    ) is None);
                    assert(cascade(
                        self.catalog@,
                        self.positions@,
                        self.used_letters@,
                        (fail_name as int, fail_idx as int),
                        self.floor as int,
                    ) is None);
                }
                return Option::None;
            }
            let ghost pre_positions = self.positions@;
            let ghost pre_used = self.used_letters@;
            let ghost pre_fail = (fail_name as int, fail_idx as int);
            proof {
                assert(step_candidate(self.catalog@, pre_used, pre_fail) is None);
            }
            let prev = self.pop_placed();
            proof {
                lemma_sugg_bounds(self.catalog@, prev);
                let cl = self.positions@.len() as int;
                assert(prev == old(self).positions@.take(cl + 1)[cl]);
                assert(oldseq[cl] == toks(old(self).positions@)[cl]);
                assert(toks(old(self).positions@)[cl] == tok(old(self).positions@[cl]));
                assert(self.positions@ =~= old(self).positions@.take(cl));
                // one pop step of the cascade
                assert(self.positions@ == pre_positions.drop_last());
                assert(self.used_letters@ == pre_used.update(prev.name as int - 65, false));
                let cpost = cascade(
                    self.catalog@,
                    self.positions@,
                    self.used_letters@,
                    tok(prev),
                    self.floor as int,
                );
                assert(cascade(
                    self.catalog@,
                    pre_positions,
                    pre_used,
                    pre_fail,
                    self.floor as int,
                ) == (match cpost {
                    Option::Some((k, t)) => Option::Some((k + 1, t)),
                    Option::None => Option::None::<(int, (int, int))>,
                }));
                match cpost {
                    Option::Some((k, t)) => {
                        assert(k + 1 + to_remove@.len() as int == k + (to_remove@.len() + 1) as int);
                    },
                    Option::None => {},
                }
            }
            fail_name = prev.name;
            fail_idx = prev.orientation_index;
            to_remove.push(prev);
        }
    }
}

/// Relies on String::push: appends the given character to the end of the
/// string.
#[verifier::external_body]
pub(crate) fn string_push(s: &mut String, c: char)
    ensures
        final(s)@ == old(s)@.push(c),
{
    s.push(c)
}

/// The character for a single decimal digit.
pub open spec fn digit_char(d: int) -> char {
    if d == 0 {
        '0'
    } else if d == 1 {
        '1'
    } else if d == 2 {
        '2'
    } else if d == 3 {
        '3'
    } else if d == 4 {
        '4'
    } else if d == 5 {
        '5'
    } else if d == 6 {
        '6'
    } else if d == 7 {
        '7'
    } else if d == 8 {
        '8'
    } else {
        '9'
    }
}

pub(crate) fn digit_to_char(d: usize) -> (c: char)
    requires
        d <= 9,
    ensures
        c == digit_char(d as int),
{
    if d == 0 {
        '0'
    } else if d == 1 {
        '1'
    } else if d == 2 {
        '2'
    } else if d == 3 {
        '3'
    } else if d == 4 {
        '4'
    } else if d == 5 {
        '5'
    } else if d == 6 {
        '6'
    } else if d == 7 {
        '7'
    } else if d == 8 {
        '8'
    } else {
        '9'
    }
}

/// The seven characters of one placement token: the piece letter and its
/// two-digit orientation index, as in "A[03]; ".
pub open spec fn sugg_chars(s: PieceSuggestion) -> Seq<char> {
    seq![
        s.name,
        '[',
        digit_char(s.orientation_index as int / 10),
        digit_char(s.orientation_index as int % 10),
        ']',
        ';',
        ' ',
    ]
}

/// The placement path of a suggestion stack, token by token.
pub open spec fn path_spec(ps: Seq<PieceSuggestion>) -> Seq<char>
    decreases ps.len(),
{
    if ps.len() == 0 {
        Seq::<char>::empty()
    } else {
        sugg_chars(ps[0]) + path_spec(ps.drop_first())
    }
}

impl Placements {
    /// The placement path of the currently placed pieces, in placement
    /// order, as a string of `Letter[two-digit-index]; ` tokens.
    pub fn path_string(&self) -> (r: String)
        requires
            self.wf(),
        ensures
            r@ == path_spec(self.positions@),
    {
        let mut r = String::new();
        let n = self.positions.len();
        proof {
            assert(self.positions@.skip(0) == self.positions@);
        }
        for i in 0..n
            invariant
                self.wf(),
                n == self.positions@.len(),
                r@ + path_spec(self.positions@.skip(i as int)) == path_spec(self.positions@),
        {
            proof {
                assert(valid_sugg(self.catalog@, self.positions@[i as int]));
                lemma_sugg_bounds(self.catalog@, self.positions@[i as int]);
            }
            let name = self.positions[i].name;
            let idx = self.positions[i].orientation_index;
            string_push(&mut r, name);
            string_push(&mut r, '[');
            string_push(&mut r, digit_to_char(idx / 10));
            string_push(&mut r, digit_to_char(idx % 10));
            string_push(&mut r, ']');
            string_push(&mut r, ';');
            string_push(&mut r, ' ');
            proof {
                let ps = self.positions@;
                let rest = ps.skip(i as int);
                assert(rest[0] == ps[i as int]);
                assert(rest.drop_first() =~= ps.skip(i + 1));
                assert(path_spec(rest) == sugg_chars(ps[i as int]) + path_spec(ps.skip(i + 1)));
                assert(r@ + path_spec(ps.skip(i + 1)) =~= path_spec(ps));
            }
        }
        proof {
            assert(self.positions@.skip(n as int) =~= Seq::<PieceSuggestion>::empty());
            assert(r@ =~= path_spec(self.positions@));
        }
        r
    }
}

/// Stacks of valid suggestions with distinct names have bounded tokens
/// and at most 26 entries (one per letter).
pub proof fn lemma_stack_bounds(cat: Seq<Piece>, ps: Seq<PieceSuggestion>)
    requires
        catalog_wf(cat),
        forall|i: int| 0 <= i < ps.len() ==> valid_sugg(cat, #[trigger] ps[i]),
        forall|i: int, j: int|
            #![trigger ps[i].name, ps[j].name]
            0 <= i < j < ps.len() ==> ps[i].name != ps[j].name,
    ensures
        toks_bounded(toks(ps)),
        ps.len() <= 26,
{
    assert forall|i: int| 0 <= i < toks(ps).len() implies tok_bounded(#[trigger] toks(ps)[i]) by {
        lemma_sugg_bounds(cat, ps[i]);
        assert(toks(ps)[i] == tok(ps[i]));
    }
    let names = ps.map_values(|s: PieceSuggestion| s.name as int);
    assert(names.no_duplicates()) by {
        assert forall|i: int, j: int|
            0 <= i < names.len() && 0 <= j < names.len() && i != j implies names[i] != names[j] by {
            assert(names[i] == ps[i].name as int);
            assert(names[j] == ps[j].name as int);
            if i < j {
                assert(ps[i].name != ps[j].name);
            } else {
                assert(ps[j].name != ps[i].name);
            }
        }
    }
    names.unique_seq_to_set();
    assert(names.to_set().subset_of(vstd::set_lib::set_int_range(65, 91))) by {
        assert forall|x: int| names.to_set().contains(x) implies vstd::set_lib::set_int_range(
            65,
            91,
        ).contains(x) by {
            assert(names.contains(x));
            let i = choose|i: int| 0 <= i < names.len() && names[i] == x;
            lemma_sugg_bounds(cat, ps[i]);
            assert(names[i] == ps[i].name as int);
        }
    }
    vstd::set_lib::lemma_int_range(65, 91);
    vstd::set_lib::lemma_len_subset(names.to_set(), vstd::set_lib::set_int_range(65, 91));
}

/// Strict lexicographic order on character sequences, where a proper
/// prefix precedes its extensions.
pub open spec fn chars_lt(a: Seq<char>, b: Seq<char>) -> bool
    decreases a.len(),
{
    if a.len() == 0 {
        b.len() > 0
    } else if b.len() == 0 {
        false
    } else if a[0] == b[0] {
        chars_lt(a.drop_first(), b.drop_first())
    } else {
        (a[0] as int) < (b[0] as int)
    }
}

/// Comparing character sequences with an equal prefix reduces to
/// comparing what follows the prefix.
pub proof fn lemma_chars_lt_skip(a: Seq<char>, b: Seq<char>, i: int)
    requires
        0 <= i <= a.len(),
        i <= b.len(),
        forall|j: int| 0 <= j < i ==> a[j] == #[trigger] b[j],
    ensures
        chars_lt(a, b) == chars_lt(a.skip(i), b.skip(i)),
    decreases i,
{
    if i > 0 {
        assert(a[0] == b[0]);
        assert(a.drop_first().skip(i - 1) =~= a.skip(i));
        assert(b.drop_first().skip(i - 1) =~= b.skip(i));
        assert forall|j: int| 0 <= j < i - 1 implies a.drop_first()[j] == #[trigger] b.drop_first()[j] by {
            assert(a.drop_first()[j] == a[j + 1]);
            assert(b.drop_first()[j] == b[j + 1]);
        }
        lemma_chars_lt_skip(a.drop_first(), b.drop_first(), i - 1);
    } else {
        assert(a.skip(0) =~= a);
        assert(b.skip(0) =~= b);
    }
}

/// The law behind the path strings: when one placement stack's token
/// sequence strictly precedes another's, the rendered path strings are
/// strictly ordered the same way. Together with the solver's guarantee
/// that reported token paths strictly increase, the reported path strings
/// themselves form a strictly increasing sequence.
pub proof fn lemma_path_strings_ordered(a: Seq<PieceSuggestion>, b: Seq<PieceSuggestion>)
    requires
        toks_lt(toks(a), toks(b)),
        toks_bounded(toks(a)),
        toks_bounded(toks(b)),
    ensures
        chars_lt(path_spec(a), path_spec(b)),
    decreases a.len(),
{
    if a.len() == 0 {
        assert(b.len() > 0);
        assert(path_spec(a).len() == 0);
        assert(path_spec(b).len() >= 7) by {
            assert(path_spec(b) == sugg_chars(b[0]) + path_spec(b.drop_first()));
        }
    } else {
        assert(b.len() > 0);
        let pa = path_spec(a);
        let pb = path_spec(b);
        assert(pa == sugg_chars(a[0]) + path_spec(a.drop_first()));
        assert(pb == sugg_chars(b[0]) + path_spec(b.drop_first()));
        let ta = toks(a)[0];
        let tb = toks(b)[0];
        assert(ta == tok(a[0]) && tb == tok(b[0]));
        assert(tok_bounded(ta) && tok_bounded(tb));
        let ia = a[0].orientation_index as int;
        let ib = b[0].orientation_index as int;
        if ta == tb {
            assert(a[0].name == b[0].name);
            assert(a[0].orientation_index == b[0].orientation_index);
            assert(sugg_chars(a[0]) == sugg_chars(b[0]));
            assert(toks_lt(toks(a).drop_first(), toks(b).drop_first()));
            assert(toks(a).drop_first() =~= toks(a.drop_first()));
            assert(toks(b).drop_first() =~= toks(b.drop_first()));
            assert(toks_bounded(toks(a.drop_first()))) by {
                assert forall|k: int|
                    0 <= k < toks(a.drop_first()).len() implies tok_bounded(
                    #[trigger] toks(a.drop_first())[k],
                ) by {
                    assert(toks(a.drop_first())[k] == toks(a)[k + 1]);
                }
            }
            assert(toks_bounded(toks(b.drop_first()))) by {
                assert forall|k: int|
                    0 <= k < toks(b.drop_first()).len() implies tok_bounded(
                    #[trigger] toks(b.drop_first())[k],
                ) by {
                    assert(toks(b.drop_first())[k] == toks(b)[k + 1]);
                }
            }
            lemma_path_strings_ordered(a.drop_first(), b.drop_first());
            lemma_chars_lt_skip(pa, pb, 7);
            assert(pa.skip(7) =~= path_spec(a.drop_first()));
            assert(pb.skip(7) =~= path_spec(b.drop_first()));
        } else {
            assert(tok_lt(ta, tb));
            if ta.0 != tb.0 {
                // the piece letters differ at the first character
                assert(pa[0] == a[0].name && pb[0] == b[0].name);
                assert((a[0].name as int) < (b[0].name as int));
                assert(a[0].name != b[0].name);
                lemma_chars_lt_skip(pa, pb, 0);
                assert(pa.skip(0) =~= pa);
                assert(pb.skip(0) =~= pb);
            } else {
                // same letter: the two-digit orientation decides
                assert(ia < ib);
                assert(0 <= ia <= 98 && 0 <= ib <= 98);
                assert(pa[0] == a[0].name && pb[0] == b[0].name);
                assert(pa[1] == '[' && pb[1] == '[');
                assert(pa[2] == digit_char(ia / 10) && pb[2] == digit_char(ib / 10));
                assert(pa[3] == digit_char(ia % 10) && pb[3] == digit_char(ib % 10));
                if ia / 10 < ib / 10 {
                    lemma_chars_lt_skip(pa, pb, 2);
                    assert(pa.skip(2)[0] == pa[2]);
                    assert(pb.skip(2)[0] == pb[2]);
                    assert((digit_char(ia / 10) as int) < (digit_char(ib / 10) as int));
                    assert(pa[2] != pb[2]);
                } else {
                    assert(ia / 10 == ib / 10);
                    assert(ia % 10 < ib % 10);
                    assert(pa[2] == pb[2]);
                    lemma_chars_lt_skip(pa, pb, 3);
                    assert(pa.skip(3)[0] == pa[3]);
                    assert(pb.skip(3)[0] == pb[3]);
                    assert((digit_char(ia % 10) as int) < (digit_char(ib % 10) as int));
                    assert(pa[3] != pb[3]);
                }
            }
        }
    }
}

} // verus!
