//! The puzzle board: a layered grid of piece letters (or the empty-slot
//! sentinel) that tracks the next open cell, validates and commits shape
//! placements, and removes placed shapes again.

use crate::layer::{
    cell, grid_has, grid_update, grid_wf, in_grid, is_first_match, layer_rect, pos_lt, Layers,
    Position,
};
use crate::pieces::{sset, Shape};
use vstd::prelude::*;

verus! {

/// The sentinel stored in cells not covered by any piece.
pub const EMPTY_SLOT: char = '.';

/// Machine-size bound on board dimensions, so that index arithmetic
/// stays within `usize`.
pub open spec fn grid_bounded(g: Seq<Seq<Seq<char>>>) -> bool {
    &&& g.len() <= 1000000
    &&& forall|l: int|
        0 <= l < g.len() ==> (#[trigger] g[l]).len() <= 1000000 && g[l][0].len() <= 1000000
}

/// An all-empty single layer of the given dimensions.
pub open spec fn empty_layer_spec(rows: int, cols: int) -> Seq<Seq<char>> {
    Seq::new(rows as nat, |r: int| Seq::new(cols as nat, |c: int| EMPTY_SLOT))
}

/// The all-empty flat rectangular grid.
pub open spec fn rect_grid(rows: int, cols: int) -> Seq<Seq<Seq<char>>> {
    seq![empty_layer_spec(rows, cols)]
}

/// The all-empty stepped pyramidal grid: five square layers of sizes
/// 5, 4, 3, 2, 1.
pub open spec fn pyramid_grid() -> Seq<Seq<Seq<char>>> {
    Seq::new(5, |k: int| empty_layer_spec(5 - k, 5 - k))
}

/// One all-empty rectangular layer.
fn empty_layer(rows: usize, cols: usize) -> (l: Vec<Vec<char>>)
    requires
        1 <= rows,
        1 <= cols,
    ensures
        l.deep_view() == empty_layer_spec(rows as int, cols as int),
{
    let mut layer: Vec<Vec<char>> = Vec::new();
    for r in 0..rows
        invariant
            layer@.len() == r,
            forall|r2: int| 0 <= r2 < r ==> (#[trigger] layer@[r2])@.len() == cols,
            forall|r2: int, c2: int|
                0 <= r2 < r && 0 <= c2 < cols ==> (#[trigger] layer@[r2]@[c2]) == EMPTY_SLOT,
    {
        let mut row: Vec<char> = Vec::new();
        for c in 0..cols
            invariant
                row@.len() == c,
                forall|c2: int| 0 <= c2 < c ==> #[trigger] row@[c2] == EMPTY_SLOT,
        {
            row.push(EMPTY_SLOT);
        }
        layer.push(row);
    }
    proof {
        assert forall|r2: int| 0 <= r2 < rows implies layer.deep_view()[r2] =~= empty_layer_spec(
            rows as int,
            cols as int,
        )[r2] by {
            assert(layer.deep_view()[r2] == layer@[r2]@);
        }
        assert(layer.deep_view() =~= empty_layer_spec(rows as int, cols as int));
    }
    layer
}

/// Shared storage behind both board geometries: a vector of rectangular
/// layers of characters.
pub struct GridStore {
    cells: Vec<Vec<Vec<char>>>,
}

impl View for GridStore {
    type V = Seq<Seq<Seq<char>>>;

    closed spec fn view(&self) -> Seq<Seq<Seq<char>>> {
        self.cells.deep_view()
    }
}

impl GridStore {
    pub open spec fn wf(&self) -> bool {
        grid_wf(self@)
    }

    /// An all-empty flat store of the given dimensions.
    pub fn new_rect(rows: usize, cols: usize) -> (s: GridStore)
        requires
            1 <= rows,
            1 <= cols,
        ensures
            s.wf(),
            s@ == rect_grid(rows as int, cols as int),
    {
        let mut cells: Vec<Vec<Vec<char>>> = Vec::new();
        cells.push(empty_layer(rows, cols));
        let s = GridStore { cells };
        proof {
            assert(s@ =~= rect_grid(rows as int, cols as int));
            assert(layer_rect(s@[0]));
        }
        s
    }

    /// An all-empty pyramidal store.
    pub fn new_pyramid() -> (s: GridStore)
        ensures
            s.wf(),
            s@ == pyramid_grid(),
    {
        let mut cells: Vec<Vec<Vec<char>>> = Vec::new();
        cells.push(empty_layer(5, 5));
        cells.push(empty_layer(4, 4));
        cells.push(empty_layer(3, 3));
        cells.push(empty_layer(2, 2));
        cells.push(empty_layer(1, 1));
        let s = GridStore { cells };
        proof {
            assert(s@ =~= pyramid_grid());
            assert forall|l: int| 0 <= l < 5 implies layer_rect(#[trigger] s@[l]) by {
                assert(s@[l] == empty_layer_spec(5 - l, 5 - l));
            }
        }
        s
    }

    pub fn layer_count(&self) -> (n: usize)
        ensures
            n == self@.len(),
    {
        proof {
            assert(self.cells@.len() == self@.len());
        }
        self.cells.len()
    }

    pub fn dimensions(&self, layer_index: usize) -> (d: (usize, usize))
        requires
            self.wf(),
            layer_index < self@.len(),
        ensures
            d.0 == self@[layer_index as int].len(),
            d.1 == self@[layer_index as int][0].len(),
    {
        proof {
            assert(self.cells@.len() == self@.len());
            assert(self@[layer_index as int] == self.cells@[layer_index as int].deep_view());
            assert(self@[layer_index as int][0] == self.cells@[layer_index as int]@[0]@);
        }
        let layer: &Vec<Vec<char>> = &self.cells[layer_index];
        (layer.len(), layer[0].len())
    }

    pub fn at(&self, layer_index: usize, row_index: usize, col_index: usize) -> (v: char)
        requires
            self.wf(),
            in_grid(self@, (layer_index as int, row_index as int, col_index as int)),
        ensures
            v == cell(self@, (layer_index as int, row_index as int, col_index as int)),
    {
        proof {
            assert(self.cells@.len() == self@.len());
            assert(self@[layer_index as int] == self.cells@[layer_index as int].deep_view());
            assert(self@[layer_index as int][row_index as int] == self.cells@[layer_index as int]@[row_index as int]@);
        }
        self.cells[layer_index][row_index][col_index]
    }

    pub fn update(&mut self, layer_index: usize, row_index: usize, col_index: usize, val: char)
        requires
            old(self).wf(),
            in_grid(old(self)@, (layer_index as int, row_index as int, col_index as int)),
        ensures
            final(self).wf(),
            final(self)@ == grid_update(
                old(self)@,
                (layer_index as int, row_index as int, col_index as int),
                val,
            ),
    {
        proof {
            assert(self.cells@.len() == self@.len());
            assert(self@[layer_index as int] == self.cells@[layer_index as int].deep_view());
            assert(self@[layer_index as int][row_index as int] == self.cells@[layer_index as int]@[row_index as int]@);
        }
        let layer: &mut Vec<Vec<char>> = &mut self.cells[layer_index];
        let row: &mut Vec<char> = &mut layer[row_index];
        row[col_index] = val;
        proof {
            let q = (layer_index as int, row_index as int, col_index as int);
            assert(self@ =~~= grid_update(old(self)@, q, val));
            let w = grid_update(old(self)@, q, val);
            assert forall|l: int| 0 <= l < w.len() implies layer_rect(#[trigger] w[l]) by {
                if l == q.0 {
                    assert(w[l] == old(self)@[l].update(q.1, old(self)@[l][q.1].update(q.2, val)));
                    assert forall|r: int| 0 <= r < w[l].len() implies (#[trigger] w[l][r]).len()
                        == w[l][0].len() by {
                        if r == q.1 {
                            assert(w[l][r] == old(self)@[l][q.1].update(q.2, val));
                        } else {
                            assert(w[l][r] == old(self)@[l][r]);
                        }
                        assert(layer_rect(old(self)@[l]));
                    }
                } else {
                    assert(w[l] == old(self)@[l]);
                }
            }
        }
    }
}

/// The flat rectangular board geometry, a single layer with runtime
/// dimensions (5 x 11 by default).
pub struct Rectangle {
    store: GridStore,
}

impl Rectangle {
    /// The default flat geometry, 5 rows by 11 columns, all empty.
    pub fn standard() -> (s: Rectangle)
        ensures
            s.wf(),
            s.view_layers() == rect_grid(5, 11),
    {
        Rectangle { store: GridStore::new_rect(5, 11) }
    }

    /// A flat geometry with the given dimensions, all empty.
    pub fn with_dims(rows: usize, cols: usize) -> (s: Rectangle)
        requires
            1 <= rows <= 1000000,
            1 <= cols <= 1000000,
        ensures
            s.wf(),
            s.view_layers() == rect_grid(rows as int, cols as int),
    {
        Rectangle { store: GridStore::new_rect(rows, cols) }
    }
}

impl Layers for Rectangle {
    closed spec fn view_layers(&self) -> Seq<Seq<Seq<char>>> {
        self.store@
    }

    closed spec fn wf(&self) -> bool {
        self.store.wf() && self.store@.len() == 1 && grid_bounded(self.store@)
    }

    proof fn wf_grid(&self) {
    }

    fn layer_count(&self) -> (n: usize) {
        self.store.layer_count()
    }

    fn dimensions(&self, layer_index: usize) -> (d: (usize, usize)) {
        self.store.dimensions(layer_index)
    }

    fn at(&self, layer_index: usize, row_index: usize, col_index: usize) -> (v: char) {
        self.store.at(layer_index, row_index, col_index)
    }

    fn update(&mut self, layer_index: usize, row_index: usize, col_index: usize, val: char) {
        self.store.update(layer_index, row_index, col_index, val);
    }
}

/// The stepped pyramidal board geometry: five square layers of sizes
/// 5, 4, 3, 2, 1.
pub struct Pyramid {
    store: GridStore,
}

impl Pyramid {
    /// The default pyramidal geometry, all empty.
    pub fn standard() -> (s: Pyramid)
        ensures
            s.wf(),
            s.view_layers() == pyramid_grid(),
    {
        let p = Pyramid { store: GridStore::new_pyramid() };
        proof {
            assert forall|l: int| 0 <= l < 5 implies (#[trigger] pyramid_grid()[l]).len() <= 1000000
                && pyramid_grid()[l][0].len() <= 1000000 by {
                assert(pyramid_grid()[l] == empty_layer_spec(5 - l, 5 - l));
            }
        }
        p
    }
}

impl Layers for Pyramid {
    closed spec fn view_layers(&self) -> Seq<Seq<Seq<char>>> {
        self.store@
    }

    closed spec fn wf(&self) -> bool {
        self.store.wf() && self.store@.len() == 5 && grid_bounded(self.store@)
    }

    proof fn wf_grid(&self) {
    }

    fn layer_count(&self) -> (n: usize) {
        self.store.layer_count()
    }

    fn dimensions(&self, layer_index: usize) -> (d: (usize, usize)) {
        self.store.dimensions(layer_index)
    }

    fn at(&self, layer_index: usize, row_index: usize, col_index: usize) -> (v: char) {
        self.store.at(layer_index, row_index, col_index)
    }

    fn update(&mut self, layer_index: usize, row_index: usize, col_index: usize, val: char) {
        self.store.update(layer_index, row_index, col_index, val);
    }
}

/// A board over some layered geometry. The board tracks the currently
/// placed pieces and the next open position where a piece may be added.
pub struct Board<T: Layers> {
    pub layers: T,
    pub next_pos: Position,
}

impl<T: Layers> Board<T> {
    /// The grid of cells held by the board.
    pub open spec fn grid(&self) -> Seq<Seq<Seq<char>>> {
        self.layers.view_layers()
    }

    pub open spec fn wf(&self) -> bool {
        &&& self.layers.wf()
        &&& grid_bounded(self.grid())
        &&& (in_grid(self.grid(), self.next_pos@) || self.next_pos@ == (0int, 0int, 0int))
    }

    /// Wraps an empty geometry into a board whose cursor starts at the
    /// origin.
    pub fn from_layers(layers: T) -> (b: Board<T>)
        requires
            layers.wf(),
            grid_bounded(layers.view_layers()),
        ensures
            b.wf(),
            b.grid() == layers.view_layers(),
            b.next_pos@ == (0int, 0int, 0int),
    {
        Board { layers, next_pos: Position(0, 0, 0) }
    }

    /// Determines if the board is currently in the solved state: no cell
    /// in any layer holds the empty-slot sentinel.
    pub fn solved(&self) -> (r: bool)
        requires
            self.wf(),
        ensures
            r == !grid_has(self.grid(), EMPTY_SLOT),
    {
        self.layers.find(EMPTY_SLOT).is_none()
    }

    /// Removes the shape with the given name from the board, clearing
    /// every cell equal to it; the cursor moves to the first cleared cell
    /// when there is one, and stays put otherwise.
    pub fn remove_shape(&mut self, name: char)
        requires
            old(self).wf(),
        ensures
            final(self).wf(),
            final(self).grid() == remove_spec(old(self).grid(), name),
            final(self).next_pos@ == (if grid_has(old(self).grid(), name) {
                first_match_of(old(self).grid(), name)
            } else {
                old(self).next_pos@
            }),
    {
        proof {
            self.layers.wf_grid();
        }
        let ghost g0 = self.grid();
        let mut updated_next_pos = false;
        let layer_count = self.layers.layer_count();
        for layer in 0..layer_count
            invariant
                self.layers.wf(),
                grid_wf(g0),
                grid_bounded(g0),
                layer_count == g0.len(),
                self.grid().len() == g0.len(),
                forall|l: int|
                    0 <= l < g0.len() ==> (#[trigger] self.grid()[l]).len() == g0[l].len()
                        && forall|r: int|
                        0 <= r < g0[l].len() ==> (#[trigger] self.grid()[l][r]).len()
                            == g0[l][r].len(),
                forall|q: (int, int, int)|
                    in_grid(g0, q) && q.0 < layer ==> #[trigger] cell(self.grid(), q) == (if cell(
                        g0,
                        q,
                    ) == name {
                        EMPTY_SLOT
                    } else {
                        cell(g0, q)
                    }),
                forall|q: (int, int, int)|
                    in_grid(g0, q) && q.0 >= layer ==> #[trigger] cell(self.grid(), q) == cell(
                        g0,
                        q,
                    ),
                updated_next_pos == exists|q: (int, int, int)|
                    in_grid(g0, q) && q.0 < layer && #[trigger] cell(g0, q) == name,
                updated_next_pos ==> is_first_match(g0, name, self.next_pos@),
                !updated_next_pos ==> self.next_pos == old(self).next_pos,
        {
            let (row_count, col_count) = self.layers.dimensions(layer);
            for row in 0..row_count
                invariant
                    self.layers.wf(),
                    grid_wf(g0),
                    grid_bounded(g0),
                    layer_count == g0.len(),
                    layer < g0.len(),
                    row_count == g0[layer as int].len(),
                    col_count == g0[layer as int][0].len(),
                    self.grid().len() == g0.len(),
                    forall|l: int|
                        0 <= l < g0.len() ==> (#[trigger] self.grid()[l]).len() == g0[l].len()
                            && forall|r: int|
                            0 <= r < g0[l].len() ==> (#[trigger] self.grid()[l][r]).len()
                                == g0[l][r].len(),
                    forall|q: (int, int, int)|
                        in_grid(g0, q) && (q.0 < layer || (q.0 == layer && q.1 < row))
                            ==> #[trigger] cell(self.grid(), q) == (if cell(g0, q) == name {
                            EMPTY_SLOT
                        } else {
                            cell(g0, q)
                        }),
                    forall|q: (int, int, int)|
                        in_grid(g0, q) && (q.0 > layer || (q.0 == layer && q.1 >= row))
                            ==> #[trigger] cell(self.grid(), q) == cell(g0, q),
                    updated_next_pos == exists|q: (int, int, int)|
                        in_grid(g0, q) && (q.0 < layer || (q.0 == layer && q.1 < row))
                            && #[trigger] cell(g0, q) == name,
                    updated_next_pos ==> is_first_match(g0, name, self.next_pos@),
                    !updated_next_pos ==> self.next_pos == old(self).next_pos,
            {
                for col in 0..col_count
                    invariant
                        self.layers.wf(),
                        grid_wf(g0),
                        grid_bounded(g0),
                        layer_count == g0.len(),
                        layer < g0.len(),
                        row < g0[layer as int].len(),
                        row_count == g0[layer as int].len(),
                        col_count == g0[layer as int][0].len(),
                        self.grid().len() == g0.len(),
                        forall|l: int|
                            0 <= l < g0.len() ==> (#[trigger] self.grid()[l]).len() == g0[l].len()
                                && forall|r: int|
                                0 <= r < g0[l].len() ==> (#[trigger] self.grid()[l][r]).len()
                                    == g0[l][r].len(),
                        forall|q: (int, int, int)|
                            in_grid(g0, q) && (q.0 < layer || (q.0 == layer && q.1 < row) || (q.0
                                == layer && q.1 == row && q.2 < col)) ==> #[trigger] cell(
                                self.grid(),
                                q,
                            ) == (if cell(g0, q) == name {
                                EMPTY_SLOT
                            } else {
                                cell(g0, q)
                            }),
                        forall|q: (int, int, int)|
                            in_grid(g0, q) && (q.0 > layer || (q.0 == layer && q.1 > row) || (q.0
                                == layer && q.1 == row && q.2 >= col)) ==> #[trigger] cell(
                                self.grid(),
                                q,
                            ) == cell(g0, q),
                        updated_next_pos == exists|q: (int, int, int)|
                            in_grid(g0, q) && (q.0 < layer || (q.0 == layer && q.1 < row) || (q.0
                                == layer && q.1 == row && q.2 < col)) && #[trigger] cell(g0, q)
                                == name,
                        updated_next_pos ==> is_first_match(g0, name, self.next_pos@),
                        !updated_next_pos ==> self.next_pos == old(self).next_pos,
                {
                    let ghost q = (layer as int, row as int, col as int);
                    if self.layers.at(layer, row, col) == name {
                        let ghost pre = self.grid();
                        self.layers.update(layer, row, col, EMPTY_SLOT);
                        proof {
                            lemma_grid_update_cell(pre, q, EMPTY_SLOT);
                        }
                        if !updated_next_pos {
                            updated_next_pos = true;
                            self.next_pos = Position(layer, row, col);
                            proof {
                                assert(is_first_match(g0, name, q));
                            }
                        }
                        proof {
                            assert(cell(g0, q) == name);
                        }
                    }
                }
            }
        }
        proof {
            assert forall|l: int, r: int, c: int|
                0 <= l < g0.len() && 0 <= r < g0[l].len() && 0 <= c < g0[l][r].len() implies #[trigger] remove_spec(
                g0,
                name,
            )[l][r][c] == final(self).grid()[l][r][c] by {
                let q = (l, r, c);
                assert(in_grid(g0, q));
                assert(cell(final(self).grid(), q) == (if cell(g0, q) == name {
                    EMPTY_SLOT
                } else {
                    cell(g0, q)
                }));
            }
            assert(final(self).grid() =~~= remove_spec(g0, name));
            if grid_has(g0, name) {
                let w = choose|q: (int, int, int)|
                    in_grid(g0, q) && #[trigger] cell(g0, q) == name;
                assert(updated_next_pos);
                lemma_first_match_unique(g0, name, self.next_pos@);
            }
            if updated_next_pos {
                assert(in_grid(g0, self.next_pos@));
                assert(in_grid(final(self).grid(), self.next_pos@));
            }
        }
    }
}

/// The grid with every cell equal to `name` replaced by the empty slot.
pub open spec fn remove_spec(g: Seq<Seq<Seq<char>>>, name: char) -> Seq<Seq<Seq<char>>> {
    Seq::new(
        g.len(),
        |l: int|
            Seq::new(
                g[l].len(),
                |r: int|
                    Seq::new(
                        g[l][r].len(),
                        |c: int|
                            if g[l][r][c] == name {
                                EMPTY_SLOT
                            } else {
                                g[l][r][c]
                            },
                    ),
            ),
    )
}

/// The first cell of the grid holding `v`, assuming one exists.
pub open spec fn first_match_of(g: Seq<Seq<Seq<char>>>, v: char) -> (int, int, int) {
    choose|p: (int, int, int)| is_first_match(g, v, p)
}

/// Two first matches are the same cell.
pub proof fn lemma_first_match_unique(g: Seq<Seq<Seq<char>>>, v: char, p: (int, int, int))
    requires
        is_first_match(g, v, p),
    ensures
        first_match_of(g, v) == p,
{
    let q = first_match_of(g, v);
    assert(is_first_match(g, v, q));
    if q != p {
        if pos_lt(q, p) {
            assert(cell(g, q) != v);
        } else {
            assert(pos_lt(p, q));
            assert(cell(g, p) != v);
        }
    }
}

/// Updating one cell changes that cell alone.
pub proof fn lemma_grid_update_cell(g: Seq<Seq<Seq<char>>>, q: (int, int, int), v: char)
    requires
        grid_wf(g),
        in_grid(g, q),
    ensures
        grid_update(g, q, v).len() == g.len(),
        forall|l: int|
            0 <= l < g.len() ==> (#[trigger] grid_update(g, q, v)[l]).len() == g[l].len()
                && forall|r: int|
                0 <= r < g[l].len() ==> (#[trigger] grid_update(g, q, v)[l][r]).len()
                    == g[l][r].len(),
        forall|p: (int, int, int)|
            in_grid(g, p) ==> #[trigger] cell(grid_update(g, q, v), p) == (if p == q {
                v
            } else {
                cell(g, p)
            }),
        grid_wf(grid_update(g, q, v)),
{
    let w = grid_update(g, q, v);
    assert forall|l: int|
        0 <= l < g.len() implies (#[trigger] w[l]).len() == g[l].len() && forall|r: int|
        0 <= r < g[l].len() ==> (#[trigger] w[l][r]).len() == g[l][r].len() by {
        if l == q.0 {
            assert(w[l] == g[l].update(q.1, g[l][q.1].update(q.2, v)));
            assert forall|r: int| 0 <= r < g[l].len() implies (#[trigger] w[l][r]).len()
                == g[l][r].len() by {
                if r == q.1 {
                    assert(w[l][r] == g[l][q.1].update(q.2, v));
                } else {
                    assert(w[l][r] == g[l][r]);
                }
            }
        } else {
            assert(w[l] == g[l]);
        }
    }
    assert forall|p: (int, int, int)| in_grid(g, p) implies #[trigger] cell(w, p) == (if p == q {
        v
    } else {
        cell(g, p)
    }) by {
        if p.0 == q.0 {
            assert(w[p.0] == g[p.0].update(q.1, g[q.0][q.1].update(q.2, v)));
            if p.1 == q.1 {
                assert(w[p.0][p.1] == g[p.0][p.1].update(q.2, v));
            } else {
                assert(w[p.0][p.1] == g[p.0][p.1]);
            }
        } else {
            assert(w[p.0] == g[p.0]);
        }
    }
    assert forall|l: int| 0 <= l < w.len() implies layer_rect(#[trigger] w[l]) by {
        assert(layer_rect(g[l]));
        assert(w[l].len() == g[l].len());
        assert(w[l][0].len() == g[l][0].len());
    }
}

// ---------------------------------------------------------------------
// Placement buffer: the cell updates of a tentative placement are
// accumulated in a fixed-capacity vector from the arrayvec crate and
// committed only when the whole shape is known to fit.
// ---------------------------------------------------------------------

#[verifier::external_type_specification]
#[verifier::external_body]
#[verifier::reject_recursive_types(T)]
pub struct ExArrayVec<T, const CAP: usize>(arrayvec::ArrayVec<T, CAP>);

/// The cells held by a placement buffer, in insertion order.
pub uninterp spec fn posbuf_view(v: arrayvec::ArrayVec<(usize, usize, usize), 55>) -> Seq<
    (usize, usize, usize),
>;

/// Relies on arrayvec::ArrayVec::new: a newly created vector is empty.
#[verifier::external_body]
fn posbuf_new() -> (r: arrayvec::ArrayVec<(usize, usize, usize), 55>)
    ensures
        posbuf_view(r) == Seq::<(usize, usize, usize)>::empty(),
{
    arrayvec::ArrayVec::new()
}

/// Relies on arrayvec::ArrayVec::push: appends the element at the end;
/// it panics only on a full vector, which the bound rules out.
#[verifier::external_body]
fn posbuf_push(v: &mut arrayvec::ArrayVec<(usize, usize, usize), 55>, p: (usize, usize, usize))
    requires
        posbuf_view(*old(v)).len() < 55,
    ensures
        posbuf_view(*final(v)) == posbuf_view(*old(v)).push(p),
{
    v.push(p)
}

/// Relies on arrayvec::ArrayVec::len: the number of elements held.
#[verifier::external_body]
fn posbuf_len(v: &arrayvec::ArrayVec<(usize, usize, usize), 55>) -> (n: usize)
    ensures
        n == posbuf_view(*v).len(),
{
    v.len()
}

/// Relies on arrayvec::ArrayVec::as_slice and slice indexing: the element
/// at the given position.
#[verifier::external_body]
fn posbuf_get(v: &arrayvec::ArrayVec<(usize, usize, usize), 55>, i: usize) -> (p: (
    usize,
    usize,
    usize,
))
    requires
        i < posbuf_view(*v).len(),
    ensures
        p == posbuf_view(*v)[i as int],
{
    v.as_slice()[i]
}

/// The address, as mathematical integers, of a buffered cell.
pub open spec fn buf_pos(p: (usize, usize, usize)) -> (int, int, int) {
    (p.0 as int, p.1 as int, p.2 as int)
}

/// Cell `b` occurs among the first `n` buffered cells.
pub open spec fn in_posbuf(ps: Seq<(usize, usize, usize)>, n: int, b: (int, int, int)) -> bool {
    exists|j: int| 0 <= j < n && buf_pos(#[trigger] ps[j]) == b
}

/// Cell `b` occurs among the buffered cells.
pub open spec fn in_posbuf_all(ps: Seq<(usize, usize, usize)>, b: (int, int, int)) -> bool {
    in_posbuf(ps, ps.len() as int, b)
}

// ---------------------------------------------------------------------
// The placement of a shape on a grid, as specification functions.
// ---------------------------------------------------------------------

/// First set cell of a shape's base layer in row-major order, or the
/// origin when the base layer is empty.
pub open spec fn l0_first(s: Seq<Seq<Seq<bool>>>, r: int, c: int) -> (int, int)
    decreases 5 - r, 5 - c,
{
    if !(0 <= r < 5) || c < 0 {
        (0, 0)
    } else if c >= 5 {
        l0_first(s, r + 1, 0)
    } else if sset(s, (0, r, c)) {
        (r, c)
    } else {
        l0_first(s, r, c + 1)
    }
}

/// The (row, column) offset of a shape: its first set base-layer cell.
/// The board aligns this cell of the shape with the placement position.
pub open spec fn offset_of(s: Seq<Seq<Seq<bool>>>) -> (int, int) {
    l0_first(s, 0, 0)
}

/// Every set cell of shape layer `k` lands inside board layer
/// `pos.0 + k` on an empty slot, after aligning by the offset.
pub open spec fn layer_fits(
    g: Seq<Seq<Seq<char>>>,
    s: Seq<Seq<Seq<bool>>>,
    pos: (int, int, int),
    off: (int, int),
    k: int,
) -> bool {
    forall|r: int, c: int|
        #[trigger] sset(s, (k, r, c)) ==> {
            &&& pos.1 + r >= off.0
            &&& pos.2 + c >= off.1
            &&& pos.1 + r - off.0 < g[pos.0 + k].len()
            &&& pos.2 + c - off.1 < g[pos.0 + k][0].len()
            &&& g[pos.0 + k][pos.1 + r - off.0][pos.2 + c - off.1] == EMPTY_SLOT
        }
}

/// Whether the shape fits when its layers are matched against board
/// layers from `pos.0 + k` upward: a missing board layer must find the
/// shape layer empty; an existing one must fit every set cell; and a flat
/// shape, or an empty shape layer, ends the climb successfully.
pub open spec fn can_place_from(
    g: Seq<Seq<Seq<char>>>,
    s: Seq<Seq<Seq<bool>>>,
    is3d: bool,
    pos: (int, int, int),
    off: (int, int),
    k: int,
) -> bool
    decreases 5 - k,
{
    if k >= 5 {
        true
    } else if pos.0 + k >= g.len() {
        !crate::pieces::layer_occ(s, k)
    } else if !layer_fits(g, s, pos, off, k) {
        false
    } else if !is3d || !crate::pieces::layer_occ(s, k) {
        true
    } else {
        can_place_from(g, s, is3d, pos, off, k + 1)
    }
}

/// Whether the shape fits on the board at the position.
pub open spec fn can_place(
    g: Seq<Seq<Seq<char>>>,
    s: Seq<Seq<Seq<bool>>>,
    is3d: bool,
    pos: (int, int, int),
) -> bool {
    can_place_from(g, s, is3d, pos, offset_of(s), 0)
}

/// How many shape layers are committed by a successful placement: the
/// climb stops at a missing board layer, after a flat shape's base layer,
/// or after an empty shape layer.
pub open spec fn place_depth_from(
    g: Seq<Seq<Seq<char>>>,
    s: Seq<Seq<Seq<bool>>>,
    is3d: bool,
    pos: (int, int, int),
    k: int,
) -> int
    decreases 5 - k,
{
    if k >= 5 {
        5
    } else if pos.0 + k >= g.len() {
        k
    } else if !is3d || !crate::pieces::layer_occ(s, k) {
        k + 1
    } else {
        place_depth_from(g, s, is3d, pos, k + 1)
    }
}

pub open spec fn place_depth(
    g: Seq<Seq<Seq<char>>>,
    s: Seq<Seq<Seq<bool>>>,
    is3d: bool,
    pos: (int, int, int),
) -> int {
    place_depth_from(g, s, is3d, pos, 0)
}

/// Board cell `b` is covered by a set cell of one of the first `depth`
/// shape layers, placed at `pos` with offset `off`.
pub open spec fn covered_cell(
    s: Seq<Seq<Seq<bool>>>,
    pos: (int, int, int),
    off: (int, int),
    depth: int,
    b: (int, int, int),
) -> bool {
    &&& 0 <= b.0 - pos.0 < depth
    &&& sset(s, (b.0 - pos.0, b.1 - pos.1 + off.0, b.2 - pos.2 + off.1))
}

/// The grid after committing a placement: covered cells take the letter,
/// all others keep their value.
pub open spec fn place_spec(
    g: Seq<Seq<Seq<char>>>,
    s: Seq<Seq<Seq<bool>>>,
    letter: char,
    pos: (int, int, int),
    off: (int, int),
    depth: int,
) -> Seq<Seq<Seq<char>>> {
    Seq::new(
        g.len(),
        |l: int|
            Seq::new(
                g[l].len(),
                |r: int|
                    Seq::new(
                        g[l][r].len(),
                        |c: int|
                            if covered_cell(s, pos, off, depth, (l, r, c)) {
                                letter
                            } else {
                                g[l][r][c]
                            },
                    ),
            ),
    )
}

/// Computes the (row, column) offset between a shape's own origin and its
/// first set base-layer cell, scanning the base layer row-major.
pub fn calculate_shape_offsets(shape: &Shape) -> (off: (usize, usize))
    requires
        shape.wf(),
    ensures
        (off.0 as int, off.1 as int) == offset_of(shape@),
        off.0 < 5,
        off.1 < 5,
{
    for row in 0..5usize
        invariant
            shape.wf(),
            offset_of(shape@) == l0_first(shape@, row as int, 0),
    {
        for col in 0..5usize
            invariant
                shape.wf(),
                row < 5,
                offset_of(shape@) == l0_first(shape@, row as int, col as int),
        {
            if shape.is_set(0, row, col) {
                return (row, col);
            }
        }
        proof {
            assert(l0_first(shape@, row as int, 5) == l0_first(shape@, row as int + 1, 0));
        }
    }
    proof {
        assert(l0_first(shape@, 5, 0) == (0int, 0int));
    }
    (0, 0)
}

/// Board cell `b` is covered by a set cell of shape layers before `k`, or
/// of layer `k` in the region scanned so far (rows before `r0`, or row
/// `r0` before column `c0`).
pub open spec fn covered_upto(
    s: Seq<Seq<Seq<bool>>>,
    pos: (int, int, int),
    off: (int, int),
    k: int,
    r0: int,
    c0: int,
    b: (int, int, int),
) -> bool {
    covered_cell(s, pos, off, k, b) || {
        let r = b.1 - pos.1 + off.0;
        let c = b.2 - pos.2 + off.1;
        b.0 - pos.0 == k && (r < r0 || (r == r0 && c < c0)) && sset(s, (k, r, c))
    }
}

/// How many cells fit in the shape layers before `k`.
pub open spec fn cap_before(k: int) -> int {
    if k <= 0 {
        0
    } else if k == 1 {
        25
    } else if k == 2 {
        41
    } else if k == 3 {
        50
    } else if k == 4 {
        54
    } else {
        55
    }
}

impl<T: Layers> Board<T> {
    /// Writes the buffered cells with the letter and moves the cursor to
    /// the first remaining empty slot (or the origin when none remains).
    fn commit(&mut self, positions: &arrayvec::ArrayVec<(usize, usize, usize), 55>, letter: char)
        requires
            old(self).wf(),
            forall|j: int|
                0 <= j < posbuf_view(*positions).len() ==> in_grid(
                    old(self).grid(),
                    buf_pos(#[trigger] posbuf_view(*positions)[j]),
                ),
        ensures
            final(self).wf(),
            final(self).grid().len() == old(self).grid().len(),
            forall|l: int|
                0 <= l < old(self).grid().len() ==> (#[trigger] final(self).grid()[l]).len()
                    == old(self).grid()[l].len() && forall|r: int|
                    0 <= r < old(self).grid()[l].len() ==> (#[trigger] final(self).grid()[l][r]).len()
                        == old(self).grid()[l][r].len(),
            forall|b: (int, int, int)|
                in_grid(old(self).grid(), b) ==> #[trigger] cell(final(self).grid(), b) == (
                if in_posbuf_all(posbuf_view(*positions), b) {
                    letter
                } else {
                    cell(old(self).grid(), b)
                }),
            final(self).next_pos@ == (if grid_has(final(self).grid(), EMPTY_SLOT) {
                first_match_of(final(self).grid(), EMPTY_SLOT)
            } else {
                (0int, 0int, 0int)
            }),
    {
        proof {
            self.layers.wf_grid();
        }
        let ghost g0 = self.grid();
        let ghost ps = posbuf_view(*positions);
        let n = posbuf_len(positions);
        for i in 0..n
            invariant
                self.layers.wf(),
                grid_wf(g0),
                grid_bounded(g0),
                ps == posbuf_view(*positions),
                n == ps.len(),
                forall|j: int| 0 <= j < ps.len() ==> in_grid(g0, buf_pos(#[trigger] ps[j])),
                self.grid().len() == g0.len(),
                forall|l: int|
                    0 <= l < g0.len() ==> (#[trigger] self.grid()[l]).len() == g0[l].len()
                        && forall|r: int|
                        0 <= r < g0[l].len() ==> (#[trigger] self.grid()[l][r]).len()
                            == g0[l][r].len(),
                forall|b: (int, int, int)|
                    in_grid(g0, b) ==> #[trigger] cell(self.grid(), b) == (if in_posbuf(
                        ps,
                        i as int,
                        b,
                    ) {
                        letter
                    } else {
                        cell(g0, b)
                    }),
        {
            let p = posbuf_get(positions, i);
            let ghost q = buf_pos(ps[i as int]);
            proof {
                assert(in_grid(g0, q));
                assert(in_grid(self.grid(), q));
            }
            let ghost pre = self.grid();
            self.layers.update(p.0, p.1, p.2, letter);
            proof {
                lemma_grid_update_cell(pre, q, letter);
                assert forall|b: (int, int, int)| in_grid(g0, b) implies #[trigger] cell(
                    self.grid(),
                    b,
                ) == (if in_posbuf(ps, i + 1, b) {
                    letter
                } else {
                    cell(g0, b)
                }) by {
                    assert(in_grid(pre, b));
                    if b == q {
                        assert(buf_pos(ps[i as int]) == b);
                        assert(in_posbuf(ps, i + 1, b));
                    } else {
                        assert(cell(self.grid(), b) == cell(pre, b));
                        if in_posbuf(ps, i + 1, b) {
                            let j = choose|j: int|
                                0 <= j < i + 1 && buf_pos(#[trigger] ps[j]) == b;
                            assert(j != i);
                            assert(in_posbuf(ps, i as int, b));
                        }
                    }
                }
            }
        }
        let found = self.layers.find(EMPTY_SLOT);
        match found {
            Option::Some(p) => {
                self.next_pos = p;
                proof {
                    lemma_first_match_unique(self.grid(), EMPTY_SLOT, p@);
                    assert(grid_has(self.grid(), EMPTY_SLOT)) by {
                        assert(cell(self.grid(), p@) == EMPTY_SLOT);
                    }
                }
            },
            Option::None => {
                self.next_pos = Position(0, 0, 0);
            },
        }
    }

    /// Attempts to place the shape so that its offset-adjusted origin
    /// lands at the given position, and commits it when it fits. On
    /// failure the board is unchanged and an error is returned.
    pub fn try_add_shape_at(&mut self, shape: &Shape, letter: char, position: &Position) -> (res:
        Result<(), ()>)
        requires
            old(self).wf(),
            shape.wf(),
            position.1 <= usize::MAX - 5,
            position.2 <= usize::MAX - 5,
        ensures
            final(self).wf(),
            match res {
                Result::Ok(()) => {
                    &&& can_place(old(self).grid(), shape@, shape.is_3d, position@)
                    &&& final(self).grid() == place_spec(
                        old(self).grid(),
                        shape@,
                        letter,
                        position@,
                        offset_of(shape@),
                        place_depth(old(self).grid(), shape@, shape.is_3d, position@),
                    )
                    &&& final(self).next_pos@ == (if grid_has(final(self).grid(), EMPTY_SLOT) {
                        first_match_of(final(self).grid(), EMPTY_SLOT)
                    } else {
                        (0int, 0int, 0int)
                    })
                },
                Result::Err(()) => {
                    &&& !can_place(old(self).grid(), shape@, shape.is_3d, position@)
                    &&& *final(self) == *old(self)
                },
            },
    {
        proof {
            self.layers.wf_grid();
        }
        let ghost g = self.grid();
        let ghost sv = shape@;
        let ghost is3 = shape.is_3d;
        let ghost pos = position@;
        let mut positions_to_update = posbuf_new();
        let (shape_row_offset, shape_col_offset) = calculate_shape_offsets(shape);
        let ghost off = offset_of(sv);
        let board_layer_count = self.layers.layer_count();
        let layer = position.0;
        let next_row = position.1;
        let next_col = position.2;

        for shape_layer_index in 0..5usize
            invariant
                *self == *old(self),
                self.layers.wf(),
                old(self).wf(),
                shape.wf(),
                grid_wf(g),
                grid_bounded(g),
                g == self.grid(),
                sv == shape@,
                is3 == shape.is_3d,
                pos == position@,
                off == offset_of(sv),
                (shape_row_offset as int, shape_col_offset as int) == off,
                board_layer_count == g.len(),
                layer == position.0,
                next_row == position.1,
                next_col == position.2,
                next_row <= usize::MAX - 5,
                next_col <= usize::MAX - 5,
                can_place_from(g, sv, is3, pos, off, 0) == can_place_from(
                    g,
                    sv,
                    is3,
                    pos,
                    off,
                    shape_layer_index as int,
                ),
                place_depth_from(g, sv, is3, pos, 0) == place_depth_from(
                    g,
                    sv,
                    is3,
                    pos,
                    shape_layer_index as int,
                ),
                forall|b: (int, int, int)| #[trigger]
                    in_posbuf_all(posbuf_view(positions_to_update), b) == covered_cell(
                        sv,
                        pos,
                        off,
                        shape_layer_index as int,
                        b,
                    ),
                forall|j: int|
                    0 <= j < posbuf_view(positions_to_update).len() ==> in_grid(
                        g,
                        buf_pos(#[trigger] posbuf_view(positions_to_update)[j]),
                    ),
                posbuf_view(positions_to_update).len() <= cap_before(shape_layer_index as int),
        {
            let ghost k = shape_layer_index as int;
            if layer >= board_layer_count || shape_layer_index >= board_layer_count - layer {
                proof {
                    assert(pos.0 + k >= g.len());
                }
                let (shape_size, _) = shape.dimensions(shape_layer_index);
                for shape_row in 0..shape_size
                    invariant
                        *self == *old(self),
                        old(self).wf(),
                        shape.wf(),
                        sv == shape@,
                        is3 == shape.is_3d,
                        g == self.grid(),
                        pos == position@,
                        off == offset_of(sv),
                        pos.0 + k >= g.len(),
                        can_place_from(g, sv, is3, pos, off, 0) == can_place_from(
                            g,
                            sv,
                            is3,
                            pos,
                            off,
                            k,
                        ),
                        k == shape_layer_index as int,
                        0 <= k < 5,
                        shape_size == 5 - k,
                        forall|r: int, c: int|
                            0 <= r < shape_row && 0 <= c < 5 - k ==> !#[trigger] sset(
                                sv,
                                (k, r, c),
                            ),
                {
                    for shape_col in 0..shape_size
                        invariant
                            *self == *old(self),
                            old(self).wf(),
                            shape.wf(),
                            sv == shape@,
                            is3 == shape.is_3d,
                            g == self.grid(),
                            pos == position@,
                            off == offset_of(sv),
                            pos.0 + k >= g.len(),
                            can_place_from(g, sv, is3, pos, off, 0) == can_place_from(
                                g,
                                sv,
                                is3,
                                pos,
                                off,
                                k,
                            ),
                            k == shape_layer_index as int,
                            0 <= k < 5,
                            shape_size == 5 - k,
                            shape_row < shape_size,
                            forall|r: int, c: int|
                                0 <= r < shape_row && 0 <= c < 5 - k ==> !#[trigger] sset(
                                    sv,
                                    (k, r, c),
                                ),
                            forall|c: int|
                                0 <= c < shape_col ==> !#[trigger] sset(
                                    sv,
                                    (k, shape_row as int, c),
                                ),
                    {
                        if shape.is_set(shape_layer_index, shape_row, shape_col) {
                            proof {
                                assert(crate::pieces::layer_occ(sv, k)) by {
                                    assert(sset(sv, (k, shape_row as int, shape_col as int)));
                                }
                                assert(!can_place_from(g, sv, is3, pos, off, k));
                            }
                            return Result::Err(());
                        }
                    }
                }
                proof {
                    assert(!crate::pieces::layer_occ(sv, k)) by {
                        assert forall|p: (int, int, int)| p.0 == k implies !sset(sv, p) by {
                            if 0 <= p.1 < 5 - k && 0 <= p.2 < 5 - k {
                                assert(!sset(sv, p));
                            }
                        }
                    }
                    assert(can_place_from(g, sv, is3, pos, off, k));
                    assert(place_depth_from(g, sv, is3, pos, k) == k);
                }
                let ghost ps = posbuf_view(positions_to_update);
                self.commit(&positions_to_update, letter);
                proof {
                    let depth = place_depth(g, sv, is3, pos);
                    assert(depth == k);
                    let target = place_spec(g, sv, letter, pos, off, depth);
                    assert forall|l: int, r: int, c: int|
                        0 <= l < g.len() && 0 <= r < g[l].len() && 0 <= c < g[l][r].len() implies #[trigger] target[l][r][c] == final(self).grid()[l][r][c] by {
                        let b = (l, r, c);
                        assert(in_grid(g, b));
                        assert(cell(final(self).grid(), b) == (if in_posbuf_all(ps, b) {
                            letter
                        } else {
                            cell(g, b)
                        }));
                        assert(in_posbuf_all(ps, b) == covered_cell(sv, pos, off, k, b));
                    }
                    assert(final(self).grid() =~~= target);
                }
                return Result::Ok(());
            }
            let board_layer = layer + shape_layer_index;
            let (shape_size, _) = shape.dimensions(shape_layer_index);
            let (board_row_count, board_col_count) = self.layers.dimensions(board_layer);
            let mut no_parts_found_in_layer = true;
            proof {
                assert forall|b: (int, int, int)| #[trigger]
                    covered_upto(sv, pos, off, k, 0, 0, b) == covered_cell(sv, pos, off, k, b) by {}
            }
            for shape_row in 0..shape_size
                invariant
                    *self == *old(self),
                    old(self).wf(),
                    self.layers.wf(),
                    shape.wf(),
                    can_place_from(g, sv, is3, pos, off, 0) == can_place_from(
                        g,
                        sv,
                        is3,
                        pos,
                        off,
                        k,
                    ),
                    place_depth_from(g, sv, is3, pos, 0) == place_depth_from(g, sv, is3, pos, k),
                    grid_wf(g),
                    grid_bounded(g),
                    g == self.grid(),
                    sv == shape@,
                    is3 == shape.is_3d,
                    pos == position@,
                    off == offset_of(sv),
                    (shape_row_offset as int, shape_col_offset as int) == off,
                    k == shape_layer_index as int,
                    0 <= k < 5,
                    shape_size == 5 - k,
                    layer == position.0,
                    next_row == position.1,
                    next_col == position.2,
                    next_row <= usize::MAX - 5,
                    next_col <= usize::MAX - 5,
                    board_layer == pos.0 + k < g.len(),
                    board_row_count == g[pos.0 + k].len(),
                    board_col_count == g[pos.0 + k][0].len(),
                    forall|r: int, c: int|
                        0 <= r < shape_row && #[trigger] sset(sv, (k, r, c)) ==> {
                            &&& pos.1 + r >= off.0
                            &&& pos.2 + c >= off.1
                            &&& pos.1 + r - off.0 < g[pos.0 + k].len()
                            &&& pos.2 + c - off.1 < g[pos.0 + k][0].len()
                            &&& g[pos.0 + k][pos.1 + r - off.0][pos.2 + c - off.1] == EMPTY_SLOT
                        },
                    no_parts_found_in_layer ==> forall|r: int, c: int|
                        0 <= r < shape_row ==> !#[trigger] sset(sv, (k, r, c)),
                    !no_parts_found_in_layer ==> crate::pieces::layer_occ(sv, k),
                    forall|b: (int, int, int)| #[trigger]
                        in_posbuf_all(posbuf_view(positions_to_update), b) == covered_upto(
                            sv,
                            pos,
                            off,
                            k,
                            shape_row as int,
                            0,
                            b,
                        ),
                    forall|j: int|
                        0 <= j < posbuf_view(positions_to_update).len() ==> in_grid(
                            g,
                            buf_pos(#[trigger] posbuf_view(positions_to_update)[j]),
                        ),
                    posbuf_view(positions_to_update).len() <= cap_before(k) + shape_row * shape_size,
            {
                for shape_col in 0..shape_size
                    invariant
                        *self == *old(self),
                        old(self).wf(),
                        self.layers.wf(),
                        shape.wf(),
                        can_place_from(g, sv, is3, pos, off, 0) == can_place_from(
                            g,
                            sv,
                            is3,
                            pos,
                            off,
                            k,
                        ),
                        place_depth_from(g, sv, is3, pos, 0) == place_depth_from(
                            g,
                            sv,
                            is3,
                            pos,
                            k,
                        ),
                        grid_wf(g),
                        grid_bounded(g),
                        g == self.grid(),
                        sv == shape@,
                        is3 == shape.is_3d,
                        pos == position@,
                        off == offset_of(sv),
                        (shape_row_offset as int, shape_col_offset as int) == off,
                        k == shape_layer_index as int,
                        0 <= k < 5,
                        shape_size == 5 - k,
                        shape_row < shape_size,
                        layer == position.0,
                        next_row == position.1,
                        next_col == position.2,
                        next_row <= usize::MAX - 5,
                        next_col <= usize::MAX - 5,
                        board_layer == pos.0 + k < g.len(),
                        board_row_count == g[pos.0 + k].len(),
                        board_col_count == g[pos.0 + k][0].len(),
                        forall|r: int, c: int|
                            0 <= r < shape_row && #[trigger] sset(sv, (k, r, c)) ==> {
                                &&& pos.1 + r >= off.0
                                &&& pos.2 + c >= off.1
                                &&& pos.1 + r - off.0 < g[pos.0 + k].len()
                                &&& pos.2 + c - off.1 < g[pos.0 + k][0].len()
                                &&& g[pos.0 + k][pos.1 + r - off.0][pos.2 + c - off.1] == EMPTY_SLOT
                            },
                        forall|c: int|
                            0 <= c < shape_col && #[trigger] sset(sv, (k, shape_row as int, c))
                                ==> {
                                &&& pos.1 + shape_row >= off.0
                                &&& pos.2 + c >= off.1
                                &&& pos.1 + shape_row - off.0 < g[pos.0 + k].len()
                                &&& pos.2 + c - off.1 < g[pos.0 + k][0].len()
                                &&& g[pos.0 + k][pos.1 + shape_row - off.0][pos.2 + c - off.1]
                                    == EMPTY_SLOT
                            },
                        no_parts_found_in_layer ==> (forall|r: int, c: int|
                            0 <= r < shape_row ==> !#[trigger] sset(sv, (k, r, c))) && (forall|
                            c: int,
                        |
                            0 <= c < shape_col ==> !#[trigger] sset(sv, (k, shape_row as int, c))),
                        !no_parts_found_in_layer ==> crate::pieces::layer_occ(sv, k),
                        forall|b: (int, int, int)| #[trigger]
                            in_posbuf_all(posbuf_view(positions_to_update), b) == covered_upto(
                                sv,
                                pos,
                                off,
                                k,
                                shape_row as int,
                                shape_col as int,
                                b,
                            ),
                        forall|j: int|
                            0 <= j < posbuf_view(positions_to_update).len() ==> in_grid(
                                g,
                                buf_pos(#[trigger] posbuf_view(positions_to_update)[j]),
                            ),
                        posbuf_view(positions_to_update).len() <= cap_before(k) + shape_row
                            * shape_size + shape_col,
                {
                    if shape.is_set(shape_layer_index, shape_row, shape_col) {
                        let ghost witness = (k, shape_row as int, shape_col as int);
                        if next_row + shape_row < shape_row_offset {
                            proof {
                                assert(sset(sv, witness));
                                assert(!layer_fits(g, sv, pos, off, k));
                            }
                            return Result::Err(());
                        }
                        let board_row = next_row + shape_row - shape_row_offset;
                        if next_col + shape_col < shape_col_offset {
                            proof {
                                assert(sset(sv, witness));
                                assert(!layer_fits(g, sv, pos, off, k));
                            }
                            return Result::Err(());
                        }
                        let board_col = next_col + shape_col - shape_col_offset;
                        if board_row >= board_row_count || board_col >= board_col_count {
                            proof {
                                assert(sset(sv, witness));
                                assert(!layer_fits(g, sv, pos, off, k));
                            }
                            return Result::Err(());
                        }
                        if self.layers.at(board_layer, board_row, board_col) != EMPTY_SLOT {
                            proof {
                                assert(sset(sv, witness));
                                assert(!layer_fits(g, sv, pos, off, k));
                            }
                            return Result::Err(());
                        }
                        no_parts_found_in_layer = false;
                        proof {
                            assert(crate::pieces::layer_occ(sv, k)) by {
                                assert(sset(sv, witness));
                            }
                            assert(cap_before(k) + (5 - k) * (5 - k) == cap_before(k + 1)) by {
                                assert((5 - k) * (5 - k) == (5 - k) * 5 - (5 - k) * k)
                                    by (nonlinear_arith);
                                assert((5 - k) * 5 == 25 - 5 * k) by (nonlinear_arith);
                                assert((5 - k) * k == 5 * k - k * k) by (nonlinear_arith);
                                assert(k * k == (if k == 0 { 0int } else if k == 1 { 1int } else if k == 2 { 4int } else if k == 3 { 9int } else { 16int }))
                                    by (nonlinear_arith)
                                    requires 0 <= k < 5;
                            }
                            assert(shape_row * shape_size + shape_col < shape_size * shape_size)
                                by (nonlinear_arith)
                                requires
                                    shape_row < shape_size,
                                    shape_col < shape_size,
                                    0 <= shape_row,
                                    0 <= shape_col,
                            ;
                            assert(posbuf_view(positions_to_update).len() < 55);
                        }
                        let ghost ps_pre = posbuf_view(positions_to_update);
                        posbuf_push(&mut positions_to_update, (board_layer, board_row, board_col));
                        proof {
                            let ps_now = posbuf_view(positions_to_update);
                            let nb = (board_layer as int, board_row as int, board_col as int);
                            assert(nb.1 == pos.1 + shape_row - off.0);
                            assert(nb.2 == pos.2 + shape_col - off.1);
                            assert(in_grid(g, nb));
                            assert forall|b: (int, int, int)| #[trigger]
                                in_posbuf_all(ps_now, b) == covered_upto(
                                    sv,
                                    pos,
                                    off,
                                    k,
                                    shape_row as int,
                                    shape_col + 1,
                                    b,
                                ) by {
                                if b == nb {
                                    assert(buf_pos(ps_now[ps_now.len() - 1]) == b);
                                    assert(in_posbuf_all(ps_now, b));
                                    assert(sset(sv, (k, shape_row as int, shape_col as int)));
                                    assert(covered_upto(
                                        sv,
                                        pos,
                                        off,
                                        k,
                                        shape_row as int,
                                        shape_col + 1,
                                        b,
                                    ));
                                } else {
                                    if in_posbuf_all(ps_now, b) {
                                        let j = choose|j: int|
                                            0 <= j < ps_now.len() && buf_pos(#[trigger] ps_now[j])
                                                == b;
                                        assert(j < ps_pre.len());
                                        assert(ps_pre[j] == ps_now[j]);
                                        assert(in_posbuf_all(ps_pre, b));
                                    }
                                    if covered_upto(
                                        sv,
                                        pos,
                                        off,
                                        k,
                                        shape_row as int,
                                        shape_col + 1,
                                        b,
                                    ) {
                                        assert(covered_upto(
                                            sv,
                                            pos,
                                            off,
                                            k,
                                            shape_row as int,
                                            shape_col as int,
                                            b,
                                        ));
                                    }
                                    if in_posbuf_all(ps_pre, b) {
                                        let j = choose|j: int|
                                            0 <= j < ps_pre.len() && buf_pos(#[trigger] ps_pre[j])
                                                == b;
                                        assert(ps_now[j] == ps_pre[j]);
                                        assert(in_posbuf_all(ps_now, b));
                                    }
                                }
                            }
                        }
                    } else {
                        proof {
                            assert forall|b: (int, int, int)|
                                covered_upto(
                                    sv,
                                    pos,
                                    off,
                                    k,
                                    shape_row as int,
                                    shape_col + 1,
                                    b,
                                ) implies covered_upto(
                                sv,
                                pos,
                                off,
                                k,
                                shape_row as int,
                                shape_col as int,
                                b,
                            ) by {
                                if !covered_cell(sv, pos, off, k, b) {
                                    assert(b.1 - pos.1 + off.0 != shape_row || b.2 - pos.2 + off.1
                                        != shape_col || !sset(sv, (k, b.1 - pos.1 + off.0, b.2
                                        - pos.2 + off.1)));
                                }
                            }
                        }
                    }
                }
                proof {
                    assert forall|b: (int, int, int)| #[trigger]
                        covered_upto(sv, pos, off, k, shape_row as int, 5 - k, b)
                            == covered_upto(sv, pos, off, k, shape_row + 1, 0, b) by {}
                    assert((shape_row + 1) * shape_size == shape_row * shape_size + shape_size)
                        by (nonlinear_arith);
                }
            }
            proof {
                assert(layer_fits(g, sv, pos, off, k)) by {
                    assert forall|r: int, c: int| #[trigger]
                        sset(sv, (k, r, c)) implies {
                        &&& pos.1 + r >= off.0
                        &&& pos.2 + c >= off.1
                        &&& pos.1 + r - off.0 < g[pos.0 + k].len()
                        &&& pos.2 + c - off.1 < g[pos.0 + k][0].len()
                        &&& g[pos.0 + k][pos.1 + r - off.0][pos.2 + c - off.1] == EMPTY_SLOT
                    } by {
                        assert(0 <= r < 5 - k && 0 <= c < 5 - k);
                    }
                }
            }
            if !shape.is_3d || no_parts_found_in_layer {
                proof {
                    if no_parts_found_in_layer {
                        assert(!crate::pieces::layer_occ(sv, k)) by {
                            assert forall|p: (int, int, int)| p.0 == k implies !sset(sv, p) by {
                                if 0 <= p.1 < 5 - k && 0 <= p.2 < 5 - k {
                                    assert(!sset(sv, p));
                                }
                            }
                        }
                    }
                    assert(can_place_from(g, sv, is3, pos, off, k));
                    assert(place_depth_from(g, sv, is3, pos, k) == k + 1);
                    assert forall|b: (int, int, int)| #[trigger]
                        covered_upto(sv, pos, off, k, 5 - k, 0, b) == covered_cell(
                            sv,
                            pos,
                            off,
                            k + 1,
                            b,
                        ) by {}
                }
                let ghost ps = posbuf_view(positions_to_update);
                self.commit(&positions_to_update, letter);
                proof {
                    let depth = place_depth(g, sv, is3, pos);
                    assert(depth == k + 1);
                    let target = place_spec(g, sv, letter, pos, off, depth);
                    assert forall|l: int, r: int, c: int|
                        0 <= l < g.len() && 0 <= r < g[l].len() && 0 <= c < g[l][r].len() implies #[trigger] target[l][r][c] == final(self).grid()[l][r][c] by {
                        let b = (l, r, c);
                        assert(in_grid(g, b));
                        assert(cell(final(self).grid(), b) == (if in_posbuf_all(ps, b) {
                            letter
                        } else {
                            cell(g, b)
                        }));
                        assert(in_posbuf_all(ps, b) == covered_upto(sv, pos, off, k, 5 - k, 0, b));
                        assert(covered_upto(sv, pos, off, k, 5 - k, 0, b) == covered_cell(sv, pos, off, k + 1, b));
                    }
                    assert(final(self).grid() =~~= target);
                }
                return Result::Ok(());
            }
            proof {
                assert(crate::pieces::layer_occ(sv, k));
                assert(can_place_from(g, sv, is3, pos, off, k) == can_place_from(
                    g,
                    sv,
                    is3,
                    pos,
                    off,
                    k + 1,
                ));
                assert(place_depth_from(g, sv, is3, pos, k) == place_depth_from(
                    g,
                    sv,
                    is3,
                    pos,
                    k + 1,
                ));
                assert forall|b: (int, int, int)| #[trigger]
                    covered_upto(sv, pos, off, k, 5 - k, 0, b) == covered_cell(
                        sv,
                        pos,
                        off,
                        k + 1,
                        b,
                    ) by {}
                assert(cap_before(k) + (5 - k) * (5 - k) == cap_before(k + 1)) by {
                    assert((5 - k) * (5 - k) == (5 - k) * 5 - (5 - k) * k) by (nonlinear_arith);
                    assert((5 - k) * 5 == 25 - 5 * k) by (nonlinear_arith);
                    assert((5 - k) * k == 5 * k - k * k) by (nonlinear_arith);
                    assert(k * k == (if k == 0 { 0int } else if k == 1 { 1int } else if k == 2 { 4int } else if k == 3 { 9int } else { 16int }))
                        by (nonlinear_arith)
                        requires 0 <= k < 5;
                }
                assert(shape_size * shape_size == (5 - k) * (5 - k));
            }
        }
        proof {
            assert(can_place_from(g, sv, is3, pos, off, 5));
            assert(place_depth_from(g, sv, is3, pos, 5) == 5);
        }
        let ghost ps = posbuf_view(positions_to_update);
        self.commit(&positions_to_update, letter);
        proof {
            let depth = place_depth(g, sv, is3, pos);
            assert(depth == 5);
            let target = place_spec(g, sv, letter, pos, off, depth);
            assert forall|l: int, r: int, c: int|
                0 <= l < g.len() && 0 <= r < g[l].len() && 0 <= c < g[l][r].len() implies #[trigger] target[l][r][c] == final(self).grid()[l][r][c] by {
                let b = (l, r, c);
                assert(in_grid(g, b));
                assert(cell(final(self).grid(), b) == (if in_posbuf_all(ps, b) {
                    letter
                } else {
                    cell(g, b)
                }));
                assert(in_posbuf_all(ps, b) == covered_cell(sv, pos, off, 5, b));
            }
            assert(final(self).grid() =~~= target);
        }
        Result::Ok(())
    }

    /// Adds the shape at the board's current next open position.
    pub fn try_add_shape(&mut self, shape: &Shape, letter: char) -> (res: Result<(), ()>)
        requires
            old(self).wf(),
            shape.wf(),
        ensures
            final(self).wf(),
            match res {
                Result::Ok(()) => {
                    &&& can_place(old(self).grid(), shape@, shape.is_3d, old(self).next_pos@)
                    &&& final(self).grid() == place_spec(
                        old(self).grid(),
                        shape@,
                        letter,
                        old(self).next_pos@,
                        offset_of(shape@),
                        place_depth(old(self).grid(), shape@, shape.is_3d, old(self).next_pos@),
                    )
                    &&& final(self).next_pos@ == (if grid_has(final(self).grid(), EMPTY_SLOT) {
                        first_match_of(final(self).grid(), EMPTY_SLOT)
                    } else {
                        (0int, 0int, 0int)
                    })
                },
                Result::Err(()) => {
                    &&& !can_place(old(self).grid(), shape@, shape.is_3d, old(self).next_pos@)
                    &&& *final(self) == *old(self)
                },
            },
    {
        proof {
            self.layers.wf_grid();
            if in_grid(self.grid(), self.next_pos@) {
                assert(self.grid()[self.next_pos@.0].len() <= 1000000);
                assert(self.grid()[self.next_pos@.0][self.next_pos@.1].len() == self.grid()[self.next_pos@.0][0].len());
            }
        }
        let position = Position(self.next_pos.0, self.next_pos.1, self.next_pos.2);
        self.try_add_shape_at(shape, letter, &position)
    }
}

impl Board<Rectangle> {
    /// A new, empty 5 x 11 rectangular board.
    pub fn new() -> (b: Board<Rectangle>)
        ensures
            b.wf(),
            b.grid() == rect_grid(5, 11),
            b.next_pos@ == (0int, 0int, 0int),
    {
        Board::from_layers(Rectangle::standard())
    }
}

impl Board<Pyramid> {
    /// A new, empty pyramidal board.
    pub fn new() -> (b: Board<Pyramid>)
        ensures
            b.wf(),
            b.grid() == pyramid_grid(),
            b.next_pos@ == (0int, 0int, 0int),
    {
        proof {
            assert forall|l: int| 0 <= l < 5 implies (#[trigger] pyramid_grid()[l]).len() <= 1000000
                && pyramid_grid()[l][0].len() <= 1000000 by {
                assert(pyramid_grid()[l] == empty_layer_spec(5 - l, 5 - l));
            }
        }
        Board::from_layers(Pyramid::standard())
    }
}

/// Which board geometry a run uses.
#[derive(Debug, PartialEq, Eq, Structural, Clone, Copy)]
pub enum BoardType {
    Rectangle,
    Pyramid,
}

/// A board of either geometry, selected at construction time; every
/// operation dispatches to the wrapped board.
pub enum Variation {
    Rectangle(Board<crate::board::Rectangle>),
    Pyramid(Board<crate::board::Pyramid>),
}

impl Variation {
    pub open spec fn grid(&self) -> Seq<Seq<Seq<char>>> {
        match self {
            Variation::Rectangle(b) => b.grid(),
            Variation::Pyramid(b) => b.grid(),
        }
    }

    pub open spec fn next_pos_spec(&self) -> (int, int, int) {
        match self {
            Variation::Rectangle(b) => b.next_pos@,
            Variation::Pyramid(b) => b.next_pos@,
        }
    }

    pub open spec fn wf(&self) -> bool {
        match self {
            Variation::Rectangle(b) => b.wf(),
            Variation::Pyramid(b) => b.wf(),
        }
    }

    /// True when no cell of the board holds the empty-slot sentinel.
    pub fn solved(&self) -> (r: bool)
        requires
            self.wf(),
        ensures
            r == !grid_has(self.grid(), EMPTY_SLOT),
    {
        match self {
            Variation::Rectangle(b) => b.solved(),
            Variation::Pyramid(b) => b.solved(),
        }
    }

    /// Adds the shape at the board's current next open position.
    pub fn try_add_shape(&mut self, shape: &Shape, letter: char) -> (res: Result<(), ()>)
        requires
            old(self).wf(),
            shape.wf(),
        ensures
            final(self).wf(),
            match res {
                Result::Ok(()) => {
                    &&& can_place(old(self).grid(), shape@, shape.is_3d, old(self).next_pos_spec())
                    &&& final(self).grid() == place_spec(
                        old(self).grid(),
                        shape@,
                        letter,
                        old(self).next_pos_spec(),
                        offset_of(shape@),
                        place_depth(
                            old(self).grid(),
                            shape@,
                            shape.is_3d,
                            old(self).next_pos_spec(),
                        ),
                    )
                    &&& final(self).next_pos_spec() == (if grid_has(
                        final(self).grid(),
                        EMPTY_SLOT,
                    ) {
                        first_match_of(final(self).grid(), EMPTY_SLOT)
                    } else {
                        (0int, 0int, 0int)
                    })
                },
                Result::Err(()) => {
                    &&& !can_place(old(self).grid(), shape@, shape.is_3d, old(self).next_pos_spec())
                    &&& *final(self) == *old(self)
                },
            },
    {
        match self {
            Variation::Rectangle(b) => b.try_add_shape(shape, letter),
            Variation::Pyramid(b) => b.try_add_shape(shape, letter),
        }
    }

    /// Adds the shape at the given position.
    pub fn try_add_shape_at(&mut self, shape: &Shape, letter: char, position: &Position) -> (res:
        Result<(), ()>)
        requires
            old(self).wf(),
            shape.wf(),
            position.1 <= usize::MAX - 5,
            position.2 <= usize::MAX - 5,
        ensures
            final(self).wf(),
            match res {
                Result::Ok(()) => {
                    &&& can_place(old(self).grid(), shape@, shape.is_3d, position@)
                    &&& final(self).grid() == place_spec(
                        old(self).grid(),
                        shape@,
                        letter,
                        position@,
                        offset_of(shape@),
                        place_depth(old(self).grid(), shape@, shape.is_3d, position@),
                    )
                    &&& final(self).next_pos_spec() == (if grid_has(
                        final(self).grid(),
                        EMPTY_SLOT,
                    ) {
                        first_match_of(final(self).grid(), EMPTY_SLOT)
                    } else {
                        (0int, 0int, 0int)
                    })
                },
                Result::Err(()) => {
                    &&& !can_place(old(self).grid(), shape@, shape.is_3d, position@)
                    &&& *final(self) == *old(self)
                },
            },
    {
        match self {
            Variation::Rectangle(b) => b.try_add_shape_at(shape, letter, position),
            Variation::Pyramid(b) => b.try_add_shape_at(shape, letter, position),
        }
    }

    /// Removes every cell holding the given name from the board.
    pub fn remove_shape(&mut self, name: char)
        requires
            old(self).wf(),
        ensures
            final(self).wf(),
            final(self).grid() == remove_spec(old(self).grid(), name),
            final(self).next_pos_spec() == (if grid_has(old(self).grid(), name) {
                first_match_of(old(self).grid(), name)
            } else {
                old(self).next_pos_spec()
            }),
    {
        match self {
            Variation::Rectangle(b) => b.remove_shape(name),
            Variation::Pyramid(b) => b.remove_shape(name),
        }
    }
}

/// Creates a new, empty board of the requested type.
pub fn create_board(board_type: &BoardType) -> (v: Variation)
    ensures
        v.wf(),
        v.grid() == (if board_type is Rectangle {
            rect_grid(5, 11)
        } else {
            pyramid_grid()
        }),
        v.next_pos_spec() == (0int, 0int, 0int),
{
    match board_type {
        BoardType::Rectangle => Variation::Rectangle(Board::<Rectangle>::new()),
        BoardType::Pyramid => Variation::Pyramid(Board::<Pyramid>::new()),
    }
}

/// Every shape layer committed by a successful placement was checked to
/// fit: its board layer exists and its set cells land on empty slots.
pub proof fn lemma_place_layer_fits(
    g: Seq<Seq<Seq<char>>>,
    s: Seq<Seq<Seq<bool>>>,
    is3d: bool,
    pos: (int, int, int),
    off: (int, int),
    k: int,
    k2: int,
)
    requires
        can_place_from(g, s, is3d, pos, off, k),
        0 <= k <= k2,
        k2 < place_depth_from(g, s, is3d, pos, k),
    ensures
        pos.0 + k2 < g.len(),
        layer_fits(g, s, pos, off, k2),
    decreases k2 - k,
{
    if k2 > k {
        lemma_place_layer_fits(g, s, is3d, pos, off, k + 1, k2);
    }
}

/// Adding a shape that fits and then removing it restores the board cell
/// for cell, and every cell the removal clears was an empty slot before
/// the addition; in particular the first cleared cell, where the cursor
/// lands, is an empty cell of the restored board.
pub proof fn lemma_add_then_remove_restores(
    g: Seq<Seq<Seq<char>>>,
    s: Seq<Seq<Seq<bool>>>,
    is3d: bool,
    letter: char,
    pos: (int, int, int),
)
    requires
        grid_wf(g),
        can_place(g, s, is3d, pos),
        letter != EMPTY_SLOT,
        !grid_has(g, letter),
    ensures
        ({
            let placed = place_spec(
                g,
                s,
                letter,
                pos,
                offset_of(s),
                place_depth(g, s, is3d, pos),
            );
            &&& remove_spec(placed, letter) == g
            &&& grid_has(placed, letter) ==> cell(g, first_match_of(placed, letter)) == EMPTY_SLOT
        }),
{
    let off = offset_of(s);
    let depth = place_depth(g, s, is3d, pos);
    let placed = place_spec(g, s, letter, pos, off, depth);
    assert forall|b: (int, int, int)|
        in_grid(g, b) && covered_cell(s, pos, off, depth, b) implies cell(g, b) == EMPTY_SLOT by {
        let k2 = b.0 - pos.0;
        lemma_place_layer_fits(g, s, is3d, pos, off, 0, k2);
        assert(layer_fits(g, s, pos, off, k2));
        let r = b.1 - pos.1 + off.0;
        let c = b.2 - pos.2 + off.1;
        assert(sset(s, (k2, r, c)));
        assert(g[pos.0 + k2][pos.1 + r - off.0][pos.2 + c - off.1] == EMPTY_SLOT);
        assert(pos.1 + r - off.0 == b.1 && pos.2 + c - off.1 == b.2);
    }
    assert forall|l: int, r: int, c: int|
        0 <= l < g.len() && 0 <= r < g[l].len() && 0 <= c < g[l][r].len() implies #[trigger] remove_spec(
        placed,
        letter,
    )[l][r][c] == g[l][r][c] by {
        let b = (l, r, c);
        assert(in_grid(g, b));
        assert(placed[l][r][c] == (if covered_cell(s, pos, off, depth, b) {
            letter
        } else {
            g[l][r][c]
        }));
        if covered_cell(s, pos, off, depth, b) {
            assert(cell(g, b) == EMPTY_SLOT);
        } else {
            if g[l][r][c] == letter {
                assert(cell(g, b) == letter);
                assert(grid_has(g, letter));
            }
        }
    }
    assert(remove_spec(placed, letter) =~~= g);
    if grid_has(placed, letter) {
        let fm = first_match_of(placed, letter);
        lemma_first_match_exists(placed, letter);
        assert(is_first_match(placed, letter, fm));
        assert(in_grid(g, fm));
        assert(placed[fm.0][fm.1][fm.2] == letter);
        if !covered_cell(s, pos, off, depth, fm) {
            assert(cell(g, fm) == letter);
            assert(grid_has(g, letter));
        }
        assert(covered_cell(s, pos, off, depth, fm));
        assert(cell(g, fm) == EMPTY_SLOT);
    }
}

/// A grid holding a value somewhere has a lexicographically first cell
/// holding it.
pub proof fn lemma_first_match_exists(g: Seq<Seq<Seq<char>>>, v: char)
    requires
        grid_has(g, v),
    ensures
        exists|q: (int, int, int)| is_first_match(g, v, q),
        is_first_match(g, v, first_match_of(g, v)),
{
    let w = choose|q: (int, int, int)| in_grid(g, q) && #[trigger] cell(g, q) == v;
    let q = lemma_first_match_before(g, v, w);
    assert(is_first_match(g, v, q));
}

/// Below any cell holding the value there is a first one.
proof fn lemma_first_match_before(g: Seq<Seq<Seq<char>>>, v: char, w: (int, int, int)) -> (q: (
    int,
    int,
    int,
))
    requires
        in_grid(g, w),
        cell(g, w) == v,
    ensures
        is_first_match(g, v, q),
    decreases w.0, w.1, w.2,
{
    if exists|u: (int, int, int)| in_grid(g, u) && pos_lt(u, w) && #[trigger] cell(g, u) == v {
        let u = choose|u: (int, int, int)|
            in_grid(g, u) && pos_lt(u, w) && #[trigger] cell(g, u) == v;
        lemma_first_match_before(g, v, u)
    } else {
        w
    }
}

} // verus!
