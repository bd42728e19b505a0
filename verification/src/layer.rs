//! Layered grid storage: a board or a shape is an ordered sequence of
//! rectangular layers, each with its own dimensions.

use vstd::prelude::*;

verus! {

/// One cell address in a layered grid: (layer, row, column).
#[derive(Clone, Copy, Debug, PartialEq, Eq, Structural)]
pub struct Position(pub usize, pub usize, pub usize);

impl View for Position {
    type V = (int, int, int);

    open spec fn view(&self) -> (int, int, int) {
        (self.0 as int, self.1 as int, self.2 as int)
    }
}

/// A single layer is rectangular and has at least one row and one column.
pub open spec fn layer_rect(layer: Seq<Seq<char>>) -> bool {
    &&& layer.len() >= 1
    &&& layer[0].len() >= 1
    &&& forall|r: int| 0 <= r < layer.len() ==> (#[trigger] layer[r]).len() == layer[0].len()
}

/// Every layer of the grid is rectangular and non-empty.
pub open spec fn grid_wf(g: Seq<Seq<Seq<char>>>) -> bool {
    forall|l: int| 0 <= l < g.len() ==> layer_rect(#[trigger] g[l])
}

/// Lexicographic order on cell addresses: layer first, then row, then column.
pub open spec fn pos_lt(a: (int, int, int), b: (int, int, int)) -> bool {
    ||| a.0 < b.0
    ||| (a.0 == b.0 && a.1 < b.1)
    ||| (a.0 == b.0 && a.1 == b.1 && a.2 < b.2)
}

/// The address is inside the grid.
pub open spec fn in_grid(g: Seq<Seq<Seq<char>>>, p: (int, int, int)) -> bool {
    &&& 0 <= p.0 < g.len()
    &&& 0 <= p.1 < g[p.0].len()
    &&& 0 <= p.2 < g[p.0][p.1].len()
}

/// The value stored at an address.
pub open spec fn cell(g: Seq<Seq<Seq<char>>>, p: (int, int, int)) -> char {
    g[p.0][p.1][p.2]
}

/// Some cell of the grid holds the value.
pub open spec fn grid_has(g: Seq<Seq<Seq<char>>>, v: char) -> bool {
    exists|p: (int, int, int)| in_grid(g, p) && #[trigger] cell(g, p) == v
}

/// `p` is the lexicographically first cell of the grid holding `v`.
pub open spec fn is_first_match(g: Seq<Seq<Seq<char>>>, v: char, p: (int, int, int)) -> bool {
    &&& in_grid(g, p)
    &&& cell(g, p) == v
    &&& forall|q: (int, int, int)| in_grid(g, q) && pos_lt(q, p) ==> #[trigger] cell(g, q) != v
}

/// The grid with one cell replaced.
pub open spec fn grid_update(
    g: Seq<Seq<Seq<char>>>,
    p: (int, int, int),
    v: char,
) -> Seq<Seq<Seq<char>>> {
    g.update(p.0, g[p.0].update(p.1, g[p.0][p.1].update(p.2, v)))
}

/// Fixed-layout layered storage of characters with per-layer dimensions,
/// supporting reads, writes, and a first-cell-equal-to-value scan.
pub trait Layers: Sized {
    /// The grid contents, layer by layer, row by row.
    spec fn view_layers(&self) -> Seq<Seq<Seq<char>>>;

    /// The layout invariant of the implementing storage.
    spec fn wf(&self) -> bool;

    /// A well-formed storage models a well-formed grid.
    proof fn wf_grid(&self)
        requires
            self.wf(),
        ensures
            grid_wf(self.view_layers()),
    ;

    fn layer_count(&self) -> (n: usize)
        requires
            self.wf(),
        ensures
            n == self.view_layers().len(),
    ;

    fn dimensions(&self, layer_index: usize) -> (d: (usize, usize))
        requires
            self.wf(),
            layer_index < self.view_layers().len(),
        ensures
            d.0 == self.view_layers()[layer_index as int].len(),
            d.1 == self.view_layers()[layer_index as int][0].len(),
    ;

    fn at(&self, layer_index: usize, row_index: usize, col_index: usize) -> (v: char)
        requires
            self.wf(),
            in_grid(self.view_layers(), (layer_index as int, row_index as int, col_index as int)),
        ensures
            v == cell(
                self.view_layers(),
                (layer_index as int, row_index as int, col_index as int),
            ),
    ;

    fn update(&mut self, layer_index: usize, row_index: usize, col_index: usize, val: char)
        requires
            old(self).wf(),
            in_grid(
                old(self).view_layers(),
                (layer_index as int, row_index as int, col_index as int),
            ),
        ensures
            final(self).wf(),
            final(self).view_layers() == grid_update(
                old(self).view_layers(),
                (layer_index as int, row_index as int, col_index as int),
                val,
            ),
    ;

    /// Scans layers in order, then rows, then columns, and returns the
    /// first cell holding `val`, or `None` when no cell does.
    fn find(&self, val: char) -> (res: Option<Position>)
        requires
            self.wf(),
        ensures
            match res {
                Option::Some(p) => is_first_match(self.view_layers(), val, p@),
                Option::None => !grid_has(self.view_layers(), val),
            },
    {
        proof {
            self.wf_grid();
        }
        let ghost g = self.view_layers();
        let layer_count = self.layer_count();
        for layer in 0..layer_count
            invariant
                self.wf(),
                grid_wf(g),
                g == self.view_layers(),
                layer_count == g.len(),
                forall|q: (int, int, int)|
                    in_grid(g, q) && q.0 < layer ==> #[trigger] cell(g, q) != val,
        {
            let (row_count, col_count) = self.dimensions(layer);
            for row in 0..row_count
                invariant
                    self.wf(),
                    grid_wf(g),
                    g == self.view_layers(),
                    layer < g.len(),
                    row_count == g[layer as int].len(),
                    col_count == g[layer as int][0].len(),
                    forall|q: (int, int, int)|
                        in_grid(g, q) && q.0 < layer ==> #[trigger] cell(g, q) != val,
                    forall|q: (int, int, int)|
                        in_grid(g, q) && q.0 == layer && q.1 < row ==> #[trigger] cell(g, q)
                            != val,
            {
                for col in 0..col_count
                    invariant
                        self.wf(),
                        grid_wf(g),
                        g == self.view_layers(),
                        layer < g.len(),
                        row < g[layer as int].len(),
                        row_count == g[layer as int].len(),
                        col_count == g[layer as int][0].len(),
                        forall|q: (int, int, int)|
                            in_grid(g, q) && q.0 < layer ==> #[trigger] cell(g, q) != val,
                        forall|q: (int, int, int)|
                            in_grid(g, q) && q.0 == layer && q.1 < row ==> #[trigger] cell(g, q)
                                != val,
                        forall|q: (int, int, int)|
                            in_grid(g, q) && q.0 == layer && q.1 == row && q.2 < col
                                ==> #[trigger] cell(g, q) != val,
                {
                    if self.at(layer, row, col) == val {
                        return Option::Some(Position(layer, row, col));
                    }
                }
            }
        }
        Option::None
    }
}

} // verus!
