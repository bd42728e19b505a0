//! Shape geometry: a piece's footprint is a stack of five square boolean
//! layers (sizes 5, 4, 3, 2, 1), together with the transformations that
//! derive every distinct orientation of a piece from one base shape.

use vstd::prelude::*;

verus! {

/// Number of layers in a shape.
pub const SHAPE_LAYERS: usize = 5;

/// A shape layer stack is five square layers of decreasing size:
/// layer `k` is `(5 - k) x (5 - k)`.
pub open spec fn shape_dims_wf(v: Seq<Seq<Seq<bool>>>) -> bool {
    &&& v.len() == 5
    &&& forall|k: int|
        0 <= k < 5 ==> (#[trigger] v[k]).len() == 5 - k && forall|r: int|
            0 <= r < v[k].len() ==> (#[trigger] v[k][r]).len() == 5 - k
}

/// The cell at address `p` is inside the stack and set. Out-of-range
/// addresses count as unset, so the predicate is total.
pub open spec fn sset(v: Seq<Seq<Seq<bool>>>, p: (int, int, int)) -> bool {
    &&& 0 <= p.0 < v.len()
    &&& 0 <= p.1 < v[p.0].len()
    &&& 0 <= p.2 < v[p.0][p.1].len()
    &&& v[p.0][p.1][p.2]
}

/// At least one cell of the shape is set.
pub open spec fn shape_nonempty(v: Seq<Seq<Seq<bool>>>) -> bool {
    exists|p: (int, int, int)| #[trigger] sset(v, p)
}

/// Some layer has a set cell in row `r`.
pub open spec fn occ_row(v: Seq<Seq<Seq<bool>>>, r: int) -> bool {
    exists|p: (int, int, int)| p.1 == r && #[trigger] sset(v, p)
}

/// Some layer has a set cell in column `c`.
pub open spec fn occ_col(v: Seq<Seq<Seq<bool>>>, c: int) -> bool {
    exists|p: (int, int, int)| p.2 == c && #[trigger] sset(v, p)
}

/// Layer `k` has at least one set cell.
pub open spec fn layer_occ(v: Seq<Seq<Seq<bool>>>, k: int) -> bool {
    exists|p: (int, int, int)| p.0 == k && #[trigger] sset(v, p)
}

/// Index of the first row (over all layers) holding a set cell; 5 when
/// the shape is empty.
pub open spec fn first_occ_row(v: Seq<Seq<Seq<bool>>>) -> int {
    if occ_row(v, 0) {
        0
    } else if occ_row(v, 1) {
        1
    } else if occ_row(v, 2) {
        2
    } else if occ_row(v, 3) {
        3
    } else if occ_row(v, 4) {
        4
    } else {
        5
    }
}

/// Index of the first column (over all layers) holding a set cell; 5 when
/// the shape is empty.
pub open spec fn first_occ_col(v: Seq<Seq<Seq<bool>>>) -> int {
    if occ_col(v, 0) {
        0
    } else if occ_col(v, 1) {
        1
    } else if occ_col(v, 2) {
        2
    } else if occ_col(v, 3) {
        3
    } else if occ_col(v, 4) {
        4
    } else {
        5
    }
}

/// The stack with every cell moved up by `dr` rows and left by `dc`
/// columns; content shifted in from beyond the border is unset.
pub open spec fn translate_spec(v: Seq<Seq<Seq<bool>>>, dr: int, dc: int) -> Seq<Seq<Seq<bool>>> {
    Seq::new(
        v.len(),
        |k: int|
            Seq::new(
                v[k].len(),
                |r: int| Seq::new(v[k][r].len(), |c: int| sset(v, (k, r + dr, c + dc))),
            ),
    )
}

/// The stack rotated 90 degrees clockwise, layer by layer.
pub open spec fn rotate_spec(v: Seq<Seq<Seq<bool>>>) -> Seq<Seq<Seq<bool>>> {
    Seq::new(
        v.len(),
        |k: int|
            Seq::new(
                v[k].len(),
                |r: int| Seq::new(v[k][r].len(), |c: int| sset(v, (k, v[k].len() - 1 - c, r))),
            ),
    )
}

/// The stack transposed, layer by layer.
pub open spec fn reflect_spec(v: Seq<Seq<Seq<bool>>>) -> Seq<Seq<Seq<bool>>> {
    Seq::new(
        v.len(),
        |k: int|
            Seq::new(v[k].len(), |r: int| Seq::new(v[k][r].len(), |c: int| sset(v, (k, c, r)))),
    )
}

/// The all-unset shape stack.
pub open spec fn blank_shape() -> Seq<Seq<Seq<bool>>> {
    Seq::new(5, |k: int| Seq::new((5 - k) as nat, |r: int| Seq::new((5 - k) as nat, |c: int| false)))
}

/// The stack with the cell at `p` replaced by `b`.
pub open spec fn shape_update(v: Seq<Seq<Seq<bool>>>, p: (int, int, int), b: bool) -> Seq<
    Seq<Seq<bool>>,
> {
    v.update(p.0, v[p.0].update(p.1, v[p.0][p.1].update(p.2, b)))
}

/// Updating one cell changes that cell alone.
pub proof fn lemma_shape_update_sset(v: Seq<Seq<Seq<bool>>>, q: (int, int, int), b: bool)
    requires
        shape_dims_wf(v),
        0 <= q.0 < 5,
        0 <= q.1 < 5 - q.0,
        0 <= q.2 < 5 - q.0,
    ensures
        shape_dims_wf(shape_update(v, q, b)),
        forall|p: (int, int, int)| #[trigger]
            sset(shape_update(v, q, b), p) == (if p == q {
                b
            } else {
                sset(v, p)
            }),
{
    let w = shape_update(v, q, b);
    assert forall|p: (int, int, int)| #[trigger]
        sset(w, p) == (if p == q {
            b
        } else {
            sset(v, p)
        }) by {
        if 0 <= p.0 < 5 {
            if p.0 == q.0 {
                assert(w[p.0] == v[p.0].update(q.1, v[q.0][q.1].update(q.2, b)));
                assert(w[p.0].len() == v[p.0].len());
                if 0 <= p.1 < v[p.0].len() {
                    if p.1 == q.1 {
                        assert(w[p.0][p.1] == v[p.0][p.1].update(q.2, b));
                    } else {
                        assert(w[p.0][p.1] == v[p.0][p.1]);
                    }
                }
            } else {
                assert(w[p.0] == v[p.0]);
            }
        }
    }
    assert(shape_dims_wf(w));
}


/// The translated stack, described cell by cell.
pub proof fn lemma_translate_sset(v: Seq<Seq<Seq<bool>>>, a: int, b: int)
    requires
        shape_dims_wf(v),
        a >= 0,
        b >= 0,
    ensures
        shape_dims_wf(translate_spec(v, a, b)),
        forall|p: (int, int, int)| #[trigger]
            sset(translate_spec(v, a, b), p) == (0 <= p.0 < 5 && 0 <= p.1 < 5 - p.0 && 0 <= p.2 < 5
                - p.0 && sset(v, (p.0, p.1 + a, p.2 + b))),
{
    let w = translate_spec(v, a, b);
    assert forall|p: (int, int, int)| #[trigger]
        sset(w, p) == (0 <= p.0 < 5 && 0 <= p.1 < 5 - p.0 && 0 <= p.2 < 5 - p.0 && sset(
            v,
            (p.0, p.1 + a, p.2 + b),
        )) by {
        if 0 <= p.0 < 5 && 0 <= p.1 < 5 - p.0 && 0 <= p.2 < 5 - p.0 {
            assert(w[p.0].len() == v[p.0].len());
            assert(w[p.0][p.1].len() == v[p.0][p.1].len());
            assert(w[p.0][p.1][p.2] == sset(v, (p.0, p.1 + a, p.2 + b)));
        }
    }
}

/// Translating twice is translating once by the combined amounts.
pub proof fn lemma_translate_compose(v: Seq<Seq<Seq<bool>>>, a: int, b: int, c: int, d: int)
    requires
        shape_dims_wf(v),
        a >= 0,
        b >= 0,
        c >= 0,
        d >= 0,
    ensures
        translate_spec(translate_spec(v, a, b), c, d) == translate_spec(v, a + c, b + d),
{
    lemma_translate_sset(v, a, b);
    lemma_translate_sset(translate_spec(v, a, b), c, d);
    lemma_translate_sset(v, a + c, b + d);
    let w1 = translate_spec(translate_spec(v, a, b), c, d);
    let w2 = translate_spec(v, a + c, b + d);
    assert forall|k: int, r: int, cc: int|
        0 <= k < 5 && 0 <= r < 5 - k && 0 <= cc < 5 - k implies w1[k][r][cc] == w2[k][r][cc] by {
        assert(sset(w1, (k, r, cc)) == sset(w2, (k, r, cc)));
    }
    assert(w1 =~~= w2);
}

/// Translating by zero changes nothing.
pub proof fn lemma_translate_zero(v: Seq<Seq<Seq<bool>>>)
    requires
        shape_dims_wf(v),
    ensures
        translate_spec(v, 0, 0) == v,
{
    lemma_translate_sset(v, 0, 0);
    let w = translate_spec(v, 0, 0);
    assert forall|k: int, r: int, cc: int|
        0 <= k < 5 && 0 <= r < 5 - k && 0 <= cc < 5 - k implies w[k][r][cc] == v[k][r][cc] by {
        assert(sset(w, (k, r, cc)) == sset(v, (k, r, cc)));
    }
    assert(w =~~= v);
}

/// Rows before the first occupied row are empty, and when the shape is
/// non-empty the first occupied row exists and is at most 4.
pub proof fn lemma_first_row_facts(v: Seq<Seq<Seq<bool>>>)
    requires
        shape_dims_wf(v),
    ensures
        forall|j: int| 0 <= j < first_occ_row(v) ==> !#[trigger] occ_row(v, j),
        shape_nonempty(v) ==> 0 <= first_occ_row(v) <= 4 && occ_row(v, first_occ_row(v)),
{
    if shape_nonempty(v) {
        let p = choose|p: (int, int, int)| #[trigger] sset(v, p);
        assert(occ_row(v, p.1));
        assert(0 <= p.1 <= 4);
    }
}

/// Columns before the first occupied column are empty, and when the shape
/// is non-empty the first occupied column exists and is at most 4.
pub proof fn lemma_first_col_facts(v: Seq<Seq<Seq<bool>>>)
    requires
        shape_dims_wf(v),
    ensures
        forall|j: int| 0 <= j < first_occ_col(v) ==> !#[trigger] occ_col(v, j),
        shape_nonempty(v) ==> 0 <= first_occ_col(v) <= 4 && occ_col(v, first_occ_col(v)),
{
    if shape_nonempty(v) {
        let p = choose|p: (int, int, int)| #[trigger] sset(v, p);
        assert(occ_col(v, p.2));
        assert(0 <= p.2 <= 4);
    }
}

/// Storage for a shape's five boolean layers.
pub struct ShapeLayers {
    cells: Vec<Vec<Vec<bool>>>,
}

impl View for ShapeLayers {
    type V = Seq<Seq<Seq<bool>>>;

    closed spec fn view(&self) -> Seq<Seq<Seq<bool>>> {
        self.cells.deep_view()
    }
}

impl ShapeLayers {
    pub open spec fn wf(&self) -> bool {
        shape_dims_wf(self@)
    }

    /// A stack with every cell unset.
    pub fn new_empty() -> (s: ShapeLayers)
        ensures
            s.wf(),
            s@ == blank_shape(),
    {
        let mut cells: Vec<Vec<Vec<bool>>> = Vec::new();
        for k in 0..5usize
            invariant
                cells@.len() == k,
                forall|k2: int| 0 <= k2 < k ==> (#[trigger] cells@[k2])@.len() == 5 - k2,
                forall|k2: int, r2: int|
                    0 <= k2 < k && 0 <= r2 < 5 - k2 ==> (#[trigger] cells@[k2]@[r2])@.len() == 5
                        - k2,
                forall|k2: int, r2: int, c2: int|
                    0 <= k2 < k && 0 <= r2 < 5 - k2 && 0 <= c2 < 5 - k2 ==> (#[trigger] cells@[k2]@[r2]@[c2]) == false,
        {
            let size = 5 - k;
            let mut layer: Vec<Vec<bool>> = Vec::new();
            for r in 0..size
                invariant
                    size == 5 - k,
                    k < 5,
                    layer@.len() == r,
                    forall|r2: int| 0 <= r2 < r ==> (#[trigger] layer@[r2])@.len() == size,
                    forall|r2: int, c2: int|
                        0 <= r2 < r && 0 <= c2 < size ==> (#[trigger] layer@[r2]@[c2]) == false,
            {
                let mut row: Vec<bool> = Vec::new();
                for c in 0..size
                    invariant
                        size == 5 - k,
                        k < 5,
                        r < size,
                        row@.len() == c,
                        forall|c2: int| 0 <= c2 < c ==> #[trigger] row@[c2] == false,
                {
                    row.push(false);
                }
                layer.push(row);
            }
            cells.push(layer);
        }
        let s = ShapeLayers { cells };
        proof {
            assert forall|k2: int| 0 <= k2 < 5 implies s@[k2] =~= blank_shape()[k2] by {
                assert(s@[k2] == s.cells@[k2].deep_view());
                assert forall|r2: int| 0 <= r2 < 5 - k2 implies s@[k2][r2] =~= blank_shape()[k2][r2] by {
                    assert(s@[k2][r2] == s.cells@[k2]@[r2]@);
                }
            }
            assert(s@ =~= blank_shape());
        }
        s
    }

    pub fn dimensions(&self, layer_index: usize) -> (d: (usize, usize))
        requires
            self.wf(),
            layer_index < 5,
        ensures
            d.0 == 5 - layer_index,
            d.1 == 5 - layer_index,
    {
        let size = 5 - layer_index;
        (size, size)
    }

    pub fn at(&self, layer_index: usize, row_index: usize, col_index: usize) -> (b: bool)
        requires
            self.wf(),
            layer_index < 5,
            row_index < 5 - layer_index,
            col_index < 5 - layer_index,
        ensures
            b == sset(self@, (layer_index as int, row_index as int, col_index as int)),
    {
        proof {
            assert(self.cells@.len() == self@.len());
            assert(self@[layer_index as int] == self.cells@[layer_index as int].deep_view());
            assert(self@[layer_index as int][row_index as int] == self.cells@[layer_index as int]@[row_index as int]@);
        }
        self.cells[layer_index][row_index][col_index]
    }

    pub fn update(&mut self, layer_index: usize, row_index: usize, col_index: usize, b: bool)
        requires
            old(self).wf(),
            layer_index < 5,
            row_index < 5 - layer_index,
            col_index < 5 - layer_index,
        ensures
            final(self).wf(),
            final(self)@ == shape_update(
                old(self)@,
                (layer_index as int, row_index as int, col_index as int),
                b,
            ),
    {
        proof {
            assert(self.cells@.len() == self@.len());
            assert(self@[layer_index as int] == self.cells@[layer_index as int].deep_view());
            assert(self@[layer_index as int][row_index as int] == self.cells@[layer_index as int]@[row_index as int]@);
        }
        let layer: &mut Vec<Vec<bool>> = &mut self.cells[layer_index];
        let row: &mut Vec<bool> = &mut layer[row_index];
        row[col_index] = b;
        proof {
            assert(self@ =~~= shape_update(
                old(self)@,
                (layer_index as int, row_index as int, col_index as int),
                b,
            ));
        }
    }

    /// A fresh stack holding the same cells.
    pub fn copy_of(&self) -> (s: ShapeLayers)
        requires
            self.wf(),
        ensures
            s.wf(),
            s@ == self@,
    {
        let mut dest = ShapeLayers::new_empty();
        for k in 0..5usize
            invariant
                self.wf(),
                dest.wf(),
                forall|p: (int, int, int)|
                    p.0 < k ==> (#[trigger] sset(dest@, p) == sset(self@, p)),
        {
            let size = 5 - k;
            for r in 0..size
                invariant
                    self.wf(),
                    dest.wf(),
                    size == 5 - k,
                    k < 5,
                    forall|p: (int, int, int)|
                        p.0 < k ==> (#[trigger] sset(dest@, p) == sset(self@, p)),
                    forall|p: (int, int, int)|
                        p.0 == k && p.1 < r ==> (#[trigger] sset(dest@, p) == sset(self@, p)),
            {
                for c in 0..size
                    invariant
                        self.wf(),
                        dest.wf(),
                        size == 5 - k,
                        k < 5,
                        r < size,
                        forall|p: (int, int, int)|
                            p.0 < k ==> (#[trigger] sset(dest@, p) == sset(self@, p)),
                        forall|p: (int, int, int)|
                            p.0 == k && p.1 < r ==> (#[trigger] sset(dest@, p) == sset(self@, p)),
                        forall|p: (int, int, int)|
                            p.0 == k && p.1 == r && p.2 < c ==> (#[trigger] sset(dest@, p) == sset(
                                self@,
                                p,
                            )),
                {
                    let b = self.at(k, r, c);
                    let ghost pre = dest@;
                    dest.update(k, r, c, b);
                    proof {
                        lemma_shape_update_sset(pre, (k as int, r as int, c as int), b);
                    }
                }
            }
        }
        proof {
            assert forall|k: int, r: int, c: int|
                0 <= k < 5 && 0 <= r < 5 - k && 0 <= c < 5 - k implies dest@[k][r][c] == self@[k][r][c] by {
                assert(sset(dest@, (k, r, c)) == sset(self@, (k, r, c)));
            }
            assert(dest@ =~~= self@);
        }
        dest
    }
}

/// A piece footprint: five boolean layers plus a flag marking shapes that
/// occupy more than one layer.
pub struct Shape {
    pub layers: ShapeLayers,
    pub is_3d: bool,
}

impl View for Shape {
    type V = Seq<Seq<Seq<bool>>>;

    open spec fn view(&self) -> Seq<Seq<Seq<bool>>> {
        self.layers@
    }
}

impl Shape {
    pub open spec fn wf(&self) -> bool {
        shape_dims_wf(self@)
    }

    /// The cell at the given layer, row, and column is part of the shape.
    pub fn is_set(&self, layer: usize, row: usize, col: usize) -> (b: bool)
        requires
            self.wf(),
            layer < 5,
            row < 5 - layer,
            col < 5 - layer,
        ensures
            b == sset(self@, (layer as int, row as int, col as int)),
    {
        self.layers.at(layer, row, col)
    }

    pub fn dimensions(&self, layer: usize) -> (d: (usize, usize))
        requires
            self.wf(),
            layer < 5,
        ensures
            d.0 == 5 - layer,
            d.1 == 5 - layer,
    {
        self.layers.dimensions(layer)
    }

    pub fn layer_count(&self) -> (n: usize)
        ensures
            n == 5,
    {
        SHAPE_LAYERS
    }

    /// A fresh shape holding the same cells and flag.
    pub fn duplicate(&self) -> (s: Shape)
        requires
            self.wf(),
        ensures
            s.wf(),
            s@ == self@,
            s.is_3d == self.is_3d,
    {
        Shape { layers: self.layers.copy_of(), is_3d: self.is_3d }
    }

    /// Creates a new shape that has been rotated 90 degrees clockwise.
    pub fn rotate(&self) -> (s: Shape)
        requires
            self.wf(),
        ensures
            s.wf(),
            s@ == rotate_spec(self@),
            s.is_3d == self.is_3d,
    {
        let mut dest = ShapeLayers::new_empty();
        let ghost target = rotate_spec(self@);
        proof {
            assert(shape_dims_wf(target));
        }
        for k in 0..5usize
            invariant
                self.wf(),
                dest.wf(),
                target == rotate_spec(self@),
                shape_dims_wf(target),
                forall|p: (int, int, int)|
                    p.0 < k ==> (#[trigger] sset(dest@, p) == sset(target, p)),
        {
            let size = 5 - k;
            for r in 0..size
                invariant
                    self.wf(),
                    dest.wf(),
                    target == rotate_spec(self@),
                    shape_dims_wf(target),
                    size == 5 - k,
                    k < 5,
                    forall|p: (int, int, int)|
                        p.0 < k ==> (#[trigger] sset(dest@, p) == sset(target, p)),
                    forall|p: (int, int, int)|
                        p.0 == k && p.1 < r ==> (#[trigger] sset(dest@, p) == sset(target, p)),
            {
                for c in 0..size
                    invariant
                        self.wf(),
                        dest.wf(),
                        target == rotate_spec(self@),
                        shape_dims_wf(target),
                        size == 5 - k,
                        k < 5,
                        r < size,
                        forall|p: (int, int, int)|
                            p.0 < k ==> (#[trigger] sset(dest@, p) == sset(target, p)),
                        forall|p: (int, int, int)|
                            p.0 == k && p.1 < r ==> (#[trigger] sset(dest@, p) == sset(target, p)),
                        forall|p: (int, int, int)|
                            p.0 == k && p.1 == r && p.2 < c ==> (#[trigger] sset(dest@, p) == sset(
                                target,
                                p,
                            )),
                {
                    let b = self.layers.at(k, size - 1 - c, r);
                    let ghost pre = dest@;
                    dest.update(k, r, c, b);
                    proof {
                        lemma_shape_update_sset(pre, (k as int, r as int, c as int), b);
                        assert(sset(dest@, (k as int, r as int, c as int)) == sset(
                            target,
                            (k as int, r as int, c as int),
                        ));
                    }
                }
            }
        }
        proof {
            assert forall|k: int, r: int, c: int|
                0 <= k < 5 && 0 <= r < 5 - k && 0 <= c < 5 - k implies dest@[k][r][c] == target[k][r][c] by {
                assert(sset(dest@, (k, r, c)) == sset(target, (k, r, c)));
            }
            assert(dest@ =~~= target);
        }
        Shape { layers: dest, is_3d: self.is_3d }
    }

    /// Creates a new shape that is the mirror image (transpose) of the shape.
    pub fn reflect(&self) -> (s: Shape)
        requires
            self.wf(),
        ensures
            s.wf(),
            s@ == reflect_spec(self@),
            s.is_3d == self.is_3d,
    {
        let mut dest = ShapeLayers::new_empty();
        let ghost target = reflect_spec(self@);
        proof {
            assert(shape_dims_wf(target));
        }
        for k in 0..5usize
            invariant
                self.wf(),
                dest.wf(),
                target == reflect_spec(self@),
                shape_dims_wf(target),
                forall|p: (int, int, int)|
                    p.0 < k ==> (#[trigger] sset(dest@, p) == sset(target, p)),
        {
            let size = 5 - k;
            for r in 0..size
                invariant
                    self.wf(),
                    dest.wf(),
                    target == reflect_spec(self@),
                    shape_dims_wf(target),
                    size == 5 - k,
                    k < 5,
                    forall|p: (int, int, int)|
                        p.0 < k ==> (#[trigger] sset(dest@, p) == sset(target, p)),
                    forall|p: (int, int, int)|
                        p.0 == k && p.1 < r ==> (#[trigger] sset(dest@, p) == sset(target, p)),
            {
                for c in 0..size
                    invariant
                        self.wf(),
                        dest.wf(),
                        target == reflect_spec(self@),
                        shape_dims_wf(target),
                        size == 5 - k,
                        k < 5,
                        r < size,
                        forall|p: (int, int, int)|
                            p.0 < k ==> (#[trigger] sset(dest@, p) == sset(target, p)),
                        forall|p: (int, int, int)|
                            p.0 == k && p.1 < r ==> (#[trigger] sset(dest@, p) == sset(target, p)),
                        forall|p: (int, int, int)|
                            p.0 == k && p.1 == r && p.2 < c ==> (#[trigger] sset(dest@, p) == sset(
                                target,
                                p,
                            )),
                {
                    let b = self.layers.at(k, c, r);
                    let ghost pre = dest@;
                    dest.update(k, r, c, b);
                    proof {
                        lemma_shape_update_sset(pre, (k as int, r as int, c as int), b);
                        assert(sset(dest@, (k as int, r as int, c as int)) == sset(
                            target,
                            (k as int, r as int, c as int),
                        ));
                    }
                }
            }
        }
        proof {
            assert forall|k: int, r: int, c: int|
                0 <= k < 5 && 0 <= r < 5 - k && 0 <= c < 5 - k implies dest@[k][r][c] == target[k][r][c] by {
                assert(sset(dest@, (k, r, c)) == sset(target, (k, r, c)));
            }
            assert(dest@ =~~= target);
        }
        Shape { layers: dest, is_3d: self.is_3d }
    }
}

/// True when row 0 of every layer is entirely unset.
fn top_row_empty(s: &ShapeLayers) -> (b: bool)
    requires
        s.wf(),
    ensures
        b == !occ_row(s@, 0),
{
    for k in 0..5usize
        invariant
            s.wf(),
            forall|p: (int, int, int)| p.0 < k && p.1 == 0 ==> !#[trigger] sset(s@, p),
    {
        let size = 5 - k;
        for c in 0..size
            invariant
                s.wf(),
                size == 5 - k,
                k < 5,
                forall|p: (int, int, int)| p.0 < k && p.1 == 0 ==> !#[trigger] sset(s@, p),
                forall|p: (int, int, int)|
                    p.0 == k && p.1 == 0 && p.2 < c ==> !#[trigger] sset(s@, p),
        {
            if s.at(k, 0, c) {
                assert(occ_row(s@, 0)) by {
                    assert(sset(s@, (k as int, 0, c as int)));
                }
                return false;
            }
        }
    }
    assert(!occ_row(s@, 0)) by {
        assert forall|p: (int, int, int)| p.1 == 0 implies !sset(s@, p) by {
            if 0 <= p.0 < 5 && 0 <= p.2 < 5 - p.0 {
                assert(!sset(s@, p));
            }
        }
    }
    true
}

/// True when column 0 of every layer is entirely unset.
fn left_col_empty(s: &ShapeLayers) -> (b: bool)
    requires
        s.wf(),
    ensures
        b == !occ_col(s@, 0),
{
    for k in 0..5usize
        invariant
            s.wf(),
            forall|p: (int, int, int)| p.0 < k && p.2 == 0 ==> !#[trigger] sset(s@, p),
    {
        let size = 5 - k;
        for r in 0..size
            invariant
                s.wf(),
                size == 5 - k,
                k < 5,
                forall|p: (int, int, int)| p.0 < k && p.2 == 0 ==> !#[trigger] sset(s@, p),
            forall|p: (int, int, int)|
                    p.0 == k && p.2 == 0 && p.1 < r ==> !#[trigger] sset(s@, p),
        {
            if s.at(k, r, 0) {
                assert(occ_col(s@, 0)) by {
                    assert(sset(s@, (k as int, r as int, 0)));
                }
                return false;
            }
        }
    }
    assert(!occ_col(s@, 0)) by {
        assert forall|p: (int, int, int)| p.2 == 0 implies !sset(s@, p) by {
            if 0 <= p.0 < 5 && 0 <= p.1 < 5 - p.0 {
                assert(!sset(s@, p));
            }
        }
    }
    true
}

/// The stack shifted one row up; the bottom row of each layer becomes
/// unset.
fn shift_up(s: &ShapeLayers) -> (t: ShapeLayers)
    requires
        s.wf(),
    ensures
        t.wf(),
        t@ == translate_spec(s@, 1, 0),
{
    let ghost target = translate_spec(s@, 1, 0);
    proof {
        lemma_translate_sset(s@, 1, 0);
    }
    let mut dest = ShapeLayers::new_empty();
    for k in 0..5usize
        invariant
            s.wf(),
            dest.wf(),
            target == translate_spec(s@, 1, 0),
            shape_dims_wf(target),
            forall|p: (int, int, int)| #[trigger]
                sset(translate_spec(s@, 1, 0), p) == (0 <= p.0 < 5 && 0 <= p.1 < 5 - p.0 && 0
                    <= p.2 < 5 - p.0 && sset(s@, (p.0, p.1 + 1, p.2))),
            forall|p: (int, int, int)| p.0 < k ==> (#[trigger] sset(dest@, p) == sset(target, p)),
    {
        let size = 5 - k;
        for r in 0..size
            invariant
                s.wf(),
                dest.wf(),
                target == translate_spec(s@, 1, 0),
                shape_dims_wf(target),
                size == 5 - k,
                k < 5,
                forall|p: (int, int, int)| #[trigger]
                    sset(translate_spec(s@, 1, 0), p) == (0 <= p.0 < 5 && 0 <= p.1 < 5 - p.0 && 0
                        <= p.2 < 5 - p.0 && sset(s@, (p.0, p.1 + 1, p.2))),
                forall|p: (int, int, int)|
                    p.0 < k ==> (#[trigger] sset(dest@, p) == sset(target, p)),
                forall|p: (int, int, int)|
                    p.0 == k && p.1 < r ==> (#[trigger] sset(dest@, p) == sset(target, p)),
        {
            for c in 0..size
                invariant
                    s.wf(),
                    dest.wf(),
                    target == translate_spec(s@, 1, 0),
                    shape_dims_wf(target),
                    size == 5 - k,
                    k < 5,
                    r < size,
                    forall|p: (int, int, int)| #[trigger]
                        sset(translate_spec(s@, 1, 0), p) == (0 <= p.0 < 5 && 0 <= p.1 < 5 - p.0
                            && 0 <= p.2 < 5 - p.0 && sset(s@, (p.0, p.1 + 1, p.2))),
                    forall|p: (int, int, int)|
                        p.0 < k ==> (#[trigger] sset(dest@, p) == sset(target, p)),
                    forall|p: (int, int, int)|
                        p.0 == k && p.1 < r ==> (#[trigger] sset(dest@, p) == sset(target, p)),
                    forall|p: (int, int, int)|
                        p.0 == k && p.1 == r && p.2 < c ==> (#[trigger] sset(dest@, p) == sset(
                            target,
                            p,
                        )),
            {
                let b = if r + 1 < size {
                    s.at(k, r + 1, c)
                } else {
                    false
                };
                let ghost pre = dest@;
                dest.update(k, r, c, b);
                proof {
                    lemma_shape_update_sset(pre, (k as int, r as int, c as int), b);
                    assert(sset(dest@, (k as int, r as int, c as int)) == sset(
                        target,
                        (k as int, r as int, c as int),
                    ));
                }
            }
        }
    }
    proof {
        assert forall|k: int, r: int, c: int|
            0 <= k < 5 && 0 <= r < 5 - k && 0 <= c < 5 - k implies dest@[k][r][c] == target[k][r][c] by {
            assert(sset(dest@, (k, r, c)) == sset(target, (k, r, c)));
        }
        assert(dest@ =~~= target);
    }
    dest
}

/// The stack shifted one column left; the rightmost column of each layer
/// becomes unset.
fn shift_left(s: &ShapeLayers) -> (t: ShapeLayers)
    requires
        s.wf(),
    ensures
        t.wf(),
        t@ == translate_spec(s@, 0, 1),
{
    let ghost target = translate_spec(s@, 0, 1);
    proof {
        lemma_translate_sset(s@, 0, 1);
    }
    let mut dest = ShapeLayers::new_empty();
    for k in 0..5usize
        invariant
            s.wf(),
            dest.wf(),
            target == translate_spec(s@, 0, 1),
            shape_dims_wf(target),
            forall|p: (int, int, int)| #[trigger]
                sset(translate_spec(s@, 0, 1), p) == (0 <= p.0 < 5 && 0 <= p.1 < 5 - p.0 && 0
                    <= p.2 < 5 - p.0 && sset(s@, (p.0, p.1, p.2 + 1))),
            forall|p: (int, int, int)| p.0 < k ==> (#[trigger] sset(dest@, p) == sset(target, p)),
    {
        let size = 5 - k;
        for r in 0..size
            invariant
                s.wf(),
                dest.wf(),
                target == translate_spec(s@, 0, 1),
                shape_dims_wf(target),
                size == 5 - k,
                k < 5,
                forall|p: (int, int, int)| #[trigger]
                    sset(translate_spec(s@, 0, 1), p) == (0 <= p.0 < 5 && 0 <= p.1 < 5 - p.0 && 0
                        <= p.2 < 5 - p.0 && sset(s@, (p.0, p.1, p.2 + 1))),
                forall|p: (int, int, int)|
                    p.0 < k ==> (#[trigger] sset(dest@, p) == sset(target, p)),
                forall|p: (int, int, int)|
                    p.0 == k && p.1 < r ==> (#[trigger] sset(dest@, p) == sset(target, p)),
        {
            for c in 0..size
                invariant
                    s.wf(),
                    dest.wf(),
                    target == translate_spec(s@, 0, 1),
                    shape_dims_wf(target),
                    size == 5 - k,
                    k < 5,
                    r < size,
                    forall|p: (int, int, int)| #[trigger]
                        sset(translate_spec(s@, 0, 1), p) == (0 <= p.0 < 5 && 0 <= p.1 < 5 - p.0
                            && 0 <= p.2 < 5 - p.0 && sset(s@, (p.0, p.1, p.2 + 1))),
                    forall|p: (int, int, int)|
                        p.0 < k ==> (#[trigger] sset(dest@, p) == sset(target, p)),
                    forall|p: (int, int, int)|
                        p.0 == k && p.1 < r ==> (#[trigger] sset(dest@, p) == sset(target, p)),
                    forall|p: (int, int, int)|
                        p.0 == k && p.1 == r && p.2 < c ==> (#[trigger] sset(dest@, p) == sset(
                            target,
                            p,
                        )),
            {
                let b = if c + 1 < size {
                    s.at(k, r, c + 1)
                } else {
                    false
                };
                let ghost pre = dest@;
                dest.update(k, r, c, b);
                proof {
                    lemma_shape_update_sset(pre, (k as int, r as int, c as int), b);
                    assert(sset(dest@, (k as int, r as int, c as int)) == sset(
                        target,
                        (k as int, r as int, c as int),
                    ));
                }
            }
        }
    }
    proof {
        assert forall|k: int, r: int, c: int|
            0 <= k < 5 && 0 <= r < 5 - k && 0 <= c < 5 - k implies dest@[k][r][c] == target[k][r][c] by {
            assert(sset(dest@, (k, r, c)) == sset(target, (k, r, c)));
        }
        assert(dest@ =~~= target);
    }
    dest
}

impl Shape {
    /// Creates a new shape shifted to the top left: the whole multi-layer
    /// shape is moved up until some layer's top row is occupied, then left
    /// until some layer's leftmost column is occupied.
    pub fn snap_to_top_left(&self) -> (s: Shape)
        requires
            self.wf(),
            shape_nonempty(self@),
        ensures
            s.wf(),
            s.is_3d == self.is_3d,
            s@ == translate_spec(self@, first_occ_row(self@), first_occ_col(self@)),
            shape_nonempty(s@),
            occ_row(s@, 0),
            occ_col(s@, 0),
    {
        let ghost v = self@;
        let ghost fr = first_occ_row(v);
        let ghost fc = first_occ_col(v);
        proof {
            lemma_first_row_facts(v);
            lemma_first_col_facts(v);
        }
        let mut cur = self.layers.copy_of();
        let ghost mut dr: int = 0;
        proof {
            lemma_translate_zero(v);
        }
        loop
            invariant_except_break
                shape_dims_wf(v),
                shape_nonempty(v),
                fr == first_occ_row(v),
                0 <= fr <= 4,
                0 <= dr <= fr,
                cur.wf(),
                cur@ == translate_spec(v, dr, 0),
                forall|j: int| 0 <= j < fr ==> !#[trigger] occ_row(v, j),
            ensures
                shape_dims_wf(v),
                cur.wf(),
                cur@ == translate_spec(v, fr, 0),
            decreases fr - dr,
        {
            proof {
                lemma_translate_sset(v, dr, 0);
            }
            if !top_row_empty(&cur) {
                proof {
                    // the top row is occupied, so row dr of the original is
                    // occupied, which makes dr the first occupied row
                    let p = choose|p: (int, int, int)| p.1 == 0 && #[trigger] sset(cur@, p);
                    assert(sset(v, (p.0, dr, p.2)));
                    assert(occ_row(v, dr));
                    assert(dr == fr);
                }
                break;
            }
            proof {
                // the top row is empty, so row dr of the original is empty
                // and the first occupied row lies further down
                assert forall|q: (int, int, int)| q.1 == dr implies !sset(v, q) by {
                    if sset(v, q) {
                        assert(0 <= q.0 < 5 && 0 <= q.2 < 5 - q.0);
                        assert(sset(cur@, (q.0, 0, q.2)));
                        assert(occ_row(cur@, 0));
                    }
                }
                assert(!occ_row(v, dr));
                assert(dr < fr) by {
                    if dr == fr {
                        assert(occ_row(v, fr));
                    }
                }
            }
            cur = shift_up(&cur);
            proof {
                lemma_translate_compose(v, dr, 0, 1, 0);
                dr = dr + 1;
            }
        }
        let ghost mut dc: int = 0;
        loop
            invariant_except_break
                shape_dims_wf(v),
                shape_nonempty(v),
                fr == first_occ_row(v),
                fc == first_occ_col(v),
                0 <= fr <= 4,
                0 <= fc <= 4,
                0 <= dc <= fc,
                cur.wf(),
                cur@ == translate_spec(v, fr, dc),
                forall|j: int| 0 <= j < fr ==> !#[trigger] occ_row(v, j),
                forall|j: int| 0 <= j < fc ==> !#[trigger] occ_col(v, j),
            ensures
                shape_dims_wf(v),
                cur.wf(),
                cur@ == translate_spec(v, fr, fc),
            decreases fc - dc,
        {
            proof {
                lemma_translate_sset(v, fr, dc);
            }
            if !left_col_empty(&cur) {
                proof {
                    let p = choose|p: (int, int, int)| p.2 == 0 && #[trigger] sset(cur@, p);
                    assert(sset(v, (p.0, p.1 + fr, dc)));
                    assert(occ_col(v, dc));
                    assert(dc == fc);
                }
                break;
            }
            proof {
                // column dc of the original is empty: any set cell there
                // would appear in column 0 here, because every set cell
                // lies at or below row fr
                assert forall|q: (int, int, int)| q.2 == dc implies !sset(v, q) by {
                    if sset(v, q) {
                        assert(0 <= q.0 < 5 && 0 <= q.1 < 5 - q.0);
                        assert(q.1 >= fr) by {
                            if q.1 < fr {
                                assert(occ_row(v, q.1));
                            }
                        }
                        assert(sset(cur@, (q.0, q.1 - fr, 0)));
                        assert(occ_col(cur@, 0));
                    }
                }
                assert(!occ_col(v, dc));
                assert(dc < fc) by {
                    if dc == fc {
                        assert(occ_col(v, fc));
                    }
                }
            }
            cur = shift_left(&cur);
            proof {
                lemma_translate_compose(v, fr, dc, 0, 1);
                dc = dc + 1;
            }
        }
        proof {
            lemma_translate_sset(v, fr, fc);
            // the first occupied row keeps a cell at or right of the first
            // occupied column, which lands on row 0 of the result
            let p = choose|p: (int, int, int)| p.1 == fr && #[trigger] sset(v, p);
            assert(p.2 >= fc) by {
                if p.2 < fc {
                    assert(occ_col(v, p.2));
                }
            }
            assert(sset(cur@, (p.0, 0, p.2 - fc)));
            assert(occ_row(cur@, 0));
            let q = choose|q: (int, int, int)| q.2 == fc && #[trigger] sset(v, q);
            assert(q.1 >= fr) by {
                if q.1 < fr {
                    assert(occ_row(v, q.1));
                }
            }
            assert(sset(cur@, (q.0, q.1 - fr, 0)));
            assert(occ_col(cur@, 0));
            assert(shape_nonempty(cur@));
        }
        Shape { layers: cur, is_3d: self.is_3d }
    }
}

/// The cell at (r, c) of a single layer is inside the layer and set.
pub open spec fn lset(l: Seq<Seq<bool>>, r: int, c: int) -> bool {
    &&& 0 <= r < l.len()
    &&& 0 <= c < l[r].len()
    &&& l[r][c]
}

/// Some cell of the base layer sits just right of the main diagonal, on
/// one of the probed positions.
pub open spec fn superdiag(l: Seq<Seq<bool>>) -> bool {
    ||| lset(l, 0, 1)
    ||| lset(l, 1, 2)
    ||| lset(l, 2, 3)
    ||| lset(l, 3, 4)
}

/// The base layer shifted one row down, the bottom row wrapping to the top.
pub open spec fn down1(l: Seq<Seq<bool>>) -> Seq<Seq<bool>> {
    Seq::new(
        l.len(),
        |r: int|
            if r == 0 {
                l[l.len() - 1]
            } else {
                l[r - 1]
            },
    )
}

/// The base layer shifted down until no probed cell lies right of the
/// main diagonal, but at most `budget` times.
pub open spec fn down_steps(l: Seq<Seq<bool>>, budget: nat) -> Seq<Seq<bool>>
    decreases budget,
{
    if budget == 0 || !superdiag(l) {
        l
    } else {
        down_steps(down1(l), (budget - 1) as nat)
    }
}

/// The base layer folded up to the north-east: the cell at (r, c) with
/// r >= c rises to layer (r - c), diagonal position c; cells right of the
/// main diagonal are discarded.
pub open spec fn erected_from(l0: Seq<Seq<bool>>) -> Seq<Seq<Seq<bool>>> {
    Seq::new(
        5,
        |k: int|
            Seq::new(
                (5 - k) as nat,
                |t: int|
                    Seq::new(
                        (5 - k) as nat,
                        |u: int|
                            if t == u {
                                lset(l0, k + t, t)
                            } else {
                                false
                            },
                    ),
            ),
    )
}

/// The whole erection pipeline applied to a flat shape: snap to the top
/// left, drift down until clear of the probed superdiagonal (with a fixed
/// drift budget), then fold along the diagonals.
pub open spec fn erect_spec(v: Seq<Seq<Seq<bool>>>) -> Seq<Seq<Seq<bool>>> {
    erected_from(down_steps(translate_spec(v, first_occ_row(v), first_occ_col(v))[0], 20))
}

/// The rotated stack, described cell by cell; rotation keeps a shape
/// non-empty.
pub proof fn lemma_rotate_sset(v: Seq<Seq<Seq<bool>>>)
    requires
        shape_dims_wf(v),
    ensures
        shape_dims_wf(rotate_spec(v)),
        forall|p: (int, int, int)| #[trigger]
            sset(rotate_spec(v), p) == (0 <= p.0 < 5 && 0 <= p.1 < 5 - p.0 && 0 <= p.2 < 5 - p.0
                && sset(v, (p.0, 5 - p.0 - 1 - p.2, p.1))),
        shape_nonempty(rotate_spec(v)) == shape_nonempty(v),
{
    let w = rotate_spec(v);
    assert forall|p: (int, int, int)| #[trigger]
        sset(w, p) == (0 <= p.0 < 5 && 0 <= p.1 < 5 - p.0 && 0 <= p.2 < 5 - p.0 && sset(
            v,
            (p.0, 5 - p.0 - 1 - p.2, p.1),
        )) by {
        if 0 <= p.0 < 5 && 0 <= p.1 < 5 - p.0 && 0 <= p.2 < 5 - p.0 {
            assert(w[p.0].len() == v[p.0].len());
            assert(w[p.0][p.1].len() == v[p.0][p.1].len());
            assert(w[p.0][p.1][p.2] == sset(v, (p.0, v[p.0].len() - 1 - p.2, p.1)));
        }
    }
    if shape_nonempty(v) {
        let q = choose|q: (int, int, int)| #[trigger] sset(v, q);
        assert(sset(w, (q.0, q.2, 5 - q.0 - 1 - q.1)));
    }
    if shape_nonempty(w) {
        let p = choose|p: (int, int, int)| #[trigger] sset(w, p);
        assert(sset(v, (p.0, 5 - p.0 - 1 - p.2, p.1)));
    }
}

/// The reflected stack, described cell by cell; reflection keeps a shape
/// non-empty.
pub proof fn lemma_reflect_sset(v: Seq<Seq<Seq<bool>>>)
    requires
        shape_dims_wf(v),
    ensures
        shape_dims_wf(reflect_spec(v)),
        forall|p: (int, int, int)| #[trigger]
            sset(reflect_spec(v), p) == (0 <= p.0 < 5 && 0 <= p.1 < 5 - p.0 && 0 <= p.2 < 5 - p.0
                && sset(v, (p.0, p.2, p.1))),
        shape_nonempty(reflect_spec(v)) == shape_nonempty(v),
{
    let w = reflect_spec(v);
    assert forall|p: (int, int, int)| #[trigger]
        sset(w, p) == (0 <= p.0 < 5 && 0 <= p.1 < 5 - p.0 && 0 <= p.2 < 5 - p.0 && sset(
            v,
            (p.0, p.2, p.1),
        )) by {
        if 0 <= p.0 < 5 && 0 <= p.1 < 5 - p.0 && 0 <= p.2 < 5 - p.0 {
            assert(w[p.0].len() == v[p.0].len());
            assert(w[p.0][p.1].len() == v[p.0][p.1].len());
            assert(w[p.0][p.1][p.2] == sset(v, (p.0, p.2, p.1)));
        }
    }
    if shape_nonempty(v) {
        let q = choose|q: (int, int, int)| #[trigger] sset(v, q);
        assert(sset(w, (q.0, q.2, q.1)));
    }
    if shape_nonempty(w) {
        let p = choose|p: (int, int, int)| #[trigger] sset(w, p);
        assert(sset(v, (p.0, p.2, p.1)));
    }
}

/// True when one of the probed superdiagonal cells of the base layer is
/// set.
fn l0_superdiag(s: &ShapeLayers) -> (b: bool)
    requires
        s.wf(),
    ensures
        b == superdiag(s@[0]),
{
    let b = s.at(0, 0, 1) || s.at(0, 1, 2) || s.at(0, 2, 3) || s.at(0, 3, 4);
    proof {
        assert(lset(s@[0], 0, 1) == sset(s@, (0, 0, 1)));
        assert(lset(s@[0], 1, 2) == sset(s@, (0, 1, 2)));
        assert(lset(s@[0], 2, 3) == sset(s@, (0, 2, 3)));
        assert(lset(s@[0], 3, 4) == sset(s@, (0, 3, 4)));
    }
    b
}

/// The stack with its base layer shifted one row down (wrapping); the
/// higher layers are kept as they are.
fn shift_down_l0(s: &ShapeLayers) -> (t: ShapeLayers)
    requires
        s.wf(),
    ensures
        t.wf(),
        t@ == s@.update(0, down1(s@[0])),
{
    let mut dest = s.copy_of();
    let ghost target = s@.update(0, down1(s@[0]));
    proof {
        assert(target[0].len() == 5);
        assert forall|r: int| 0 <= r < 5 implies (#[trigger] target[0][r]).len() == 5 by {
            if r == 0 {
                assert(target[0][r] == s@[0][4]);
            } else {
                assert(target[0][r] == s@[0][r - 1]);
            }
        }
        assert(shape_dims_wf(target));
    }
    for r in 0..5usize
        invariant
            s.wf(),
            dest.wf(),
            target == s@.update(0, down1(s@[0])),
            shape_dims_wf(target),
            forall|p: (int, int, int)| p.0 != 0 ==> (#[trigger] sset(dest@, p) == sset(s@, p)),
            forall|p: (int, int, int)|
                p.0 == 0 && p.1 < r ==> (#[trigger] sset(dest@, p) == sset(target, p)),
    {
        for c in 0..5usize
            invariant
                s.wf(),
                dest.wf(),
                target == s@.update(0, down1(s@[0])),
                shape_dims_wf(target),
                r < 5,
                forall|p: (int, int, int)| p.0 != 0 ==> (#[trigger] sset(dest@, p) == sset(s@, p)),
                forall|p: (int, int, int)|
                    p.0 == 0 && p.1 < r ==> (#[trigger] sset(dest@, p) == sset(target, p)),
                forall|p: (int, int, int)|
                    p.0 == 0 && p.1 == r && p.2 < c ==> (#[trigger] sset(dest@, p) == sset(
                        target,
                        p,
                    )),
        {
            let b = if r == 0 {
                s.at(0, 4, c)
            } else {
                s.at(0, r - 1, c)
            };
            let ghost pre = dest@;
            dest.update(0, r, c, b);
            proof {
                lemma_shape_update_sset(pre, (0, r as int, c as int), b);
                assert(sset(dest@, (0, r as int, c as int)) == sset(target, (0, r as int, c as int)))
                    by {
                    if r == 0 {
                        assert(target[0][0] == s@[0][4]);
                    } else {
                        assert(target[0][r as int] == s@[0][r - 1]);
                    }
                }
            }
        }
    }
    proof {
        assert forall|k: int, r: int, c: int|
            0 <= k < 5 && 0 <= r < 5 - k && 0 <= c < 5 - k implies dest@[k][r][c] == target[k][r][c] by {
            if k == 0 {
                assert(sset(dest@, (k, r, c)) == sset(target, (k, r, c)));
            } else {
                assert(sset(dest@, (k, r, c)) == sset(s@, (k, r, c)));
                assert(target[k] == s@[k]);
            }
        }
        assert(dest@ =~~= target);
    }
    dest
}

impl Shape {
    /// True when no cell of the shape is set.
    pub fn is_empty(&self) -> (b: bool)
        requires
            self.wf(),
        ensures
            b == !shape_nonempty(self@),
    {
        for k in 0..5usize
            invariant
                self.wf(),
                forall|p: (int, int, int)| p.0 < k ==> !#[trigger] sset(self@, p),
        {
            let size = 5 - k;
            for r in 0..size
                invariant
                    self.wf(),
                    size == 5 - k,
                    k < 5,
                    forall|p: (int, int, int)| p.0 < k ==> !#[trigger] sset(self@, p),
                    forall|p: (int, int, int)|
                        p.0 == k && p.1 < r ==> !#[trigger] sset(self@, p),
            {
                for c in 0..size
                    invariant
                        self.wf(),
                        size == 5 - k,
                        k < 5,
                        r < size,
                        forall|p: (int, int, int)| p.0 < k ==> !#[trigger] sset(self@, p),
                        forall|p: (int, int, int)|
                            p.0 == k && p.1 < r ==> !#[trigger] sset(self@, p),
                        forall|p: (int, int, int)|
                            p.0 == k && p.1 == r && p.2 < c ==> !#[trigger] sset(self@, p),
                {
                    if self.layers.at(k, r, c) {
                        return false;
                    }
                }
            }
        }
        assert forall|p: (int, int, int)| !sset(self@, p) by {
            if 0 <= p.0 < 5 && 0 <= p.1 < 5 - p.0 && 0 <= p.2 < 5 - p.0 {
                assert(!sset(self@, p));
            }
        }
        true
    }

    /// Converts a flat shape into its three-dimensional, diagonally rising
    /// form: the base layer is treated as a tilted side elevation whose
    /// main diagonal stays at the bottom while each parallel diagonal
    /// further left is promoted one layer higher. A shape that is already
    /// three-dimensional is returned as an equivalent copy.
    pub fn erect(&self) -> (s: Shape)
        requires
            self.wf(),
            shape_nonempty(self@),
        ensures
            s.wf(),
            s.is_3d,
            self.is_3d ==> s@ == self@,
            !self.is_3d ==> s@ == erect_spec(self@),
    {
        if self.is_3d {
            return self.duplicate();
        }
        let aligned = self.snap_to_top_left();
        let ghost l0_start = aligned@[0];
        let mut cur = aligned.layers;
        let mut remaining: usize = 20;
        loop
            invariant_except_break
                cur.wf(),
                remaining <= 20,
                down_steps(l0_start, 20) == down_steps(cur@[0], remaining as nat),
            ensures
                cur.wf(),
                cur@[0] == down_steps(l0_start, 20),
            decreases remaining,
        {
            if remaining == 0 {
                break;
            }
            if !l0_superdiag(&cur) {
                break;
            }
            let ghost pre = cur@[0];
            cur = shift_down_l0(&cur);
            proof {
                assert(cur@[0] == down1(pre));
                assert(down_steps(pre, remaining as nat) == down_steps(
                    down1(pre),
                    (remaining - 1) as nat,
                ));
            }
            remaining = remaining - 1;
        }
        let ghost l0f = cur@[0];
        let ghost target = erected_from(l0f);
        proof {
            assert(shape_dims_wf(target));
            assert forall|p: (int, int, int)| !sset(blank_shape(), p) by {
                if 0 <= p.0 < 5 && 0 <= p.1 < 5 - p.0 && 0 <= p.2 < 5 - p.0 {
                    assert(!blank_shape()[p.0][p.1][p.2]);
                }
            }
        }
        let mut dest = ShapeLayers::new_empty();
        for k in 0..5usize
            invariant
                cur.wf(),
                dest.wf(),
                l0f == cur@[0],
                target == erected_from(l0f),
                shape_dims_wf(target),
                forall|p: (int, int, int)|
                    p.0 < k ==> (#[trigger] sset(dest@, p) == sset(target, p)),
                forall|p: (int, int, int)| p.0 >= k ==> !#[trigger] sset(dest@, p),
        {
            let size = 5 - k;
            for t in 0..size
                invariant
                    cur.wf(),
                    dest.wf(),
                    l0f == cur@[0],
                    target == erected_from(l0f),
                    shape_dims_wf(target),
                    size == 5 - k,
                    k < 5,
                    forall|p: (int, int, int)|
                        p.0 < k ==> (#[trigger] sset(dest@, p) == sset(target, p)),
                    forall|p: (int, int, int)|
                        p.0 == k && p.1 < t ==> (#[trigger] sset(dest@, p) == sset(target, p)),
                    forall|p: (int, int, int)|
                        (p.0 > k || (p.0 == k && p.1 >= t)) ==> !#[trigger] sset(dest@, p),
            {
                let b = cur.at(0, k + t, t);
                let ghost pre = dest@;
                dest.update(k, t, t, b);
                proof {
                    lemma_shape_update_sset(pre, (k as int, t as int, t as int), b);
                    assert(lset(l0f, k + t, t as int) == sset(cur@, (0, k + t, t as int)));
                    assert forall|p: (int, int, int)|
                        p.0 == k && p.1 == t implies sset(dest@, p) == sset(target, p) by {
                        if 0 <= p.2 < 5 - p.0 {
                            assert(target[p.0][p.1][p.2] == (if p.1 == p.2 {
                                lset(l0f, p.0 + p.1, p.1)
                            } else {
                                false
                            }));
                        }
                    }
                }
            }
        }
        proof {
            assert forall|k: int, r: int, c: int|
                0 <= k < 5 && 0 <= r < 5 - k && 0 <= c < 5 - k implies dest@[k][r][c] == target[k][r][c] by {
                assert(sset(dest@, (k, r, c)) == sset(target, (k, r, c)));
            }
            assert(dest@ =~~= target);
            assert(aligned@ == translate_spec(self@, first_occ_row(self@), first_occ_col(self@)));
        }
        Shape { layers: dest, is_3d: true }
    }
}

/// Weight of a layer in the canonical integer encoding.
pub open spec fn layer_bonus(k: int) -> int {
    if k == 0 {
        1
    } else if k == 1 {
        10000
    } else if k == 2 {
        1000000
    } else if k == 3 {
        100000000
    } else {
        10000000000
    }
}

/// Weight of a row in the canonical integer encoding.
pub open spec fn row_bonus(r: int) -> int {
    if r == 0 {
        1
    } else if r == 1 {
        10
    } else if r == 2 {
        100
    } else if r == 3 {
        1000
    } else {
        10000
    }
}

/// Contribution of one set cell to the canonical integer encoding.
pub open spec fn cell_weight(k: int, r: int, c: int) -> int {
    (c + 1) * row_bonus(r) * layer_bonus(k)
}

/// Sum of the weights of the set cells of row `r` of layer `k`, from
/// column `c` on.
pub open spec fn sum_row_from(v: Seq<Seq<Seq<bool>>>, k: int, r: int, c: int) -> int
    decreases 5 - k - c,
{
    if !(0 <= k < 5 && 0 <= c < 5 - k) {
        0
    } else {
        (if sset(v, (k, r, c)) {
            cell_weight(k, r, c)
        } else {
            0
        }) + sum_row_from(v, k, r, c + 1)
    }
}

/// Sum of the weights of the set cells of layer `k`, from row `r` on.
pub open spec fn sum_rows_from(v: Seq<Seq<Seq<bool>>>, k: int, r: int) -> int
    decreases 5 - k - r,
{
    if !(0 <= k < 5 && 0 <= r < 5 - k) {
        0
    } else {
        sum_row_from(v, k, r, 0) + sum_rows_from(v, k, r + 1)
    }
}

/// Sum of the weights of the set cells of the stack, from layer `k` on.
pub open spec fn sum_layers_from(v: Seq<Seq<Seq<bool>>>, k: int) -> int
    decreases 5 - k,
{
    if !(0 <= k < 5) {
        0
    } else {
        sum_rows_from(v, k, 0) + sum_layers_from(v, k + 1)
    }
}

/// The canonical integer encoding of a shape: row-major within a layer
/// with digit weight 10 per row, layer-major with a larger weight per
/// layer, so structurally larger shapes encode to larger integers.
pub open spec fn to_int_spec(v: Seq<Seq<Seq<bool>>>) -> int {
    sum_layers_from(v, 0)
}

pub proof fn lemma_sum_row_bounds(v: Seq<Seq<Seq<bool>>>, k: int, r: int, c: int)
    ensures
        0 <= sum_row_from(v, k, r, c),
        0 <= k < 5 && 0 <= c < 5 - k ==> sum_row_from(v, k, r, c) <= (5 - k - c)
            * 500000000000000,
        sum_row_from(v, k, r, c) <= 2500000000000000,
    decreases 5 - k - c,
{
    if 0 <= k < 5 && 0 <= c < 5 - k {
        lemma_sum_row_bounds(v, k, r, c + 1);
        assert(cell_weight(k, r, c) <= 500000000000000);
    }
}

pub proof fn lemma_sum_rows_bounds(v: Seq<Seq<Seq<bool>>>, k: int, r: int)
    ensures
        0 <= sum_rows_from(v, k, r),
        0 <= k < 5 && 0 <= r < 5 - k ==> sum_rows_from(v, k, r) <= (5 - k - r)
            * 2500000000000000,
        sum_rows_from(v, k, r) <= 12500000000000000,
    decreases 5 - k - r,
{
    if 0 <= k < 5 && 0 <= r < 5 - k {
        lemma_sum_row_bounds(v, k, r, 0);
        lemma_sum_rows_bounds(v, k, r + 1);
    }
}

pub proof fn lemma_sum_layers_bounds(v: Seq<Seq<Seq<bool>>>, k: int)
    ensures
        0 <= sum_layers_from(v, k),
        0 <= k < 5 ==> sum_layers_from(v, k) <= (5 - k) * 12500000000000000,
        sum_layers_from(v, k) <= 62500000000000000,
    decreases 5 - k,
{
    if 0 <= k < 5 {
        lemma_sum_rows_bounds(v, k, 0);
        lemma_sum_layers_bounds(v, k + 1);
    }
}

/// The canonical integer encoding of a shape, used to give orientation
/// lists a reproducible order.
pub fn to_int(shape: &Shape) -> (n: u64)
    requires
        shape.wf(),
    ensures
        n as int == to_int_spec(shape@),
{
    let ghost v = shape@;
    let mut int_repr: u64 = 0;
    proof {
        lemma_sum_layers_bounds(v, 0);
        assert forall|k2: int| 0 <= #[trigger] sum_layers_from(v, k2) <= 62500000000000000 by {
            lemma_sum_layers_bounds(v, k2);
        }
    }
    for layer in 0..5usize
        invariant
            shape.wf(),
            v == shape@,
            int_repr as int == sum_layers_from(v, 0) - sum_layers_from(v, layer as int),
            0 <= sum_layers_from(v, 0) <= 62500000000000000,
            forall|k2: int| 0 <= #[trigger] sum_layers_from(v, k2) <= 62500000000000000,
    {
        let bonus: u64 = if layer == 0 {
            1
        } else if layer == 1 {
            10000
        } else if layer == 2 {
            1000000
        } else if layer == 3 {
            100000000
        } else {
            10000000000
        };
        let size = 5 - layer;
        proof {
            lemma_sum_rows_bounds(v, layer as int, 0);
            assert forall|r2: int| 0 <= #[trigger] sum_rows_from(v, layer as int, r2)
                <= 12500000000000000 by {
                lemma_sum_rows_bounds(v, layer as int, r2);
            }
        }
        for row in 0..size
            invariant
                shape.wf(),
                v == shape@,
                size == 5 - layer,
                layer < 5,
                bonus == layer_bonus(layer as int),
                int_repr as int == sum_layers_from(v, 0) - sum_layers_from(v, layer as int + 1)
                    - sum_rows_from(v, layer as int, row as int),
                0 <= sum_layers_from(v, 0) <= 62500000000000000,
                forall|k2: int| 0 <= #[trigger] sum_layers_from(v, k2) <= 62500000000000000,
                forall|r2: int| 0 <= #[trigger] sum_rows_from(v, layer as int, r2) <= 12500000000000000,
        {
            let rbonus: u64 = if row == 0 {
                1
            } else if row == 1 {
                10
            } else if row == 2 {
                100
            } else if row == 3 {
                1000
            } else {
                10000
            };
            proof {
                lemma_sum_row_bounds(v, layer as int, row as int, 0);
                assert forall|c2: int| 0 <= #[trigger] sum_row_from(v, layer as int, row as int, c2)
                    <= 2500000000000000 by {
                    lemma_sum_row_bounds(v, layer as int, row as int, c2);
                }
            }
            for col in 0..size
                invariant
                    shape.wf(),
                    v == shape@,
                    size == 5 - layer,
                    layer < 5,
                    row < size,
                    bonus == layer_bonus(layer as int),
                    rbonus == row_bonus(row as int),
                    int_repr as int == sum_layers_from(v, 0) - sum_layers_from(v, layer as int + 1)
                        - sum_rows_from(v, layer as int, row as int + 1) - sum_row_from(
                        v,
                        layer as int,
                        row as int,
                        col as int,
                    ),
                    0 <= sum_layers_from(v, 0) <= 62500000000000000,
                    forall|k2: int| 0 <= #[trigger] sum_layers_from(v, k2) <= 62500000000000000,
                    forall|r2: int| 0 <= #[trigger] sum_rows_from(v, layer as int, r2) <= 12500000000000000,
                    forall|c2: int| 0 <= #[trigger] sum_row_from(v, layer as int, row as int, c2) <= 2500000000000000,
            {
                if shape.layers.at(layer, row, col) {
                    proof {
                        lemma_sum_row_bounds(v, layer as int, row as int, col as int + 1);
                        lemma_sum_rows_bounds(v, layer as int, row as int + 1);
                        lemma_sum_layers_bounds(v, layer as int + 1);
                    }
                    let term: u64 = (col as u64 + 1) * rbonus * bonus;
                    assert(term as int == cell_weight(layer as int, row as int, col as int));
                    int_repr = int_repr + term;
                }
            }
        }
    }
    int_repr
}

impl Shape {
    /// True when the two shapes hold the same cells and the same
    /// three-dimensionality flag.
    pub fn equals(&self, other: &Shape) -> (b: bool)
        requires
            self.wf(),
            other.wf(),
        ensures
            b == (self@ == other@ && self.is_3d == other.is_3d),
    {
        if self.is_3d != other.is_3d {
            return false;
        }
        for k in 0..5usize
            invariant
                self.wf(),
                other.wf(),
                forall|p: (int, int, int)|
                    p.0 < k ==> (#[trigger] sset(self@, p) == sset(other@, p)),
        {
            let size = 5 - k;
            for r in 0..size
                invariant
                    self.wf(),
                    other.wf(),
                    size == 5 - k,
                    k < 5,
                    forall|p: (int, int, int)|
                        p.0 < k ==> (#[trigger] sset(self@, p) == sset(other@, p)),
                    forall|p: (int, int, int)|
                        p.0 == k && p.1 < r ==> (#[trigger] sset(self@, p) == sset(other@, p)),
            {
                for c in 0..size
                    invariant
                        self.wf(),
                        other.wf(),
                        size == 5 - k,
                        k < 5,
                        r < size,
                        forall|p: (int, int, int)|
                            p.0 < k ==> (#[trigger] sset(self@, p) == sset(other@, p)),
                        forall|p: (int, int, int)|
                            p.0 == k && p.1 < r ==> (#[trigger] sset(self@, p) == sset(other@, p)),
                        forall|p: (int, int, int)|
                            p.0 == k && p.1 == r && p.2 < c ==> (#[trigger] sset(self@, p) == sset(
                                other@,
                                p,
                            )),
                {
                    if self.layers.at(k, r, c) != other.layers.at(k, r, c) {
                        proof {
                            assert(self@[k as int][r as int][c as int] != other@[k as int][r as int][c as int]);
                        }
                        return false;
                    }
                }
            }
        }
        proof {
            assert forall|k: int, r: int, c: int|
                0 <= k < 5 && 0 <= r < 5 - k && 0 <= c < 5 - k implies self@[k][r][c] == other@[k][r][c] by {
                assert(sset(self@, (k, r, c)) == sset(other@, (k, r, c)));
            }
            assert(self@ =~~= other@);
        }
        true
    }
}

/// A puzzle piece: a name (letter) and the ordered list of all distinct
/// orientations in which it may legally be placed.
pub struct Piece {
    pub letter: char,
    pub orientations: Vec<Shape>,
}

/// A well-formed piece: an upper-case letter and a non-empty orientation
/// list (at most 99, so orientation indexes print as two digits), every
/// orientation well-formed and non-empty.
pub open spec fn piece_wf(p: Piece) -> bool {
    &&& 65 <= p.letter as int <= 90
    &&& 1 <= p.orientations@.len() <= 99
    &&& forall|i: int|
        0 <= i < p.orientations@.len() ==> (#[trigger] p.orientations@[i]).wf() && shape_nonempty(
            p.orientations@[i]@,
        )
}

/// A well-formed catalog: well-formed pieces with strictly increasing
/// letters.
pub open spec fn catalog_wf(cat: Seq<Piece>) -> bool {
    &&& cat.len() <= 26
    &&& forall|i: int| 0 <= i < cat.len() ==> piece_wf(#[trigger] cat[i])
    &&& forall|i: int, j: int|
        #![trigger cat[i].letter, cat[j].letter]
        0 <= i < j < cat.len() ==> (cat[i].letter as int) < (cat[j].letter as int)
}

/// Index of the first piece named `name`, scanning from `i`; negative
/// when there is none.
pub open spec fn find_from(cat: Seq<Piece>, name: char, i: int) -> int
    decreases cat.len() - i,
{
    if !(0 <= i < cat.len()) {
        -1
    } else if cat[i].letter == name {
        i
    } else {
        find_from(cat, name, i + 1)
    }
}

/// What a successful or failed catalog search means.
pub proof fn lemma_find_from(cat: Seq<Piece>, name: char, i: int)
    requires
        0 <= i,
    ensures
        find_from(cat, name, i) >= 0 ==> i <= find_from(cat, name, i) < cat.len() && cat[find_from(
            cat,
            name,
            i,
        )].letter == name && forall|j: int|
            i <= j < find_from(cat, name, i) ==> (#[trigger] cat[j].letter) != name,
        find_from(cat, name, i) < 0 ==> forall|j: int|
            i <= j < cat.len() ==> (#[trigger] cat[j].letter) != name,
    decreases cat.len() - i,
{
    if 0 <= i < cat.len() && cat[i].letter != name {
        lemma_find_from(cat, name, i + 1);
    }
}

/// Looks up a piece by name in the catalog.
pub fn get_piece(catalog: &Vec<Piece>, name: char) -> (r: Option<&Piece>)
    requires
        catalog_wf(catalog@),
    ensures
        match r {
            Option::Some(p) => {
                &&& find_from(catalog@, name, 0) >= 0
                &&& *p == catalog@[find_from(catalog@, name, 0)]
            },
            Option::None => find_from(catalog@, name, 0) < 0,
        },
{
    let n = catalog.len();
    for i in 0..n
        invariant
            catalog_wf(catalog@),
            n == catalog@.len(),
            find_from(catalog@, name, 0) == find_from(catalog@, name, i as int),
    {
        if catalog[i].letter == name {
            return Option::Some(&catalog[i]);
        }
    }
    Option::None
}

/// Looks up one orientation of a named piece in the catalog, returning a
/// fresh copy of its shape.
pub fn get_piece_orientation(catalog: &Vec<Piece>, name: char, orientation_index: usize) -> (r:
    Option<Shape>)
    requires
        catalog_wf(catalog@),
    ensures
        match r {
            Option::Some(s) => {
                let pi = find_from(catalog@, name, 0);
                &&& 0 <= pi < catalog@.len()
                &&& orientation_index < catalog@[pi].orientations@.len()
                &&& s.wf()
                &&& shape_nonempty(s@)
                &&& s@ == catalog@[pi].orientations@[orientation_index as int]@
                &&& s.is_3d == catalog@[pi].orientations@[orientation_index as int].is_3d
            },
            Option::None => find_from(catalog@, name, 0) < 0 || orientation_index >= catalog@[
                find_from(catalog@, name, 0)
            ].orientations@.len(),
        },
{
    match get_piece(catalog, name) {
        Option::Some(piece) => {
            if orientation_index < piece.orientations.len() {
                proof {
                    lemma_find_from(catalog@, name, 0);
                    assert(piece_wf(catalog@[find_from(catalog@, name, 0)]));
                }
                Option::Some(piece.orientations[orientation_index].duplicate())
            } else {
                Option::None
            }
        },
        Option::None => Option::None,
    }
}

/// A parse error: some occurrence of the letter lies outside the shape's
/// layer dimensions once aligned to the top-left occurrence.
#[derive(Clone, Copy, Debug, PartialEq, Eq, Structural)]
pub enum ShapeError {
    CellOutOfRange,
    LetterMissing,
}

/// The (row, column) positions at which `letter` occurs in the text,
/// scanning from the given position; newlines advance the row.
pub open spec fn occ_list(s: Seq<char>, letter: char, r: int, c: int) -> Seq<(int, int)>
    decreases s.len(),
{
    if s.len() == 0 {
        Seq::<(int, int)>::empty()
    } else if s[0] == '\n' {
        occ_list(s.drop_first(), letter, r + 1, 0)
    } else if s[0] == letter {
        seq![(r, c)] + occ_list(s.drop_first(), letter, r, c + 1)
    } else {
        occ_list(s.drop_first(), letter, r, c + 1)
    }
}

pub open spec fn min2(a: int, b: int) -> int {
    if a <= b {
        a
    } else {
        b
    }
}

/// Smallest first component among the positions from index `i` on;
/// the usize maximum when there is none.
pub open spec fn min_fst_from(l: Seq<(int, int)>, i: int) -> int
    decreases l.len() - i,
{
    if !(0 <= i < l.len()) {
        usize::MAX as int
    } else {
        min2(l[i].0, min_fst_from(l, i + 1))
    }
}

/// Smallest second component among the positions from index `i` on.
pub open spec fn min_snd_from(l: Seq<(int, int)>, i: int) -> int
    decreases l.len() - i,
{
    if !(0 <= i < l.len()) {
        usize::MAX as int
    } else {
        min2(l[i].1, min_snd_from(l, i + 1))
    }
}

/// The occurrence list of one layer of the parsed text.
pub open spec fn layer_occs(sv: Seq<Seq<char>>, letter: char, l: int) -> Seq<(int, int)> {
    occ_list(sv[l], letter, 0, 0)
}

/// Smallest occurrence row over the layers before `l`.
pub open spec fn row_off_upto(sv: Seq<Seq<char>>, letter: char, l: int) -> int
    decreases l,
{
    if l <= 0 {
        usize::MAX as int
    } else {
        min2(row_off_upto(sv, letter, l - 1), min_fst_from(layer_occs(sv, letter, l - 1), 0))
    }
}

/// Smallest occurrence column over the layers before `l`.
pub open spec fn col_off_upto(sv: Seq<Seq<char>>, letter: char, l: int) -> int
    decreases l,
{
    if l <= 0 {
        usize::MAX as int
    } else {
        min2(col_off_upto(sv, letter, l - 1), min_snd_from(layer_occs(sv, letter, l - 1), 0))
    }
}

/// The row offset subtracted from every occurrence: the smallest
/// occurrence row over all layers.
pub open spec fn parse_row_offset(sv: Seq<Seq<char>>, letter: char) -> int {
    row_off_upto(sv, letter, sv.len() as int)
}

pub open spec fn parse_col_offset(sv: Seq<Seq<char>>, letter: char) -> int {
    col_off_upto(sv, letter, sv.len() as int)
}

/// The letter occurs somewhere in the text.
pub open spec fn parse_has(sv: Seq<Seq<char>>, letter: char) -> bool {
    exists|l: int| 0 <= l < sv.len() && (#[trigger] layer_occs(sv, letter, l)).len() > 0
}

/// The occurrence at index `i` of layer `l` lies outside the shape's
/// dimensions after aligning by the offsets.
pub open spec fn bad_occ(sv: Seq<Seq<char>>, letter: char, l: int, i: int) -> bool {
    &&& 0 <= l < sv.len()
    &&& 0 <= i < layer_occs(sv, letter, l).len()
    &&& (l >= 5 || layer_occs(sv, letter, l)[i].0 - parse_row_offset(sv, letter) >= 5 - l
        || layer_occs(sv, letter, l)[i].1 - parse_col_offset(sv, letter) >= 5 - l)
}

/// Some occurrence lies outside the shape's dimensions after aligning by
/// the offsets.
pub open spec fn parse_bad(sv: Seq<Seq<char>>, letter: char) -> bool {
    exists|l: int, i: int| #[trigger] bad_occ(sv, letter, l, i)
}

/// The parsed shape holds a cell exactly where the text holds an aligned
/// occurrence of the letter.
pub open spec fn parse_cell(sv: Seq<Seq<char>>, letter: char, p: (int, int, int)) -> bool {
    &&& 0 <= p.0 < sv.len()
    &&& layer_occs(sv, letter, p.0).contains(
        (p.1 + parse_row_offset(sv, letter), p.2 + parse_col_offset(sv, letter)),
    )
}

/// Every occurrence in layer `l` stays inside that layer's dimensions
/// once aligned by the offsets.
pub open spec fn layer_in_range(sv: Seq<Seq<char>>, letter: char, ro: int, co: int, l: int) -> bool {
    forall|j: int|
        0 <= j < layer_occs(sv, letter, l).len() ==> l < 5 && (#[trigger] layer_occs(
            sv,
            letter,
            l,
        )[j]).0 - ro < 5 - l && layer_occs(sv, letter, l)[j].1 - co < 5 - l
}

/// Every occurrence in the layers before `upto` stays inside its layer's
/// dimensions once aligned by the offsets.
pub open spec fn occs_in_range(
    sv: Seq<Seq<char>>,
    letter: char,
    ro: int,
    co: int,
    upto: int,
) -> bool
    decreases upto,
{
    if upto <= 0 {
        true
    } else {
        occs_in_range(sv, letter, ro, co, upto - 1) && layer_in_range(sv, letter, ro, co, upto - 1)
    }
}

/// A processed layer's bounds can be read back out of the range predicate.
pub proof fn lemma_occs_in_range_layer(
    sv: Seq<Seq<char>>,
    letter: char,
    ro: int,
    co: int,
    upto: int,
    l: int,
)
    requires
        occs_in_range(sv, letter, ro, co, upto),
        0 <= l < upto,
    ensures
        layer_in_range(sv, letter, ro, co, l),
    decreases upto,
{
    if l < upto - 1 {
        lemma_occs_in_range_layer(sv, letter, ro, co, upto - 1, l);
    }
}

/// The shape drawn by the text: a cell wherever an aligned occurrence of
/// the letter sits.
pub open spec fn parsed_shape_spec(sv: Seq<Seq<char>>, letter: char) -> Seq<Seq<Seq<bool>>> {
    Seq::new(
        5,
        |k: int|
            Seq::new(
                (5 - k) as nat,
                |r: int|
                    Seq::new((5 - k) as nat, |c: int| parse_cell(sv, letter, (k, r, c))),
            ),
    )
}

/// More than one layer of the stack holds a set cell.
pub open spec fn multi_layer(v: Seq<Seq<Seq<bool>>>) -> bool {
    exists|k1: int, k2: int|
        0 <= k1 < k2 < 5 && #[trigger] layer_occ(v, k1) && #[trigger] layer_occ(v, k2)
}

/// The minimum over a suffix bounds every element of the suffix.
pub proof fn lemma_min_fst_le(l: Seq<(int, int)>, i: int, j: int)
    requires
        0 <= i <= j < l.len(),
    ensures
        min_fst_from(l, i) <= l[j].0,
        min_snd_from(l, i) <= l[j].1,
    decreases j - i,
{
    if i < j {
        lemma_min_fst_le(l, i + 1, j);
    }
}

/// The global minimum over the layers bounds each layer's minimum.
pub proof fn lemma_row_off_le(sv: Seq<Seq<char>>, letter: char, upto: int, l: int)
    requires
        0 <= l < upto,
    ensures
        row_off_upto(sv, letter, upto) <= min_fst_from(layer_occs(sv, letter, l), 0),
        col_off_upto(sv, letter, upto) <= min_snd_from(layer_occs(sv, letter, l), 0),
    decreases upto,
{
    if l < upto - 1 {
        lemma_row_off_le(sv, letter, upto - 1, l);
    }
}

/// Minima over suffixes never exceed the usize maximum.
pub proof fn lemma_min_fst_max(l: Seq<(int, int)>, i: int)
    ensures
        min_fst_from(l, i) <= usize::MAX as int,
        min_snd_from(l, i) <= usize::MAX as int,
    decreases l.len() - i,
{
    if 0 <= i < l.len() {
        lemma_min_fst_max(l, i + 1);
    }
}

/// A non-empty suffix with machine-sized entries attains its minima.
pub proof fn lemma_min_fst_attained(l: Seq<(int, int)>, i: int)
    requires
        0 <= i < l.len(),
        forall|j: int|
            0 <= j < l.len() ==> 0 <= (#[trigger] l[j]).0 <= usize::MAX && 0 <= l[j].1
                <= usize::MAX,
    ensures
        exists|j: int| i <= j < l.len() && (#[trigger] l[j]).0 == min_fst_from(l, i),
        exists|j: int| i <= j < l.len() && (#[trigger] l[j]).1 == min_snd_from(l, i),
    decreases l.len() - i,
{
    if i + 1 == l.len() {
        assert(min_fst_from(l, i + 1) == usize::MAX as int);
        assert(min_snd_from(l, i + 1) == usize::MAX as int);
        assert(l[i].0 == min_fst_from(l, i));
        assert(l[i].1 == min_snd_from(l, i));
    } else {
        lemma_min_fst_attained(l, i + 1);
        if l[i].0 <= min_fst_from(l, i + 1) {
            assert(l[i].0 == min_fst_from(l, i));
        } else {
            let j = choose|j: int|
                i + 1 <= j < l.len() && (#[trigger] l[j]).0 == min_fst_from(l, i + 1);
            assert(l[j].0 == min_fst_from(l, i));
        }
        if l[i].1 <= min_snd_from(l, i + 1) {
            assert(l[i].1 == min_snd_from(l, i));
        } else {
            let j = choose|j: int|
                i + 1 <= j < l.len() && (#[trigger] l[j]).1 == min_snd_from(l, i + 1);
            assert(l[j].1 == min_snd_from(l, i));
        }
    }
}

/// The layer minima never exceed the usize maximum.
pub proof fn lemma_row_off_max(sv: Seq<Seq<char>>, letter: char, upto: int)
    ensures
        row_off_upto(sv, letter, upto) <= usize::MAX as int,
        col_off_upto(sv, letter, upto) <= usize::MAX as int,
    decreases upto,
{
    if upto > 0 {
        lemma_row_off_max(sv, letter, upto - 1);
    }
}

/// When every layer before `upto` is free of the letter, the minima stay
/// at the usize maximum.
pub proof fn lemma_row_off_all_empty(sv: Seq<Seq<char>>, letter: char, upto: int)
    requires
        forall|l: int| 0 <= l < upto ==> (#[trigger] layer_occs(sv, letter, l)).len() == 0,
    ensures
        row_off_upto(sv, letter, upto) == usize::MAX as int,
        col_off_upto(sv, letter, upto) == usize::MAX as int,
    decreases upto,
{
    if upto > 0 {
        lemma_row_off_all_empty(sv, letter, upto - 1);
        assert(min_fst_from(layer_occs(sv, letter, upto - 1), 0) == usize::MAX as int);
        assert(min_snd_from(layer_occs(sv, letter, upto - 1), 0) == usize::MAX as int);
    }
}

/// When the letter occurs at all, the global minimum row and column are
/// attained by occurrences.
pub proof fn lemma_row_off_attained(sv: Seq<Seq<char>>, letter: char, upto: int)
    requires
        0 <= upto <= sv.len(),
        exists|l: int| 0 <= l < upto && (#[trigger] layer_occs(sv, letter, l)).len() > 0,
        forall|l: int, j: int|
            0 <= l < upto && 0 <= j < layer_occs(sv, letter, l).len() ==> 0 <= (
            #[trigger] layer_occs(sv, letter, l)[j]).0 <= usize::MAX && 0 <= layer_occs(
                sv,
                letter,
                l,
            )[j].1 <= usize::MAX,
    ensures
        exists|l: int, j: int|
            0 <= l < upto && 0 <= j < layer_occs(sv, letter, l).len() && (#[trigger] layer_occs(
                sv,
                letter,
                l,
            )[j]).0 == row_off_upto(sv, letter, upto),
        exists|l: int, j: int|
            0 <= l < upto && 0 <= j < layer_occs(sv, letter, l).len() && (#[trigger] layer_occs(
                sv,
                letter,
                l,
            )[j]).1 == col_off_upto(sv, letter, upto),
    decreases upto,
{
    let last = layer_occs(sv, letter, upto - 1);
    let deeper = exists|l: int|
        0 <= l < upto - 1 && (#[trigger] layer_occs(sv, letter, l)).len() > 0;
    if !deeper {
        // all occurrences sit in the last layer
        assert forall|l: int| 0 <= l < upto - 1 implies (#[trigger] layer_occs(
            sv,
            letter,
            l,
        )).len() == 0 by {
            if layer_occs(sv, letter, l).len() > 0 {
                assert(deeper);
            }
        }
        lemma_row_off_all_empty(sv, letter, upto - 1);
        assert(last.len() > 0) by {
            let lw = choose|l: int|
                0 <= l < upto && (#[trigger] layer_occs(sv, letter, l)).len() > 0;
            assert(lw == upto - 1);
        }
        lemma_min_fst_attained(last, 0);
        let j1 = choose|j: int|
            0 <= j < last.len() && (#[trigger] last[j]).0 == min_fst_from(last, 0);
        assert(last[j1].0 == row_off_upto(sv, letter, upto)) by {
            lemma_min_fst_max(last, 0);
        }
        let j2 = choose|j: int|
            0 <= j < last.len() && (#[trigger] last[j]).1 == min_snd_from(last, 0);
        assert(last[j2].1 == col_off_upto(sv, letter, upto)) by {
            lemma_min_fst_max(last, 0);
        }
    } else {
        lemma_row_off_attained(sv, letter, upto - 1);
        lemma_row_off_max(sv, letter, upto - 1);
        // row
        if last.len() > 0 && min_fst_from(last, 0) < row_off_upto(sv, letter, upto - 1) {
            lemma_min_fst_attained(last, 0);
            let j = choose|j: int|
                0 <= j < last.len() && (#[trigger] last[j]).0 == min_fst_from(last, 0);
            assert(last[j].0 == row_off_upto(sv, letter, upto));
        } else {
            let (l2, j2) = choose|l2: int, j2: int|
                0 <= l2 < upto - 1 && 0 <= j2 < layer_occs(sv, letter, l2).len() && (
                #[trigger] layer_occs(sv, letter, l2)[j2]).0 == row_off_upto(sv, letter, upto - 1);
            assert(min_fst_from(last, 0) >= row_off_upto(sv, letter, upto - 1) || last.len() == 0);
            if last.len() == 0 {
                assert(min_fst_from(last, 0) == usize::MAX as int);
            }
            assert(row_off_upto(sv, letter, upto) == row_off_upto(sv, letter, upto - 1));
            assert((layer_occs(sv, letter, l2)[j2]).0 == row_off_upto(sv, letter, upto));
        }
        // column
        if last.len() > 0 && min_snd_from(last, 0) < col_off_upto(sv, letter, upto - 1) {
            lemma_min_fst_attained(last, 0);
            let j = choose|j: int|
                0 <= j < last.len() && (#[trigger] last[j]).1 == min_snd_from(last, 0);
            assert(last[j].1 == col_off_upto(sv, letter, upto));
        } else {
            let (l2, j2) = choose|l2: int, j2: int|
                0 <= l2 < upto - 1 && 0 <= j2 < layer_occs(sv, letter, l2).len() && (
                #[trigger] layer_occs(sv, letter, l2)[j2]).1 == col_off_upto(sv, letter, upto - 1);
            if last.len() == 0 {
                assert(min_snd_from(last, 0) == usize::MAX as int);
            }
            assert(col_off_upto(sv, letter, upto) == col_off_upto(sv, letter, upto - 1));
            assert((layer_occs(sv, letter, l2)[j2]).1 == col_off_upto(sv, letter, upto));
        }
    }
}

/// Collects the (row, column) positions of every occurrence of the letter
/// in one layer's text.
pub(crate) fn scan_occurrences(s: &str, letter: char) -> (r: Vec<(usize, usize)>)
    ensures
        r@.map_values(|x: (usize, usize)| (x.0 as int, x.1 as int)) == occ_list(s@, letter, 0, 0),
{
    let len = s.unicode_len();
    let mut out: Vec<(usize, usize)> = Vec::new();
    let mut row: usize = 0;
    let mut col: usize = 0;
    proof {
        assert(s@.skip(0) == s@);
    }
    for i in 0..len
        invariant
            len == s@.len(),
            row <= i,
            col <= i,
            out@.map_values(|x: (usize, usize)| (x.0 as int, x.1 as int)) + occ_list(
                s@.skip(i as int),
                letter,
                row as int,
                col as int,
            ) == occ_list(s@, letter, 0, 0),
    {
        let ch = s.get_char(i);
        let ghost pre = out@.map_values(|x: (usize, usize)| (x.0 as int, x.1 as int));
        proof {
            assert(s@.skip(i as int)[0] == s@[i as int]);
            assert(s@.skip(i as int).drop_first() =~= s@.skip(i + 1));
        }
        if ch == '\n' {
            row = row + 1;
            col = 0;
        } else if ch == letter {
            out.push((row, col));
            proof {
                let now = out@.map_values(|x: (usize, usize)| (x.0 as int, x.1 as int));
                assert(now =~= pre.push((row as int, col as int)));
                assert(occ_list(s@.skip(i as int), letter, row as int, col as int) == seq![
                    (row as int, col as int),
                ] + occ_list(s@.skip(i + 1), letter, row as int, col as int + 1));
                assert(now + occ_list(s@.skip(i + 1), letter, row as int, col as int + 1) =~= pre
                    + occ_list(s@.skip(i as int), letter, row as int, col as int));
            }
            col = col + 1;
        } else {
            col = col + 1;
        }
    }
    proof {
        assert(s@.skip(len as int) =~= Seq::<char>::empty());
        assert(out@.map_values(|x: (usize, usize)| (x.0 as int, x.1 as int)) =~= occ_list(
            s@,
            letter,
            0,
            0,
        ));
    }
    out
}

/// True when layer `k` of the stack holds at least one set cell.
fn layer_occupied(s: &ShapeLayers, k: usize) -> (b: bool)
    requires
        s.wf(),
        k < 5,
    ensures
        b == layer_occ(s@, k as int),
{
    let size = 5 - k;
    for r in 0..size
        invariant
            s.wf(),
            k < 5,
            size == 5 - k,
            forall|p: (int, int, int)|
                p.0 == k && p.1 < r ==> !#[trigger] sset(s@, p),
    {
        for c in 0..size
            invariant
                s.wf(),
                k < 5,
                size == 5 - k,
                r < size,
                forall|p: (int, int, int)|
                    p.0 == k && p.1 < r ==> !#[trigger] sset(s@, p),
                forall|p: (int, int, int)|
                    p.0 == k && p.1 == r && p.2 < c ==> !#[trigger] sset(s@, p),
        {
            if s.at(k, r, c) {
                proof {
                    assert(sset(s@, (k as int, r as int, c as int)));
                }
                return true;
            }
        }
    }
    assert forall|p: (int, int, int)| p.0 == k implies !sset(s@, p) by {
        if 0 <= p.1 < 5 - k && 0 <= p.2 < 5 - k {
            assert(!sset(s@, p));
        }
    }
    false
}


impl Shape {
    /// Parses a vector of layer texts into the shape drawn with `letter`:
    /// each vector entry is one layer, rows within a layer are separated
    /// by newlines, and every occurrence of the letter is a cell of the
    /// shape, aligned so that the topmost-leftmost occurrence becomes the
    /// shape's origin. Returns the shape snapped to the top left, nothing
    /// when the letter does not occur, and an error when an occurrence
    /// falls outside the shape's layer dimensions.
    pub fn parse(strings: &Vec<String>, letter: char) -> (r: Result<Option<Shape>, ShapeError>)
        ensures
            match r {
                Result::Ok(Option::Some(shape)) => {
                    &&& !parse_bad(strings.deep_view(), letter)
                    &&& parse_has(strings.deep_view(), letter)
                    &&& shape.wf()
                    &&& shape_nonempty(shape@)
                    &&& forall|p: (int, int, int)| #[trigger]
                        sset(shape@, p) == parse_cell(strings.deep_view(), letter, p)
                    &&& shape@ == parsed_shape_spec(strings.deep_view(), letter)
                    &&& shape.is_3d == multi_layer(shape@)
                },
                Result::Ok(Option::None) => !parse_bad(strings.deep_view(), letter) && !parse_has(
                    strings.deep_view(),
                    letter,
                ),
                Result::Err(e) => e == ShapeError::CellOutOfRange && parse_bad(
                    strings.deep_view(),
                    letter,
                ),
            },
    {
        let ghost sv = strings.deep_view();
        let layer_count = strings.len();
        // collect the occurrences of the letter, layer by layer
        let mut occs: Vec<Vec<(usize, usize)>> = Vec::new();
        for li in 0..layer_count
            invariant
                sv == strings.deep_view(),
                layer_count == sv.len(),
                occs@.len() == li,
                forall|l: int|
                    0 <= l < li ==> (#[trigger] occs@[l])@.map_values(
                        |x: (usize, usize)| (x.0 as int, x.1 as int),
                    ) == layer_occs(sv, letter, l),
        {
            proof {
                assert(strings@[li as int]@ == sv[li as int]);
            }
            let scanned = scan_occurrences(strings[li].as_str(), letter);
            occs.push(scanned);
        }
        // the offsets: the smallest occurrence row and column anywhere
        let mut row_offset: usize = usize::MAX;
        let mut col_offset: usize = usize::MAX;
        for li in 0..layer_count
            invariant
                sv == strings.deep_view(),
                layer_count == sv.len(),
                occs@.len() == layer_count,
                forall|l: int|
                    0 <= l < layer_count ==> (#[trigger] occs@[l])@.map_values(
                        |x: (usize, usize)| (x.0 as int, x.1 as int),
                    ) == layer_occs(sv, letter, l),
                row_offset as int == row_off_upto(sv, letter, li as int),
                col_offset as int == col_off_upto(sv, letter, li as int),
        {
            let m = occs[li].len();
            let ghost lo = layer_occs(sv, letter, li as int);
            proof {
                assert(occs@[li as int]@.map_values(|x: (usize, usize)| (x.0 as int, x.1 as int))
                    == lo);
            }
            for j in 0..m
                invariant
                    sv == strings.deep_view(),
                    layer_count == sv.len(),
                    occs@.len() == layer_count,
                    li < layer_count,
                    forall|l: int|
                        0 <= l < layer_count ==> (#[trigger] occs@[l])@.map_values(
                            |x: (usize, usize)| (x.0 as int, x.1 as int),
                        ) == layer_occs(sv, letter, l),
                    lo == layer_occs(sv, letter, li as int),
                    m == lo.len(),
                    min2(row_offset as int, min_fst_from(lo, j as int)) == row_off_upto(
                        sv,
                        letter,
                        li as int + 1,
                    ),
                    min2(col_offset as int, min_snd_from(lo, j as int)) == col_off_upto(
                        sv,
                        letter,
                        li as int + 1,
                    ),
            {
                proof {
                    assert(lo[j as int] == (occs@[li as int]@[j as int].0 as int, occs@[li as int]@[j as int].1 as int));
                }
                let (orow, ocol) = occs[li][j];
                if orow < row_offset {
                    row_offset = orow;
                }
                if ocol < col_offset {
                    col_offset = ocol;
                }
            }
            proof {
                assert(min_fst_from(lo, m as int) == usize::MAX as int);
                assert(min_snd_from(lo, m as int) == usize::MAX as int);
            }
        }
        let ghost ro = parse_row_offset(sv, letter);
        let ghost co = parse_col_offset(sv, letter);
        // build the shape, checking every aligned occurrence stays inside
        // the layer dimensions
        let mut built = ShapeLayers::new_empty();
        proof {
            assert forall|p: (int, int, int)| !sset(built@, p) by {
                if 0 <= p.0 < 5 && 0 <= p.1 < 5 - p.0 && 0 <= p.2 < 5 - p.0 {
                    assert(!blank_shape()[p.0][p.1][p.2]);
                }
            }
        }
        for li in 0..layer_count
            invariant
                sv == strings.deep_view(),
                layer_count == sv.len(),
                occs@.len() == layer_count,
                forall|l: int|
                    0 <= l < layer_count ==> (#[trigger] occs@[l])@.map_values(
                        |x: (usize, usize)| (x.0 as int, x.1 as int),
                    ) == layer_occs(sv, letter, l),
                row_offset as int == ro,
                col_offset as int == co,
                ro == parse_row_offset(sv, letter),
                co == parse_col_offset(sv, letter),
                built.wf(),
                forall|p: (int, int, int)| #[trigger]
                    sset(built@, p) == (p.0 < li && parse_cell(sv, letter, p)),
                occs_in_range(sv, letter, ro, co, li as int),
        {
            if occs[li].len() > 0 && li >= 5 {
                proof {
                    let lo = layer_occs(sv, letter, li as int);
                    assert(occs@[li as int]@.map_values(
                        |x: (usize, usize)| (x.0 as int, x.1 as int),
                    ) == lo);
                    assert(lo.len() > 0);
                    assert(parse_bad(sv, letter)) by {
                        assert(bad_occ(sv, letter, li as int, 0));
                    }
                }
                return Result::Err(ShapeError::CellOutOfRange);
            }
            let m = occs[li].len();
            let ghost lo = layer_occs(sv, letter, li as int);
            proof {
                assert(occs@[li as int]@.map_values(|x: (usize, usize)| (x.0 as int, x.1 as int))
                    == lo);
            }
            for j in 0..m
                invariant
                    sv == strings.deep_view(),
                    layer_count == sv.len(),
                    occs@.len() == layer_count,
                    li < layer_count,
                    m > 0 ==> li < 5,
                    forall|l: int|
                        0 <= l < layer_count ==> (#[trigger] occs@[l])@.map_values(
                            |x: (usize, usize)| (x.0 as int, x.1 as int),
                        ) == layer_occs(sv, letter, l),
                    lo == layer_occs(sv, letter, li as int),
                    m == lo.len(),
                    row_offset as int == ro,
                    col_offset as int == co,
                    ro == parse_row_offset(sv, letter),
                    co == parse_col_offset(sv, letter),
                    built.wf(),
                    forall|p: (int, int, int)| #[trigger]
                        sset(built@, p) == ((p.0 < li && parse_cell(sv, letter, p)) || (p.0
                            == li && exists|jj: int|
                            0 <= jj < j && lo[jj] == (p.1 + ro, p.2 + co))),
                    occs_in_range(sv, letter, ro, co, li as int),
                    forall|jj: int|
                        0 <= jj < j ==> (#[trigger] lo[jj]).0 - ro < 5 - li && lo[jj].1 - co < 5
                            - li,
            {
                proof {
                    assert(lo[j as int] == (occs@[li as int]@[j as int].0 as int, occs@[li as int]@[j as int].1 as int));
                    lemma_row_off_le(sv, letter, sv.len() as int, li as int);
                    lemma_min_fst_le(lo, 0, j as int);
                }
                let (orow, ocol) = occs[li][j];
                let rr = orow - row_offset;
                let cc = ocol - col_offset;
                if rr >= 5 - li || cc >= 5 - li {
                    proof {
                        assert(parse_bad(sv, letter)) by {
                            assert(layer_occs(sv, letter, li as int)[j as int] == lo[j as int]);
                            assert(bad_occ(sv, letter, li as int, j as int));
                        }
                    }
                    return Result::Err(ShapeError::CellOutOfRange);
                }
                let ghost pre = built@;
                built.update(li, rr, cc, true);
                proof {
                    lemma_shape_update_sset(pre, (li as int, rr as int, cc as int), true);
                    let nb = (li as int, rr as int, cc as int);
                    assert(lo[j as int] == (nb.1 + ro, nb.2 + co));
                    assert forall|p: (int, int, int)| #[trigger]
                        sset(built@, p) == ((p.0 < li && parse_cell(sv, letter, p)) || (p.0 == li
                            && exists|jj: int|
                            0 <= jj < j + 1 && lo[jj] == (p.1 + ro, p.2 + co))) by {
                        if p == nb {
                            assert(sset(built@, p));
                            assert(lo[j as int] == (p.1 + ro, p.2 + co));
                        } else {
                            assert(sset(built@, p) == sset(pre, p));
                            if p.0 == li && exists|jj: int|
                                0 <= jj < j + 1 && lo[jj] == (p.1 + ro, p.2 + co) {
                                let jj = choose|jj: int|
                                    0 <= jj < j + 1 && #[trigger] lo[jj] == (p.1 + ro, p.2 + co);
                                if jj == j {
                                    assert(p.1 == nb.1 && p.2 == nb.2);
                                    assert(p == nb);
                                }
                            }
                        }
                    }
                }
            }
            proof {
                assert(layer_in_range(sv, letter, ro, co, li as int)) by {
                    assert forall|j: int|
                        0 <= j < layer_occs(sv, letter, li as int).len() implies li < 5 && (
                    #[trigger] layer_occs(sv, letter, li as int)[j]).0 - ro < 5 - li && layer_occs(
                        sv,
                        letter,
                        li as int,
                    )[j].1 - co < 5 - li by {
                        assert(layer_occs(sv, letter, li as int)[j] == lo[j]);
                        assert(m > 0);
                        assert((#[trigger] lo[j]).0 - ro < 5 - li && lo[j].1 - co < 5 - li);
                    }
                }
                assert(occs_in_range(sv, letter, ro, co, li as int + 1));
                assert forall|p: (int, int, int)| #[trigger]
                    sset(built@, p) == (p.0 < li + 1 && parse_cell(sv, letter, p)) by {
                    if p.0 == li {
                        if parse_cell(sv, letter, p) {
                            assert(lo.contains((p.1 + ro, p.2 + co)));
                            let jj = choose|jj: int|
                                0 <= jj < lo.len() && #[trigger] lo[jj] == (p.1 + ro, p.2 + co);
                            assert(exists|jj2: int|
                                0 <= jj2 < m && lo[jj2] == (p.1 + ro, p.2 + co));
                        } else {
                            if exists|jj: int| 0 <= jj < m && lo[jj] == (p.1 + ro, p.2 + co) {
                                let jj = choose|jj: int|
                                    0 <= jj < m && #[trigger] lo[jj] == (p.1 + ro, p.2 + co);
                                assert(lo.contains((p.1 + ro, p.2 + co)));
                            }
                        }
                    }
                }
            }
        }
        proof {
            assert forall|p: (int, int, int)| #[trigger]
                sset(built@, p) == parse_cell(sv, letter, p) by {
                if parse_cell(sv, letter, p) {
                    assert(0 <= p.0 < sv.len());
                }
            }
            assert(!parse_bad(sv, letter)) by {
                if parse_bad(sv, letter) {
                    let (l, i) = choose|l: int, i: int| #[trigger] bad_occ(sv, letter, l, i);
                    lemma_occs_in_range_layer(sv, letter, ro, co, sv.len() as int, l);
                    assert((#[trigger] layer_occs(sv, letter, l)[i]).0 - ro < 5 - l);
                    assert(false);
                }
            }
        }
        // detect whether the shape spans more than one layer
        let mut seen_one = false;
        let mut multi = false;
        for k in 0..5usize
            invariant
                built.wf(),
                seen_one == exists|k2: int| 0 <= k2 < k && #[trigger] layer_occ(built@, k2),
                multi == exists|k1: int, k2: int|
                    0 <= k1 < k2 < k && #[trigger] layer_occ(built@, k1) && #[trigger] layer_occ(
                        built@,
                        k2,
                    ),
        {
            if layer_occupied(&built, k) {
                if seen_one {
                    multi = true;
                } else {
                    seen_one = true;
                }
                proof {
                    assert(layer_occ(built@, k as int));
                }
            }
        }
        if !seen_one {
            proof {
                assert(!parse_has(sv, letter)) by {
                    if parse_has(sv, letter) {
                        let l = choose|l: int|
                            0 <= l < sv.len() && (#[trigger] layer_occs(sv, letter, l)).len() > 0;
                        let first = layer_occs(sv, letter, l)[0];
                        lemma_occs_in_range_layer(sv, letter, ro, co, sv.len() as int, l);
                        assert(l < 5);
                        assert(first.0 - ro < 5 - l && first.1 - co < 5 - l);
                        assert(first.0 - ro >= 0 && first.1 - co >= 0) by {
                            lemma_row_off_le(sv, letter, sv.len() as int, l);
                            lemma_min_fst_le(layer_occs(sv, letter, l), 0, 0);
                        }
                        let p = (l, first.0 - ro, first.1 - co);
                        assert(layer_occs(sv, letter, p.0).contains((p.1 + ro, p.2 + co))) by {
                            assert(layer_occs(sv, letter, l)[0] == (p.1 + ro, p.2 + co));
                        }
                        assert(parse_cell(sv, letter, p));
                        assert(sset(built@, p));
                        assert(layer_occ(built@, l));
                        assert(exists|k2: int| 0 <= k2 < 5 && #[trigger] layer_occ(built@, k2));
                    }
                }
            }
            return Result::Ok(Option::None);
        }
        let shape = Shape { layers: built, is_3d: multi };
        proof {
            let k0 = choose|k2: int| 0 <= k2 < 5 && #[trigger] layer_occ(shape@, k2);
            assert(shape_nonempty(shape@));
            // the offsets are attained, so the built shape already touches
            // row 0 and column 0 and snapping moves nothing
            assert(parse_has(sv, letter)) by {
                let p0 = choose|p: (int, int, int)| #[trigger] sset(shape@, p);
                assert(parse_cell(sv, letter, p0));
            }
            let lw = choose|l: int|
                0 <= l < sv.len() && (#[trigger] layer_occs(sv, letter, l)).len() > 0;
            assert forall|l: int, j: int|
                0 <= l < sv.len() && 0 <= j < layer_occs(sv, letter, l).len() implies 0 <= (
            #[trigger] layer_occs(sv, letter, l)[j]).0 <= usize::MAX && 0 <= layer_occs(
                sv,
                letter,
                l,
            )[j].1 <= usize::MAX by {
                assert(layer_occs(sv, letter, l)[j] == (occs@[l]@[j].0 as int, occs@[l]@[j].1 as int));
            }
            lemma_row_off_attained(sv, letter, sv.len() as int);
            let (al, aj) = choose|al: int, aj: int|
                0 <= al < sv.len() && 0 <= aj < layer_occs(sv, letter, al).len() && (
                #[trigger] layer_occs(sv, letter, al)[aj]).0 == ro;
            lemma_occs_in_range_layer(sv, letter, ro, co, sv.len() as int, al);
            let aocc = layer_occs(sv, letter, al)[aj];
            assert(aocc.1 - co >= 0) by {
                lemma_row_off_le(sv, letter, sv.len() as int, al);
                lemma_min_fst_le(layer_occs(sv, letter, al), 0, aj);
            }
            let ap = (al, 0int, aocc.1 - co);
            assert(al < 5 && aocc.0 - ro < 5 - al && aocc.1 - co < 5 - al);
            assert(parse_cell(sv, letter, ap)) by {
                assert(layer_occs(sv, letter, al)[aj] == (ap.1 + ro, ap.2 + co));
                assert(layer_occs(sv, letter, al).contains((ap.1 + ro, ap.2 + co)));
            }
            assert(sset(shape@, ap));
            assert(occ_row(shape@, 0));
            let (bl, bj) = choose|bl: int, bj: int|
                0 <= bl < sv.len() && 0 <= bj < layer_occs(sv, letter, bl).len() && (
                #[trigger] layer_occs(sv, letter, bl)[bj]).1 == co;
            lemma_occs_in_range_layer(sv, letter, ro, co, sv.len() as int, bl);
            let bocc = layer_occs(sv, letter, bl)[bj];
            assert(bocc.0 - ro >= 0) by {
                lemma_row_off_le(sv, letter, sv.len() as int, bl);
                lemma_min_fst_le(layer_occs(sv, letter, bl), 0, bj);
            }
            let bp = (bl, bocc.0 - ro, 0int);
            assert(bl < 5 && bocc.0 - ro < 5 - bl && bocc.1 - co < 5 - bl);
            assert(parse_cell(sv, letter, bp)) by {
                assert(layer_occs(sv, letter, bl)[bj] == (bp.1 + ro, bp.2 + co));
                assert(layer_occs(sv, letter, bl).contains((bp.1 + ro, bp.2 + co)));
            }
            assert(sset(shape@, bp));
            assert(occ_col(shape@, 0));
            assert(first_occ_row(shape@) == 0);
            assert(first_occ_col(shape@) == 0);
        }
        let snapped = shape.snap_to_top_left();
        proof {
            lemma_translate_zero(shape@);
            assert(snapped@ == shape@);
            assert forall|k: int, r2: int, c2: int|
                0 <= k < 5 && 0 <= r2 < 5 - k && 0 <= c2 < 5 - k implies snapped@[k][r2][c2]
                == parsed_shape_spec(sv, letter)[k][r2][c2] by {
                assert(sset(snapped@, (k, r2, c2)) == parse_cell(sv, letter, (k, r2, c2)));
            }
            assert(snapped@ =~~= parsed_shape_spec(sv, letter));
        }
        Result::Ok(Option::Some(snapped))
    }
}


/// The stack rotated clockwise `n` times.
pub open spec fn rot_n(v: Seq<Seq<Seq<bool>>>, n: int) -> Seq<Seq<Seq<bool>>>
    decreases n,
{
    if n <= 0 {
        v
    } else {
        rotate_spec(rot_n(v, n - 1))
    }
}

/// The stack snapped to the top left.
pub open spec fn snap_spec(v: Seq<Seq<Seq<bool>>>) -> Seq<Seq<Seq<bool>>> {
    translate_spec(v, first_occ_row(v), first_occ_col(v))
}

/// The stack itself or its mirror image.
pub open spec fn mirrored(v: Seq<Seq<Seq<bool>>>, m: int) -> Seq<Seq<Seq<bool>>> {
    if m == 0 {
        v
    } else {
        reflect_spec(v)
    }
}

/// The flat orientation of a base shape: mirror `m` (0 or 1), then `t`
/// rotations, then snap to the top left.
pub open spec fn flat_cand(base: Seq<Seq<Seq<bool>>>, m: int, t: int) -> Seq<Seq<Seq<bool>>> {
    snap_spec(rot_n(mirrored(base, m), t))
}

/// The erected orientation of a base shape: mirror `m`, rotate `t` times,
/// erect, rotate `u` more times, snap.
pub open spec fn erect_cand(base: Seq<Seq<Seq<bool>>>, m: int, t: int, u: int) -> Seq<
    Seq<Seq<bool>>,
> {
    snap_spec(rot_n(erect_spec(rot_n(mirrored(base, m), t)), u))
}

/// Some element of the list holds exactly these cells and this flag.
pub open spec fn appears(s: Seq<Shape>, v: Seq<Seq<Seq<bool>>>, d: bool) -> bool {
    exists|i: int| 0 <= i < s.len() && (#[trigger] s[i])@ == v && s[i].is_3d == d
}

/// The orientations a base shape gives rise to: its snapped flat
/// mirror-rotations and, when three-dimensional forms are wanted, the
/// snapped rotations of each non-empty erected form.
pub open spec fn orientation_cand(
    base: Seq<Seq<Seq<bool>>>,
    with_3d: bool,
    v: Seq<Seq<Seq<bool>>>,
    d: bool,
) -> bool {
    ||| (!d && exists|m: int, t: int|
        0 <= m < 2 && 0 <= t < 4 && v == #[trigger] flat_cand(base, m, t))
    ||| (d && with_3d && exists|m: int, t: int, u: int|
        0 <= m < 2 && 0 <= t < 4 && 0 <= u < 4 && shape_nonempty(
            erect_spec(rot_n(mirrored(base, m), t)),
        ) && v == #[trigger] erect_cand(base, m, t, u))
}

/// Pushing one shape extends the membership predicate by exactly its
/// cells and flag.
pub proof fn lemma_appears_push(s: Seq<Shape>, x: Shape)
    ensures
        forall|v: Seq<Seq<Seq<bool>>>, d: bool| #[trigger]
            appears(s.push(x), v, d) == (appears(s, v, d) || (x@ == v && x.is_3d == d)),
{
    assert forall|v: Seq<Seq<Seq<bool>>>, d: bool| #[trigger]
        appears(s.push(x), v, d) == (appears(s, v, d) || (x@ == v && x.is_3d == d)) by {
        if appears(s.push(x), v, d) {
            let i = choose|i: int|
                0 <= i < s.push(x).len() && (#[trigger] s.push(x)[i])@ == v && s.push(x)[i].is_3d
                    == d;
            if i < s.len() {
                assert(s[i] == s.push(x)[i]);
                assert(appears(s, v, d));
            } else {
                assert(s.push(x)[i] == x);
            }
        }
        if appears(s, v, d) {
            let i = choose|i: int|
                0 <= i < s.len() && (#[trigger] s[i])@ == v && s[i].is_3d == d;
            assert(s.push(x)[i] == s[i]);
            assert(appears(s.push(x), v, d));
        }
        if x@ == v && x.is_3d == d {
            assert(s.push(x)[s.len() as int] == x);
            assert(appears(s.push(x), v, d));
        }
    }
}

/// Removing one shape can only lose its own cells-and-flag reading.
pub proof fn lemma_appears_remove(s: Seq<Shape>, i: int)
    requires
        0 <= i < s.len(),
    ensures
        forall|v: Seq<Seq<Seq<bool>>>, d: bool| #[trigger]
            appears(s.remove(i), v, d) ==> appears(s, v, d),
        forall|v: Seq<Seq<Seq<bool>>>, d: bool| #[trigger]
            appears(s, v, d) ==> appears(s.remove(i), v, d) || (s[i]@ == v && s[i].is_3d == d),
{
    assert forall|v: Seq<Seq<Seq<bool>>>, d: bool| #[trigger]
        appears(s.remove(i), v, d) implies appears(s, v, d) by {
        let j = choose|j: int|
            0 <= j < s.remove(i).len() && (#[trigger] s.remove(i)[j])@ == v && s.remove(i)[j].is_3d
                == d;
        if j < i {
            assert(s[j] == s.remove(i)[j]);
            assert(appears(s, v, d));
        } else {
            assert(s[j + 1] == s.remove(i)[j]);
            assert(appears(s, v, d));
        }
    }
    assert forall|v: Seq<Seq<Seq<bool>>>, d: bool| #[trigger]
        appears(s, v, d) implies appears(s.remove(i), v, d) || (s[i]@ == v && s[i].is_3d == d) by {
        let j = choose|j: int| 0 <= j < s.len() && (#[trigger] s[j])@ == v && s[j].is_3d == d;
        if j < i {
            assert(s.remove(i)[j] == s[j]);
            assert(appears(s.remove(i), v, d));
        } else if j > i {
            assert(s.remove(i)[j - 1] == s[j]);
            assert(appears(s.remove(i), v, d));
        }
    }
}


/// Flat candidates from mirror-rotation blocks lexicographically before
/// (m, t).
pub open spec fn flat_part(
    base: Seq<Seq<Seq<bool>>>,
    m: int,
    t: int,
    v: Seq<Seq<Seq<bool>>>,
    d: bool,
) -> bool {
    !d && exists|m2: int, t2: int|
        0 <= m2 < 2 && 0 <= t2 < 4 && (m2 < m || (m2 == m && t2 < t)) && v == #[trigger] flat_cand(
            base,
            m2,
            t2,
        )
}

/// Erected candidates from blocks lexicographically before (m, t, u).
pub open spec fn erect_part(
    base: Seq<Seq<Seq<bool>>>,
    m: int,
    t: int,
    u: int,
    v: Seq<Seq<Seq<bool>>>,
    d: bool,
) -> bool {
    d && exists|m2: int, t2: int, u2: int|
        0 <= m2 < 2 && 0 <= t2 < 4 && 0 <= u2 < 4 && (m2 < m || (m2 == m && t2 < t) || (m2 == m
            && t2 == t && u2 < u)) && shape_nonempty(erect_spec(rot_n(mirrored(base, m2), t2)))
            && v == #[trigger] erect_cand(base, m2, t2, u2)
}

pub proof fn lemma_flat_part_step(base: Seq<Seq<Seq<bool>>>, m: int, t: int)
    requires
        0 <= m < 2,
        0 <= t < 4,
    ensures
        forall|v: Seq<Seq<Seq<bool>>>, d: bool| #[trigger]
            flat_part(base, m, t + 1, v, d) == (flat_part(base, m, t, v, d) || (!d && v
                == flat_cand(base, m, t))),
{
    assert forall|v: Seq<Seq<Seq<bool>>>, d: bool| #[trigger]
        flat_part(base, m, t + 1, v, d) == (flat_part(base, m, t, v, d) || (!d && v == flat_cand(
            base,
            m,
            t,
        ))) by {
        if flat_part(base, m, t + 1, v, d) {
            let (m2, t2) = choose|m2: int, t2: int|
                0 <= m2 < 2 && 0 <= t2 < 4 && (m2 < m || (m2 == m && t2 < t + 1)) && v
                    == #[trigger] flat_cand(base, m2, t2);
            if m2 == m && t2 == t {
            } else {
                assert(flat_part(base, m, t, v, d));
            }
        }
        if flat_part(base, m, t, v, d) {
            assert(flat_part(base, m, t + 1, v, d));
        }
        if !d && v == flat_cand(base, m, t) {
            assert(flat_part(base, m, t + 1, v, d));
        }
    }
}

pub proof fn lemma_flat_part_wrap(base: Seq<Seq<Seq<bool>>>, m: int)
    requires
        0 <= m < 2,
    ensures
        forall|v: Seq<Seq<Seq<bool>>>, d: bool| #[trigger]
            flat_part(base, m, 4, v, d) == flat_part(base, m + 1, 0, v, d),
{
    assert forall|v: Seq<Seq<Seq<bool>>>, d: bool| #[trigger]
        flat_part(base, m, 4, v, d) == flat_part(base, m + 1, 0, v, d) by {
        if flat_part(base, m, 4, v, d) {
            let (m2, t2) = choose|m2: int, t2: int|
                0 <= m2 < 2 && 0 <= t2 < 4 && (m2 < m || (m2 == m && t2 < 4)) && v
                    == #[trigger] flat_cand(base, m2, t2);
            assert(m2 < m + 1);
            assert(flat_part(base, m + 1, 0, v, d));
        }
        if flat_part(base, m + 1, 0, v, d) {
            let (m2, t2) = choose|m2: int, t2: int|
                0 <= m2 < 2 && 0 <= t2 < 4 && (m2 < m + 1 || (m2 == m + 1 && t2 < 0)) && v
                    == #[trigger] flat_cand(base, m2, t2);
            assert(m2 < m || (m2 == m && t2 < 4));
            assert(flat_part(base, m, 4, v, d));
        }
    }
}

pub proof fn lemma_erect_part_step(base: Seq<Seq<Seq<bool>>>, m: int, t: int, u: int)
    requires
        0 <= m < 2,
        0 <= t < 4,
        0 <= u < 4,
        shape_nonempty(erect_spec(rot_n(mirrored(base, m), t))),
    ensures
        forall|v: Seq<Seq<Seq<bool>>>, d: bool| #[trigger]
            erect_part(base, m, t, u + 1, v, d) == (erect_part(base, m, t, u, v, d) || (d && v
                == erect_cand(base, m, t, u))),
{
    assert forall|v: Seq<Seq<Seq<bool>>>, d: bool| #[trigger]
        erect_part(base, m, t, u + 1, v, d) == (erect_part(base, m, t, u, v, d) || (d && v
            == erect_cand(base, m, t, u))) by {
        if erect_part(base, m, t, u + 1, v, d) {
            let (m2, t2, u2) = choose|m2: int, t2: int, u2: int|
                0 <= m2 < 2 && 0 <= t2 < 4 && 0 <= u2 < 4 && (m2 < m || (m2 == m && t2 < t) || (m2
                    == m && t2 == t && u2 < u + 1)) && shape_nonempty(
                    erect_spec(rot_n(mirrored(base, m2), t2)),
                ) && v == #[trigger] erect_cand(base, m2, t2, u2);
            if m2 == m && t2 == t && u2 == u {
            } else {
                assert(erect_part(base, m, t, u, v, d));
            }
        }
        if erect_part(base, m, t, u, v, d) {
            assert(erect_part(base, m, t, u + 1, v, d));
        }
        if d && v == erect_cand(base, m, t, u) {
            assert(erect_part(base, m, t, u + 1, v, d));
        }
    }
}

pub proof fn lemma_erect_part_wrap_t(base: Seq<Seq<Seq<bool>>>, m: int, t: int)
    requires
        0 <= m < 2,
        0 <= t < 4,
    ensures
        forall|v: Seq<Seq<Seq<bool>>>, d: bool| #[trigger]
            erect_part(base, m, t, 4, v, d) == erect_part(base, m, t + 1, 0, v, d),
{
    assert forall|v: Seq<Seq<Seq<bool>>>, d: bool| #[trigger]
        erect_part(base, m, t, 4, v, d) == erect_part(base, m, t + 1, 0, v, d) by {
        if erect_part(base, m, t, 4, v, d) {
            let (m2, t2, u2) = choose|m2: int, t2: int, u2: int|
                0 <= m2 < 2 && 0 <= t2 < 4 && 0 <= u2 < 4 && (m2 < m || (m2 == m && t2 < t) || (m2
                    == m && t2 == t && u2 < 4)) && shape_nonempty(
                    erect_spec(rot_n(mirrored(base, m2), t2)),
                ) && v == #[trigger] erect_cand(base, m2, t2, u2);
            assert(m2 < m || (m2 == m && t2 < t + 1));
            assert(erect_part(base, m, t + 1, 0, v, d));
        }
        if erect_part(base, m, t + 1, 0, v, d) {
            let (m2, t2, u2) = choose|m2: int, t2: int, u2: int|
                0 <= m2 < 2 && 0 <= t2 < 4 && 0 <= u2 < 4 && (m2 < m || (m2 == m && t2 < t + 1)
                    || (m2 == m && t2 == t + 1 && u2 < 0)) && shape_nonempty(
                    erect_spec(rot_n(mirrored(base, m2), t2)),
                ) && v == #[trigger] erect_cand(base, m2, t2, u2);
            assert(m2 < m || (m2 == m && t2 < t) || (m2 == m && t2 == t && u2 < 4));
            assert(erect_part(base, m, t, 4, v, d));
        }
    }
}

pub proof fn lemma_erect_part_skip(base: Seq<Seq<Seq<bool>>>, m: int, t: int)
    requires
        0 <= m < 2,
        0 <= t < 4,
        !shape_nonempty(erect_spec(rot_n(mirrored(base, m), t))),
    ensures
        forall|v: Seq<Seq<Seq<bool>>>, d: bool| #[trigger]
            erect_part(base, m, t, 0, v, d) == erect_part(base, m, t + 1, 0, v, d),
{
    assert forall|v: Seq<Seq<Seq<bool>>>, d: bool| #[trigger]
        erect_part(base, m, t, 0, v, d) == erect_part(base, m, t + 1, 0, v, d) by {
        if erect_part(base, m, t, 0, v, d) {
            assert(erect_part(base, m, t + 1, 0, v, d));
        }
        if erect_part(base, m, t + 1, 0, v, d) {
            let (m2, t2, u2) = choose|m2: int, t2: int, u2: int|
                0 <= m2 < 2 && 0 <= t2 < 4 && 0 <= u2 < 4 && (m2 < m || (m2 == m && t2 < t + 1)
                    || (m2 == m && t2 == t + 1 && u2 < 0)) && shape_nonempty(
                    erect_spec(rot_n(mirrored(base, m2), t2)),
                ) && v == #[trigger] erect_cand(base, m2, t2, u2);
            assert(!(m2 == m && t2 == t));
            assert(erect_part(base, m, t, 0, v, d));
        }
    }
}

pub proof fn lemma_erect_part_wrap_m(base: Seq<Seq<Seq<bool>>>, m: int)
    requires
        0 <= m < 2,
    ensures
        forall|v: Seq<Seq<Seq<bool>>>, d: bool| #[trigger]
            erect_part(base, m, 4, 0, v, d) == erect_part(base, m + 1, 0, 0, v, d),
{
    assert forall|v: Seq<Seq<Seq<bool>>>, d: bool| #[trigger]
        erect_part(base, m, 4, 0, v, d) == erect_part(base, m + 1, 0, 0, v, d) by {
        if erect_part(base, m, 4, 0, v, d) {
            let (m2, t2, u2) = choose|m2: int, t2: int, u2: int|
                0 <= m2 < 2 && 0 <= t2 < 4 && 0 <= u2 < 4 && (m2 < m || (m2 == m && t2 < 4) || (m2
                    == m && t2 == 4 && u2 < 0)) && shape_nonempty(
                    erect_spec(rot_n(mirrored(base, m2), t2)),
                ) && v == #[trigger] erect_cand(base, m2, t2, u2);
            assert(m2 < m + 1);
            assert(erect_part(base, m + 1, 0, 0, v, d));
        }
        if erect_part(base, m + 1, 0, 0, v, d) {
            let (m2, t2, u2) = choose|m2: int, t2: int, u2: int|
                0 <= m2 < 2 && 0 <= t2 < 4 && 0 <= u2 < 4 && (m2 < m + 1 || (m2 == m + 1 && t2 < 0)
                    || (m2 == m + 1 && t2 == 0 && u2 < 0)) && shape_nonempty(
                    erect_spec(rot_n(mirrored(base, m2), t2)),
                ) && v == #[trigger] erect_cand(base, m2, t2, u2);
            assert(m2 < m || (m2 == m && t2 < 4));
            assert(erect_part(base, m, 4, 0, v, d));
        }
    }
}

/// Generates every distinct orientation of a flat base shape: its four
/// rotations, the four rotations of its mirror image, and (when the board
/// supports three dimensions) the rotations of each non-empty erected
/// form; all normalized to the top left, deduplicated, and sorted by the
/// canonical integer encoding. The result holds exactly the candidate
/// orientations: one element per distinct (cells, flag) reading of
/// `orientation_cand`.
pub fn generate_orientations(shape: &Shape, include_3d: bool) -> (r: Vec<Shape>)
    requires
        shape.wf(),
        shape_nonempty(shape@),
        !shape.is_3d,
    ensures
        1 <= r@.len() <= 99,
        forall|i: int|
            0 <= i < r@.len() ==> (#[trigger] r@[i]).wf() && shape_nonempty(r@[i]@),
        forall|i: int, j: int|
            #![trigger r@[i], r@[j]]
            0 <= i < j < r@.len() ==> !(r@[i]@ == r@[j]@ && r@[i].is_3d == r@[j].is_3d),
        forall|i: int, j: int|
            #![trigger r@[i], r@[j]]
            0 <= i <= j < r@.len() ==> to_int_spec(r@[i]@) <= to_int_spec(r@[j]@),
        forall|v: Seq<Seq<Seq<bool>>>, d: bool| #[trigger]
            appears(r@, v, d) == orientation_cand(shape@, include_3d, v, d),
{
    let ghost bv = shape@;
    let mut candidates: Vec<Shape> = Vec::new();
    for m in 0..2usize
        invariant
            shape.wf(),
            shape_nonempty(shape@),
            !shape.is_3d,
            bv == shape@,
            candidates@.len() <= m * 20,
            m > 0 ==> candidates@.len() >= 1,
            forall|i: int|
                0 <= i < candidates@.len() ==> (#[trigger] candidates@[i]).wf() && shape_nonempty(
                    candidates@[i]@,
                ),
            forall|v: Seq<Seq<Seq<bool>>>, d: bool| #[trigger]
                appears(candidates@, v, d) == (flat_part(bv, m as int, 0, v, d) || (include_3d
                    && erect_part(bv, m as int, 0, 0, v, d))),
    {
        let base = if m == 0 {
            shape.duplicate()
        } else {
            proof {
                lemma_reflect_sset(shape@);
            }
            shape.reflect()
        };
        let ghost mb = mirrored(bv, m as int);
        proof {
            assert(base@ == mb);
        }
        let mut cur = base;
        for t in 0..4usize
            invariant
                shape.wf(),
                bv == shape@,
                cur.wf(),
                shape_nonempty(cur@),
                !cur.is_3d,
                mb == mirrored(bv, m as int),
                cur@ == rot_n(mb, t as int),
                m < 2,
                candidates@.len() <= m * 20 + t * 5,
                (m > 0 || t > 0) ==> candidates@.len() >= 1,
                forall|i: int|
                    0 <= i < candidates@.len() ==> (#[trigger] candidates@[i]).wf()
                        && shape_nonempty(candidates@[i]@),
                forall|v: Seq<Seq<Seq<bool>>>, d: bool| #[trigger]
                    appears(candidates@, v, d) == (flat_part(bv, m as int, t as int, v, d) || (
                    include_3d && erect_part(bv, m as int, t as int, 0, v, d))),
        {
            let snapped = cur.snap_to_top_left();
            proof {
                assert(snapped@ == flat_cand(bv, m as int, t as int));
                lemma_appears_push(candidates@, snapped);
                lemma_flat_part_step(bv, m as int, t as int);
            }
            candidates.push(snapped);
            if include_3d && !cur.is_3d {
                let erected = cur.erect();
                proof {
                    assert(erected@ == erect_spec(rot_n(mb, t as int)));
                }
                if !erected.is_empty() {
                    let mut ecur = erected;
                    for u in 0..4usize
                        invariant
                            shape.wf(),
                            bv == shape@,
                            cur.wf(),
                            shape_nonempty(cur@),
                            !cur.is_3d,
                            include_3d,
                            mb == mirrored(bv, m as int),
                            cur@ == rot_n(mb, t as int),
                            shape_nonempty(erect_spec(rot_n(mb, t as int))),
                            ecur.wf(),
                            shape_nonempty(ecur@),
                            ecur.is_3d,
                            ecur@ == rot_n(erect_spec(rot_n(mb, t as int)), u as int),
                            m < 2,
                            t < 4,
                            candidates@.len() <= m * 20 + t * 5 + 1 + u,
                            candidates@.len() >= 1,
                            forall|i: int|
                                0 <= i < candidates@.len() ==> (#[trigger] candidates@[i]).wf()
                                    && shape_nonempty(candidates@[i]@),
                            forall|v: Seq<Seq<Seq<bool>>>, d: bool| #[trigger]
                                appears(candidates@, v, d) == (flat_part(
                                    bv,
                                    m as int,
                                    t as int + 1,
                                    v,
                                    d,
                                ) || erect_part(bv, m as int, t as int, u as int, v, d)),
                    {
                        let esnapped = ecur.snap_to_top_left();
                        proof {
                            assert(esnapped@ == erect_cand(bv, m as int, t as int, u as int));
                            lemma_appears_push(candidates@, esnapped);
                            lemma_erect_part_step(bv, m as int, t as int, u as int);
                        }
                        candidates.push(esnapped);
                        proof {
                            lemma_rotate_sset(ecur@);
                        }
                        ecur = ecur.rotate();
                    }
                    proof {
                        lemma_erect_part_wrap_t(bv, m as int, t as int);
                    }
                } else {
                    proof {
                        lemma_erect_part_skip(bv, m as int, t as int);
                        lemma_erect_part_wrap_t(bv, m as int, t as int);
                        assert(forall|v: Seq<Seq<Seq<bool>>>, d: bool| #[trigger]
                            erect_part(bv, m as int, t as int, 0, v, d) == erect_part(
                                bv,
                                m as int,
                                t as int + 1,
                                0,
                                v,
                                d,
                            ));
                    }
                }
            } else {
                proof {
                    if include_3d {
                        assert(false);
                    }
                }
            }
            proof {
                lemma_rotate_sset(cur@);
            }
            cur = cur.rotate();
        }
        proof {
            lemma_flat_part_wrap(bv, m as int);
            lemma_erect_part_wrap_m(bv, m as int);
        }
    }
    proof {
        assert forall|v: Seq<Seq<Seq<bool>>>, d: bool| #[trigger]
            appears(candidates@, v, d) == orientation_cand(bv, include_3d, v, d) by {
            assert(appears(candidates@, v, d) == (flat_part(bv, 2, 0, v, d) || (include_3d
                && erect_part(bv, 2, 0, 0, v, d))));
            if flat_part(bv, 2, 0, v, d) {
                assert(orientation_cand(bv, include_3d, v, d));
            }
            if include_3d && erect_part(bv, 2, 0, 0, v, d) {
                assert(orientation_cand(bv, include_3d, v, d));
            }
            if orientation_cand(bv, include_3d, v, d) {
                if !d {
                    let (m2, t2) = choose|m2: int, t2: int|
                        0 <= m2 < 2 && 0 <= t2 < 4 && v == #[trigger] flat_cand(bv, m2, t2);
                    assert(flat_part(bv, 2, 0, v, d));
                } else {
                    let (m2, t2, u2) = choose|m2: int, t2: int, u2: int|
                        0 <= m2 < 2 && 0 <= t2 < 4 && 0 <= u2 < 4 && shape_nonempty(
                            erect_spec(rot_n(mirrored(bv, m2), t2)),
                        ) && v == #[trigger] erect_cand(bv, m2, t2, u2);
                    assert(erect_part(bv, 2, 0, 0, v, d));
                }
            }
        }
    }
    // sort ascending by the canonical encoding, keeping the same readings
    let mut rest = candidates;
    let mut sorted: Vec<Shape> = Vec::new();
    let ghost total = rest@.len() + sorted@.len();
    while rest.len() > 0
        invariant
            rest@.len() + sorted@.len() == total,
            1 <= total <= 40,
            bv == shape@,
            forall|i: int|
                0 <= i < rest@.len() ==> (#[trigger] rest@[i]).wf() && shape_nonempty(rest@[i]@),
            forall|i: int|
                0 <= i < sorted@.len() ==> (#[trigger] sorted@[i]).wf() && shape_nonempty(
                    sorted@[i]@,
                ),
            forall|i: int, j: int|
                #![trigger sorted@[i], sorted@[j]]
                0 <= i <= j < sorted@.len() ==> to_int_spec(sorted@[i]@) <= to_int_spec(
                    sorted@[j]@,
                ),
            forall|i: int, j: int|
                #![trigger sorted@[i], rest@[j]]
                0 <= i < sorted@.len() && 0 <= j < rest@.len() ==> to_int_spec(sorted@[i]@)
                    <= to_int_spec(rest@[j]@),
            forall|v: Seq<Seq<Seq<bool>>>, d: bool|
                #![trigger orientation_cand(bv, include_3d, v, d)]
                (appears(sorted@, v, d) || appears(rest@, v, d)) == orientation_cand(
                    bv,
                    include_3d,
                    v,
                    d,
                ),
        decreases rest@.len(),
    {
        let mut min_idx: usize = 0;
        let mut min_key: u64 = to_int(&rest[0]);
        let n = rest.len();
        for i in 1..n
            invariant
                n == rest@.len(),
                n > 0,
                min_idx < n,
                forall|k: int|
                    0 <= k < rest@.len() ==> (#[trigger] rest@[k]).wf() && shape_nonempty(
                        rest@[k]@,
                    ),
                min_key as int == to_int_spec(rest@[min_idx as int]@),
                forall|k: int|
                    0 <= k < i ==> min_key as int <= to_int_spec((#[trigger] rest@[k])@),
        {
            let key = to_int(&rest[i]);
            if key < min_key {
                min_idx = i;
                min_key = key;
            }
        }
        let ghost rest_pre = rest@;
        let ghost sorted_pre = sorted@;
        let picked = rest.remove(min_idx);
        proof {
            lemma_appears_remove(rest_pre, min_idx as int);
            lemma_appears_push(sorted_pre, picked);
        }
        sorted.push(picked);
        proof {
            assert(sorted@ == sorted_pre.push(picked));
            assert forall|v: Seq<Seq<Seq<bool>>>, d: bool|
                #![trigger orientation_cand(bv, include_3d, v, d)]
                (appears(sorted@, v, d) || appears(rest@, v, d)) == orientation_cand(
                    bv,
                    include_3d,
                    v,
                    d,
                ) by {
                if appears(sorted@, v, d) {
                    assert(appears(sorted_pre, v, d) || (picked@ == v && picked.is_3d == d));
                    if picked@ == v && picked.is_3d == d {
                        assert(rest_pre[min_idx as int] == picked);
                        assert(appears(rest_pre, v, d));
                    }
                    assert(orientation_cand(bv, include_3d, v, d));
                }
                if appears(rest@, v, d) {
                    assert(appears(rest_pre, v, d));
                    assert(orientation_cand(bv, include_3d, v, d));
                }
                if orientation_cand(bv, include_3d, v, d) {
                    assert(appears(sorted_pre, v, d) || appears(rest_pre, v, d));
                    if appears(sorted_pre, v, d) {
                        assert(appears(sorted@, v, d));
                    } else {
                        assert(appears(rest@, v, d) || (rest_pre[min_idx as int]@ == v
                            && rest_pre[min_idx as int].is_3d == d));
                        if rest_pre[min_idx as int]@ == v && rest_pre[min_idx as int].is_3d == d {
                            assert(appears(sorted@, v, d));
                        }
                    }
                }
            }
        }
    }
    // keep only the first of each group of structurally equal shapes
    let mut out: Vec<Shape> = Vec::new();
    while rest.len() == 0 && sorted.len() > 0
        invariant
            rest@.len() == 0,
            bv == shape@,
            forall|i: int|
                0 <= i < sorted@.len() ==> (#[trigger] sorted@[i]).wf() && shape_nonempty(
                    sorted@[i]@,
                ),
            forall|i: int, j: int|
                #![trigger sorted@[i], sorted@[j]]
                0 <= i <= j < sorted@.len() ==> to_int_spec(sorted@[i]@) <= to_int_spec(
                    sorted@[j]@,
                ),
            forall|i: int|
                0 <= i < out@.len() ==> (#[trigger] out@[i]).wf() && shape_nonempty(out@[i]@),
            forall|i: int, j: int|
                #![trigger out@[i], out@[j]]
                0 <= i < j < out@.len() ==> !(out@[i]@ == out@[j]@ && out@[i].is_3d
                    == out@[j].is_3d),
            forall|i: int, j: int|
                #![trigger out@[i], out@[j]]
                0 <= i <= j < out@.len() ==> to_int_spec(out@[i]@) <= to_int_spec(out@[j]@),
            forall|i: int, j: int|
                #![trigger out@[i], sorted@[j]]
                0 <= i < out@.len() && 0 <= j < sorted@.len() ==> to_int_spec(out@[i]@)
                    <= to_int_spec(sorted@[j]@),
            out@.len() + sorted@.len() <= 40,
            out@.len() + sorted@.len() >= 1,
            forall|v: Seq<Seq<Seq<bool>>>, d: bool|
                #![trigger orientation_cand(bv, include_3d, v, d)]
                (appears(out@, v, d) || appears(sorted@, v, d)) == orientation_cand(
                    bv,
                    include_3d,
                    v,
                    d,
                ),
        decreases sorted@.len(),
    {
        let ghost sorted_pre = sorted@;
        let cand = sorted.remove(0);
        proof {
            lemma_appears_remove(sorted_pre, 0);
        }
        let mut dup = false;
        let n = out.len();
        for i in 0..n
            invariant
                n == out@.len(),
                cand.wf(),
                forall|k: int|
                    0 <= k < out@.len() ==> (#[trigger] out@[k]).wf() && shape_nonempty(
                        out@[k]@,
                    ),
                dup == exists|k: int|
                    0 <= k < i && (#[trigger] out@[k])@ == cand@ && out@[k].is_3d == cand.is_3d,
        {
            if out[i].equals(&cand) {
                dup = true;
            }
            proof {
                if out@[i as int]@ == cand@ && out@[i as int].is_3d == cand.is_3d {
                    assert(exists|k: int|
                        0 <= k < i + 1 && (#[trigger] out@[k])@ == cand@ && out@[k].is_3d
                            == cand.is_3d);
                }
            }
        }
        if !dup {
            proof {
                lemma_appears_push(out@, cand);
            }
            out.push(cand);
        } else {
            proof {
                assert(appears(out@, cand@, cand.is_3d));
            }
        }
        proof {
            assert forall|v: Seq<Seq<Seq<bool>>>, d: bool|
                #![trigger orientation_cand(bv, include_3d, v, d)]
                (appears(out@, v, d) || appears(sorted@, v, d)) == orientation_cand(
                    bv,
                    include_3d,
                    v,
                    d,
                ) by {
                if orientation_cand(bv, include_3d, v, d) {
                    if appears(sorted_pre, v, d) {
                        assert(appears(sorted@, v, d) || (sorted_pre[0]@ == v
                            && sorted_pre[0].is_3d == d));
                    }
                }
            }
        }
    }
    proof {
        assert(out@.len() >= 1);
        assert forall|v: Seq<Seq<Seq<bool>>>, d: bool| #[trigger]
            appears(out@, v, d) == orientation_cand(bv, include_3d, v, d) by {
            assert(!appears(sorted@, v, d));
        }
    }
    out
}

impl Piece {
    /// Parses the text that draws a piece's base shape and derives all of
    /// its orientations: exactly the candidate orientations of the drawn
    /// shape, deduplicated and sorted. Fails with `LetterMissing` exactly
    /// when the letter does not occur in the text, and with
    /// `CellOutOfRange` exactly when an occurrence falls outside the
    /// shape's dimensions.
    pub fn parse(value: &str, letter: char, include_3d: bool) -> (r: Result<Piece, ShapeError>)
        requires
            65 <= letter as int <= 90,
        ensures
            match r {
                Result::Ok(piece) => {
                    &&& parse_has(seq![value@], letter)
                    &&& !parse_bad(seq![value@], letter)
                    &&& piece.letter == letter
                    &&& piece_wf(piece)
                    &&& forall|i: int, j: int|
                        #![trigger piece.orientations@[i], piece.orientations@[j]]
                        0 <= i < j < piece.orientations@.len() ==> !(piece.orientations@[i]@
                            == piece.orientations@[j]@ && piece.orientations@[i].is_3d
                            == piece.orientations@[j].is_3d) && to_int_spec(
                            piece.orientations@[i]@,
                        ) <= to_int_spec(piece.orientations@[j]@)
                    &&& forall|v: Seq<Seq<Seq<bool>>>, d: bool| #[trigger]
                        appears(piece.orientations@, v, d) == orientation_cand(
                            parsed_shape_spec(seq![value@], letter),
                            include_3d,
                            v,
                            d,
                        )
                },
                Result::Err(e) => match e {
                    ShapeError::LetterMissing => !parse_has(seq![value@], letter) && !parse_bad(
                        seq![value@],
                        letter,
                    ),
                    ShapeError::CellOutOfRange => parse_bad(seq![value@], letter),
                },
            },
    {
        let mut to_parse: Vec<String> = Vec::new();
        to_parse.push(value.to_owned());
        proof {
            assert(to_parse.deep_view() =~= seq![value@]);
        }
        match Shape::parse(&to_parse, letter) {
            Result::Ok(Option::Some(shape)) => {
                proof {
                    let sv = to_parse.deep_view();
                    assert(sv.len() == 1);
                    assert(!shape.is_3d) by {
                        if multi_layer(shape@) {
                            let (k1, k2) = choose|k1: int, k2: int|
                                0 <= k1 < k2 < 5 && #[trigger] layer_occ(shape@, k1)
                                    && #[trigger] layer_occ(shape@, k2);
                            let p = choose|p: (int, int, int)| p.0 == k2 && #[trigger] sset(
                                shape@,
                                p,
                            );
                            assert(parse_cell(sv, letter, p));
                        }
                    }
                }
                let orientations = generate_orientations(&shape, include_3d);
                Result::Ok(Piece { letter, orientations })
            },
            Result::Ok(Option::None) => Result::Err(ShapeError::LetterMissing),
            Result::Err(e) => Result::Err(e),
        }
    }
}


proof fn lemma_text_a()
    ensures
        parse_has(seq!["A\nAAA"@], 'A'),
        !parse_bad(seq!["A\nAAA"@], 'A'),
{
    reveal_strlit("A\nAAA");
    let s = "A\nAAA"@;
    assert(s.len() == 5);
    assert(s[0] == 'A');
    assert(s[1] == '\n');
    assert(s[2] == 'A');
    assert(s[3] == 'A');
    assert(s[4] == 'A');
    reveal_with_fuel(occ_list, 8);
    let occs = seq![(0int, 0int), (1int, 0int), (1int, 1int), (1int, 2int)];
    assert(occ_list(s, 'A', 0, 0) =~= occs);
    reveal_with_fuel(min_fst_from, 7);
    reveal_with_fuel(min_snd_from, 7);
    assert(min_fst_from(occs, 0) == 0);
    assert(min_snd_from(occs, 0) == 0);
    lemma_piece_text_ok(s, 'A', occs, 0, 0);
}

proof fn lemma_text_b()
    ensures
        parse_has(seq!["BB\nBBB"@], 'B'),
        !parse_bad(seq!["BB\nBBB"@], 'B'),
{
    reveal_strlit("BB\nBBB");
    let s = "BB\nBBB"@;
    assert(s.len() == 6);
    assert(s[0] == 'B');
    assert(s[1] == 'B');
    assert(s[2] == '\n');
    assert(s[3] == 'B');
    assert(s[4] == 'B');
    assert(s[5] == 'B');
    reveal_with_fuel(occ_list, 9);
    let occs = seq![(0int, 0int), (0int, 1int), (1int, 0int), (1int, 1int), (1int, 2int)];
    assert(occ_list(s, 'B', 0, 0) =~= occs);
    reveal_with_fuel(min_fst_from, 8);
    reveal_with_fuel(min_snd_from, 8);
    assert(min_fst_from(occs, 0) == 0);
    assert(min_snd_from(occs, 0) == 0);
    lemma_piece_text_ok(s, 'B', occs, 0, 0);
}

proof fn lemma_text_c()
    ensures
        parse_has(seq![".C\n.C\n.C\nCC"@], 'C'),
        !parse_bad(seq![".C\n.C\n.C\nCC"@], 'C'),
{
    reveal_strlit(".C\n.C\n.C\nCC");
    let s = ".C\n.C\n.C\nCC"@;
    assert(s.len() == 11);
    assert(s[0] == '.');
    assert(s[1] == 'C');
    assert(s[2] == '\n');
    assert(s[3] == '.');
    assert(s[4] == 'C');
    assert(s[5] == '\n');
    assert(s[6] == '.');
    assert(s[7] == 'C');
    assert(s[8] == '\n');
    assert(s[9] == 'C');
    assert(s[10] == 'C');
    reveal_with_fuel(occ_list, 14);
    let occs = seq![(0int, 1int), (1int, 1int), (2int, 1int), (3int, 0int), (3int, 1int)];
    assert(occ_list(s, 'C', 0, 0) =~= occs);
    reveal_with_fuel(min_fst_from, 8);
    reveal_with_fuel(min_snd_from, 8);
    assert(min_fst_from(occs, 0) == 0);
    assert(min_snd_from(occs, 0) == 0);
    lemma_piece_text_ok(s, 'C', occs, 0, 0);
}

proof fn lemma_text_d()
    ensures
        parse_has(seq!["DDDD\n..D"@], 'D'),
        !parse_bad(seq!["DDDD\n..D"@], 'D'),
{
    reveal_strlit("DDDD\n..D");
    let s = "DDDD\n..D"@;
    assert(s.len() == 8);
    assert(s[0] == 'D');
    assert(s[1] == 'D');
    assert(s[2] == 'D');
    assert(s[3] == 'D');
    assert(s[4] == '\n');
    assert(s[5] == '.');
    assert(s[6] == '.');
    assert(s[7] == 'D');
    reveal_with_fuel(occ_list, 11);
    let occs = seq![(0int, 0int), (0int, 1int), (0int, 2int), (0int, 3int), (1int, 2int)];
    assert(occ_list(s, 'D', 0, 0) =~= occs);
    reveal_with_fuel(min_fst_from, 8);
    reveal_with_fuel(min_snd_from, 8);
    assert(min_fst_from(occs, 0) == 0);
    assert(min_snd_from(occs, 0) == 0);
    lemma_piece_text_ok(s, 'D', occs, 0, 0);
}

proof fn lemma_text_e()
    ensures
        parse_has(seq!["EE\n.EEE"@], 'E'),
        !parse_bad(seq!["EE\n.EEE"@], 'E'),
{
    reveal_strlit("EE\n.EEE");
    let s = "EE\n.EEE"@;
    assert(s.len() == 7);
    assert(s[0] == 'E');
    assert(s[1] == 'E');
    assert(s[2] == '\n');
    assert(s[3] == '.');
    assert(s[4] == 'E');
    assert(s[5] == 'E');
    assert(s[6] == 'E');
    reveal_with_fuel(occ_list, 10);
    let occs = seq![(0int, 0int), (0int, 1int), (1int, 1int), (1int, 2int), (1int, 3int)];
    assert(occ_list(s, 'E', 0, 0) =~= occs);
    reveal_with_fuel(min_fst_from, 8);
    reveal_with_fuel(min_snd_from, 8);
    assert(min_fst_from(occs, 0) == 0);
    assert(min_snd_from(occs, 0) == 0);
    lemma_piece_text_ok(s, 'E', occs, 0, 0);
}

proof fn lemma_text_f()
    ensures
        parse_has(seq!["F\nFF"@], 'F'),
        !parse_bad(seq!["F\nFF"@], 'F'),
{
    reveal_strlit("F\nFF");
    let s = "F\nFF"@;
    assert(s.len() == 4);
    assert(s[0] == 'F');
    assert(s[1] == '\n');
    assert(s[2] == 'F');
    assert(s[3] == 'F');
    reveal_with_fuel(occ_list, 7);
    let occs = seq![(0int, 0int), (1int, 0int), (1int, 1int)];
    assert(occ_list(s, 'F', 0, 0) =~= occs);
    reveal_with_fuel(min_fst_from, 6);
    reveal_with_fuel(min_snd_from, 6);
    assert(min_fst_from(occs, 0) == 0);
    assert(min_snd_from(occs, 0) == 0);
    lemma_piece_text_ok(s, 'F', occs, 0, 0);
}

proof fn lemma_text_g()
    ensures
        parse_has(seq!["GGG\n..G\n..G"@], 'G'),
        !parse_bad(seq!["GGG\n..G\n..G"@], 'G'),
{
    reveal_strlit("GGG\n..G\n..G");
    let s = "GGG\n..G\n..G"@;
    assert(s.len() == 11);
    assert(s[0] == 'G');
    assert(s[1] == 'G');
    assert(s[2] == 'G');
    assert(s[3] == '\n');
    assert(s[4] == '.');
    assert(s[5] == '.');
    assert(s[6] == 'G');
    assert(s[7] == '\n');
    assert(s[8] == '.');
    assert(s[9] == '.');
    assert(s[10] == 'G');
    reveal_with_fuel(occ_list, 14);
    let occs = seq![(0int, 0int), (0int, 1int), (0int, 2int), (1int, 2int), (2int, 2int)];
    assert(occ_list(s, 'G', 0, 0) =~= occs);
    reveal_with_fuel(min_fst_from, 8);
    reveal_with_fuel(min_snd_from, 8);
    assert(min_fst_from(occs, 0) == 0);
    assert(min_snd_from(occs, 0) == 0);
    lemma_piece_text_ok(s, 'G', occs, 0, 0);
}

proof fn lemma_text_h()
    ensures
        parse_has(seq!["HH\n.HH\n..H"@], 'H'),
        !parse_bad(seq!["HH\n.HH\n..H"@], 'H'),
{
    reveal_strlit("HH\n.HH\n..H");
    let s = "HH\n.HH\n..H"@;
    assert(s.len() == 10);
    assert(s[0] == 'H');
    assert(s[1] == 'H');
    assert(s[2] == '\n');
    assert(s[3] == '.');
    assert(s[4] == 'H');
    assert(s[5] == 'H');
    assert(s[6] == '\n');
    assert(s[7] == '.');
    assert(s[8] == '.');
    assert(s[9] == 'H');
    reveal_with_fuel(occ_list, 13);
    let occs = seq![(0int, 0int), (0int, 1int), (1int, 1int), (1int, 2int), (2int, 2int)];
    assert(occ_list(s, 'H', 0, 0) =~= occs);
    reveal_with_fuel(min_fst_from, 8);
    reveal_with_fuel(min_snd_from, 8);
    assert(min_fst_from(occs, 0) == 0);
    assert(min_snd_from(occs, 0) == 0);
    lemma_piece_text_ok(s, 'H', occs, 0, 0);
}

proof fn lemma_text_i()
    ensures
        parse_has(seq!["II\n.I\nII"@], 'I'),
        !parse_bad(seq!["II\n.I\nII"@], 'I'),
{
    reveal_strlit("II\n.I\nII");
    let s = "II\n.I\nII"@;
    assert(s.len() == 8);
    assert(s[0] == 'I');
    assert(s[1] == 'I');
    assert(s[2] == '\n');
    assert(s[3] == '.');
    assert(s[4] == 'I');
    assert(s[5] == '\n');
    assert(s[6] == 'I');
    assert(s[7] == 'I');
    reveal_with_fuel(occ_list, 11);
    let occs = seq![(0int, 0int), (0int, 1int), (1int, 1int), (2int, 0int), (2int, 1int)];
    assert(occ_list(s, 'I', 0, 0) =~= occs);
    reveal_with_fuel(min_fst_from, 8);
    reveal_with_fuel(min_snd_from, 8);
    assert(min_fst_from(occs, 0) == 0);
    assert(min_snd_from(occs, 0) == 0);
    lemma_piece_text_ok(s, 'I', occs, 0, 0);
}

proof fn lemma_text_j()
    ensures
        parse_has(seq!["JJJJ"@], 'J'),
        !parse_bad(seq!["JJJJ"@], 'J'),
{
    reveal_strlit("JJJJ");
    let s = "JJJJ"@;
    assert(s.len() == 4);
    assert(s[0] == 'J');
    assert(s[1] == 'J');
    assert(s[2] == 'J');
    assert(s[3] == 'J');
    reveal_with_fuel(occ_list, 7);
    let occs = seq![(0int, 0int), (0int, 1int), (0int, 2int), (0int, 3int)];
    assert(occ_list(s, 'J', 0, 0) =~= occs);
    reveal_with_fuel(min_fst_from, 7);
    reveal_with_fuel(min_snd_from, 7);
    assert(min_fst_from(occs, 0) == 0);
    assert(min_snd_from(occs, 0) == 0);
    lemma_piece_text_ok(s, 'J', occs, 0, 0);
}

proof fn lemma_text_k()
    ensures
        parse_has(seq!["KK\nKK"@], 'K'),
        !parse_bad(seq!["KK\nKK"@], 'K'),
{
    reveal_strlit("KK\nKK");
    let s = "KK\nKK"@;
    assert(s.len() == 5);
    assert(s[0] == 'K');
    assert(s[1] == 'K');
    assert(s[2] == '\n');
    assert(s[3] == 'K');
    assert(s[4] == 'K');
    reveal_with_fuel(occ_list, 8);
    let occs = seq![(0int, 0int), (0int, 1int), (1int, 0int), (1int, 1int)];
    assert(occ_list(s, 'K', 0, 0) =~= occs);
    reveal_with_fuel(min_fst_from, 7);
    reveal_with_fuel(min_snd_from, 7);
    assert(min_fst_from(occs, 0) == 0);
    assert(min_snd_from(occs, 0) == 0);
    lemma_piece_text_ok(s, 'K', occs, 0, 0);
}

proof fn lemma_text_l()
    ensures
        parse_has(seq![".L\nLLL\n.L"@], 'L'),
        !parse_bad(seq![".L\nLLL\n.L"@], 'L'),
{
    reveal_strlit(".L\nLLL\n.L");
    let s = ".L\nLLL\n.L"@;
    assert(s.len() == 9);
    assert(s[0] == '.');
    assert(s[1] == 'L');
    assert(s[2] == '\n');
    assert(s[3] == 'L');
    assert(s[4] == 'L');
    assert(s[5] == 'L');
    assert(s[6] == '\n');
    assert(s[7] == '.');
    assert(s[8] == 'L');
    reveal_with_fuel(occ_list, 12);
    let occs = seq![(0int, 1int), (1int, 0int), (1int, 1int), (1int, 2int), (2int, 1int)];
    assert(occ_list(s, 'L', 0, 0) =~= occs);
    reveal_with_fuel(min_fst_from, 8);
    reveal_with_fuel(min_snd_from, 8);
    assert(min_fst_from(occs, 0) == 0);
    assert(min_snd_from(occs, 0) == 0);
    lemma_piece_text_ok(s, 'L', occs, 0, 0);
}

/// The drawing of the k-th standard piece, for letters A through L.
pub open spec fn standard_text(k: int) -> Seq<char> {
    if k == 0 {
        "A\nAAA"@
    } else if k == 1 {
        "BB\nBBB"@
    } else if k == 2 {
        ".C\n.C\n.C\nCC"@
    } else if k == 3 {
        "DDDD\n..D"@
    } else if k == 4 {
        "EE\n.EEE"@
    } else if k == 5 {
        "F\nFF"@
    } else if k == 6 {
        "GGG\n..G\n..G"@
    } else if k == 7 {
        "HH\n.HH\n..H"@
    } else if k == 8 {
        "II\n.I\nII"@
    } else if k == 9 {
        "JJJJ"@
    } else if k == 10 {
        "KK\nKK"@
    } else {
        ".L\nLLL\n.L"@
    }
}

/// Builds the standard catalog of the twelve pieces, named A through L,
/// each with exactly the orientations its drawing gives rise to;
/// three-dimensional orientations are included only when the board
/// supports them.
pub fn standard_pieces(include_3d: bool) -> (r: Vec<Piece>)
    ensures
        r@.len() == 12,
        catalog_wf(r@),
        forall|k: int| 0 <= k < 12 ==> (#[trigger] r@[k]).letter as int == 65 + k,
        forall|k: int, v: Seq<Seq<Seq<bool>>>, d: bool|
            0 <= k < 12 ==> #[trigger] appears(r@[k].orientations@, v, d) == orientation_cand(
                parsed_shape_spec(seq![standard_text(k)], r@[k].letter),
                include_3d,
                v,
                d,
            ),
{
    let mut pieces: Vec<Piece> = Vec::new();
    proof {
        lemma_text_a();
    }
    match Piece::parse("A\nAAA", 'A', include_3d) {
        Result::Ok(p) => {
            pieces.push(p);
        },
        Result::Err(_) => {
            proof {
                assert(false);
            }
        },
    }
    proof {
        assert(pieces@.len() == 1);
        assert(standard_text(0) == "A\nAAA"@);
        assert(pieces@[0].letter == 'A');
        assert(piece_wf(pieces@[0]));
        assert(forall|v: Seq<Seq<Seq<bool>>>, d: bool| #[trigger]
            appears(pieces@[0].orientations@, v, d) == orientation_cand(
                parsed_shape_spec(seq![standard_text(0)], pieces@[0].letter),
                include_3d,
                v,
                d,
            ));
    }
    proof {
        lemma_text_b();
    }
    match Piece::parse("BB\nBBB", 'B', include_3d) {
        Result::Ok(p) => {
            pieces.push(p);
        },
        Result::Err(_) => {
            proof {
                assert(false);
            }
        },
    }
    proof {
        assert(pieces@.len() == 2);
        assert(standard_text(1) == "BB\nBBB"@);
        assert(pieces@[1].letter == 'B');
        assert(piece_wf(pieces@[1]));
        assert(forall|v: Seq<Seq<Seq<bool>>>, d: bool| #[trigger]
            appears(pieces@[1].orientations@, v, d) == orientation_cand(
                parsed_shape_spec(seq![standard_text(1)], pieces@[1].letter),
                include_3d,
                v,
                d,
            ));
    }
    proof {
        lemma_text_c();
    }
    match Piece::parse(".C\n.C\n.C\nCC", 'C', include_3d) {
        Result::Ok(p) => {
            pieces.push(p);
        },
        Result::Err(_) => {
            proof {
                assert(false);
            }
        },
    }
    proof {
        assert(pieces@.len() == 3);
        assert(standard_text(2) == ".C\n.C\n.C\nCC"@);
        assert(pieces@[2].letter == 'C');
        assert(piece_wf(pieces@[2]));
        assert(forall|v: Seq<Seq<Seq<bool>>>, d: bool| #[trigger]
            appears(pieces@[2].orientations@, v, d) == orientation_cand(
                parsed_shape_spec(seq![standard_text(2)], pieces@[2].letter),
                include_3d,
                v,
                d,
            ));
    }
    proof {
        lemma_text_d();
    }
    match Piece::parse("DDDD\n..D", 'D', include_3d) {
        Result::Ok(p) => {
            pieces.push(p);
        },
        Result::Err(_) => {
            proof {
                assert(false);
            }
        },
    }
    proof {
        assert(pieces@.len() == 4);
        assert(standard_text(3) == "DDDD\n..D"@);
        assert(pieces@[3].letter == 'D');
        assert(piece_wf(pieces@[3]));
        assert(forall|v: Seq<Seq<Seq<bool>>>, d: bool| #[trigger]
            appears(pieces@[3].orientations@, v, d) == orientation_cand(
                parsed_shape_spec(seq![standard_text(3)], pieces@[3].letter),
                include_3d,
                v,
                d,
            ));
    }
    proof {
        lemma_text_e();
    }
    match Piece::parse("EE\n.EEE", 'E', include_3d) {
        Result::Ok(p) => {
            pieces.push(p);
        },
        Result::Err(_) => {
            proof {
                assert(false);
            }
        },
    }
    proof {
        assert(pieces@.len() == 5);
        assert(standard_text(4) == "EE\n.EEE"@);
        assert(pieces@[4].letter == 'E');
        assert(piece_wf(pieces@[4]));
        assert(forall|v: Seq<Seq<Seq<bool>>>, d: bool| #[trigger]
            appears(pieces@[4].orientations@, v, d) == orientation_cand(
                parsed_shape_spec(seq![standard_text(4)], pieces@[4].letter),
                include_3d,
                v,
                d,
            ));
    }
    proof {
        lemma_text_f();
    }
    match Piece::parse("F\nFF", 'F', include_3d) {
        Result::Ok(p) => {
            pieces.push(p);
        },
        Result::Err(_) => {
            proof {
                assert(false);
            }
        },
    }
    proof {
        assert(pieces@.len() == 6);
        assert(standard_text(5) == "F\nFF"@);
        assert(pieces@[5].letter == 'F');
        assert(piece_wf(pieces@[5]));
        assert(forall|v: Seq<Seq<Seq<bool>>>, d: bool| #[trigger]
            appears(pieces@[5].orientations@, v, d) == orientation_cand(
                parsed_shape_spec(seq![standard_text(5)], pieces@[5].letter),
                include_3d,
                v,
                d,
            ));
    }
    proof {
        lemma_text_g();
    }
    match Piece::parse("GGG\n..G\n..G", 'G', include_3d) {
        Result::Ok(p) => {
            pieces.push(p);
        },
        Result::Err(_) => {
            proof {
                assert(false);
            }
        },
    }
    proof {
        assert(pieces@.len() == 7);
        assert(standard_text(6) == "GGG\n..G\n..G"@);
        assert(pieces@[6].letter == 'G');
        assert(piece_wf(pieces@[6]));
        assert(forall|v: Seq<Seq<Seq<bool>>>, d: bool| #[trigger]
            appears(pieces@[6].orientations@, v, d) == orientation_cand(
                parsed_shape_spec(seq![standard_text(6)], pieces@[6].letter),
                include_3d,
                v,
                d,
            ));
    }
    proof {
        lemma_text_h();
    }
    match Piece::parse("HH\n.HH\n..H", 'H', include_3d) {
        Result::Ok(p) => {
            pieces.push(p);
        },
        Result::Err(_) => {
            proof {
                assert(false);
            }
        },
    }
    proof {
        assert(pieces@.len() == 8);
        assert(standard_text(7) == "HH\n.HH\n..H"@);
        assert(pieces@[7].letter == 'H');
        assert(piece_wf(pieces@[7]));
        assert(forall|v: Seq<Seq<Seq<bool>>>, d: bool| #[trigger]
            appears(pieces@[7].orientations@, v, d) == orientation_cand(
                parsed_shape_spec(seq![standard_text(7)], pieces@[7].letter),
                include_3d,
                v,
                d,
            ));
    }
    proof {
        lemma_text_i();
    }
    match Piece::parse("II\n.I\nII", 'I', include_3d) {
        Result::Ok(p) => {
            pieces.push(p);
        },
        Result::Err(_) => {
            proof {
                assert(false);
            }
        },
    }
    proof {
        assert(pieces@.len() == 9);
        assert(standard_text(8) == "II\n.I\nII"@);
        assert(pieces@[8].letter == 'I');
        assert(piece_wf(pieces@[8]));
        assert(forall|v: Seq<Seq<Seq<bool>>>, d: bool| #[trigger]
            appears(pieces@[8].orientations@, v, d) == orientation_cand(
                parsed_shape_spec(seq![standard_text(8)], pieces@[8].letter),
                include_3d,
                v,
                d,
            ));
    }
    proof {
        lemma_text_j();
    }
    match Piece::parse("JJJJ", 'J', include_3d) {
        Result::Ok(p) => {
            pieces.push(p);
        },
        Result::Err(_) => {
            proof {
                assert(false);
            }
        },
    }
    proof {
        assert(pieces@.len() == 10);
        assert(standard_text(9) == "JJJJ"@);
        assert(pieces@[9].letter == 'J');
        assert(piece_wf(pieces@[9]));
        assert(forall|v: Seq<Seq<Seq<bool>>>, d: bool| #[trigger]
            appears(pieces@[9].orientations@, v, d) == orientation_cand(
                parsed_shape_spec(seq![standard_text(9)], pieces@[9].letter),
                include_3d,
                v,
                d,
            ));
    }
    proof {
        lemma_text_k();
    }
    match Piece::parse("KK\nKK", 'K', include_3d) {
        Result::Ok(p) => {
            pieces.push(p);
        },
        Result::Err(_) => {
            proof {
                assert(false);
            }
        },
    }
    proof {
        assert(pieces@.len() == 11);
        assert(standard_text(10) == "KK\nKK"@);
        assert(pieces@[10].letter == 'K');
        assert(piece_wf(pieces@[10]));
        assert(forall|v: Seq<Seq<Seq<bool>>>, d: bool| #[trigger]
            appears(pieces@[10].orientations@, v, d) == orientation_cand(
                parsed_shape_spec(seq![standard_text(10)], pieces@[10].letter),
                include_3d,
                v,
                d,
            ));
    }
    proof {
        lemma_text_l();
    }
    match Piece::parse(".L\nLLL\n.L", 'L', include_3d) {
        Result::Ok(p) => {
            pieces.push(p);
        },
        Result::Err(_) => {
            proof {
                assert(false);
            }
        },
    }
    proof {
        assert(pieces@.len() == 12);
        assert(standard_text(11) == ".L\nLLL\n.L"@);
        assert(pieces@[11].letter == 'L');
        assert(piece_wf(pieces@[11]));
        assert(forall|v: Seq<Seq<Seq<bool>>>, d: bool| #[trigger]
            appears(pieces@[11].orientations@, v, d) == orientation_cand(
                parsed_shape_spec(seq![standard_text(11)], pieces@[11].letter),
                include_3d,
                v,
                d,
            ));
    }
    proof {
        assert forall|k: int| 0 <= k < 12 implies (#[trigger] pieces@[k]).letter as int == 65
            + k by {
            if k == 0 {
                assert(pieces@[0].letter == 'A');
            }
            if k == 1 {
                assert(pieces@[1].letter == 'B');
            }
            if k == 2 {
                assert(pieces@[2].letter == 'C');
            }
            if k == 3 {
                assert(pieces@[3].letter == 'D');
            }
            if k == 4 {
                assert(pieces@[4].letter == 'E');
            }
            if k == 5 {
                assert(pieces@[5].letter == 'F');
            }
            if k == 6 {
                assert(pieces@[6].letter == 'G');
            }
            if k == 7 {
                assert(pieces@[7].letter == 'H');
            }
            if k == 8 {
                assert(pieces@[8].letter == 'I');
            }
            if k == 9 {
                assert(pieces@[9].letter == 'J');
            }
            if k == 10 {
                assert(pieces@[10].letter == 'K');
            }
            if k == 11 {
                assert(pieces@[11].letter == 'L');
            }
        }
        assert(catalog_wf(pieces@)) by {
            assert forall|i: int| 0 <= i < pieces@.len() implies piece_wf(#[trigger] pieces@[i]) by {
                if i == 0 {
                    assert(piece_wf(pieces@[0]));
                }
                if i == 1 {
                    assert(piece_wf(pieces@[1]));
                }
                if i == 2 {
                    assert(piece_wf(pieces@[2]));
                }
                if i == 3 {
                    assert(piece_wf(pieces@[3]));
                }
                if i == 4 {
                    assert(piece_wf(pieces@[4]));
                }
                if i == 5 {
                    assert(piece_wf(pieces@[5]));
                }
                if i == 6 {
                    assert(piece_wf(pieces@[6]));
                }
                if i == 7 {
                    assert(piece_wf(pieces@[7]));
                }
                if i == 8 {
                    assert(piece_wf(pieces@[8]));
                }
                if i == 9 {
                    assert(piece_wf(pieces@[9]));
                }
                if i == 10 {
                    assert(piece_wf(pieces@[10]));
                }
                if i == 11 {
                    assert(piece_wf(pieces@[11]));
                }
            }
            assert forall|i: int, j: int|
                #![trigger pieces@[i].letter, pieces@[j].letter]
                0 <= i < j < pieces@.len() implies (pieces@[i].letter as int) < (pieces@[j].letter
                as int) by {
                assert(pieces@[i].letter as int == 65 + i);
                assert(pieces@[j].letter as int == 65 + j);
            }
        }
    }
    pieces
}

/// A piece's own letter finds exactly its index in a well-formed catalog.
pub proof fn lemma_find_unique(cat: Seq<Piece>, i: int)
    requires
        catalog_wf(cat),
        0 <= i < cat.len(),
    ensures
        find_from(cat, cat[i].letter, 0) == i,
{
    lemma_find_from(cat, cat[i].letter, 0);
    let f = find_from(cat, cat[i].letter, 0);
    if f < 0 {
        assert(cat[i].letter != cat[i].letter);
    } else if f < i {
        assert((cat[f].letter as int) < (cat[i].letter as int));
    } else if f > i {
        assert(cat[i].letter != cat[i].letter);
    }
}

/// A one-layer piece text whose occurrences all sit within five rows and
/// columns of the topmost-leftmost one parses into a shape.
pub proof fn lemma_piece_text_ok(
    s: Seq<char>,
    letter: char,
    occs: Seq<(int, int)>,
    ro: int,
    co: int,
)
    requires
        occ_list(s, letter, 0, 0) == occs,
        occs.len() > 0,
        min_fst_from(occs, 0) == ro,
        min_snd_from(occs, 0) == co,
        forall|i: int|
            0 <= i < occs.len() ==> 0 <= (#[trigger] occs[i]).0 && occs[i].0 - ro < 5 && 0
                <= occs[i].1 && occs[i].1 - co < 5,
    ensures
        parse_has(seq![s], letter),
        !parse_bad(seq![s], letter),
{
    let sv = seq![s];
    assert(sv[0] == s);
    assert(layer_occs(sv, letter, 0) == occs);
    assert(parse_has(sv, letter)) by {
        assert(layer_occs(sv, letter, 0).len() > 0);
    }
    lemma_min_fst_max(occs, 0);
    assert(parse_row_offset(sv, letter) == ro) by {
        assert(row_off_upto(sv, letter, 0) == usize::MAX as int);
    }
    assert(parse_col_offset(sv, letter) == co) by {
        assert(col_off_upto(sv, letter, 0) == usize::MAX as int);
    }
    assert(!parse_bad(sv, letter)) by {
        if parse_bad(sv, letter) {
            let (l, i) = choose|l: int, i: int| #[trigger] bad_occ(sv, letter, l, i);
            assert(l == 0);
            assert(occs[i].0 - ro < 5 && occs[i].1 - co < 5);
            assert(false);
        }
    }
}


/// The law behind orientation-list stability: any two lists that are
/// pairwise structurally distinct and hold exactly the same readings (the
/// same `appears` predicate) have the same length. In particular two
/// computations of a piece's orientations, which both satisfy the
/// orientation-membership contract, agree on the orientation count.
pub proof fn lemma_orientation_count_unique(r1: Seq<Shape>, r2: Seq<Shape>)
    requires
        forall|i: int, j: int|
            #![trigger r1[i], r1[j]]
            0 <= i < j < r1.len() ==> !(r1[i]@ == r1[j]@ && r1[i].is_3d == r1[j].is_3d),
        forall|i: int, j: int|
            #![trigger r2[i], r2[j]]
            0 <= i < j < r2.len() ==> !(r2[i]@ == r2[j]@ && r2[i].is_3d == r2[j].is_3d),
        forall|v: Seq<Seq<Seq<bool>>>, d: bool| #[trigger]
            appears(r1, v, d) == appears(r2, v, d),
    ensures
        r1.len() == r2.len(),
{
    let m1 = r1.map_values(|s: Shape| (s@, s.is_3d));
    let m2 = r2.map_values(|s: Shape| (s@, s.is_3d));
    assert(m1.no_duplicates()) by {
        assert forall|i: int, j: int|
            0 <= i < m1.len() && 0 <= j < m1.len() && i != j implies m1[i] != m1[j] by {
            if i < j {
                assert(!(r1[i]@ == r1[j]@ && r1[i].is_3d == r1[j].is_3d));
            } else {
                assert(!(r1[j]@ == r1[i]@ && r1[j].is_3d == r1[i].is_3d));
            }
            assert(m1[i] == (r1[i]@, r1[i].is_3d));
            assert(m1[j] == (r1[j]@, r1[j].is_3d));
        }
    }
    assert(m2.no_duplicates()) by {
        assert forall|i: int, j: int|
            0 <= i < m2.len() && 0 <= j < m2.len() && i != j implies m2[i] != m2[j] by {
            if i < j {
                assert(!(r2[i]@ == r2[j]@ && r2[i].is_3d == r2[j].is_3d));
            } else {
                assert(!(r2[j]@ == r2[i]@ && r2[j].is_3d == r2[i].is_3d));
            }
            assert(m2[i] == (r2[i]@, r2[i].is_3d));
            assert(m2[j] == (r2[j]@, r2[j].is_3d));
        }
    }
    m1.unique_seq_to_set();
    m2.unique_seq_to_set();
    assert(m1.to_set() =~= m2.to_set()) by {
        assert forall|x: (Seq<Seq<Seq<bool>>>, bool)|
            m1.to_set().contains(x) == m2.to_set().contains(x) by {
            if m1.to_set().contains(x) {
                let i = choose|i: int| 0 <= i < m1.len() && m1[i] == x;
                assert(m1[i] == (r1[i]@, r1[i].is_3d));
                assert(appears(r1, x.0, x.1));
                assert(appears(r2, x.0, x.1));
                let j = choose|j: int|
                    0 <= j < r2.len() && (#[trigger] r2[j])@ == x.0 && r2[j].is_3d == x.1;
                assert(m2[j] == x);
                assert(m2.contains(x));
            }
            if m2.to_set().contains(x) {
                let i = choose|i: int| 0 <= i < m2.len() && m2[i] == x;
                assert(m2[i] == (r2[i]@, r2[i].is_3d));
                assert(appears(r2, x.0, x.1));
                assert(appears(r1, x.0, x.1));
                let j = choose|j: int|
                    0 <= j < r1.len() && (#[trigger] r1[j])@ == x.0 && r1[j].is_3d == x.1;
                assert(m1[j] == x);
                assert(m1.contains(x));
            }
        }
    }
}

} // verus!
