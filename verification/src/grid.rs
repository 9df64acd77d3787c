use vstd::prelude::*;

verus! {

/// A rectangular byte grid, held in a two-dimensional array of the
/// ndarray crate.  Verus cannot take that array's type declaration, so
/// the whole struct is taken on trust and described by `cells` alone.
#[verifier::external_body]
#[derive(Debug)]
pub struct ByteGrid {
    inner: ndarray::Array2<u8>,
}

/// The cells of a byte grid, row by row.
pub uninterp spec fn cells(g: ByteGrid) -> Seq<Seq<u8>>;

impl ByteGrid {
    /// Relies on ndarray's Array2::from_shape_vec with a contiguous
    /// row-major shape: the flat data is cut into `rows` rows of `cols`
    /// elements each.
    #[verifier::external_body]
    pub fn new(rows: usize, cols: usize, flat: Vec<u8>) -> (g: ByteGrid)
        requires
            flat@.len() == rows * cols,
            rows * cols <= 0x7fffffffffffffff,
        ensures
            cells(g).len() == rows,
            forall|r: int|
                0 <= r < rows ==> (#[trigger] cells(g)[r]) == flat@.subrange(
                    r * cols,
                    r * cols + cols,
                ),
    {
        ByteGrid { inner: ndarray::Array2::from_shape_vec((rows, cols), flat).unwrap() }
    }

    /// Relies on ndarray's Array2 index: the element at row `r`, column
    /// `c`.
    #[verifier::external_body]
    pub fn get(&self, r: usize, c: usize) -> (v: u8)
        requires
            r < cells(*self).len(),
            c < cells(*self)[r as int].len(),
        ensures
            v == cells(*self)[r as int][c as int],
    {
        self.inner[[r, c]]
    }

    /// Relies on ndarray's Array2 index_mut: stores `v` at row `r`,
    /// column `c` and changes nothing else.
    #[verifier::external_body]
    pub fn set(&mut self, r: usize, c: usize, v: u8)
        requires
            r < cells(*old(self)).len(),
            c < cells(*old(self))[r as int].len(),
        ensures
            cells(*final(self)) == cells(*old(self)).update(
                r as int,
                cells(*old(self))[r as int].update(c as int, v),
            ),
    {
        self.inner[[r, c]] = v;
    }

    /// Relies on ndarray's dim: the row and column counts the grid was
    /// built with.
    #[verifier::external_body]
    pub fn dim(&self) -> (d: (usize, usize))
        ensures
            d.0 == cells(*self).len(),
            forall|r: int| 0 <= r < cells(*self).len() ==> (#[trigger] cells(*self)[r]).len() == d.1,
    {
        self.inner.dim()
    }

    /// Relies on ndarray's Clone for owned arrays: the copy holds the
    /// same cells.
    #[verifier::external_body]
    pub fn duplicate(&self) -> (g: ByteGrid)
        ensures
            cells(g) == cells(*self),
    {
        ByteGrid { inner: self.inner.clone() }
    }
}

} // verus!
