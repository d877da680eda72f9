//! The grid substrate: a rectangular buffer of cell tags with bounds-checked
//! access. Cell tags are `u32` values; the maze logic distinguishes a wall tag
//! and a path tag from a `MazeConfig`.

use vstd::prelude::*;

verus! {

/// True when `p` names a cell of a `w` by `h` grid.
pub open spec fn in_bounds(w: nat, h: nat, p: (int, int)) -> bool {
    0 <= p.0 < w && 0 <= p.1 < h
}

/// Row-major index of the cell `p` in a grid `w` cells wide.
pub open spec fn cell_index(w: nat, p: (int, int)) -> int {
    p.1 * w + p.0
}

/// The tag stored at cell `p` of a grid `w` cells wide with contents `cells`.
pub open spec fn cell_value(cells: Seq<u32>, w: nat, p: (int, int)) -> u32 {
    cells[cell_index(w, p)]
}

/// A row-major index of an in-bounds cell lies inside the buffer.
pub proof fn lemma_index_in_range(w: nat, h: nat, p: (int, int))
    by (nonlinear_arith)
    requires
        in_bounds(w, h, p),
    ensures
        0 <= cell_index(w, p) < w * h,
{
}

/// Distinct in-bounds cells have distinct row-major indices.
pub proof fn lemma_index_injective(w: nat, h: nat, p: (int, int), q: (int, int))
    by (nonlinear_arith)
    requires
        in_bounds(w, h, p),
        in_bounds(w, h, q),
        cell_index(w, p) == cell_index(w, q),
    ensures
        p == q,
{
}

/// How many cells of `cells` hold the tag `tag`.
pub open spec fn count_matching(cells: Seq<u32>, tag: u32) -> nat
    decreases cells.len(),
{
    if cells.len() == 0 {
        0
    } else {
        count_matching(cells.drop_last(), tag) + if cells.last() == tag {
            1nat
        } else {
            0nat
        }
    }
}

/// A grid in which no cell holds a tag counts zero of it.
pub proof fn lemma_count_zero(cells: Seq<u32>, tag: u32)
    requires
        forall|i: int| 0 <= i < cells.len() ==> cells[i] != tag,
    ensures
        count_matching(cells, tag) == 0,
    decreases cells.len(),
{
    if cells.len() > 0 {
        assert(forall|i: int|
            0 <= i < cells.drop_last().len() ==> cells.drop_last()[i] == cells[i]);
        lemma_count_zero(cells.drop_last(), tag);
    }
}

/// How one write moves the count of a tag.
pub proof fn lemma_count_update(cells: Seq<u32>, tag: u32, i: int, v: u32)
    requires
        0 <= i < cells.len(),
    ensures
        count_matching(cells.update(i, v), tag) == count_matching(cells, tag) - (
        if cells[i] == tag {
            1int
        } else {
            0int
        }) + (
        if v == tag {
            1int
        } else {
            0int
        }),
    decreases cells.len(),
{
    let upd = cells.update(i, v);
    if i == cells.len() - 1 {
        assert(upd.drop_last() =~= cells.drop_last());
    } else {
        assert(upd.drop_last() =~= cells.drop_last().update(i, v));
        lemma_count_update(cells.drop_last(), tag, i, v);
    }
}

/// Distinct in-bounds cells occupy distinct slots of the buffer.
pub proof fn lemma_index_distinct(w: nat, h: nat, p: (int, int), q: (int, int))
    by (nonlinear_arith)
    requires
        in_bounds(w, h, p),
        in_bounds(w, h, q),
        p != q,
    ensures
        cell_index(w, p) != cell_index(w, q),
{
}

/// A rectangular buffer of `u32` cell tags with immutable dimensions.
/// Its view is the row-major sequence of cell tags.
pub struct GridBuffer {
    width: usize,
    height: usize,
    cells: Vec<u32>,
}

impl View for GridBuffer {
    type V = Seq<u32>;

    closed spec fn view(&self) -> Seq<u32> {
        self.cells@
    }
}

impl GridBuffer {
    pub closed spec fn width_spec(&self) -> nat {
        self.width as nat
    }

    pub closed spec fn height_spec(&self) -> nat {
        self.height as nat
    }

    /// The buffer holds one tag per coordinate of its rectangle.
    pub open spec fn wf(&self) -> bool {
        self@.len() == self.width_spec() * self.height_spec()
    }

    /// A fresh grid with every cell initialized to tag 0.
    pub fn new(width: usize, height: usize) -> (r: GridBuffer)
        requires
            width * height <= usize::MAX,
        ensures
            r.wf(),
            r.width_spec() == width,
            r.height_spec() == height,
            forall|i: int| 0 <= i < r@.len() ==> r@[i] == 0u32,
    {
        let cells: Vec<u32> = vec![0u32; width * height];
        GridBuffer { width, height, cells }
    }

    pub fn width(&self) -> (r: usize)
        ensures
            r == self.width_spec(),
    {
        self.width
    }

    pub fn height(&self) -> (r: usize)
        ensures
            r == self.height_spec(),
    {
        self.height
    }

    /// Bounds-checked read: the tag at `(x, y)`, or `None` outside the grid.
    pub fn get(&self, x: isize, y: isize) -> (r: Option<u32>)
        requires
            self.wf(),
        ensures
            r == if in_bounds(self.width_spec(), self.height_spec(), (x as int, y as int)) {
                Some(cell_value(self@, self.width_spec(), (x as int, y as int)))
            } else {
                None::<u32>
            },
    {
        if x >= 0 && y >= 0 && (x as usize) < self.width && (y as usize) < self.height {
            let xu = x as usize;
            let yu = y as usize;
            // the length, a usize, bounds the index computation below
            let n = self.cells.len();
            proof {
                lemma_index_in_range(self.width_spec(), self.height_spec(), (xu as int, yu as int));
            }
            Some(self.cells[yu * self.width + xu])
        } else {
            None
        }
    }

    /// The tag at the in-bounds cell `(x, y)`.
    pub fn at(&self, x: usize, y: usize) -> (r: u32)
        requires
            self.wf(),
            in_bounds(self.width_spec(), self.height_spec(), (x as int, y as int)),
        ensures
            r == cell_value(self@, self.width_spec(), (x as int, y as int)),
    {
        // the length, a usize, bounds the index computation below
        let n = self.cells.len();
        proof {
            lemma_index_in_range(self.width_spec(), self.height_spec(), (x as int, y as int));
        }
        self.cells[y * self.width + x]
    }

    /// Write `value` into the in-bounds cell `(x, y)`.
    pub fn set(&mut self, x: usize, y: usize, value: u32)
        requires
            old(self).wf(),
            in_bounds(old(self).width_spec(), old(self).height_spec(), (x as int, y as int)),
        ensures
            final(self).wf(),
            final(self).width_spec() == old(self).width_spec(),
            final(self).height_spec() == old(self).height_spec(),
            final(self)@ == old(self)@.update(
                cell_index(old(self).width_spec(), (x as int, y as int)),
                value,
            ),
    {
        // the length, a usize, bounds the index computation below
        let n = self.cells.len();
        proof {
            lemma_index_in_range(self.width_spec(), self.height_spec(), (x as int, y as int));
        }
        self.cells[y * self.width + x] = value;
    }

    /// Reset every cell to `value`.
    pub fn fill(&mut self, value: u32)
        requires
            old(self).wf(),
        ensures
            final(self).wf(),
            final(self).width_spec() == old(self).width_spec(),
            final(self).height_spec() == old(self).height_spec(),
            final(self)@.len() == old(self)@.len(),
            forall|i: int| 0 <= i < final(self)@.len() ==> final(self)@[i] == value,
    {
        let n = self.cells.len();
        let mut i: usize = 0;
        while i < n
            invariant
                n == self.cells@.len(),
                self.width == old(self).width,
                self.height == old(self).height,
                i <= n,
                forall|j: int| 0 <= j < i ==> self.cells@[j] == value,
            decreases n - i,
        {
            self.cells[i] = value;
            i = i + 1;
        }
    }
}

} // verus!
