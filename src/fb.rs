use vstd::prelude::*;

verus! {

/// Position in linear storage of the user coordinate (x, y). Storage keeps the
/// top row first, so the origin of user coordinates is the bottom-left corner.
pub open spec fn flip_index(width: int, height: int, x: int, y: int) -> int {
    (height - 1 - y) * width + x
}

/// The cell that user coordinate (x, y) reads from `cells`.
pub open spec fn cell_at<T>(cells: Seq<T>, width: int, height: int, x: int, y: int) -> T {
    cells[flip_index(width, height, x, y)]
}

/// `cells` with user coordinate (x, y) set to `value`.
pub open spec fn with_cell<T>(
    cells: Seq<T>,
    width: int,
    height: int,
    x: int,
    y: int,
    value: T,
) -> Seq<T> {
    cells.update(flip_index(width, height, x, y), value)
}

/// `len` cells, all equal to `value`.
pub open spec fn filled<T>(len: nat, value: T) -> Seq<T> {
    Seq::new(len, |i: int| value)
}

/// Storage after a resize from `cells` to `len` cells: the common prefix is
/// kept and new cells take `value`.
pub open spec fn resized<T>(cells: Seq<T>, len: nat, value: T) -> Seq<T> {
    Seq::new(len, |i: int| if i < cells.len() { cells[i] } else { value })
}

pub proof fn lemma_flip_index_bounds(width: int, height: int, x: int, y: int)
    requires
        0 <= x < width,
        0 <= y < height,
    ensures
        0 <= flip_index(width, height, x, y) < width * height,
{
    assert(0 <= (height - 1 - y) * width) by (nonlinear_arith)
        requires
            0 <= height - 1 - y,
            0 < width,
    ;
    assert((height - 1 - y) * width + width <= width * height) by (nonlinear_arith)
        requires
            height - 1 - y + 1 <= height,
            0 < width,
    ;
}

/// The cell count of any grid whose sides fit in `u16` fits in `u32`.
pub proof fn lemma_cell_count_fits(width: int, height: int)
    requires
        0 <= width <= 0xffff,
        0 <= height <= 0xffff,
    ensures
        0 <= width * height <= 0xfffe_0001,
{
    assert(0 <= width * height <= 0xffff * 0xffff) by (nonlinear_arith)
        requires
            0 <= width <= 0xffff,
            0 <= height <= 0xffff,
    ;
}

/// Two distinct in-bounds coordinates never share a cell.
pub proof fn lemma_flip_index_injective(width: int, height: int, x1: int, y1: int, x2: int, y2: int)
    requires
        0 <= x1 < width,
        0 <= y1 < height,
        0 <= x2 < width,
        0 <= y2 < height,
        x1 != x2 || y1 != y2,
    ensures
        flip_index(width, height, x1, y1) != flip_index(width, height, x2, y2),
{
    if y1 == y2 {
    } else {
        let r1 = height - 1 - y1;
        let r2 = height - 1 - y2;
        if r1 < r2 {
            assert(r1 * width + width <= r2 * width) by (nonlinear_arith)
                requires
                    r1 + 1 <= r2,
                    0 < width,
            ;
        } else {
            assert(r2 * width + width <= r1 * width) by (nonlinear_arith)
                requires
                    r2 + 1 <= r1,
                    0 < width,
            ;
        }
    }
}

/// A `width` x `height` grid of cells with its origin at the bottom-left.
pub struct Framebuffer<T> {
    width: u16,
    height: u16,
    buf: Vec<T>,
}

impl<T> View for Framebuffer<T> {
    type V = Seq<T>;

    /// The linear storage, top row first.
    closed spec fn view(&self) -> Seq<T> {
        self.buf@
    }
}

impl<T: Copy> Framebuffer<T> {
    pub closed spec fn spec_width(&self) -> nat {
        self.width as nat
    }

    pub closed spec fn spec_height(&self) -> nat {
        self.height as nat
    }

    /// Storage holds exactly one cell per coordinate.
    pub open spec fn wf(&self) -> bool {
        self@.len() == self.spec_width() * self.spec_height()
    }

    /// The value at user coordinate (x, y).
    pub open spec fn pixel(&self, x: int, y: int) -> T {
        cell_at(self@, self.spec_width() as int, self.spec_height() as int, x, y)
    }

    pub fn new(width: u16, height: u16) -> (r: Self)
        where
            T: Default,
        ensures
            r.wf(),
            r.spec_width() == width,
            r.spec_height() == height,
            forall|i: int|
                0 <= i < r@.len() ==> call_ensures(T::default, (), #[trigger] r@[i]),
    {
        proof {
            lemma_cell_count_fits(width as int, height as int);
        }
        let len: usize = width as usize * height as usize;
        let value = T::default();
        let mut buf: Vec<T> = Vec::with_capacity(len);
        let mut i: usize = 0;
        while i < len
            invariant
                i <= len,
                buf@ == filled(i as nat, value),
            decreases len - i,
        {
            buf.push(value);
            i += 1;
            assert(buf@ =~= filled(i as nat, value));
        }
        Framebuffer { width, height, buf }
    }

    pub fn fill(&mut self, value: T)
        requires
            old(self).wf(),
        ensures
            final(self).wf(),
            final(self).spec_width() == old(self).spec_width(),
            final(self).spec_height() == old(self).spec_height(),
            final(self)@ == filled(old(self)@.len(), value),
    {
        let len = self.buf.len();
        let mut i: usize = 0;
        while i < len
            invariant
                i <= len,
                len == old(self)@.len(),
                self.width == old(self).width,
                self.height == old(self).height,
                self@.len() == len,
                forall|j: int| 0 <= j < i ==> self@[j] == value,
            decreases len - i,
        {
            self.buf.set(i, value);
            i += 1;
        }
        assert(self@ =~= filled(len as nat, value));
    }

    pub fn plot_pixel(&mut self, x: u16, y: u16, value: T)
        requires
            old(self).wf(),
            x < old(self).spec_width(),
            y < old(self).spec_height(),
        ensures
            final(self).wf(),
            final(self).spec_width() == old(self).spec_width(),
            final(self).spec_height() == old(self).spec_height(),
            final(self)@ == with_cell(
                old(self)@,
                old(self).spec_width() as int,
                old(self).spec_height() as int,
                x as int,
                y as int,
                value,
            ),
    {
        proof {
            lemma_flip_index_bounds(self.width as int, self.height as int, x as int, y as int);
            lemma_cell_count_fits(self.width as int, self.height as int);
        }
        // Invert y so that the start coordinate of the buffer is bottom left.
        let row = (self.height - 1) - y;
        let idx = row as usize * self.width as usize + x as usize;
        self.buf.set(idx, value);
    }

    pub fn get_pixel(&self, x: u16, y: u16) -> (r: T)
        requires
            self.wf(),
            x < self.spec_width(),
            y < self.spec_height(),
        ensures
            r == self.pixel(x as int, y as int),
    {
        proof {
            lemma_flip_index_bounds(self.width as int, self.height as int, x as int, y as int);
            lemma_cell_count_fits(self.width as int, self.height as int);
        }
        let row = (self.height - 1) - y;
        let idx = row as usize * self.width as usize + x as usize;
        self.buf[idx]
    }

    /// Changes the dimensions. Cells that existed before keep their place in
    /// linear storage; cells that are new take `default`.
    pub fn resize(&mut self, new_width: u16, new_height: u16, default: T)
        requires
            old(self).wf(),
        ensures
            final(self).wf(),
            final(self).spec_width() == new_width,
            final(self).spec_height() == new_height,
            final(self)@ == resized(old(self)@, new_width as nat * new_height as nat, default),
    {
        proof {
            lemma_cell_count_fits(new_width as int, new_height as int);
        }
        let new_size: usize = new_width as usize * new_height as usize;
        let old_len = self.buf.len();
        self.width = new_width;
        self.height = new_height;
        if new_size <= old_len {
            self.buf.truncate(new_size);
        } else {
            let mut i: usize = old_len;
            while i < new_size
                invariant
                    old_len <= i <= new_size,
                    self@.len() == i,
                    self.width == new_width,
                    self.height == new_height,
                    forall|j: int| 0 <= j < old_len ==> self@[j] == old(self)@[j],
                    forall|j: int| old_len <= j < i ==> self@[j] == default,
                    old_len == old(self)@.len(),
                decreases new_size - i,
            {
                self.buf.push(default);
                i += 1;
            }
        }
        assert(self@ =~= resized(old(self)@, new_size as nat, default));
    }

    pub fn get_width(&self) -> (r: u16)
        ensures
            r == self.spec_width(),
    {
        self.width
    }

    pub fn get_height(&self) -> (r: u16)
        ensures
            r == self.spec_height(),
    {
        self.height
    }

    /// The linear storage, top row first.
    pub fn get_raw(&self) -> (r: &[T])
        ensures
            r@ == self@,
    {
        self.buf.as_slice()
    }
}

/// Reading a coordinate right after writing it gives the written value, and
/// every other coordinate keeps its value.
pub proof fn lemma_plot_then_get<T>(
    cells: Seq<T>,
    width: int,
    height: int,
    x: int,
    y: int,
    value: T,
)
    requires
        cells.len() == width * height,
        0 <= x < width,
        0 <= y < height,
    ensures
        cell_at(with_cell(cells, width, height, x, y, value), width, height, x, y) == value,
        forall|x2: int, y2: int|
            0 <= x2 < width && 0 <= y2 < height && (x2 != x || y2 != y) ==> #[trigger] cell_at(
                with_cell(cells, width, height, x, y, value),
                width,
                height,
                x2,
                y2,
            ) == cell_at(cells, width, height, x2, y2),
{
    lemma_flip_index_bounds(width, height, x, y);
    assert forall|x2: int, y2: int|
        0 <= x2 < width && 0 <= y2 < height && (x2 != x || y2 != y) implies #[trigger] cell_at(
            with_cell(cells, width, height, x, y, value),
            width,
            height,
            x2,
            y2,
        ) == cell_at(cells, width, height, x2, y2) by {
        lemma_flip_index_bounds(width, height, x2, y2);
        lemma_flip_index_injective(width, height, x, y, x2, y2);
    }
}

/// Row 0 of user coordinates is the last row of linear storage, and row
/// `height - 1` is the first.
pub proof fn lemma_flip_rows(width: int, height: int, x: int)
    requires
        0 <= x < width,
        0 < height,
    ensures
        flip_index(width, height, x, 0) == (height - 1) * width + x,
        (height - 1) * width <= flip_index(width, height, x, 0) < height * width,
        flip_index(width, height, x, height - 1) == x,
        0 <= flip_index(width, height, x, height - 1) < width,
{
    assert((height - 1) * width + width == height * width) by (nonlinear_arith);
}

/// Filling with a value that the storage already holds everywhere changes
/// nothing: a second fill with the same value leaves what the first left.
pub proof fn lemma_fill_idempotent<T>(len: nat, value: T)
    ensures
        filled(filled(len, value).len(), value) == filled(len, value),
{
    assert(filled(filled(len, value).len(), value) =~= filled(len, value));
}

} // verus!
