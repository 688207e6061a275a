use vstd::prelude::*;

verus! {

/// A `width` by `height` buffer of pixels, stored row by row.
pub struct Img<T> {
    data: Vec<Vec<T>>,
    height: usize,
    width: usize,
}

impl<T: Copy> Img<T> {
    /// Rows, `height` of them, each of `width` pixels.
    pub closed spec fn rows(&self) -> Seq<Seq<T>> {
        Seq::new(self.data@.len(), |y: int| self.data@[y]@)
    }

    pub closed spec fn spec_width(&self) -> nat {
        self.width as nat
    }

    pub closed spec fn spec_height(&self) -> nat {
        self.height as nat
    }

    /// The pixel in column `x` of row `y`.
    pub open spec fn pixel(&self, x: int, y: int) -> T {
        self.rows()[y][x]
    }

    pub open spec fn wf(&self) -> bool {
        &&& self.rows().len() == self.spec_height()
        &&& forall|y: int| 0 <= y < self.spec_height() ==> #[trigger] self.rows()[y].len() == self.spec_width()
    }

    /// A buffer with every pixel set to `init`.
    pub fn new(init: T, width: usize, height: usize) -> (r: Img<T>)
        ensures
            r.wf(),
            r.spec_width() == width,
            r.spec_height() == height,
            forall|x: int, y: int| 0 <= x < width && 0 <= y < height ==> r.pixel(x, y) == init,
    {
        let mut data: Vec<Vec<T>> = Vec::new();
        let mut y: usize = 0;
        while y < height
            invariant
                y <= height,
                data@.len() == y,
                forall|j: int| 0 <= j < y ==> #[trigger] data@[j]@ == Seq::new(width as nat, |x: int| init),
            decreases height - y,
        {
            let mut row: Vec<T> = Vec::new();
            let mut x: usize = 0;
            while x < width
                invariant
                    x <= width,
                    row@ == Seq::new(x as nat, |i: int| init),
                decreases width - x,
            {
                row.push(init);
                x = x + 1;
                assert(row@ =~= Seq::new(x as nat, |i: int| init));
            }
            data.push(row);
            y = y + 1;
        }
        Img { data, height, width }
    }

    pub fn width(&self) -> (r: usize)
        ensures
            r == self.spec_width(),
    {
        self.width
    }

    pub fn height(&self) -> (r: usize)
        ensures
            r == self.spec_height(),
    {
        self.height
    }

    /// The pixel in column `x` of row `y`.
    pub fn get(&self, x: usize, y: usize) -> (r: T)
        requires
            self.wf(),
            x < self.spec_width(),
            y < self.spec_height(),
        ensures
            r == self.pixel(x as int, y as int),
    {
        assert(self.rows()[y as int] == self.data@[y as int]@);
        self.data[y][x]
    }

    /// Writes `v` to the pixel in column `x` of row `y`, leaving every other
    /// pixel as it was.
    pub fn set(&mut self, x: usize, y: usize, v: T)
        requires
            old(self).wf(),
            x < old(self).spec_width(),
            y < old(self).spec_height(),
        ensures
            final(self).wf(),
            final(self).spec_width() == old(self).spec_width(),
            final(self).spec_height() == old(self).spec_height(),
            final(self).rows() == old(self).rows().update(y as int, old(self).rows()[y as int].update(x as int, v)),
            forall|i: int, j: int|
                0 <= i < old(self).spec_width() && 0 <= j < old(self).spec_height() ==> #[trigger] final(self).pixel(i, j)
                    == if i == x && j == y {
                    v
                } else {
                    old(self).pixel(i, j)
                },
    {
        let ghost before = self.rows();
        assert(before[y as int] == self.data@[y as int]@);
        let mut row: Vec<T> = Vec::new();
        std::mem::swap(&mut row, &mut self.data[y]);
        row.set(x, v);
        self.data.set(y, row);
        assert(self.rows() =~= before.update(y as int, before[y as int].update(x as int, v)));
    }

    /// Calls `f(x, y, x * width + y)` once for each pixel, column by column.
    pub fn each_pixel<F>(&self, f: F)
        where
            F: Fn(usize, usize, usize),
        requires
            self.spec_width() * self.spec_width() + self.spec_height() <= usize::MAX,
            forall|x: usize, y: usize|
                x < self.spec_width() && y < self.spec_height() ==> #[trigger] f.requires((x, y, (x * self.spec_width() + y) as usize)),
    {
        let mut x: usize = 0;
        while x < self.width
            invariant
                x <= self.width,
                self.spec_width() * self.spec_width() + self.spec_height() <= usize::MAX,
                forall|x: usize, y: usize|
                    x < self.spec_width() && y < self.spec_height() ==> #[trigger] f.requires((x, y, (x * self.spec_width() + y) as usize)),
            decreases self.width - x,
        {
            let mut y: usize = 0;
            while y < self.height
                invariant
                    x < self.width,
                    y <= self.height,
                    self.spec_width() * self.spec_width() + self.spec_height() <= usize::MAX,
                    forall|x: usize, y: usize|
                        x < self.spec_width() && y < self.spec_height() ==> #[trigger] f.requires((x, y, (x * self.spec_width() + y) as usize)),
                decreases self.height - y,
            {
                assert(x * self.width + y <= self.width * self.width + self.height) by (nonlinear_arith)
                    requires x < self.width, y < self.height;
                f(x, y, x * self.width + y);
                y = y + 1;
            }
            x = x + 1;
        }
    }
}

} // verus!
