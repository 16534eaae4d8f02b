use vstd::prelude::*;

verus! {

/// A `width` × `height` grid of colors, stored row by row. The render's
/// collector is its only writer.
pub struct Image<C> {
    width: usize,
    height: usize,
    colors: Vec<C>,
}

impl<C> View for Image<C> {
    type V = Seq<C>;

    /// The colors, row by row.
    closed spec fn view(&self) -> Seq<C> {
        self.colors@
    }
}

impl<C: Copy> Image<C> {
    /// The grid holds exactly one color for each pixel.
    pub open spec fn wf(&self) -> bool {
        self@.len() == self.spec_width() * self.spec_height()
    }

    pub closed spec fn spec_width(&self) -> nat {
        self.width as nat
    }

    pub closed spec fn spec_height(&self) -> nat {
        self.height as nat
    }

    /// An image whose every pixel holds `fill`.
    pub fn new(width: usize, height: usize, fill: C) -> (r: Image<C>)
        requires
            width * height <= usize::MAX,
        ensures
            r.wf(),
            r.spec_width() == width,
            r.spec_height() == height,
            r@ == Seq::new((width * height) as nat, |i: int| fill),
    {
        let n: usize = width * height;
        let mut colors: Vec<C> = Vec::new();
        let mut i: usize = 0;
        while i < n
            invariant
                i <= n,
                colors@ == Seq::new(i as nat, |k: int| fill),
            decreases n - i,
        {
            colors.push(fill);
            assert(colors@ =~= Seq::new((i + 1) as nat, |k: int| fill));
            i = i + 1;
        }
        Image { width, height, colors }
    }

    pub fn width(&self) -> (r: usize)
        ensures
            r == self.spec_width(),
    {
        self.width
    }

    pub fn height(&self) -> (r: usize)
        ensures
            r == self.spec_height(),
    {
        self.height
    }

    /// Writes the color of pixel `(x, y)`; every other pixel keeps its color.
    pub fn set(&mut self, x: usize, y: usize, color: C)
        requires
            old(self).wf(),
            x < old(self).spec_width(),
            y < old(self).spec_height(),
        ensures
            final(self).wf(),
            final(self).spec_width() == old(self).spec_width(),
            final(self).spec_height() == old(self).spec_height(),
            final(self)@ == old(self)@.update(
                y * old(self).spec_width() + x,
                color,
            ),
    {
        proof {
            assert(self.colors.len() == self.width * self.height);
            assert(y * self.width + x < self.width * self.height) by (nonlinear_arith)
                requires
                    x < self.width,
                    y < self.height,
            ;
        }
        let index = y * self.width + x;
        self.colors.set(index, color);
    }

    /// The color of pixel `(x, y)`.
    pub fn get(&self, x: usize, y: usize) -> (r: C)
        requires
            self.wf(),
            x < self.spec_width(),
            y < self.spec_height(),
        ensures
            r == self@[y * self.spec_width() + x],
    {
        proof {
            assert(self.colors.len() == self.width * self.height);
            assert(y * self.width + x < self.width * self.height) by (nonlinear_arith)
                requires
                    x < self.width,
                    y < self.height,
            ;
        }
        self.colors[y * self.width + x]
    }

    /// The colors, row by row.
    pub fn colors(&self) -> (r: &Vec<C>)
        ensures
            r@ == self@,
    {
        &self.colors
    }
}

} // verus!
