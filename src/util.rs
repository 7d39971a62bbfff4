use vstd::prelude::*;

verus! {

/// A point, or a pair of coordinates, in the plane of the grid.
#[derive(Clone, Copy, Debug, PartialEq, Eq, Hash)]
pub struct Point<T> {
    pub x: T,
    pub y: T,
}

impl<T: Copy> Point<T> {
    /// Walks the coordinates of the point: `x`, then `y`.
    pub fn coordinates(&self) -> (r: PointIterator<T>)
        ensures
            r.point == *self,
            r.index == 0,
    {
        PointIterator { point: *self, index: 0 }
    }
}

/// A walk over the coordinates of a point, `x` first and then `y`.
pub struct PointIterator<T> {
    pub point: Point<T>,
    pub index: usize,
}

impl<T: Copy> PointIterator<T> {
    /// The next coordinate, or `None` once both have been given.
    pub fn next(&mut self) -> (r: Option<T>)
        ensures
            old(self).point == final(self).point,
            old(self).index == 0 ==> r == Some(old(self).point.x) && final(self).index == 1,
            old(self).index == 1 ==> r == Some(old(self).point.y) && final(self).index == 2,
            old(self).index >= 2 ==> r is None && final(self).index == old(self).index,
    {
        let result = match self.index {
            0 => self.point.x,
            1 => self.point.y,
            _ => return None,
        };
        self.index = self.index + 1;
        Some(result)
    }
}

/// A nonnegative rational number `num / den`.
///
/// Crossing positions on cell edges are kept in this exact form rather than
/// rounded, so that two computations of the same crossing agree exactly.
#[derive(Clone, Copy, Debug)]
pub struct Fraction {
    pub num: u64,
    pub den: u64,
}

impl Fraction {
    /// The denominator is positive.
    pub open spec fn wf(self) -> bool {
        self.den > 0
    }

    /// Two fractions denote the same rational number.
    pub open spec fn same_value(self, other: Fraction) -> bool {
        self.num * other.den == other.num * self.den
    }

    /// Compares the two rational values exactly, by cross-multiplication.
    pub fn equals(&self, other: &Fraction) -> (r: bool)
        ensures
            r == self.same_value(*other),
    {
        let a: u128 = self.num as u128;
        let b: u128 = other.den as u128;
        let c: u128 = other.num as u128;
        let d: u128 = self.den as u128;
        proof {
            lemma_product_fits(a, b);
            lemma_product_fits(c, d);
        }
        a * b == c * d
    }
}

proof fn lemma_product_fits(a: u128, b: u128)
    requires
        a <= u64::MAX,
        b <= u64::MAX,
    ensures
        a * b <= u128::MAX,
{
    assert(a * b <= (u64::MAX as int) * (u64::MAX as int)) by (nonlinear_arith)
        requires
            a <= u64::MAX,
            b <= u64::MAX,
    ;
}

/// Two positions denote the same point of the plane.
pub open spec fn same_position(a: Point<Fraction>, b: Point<Fraction>) -> bool {
    a.x.same_value(b.x) && a.y.same_value(b.y)
}

/// Exact equality of two positions.
pub fn positions_equal(a: &Point<Fraction>, b: &Point<Fraction>) -> (r: bool)
    ensures
        r == same_position(*a, *b),
{
    a.x.equals(&b.x) && a.y.equals(&b.y)
}

/// A rectangular grid of samples, stored row by row.
pub struct Image {
    pub data: Vec<i32>,
    pub width: u32,
    pub height: u32,
}

impl Image {
    /// The samples, row by row.
    pub open spec fn samples(self) -> Seq<i32> {
        self.data@
    }

    /// The grid holds exactly `width * height` samples.
    pub open spec fn wf(self) -> bool {
        self.samples().len() == self.width * self.height
    }

    /// The sample at `(x, y)`, or `None` off the grid.
    pub open spec fn value_at(self, x: int, y: int) -> Option<i32> {
        if 0 <= x < self.width && 0 <= y < self.height {
            Some(self.samples()[y * self.width + x])
        } else {
            None
        }
    }

    /// Builds a grid from its samples, row by row.
    pub fn new(data: &[i32], width: u32, height: u32) -> (r: Image)
        requires
            data@.len() == width * height,
        ensures
            r.wf(),
            r.samples() == data@,
            r.width == width,
            r.height == height,
    {
        Image { data: vstd::slice::slice_to_vec(data), width, height }
    }

    /// Builds a grid, or gives `None` when the sample count is not
    /// `width * height`.
    pub fn try_new(data: &[i32], width: u32, height: u32) -> (r: Option<Image>)
        ensures
            r.is_some() <==> data@.len() == width * height,
            r matches Some(img) ==> img.wf() && img.samples() == data@ && img.width == width
                && img.height == height,
    {
        proof {
            assert(width * height <= u32::MAX * u32::MAX) by (nonlinear_arith)
                requires
                    width <= u32::MAX,
                    height <= u32::MAX,
            ;
        }
        let expected: u64 = width as u64 * height as u64;
        if data.len() as u64 == expected {
            Some(Image::new(data, width, height))
        } else {
            None
        }
    }

    /// The sample at `pt`, or `None` when `pt` is off the grid.
    pub fn get_val(&self, pt: &Point<u32>) -> (r: Option<i32>)
        requires
            self.wf(),
        ensures
            r == self.value_at(pt.x as int, pt.y as int),
    {
        if pt.x >= self.width || pt.y >= self.height {
            return None;
        }
        let len = self.data.len();
        proof {
            assert(self.width * self.height == len);
            lemma_index_in_bounds(pt.x as int, pt.y as int, self.width as int, self.height as int);
        }
        let i = point_to_index(pt, self.width);
        Some(self.data[i])
    }
}

proof fn lemma_index_in_bounds(x: int, y: int, w: int, h: int)
    requires
        0 <= x < w,
        0 <= y < h,
    ensures
        0 <= w * y + x < w * h,
{
    assert(w * y + x < w * h) by (nonlinear_arith)
        requires
            0 <= x < w,
            0 <= y < h,
    ;
    assert(0 <= w * y) by (nonlinear_arith)
        requires
            0 <= x < w,
            0 <= y,
    ;
}

/// The row-major position of `point` in a grid `width` samples wide.
pub fn point_to_index(point: &Point<u32>, width: u32) -> (r: usize)
    requires
        point.x < width,
        width * point.y + point.x <= usize::MAX,
    ensures
        r == width * point.y + point.x,
{
    proof {
        assert(0 <= width * point.y) by (nonlinear_arith);
    }
    (width as usize) * (point.y as usize) + (point.x as usize)
}

} // verus!
