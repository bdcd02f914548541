use vstd::prelude::*;

verus! {

/// A single-channel image: `width * height` intensities, row by row.
#[derive(Clone, Debug)]
pub struct LumaImage {
    pub width: u32,
    pub height: u32,
    pub data: Vec<u8>,
}

impl LumaImage {
    pub open spec fn well_formed(&self) -> bool {
        self.data@.len() == self.width * self.height
    }

    /// Whether pixel `(x, y)` lies inside the image.
    pub open spec fn in_bounds(&self, x: i64, y: i64) -> bool {
        0 <= x < self.width && 0 <= y < self.height
    }

    /// The intensity at pixel `(x, y)`, or 0 outside the image.
    pub open spec fn sample(&self, x: i64, y: i64) -> u8 {
        if self.in_bounds(x, y) {
            self.data@[y * self.width + x]
        } else {
            0
        }
    }

    /// An image from its size and its intensities, row by row; `None` when the
    /// number of intensities is not `width * height`.
    pub fn new(width: u32, height: u32, data: Vec<u8>) -> (r: Option<LumaImage>)
        ensures
            r is Some <==> data@.len() == width * height,
            r matches Some(img) ==> img.well_formed() && img.width == width && img.height
                == height && img.data@ == data@,
    {
        proof {
            let (a, b) = (width as int, height as int);
            assert(a * b <= 0xFFFF_FFFF * 0xFFFF_FFFF) by (nonlinear_arith)
                requires
                    0 <= a <= 0xFFFF_FFFF,
                    0 <= b <= 0xFFFF_FFFF,
            ;
        }
        if data.len() as u128 == width as u128 * height as u128 {
            Some(LumaImage { width, height, data })
        } else {
            None
        }
    }

    pub fn width(&self) -> (r: u32)
        ensures
            r == self.width,
    {
        self.width
    }

    pub fn height(&self) -> (r: u32)
        ensures
            r == self.height,
    {
        self.height
    }

    /// The intensity at pixel `(x, y)`, which must lie inside the image.
    pub fn luma_intensity(&self, x: u32, y: u32) -> (r: u8)
        requires
            self.well_formed(),
            x < self.width,
            y < self.height,
        ensures
            r == self.sample(x as i64, y as i64),
    {
        let n = self.data.len();
        proof {
            let (xi, yi, w, h) = (x as int, y as int, self.width as int, self.height as int);
            assert(0 <= yi * w && yi * w + xi < w * h) by (nonlinear_arith)
                requires
                    0 <= xi < w,
                    0 <= yi < h,
            ;
            assert(n == self.data@.len());
            assert((y as usize) as int * (self.width as usize) as int == yi * w);
        }
        let row = (y as usize) * (self.width as usize);
        let idx = row + (x as usize);
        self.data[idx]
    }
}

/// The feature values of a stage: for each sample pixel, in order, the
/// intensity there, or 0 where the pixel lies outside the image.
pub fn sample_feature_values(image: &LumaImage, points: &Vec<(i64, i64)>) -> (r: Vec<u8>)
    requires
        image.well_formed(),
    ensures
        r@.len() == points@.len(),
        forall|i: int|
            0 <= i < points@.len() ==> #[trigger] r@[i] == image.sample(
                points@[i].0,
                points@[i].1,
            ),
{
    let mut r: Vec<u8> = Vec::new();
    let mut i: usize = 0;
    while i < points.len()
        invariant
            image.well_formed(),
            i <= points@.len(),
            r@.len() == i,
            forall|k: int|
                0 <= k < i ==> #[trigger] r@[k] == image.sample(points@[k].0, points@[k].1),
        decreases points@.len() - i,
    {
        let (x, y) = points[i];
        let v = if 0 <= x && x < image.width as i64 && 0 <= y && y < image.height as i64 {
            image.luma_intensity(x as u32, y as u32)
        } else {
            0
        };
        r.push(v);
        i += 1;
    }
    r
}

} // verus!
