use vstd::prelude::*;

verus! {

/// A single-channel 8-bit image, stored row by row.
///
/// Pixel `(x, y)` is `pixels[y * width + x]`.
pub struct LumaImage {
    width: u32,
    height: u32,
    pixels: Vec<u8>,
}

impl LumaImage {
    /// The buffer holds exactly one byte per pixel.
    #[verifier::type_invariant]
    spec fn inv(&self) -> bool {
        self.raw().len() == self.spec_width() as int * self.spec_height() as int
    }

    pub closed spec fn spec_width(&self) -> u32 {
        self.width
    }

    pub closed spec fn spec_height(&self) -> u32 {
        self.height
    }

    pub closed spec fn raw(&self) -> Seq<u8> {
        self.pixels@
    }

    /// The value of pixel `(x, y)`; meaningful for `x < width`, `y < height`.
    pub open spec fn pixel(&self, x: int, y: int) -> u8 {
        self.raw()[y * self.spec_width() + x]
    }

    pub open spec fn in_bounds(&self, x: int, y: int) -> bool {
        0 <= x < self.spec_width() && 0 <= y < self.spec_height()
    }

    /// Builds an image from its rows laid end to end; `None` unless the
    /// buffer holds exactly `width * height` bytes.
    pub fn new(width: u32, height: u32, pixels: Vec<u8>) -> (res: Option<LumaImage>)
        ensures
            res is Some <==> pixels@.len() == width as int * height as int,
            res matches Some(img) ==> {
                &&& img.spec_width() == width
                &&& img.spec_height() == height
                &&& img.raw() == pixels@
            },
    {
        let n = pixels.len();
        proof {
            lemma_u32_product_fits(width, height);
        }
        if (width as u64) * (height as u64) == n as u64 {
            Some(LumaImage { width, height, pixels })
        } else {
            None
        }
    }

    /// `(width, height)`.
    pub fn dimensions(&self) -> (res: (u32, u32))
        ensures
            res == (self.spec_width(), self.spec_height()),
    {
        (self.width, self.height)
    }

    /// The value of pixel `(x, y)`.
    pub fn get_pixel(&self, x: u32, y: u32) -> (v: u8)
        requires
            x < self.spec_width(),
            y < self.spec_height(),
        ensures
            v == self.pixel(x as int, y as int),
    {
        proof {
            use_type_invariant(self);
            lemma_index_in_grid(x as int, y as int, self.width as int, self.height as int);
            assert(self.pixels@.len() == self.pixels.len());
            assert(y as int * self.width as int <= y as int * self.width as int + x as int);
        }
        let i = y as usize * self.width as usize + x as usize;
        self.pixels[i]
    }
}

/// `y * w + x` addresses a cell of a `w` by `h` grid.
pub proof fn lemma_index_in_grid(x: int, y: int, w: int, h: int)
    requires
        0 <= x < w,
        0 <= y < h,
    ensures
        0 <= y * w + x < w * h,
{
    assert(0 <= y * w + x < w * h) by (nonlinear_arith)
        requires
            0 <= x < w,
            0 <= y < h,
    ;
}

/// The product of two `u32` values fits in a `u64`.
pub proof fn lemma_u32_product_fits(a: u32, b: u32)
    ensures
        a as int * b as int <= u64::MAX,
{
    assert(a as int * b as int <= u32::MAX as int * u32::MAX as int) by (nonlinear_arith)
        requires
            a <= u32::MAX,
            b <= u32::MAX,
            0 <= a,
            0 <= b,
    ;
}

/// A pixel counts as dark when its value is zero (scans are binarised).
pub open spec fn spec_is_dark(value: u8) -> bool {
    value == 0
}

/// Whether a pixel value counts as dark.
pub fn is_dark(value: u8) -> (res: bool)
    ensures
        res == spec_is_dark(value),
{
    value == 0
}


/// A three-channel 8-bit image, stored row by row.
///
/// Channel `c` of pixel `(x, y)` is `data[3 * (y * width + x) + c]`.
pub struct RgbCanvas {
    pub(crate) width: u32,
    pub(crate) height: u32,
    pub(crate) data: Vec<u8>,
}

impl RgbCanvas {
    /// The buffer holds exactly three bytes per pixel.
    #[verifier::type_invariant]
    pub(crate) open spec fn inv(&self) -> bool {
        self.raw().len() == 3 * (self.spec_width() as int * self.spec_height() as int)
    }

    pub closed spec fn spec_width(&self) -> u32 {
        self.width
    }

    pub closed spec fn spec_height(&self) -> u32 {
        self.height
    }

    pub closed spec fn raw(&self) -> Seq<u8> {
        self.data@
    }

    /// `(width, height)`.
    pub fn dimensions(&self) -> (res: (u32, u32))
        ensures
            res == (self.spec_width(), self.spec_height()),
    {
        (self.width, self.height)
    }

    /// The channel bytes, pixel after pixel, row after row.
    pub fn into_raw(self) -> (res: Vec<u8>)
        ensures
            res@ == self.raw(),
            res@.len() == 3 * (self.spec_width() as int * self.spec_height() as int),
    {
        proof {
            use_type_invariant(&self);
        }
        self.data
    }
}

/// Every pixel's gray value repeated on the three channels.
pub open spec fn gray_as_rgb(gray: Seq<u8>) -> Seq<u8> {
    Seq::new(3 * gray.len(), |k: int| gray[k / 3])
}

/// The color version of a gray image: each pixel `v` becomes `(v, v, v)`.
pub fn gray_to_rgb(img: &LumaImage) -> (res: RgbCanvas)
    ensures
        res.spec_width() == img.spec_width(),
        res.spec_height() == img.spec_height(),
        res.raw() == gray_as_rgb(img.raw()),
{
    proof {
        use_type_invariant(img);
    }
    let n = img.pixels.len();
    let mut data: Vec<u8> = Vec::new();
    let mut i: usize = 0;
    while i < n
        invariant
            n == img.raw().len(),
            i <= n,
            data@.len() == 3 * i,
            forall|k: int| 0 <= k < 3 * i ==> #[trigger] data@[k] == img.raw()[k / 3],
        decreases n - i,
    {
        let v = img.pixels[i];
        data.push(v);
        data.push(v);
        data.push(v);
        i = i + 1;
    }
    proof {
        assert(data@ =~= gray_as_rgb(img.raw()));
    }
    RgbCanvas { width: img.width, height: img.height, data }
}

} // verus!
