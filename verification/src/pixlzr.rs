//! The container: image dimensions, the block grid, and the splitter and
//! expander that take an image apart into blocks and put it back together.

use vstd::prelude::*;
use vstd::arithmetic::div_mod::{lemma_fundamental_div_mod, lemma_fundamental_div_mod_converse};
use vstd::arithmetic::mul::lemma_mul_inequality;
use crate::block::{BlockView, PixlzrBlock, PixlzrBlockRaw, RawImage, spec_resized};
use crate::filter::FilterType;

verus! {

/// `ceil(a / b)` on integers.
pub open spec fn ceil_div(a: int, b: int) -> int {
    (a + b - 1) / b
}

/// The quotient `ceil_div(a, b)` is the least `q` with `q * b >= a`; it is
/// bounded by `a` itself.
pub proof fn lemma_ceil_div(a: int, b: int)
    requires
        0 <= a,
        1 <= b,
    ensures
        ceil_div(a, b) * b >= a,
        ceil_div(a, b) * b < a + b,
        0 <= ceil_div(a, b) <= a,
        a >= 1 ==> ceil_div(a, b) >= 1,
{
    let q = (a + b - 1) / b;
    let r = (a + b - 1) % b;
    lemma_fundamental_div_mod(a + b - 1, b);
    vstd::arithmetic::div_mod::lemma_mod_bound(a + b - 1, b);
    assert(q * b >= a && q * b < a + b && 0 <= q <= a && (a >= 1 ==> q >= 1)) by (nonlinear_arith)
        requires
            a + b - 1 == b * q + r,
            0 <= r < b,
            0 <= a,
            1 <= b,
    ;
    assert(q == ceil_div(a, b));
}

/// The mathematical value of a container: the image and block-grid geometry,
/// the recorded filter, and the blocks in row-major order.
#[verifier::ext_equal]
pub ghost struct ContainerView {
    pub width: u32,
    pub height: u32,
    pub block_width: u32,
    pub block_height: u32,
    pub filter: Option<FilterType>,
    pub blocks: Seq<BlockView>,
}

impl ContainerView {
    /// Number of block columns.
    pub open spec fn grid_width(self) -> int {
        ceil_div(self.width as int, self.block_width as int)
    }

    /// Number of block rows.
    pub open spec fn grid_height(self) -> int {
        ceil_div(self.height as int, self.block_height as int)
    }

    /// The width of the grid cell in column `col`: the nominal block width,
    /// clipped at the right edge of the image.
    pub open spec fn cell_width(self, col: int) -> int {
        if self.block_width <= self.width - col * self.block_width {
            self.block_width as int
        } else {
            self.width - col * self.block_width
        }
    }

    /// The height of the grid cell in row `row`: the nominal block height,
    /// clipped at the bottom edge of the image.
    pub open spec fn cell_height(self, row: int) -> int {
        if self.block_height <= self.height - row * self.block_height {
            self.block_height as int
        } else {
            self.height - row * self.block_height
        }
    }

    /// A container is well formed when the block size is nonzero, the block
    /// list covers the grid exactly, and every block is itself well formed.
    pub open spec fn wf(self) -> bool {
        &&& self.block_width >= 1
        &&& self.block_height >= 1
        &&& self.blocks.len() == self.grid_width() * self.grid_height()
        &&& forall|i: int| 0 <= i < self.blocks.len() ==> (#[trigger] self.blocks[i]).wf()
    }

    /// Every block in a well-formed grid has cells of positive size.
    pub proof fn lemma_cell_bounds(self, col: int, row: int)
        requires
            self.block_width >= 1,
            self.block_height >= 1,
            0 <= col < self.grid_width(),
            0 <= row < self.grid_height(),
        ensures
            0 <= col * self.block_width < self.width,
            0 <= row * self.block_height < self.height,
            1 <= self.cell_width(col) <= self.block_width,
            1 <= self.cell_height(row) <= self.block_height,
            self.cell_width(col) == vstd::math::min(
                self.block_width as int,
                self.width - col * self.block_width,
            ),
            self.cell_height(row) == vstd::math::min(
                self.block_height as int,
                self.height - row * self.block_height,
            ),
    {
        let w = self.width as int;
        let bw = self.block_width as int;
        let gw = self.grid_width();
        lemma_ceil_div(w, bw);
        assert(col * bw >= 0) by {
            lemma_mul_inequality(0, col, bw);
        }
        assert((col + 1) * bw <= gw * bw) by {
            lemma_mul_inequality(col + 1, gw, bw);
        }
        assert(gw * bw < w + bw);
        assert((col + 1) * bw == col * bw + bw) by {
            vstd::arithmetic::mul::lemma_mul_is_distributive_add_other_way(bw, col, 1);
        }
        assert(col * bw < w);
        let h = self.height as int;
        let bh = self.block_height as int;
        let gh = self.grid_height();
        lemma_ceil_div(h, bh);
        assert(row * bh >= 0) by {
            lemma_mul_inequality(0, row, bh);
        }
        assert((row + 1) * bh <= gh * bh) by {
            lemma_mul_inequality(row + 1, gh, bh);
        }
        assert((row + 1) * bh == row * bh + bh) by {
            vstd::arithmetic::mul::lemma_mul_is_distributive_add_other_way(bh, row, 1);
        }
        assert(row * bh < h);
    }
}

/// A grid of pixel blocks cut from one image, with the geometry needed to put
/// them back.  `filter` records which resampling filter last expanded this
/// container, `None` before any expansion.
#[derive(Debug, Clone)]
pub struct Pixlzr {
    pub width: u32,
    pub height: u32,
    pub block_width: u32,
    pub block_height: u32,
    pub filter: Option<FilterType>,
    pub blocks: Vec<PixlzrBlock>,
}

impl View for Pixlzr {
    type V = ContainerView;

    open spec fn view(&self) -> ContainerView {
        ContainerView {
            width: self.width,
            height: self.height,
            block_width: self.block_width,
            block_height: self.block_height,
            filter: self.filter,
            blocks: Seq::new(self.blocks@.len(), |i: int| self.blocks@[i]@),
        }
    }
}

/// The pixel bytes of the rectangle at `(x, y)` of size `w x h` cut out of a
/// row-major image that is `image_width` pixels wide with `channels` bytes
/// per pixel: the rows of the rectangle, concatenated.
pub open spec fn spec_crop(
    data: Seq<u8>,
    image_width: int,
    channels: int,
    x: int,
    y: int,
    w: int,
    h: int,
) -> Seq<u8>
    decreases h,
{
    if h <= 0 {
        Seq::empty()
    } else {
        spec_crop(data, image_width, channels, x, y, w, h - 1) + data.subrange(
            ((y + h - 1) * image_width + x) * channels,
            ((y + h - 1) * image_width + x + w) * channels,
        )
    }
}

/// The length of a crop is its pixel count times the bytes per pixel.
pub proof fn lemma_crop_len(
    data: Seq<u8>,
    image_width: int,
    channels: int,
    x: int,
    y: int,
    w: int,
    h: int,
)
    requires
        0 <= x,
        0 <= y,
        1 <= w,
        0 <= h,
        1 <= channels,
        x + w <= image_width,
        (y + h) * image_width * channels <= data.len(),
    ensures
        spec_crop(data, image_width, channels, x, y, w, h).len() == w * h * channels,
    decreases h,
{
    if h > 0 {
        lemma_row_bytes_in_range(data, image_width, channels, x, y + h - 1, w);
        assert((y + h - 1 + 1) * image_width * channels <= (y + h) * image_width * channels) by {
            lemma_mul_inequality(y + h - 1 + 1, y + h, image_width);
            lemma_mul_inequality((y + h - 1 + 1) * image_width, (y + h) * image_width, channels);
        }
        assert((y + h - 1) * image_width * channels <= (y + h) * image_width * channels) by {
            lemma_mul_inequality(y + h - 1, y + h, image_width);
            lemma_mul_inequality((y + h - 1) * image_width, (y + h) * image_width, channels);
        }
        lemma_crop_len(data, image_width, channels, x, y, w, h - 1);
        assert(w * (h - 1) * channels + w * channels == w * h * channels) by (nonlinear_arith);
    } else {
        assert(w * h * channels == 0) by (nonlinear_arith)
            requires h == 0;
    }
}

/// The byte range of one image row segment lies inside the buffer.
pub proof fn lemma_row_bytes_in_range(
    data: Seq<u8>,
    image_width: int,
    channels: int,
    x: int,
    y: int,
    w: int,
)
    requires
        0 <= x,
        0 <= y,
        1 <= w,
        1 <= channels,
        x + w <= image_width,
        (y + 1) * image_width * channels <= data.len(),
    ensures
        0 <= (y * image_width + x) * channels,
        ((y * image_width + x) * channels) + w * channels <= data.len(),
        (y * image_width + x + w) * channels == ((y * image_width + x) * channels) + w * channels,
{
    assert(y * image_width >= 0) by {
        lemma_mul_inequality(0, y, image_width);
    }
    assert((y * image_width + x) * channels >= 0) by {
        lemma_mul_inequality(0, y * image_width + x, channels);
    }
    assert((y * image_width + x + w) * channels == (y * image_width + x) * channels + w
        * channels) by {
        vstd::arithmetic::mul::lemma_mul_is_distributive_add_other_way(
            channels,
            y * image_width + x,
            w,
        );
    }
    assert(y * image_width + x + w <= (y + 1) * image_width) by {
        assert((y + 1) * image_width == y * image_width + image_width) by {
            vstd::arithmetic::mul::lemma_mul_is_distributive_add_other_way(image_width, y, 1);
        }
    }
    assert((y * image_width + x + w) * channels <= (y + 1) * image_width * channels) by {
        lemma_mul_inequality(y * image_width + x + w, (y + 1) * image_width, channels);
    }
}

/// Cuts the rectangle at `(x, y)` of nominal size `width x height` out of the
/// image, clipped to the image bounds; the cut is a direct crop, never
/// padded.
pub fn get_image_block(
    image: &RawImage,
    image_width: u32,
    image_height: u32,
    x: u32,
    y: u32,
    width: u32,
    height: u32,
) -> (r: PixlzrBlock)
    requires
        x < image_width,
        y < image_height,
        width >= 1,
        height >= 1,
        image.data@.len() == image_width * image_height * (if image.alpha { 4int } else { 3int }),
    ensures
        r@.width == vstd::math::min(width as int, image_width - x),
        r@.height == vstd::math::min(height as int, image_height - y),
        r@.alpha == image.alpha,
        r@.block_value is None,
        r@.data == spec_crop(
            image.data@,
            image_width as int,
            r@.channels(),
            x as int,
            y as int,
            r@.width as int,
            r@.height as int,
        ),
        r@.wf(),
{
    let channels: usize = if image.alpha { 4 } else { 3 };
    let w: u32 = if width <= image_width - x { width } else { image_width - x };
    let h: u32 = if height <= image_height - y { height } else { image_height - y };
    let ghost iw = image_width as int;
    let ghost ch = channels as int;
    proof {
        lemma_mul_inequality(image_width as int, image_width as int, image_height as int);
    }
    let mut out: Vec<u8> = Vec::new();
    let mut j: u32 = 0;
    while j < h
        invariant
            1 <= w,
            1 <= h,
            x + w <= image_width,
            y + h <= image_height,
            channels == (if image.alpha { 4int } else { 3int }),
            image.data.len() == image_width * image_height * channels,
            j <= h,
            out@ == spec_crop(image.data@, iw, ch, x as int, y as int, w as int, j as int),
            iw == image_width as int,
            ch == channels as int,
        decreases h - j,
    {
        proof {
            assert((y + j + 1) * iw * ch <= image_height * iw * ch) by {
                lemma_mul_inequality(y + j + 1, image_height as int, iw);
                lemma_mul_inequality((y + j + 1) * iw, image_height as int * iw, ch);
            }
            assert(image_height as int * iw * ch == image.data@.len()) by {
                vstd::arithmetic::mul::lemma_mul_is_commutative(image_width as int, image_height as int);
            }
            lemma_row_bytes_in_range(image.data@, iw, ch, x as int, y + j, w as int);
        }
        proof {
            let rp = (y + j) * iw + x;
            assert(rp >= 0 && rp * ch <= image.data.len());
            assert(rp <= rp * ch) by {
                lemma_mul_inequality(1, ch, rp);
                vstd::arithmetic::mul::lemma_mul_is_commutative(ch, rp);
            }
        }
        let row_px: usize = (y as usize + j as usize) * (image_width as usize) + x as usize;
        let row_start: usize = row_px * channels;
        let row_len: usize = (w as usize) * channels;
        let ghost out_before = out@;
        let mut k: usize = 0;
        while k < row_len
            invariant
                k <= row_len,
                row_start + row_len <= image.data.len(),
                row_start == ((y + j) * iw + x) * ch,
                row_len == w as int * ch,
                out@ == out_before + image.data@.subrange(row_start as int, row_start + k),
                iw == image_width as int,
            decreases row_len - k,
        {
            out.push(image.data[row_start + k]);
            proof {
                assert(out@ =~= out_before + image.data@.subrange(
                    row_start as int,
                    row_start + k + 1,
                ));
            }
            k = k + 1;
        }
        proof {
            assert(((y + j + 1 - 1) * iw + x) * ch == row_start as int);
            assert(((y + j + 1 - 1) * iw + x + w) * ch == row_start + row_len) by {
                vstd::arithmetic::mul::lemma_mul_is_distributive_add_other_way(
                    ch,
                    (y + j) * iw + x,
                    w as int,
                );
            }
            assert(out@ =~= spec_crop(
                image.data@,
                iw,
                ch,
                x as int,
                y as int,
                w as int,
                j + 1,
            ));
        }
        j = j + 1;
    }
    let ghost rv = BlockView {
        width: w,
        height: h,
        alpha: image.alpha,
        block_value: None,
        data: out@,
    };
    proof {
        assert((y as int + h as int) * iw * ch <= image.data@.len()) by {
            lemma_mul_inequality(y + h, image_height as int, iw);
            lemma_mul_inequality((y + h) * iw, image_height as int * iw, ch);
            vstd::arithmetic::mul::lemma_mul_is_commutative(image_width as int, image_height as int);
        }
        lemma_crop_len(image.data@, iw, ch, x as int, y as int, w as int, h as int);
        assert(w as int * h as int * ch == w * h * ch);
    }
    PixlzrBlock::Raw(
        PixlzrBlockRaw {
            width: w,
            height: h,
            block_value: None,
            data: RawImage { alpha: image.alpha, data: out },
        },
    )
}

/// A block together with its pixel offset in the source image.
#[derive(Debug, Clone)]
pub struct ImageBlock {
    pub x: u32,
    pub y: u32,
    pub block: PixlzrBlock,
}

/// Splits an image into blocks of nominal size `width x height`, each paired
/// with its pixel offset `(x, y)` in the source; blocks at the right and
/// bottom edges are clipped, never padded.  Each block's content is a direct
/// crop of the source.
pub fn split_image(
    image: &RawImage,
    image_width: u32,
    image_height: u32,
    width: u32,
    height: u32,
) -> (r: Vec<ImageBlock>)
    requires
        width >= 1,
        height >= 1,
        image.data@.len() == image_width * image_height * (if image.alpha { 4int } else { 3int }),
    ensures
        ({
            let gv = ContainerView {
                width: image_width,
                height: image_height,
                block_width: width,
                block_height: height,
                filter: None,
                blocks: Seq::empty(),
            };
            &&& r@.len() == gv.grid_width() * gv.grid_height()
            &&& forall|i: int|
                0 <= i < r@.len() ==> {
                    let col = i % gv.grid_width();
                    let row = i / gv.grid_width();
                    &&& (#[trigger] r@[i]).x == col * width
                    &&& r@[i].y == row * height
                    &&& r@[i].block@.width == gv.cell_width(col)
                    &&& r@[i].block@.height == gv.cell_height(row)
                    &&& r@[i].block@.alpha == image.alpha
                    &&& r@[i].block@.block_value is None
                    &&& r@[i].block@.data == spec_crop(
                        image.data@,
                        image_width as int,
                        r@[i].block@.channels(),
                        col * width,
                        row * height,
                        r@[i].block@.width as int,
                        r@[i].block@.height as int,
                    )
                }
        }),
{
    let pix = Pixlzr::from_image(image, image_width, image_height, width, height);
    let ghost v = pix@;
    let ghost gv = ContainerView {
        width: image_width,
        height: image_height,
        block_width: width,
        block_height: height,
        filter: None,
        blocks: Seq::empty(),
    };
    let cols: u32 = pix.block_grid_width();
    let n = pix.blocks.len();
    let mut out: Vec<ImageBlock> = Vec::new();
    let mut i: usize = 0;
    while i < n
        invariant
            v == pix@,
            v.wf(),
            cols == v.grid_width(),
            n == pix.blocks@.len(),
            i <= n,
            out@.len() == i,
            width == v.block_width,
            height == v.block_height,
            gv.grid_width() == v.grid_width(),
            gv.grid_height() == v.grid_height(),
            forall|c: int, rw: int|
                #![trigger gv.cell_width(c), gv.cell_height(rw)]
                gv.cell_width(c) == v.cell_width(c) && gv.cell_height(rw) == v.cell_height(rw),
            image.data@.len() == image_width * image_height * (if image.alpha {
                4int
            } else {
                3int
            }),
            forall|k: int|
                0 <= k < v.blocks.len() ==> {
                    let col = k % v.grid_width();
                    let row = k / v.grid_width();
                    &&& (#[trigger] v.blocks[k]).width == v.cell_width(col)
                    &&& v.blocks[k].height == v.cell_height(row)
                    &&& v.blocks[k].alpha == image.alpha
                    &&& v.blocks[k].block_value is None
                    &&& v.blocks[k].data == spec_crop(
                        image.data@,
                        image_width as int,
                        v.blocks[k].channels(),
                        col * width,
                        row * height,
                        v.blocks[k].width as int,
                        v.blocks[k].height as int,
                    )
                },
            forall|k: int|
                0 <= k < i ==> {
                    let col = k % v.grid_width();
                    let row = k / v.grid_width();
                    &&& (#[trigger] out@[k]).x == col * width
                    &&& out@[k].y == row * height
                    &&& out@[k].block@ == v.blocks[k]
                },
        decreases n - i,
    {
        let col: usize = i % (cols as usize);
        let row: usize = i / (cols as usize);
        proof {
            assert(cols >= 1) by {
                if v.grid_width() == 0 {
                    assert(n == 0) by (nonlinear_arith)
                        requires
                            n == v.grid_width() * v.grid_height(),
                            v.grid_width() == 0,
                    ;
                }
            }
            assert(row < v.grid_height()) by {
                lemma_fundamental_div_mod(i as int, cols as int);
                if row as int >= v.grid_height() {
                    assert(i as int >= cols as int * v.grid_height()) by (nonlinear_arith)
                        requires
                            i as int == cols as int * (i as int / cols as int) + i as int
                                % cols as int,
                            i as int % cols as int >= 0,
                            i as int / cols as int >= v.grid_height(),
                            cols as int >= 1,
                    ;
                    assert(cols as int * v.grid_height() == n) by {
                        vstd::arithmetic::mul::lemma_mul_is_commutative(
                            cols as int,
                            v.grid_height(),
                        );
                    }
                }
            }
            v.lemma_cell_bounds(col as int, row as int);
            lemma_ceil_div(v.width as int, v.block_width as int);
            lemma_ceil_div(v.height as int, v.block_height as int);
            assert(col as int * width < v.width as int);
            assert(row as int * height < v.height as int);
        }
        let x: u32 = (col as u32) * width;
        let y: u32 = (row as u32) * height;
        let block = pix.blocks[i].duplicate();
        proof {
            assert(block@ == v.blocks[i as int]);
        }
        out.push(ImageBlock { x, y, block });
        i = i + 1;
    }
    out
}

impl Pixlzr {
    /// The width and height of the full image.
    pub fn dimensions(&self) -> (r: (u32, u32))
        ensures
            r.0 == self@.width,
            r.1 == self@.height,
    {
        (self.width, self.height)
    }

    /// The nominal block size.
    pub fn block_dimensions(&self) -> (r: (u32, u32))
        ensures
            r.0 == self@.block_width,
            r.1 == self@.block_height,
    {
        (self.block_width, self.block_height)
    }

    /// Number of block columns in the grid.
    pub fn block_grid_width(&self) -> (r: u32)
        requires
            self@.block_width >= 1,
        ensures
            r == self@.grid_width(),
    {
        proof {
            lemma_ceil_div(self.width as int, self.block_width as int);
        }
        (((self.width as u64) + (self.block_width as u64) - 1) / (self.block_width as u64)) as u32
    }

    /// Number of block rows in the grid.
    pub fn block_grid_height(&self) -> (r: u32)
        requires
            self@.block_height >= 1,
        ensures
            r == self@.grid_height(),
    {
        proof {
            lemma_ceil_div(self.height as int, self.block_height as int);
        }
        (((self.height as u64) + (self.block_height as u64) - 1) / (self.block_height as u64)) as u32
    }

    /// The block-grid dimensions `(columns, rows)`.
    pub fn block_grid_dimensions(&self) -> (r: (u32, u32))
        requires
            self@.block_width >= 1,
            self@.block_height >= 1,
        ensures
            r.0 == self@.grid_width(),
            r.1 == self@.grid_height(),
    {
        (self.block_grid_width(), self.block_grid_height())
    }

    /// Whether the grid has undersized trailing blocks at the right edge and
    /// at the bottom edge.
    pub fn block_grid_has_trailing(&self) -> (r: (bool, bool))
        requires
            self@.block_width >= 1,
            self@.block_height >= 1,
        ensures
            r.0 == (self@.width as int % self@.block_width as int > 0),
            r.1 == (self@.height as int % self@.block_height as int > 0),
    {
        (self.width % self.block_width > 0, self.height % self.block_height > 0)
    }

    /// Splits an image of `width x height` pixels into a row-major grid of
    /// blocks of nominal size `block_width x block_height`; blocks at the
    /// right and bottom edges are clipped, never padded.  Every block is a
    /// direct crop of the source, with no detail value yet.
    pub fn from_image(
        image: &RawImage,
        width: u32,
        height: u32,
        block_width: u32,
        block_height: u32,
    ) -> (r: Pixlzr)
        requires
            block_width >= 1,
            block_height >= 1,
            image.data@.len() == width * height * (if image.alpha { 4int } else { 3int }),
        ensures
            r@.width == width,
            r@.height == height,
            r@.block_width == block_width,
            r@.block_height == block_height,
            r@.filter is None,
            r@.wf(),
            r@.blocks.len() == r@.grid_width() * r@.grid_height(),
            forall|i: int|
                0 <= i < r@.blocks.len() ==> {
                    let col = i % r@.grid_width();
                    let row = i / r@.grid_width();
                    &&& (#[trigger] r@.blocks[i]).width == r@.cell_width(col)
                    &&& r@.blocks[i].height == r@.cell_height(row)
                    &&& r@.blocks[i].alpha == image.alpha
                    &&& r@.blocks[i].block_value is None
                    &&& r@.blocks[i].data == spec_crop(
                        image.data@,
                        width as int,
                        r@.blocks[i].channels(),
                        col * block_width,
                        row * block_height,
                        r@.blocks[i].width as int,
                        r@.blocks[i].height as int,
                    )
                },
    {
        let ghost gv = ContainerView {
            width,
            height,
            block_width,
            block_height,
            filter: None,
            blocks: Seq::empty(),
        };
        proof {
            lemma_ceil_div(width as int, block_width as int);
            lemma_ceil_div(height as int, block_height as int);
        }
        let cols: u32 = (((width as u64) + (block_width as u64) - 1) / (block_width as u64)) as u32;
        let rows: u32 = (((height as u64) + (block_height as u64) - 1) / (block_height as u64)) as u32;
        let mut blocks: Vec<PixlzrBlock> = Vec::new();
        let mut row: u32 = 0;
        while row < rows
            invariant
                cols == gv.grid_width(),
                rows == gv.grid_height(),
                gv == (ContainerView {
                    width,
                    height,
                    block_width,
                    block_height,
                    filter: None,
                    blocks: Seq::empty(),
                }),
                block_width >= 1,
                block_height >= 1,
                image.data@.len() == width * height * (if image.alpha { 4int } else { 3int }),
                row <= rows,
                blocks@.len() == row * cols,
                forall|i: int|
                    0 <= i < blocks@.len() ==> {
                        let col = i % cols as int;
                        let rw = i / cols as int;
                        &&& (#[trigger] blocks@[i])@.width == gv.cell_width(col)
                        &&& blocks@[i]@.height == gv.cell_height(rw)
                        &&& blocks@[i]@.alpha == image.alpha
                        &&& blocks@[i]@.block_value is None
                        &&& blocks@[i]@.wf()
                        &&& blocks@[i]@.data == spec_crop(
                            image.data@,
                            width as int,
                            blocks@[i]@.channels(),
                            col * block_width,
                            rw * block_height,
                            blocks@[i]@.width as int,
                            blocks@[i]@.height as int,
                        )
                    },
            decreases rows - row,
        {
            let mut col: u32 = 0;
            while col < cols
                invariant
                    cols == gv.grid_width(),
                    rows == gv.grid_height(),
                    gv == (ContainerView {
                        width,
                        height,
                        block_width,
                        block_height,
                        filter: None,
                        blocks: Seq::empty(),
                    }),
                    block_width >= 1,
                    block_height >= 1,
                    image.data@.len() == width * height * (if image.alpha { 4int } else { 3int }),
                    row < rows,
                    col <= cols,
                    blocks@.len() == row * cols + col,
                    forall|i: int|
                        0 <= i < blocks@.len() ==> {
                            let cl = i % cols as int;
                            let rw = i / cols as int;
                            &&& (#[trigger] blocks@[i])@.width == gv.cell_width(cl)
                            &&& blocks@[i]@.height == gv.cell_height(rw)
                            &&& blocks@[i]@.alpha == image.alpha
                            &&& blocks@[i]@.block_value is None
                            &&& blocks@[i]@.wf()
                            &&& blocks@[i]@.data == spec_crop(
                                image.data@,
                                width as int,
                                blocks@[i]@.channels(),
                                cl * block_width,
                                rw * block_height,
                                blocks@[i]@.width as int,
                                blocks@[i]@.height as int,
                            )
                        },
                decreases cols - col,
            {
                proof {
                    gv.lemma_cell_bounds(col as int, row as int);
                }
                let x: u32 = col * block_width;
                let y: u32 = row * block_height;
                let block = get_image_block(image, width, height, x, y, block_width, block_height);
                blocks.push(block);
                proof {
                    let i = blocks@.len() - 1;
                    assert(i == row * cols + col);
                    lemma_fundamental_div_mod_converse(i, cols as int, row as int, col as int);
                    assert(i % cols as int == col as int);
                    assert(i / cols as int == row as int);
                }
                col = col + 1;
            }
            proof {
                assert(row as int * cols + cols == (row + 1) * cols) by {
                    vstd::arithmetic::mul::lemma_mul_is_distributive_add_other_way(
                        cols as int,
                        row as int,
                        1,
                    );
                }
            }
            row = row + 1;
        }
        let r = Pixlzr {
            width,
            height,
            block_width,
            block_height,
            filter: None,
            blocks,
        };
        proof {
            vstd::arithmetic::mul::lemma_mul_is_commutative(rows as int, cols as int);
            assert(r@.blocks.len() == r@.grid_width() * r@.grid_height());
            assert forall|i: int| 0 <= i < r@.blocks.len() implies (#[trigger] r@.blocks[i]).wf() by {
                assert(r@.blocks[i] == r.blocks@[i]@);
            }
        }
        r
    }

    /// Resizes every block back to its grid cell's size (trailing cells keep
    /// their clipped size) with the given filter, recording the filter in the
    /// result.  Blocks already at cell size are kept byte-identical.
    pub fn expand(&self, filter: FilterType) -> (r: Pixlzr)
        requires
            self@.wf(),
        ensures
            r@.width == self@.width,
            r@.height == self@.height,
            r@.block_width == self@.block_width,
            r@.block_height == self@.block_height,
            r@.filter == Some(filter),
            r@.wf(),
            r@.blocks.len() == self@.blocks.len(),
            forall|i: int|
                0 <= i < r@.blocks.len() ==> #[trigger] r@.blocks[i] == spec_resized(
                    self@.blocks[i],
                    self@.cell_width(i % self@.grid_width()) as u32,
                    self@.cell_height(i / self@.grid_width()) as u32,
                    filter,
                ),
    {
        let ghost sv = self@;
        let cols: u32 = self.block_grid_width();
        let rows: u32 = self.block_grid_height();
        let mut blocks: Vec<PixlzrBlock> = Vec::new();
        let n = self.blocks.len();
        proof {
            assert(n == sv.grid_width() * sv.grid_height());
        }
        let mut i: usize = 0;
        while i < n
            invariant
                sv == self@,
                sv.wf(),
                cols == sv.grid_width(),
                rows == sv.grid_height(),
                n == self.blocks@.len(),
                n == sv.grid_width() * sv.grid_height(),
                i <= n,
                blocks@.len() == i,
                forall|k: int|
                    0 <= k < i ==> #[trigger] blocks@[k]@ == spec_resized(
                        sv.blocks[k],
                        sv.cell_width(k % sv.grid_width()) as u32,
                        sv.cell_height(k / sv.grid_width()) as u32,
                        filter,
                    ) && blocks@[k]@.wf(),
            decreases n - i,
        {
            let col: usize = i % (cols as usize);
            let row: usize = i / (cols as usize);
            proof {
                assert(cols >= 1) by {
                    if sv.grid_width() == 0 {
                        assert(n == 0) by (nonlinear_arith)
                            requires n == sv.grid_width() * sv.grid_height(), sv.grid_width() == 0;
                    }
                }
                assert(row < rows) by {
                    lemma_fundamental_div_mod(i as int, cols as int);
                    if row as int >= rows as int {
                        assert(i as int >= cols as int * rows as int) by (nonlinear_arith)
                            requires
                                i as int == cols as int * (i as int / cols as int) + i as int % cols as int,
                                i as int % cols as int >= 0,
                                i as int / cols as int >= rows as int,
                                cols as int >= 1;
                        assert(cols as int * rows as int == n) by {
                            vstd::arithmetic::mul::lemma_mul_is_commutative(cols as int, rows as int);
                        }
                    }
                }
                sv.lemma_cell_bounds(col as int, row as int);
            }
            let rem_w: u32 = self.width - (col as u32) * self.block_width;
            let nwidth: u32 = if self.block_width <= rem_w { self.block_width } else { rem_w };
            let rem_h: u32 = self.height - (row as u32) * self.block_height;
            let nheight: u32 = if self.block_height <= rem_h { self.block_height } else { rem_h };
            let block = &self.blocks[i];
            proof {
                assert(sv.blocks[i as int] == self.blocks@[i as int]@);
            }
            let resized = block.resize(nwidth, nheight, filter);
            blocks.push(resized);
            i = i + 1;
        }
        let r = Pixlzr {
            width: self.width,
            height: self.height,
            block_width: self.block_width,
            block_height: self.block_height,
            filter: Some(filter),
            blocks,
        };
        proof {
            assert(r@.blocks.len() == sv.grid_width() * sv.grid_height());
            assert forall|i: int| 0 <= i < r@.blocks.len() implies (#[trigger] r@.blocks[i]).wf() by {
                assert(r@.blocks[i] == r.blocks@[i]@);
            }
            assert forall|i: int| 0 <= i < r@.blocks.len() implies #[trigger] r@.blocks[i]
                == spec_resized(
                sv.blocks[i],
                sv.cell_width(i % sv.grid_width()) as u32,
                sv.cell_height(i / sv.grid_width()) as u32,
                filter,
            ) by {
                assert(r@.blocks[i] == r.blocks@[i]@);
            }
        }
        r
    }
}


/// Whether any block of the grid carries an alpha channel.
pub open spec fn spec_has_alpha(blocks: Seq<BlockView>) -> bool {
    exists|i: int| 0 <= i < blocks.len() && (#[trigger] blocks[i]).alpha
}

/// The container after expansion: every block resized to its grid cell's
/// size, and the filter recorded.
pub open spec fn spec_expanded(v: ContainerView, filter: FilterType) -> ContainerView {
    ContainerView {
        filter: Some(filter),
        blocks: Seq::new(
            v.blocks.len(),
            |i: int|
                spec_resized(
                    v.blocks[i],
                    v.cell_width(i % v.grid_width()) as u32,
                    v.cell_height(i / v.grid_width()) as u32,
                    filter,
                ),
        ),
        ..v
    }
}

/// Pixel `k` of row `j` of block `b`, laid out for a canvas that has an alpha
/// channel iff `out_alpha`: the pixel's own bytes when the layouts agree,
/// else the three color bytes with a fully opaque alpha appended.
pub open spec fn spec_out_pixel(b: BlockView, j: int, k: int, out_alpha: bool) -> Seq<u8> {
    let base = (j * b.width + k) * b.channels();
    if b.alpha == out_alpha {
        b.data.subrange(base, base + b.channels())
    } else {
        b.data.subrange(base, base + 3).push(255u8)
    }
}

/// The first `k` pixels of row `j` of block `b`, laid out for the canvas.
pub open spec fn spec_block_row_bytes(b: BlockView, j: int, out_alpha: bool, k: int) -> Seq<u8>
    decreases k,
{
    if k <= 0 {
        Seq::empty()
    } else {
        spec_block_row_bytes(b, j, out_alpha, k - 1) + spec_out_pixel(b, j, k - 1, out_alpha)
    }
}

/// One canvas scanline, partially assembled: local row `j` of the first `c`
/// blocks of the grid row starting at block index `row_base`, side by side.
pub open spec fn spec_scanline(
    blocks: Seq<BlockView>,
    row_base: int,
    j: int,
    out_alpha: bool,
    c: int,
) -> Seq<u8>
    decreases c,
{
    if c <= 0 {
        Seq::empty()
    } else {
        spec_scanline(blocks, row_base, j, out_alpha, c - 1) + spec_block_row_bytes(
            blocks[row_base + c - 1],
            j,
            out_alpha,
            blocks[row_base + c - 1].width as int,
        )
    }
}

/// The first `yy` scanlines of the composed canvas: scanline `y` is row
/// `y % block_height` of the blocks in grid row `y / block_height`.
pub open spec fn spec_composed(v: ContainerView, out_alpha: bool, yy: int) -> Seq<u8>
    decreases yy,
{
    if yy <= 0 {
        Seq::empty()
    } else {
        spec_composed(v, out_alpha, yy - 1) + spec_scanline(
            v.blocks,
            ((yy - 1) / (v.block_height as int)) * v.grid_width(),
            (yy - 1) % (v.block_height as int),
            out_alpha,
            v.grid_width(),
        )
    }
}

impl Pixlzr {
    /// Whether any block of this container carries an alpha channel.
    fn any_alpha(&self) -> (r: bool)
        ensures
            r == spec_has_alpha(self@.blocks),
    {
        let n = self.blocks.len();
        let mut i: usize = 0;
        while i < n
            invariant
                n == self.blocks@.len(),
                i <= n,
                forall|k: int| 0 <= k < i ==> !(#[trigger] self@.blocks[k]).alpha,
            decreases n - i,
        {
            if self.blocks[i].has_alpha() {
                proof {
                    assert(self@.blocks[i as int].alpha);
                }
                return true;
            }
            proof {
                assert(self@.blocks[i as int] == self.blocks@[i as int]@);
            }
            i = i + 1;
        }
        false
    }

    /// Reconstructs the full image: expands every block back to its grid
    /// cell's size with the given filter, then composites the cells onto one
    /// canvas, scanline by scanline.  The canvas carries an alpha channel
    /// exactly when some block does; blocks without one get fully opaque
    /// pixels there.
    #[verifier::rlimit(100)]
    pub fn to_image(&self, filter: FilterType) -> (r: RawImage)
        requires
            self@.wf(),
        ensures
            r.alpha == spec_has_alpha(self@.blocks),
            r.data@ == spec_composed(
                spec_expanded(self@, filter),
                spec_has_alpha(self@.blocks),
                self@.height as int,
            ),
    {
        let ghost sv = self@;
        let pix = self.expand(filter);
        let ghost ev = spec_expanded(sv, filter);
        proof {
            assert(pix@.blocks =~= ev.blocks);
            assert(pix@ =~= ev);
        }
        let out_alpha = self.any_alpha();
        proof {
            assert forall|i: int| 0 <= i < ev.blocks.len() implies (#[trigger] ev.blocks[i]).alpha
                == sv.blocks[i].alpha by {}
            if spec_has_alpha(sv.blocks) {
                let w = choose|i: int| 0 <= i < sv.blocks.len() && (#[trigger] sv.blocks[i]).alpha;
                assert(ev.blocks[w].alpha);
            }
            if spec_has_alpha(ev.blocks) {
                let w = choose|i: int| 0 <= i < ev.blocks.len() && (#[trigger] ev.blocks[i]).alpha;
                assert(sv.blocks[w].alpha);
            }
            assert(spec_has_alpha(ev.blocks) == spec_has_alpha(sv.blocks));
        }
        let cols: u32 = self.block_grid_width();
        let rows: u32 = self.block_grid_height();
        let nblocks = pix.blocks.len();
        let height = self.height;
        let bh = self.block_height;
        let mut out: Vec<u8> = Vec::new();
        let mut yy: u32 = 0;
        while yy < height
            invariant
                sv == self@,
                sv.wf(),
                ev == spec_expanded(sv, filter),
                pix@ == ev,
                ev.wf(),
                ev.width == sv.width,
                ev.height == sv.height,
                ev.block_height == sv.block_height,
                cols == sv.grid_width(),
                rows == sv.grid_height(),
                cols == ev.grid_width(),
                rows == ev.grid_height(),
                height == sv.height,
                bh == sv.block_height,
                bh >= 1,
                yy <= height,
                nblocks == pix.blocks@.len(),
                out@ == spec_composed(ev, out_alpha, yy as int),
            decreases height - yy,
        {
            let grow: u32 = yy / bh;
            let j: u32 = yy % bh;
            proof {
                lemma_fundamental_div_mod(yy as int, bh as int);
                vstd::arithmetic::div_mod::lemma_mod_bound(yy as int, bh as int);
                assert(grow < rows) by {
                    lemma_ceil_div(sv.height as int, bh as int);
                    if grow as int >= rows as int {
                        assert(grow as int * bh >= rows as int * bh) by {
                            lemma_mul_inequality(rows as int, grow as int, bh as int);
                        }
                        assert(yy as int >= bh as int * grow as int);
                        vstd::arithmetic::mul::lemma_mul_is_commutative(grow as int, bh as int);
                        vstd::arithmetic::mul::lemma_mul_is_commutative(rows as int, bh as int);
                    }
                }
                assert(ev.blocks.len() == cols * rows) by {
                    vstd::arithmetic::mul::lemma_mul_is_commutative(cols as int, rows as int);
                }
                assert((grow + 1) * cols <= rows * cols) by {
                    lemma_mul_inequality(grow + 1, rows as int, cols as int);
                }
                assert((grow + 1) * cols == grow * cols + cols) by {
                    vstd::arithmetic::mul::lemma_mul_is_distributive_add_other_way(
                        cols as int,
                        grow as int,
                        1,
                    );
                }
                vstd::arithmetic::mul::lemma_mul_is_commutative(rows as int, cols as int);
                assert(grow * cols >= 0) by {
                    lemma_mul_inequality(0, grow as int, cols as int);
                }
                assert(grow * cols <= rows * cols) by {
                    lemma_mul_inequality(grow as int, rows as int, cols as int);
                }
                assert(rows * cols == nblocks);
            }
            let row_base: usize = (grow as usize) * (cols as usize);
            let ghost rb = row_base as int;
            let mut c: u32 = 0;
            while c < cols
                invariant
                    sv == self@,
                    sv.wf(),
                    ev == spec_expanded(sv, filter),
                    pix@ == ev,
                    ev.wf(),
                    cols == sv.grid_width(),
                    rows == sv.grid_height(),
                    height == sv.height,
                    bh == sv.block_height,
                    bh >= 1,
                    yy < height,
                    grow == yy as int / bh as int,
                    j == yy as int % bh as int,
                    grow < rows,
                    j < bh,
                    j < ev.cell_height(grow as int),
                    rb == row_base as int,
                    rb == grow * cols,
                    rb + cols <= ev.blocks.len(),
                    pix.blocks@.len() == ev.blocks.len(),
                    nblocks == pix.blocks@.len(),
                    c <= cols,
                    out@ == spec_composed(ev, out_alpha, yy as int) + spec_scanline(
                        ev.blocks,
                        rb,
                        j as int,
                        out_alpha,
                        c as int,
                    ),
                decreases cols - c,
            {
                let bi: usize = row_base + c as usize;
                proof {
                    sv.lemma_cell_bounds(c as int, grow as int);
                    assert(ev.blocks[bi as int] == spec_resized(
                        sv.blocks[bi as int],
                        sv.cell_width(bi as int % sv.grid_width()) as u32,
                        sv.cell_height(bi as int / sv.grid_width()) as u32,
                        filter,
                    ));
                    lemma_fundamental_div_mod_converse(bi as int, cols as int, grow as int, c as int);
                    assert(ev.blocks[bi as int].width == ev.cell_width(c as int));
                    assert(ev.blocks[bi as int].height == ev.cell_height(grow as int));
                    assert(ev.blocks[bi as int].wf());
                    assert(pix.blocks@[bi as int]@ == ev.blocks[bi as int]);
                }
                let block = &pix.blocks[bi];
                let bw_cell = block.width();
                let bch: usize = if block.has_alpha() { 4 } else { 3 };
                let bdata = block.as_slice();
                let ghost bv = block@;
                let mut k: u32 = 0;
                while k < bw_cell
                    invariant
                        bv == block@,
                        bv.wf(),
                        bdata@ == bv.data,
                        bdata.len() == bv.width * bv.height * bv.channels(),
                        bch == bv.channels(),
                        bw_cell == bv.width,
                        j < bv.height,
                        k <= bw_cell,
                        out@ == spec_composed(ev, out_alpha, yy as int) + spec_scanline(
                            ev.blocks,
                            rb,
                            j as int,
                            out_alpha,
                            c as int,
                        ) + spec_block_row_bytes(bv, j as int, out_alpha, k as int),
                    decreases bw_cell - k,
                {
                    proof {
                        assert((j as int + 1) * (bv.width as int) * bv.channels() <= bv.data.len())
                            by {
                            lemma_mul_inequality(j as int + 1, bv.height as int, bv.width as int);
                            lemma_mul_inequality(
                                (j as int + 1) * (bv.width as int),
                                (bv.height as int) * (bv.width as int),
                                bv.channels(),
                            );
                            vstd::arithmetic::mul::lemma_mul_is_commutative(
                                bv.height as int,
                                bv.width as int,
                            );
                        }
                        lemma_row_bytes_in_range(
                            bv.data,
                            bv.width as int,
                            bv.channels(),
                            k as int,
                            j as int,
                            1,
                        );
                    }
                    let base: usize = ((j as usize) * (bw_cell as usize) + k as usize) * bch;
                    let ghost out_before = out@;
                    if block.has_alpha() == out_alpha {
                        let mut m: usize = 0;
                        while m < bch
                            invariant
                                m <= bch,
                                base + bch <= bdata.len(),
                                bdata@ == bv.data,
                                out@ == out_before + bv.data.subrange(
                                    base as int,
                                    base + m as int,
                                ),
                            decreases bch - m,
                        {
                            out.push(bdata[base + m]);
                            proof {
                                assert(out@ =~= out_before + bv.data.subrange(
                                    base as int,
                                    base + m + 1,
                                ));
                            }
                            m = m + 1;
                        }
                    } else {
                        out.push(bdata[base]);
                        out.push(bdata[base + 1]);
                        out.push(bdata[base + 2]);
                        out.push(255u8);
                        proof {
                            assert(out@ =~= out_before + bv.data.subrange(
                                base as int,
                                base + 3,
                            ).push(255u8));
                        }
                    }
                    proof {
                        assert(base as int == (j as int * bv.width + k as int) * bv.channels());
                        assert(out@ == out_before + spec_out_pixel(
                            bv,
                            j as int,
                            k as int,
                            out_alpha,
                        ));
                        assert(out@ =~= spec_composed(ev, out_alpha, yy as int) + spec_scanline(
                            ev.blocks,
                            rb,
                            j as int,
                            out_alpha,
                            c as int,
                        ) + spec_block_row_bytes(bv, j as int, out_alpha, k + 1));
                    }
                    k = k + 1;
                }
                proof {
                    assert(out@ =~= spec_composed(ev, out_alpha, yy as int) + spec_scanline(
                        ev.blocks,
                        rb,
                        j as int,
                        out_alpha,
                        c + 1,
                    ));
                }
                c = c + 1;
            }
            proof {
                assert(out@ =~= spec_composed(ev, out_alpha, yy + 1));
            }
            yy = yy + 1;
        }
        RawImage { alpha: out_alpha, data: out }
    }
}

} // verus!
