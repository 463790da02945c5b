//! Pixel blocks: the atomic unit of adaptive reduction.

use vstd::prelude::*;
use crate::filter::{FilterType, spec_filter_to_u8, filter_to_u8};

verus! {

/// The mathematical value of a pixel block: its dimensions, whether it has an
/// alpha channel, the stored detail value (as raw bits), and its interleaved
/// pixel bytes.
#[verifier::ext_equal]
pub ghost struct BlockView {
    pub width: u32,
    pub height: u32,
    pub alpha: bool,
    pub block_value: Option<u32>,
    pub data: Seq<u8>,
}

impl BlockView {
    /// Bytes per pixel: three channels, four with alpha.
    pub open spec fn channels(self) -> int {
        if self.alpha {
            4
        } else {
            3
        }
    }

    /// A block is well formed when it has at least one pixel in each axis and
    /// its buffer holds exactly one byte per channel per pixel.
    pub open spec fn wf(self) -> bool {
        &&& self.width >= 1
        &&& self.height >= 1
        &&& self.data.len() == self.width * self.height * self.channels()
    }
}

/// Raw pixel storage: an alpha flag and tightly packed interleaved channel
/// bytes, row-major.
#[derive(Debug, Clone)]
pub struct RawImage {
    pub alpha: bool,
    pub data: Vec<u8>,
}

/// A pixel block in raw-byte form, with its metadata.  `block_value` is the
/// bit pattern of the stored detail value; it is `None` until the block has
/// been through the reducer.
#[derive(Debug, Clone)]
pub struct PixlzrBlockRaw {
    pub width: u32,
    pub height: u32,
    pub block_value: Option<u32>,
    pub data: RawImage,
}

impl View for PixlzrBlockRaw {
    type V = BlockView;

    open spec fn view(&self) -> BlockView {
        BlockView {
            width: self.width,
            height: self.height,
            alpha: self.data.alpha,
            block_value: self.block_value,
            data: self.data.data@,
        }
    }
}

/// A pixel block.  Raw byte storage is the one representation the verified
/// core works on; a codec-backed representation with the same meaning lives
/// with the unverified shell around the library.
#[derive(Debug, Clone)]
pub enum PixlzrBlock {
    Raw(PixlzrBlockRaw),
}

impl View for PixlzrBlock {
    type V = BlockView;

    open spec fn view(&self) -> BlockView {
        match self {
            PixlzrBlock::Raw(raw) => raw@,
        }
    }
}

/// What the resampling backend returns for a block of the given dimensions,
/// alpha layout and pixel bytes, resized to the new dimensions under the
/// filter with the given tag: a pure function of these arguments.
pub uninterp spec fn resized_of(
    data: Seq<u8>,
    alpha: bool,
    width: int,
    height: int,
    new_width: int,
    new_height: int,
    filter: int,
) -> Seq<u8>;

/// Relies on `image::DynamicImage::resize_exact` (with
/// `image::RgbImage::from_raw` / `image::RgbaImage::from_raw` and
/// `DynamicImage::into_bytes` converting at the edges): resamples an RGB or
/// RGBA byte buffer to exactly `new_width x new_height` with the given filter
/// kernel, returning one byte per channel per pixel.  The resampling is
/// deterministic in its arguments.
#[verifier::external_body]
fn resize_pixels(
    data: &Vec<u8>,
    alpha: bool,
    width: u32,
    height: u32,
    new_width: u32,
    new_height: u32,
    filter: FilterType,
) -> (r: Vec<u8>)
    requires
        width >= 1,
        height >= 1,
        new_width >= 1,
        new_height >= 1,
        data@.len() == width * height * (if alpha { 4int } else { 3int }),
    ensures
        r@ == resized_of(
            data@,
            alpha,
            width as int,
            height as int,
            new_width as int,
            new_height as int,
            spec_filter_to_u8(filter) as int,
        ),
        r@.len() == new_width * new_height * (if alpha { 4int } else { 3int }),
{
    let kernel = match filter {
        FilterType::Nearest => image::imageops::FilterType::Nearest,
        FilterType::Triangle => image::imageops::FilterType::Triangle,
        FilterType::CatmullRom => image::imageops::FilterType::CatmullRom,
        FilterType::Gaussian => image::imageops::FilterType::Gaussian,
        FilterType::Lanczos3 => image::imageops::FilterType::Lanczos3,
    };
    let img: image::DynamicImage = if alpha {
        image::RgbaImage::from_raw(width, height, data.clone()).unwrap().into()
    } else {
        image::RgbImage::from_raw(width, height, data.clone()).unwrap().into()
    };
    img.resize_exact(new_width, new_height, kernel).into_bytes()
}

/// The value of a block after a resize to `(new_width, new_height)`: the same
/// block when the dimensions already match, else the resampled bytes.  The
/// stored detail value and the alpha layout are kept.
pub open spec fn spec_resized(b: BlockView, new_width: u32, new_height: u32, filter: FilterType) -> BlockView {
    BlockView {
        width: new_width,
        height: new_height,
        alpha: b.alpha,
        block_value: b.block_value,
        data: if new_width == b.width && new_height == b.height {
            b.data
        } else {
            resized_of(
                b.data,
                b.alpha,
                b.width as int,
                b.height as int,
                new_width as int,
                new_height as int,
                spec_filter_to_u8(filter) as int,
            )
        },
    }
}

impl PixlzrBlock {
    pub fn width(&self) -> (r: u32)
        ensures
            r == self@.width,
    {
        match self {
            PixlzrBlock::Raw(block) => block.width,
        }
    }

    pub fn height(&self) -> (r: u32)
        ensures
            r == self@.height,
    {
        match self {
            PixlzrBlock::Raw(block) => block.height,
        }
    }

    pub fn dimensions(&self) -> (r: (u32, u32))
        ensures
            r.0 == self@.width,
            r.1 == self@.height,
    {
        (self.width(), self.height())
    }

    pub fn block_value(&self) -> (r: Option<u32>)
        ensures
            r == self@.block_value,
    {
        match self {
            PixlzrBlock::Raw(block) => block.block_value,
        }
    }

    pub fn has_alpha(&self) -> (r: bool)
        ensures
            r == self@.alpha,
    {
        match self {
            PixlzrBlock::Raw(raw) => raw.data.alpha,
        }
    }

    pub fn block_value_was_calculated(&self) -> (r: bool)
        ensures
            r == (self@.block_value is Some),
    {
        self.block_value().is_some()
    }

    /// The interleaved pixel bytes.
    pub fn as_slice(&self) -> (r: &Vec<u8>)
        ensures
            r@ == self@.data,
    {
        match self {
            PixlzrBlock::Raw(raw) => &raw.data.data,
        }
    }

    pub fn set_block_value(&mut self, value: u32)
        ensures
            final(self)@ == (BlockView { block_value: Some(value), ..old(self)@ }),
    {
        match self {
            PixlzrBlock::Raw(raw) => raw.block_value = Some(value),
        }
    }

    pub fn as_raw(&self) -> (r: Option<&PixlzrBlockRaw>)
        ensures
            r is Some,
            r.unwrap()@ == self@,
    {
        match self {
            PixlzrBlock::Raw(raw) => Some(raw),
        }
    }

    pub fn is_raw(&self) -> (r: bool)
        ensures
            r,
    {
        match self {
            PixlzrBlock::Raw(_) => true,
        }
    }

    /// An owned copy of this block.
    pub fn duplicate(&self) -> (r: PixlzrBlock)
        ensures
            r@ == self@,
    {
        match self {
            PixlzrBlock::Raw(raw) => {
                let data = raw.data.data.clone();
                proof {
                    assert(data@ =~= raw.data.data@);
                }
                PixlzrBlock::Raw(
                    PixlzrBlockRaw {
                        width: raw.width,
                        height: raw.height,
                        block_value: raw.block_value,
                        data: RawImage { alpha: raw.data.alpha, data },
                    },
                )
            },
        }
    }

    /// The block's pixels in order, one chunk of channel bytes per pixel.
    pub fn pixels(&self) -> (r: Vec<Vec<u8>>)
        requires
            self@.wf(),
        ensures
            r@.len() == self@.width * self@.height,
            forall|i: int|
                0 <= i < r@.len() ==> (#[trigger] r@[i])@ == self@.data.subrange(
                    i * self@.channels(),
                    i * self@.channels() + self@.channels(),
                ),
    {
        let ghost bv = self@;
        let data = self.as_slice();
        let channels: usize = if self.has_alpha() { 4 } else { 3 };
        proof {
            assert(bv.width * bv.height * bv.channels() == data.len());
            assert(bv.width as int * bv.height as int <= data.len()) by {
                vstd::arithmetic::mul::lemma_mul_inequality(
                    1,
                    bv.channels(),
                    bv.width as int * bv.height as int,
                );
                vstd::arithmetic::mul::lemma_mul_is_commutative(
                    bv.channels(),
                    bv.width as int * bv.height as int,
                );
            }
        }
        let count: usize = (self.width() as usize) * (self.height() as usize);
        let mut out: Vec<Vec<u8>> = Vec::new();
        let mut i: usize = 0;
        while i < count
            invariant
                bv == self@,
                bv.wf(),
                data@ == bv.data,
                data.len() == bv.width * bv.height * bv.channels(),
                channels == bv.channels(),
                count == bv.width * bv.height,
                count <= data.len(),
                i <= count,
                out@.len() == i,
                forall|k: int|
                    0 <= k < i ==> (#[trigger] out@[k])@ == bv.data.subrange(
                        k * bv.channels(),
                        k * bv.channels() + bv.channels(),
                    ),
            decreases count - i,
        {
            proof {
                assert((i + 1) * channels <= count * channels) by {
                    vstd::arithmetic::mul::lemma_mul_inequality(
                        i + 1,
                        count as int,
                        channels as int,
                    );
                }
                assert((i + 1) * channels == i * channels + channels) by {
                    vstd::arithmetic::mul::lemma_mul_is_distributive_add_other_way(
                        channels as int,
                        i as int,
                        1,
                    );
                }
                assert(count * channels == data.len()) by {
                    vstd::arithmetic::mul::lemma_mul_is_commutative(count as int, channels as int);
                    vstd::arithmetic::mul::lemma_mul_is_commutative(
                        bv.width as int,
                        bv.height as int,
                    );
                }
                assert(i * channels >= 0) by {
                    vstd::arithmetic::mul::lemma_mul_inequality(0, i as int, channels as int);
                }
            }
            let base: usize = i * channels;
            let mut px: Vec<u8> = Vec::new();
            let mut m: usize = 0;
            while m < channels
                invariant
                    m <= channels,
                    base + channels <= data.len(),
                    data@ == bv.data,
                    px@ == bv.data.subrange(base as int, base + m as int),
                decreases channels - m,
            {
                px.push(data[base + m]);
                proof {
                    assert(px@ =~= bv.data.subrange(base as int, base + m + 1));
                }
                m = m + 1;
            }
            out.push(px);
            i = i + 1;
        }
        out
    }

    /// Resamples the block to the given dimensions; a block already of those
    /// dimensions is returned byte-identical, without resampling.
    pub fn resize(&self, width: u32, height: u32, filter: FilterType) -> (r: PixlzrBlock)
        requires
            self@.wf(),
            width >= 1,
            height >= 1,
        ensures
            r@ == spec_resized(self@, width, height, filter),
            r@.wf(),
    {
        let (w0, h0) = self.dimensions();
        if w0 == width && h0 == height {
            return self.duplicate();
        }
        let alpha = self.has_alpha();
        let value = self.block_value();
        let out = resize_pixels(self.as_slice(), alpha, w0, h0, width, height, filter);
        PixlzrBlock::Raw(
            PixlzrBlockRaw {
                width,
                height,
                block_value: value,
                data: RawImage { alpha, data: out },
            },
        )
    }
}

} // verus!
