//! The adaptive reducer: discrete per-axis reduction levels, the shrink pass
//! over a container, and the directional gradient accumulator that feeds the
//! anisotropic detail estimate.

use vstd::prelude::*;
use vstd::arithmetic::power2::pow2;
use vstd::arithmetic::mul::lemma_mul_inequality;
use vstd::math::abs;
use crate::block::{BlockView, PixlzrBlock, spec_resized};
use crate::filter::FilterType;
use crate::pixlzr::{ceil_div, lemma_ceil_div, Pixlzr};

verus! {

/// How much one axis of a block is reduced: by a whole number of octaves
/// (halvings), or collapsed to a single pixel when the measured detail is
/// zero.  Reduction never upscales.
#[derive(Debug, Clone, Copy, PartialEq, Eq, Structural)]
pub enum ReductionLevel {
    /// Maximal reduction: the axis shrinks to one pixel.
    Collapse,
    /// Reduce by `2^k`: the axis keeps one pixel in every `2^k`.
    Octaves(u32),
}

/// One block's reduction order: a level per axis and the detail value (as raw
/// bits) to store in the block afterwards.
#[derive(Debug, Clone, Copy, PartialEq, Eq, Structural)]
pub struct ShrinkPlan {
    pub level_x: ReductionLevel,
    pub level_y: ReductionLevel,
    pub value_bits: u32,
}

/// The length of an axis of `d` pixels after reduction: at least one pixel,
/// else one pixel in every `2^k`, rounded up.
pub open spec fn spec_reduced_dim(d: u32, level: ReductionLevel) -> int {
    match level {
        ReductionLevel::Collapse => 1,
        ReductionLevel::Octaves(k) => vstd::math::max(1, ceil_div(d as int, pow2(k as nat) as int)),
    }
}

/// A reduced axis has between one and `d` pixels.
pub proof fn lemma_reduced_dim_bounds(d: u32, level: ReductionLevel)
    requires
        d >= 1,
    ensures
        1 <= spec_reduced_dim(d, level) <= d,
{
    match level {
        ReductionLevel::Collapse => {},
        ReductionLevel::Octaves(k) => {
            vstd::arithmetic::power2::lemma_pow2_pos(k as nat);
            lemma_ceil_div(d as int, pow2(k as nat) as int);
        },
    }
}

/// Dividing by a larger power of two collapses the axis to one pixel.
proof fn lemma_ceil_div_one(a: int, b: int)
    requires
        1 <= a <= b,
    ensures
        ceil_div(a, b) == 1,
{
    lemma_ceil_div(a, b);
    let q = ceil_div(a, b);
    if q >= 2 {
        lemma_mul_inequality(2, q, b);
        assert(false);
    }
}

/// Computes the reduced length of an axis of `d` pixels.
pub fn reduce_dim(d: u32, level: ReductionLevel) -> (r: u32)
    requires
        d >= 1,
    ensures
        r == spec_reduced_dim(d, level),
{
    match level {
        ReductionLevel::Collapse => 1,
        ReductionLevel::Octaves(k) => {
            if k >= 32 {
                proof {
                    vstd::arithmetic::power2::lemma2_to64();
                    vstd::arithmetic::power2::lemma_pow2_pos(k as nat);
                    if k > 32 {
                        vstd::arithmetic::power2::lemma_pow2_strictly_increases(32, k as nat);
                    }
                    lemma_ceil_div_one(d as int, pow2(k as nat) as int);
                }
                1
            } else {
                proof {
                    vstd::arithmetic::power2::lemma2_to64();
                    if k < 32 {
                        vstd::arithmetic::power2::lemma_pow2_strictly_increases(k as nat, 32);
                    }
                    vstd::bits::lemma_u64_shl_is_mul(1u64, k as u64);
                    lemma_ceil_div(d as int, pow2(k as nat) as int);
                }
                let divisor: u64 = 1u64 << k;
                (((d as u64) + divisor - 1) / divisor) as u32
            }
        },
    }
}

/// The value of a block after one reduction order: each axis reduced by its
/// level, the pixels resampled accordingly, and the planned detail value
/// stored.
pub open spec fn spec_reduced_block(b: BlockView, plan: ShrinkPlan, filter: FilterType) -> BlockView {
    BlockView {
        block_value: Some(plan.value_bits),
        ..spec_resized(
            b,
            spec_reduced_dim(b.width, plan.level_x) as u32,
            spec_reduced_dim(b.height, plan.level_y) as u32,
            filter,
        )
    }
}

/// Reduces one block by the given plan: resizes it down to the planned level
/// per axis (a no-op resize keeps the bytes) and stores the planned detail
/// value in the result.
pub fn reduce_image_section(block: &PixlzrBlock, plan: ShrinkPlan, filter: FilterType) -> (r: PixlzrBlock)
    requires
        block@.wf(),
    ensures
        r@ == spec_reduced_block(block@, plan, filter),
        r@.wf(),
{
    proof {
        lemma_reduced_dim_bounds(block@.width, plan.level_x);
        lemma_reduced_dim_bounds(block@.height, plan.level_y);
    }
    let width = reduce_dim(block.width(), plan.level_x);
    let height = reduce_dim(block.height(), plan.level_y);
    let mut img = block.resize(width, height, filter);
    img.set_block_value(plan.value_bits);
    img
}

/// The blocks of a container after one shrink pass: blocks that already carry
/// a detail value pass through unchanged; the rest are reduced by their plan.
pub open spec fn spec_shrunk_blocks(
    blocks: Seq<BlockView>,
    plans: Seq<ShrinkPlan>,
    filter: FilterType,
) -> Seq<BlockView> {
    Seq::new(
        blocks.len(),
        |i: int|
            if blocks[i].block_value is Some {
                blocks[i]
            } else {
                spec_reduced_block(blocks[i], plans[i], filter)
            },
    )
}

/// Applying the shrink pass twice is the same as applying it once: every
/// block that leaves a pass carries a stored detail value, and a block with a
/// stored value passes through unchanged.
pub proof fn lemma_shrink_idempotent(
    blocks: Seq<BlockView>,
    plans1: Seq<ShrinkPlan>,
    plans2: Seq<ShrinkPlan>,
    f1: FilterType,
    f2: FilterType,
)
    requires
        plans1.len() == blocks.len(),
        plans2.len() == blocks.len(),
    ensures
        spec_shrunk_blocks(spec_shrunk_blocks(blocks, plans1, f1), plans2, f2)
            == spec_shrunk_blocks(blocks, plans1, f1),
{
    let once = spec_shrunk_blocks(blocks, plans1, f1);
    assert forall|i: int| 0 <= i < once.len() implies #[trigger] spec_shrunk_blocks(
        once,
        plans2,
        f2,
    )[i] == once[i] by {
        assert(once[i].block_value is Some);
    }
    assert(spec_shrunk_blocks(once, plans2, f2) =~= once);
}

impl Pixlzr {
    /// One shrink pass: reduces every block by its plan, skipping blocks that
    /// already carry a detail value, so that the pass is idempotent.
    pub fn shrink(&mut self, filter: FilterType, plans: &Vec<ShrinkPlan>)
        requires
            old(self)@.wf(),
            plans@.len() == old(self)@.blocks.len(),
        ensures
            final(self)@.width == old(self)@.width,
            final(self)@.height == old(self)@.height,
            final(self)@.block_width == old(self)@.block_width,
            final(self)@.block_height == old(self)@.block_height,
            final(self)@.filter == old(self)@.filter,
            final(self)@.blocks == spec_shrunk_blocks(old(self)@.blocks, plans@, filter),
            final(self)@.wf(),
            forall|i: int|
                0 <= i < final(self)@.blocks.len()
                    ==> (#[trigger] final(self)@.blocks[i]).block_value is Some,
    {
        let ghost sv = old(self)@;
        let n = self.blocks.len();
        let mut out: Vec<PixlzrBlock> = Vec::new();
        let mut i: usize = 0;
        while i < n
            invariant
                sv == self@,
                sv.wf(),
                plans@.len() == sv.blocks.len(),
                n == self.blocks@.len(),
                i <= n,
                out@.len() == i,
                forall|k: int|
                    0 <= k < i ==> #[trigger] out@[k]@ == spec_shrunk_blocks(
                        sv.blocks,
                        plans@,
                        filter,
                    )[k] && out@[k]@.wf(),
            decreases n - i,
        {
            let block = &self.blocks[i];
            proof {
                assert(sv.blocks[i as int] == self.blocks@[i as int]@);
                assert(sv.blocks[i as int].wf());
            }
            if block.block_value_was_calculated() {
                out.push(block.duplicate());
            } else {
                out.push(reduce_image_section(block, plans[i], filter));
            }
            i = i + 1;
        }
        self.blocks = out;
        proof {
            assert forall|i: int| 0 <= i < self@.blocks.len() implies (#[trigger] self@.blocks[i]).wf()
                && self@.blocks[i] == spec_shrunk_blocks(sv.blocks, plans@, filter)[i]
                && self@.blocks[i].block_value is Some by {
                assert(self@.blocks[i] == self.blocks@[i]@);
                assert(self.blocks@[i]@ == spec_shrunk_blocks(sv.blocks, plans@, filter)[i]
                    && self.blocks@[i]@.wf());
                if sv.blocks[i].block_value is Some {
                    assert(self@.blocks[i] == sv.blocks[i]);
                }
            }
            assert(self@.blocks =~= spec_shrunk_blocks(sv.blocks, plans@, filter));
        }
    }
}

/// The byte holding channel `c` of the pixel at `(x, y)` in a row-major image
/// `width` pixels wide with `channels` bytes per pixel.
pub open spec fn spec_px(data: Seq<u8>, width: int, channels: int, x: int, y: int, c: int) -> int {
    data[(y * width + x) * channels + c] as int
}

/// The discrete gradient response across rows at window `(x, y)`, channel
/// `c`: the weighted sum of the window's bottom row minus its top row.
pub open spec fn spec_hz_response(
    data: Seq<u8>,
    width: int,
    channels: int,
    x: int,
    y: int,
    c: int,
) -> int {
    spec_px(data, width, channels, x, y + 2, c) + 2 * spec_px(data, width, channels, x + 1, y + 2, c)
        + spec_px(data, width, channels, x + 2, y + 2, c) - spec_px(data, width, channels, x, y, c)
        - 2 * spec_px(data, width, channels, x + 1, y, c) - spec_px(
        data,
        width,
        channels,
        x + 2,
        y,
        c,
    )
}

/// The discrete gradient response across columns at window `(x, y)`, channel
/// `c`: the weighted sum of the window's right column minus its left column.
pub open spec fn spec_vr_response(
    data: Seq<u8>,
    width: int,
    channels: int,
    x: int,
    y: int,
    c: int,
) -> int {
    spec_px(data, width, channels, x + 2, y, c) + 2 * spec_px(data, width, channels, x + 2, y + 1, c)
        + spec_px(data, width, channels, x + 2, y + 2, c) - spec_px(data, width, channels, x, y, c)
        - 2 * spec_px(data, width, channels, x, y + 1, c) - spec_px(
        data,
        width,
        channels,
        x,
        y + 2,
        c,
    )
}

/// Sum of the absolute row-gradient responses of the first `nc` color
/// channels at window `(x, y)`.
pub open spec fn spec_hz_window(
    data: Seq<u8>,
    width: int,
    channels: int,
    x: int,
    y: int,
    nc: int,
) -> int
    decreases nc,
{
    if nc <= 0 {
        0
    } else {
        spec_hz_window(data, width, channels, x, y, nc - 1) + abs(
            spec_hz_response(data, width, channels, x, y, nc - 1),
        )
    }
}

/// Sum of the absolute column-gradient responses of the first `nc` color
/// channels at window `(x, y)`.
pub open spec fn spec_vr_window(
    data: Seq<u8>,
    width: int,
    channels: int,
    x: int,
    y: int,
    nc: int,
) -> int
    decreases nc,
{
    if nc <= 0 {
        0
    } else {
        spec_vr_window(data, width, channels, x, y, nc - 1) + abs(
            spec_vr_response(data, width, channels, x, y, nc - 1),
        )
    }
}

/// Row-gradient sum over the first `nx` windows of window row `y`.
pub open spec fn spec_hz_row(data: Seq<u8>, width: int, channels: int, y: int, nx: int) -> int
    decreases nx,
{
    if nx <= 0 {
        0
    } else {
        spec_hz_row(data, width, channels, y, nx - 1) + spec_hz_window(
            data,
            width,
            channels,
            nx - 1,
            y,
            3,
        )
    }
}

/// Column-gradient sum over the first `nx` windows of window row `y`.
pub open spec fn spec_vr_row(data: Seq<u8>, width: int, channels: int, y: int, nx: int) -> int
    decreases nx,
{
    if nx <= 0 {
        0
    } else {
        spec_vr_row(data, width, channels, y, nx - 1) + spec_vr_window(
            data,
            width,
            channels,
            nx - 1,
            y,
            3,
        )
    }
}

/// Row-gradient sum over the first `ny` window rows, `nx` windows each.
pub open spec fn spec_hz_total(data: Seq<u8>, width: int, channels: int, ny: int, nx: int) -> int
    decreases ny,
{
    if ny <= 0 {
        0
    } else {
        spec_hz_total(data, width, channels, ny - 1, nx) + spec_hz_row(
            data,
            width,
            channels,
            ny - 1,
            nx,
        )
    }
}

/// Column-gradient sum over the first `ny` window rows, `nx` windows each.
pub open spec fn spec_vr_total(data: Seq<u8>, width: int, channels: int, ny: int, nx: int) -> int
    decreases ny,
{
    if ny <= 0 {
        0
    } else {
        spec_vr_total(data, width, channels, ny - 1, nx) + spec_vr_row(
            data,
            width,
            channels,
            ny - 1,
            nx,
        )
    }
}

/// Each channel's absolute response is at most `4 * 255`, so a window's
/// partial sum over `nc` channels is at most `1020 * nc` (`3060` for the
/// three color channels).
proof fn lemma_window_bounds(data: Seq<u8>, width: int, channels: int, x: int, y: int, nc: int)
    requires
        0 <= nc,
    ensures
        0 <= spec_hz_window(data, width, channels, x, y, nc) <= 1020 * nc,
        0 <= spec_vr_window(data, width, channels, x, y, nc) <= 1020 * nc,
    decreases nc,
{
    if nc > 0 {
        lemma_window_bounds(data, width, channels, x, y, nc - 1);
        assert(abs(spec_hz_response(data, width, channels, x, y, nc - 1)) <= 1020);
        assert(abs(spec_vr_response(data, width, channels, x, y, nc - 1)) <= 1020);
    }
}

/// A window row's sums lie between `0` and `nx * 3060`.
proof fn lemma_row_bounds(data: Seq<u8>, width: int, channels: int, y: int, nx: int)
    requires
        nx >= 0,
    ensures
        0 <= spec_hz_row(data, width, channels, y, nx) <= nx * 3060,
        0 <= spec_vr_row(data, width, channels, y, nx) <= nx * 3060,
    decreases nx,
{
    if nx > 0 {
        lemma_row_bounds(data, width, channels, y, nx - 1);
        lemma_window_bounds(data, width, channels, nx - 1, y, 3);
    }
}

/// The full sums lie between `0` and `ny * nx * 3060`.
proof fn lemma_total_bounds(data: Seq<u8>, width: int, channels: int, ny: int, nx: int)
    requires
        nx >= 0,
        ny >= 0,
    ensures
        0 <= spec_hz_total(data, width, channels, ny, nx) <= ny * nx * 3060,
        0 <= spec_vr_total(data, width, channels, ny, nx) <= ny * nx * 3060,
    decreases ny,
{
    if ny > 0 {
        lemma_total_bounds(data, width, channels, ny - 1, nx);
        lemma_row_bounds(data, width, channels, ny - 1, nx);
        assert((ny - 1) * nx * 3060 + nx * 3060 == ny * nx * 3060) by (nonlinear_arith);
    } else {
        assert(ny * nx * 3060 == 0) by (nonlinear_arith)
            requires ny == 0;
    }
}

/// Every byte of a pixel lies inside the buffer.
proof fn lemma_px_in_range(
    len: int,
    width: int,
    height: int,
    channels: int,
    x: int,
    y: int,
    c: int,
)
    requires
        1 <= channels,
        0 <= x < width,
        0 <= y < height,
        0 <= c < channels,
        len == width * height * channels,
    ensures
        0 <= (y * width + x) * channels + c,
        (y * width + x) * channels + c < len,
        (y * width + x) * channels + c < (y * width + x + 1) * channels,
        y * width + x <= (y * width + x) * channels,
{
    assert(0 <= y * width) by {
        lemma_mul_inequality(0, y, width);
    }
    assert(y * width + x <= (y * width + x) * channels) by {
        lemma_mul_inequality(1, channels, y * width + x);
        vstd::arithmetic::mul::lemma_mul_is_commutative(channels, y * width + x);
    }
    assert(0 <= (y * width + x) * channels) by {
        lemma_mul_inequality(0, y * width + x, channels);
    }
    assert((y * width + x + 1) * channels == (y * width + x) * channels + channels) by {
        vstd::arithmetic::mul::lemma_mul_is_distributive_add_other_way(channels, y * width + x, 1);
    }
    assert(y * width + x + 1 <= height * width) by {
        assert((y + 1) * width <= height * width) by {
            lemma_mul_inequality(y + 1, height, width);
        }
        assert((y + 1) * width == y * width + width) by {
            vstd::arithmetic::mul::lemma_mul_is_distributive_add_other_way(width, y, 1);
        }
    }
    assert((y * width + x + 1) * channels <= height * width * channels) by {
        lemma_mul_inequality(y * width + x + 1, height * width, channels);
    }
    assert(height * width * channels == len) by {
        vstd::arithmetic::mul::lemma_mul_is_commutative(height, width);
    }
}

/// Accumulates the absolute responses of the discrete 3x3 gradient kernels at
/// every interior pixel of the block, separately for the row direction and
/// the column direction, summed over the three color channels.  An alpha
/// channel, when present, does not contribute.  The caller normalizes these
/// integer sums into the directional detail pair.
pub fn directional_gradient_sums(block: &PixlzrBlock) -> (r: (u64, u64))
    requires
        block@.wf(),
        block@.width >= 2,
        block@.height >= 2,
        block@.width * block@.height <= 0x10000000000,
    ensures
        r.0 == spec_hz_total(
            block@.data,
            block@.width as int,
            block@.channels(),
            block@.height - 2,
            block@.width - 2,
        ),
        r.1 == spec_vr_total(
            block@.data,
            block@.width as int,
            block@.channels(),
            block@.height - 2,
            block@.width - 2,
        ),
{
    let ghost bv = block@;
    let ghost w = bv.width as int;
    let ghost ch = bv.channels();
    let ghost nx = bv.width - 2;
    let ghost ny = bv.height - 2;
    let width = block.width() as usize;
    let height = block.height() as usize;
    let channels: usize = if block.has_alpha() { 4 } else { 3 };
    let data = block.as_slice();
    let mut sum_hz: u64 = 0;
    let mut sum_vr: u64 = 0;
    let mut y: usize = 0;
    proof {
        lemma_mul_inequality(bv.width - 2, bv.width as int, bv.height as int);
    }
    while y < height - 2
        invariant
            bv == block@,
            bv.wf(),
            bv.width >= 2,
            bv.height >= 2,
            bv.width * bv.height <= 0x10000000000,
            w == bv.width as int,
            ch == bv.channels(),
            nx == bv.width - 2,
            ny == bv.height - 2,
            width == bv.width,
            height == bv.height,
            channels == ch,
            data@ == bv.data,
            data.len() == w * bv.height * ch,
            y <= ny,
            sum_hz == spec_hz_total(bv.data, w, ch, y as int, nx),
            sum_vr == spec_vr_total(bv.data, w, ch, y as int, nx),
        decreases height - 2 - y,
    {
        let mut x: usize = 0;
        while x < width - 2
            invariant
                bv == block@,
                bv.wf(),
                bv.width >= 2,
                bv.height >= 2,
                bv.width * bv.height <= 0x10000000000,
                w == bv.width as int,
                ch == bv.channels(),
                nx == bv.width - 2,
                ny == bv.height - 2,
                width == bv.width,
                height == bv.height,
                channels == ch,
                data@ == bv.data,
                data.len() == w * bv.height * ch,
                y < ny,
                x <= nx,
                sum_hz == spec_hz_total(bv.data, w, ch, y as int, nx) + spec_hz_row(
                    bv.data,
                    w,
                    ch,
                    y as int,
                    x as int,
                ),
                sum_vr == spec_vr_total(bv.data, w, ch, y as int, nx) + spec_vr_row(
                    bv.data,
                    w,
                    ch,
                    y as int,
                    x as int,
                ),
            decreases width - 2 - x,
        {
            proof {
                lemma_px_in_range(data@.len() as int, w, bv.height as int, ch, x + 2, y + 2, ch - 1);
                lemma_px_in_range(data@.len() as int, w, bv.height as int, ch, x as int, y as int, 0);
                lemma_px_in_range(data@.len() as int, w, bv.height as int, ch, x + 2, y as int, 0);
                lemma_px_in_range(data@.len() as int, w, bv.height as int, ch, x as int, y + 2, 0);
                lemma_px_in_range(data@.len() as int, w, bv.height as int, ch, x + 1, y as int, 0);
                lemma_px_in_range(data@.len() as int, w, bv.height as int, ch, x + 1, y + 2, 0);
                lemma_px_in_range(data@.len() as int, w, bv.height as int, ch, x as int, y + 1, 0);
                lemma_px_in_range(data@.len() as int, w, bv.height as int, ch, x + 2, y + 1, 0);
            }
            let i00: usize = (y * width + x) * channels;
            let i10: usize = (y * width + x + 1) * channels;
            let i20: usize = (y * width + x + 2) * channels;
            let i01: usize = ((y + 1) * width + x) * channels;
            let i21: usize = ((y + 1) * width + x + 2) * channels;
            let i02: usize = ((y + 2) * width + x) * channels;
            let i12: usize = ((y + 2) * width + x + 1) * channels;
            let i22: usize = ((y + 2) * width + x + 2) * channels;
            let mut win_hz: u64 = 0;
            let mut win_vr: u64 = 0;
            let mut c: usize = 0;
            while c < 3
                invariant
                    bv == block@,
                    data@ == bv.data,
                    data.len() == w * bv.height * ch,
                    w == bv.width as int,
                    ch == bv.channels(),
                    width == bv.width,
                    channels == ch,
                    x as int + 2 < w,
                    y as int + 2 < bv.height,
                    c <= 3,
                    i00 == (y * w + x) * ch,
                    i10 == (y * w + x + 1) * ch,
                    i20 == (y * w + x + 2) * ch,
                    i01 == ((y + 1) * w + x) * ch,
                    i21 == ((y + 1) * w + x + 2) * ch,
                    i02 == ((y + 2) * w + x) * ch,
                    i12 == ((y + 2) * w + x + 1) * ch,
                    i22 == ((y + 2) * w + x + 2) * ch,
                    win_hz == spec_hz_window(bv.data, w, ch, x as int, y as int, c as int),
                    win_vr == spec_vr_window(bv.data, w, ch, x as int, y as int, c as int),
                decreases 3 - c,
            {
                proof {
                    lemma_px_in_range(data@.len() as int, w, bv.height as int, ch, x as int, y as int, c as int);
                    lemma_px_in_range(data@.len() as int, w, bv.height as int, ch, x + 1, y as int, c as int);
                    lemma_px_in_range(data@.len() as int, w, bv.height as int, ch, x + 2, y as int, c as int);
                    lemma_px_in_range(data@.len() as int, w, bv.height as int, ch, x as int, y + 1, c as int);
                    lemma_px_in_range(data@.len() as int, w, bv.height as int, ch, x + 2, y + 1, c as int);
                    lemma_px_in_range(data@.len() as int, w, bv.height as int, ch, x as int, y + 2, c as int);
                    lemma_px_in_range(data@.len() as int, w, bv.height as int, ch, x + 1, y + 2, c as int);
                    lemma_px_in_range(data@.len() as int, w, bv.height as int, ch, x + 2, y + 2, c as int);
                }
                let p00 = data[i00 + c] as i32;
                let p10 = data[i10 + c] as i32;
                let p20 = data[i20 + c] as i32;
                let p01 = data[i01 + c] as i32;
                let p21 = data[i21 + c] as i32;
                let p02 = data[i02 + c] as i32;
                let p12 = data[i12 + c] as i32;
                let p22 = data[i22 + c] as i32;
                let hz: i32 = p02 + 2 * p12 + p22 - p00 - 2 * p10 - p20;
                let vr: i32 = p20 + 2 * p21 + p22 - p00 - 2 * p01 - p02;
                proof {
                    assert(hz as int == spec_hz_response(bv.data, w, ch, x as int, y as int, c as int));
                    assert(vr as int == spec_vr_response(bv.data, w, ch, x as int, y as int, c as int));
                    lemma_window_bounds(bv.data, w, ch, x as int, y as int, c as int);
                }
                win_hz = win_hz + (if hz < 0 { (-hz) as u64 } else { hz as u64 });
                win_vr = win_vr + (if vr < 0 { (-vr) as u64 } else { vr as u64 });
                c = c + 1;
            }
            proof {
                lemma_window_bounds(bv.data, w, ch, x as int, y as int, 3);
                lemma_total_bounds(bv.data, w, ch, y as int, nx);
                lemma_row_bounds(bv.data, w, ch, y as int, x as int);
                assert(y as int * nx * 3060 + x as int * 3060 + 3060 <= bv.width * bv.height * 3060) by (nonlinear_arith)
                    requires
                        0 <= y as int && (y as int) < ny,
                        0 <= x as int && (x as int) < nx,
                        0 <= nx <= bv.width,
                        0 <= ny,
                        nx == bv.width - 2,
                        ny == bv.height - 2,
                        bv.width >= 2,
                        bv.height >= 2,
                ;
                assert(x as int * 3060 >= 0) by (nonlinear_arith)
                    requires x as int >= 0;
                assert(y as int * nx * 3060 >= 0) by (nonlinear_arith)
                    requires y as int >= 0, nx >= 0;
            }
            sum_hz = sum_hz + win_hz;
            sum_vr = sum_vr + win_vr;
            x = x + 1;
        }
        y = y + 1;
    }
    (sum_hz, sum_vr)
}

/// A block of one uniform color has zero gradient response everywhere: both
/// directional sums are zero.
pub proof fn lemma_uniform_block_zero_gradient(b: BlockView, v: u8)
    requires
        b.wf(),
        b.width >= 2,
        b.height >= 2,
        forall|k: int| 0 <= k < b.data.len() ==> b.data[k] == v,
    ensures
        spec_hz_total(b.data, b.width as int, b.channels(), b.height - 2, b.width - 2) == 0,
        spec_vr_total(b.data, b.width as int, b.channels(), b.height - 2, b.width - 2) == 0,
{
    lemma_uniform_total(b, v, b.height - 2, b.width - 2);
}

proof fn lemma_uniform_window(b: BlockView, v: u8, x: int, y: int, nc: int)
    requires
        b.wf(),
        forall|k: int| 0 <= k < b.data.len() ==> b.data[k] == v,
        0 <= x,
        x + 2 < b.width,
        0 <= y,
        y + 2 < b.height,
        nc <= b.channels(),
    ensures
        spec_hz_window(b.data, b.width as int, b.channels(), x, y, nc) == 0,
        spec_vr_window(b.data, b.width as int, b.channels(), x, y, nc) == 0,
    decreases nc,
{
    let w = b.width as int;
    let ch = b.channels();
    if nc > 0 {
        lemma_uniform_window(b, v, x, y, nc - 1);
        let c = nc - 1;
        lemma_px_in_range(b.data.len() as int, w, b.height as int, ch, x, y, c);
        lemma_px_in_range(b.data.len() as int, w, b.height as int, ch, x + 1, y, c);
        lemma_px_in_range(b.data.len() as int, w, b.height as int, ch, x + 2, y, c);
        lemma_px_in_range(b.data.len() as int, w, b.height as int, ch, x, y + 1, c);
        lemma_px_in_range(b.data.len() as int, w, b.height as int, ch, x + 2, y + 1, c);
        lemma_px_in_range(b.data.len() as int, w, b.height as int, ch, x, y + 2, c);
        lemma_px_in_range(b.data.len() as int, w, b.height as int, ch, x + 1, y + 2, c);
        lemma_px_in_range(b.data.len() as int, w, b.height as int, ch, x + 2, y + 2, c);
        assert(spec_hz_response(b.data, w, ch, x, y, c) == 0);
        assert(spec_vr_response(b.data, w, ch, x, y, c) == 0);
    }
}

proof fn lemma_uniform_row(b: BlockView, v: u8, y: int, nx: int)
    requires
        b.wf(),
        forall|k: int| 0 <= k < b.data.len() ==> b.data[k] == v,
        0 <= y,
        y + 2 < b.height,
        nx <= b.width - 2,
    ensures
        spec_hz_row(b.data, b.width as int, b.channels(), y, nx) == 0,
        spec_vr_row(b.data, b.width as int, b.channels(), y, nx) == 0,
    decreases nx,
{
    if nx > 0 {
        lemma_uniform_row(b, v, y, nx - 1);
        lemma_uniform_window(b, v, nx - 1, y, 3);
    }
}

proof fn lemma_uniform_total(b: BlockView, v: u8, ny: int, nx: int)
    requires
        b.wf(),
        forall|k: int| 0 <= k < b.data.len() ==> b.data[k] == v,
        ny <= b.height - 2,
        nx <= b.width - 2,
    ensures
        spec_hz_total(b.data, b.width as int, b.channels(), ny, nx) == 0,
        spec_vr_total(b.data, b.width as int, b.channels(), ny, nx) == 0,
    decreases ny,
{
    if ny > 0 {
        lemma_uniform_total(b, v, ny - 1, nx);
        lemma_uniform_row(b, v, ny - 1, nx);
    }
}

} // verus!
