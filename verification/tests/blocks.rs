use pixlzr::block::{PixlzrBlock, PixlzrBlockRaw, RawImage};
use pixlzr::filter::{FilterType, ResampleKind, ResizeStrategy};
use pixlzr::operations::{
    directional_gradient_sums, reduce_dim, reduce_image_section, ReductionLevel, ShrinkPlan,
};

fn raw_block(width: u32, height: u32, alpha: bool, byte: u8) -> PixlzrBlock {
    let channels = if alpha { 4 } else { 3 };
    PixlzrBlock::Raw(PixlzrBlockRaw {
        width,
        height,
        block_value: None,
        data: RawImage {
            alpha,
            data: vec![byte; (width * height) as usize * channels],
        },
    })
}

#[test]
fn test_create_block() {
    let block = PixlzrBlock::Raw(PixlzrBlockRaw {
        width: 100,
        height: 100,
        block_value: None,
        data: RawImage {
            alpha: true,
            data: vec![0; 100 * 100 * 4],
        },
    });
    assert_eq!(block.width(), 100);
    assert_eq!(block.height(), 100);
}

#[test]
fn test_resize() {
    // All black
    let block = PixlzrBlock::Raw(PixlzrBlockRaw {
        width: 100,
        height: 100,
        block_value: None,
        data: RawImage {
            alpha: false,
            data: vec![0; 100 * 100 * 3],
        },
    });
    let resized = block.resize(10, 10, FilterType::Lanczos3);
    assert_eq!(resized.width(), 10);
    assert_eq!(resized.height(), 10);
    let data = resized.as_slice();
    assert_eq!(data.len(), 10 * 10 * 3);
    assert_eq!(data, &vec![0; 10 * 10 * 3]);

    // All white
    let block = PixlzrBlock::Raw(PixlzrBlockRaw {
        width: 100,
        height: 100,
        block_value: None,
        data: RawImage {
            alpha: false,
            data: vec![255; 100 * 100 * 3],
        },
    });
    let resized = block.resize(10, 10, FilterType::Lanczos3);
    assert_eq!(resized.width(), 10);
    assert_eq!(resized.height(), 10);
    let data = resized.as_slice();
    assert_eq!(data.len(), 10 * 10 * 3);
    assert_eq!(data, &vec![255; 10 * 10 * 3]);
}

#[test]
fn test_resize_noop_is_byte_identical() {
    let block = raw_block(7, 5, true, 42);
    let same = block.resize(7, 5, FilterType::Gaussian);
    assert_eq!(same.width(), 7);
    assert_eq!(same.height(), 5);
    assert!(same.has_alpha());
    assert_eq!(same.as_slice(), block.as_slice());
    assert_eq!(same.block_value(), block.block_value());
}

#[test]
fn test_block_accessors() {
    let mut block = raw_block(3, 2, false, 9);
    assert_eq!(block.dimensions(), (3, 2));
    assert!(!block.has_alpha());
    assert!(block.is_raw());
    assert!(block.as_raw().is_some());
    assert!(!block.block_value_was_calculated());
    block.set_block_value(77);
    assert_eq!(block.block_value(), Some(77));
    assert!(block.block_value_was_calculated());
}

#[test]
fn test_reduce_dim_levels() {
    assert_eq!(reduce_dim(100, ReductionLevel::Collapse), 1);
    assert_eq!(reduce_dim(100, ReductionLevel::Octaves(0)), 100);
    assert_eq!(reduce_dim(100, ReductionLevel::Octaves(1)), 50);
    assert_eq!(reduce_dim(100, ReductionLevel::Octaves(5)), 4);
    assert_eq!(reduce_dim(100, ReductionLevel::Octaves(7)), 1);
    assert_eq!(reduce_dim(100, ReductionLevel::Octaves(40)), 1);
    assert_eq!(reduce_dim(1, ReductionLevel::Octaves(0)), 1);
}

#[test]
fn test_reduce_image_section_sets_value() {
    let block = raw_block(64, 64, false, 0);
    let bits = (1.25f32).to_bits();
    let plan = ShrinkPlan {
        level_x: ReductionLevel::Octaves(2),
        level_y: ReductionLevel::Octaves(3),
        value_bits: bits,
    };
    let reduced = reduce_image_section(&block, plan, FilterType::Lanczos3);
    assert_eq!(reduced.width(), 16);
    assert_eq!(reduced.height(), 8);
    assert_eq!(reduced.block_value(), Some(bits));
    assert_eq!(reduced.as_slice().len(), 16 * 8 * 3);
}

#[test]
fn test_uniform_block_zero_gradient() {
    let black = raw_block(8, 8, false, 0);
    assert_eq!(directional_gradient_sums(&black), (0, 0));
    let white = raw_block(8, 8, false, 255);
    assert_eq!(directional_gradient_sums(&white), (0, 0));
    let gray_alpha = raw_block(5, 4, true, 128);
    assert_eq!(directional_gradient_sums(&gray_alpha), (0, 0));
}

#[test]
fn test_horizontal_stripe_gradient() {
    // 3x3 RGB, top row white, rest black: one window, full response across
    // rows, none across columns.
    let mut data = vec![0u8; 27];
    for b in data.iter_mut().take(9) {
        *b = 255;
    }
    let block = PixlzrBlock::Raw(PixlzrBlockRaw {
        width: 3,
        height: 3,
        block_value: None,
        data: RawImage { alpha: false, data },
    });
    assert_eq!(directional_gradient_sums(&block), (3060, 0));
}

#[test]
fn test_resizing_algorithm_choice() {
    assert_eq!(
        FilterType::Nearest.to_fir_resizing_algorithm(true, 2),
        ResizeStrategy::Nearest
    );
    assert_eq!(
        FilterType::Nearest.to_fir_resizing_algorithm(false, 2),
        ResizeStrategy::Nearest
    );
    assert_eq!(
        FilterType::Triangle.to_fir_resizing_algorithm(true, 2),
        ResizeStrategy::SuperSampling(ResampleKind::Bilinear, 2)
    );
    assert_eq!(
        FilterType::Triangle.to_fir_resizing_algorithm(false, 2),
        ResizeStrategy::Convolution(ResampleKind::Hamming)
    );
    assert_eq!(
        FilterType::Lanczos3.to_fir_resizing_algorithm(false, 2),
        ResizeStrategy::Convolution(ResampleKind::Lanczos3)
    );
    assert_eq!(
        FilterType::Gaussian.to_fir_resizing_algorithm(true, 3),
        ResizeStrategy::SuperSampling(ResampleKind::Gaussian, 3)
    );
}

#[test]
fn test_pixels_iterator() {
    let data = vec![0; 100 * 100 * 4];
    let block = PixlzrBlock::Raw(PixlzrBlockRaw {
        width: 100,
        height: 100,
        block_value: None,
        data: RawImage {
            alpha: true,
            data: data.clone(),
        },
    });
    let pixels = block.pixels();
    assert_eq!(pixels.len(), 100 * 100);
    assert!(pixels
        .iter()
        .zip(data.as_slice().chunks_exact(4))
        .all(|(px, dx)| px.iter().zip(dx).all(|(p, d)| p == d)));
}
