use pixlzr::block::{PixlzrBlock, PixlzrBlockRaw, RawImage};
use pixlzr::filter::FilterType;
use pixlzr::operations::{ReductionLevel, ShrinkPlan};
use pixlzr::pixlzr::Pixlzr;

fn black_rgb(width: u32, height: u32) -> RawImage {
    RawImage {
        alpha: false,
        data: vec![0; (width * height * 3) as usize],
    }
}

#[test]
fn test_grid_completeness() {
    // blocks.len() == ceil(width / block_width) * ceil(height / block_height)
    let pix = Pixlzr::from_image(&black_rgb(100, 50), 100, 50, 64, 32);
    assert_eq!(pix.block_grid_dimensions(), (2, 2));
    assert_eq!(pix.blocks.len(), 4);

    let pix = Pixlzr::from_image(&black_rgb(128, 128), 128, 128, 64, 64);
    assert_eq!(pix.blocks.len(), 4);

    let pix = Pixlzr::from_image(&black_rgb(65, 1), 65, 1, 64, 64);
    assert_eq!(pix.block_grid_dimensions(), (2, 1));
    assert_eq!(pix.blocks.len(), 2);
}

#[test]
fn test_trailing_block_sizing() {
    // width 100 with 64-wide blocks: the last column is 36 wide, not 64
    let pix = Pixlzr::from_image(&black_rgb(100, 50), 100, 50, 64, 32);
    assert_eq!(pix.blocks[0].width(), 64);
    assert_eq!(pix.blocks[1].width(), 36);
    assert_eq!(pix.blocks[0].height(), 32);
    assert_eq!(pix.blocks[2].height(), 18);
    assert_eq!(pix.blocks[3].width(), 36);
    assert_eq!(pix.blocks[3].height(), 18);
    assert_eq!(pix.block_grid_has_trailing(), (true, true));

    let exact = Pixlzr::from_image(&black_rgb(128, 64), 128, 64, 64, 64);
    assert_eq!(exact.block_grid_has_trailing(), (false, false));
}

#[test]
fn test_split_crops_pixels() {
    // 2x2 image with distinct pixels, 1x1 blocks: each block holds its pixel
    let image = RawImage {
        alpha: false,
        data: vec![10, 11, 12, 20, 21, 22, 30, 31, 32, 40, 41, 42],
    };
    let pix = Pixlzr::from_image(&image, 2, 2, 1, 1);
    assert_eq!(pix.blocks[0].as_slice(), &vec![10, 11, 12]);
    assert_eq!(pix.blocks[1].as_slice(), &vec![20, 21, 22]);
    assert_eq!(pix.blocks[2].as_slice(), &vec![30, 31, 32]);
    assert_eq!(pix.blocks[3].as_slice(), &vec![40, 41, 42]);
    assert!(pix.blocks[0].block_value().is_none());
    assert!(pix.filter.is_none());
}

#[test]
fn test_expand_restores_cell_sizes() {
    let mut pix = Pixlzr::from_image(&black_rgb(100, 50), 100, 50, 64, 32);
    let plan = ShrinkPlan {
        level_x: ReductionLevel::Octaves(1),
        level_y: ReductionLevel::Octaves(1),
        value_bits: (0.5f32).to_bits(),
    };
    pix.shrink(FilterType::Lanczos3, &vec![plan; 4]);
    assert_eq!(pix.blocks[0].dimensions(), (32, 16));
    assert_eq!(pix.blocks[1].dimensions(), (18, 16));
    let expanded = pix.expand(FilterType::Triangle);
    assert_eq!(expanded.filter, Some(FilterType::Triangle));
    assert_eq!(expanded.blocks[0].dimensions(), (64, 32));
    assert_eq!(expanded.blocks[1].dimensions(), (36, 32));
    assert_eq!(expanded.blocks[2].dimensions(), (64, 18));
    assert_eq!(expanded.blocks[3].dimensions(), (36, 18));
}

#[test]
fn test_expand_of_full_size_blocks_is_identity_on_bytes() {
    // blocks already at their cell size are kept byte-identical
    let pix = Pixlzr::from_image(&black_rgb(100, 50), 100, 50, 64, 32);
    let expanded = pix.expand(FilterType::Lanczos3);
    let mut i: usize = 0;
    while i < pix.blocks.len() {
        assert_eq!(expanded.blocks[i].as_slice(), pix.blocks[i].as_slice());
        i += 1;
    }
}

#[test]
fn test_shrink_is_idempotent() {
    let mut once = Pixlzr::from_image(&black_rgb(100, 50), 100, 50, 64, 32);
    let plan = ShrinkPlan {
        level_x: ReductionLevel::Octaves(1),
        level_y: ReductionLevel::Octaves(2),
        value_bits: (2.0f32).to_bits(),
    };
    once.shrink(FilterType::Lanczos3, &vec![plan; 4]);
    let mut twice = once.clone();
    // a second pass, even with different orders, changes nothing
    let other = ShrinkPlan {
        level_x: ReductionLevel::Collapse,
        level_y: ReductionLevel::Collapse,
        value_bits: (9.0f32).to_bits(),
    };
    twice.shrink(FilterType::Nearest, &vec![other; 4]);
    assert_eq!(twice.blocks.len(), once.blocks.len());
    let mut i: usize = 0;
    while i < once.blocks.len() {
        assert_eq!(twice.blocks[i].dimensions(), once.blocks[i].dimensions());
        assert_eq!(twice.blocks[i].block_value(), once.blocks[i].block_value());
        assert_eq!(twice.blocks[i].as_slice(), once.blocks[i].as_slice());
        i += 1;
    }
}

#[test]
fn test_black_image_collapse_and_expand() {
    // A 128x128 all-black RGB image in 64x64 blocks: zero detail means every
    // block collapses to a single pixel, and a nearest-neighbor expansion
    // reproduces the uniform black image exactly.
    let mut pix = Pixlzr::from_image(&black_rgb(128, 128), 128, 128, 64, 64);
    let plan = ShrinkPlan {
        level_x: ReductionLevel::Collapse,
        level_y: ReductionLevel::Collapse,
        value_bits: (0.0f32).to_bits(),
    };
    pix.shrink(FilterType::Lanczos3, &vec![plan; 4]);
    let mut i: usize = 0;
    while i < pix.blocks.len() {
        assert_eq!(pix.blocks[i].dimensions(), (1, 1));
        i += 1;
    }
    let out = pix.to_image(FilterType::Nearest);
    assert!(!out.alpha);
    assert_eq!(out.data.len(), 128 * 128 * 3);
    assert!(out.data.iter().all(|&b| b == 0));
}

#[test]
fn test_to_image_mixed_alpha_gets_opaque_fill() {
    // one RGB block composed onto an RGBA canvas gains opaque alpha bytes
    let rgb = RawImage {
        alpha: false,
        data: vec![1, 2, 3],
    };
    let pix = Pixlzr::from_image(&rgb, 1, 1, 1, 1);
    let out = pix.to_image(FilterType::Nearest);
    assert!(!out.alpha);
    assert_eq!(out.data, vec![1, 2, 3]);

    let rgba = RawImage {
        alpha: true,
        data: vec![5, 6, 7, 8],
    };
    let pix = Pixlzr::from_image(&rgba, 1, 1, 1, 1);
    let out = pix.to_image(FilterType::Nearest);
    assert!(out.alpha);
    assert_eq!(out.data, vec![5, 6, 7, 8]);
}

#[test]
fn test_to_image_places_blocks_row_major() {
    let image = RawImage {
        alpha: false,
        data: vec![10, 11, 12, 20, 21, 22, 30, 31, 32, 40, 41, 42],
    };
    let pix = Pixlzr::from_image(&image, 2, 2, 1, 1);
    let out = pix.to_image(FilterType::Nearest);
    assert_eq!(out.data, image.data);
}

#[test]
fn test_split_image_offsets() {
    let image = RawImage {
        alpha: false,
        data: vec![10, 11, 12, 20, 21, 22, 30, 31, 32, 40, 41, 42],
    };
    let sections = pixlzr::pixlzr::split_image(&image, 2, 2, 1, 1);
    assert_eq!(sections.len(), 4);
    assert_eq!((sections[0].x, sections[0].y), (0, 0));
    assert_eq!((sections[1].x, sections[1].y), (1, 0));
    assert_eq!((sections[2].x, sections[2].y), (0, 1));
    assert_eq!((sections[3].x, sections[3].y), (1, 1));
    assert_eq!(sections[2].block.as_slice(), &vec![30, 31, 32]);
}

#[test]
fn test_to_image_widens_rgb_blocks_on_rgba_canvas() {
    // a 2x1 image in 1x1 blocks: one RGB block, one RGBA block; the canvas
    // gains alpha and the RGB block's pixel gets a fully opaque alpha byte
    let pix = Pixlzr {
        width: 2,
        height: 1,
        block_width: 1,
        block_height: 1,
        filter: None,
        blocks: vec![
            PixlzrBlock::Raw(PixlzrBlockRaw {
                width: 1,
                height: 1,
                block_value: None,
                data: RawImage {
                    alpha: false,
                    data: vec![1, 2, 3],
                },
            }),
            PixlzrBlock::Raw(PixlzrBlockRaw {
                width: 1,
                height: 1,
                block_value: None,
                data: RawImage {
                    alpha: true,
                    data: vec![4, 5, 6, 7],
                },
            }),
        ],
    };
    let out = pix.to_image(FilterType::Nearest);
    assert!(out.alpha);
    assert_eq!(out.data, vec![1, 2, 3, 255, 4, 5, 6, 7]);
}
