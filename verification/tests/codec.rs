use pixlzr::bytes::Bytes;
use pixlzr::encoding::{has_resource, PixlzrError, Resource};
use pixlzr::filter::{filter_to_u8, u8_to_filter, FilterType};
use pixlzr::operations::{ReductionLevel, ShrinkPlan};
use pixlzr::pixlzr::Pixlzr;
use pixlzr::block::RawImage;
use pixlzr::semver::Semver;

#[test]
fn test_bytes_write_read_roundtrip() {
    let mut w = Bytes::reserve(32);
    w.write_u8(7);
    w.write_u16(0xBEEF);
    w.write_u32(0xDEADBEEF);
    w.write_u64(0x0123456789ABCDEF);
    w.write_slice(&vec![1, 2, 3]);
    assert_eq!(w.index(), 1 + 2 + 4 + 8 + 3);

    let mut r = Bytes::new(w.data);
    assert!(r.yet_readding());
    assert_eq!(r.read_u8(), 7);
    assert_eq!(r.read_u16(), 0xBEEF);
    assert_eq!(r.read_u32(), 0xDEADBEEF);
    assert_eq!(r.read_u64(), 0x0123456789ABCDEF);
    assert_eq!(r.read_slice(3), Some(vec![1, 2, 3]));
    assert!(!r.yet_readding());
    assert_eq!(r.read_slice(1), None);
}

#[test]
fn test_bytes_big_endian_layout() {
    let mut w = Bytes::reserve_exact(4);
    w.write_u32(0x01020304);
    assert_eq!(w.data, vec![1, 2, 3, 4]);
}

#[test]
fn test_semver_order_and_from_bytes() {
    let a = Semver::new(0, 0, 1);
    let b = Semver::new(0, 0, 2);
    let c = Semver::new(1, 0, 0);
    assert!(b.ge(&a));
    assert!(!a.ge(&b));
    assert!(c.ge(&b));
    assert!(b.ge(&b));
    assert_eq!(Semver::from_bytes(&vec![0, 0, 2]), b);
    assert_eq!(Semver::from_bytes(&vec![1]), Semver::new(1, 0, 0));
    assert_eq!(Semver::from_bytes(&vec![]), Semver::new(0, 0, 0));
}

#[test]
fn test_has_resource_version_gating() {
    assert!(!has_resource(&Semver::new(0, 0, 0), Resource::Filter));
    assert!(!has_resource(&Semver::new(0, 0, 0), Resource::LineSizes));
    assert!(has_resource(&Semver::new(0, 0, 1), Resource::Filter));
    assert!(!has_resource(&Semver::new(0, 0, 1), Resource::LineSizes));
    assert!(has_resource(&Semver::new(0, 0, 2), Resource::Filter));
    assert!(has_resource(&Semver::new(0, 0, 2), Resource::LineSizes));
    assert!(has_resource(&Semver::new(1, 0, 0), Resource::LineSizes));
}

#[test]
fn test_filter_tag_roundtrip() {
    let filters = [
        FilterType::Nearest,
        FilterType::Triangle,
        FilterType::CatmullRom,
        FilterType::Gaussian,
        FilterType::Lanczos3,
    ];
    let mut i: usize = 0;
    while i < filters.len() {
        assert_eq!(u8_to_filter(filter_to_u8(filters[i])), filters[i]);
        i += 1;
    }
    assert_eq!(filter_to_u8(FilterType::Nearest), 1);
    assert_eq!(filter_to_u8(FilterType::Lanczos3), 5);
    // unknown tags fall back to the default filter
    assert_eq!(u8_to_filter(0), FilterType::Nearest);
    assert_eq!(u8_to_filter(9), FilterType::Nearest);
}

/// A 2x2 RGB container of 1x1 blocks with distinct pixel bytes, shrunk with
/// identity levels so that every block carries a stored value.
fn small_container() -> Pixlzr {
    let image = RawImage {
        alpha: false,
        data: vec![0, 1, 2, 3, 4, 5, 6, 7, 8, 9, 10, 11],
    };
    let mut pix = Pixlzr::from_image(&image, 2, 2, 1, 1);
    let plan = ShrinkPlan {
        level_x: ReductionLevel::Octaves(0),
        level_y: ReductionLevel::Octaves(0),
        value_bits: (1.5f32).to_bits(),
    };
    let plans = vec![plan; 4];
    pix.shrink(FilterType::Lanczos3, &plans);
    pix.filter = Some(FilterType::Triangle);
    pix
}

#[test]
fn test_encode_decode_roundtrip() {
    let pix = small_container();
    let encoded = pix.encode_to_vec().unwrap();
    let decoded = Pixlzr::decode_from_vec(encoded).unwrap();
    assert_eq!(decoded.width, pix.width);
    assert_eq!(decoded.height, pix.height);
    assert_eq!(decoded.block_width, pix.block_width);
    assert_eq!(decoded.block_height, pix.block_height);
    assert_eq!(decoded.filter, pix.filter);
    assert_eq!(decoded.blocks.len(), pix.blocks.len());
    let mut i: usize = 0;
    while i < pix.blocks.len() {
        assert_eq!(decoded.blocks[i].width(), pix.blocks[i].width());
        assert_eq!(decoded.blocks[i].height(), pix.blocks[i].height());
        assert_eq!(decoded.blocks[i].has_alpha(), pix.blocks[i].has_alpha());
        assert_eq!(decoded.blocks[i].block_value(), pix.blocks[i].block_value());
        assert_eq!(decoded.blocks[i].as_slice(), pix.blocks[i].as_slice());
        i += 1;
    }
}

#[test]
fn test_roundtrip_without_filter_tag() {
    let mut pix = small_container();
    pix.filter = None;
    let encoded = pix.encode_to_vec().unwrap();
    // a zero filter byte means "no filter recorded"
    assert_eq!(encoded[9], 0);
    let decoded = Pixlzr::decode_from_vec(encoded).unwrap();
    assert_eq!(decoded.filter, None);
}

#[test]
fn test_single_block_encoding_layout() {
    // Block size at least the image size: exactly one row, one block record.
    let image = RawImage {
        alpha: false,
        data: vec![5; 3 * 2 * 3],
    };
    let mut pix = Pixlzr::from_image(&image, 3, 2, 64, 64);
    assert_eq!(pix.blocks.len(), 1);
    assert_eq!(pix.block_grid_dimensions(), (1, 1));
    let plan = ShrinkPlan {
        level_x: ReductionLevel::Octaves(0),
        level_y: ReductionLevel::Octaves(0),
        value_bits: 0,
    };
    pix.shrink(FilterType::Nearest, &vec![plan]);
    let encoded = pix.encode_to_vec().unwrap();
    // header
    assert_eq!(&encoded[0..6], &b"PIXLZR"[..]);
    assert_eq!(&encoded[6..9], &[0, 0, 2]);
    // one row-length entry, then exactly one block record
    let row_len = u32::from_be_bytes([encoded[26], encoded[27], encoded[28], encoded[29]]) as usize;
    assert_eq!(encoded.len(), 30 + row_len);
    assert_eq!(&encoded[30..35], &b"block"[..]);
    let mut records: usize = 0;
    let mut i: usize = 0;
    while i + 5 <= encoded.len() {
        if encoded[i..i + 5] == b"block"[..] {
            records += 1;
        }
        i += 1;
    }
    assert_eq!(records, 1);
    let decoded = Pixlzr::decode_from_vec(encoded).unwrap();
    assert_eq!(decoded.blocks.len(), 1);
}

#[test]
fn test_decode_bad_magic() {
    let mut encoded = small_container().encode_to_vec().unwrap();
    encoded[0] = 0;
    assert!(matches!(
        Pixlzr::decode_from_vec(encoded),
        Err(PixlzrError::BadMagic)
    ));
}

#[test]
fn test_decode_truncated() {
    let encoded = small_container().encode_to_vec().unwrap();
    let cut = encoded[0..encoded.len() - 1].to_vec();
    assert!(matches!(
        Pixlzr::decode_from_vec(cut),
        Err(PixlzrError::Truncated)
    ));
    let tiny = encoded[0..8].to_vec();
    assert!(matches!(
        Pixlzr::decode_from_vec(tiny),
        Err(PixlzrError::Truncated)
    ));
}

#[test]
fn test_decode_out_of_range_row_length() {
    // A row-length table entry pointing past the end of the buffer must fail
    // the decode rather than read adjacent memory.
    let mut encoded = small_container().encode_to_vec().unwrap();
    encoded[26] = 0xFF;
    encoded[27] = 0xFF;
    encoded[28] = 0xFF;
    encoded[29] = 0xFF;
    assert!(matches!(
        Pixlzr::decode_from_vec(encoded),
        Err(PixlzrError::Truncated)
    ));
}

#[test]
fn test_decode_row_table_mismatch() {
    let mut encoded = small_container().encode_to_vec().unwrap();
    encoded.push(0);
    assert!(matches!(
        Pixlzr::decode_from_vec(encoded),
        Err(PixlzrError::RowTableMismatch)
    ));
}

#[test]
fn test_decode_zero_block_dimension() {
    let mut encoded = small_container().encode_to_vec().unwrap();
    // block width field
    encoded[18] = 0;
    encoded[19] = 0;
    encoded[20] = 0;
    encoded[21] = 0;
    assert!(matches!(
        Pixlzr::decode_from_vec(encoded),
        Err(PixlzrError::ZeroBlockDimension)
    ));
}

#[test]
fn test_decode_bad_block_magic() {
    let mut encoded = small_container().encode_to_vec().unwrap();
    // first block record starts after the header and the two row entries
    let record = 26 + 2 * 4;
    encoded[record] = 0;
    assert!(matches!(
        Pixlzr::decode_from_vec(encoded),
        Err(PixlzrError::BadBlockMagic)
    ));
}

#[test]
fn test_decode_corrupt_pixel_payload() {
    let mut encoded = small_container().encode_to_vec().unwrap();
    // damaging the last payload byte breaks the pixel codec's end marker
    let last = encoded.len() - 1;
    encoded[last] = encoded[last].wrapping_add(1);
    assert!(matches!(
        Pixlzr::decode_from_vec(encoded),
        Err(PixlzrError::PixelCodec)
    ));
}

#[test]
fn test_decode_legacy_container_without_row_table() {
    // Version 0.0.1 has a filter tag but no per-row length table: the decoder
    // falls back to scanning records sequentially.
    let image = RawImage {
        alpha: false,
        data: vec![7; 3 * 3],
    };
    let mut pix = Pixlzr::from_image(&image, 1, 3, 1, 1);
    let plan = ShrinkPlan {
        level_x: ReductionLevel::Octaves(0),
        level_y: ReductionLevel::Octaves(0),
        value_bits: 3,
    };
    pix.shrink(FilterType::Nearest, &vec![plan; 3]);
    let encoded = pix.encode_to_vec().unwrap();
    // keep the header but the version bytes, drop the three row entries
    let mut legacy: Vec<u8> = Vec::new();
    legacy.extend_from_slice(&encoded[0..6]);
    legacy.extend_from_slice(&[0, 0, 1]);
    legacy.extend_from_slice(&encoded[9..26]);
    legacy.extend_from_slice(&encoded[26 + 3 * 4..]);
    let decoded = Pixlzr::decode_from_vec(legacy).unwrap();
    assert_eq!(decoded.blocks.len(), 3);
    assert_eq!(decoded.blocks[0].block_value(), Some(3));
    assert_eq!(decoded.blocks[2].as_slice(), &vec![7, 7, 7]);
}
