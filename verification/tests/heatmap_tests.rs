use ip_heatmap::curve::hilbert_d2xy;
use ip_heatmap::grid::image_size_for_bpp;
use ip_heatmap::heatmap::{palette_index, Heatmap, ValueMode, UNPAINTED_CELL};
use ip_heatmap::scale::DomainType;
use ip_heatmap::ConfigError;

fn raw_map(bits_per_pixel: u8, accumulate: bool) -> Heatmap {
    Heatmap::new(DomainType::Linear, None, None, accumulate, bits_per_pixel, ValueMode::Raw)
        .unwrap()
}

#[test]
fn test_granularity_validation() {
    assert!(matches!(
        Heatmap::new(DomainType::Linear, None, None, false, 9, ValueMode::Raw),
        Err(ConfigError::InvalidGranularity)
    ));
    assert!(matches!(
        Heatmap::new(DomainType::Linear, None, None, false, 6, ValueMode::Raw),
        Err(ConfigError::InvalidGranularity)
    ));
    assert!(matches!(
        Heatmap::new(DomainType::Linear, None, None, false, 26, ValueMode::Raw),
        Err(ConfigError::InvalidGranularity)
    ));
    assert!(Heatmap::new(DomainType::Linear, None, None, false, 8, ValueMode::Raw).is_ok());
    assert!(Heatmap::new(DomainType::Linear, None, None, false, 24, ValueMode::Raw).is_ok());
}

#[test]
fn test_image_sizes_partition_address_space() {
    // side * side * 2^bits_per_pixel == 2^32 for every valid granularity.
    for bpp in (8..=24).step_by(2) {
        let side = image_size_for_bpp(bpp) as u64;
        assert_eq!(side * side * (1u64 << bpp), 1u64 << 32, "coverage broken at {}", bpp);
    }
    assert_eq!(image_size_for_bpp(8), 4096);
    assert_eq!(image_size_for_bpp(24), 16);
}

#[test]
fn test_scenario_slash8_at_coarse_granularity() {
    // Granularity 24 over the 32-bit space: order 4, side 16.
    let mut map = raw_map(24, false);
    assert_eq!(map.image_size(), 16);
    map.process_input_from_string(b"10.0.0.0/8 1").unwrap();
    // The block covers exactly the pixel of curve distance 10, and the
    // pixel for 10.0.0.0 is the curve transform of distance 10 at order 4.
    let (ex, ey) = hilbert_d2xy(10, 4).unwrap();
    assert_eq!(map.ip_to_xy(10 << 24).unwrap(), (ex, ey));
    let mut painted = Vec::new();
    for y in 0..16u32 {
        for x in 0..16u32 {
            if map.cell_at(x, y) != 0 {
                painted.push((x, y, map.cell_at(x, y)));
            }
        }
    }
    assert_eq!(painted, vec![(ex, ey, 1)]);
}

#[test]
fn test_scenario_quadrants_at_fine_granularity() {
    // Granularity 8: order 12, side 4096; one address per quadrant.
    let mut map = raw_map(8, false);
    assert_eq!(map.image_size(), 4096);
    map.process_input_from_string(b"0.0.0.0 1\n64.0.0.0 1\n128.0.0.0 1\n192.0.0.0 1\n")
        .unwrap();
    let mid = 2048u32;
    let (x0, y0) = map.ip_to_xy(0).unwrap();
    let (x64, y64) = map.ip_to_xy(64 << 24).unwrap();
    let (x128, y128) = map.ip_to_xy(128 << 24).unwrap();
    let (x192, y192) = map.ip_to_xy(192 << 24).unwrap();
    assert!(x0 < mid && y0 < mid, "0.0.0.0 should be top-left");
    assert!(x64 < mid && y64 >= mid, "64.0.0.0 should be lower-left");
    assert!(x128 >= mid && y128 >= mid, "128.0.0.0 should be lower-right");
    assert!(x192 >= mid && y192 < mid, "192.0.0.0 should be top-right");
    for (x, y) in [(x0, y0), (x64, y64), (x128, y128), (x192, y192)] {
        assert_eq!(map.cell_at(x, y), 1);
    }
}

#[test]
fn test_scenario_categorical_sentinel_and_palette() {
    // Categorical mode: unpainted cells hold the sentinel and render
    // transparent; categories map through the palette modulo its size.
    let mut map =
        Heatmap::new(DomainType::Linear, None, None, false, 16, ValueMode::Categorical).unwrap();
    map.paint_address(0, 0);
    map.paint_address(128 << 24, 9);
    let (x0, y0) = map.ip_to_xy(0).unwrap();
    let (x1, y1) = map.ip_to_xy(128 << 24).unwrap();
    assert_eq!(map.cell_at(x0, y0), 0);
    assert_eq!(map.cell_at(x1, y1), 9);
    // Category 9 cycles to palette slot 9 mod 8 = 1.
    assert_eq!(palette_index(map.cell_at(x1, y1)), Some(1));
    assert_eq!(palette_index(map.cell_at(x0, y0)), Some(0));
    // An untouched cell still holds the sentinel and selects no colour.
    let (ux, uy) = map.ip_to_xy(32 << 24).unwrap();
    assert_eq!(map.cell_at(ux, uy), UNPAINTED_CELL);
    assert!(map.cell_at(ux, uy) < 0);
    assert_eq!(palette_index(map.cell_at(ux, uy)), None);
}

#[test]
fn test_scenario_scaled_full_range() {
    // Scaled mode: a range exactly covering k pixels with weight V puts
    // floor(V * P / P) = V on each of the k pixels, V * k in total.
    let mut map =
        Heatmap::new(DomainType::Linear, None, None, true, 24, ValueMode::Scaled).unwrap();
    map.process_input_from_string(b"0.0.0.0/6 7").unwrap();
    let mut painted = 0u32;
    let mut total = 0i64;
    for y in 0..16u32 {
        for x in 0..16u32 {
            let v = map.cell_at(x, y);
            if v != 0 {
                painted += 1;
                assert_eq!(v, 7);
                total += v;
            }
        }
    }
    // A /6 covers 2^26 addresses: 4 pixels of 2^24 addresses each.
    assert_eq!(painted, 4);
    assert_eq!(total, 7 * 4);
}

#[test]
fn test_scaled_single_address_truncates_to_zero() {
    // One address out of 2^24 contributes floor(V / P) = 0: accepted
    // lossy behaviour at fine granularity.
    let mut map =
        Heatmap::new(DomainType::Linear, None, None, true, 24, ValueMode::Scaled).unwrap();
    map.paint_address(5, 1000);
    let (x, y) = map.ip_to_xy(5).unwrap();
    assert_eq!(map.cell_at(x, y), 0);
}

#[test]
fn test_accumulate_adds_and_overwrite_replaces() {
    let mut acc = raw_map(24, true);
    acc.paint_address(1, 2);
    acc.paint_address(1, 3);
    let (x, y) = acc.ip_to_xy(1).unwrap();
    assert_eq!(acc.cell_at(x, y), 5);

    let mut over = raw_map(24, false);
    over.paint_address(1, 2);
    over.paint_address(1, 3);
    assert_eq!(over.cell_at(x, y), 3);
}

#[test]
fn test_partial_range_overlap_weights() {
    // Scaled mode at granularity 24: a range spanning one and a half
    // pixels weights each pixel by its own overlap.
    let mut map =
        Heatmap::new(DomainType::Linear, None, None, true, 24, ValueMode::Scaled).unwrap();
    let p = 1u32 << 24;
    // Covers all of pixel 0 and half of pixel 1.
    map.paint_cidr_range(0, p + p / 2 - 1, 100);
    let (x0, y0) = map.ip_to_xy(0).unwrap();
    let (x1, y1) = map.ip_to_xy(p).unwrap();
    assert_eq!(map.cell_at(x0, y0), 100);
    assert_eq!(map.cell_at(x1, y1), 50);
}

#[test]
fn test_fatal_parse_error_carries_line_and_token() {
    let mut map = raw_map(24, false);
    let err = map
        .process_input_from_string(b"1.2.3.4 1\n10.0.0.0/33 2\nbogus 3\n4.4.4.4 1")
        .unwrap_err();
    assert_eq!(err.line, 3);
    assert_eq!(err.token, b"bogus".to_vec());
    // The work before the fatal line is kept: line 1 painted, line 2
    // (a malformed range) was skipped with no effect.
    let (x, y) = map.ip_to_xy(0x0102_0304).unwrap();
    assert_eq!(map.cell_at(x, y), 1);
}

#[test]
fn test_blank_lines_and_skipped_ranges_are_ignored() {
    let mut map = raw_map(24, false);
    map.process_input_from_string(b"\n   \nnot.an.ip/8 5\n1.0.0.0 2\n").unwrap();
    let (x, y) = map.ip_to_xy(1 << 24).unwrap();
    assert_eq!(map.cell_at(x, y), 2);
}

#[test]
fn test_calculate_domain_auto_bounds() {
    let mut map = raw_map(24, false);
    map.paint_address(0, 9);
    map.paint_address(128 << 24, 2);
    // Unpainted cells are zero, so the dataset minimum is 0.
    let dom = map.calculate_domain().unwrap();
    let top = dom.scale(9).unwrap();
    assert_eq!((top.num, top.den), (9, 9));
    let mid = dom.scale(2).unwrap();
    assert_eq!((mid.num, mid.den), (2, 9));
}

#[test]
fn test_calculate_domain_fails_on_flat_data() {
    // A dataset with one distinct value and no explicit bounds has
    // collapsed auto bounds: a render-time domain error.
    let map = raw_map(24, false);
    assert!(matches!(map.calculate_domain(), Err(ConfigError::InvalidDomainBounds)));
}

#[test]
fn test_calculate_domain_explicit_bounds() {
    let map = Heatmap::new(DomainType::Logarithmic, Some(1), Some(100), false, 24, ValueMode::Raw)
        .unwrap();
    let dom = map.calculate_domain().unwrap();
    assert!(dom.scale(1).is_none());
    let p = dom.scale(50).unwrap();
    assert_eq!((p.num, p.den), (49, 99));
    assert!(p.logarithmic);
}
