use tile_mosaic::names::{FileKind, make_tile_name, make_url_path, parse_tile_name, u32_to_dec};

#[test]
fn decimal_rendering_is_canonical() {
    assert_eq!(u32_to_dec(0), b"0".to_vec());
    assert_eq!(u32_to_dec(7), b"7".to_vec());
    assert_eq!(u32_to_dec(1234), b"1234".to_vec());
    assert_eq!(u32_to_dec(4294967295), b"4294967295".to_vec());
}

#[test]
fn tile_names_have_y_then_x() {
    assert_eq!(make_tile_name(380, 547, FileKind::BaseJpg), b"380-547.jpg".to_vec());
    assert_eq!(make_tile_name(380, 547, FileKind::OutlinePng), b"380-547.png".to_vec());
    assert_eq!(make_tile_name(0, 0, FileKind::BaseJpg), b"0-0.jpg".to_vec());
}

#[test]
fn parse_round_trips_every_made_name() {
    let cases: [(u32, u32); 5] = [(0, 0), (380, 547), (1, 99999), (4294967295, 4294967295), (42, 0)];
    for (y, x) in cases {
        for kind in [FileKind::BaseJpg, FileKind::OutlinePng] {
            let name = make_tile_name(y, x, kind);
            assert_eq!(parse_tile_name(&name, kind), Ok((y, x)));
        }
    }
}

#[test]
fn parse_accepts_exact_shape_only() {
    let k = FileKind::BaseJpg;
    assert!(parse_tile_name(&b"380-547.jpg".to_vec(), k).is_ok());
    // Wrong or missing extension.
    assert!(parse_tile_name(&b"380-547.png".to_vec(), k).is_err());
    assert!(parse_tile_name(&b"380-547".to_vec(), k).is_err());
    // Missing or misplaced dash.
    assert!(parse_tile_name(&b"380547.jpg".to_vec(), k).is_err());
    assert!(parse_tile_name(&b"-380547.jpg".to_vec(), k).is_err());
    assert!(parse_tile_name(&b"380-54-7.jpg".to_vec(), k).is_err());
    // Non-digits, signs, leading zeros.
    assert!(parse_tile_name(&b"38a-547.jpg".to_vec(), k).is_err());
    assert!(parse_tile_name(&b"+380-547.jpg".to_vec(), k).is_err());
    assert!(parse_tile_name(&b"0380-547.jpg".to_vec(), k).is_err());
    assert!(parse_tile_name(&b"380-0547.jpg".to_vec(), k).is_err());
    // Too large for u32.
    assert!(parse_tile_name(&b"4294967296-1.jpg".to_vec(), k).is_err());
    assert!(parse_tile_name(&b"99999999999999999999-1.jpg".to_vec(), k).is_err());
    // Empty pieces.
    assert!(parse_tile_name(&b"-547.jpg".to_vec(), k).is_err());
    assert!(parse_tile_name(&b"380-.jpg".to_vec(), k).is_err());
    assert!(parse_tile_name(&b"".to_vec(), k).is_err());
}

#[test]
fn url_path_orders_zoom_y_x() {
    let base = b"https://tiles.example/imagery".to_vec();
    let path = make_url_path(&base, 17, 41357, 79969);
    assert_eq!(path, b"https://tiles.example/imagery/17/41357/79969".to_vec());
}
