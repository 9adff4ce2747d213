use tile_mosaic::canvas::Canvas;
use tile_mosaic::stitch::{BlockError, MissingPolicy, TouchedSet, block_members, compose_layer,
    is_anchor, try_claim_block};
use tile_mosaic::tiles::TileAddress;

fn flat_canvas(w: u32, h: u32, rgb: [u8; 3]) -> Canvas {
    let mut c = Canvas::blank(w, h);
    c.fill((rgb[0], rgb[1], rgb[2]));
    c
}

fn pixel(c: &Canvas, x: u32, y: u32) -> [u8; 3] {
    let off = (3 * (y * c.width + x)) as usize;
    [c.pixels[off], c.pixels[off + 1], c.pixels[off + 2]]
}

#[test]
fn anchors_are_multiples_of_the_block_size() {
    let a = TileAddress::new(17, 79968, 41352).unwrap();
    assert!(is_anchor(&a, 8));
    let b = TileAddress::new(17, 79969, 41352).unwrap();
    assert!(!is_anchor(&b, 8));
    let c = TileAddress::new(17, 79968, 41353).unwrap();
    assert!(!is_anchor(&c, 8));
}

// Mosaic exactly-once: eight workers race the same anchor through the
// serialized claim; exactly one build is granted.
#[test]
fn eight_claims_of_one_anchor_grant_once() {
    let mut touched = TouchedSet::new();
    let anchor = TileAddress::new(17, 79968, 41352).unwrap();
    let mut builds = 0;
    for _worker in 0..8 {
        if try_claim_block(&mut touched, &anchor, 8) {
            builds += 1;
        }
    }
    assert_eq!(builds, 1);
}

#[test]
fn non_anchors_are_never_granted() {
    let mut touched = TouchedSet::new();
    let a = TileAddress::new(17, 79969, 41352).unwrap();
    assert!(!try_claim_block(&mut touched, &a, 8));
    assert!(!touched.contains(a.key()));
    // Distinct anchors are granted independently.
    let b = TileAddress::new(17, 79968, 41352).unwrap();
    let c = TileAddress::new(17, 79976, 41352).unwrap();
    assert!(try_claim_block(&mut touched, &b, 8));
    assert!(try_claim_block(&mut touched, &c, 8));
    assert!(!try_claim_block(&mut touched, &b, 8));
}

#[test]
fn block_members_cover_the_grid_column_major() {
    let anchor = TileAddress::new(17, 79968, 41352).unwrap();
    let members = block_members(&anchor, 2);
    assert_eq!(members.len(), 4);
    assert_eq!((members[0].x, members[0].y), (79968, 41352));
    assert_eq!((members[1].x, members[1].y), (79968, 41353));
    assert_eq!((members[2].x, members[2].y), (79969, 41352));
    assert_eq!((members[3].x, members[3].y), (79969, 41353));
}

// End-to-end block policies: three members of a 2x2 block are present,
// the fourth is missing. Under the abort policy no mosaic is produced;
// under the sentinel policy a mosaic is produced with the missing
// quadrant in the sentinel color.
#[test]
fn missing_member_aborts_or_renders_sentinel() {
    let tiles = vec![
        Some(flat_canvas(4, 4, [10, 10, 10])),
        Some(flat_canvas(4, 4, [20, 20, 20])),
        Some(flat_canvas(4, 4, [30, 30, 30])),
        None,
    ];
    let aborted = compose_layer(&tiles, 2, 4, 4, MissingPolicy::Abort);
    assert_eq!(aborted.unwrap_err(), BlockError::IncompleteBlock);

    let sentinel = MissingPolicy::Sentinel(0, 0, 255);
    let block = compose_layer(&tiles, 2, 4, 4, sentinel).unwrap();
    assert_eq!((block.width, block.height), (8, 8));
    // Quadrants: index dx * n + dy, pasted at (dx * tw, dy * th).
    assert_eq!(pixel(&block, 0, 0), [10, 10, 10]);
    assert_eq!(pixel(&block, 1, 6), [20, 20, 20]);
    assert_eq!(pixel(&block, 6, 1), [30, 30, 30]);
    assert_eq!(pixel(&block, 6, 6), [0, 0, 255]);
}

#[test]
fn complete_block_copies_every_member_pixel() {
    let mut c0 = Canvas::blank(2, 2);
    c0.fill((1, 2, 3));
    let tiles = vec![
        Some(c0),
        Some(flat_canvas(2, 2, [4, 5, 6])),
        Some(flat_canvas(2, 2, [7, 8, 9])),
        Some(flat_canvas(2, 2, [10, 11, 12])),
    ];
    let block = compose_layer(&tiles, 2, 2, 2, MissingPolicy::Abort).unwrap();
    assert_eq!((block.width, block.height), (4, 4));
    for (x, y, want) in [
        (0u32, 0u32, [1u8, 2, 3]),
        (1, 1, [1, 2, 3]),
        (0, 2, [4, 5, 6]),
        (1, 3, [4, 5, 6]),
        (2, 0, [7, 8, 9]),
        (3, 1, [7, 8, 9]),
        (2, 2, [10, 11, 12]),
        (3, 3, [10, 11, 12]),
    ] {
        assert_eq!(pixel(&block, x, y), want, "at ({x}, {y})");
    }
}

#[test]
fn sweep_skips_what_an_earlier_worker_built() {
    // A sorted sweep over a block's members claims the block once at its
    // anchor and never at the members.
    let mut touched = TouchedSet::new();
    let anchor = TileAddress::new(17, 79968, 41352).unwrap();
    let members = block_members(&anchor, 8);
    let mut grants = 0;
    for m in &members {
        if try_claim_block(&mut touched, m, 8) {
            grants += 1;
        }
    }
    assert_eq!(grants, 1);
}
