use reticle_app::geom::{Point, Rect};
use reticle_app::streamed::{check_header, HeaderInfo, LevelDims, Residency, SceneError, TileCoord};

const MAGIC: [u8; 8] = *b"RTLA\0\0\0\x01";
const VERSION: u32 = 1;

/// A `world`-sized header with `levels` power-of-two square levels.
fn header(world: Rect, levels: u32) -> HeaderInfo {
    HeaderInfo {
        magic: MAGIC,
        version: VERSION,
        world,
        levels: (0..levels).map(|l| LevelDims { cols: 1 << l, rows: 1 << l }).collect(),
    }
}

fn world() -> Rect {
    Rect::new(Point::new(0, 0), Point::new(1000, 1000))
}

fn tile(level: u32, col: u32, row: u32) -> TileCoord {
    TileCoord { level, col, row }
}

#[test]
fn new_rejects_a_bad_header() {
    assert_eq!(check_header(&header(world(), 3), MAGIC, VERSION), Ok(()));

    let mut h = header(world(), 3);
    h.magic = *b"NOTRTLA1";
    assert_eq!(check_header(&h, MAGIC, VERSION).unwrap_err(), SceneError::BadMagic);

    let mut h = header(world(), 3);
    h.version = 999;
    assert_eq!(check_header(&h, MAGIC, VERSION).unwrap_err(), SceneError::UnsupportedVersion(999));

    // A level whose grid is not 2^level square is refused rather than mapped incorrectly.
    let mut h = header(world(), 3);
    h.levels[2] = LevelDims { cols: 3, rows: 4 };
    assert_eq!(
        check_header(&h, MAGIC, VERSION).unwrap_err(),
        SceneError::NonPyramidLevel { level: 2, expected: 4, cols: 3, rows: 4 }
    );
}

#[test]
fn header_level_count_and_world_are_checked() {
    assert_eq!(check_header(&header(world(), 0), MAGIC, VERSION), Err(SceneError::LevelCount(0)));
    assert_eq!(check_header(&header(world(), 32), MAGIC, VERSION), Err(SceneError::LevelCount(32)));
    assert_eq!(check_header(&header(world(), 31), MAGIC, VERSION), Ok(()));
    let flat = Rect::new(Point::new(0, 5), Point::new(1000, 5));
    assert_eq!(check_header(&header(flat, 2), MAGIC, VERSION), Err(SceneError::DegenerateWorld));
}

#[test]
fn scene_error_messages() {
    assert_eq!(SceneError::BadMagic.message(), "rtla header magic mismatch");
    assert_eq!(SceneError::UnsupportedVersion(7).message(), "unsupported rtla version 7");
    assert_eq!(SceneError::LevelCount(0).message(), "rtla header has an unusable level count: 0");
    assert_eq!(SceneError::DegenerateWorld.message(), "rtla world bounding box has no area");
    assert_eq!(
        SceneError::NonPyramidLevel { level: 2, expected: 4, cols: 3, rows: 4 }.message(),
        "rtla level 2 is not a 4x4 grid (got 3x4)"
    );
}

#[test]
fn paint_level_falls_back_to_the_coarsest_resident_cover() {
    let mut scene: Residency<()> = Residency::new(32);
    // The tiles a viewport at (10,10)-(200,200) touches on a 1000x1000 world,
    // coarsest level first.
    let levels = vec![vec![tile(0, 0, 0)], vec![tile(1, 0, 0)], vec![tile(2, 0, 0)]];
    // Nothing resident yet: nothing to paint.
    assert_eq!(scene.paint_level(&levels, 2), None);

    // Make level 0 (the single coarse tile) resident.
    scene.insert_tile(tile(0, 0, 0), ());
    // Target is the fine level 2, but only level 0 is covered, so we paint level 0.
    assert_eq!(scene.paint_level(&levels, 2), Some(0));

    // Now make every level-2 tile the viewport touches resident.
    for coord in scene.missing_tiles(&levels[2]) {
        scene.insert_tile(coord, ());
    }
    // The fine level is fully covered, so it wins.
    assert_eq!(scene.paint_level(&levels, 2), Some(2));
    // A target past the finest level is clamped to it.
    assert_eq!(scene.paint_level(&levels, 9), Some(2));
    assert_eq!(scene.paint_level(&[], 2), None);
}

#[test]
fn insert_evicts_least_recently_used_past_the_bound() {
    let mut scene: Residency<u32> = Residency::new(2);
    let a = tile(2, 0, 0);
    let b = tile(2, 1, 0);
    let c = tile(2, 2, 0);
    scene.insert_tile(a, 1);
    scene.insert_tile(b, 2);
    // Touch `a` so `b` becomes the least-recently-used.
    scene.insert_tile(a, 3);
    scene.insert_tile(c, 4);
    assert_eq!(scene.resident_count(), 2);
    assert!(scene.is_resident(a), "a was touched, stays resident");
    assert!(scene.is_resident(c), "c is newest");
    assert!(!scene.is_resident(b), "b was the LRU and was evicted");
    // The refreshed tile carries its newest payload.
    assert_eq!(scene.payload(a), Some(&3));
    assert_eq!(scene.payload(b), None);
}

#[test]
fn residency_bound_is_at_least_one_and_clear_empties() {
    let mut scene: Residency<()> = Residency::new(0);
    assert_eq!(scene.max_resident(), 1);
    scene.insert_tile(tile(0, 0, 0), ());
    scene.insert_tile(tile(1, 0, 0), ());
    assert_eq!(scene.resident_count(), 1);
    assert!(scene.is_resident(tile(1, 0, 0)));
    let fetch = scene.missing_tiles(&[tile(0, 0, 0), tile(1, 0, 0), tile(1, 1, 0)]);
    assert_eq!(fetch, vec![tile(0, 0, 0), tile(1, 1, 0)]);
    scene.clear();
    assert_eq!(scene.resident_count(), 0);
}
