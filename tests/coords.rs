use overviewer::coords::{chunk_of_block, region_of_chunk, split, Coord};

#[test]
fn split_non_negative() {
    assert_eq!(split(0), (0, 0));
    assert_eq!(split(4), (4, 0));
    assert_eq!(split(31), (31, 0));
    assert_eq!(split(32), (0, 1));
    assert_eq!(split(100), (4, 3));
}

#[test]
fn split_negative_is_floored() {
    assert_eq!(split(-1), (31, -1));
    assert_eq!(split(-32), (0, -1));
    assert_eq!(split(-33), (31, -2));
    assert_eq!(split(i64::MIN), (0, i64::MIN / 32));
    assert_eq!(split(i64::MAX), (31, i64::MAX / 32));
}

#[test]
fn split_recomposes() {
    for c in -1000i64..1000 {
        let (l, r) = split(c);
        assert!((0..32).contains(&l));
        assert_eq!(r * 32 + l, c);
    }
}

#[test]
fn blocks_to_chunks_to_regions() {
    assert_eq!(chunk_of_block(15), 0);
    assert_eq!(chunk_of_block(16), 1);
    assert_eq!(chunk_of_block(-1), -1);
    assert_eq!(chunk_of_block(-17), -2);
    assert_eq!(region_of_chunk(-1), -1);
    assert_eq!(region_of_chunk(63), 1);
    let c = Coord::new(-17, 64, 40).chunk_of_block();
    assert_eq!((c.x, c.y, c.z), (-2, 64, 2));
}

#[test]
fn coord_split_keeps_y() {
    let (l, r) = Coord::new(-1, 5, 40).split();
    assert_eq!((l.x, l.y, l.z), (31, 5, 8));
    assert_eq!((r.x, r.y, r.z), (-1, 5, 1));
}
