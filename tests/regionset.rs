use overviewer::coords::{split, Coord};
use overviewer::regionset::{ChunkIter, Regionset};

fn names(list: &[&str]) -> Vec<String> {
    list.iter().map(|s| s.to_string()).collect()
}

#[test]
fn test_regionset() {
    let rset = Regionset::new(
        "tests/data/OTD/world_189/region".to_string(),
        names(&[
            "r.-1.-1.mca",
            "r.-1.0.mca",
            "r.0.-1.mca",
            "r.0.0.mca",
            "r.1.0.mca",
            "r.0.1.mca",
        ]),
    );
    assert_eq!(rset.get_regions().len(), 6);
}

#[test]
fn stray_files_are_not_indexed() {
    let rset = Regionset::new(
        "world/region".to_string(),
        names(&[
            "notes.txt",
            "r.0.0.mca",
            "r.0.0.mcr",
            "r.1.2.3.mca",
            "r.x.0.mca",
            "r.-2.5.mca",
            "r..mca",
            "level.dat",
        ]),
    );
    assert_eq!(rset.get_regions(), &vec![(0, 0), (-2, 5)]);
}

#[test]
fn get_type_is_directory_name() {
    let rset = Regionset::new("saves/world/DIM-1".to_string(), vec![]);
    assert_eq!(rset.get_type(), "DIM-1");
    let rset = Regionset::new("region".to_string(), vec![]);
    assert_eq!(rset.get_type(), "region");
}

#[test]
fn locate_in_indexed_region() {
    let rset = Regionset::new("region".to_string(), names(&["r.0.0.mca"]));
    let l = rset.locate(&Coord::new(4, 0, 8)).unwrap();
    assert_eq!((l.region_x, l.region_z, l.local_x, l.local_z), (0, 0, 4, 8));
    assert_eq!(l.file_name, "r.0.0.mca");
    let l = rset.locate(&Coord::new(4, 0, 9)).unwrap();
    assert_eq!((l.local_x, l.local_z), (4, 9));
}

#[test]
fn locate_outside_index_is_none() {
    let rset = Regionset::new("region".to_string(), names(&["r.0.0.mca"]));
    assert!(rset.locate(&Coord::new(32, 0, 0)).is_none());
    assert!(rset.locate(&Coord::new(-1, 0, 0)).is_none());
    let empty = Regionset::new("region".to_string(), vec![]);
    assert!(empty.locate(&Coord::new(0, 0, 0)).is_none());
}

#[test]
fn locate_negative_coordinates() {
    let rset = Regionset::new("region".to_string(), names(&["r.-1.-2.mca"]));
    let l = rset.locate(&Coord::new(-1, 0, -33)).unwrap();
    assert_eq!((l.region_x, l.region_z, l.local_x, l.local_z), (-1, -2, 31, 31));
    assert_eq!(l.file_name, "r.-1.-2.mca");
}

#[test]
fn chunk_walk_hands_out_each_region_once() {
    let rset = Regionset::new("region".to_string(), names(&["r.0.0.mca", "a.txt", "r.-1.3.mca"]));
    let mut it = rset.get_chunks();
    let (x, z, f) = it.next_region().unwrap();
    assert_eq!((x, z, f.as_str()), (0, 0, "r.0.0.mca"));
    let (x, z, f) = it.next_region().unwrap();
    assert_eq!((x, z, f.as_str()), (-1, 3, "r.-1.3.mca"));
    assert!(it.next_region().is_none());
    assert!(it.next_region().is_none());
    let mut again = rset.get_chunks();
    assert_eq!(again.next_region().unwrap().0, 0);
}

#[test]
fn chunks_in_region_maps_slots_to_coordinates() {
    let mut stamps = vec![None; 1024];
    stamps[8 * 32 + 4] = Some(1454034069);
    stamps[3 * 32 + 12] = Some(1454033798);
    stamps[0] = Some(7);
    let out = ChunkIter::chunks_in_region(-1, 2, &stamps);
    assert_eq!(
        out,
        vec![(-32, 64, 7), (-20, 67, 1454033798), (-28, 72, 1454034069)]
    );
    for (x, z, _) in &out {
        assert_eq!(split(*x).1, -1);
        assert_eq!(split(*z).1, 2);
    }
}

#[test]
fn chunks_in_region_empty_table() {
    let stamps = vec![None; 1024];
    assert!(ChunkIter::chunks_in_region(0, 0, &stamps).is_empty());
}

#[test]
fn chunks_in_region_leaves_out_unaddressable() {
    let stamps = vec![Some(1); 1024];
    assert!(ChunkIter::chunks_in_region(i64::MAX, 0, &stamps).is_empty());
    let out = ChunkIter::chunks_in_region(0, 0, &stamps);
    assert_eq!(out.len(), 1024);
    assert_eq!(out[1023], (31, 31, 1));
}
