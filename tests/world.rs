use std::io::Write;

use flate2::write::GzEncoder;
use flate2::Compression;
use overviewer::world::{World, WorldError};

fn gzip(data: &[u8]) -> Vec<u8> {
    let mut e = GzEncoder::new(Vec::new(), Compression::default());
    e.write_all(data).unwrap();
    e.finish().unwrap()
}

fn names(list: &[&str]) -> Vec<String> {
    list.iter().map(|s| s.to_string()).collect()
}

#[test]
fn world_with_one_dimension() {
    let level = gzip(b"\x0a\x00\x00\x00");
    let subdirs = vec![
        ("w/data".to_string(), names(&["map_0.dat"])),
        (
            "w/region".to_string(),
            names(&[
                "r.-1.-1.mca",
                "r.-1.0.mca",
                "r.0.-1.mca",
                "r.0.0.mca",
                "r.1.0.mca",
                "r.0.1.mca",
            ]),
        ),
        ("w/playerdata".to_string(), vec![]),
    ];
    let world = World::new("w".to_string(), &level, subdirs).unwrap();
    assert_eq!(world.get_regionsets().len(), 1);
    let rset = world.get_regionset(0).unwrap();
    assert_eq!(rset.get_regions().len(), 6);
    assert_eq!(rset.get_dir(), "w/region");
    assert_eq!(world.get_level_dat(), &b"\x0a\x00\x00\x00".to_vec());
    assert_eq!(world.get_world_dir(), "w");
}

#[test]
fn dimension_found_by_extension_alone() {
    let level = gzip(b"x");
    let subdirs = vec![
        ("w/DIM1".to_string(), names(&["junk.mca"])),
        ("w/DIM-1".to_string(), names(&[".mca", "a.txt"])),
    ];
    let world = World::new("w".to_string(), &level, subdirs).unwrap();
    assert_eq!(world.get_regionsets().len(), 1);
    let rset = world.get_regionset(0).unwrap();
    assert_eq!(rset.get_type(), "DIM1");
    assert!(rset.get_regions().is_empty());
}

#[test]
fn bad_metadata_is_decode_error() {
    let r = World::new("w".to_string(), b"not gzip", vec![]);
    assert_eq!(r.err(), Some(WorldError::DecodeError));
}

#[test]
fn regionset_index_past_end() {
    let world = World::new("w".to_string(), &gzip(b""), vec![]).unwrap();
    assert!(world.get_regionsets().is_empty());
    assert_eq!(world.get_regionset(0).err(), Some(WorldError::IndexOutOfRange));
}
