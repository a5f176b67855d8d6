//! A saved world: its metadata file and the dimensions found under its
//! directory.

use vstd::prelude::*;
use vstd::string::StrSliceExecFns;
use std::io::Read;
use crate::regionset::{Regionset, region_index_of};

verus! {

/// What a gzip stream decompresses to; `None` where it is not a valid one.
pub uninterp spec fn gunzip_of(data: Seq<u8>) -> Option<Seq<u8>>;

/// Relies on `flate2::read::GzDecoder` read to its end: it yields the bytes
/// that the gzip stream `data` holds, or an error where `data` is not one.
#[verifier::external_body]
fn gunzip(data: &[u8]) -> (r: Option<Vec<u8>>)
    ensures
        r is Some <==> gunzip_of(data@) is Some,
        r matches Some(v) ==> gunzip_of(data@) == Some(v@),
{
    let mut out = Vec::new();
    match flate2::read::GzDecoder::new(data).read_to_end(&mut out) {
        Ok(_) => Some(out),
        Err(_) => None,
    }
}

/// Why a world or a part of it could not be had.
#[derive(Clone, Copy, Debug, PartialEq, Eq)]
pub enum WorldError {
    /// A path that must exist does not.
    NotFound,
    /// Listing a directory or reading a file failed.
    IoError,
    /// The metadata file is not a valid compressed tag document.
    DecodeError,
    /// No dimension has the index asked for.
    IndexOutOfRange,
}

/// The name has the region-file extension: a non-empty stem, then `.mca`.
pub open spec fn has_region_extension(n: Seq<char>) -> bool {
    n.len() > 4 && n.subrange(n.len() - 4, n.len() as int) == seq!['.', 'm', 'c', 'a']
}

/// A directory holding an entry with the region-file extension is a dimension.
pub open spec fn is_dimension(names: Seq<Seq<char>>) -> bool {
    exists|i: int| 0 <= i < names.len() && has_region_extension(#[trigger] names[i])
}

/// The dimensions among the listed subdirectories `(path, entry names)`, in
/// listing order, each as its path and its existence index.
pub open spec fn dimensions_of(subdirs: Seq<(Seq<char>, Seq<Seq<char>>)>) -> Seq<
    (Seq<char>, Seq<(i64, i64)>),
> {
    subdirs.filter(|d: (Seq<char>, Seq<Seq<char>>)| is_dimension(d.1)).map_values(
        |d: (Seq<char>, Seq<Seq<char>>)| (d.0, region_index_of(d.1)),
    )
}

fn has_region_extension_exec(n: &str) -> (r: bool)
    ensures
        r == has_region_extension(n@),
{
    let len = n.unicode_len();
    if len <= 4 {
        return false;
    }
    let r = n.get_char(len - 4) == '.' && n.get_char(len - 3) == 'm' && n.get_char(len - 2) == 'c'
        && n.get_char(len - 1) == 'a';
    let ghost tail = n@.subrange(len - 4, len as int);
    assert(tail[0] == n@[len - 4] && tail[1] == n@[len - 3] && tail[2] == n@[len - 2] && tail[3]
        == n@[len - 1]);
    if r {
        assert(tail =~= seq!['.', 'm', 'c', 'a']);
    }
    r
}

fn holds_region_file(names: &Vec<String>) -> (r: bool)
    ensures
        r == is_dimension(names.deep_view()),
{
    let mut i: usize = 0;
    while i < names.len()
        invariant
            i <= names@.len(),
            forall|t: int| 0 <= t < i ==> !has_region_extension(#[trigger] names.deep_view()[t]),
        decreases names@.len() - i,
    {
        assert(names.deep_view()[i as int] == names@[i as int]@);
        if has_region_extension_exec(names[i].as_str()) {
            return true;
        }
        i = i + 1;
    }
    false
}

/// A world: its directory, its dimensions, and its decompressed metadata.
pub struct World {
    world_dir: String,
    regionsets: Vec<Regionset>,
    level_dat: Vec<u8>,
}

impl World {
    pub closed spec fn dir(&self) -> Seq<char> {
        self.world_dir@
    }

    /// The decompressed metadata document.
    pub closed spec fn level_dat(&self) -> Seq<u8> {
        self.level_dat@
    }

    pub closed spec fn regionsets(&self) -> Seq<Regionset> {
        self.regionsets@
    }

    /// Each dimension as its path and its existence index.
    pub open spec fn dimensions(&self) -> Seq<(Seq<char>, Seq<(i64, i64)>)> {
        self.regionsets().map_values(|r: Regionset| (r.dir(), r.regions()))
    }

    pub open spec fn wf(&self) -> bool {
        forall|i: int| 0 <= i < self.regionsets().len() ==> (#[trigger] self.regionsets()[i]).wf()
    }

    /// Builds the world of directory `world_dir` from the bytes of its
    /// gzip-compressed metadata file and from a listing of its
    /// subdirectories, each as its path and the names of its entries. Those
    /// that hold a name with the region-file extension become dimensions.
    pub fn new(world_dir: String, level_dat: &[u8], subdirs: Vec<(String, Vec<String>)>) -> (r:
        Result<World, WorldError>)
        ensures
            r is Err <==> gunzip_of(level_dat@) is None,
            r matches Err(e) ==> e == WorldError::DecodeError,
            r matches Ok(w) ==> {
                &&& w.wf()
                &&& w.dir() == world_dir@
                &&& Some(w.level_dat()) == gunzip_of(level_dat@)
                &&& w.dimensions() == dimensions_of(subdirs.deep_view())
            },
    {
        let data = match gunzip(level_dat) {
            Some(v) => v,
            None => {
                return Err(WorldError::DecodeError);
            },
        };
        let ghost all = subdirs.deep_view();
        let ghost pred = |d: (Seq<char>, Seq<Seq<char>>)| is_dimension(d.1);
        let ghost rview = |r: Regionset| (r.dir(), r.regions());
        let ghost view_of = |d: (Seq<char>, Seq<Seq<char>>)| (d.0, region_index_of(d.1));
        let mut regionsets: Vec<Regionset> = Vec::new();
        let mut i: usize = 0;
        while i < subdirs.len()
            invariant
                i <= subdirs@.len(),
                all == subdirs.deep_view(),
                pred == (|d: (Seq<char>, Seq<Seq<char>>)| is_dimension(d.1)),
                view_of == (|d: (Seq<char>, Seq<Seq<char>>)| (d.0, region_index_of(d.1))),
                forall|t: int| 0 <= t < regionsets@.len() ==> (#[trigger] regionsets@[t]).wf(),
                rview == (|r: Regionset| (r.dir(), r.regions())),
                regionsets@.map_values(rview) == all.subrange(
                    0,
                    i as int,
                ).filter(pred).map_values(view_of),
            decreases subdirs@.len() - i,
        {
            let ghost before = all.subrange(0, i as int);
            let ghost old_sets = regionsets@;
            proof {
                assert(all.subrange(0, i + 1) =~= before.push(all[i as int]));
                before.lemma_filter_push(all[i as int], pred);
                assert(all[i as int] == (subdirs@[i as int].0@, subdirs@[i as int].1.deep_view()));
            }
            let entry = &subdirs[i];
            if holds_region_file(&entry.1) {
                let names = entry.1.clone();
                proof {
                    broadcast use vstd::std_specs::vec::vec_clone_deep_view_proof;
                    assert(names.deep_view() =~= entry.1.deep_view());
                }
                let rs = Regionset::new(entry.0.clone(), names);
                assert(pred(all[i as int]));
                assert(view_of(all[i as int]) == (rs.dir(), rs.regions()));
                regionsets.push(rs);
                assert(regionsets@ =~= old_sets.push(rs));
                assert(before.push(all[i as int]).filter(pred) == before.filter(pred).push(all[i as int]));
                assert(regionsets@.map_values(rview) =~= old_sets.map_values(rview).push(rview(rs)));
                assert(before.filter(pred).push(all[i as int]).map_values(view_of) =~= before.filter(
                    pred,
                ).map_values(view_of).push(view_of(all[i as int])));
                assert(regionsets@.map_values(rview) =~= all.subrange(
                    0,
                    i + 1,
                ).filter(pred).map_values(view_of));
            } else {
                assert(all.subrange(0, i + 1).filter(pred) == before.filter(pred));
            }
            i = i + 1;
        }
        assert(all.subrange(0, i as int) =~= all);
        Ok(World { world_dir, regionsets, level_dat: data })
    }

    /// The dimensions found, in listing order.
    pub fn get_regionsets(&self) -> (r: &Vec<Regionset>)
        ensures
            r@ == self.regionsets(),
    {
        &self.regionsets
    }

    /// The dimension at `idx`, or `IndexOutOfRange` past the last one.
    pub fn get_regionset(&self, idx: usize) -> (r: Result<&Regionset, WorldError>)
        ensures
            idx < self.regionsets().len() ==> r == Ok::<&Regionset, WorldError>(
                &self.regionsets()[idx as int],
            ),
            idx >= self.regionsets().len() ==> r == Err::<&Regionset, WorldError>(
                WorldError::IndexOutOfRange,
            ),
    {
        if idx < self.regionsets.len() {
            Ok(&self.regionsets[idx])
        } else {
            Err(WorldError::IndexOutOfRange)
        }
    }

    /// The decompressed metadata document.
    pub fn get_level_dat(&self) -> (r: &Vec<u8>)
        ensures
            r@ == self.level_dat(),
    {
        &self.level_dat
    }

    pub fn get_world_dir(&self) -> (r: &String)
        ensures
            r@ == self.dir(),
    {
        &self.world_dir
    }
}

} // verus!
