//! One dimension of a world: a directory of region files, known by their
//! names alone until a chunk is asked for.

use vstd::prelude::*;
use vstd::string::StrSliceExecFns;
use crate::coords::{Coord, split, region_of, local_of, lemma_split_round_trip};
use crate::region_name::{parse_region_name, region_of_name};

verus! {

broadcast use vstd::seq_lib::group_seq_properties;

pub open spec fn is_region_name(n: Seq<char>) -> bool {
    region_of_name(n) is Some
}

/// The names of a directory listing that denote region files, in listing order.
pub open spec fn region_files_of(names: Seq<Seq<char>>) -> Seq<Seq<char>> {
    names.filter(|n: Seq<char>| is_region_name(n))
}

/// The region coordinates that a directory listing holds, in listing order.
pub open spec fn region_index_of(names: Seq<Seq<char>>) -> Seq<(i64, i64)> {
    region_files_of(names).map_values(|n: Seq<char>| region_of_name(n)->0)
}

/// The last `/`-separated part of a path.
pub open spec fn last_component(p: Seq<char>) -> Seq<char>
    decreases p.len(),
{
    if p.len() == 0 || p.last() == '/' {
        seq![]
    } else {
        last_component(p.drop_last()).push(p.last())
    }
}

/// A dimension directory and the existence index of its region files.
#[derive(Debug)]
pub struct Regionset {
    region_dir: String,
    regions: Vec<(i64, i64)>,
    region_files: Vec<String>,
}

/// Where a chunk would be stored: the region file and the slot in it.
#[derive(Debug)]
pub struct ChunkLocation {
    pub region_x: i64,
    pub region_z: i64,
    pub local_x: u8,
    pub local_z: u8,
    /// Name of the region file, relative to the dimension directory.
    pub file_name: String,
}

impl Regionset {
    pub closed spec fn dir(&self) -> Seq<char> {
        self.region_dir@
    }

    /// The existence index: coordinates of the region files, in listing order.
    pub closed spec fn regions(&self) -> Seq<(i64, i64)> {
        self.regions@
    }

    /// The names of the region files, in the order of `regions`.
    pub closed spec fn region_files(&self) -> Seq<Seq<char>> {
        self.region_files.deep_view()
    }

    pub open spec fn wf(&self) -> bool {
        &&& self.regions().len() == self.region_files().len()
        &&& forall|i: int|
            0 <= i < self.regions().len() ==> region_of_name(#[trigger] self.region_files()[i])
                == Some(self.regions()[i])
    }

    /// Builds the set for directory `region_dir` from the names of the
    /// entries it holds. Names that are not `r.<x>.<z>.mca` with two `i64`
    /// numerals are passed over.
    pub fn new(region_dir: String, names: Vec<String>) -> (r: Regionset)
        ensures
            r.wf(),
            r.dir() == region_dir@,
            r.region_files() == region_files_of(names.deep_view()),
            r.regions() == region_index_of(names.deep_view()),
    {
        let mut regions: Vec<(i64, i64)> = Vec::new();
        let mut region_files: Vec<String> = Vec::new();
        let ghost all = names.deep_view();
        let mut i: usize = 0;
        while i < names.len()
            invariant
                i <= names.len(),
                all == names.deep_view(),
                region_files.deep_view() == region_files_of(all.subrange(0, i as int)),
                regions@ == region_index_of(all.subrange(0, i as int)),
            decreases names.len() - i,
        {
            let name = &names[i];
            let parsed = parse_region_name(name.as_str());
            let ghost before = all.subrange(0, i as int);
            proof {
                assert(all.subrange(0, i + 1) =~= before.push(all[i as int]));
                before.lemma_filter_push(all[i as int], |n: Seq<char>| is_region_name(n));
                assert(all[i as int] == name@);
            }
            if let Some(coords) = parsed {
                regions.push(coords);
                region_files.push(name.clone());
            }
            assert(region_files.deep_view() =~= region_files_of(all.subrange(0, i + 1)));
            assert(regions@ =~= region_index_of(all.subrange(0, i + 1)));
            i = i + 1;
        }
        assert(all.subrange(0, i as int) =~= all);
        let r = Regionset { region_dir, regions, region_files };
        proof {
            let files = region_files_of(all);
            assert forall|k: int| 0 <= k < r.regions().len() implies region_of_name(
                #[trigger] r.region_files()[k],
            ) == Some(r.regions()[k]) by {
                assert(is_region_name(files[k]));
            }
        }
        r
    }

    /// The existence index: coordinates of the region files, in listing order.
    pub fn get_regions(&self) -> (r: &Vec<(i64, i64)>)
        ensures
            r@ == self.regions(),
    {
        &self.regions
    }

    /// The directory this set reads.
    pub fn get_dir(&self) -> (r: &String)
        ensures
            r@ == self.dir(),
    {
        &self.region_dir
    }

    /// Which dimension this set holds, told by the last part of its
    /// directory's path (`region`, `DIM-1`, ...).
    pub fn get_type(&self) -> (r: String)
        ensures
            r@ == last_component(self.dir()),
    {
        let p = self.region_dir.as_str();
        let len = p.unicode_len();
        let mut k: usize = len;
        while k > 0 && p.get_char(k - 1) != '/'
            invariant
                k <= len,
                len == p@.len(),
                forall|t: int| k <= t < len ==> p@[t] != '/',
            decreases k,
        {
            k = k - 1;
        }
        proof {
            lemma_last_component(p@, k as int);
        }
        p.substring_char(k, len).to_owned()
    }

    /// Where chunk `xz` would be stored, or `None` where its region is not
    /// in the existence index. The file name is the one that put the region
    /// into the index (the first such where several name it).
    pub fn locate(&self, xz: &Coord) -> (r: Option<ChunkLocation>)
        requires
            self.wf(),
        ensures
            r is Some <==> self.regions().contains(
                (region_of(xz.x as int) as i64, region_of(xz.z as int) as i64),
            ),
            r matches Some(l) ==> {
                &&& l.region_x == region_of(xz.x as int)
                &&& l.region_z == region_of(xz.z as int)
                &&& l.local_x == local_of(xz.x as int)
                &&& l.local_z == local_of(xz.z as int)
                &&& region_of_name(l.file_name@) == Some((l.region_x, l.region_z))
                &&& self.region_files().contains(l.file_name@)
            },
    {
        let (lx, rx) = split(xz.x);
        let (lz, rz) = split(xz.z);
        let mut i: usize = 0;
        while i < self.regions.len()
            invariant
                i <= self.regions@.len(),
                self.wf(),
                lx == local_of(xz.x as int) && 0 <= lx < 32 && rx == region_of(xz.x as int),
                lz == local_of(xz.z as int) && 0 <= lz < 32 && rz == region_of(xz.z as int),
                forall|t: int| 0 <= t < i ==> self.regions@[t] != (rx, rz),
            decreases self.regions@.len() - i,
        {
            let (x, z) = self.regions[i];
            if x == rx && z == rz {
                let file_name = self.region_files[i].clone();
                proof {
                    assert(self.region_files()[i as int] == self.region_files@[i as int]@);
                    assert(self.regions()[i as int] == (rx, rz));
                }
                return Some(
                    ChunkLocation { region_x: rx, region_z: rz, local_x: lx as u8, local_z: lz as u8, file_name },
                );
            }
            i = i + 1;
        }
        None
    }

    /// A fresh walk over the chunks of every region file in the index.
    pub fn get_chunks(&self) -> (r: ChunkIter)
        requires
            self.wf(),
        ensures
            r.wf(),
            r.regions() == self.regions(),
            r.region_files() == self.region_files(),
            r.position() == 0,
    {
        let mut regions: Vec<(i64, i64)> = Vec::new();
        let mut i: usize = 0;
        while i < self.regions.len()
            invariant
                i <= self.regions@.len(),
                regions@ == self.regions@.subrange(0, i as int),
            decreases self.regions@.len() - i,
        {
            regions.push(self.regions[i]);
            i = i + 1;
        }
        let region_files = self.region_files.clone();
        proof {
            assert(regions@ =~= self.regions@);
            assert(region_files.deep_view() =~= self.region_files.deep_view());
        }
        ChunkIter { regions, region_files, next: 0 }
    }
}

/// Number of slots in a region file, one for each of its 32 x 32 chunks.
pub const REGION_SLOTS: usize = 1024;

pub open spec fn fits_i64(v: int) -> bool {
    i64::MIN <= v <= i64::MAX
}

/// The chunk coordinate of slot `local` of region `region`, on one axis.
pub open spec fn chunk_coord_of(region: int, local: int) -> int {
    region * 32 + local
}

/// The populated slots among the first `k` of a region's slot table, as
/// `(x, z, mtime)` in chunk coordinates. Slot `s` holds the chunk at local
/// `(s % 32, s / 32)`. A chunk whose coordinates leave the `i64` range
/// cannot be asked for and is left out.
pub open spec fn region_chunks(rx: i64, rz: i64, stamps: Seq<Option<u32>>, k: int) -> Seq<
    (i64, i64, u32),
>
    decreases k,
{
    if k <= 0 {
        seq![]
    } else {
        let p = region_chunks(rx, rz, stamps, k - 1);
        let s = k - 1;
        let cx = chunk_coord_of(rx as int, s % 32);
        let cz = chunk_coord_of(rz as int, s / 32);
        if stamps[s] is Some && fits_i64(cx) && fits_i64(cz) {
            p.push((cx as i64, cz as i64, stamps[s]->0))
        } else {
            p
        }
    }
}

/// The slot of a region's table that a chunk coordinate falls in.
pub open spec fn slot_of(x: int, z: int) -> int {
    local_of(z) * 32 + local_of(x)
}

/// Walks the region files of a set, one at a time.
pub struct ChunkIter {
    regions: Vec<(i64, i64)>,
    region_files: Vec<String>,
    next: usize,
}

/// `chunk_coord_of(region, local)`, where it fits in an `i64`.
fn chunk_coord(region: i64, local: i64) -> (r: Option<i64>)
    requires
        0 <= local < 32,
    ensures
        r == (if fits_i64(chunk_coord_of(region as int, local as int)) {
            Some(chunk_coord_of(region as int, local as int) as i64)
        } else {
            None
        }),
{
    match region.checked_mul(32) {
        Some(base) => base.checked_add(local),
        None => {
            assert(!fits_i64(region * 32 + local)) by (nonlinear_arith)
                requires
                    region * 32 > i64::MAX || region * 32 < i64::MIN,
                    0 <= local < 32,
                    i64::MIN == -0x8000_0000_0000_0000,
            ;
            None
        },
    }
}

impl ChunkIter {
    pub closed spec fn regions(&self) -> Seq<(i64, i64)> {
        self.regions@
    }

    pub closed spec fn region_files(&self) -> Seq<Seq<char>> {
        self.region_files.deep_view()
    }

    /// How many region files were handed out so far.
    pub closed spec fn position(&self) -> int {
        self.next as int
    }

    pub open spec fn wf(&self) -> bool {
        &&& self.regions().len() == self.region_files().len()
        &&& 0 <= self.position() <= self.regions().len()
    }

    /// The next region file to read, as its coordinates and its name, or
    /// `None` once every file was handed out.
    pub fn next_region(&mut self) -> (r: Option<(i64, i64, String)>)
        requires
            old(self).wf(),
        ensures
            final(self).wf(),
            final(self).regions() == old(self).regions(),
            final(self).region_files() == old(self).region_files(),
            old(self).position() < old(self).regions().len() ==> {
                &&& final(self).position() == old(self).position() + 1
                &&& r matches Some(t) && t.0 == old(self).regions()[old(self).position()].0
                    && t.1 == old(self).regions()[old(self).position()].1 && t.2@ == old(
                    self,
                ).region_files()[old(self).position()]
            },
            old(self).position() == old(self).regions().len() ==> r is None && final(self).position()
                == old(self).position(),
    {
        if self.next < self.regions.len() {
            let (x, z) = self.regions[self.next];
            let name = self.region_files[self.next].clone();
            proof {
                assert(self.region_files()[self.next as int] == self.region_files@[self.next as int]@);
            }
            self.next = self.next + 1;
            Some((x, z, name))
        } else {
            None
        }
    }

    /// The chunks that region `(region_x, region_z)` holds, given its slot
    /// table of modification times (`None` for an empty slot), as
    /// `(x, z, mtime)` in chunk coordinates, in slot order.
    pub fn chunks_in_region(region_x: i64, region_z: i64, stamps: &Vec<Option<u32>>) -> (r: Vec<
        (i64, i64, u32),
    >)
        requires
            stamps@.len() == REGION_SLOTS,
        ensures
            r@ == region_chunks(region_x, region_z, stamps@, REGION_SLOTS as int),
    {
        let mut out: Vec<(i64, i64, u32)> = Vec::new();
        let mut k: usize = 0;
        while k < REGION_SLOTS
            invariant
                k <= REGION_SLOTS,
                stamps@.len() == REGION_SLOTS,
                out@ == region_chunks(region_x, region_z, stamps@, k as int),
            decreases REGION_SLOTS - k,
        {
            if let Some(t) = stamps[k] {
                let cx = chunk_coord(region_x, (k % 32) as i64);
                let cz = chunk_coord(region_z, (k / 32) as i64);
                if let (Some(x), Some(z)) = (cx, cz) {
                    out.push((x, z, t));
                }
            }
            k = k + 1;
        }
        out
    }
}

proof fn lemma_region_chunks_slots(rx: i64, rz: i64, stamps: Seq<Option<u32>>, k: int)
    requires
        0 <= k <= stamps.len() == REGION_SLOTS,
    ensures
        ({
            let out = region_chunks(rx, rz, stamps, k);
            &&& forall|i: int|
                #![trigger out[i]]
                0 <= i < out.len() ==> {
                    &&& region_of(out[i].0 as int) == rx
                    &&& region_of(out[i].1 as int) == rz
                    &&& 0 <= slot_of(out[i].0 as int, out[i].1 as int) < k
                    &&& stamps[slot_of(out[i].0 as int, out[i].1 as int)] == Some(out[i].2)
                }
            &&& forall|i: int, j: int|
                #![trigger out[i], out[j]]
                0 <= i < j < out.len() ==> slot_of(out[i].0 as int, out[i].1 as int) < slot_of(
                    out[j].0 as int,
                    out[j].1 as int,
                )
            &&& forall|s: int|
                0 <= s < k && #[trigger] stamps[s] is Some && fits_i64(
                    chunk_coord_of(rx as int, s % 32),
                ) && fits_i64(chunk_coord_of(rz as int, s / 32)) ==> out.contains(
                    (
                        chunk_coord_of(rx as int, s % 32) as i64,
                        chunk_coord_of(rz as int, s / 32) as i64,
                        stamps[s]->0,
                    ),
                )
        }),
    decreases k,
{
    if k > 0 {
        lemma_region_chunks_slots(rx, rz, stamps, k - 1);
        let s = k - 1;
        let cx = chunk_coord_of(rx as int, s % 32);
        let cz = chunk_coord_of(rz as int, s / 32);
        vstd::arithmetic::div_mod::lemma_fundamental_div_mod(s, 32);
        lemma_split_round_trip(cx, rx as int, s % 32);
        lemma_split_round_trip(cz, rz as int, s / 32);
        assert(slot_of(cx, cz) == s);
    }
}

/// A region's chunks come out once each: every populated slot whose
/// coordinates fit in an `i64` is among them, each one split back into that
/// region and into a populated slot holding its time, and no two share a
/// coordinate.
pub proof fn lemma_region_chunks_once(rx: i64, rz: i64, stamps: Seq<Option<u32>>)
    requires
        stamps.len() == REGION_SLOTS,
    ensures
        ({
            let out = region_chunks(rx, rz, stamps, REGION_SLOTS as int);
            &&& forall|i: int|
                #![trigger out[i]]
                0 <= i < out.len() ==> {
                    &&& region_of(out[i].0 as int) == rx
                    &&& region_of(out[i].1 as int) == rz
                    &&& stamps[slot_of(out[i].0 as int, out[i].1 as int)] == Some(out[i].2)
                }
            &&& forall|i: int, j: int|
                0 <= i < j < out.len() ==> (#[trigger] out[i].0, out[i].1) != (
                    #[trigger] out[j].0,
                    out[j].1,
                )
            &&& forall|s: int|
                0 <= s < REGION_SLOTS && #[trigger] stamps[s] is Some && fits_i64(
                    chunk_coord_of(rx as int, s % 32),
                ) && fits_i64(chunk_coord_of(rz as int, s / 32)) ==> out.contains(
                    (
                        chunk_coord_of(rx as int, s % 32) as i64,
                        chunk_coord_of(rz as int, s / 32) as i64,
                        stamps[s]->0,
                    ),
                )
        }),
{
    lemma_region_chunks_slots(rx, rz, stamps, REGION_SLOTS as int);
    let out = region_chunks(rx, rz, stamps, REGION_SLOTS as int);
    assert forall|i: int, j: int| 0 <= i < j < out.len() implies (#[trigger] out[i].0, out[i].1)
        != (#[trigger] out[j].0, out[j].1) by {
        assert(slot_of(out[i].0 as int, out[i].1 as int) < slot_of(out[j].0 as int, out[j].1 as int));
    }
}

proof fn lemma_last_component(p: Seq<char>, k: int)
    requires
        0 <= k <= p.len(),
        forall|t: int| k <= t < p.len() ==> p[t] != '/',
        k > 0 ==> p[k - 1] == '/',
    ensures
        last_component(p) == p.subrange(k, p.len() as int),
    decreases p.len() - k,
{
    if p.len() > k {
        lemma_last_component(p.drop_last(), k);
        assert(p.subrange(k, p.len() as int) =~= p.drop_last().subrange(k, p.len() - 1).push(p.last()));
    } else {
        assert(p.subrange(k, p.len() as int) =~= Seq::<char>::empty());
    }
}

/// A set built from a directory listing holds one index entry for each name in
/// it that denotes a region file, whatever other names the listing holds.
pub proof fn lemma_index_counts_region_names(names: Seq<Seq<char>>)
    ensures
        region_index_of(names).len() == names.filter(|n: Seq<char>| is_region_name(n)).len(),
        forall|i: int| 0 <= i < names.len() && is_region_name(names[i]) ==> region_index_of(names).contains(region_of_name(#[trigger] names[i])->0),
{
    let files = region_files_of(names);
    assert forall|i: int| 0 <= i < names.len() && is_region_name(names[i]) implies region_index_of(names).contains(region_of_name(#[trigger] names[i])->0) by {
        names.lemma_filter_contains(|n: Seq<char>| is_region_name(n), i);
        let j = choose|j: int| 0 <= j < files.len() && files[j] == names[i];
        assert(region_index_of(names)[j] == region_of_name(names[i])->0);
    }
}

/// Every chunk that the walk of a set yields for one of its region files
/// lies in a region of the set's index, so `locate` finds it, at the slot
/// whose time it carries.
pub proof fn lemma_walked_chunks_are_located(
    rset: Regionset,
    k: int,
    stamps: Seq<Option<u32>>,
    i: int,
)
    requires
        rset.wf(),
        0 <= k < rset.regions().len(),
        stamps.len() == REGION_SLOTS,
        0 <= i < region_chunks(rset.regions()[k].0, rset.regions()[k].1, stamps, REGION_SLOTS as int).len(),
    ensures
        ({
            let c = region_chunks(rset.regions()[k].0, rset.regions()[k].1, stamps, REGION_SLOTS as int)[i];
            &&& rset.regions().contains(
                (region_of(c.0 as int) as i64, region_of(c.1 as int) as i64),
            )
            &&& stamps[slot_of(c.0 as int, c.1 as int)] == Some(c.2)
        }),
{
    let (rx, rz) = rset.regions()[k];
    lemma_region_chunks_once(rx, rz, stamps);
    let c = region_chunks(rx, rz, stamps, REGION_SLOTS as int)[i];
    assert((region_of(c.0 as int) as i64, region_of(c.1 as int) as i64) == rset.regions()[k]);
}

} // verus!
