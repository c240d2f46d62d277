//! Operations on paths: finding the entry that a path names, and creating,
//! removing and renaming files and directories.

use vstd::prelude::*;
use crate::allocator::free_chain;
use crate::bytes::{overlay, zeros};
use crate::dir::{find_from, lookup, write_slot, write_slots, MAX_SLOTS, Found, Probe, Scan};
use crate::dirent::{
    make_short_slot, short_fields, slot_first_cluster, slot_size, slot_written, ATTR_ARCHIVE,
    ATTR_DIRECTORY, Stamp,
};
use crate::dirops::{
    add_entry, add_refusal, added, body_changed, is_dir_empty, lemma_body_twice, lemma_data_in_body,
    lemma_tables_in_body, remove_entry,
};
use crate::diskio::{flat, Drive, FatfsDiskHandler};
use crate::error::FsError;
use crate::fat::{same_volume, Volume};
use crate::file::File;
use crate::name::{check_name, name_ok};
use crate::path::{marks_dir, name_views, path_names, resolve_dir, resolve_upto, split_path};
use crate::volume::Geometry;

verus! {

/// Where the last name of a path is to be looked for.
pub struct Place {
    /// The directory that the names before the last lead to.
    pub dir: u32,
    /// The last name of the path.
    pub name: Vec<u16>,
}

/// What `locate` answers on a dependable drive: `None` for a path without
/// names, which names the root directory; else the directory that the
/// names before the last lead to, and the last name. `InvalidParameter`
/// where the last name is not acceptable as the name of an entry.
pub open spec fn place_of(g: Geometry, disk: Seq<Seq<u8>>, path: Seq<u16>) -> Result<
    Option<(u32, Seq<u16>)>,
    FsError,
> {
    let names = path_names(path);
    if names.len() == 0 {
        Ok(None)
    } else if !name_ok(names[names.len() - 1]) {
        Err(FsError::InvalidParameter)
    } else {
        match resolve_upto(g, disk, names, (names.len() - 1) as nat) {
            Ok(dir) => Ok(Some((dir, names[names.len() - 1]))),
            Err(e) => Err(e),
        }
    }
}

/// Finds the directory in which the last name of `path` is to be looked
/// for.
///
/// The drive is left as it is. On a drive that is not dependable the
/// answer may instead be the error of a failed read.
pub fn locate<H: FatfsDiskHandler>(vol: &Volume, dev: &mut H, path: &Vec<u16>) -> (res: Result<
    Option<Place>,
    FsError,
>)
    requires
        old(dev).inv(),
        vol.on(old(dev).drive(vol.pdrv)),
    ensures
        final(dev).inv(),
        final(dev).drive(vol.pdrv) == old(dev).drive(vol.pdrv),
        (match place_of(vol.geom, old(dev).drive(vol.pdrv).sectors, path@) {
            Ok(Some((dir, name))) => res matches Ok(Some(p)) && p.dir == dir && p.name@ == name,
            Ok(None) => res matches Ok(None),
            Err(e) => res matches Err(x) && x == e,
        }) || (!old(dev).drive(vol.pdrv).dependable && res is Err && res->Err_0.is_device()),
        res matches Ok(Some(p)) ==> name_ok(p.name@),
{
    let mut names = split_path(path);
    let n = names.len();
    if n == 0 {
        return Ok(None);
    }
    if !check_name(&names[n - 1]) {
        return Err(FsError::InvalidParameter);
    }
    let ghost all = name_views(names@);
    match resolve_dir(vol, dev, &names, n - 1) {
        Err(e) => Err(e),
        Ok(dir) => {
            let name = names.pop().unwrap();
            assert(name@ == all[n - 1]);
            Ok(Some(Place { dir, name }))
        },
    }
}

/// What a path names on a drive.
pub enum Named {
    /// The root directory.
    Root,
    /// The entry whose short entry stands in slot `index` of directory
    /// `dir`.
    Entry { dir: u32, index: int },
    /// No entry, in directory `dir`, which exists.
    Missing { dir: u32, name: Seq<u16> },
}

/// What `path` names on `disk`: `NotFound` where a name before the last
/// names nothing, `NotADirectory` where it names a file, `InvalidParameter`
/// where the last name is not acceptable, `CorruptVolume` where the chain
/// of a directory leaves the data region.
pub open spec fn named(g: Geometry, disk: Seq<Seq<u8>>, path: Seq<u16>) -> Result<Named, FsError> {
    match place_of(g, disk, path) {
        Ok(Some((dir, name))) => match find_from(g.slots(disk, dir), name, 0) {
            Scan::At(j) => Ok(Named::Entry { dir, index: j }),
            Scan::Nothing => Ok(Named::Missing { dir, name }),
            Scan::Broken => Err(FsError::CorruptVolume),
        },
        Ok(None) => Ok(Named::Root),
        Err(e) => Err(e),
    }
}

/// A path that names nothing fails with `NotFound`, `NotADirectory`,
/// `InvalidParameter` or `CorruptVolume`.
pub proof fn lemma_named_errors(g: Geometry, disk: Seq<Seq<u8>>, path: Seq<u16>)
    requires
        named(g, disk, path) is Err,
    ensures
        named(g, disk, path)->Err_0 == FsError::NotFound || named(g, disk, path)->Err_0
            == FsError::NotADirectory || named(g, disk, path)->Err_0 == FsError::InvalidParameter
            || named(g, disk, path)->Err_0 == FsError::CorruptVolume,
{
    let names = path_names(path);
    if names.len() > 0 && name_ok(names[names.len() - 1]) {
        if resolve_upto(g, disk, names, (names.len() - 1) as nat) is Err {
            crate::path::lemma_resolve_errors(g, disk, names, (names.len() - 1) as nat);
        }
    }
}

/// `res` is the answer that stands for what a path names.
pub open spec fn answers_named(
    g: Geometry,
    disk: Seq<Seq<u8>>,
    what: Result<Named, FsError>,
    res: Result<Target, FsError>,
) -> bool {
    match what {
        Ok(Named::Root) => res matches Ok(Target::Root),
        Ok(Named::Entry { dir, index }) => res matches Ok(Target::Entry { dir: d, found }) && d
            == dir && found.index == index && found.is_at(g.slots(disk, dir)),
        Ok(Named::Missing { dir, name }) => res matches Ok(Target::Missing { dir: d, name: n })
            && d == dir && n@ == name && name_ok(name),
        Err(e) => res matches Err(x) && x == e,
    }
}

/// What a path names, as far as opening it is concerned.
pub enum Target {
    /// The root directory.
    Root,
    /// An entry that exists.
    Entry { dir: u32, found: Found },
    /// No entry, in a directory that exists.
    Missing { dir: u32, name: Vec<u16> },
}

/// Finds what `path` names.
///
/// The drive is left as it is. `NotFound` is answered where a name before
/// the last names nothing, `NotADirectory` where it names a file,
/// `InvalidParameter` where the last name is not acceptable. On a drive
/// that is not dependable the answer may instead be the error of a failed
/// read.
pub fn find_target<H: FatfsDiskHandler>(vol: &Volume, dev: &mut H, path: &Vec<u16>) -> (res: Result<
    Target,
    FsError,
>)
    requires
        old(dev).inv(),
        vol.on(old(dev).drive(vol.pdrv)),
    ensures
        final(dev).inv(),
        final(dev).drive(vol.pdrv) == old(dev).drive(vol.pdrv),
        answers_named(
            vol.geom,
            old(dev).drive(vol.pdrv).sectors,
            named(vol.geom, old(dev).drive(vol.pdrv).sectors, path@),
            res,
        ) || (!old(dev).drive(vol.pdrv).dependable && res is Err && res->Err_0.is_device()),
        res matches Ok(Target::Missing { dir, name }) ==> name_ok(name@),
        res matches Err(e) ==> e != FsError::AlreadyExists && e != FsError::DirectoryNotEmpty && e
            != FsError::DirectoryFull && e != FsError::DiskFull,
{
    proof {
        let what = named(vol.geom, old(dev).drive(vol.pdrv).sectors, path@);
        if what is Err {
            lemma_named_errors(vol.geom, old(dev).drive(vol.pdrv).sectors, path@);
        }
    }
    match locate(vol, dev, path) {
        Err(e) => Err(e),
        Ok(None) => Ok(Target::Root),
        Ok(Some(place)) => {
            match lookup(vol, dev, place.dir, &place.name) {
                Err(e) => Err(e),
                Ok(Some(found)) => Ok(Target::Entry { dir: place.dir, found }),
                Ok(None) => Ok(Target::Missing { dir: place.dir, name: place.name }),
            }
        },
    }
}

/// The open file for an entry that was found.
pub(crate) fn file_of(dir: u32, found: &Found, writable: bool) -> (f: File)
    requires
        found.slot.len() == 32,
    ensures
        f == (File {
            dir,
            index: found.index,
            first_cluster: short_fields(found.slot@).first_cluster,
            size: short_fields(found.slot@).size,
            pos: 0,
            writable,
            dirty: false,
        }),
{
    File {
        dir,
        index: found.index,
        first_cluster: slot_first_cluster(&found.slot),
        size: slot_size(&found.slot),
        pos: 0,
        writable,
        dirty: false,
    }
}

/// Creates an empty file named `name` in directory `dir`, and gives the
/// open file.
///
/// What `add_entry` says of refusals and of what is written holds here:
/// see `added` and `add_failed`.
pub fn create_file<H: FatfsDiskHandler>(
    vol: &mut Volume,
    dev: &mut H,
    dir: u32,
    name: &Vec<u16>,
    stamp: Stamp,
) -> (res: Result<File, FsError>)
    requires
        old(dev).inv(),
        old(vol).on(old(dev).drive(old(vol).pdrv)),
    ensures
        final(dev).inv(),
        same_volume(*old(vol), *final(vol)),
        final(vol).on(final(dev).drive(old(vol).pdrv)),
        body_changed(old(vol).geom, old(dev).drive(old(vol).pdrv), final(dev).drive(old(vol).pdrv)),
        add_refusal(*old(vol), name@, ATTR_ARCHIVE) matches Some(e) ==> res matches Err(x) && x == e
            && final(dev).drive(old(vol).pdrv) == old(dev).drive(old(vol).pdrv),
        match res {
            Ok(f) => {
                &&& f == (File {
                    dir,
                    index: f.index,
                    first_cluster: 0,
                    size: 0,
                    pos: 0,
                    writable: true,
                    dirty: false,
                })
                &&& f.index < MAX_SLOTS
                &&& old(vol).geom.slot(
                    final(dev).drive(old(vol).pdrv).sectors,
                    dir,
                    f.index as int,
                ) matches Some(s) && short_fields(s).first_cluster == 0 && short_fields(s).size
                    == 0 && short_fields(s).attr == ATTR_ARCHIVE && crate::dir::is_entry(s)
                &&& exists|fragments: int, short: Seq<u8>| #[trigger]
                    crate::dirops::added(
                        *old(vol),
                        old(dev).drive(old(vol).pdrv),
                        final(dev).drive(old(vol).pdrv),
                        dir,
                        name@,
                        ATTR_ARCHIVE,
                        0,
                        0,
                        stamp,
                        f.index as int,
                        fragments,
                        short,
                    )
            },
            Err(e) => crate::dirops::add_failed(
                *old(vol),
                old(dev).drive(old(vol).pdrv),
                final(dev).drive(old(vol).pdrv),
                dir,
                name@,
                ATTR_ARCHIVE,
                e,
            ) || (!old(dev).drive(old(vol).pdrv).dependable && e.is_device()),
        },
{
    match add_entry(vol, dev, dir, name, ATTR_ARCHIVE, 0, 0, stamp) {
        Err(e) => Err(e),
        Ok(added) => {
            proof {
                let g = old(vol).geom;
                let disk = dev.drive(old(vol).pdrv).sectors;
                assert(g.probe(disk, dir, added.index - added.fragments + added.fragments)
                    == Probe::Holds(
                    crate::dirops::entry_slot(
                        name@,
                        added.short@,
                        added.fragments as int,
                        added.fragments as int,
                        ATTR_ARCHIVE,
                        0,
                        0,
                        stamp,
                    ),
                ));
                crate::name::lemma_short_first(name@, 1);
                let n = added.short@;
                assert(n.len() == 11) by {
                    if crate::name::naming_of(name@) is LongTailed {
                        let k = choose|k: nat|
                            1 <= k <= crate::name::MAX_TAIL && n == #[trigger] crate::name::with_tail(
                                crate::name::short_basis(name@),
                                crate::name::stem_len(name@),
                                k,
                            );
                        crate::name::lemma_short_first(name@, k);
                    }
                }
                crate::dirent::lemma_short_slot_fields(n, ATTR_ARCHIVE, 0, 0, stamp);
            }
            Ok(
                File {
                    dir,
                    index: added.index,
                    first_cluster: 0,
                    size: 0,
                    pos: 0,
                    writable: true,
                    dirty: false,
                },
            )
        },
    }
}

/// The short name of the entry `.`, or of the entry `..`.
pub open spec fn dot_name(dots: int) -> Seq<u8> {
    Seq::new(
        11,
        |i: int|
            if i < dots {
                0x2Eu8
            } else {
                0x20u8
            },
    )
}

/// Builds the short name of the entry `.`, or of the entry `..`.
fn make_dot_name(dots: usize) -> (name: Vec<u8>)
    requires
        1 <= dots <= 2,
    ensures
        name@ == dot_name(dots as int),
        name.len() == 11,
{
    let mut name: Vec<u8> = Vec::new();
    let mut i: usize = 0;
    while i < 11
        invariant
            i <= 11,
            name.len() == i,
            forall|k: int|
                0 <= k < i ==> #[trigger] name@[k] == if k < dots {
                    0x2Eu8
                } else {
                    0x20u8
                },
        decreases 11 - i,
    {
        if i < dots {
            name.push(0x2E);
        } else {
            name.push(0x20);
        }
        i += 1;
    }
    assert(name@ =~= dot_name(dots as int));
    name
}

/// The bytes of the only cluster of a new directory: the entries `.` and
/// `..`, and zero bytes behind them. `c` is the cluster, `parent` the
/// directory that holds the new one.
pub open spec fn first_dir_cluster(g: Geometry, c: u32, parent: u32, stamp: Stamp) -> Seq<u8> {
    overlay(
        overlay(
            zeros(g.cluster_bytes() as nat),
            0,
            crate::dirent::short_slot(dot_name(1), ATTR_DIRECTORY, c, 0, stamp),
        ),
        32,
        crate::dirent::short_slot(dot_name(2), ATTR_DIRECTORY, parent, 0, stamp),
    )
}

/// The drive `after` is `before` with cluster `c`, which was free, made
/// the only cluster of a new directory in `parent`: its entry marks the
/// end of a chain, it holds the entries `.` and `..` and zero bytes behind
/// them, and nothing else has changed.
pub open spec fn prepared(g: Geometry, before: Drive, after: Drive, c: int, parent: u32, stamp: Stamp) -> bool {
    &&& g.holds(c)
    &&& g.table(before.sectors)[c] == 0
    &&& crate::fat::is_end(g.fat_type, g.table(after.sectors)[c] as int)
    &&& forall|n: int|
        0 <= n < g.entries() && n != c ==> #[trigger] g.table(after.sectors)[n] == g.table(
            before.sectors,
        )[n]
    &&& flat(after.sectors, g.first_sector(c), g.sectors_per_cluster as int) == first_dir_cluster(
        g,
        c as u32,
        parent,
        stamp,
    )
    &&& before.same_but(
        after,
        |i: int|
            g.in_tables(i) || g.first_sector(c) <= i < g.first_sector(c) + g.sectors_per_cluster,
    )
}

/// Takes a cluster for a new directory, clears it and writes the entries
/// `.` and `..` into it. `parent` is the directory that will hold the new
/// one.
///
/// `DiskFull` is answered where no cluster is free; the drive is then left
/// as it is.
fn prepare_dir<H: FatfsDiskHandler>(vol: &mut Volume, dev: &mut H, parent: u32, stamp: Stamp) -> (res:
    Result<u32, FsError>)
    requires
        old(dev).inv(),
        old(vol).on(old(dev).drive(old(vol).pdrv)),
        !old(vol).read_only,
    ensures
        final(dev).inv(),
        same_volume(*old(vol), *final(vol)),
        final(vol).on(final(dev).drive(old(vol).pdrv)),
        body_changed(old(vol).geom, old(dev).drive(old(vol).pdrv), final(dev).drive(old(vol).pdrv)),
        match res {
            Ok(c) => prepared(
                old(vol).geom,
                old(dev).drive(old(vol).pdrv),
                final(dev).drive(old(vol).pdrv),
                c as int,
                parent,
                stamp,
            ),
            Err(e) => (e == FsError::DiskFull && crate::fat::free_clusters(
                old(vol).geom.table(old(dev).drive(old(vol).pdrv).sectors),
            ) < 1 && final(dev).drive(old(vol).pdrv) == old(dev).drive(old(vol).pdrv)) || (!old(
                dev,
            ).drive(old(vol).pdrv).dependable && e.is_device()),
        },
{
    let g = vol.geom;
    let pdrv = vol.pdrv;
    let ghost d0 = old(dev).drive(pdrv);
    let c = match crate::dirops::take_cleared(vol, dev) {
        Err(e) => {
            return Err(e);
        },
        Ok(c) => c,
    };
    let ghost d1 = dev.drive(pdrv);
    let ghost fs = g.first_sector(c as int);
    let ghost touched = |i: int| g.in_tables(i) || fs <= i < fs + g.sectors_per_cluster;
    proof {
        g.lemma_cluster_slots();
        assert(g.reach(d1.sectors, c as int, 0) == Some(c as int));
        assert(g.slot_place(d1.sectors, c, 0) == Some((fs, 0int)));
    }
    let dot = make_short_slot(&make_dot_name(1), ATTR_DIRECTORY, c, 0, stamp);
    let r = write_slot(vol, dev, c, 0, &dot);
    let ghost d2 = dev.drive(pdrv);
    proof {
        lemma_data_in_body(g, d1, d2);
        lemma_body_twice(g, d0, d1, d2);
    }
    if let Err(e) = r {
        return Err(e);
    }
    proof {
        let per = g.cluster_slots();
        assert(1int / per == 0 && 1int % per == 1) by {
            vstd::arithmetic::div_mod::lemma_small_mod(1, per as nat);
            vstd::arithmetic::div_mod::lemma_basic_div(1, per);
        }
        assert(g.reach(d2.sectors, c as int, 0) == Some(c as int));
        assert(g.slot_place(d2.sectors, c, 1) == Some((fs, 32int)));
    }
    let dotdot = make_short_slot(&make_dot_name(2), ATTR_DIRECTORY, parent, 0, stamp);
    let r = write_slot(vol, dev, c, 1, &dotdot);
    proof {
        let d3 = dev.drive(pdrv);
        lemma_data_in_body(g, d2, d3);
        lemma_body_twice(g, d0, d2, d3);
        if r is Ok {
            assert(d0.same_but(d3, touched));
        }
    }
    match r {
        Err(e) => Err(e),
        Ok(_) => Ok(c),
    }
}

/// Why the directory that `path` names is not made before anything is
/// written, if it is not: the volume is write protected; the path names
/// the root directory or an entry that exists, or a name before its last
/// names no directory; or no cluster is free.
pub open spec fn make_dir_refusal(vol: Volume, disk: Seq<Seq<u8>>, path: Seq<u16>) -> Option<FsError> {
    if vol.read_only {
        Some(FsError::WriteProtected)
    } else {
        match named(vol.geom, disk, path) {
            Err(e) => Some(e),
            Ok(Named::Missing { .. }) => if crate::fat::free_clusters(vol.geom.table(disk)) < 1 {
                Some(FsError::DiskFull)
            } else {
                None
            },
            Ok(_) => Some(FsError::AlreadyExists),
        }
    }
}

/// What holds after directory `name` was made in directory `dir`: cluster
/// `c` was made its only cluster, which gave the drive `mid`, and then its
/// entry was added to `dir`.
#[verifier::opaque]
pub open spec fn made_dir(
    vol: Volume,
    before: Drive,
    mid: Drive,
    after: Drive,
    dir: u32,
    name: Seq<u16>,
    c: int,
    stamp: Stamp,
    index: int,
    fragments: int,
    short: Seq<u8>,
) -> bool {
    &&& prepared(vol.geom, before, mid, c, dir, stamp)
    &&& added(
        vol,
        mid,
        after,
        dir,
        name,
        ATTR_DIRECTORY,
        c as u32,
        0,
        stamp,
        index,
        fragments,
        short,
    )
}

/// The error that is reported where the entry of a new directory could
/// not be added.
pub open spec fn late_code(e: FsError) -> FsError {
    if e == FsError::AlreadyExists {
        FsError::CorruptVolume
    } else {
        e
    }
}

/// What holds after the entry of a new directory could not be added:
/// cluster `c` was made the only cluster of the directory, which gave the
/// drive `mid`; the attempt to add the entry failed with `e` and left the
/// drive `late`; and then the cluster was set free again.
#[verifier::opaque]
pub open spec fn dir_undone(
    vol: Volume,
    before: Drive,
    mid: Drive,
    late: Drive,
    after: Drive,
    dir: u32,
    name: Seq<u16>,
    c: int,
    stamp: Stamp,
    e: FsError,
) -> bool {
    &&& prepared(vol.geom, before, mid, c, dir, stamp)
    &&& crate::dirops::add_failed(vol, mid, late, dir, name, ATTR_DIRECTORY, e)
    &&& crate::fat::entry_set(vol.geom, late.sectors, after.sectors, c, 0)
    &&& late.same_but(after, |i: int| vol.geom.in_tables(i))
}

/// A cluster that was prepared and an entry that was added make a
/// directory.
proof fn lemma_made_dir(
    v0: Volume,
    v1: Volume,
    d0: Drive,
    d1: Drive,
    d2: Drive,
    dir: u32,
    name: Seq<u16>,
    c: u32,
    stamp: Stamp,
    index: int,
    fragments: int,
    short: Seq<u8>,
)
    requires
        same_volume(v0, v1),
        v0.geom.wf(),
        prepared(v0.geom, d0, d1, c as int, dir, stamp),
        added(v1, d1, d2, dir, name, ATTR_DIRECTORY, c, 0, stamp, index, fragments, short),
    ensures
        made_dir(v0, d0, d1, d2, dir, name, c as int, stamp, index, fragments, short),
        crate::fat::free_clusters(v0.geom.table(d0.sectors)) >= 1,
{
    reveal(made_dir);
    crate::dirops::lemma_added_same(
        v1,
        v0,
        d1,
        d2,
        dir,
        name,
        ATTR_DIRECTORY,
        c,
        0,
        stamp,
        index,
        fragments,
        short,
    );
    let table = v0.geom.table(d0.sectors);
    crate::dirops::lemma_one_free(table, table.len() as int, c as int);
}

/// A cluster that was prepared, an entry that could not be added and the
/// cluster set free again leave what `dir_undone` says.
proof fn lemma_dir_undone(
    v0: Volume,
    v1: Volume,
    d0: Drive,
    d1: Drive,
    d2: Drive,
    d3: Drive,
    dir: u32,
    name: Seq<u16>,
    c: u32,
    stamp: Stamp,
    e: FsError,
)
    requires
        same_volume(v0, v1),
        v0.geom.wf(),
        prepared(v0.geom, d0, d1, c as int, dir, stamp),
        crate::dirops::add_failed(v1, d1, d2, dir, name, ATTR_DIRECTORY, e),
        crate::fat::entry_set(v0.geom, d2.sectors, d3.sectors, c as int, 0),
        d2.same_but(d3, |i: int| v0.geom.in_tables(i)),
    ensures
        dir_undone(v0, d0, d1, d2, d3, dir, name, c as int, stamp, e),
        crate::fat::free_clusters(v0.geom.table(d0.sectors)) >= 1,
{
    reveal(dir_undone);
    crate::dirops::lemma_add_failed_same(v1, v0, d1, d2, dir, name, ATTR_DIRECTORY, e);
    let table = v0.geom.table(d0.sectors);
    crate::dirops::lemma_one_free(table, table.len() as int, c as int);
}

/// Makes the directory `name` in directory `dir`, which holds no entry of
/// that name.
fn make_dir_in<H: FatfsDiskHandler>(vol: &mut Volume, dev: &mut H, dir: u32, name: &Vec<u16>, stamp: Stamp) -> (res:
    Result<(), FsError>)
    requires
        old(dev).inv(),
        old(vol).on(old(dev).drive(old(vol).pdrv)),
        !old(vol).read_only,
    ensures
        final(dev).inv(),
        same_volume(*old(vol), *final(vol)),
        final(vol).on(final(dev).drive(old(vol).pdrv)),
        body_changed(old(vol).geom, old(dev).drive(old(vol).pdrv), final(dev).drive(old(vol).pdrv)),
        match res {
            Ok(_) => crate::fat::free_clusters(
                old(vol).geom.table(old(dev).drive(old(vol).pdrv).sectors),
            ) >= 1 && exists|mid: Drive, c: int, index: int, fragments: int, short: Seq<u8>| #[trigger]
                made_dir(
                    *old(vol),
                    old(dev).drive(old(vol).pdrv),
                    mid,
                    final(dev).drive(old(vol).pdrv),
                    dir,
                    name@,
                    c,
                    stamp,
                    index,
                    fragments,
                    short,
                ),
            Err(e) => {
                ||| (e == FsError::DiskFull && crate::fat::free_clusters(
                    old(vol).geom.table(old(dev).drive(old(vol).pdrv).sectors),
                ) < 1 && final(dev).drive(old(vol).pdrv) == old(dev).drive(old(vol).pdrv))
                ||| (crate::fat::free_clusters(
                    old(vol).geom.table(old(dev).drive(old(vol).pdrv).sectors),
                ) >= 1 && exists|mid: Drive, late: Drive, c: int, e0: FsError| #[trigger]
                    dir_undone(
                        *old(vol),
                        old(dev).drive(old(vol).pdrv),
                        mid,
                        late,
                        final(dev).drive(old(vol).pdrv),
                        dir,
                        name@,
                        c,
                        stamp,
                        e0,
                    ) && e == late_code(e0))
                ||| (!old(dev).drive(old(vol).pdrv).dependable && e.is_device())
            },
        },
{
    let g = vol.geom;
    let pdrv = vol.pdrv;
    let ghost v0 = *vol;
    let ghost d0 = old(dev).drive(pdrv);
    let c = match prepare_dir(vol, dev, dir, stamp) {
        Err(e) => {
            return Err(e);
        },
        Ok(c) => c,
    };
    let ghost v1 = *vol;
    let ghost d1 = dev.drive(pdrv);
    match add_entry(vol, dev, dir, name, ATTR_DIRECTORY, c, 0, stamp) {
        Err(e) => {
            let ghost d2 = dev.drive(pdrv);
            let r = crate::fat::set_next(vol, dev, c, 0);
            proof {
                let d3 = dev.drive(pdrv);
                lemma_body_twice(g, d0, d1, d2);
                lemma_tables_in_body(g, d2, d3);
                lemma_body_twice(g, d0, d2, d3);
                if r is Ok && (d0.dependable || !e.is_device()) {
                    lemma_dir_undone(v0, v1, d0, d1, d2, d3, dir, name@, c, stamp, e);
                }
            }
            match r {
                Err(x) => Err(x),
                Ok(_) => match e {
                    FsError::AlreadyExists => Err(FsError::CorruptVolume),
                    _ => Err(e),
                },
            }
        },
        Ok(a) => {
            proof {
                let d2 = dev.drive(pdrv);
                lemma_body_twice(g, d0, d1, d2);
                lemma_made_dir(
                    v0,
                    v1,
                    d0,
                    d1,
                    d2,
                    dir,
                    name@,
                    c,
                    stamp,
                    a.index as int,
                    a.fragments as int,
                    a.short@,
                );
            }
            Ok(())
        },
    }
}

/// What `make_dir` answers and leaves:
///
/// - success, where nothing refused the directory: `made_dir` then holds
///   of the directory and the name that the path stands for;
/// - the error that `make_dir_refusal` gives, with the drive as it was;
/// - the error for which the entry could not be added, with what
///   `dir_undone` says of the drive;
/// - on a drive that is not dependable, the error of a failed transfer.
pub open spec fn make_dir_outcome(
    vol: Volume,
    before: Drive,
    after: Drive,
    path: Seq<u16>,
    stamp: Stamp,
    res: Result<(), FsError>,
) -> bool {
    match res {
        Ok(_) => {
            &&& make_dir_refusal(vol, before.sectors, path) is None
            &&& named(vol.geom, before.sectors, path) matches Ok(Named::Missing { dir, name })
                && exists|mid: Drive, c: int, index: int, fragments: int, short: Seq<u8>| #[trigger]
                made_dir(vol, before, mid, after, dir, name, c, stamp, index, fragments, short)
        },
        Err(e) => {
            ||| (make_dir_refusal(vol, before.sectors, path) == Some(e) && after == before)
            ||| (named(vol.geom, before.sectors, path) matches Ok(Named::Missing { dir, name })
                && make_dir_refusal(vol, before.sectors, path) is None && exists|
                mid: Drive,
                late: Drive,
                c: int,
                e0: FsError,
            | #[trigger]
                dir_undone(vol, before, mid, late, after, dir, name, c, stamp, e0) && e
                    == late_code(e0))
            ||| (!before.dependable && e.is_device())
        },
    }
}

/// Creates the directory that `path` names. See `make_dir_outcome` for
/// the answer and for what holds afterwards.
///
/// The new directory is given one cluster, which holds the entries `.` and
/// `..`, before its entry is added to the directory that holds it. Where
/// the entry cannot be added, the cluster is set free again, and the
/// answer is the error that `add_entry` gave, but `CorruptVolume` in place
/// of `AlreadyExists`: the name was free before the cluster was taken.
pub fn make_dir<H: FatfsDiskHandler>(vol: &mut Volume, dev: &mut H, path: &Vec<u16>, stamp: Stamp) -> (res:
    Result<(), FsError>)
    requires
        old(dev).inv(),
        old(vol).on(old(dev).drive(old(vol).pdrv)),
    ensures
        final(dev).inv(),
        same_volume(*old(vol), *final(vol)),
        final(vol).on(final(dev).drive(old(vol).pdrv)),
        body_changed(old(vol).geom, old(dev).drive(old(vol).pdrv), final(dev).drive(old(vol).pdrv)),
        make_dir_outcome(
            *old(vol),
            old(dev).drive(old(vol).pdrv),
            final(dev).drive(old(vol).pdrv),
            path@,
            stamp,
            res,
        ),
{
    let ghost d0 = old(dev).drive(vol.pdrv);
    assert(body_changed(vol.geom, d0, d0));
    if vol.read_only {
        return Err(FsError::WriteProtected);
    }
    let (dir, name) = match find_target(vol, dev, path) {
        Err(e) => {
            return Err(e);
        },
        Ok(Target::Root) => {
            return Err(FsError::AlreadyExists);
        },
        Ok(Target::Entry { dir: _, found: _ }) => {
            return Err(FsError::AlreadyExists);
        },
        Ok(Target::Missing { dir, name }) => (dir, name),
    };
    make_dir_in(vol, dev, dir, &name, stamp)
}

/// Why the entry that `path` names is not removed, if it is not: the
/// volume is write protected; the path names nothing, or the root
/// directory; it names a directory that holds an entry besides `.` and
/// `..`; or the directory that holds the entry, the chain of the entry or
/// the directory that the entry stands for is corrupt.
pub open spec fn remove_refusal(vol: Volume, disk: Seq<Seq<u8>>, path: Seq<u16>) -> Option<FsError> {
    let g = vol.geom;
    if vol.read_only {
        Some(FsError::WriteProtected)
    } else {
        match named(g, disk, path) {
            Err(e) => Some(e),
            Ok(Named::Root) => Some(FsError::InvalidParameter),
            Ok(Named::Missing { .. }) => Some(FsError::NotFound),
            Ok(Named::Entry { dir, index }) => {
                let s = g.slot(disk, dir, index)->Some_0;
                let first = short_fields(s).first_cluster;
                if marks_dir(s[11]) && first == 0 {
                    Some(FsError::CorruptVolume)
                } else if marks_dir(s[11]) && crate::dirops::content_from(g.slots(disk, first), 0)
                    is At {
                    Some(FsError::DirectoryNotEmpty)
                } else if marks_dir(s[11]) && crate::dirops::content_from(g.slots(disk, first), 0)
                    is Broken {
                    Some(FsError::CorruptVolume)
                } else if first != 0 && g.chain(disk, first as int) is None {
                    Some(FsError::CorruptVolume)
                } else if !g.dir_sound(disk, dir) {
                    Some(FsError::CorruptVolume)
                } else {
                    None
                }
            },
        }
    }
}

/// The drive `after` with the tables of `before`: what `after` was before
/// the last change of its tables.
pub open spec fn with_tables_of(g: Geometry, before: Drive, after: Drive) -> Drive {
    Drive {
        sectors: Seq::new(
            after.sectors.len(),
            |i: int|
                if g.in_tables(i) {
                    before.sectors[i]
                } else {
                    after.sectors[i]
                },
        ),
        sector_size: after.sector_size,
        dependable: after.dependable,
    }
}

/// What holds after the entry in slot `index` of directory `dir` was
/// removed: the slots of the entry were marked as deleted while the tables
/// were as before, every other slot of the directory was left, and then
/// the chain of the entry was set free.
pub open spec fn removed(vol: Volume, before: Drive, after: Drive, dir: u32, index: int) -> bool {
    let g = vol.geom;
    let s = g.slot(before.sectors, dir, index)->Some_0;
    let first = short_fields(s).first_cluster;
    let n = crate::dir::fragments_at(g.slots(before.sectors, dir), index);
    let marked = with_tables_of(g, before, after);
    &&& 0 <= n <= index
    &&& crate::dir::slots_written(
        g,
        before,
        marked,
        dir,
        index - n,
        crate::dirops::marked_slots(g, before.sectors, dir, index, n + 1),
    )
    &&& forall|j: int|
        0 <= j && !(index - n <= j <= index) ==> #[trigger] g.probe(marked.sectors, dir, j)
            == g.probe(before.sectors, dir, j)
    &&& crate::dirscan::tidy(g.slots(before.sectors, dir)) ==> crate::dirscan::tidy(
        g.slots(marked.sectors, dir),
    )
    &&& marked.same_but(after, |i: int| g.in_tables(i))
    &&& if first == 0 {
        g.table(after.sectors) == g.table(before.sectors)
    } else {
        crate::allocator::released(
            g.fat_type,
            g.table(before.sectors),
            g.table(after.sectors),
            first as int,
            g.chain(before.sectors, first as int)->Some_0.len(),
        )
    }
}

/// An entry that was found can be removed: its slots exist and hold a short
/// entry with its fragments before it.
proof fn lemma_found_removable(g: Geometry, disk: Seq<Seq<u8>>, dir: u32, found: Found)
    requires
        found.is_at(g.slots(disk, dir)),
    ensures
        crate::dirops::removable(g, disk, dir, found.index as int, found.fragments as int),
{
    let slots = g.slots(disk, dir);
    let j = found.index as int;
    assert(slots(j) == Probe::Holds(found.slot@));
    assert forall|k: int| 0 <= k <= found.fragments implies (#[trigger] g.probe(disk, dir, j - k) matches Probe::Holds(
        s,
    ) && !crate::dirent::slot_free(s) && (crate::dirent::slot_long(s) <==> k > 0)) by {
        if k > 0 {
            let sum = crate::dirent::checksum(found.slot@.subrange(0, 11));
            crate::dir::lemma_gather_slots(slots, j, sum, 1, Seq::empty(), k);
            assert(slots(j - k) == g.probe(disk, dir, j - k));
        } else {
            assert(g.probe(disk, dir, j - 0) == slots(j));
        }
    }
}

/// Removing the slots of an entry and then its chain gives what `removed`
/// says.
proof fn lemma_removed(
    vol: Volume,
    d0: Drive,
    d1: Drive,
    d2: Drive,
    dir: u32,
    index: int,
    n: int,
    count: nat,
)
    requires
        vol.geom.wf(),
        d0.wf(),
        vol.geom.fits(d0),
        0 <= n <= index,
        n == crate::dir::fragments_at(vol.geom.slots(d0.sectors, dir), index),
        d0.same_but(d1, |i: int| vol.geom.root_start <= i < vol.geom.end()),
        vol.geom.table(d1.sectors) == vol.geom.table(d0.sectors),
        crate::dir::slots_written(
            vol.geom,
            d0,
            d1,
            dir,
            index - n,
            crate::dirops::marked_slots(vol.geom, d0.sectors, dir, index, n + 1),
        ),
        forall|j: int|
            0 <= j && !(index - n <= j <= index) ==> #[trigger] vol.geom.probe(d1.sectors, dir, j)
                == vol.geom.probe(d0.sectors, dir, j),
        crate::dirscan::tidy(vol.geom.slots(d0.sectors, dir)) ==> crate::dirscan::tidy(
            vol.geom.slots(d1.sectors, dir),
        ),
        d1.same_but(d2, |i: int| vol.geom.in_tables(i)),
        ({
            let first = short_fields(vol.geom.slot(d0.sectors, dir, index)->Some_0).first_cluster;
            if first == 0 {
                d2 == d1
            } else {
                vol.geom.chain(d0.sectors, first as int) is Some && crate::allocator::released(
                    vol.geom.fat_type,
                    vol.geom.table(d1.sectors),
                    vol.geom.table(d2.sectors),
                    first as int,
                    count,
                )
            }
        }),
    ensures
        removed(vol, d0, d2, dir, index),
{
    let g = vol.geom;
    g.lemma_copy_bounds(0);
    let m = with_tables_of(g, d0, d2);
    assert(m.sectors =~= d1.sectors);
    assert(m == d1);
}

/// Finds the entry that `path` names and checks that it can be removed.
fn find_removable<H: FatfsDiskHandler>(vol: &Volume, dev: &mut H, path: &Vec<u16>) -> (res: Result<
    (u32, Found),
    FsError,
>)
    requires
        old(dev).inv(),
        vol.on(old(dev).drive(vol.pdrv)),
    ensures
        final(dev).inv(),
        final(dev).drive(vol.pdrv) == old(dev).drive(vol.pdrv),
        match res {
            Ok((dir, found)) => {
                &&& remove_refusal(*vol, old(dev).drive(vol.pdrv).sectors, path@) is None
                &&& named(vol.geom, old(dev).drive(vol.pdrv).sectors, path@) == Ok::<
                    Named,
                    FsError,
                >(Named::Entry { dir, index: found.index as int })
                &&& found.is_at(vol.geom.slots(old(dev).drive(vol.pdrv).sectors, dir))
            },
            Err(e) => remove_refusal(*vol, old(dev).drive(vol.pdrv).sectors, path@) == Some(e) || (
            !old(dev).drive(vol.pdrv).dependable && e.is_device()),
        },
{
    if vol.read_only {
        return Err(FsError::WriteProtected);
    }
    let (dir, found) = match find_target(vol, dev, path) {
        Err(e) => {
            return Err(e);
        },
        Ok(Target::Root) => {
            return Err(FsError::InvalidParameter);
        },
        Ok(Target::Missing { dir: _, name: _ }) => {
            return Err(FsError::NotFound);
        },
        Ok(Target::Entry { dir, found }) => (dir, found),
    };
    let first = slot_first_cluster(&found.slot);
    if found.slot[11] / 16 % 2 == 1 {
        if first == 0 {
            return Err(FsError::CorruptVolume);
        }
        match is_dir_empty(vol, dev, first) {
            Err(e) => {
                return Err(e);
            },
            Ok(false) => {
                return Err(FsError::DirectoryNotEmpty);
            },
            Ok(true) => {},
        }
    }
    if first != 0 {
        match crate::chain::chain_length(vol, dev, first) {
            Err(e) => {
                return Err(e);
            },
            Ok(_) => {},
        }
    }
    match crate::dir::check_dir(vol, dev, dir) {
        Err(e) => Err(e),
        Ok(_) => Ok((dir, found)),
    }
}

/// Marks the slots of an entry as deleted and gives its chain back.
fn erase<H: FatfsDiskHandler>(vol: &mut Volume, dev: &mut H, dir: u32, found: &Found) -> (res: Result<
    (),
    FsError,
>)
    requires
        old(dev).inv(),
        old(vol).on(old(dev).drive(old(vol).pdrv)),
        !old(vol).read_only,
        found.is_at(old(vol).geom.slots(old(dev).drive(old(vol).pdrv).sectors, dir)),
        old(vol).geom.dir_sound(old(dev).drive(old(vol).pdrv).sectors, dir),
        short_fields(found.slot@).first_cluster != 0 ==> old(vol).geom.chain(
            old(dev).drive(old(vol).pdrv).sectors,
            short_fields(found.slot@).first_cluster as int,
        ) is Some,
    ensures
        final(dev).inv(),
        same_volume(*old(vol), *final(vol)),
        final(vol).on(final(dev).drive(old(vol).pdrv)),
        body_changed(old(vol).geom, old(dev).drive(old(vol).pdrv), final(dev).drive(old(vol).pdrv)),
        match res {
            Ok(_) => removed(
                *old(vol),
                old(dev).drive(old(vol).pdrv),
                final(dev).drive(old(vol).pdrv),
                dir,
                found.index as int,
            ),
            Err(e) => !old(dev).drive(old(vol).pdrv).dependable && e.is_device(),
        },
{
    let g = vol.geom;
    let pdrv = vol.pdrv;
    let ghost v0 = *vol;
    let ghost d0 = old(dev).drive(pdrv);
    let first = slot_first_cluster(&found.slot);
    proof {
        lemma_found_removable(g, d0.sectors, dir, *found);
        old(dev).inv_shape(pdrv);
    }
    match remove_entry(vol, dev, dir, found.index, found.fragments) {
        Err(e) => {
            proof {
                lemma_data_in_body(g, d0, dev.drive(pdrv));
            }
            return Err(e);
        },
        Ok(_) => {},
    }
    let ghost d1 = dev.drive(pdrv);
    proof {
        lemma_data_in_body(g, d0, d1);
    }
    if first != 0 {
        let r = free_chain(vol, dev, first);
        proof {
            let d2 = dev.drive(pdrv);
            lemma_tables_in_body(g, d1, d2);
            lemma_body_twice(g, d0, d1, d2);
            if r is Ok {
                lemma_removed(
                    v0,
                    d0,
                    d1,
                    d2,
                    dir,
                    found.index as int,
                    found.fragments as int,
                    r->Ok_0 as nat,
                );
            }
        }
        match r {
            Err(e) => Err(e),
            Ok(_) => Ok(()),
        }
    } else {
        proof {
            assert(d1.same_but(d1, |i: int| g.in_tables(i)));
            lemma_removed(v0, d0, d1, d1, dir, found.index as int, found.fragments as int, 0);
        }
        Ok(())
    }
}

/// Removes the file or the empty directory that `path` names. See
/// `remove_refusal` for the refusals, which leave the drive as it is, and
/// `removed` for what holds afterwards.
///
/// The slots of the entry are marked as deleted first, then its cluster
/// chain is given back. On a drive that is not dependable a transfer may
/// fail midway: the answer is then the driver's error.
pub fn remove<H: FatfsDiskHandler>(vol: &mut Volume, dev: &mut H, path: &Vec<u16>) -> (res: Result<
    (),
    FsError,
>)
    requires
        old(dev).inv(),
        old(vol).on(old(dev).drive(old(vol).pdrv)),
    ensures
        final(dev).inv(),
        same_volume(*old(vol), *final(vol)),
        final(vol).on(final(dev).drive(old(vol).pdrv)),
        body_changed(old(vol).geom, old(dev).drive(old(vol).pdrv), final(dev).drive(old(vol).pdrv)),
        match res {
            Ok(_) => {
                &&& remove_refusal(*old(vol), old(dev).drive(old(vol).pdrv).sectors, path@)
                    is None
                &&& named(old(vol).geom, old(dev).drive(old(vol).pdrv).sectors, path@)
                    matches Ok(Named::Entry { dir, index }) && removed(
                    *old(vol),
                    old(dev).drive(old(vol).pdrv),
                    final(dev).drive(old(vol).pdrv),
                    dir,
                    index,
                )
            },
            Err(e) => (remove_refusal(*old(vol), old(dev).drive(old(vol).pdrv).sectors, path@)
                == Some(e) && final(dev).drive(old(vol).pdrv) == old(dev).drive(old(vol).pdrv)) || (
            !old(dev).drive(old(vol).pdrv).dependable && e.is_device()),
        },
{
    let ghost g = vol.geom;
    let ghost d0 = old(dev).drive(vol.pdrv);
    assert(body_changed(g, d0, d0));
    match find_removable(vol, dev, path) {
        Err(e) => Err(e),
        Ok((dir, found)) => erase(vol, dev, dir, &found),
    }
}

/// Why the entry that `from` names is not given the name and the place
/// that `to` names before anything is written, if it is not: the volume is
/// write protected; `from` names nothing, or the root directory; or `to`
/// names the root directory or an entry that exists, or a name before its
/// last names no directory.
pub open spec fn rename_refusal(vol: Volume, disk: Seq<Seq<u8>>, from: Seq<u16>, to: Seq<u16>) -> Option<
    FsError,
> {
    if vol.read_only {
        Some(FsError::WriteProtected)
    } else {
        match named(vol.geom, disk, from) {
            Err(e) => Some(e),
            Ok(Named::Root) => Some(FsError::InvalidParameter),
            Ok(Named::Missing { .. }) => Some(FsError::NotFound),
            Ok(Named::Entry { .. }) => match named(vol.geom, disk, to) {
                Err(e) => Some(e),
                Ok(Named::Missing { .. }) => None,
                Ok(_) => Some(FsError::AlreadyExists),
            },
        }
    }
}

/// The directory and the slot of the entry that a path names, where it
/// names one.
pub open spec fn entry_named(g: Geometry, disk: Seq<Seq<u8>>, path: Seq<u16>) -> (u32, int) {
    match named(g, disk, path) {
        Ok(Named::Entry { dir, index }) => (dir, index),
        _ => (0, 0),
    }
}

/// The directory and the name that a path stands for, where it names no
/// entry in a directory that exists.
pub open spec fn missing_named(g: Geometry, disk: Seq<Seq<u8>>, path: Seq<u16>) -> (u32, Seq<u16>) {
    match named(g, disk, path) {
        Ok(Named::Missing { dir, name }) => (dir, name),
        _ => (0, Seq::empty()),
    }
}

/// The slot that holds the entry `..` of a directory in `parent`.
pub open spec fn dotdot_slots(parent: u32, stamp: Stamp) -> Seq<Seq<u8>> {
    seq![crate::dirent::short_slot(dot_name(2), ATTR_DIRECTORY, parent, 0, stamp)]
}

/// The entry with the short entry `s` is one of a directory with a cluster
/// of its own that moves from directory `sdir` to another directory
/// `ddir`, so that its entry `..` has to follow.
pub open spec fn moves_dir(s: Seq<u8>, sdir: u32, ddir: u32) -> bool {
    marks_dir(s[11]) && sdir != ddir && short_fields(s).first_cluster != 0
}

/// What holds after the entry in slot `index` of directory `sdir` was
/// given the name `name` in directory `ddir`: an entry with the attribute
/// byte, the first cluster, the size and the time of the old one was added
/// to `ddir`, which gave the drive `mid`; the slots of the old entry were
/// marked as deleted, which gave the drive `late`; and the entry `..` of a
/// directory that has moved to another directory was set to `ddir`.
#[verifier::opaque]
pub open spec fn renamed(
    vol: Volume,
    before: Drive,
    mid: Drive,
    late: Drive,
    after: Drive,
    sdir: u32,
    index: int,
    ddir: u32,
    name: Seq<u16>,
    index2: int,
    fragments2: int,
    short: Seq<u8>,
) -> bool {
    let g = vol.geom;
    let s = g.slot(before.sectors, sdir, index)->Some_0;
    let f = short_fields(s);
    let n = crate::dir::fragments_at(g.slots(before.sectors, sdir), index);
    &&& added(vol, before, mid, ddir, name, s[11], f.first_cluster, f.size, f.written, index2, fragments2, short)
    &&& crate::dir::slots_written(
        g,
        mid,
        late,
        sdir,
        index - n,
        crate::dirops::marked_slots(g, mid.sectors, sdir, index, n + 1),
    )
    &&& if moves_dir(s, sdir, ddir) {
        crate::dir::slots_written(g, late, after, f.first_cluster, 1, dotdot_slots(ddir, f.written))
    } else {
        after == late
    }
}

/// What holds after the new entry was added, and then the old entry could
/// not be removed, or the entry `..` could not be written: `e` is the
/// refusal, and the drive is left as it was when the step was refused.
#[verifier::opaque]
pub open spec fn rename_stuck(
    vol: Volume,
    before: Drive,
    mid: Drive,
    after: Drive,
    sdir: u32,
    index: int,
    ddir: u32,
    name: Seq<u16>,
    index2: int,
    fragments2: int,
    short: Seq<u8>,
    e: FsError,
) -> bool {
    let g = vol.geom;
    let s = g.slot(before.sectors, sdir, index)->Some_0;
    let f = short_fields(s);
    let n = crate::dir::fragments_at(g.slots(before.sectors, sdir), index);
    &&& added(vol, before, mid, ddir, name, s[11], f.first_cluster, f.size, f.written, index2, fragments2, short)
    &&& {
        ||| (after == mid && crate::dirops::erase_refusal(vol, mid.sectors, sdir, index, n) == Some(e))
        ||| (moves_dir(s, sdir, ddir) && crate::dir::slots_written(
            g,
            mid,
            after,
            sdir,
            index - n,
            crate::dirops::marked_slots(g, mid.sectors, sdir, index, n + 1),
        ) && crate::dir::slots_refusal(
            vol,
            after.sectors,
            f.first_cluster,
            1,
            dotdot_slots(ddir, f.written),
        ) == Some(e))
    }
}

/// What `rename` answers and leaves:
///
/// - success, where nothing refused the change: `renamed` then holds;
/// - the error that `rename_refusal` gives, with the drive as it was;
/// - the error for which the new entry could not be added, with what
///   `add_failed` says of the drive;
/// - the error for which a later step was refused, with what
///   `rename_stuck` says of the drive;
/// - on a drive that is not dependable, the error of a failed transfer.
pub open spec fn rename_outcome(
    vol: Volume,
    before: Drive,
    after: Drive,
    from: Seq<u16>,
    to: Seq<u16>,
    res: Result<(), FsError>,
) -> bool {
    let g = vol.geom;
    let (sdir, index) = entry_named(g, before.sectors, from);
    let (ddir, name) = missing_named(g, before.sectors, to);
    let s = g.slot(before.sectors, sdir, index)->Some_0;
    match res {
        Ok(_) => rename_refusal(vol, before.sectors, from, to) is None && exists|
            mid: Drive,
            late: Drive,
            index2: int,
            fragments2: int,
            short: Seq<u8>,
        | #[trigger]
            renamed(vol, before, mid, late, after, sdir, index, ddir, name, index2, fragments2, short),
        Err(e) => {
            ||| (rename_refusal(vol, before.sectors, from, to) == Some(e) && after == before)
            ||| (rename_refusal(vol, before.sectors, from, to) is None && crate::dirops::add_failed(
                vol,
                before,
                after,
                ddir,
                name,
                s[11],
                e,
            ))
            ||| (rename_refusal(vol, before.sectors, from, to) is None && exists|
                mid: Drive,
                index2: int,
                fragments2: int,
                short: Seq<u8>,
            | #[trigger]
                rename_stuck(
                    vol,
                    before,
                    mid,
                    after,
                    sdir,
                    index,
                    ddir,
                    name,
                    index2,
                    fragments2,
                    short,
                    e,
                ))
            ||| (!before.dependable && e.is_device())
        },
    }
}

/// Gives the entry `found` of directory `sdir` the name `name` in
/// directory `ddir`, which holds no entry of that name.
fn move_entry<H: FatfsDiskHandler>(
    vol: &mut Volume,
    dev: &mut H,
    sdir: u32,
    found: &Found,
    ddir: u32,
    name: &Vec<u16>,
) -> (res: Result<(), FsError>)
    requires
        old(dev).inv(),
        old(vol).on(old(dev).drive(old(vol).pdrv)),
        found.is_at(old(vol).geom.slots(old(dev).drive(old(vol).pdrv).sectors, sdir)),
    ensures
        final(dev).inv(),
        same_volume(*old(vol), *final(vol)),
        final(vol).on(final(dev).drive(old(vol).pdrv)),
        body_changed(old(vol).geom, old(dev).drive(old(vol).pdrv), final(dev).drive(old(vol).pdrv)),
        match res {
            Ok(_) => exists|mid: Drive, late: Drive, index2: int, fragments2: int, short: Seq<u8>| #[trigger]
                renamed(
                    *old(vol),
                    old(dev).drive(old(vol).pdrv),
                    mid,
                    late,
                    final(dev).drive(old(vol).pdrv),
                    sdir,
                    found.index as int,
                    ddir,
                    name@,
                    index2,
                    fragments2,
                    short,
                ),
            Err(e) => {
                ||| crate::dirops::add_failed(
                    *old(vol),
                    old(dev).drive(old(vol).pdrv),
                    final(dev).drive(old(vol).pdrv),
                    ddir,
                    name@,
                    found.slot@[11],
                    e,
                )
                ||| (exists|mid: Drive, index2: int, fragments2: int, short: Seq<u8>| #[trigger]
                    rename_stuck(
                        *old(vol),
                        old(dev).drive(old(vol).pdrv),
                        mid,
                        final(dev).drive(old(vol).pdrv),
                        sdir,
                        found.index as int,
                        ddir,
                        name@,
                        index2,
                        fragments2,
                        short,
                        e,
                    ))
                ||| (!old(dev).drive(old(vol).pdrv).dependable && e.is_device())
            },
        },
{
    let g = vol.geom;
    let pdrv = vol.pdrv;
    let ghost v0 = *vol;
    let ghost d0 = old(dev).drive(pdrv);
    let attr = found.slot[11];
    let first = slot_first_cluster(&found.slot);
    let size = slot_size(&found.slot);
    let written = slot_written(&found.slot);
    assert(g.slot(d0.sectors, sdir, found.index as int) == Some(found.slot@)) by {
        assert(g.slots(d0.sectors, sdir)(found.index as int) == Probe::Holds(found.slot@));
    }
    let a = match add_entry(vol, dev, ddir, name, attr, first, size, written) {
        Err(e) => {
            return Err(e);
        },
        Ok(a) => a,
    };
    let ghost d1 = dev.drive(pdrv);
    match remove_entry(vol, dev, sdir, found.index, found.fragments) {
        Err(e) => {
            proof {
                lemma_data_in_body(g, d1, dev.drive(pdrv));
                lemma_body_twice(g, d0, d1, dev.drive(pdrv));
                if d0.dependable || !e.is_device() {
                    assert(rename_stuck(
                        v0,
                        d0,
                        d1,
                        d1,
                        sdir,
                        found.index as int,
                        ddir,
                        name@,
                        a.index as int,
                        a.fragments as int,
                        a.short@,
                        e,
                    )) by {
                        reveal(rename_stuck);
                    }
                }
            }
            return Err(e);
        },
        Ok(_) => {},
    }
    let ghost d2 = dev.drive(pdrv);
    proof {
        lemma_data_in_body(g, d1, d2);
        lemma_body_twice(g, d0, d1, d2);
    }
    if attr / 16 % 2 == 1 && sdir != ddir && first != 0 {
        let mut slots: Vec<Vec<u8>> = Vec::new();
        slots.push(make_short_slot(&make_dot_name(2), ATTR_DIRECTORY, ddir, 0, written));
        let r = write_slots(vol, dev, first, 1, &slots);
        proof {
            let d3 = dev.drive(pdrv);
            lemma_data_in_body(g, d2, d3);
            lemma_body_twice(g, d0, d2, d3);
            assert(Seq::new(slots.len() as nat, |i: int| slots@[i]@) =~= dotdot_slots(ddir, written));
            if r is Ok {
                assert(renamed(
                    v0,
                    d0,
                    d1,
                    d2,
                    d3,
                    sdir,
                    found.index as int,
                    ddir,
                    name@,
                    a.index as int,
                    a.fragments as int,
                    a.short@,
                )) by {
                    reveal(renamed);
                }
            } else if d0.dependable || !r->Err_0.is_device() {
                assert(rename_stuck(
                    v0,
                    d0,
                    d1,
                    d2,
                    sdir,
                    found.index as int,
                    ddir,
                    name@,
                    a.index as int,
                    a.fragments as int,
                    a.short@,
                    r->Err_0,
                )) by {
                    reveal(rename_stuck);
                }
            }
        }
        return r;
    }
    proof {
        assert(renamed(
            v0,
            d0,
            d1,
            d2,
            d2,
            sdir,
            found.index as int,
            ddir,
            name@,
            a.index as int,
            a.fragments as int,
            a.short@,
        )) by {
            reveal(renamed);
        }
    }
    Ok(())
}

/// Gives the entry that `from` names the name and the place that `to`
/// names. See `rename_outcome` for the answer and for what holds
/// afterwards.
///
/// `InvalidParameter` is answered where `from` names the root directory,
/// `NotFound` where it names nothing, `AlreadyExists` where `to` names
/// the root directory or an entry that exists, `WriteProtected` on a
/// volume that was mounted from a protected medium; the drive is then left
/// as it is. The new entry is added before the old one is removed; it has
/// the attributes, the first cluster, the size and the time of the old
/// one. A directory that moves to another directory has its entry `..`
/// set to its new parent.
pub fn rename<H: FatfsDiskHandler>(vol: &mut Volume, dev: &mut H, from: &Vec<u16>, to: &Vec<u16>) -> (res:
    Result<(), FsError>)
    requires
        old(dev).inv(),
        old(vol).on(old(dev).drive(old(vol).pdrv)),
    ensures
        final(dev).inv(),
        same_volume(*old(vol), *final(vol)),
        final(vol).on(final(dev).drive(old(vol).pdrv)),
        body_changed(old(vol).geom, old(dev).drive(old(vol).pdrv), final(dev).drive(old(vol).pdrv)),
        rename_outcome(
            *old(vol),
            old(dev).drive(old(vol).pdrv),
            final(dev).drive(old(vol).pdrv),
            from@,
            to@,
            res,
        ),
{
    let ghost d0 = old(dev).drive(vol.pdrv);
    assert(body_changed(vol.geom, d0, d0));
    if vol.read_only {
        return Err(FsError::WriteProtected);
    }
    let (sdir, found) = match find_target(vol, dev, from) {
        Err(e) => {
            return Err(e);
        },
        Ok(Target::Root) => {
            return Err(FsError::InvalidParameter);
        },
        Ok(Target::Missing { dir: _, name: _ }) => {
            return Err(FsError::NotFound);
        },
        Ok(Target::Entry { dir, found }) => (dir, found),
    };
    let (ddir, name) = match find_target(vol, dev, to) {
        Err(e) => {
            return Err(e);
        },
        Ok(Target::Root) => {
            return Err(FsError::AlreadyExists);
        },
        Ok(Target::Entry { dir: _, found: _ }) => {
            return Err(FsError::AlreadyExists);
        },
        Ok(Target::Missing { dir, name }) => (dir, name),
    };
    proof {
        assert(vol.geom.slot(d0.sectors, sdir, found.index as int) == Some(found.slot@)) by {
            assert(vol.geom.slots(d0.sectors, sdir)(found.index as int) == Probe::Holds(found.slot@));
        }
    }
    proof {
        assert(entry_named(vol.geom, d0.sectors, from@) == (sdir, found.index as int));
        assert(missing_named(vol.geom, d0.sectors, to@) == (ddir, name@));
        assert(rename_refusal(*vol, d0.sectors, from@, to@) is None);
    }
    move_entry(vol, dev, sdir, &found, ddir, &name)
}

/// The name is `.` or `..`, which name a directory by its place and not by
/// an entry of its own.
pub open spec fn is_dots(name: Seq<u16>) -> bool {
    (name.len() == 1 && name[0] == 0x2E) || (name.len() == 2 && name[0] == 0x2E && name[1] == 0x2E)
}

/// The directory that `path` names: the root directory for a path without
/// names; the directory that the names lead to where the last name is `.`
/// or `..`; else the directory whose entry the path names. `NotFound` where
/// the path names nothing, `NotADirectory` where it names a file.
pub open spec fn dir_named(g: Geometry, disk: Seq<Seq<u8>>, path: Seq<u16>) -> Result<u32, FsError> {
    let names = path_names(path);
    if names.len() > 0 && is_dots(names[names.len() - 1]) {
        resolve_upto(g, disk, names, names.len())
    } else {
        match named(g, disk, path) {
            Err(e) => Err(e),
            Ok(Named::Root) => Ok(0u32),
            Ok(Named::Entry { dir, index }) => {
                let s = g.slot(disk, dir, index)->Some_0;
                if marks_dir(s[11]) {
                    Ok(short_fields(s).first_cluster)
                } else {
                    Err(FsError::NotADirectory)
                }
            },
            Ok(Named::Missing { .. }) => Err(FsError::NotFound),
        }
    }
}

/// Finds the directory that `path` names.
///
/// The drive is left as it is. On a drive that is not dependable the
/// answer may instead be the error of a failed read.
pub fn find_dir<H: FatfsDiskHandler>(vol: &Volume, dev: &mut H, path: &Vec<u16>) -> (res: Result<
    u32,
    FsError,
>)
    requires
        old(dev).inv(),
        vol.on(old(dev).drive(vol.pdrv)),
    ensures
        final(dev).inv(),
        final(dev).drive(vol.pdrv) == old(dev).drive(vol.pdrv),
        res == dir_named(vol.geom, old(dev).drive(vol.pdrv).sectors, path@) || (!old(dev).drive(
            vol.pdrv,
        ).dependable && res is Err && res->Err_0.is_device()),
{
    let names = split_path(path);
    let n = names.len();
    if n > 0 {
        let last = &names[n - 1];
        assert(name_views(names@)[n - 1] == last@);
        if (last.len() == 1 && last[0] == 0x2E) || (last.len() == 2 && last[0] == 0x2E && last[1]
            == 0x2E) {
            return resolve_dir(vol, dev, &names, n);
        }
    }
    match find_target(vol, dev, path) {
        Err(e) => Err(e),
        Ok(Target::Root) => Ok(0),
        Ok(Target::Entry { dir: _, found }) => {
            if found.slot[11] / 16 % 2 == 1 {
                Ok(slot_first_cluster(&found.slot))
            } else {
                Err(FsError::NotADirectory)
            }
        },
        Ok(Target::Missing { dir: _, name: _ }) => Err(FsError::NotFound),
    }
}

} // verus!
