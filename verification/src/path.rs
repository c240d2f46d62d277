//! Paths: how a path is cut into names, and how the names lead from the
//! root directory to a directory.

use vstd::prelude::*;
use crate::dir::{find_from, lookup, Scan};
use crate::dirent::{short_fields, slot_first_cluster};
use crate::diskio::FatfsDiskHandler;
use crate::error::FsError;
use crate::fat::Volume;
use crate::volume::Geometry;

verus! {

/// The unit separates the names of a path: a slash or a backslash.
pub open spec fn is_separator(u: u16) -> bool {
    u == 0x2F || u == 0x5C
}

/// `cur` as a sequence of one name, or of none where `cur` is empty.
pub open spec fn finished(cur: Seq<u16>) -> Seq<Seq<u16>> {
    if cur.len() > 0 {
        seq![cur]
    } else {
        Seq::empty()
    }
}

/// The names of `path` from unit `i` on, where `cur` holds the units of the
/// name that is being read.
pub open spec fn names_from(path: Seq<u16>, i: int, cur: Seq<u16>) -> Seq<Seq<u16>>
    decreases path.len() - i,
{
    if i >= path.len() {
        finished(cur)
    } else if is_separator(path[i]) {
        finished(cur) + names_from(path, i + 1, Seq::empty())
    } else {
        names_from(path, i + 1, cur.push(path[i]))
    }
}

/// The names of a path: the runs of units between its separators. Empty
/// runs, as between two separators that follow one another, name nothing.
pub open spec fn path_names(path: Seq<u16>) -> Seq<Seq<u16>> {
    names_from(path, 0, Seq::empty())
}

/// The units of each element of `v`.
pub open spec fn name_views(v: Seq<Vec<u16>>) -> Seq<Seq<u16>> {
    Seq::new(v.len(), |i: int| v[i]@)
}

/// Cuts a path into its names.
pub fn split_path(path: &Vec<u16>) -> (names: Vec<Vec<u16>>)
    ensures
        name_views(names@) == path_names(path@),
{
    let mut names: Vec<Vec<u16>> = Vec::new();
    let mut cur: Vec<u16> = Vec::new();
    let mut i: usize = 0;
    assert(name_views(names@) + names_from(path@, 0, cur@) =~= path_names(path@));
    while i < path.len()
        invariant
            i <= path.len(),
            name_views(names@) + names_from(path@, i as int, cur@) == path_names(path@),
        decreases path.len() - i,
    {
        let u = path[i];
        let ghost before = name_views(names@);
        let ghost name = cur@;
        if u == 0x2F || u == 0x5C {
            if cur.len() > 0 {
                names.push(cur);
                cur = Vec::new();
                assert(name_views(names@) =~= before + seq![name]);
                assert((before + seq![name]) + names_from(path@, i + 1, Seq::empty()) =~= before + (
                seq![name] + names_from(path@, i + 1, Seq::empty())));
            } else {
                assert(cur@ =~= Seq::<u16>::empty());
                assert(before + (Seq::<Seq<u16>>::empty() + names_from(
                    path@,
                    i + 1,
                    Seq::empty(),
                )) =~= before + names_from(path@, i + 1, Seq::empty()));
            }
        } else {
            cur.push(u);
        }
        i += 1;
    }
    if cur.len() > 0 {
        let ghost before = name_views(names@);
        let ghost name = cur@;
        names.push(cur);
        assert(name_views(names@) =~= before + seq![name]);
    } else {
        assert(name_views(names@) + Seq::<Seq<u16>>::empty() =~= name_views(names@));
    }
    names
}

/// The attribute byte marks a directory.
pub open spec fn marks_dir(attr: u8) -> bool {
    attr / 16 % 2 == 1
}

/// The name is the single dot that names the directory itself.
pub open spec fn is_dot(name: Seq<u16>) -> bool {
    name.len() == 1 && name[0] == 0x2E
}

/// The directory that `name` leads to from directory `dir`: `dir` itself
/// for a single dot, else the directory whose entry in `dir` goes by
/// `name`. `NotFound` where no entry goes by `name`, `NotADirectory` where
/// the entry is no directory, `CorruptVolume` where the chain of `dir`
/// leaves the data region.
pub open spec fn descend(g: Geometry, disk: Seq<Seq<u8>>, dir: u32, name: Seq<u16>) -> Result<
    u32,
    FsError,
> {
    if is_dot(name) {
        Ok(dir)
    } else {
        match find_from(g.slots(disk, dir), name, 0) {
            Scan::At(j) => {
                let s = g.slot(disk, dir, j)->Some_0;
                if marks_dir(s[11]) {
                    Ok(short_fields(s).first_cluster)
                } else {
                    Err(FsError::NotADirectory)
                }
            },
            Scan::Nothing => Err(FsError::NotFound),
            Scan::Broken => Err(FsError::CorruptVolume),
        }
    }
}

/// The directory that the first `n` of `names` lead to from the root
/// directory.
pub open spec fn resolve_upto(g: Geometry, disk: Seq<Seq<u8>>, names: Seq<Seq<u16>>, n: nat) -> Result<
    u32,
    FsError,
>
    decreases n,
{
    if n == 0 {
        Ok(0u32)
    } else {
        match resolve_upto(g, disk, names, (n - 1) as nat) {
            Ok(dir) => descend(g, disk, dir, names[n - 1]),
            Err(e) => Err(e),
        }
    }
}

/// Goes from directory `dir` to the directory that `name` leads to.
///
/// The drive is left as it is. On a drive that is not dependable the
/// answer may instead be the error of a failed read.
pub fn enter<H: FatfsDiskHandler>(vol: &Volume, dev: &mut H, dir: u32, name: &Vec<u16>) -> (res:
    Result<u32, FsError>)
    requires
        old(dev).inv(),
        vol.on(old(dev).drive(vol.pdrv)),
    ensures
        final(dev).inv(),
        final(dev).drive(vol.pdrv) == old(dev).drive(vol.pdrv),
        res == descend(vol.geom, old(dev).drive(vol.pdrv).sectors, dir, name@) || (!old(dev).drive(
            vol.pdrv,
        ).dependable && res is Err && res->Err_0.is_device()),
{
    if name.len() == 1 && name[0] == 0x2E {
        return Ok(dir);
    }
    match lookup(vol, dev, dir, name) {
        Err(e) => Err(e),
        Ok(None) => Err(FsError::NotFound),
        Ok(Some(found)) => {
            if found.slot[11] / 16 % 2 == 1 {
                Ok(slot_first_cluster(&found.slot))
            } else {
                Err(FsError::NotADirectory)
            }
        },
    }
}

/// Goes from the root directory through the first `n` of `names`, and
/// gives the directory that they lead to.
///
/// The drive is left as it is. On a drive that is not dependable the
/// answer may instead be the error of a failed read.
pub(crate) fn resolve_dir<H: FatfsDiskHandler>(vol: &Volume, dev: &mut H, names: &Vec<Vec<u16>>, n: usize) -> (res:
    Result<u32, FsError>)
    requires
        old(dev).inv(),
        vol.on(old(dev).drive(vol.pdrv)),
        n <= names.len(),
    ensures
        final(dev).inv(),
        final(dev).drive(vol.pdrv) == old(dev).drive(vol.pdrv),
        res == resolve_upto(
            vol.geom,
            old(dev).drive(vol.pdrv).sectors,
            name_views(names@),
            n as nat,
        ) || (!old(dev).drive(vol.pdrv).dependable && res is Err && res->Err_0.is_device()),
{
    let ghost disk = old(dev).drive(vol.pdrv).sectors;
    let ghost all = name_views(names@);
    let mut dir: u32 = 0;
    let mut k: usize = 0;
    while k < n
        invariant
            k <= n <= names.len(),
            dev.inv(),
            disk == old(dev).drive(vol.pdrv).sectors,
            dev.drive(vol.pdrv) == old(dev).drive(vol.pdrv),
            vol.on(dev.drive(vol.pdrv)),
            all == name_views(names@),
            resolve_upto(vol.geom, disk, all, k as nat) == Ok::<u32, FsError>(dir),
        decreases n - k,
    {
        assert(all[k as int] == names@[k as int]@);
        match enter(vol, dev, dir, &names[k]) {
            Err(e) => {
                proof {
                    if resolve_upto(vol.geom, disk, all, (k + 1) as nat) is Err {
                        lemma_resolve_fails(vol.geom, disk, all, (k + 1) as nat, n as nat);
                    }
                }
                return Err(e);
            },
            Ok(next) => {
                dir = next;
            },
        }
        k += 1;
    }
    Ok(dir)
}

/// Once a name of a path fails, the path fails with the same error.
pub proof fn lemma_resolve_fails(
    g: Geometry,
    disk: Seq<Seq<u8>>,
    names: Seq<Seq<u16>>,
    k: nat,
    n: nat,
)
    requires
        k <= n,
        resolve_upto(g, disk, names, k) is Err,
    ensures
        resolve_upto(g, disk, names, n) == resolve_upto(g, disk, names, k),
    decreases n - k,
{
    if k < n {
        lemma_resolve_fails(g, disk, names, k, (n - 1) as nat);
    }
}

/// A path that fails to lead to a directory fails with `NotFound`,
/// `NotADirectory` or `CorruptVolume`.
pub proof fn lemma_resolve_errors(g: Geometry, disk: Seq<Seq<u8>>, names: Seq<Seq<u16>>, n: nat)
    requires
        resolve_upto(g, disk, names, n) is Err,
    ensures
        resolve_upto(g, disk, names, n)->Err_0 == FsError::NotFound || resolve_upto(
            g,
            disk,
            names,
            n,
        )->Err_0 == FsError::NotADirectory || resolve_upto(g, disk, names, n)->Err_0
            == FsError::CorruptVolume,
    decreases n,
{
    if n > 0 {
        if resolve_upto(g, disk, names, (n - 1) as nat) is Err {
            lemma_resolve_errors(g, disk, names, (n - 1) as nat);
        }
    }
}

} // verus!
