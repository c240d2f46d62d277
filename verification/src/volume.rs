//! The volume descriptor: the boot sector's parameter block, and the geometry
//! of the volume that is derived from it.

use vstd::prelude::*;
use crate::bytes::{get_le16, get_le32, le16, le32};
use crate::diskio::Drive;
use crate::error::FsError;

verus! {

/// The width of the entries of the file allocation table.
#[derive(Clone, Copy, Debug, PartialEq, Eq, Structural)]
pub enum FatType {
    Fat12,
    Fat16,
    Fat32,
}

/// The largest number of clusters that a volume may have.
pub const MAX_CLUSTERS: u32 = 0x0FFF_FFF5;

/// The fields of the boot sector's parameter block that decide the layout
/// of the volume.
///
/// `wide` tells that the block has the FAT32 layout, with a 32-bit table
/// size and a root cluster; `root_cluster` is 0 where it does not.
#[derive(Clone, Copy, Debug, PartialEq, Eq, Structural)]
pub struct BootParams {
    pub bytes_per_sector: u16,
    pub sectors_per_cluster: u8,
    pub reserved_sectors: u16,
    pub fat_count: u8,
    pub root_entries: u16,
    pub total_sectors: u32,
    pub fat_size: u32,
    pub wide: bool,
    pub root_cluster: u32,
}

/// The layout of a mounted volume. Every sector number is absolute on the
/// drive.
#[derive(Clone, Copy, Debug, PartialEq, Eq, Structural)]
pub struct Geometry {
    pub fat_type: FatType,
    pub bytes_per_sector: u32,
    pub sectors_per_cluster: u32,
    pub fat_count: u32,
    /// Sectors of one copy of the table.
    pub fat_size: u32,
    /// Entries of the root directory of fixed size; 0 on FAT32.
    pub root_entries: u32,
    pub total_sectors: u32,
    /// The sector that holds the boot sector.
    pub volume_start: u32,
    /// The first sector of the first copy of the table.
    pub fat_start: u32,
    /// The first sector of the root directory of fixed size.
    pub root_start: u32,
    /// The first cluster of the root directory on FAT32; 0 otherwise.
    pub root_cluster: u32,
    /// The sector at which cluster 2 begins.
    pub data_start: u32,
    /// The number of clusters of the data region.
    pub cluster_count: u32,
}

/// A sector size that the engine supports.
pub open spec fn sector_size_ok(n: int) -> bool {
    n == 512 || n == 1024 || n == 2048 || n == 4096
}

/// A cluster size in sectors that the engine supports: a power of two up
/// to 128.
pub open spec fn cluster_size_ok(n: int) -> bool {
    n == 1 || n == 2 || n == 4 || n == 8 || n == 16 || n == 32 || n == 64 || n == 128
}

/// The table width that goes with a number of clusters.
pub open spec fn fat_type_of(clusters: int) -> FatType {
    if clusters < 4085 {
        FatType::Fat12
    } else if clusters < 65525 {
        FatType::Fat16
    } else {
        FatType::Fat32
    }
}

/// The bytes that a table of `entries` entries occupies.
pub open spec fn table_bytes(t: FatType, entries: int) -> int {
    match t {
        FatType::Fat12 => (entries * 3 + 1) / 2,
        FatType::Fat16 => entries * 2,
        FatType::Fat32 => entries * 4,
    }
}

impl Geometry {
    /// The sectors of the root directory of fixed size.
    pub open spec fn root_sectors(self) -> int {
        self.data_start - self.root_start
    }

    /// The first sector behind the volume.
    pub open spec fn end(self) -> int {
        self.volume_start + self.total_sectors
    }

    /// The number of table entries: one per cluster, and the two that are
    /// reserved.
    pub open spec fn entries(self) -> int {
        self.cluster_count + 2
    }

    /// The bytes of a cluster.
    pub open spec fn cluster_bytes(self) -> int {
        self.sectors_per_cluster * self.bytes_per_sector
    }

    /// The fields describe a layout that the engine accepts: the regions
    /// follow one another inside the volume, the table has room for an
    /// entry per cluster, and the table width goes with the cluster count.
    pub open spec fn wf(self) -> bool {
        &&& sector_size_ok(self.bytes_per_sector as int)
        &&& cluster_size_ok(self.sectors_per_cluster as int)
        &&& self.fat_count >= 1
        &&& self.fat_size >= 1
        &&& self.volume_start < self.fat_start
        &&& self.root_start == self.fat_start + self.fat_count * self.fat_size
        &&& self.root_start <= self.data_start
        &&& self.root_sectors() * self.bytes_per_sector == self.root_entries * 32
        &&& 1 <= self.cluster_count <= MAX_CLUSTERS
        &&& self.data_start + self.cluster_count * self.sectors_per_cluster <= self.end()
        &&& self.end() <= u32::MAX
        &&& self.fat_type == fat_type_of(self.cluster_count as int)
        &&& table_bytes(self.fat_type, self.entries()) <= self.fat_size * self.bytes_per_sector
        &&& if self.fat_type == FatType::Fat32 {
            self.root_entries == 0 && 2 <= self.root_cluster < self.entries()
        } else {
            self.root_entries >= 1 && self.root_cluster == 0
        }
    }

    /// The volume lies within the drive, and the drive's sectors have the
    /// volume's sector size.
    pub open spec fn fits(self, d: Drive) -> bool {
        &&& d.sector_size == self.bytes_per_sector
        &&& self.end() <= d.sectors.len()
    }

    /// `cluster` is the number of a cluster of the data region.
    pub open spec fn holds(self, cluster: int) -> bool {
        2 <= cluster < self.entries()
    }

    /// The first sector of cluster `cluster`.
    pub open spec fn first_sector(self, cluster: int) -> int {
        self.data_start + (cluster - 2) * self.sectors_per_cluster
    }

    /// The sector that holds the byte at offset `offset` of cluster
    /// `cluster`.
    pub open spec fn sector_at(self, cluster: int, offset: int) -> int {
        self.first_sector(cluster) + offset / (self.bytes_per_sector as int)
    }

    /// The sectors of a cluster of the data region lie behind the tables and
    /// the root directory, and inside the volume.
    pub proof fn lemma_cluster_sectors(self, cluster: int, k: int)
        requires
            self.wf(),
            self.holds(cluster),
            0 <= k < self.sectors_per_cluster,
        ensures
            self.data_start <= self.first_sector(cluster) + k < self.end(),
            self.first_sector(cluster) + k == self.data_start + (cluster - 2)
                * self.sectors_per_cluster + k,
    {
        let spc = self.sectors_per_cluster as int;
        assert(0 <= (cluster - 2) * spc && (cluster - 2) * spc + spc <= self.cluster_count * spc)
            by (nonlinear_arith)
            requires
                0 <= cluster - 2 < self.cluster_count,
                0 < spc,
        ;
    }

    /// Two sectors of the data region are the same only if they are the
    /// same sector of the same cluster.
    pub proof fn lemma_sectors_apart(self, c1: int, k1: int, c2: int, k2: int)
        requires
            self.wf(),
            0 <= k1 < self.sectors_per_cluster,
            0 <= k2 < self.sectors_per_cluster,
            self.first_sector(c1) + k1 == self.first_sector(c2) + k2,
        ensures
            c1 == c2,
            k1 == k2,
    {
        let spc = self.sectors_per_cluster as int;
        assert(c1 == c2 && k1 == k2) by (nonlinear_arith)
            requires
                0 <= k1 < spc,
                0 <= k2 < spc,
                (c1 - 2) * spc + k1 == (c2 - 2) * spc + k2,
        ;
    }

    /// Converts a position in a cluster to the sector that holds it.
    ///
    /// `offset` is a byte offset within the cluster. The answer is
    /// `InvalidParameter` exactly when `cluster` is not a cluster of the
    /// data region or `offset` lies behind the cluster.
    pub fn cluster_to_sector(&self, cluster: u32, offset: u32) -> (res: Result<u32, FsError>)
        requires
            self.wf(),
        ensures
            res == if self.holds(cluster as int) && offset < self.cluster_bytes() {
                Ok::<u32, FsError>(self.sector_at(cluster as int, offset as int) as u32)
            } else {
                Err(FsError::InvalidParameter)
            },
            res is Ok ==> self.data_start <= res->Ok_0 < self.end(),
    {
        if cluster < 2 || cluster - 2 >= self.cluster_count {
            return Err(FsError::InvalidParameter);
        }
        assert(self.sectors_per_cluster * self.bytes_per_sector <= 128 * 4096) by (nonlinear_arith)
            requires
                self.sectors_per_cluster <= 128,
                self.bytes_per_sector <= 4096,
        ;
        if offset >= self.sectors_per_cluster * self.bytes_per_sector {
            return Err(FsError::InvalidParameter);
        }
        let k: u32 = offset / self.bytes_per_sector;
        proof {
            let bps = self.bytes_per_sector as int;
            let spc = self.sectors_per_cluster as int;
            assert(offset as int / bps < spc) by (nonlinear_arith)
                requires
                    0 <= offset < spc * bps,
                    0 < bps,
            ;
            self.lemma_cluster_sectors(cluster as int, k as int);
        }
        Ok(self.data_start + (cluster - 2) * self.sectors_per_cluster + k)
    }
}

/// The bytes "EXFAT   ", by which an exFAT volume is told from a FAT volume.
pub open spec fn exfat_name() -> Seq<u8> {
    seq![0x45u8, 0x58u8, 0x46u8, 0x41u8, 0x54u8, 0x20u8, 0x20u8, 0x20u8]
}

/// The parameter block that the boot sector `s` holds, if `s` is the boot
/// sector of a FAT volume: at least 512 bytes that end the first 512 with
/// the signature 55 AA, and that do not name exFAT.
pub open spec fn decode_boot(s: Seq<u8>) -> Option<BootParams> {
    if s.len() < 512 || s[510] != 0x55 || s[511] != 0xAA || s.subrange(3, 11) == exfat_name() {
        None
    } else {
        let total16 = le16(s, 19);
        let size16 = le16(s, 22);
        Some(
            BootParams {
                bytes_per_sector: le16(s, 11) as u16,
                sectors_per_cluster: s[13],
                reserved_sectors: le16(s, 14) as u16,
                fat_count: s[16],
                root_entries: le16(s, 17) as u16,
                total_sectors: if total16 != 0 {
                    total16 as u32
                } else {
                    le32(s, 32) as u32
                },
                fat_size: if size16 != 0 {
                    size16 as u32
                } else {
                    le32(s, 36) as u32
                },
                wide: size16 == 0,
                root_cluster: if size16 == 0 {
                    le32(s, 44) as u32
                } else {
                    0
                },
            },
        )
    }
}

/// The geometry of the volume that starts at sector `base` of a drive of
/// `device_sectors` sectors and has the parameter block `p`; `None` where
/// the block is inconsistent or describes a layout that the engine does not
/// accept.
pub open spec fn derive_geometry(p: BootParams, base: int, device_sectors: int) -> Option<Geometry> {
    let bps = p.bytes_per_sector as int;
    let spc = p.sectors_per_cluster as int;
    let root_bytes = p.root_entries * 32;
    let fat_start = base + p.reserved_sectors;
    let root_start = fat_start + p.fat_count * p.fat_size;
    let data_start = root_start + root_bytes / bps;
    let end = base + p.total_sectors;
    let count = (end - data_start) / spc;
    let fat_type = fat_type_of(count);
    if sector_size_ok(bps) && cluster_size_ok(spc) && p.reserved_sectors >= 1 && p.fat_count >= 1
        && p.fat_size >= 1 && root_bytes % bps == 0 && data_start <= end && end <= device_sectors
        && end <= u32::MAX && 1 <= count <= MAX_CLUSTERS && (fat_type == FatType::Fat32) == p.wide
        && (if p.wide {
        p.root_entries == 0 && 2 <= p.root_cluster < count + 2
    } else {
        p.root_entries >= 1 && p.root_cluster == 0
    }) && table_bytes(fat_type, count + 2) <= p.fat_size * bps {
        Some(
            Geometry {
                fat_type,
                bytes_per_sector: bps as u32,
                sectors_per_cluster: spc as u32,
                fat_count: p.fat_count as u32,
                fat_size: p.fat_size,
                root_entries: p.root_entries as u32,
                total_sectors: p.total_sectors,
                volume_start: base as u32,
                fat_start: fat_start as u32,
                root_start: root_start as u32,
                root_cluster: p.root_cluster,
                data_start: data_start as u32,
                cluster_count: count as u32,
            },
        )
    } else {
        None
    }
}

/// The geometry that the boot sector `s`, read from sector `base` of a drive
/// of `device_sectors` sectors, gives: the sector must hold a parameter
/// block, have the size that the block names, and describe an acceptable
/// layout.
pub open spec fn boot_geometry(s: Seq<u8>, base: int, device_sectors: int) -> Option<Geometry> {
    match decode_boot(s) {
        Some(p) => if p.bytes_per_sector == s.len() {
            derive_geometry(p, base, device_sectors)
        } else {
            None
        },
        None => None,
    }
}

/// A derived geometry is well formed, starts at the given sector and lies
/// within the given number of sectors.
pub proof fn lemma_derived_wf(p: BootParams, base: int, device_sectors: int)
    requires
        0 <= base,
        derive_geometry(p, base, device_sectors) is Some,
    ensures
        ({
            let g = derive_geometry(p, base, device_sectors)->Some_0;
            g.wf() && g.volume_start == base && g.end() <= device_sectors && g.bytes_per_sector
                == p.bytes_per_sector
        }),
{
    let g = derive_geometry(p, base, device_sectors)->Some_0;
    let bps = p.bytes_per_sector as int;
    let spc = p.sectors_per_cluster as int;
    let root_bytes = p.root_entries * 32;
    let fat_start = base + p.reserved_sectors;
    let root_start = fat_start + p.fat_count * p.fat_size;
    let data_start = root_start + root_bytes / bps;
    let end = base + p.total_sectors;
    let count = (end - data_start) / spc;
    assert(0 <= p.fat_count * p.fat_size) by (nonlinear_arith);
    assert(0 <= root_bytes / bps && (root_bytes / bps) * bps == root_bytes) by (nonlinear_arith)
        requires
            0 <= root_bytes,
            0 < bps,
            root_bytes % bps == 0,
    ;
    assert(count * spc <= end - data_start) by (nonlinear_arith)
        requires
            count == (end - data_start) / spc,
            0 < spc,
            0 <= end - data_start,
    ;
}

/// Reads the parameter block of a boot sector.
pub fn read_boot_params(sector: &Vec<u8>) -> (res: Option<BootParams>)
    ensures
        res == decode_boot(sector@),
{
    if sector.len() < 512 || sector[510] != 0x55 || sector[511] != 0xAA {
        return None;
    }
    if sector[3] == 0x45 && sector[4] == 0x58 && sector[5] == 0x46 && sector[6] == 0x41 && sector[7]
        == 0x54 && sector[8] == 0x20 && sector[9] == 0x20 && sector[10] == 0x20 {
        assert(sector@.subrange(3, 11) =~= exfat_name());
        return None;
    }
    proof {
        let name = sector@.subrange(3, 11);
        if name == exfat_name() {
            assert(name[0] == 0x45 && name[1] == 0x58 && name[2] == 0x46 && name[3] == 0x41);
            assert(name[4] == 0x54 && name[5] == 0x20 && name[6] == 0x20 && name[7] == 0x20);
        }
    }
    let total16 = get_le16(sector, 19);
    let size16 = get_le16(sector, 22);
    let wide = size16 == 0;
    Some(
        BootParams {
            bytes_per_sector: get_le16(sector, 11),
            sectors_per_cluster: sector[13],
            reserved_sectors: get_le16(sector, 14),
            fat_count: sector[16],
            root_entries: get_le16(sector, 17),
            total_sectors: if total16 != 0 {
                total16 as u32
            } else {
                get_le32(sector, 32)
            },
            fat_size: if wide {
                get_le32(sector, 36)
            } else {
                size16 as u32
            },
            wide,
            root_cluster: if wide {
                get_le32(sector, 44)
            } else {
                0
            },
        },
    )
}

/// Derives the geometry of a volume from its parameter block.
///
/// The answer is `CorruptVolume` exactly when the block is inconsistent or
/// describes a layout that the engine does not accept.
pub fn geometry_from_params(p: &BootParams, base: u32, device_sectors: u32) -> (res: Result<
    Geometry,
    FsError,
>)
    ensures
        res == match derive_geometry(*p, base as int, device_sectors as int) {
            Some(g) => Ok::<Geometry, FsError>(g),
            None => Err(FsError::CorruptVolume),
        },
        res is Ok ==> res->Ok_0.wf() && res->Ok_0.volume_start == base && res->Ok_0.end()
            <= device_sectors,
{
    let bps = p.bytes_per_sector as u64;
    let spc = p.sectors_per_cluster as u64;
    if !(bps == 512 || bps == 1024 || bps == 2048 || bps == 4096) {
        return Err(FsError::CorruptVolume);
    }
    if !(spc == 1 || spc == 2 || spc == 4 || spc == 8 || spc == 16 || spc == 32 || spc == 64 || spc
        == 128) {
        return Err(FsError::CorruptVolume);
    }
    if p.reserved_sectors == 0 || p.fat_count == 0 || p.fat_size == 0 {
        return Err(FsError::CorruptVolume);
    }
    let root_bytes: u64 = p.root_entries as u64 * 32;
    if root_bytes % bps != 0 {
        return Err(FsError::CorruptVolume);
    }
    let fat_start: u64 = base as u64 + p.reserved_sectors as u64;
    assert(p.fat_count * p.fat_size <= 255 * 0xffff_ffff) by (nonlinear_arith)
        requires
            p.fat_count <= 255,
            p.fat_size <= 0xffff_ffff,
    ;
    let root_start: u64 = fat_start + p.fat_count as u64 * p.fat_size as u64;
    let data_start: u64 = root_start + root_bytes / bps;
    let end: u64 = base as u64 + p.total_sectors as u64;
    if data_start > end || end > device_sectors as u64 {
        return Err(FsError::CorruptVolume);
    }
    let count: u64 = (end - data_start) / spc;
    if count < 1 || count > MAX_CLUSTERS as u64 {
        return Err(FsError::CorruptVolume);
    }
    let fat_type = if count < 4085 {
        FatType::Fat12
    } else if count < 65525 {
        FatType::Fat16
    } else {
        FatType::Fat32
    };
    let is32 = count >= 65525;
    if is32 != p.wide {
        return Err(FsError::CorruptVolume);
    }
    if p.wide {
        if p.root_entries != 0 || p.root_cluster < 2 || p.root_cluster as u64 >= count + 2 {
            return Err(FsError::CorruptVolume);
        }
    } else {
        if p.root_entries == 0 || p.root_cluster != 0 {
            return Err(FsError::CorruptVolume);
        }
    }
    let needed: u64 = match fat_type {
        FatType::Fat12 => ((count + 2) * 3 + 1) / 2,
        FatType::Fat16 => (count + 2) * 2,
        FatType::Fat32 => (count + 2) * 4,
    };
    assert(p.fat_size * bps <= 0xffff_ffff * 4096) by (nonlinear_arith)
        requires
            p.fat_size <= 0xffff_ffff,
            bps <= 4096,
    ;
    if needed > p.fat_size as u64 * bps {
        return Err(FsError::CorruptVolume);
    }
    proof {
        lemma_derived_wf(*p, base as int, device_sectors as int);
    }
    Ok(
        Geometry {
            fat_type,
            bytes_per_sector: bps as u32,
            sectors_per_cluster: spc as u32,
            fat_count: p.fat_count as u32,
            fat_size: p.fat_size,
            root_entries: p.root_entries as u32,
            total_sectors: p.total_sectors,
            volume_start: base,
            fat_start: fat_start as u32,
            root_start: root_start as u32,
            root_cluster: p.root_cluster,
            data_start: data_start as u32,
            cluster_count: count as u32,
        },
    )
}

/// Parses the boot sector `sector`, read from sector `base` of a drive of
/// `device_sectors` sectors, and derives the geometry of the volume.
///
/// The answer is `CorruptVolume` exactly when the signature is missing, the
/// sector names exFAT, its size is not the sector size that it names, or
/// the geometry is inconsistent.
pub fn parse_boot_sector(sector: &Vec<u8>, base: u32, device_sectors: u32) -> (res: Result<
    Geometry,
    FsError,
>)
    ensures
        res == match boot_geometry(sector@, base as int, device_sectors as int) {
            Some(g) => Ok::<Geometry, FsError>(g),
            None => Err(FsError::CorruptVolume),
        },
        res is Ok ==> res->Ok_0.wf() && res->Ok_0.volume_start == base && res->Ok_0.end()
            <= device_sectors && res->Ok_0.bytes_per_sector == sector@.len(),
{
    match read_boot_params(sector) {
        None => Err(FsError::CorruptVolume),
        Some(p) => {
            if p.bytes_per_sector as usize != sector.len() {
                Err(FsError::CorruptVolume)
            } else {
                geometry_from_params(&p, base, device_sectors)
            }
        },
    }
}

} // verus!
