//! Formatting: the parameter block that fits a drive, the boot sector that
//! holds it, and the empty tables and root directory of a fresh volume.

use vstd::prelude::*;
use crate::bytes::{
    le16, le16_bytes, le32, le32_bytes, lemma_le16_at, lemma_le32_at, overlay, put_bytes,
    zero_bytes, zeros,
};
use crate::diskio::flat;
use crate::region::{lemma_flat_index, lemma_split};
use crate::error::FsError;
use crate::diskio::{read_sector, sector_count, write_sector, Drive, FatfsDiskHandler};
use crate::volume::{
    boot_geometry, cluster_size_ok, decode_boot, derive_geometry, exfat_name, geometry_from_params,
    sector_size_ok, table_bytes, BootParams, FatType, Geometry,
};

verus! {

/// What the caller asks of a new volume. A field that is 0 leaves the
/// choice to the engine.
#[derive(Clone, Copy, Debug)]
pub struct FormatOptions {
    /// Sectors per cluster: a power of two up to 128, or 0.
    pub sectors_per_cluster: u8,
    /// The number of copies of the table, or 0 for two.
    pub fat_count: u8,
    /// The number of entries of a root directory of fixed size, or 0 for
    /// 512. A FAT32 volume has no such root directory.
    pub root_entries: u16,
    /// The serial number of the volume.
    pub serial: u32,
}

/// The 16-bit field for the number of sectors: the number where it is
/// small and the layout is not that of FAT32, else 0.
pub open spec fn total16_of(p: BootParams) -> int {
    if !p.wide && p.total_sectors < 0x10000 {
        p.total_sectors as int
    } else {
        0
    }
}

/// The 32-bit field for the number of sectors: 0 where the 16-bit field
/// holds the number.
pub open spec fn total32_of(p: BootParams) -> int {
    if !p.wide && p.total_sectors < 0x10000 {
        0
    } else {
        p.total_sectors as int
    }
}

/// Bytes 0 to 20 of a boot sector: the jump, the name of the formatter, and
/// the parameter block up to the 16-bit number of sectors.
pub open spec fn boot_part1(p: BootParams) -> Seq<u8> {
    seq![0xEBu8, 0xFEu8, 0x90u8, 0x4Du8, 0x53u8, 0x44u8, 0x4Fu8, 0x53u8, 0x35u8, 0x2Eu8, 0x30u8]
        + le16_bytes(p.bytes_per_sector as int) + seq![p.sectors_per_cluster] + le16_bytes(
        p.reserved_sectors as int,
    ) + seq![p.fat_count] + le16_bytes(p.root_entries as int) + le16_bytes(total16_of(p))
}

/// Bytes 21 to 35 of a boot sector: the media byte, the 16-bit table size,
/// the disk geometry, the hidden sectors and the 32-bit number of sectors.
pub open spec fn boot_part2(p: BootParams, hidden: u32) -> Seq<u8> {
    seq![0xF8u8] + le16_bytes(
        if p.wide {
            0
        } else {
            p.fat_size as int
        },
    ) + le16_bytes(63) + le16_bytes(255) + le32_bytes(hidden as int) + le32_bytes(total32_of(p))
}

/// Bytes 36 to 63 of a boot sector in the FAT32 layout: the 32-bit table
/// size, the flags, the version, the root cluster, the sector of the
/// information block, no copy of the boot sector, and 12 reserved bytes.
pub open spec fn boot_part3(p: BootParams) -> Seq<u8> {
    le32_bytes(p.fat_size as int) + le16_bytes(0) + le16_bytes(0) + le32_bytes(
        p.root_cluster as int,
    ) + le16_bytes(1) + le16_bytes(0) + zeros(12)
}

/// The drive number, the extended signature and the serial number.
pub open spec fn boot_tail(serial: u32) -> Seq<u8> {
    seq![0x80u8, 0u8, 0x29u8] + le32_bytes(serial as int)
}

/// The head of a boot sector: the jump, the name of the formatter, and the
/// parameter block.
pub open spec fn boot_head(p: BootParams, hidden: u32, serial: u32) -> Seq<u8> {
    if p.wide {
        boot_part1(p) + boot_part2(p, hidden) + boot_part3(p) + boot_tail(serial)
    } else {
        boot_part1(p) + boot_part2(p, hidden) + boot_tail(serial)
    }
}

/// The boot sector of a volume with the parameter block `p`: the head, zero
/// bytes, and the signature 55 AA at offset 510.
pub open spec fn boot_sector(p: BootParams, hidden: u32, serial: u32) -> Seq<u8> {
    let head = boot_head(p, hidden, serial);
    head + zeros((510 - head.len()) as nat) + seq![0x55u8, 0xAAu8] + zeros(
        (p.bytes_per_sector - 512) as nat,
    )
}

/// The parameter block can be stored in a boot sector and read back: a
/// block of the FAT12 and FAT16 layout has a table size that 16 bits hold
/// and no root cluster.
pub open spec fn storable(p: BootParams) -> bool {
    &&& p.bytes_per_sector >= 512
    &&& !p.wide ==> 1 <= p.fat_size < 0x10000 && p.root_cluster == 0
}

/// The fields of the first part of a boot sector.
proof fn lemma_boot_part1(p: BootParams)
    ensures
        boot_part1(p).len() == 21,
        boot_part1(p)[3] == 0x4D,
        le16(boot_part1(p), 11) == p.bytes_per_sector,
        boot_part1(p)[13] == p.sectors_per_cluster,
        le16(boot_part1(p), 14) == p.reserved_sectors,
        boot_part1(p)[16] == p.fat_count,
        le16(boot_part1(p), 17) == p.root_entries,
        le16(boot_part1(p), 19) == total16_of(p),
{
    let h = boot_part1(p);
    assert(h.len() == 21);
    assert(h[3] == 0x4D);
    assert(h[11] == le16_bytes(p.bytes_per_sector as int)[0] && h[12] == le16_bytes(
        p.bytes_per_sector as int,
    )[1]);
    assert(h[13] == p.sectors_per_cluster);
    assert(h[14] == le16_bytes(p.reserved_sectors as int)[0] && h[15] == le16_bytes(
        p.reserved_sectors as int,
    )[1]);
    assert(h[16] == p.fat_count);
    assert(h[17] == le16_bytes(p.root_entries as int)[0] && h[18] == le16_bytes(
        p.root_entries as int,
    )[1]);
    assert(h[19] == le16_bytes(total16_of(p))[0] && h[20] == le16_bytes(total16_of(p))[1]);
    lemma_le16_at(h, 11, p.bytes_per_sector as int);
    lemma_le16_at(h, 14, p.reserved_sectors as int);
    lemma_le16_at(h, 17, p.root_entries as int);
    lemma_le16_at(h, 19, total16_of(p));
}

/// The fields of the second part of a boot sector.
proof fn lemma_boot_part2(p: BootParams, hidden: u32)
    requires
        storable(p),
    ensures
        boot_part2(p, hidden).len() == 15,
        le16(boot_part2(p, hidden), 1) == if p.wide {
            0
        } else {
            p.fat_size as int
        },
        le32(boot_part2(p, hidden), 11) == total32_of(p),
{
    let h = boot_part2(p, hidden);
    let size16 = if p.wide {
        0
    } else {
        p.fat_size as int
    };
    assert(h.len() == 15);
    assert(h[1] == le16_bytes(size16)[0] && h[2] == le16_bytes(size16)[1]);
    let t = total32_of(p);
    assert(h[11] == le32_bytes(t)[0] && h[12] == le32_bytes(t)[1] && h[13] == le32_bytes(t)[2]
        && h[14] == le32_bytes(t)[3]);
    lemma_le16_at(h, 1, size16);
    lemma_le32_at(h, 11, t);
}

/// The fields of the third part of a boot sector.
proof fn lemma_boot_part3(p: BootParams)
    ensures
        boot_part3(p).len() == 28,
        le32(boot_part3(p), 0) == p.fat_size,
        le32(boot_part3(p), 8) == p.root_cluster,
{
    let h = boot_part3(p);
    let fs = p.fat_size as int;
    let rc = p.root_cluster as int;
    let a = le32_bytes(fs) + le16_bytes(0) + le16_bytes(0);
    let b = a + le32_bytes(rc);
    let c = b + le16_bytes(1) + le16_bytes(0);
    assert(a.len() == 8 && b.len() == 12 && c.len() == 16);
    assert(h == c + zeros(12));
    assert(h.len() == 28);
    assert(a[0] == le32_bytes(fs)[0] && a[1] == le32_bytes(fs)[1] && a[2] == le32_bytes(fs)[2]
        && a[3] == le32_bytes(fs)[3]);
    assert(b[0] == a[0] && b[1] == a[1] && b[2] == a[2] && b[3] == a[3]);
    assert(b[8] == le32_bytes(rc)[0] && b[9] == le32_bytes(rc)[1] && b[10] == le32_bytes(rc)[2]
        && b[11] == le32_bytes(rc)[3]);
    assert(c[0] == b[0] && c[1] == b[1] && c[2] == b[2] && c[3] == b[3]);
    assert(c[8] == b[8] && c[9] == b[9] && c[10] == b[10] && c[11] == b[11]);
    assert(h[0] == c[0] && h[1] == c[1] && h[2] == c[2] && h[3] == c[3]);
    assert(h[8] == c[8] && h[9] == c[9] && h[10] == c[10] && h[11] == c[11]);
    lemma_le32_at(h, 0, fs);
    lemma_le32_at(h, 8, rc);
}

/// The head of a boot sector has 43 bytes, or 71 in the FAT32 layout, and
/// holds each field at its place.
proof fn lemma_boot_head(p: BootParams, hidden: u32, serial: u32)
    requires
        storable(p),
    ensures
        boot_head(p, hidden, serial).len() == if p.wide {
            71int
        } else {
            43int
        },
        boot_head(p, hidden, serial)[3] == 0x4D,
        le16(boot_head(p, hidden, serial), 11) == p.bytes_per_sector,
        boot_head(p, hidden, serial)[13] == p.sectors_per_cluster,
        le16(boot_head(p, hidden, serial), 14) == p.reserved_sectors,
        boot_head(p, hidden, serial)[16] == p.fat_count,
        le16(boot_head(p, hidden, serial), 17) == p.root_entries,
        le16(boot_head(p, hidden, serial), 19) == total16_of(p),
        le16(boot_head(p, hidden, serial), 22) == if p.wide {
            0
        } else {
            p.fat_size as int
        },
        le32(boot_head(p, hidden, serial), 32) == total32_of(p),
        p.wide ==> le32(boot_head(p, hidden, serial), 36) == p.fat_size,
        p.wide ==> le32(boot_head(p, hidden, serial), 44) == p.root_cluster,
{
    let h = boot_head(p, hidden, serial);
    let one = boot_part1(p);
    let two = boot_part2(p, hidden);
    let three = boot_part3(p);
    lemma_boot_part1(p);
    lemma_boot_part2(p, hidden);
    lemma_boot_part3(p);
    assert forall|i: int| 0 <= i < 21 implies h[i] == one[i] by {}
    assert forall|i: int| 0 <= i < 15 implies h[21 + i] == two[i] by {}
    assert(h[22] == two[1] && h[23] == two[2]);
    assert(h[32] == two[11] && h[33] == two[12] && h[34] == two[13] && h[35] == two[14]);
    assert(le16(h, 11) == le16(one, 11));
    assert(le16(h, 14) == le16(one, 14));
    assert(le16(h, 17) == le16(one, 17));
    assert(le16(h, 19) == le16(one, 19));
    assert(le16(h, 22) == le16(two, 1));
    assert(le32(h, 32) == le32(two, 11));
    if p.wide {
        assert forall|i: int| 0 <= i < 28 implies h[36 + i] == three[i] by {}
        assert(h[36] == three[0] && h[37] == three[1] && h[38] == three[2] && h[39] == three[3]);
        assert(h[44] == three[8] && h[45] == three[9] && h[46] == three[10] && h[47] == three[11]);
        assert(le32(h, 36) == le32(three, 0));
        assert(le32(h, 44) == le32(three, 8));
    }
}

/// A parameter block that was stored in a boot sector is read back as it
/// was.
pub proof fn lemma_boot_round_trip(p: BootParams, hidden: u32, serial: u32)
    requires
        storable(p),
    ensures
        boot_sector(p, hidden, serial).len() == p.bytes_per_sector,
        decode_boot(boot_sector(p, hidden, serial)) == Some(p),
{
    let h = boot_head(p, hidden, serial);
    let s = boot_sector(p, hidden, serial);
    lemma_boot_head(p, hidden, serial);
    assert(s.len() == p.bytes_per_sector);
    assert(s[510] == 0x55 && s[511] == 0xAA);
    assert forall|i: int| 0 <= i < h.len() implies s[i] == h[i] by {}
    assert(s.subrange(3, 11)[0] == 0x4D);
    assert(exfat_name()[0] == 0x45);
    assert(le16(s, 11) == le16(h, 11));
    assert(le16(s, 14) == le16(h, 14));
    assert(le16(s, 17) == le16(h, 17));
    assert(le16(s, 19) == le16(h, 19));
    assert(le16(s, 22) == le16(h, 22));
    assert(le32(s, 32) == le32(h, 32));
    if p.wide {
        assert(le32(s, 36) == le32(h, 36));
        assert(le32(s, 44) == le32(h, 44));
    }
}

/// Appends the two bytes of a 16-bit number.
fn push16(out: &mut Vec<u8>, v: u16)
    ensures
        final(out)@ == old(out)@ + le16_bytes(v as int),
{
    out.push((v % 256) as u8);
    out.push((v / 256) as u8);
    assert(out@ =~= old(out)@ + le16_bytes(v as int));
}

/// Appends the four bytes of a 32-bit number.
fn push32(out: &mut Vec<u8>, v: u32)
    ensures
        final(out)@ == old(out)@ + le32_bytes(v as int),
{
    out.push((v % 256) as u8);
    out.push((v / 256 % 256) as u8);
    out.push((v / 65536 % 256) as u8);
    out.push((v / 16777216) as u8);
    assert(out@ =~= old(out)@ + le32_bytes(v as int));
}

/// Appends `n` zero bytes.
fn push_zeros(out: &mut Vec<u8>, n: usize)
    ensures
        final(out)@ == old(out)@ + zeros(n as nat),
{
    let mut i: usize = 0;
    assert(out@ =~= old(out)@ + zeros(0));
    while i < n
        invariant
            i <= n,
            out@ == old(out)@ + zeros(i as nat),
        decreases n - i,
    {
        out.push(0u8);
        i += 1;
        assert(out@ =~= old(out)@ + zeros(i as nat));
    }
}

/// Builds the boot sector of a volume.
#[verifier::rlimit(40)]
pub fn make_boot_sector(p: &BootParams, hidden: u32, serial: u32) -> (out: Vec<u8>)
    requires
        storable(*p),
    ensures
        out@ == boot_sector(*p, hidden, serial),
        out.len() == p.bytes_per_sector,
{
    let small = !p.wide && p.total_sectors < 0x10000;
    let mut out: Vec<u8> = Vec::new();
    out.push(0xEB);
    out.push(0xFE);
    out.push(0x90);
    out.push(0x4D);
    out.push(0x53);
    out.push(0x44);
    out.push(0x4F);
    out.push(0x53);
    out.push(0x35);
    out.push(0x2E);
    out.push(0x30);
    assert(out@ =~= seq![
        0xEBu8,
        0xFEu8,
        0x90u8,
        0x4Du8,
        0x53u8,
        0x44u8,
        0x4Fu8,
        0x53u8,
        0x35u8,
        0x2Eu8,
        0x30u8,
    ]);
    push16(&mut out, p.bytes_per_sector);
    let ghost a = out@;
    out.push(p.sectors_per_cluster);
    assert(out@ =~= a + seq![p.sectors_per_cluster]);
    push16(&mut out, p.reserved_sectors);
    let ghost b = out@;
    out.push(p.fat_count);
    assert(out@ =~= b + seq![p.fat_count]);
    push16(&mut out, p.root_entries);
    push16(
        &mut out,
        if small {
            p.total_sectors as u16
        } else {
            0
        },
    );
    assert(out@ == boot_part1(*p));
    let mut two: Vec<u8> = Vec::new();
    two.push(0xF8);
    assert(two@ =~= seq![0xF8u8]);
    push16(
        &mut two,
        if p.wide {
            0
        } else {
            p.fat_size as u16
        },
    );
    push16(&mut two, 63);
    push16(&mut two, 255);
    push32(&mut two, hidden);
    push32(
        &mut two,
        if small {
            0
        } else {
            p.total_sectors
        },
    );
    assert(two@ == boot_part2(*p, hidden));
    out.append(&mut two);
    if p.wide {
        let mut three: Vec<u8> = Vec::new();
        assert(three@ + le32_bytes(p.fat_size as int) =~= le32_bytes(p.fat_size as int));
        push32(&mut three, p.fat_size);
        push16(&mut three, 0);
        push16(&mut three, 0);
        push32(&mut three, p.root_cluster);
        push16(&mut three, 1);
        push16(&mut three, 0);
        push_zeros(&mut three, 12);
        assert(three@ == boot_part3(*p));
        out.append(&mut three);
    }
    let mut tail: Vec<u8> = Vec::new();
    tail.push(0x80);
    tail.push(0);
    tail.push(0x29);
    assert(tail@ =~= seq![0x80u8, 0u8, 0x29u8]);
    push32(&mut tail, serial);
    out.append(&mut tail);
    proof {
        lemma_boot_head(*p, hidden, serial);
    }
    assert(out@ == boot_head(*p, hidden, serial));
    let pad: usize = 510 - out.len();
    push_zeros(&mut out, pad);
    let ghost e = out@;
    out.push(0x55);
    out.push(0xAA);
    assert(out@ =~= e + seq![0x55u8, 0xAAu8]);
    push_zeros(&mut out, p.bytes_per_sector as usize - 512);
    out
}

/// The cluster size in sectors that a volume of `total` sectors is given
/// where the caller names none.
pub open spec fn default_cluster_size(total: int) -> int {
    if total < 8400 {
        1
    } else if total < 0x10_0000 {
        4
    } else if total < 0x100_0000 {
        8
    } else {
        32
    }
}

/// The parameter block that is tried for a volume of `total` sectors of
/// `bps` bytes: in the FAT32 layout where `wide` says so, with a table that
/// has room for an entry per cluster that the volume could have.
pub open spec fn planned(total: u32, bps: u32, opts: FormatOptions, wide: bool) -> BootParams {
    let spc = if opts.sectors_per_cluster != 0 {
        opts.sectors_per_cluster as int
    } else {
        default_cluster_size(total as int)
    };
    let est = total / (spc as u32);
    let bytes = if wide {
        (est + 2) * 4
    } else if est < 4085 {
        ((est + 2) * 3 + 1) / 2
    } else {
        (est + 2) * 2
    };
    BootParams {
        bytes_per_sector: bps as u16,
        sectors_per_cluster: spc as u8,
        reserved_sectors: if wide {
            32
        } else {
            1
        },
        fat_count: if opts.fat_count != 0 {
            opts.fat_count
        } else {
            2
        },
        root_entries: if wide {
            0
        } else if opts.root_entries != 0 {
            opts.root_entries
        } else {
            512
        },
        total_sectors: total,
        fat_size: ((bytes + bps - 1) / (bps as int)) as u32,
        wide,
        root_cluster: if wide {
            2
        } else {
            0
        },
    }
}

/// What the options ask of a volume can be answered: the cluster size is
/// one that the engine supports, or left open.
pub open spec fn options_ok(opts: FormatOptions) -> bool {
    opts.sectors_per_cluster == 0 || cluster_size_ok(opts.sectors_per_cluster as int)
}

/// The parameter block and the geometry that `plan_format` decides on: the
/// FAT32 layout is tried first where the volume could have 65525 clusters
/// or more, then the layout of FAT12 and FAT16. `None` where the options
/// cannot be answered, or where neither layout gives a volume that the
/// engine accepts.
pub open spec fn plan_of(base: u32, device_sectors: u32, bps: u32, opts: FormatOptions) -> Option<
    (BootParams, Geometry),
> {
    if !options_ok(opts) || !sector_size_ok(bps as int) || device_sectors <= base {
        None
    } else {
        let total = (device_sectors - base) as u32;
        let first = planned(total, bps, opts, total / (planned(total, bps, opts, false).sectors_per_cluster as u32) >= 65525);
        let second = planned(total, bps, opts, false);
        match derive_geometry(first, base as int, device_sectors as int) {
            Some(g) => if first.wide || first.fat_size < 0x10000 {
                Some((first, g))
            } else {
                None
            },
            None => match derive_geometry(second, base as int, device_sectors as int) {
                Some(g) => if first.wide && second.fat_size < 0x10000 {
                    Some((second, g))
                } else {
                    None
                },
                None => None,
            },
        }
    }
}

/// Builds the parameter block that is tried for a volume.
fn plan_params(total: u32, bps: u32, opts: &FormatOptions, wide: bool) -> (p: BootParams)
    requires
        options_ok(*opts),
        sector_size_ok(bps as int),
    ensures
        p == planned(total, bps, *opts, wide),
{
    let spc: u32 = if opts.sectors_per_cluster != 0 {
        opts.sectors_per_cluster as u32
    } else if total < 8400 {
        1
    } else if total < 0x10_0000 {
        4
    } else if total < 0x100_0000 {
        8
    } else {
        32
    };
    let est: u64 = (total / spc) as u64;
    let bytes: u64 = if wide {
        (est + 2) * 4
    } else if est < 4085 {
        ((est + 2) * 3 + 1) / 2
    } else {
        (est + 2) * 2
    };
    let fat_size: u64 = (bytes + bps as u64 - 1) / bps as u64;
    assert(fat_size <= 0xFFFF_FFFF) by {
        assert((bytes + bps - 1) / (bps as int) <= 0x0200_0010int) by (nonlinear_arith)
            requires
                0 <= bytes <= 0x4_0000_0008,
                512 <= bps <= 4096,
        ;
    }
    BootParams {
        bytes_per_sector: bps as u16,
        sectors_per_cluster: spc as u8,
        reserved_sectors: if wide {
            32
        } else {
            1
        },
        fat_count: if opts.fat_count != 0 {
            opts.fat_count
        } else {
            2
        },
        root_entries: if wide {
            0
        } else if opts.root_entries != 0 {
            opts.root_entries
        } else {
            512
        },
        total_sectors: total,
        fat_size: fat_size as u32,
        wide,
        root_cluster: if wide {
            2
        } else {
            0
        },
    }
}

/// Decides on the parameter block and the geometry of a new volume that
/// begins at sector `base` of a drive of `device_sectors` sectors of `bps`
/// bytes and takes the rest of the drive.
///
/// `InvalidParameter` is answered exactly where the options cannot be
/// answered or give no volume that the engine accepts.
#[verifier::rlimit(30)]
pub fn plan_format(base: u32, device_sectors: u32, bps: u32, opts: &FormatOptions) -> (res: Result<
    (BootParams, Geometry),
    FsError,
>)
    ensures
        res == match plan_of(base, device_sectors, bps, *opts) {
            Some(plan) => Ok::<(BootParams, Geometry), FsError>(plan),
            None => Err(FsError::InvalidParameter),
        },
        res matches Ok((p, g)) ==> storable(p) && derive_geometry(
            p,
            base as int,
            device_sectors as int,
        ) == Some(g) && g.wf() && g.volume_start == base && g.end() <= device_sectors
            && p.bytes_per_sector == bps && g.bytes_per_sector == bps,
{
    let s = opts.sectors_per_cluster;
    if !(s == 0 || s == 1 || s == 2 || s == 4 || s == 8 || s == 16 || s == 32 || s == 64 || s
        == 128) {
        return Err(FsError::InvalidParameter);
    }
    if !(bps == 512 || bps == 1024 || bps == 2048 || bps == 4096) || device_sectors <= base {
        return Err(FsError::InvalidParameter);
    }
    let total: u32 = device_sectors - base;
    let second = plan_params(total, bps, opts, false);
    let wide = total / (second.sectors_per_cluster as u32) >= 65525;
    let first = plan_params(total, bps, opts, wide);
    match geometry_from_params(&first, base, device_sectors) {
        Ok(g) => {
            if first.wide || first.fat_size < 0x10000 {
                Ok((first, g))
            } else {
                Err(FsError::InvalidParameter)
            }
        },
        Err(_) => {
            match geometry_from_params(&second, base, device_sectors) {
                Ok(g) => {
                    if first.wide && second.fat_size < 0x10000 {
                        Ok((second, g))
                    } else {
                        Err(FsError::InvalidParameter)
                    }
                },
                Err(_) => Err(FsError::InvalidParameter),
            }
        },
    }
}

/// The first bytes of a fresh table: the two entries that stand for no
/// cluster, and on FAT32 the entry of the root directory's cluster, which
/// ends its chain.
pub open spec fn table_head(t: FatType) -> Seq<u8> {
    match t {
        FatType::Fat12 => seq![0xF8u8, 0xFFu8, 0xFFu8],
        FatType::Fat16 => seq![0xF8u8, 0xFFu8, 0xFFu8, 0xFFu8],
        FatType::Fat32 => seq![
            0xF8u8,
            0xFFu8,
            0xFFu8,
            0x0Fu8,
            0xFFu8,
            0xFFu8,
            0xFFu8,
            0x0Fu8,
            0xFFu8,
            0xFFu8,
            0xFFu8,
            0x0Fu8,
        ],
    }
}

/// The first sector behind what formatting clears: the tables, the root
/// directory of fixed size, and on FAT32 the cluster of the root
/// directory.
pub open spec fn cleared_end(g: Geometry) -> int {
    if g.fat_type == FatType::Fat32 {
        g.data_start + g.sectors_per_cluster
    } else {
        g.data_start as int
    }
}

/// The drive holds a fresh volume of geometry `g`: every copy of the table
/// begins with the head of a fresh table and is zero behind it, and the
/// root directory is zero.
pub open spec fn fresh(g: Geometry, disk: Seq<Seq<u8>>) -> bool {
    &&& forall|i: int|
        g.fat_start <= i < cleared_end(g) ==> #[trigger] disk[i] == if g.in_tables(i) && (i
            - g.fat_start) % (g.fat_size as int) == 0 {
            overlay(zeros(g.bytes_per_sector as nat), 0, table_head(g.fat_type))
        } else {
            zeros(g.bytes_per_sector as nat)
        }
}

/// Writes zero bytes to the sectors from `from` up to `to`.
fn zero_sectors<H: FatfsDiskHandler>(dev: &mut H, pdrv: u8, bps: u32, from: u32, to: u32) -> (res:
    Result<(), FsError>)
    requires
        old(dev).inv(),
        bps == old(dev).drive(pdrv).sector_size,
        from <= to <= old(dev).drive(pdrv).sectors.len(),
    ensures
        final(dev).inv(),
        old(dev).drive(pdrv).same_but(final(dev).drive(pdrv), |i: int| from <= i < to),
        match res {
            Ok(_) => forall|i: int|
                from <= i < to ==> #[trigger] final(dev).drive(pdrv).sectors[i] == zeros(bps as nat),
            Err(e) => e.is_device() && !old(dev).drive(pdrv).dependable,
        },
{
    let ghost d0 = old(dev).drive(pdrv);
    let blank = zero_bytes(bps as usize);
    let mut i: u32 = from;
    while i < to
        invariant
            from <= i <= to,
            to <= d0.sectors.len(),
            bps == d0.sector_size,
            blank@ == zeros(bps as nat),
            dev.inv(),
            d0 == old(dev).drive(pdrv),
            d0.same_but(dev.drive(pdrv), |k: int| from <= k < to),
            forall|k: int| from <= k < i ==> #[trigger] dev.drive(pdrv).sectors[k] == zeros(bps as nat),
        decreases to - i,
    {
        let ghost cur = dev.drive(pdrv);
        match write_sector(dev, pdrv, i, &blank) {
            Err(e) => {
                proof {
                    let next = dev.drive(pdrv);
                    assert forall|k: int|
                        0 <= k < d0.sectors.len() && !(from <= k < to) implies #[trigger] next.sectors[k]
                        == d0.sectors[k] by {
                        assert(cur.sectors[k] == d0.sectors[k]);
                    }
                }
                return Err(e);
            },
            Ok(_) => {},
        }
        proof {
            let next = dev.drive(pdrv);
            assert forall|k: int|
                0 <= k < d0.sectors.len() && !(from <= k < to) implies #[trigger] next.sectors[k]
                == d0.sectors[k] by {
                assert(cur.sectors[k] == d0.sectors[k]);
            }
        }
        i = i + 1;
    }
    Ok(())
}

/// Writes the head of a fresh table to the first sector of each copy of
/// the table.
fn write_heads<H: FatfsDiskHandler>(dev: &mut H, pdrv: u8, g: &Geometry) -> (res: Result<(), FsError>)
    requires
        old(dev).inv(),
        g.wf(),
        g.fits(old(dev).drive(pdrv)),
        forall|i: int|
            g.fat_start <= i < cleared_end(*g) ==> #[trigger] old(dev).drive(pdrv).sectors[i]
                == zeros(g.bytes_per_sector as nat),
    ensures
        final(dev).inv(),
        old(dev).drive(pdrv).same_but(final(dev).drive(pdrv), |i: int| g.in_tables(i)),
        match res {
            Ok(_) => fresh(*g, final(dev).drive(pdrv).sectors),
            Err(e) => e.is_device() && !old(dev).drive(pdrv).dependable,
        },
{
    let ghost d0 = old(dev).drive(pdrv);
    let mut head = zero_bytes(g.bytes_per_sector as usize);
    let mark: Vec<u8> = match g.fat_type {
        FatType::Fat12 => vec![0xF8u8, 0xFFu8, 0xFFu8],
        FatType::Fat16 => vec![0xF8u8, 0xFFu8, 0xFFu8, 0xFFu8],
        FatType::Fat32 => vec![
            0xF8u8,
            0xFFu8,
            0xFFu8,
            0x0Fu8,
            0xFFu8,
            0xFFu8,
            0xFFu8,
            0x0Fu8,
            0xFFu8,
            0xFFu8,
            0xFFu8,
            0x0Fu8,
        ],
    };
    assert(mark@ =~= table_head(g.fat_type));
    put_bytes(&mut head, 0, &mark);
    let mut copy: u32 = 0;
    while copy < g.fat_count
        invariant
            copy <= g.fat_count,
            g.wf(),
            g.fits(d0),
            dev.inv(),
            d0 == old(dev).drive(pdrv),
            head@ == overlay(zeros(g.bytes_per_sector as nat), 0, table_head(g.fat_type)),
            d0.same_but(dev.drive(pdrv), |i: int| g.in_tables(i)),
            forall|i: int|
                g.fat_start <= i < cleared_end(*g) ==> #[trigger] dev.drive(pdrv).sectors[i] == if i
                    < g.fat_start + copy * g.fat_size && g.in_tables(i) && (i - g.fat_start) % (
                g.fat_size as int) == 0 {
                    head@
                } else {
                    zeros(g.bytes_per_sector as nat)
                },
        decreases g.fat_count - copy,
    {
        let ghost cur = dev.drive(pdrv);
        proof {
            g.lemma_copy_bounds(copy as int);
        }
        let at: u32 = g.fat_start + copy * g.fat_size;
        match write_sector(dev, pdrv, at, &head) {
            Err(e) => {
                proof {
                    let next = dev.drive(pdrv);
                    assert forall|k: int|
                        0 <= k < d0.sectors.len() && !g.in_tables(k) implies #[trigger] next.sectors[k]
                        == d0.sectors[k] by {
                        assert(cur.sectors[k] == d0.sectors[k]);
                    }
                }
                return Err(e);
            },
            Ok(_) => {},
        }
        proof {
            let next = dev.drive(pdrv);
            let fs = g.fat_size as int;
            assert forall|k: int|
                0 <= k < d0.sectors.len() && !g.in_tables(k) implies #[trigger] next.sectors[k]
                == d0.sectors[k] by {
                assert(cur.sectors[k] == d0.sectors[k]);
            }
            assert forall|i: int| g.fat_start <= i < cleared_end(*g) implies #[trigger] next.sectors[i]
                == if i < g.fat_start + (copy + 1) * g.fat_size && g.in_tables(i) && (i
                - g.fat_start) % fs == 0 {
                head@
            } else {
                zeros(g.bytes_per_sector as nat)
            } by {
                let r = i - g.fat_start;
                assert((copy + 1) * fs == copy * fs + fs) by (nonlinear_arith);
                if i == at {
                    crate::region::lemma_join(copy as int, 0, fs);
                } else {
                    assert(next.sectors[i] == cur.sectors[i]);
                    if copy * fs <= r < copy * fs + fs {
                        crate::region::lemma_join(copy as int, r - copy * fs, fs);
                    }
                }
            }
        }
        copy = copy + 1;
    }
    proof {
        let last = dev.drive(pdrv);
        assert forall|i: int| g.fat_start <= i < cleared_end(*g) implies #[trigger] last.sectors[i]
            == if g.in_tables(i) && (i - g.fat_start) % (g.fat_size as int) == 0 {
            overlay(zeros(g.bytes_per_sector as nat), 0, table_head(g.fat_type))
        } else {
            zeros(g.bytes_per_sector as nat)
        } by {}
    }
    Ok(())
}

/// Clears the tables and the root directory of a volume, and writes the
/// head of each copy of the table.
fn lay_out<H: FatfsDiskHandler>(dev: &mut H, pdrv: u8, g: &Geometry) -> (res: Result<(), FsError>)
    requires
        old(dev).inv(),
        g.wf(),
        g.fits(old(dev).drive(pdrv)),
        g.fat_type == FatType::Fat32 ==> g.root_cluster == 2,
    ensures
        final(dev).inv(),
        old(dev).drive(pdrv).same_but(
            final(dev).drive(pdrv),
            |i: int| g.fat_start <= i < cleared_end(*g),
        ),
        match res {
            Ok(_) => fresh(*g, final(dev).drive(pdrv).sectors),
            Err(e) => e.is_device() && !old(dev).drive(pdrv).dependable,
        },
{
    let ghost d0 = old(dev).drive(pdrv);
    proof {
        g.lemma_copy_bounds(0);
        g.lemma_cluster_sectors(2, 0);
        g.lemma_cluster_sectors(2, g.sectors_per_cluster - 1);
    }
    let zero_end: u32 = match g.fat_type {
        FatType::Fat32 => g.data_start + g.sectors_per_cluster,
        _ => g.data_start,
    };
    match zero_sectors(dev, pdrv, g.bytes_per_sector, g.fat_start, zero_end) {
        Err(e) => {
            return Err(e);
        },
        Ok(_) => {},
    }
    let ghost d1 = dev.drive(pdrv);
    let r = write_heads(dev, pdrv, g);
    proof {
        lemma_frame_twice(
            d0,
            d1,
            dev.drive(pdrv),
            |i: int| g.fat_start <= i < zero_end,
            |i: int| g.in_tables(i),
            g.fat_start as int,
            cleared_end(*g),
        );
    }
    r
}

/// Formats the volume that begins at sector `base` of drive `pdrv` and
/// takes the rest of the drive, and gives its geometry.
///
/// The tables and the root directory are cleared, the head of each copy of
/// the table is written, and the boot sector is written last.
/// `InvalidParameter` is answered where the options give no volume that
/// the engine accepts; the drive is then left as it is. No sector before
/// `base` changes, and none behind what is cleared. On a drive that is not
/// dependable a transfer may fail midway: the answer is then the driver's
/// error.
#[verifier::rlimit(40)]
pub fn format_volume<H: FatfsDiskHandler>(dev: &mut H, pdrv: u8, base: u32, opts: &FormatOptions) -> (res:
    Result<Geometry, FsError>)
    requires
        old(dev).inv(),
    ensures
        final(dev).inv(),
        old(dev).drive(pdrv).same_but(final(dev).drive(pdrv), |i: int| base <= i),
        match res {
            Ok(g) => plan_of(
                base,
                old(dev).drive(pdrv).sectors.len() as u32,
                old(dev).drive(pdrv).sector_size as u32,
                *opts,
            ) matches Some((p, planned)) && planned == g && g.wf() && g.fits(
                final(dev).drive(pdrv),
            ) && g.volume_start == base && final(dev).drive(pdrv).sectors[base as int]
                == boot_sector(p, base, opts.serial) && boot_geometry(
                final(dev).drive(pdrv).sectors[base as int],
                base as int,
                final(dev).drive(pdrv).sectors.len() as int,
            ) == Some(g) && fresh(g, final(dev).drive(pdrv).sectors) && old(dev).drive(
                pdrv,
            ).same_but(final(dev).drive(pdrv), |i: int| base <= i < cleared_end(g)),
            Err(e) => (e == FsError::InvalidParameter && plan_of(
                base,
                old(dev).drive(pdrv).sectors.len() as u32,
                old(dev).drive(pdrv).sector_size as u32,
                *opts,
            ) is None && final(dev).drive(pdrv) == old(dev).drive(pdrv)) || (!old(dev).drive(
                pdrv,
            ).dependable && e.is_device()),
        },
{
    let ghost d0 = old(dev).drive(pdrv);
    proof {
        old(dev).inv_shape(pdrv);
    }
    assert(d0.same_but(d0, |i: int| base <= i));
    let count = match sector_count(dev, pdrv) {
        Err(e) => {
            return Err(e);
        },
        Ok(n) => n,
    };
    if count <= base {
        return Err(FsError::InvalidParameter);
    }
    let probe = match read_sector(dev, pdrv, base) {
        Err(e) => {
            return Err(e);
        },
        Ok(s) => s,
    };
    if probe.len() > 4096 {
        return Err(FsError::InvalidParameter);
    }
    let bps: u32 = probe.len() as u32;
    let (p, g) = match plan_format(base, count, bps, opts) {
        Err(e) => {
            return Err(e);
        },
        Ok(plan) => plan,
    };
    let ghost end = cleared_end(g);
    proof {
        g.lemma_copy_bounds(0);
    }
    match lay_out(dev, pdrv, &g) {
        Err(e) => {
            proof {
                lemma_frame_twice(
                    d0,
                    d0,
                    dev.drive(pdrv),
                    |i: int| false,
                    |i: int| g.fat_start <= i < end,
                    base as int,
                    end,
                );
            }
            return Err(e);
        },
        Ok(_) => {},
    }
    let ghost d2 = dev.drive(pdrv);
    let boot = make_boot_sector(&p, base, opts.serial);
    let r = write_sector(dev, pdrv, base, &boot);
    proof {
        let d3 = dev.drive(pdrv);
        lemma_frame_twice(
            d0,
            d2,
            d3,
            |i: int| g.fat_start <= i < end,
            |i: int| i == base,
            base as int,
            end,
        );
        if r is Ok {
            assert forall|i: int| g.fat_start <= i < end implies #[trigger] d3.sectors[i]
                == d2.sectors[i] by {}
            lemma_planned_mounts(base, count, bps, *opts, base, opts.serial);
        }
    }
    match r {
        Err(e) => Err(e),
        Ok(_) => Ok(g),
    }
}

/// Changes within a range of sectors add up to a change within the range.
proof fn lemma_frame_twice(
    a: Drive,
    b: Drive,
    c: Drive,
    first: spec_fn(int) -> bool,
    second: spec_fn(int) -> bool,
    from: int,
    to: int,
)
    requires
        a.same_but(b, first),
        b.same_but(c, second),
        forall|i: int| #[trigger] first(i) ==> from <= i < to,
        forall|i: int| #[trigger] second(i) ==> from <= i < to,
    ensures
        a.same_but(c, |i: int| from <= i < to),
        a.same_but(c, |i: int| from <= i),
{
    assert forall|i: int| 0 <= i < a.sectors.len() && !(from <= i < to) implies #[trigger] c.sectors[i]
        == a.sectors[i] by {
        assert(!first(i) && !second(i));
        assert(b.sectors[i] == a.sectors[i]);
    }
}

/// A volume that was planned can be mounted: the boot sector that holds
/// its parameter block gives the geometry that was planned.
pub proof fn lemma_planned_mounts(
    base: u32,
    device_sectors: u32,
    bps: u32,
    opts: FormatOptions,
    hidden: u32,
    serial: u32,
)
    requires
        plan_of(base, device_sectors, bps, opts) is Some,
    ensures
        boot_geometry(
            boot_sector(plan_of(base, device_sectors, bps, opts)->Some_0.0, hidden, serial),
            base as int,
            device_sectors as int,
        ) == Some(plan_of(base, device_sectors, bps, opts)->Some_0.1),
{
    let (p, g) = plan_of(base, device_sectors, bps, opts)->Some_0;
    assert(storable(p));
    lemma_boot_round_trip(p, hidden, serial);
}

/// The geometry that a boot sector gives does not depend on what the rest
/// of the drive holds: after any change that leaves the sectors before the
/// tables, and the number of sectors, the volume is mounted with the same
/// geometry as before.
pub proof fn lemma_remount_same_geometry(g: Geometry, before: Drive, after: Drive)
    requires
        g.wf(),
        g.fits(before),
        before.same_but(after, |i: int| g.fat_start <= i < g.end()),
    ensures
        boot_geometry(
            after.sectors[g.volume_start as int],
            g.volume_start as int,
            after.sectors.len() as int,
        ) == boot_geometry(
            before.sectors[g.volume_start as int],
            g.volume_start as int,
            before.sectors.len() as int,
        ),
{
    g.lemma_copy_bounds(0);
    assert(after.sectors[g.volume_start as int] == before.sectors[g.volume_start as int]);
}

/// The bytes of a copy of the table of a fresh volume: the head of a fresh
/// table, and zero behind it.
proof fn lemma_fresh_arena(g: Geometry, d: Drive, copy: int, k: int)
    requires
        g.wf(),
        d.wf(),
        g.fits(d),
        fresh(g, d.sectors),
        0 <= copy < g.fat_count,
        0 <= k < g.fat_size * g.bytes_per_sector,
    ensures
        g.arena(d.sectors, copy)[k] == if k < table_head(g.fat_type).len() {
            table_head(g.fat_type)[k]
        } else {
            0u8
        },
        g.arena(d.sectors, copy).len() == g.fat_size * g.bytes_per_sector,
{
    let bps = g.bytes_per_sector as int;
    let fs = g.fat_size as int;
    g.lemma_copy_bounds(copy);
    crate::diskio::lemma_flat_len(d.sectors, g.copy_start(copy), fs, d.sector_size);
    lemma_flat_index(d.sectors, g.copy_start(copy), fs, d.sector_size, k);
    let j = k / bps;
    let i = g.copy_start(copy) + j;
    crate::region::lemma_join(copy, j, fs);
    assert(i - g.fat_start == copy * fs + j);
    assert(g.in_tables(i));
    lemma_split(k, bps);
    assert((i - g.fat_start) % fs == j);
    let r = k % bps;
    assert(k == j * bps + r);
    if j == 0 {
        assert(j * bps == 0) by (nonlinear_arith)
            requires
                j == 0,
        ;
        assert(k == r);
    } else {
        assert(j * bps >= bps) by (nonlinear_arith)
            requires
                j >= 1,
                bps > 0,
        ;
        assert(k >= 512);
    }
    assert(d.sectors[i] == if j == 0 {
        overlay(zeros(g.bytes_per_sector as nat), 0, table_head(g.fat_type))
    } else {
        zeros(g.bytes_per_sector as nat)
    });
}

/// The table of a fresh volume records every cluster as free, but for the
/// cluster of the root directory on FAT32, which ends its own chain; and
/// every copy of the table mirrors the first.
pub proof fn lemma_fresh_table(g: Geometry, d: Drive)
    requires
        g.wf(),
        d.wf(),
        g.fits(d),
        fresh(g, d.sectors),
    ensures
        forall|n: int|
            2 <= n < g.entries() ==> #[trigger] g.table(d.sectors)[n] == if g.fat_type
                == FatType::Fat32 && n == 2 {
                0x0FFF_FFFFu32
            } else {
                0u32
            },
        forall|copy: int| 0 <= copy < g.fat_count ==> #[trigger] g.mirrored(d.sectors, copy),
        crate::fat::free_clusters(g.table(d.sectors)) == if g.fat_type == FatType::Fat32 {
            g.cluster_count - 1
        } else {
            g.cluster_count as int
        },
{
    let t = g.fat_type;
    let table = g.table(d.sectors);
    let used = table_bytes(t, g.entries());
    g.lemma_copy_bounds(0);
    let a0 = g.arena(d.sectors, 0);
    assert forall|n: int| 2 <= n < g.entries() implies #[trigger] table[n] == if t
        == FatType::Fat32 && n == 2 {
        0x0FFF_FFFFu32
    } else {
        0u32
    } by {
        crate::fat::lemma_entry_within(t, g.entries(), n);
        let off = crate::fat::entry_offset(t, n);
        let raw = crate::fat::entry_raw(t, a0, n);
        lemma_fresh_arena(g, d, 0, off);
        lemma_fresh_arena(g, d, 0, off + 1);
        assert(raw[0] == a0[off] && raw[1] == a0[off + 1]);
        if t == FatType::Fat32 {
            lemma_fresh_arena(g, d, 0, off + 2);
            lemma_fresh_arena(g, d, 0, off + 3);
            assert(raw[2] == a0[off + 2] && raw[3] == a0[off + 3]);
        }
    }
    assert forall|copy: int| 0 <= copy < g.fat_count implies #[trigger] g.mirrored(
        d.sectors,
        copy,
    ) by {
        g.lemma_copy_bounds(copy);
        let ac = g.arena(d.sectors, copy);
        assert forall|k: int| 0 <= k < used implies ac.subrange(0, used)[k] == a0.subrange(
            0,
            used,
        )[k] by {
            lemma_fresh_arena(g, d, copy, k);
            lemma_fresh_arena(g, d, 0, k);
        }
        lemma_fresh_arena(g, d, copy, 0);
        lemma_fresh_arena(g, d, 0, 0);
        assert(ac.subrange(0, used) =~= a0.subrange(0, used));
    }
    lemma_count_fresh(table, g.entries(), t == FatType::Fat32);
}

/// The number of free clusters of a table whose entries are 0, but for
/// entry 2 where the root directory has its cluster there.
proof fn lemma_count_fresh(table: Seq<u32>, upto: int, rooted: bool)
    requires
        3 <= upto <= table.len(),
        forall|n: int|
            2 <= n < upto ==> #[trigger] table[n] == if rooted && n == 2 {
                0x0FFF_FFFFu32
            } else {
                0u32
            },
    ensures
        crate::fat::count_free(table, upto) == if rooted {
            upto - 3
        } else {
            upto - 2
        },
    decreases upto,
{
    reveal_with_fuel(crate::fat::count_free, 3);
    if upto > 3 {
        lemma_count_fresh(table, upto - 1, rooted);
    }
}

/// The root directory of a fresh volume is empty: none of its slots was ever
/// used, so that a listing of it ends at once, no name is found in it, and
/// it is tidy.
pub proof fn lemma_fresh_root(g: Geometry, d: Drive, name: Seq<u16>)
    requires
        g.wf(),
        d.wf(),
        g.fits(d),
        fresh(g, d.sectors),
        g.fat_type == FatType::Fat32 ==> g.root_cluster == 2,
    ensures
        g.probe(d.sectors, 0, 0) == crate::dir::Probe::Holds(zeros(32)),
        forall|j: int|
            0 <= j && (#[trigger] g.probe(d.sectors, 0, j)) is Holds ==> g.probe(d.sectors, 0, j)
                == crate::dir::Probe::Holds(zeros(32)),
        crate::dir::entry_from(g.slots(d.sectors, 0), 0) is Nothing,
        crate::dir::find_from(g.slots(d.sectors, 0), name, 0) is Nothing,
        crate::dirops::content_from(g.slots(d.sectors, 0), 0) is Nothing,
        crate::dirscan::tidy(g.slots(d.sectors, 0)),
{
    let bps = g.bytes_per_sector as int;
    let per = g.cluster_slots();
    g.lemma_copy_bounds(0);
    g.lemma_cluster_slots();
    if g.fat_type == FatType::Fat32 {
        lemma_fresh_table(g, d);
        assert(g.table(d.sectors)[2] == 0x0FFF_FFFFu32);
        assert(g.reach(d.sectors, 2, 0) == Some(2int));
        g.lemma_cluster_sectors(2, 0);
    }
    assert(0int / per == 0 && 0int % per == 0) by (nonlinear_arith)
        requires
            per > 0,
    ;
    assert forall|j: int| 0 <= j && (#[trigger] g.probe(d.sectors, 0, j)) is Holds implies g.probe(
        d.sectors,
        0,
        j,
    ) == crate::dir::Probe::Holds(zeros(32)) by {
        let (start, off) = g.slot_place(d.sectors, 0, j)->Some_0;
        g.lemma_slot_place(d.sectors, 0, j);
        if g.fat_type == FatType::Fat32 {
            // The chain of the root directory is its one cluster.
            let k = (j / per) as nat;
            reveal_with_fuel(crate::chain::walk, 2);
            if k > 0 {
                assert(g.reach(d.sectors, 2, k) is None);
            }
            assert(start == g.first_sector(2));
        }
        let run = flat(d.sectors, start, g.dir_run(0));
        crate::diskio::lemma_flat_len(d.sectors, start, g.dir_run(0), d.sector_size);
        assert forall|x: int| off <= x < off + 32 implies run[x] == 0u8 by {
            lemma_flat_index(d.sectors, start, g.dir_run(0), d.sector_size, x);
            let i = start + x / bps;
            assert(!g.in_tables(i));
            assert(d.sectors[i] == zeros(g.bytes_per_sector as nat));
        }
        assert(run.subrange(off, off + 32) =~= zeros(32));
    }
    assert(g.slot_place(d.sectors, 0, 0) is Some);
    let slots = g.slots(d.sectors, 0);
    assert forall|i: int, j: int|
        0 <= i <= j && crate::dirscan::is_blank(#[trigger] slots(i)) && (#[trigger] slots(j))
            is Holds implies crate::dirscan::is_blank(slots(j)) by {
        assert(g.probe(d.sectors, 0, j) == crate::dir::Probe::Holds(zeros(32)));
    }
}

} // verus!
