//! Byte ranges in runs of consecutive sectors.
//!
//! A run is a number of consecutive sectors of a drive, seen as one sequence
//! of bytes. The tables, the root directory of fixed size and every cluster
//! are runs, and all of the engine's transfers are reads and writes of byte
//! ranges in a run.

use vstd::prelude::*;
use vstd::arithmetic::div_mod::{
    lemma_fundamental_div_mod, lemma_fundamental_div_mod_converse_div,
    lemma_fundamental_div_mod_converse_mod, lemma_mod_bound,
};
use crate::bytes::{append_range, copy_range, overlay, put_bytes};
use crate::diskio::{
    flat, lemma_flat_len, read_sector, sectors_of_size, write_sector, Drive, FatfsDiskHandler,
};
use crate::error::FsError;

verus! {

/// A number is its quotient times the divisor plus its remainder.
pub proof fn lemma_split(k: int, d: int)
    requires
        0 <= k,
        0 < d,
    ensures
        k == (k / d) * d + k % d,
        0 <= k % d < d,
        0 <= k / d,
{
    lemma_fundamental_div_mod(k, d);
    lemma_mod_bound(k, d);
    assert((k / d) * d == d * (k / d)) by (nonlinear_arith);
    assert(0 <= k / d) by (nonlinear_arith)
        requires
            0 <= k,
            0 < d,
            k == d * (k / d) + k % d,
            0 <= k % d < d,
    ;
}

/// Quotient and remainder of a number that is given as a multiple of the
/// divisor plus a rest below the divisor.
pub proof fn lemma_join(q: int, r: int, d: int)
    requires
        0 < d,
        0 <= r < d,
    ensures
        (q * d + r) / d == q,
        (q * d + r) % d == r,
{
    lemma_fundamental_div_mod_converse_div(q * d + r, d, q, r);
    lemma_fundamental_div_mod_converse_mod(q * d + r, d, q, r);
}

/// The byte at offset `k` of a run lies in sector `k / size` of the run, at
/// offset `k % size`.
pub proof fn lemma_flat_index(disk: Seq<Seq<u8>>, start: int, count: int, size: nat, k: int)
    requires
        sectors_of_size(disk, size),
        0 < size,
        0 <= start,
        0 <= count,
        start + count <= disk.len(),
        0 <= k < count * size,
    ensures
        0 <= k / (size as int) < count,
        0 <= k % (size as int) < size,
        flat(disk, start, count)[k] == disk[start + k / (size as int)][k % (size as int)],
    decreases count,
{
    let d = size as int;
    lemma_split(k, d);
    if count > 0 {
        lemma_flat_len(disk, start, count - 1, size);
        assert((count - 1) * d + d == count * d) by (nonlinear_arith);
        if k < (count - 1) * d {
            lemma_flat_index(disk, start, count - 1, size, k);
        } else {
            lemma_join(count - 1, k - (count - 1) * d, d);
            assert(disk[start + count - 1].len() == size);
        }
    } else {
        assert(count * size == 0) by (nonlinear_arith)
            requires
                count == 0,
        ;
    }
}

/// Two disks that agree on the sectors of a run give the same run.
pub proof fn lemma_flat_same(a: Seq<Seq<u8>>, b: Seq<Seq<u8>>, start: int, count: int)
    requires
        0 <= start,
        0 <= count,
        forall|i: int| start <= i < start + count ==> a[i] == b[i],
    ensures
        flat(a, start, count) == flat(b, start, count),
    decreases count,
{
    if count > 0 {
        lemma_flat_same(a, b, start, count - 1);
    }
}

/// What a run holds after one of its sectors took a byte range.
pub proof fn lemma_sector_overlay(
    before: Seq<Seq<u8>>,
    after: Seq<Seq<u8>>,
    start: int,
    count: int,
    size: nat,
    pos: int,
    chunk: Seq<u8>,
)
    requires
        sectors_of_size(before, size),
        0 < size,
        0 <= start,
        0 <= count,
        start + count <= before.len(),
        0 <= pos,
        pos + chunk.len() <= count * size,
        pos % (size as int) + chunk.len() <= size,
        chunk.len() > 0,
        after == before.update(
            start + pos / (size as int),
            overlay(before[start + pos / (size as int)], pos % (size as int), chunk),
        ),
    ensures
        sectors_of_size(after, size),
        flat(after, start, count) == overlay(flat(before, start, count), pos, chunk),
{
    let d = size as int;
    let j = pos / d;
    let r = pos % d;
    lemma_split(pos, d);
    lemma_flat_index(before, start, count, size, pos);
    assert(sectors_of_size(after, size)) by {
        assert forall|i: int| 0 <= i < after.len() implies (#[trigger] after[i]).len() == size by {
            assert(before[i].len() == size);
        }
    }
    lemma_flat_len(before, start, count, size);
    lemma_flat_len(after, start, count, size);
    let lhs = flat(after, start, count);
    let rhs = overlay(flat(before, start, count), pos, chunk);
    assert forall|k: int| 0 <= k < count * size implies lhs[k] == rhs[k] by {
        lemma_flat_index(before, start, count, size, k);
        lemma_flat_index(after, start, count, size, k);
        lemma_split(k, d);
        if k / d == j {
            assert(k - pos == k % d - r);
        } else {
            if pos <= k < pos + chunk.len() {
                lemma_join(j, r + (k - pos), d);
                assert(false);
            }
        }
    }
    assert(lhs =~= rhs);
}

/// Laying two ranges that follow one another over a buffer is laying their
/// concatenation.
pub proof fn lemma_overlay_chain(base: Seq<u8>, at: int, data: Seq<u8>, done: int, n: int)
    requires
        0 <= done,
        0 <= n,
        done + n <= data.len(),
    ensures
        overlay(
            overlay(base, at, data.subrange(0, done)),
            at + done,
            data.subrange(done, done + n),
        ) == overlay(base, at, data.subrange(0, done + n)),
{
    assert(overlay(
        overlay(base, at, data.subrange(0, done)),
        at + done,
        data.subrange(done, done + n),
    ) =~= overlay(base, at, data.subrange(0, done + n)));
}

/// The run of `count` sectors from sector `start` of a drive lies within
/// the drive, whose sectors are not empty.
pub open spec fn run_ok(d: Drive, start: u32, count: u32) -> bool {
    0 < d.sector_size && start + count <= d.sectors.len()
}

/// Reads `len` bytes at offset `off` of the run of `count` sectors that
/// begins at sector `start` of drive `pdrv`. `size` is the drive's sector
/// size.
///
/// A dependable drive always gives the bytes; on another a sector may fail
/// to be read, which is reported as the driver's error.
pub(crate) fn read_run<H: FatfsDiskHandler>(
    dev: &mut H,
    pdrv: u8,
    size: u32,
    start: u32,
    count: u32,
    off: u32,
    len: u32,
) -> (res: Result<Vec<u8>, FsError>)
    requires
        old(dev).inv(),
        run_ok(old(dev).drive(pdrv), start, count),
        size == old(dev).drive(pdrv).sector_size,
        off + len <= count * size,
        off + len <= u32::MAX,
    ensures
        final(dev).inv(),
        final(dev).drive(pdrv) == old(dev).drive(pdrv),
        match res {
            Ok(bytes) => bytes@ == flat(
                old(dev).drive(pdrv).sectors,
                start as int,
                count as int,
            ).subrange(off as int, off + len) && bytes.len() == len,
            Err(e) => e.is_device() && !old(dev).drive(pdrv).dependable,
        },
{
    let ghost d = old(dev).drive(pdrv);
    let ghost run = flat(d.sectors, start as int, count as int);
    proof {
        old(dev).inv_shape(pdrv);
        lemma_flat_len(d.sectors, start as int, count as int, d.sector_size);
    }
    let mut out: Vec<u8> = Vec::new();
    let end: u32 = off + len;
    let mut pos: u32 = off;
    assert(out@ =~= run.subrange(off as int, pos as int));
    while pos < end
        invariant
            off <= pos <= end,
            end == off + len,
            end <= count * size,
            dev.inv(),
            dev.drive(pdrv) == d,
            d == old(dev).drive(pdrv),
            d.wf(),
            run_ok(d, start, count),
            size == d.sector_size,
            run == flat(d.sectors, start as int, count as int),
            run.len() == count * size,
            out@ == run.subrange(off as int, pos as int),
        decreases end - pos,
    {
        let j: u32 = pos / size;
        let r: u32 = pos % size;
        let room: u32 = size - r;
        let n: u32 = if end - pos < room {
            end - pos
        } else {
            room
        };
        proof {
            lemma_split(pos as int, size as int);
            lemma_flat_index(d.sectors, start as int, count as int, d.sector_size, pos as int);
        }
        match read_sector(dev, pdrv, start + j) {
            Err(e) => {
                return Err(e);
            },
            Ok(sector) => {
                assert(sector@.len() == size);
                let ghost before = out@;
                append_range(&mut out, &sector, r as usize, n as usize);
                proof {
                    let piece = sector@.subrange(r as int, r + n);
                    assert forall|i: int| 0 <= i < n implies run[pos + i] == #[trigger] piece[i] by {
                        lemma_join(j as int, r + i, size as int);
                        lemma_flat_index(
                            d.sectors,
                            start as int,
                            count as int,
                            d.sector_size,
                            pos + i,
                        );
                    }
                    assert(before + piece =~= run.subrange(off as int, pos + n));
                }
                pos = pos + n;
            },
        }
    }
    Ok(out)
}

/// Writes `data` at offset `off` of the run of `count` sectors that begins
/// at sector `start` of drive `pdrv`. `size` is the drive's sector size.
///
/// A sector that `data` covers only in part is read first, so that its
/// other bytes stay. Whatever happens, no sector outside the run changes.
/// A dependable drive always takes the write; on another a sector may fail
/// to be read or written, which is reported as the driver's error.
pub(crate) fn write_run<H: FatfsDiskHandler>(
    dev: &mut H,
    pdrv: u8,
    size: u32,
    start: u32,
    count: u32,
    off: u32,
    data: &Vec<u8>,
) -> (res: Result<(), FsError>)
    requires
        old(dev).inv(),
        run_ok(old(dev).drive(pdrv), start, count),
        size == old(dev).drive(pdrv).sector_size,
        off + data.len() <= count * size,
        off + data.len() <= u32::MAX,
    ensures
        final(dev).inv(),
        old(dev).drive(pdrv).same_but(
            final(dev).drive(pdrv),
            |i: int| start <= i < start + count,
        ),
        match res {
            Ok(_) => flat(final(dev).drive(pdrv).sectors, start as int, count as int) == overlay(
                flat(old(dev).drive(pdrv).sectors, start as int, count as int),
                off as int,
                data@,
            ),
            Err(e) => e.is_device() && !old(dev).drive(pdrv).dependable,
        },
{
    let ghost d0 = old(dev).drive(pdrv);
    let ghost run0 = flat(d0.sectors, start as int, count as int);
    proof {
        old(dev).inv_shape(pdrv);
        lemma_flat_len(d0.sectors, start as int, count as int, d0.sector_size);
        assert(overlay(run0, off as int, data@.subrange(0, 0)) =~= run0);
    }
    let len: u32 = data.len() as u32;
    let mut done: u32 = 0;
    while done < len
        invariant
            done <= len,
            len == data.len(),
            off + len <= count * size,
            off + len <= u32::MAX,
            dev.inv(),
            d0.wf(),
            d0 == old(dev).drive(pdrv),
            run_ok(d0, start, count),
            size == d0.sector_size,
            d0.same_but(dev.drive(pdrv), |i: int| start <= i < start + count),
            run0 == flat(d0.sectors, start as int, count as int),
            flat(dev.drive(pdrv).sectors, start as int, count as int) == overlay(
                run0,
                off as int,
                data@.subrange(0, done as int),
            ),
        decreases len - done,
    {
        let pos: u32 = off + done;
        let j: u32 = pos / size;
        let r: u32 = pos % size;
        let room: u32 = size - r;
        let n: u32 = if len - done < room {
            len - done
        } else {
            room
        };
        let ghost cur = dev.drive(pdrv);
        proof {
            dev.inv_shape(pdrv);
            lemma_split(pos as int, size as int);
            lemma_flat_index(cur.sectors, start as int, count as int, cur.sector_size, pos as int);
        }
        let chunk = copy_range(data, done as usize, n as usize);
        let mut sector: Vec<u8>;
        if n == size {
            sector = chunk;
            assert(sector@ =~= overlay(cur.sectors[start + j], r as int, sector@));
        } else {
            match read_sector(dev, pdrv, start + j) {
                Err(e) => {
                    return Err(e);
                },
                Ok(s) => {
                    sector = s;
                    put_bytes(&mut sector, r as usize, &chunk);
                },
            }
        }
        assert(sector@ == overlay(cur.sectors[start + j], r as int, chunk@));
        match write_sector(dev, pdrv, start + j, &sector) {
            Err(e) => {
                return Err(e);
            },
            Ok(_) => {
                proof {
                    lemma_sector_overlay(
                        cur.sectors,
                        dev.drive(pdrv).sectors,
                        start as int,
                        count as int,
                        cur.sector_size,
                        pos as int,
                        chunk@,
                    );
                    lemma_overlay_chain(run0, off as int, data@, done as int, n as int);
                }
                done = done + n;
            },
        }
    }
    assert(data@.subrange(0, len as int) =~= data@);
    Ok(())
}

} // verus!
