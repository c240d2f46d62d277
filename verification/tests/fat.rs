use fatfs::allocator::{allocate_chain, extend_chain, find_free, free_chain};
use fatfs::chain::{chain_length, cluster_at, last_cluster};
use fatfs::diskio::{read_sector, write_sector};
use fatfs::error::FsError;
use fatfs::fat::{free_count, get_next, scan_free, set_next, Volume};
use fatfs::format::{format_volume, FormatOptions};
use fatfs::ramdisk::RamDisk;
use fatfs::volume::FatType;

fn volume(sectors: u32, spc: u8) -> (RamDisk, Volume) {
    let mut disk = RamDisk::new(0, 512, sectors);
    let opts = FormatOptions { sectors_per_cluster: spc, fat_count: 2, root_entries: 0, serial: 1 };
    let g = format_volume(&mut disk, 0, 0, &opts).unwrap();
    (disk, Volume::new(g, 0, false))
}

fn fat12() -> (RamDisk, Volume) {
    let (d, v) = volume(2880, 1);
    assert!(v.geom.fat_type == FatType::Fat12);
    (d, v)
}

fn fat16() -> (RamDisk, Volume) {
    let (d, v) = volume(16600, 4);
    assert!(v.geom.fat_type == FatType::Fat16);
    (d, v)
}

fn fat32() -> (RamDisk, Volume) {
    let (d, v) = volume(70000, 1);
    assert!(v.geom.fat_type == FatType::Fat32);
    (d, v)
}

fn chain_of(vol: &Volume, disk: &mut RamDisk, first: u32) -> Vec<u32> {
    let n = chain_length(vol, disk, first).unwrap();
    (0..n).map(|i| cluster_at(vol, disk, first, i).unwrap().unwrap()).collect()
}

#[test]
fn entries_are_set_and_read_back_in_every_width() {
    for (mut disk, mut vol) in [fat12(), fat16(), fat32()] {
        let top = vol.geom.cluster_count + 1;
        let max = match vol.geom.fat_type {
            FatType::Fat12 => 0xFFF,
            FatType::Fat16 => 0xFFFF,
            FatType::Fat32 => 0x0FFF_FFFF,
        };
        for (c, v) in [(5u32, 6u32), (6, 7), (7, max), (8, 0x123), (9, 1), (top, 3)] {
            assert_eq!(set_next(&mut vol, &mut disk, c, v), Ok(()));
        }
        for (c, v) in [(5u32, 6u32), (6, 7), (7, max), (8, 0x123), (9, 1), (top, 3), (4, 0), (10, 0)] {
            assert_eq!(get_next(&vol, &mut disk, c), Ok(v));
        }
        // Setting an entry anew leaves its neighbours.
        assert_eq!(set_next(&mut vol, &mut disk, 6, 0), Ok(()));
        assert_eq!(get_next(&vol, &mut disk, 5), Ok(6));
        assert_eq!(get_next(&vol, &mut disk, 6), Ok(0));
        assert_eq!(get_next(&vol, &mut disk, 7), Ok(max));
    }
}

#[test]
fn entries_outside_the_data_region_are_refused() {
    for (mut disk, mut vol) in [fat12(), fat16(), fat32()] {
        let top = vol.geom.cluster_count + 2;
        for c in [0u32, 1, top, top + 1, u32::MAX] {
            assert_eq!(get_next(&vol, &mut disk, c), Err(FsError::InvalidParameter));
            assert_eq!(set_next(&mut vol, &mut disk, c, 0), Err(FsError::InvalidParameter));
        }
    }
    let (mut disk, mut vol) = fat12();
    assert_eq!(set_next(&mut vol, &mut disk, 5, 0x1000), Err(FsError::InvalidParameter));
    let (mut disk, mut vol) = fat16();
    assert_eq!(set_next(&mut vol, &mut disk, 5, 0x1_0000), Err(FsError::InvalidParameter));
    let (mut disk, mut vol) = fat32();
    assert_eq!(set_next(&mut vol, &mut disk, 5, 0x1000_0000), Err(FsError::InvalidParameter));
}

#[test]
fn packed_entries_lie_where_the_format_puts_them() {
    let (mut disk, mut vol) = fat12();
    assert_eq!(set_next(&mut vol, &mut disk, 2, 0xABC), Ok(()));
    assert_eq!(set_next(&mut vol, &mut disk, 3, 0xDEF), Ok(()));
    let sector = read_sector(&mut disk, 0, vol.geom.fat_start).unwrap();
    assert_eq!(&sector[0..6], &[0xF8, 0xFF, 0xFF, 0xBC, 0xFA, 0xDE]);
}

#[test]
fn a_packed_entry_may_span_two_sectors() {
    let (mut disk, mut vol) = fat12();
    // Entry 341 has its bytes at offsets 511 and 512 of the table.
    assert_eq!(set_next(&mut vol, &mut disk, 340, 0x111), Ok(()));
    assert_eq!(set_next(&mut vol, &mut disk, 341, 0xA5C), Ok(()));
    assert_eq!(set_next(&mut vol, &mut disk, 342, 0x333), Ok(()));
    assert_eq!(get_next(&vol, &mut disk, 340), Ok(0x111));
    assert_eq!(get_next(&vol, &mut disk, 341), Ok(0xA5C));
    assert_eq!(get_next(&vol, &mut disk, 342), Ok(0x333));
    let first = read_sector(&mut disk, 0, vol.geom.fat_start).unwrap();
    let second = read_sector(&mut disk, 0, vol.geom.fat_start + 1).unwrap();
    assert_eq!(first[511], 0xC1);
    assert_eq!(second[0], 0xA5);
}

#[test]
fn the_top_bits_of_a_wide_entry_stay() {
    let (mut disk, mut vol) = fat32();
    let at = vol.geom.fat_start;
    let mut sector = read_sector(&mut disk, 0, at).unwrap();
    sector[20..24].copy_from_slice(&[0x00, 0x00, 0x00, 0xA0]);
    assert_eq!(write_sector(&mut disk, 0, at, &sector), Ok(()));
    assert_eq!(get_next(&vol, &mut disk, 5), Ok(0));
    assert_eq!(set_next(&mut vol, &mut disk, 5, 0x0123_4567), Ok(()));
    assert_eq!(get_next(&vol, &mut disk, 5), Ok(0x0123_4567));
    let sector = read_sector(&mut disk, 0, at).unwrap();
    assert_eq!(&sector[20..24], &[0x67, 0x45, 0x23, 0xA1]);
}

#[test]
fn every_copy_of_the_table_takes_the_write() {
    for (mut disk, mut vol) in [fat12(), fat16(), fat32()] {
        for c in 2..40 {
            assert_eq!(set_next(&mut vol, &mut disk, c, c + 1), Ok(()));
        }
        let g = vol.geom;
        for s in 0..g.fat_size {
            let a = read_sector(&mut disk, 0, g.fat_start + s).unwrap();
            let b = read_sector(&mut disk, 0, g.fat_start + g.fat_size + s).unwrap();
            assert_eq!(a, b);
        }
    }
}

#[test]
fn free_clusters_are_counted_and_remembered() {
    let (mut disk, mut vol) = fat16();
    let all = vol.geom.cluster_count;
    assert!(vol.free.is_none());
    assert_eq!(free_count(&mut vol, &mut disk), Ok(all));
    assert_eq!(vol.free, Some(all));
    assert_eq!(set_next(&mut vol, &mut disk, 5, 0xFFFF), Ok(()));
    assert_eq!(vol.free, Some(all - 1));
    assert_eq!(set_next(&mut vol, &mut disk, 5, 9), Ok(()));
    assert_eq!(vol.free, Some(all - 1));
    assert_eq!(set_next(&mut vol, &mut disk, 5, 0), Ok(()));
    assert_eq!(vol.free, Some(all));
    assert_eq!(set_next(&mut vol, &mut disk, 5, 0), Ok(()));
    assert_eq!(scan_free(&mut vol, &mut disk), Ok(all));
}

#[test]
fn allocating_takes_exactly_the_clusters_of_the_chain() {
    for (mut disk, mut vol) in [fat12(), fat16(), fat32()] {
        let before = free_count(&mut vol, &mut disk).unwrap();
        for k in [1u32, 2, 7, 100] {
            let was = free_count(&mut vol, &mut disk).unwrap();
            let first = allocate_chain(&mut vol, &mut disk, k).unwrap();
            assert_eq!(free_count(&mut vol, &mut disk), Ok(was - k));
            assert_eq!(scan_free(&mut vol, &mut disk), Ok(was - k));
            let chain = chain_of(&vol, &mut disk, first);
            assert_eq!(chain.len() as u32, k);
            for &c in &chain {
                assert!(c >= 2 && c < vol.geom.cluster_count + 2);
            }
            let mut sorted = chain.clone();
            sorted.sort();
            sorted.dedup();
            assert_eq!(sorted.len() as u32, k);
            assert_eq!(last_cluster(&vol, &mut disk, first), Ok((chain[chain.len() - 1], k)));
            assert_eq!(free_chain(&mut vol, &mut disk, first), Ok(k));
            assert_eq!(free_count(&mut vol, &mut disk), Ok(was));
            assert_eq!(scan_free(&mut vol, &mut disk), Ok(was));
            for &c in &chain {
                assert_eq!(get_next(&vol, &mut disk, c), Ok(0));
            }
        }
        assert_eq!(free_count(&mut vol, &mut disk), Ok(before));
    }
}

#[test]
fn allocating_every_free_cluster_works_and_one_more_does_not() {
    let (mut disk, mut vol) = fat12();
    let all = free_count(&mut vol, &mut disk).unwrap();
    let image_before: Vec<Vec<u8>> =
        (0..vol.geom.data_start).map(|s| read_sector(&mut disk, 0, s).unwrap()).collect();
    assert_eq!(allocate_chain(&mut vol, &mut disk, all + 1), Err(FsError::DiskFull));
    assert_eq!(free_count(&mut vol, &mut disk), Ok(all));
    let image_after: Vec<Vec<u8>> =
        (0..vol.geom.data_start).map(|s| read_sector(&mut disk, 0, s).unwrap()).collect();
    assert_eq!(image_before, image_after);

    let first = allocate_chain(&mut vol, &mut disk, all).unwrap();
    assert_eq!(free_count(&mut vol, &mut disk), Ok(0));
    assert_eq!(chain_length(&vol, &mut disk, first), Ok(all));
    assert_eq!(find_free(&vol, &mut disk), Ok(None));
    assert_eq!(allocate_chain(&mut vol, &mut disk, 1), Err(FsError::DiskFull));
    assert_eq!(free_chain(&mut vol, &mut disk, first), Ok(all));
    assert_eq!(free_count(&mut vol, &mut disk), Ok(all));
}

#[test]
fn allocating_no_cluster_is_refused() {
    let (mut disk, mut vol) = fat16();
    assert_eq!(allocate_chain(&mut vol, &mut disk, 0), Err(FsError::InvalidParameter));
}

#[test]
fn the_search_goes_round_the_data_region() {
    let (mut disk, mut vol) = fat12();
    let last = vol.geom.cluster_count + 1;
    vol.cursor = last - 1;
    let a = allocate_chain(&mut vol, &mut disk, 3).unwrap();
    let chain = chain_of(&vol, &mut disk, a);
    assert_eq!(chain, vec![last, 2, 3]);
    assert_eq!(vol.cursor, 3);
}

#[test]
fn extending_appends_to_the_end_of_a_chain() {
    let (mut disk, mut vol) = fat16();
    let first = allocate_chain(&mut vol, &mut disk, 2).unwrap();
    let before = chain_of(&vol, &mut disk, first);
    let free = free_count(&mut vol, &mut disk).unwrap();
    let (last, _) = last_cluster(&vol, &mut disk, first).unwrap();
    let added = extend_chain(&mut vol, &mut disk, last, 3).unwrap();
    let after = chain_of(&vol, &mut disk, first);
    assert_eq!(after.len(), 5);
    assert_eq!(&after[..2], &before[..]);
    assert_eq!(after[2], added);
    assert_eq!(free_count(&mut vol, &mut disk), Ok(free - 3));
    // Only the last cluster of a chain can be extended.
    assert_eq!(extend_chain(&mut vol, &mut disk, first, 1), Err(FsError::InvalidParameter));
    assert_eq!(extend_chain(&mut vol, &mut disk, 1, 1), Err(FsError::InvalidParameter));
    let (last, _) = last_cluster(&vol, &mut disk, first).unwrap();
    assert_eq!(extend_chain(&mut vol, &mut disk, last, 0), Err(FsError::InvalidParameter));
    assert_eq!(extend_chain(&mut vol, &mut disk, last, free), Err(FsError::DiskFull));
    assert_eq!(chain_of(&vol, &mut disk, first), after);
}

#[test]
fn a_chain_that_runs_in_a_circle_is_corrupt() {
    let (mut disk, mut vol) = fat16();
    assert_eq!(set_next(&mut vol, &mut disk, 10, 11), Ok(()));
    assert_eq!(set_next(&mut vol, &mut disk, 11, 12), Ok(()));
    assert_eq!(set_next(&mut vol, &mut disk, 12, 10), Ok(()));
    assert_eq!(chain_length(&vol, &mut disk, 10), Err(FsError::CorruptVolume));
    assert_eq!(last_cluster(&vol, &mut disk, 10), Err(FsError::CorruptVolume));
    let free = scan_free(&mut vol, &mut disk).unwrap();
    assert_eq!(free_chain(&mut vol, &mut disk, 10), Err(FsError::CorruptVolume));
    assert_eq!(scan_free(&mut vol, &mut disk), Ok(free));
    assert_eq!(get_next(&vol, &mut disk, 10), Ok(11));
    // A walk of a given number of links goes round and round.
    assert_eq!(cluster_at(&vol, &mut disk, 10, 7), Ok(Some(11)));
}

#[test]
fn a_chain_that_leaves_the_data_region_is_corrupt() {
    let (mut disk, mut vol) = fat16();
    assert_eq!(set_next(&mut vol, &mut disk, 10, 11), Ok(()));
    assert_eq!(chain_length(&vol, &mut disk, 10), Err(FsError::CorruptVolume));
    assert_eq!(cluster_at(&vol, &mut disk, 10, 1), Ok(Some(11)));
    assert_eq!(cluster_at(&vol, &mut disk, 10, 2), Err(FsError::CorruptVolume));
    assert_eq!(set_next(&mut vol, &mut disk, 11, 0xFFF7), Ok(()));
    assert_eq!(chain_length(&vol, &mut disk, 10), Err(FsError::CorruptVolume));
    assert_eq!(chain_length(&vol, &mut disk, 0), Err(FsError::CorruptVolume));
    assert_eq!(set_next(&mut vol, &mut disk, 11, 0xFFF8), Ok(()));
    assert_eq!(chain_length(&vol, &mut disk, 10), Ok(2));
    assert_eq!(cluster_at(&vol, &mut disk, 10, 2), Ok(None));
}

#[test]
fn a_protected_volume_refuses_changes_of_the_table() {
    let (mut disk, vol) = fat16();
    let mut vol = Volume::new(vol.geom, 0, true);
    assert_eq!(set_next(&mut vol, &mut disk, 5, 6), Err(FsError::WriteProtected));
    assert_eq!(allocate_chain(&mut vol, &mut disk, 1), Err(FsError::WriteProtected));
    assert_eq!(free_chain(&mut vol, &mut disk, 5), Err(FsError::WriteProtected));
    assert_eq!(extend_chain(&mut vol, &mut disk, 5, 1), Err(FsError::WriteProtected));
    assert_eq!(get_next(&vol, &mut disk, 5), Ok(0));
}

#[test]
fn a_failing_drive_gives_its_error_and_forgets_the_count() {
    let (mut disk, mut vol) = fat16();
    let all = free_count(&mut vol, &mut disk).unwrap();
    disk.set_failing(true);
    assert_eq!(get_next(&vol, &mut disk, 5), Err(FsError::IOError));
    assert_eq!(set_next(&mut vol, &mut disk, 5, 6), Err(FsError::IOError));
    assert_eq!(allocate_chain(&mut vol, &mut disk, 1), Err(FsError::IOError));
    disk.set_failing(false);
    assert_eq!(free_count(&mut vol, &mut disk), Ok(all));
    disk.set_protected(true);
    assert_eq!(set_next(&mut vol, &mut disk, 5, 6), Err(FsError::WriteProtected));
    assert!(vol.free.is_none());
    disk.set_protected(false);
    assert_eq!(free_count(&mut vol, &mut disk), Ok(all));
}
