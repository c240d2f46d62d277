use fatfs::diskio::{read_sector, write_sector};
use fatfs::error::FsError;
use fatfs::format::{format_volume, make_boot_sector, plan_format, FormatOptions};
use fatfs::fs::FatFs;
use fatfs::ramdisk::RamDisk;
use fatfs::volume::{
    geometry_from_params, parse_boot_sector, read_boot_params, BootParams, FatType, Geometry,
};

fn floppy() -> BootParams {
    // A 1.44 MB floppy disk.
    BootParams {
        bytes_per_sector: 512,
        sectors_per_cluster: 1,
        reserved_sectors: 1,
        fat_count: 2,
        root_entries: 224,
        total_sectors: 2880,
        fat_size: 9,
        wide: false,
        root_cluster: 0,
    }
}

fn floppy_geometry() -> Geometry {
    Geometry {
        fat_type: FatType::Fat12,
        bytes_per_sector: 512,
        sectors_per_cluster: 1,
        fat_count: 2,
        fat_size: 9,
        root_entries: 224,
        total_sectors: 2880,
        volume_start: 0,
        fat_start: 1,
        root_start: 19,
        root_cluster: 0,
        data_start: 33,
        cluster_count: 2847,
    }
}

fn default_options() -> FormatOptions {
    FormatOptions { sectors_per_cluster: 0, fat_count: 0, root_entries: 0, serial: 0x1234_5678 }
}

#[test]
fn floppy_geometry_is_derived() {
    let g = geometry_from_params(&floppy(), 0, 2880).unwrap();
    assert!(g == floppy_geometry());
}

#[test]
fn geometry_at_a_base_sector_is_shifted() {
    let g = geometry_from_params(&floppy(), 63, 2943).unwrap();
    assert_eq!(g.volume_start, 63);
    assert_eq!(g.fat_start, 64);
    assert_eq!(g.root_start, 82);
    assert_eq!(g.data_start, 96);
    assert_eq!(g.cluster_count, 2847);
}

#[test]
fn cluster_count_thresholds_choose_the_table_width() {
    // 4084 clusters: FAT12. 4085 clusters: FAT16.
    let mut p = floppy();
    p.fat_size = 12;
    p.total_sectors = 1 + 24 + 14 + 4084;
    assert!(geometry_from_params(&p, 0, p.total_sectors).unwrap().fat_type == FatType::Fat12);
    p.fat_size = 16;
    p.total_sectors = 1 + 32 + 14 + 4085;
    let g = geometry_from_params(&p, 0, p.total_sectors).unwrap();
    assert!(g.fat_type == FatType::Fat16);
    assert_eq!(g.cluster_count, 4085);
    // 65524 clusters: FAT16. 65525 clusters in the wide layout: FAT32.
    p.fat_size = 256;
    p.total_sectors = 1 + 512 + 14 + 65524;
    assert!(geometry_from_params(&p, 0, p.total_sectors).unwrap().fat_type == FatType::Fat16);
    let wide = BootParams {
        bytes_per_sector: 512,
        sectors_per_cluster: 1,
        reserved_sectors: 32,
        fat_count: 2,
        root_entries: 0,
        total_sectors: 32 + 1024 + 65525,
        fat_size: 512,
        wide: true,
        root_cluster: 2,
    };
    let g = geometry_from_params(&wide, 0, wide.total_sectors).unwrap();
    assert!(g.fat_type == FatType::Fat32);
    assert_eq!(g.cluster_count, 65525);
    assert_eq!(g.root_cluster, 2);
}

#[test]
fn inconsistent_geometry_is_corrupt() {
    let cases: Vec<Box<dyn Fn(&mut BootParams)>> = vec![
        Box::new(|p| p.bytes_per_sector = 513),
        Box::new(|p| p.bytes_per_sector = 256),
        Box::new(|p| p.sectors_per_cluster = 3),
        Box::new(|p| p.sectors_per_cluster = 0),
        Box::new(|p| p.reserved_sectors = 0),
        Box::new(|p| p.fat_count = 0),
        Box::new(|p| p.fat_size = 0),
        Box::new(|p| p.fat_size = 8),
        Box::new(|p| p.root_entries = 0),
        Box::new(|p| p.root_entries = 225),
        Box::new(|p| p.total_sectors = 33),
        Box::new(|p| p.total_sectors = 2881),
        Box::new(|p| p.wide = true),
        Box::new(|p| p.root_cluster = 2),
    ];
    for change in cases {
        let mut p = floppy();
        change(&mut p);
        assert_eq!(geometry_from_params(&p, 0, 2880), Err(FsError::CorruptVolume));
    }
}

#[test]
fn boot_sector_round_trips_through_its_bytes() {
    let p = floppy();
    let sector = make_boot_sector(&p, 0, 99);
    assert_eq!(sector.len(), 512);
    assert_eq!(&sector[0..3], &[0xEB, 0xFE, 0x90]);
    assert_eq!(&sector[11..13], &[0x00, 0x02]);
    assert_eq!(sector[13], 1);
    assert_eq!(&sector[19..21], &[0x40, 0x0B]);
    assert_eq!(&sector[22..24], &[9, 0]);
    assert_eq!(&sector[510..512], &[0x55, 0xAA]);
    assert!(read_boot_params(&sector) == Some(p));
    assert!(parse_boot_sector(&sector, 0, 2880) == Ok(floppy_geometry()));
}

#[test]
fn boot_sector_without_signature_is_corrupt() {
    let mut sector = make_boot_sector(&floppy(), 0, 99);
    sector[511] = 0;
    assert_eq!(parse_boot_sector(&sector, 0, 2880), Err(FsError::CorruptVolume));
    assert_eq!(parse_boot_sector(&vec![0u8; 512], 0, 2880), Err(FsError::CorruptVolume));
    assert_eq!(parse_boot_sector(&vec![0u8; 100], 0, 2880), Err(FsError::CorruptVolume));
}

#[test]
fn exfat_boot_sector_is_not_accepted() {
    let mut sector = make_boot_sector(&floppy(), 0, 99);
    sector[3..11].copy_from_slice(b"EXFAT   ");
    assert_eq!(parse_boot_sector(&sector, 0, 2880), Err(FsError::CorruptVolume));
}

#[test]
fn boot_sector_of_another_sector_size_is_corrupt() {
    let mut p = floppy();
    p.bytes_per_sector = 1024;
    let sector = make_boot_sector(&p, 0, 99);
    assert_eq!(sector.len(), 1024);
    assert!(parse_boot_sector(&sector, 0, 2880).is_ok());
    assert_eq!(parse_boot_sector(&sector[..512].to_vec(), 0, 2880), Err(FsError::CorruptVolume));
}

#[test]
fn volume_larger_than_the_drive_is_corrupt() {
    let sector = make_boot_sector(&floppy(), 0, 99);
    assert_eq!(parse_boot_sector(&sector, 0, 2879), Err(FsError::CorruptVolume));
    assert_eq!(parse_boot_sector(&sector, 1, 2880), Err(FsError::CorruptVolume));
}

#[test]
fn cluster_to_sector_follows_the_formula() {
    let g = floppy_geometry();
    assert_eq!(g.cluster_to_sector(2, 0), Ok(33));
    assert_eq!(g.cluster_to_sector(3, 0), Ok(34));
    assert_eq!(g.cluster_to_sector(2848, 511), Ok(33 + 2846));
    assert_eq!(g.cluster_to_sector(1, 0), Err(FsError::InvalidParameter));
    assert_eq!(g.cluster_to_sector(2849, 0), Err(FsError::InvalidParameter));
    assert_eq!(g.cluster_to_sector(2, 512), Err(FsError::InvalidParameter));
    let mut big = g;
    big.sectors_per_cluster = 4;
    big.cluster_count = 700;
    assert_eq!(big.cluster_to_sector(10, 0), Ok(33 + 8 * 4));
    assert_eq!(big.cluster_to_sector(10, 1024), Ok(33 + 8 * 4 + 2));
    assert_eq!(big.cluster_to_sector(10, 2047), Ok(33 + 8 * 4 + 3));
    assert_eq!(big.cluster_to_sector(10, 2048), Err(FsError::InvalidParameter));
}

#[test]
fn plan_for_a_small_drive_is_fat12() {
    let (p, g) = plan_format(0, 2880, 512, &default_options()).unwrap();
    assert!(g.fat_type == FatType::Fat12);
    assert_eq!(p.sectors_per_cluster, 1);
    assert_eq!(p.fat_count, 2);
    assert_eq!(p.root_entries, 512);
    assert_eq!(p.total_sectors, 2880);
    assert!(!p.wide);
}

#[test]
fn plan_for_a_large_drive_is_fat32() {
    let (p, g) = plan_format(0, 2_000_000, 512, &default_options()).unwrap();
    assert!(g.fat_type == FatType::Fat32);
    assert!(p.wide);
    assert_eq!(p.sectors_per_cluster, 8);
    assert_eq!(p.reserved_sectors, 32);
    assert_eq!(p.root_entries, 0);
    assert_eq!(g.root_cluster, 2);
}

#[test]
fn plan_refuses_what_it_cannot_answer() {
    let mut o = default_options();
    o.sectors_per_cluster = 3;
    assert_eq!(plan_format(0, 2880, 512, &o), Err(FsError::InvalidParameter));
    assert_eq!(plan_format(0, 2880, 500, &default_options()), Err(FsError::InvalidParameter));
    assert_eq!(plan_format(2880, 2880, 512, &default_options()), Err(FsError::InvalidParameter));
    assert_eq!(plan_format(0, 10, 512, &default_options()), Err(FsError::InvalidParameter));
}

#[test]
fn format_then_mount_gives_the_planned_geometry() {
    for (sectors, size, spc) in
        [(2880u32, 512u32, 0u8), (16600, 512, 4), (70000, 512, 1), (40000, 1024, 2), (9000, 4096, 0)]
    {
        let mut disk = RamDisk::new(0, size, sectors);
        let mut opts = default_options();
        opts.sectors_per_cluster = spc;
        let g = format_volume(&mut disk, 0, 0, &opts).unwrap();
        let planned = plan_format(0, sectors, size, &opts).unwrap().1;
        assert!(g == planned);
        let boot = read_sector(&mut disk, 0, 0).unwrap();
        assert!(parse_boot_sector(&boot, 0, sectors) == Ok(g));
        let mut fs = FatFs::new(disk, 0);
        assert_eq!(fs.mount(), Ok(()));
        let stat = fs.stat_volume().unwrap();
        assert_eq!(stat.total_clusters, g.cluster_count);
        assert_eq!(stat.cluster_size, g.sectors_per_cluster * g.bytes_per_sector);
        let taken = if g.fat_type == FatType::Fat32 { 1 } else { 0 };
        assert_eq!(stat.free_clusters, g.cluster_count - taken);
    }
}

#[test]
fn mount_unmount_remount_gives_the_same_geometry() {
    let mut disk = RamDisk::new(0, 512, 16600);
    let g = format_volume(&mut disk, 0, 0, &default_options()).unwrap();
    let mut fs = FatFs::new(disk, 0);
    for _ in 0..3 {
        assert_eq!(fs.mount(), Ok(()));
        let stat = fs.stat_volume().unwrap();
        assert_eq!(stat.total_clusters, g.cluster_count);
        assert_eq!(fs.mkdir(&"/d".encode_utf16().collect()).is_ok(), stat.free_clusters == g.cluster_count);
        assert_eq!(fs.unmount(), Ok(()));
    }
    let mut disk = fs.release();
    let boot = read_sector(&mut disk, 0, 0).unwrap();
    assert!(parse_boot_sector(&boot, 0, 16600) == Ok(g));
}

#[test]
fn format_at_a_base_sector_leaves_what_lies_before() {
    let mut disk = RamDisk::new(0, 512, 3000);
    let marker: Vec<u8> = (0..512u32).map(|i| (i % 200) as u8).collect();
    for s in 0..63 {
        assert_eq!(write_sector(&mut disk, 0, s, &marker), Ok(()));
    }
    let g = format_volume(&mut disk, 0, 63, &default_options()).unwrap();
    assert_eq!(g.volume_start, 63);
    for s in 0..63 {
        assert_eq!(read_sector(&mut disk, 0, s).unwrap(), marker);
    }
    let mut fs = FatFs::new(disk, 0);
    assert_eq!(fs.mount(), Err(FsError::CorruptVolume));
    assert_eq!(fs.mount_at(63), Ok(()));
    assert_eq!(fs.stat_volume().unwrap().total_clusters, g.cluster_count);
}
