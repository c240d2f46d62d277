//! A FAT12, FAT16 and FAT32 filesystem engine on top of an abstract block
//! device, with its behaviour stated in contracts and proved by Verus.
//!
//! The engine reads and changes what a FAT volume holds on a drive: the boot
//! sector, the file allocation tables, the directories and the cluster
//! chains of files. It reaches the drive through the storage contract of
//! [`diskio`] alone, which the user's driver implements; [`ramdisk`] is a
//! driver that keeps a drive in memory.
//!
//! The modules, from the drive upwards:
//!
//! - [`diskio`]: the storage contract and its adapter; [`region`]: byte
//!   ranges in runs of consecutive sectors; [`bytes`]: little-endian
//!   fields.
//! - [`volume`]: the boot sector's parameter block and the geometry of a
//!   volume; [`format`]: the layout of a fresh volume.
//! - [`fat`]: the entries of the table, its copies and the count of free
//!   clusters; [`chain`]: cluster chains; [`allocator`]: taking, extending
//!   and freeing chains.
//! - [`name`]: file names, short and long; [`dirent`]: the 32-byte
//!   directory entry; [`dir`]: the slots of a directory and their scans;
//!   [`dirops`]: adding, removing and updating entries; [`path`] and
//!   [`tree`]: paths and the operations on them.
//! - [`file`]: the bytes of a file, and reads, writes and changes of size.
//! - [`fs`]: the filesystem with its mounted volume and open objects.
//!
//! Every contract speaks of a model of the drive, [`diskio::Drive`]: the
//! sequence of its sectors. A drive is dependable when its driver answers
//! every request that lies within the drive with success. On a dependable
//! drive each operation answers exactly what its contract names; on
//! another, it may instead hand on the driver's error. The status flags
//! and the answers of the driver have names in the storage contract, so
//! that the adapter hands on what the driver said, and no other code.
//!
//! No walk along a chain follows more links than the volume has clusters:
//! a chain that runs in a circle is reported as corrupt. On a dependable
//! drive every change of the table reaches every copy of the table.
//!
//! Names and paths are sequences of UTF-16 code units. Letter case is
//! folded for the letters `a` to `z` only. exFAT volumes are not accepted.
//! A write behind the end of a file fills the gap with zero bytes.

#![allow(non_camel_case_types)]
#![allow(non_upper_case_globals)]

pub mod allocator;
pub mod bytes;
pub mod chain;
pub mod dir;
pub mod dirent;
pub mod dirops;
pub mod dirscan;
pub mod diskio;
pub mod error;
pub mod fat;
pub mod file;
pub mod format;
pub mod fs;
pub mod name;
pub mod path;
pub mod ramdisk;
pub mod region;
pub mod tree;
pub mod volume;
