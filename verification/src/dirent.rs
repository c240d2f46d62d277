//! The 32-byte directory entry: the short entry with its fields, the
//! long-name fragment, and the checksum that ties the two together.

use vstd::prelude::*;
use crate::bytes::{
    append_range, get_le16, get_le32, le16, le16_bytes, le32, le32_bytes, overlay, put_le16,
    zero_bytes, zeros,
};

verus! {

/// The first byte of a slot that was never used; no entry follows it.
pub const MARK_END: u8 = 0x00;

/// The first byte of a slot whose entry was deleted.
pub const MARK_DELETED: u8 = 0xE5;

/// Attribute bit: the file cannot be written.
pub const ATTR_READ_ONLY: u8 = 0x01;

/// Attribute bit: the entry is hidden.
pub const ATTR_HIDDEN: u8 = 0x02;

/// Attribute bit: the entry belongs to the system.
pub const ATTR_SYSTEM: u8 = 0x04;

/// Attribute bit: the entry is the volume label.
pub const ATTR_VOLUME_ID: u8 = 0x08;

/// Attribute bit: the entry is a directory.
pub const ATTR_DIRECTORY: u8 = 0x10;

/// Attribute bit: the file was changed since the last backup.
pub const ATTR_ARCHIVE: u8 = 0x20;

/// The attribute byte of a long-name fragment.
pub const ATTR_LONG_NAME: u8 = 0x0F;

/// A date and a time of day in the packed form of the directory entry.
#[derive(Clone, Copy, Debug, PartialEq, Eq, Structural)]
pub struct Stamp {
    pub date: u16,
    pub time: u16,
}

/// The slot is free: it was never used, or its entry was deleted.
pub open spec fn slot_free(slot: Seq<u8>) -> bool {
    slot[0] == MARK_END || slot[0] == MARK_DELETED
}

/// The slot holds a long-name fragment.
pub open spec fn slot_long(slot: Seq<u8>) -> bool {
    slot[11] % 64 == 15
}

/// The fields of a short entry.
pub struct ShortFields {
    pub name: Seq<u8>,
    pub attr: u8,
    pub case_flags: u8,
    pub first_cluster: u32,
    pub size: u32,
    pub written: Stamp,
}

/// The fields that the short entry in `slot` holds.
pub open spec fn short_fields(slot: Seq<u8>) -> ShortFields {
    ShortFields {
        name: slot.subrange(0, 11),
        attr: slot[11],
        case_flags: slot[12],
        first_cluster: (le16(slot, 26) + 65536 * le16(slot, 20)) as u32,
        size: le32(slot, 28) as u32,
        written: Stamp { date: le16(slot, 24) as u16, time: le16(slot, 22) as u16 },
    }
}

/// The bytes of a short entry with the given fields, field by field in the
/// order of the entry. The entry was created when it was written, and has
/// no case flags.
pub open spec fn short_slot(
    name: Seq<u8>,
    attr: u8,
    first_cluster: u32,
    size: u32,
    stamp: Stamp,
) -> Seq<u8> {
    name + seq![attr, 0u8, 0u8] + le16_bytes(stamp.time as int) + le16_bytes(stamp.date as int)
        + le16_bytes(stamp.date as int) + le16_bytes(first_cluster as int / 65536) + le16_bytes(
        stamp.time as int,
    ) + le16_bytes(stamp.date as int) + le16_bytes(first_cluster as int % 65536) + le32_bytes(
        size as int,
    )
}

/// A short entry holds the fields it was built from.
pub proof fn lemma_short_slot_fields(
    name: Seq<u8>,
    attr: u8,
    first_cluster: u32,
    size: u32,
    stamp: Stamp,
)
    requires
        name.len() == 11,
    ensures
        short_slot(name, attr, first_cluster, size, stamp).len() == 32,
        short_fields(short_slot(name, attr, first_cluster, size, stamp)) == (ShortFields {
            name,
            attr,
            case_flags: 0,
            first_cluster,
            size,
            written: stamp,
        }),
        short_slot(name, attr, first_cluster, size, stamp)[0] == name[0],
{
    let slot = short_slot(name, attr, first_cluster, size, stamp);
    let lo = first_cluster as int % 65536;
    let hi = first_cluster as int / 65536;
    assert(slot.len() == 32);
    assert(slot.subrange(0, 11) =~= name);
    assert(slot[11] == attr && slot[12] == 0);
    assert(slot[20] == le16_bytes(hi)[0] && slot[21] == le16_bytes(hi)[1]);
    assert(slot[22] == le16_bytes(stamp.time as int)[0] && slot[23] == le16_bytes(
        stamp.time as int,
    )[1]);
    assert(slot[24] == le16_bytes(stamp.date as int)[0] && slot[25] == le16_bytes(
        stamp.date as int,
    )[1]);
    assert(slot[26] == le16_bytes(lo)[0] && slot[27] == le16_bytes(lo)[1]);
    assert(slot[28] == le32_bytes(size as int)[0] && slot[29] == le32_bytes(size as int)[1]
        && slot[30] == le32_bytes(size as int)[2] && slot[31] == le32_bytes(size as int)[3]);
    assert(le16(slot, 26) == lo);
    assert(le16(slot, 20) == hi);
    assert(le16(slot, 22) == stamp.time);
    assert(le16(slot, 24) == stamp.date);
    assert(le32(slot, 28) == size);
}

/// Appends the two bytes of a 16-bit number.
fn push_le16(out: &mut Vec<u8>, v: u16)
    ensures
        final(out)@ == old(out)@ + le16_bytes(v as int),
{
    out.push((v % 256) as u8);
    out.push((v / 256) as u8);
    assert(out@ =~= old(out)@ + le16_bytes(v as int));
}

/// Appends the four bytes of a 32-bit number.
fn push_le32(out: &mut Vec<u8>, v: u32)
    ensures
        final(out)@ == old(out)@ + le32_bytes(v as int),
{
    out.push((v % 256) as u8);
    out.push((v / 256 % 256) as u8);
    out.push((v / 65536 % 256) as u8);
    out.push((v / 16777216) as u8);
    assert(out@ =~= old(out)@ + le32_bytes(v as int));
}

/// Builds the bytes of a short entry.
pub fn make_short_slot(name: &Vec<u8>, attr: u8, first_cluster: u32, size: u32, stamp: Stamp) -> (slot:
    Vec<u8>)
    requires
        name.len() == 11,
    ensures
        slot@ == short_slot(name@, attr, first_cluster, size, stamp),
        slot.len() == 32,
{
    let mut slot: Vec<u8> = Vec::new();
    append_range(&mut slot, name, 0, 11);
    assert(slot@ =~= name@);
    slot.push(attr);
    slot.push(0);
    slot.push(0);
    assert(slot@ =~= name@ + seq![attr, 0u8, 0u8]);
    push_le16(&mut slot, stamp.time);
    push_le16(&mut slot, stamp.date);
    push_le16(&mut slot, stamp.date);
    push_le16(&mut slot, (first_cluster / 65536) as u16);
    push_le16(&mut slot, stamp.time);
    push_le16(&mut slot, stamp.date);
    push_le16(&mut slot, (first_cluster % 65536) as u16);
    push_le32(&mut slot, size);
    slot
}

/// The first cluster that the short entry in `slot` names.
pub fn slot_first_cluster(slot: &Vec<u8>) -> (c: u32)
    requires
        slot.len() == 32,
    ensures
        c == short_fields(slot@).first_cluster,
{
    get_le16(slot, 26) as u32 + 65536 * (get_le16(slot, 20) as u32)
}

/// The file size that the short entry in `slot` names.
pub fn slot_size(slot: &Vec<u8>) -> (n: u32)
    requires
        slot.len() == 32,
    ensures
        n == short_fields(slot@).size,
{
    get_le32(slot, 28)
}

/// The time of the last write that the short entry in `slot` names.
pub fn slot_written(slot: &Vec<u8>) -> (stamp: Stamp)
    requires
        slot.len() == 32,
    ensures
        stamp == short_fields(slot@).written,
{
    Stamp { date: get_le16(slot, 24), time: get_le16(slot, 22) }
}

/// Tells whether a slot is free.
pub fn is_slot_free(slot: &Vec<u8>) -> (b: bool)
    requires
        slot.len() == 32,
    ensures
        b == slot_free(slot@),
{
    slot[0] == MARK_END || slot[0] == MARK_DELETED
}

/// Tells whether a slot holds a long-name fragment.
pub fn is_slot_long(slot: &Vec<u8>) -> (b: bool)
    requires
        slot.len() == 32,
    ensures
        b == slot_long(slot@),
{
    slot[11] % 64 == 15
}

/// The short entry in `slot` after its first cluster, its size and the time
/// of its last write were replaced; the other bytes stay.
pub open spec fn restamped(slot: Seq<u8>, first_cluster: u32, size: u32, stamp: Stamp) -> Seq<u8> {
    slot.subrange(0, 20) + le16_bytes(first_cluster as int / 65536) + le16_bytes(stamp.time as int)
        + le16_bytes(stamp.date as int) + le16_bytes(first_cluster as int % 65536) + le32_bytes(
        size as int,
    )
}

/// A restamped entry holds the new cluster, size and time, and keeps its
/// name, attributes and case flags.
pub proof fn lemma_restamped_fields(slot: Seq<u8>, first_cluster: u32, size: u32, stamp: Stamp)
    requires
        slot.len() == 32,
    ensures
        restamped(slot, first_cluster, size, stamp).len() == 32,
        short_fields(restamped(slot, first_cluster, size, stamp)) == (ShortFields {
            name: short_fields(slot).name,
            attr: short_fields(slot).attr,
            case_flags: short_fields(slot).case_flags,
            first_cluster,
            size,
            written: stamp,
        }),
        restamped(slot, first_cluster, size, stamp).subrange(0, 20) == slot.subrange(0, 20),
{
    let after = restamped(slot, first_cluster, size, stamp);
    let lo = first_cluster as int % 65536;
    let hi = first_cluster as int / 65536;
    assert(after.len() == 32);
    assert(after.subrange(0, 20) =~= slot.subrange(0, 20));
    assert(after.subrange(0, 11) =~= slot.subrange(0, 11));
    assert(after[11] == slot[11] && after[12] == slot[12]);
    assert(after[20] == le16_bytes(hi)[0] && after[21] == le16_bytes(hi)[1]);
    assert(after[22] == le16_bytes(stamp.time as int)[0] && after[23] == le16_bytes(
        stamp.time as int,
    )[1]);
    assert(after[24] == le16_bytes(stamp.date as int)[0] && after[25] == le16_bytes(
        stamp.date as int,
    )[1]);
    assert(after[26] == le16_bytes(lo)[0] && after[27] == le16_bytes(lo)[1]);
    assert(after[28] == le32_bytes(size as int)[0] && after[29] == le32_bytes(size as int)[1]
        && after[30] == le32_bytes(size as int)[2] && after[31] == le32_bytes(size as int)[3]);
    assert(le16(after, 26) == lo);
    assert(le16(after, 20) == hi);
    assert(le16(after, 22) == stamp.time);
    assert(le16(after, 24) == stamp.date);
    assert(le32(after, 28) == size);
}

/// Replaces the first cluster, the size and the time of the last write of a
/// short entry.
pub fn restamp_slot(slot: &Vec<u8>, first_cluster: u32, size: u32, stamp: Stamp) -> (out: Vec<u8>)
    requires
        slot.len() == 32,
    ensures
        out@ == restamped(slot@, first_cluster, size, stamp),
        out.len() == 32,
{
    let mut out: Vec<u8> = Vec::new();
    append_range(&mut out, slot, 0, 20);
    assert(out@ =~= slot@.subrange(0, 20));
    push_le16(&mut out, (first_cluster / 65536) as u16);
    push_le16(&mut out, stamp.time);
    push_le16(&mut out, stamp.date);
    push_le16(&mut out, (first_cluster % 65536) as u16);
    push_le32(&mut out, size);
    out
}

/// The checksum of the first `n` bytes of a short name: each byte is added
/// to the sum so far, rotated right by one bit.
pub open spec fn checksum_upto(name: Seq<u8>, n: nat) -> u8
    decreases n,
{
    if n == 0 {
        0
    } else {
        let s = checksum_upto(name, (n - 1) as nat);
        (((s % 2) * 128 + s / 2 + name[n - 1]) % 256) as u8
    }
}

/// The checksum of a short name, which each fragment of its long name
/// carries.
pub open spec fn checksum(name: Seq<u8>) -> u8 {
    checksum_upto(name, 11)
}

/// Computes the checksum of a short name.
pub fn name_checksum(name: &Vec<u8>) -> (sum: u8)
    requires
        name.len() == 11,
    ensures
        sum == checksum(name@),
{
    let mut sum: u8 = 0;
    let mut i: usize = 0;
    while i < 11
        invariant
            i <= 11,
            name.len() == 11,
            sum == checksum_upto(name@, i as nat),
        decreases 11 - i,
    {
        let rotated: u16 = (sum % 2) as u16 * 128 + (sum / 2) as u16;
        sum = ((rotated + name[i] as u16) % 256) as u8;
        i += 1;
    }
    sum
}

/// The offset in a fragment of its name unit `k`.
pub open spec fn unit_offset(k: int) -> int {
    if k < 5 {
        1 + 2 * k
    } else if k < 11 {
        4 + 2 * k
    } else {
        6 + 2 * k
    }
}

/// Name unit `k` of the fragment in `slot`.
pub open spec fn fragment_unit(slot: Seq<u8>, k: int) -> u16 {
    le16(slot, unit_offset(k)) as u16
}

/// The 13 name units of the fragment in `slot`.
pub open spec fn fragment_units(slot: Seq<u8>) -> Seq<u16> {
    Seq::new(13, |k: int| fragment_unit(slot, k))
}

/// `slot` with the first `k` of `units` stored as name units.
pub open spec fn with_units(slot: Seq<u8>, units: Seq<u16>, k: nat) -> Seq<u8>
    decreases k,
{
    if k == 0 {
        slot
    } else {
        overlay(
            with_units(slot, units, (k - 1) as nat),
            unit_offset(k - 1),
            le16_bytes(units[k - 1] as int),
        )
    }
}

/// The bytes of a fragment's slot before its name units are stored: the
/// sequence byte, the attribute byte of a fragment and the checksum.
pub open spec fn fragment_frame(order: u8, sum: u8) -> Seq<u8> {
    zeros(32).update(0, order).update(11, ATTR_LONG_NAME).update(13, sum)
}

/// The bytes of the fragment with sequence byte `order` that holds `units`
/// and carries the checksum `sum`.
pub open spec fn fragment_slot(units: Seq<u16>, order: u8, sum: u8) -> Seq<u8> {
    with_units(fragment_frame(order, sum), units, 13)
}

/// Storing name units leaves the bytes that are no unit, and the units
/// beyond those stored.
proof fn lemma_with_units(slot: Seq<u8>, units: Seq<u16>, k: nat)
    requires
        slot.len() == 32,
        units.len() == 13,
        k <= 13,
    ensures
        with_units(slot, units, k).len() == 32,
        with_units(slot, units, k)[0] == slot[0],
        with_units(slot, units, k)[11] == slot[11],
        with_units(slot, units, k)[12] == slot[12],
        with_units(slot, units, k)[13] == slot[13],
        with_units(slot, units, k)[26] == slot[26],
        with_units(slot, units, k)[27] == slot[27],
        forall|j: int| 0 <= j < k ==> fragment_unit(with_units(slot, units, k), j) == units[j],
    decreases k,
{
    if k > 0 {
        lemma_with_units(slot, units, (k - 1) as nat);
        let before = with_units(slot, units, (k - 1) as nat);
        let after = with_units(slot, units, k);
        let at = unit_offset(k - 1);
        assert forall|j: int| 0 <= j < k implies fragment_unit(after, j) == units[j] by {
            let o = unit_offset(j);
            if j < k - 1 {
                assert(fragment_unit(before, j) == units[j]);
                assert(o + 2 <= at);
                assert(after[o] == before[o] && after[o + 1] == before[o + 1]);
            } else {
                let v = units[j] as int;
                assert(after[o] == le16_bytes(v)[0] && after[o + 1] == le16_bytes(v)[1]);
            }
        }
    }
}

/// A fragment holds the units, the sequence byte and the checksum that it
/// was built from, and is marked as a fragment.
pub proof fn lemma_fragment_slot(units: Seq<u16>, order: u8, sum: u8)
    requires
        units.len() == 13,
    ensures
        fragment_slot(units, order, sum).len() == 32,
        fragment_slot(units, order, sum)[0] == order,
        fragment_slot(units, order, sum)[13] == sum,
        slot_long(fragment_slot(units, order, sum)),
        fragment_units(fragment_slot(units, order, sum)) == units,
{
    lemma_with_units(fragment_frame(order, sum), units, 13);
    assert(fragment_units(fragment_slot(units, order, sum)) =~= units);
}

/// Builds the bytes of a fragment.
pub fn make_fragment_slot(units: &Vec<u16>, order: u8, sum: u8) -> (slot: Vec<u8>)
    requires
        units.len() == 13,
    ensures
        slot@ == fragment_slot(units@, order, sum),
        slot.len() == 32,
{
    let mut slot = zero_bytes(32);
    slot[0] = order;
    slot[11] = ATTR_LONG_NAME;
    slot[13] = sum;
    assert(slot@ =~= fragment_frame(order, sum));
    let mut k: usize = 0;
    while k < 13
        invariant
            k <= 13,
            units.len() == 13,
            slot.len() == 32,
            slot@ == with_units(fragment_frame(order, sum), units@, k as nat),
        decreases 13 - k,
    {
        let at: usize = if k < 5 {
            1 + 2 * k
        } else if k < 11 {
            4 + 2 * k
        } else {
            6 + 2 * k
        };
        put_le16(&mut slot, at, units[k]);
        k += 1;
    }
    slot
}

/// Reads the 13 name units of a fragment.
pub fn read_fragment_units(slot: &Vec<u8>) -> (units: Vec<u16>)
    requires
        slot.len() == 32,
    ensures
        units@ == fragment_units(slot@),
{
    let mut units: Vec<u16> = Vec::new();
    let mut k: usize = 0;
    while k < 13
        invariant
            k <= 13,
            slot.len() == 32,
            units@ == Seq::new(k as nat, |j: int| fragment_unit(slot@, j)),
        decreases 13 - k,
    {
        let at: usize = if k < 5 {
            1 + 2 * k
        } else if k < 11 {
            4 + 2 * k
        } else {
            6 + 2 * k
        };
        units.push(get_le16(slot, at));
        k += 1;
        assert(units@ =~= Seq::new(k as nat, |j: int| fragment_unit(slot@, j)));
    }
    units
}

} // verus!
