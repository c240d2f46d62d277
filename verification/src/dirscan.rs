//! What the scans of a directory pass over, and where they come to a halt:
//! the facts by which an entry that was added is found again.

use vstd::prelude::*;
use crate::dir::{
    entry_from, find_from, fragments_at, gather, goes_by, is_entry, listed_name, long_name_at,
    Probe, Scan, Slots, MAX_SLOTS,
};
use crate::bytes::zeros;
use crate::dirent::{lemma_fragment_slot, lemma_short_slot_fields, slot_free, slot_long, Stamp, MARK_END};
use crate::dirops::{entry_slot, lemma_room, room_from, slots_kept};
use crate::diskio::Drive;
use crate::name::fragment_of;
use crate::volume::Geometry;

verus! {

/// The slot exists and was never used.
pub open spec fn is_blank(p: Probe) -> bool {
    p matches Probe::Holds(s) && s[0] == MARK_END
}

/// Before a slot that exists, every slot exists.
pub open spec fn solid(slots: Slots) -> bool {
    forall|i: int, j: int|
        0 <= i <= j && (#[trigger] slots(j)) is Holds ==> (#[trigger] slots(i)) is Holds
}

/// Behind a slot that was never used stand only slots that were never
/// used, as in every directory that this engine has made and changed.
pub open spec fn tidy(slots: Slots) -> bool {
    forall|i: int, j: int|
        0 <= i <= j && is_blank(#[trigger] slots(i)) && (#[trigger] slots(j)) is Holds ==> is_blank(
            slots(j),
        )
}

/// The slots from `lo` up to `hi` exist, none of them was never used, and
/// none holds an entry that goes by `name`: a search for `name` passes over
/// them.
pub open spec fn quiet(slots: Slots, name: Seq<u16>, lo: int, hi: int) -> bool {
    forall|k: int|
        lo <= k < hi ==> (#[trigger] slots(k) matches Probe::Holds(s) && s[0] != MARK_END && !(
        is_entry(s) && goes_by(slots, k, name)))
}

/// The slots from `lo` up to `hi` exist, none of them was never used, and
/// none holds an entry: a listing passes over them.
pub open spec fn bare(slots: Slots, lo: int, hi: int) -> bool {
    forall|k: int|
        lo <= k < hi ==> (#[trigger] slots(k) matches Probe::Holds(s) && s[0] != MARK_END
            && !is_entry(s))
}

/// A search passes over slots that are quiet.
pub proof fn lemma_search_passes(slots: Slots, name: Seq<u16>, lo: int, hi: int)
    requires
        0 <= lo <= hi <= MAX_SLOTS,
        quiet(slots, name, lo, hi),
    ensures
        find_from(slots, name, lo) == find_from(slots, name, hi),
    decreases hi - lo,
{
    if lo < hi {
        assert(slots(lo) is Holds);
        lemma_search_passes(slots, name, lo + 1, hi);
    }
}

/// A listing passes over slots that are bare.
pub proof fn lemma_listing_passes(slots: Slots, lo: int, hi: int)
    requires
        0 <= lo <= hi <= MAX_SLOTS,
        bare(slots, lo, hi),
    ensures
        entry_from(slots, lo) == entry_from(slots, hi),
    decreases hi - lo,
{
    if lo < hi {
        assert(slots(lo) is Holds);
        lemma_listing_passes(slots, lo + 1, hi);
    }
}

/// Where a search finds nothing, the slots that stand before the first
/// slot that was never used are quiet.
pub proof fn lemma_quiet_before(slots: Slots, name: Seq<u16>, upto: int)
    requires
        0 <= upto <= MAX_SLOTS,
        !(find_from(slots, name, 0) is At),
        forall|k: int| 0 <= k < upto ==> (#[trigger] slots(k)) is Holds && !is_blank(slots(k)),
    ensures
        quiet(slots, name, 0, upto),
    decreases upto,
{
    if upto > 0 {
        lemma_quiet_before(slots, name, upto - 1);
        lemma_search_passes(slots, name, 0, upto - 1);
        assert(slots(upto - 1) is Holds && !is_blank(slots(upto - 1)));
    }
}

/// The long name of an entry depends on the slots before it, and on its
/// own, only.
pub proof fn lemma_gather_same(a: Slots, b: Slots, j: int, sum: u8, k: int, acc: Seq<u16>)
    requires
        forall|i: int| 0 <= i < j ==> #[trigger] a(i) == b(i),
    ensures
        gather(a, j, sum, k, acc) == gather(b, j, sum, k, acc),
    decreases 21 - k,
{
    if 1 <= k <= 20 && j >= k {
        assert(a(j - k) == b(j - k));
        match a(j - k) {
            Probe::Holds(s) => {
                if slot_long(s) && s[13] == sum && s[0] == k {
                    lemma_gather_same(a, b, j, sum, k + 1, acc + crate::dirent::fragment_units(s));
                }
            },
            _ => {},
        }
    }
}

/// Two directories that hold the same in their first slots up to slot `j`
/// give the entry in slot `j` the same names.
pub proof fn lemma_names_same(a: Slots, b: Slots, j: int, name: Seq<u16>)
    requires
        forall|i: int| 0 <= i <= j ==> #[trigger] a(i) == b(i),
        0 <= j,
    ensures
        long_name_at(a, j) == long_name_at(b, j),
        listed_name(a, j) == listed_name(b, j),
        fragments_at(a, j) == fragments_at(b, j),
        goes_by(a, j, name) == goes_by(b, j, name),
{
    assert(a(j) == b(j));
    match a(j) {
        Probe::Holds(s) => {
            lemma_gather_same(
                a,
                b,
                j,
                crate::dirent::checksum(s.subrange(0, 11)),
                1,
                Seq::empty(),
            );
        },
        _ => {},
    }
}

/// Slots that are quiet in one directory are quiet in another that holds
/// the same in its first slots.
pub proof fn lemma_quiet_same(a: Slots, b: Slots, name: Seq<u16>, upto: int)
    requires
        0 <= upto,
        quiet(a, name, 0, upto),
        forall|i: int| 0 <= i < upto ==> #[trigger] a(i) == b(i),
    ensures
        quiet(b, name, 0, upto),
{
    assert forall|k: int| 0 <= k < upto implies (#[trigger] b(k) matches Probe::Holds(s) && s[0]
        != MARK_END && !(is_entry(s) && goes_by(b, k, name))) by {
        assert(a(k) == b(k));
        assert(a(k) is Holds);
        lemma_names_same(a, b, k, name);
    }
}

/// The first run of free slots that is long enough begins no later than
/// the first slot that was never used: in a tidy directory no slot before
/// the run was never used.
pub proof fn lemma_first_fit(slots: Slots, need: int, i: int, run: int)
    requires
        0 <= run <= i,
        run < need,
        tidy(slots),
        forall|k: int| i - run <= k < i ==> (#[trigger] slots(k) matches Probe::Holds(s) && slot_free(s)),
        room_from(slots, need, i, run) is At,
    ensures
        forall|k: int|
            i - run <= k < room_from(slots, need, i, run)->At_0 ==> !is_blank(#[trigger] slots(k)),
        i - run <= room_from(slots, need, i, run)->At_0,
    decreases MAX_SLOTS - i,
{
    let b = room_from(slots, need, i, run)->At_0;
    match slots(i) {
        Probe::Holds(s) => {
            if slot_free(s) {
                if run + 1 < need {
                    lemma_first_fit(slots, need, i + 1, run + 1);
                }
            } else {
                lemma_first_fit(slots, need, i + 1, 0);
                assert forall|k: int| i - run <= k < b implies !is_blank(#[trigger] slots(k)) by {
                    if k <= i {
                        if is_blank(slots(k)) {
                            assert(is_blank(slots(i)));
                        }
                    }
                }
            }
        },
        _ => {},
    }
}

/// An entry that was added to a tidy directory in which nothing went by
/// its name is what a search for its name finds, and what a listing gives
/// that has come to the first of its slots.
///
/// `before` is the directory as it was, `grown` the directory with the
/// slots that it was given where it had no room, and `after` the directory
/// with the slots of the entry written to the first run of free slots that
/// is long enough.
pub proof fn lemma_added_is_found(
    before: Slots,
    grown: Slots,
    after: Slots,
    name: Seq<u16>,
    short: Seq<u8>,
    base: int,
    frags: int,
    attr: u8,
    first_cluster: u32,
    size: u32,
    stamp: Stamp,
)
    requires
        solid(before),
        tidy(before),
        !(find_from(before, name, 0) is At),
        forall|j: int| 0 <= j && (#[trigger] before(j)) is Holds ==> grown(j) == before(j),
        forall|j: int|
            0 <= j && !(before(j) is Holds) && (#[trigger] grown(j)) is Holds ==> is_blank(
                grown(j),
            ),
        room_from(grown, frags + 1, 0, 0) == Scan::At(base),
        forall|j: int| 0 <= j < base ==> #[trigger] after(j) == grown(j),
        forall|j: int| base + frags < j && (#[trigger] after(j)) is Holds ==> after(j) == grown(j),
        forall|i: int|
            0 <= i <= frags ==> #[trigger] after(base + i) == Probe::Holds(
                entry_slot(name, short, frags, i, attr, first_cluster, size, stamp),
            ),
        short.len() == 11,
        0x21 <= short[0] < 0x7F,
        crate::dirops::attr_ok(attr),
        0 <= frags <= 20,
        goes_by(after, base + frags, name),
    ensures
        find_from(after, name, 0) == Scan::At(base + frags),
        entry_from(after, base) == Scan::At(base + frags),
        tidy(after),
{
    let need = frags + 1;
    lemma_room(grown, need, 0, 0);
    // The directory with its new slots is tidy.
    assert(tidy(grown)) by {
        assert forall|i: int, j: int|
            0 <= i <= j && is_blank(#[trigger] grown(i)) && (#[trigger] grown(j))
                is Holds implies is_blank(grown(j)) by {
            if before(j) is Holds {
                assert(before(i) is Holds);
                assert(grown(i) == before(i) && grown(j) == before(j));
            }
        }
    }
    lemma_first_fit(grown, need, 0, 0);
    // No slot before the entry was never used, so each stood in the
    // directory before.
    assert forall|k: int| 0 <= k < base implies (#[trigger] before(k)) is Holds && !is_blank(
        before(k),
    ) by {
        assert(grown(base) is Holds);
        assert(!is_blank(grown(k)));
        assert(grown(k) is Holds) by {
            lemma_room_solid(grown, need, 0, 0, k);
        }
        if !(before(k) is Holds) {
            assert(is_blank(grown(k)));
        }
    }
    lemma_quiet_before(before, name, base);
    assert forall|i: int| 0 <= i < base implies #[trigger] before(i) == after(i) by {
        assert(after(i) == grown(i));
        assert(before(i) is Holds);
    }
    lemma_quiet_same(before, after, name, base);
    lemma_search_passes(after, name, 0, base);
    // The fragments of the entry are passed over, and its short entry is
    // found.
    assert forall|k: int| base <= k < base + frags implies (#[trigger] after(k) matches Probe::Holds(
        s,
    ) && s[0] != MARK_END && !is_entry(s)) by {
        let i = k - base;
        let order = (if i == 0 {
            frags - i + 0x40
        } else {
            frags - i
        }) as u8;
        assert(after(base + i) == Probe::Holds(
            entry_slot(name, short, frags, i, attr, first_cluster, size, stamp),
        ));
        lemma_fragment_slot(fragment_of(name, frags - i), order, crate::dirent::checksum(short));
    }
    assert(quiet(after, name, base, base + frags));
    assert(bare(after, base, base + frags));
    lemma_search_passes(after, name, base, base + frags);
    lemma_listing_passes(after, base, base + frags);
    lemma_short_slot_fields(short, attr, first_cluster, size, stamp);
    assert(after(base + frags) == Probe::Holds(
        entry_slot(name, short, frags, frags, attr, first_cluster, size, stamp),
    ));
    // The directory is tidy as it was: the entry stands before every slot
    // that was never used.
    assert forall|i: int, j: int|
        0 <= i <= j && is_blank(#[trigger] after(i)) && (#[trigger] after(j))
            is Holds implies is_blank(after(j)) by {
        if i < base {
            assert(after(i) == grown(i));
            assert(!is_blank(grown(i)));
        } else if i <= base + frags {
            assert(after(base + (i - base)) is Holds);
            if i < base + frags {
                assert(quiet(after, name, base, base + frags));
                assert(!is_blank(after(i)));
            }
        } else {
            assert(after(i) == grown(i));
            assert(after(j) == grown(j));
        }
    }
}

/// The slots before a run of free slots that was found exist.
pub proof fn lemma_room_solid(slots: Slots, need: int, i: int, run: int, k: int)
    requires
        0 <= run <= i,
        run < need,
        room_from(slots, need, i, run) is At,
        i <= k < room_from(slots, need, i, run)->At_0 + need,
    ensures
        slots(k) is Holds,
    decreases MAX_SLOTS - i,
{
    match slots(i) {
        Probe::Holds(s) => {
            if k > i {
                if slot_free(s) {
                    if run + 1 < need {
                        lemma_room_solid(slots, need, i + 1, run + 1, k);
                    }
                } else {
                    lemma_room_solid(slots, need, i + 1, 0, k);
                }
            }
        },
        _ => {},
    }
}

impl Geometry {
    /// In a directory on a drive, every slot before a slot that exists
    /// exists.
    pub proof fn lemma_solid(self, disk: Seq<Seq<u8>>, dir: u32)
        requires
            self.wf(),
        ensures
            solid(self.slots(disk, dir)),
    {
        let slots = self.slots(disk, dir);
        assert forall|i: int, j: int| 0 <= i <= j && (#[trigger] slots(j)) is Holds implies (
        #[trigger] slots(i)) is Holds by {
            self.lemma_slots_before(disk, dir, j, i);
        }
    }
}

/// `lemma_added_is_found` for the directory `dir` on a drive: `d0` is the
/// drive as it was, `d1` the drive after the directory was given room, and
/// `d2` the drive after the slots of the entry were written.
pub proof fn lemma_added_on_drive(
    g: Geometry,
    d0: Drive,
    d1: Drive,
    d2: Drive,
    dir: u32,
    name: Seq<u16>,
    short: Seq<u8>,
    base: int,
    frags: int,
    attr: u8,
    first_cluster: u32,
    size: u32,
    stamp: Stamp,
)
    requires
        g.wf(),
        tidy(g.slots(d0.sectors, dir)),
        !(find_from(g.slots(d0.sectors, dir), name, 0) is At),
        slots_kept(g, d0.sectors, d1.sectors, dir),
        crate::dirops::slots_new_blank(g, d0.sectors, d1.sectors, dir),
        room_from(g.slots(d1.sectors, dir), frags + 1, 0, 0) == Scan::At(base),
        forall|j: int|
            0 <= j && !(base <= j <= base + frags) && g.probe(d1.sectors, dir, j) is Holds
                ==> #[trigger] g.probe(d2.sectors, dir, j) == g.probe(d1.sectors, dir, j),
        forall|j: int|
            0 <= j && !(g.probe(d1.sectors, dir, j) is Holds) ==> !(#[trigger] g.probe(
                d2.sectors,
                dir,
                j,
            ) is Holds),
        forall|i: int|
            0 <= i <= frags ==> #[trigger] g.probe(d2.sectors, dir, base + frags - frags + i)
                == Probe::Holds(
                entry_slot(name, short, frags, i, attr, first_cluster, size, stamp),
            ),
        short.len() == 11,
        0x21 <= short[0] < 0x7F,
        crate::dirops::attr_ok(attr),
        0 <= frags <= 20,
        goes_by(g.slots(d2.sectors, dir), base + frags, name),
    ensures
        find_from(g.slots(d2.sectors, dir), name, 0) == Scan::At(base + frags),
        entry_from(g.slots(d2.sectors, dir), base + frags - frags) == Scan::At(base + frags),
        tidy(g.slots(d2.sectors, dir)),
{
    let before = g.slots(d0.sectors, dir);
    let grown = g.slots(d1.sectors, dir);
    let after = g.slots(d2.sectors, dir);
    g.lemma_solid(d0.sectors, dir);
    lemma_room(grown, frags + 1, 0, 0);
    assert forall|j: int| 0 <= j && (#[trigger] before(j)) is Holds implies grown(j) == before(
        j,
    ) by {
        assert(g.probe(d0.sectors, dir, j) is Holds);
        assert(j < MAX_SLOTS);
        assert(g.probe(d1.sectors, dir, j) == g.probe(d0.sectors, dir, j));
    }
    assert forall|j: int|
        0 <= j && !(before(j) is Holds) && (#[trigger] grown(j)) is Holds implies is_blank(
        grown(j),
    ) by {
        assert(g.probe(d1.sectors, dir, j) == Probe::Holds(zeros(32)));
    }
    assert forall|j: int| 0 <= j < base implies #[trigger] after(j) == grown(j) by {
        lemma_room_solid(grown, frags + 1, 0, 0, j);
        assert(g.probe(d2.sectors, dir, j) == g.probe(d1.sectors, dir, j));
    }
    assert forall|i: int| 0 <= i <= frags implies #[trigger] after(base + i) == Probe::Holds(
        entry_slot(name, short, frags, i, attr, first_cluster, size, stamp),
    ) by {
        assert(g.probe(d2.sectors, dir, base + frags - frags + i) == Probe::Holds(
            entry_slot(name, short, frags, i, attr, first_cluster, size, stamp),
        ));
    }
    assert forall|j: int| base + frags < j && (#[trigger] after(j)) is Holds implies after(j)
        == grown(j) by {
        if !(g.probe(d1.sectors, dir, j) is Holds) {
            assert(!(g.probe(d2.sectors, dir, j) is Holds));
        }
        assert(g.probe(d2.sectors, dir, j) == g.probe(d1.sectors, dir, j));
    }
    lemma_added_is_found(
        before,
        grown,
        after,
        name,
        short,
        base,
        frags,
        attr,
        first_cluster,
        size,
        stamp,
    );
}

/// A directory in which the same slots exist and the same slots were never
/// used is tidy if it was.
pub proof fn lemma_tidy_same(before: Slots, after: Slots)
    requires
        tidy(before),
        forall|j: int|
            0 <= j ==> ((#[trigger] after(j)) is Holds <==> before(j) is Holds) && (is_blank(
                after(j),
            ) <==> is_blank(before(j))),
    ensures
        tidy(after),
{
    assert forall|i: int, j: int|
        0 <= i <= j && is_blank(#[trigger] after(i)) && (#[trigger] after(j)) is Holds implies is_blank(
        after(j),
    ) by {
        assert(is_blank(before(i)) && before(j) is Holds);
    }
}

/// Slots of a sound directory that were written hold what was written,
/// and every other slot of the directory holds what it held. Where no
/// slot has become one that was never used, or has ceased to be one, the
/// directory is tidy if it was.
pub proof fn lemma_rewritten(
    g: Geometry,
    d0: Drive,
    d1: Drive,
    dir: u32,
    base: int,
    data: Seq<Seq<u8>>,
)
    requires
        g.wf(),
        0 <= base,
        g.dir_sound(d0.sectors, dir),
        crate::dir::slots_written(g, d0, d1, dir, base, data),
        forall|i: int| 0 <= i < data.len() ==> (#[trigger] g.probe(d0.sectors, dir, base + i)) is Holds,
    ensures
        forall|j: int|
            0 <= j && !(base <= j < base + data.len()) ==> #[trigger] g.probe(d1.sectors, dir, j)
                == g.probe(d0.sectors, dir, j),
        (forall|i: int|
            0 <= i < data.len() ==> (is_blank(#[trigger] g.probe(d0.sectors, dir, base + i))
                <==> data[i][0] == MARK_END)) && tidy(g.slots(d0.sectors, dir)) ==> tidy(
            g.slots(d1.sectors, dir),
        ),
{
    assert forall|j: int| 0 <= j && !(base <= j < base + data.len()) implies #[trigger] g.probe(
        d1.sectors,
        dir,
        j,
    ) == g.probe(d0.sectors, dir, j) by {
        crate::dir::lemma_same_table_same_place(g, d0.sectors, d1.sectors, dir, j);
        if g.probe(d0.sectors, dir, j) is Holds {
            assert(crate::dir::kept_apart(g, d0.sectors, dir, base, data.len() as int, dir, j)) by {
                assert forall|i: int| 0 <= i < data.len() implies g.slot_place(d0.sectors, dir, j)
                    != #[trigger] g.slot_place(d0.sectors, dir, base + i) by {
                    assert(g.probe(d0.sectors, dir, base + i) is Holds);
                    g.lemma_places_differ(d0.sectors, dir, j, base + i);
                }
            }
        }
    }
    let before = g.slots(d0.sectors, dir);
    let after = g.slots(d1.sectors, dir);
    if (forall|i: int|
        0 <= i < data.len() ==> (is_blank(#[trigger] g.probe(d0.sectors, dir, base + i))
            <==> data[i][0] == MARK_END)) && tidy(before) {
        assert forall|j: int|
            0 <= j implies ((#[trigger] after(j)) is Holds <==> before(j) is Holds) && (is_blank(
            after(j),
        ) <==> is_blank(before(j))) by {
            if base <= j < base + data.len() {
                let i = j - base;
                assert(g.probe(d1.sectors, dir, base + i) == Probe::Holds(data[i]));
                assert(g.probe(d0.sectors, dir, base + i) is Holds);
            } else {
                assert(g.probe(d1.sectors, dir, j) == g.probe(d0.sectors, dir, j));
            }
        }
        lemma_tidy_same(before, after);
    }
}

} // verus!
