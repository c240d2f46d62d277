//! The cluster allocator: it finds free clusters, links them into chains,
//! appends to chains and gives chains back.

use vstd::prelude::*;
use crate::chain::{
    chain_length, chain_upto, in_table, is_chain, lemma_chain_bound, lemma_chain_distinct,
    lemma_chain_found, lemma_chain_is_chain, lemma_chain_kept,
};
use crate::diskio::{Drive, FatfsDiskHandler};
use crate::error::FsError;
use crate::fat::{
    count_free, entry_max, free_clusters, free_count, get_next, is_end, lemma_count_free_update,
    same_volume, set_next, Volume,
};
use crate::volume::{FatType, Geometry};

verus! {

/// Where every cluster below `upto` is in use, none of them is free.
pub proof fn lemma_none_free(table: Seq<u32>, upto: int)
    requires
        upto <= table.len(),
        forall|n: int| 2 <= n < upto ==> #[trigger] table[n] != 0,
    ensures
        count_free(table, upto) == 0,
    decreases upto,
{
    if upto > 2 {
        lemma_none_free(table, upto - 1);
    }
}

/// `c` is the first free cluster behind `cursor`, where the search goes
/// on at cluster 2 when it has come to the end of the table.
pub open spec fn first_free_behind(table: Seq<u32>, cursor: int, c: int) -> bool {
    &&& in_table(table, c)
    &&& table[c] == 0
    &&& if cursor < c {
        forall|n: int| cursor < n < c ==> #[trigger] table[n] != 0
    } else {
        &&& forall|n: int| cursor < n < table.len() ==> #[trigger] table[n] != 0
        &&& forall|n: int| 2 <= n < c ==> #[trigger] table[n] != 0
    }
}

/// Looks for a free cluster, beginning behind the volume's search cursor
/// and going round the data region once.
///
/// The first free cluster on that way is found; `None` is answered only
/// when the table records no free cluster at all. The drive is left as it
/// is.
pub fn find_free<H: FatfsDiskHandler>(vol: &Volume, dev: &mut H) -> (res: Result<
    Option<u32>,
    FsError,
>)
    requires
        old(dev).inv(),
        vol.on(old(dev).drive(vol.pdrv)),
    ensures
        final(dev).inv(),
        final(dev).drive(vol.pdrv) == old(dev).drive(vol.pdrv),
        match res {
            Ok(Some(c)) => vol.geom.holds(c as int) && vol.geom.table(
                old(dev).drive(vol.pdrv).sectors,
            )[c as int] == 0 && first_free_behind(
                vol.geom.table(old(dev).drive(vol.pdrv).sectors),
                vol.cursor as int,
                c as int,
            ),
            Ok(None) => free_clusters(vol.geom.table(old(dev).drive(vol.pdrv).sectors)) == 0,
            Err(e) => e.is_device() && !old(dev).drive(vol.pdrv).dependable,
        },
{
    let ghost d = old(dev).drive(vol.pdrv);
    let ghost table = vol.geom.table(d.sectors);
    let top: u32 = vol.geom.cluster_count + 2;
    let mut c: u32 = vol.cursor + 1;
    while c < top
        invariant
            vol.cursor < c <= top,
            top == vol.geom.entries(),
            dev.inv(),
            d == old(dev).drive(vol.pdrv),
            dev.drive(vol.pdrv) == d,
            vol.on(d),
            table == vol.geom.table(d.sectors),
            forall|n: int| vol.cursor < n < c ==> #[trigger] table[n] != 0,
        decreases top - c,
    {
        match get_next(vol, dev, c) {
            Err(e) => {
                return Err(e);
            },
            Ok(v) => {
                if v == 0 {
                    return Ok(Some(c));
                }
            },
        }
        c = c + 1;
    }
    c = 2;
    while c <= vol.cursor
        invariant
            2 <= c <= vol.cursor + 1,
            top == vol.geom.entries(),
            dev.inv(),
            d == old(dev).drive(vol.pdrv),
            dev.drive(vol.pdrv) == d,
            vol.on(d),
            table == vol.geom.table(d.sectors),
            forall|n: int| vol.cursor < n < top ==> #[trigger] table[n] != 0,
            forall|n: int| 2 <= n < c ==> #[trigger] table[n] != 0,
        decreases vol.cursor + 1 - c,
    {
        match get_next(vol, dev, c) {
            Err(e) => {
                return Err(e);
            },
            Ok(v) => {
                if v == 0 {
                    return Ok(Some(c));
                }
            },
        }
        c = c + 1;
    }
    proof {
        lemma_none_free(table, top as int);
    }
    Ok(None)
}

/// Why a request for `count` new clusters is refused, if it is: the volume
/// is write protected, no cluster is asked for, or fewer clusters are free
/// than are asked for.
pub open spec fn alloc_refusal(vol: Volume, table: Seq<u32>, count: u32) -> Option<FsError> {
    if vol.read_only {
        Some(FsError::WriteProtected)
    } else if count == 0 {
        Some(FsError::InvalidParameter)
    } else if count > free_clusters(table) {
        Some(FsError::DiskFull)
    } else {
        None
    }
}

/// The table `after` is `before` with a new chain of `count` clusters that
/// begins at `first`: the clusters of the chain were free, no other entry
/// has changed, and `count` fewer clusters are free.
pub open spec fn allocated(
    t: FatType,
    before: Seq<u32>,
    after: Seq<u32>,
    first: int,
    count: nat,
) -> bool {
    &&& after.len() == before.len()
    &&& chain_upto(t, after, first, count) matches Some(s) && {
        &&& s.len() == count
        &&& forall|i: int| 0 <= i < s.len() ==> before[#[trigger] s[i]] == 0
        &&& forall|n: int| 0 <= n < before.len() && !s.contains(n) ==> #[trigger] after[n] == before[n]
    }
    &&& free_clusters(after) == free_clusters(before) - count
}

/// The clusters taken so far are linked in order and end the chain, they
/// were free, and nothing else has changed.
spec fn taking(t: FatType, before: Seq<u32>, now: Seq<u32>, s: Seq<int>) -> bool {
    &&& now.len() == before.len()
    &&& forall|j: int|
        0 <= j < s.len() ==> in_table(before, #[trigger] s[j]) && before[s[j]] == 0 && now[s[j]]
            == if j + 1 < s.len() {
            s[j + 1] as u32
        } else {
            entry_max(t) as u32
        }
    &&& forall|n: int| 0 <= n < before.len() && !s.contains(n) ==> #[trigger] now[n] == before[n]
    &&& free_clusters(now) == free_clusters(before) - s.len()
}

/// One more cluster joins the clusters taken so far.
proof fn lemma_take(
    t: FatType,
    before: Seq<u32>,
    now: Seq<u32>,
    s: Seq<int>,
    c: int,
    marked: Seq<u32>,
    next: Seq<u32>,
)
    requires
        taking(t, before, now, s),
        in_table(before, c),
        now[c] == 0,
        before.len() <= entry_max(t) - 7,
        marked == now.update(c, entry_max(t) as u32),
        next == if s.len() > 0 {
            marked.update(s[s.len() - 1], c as u32)
        } else {
            marked
        },
    ensures
        !s.contains(c),
        taking(t, before, next, s.push(c)),
        free_clusters(marked) == free_clusters(now) - 1,
        free_clusters(next) == free_clusters(marked),
{
    let s2 = s.push(c);
    if s.contains(c) {
        let j = choose|j: int| 0 <= j < s.len() && s[j] == c;
        assert(now[s[j]] != 0);
    }
    lemma_count_free_update(now, now.len() as int, c, entry_max(t) as u32);
    if s.len() > 0 {
        let last = s[s.len() - 1];
        assert(in_table(before, last));
        assert(marked[last] == now[last]);
        lemma_count_free_update(marked, marked.len() as int, last, c as u32);
    }
    assert forall|j: int| 0 <= j < s2.len() implies in_table(before, #[trigger] s2[j])
        && before[s2[j]] == 0 && next[s2[j]] == if j + 1 < s2.len() {
        s2[j + 1] as u32
    } else {
        entry_max(t) as u32
    } by {
        if j < s.len() {
            assert(s2[j] == s[j]);
            assert(s[j] != c);
            if j + 1 < s.len() {
                assert(s2[j + 1] == s[j + 1]);
                assert(s[j] != s[s.len() - 1]) by {
                    assert(now[s[j]] == s[j + 1] as u32);
                    assert(in_table(before, s[j + 1]));
                }
            }
        } else {
            assert(!s.contains(c));
            assert(before[c] == now[c]);
        }
    }
    assert forall|n: int| 0 <= n < before.len() && !s2.contains(n) implies #[trigger] next[n]
        == before[n] by {
        assert(s2[s.len() as int] == c);
        assert(n != c);
        if s.contains(n) {
            let j = choose|j: int| 0 <= j < s.len() && s[j] == n;
            assert(s2[j] == n);
        }
        if s.len() > 0 {
            assert(s2[s.len() - 1] == s[s.len() - 1]);
        }
    }
}

/// The clusters that were taken form the new chain.
proof fn lemma_taken(t: FatType, before: Seq<u32>, now: Seq<u32>, s: Seq<int>)
    requires
        taking(t, before, now, s),
        s.len() >= 1,
        before.len() <= entry_max(t) - 7,
    ensures
        allocated(t, before, now, s[0], s.len()),
{
    assert(is_chain(t, now, s)) by {
        assert forall|i: int| 0 <= i < s.len() - 1 implies now[#[trigger] s[i]] == s[i + 1]
            && !is_end(t, now[s[i]] as int) by {
            assert(in_table(before, s[i + 1]));
        }
    }
    lemma_chain_found(t, now, s, s.len());
}

/// Allocates a chain of `count` clusters and gives its first cluster.
///
/// `DiskFull` is answered before anything is written, so that the table and
/// the number of free clusters stay as they were. Each new cluster is first
/// marked as the end of a chain and then linked behind the one before it.
/// Only sectors of the tables change. On a drive that is not dependable a
/// transfer may fail midway: the answer is then the driver's error, and a
/// part of the chain may have been written.
pub fn allocate_chain<H: FatfsDiskHandler>(vol: &mut Volume, dev: &mut H, count: u32) -> (res:
    Result<u32, FsError>)
    requires
        old(dev).inv(),
        old(vol).on(old(dev).drive(old(vol).pdrv)),
    ensures
        final(dev).inv(),
        same_volume(*old(vol), *final(vol)),
        final(vol).on(final(dev).drive(old(vol).pdrv)),
        old(dev).drive(old(vol).pdrv).same_but(
            final(dev).drive(old(vol).pdrv),
            |i: int| old(vol).geom.in_tables(i),
        ),
        res is Ok || old(dev).drive(old(vol).pdrv).dependable ==> crate::fat::mirrors_kept(
            old(vol).geom,
            old(dev).drive(old(vol).pdrv).sectors,
            final(dev).drive(old(vol).pdrv).sectors,
        ),
        match res {
            Ok(first) => alloc_refusal(
                *old(vol),
                old(vol).geom.table(old(dev).drive(old(vol).pdrv).sectors),
                count,
            ) is None && allocated(
                old(vol).geom.fat_type,
                old(vol).geom.table(old(dev).drive(old(vol).pdrv).sectors),
                old(vol).geom.table(final(dev).drive(old(vol).pdrv).sectors),
                first as int,
                count as nat,
            ),
            Err(e) => (alloc_refusal(
                *old(vol),
                old(vol).geom.table(old(dev).drive(old(vol).pdrv).sectors),
                count,
            ) == Some(e) && final(dev).drive(old(vol).pdrv) == old(dev).drive(old(vol).pdrv)) || (
            !old(dev).drive(old(vol).pdrv).dependable && e.is_device()),
        },
{
    let g = vol.geom;
    let t = g.fat_type;
    let pdrv = vol.pdrv;
    let ghost d0 = old(dev).drive(pdrv);
    let ghost t0 = g.table(d0.sectors);
    assert(d0.same_but(d0, |i: int| g.in_tables(i)));
    if vol.read_only {
        return Err(FsError::WriteProtected);
    }
    if count == 0 {
        return Err(FsError::InvalidParameter);
    }
    let free = match free_count(vol, dev) {
        Err(e) => {
            return Err(e);
        },
        Ok(n) => n,
    };
    if count > free {
        return Err(FsError::DiskFull);
    }
    let end: u32 = match t {
        FatType::Fat12 => 0xFFF,
        FatType::Fat16 => 0xFFFF,
        FatType::Fat32 => 0x0FFF_FFFF,
    };
    let ghost mut s: Seq<int> = Seq::empty();
    let mut first: u32 = 0;
    let mut last: u32 = 0;
    let mut i: u32 = 0;
    while i < count
        invariant
            i <= count,
            count <= free,
            free == free_clusters(t0),
            dev.inv(),
            g == old(vol).geom,
            t == g.fat_type,
            end == entry_max(t),
            pdrv == old(vol).pdrv,
            same_volume(*old(vol), *vol),
            !vol.read_only,
            d0 == old(dev).drive(pdrv),
            t0 == g.table(d0.sectors),
            alloc_refusal(*old(vol), t0, count) is None,
            vol.on(dev.drive(pdrv)),
            vol.free is Some,
            d0.same_but(dev.drive(pdrv), |i: int| g.in_tables(i)),
            crate::fat::mirrors_kept(g, d0.sectors, dev.drive(pdrv).sectors),
            s.len() == i,
            taking(t, t0, g.table(dev.drive(pdrv).sectors), s),
            i > 0 ==> first == s[0] && last == s[i - 1],
        decreases count - i,
    {
        let ghost now = g.table(dev.drive(pdrv).sectors);
        let ghost before_step = dev.drive(pdrv);
        let found = match find_free(vol, dev) {
            Err(e) => {
                return Err(e);
            },
            Ok(found) => found,
        };
        let c = match found {
            None => {
                assert(false);
                return Err(FsError::DiskFull);
            },
            Some(c) => c,
        };
        match set_next(vol, dev, c, end) {
            Err(e) => {
                proof {
                    lemma_same_but_twice(d0, before_step, dev.drive(pdrv), g);
                    if dev.drive(pdrv).dependable || crate::fat::mirrors_kept(g, before_step.sectors, dev.drive(pdrv).sectors) {
                        crate::fat::lemma_mirrors_twice(g, d0.sectors, before_step.sectors, dev.drive(pdrv).sectors);
                    }
                }
                return Err(e);
            },
            Ok(_) => {},
        }
        let ghost marked = g.table(dev.drive(pdrv).sectors);
        let ghost mid = dev.drive(pdrv);
        proof {
            lemma_same_but_twice(d0, before_step, mid, g);
            if dev.drive(pdrv).dependable || crate::fat::mirrors_kept(g, before_step.sectors, mid.sectors) {
                crate::fat::lemma_mirrors_twice(g, d0.sectors, before_step.sectors, mid.sectors);
            }
        }
        if i > 0 {
            match set_next(vol, dev, last, c) {
                Err(e) => {
                    proof {
                        lemma_same_but_twice(d0, mid, dev.drive(pdrv), g);
                        if dev.drive(pdrv).dependable || crate::fat::mirrors_kept(g, mid.sectors, dev.drive(pdrv).sectors) {
                            crate::fat::lemma_mirrors_twice(g, d0.sectors, mid.sectors, dev.drive(pdrv).sectors);
                        }
                    }
                    return Err(e);
                },
                Ok(_) => {},
            }
        } else {
            first = c;
        }
        proof {
            lemma_same_but_twice(d0, mid, dev.drive(pdrv), g);
            if dev.drive(pdrv).dependable || crate::fat::mirrors_kept(g, mid.sectors, dev.drive(pdrv).sectors) {
                crate::fat::lemma_mirrors_twice(g, d0.sectors, mid.sectors, dev.drive(pdrv).sectors);
            }
            lemma_take(t, t0, now, s, c as int, marked, g.table(dev.drive(pdrv).sectors));
            s = s.push(c as int);
        }
        vol.cursor = c;
        last = c;
        i = i + 1;
    }
    proof {
        lemma_taken(t, t0, g.table(dev.drive(pdrv).sectors), s);
    }
    Ok(first)
}

/// Changes that stay within the tables add up to a change that stays
/// within the tables.
pub proof fn lemma_same_but_twice(
    a: crate::diskio::Drive,
    b: crate::diskio::Drive,
    c: crate::diskio::Drive,
    g: Geometry,
)
    requires
        a.same_but(b, |i: int| g.in_tables(i)),
        b.same_but(c, |i: int| g.in_tables(i)),
    ensures
        a.same_but(c, |i: int| g.in_tables(i)),
{
    assert forall|i: int| 0 <= i < a.sectors.len() && !g.in_tables(i) implies #[trigger] c.sectors[i]
        == a.sectors[i] by {
        assert(b.sectors[i] == a.sectors[i]);
    }
}

/// Why a request to append `additional` clusters behind cluster `last` is
/// refused, if it is: the volume is write protected, no cluster is asked
/// for, `last` is not the last cluster of a chain, or fewer clusters are
/// free than are asked for.
pub open spec fn extend_refusal(vol: Volume, table: Seq<u32>, last: u32, additional: u32) -> Option<
    FsError,
> {
    if vol.read_only {
        Some(FsError::WriteProtected)
    } else if additional == 0 || !vol.geom.holds(last as int) || !is_end(
        vol.geom.fat_type,
        table[last as int] as int,
    ) {
        Some(FsError::InvalidParameter)
    } else if additional > free_clusters(table) {
        Some(FsError::DiskFull)
    } else {
        None
    }
}

/// The table `after` is `before` with a new chain of `count` clusters that
/// begins at `first_new` and hangs behind cluster `last`: the new clusters
/// were free, no entry has changed but theirs and that of `last`, and
/// `count` fewer clusters are free.
pub open spec fn extended(
    t: FatType,
    before: Seq<u32>,
    after: Seq<u32>,
    last: int,
    first_new: int,
    count: nat,
) -> bool {
    &&& after.len() == before.len()
    &&& after[last] == first_new
    &&& chain_upto(t, after, first_new, count) matches Some(s) && {
        &&& s.len() == count
        &&& forall|i: int| 0 <= i < s.len() ==> before[#[trigger] s[i]] == 0
        &&& forall|n: int|
            0 <= n < before.len() && n != last && !s.contains(n) ==> #[trigger] after[n]
                == before[n]
    }
    &&& free_clusters(after) == free_clusters(before) - count
}

/// Hanging a new chain behind the last cluster of another.
proof fn lemma_hang(
    t: FatType,
    before: Seq<u32>,
    mid: Seq<u32>,
    after: Seq<u32>,
    last: int,
    first: int,
    count: nat,
)
    requires
        allocated(t, before, mid, first, count),
        in_table(before, last),
        is_end(t, before[last] as int),
        after == mid.update(last, first as u32),
        before.len() <= entry_max(t) - 7,
    ensures
        extended(t, before, after, last, first, count),
{
    let s = chain_upto(t, mid, first, count)->Some_0;
    lemma_chain_is_chain(t, mid, first, count);
    assert(!s.contains(last)) by {
        if s.contains(last) {
            let j = choose|j: int| 0 <= j < s.len() && s[j] == last;
            assert(before[s[j]] == 0);
        }
    }
    assert(mid[last] == before[last]);
    assert forall|i: int| 0 <= i < s.len() implies after[#[trigger] s[i]] == mid[s[i]] by {
        assert(s.contains(s[i]));
    }
    lemma_chain_kept(t, mid, after, s);
    lemma_chain_found(t, after, s, count);
    assert(in_table(mid, s[0]));
    lemma_count_free_update(mid, mid.len() as int, last, first as u32);
}

/// Appends a new chain of `additional` clusters behind `last`, the last
/// cluster of a chain, and gives the first of the new clusters.
///
/// A refusal leaves the drive as it is. Only sectors of the tables change.
/// On a drive that is not dependable a transfer may fail midway: the answer
/// is then the driver's error, and clusters may have been taken without
/// being linked to the chain.
pub fn extend_chain<H: FatfsDiskHandler>(vol: &mut Volume, dev: &mut H, last: u32, additional: u32) -> (res:
    Result<u32, FsError>)
    requires
        old(dev).inv(),
        old(vol).on(old(dev).drive(old(vol).pdrv)),
    ensures
        final(dev).inv(),
        same_volume(*old(vol), *final(vol)),
        final(vol).on(final(dev).drive(old(vol).pdrv)),
        old(dev).drive(old(vol).pdrv).same_but(
            final(dev).drive(old(vol).pdrv),
            |i: int| old(vol).geom.in_tables(i),
        ),
        res is Ok || old(dev).drive(old(vol).pdrv).dependable ==> crate::fat::mirrors_kept(
            old(vol).geom,
            old(dev).drive(old(vol).pdrv).sectors,
            final(dev).drive(old(vol).pdrv).sectors,
        ),
        match res {
            Ok(first_new) => extend_refusal(
                *old(vol),
                old(vol).geom.table(old(dev).drive(old(vol).pdrv).sectors),
                last,
                additional,
            ) is None && extended(
                old(vol).geom.fat_type,
                old(vol).geom.table(old(dev).drive(old(vol).pdrv).sectors),
                old(vol).geom.table(final(dev).drive(old(vol).pdrv).sectors),
                last as int,
                first_new as int,
                additional as nat,
            ),
            Err(e) => (extend_refusal(
                *old(vol),
                old(vol).geom.table(old(dev).drive(old(vol).pdrv).sectors),
                last,
                additional,
            ) == Some(e) && final(dev).drive(old(vol).pdrv) == old(dev).drive(old(vol).pdrv)) || (
            !old(dev).drive(old(vol).pdrv).dependable && e.is_device()),
        },
{
    let g = vol.geom;
    let t = g.fat_type;
    let pdrv = vol.pdrv;
    let ghost d0 = old(dev).drive(pdrv);
    let ghost t0 = g.table(d0.sectors);
    assert(d0.same_but(d0, |i: int| g.in_tables(i)));
    if vol.read_only {
        return Err(FsError::WriteProtected);
    }
    if additional == 0 || last < 2 || last - 2 >= g.cluster_count {
        return Err(FsError::InvalidParameter);
    }
    let end_min: u32 = match t {
        FatType::Fat12 => 0xFF8,
        FatType::Fat16 => 0xFFF8,
        FatType::Fat32 => 0x0FFF_FFF8,
    };
    match get_next(vol, dev, last) {
        Err(e) => {
            return Err(e);
        },
        Ok(v) => {
            if v < end_min {
                return Err(FsError::InvalidParameter);
            }
        },
    }
    let first_new = match allocate_chain(vol, dev, additional) {
        Err(e) => {
            return Err(e);
        },
        Ok(c) => c,
    };
    let ghost mid = dev.drive(pdrv);
    proof {
        lemma_chain_is_chain(t, g.table(mid.sectors), first_new as int, additional as nat);
    }
    match set_next(vol, dev, last, first_new) {
        Err(e) => {
            proof {
                lemma_same_but_twice(d0, mid, dev.drive(pdrv), g);
                if dev.drive(pdrv).dependable || crate::fat::mirrors_kept(g, mid.sectors, dev.drive(pdrv).sectors) {
                    crate::fat::lemma_mirrors_twice(g, d0.sectors, mid.sectors, dev.drive(pdrv).sectors);
                }
            }
            Err(e)
        },
        Ok(_) => {
            proof {
                lemma_same_but_twice(d0, mid, dev.drive(pdrv), g);
                if dev.drive(pdrv).dependable || crate::fat::mirrors_kept(g, mid.sectors, dev.drive(pdrv).sectors) {
                    crate::fat::lemma_mirrors_twice(g, d0.sectors, mid.sectors, dev.drive(pdrv).sectors);
                }
                lemma_hang(
                    t,
                    t0,
                    g.table(mid.sectors),
                    g.table(dev.drive(pdrv).sectors),
                    last as int,
                    first_new as int,
                    additional as nat,
                );
            }
            Ok(first_new)
        },
    }
}

/// Why a request to free the chain that begins at `first` is refused, if
/// it is: the volume is write protected, or no chain begins there.
pub open spec fn free_refusal(vol: Volume, table: Seq<u32>, first: u32) -> Option<FsError> {
    if vol.read_only {
        Some(FsError::WriteProtected)
    } else if chain_upto(vol.geom.fat_type, table, first as int, vol.geom.cluster_count as nat)
        is None {
        Some(FsError::CorruptVolume)
    } else {
        None
    }
}

/// The table `after` is `before` with the `count` clusters of the chain
/// that begins at `first` set free: their entries are 0, no other entry has
/// changed, and `count` more clusters are free.
pub open spec fn released(
    t: FatType,
    before: Seq<u32>,
    after: Seq<u32>,
    first: int,
    count: nat,
) -> bool {
    &&& after.len() == before.len()
    &&& chain_upto(t, before, first, (before.len() - 2) as nat) matches Some(s) && {
        &&& s.len() == count
        &&& forall|n: int|
            0 <= n < before.len() ==> #[trigger] after[n] == if s.contains(n) {
                0u32
            } else {
                before[n]
            }
    }
    &&& free_clusters(after) == free_clusters(before) + count
}

/// The first `k` clusters of `s` are free in `now`, and nothing else has
/// changed since `before`.
spec fn releasing(before: Seq<u32>, now: Seq<u32>, s: Seq<int>, k: int) -> bool {
    &&& now.len() == before.len()
    &&& forall|n: int|
        0 <= n < before.len() ==> #[trigger] now[n] == if s.subrange(0, k).contains(n) {
            0u32
        } else {
            before[n]
        }
    &&& free_clusters(now) == free_clusters(before) + k
}

/// One more cluster of the chain is set free.
proof fn lemma_release(t: FatType, before: Seq<u32>, now: Seq<u32>, s: Seq<int>, k: int)
    requires
        is_chain(t, before, s),
        0 <= k < s.len(),
        releasing(before, now, s, k),
        before.len() <= entry_max(t) - 7,
    ensures
        now[s[k]] == before[s[k]],
        k + 1 < s.len() ==> now[s[k]] == s[k + 1] as u32 && !is_end(t, now[s[k]] as int),
        k + 1 == s.len() ==> is_end(t, now[s[k]] as int),
        releasing(before, now.update(s[k], 0u32), s, k + 1),
{
    lemma_chain_distinct(t, before, s);
    let head = s.subrange(0, k);
    let more = s.subrange(0, k + 1);
    assert(in_table(before, s[k]));
    if head.contains(s[k]) {
        let j = choose|j: int| 0 <= j < head.len() && head[j] == s[k];
        assert(s[j] == s[k]);
    }
    assert(before[s[k]] != 0) by {
        if k + 1 < s.len() {
            assert(in_table(before, s[k + 1]));
        }
    }
    lemma_count_free_update(now, now.len() as int, s[k], 0u32);
    let next = now.update(s[k], 0u32);
    assert forall|n: int| 0 <= n < before.len() implies #[trigger] next[n] == if more.contains(n) {
        0u32
    } else {
        before[n]
    } by {
        assert(more[k] == s[k]);
        if n != s[k] {
            if head.contains(n) {
                let j = choose|j: int| 0 <= j < head.len() && head[j] == n;
                assert(more[j] == n);
            }
            if more.contains(n) {
                let j = choose|j: int| 0 <= j < more.len() && more[j] == n;
                assert(head[j] == n);
            }
        }
    }
}

/// Gives back the chain that begins at `first` and answers how many
/// clusters it had.
///
/// The chain is walked once before anything is written, bounded by the
/// number of clusters of the volume: a chain that leaves the data region,
/// meets a free or bad cluster or runs in a circle is reported as
/// `CorruptVolume`, and the drive is left as it is. Only sectors of the
/// tables change. On a drive that is not dependable a transfer may fail
/// midway: the answer is then the driver's error, and a part of the chain
/// may have been set free.
pub fn free_chain<H: FatfsDiskHandler>(vol: &mut Volume, dev: &mut H, first: u32) -> (res: Result<
    u32,
    FsError,
>)
    requires
        old(dev).inv(),
        old(vol).on(old(dev).drive(old(vol).pdrv)),
    ensures
        final(dev).inv(),
        same_volume(*old(vol), *final(vol)),
        final(vol).cursor == old(vol).cursor,
        final(vol).on(final(dev).drive(old(vol).pdrv)),
        old(dev).drive(old(vol).pdrv).same_but(
            final(dev).drive(old(vol).pdrv),
            |i: int| old(vol).geom.in_tables(i),
        ),
        res is Ok || old(dev).drive(old(vol).pdrv).dependable ==> crate::fat::mirrors_kept(
            old(vol).geom,
            old(dev).drive(old(vol).pdrv).sectors,
            final(dev).drive(old(vol).pdrv).sectors,
        ),
        match res {
            Ok(count) => free_refusal(
                *old(vol),
                old(vol).geom.table(old(dev).drive(old(vol).pdrv).sectors),
                first,
            ) is None && released(
                old(vol).geom.fat_type,
                old(vol).geom.table(old(dev).drive(old(vol).pdrv).sectors),
                old(vol).geom.table(final(dev).drive(old(vol).pdrv).sectors),
                first as int,
                count as nat,
            ),
            Err(e) => (free_refusal(
                *old(vol),
                old(vol).geom.table(old(dev).drive(old(vol).pdrv).sectors),
                first,
            ) == Some(e) && final(dev).drive(old(vol).pdrv) == old(dev).drive(old(vol).pdrv)) || (
            !old(dev).drive(old(vol).pdrv).dependable && e.is_device()),
        },
{
    let g = vol.geom;
    let t = g.fat_type;
    let pdrv = vol.pdrv;
    let ghost d0 = old(dev).drive(pdrv);
    let ghost t0 = g.table(d0.sectors);
    assert(d0.same_but(d0, |i: int| g.in_tables(i)));
    if vol.read_only {
        return Err(FsError::WriteProtected);
    }
    let len = match chain_length(vol, dev, first) {
        Err(e) => {
            return Err(e);
        },
        Ok(n) => n,
    };
    let ghost s = chain_upto(t, t0, first as int, g.cluster_count as nat)->Some_0;
    proof {
        lemma_chain_is_chain(t, t0, first as int, g.cluster_count as nat);
        lemma_chain_found(t, t0, s, (t0.len() - 2) as nat);
        assert(s.subrange(0, 0) =~= Seq::<int>::empty());
    }
    let mut c: u32 = first;
    let mut i: u32 = 0;
    while i < len
        invariant
            i <= len,
            len == s.len(),
            dev.inv(),
            g == old(vol).geom,
            t == g.fat_type,
            pdrv == old(vol).pdrv,
            same_volume(*old(vol), *vol),
            vol.cursor == old(vol).cursor,
            !vol.read_only,
            d0 == old(dev).drive(pdrv),
            t0 == g.table(d0.sectors),
            free_refusal(*old(vol), t0, first) is None,
            is_chain(t, t0, s),
            vol.on(dev.drive(pdrv)),
            d0.same_but(dev.drive(pdrv), |i: int| g.in_tables(i)),
            crate::fat::mirrors_kept(g, d0.sectors, dev.drive(pdrv).sectors),
            releasing(t0, g.table(dev.drive(pdrv).sectors), s, i as int),
            i < len ==> c == s[i as int],
        decreases len - i,
    {
        let ghost now = g.table(dev.drive(pdrv).sectors);
        let ghost before_step = dev.drive(pdrv);
        proof {
            lemma_release(t, t0, now, s, i as int);
            assert(in_table(t0, s[i as int]));
        }
        let next = match get_next(vol, dev, c) {
            Err(e) => {
                return Err(e);
            },
            Ok(v) => v,
        };
        match set_next(vol, dev, c, 0) {
            Err(e) => {
                proof {
                    lemma_same_but_twice(d0, before_step, dev.drive(pdrv), g);
                    if dev.drive(pdrv).dependable || crate::fat::mirrors_kept(g, before_step.sectors, dev.drive(pdrv).sectors) {
                        crate::fat::lemma_mirrors_twice(g, d0.sectors, before_step.sectors, dev.drive(pdrv).sectors);
                    }
                }
                return Err(e);
            },
            Ok(_) => {},
        }
        proof {
            lemma_same_but_twice(d0, before_step, dev.drive(pdrv), g);
            if dev.drive(pdrv).dependable || crate::fat::mirrors_kept(g, before_step.sectors, dev.drive(pdrv).sectors) {
                crate::fat::lemma_mirrors_twice(g, d0.sectors, before_step.sectors, dev.drive(pdrv).sectors);
            }
        }
        c = next;
        i = i + 1;
    }
    proof {
        assert(s.subrange(0, len as int) =~= s);
    }
    Ok(len)
}

/// Allocating a chain and then freeing it gives back the table as it was,
/// and with it the number of free clusters.
pub proof fn lemma_allocate_then_free(
    t: FatType,
    before: Seq<u32>,
    mid: Seq<u32>,
    after: Seq<u32>,
    first: int,
    count: nat,
    freed: nat,
)
    requires
        allocated(t, before, mid, first, count),
        released(t, mid, after, first, freed),
    ensures
        freed == count,
        after == before,
        free_clusters(mid) == free_clusters(before) - count,
        free_clusters(after) == free_clusters(before),
{
    let s = chain_upto(t, mid, first, count)->Some_0;
    let r = chain_upto(t, mid, first, (mid.len() - 2) as nat)->Some_0;
    lemma_chain_is_chain(t, mid, first, count);
    lemma_chain_bound(t, mid, s);
    lemma_chain_found(t, mid, s, (mid.len() - 2) as nat);
    assert(r == s);
    assert forall|n: int| 0 <= n < before.len() implies after[n] == before[n] by {
        if s.contains(n) {
            let j = choose|j: int| 0 <= j < s.len() && s[j] == n;
            assert(before[s[j]] == 0);
        }
    }
    assert(after =~= before);
}

/// After a chain was set free, every copy of the table that is like the
/// first holds 0 for each cluster of the chain.
pub proof fn lemma_freed_in_copies(
    g: Geometry,
    before: Drive,
    after: Drive,
    first: int,
    count: nat,
    copy: int,
    n: int,
)
    requires
        g.wf(),
        after.wf(),
        g.fits(after),
        released(g.fat_type, g.table(before.sectors), g.table(after.sectors), first, count),
        0 <= copy < g.fat_count,
        g.mirrored(after.sectors, copy),
        g.chain(before.sectors, first) matches Some(s) && s.contains(n),
    ensures
        g.entry(after.sectors, copy, n) == 0,
{
    let t = g.fat_type;
    let t0 = g.table(before.sectors);
    let s = g.chain(before.sectors, first)->Some_0;
    assert(t0.len() - 2 == g.cluster_count);
    crate::chain::lemma_chain_is_chain(t, t0, first, g.cluster_count as nat);
    let j = choose|j: int| 0 <= j < s.len() && s[j] == n;
    assert(in_table(t0, s[j]));
    assert(g.table(after.sectors)[n] == 0);
    g.lemma_copy_bounds(copy);
    g.lemma_copy_bounds(0);
    crate::diskio::lemma_flat_len(
        after.sectors,
        g.copy_start(copy),
        g.fat_size as int,
        after.sector_size,
    );
    crate::diskio::lemma_flat_len(after.sectors, g.copy_start(0), g.fat_size as int, after.sector_size);
    crate::fat::lemma_mirrored_entries(g, after.sectors, copy, n);
    crate::fat::lemma_entry_bound(t, g.arena(after.sectors, 0), n);
}

} // verus!
