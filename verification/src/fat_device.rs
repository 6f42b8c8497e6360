//! The bytes behind a writer's steps: directory entries, free-space
//! summaries, and copies that are read back before anything points at them.

use vstd::prelude::*;

use crate::arith;
use crate::error::{self, ErrorView, IoKind, ServiceError};
use crate::fat_table::ClassicKind;
use crate::path;
use crate::text;

verus! {

/// The length of a short directory entry.
pub const ENTRY_LEN: usize = 32;

/// The low half of a cluster number.
pub open spec fn low_half(cluster: u32) -> nat {
    (cluster % 0x1_0000) as nat
}

/// The high half of a cluster number.
pub open spec fn high_half(cluster: u32) -> nat {
    (cluster / 0x1_0000) as nat
}

/// A short directory entry with another first cluster.
pub open spec fn entry_with_first(entry: Seq<u8>, kind: ClassicKind, cluster: u32) -> Seq<u8> {
    let low = arith::le_bytes(low_half(cluster), 2);
    let high = arith::le_bytes(high_half(cluster), 2);
    if kind == ClassicKind::Fat32 {
        arith::splice(arith::splice(entry, 20, high), 26, low)
    } else {
        arith::splice(entry, 26, low)
    }
}

/// The first cluster that a short directory entry names.
pub open spec fn first_of_entry(entry: Seq<u8>, kind: ClassicKind) -> nat {
    let low = arith::le_value(entry.subrange(26, 28));
    if kind == ClassicKind::Fat32 {
        arith::le_value(entry.subrange(20, 22)) * 0x1_0000 + low
    } else {
        low
    }
}

/// Whether an entry of a kind can name a cluster.
pub open spec fn entry_can_name(kind: ClassicKind, cluster: u32) -> bool {
    kind == ClassicKind::Fat32 || cluster < 0x1_0000
}

/// Sets the first cluster of a short directory entry.
pub fn set_first_cluster(entry: &mut Vec<u8>, kind: ClassicKind, cluster: u32)
    requires
        old(entry)@.len() == ENTRY_LEN,
    ensures
        final(entry)@ == entry_with_first(old(entry)@, kind, cluster),
{
    if kind == ClassicKind::Fat32 {
        arith::write_le(entry, 20, (cluster / 0x1_0000) as u64, 2);
    }
    arith::write_le(entry, 26, (cluster % 0x1_0000) as u64, 2);
}

/// What is written as the first cluster of a directory entry is what the
/// entry names afterwards; no other byte of the entry changes.
pub proof fn lemma_entry_names_first(entry: Seq<u8>, kind: ClassicKind, cluster: u32)
    requires
        entry.len() == ENTRY_LEN,
        entry_can_name(kind, cluster),
    ensures
        entry_with_first(entry, kind, cluster).len() == ENTRY_LEN,
        first_of_entry(entry_with_first(entry, kind, cluster), kind) == cluster,
        forall|i: int|
            0 <= i < ENTRY_LEN && !(26 <= i < 28) && !(kind == ClassicKind::Fat32 && 20 <= i < 22)
                ==> #[trigger] entry_with_first(entry, kind, cluster)[i] == entry[i],
{
    let low = arith::le_bytes(low_half(cluster), 2);
    let high = arith::le_bytes(high_half(cluster), 2);
    let patched = entry_with_first(entry, kind, cluster);
    arith::lemma_le_bytes_len(low_half(cluster), 2);
    arith::lemma_le_bytes_len(high_half(cluster), 2);
    arith::lemma_le_round_trip(low_half(cluster), 2);
    arith::lemma_le_round_trip(high_half(cluster), 2);
    assert(vstd::arithmetic::power::pow(256, 2) == 65536) by {
        reveal_with_fuel(vstd::arithmetic::power::pow, 3);
    }
    vstd::arithmetic::div_mod::lemma_small_mod(low_half(cluster), 65536);
    vstd::arithmetic::div_mod::lemma_small_mod(high_half(cluster), 65536);
    assert(patched.subrange(26, 28) =~= low);
    if kind == ClassicKind::Fat32 {
        assert(patched.subrange(20, 22) =~= high);
    }
}

/// Whether a sector holds a free-space summary.
pub open spec fn is_info_sector(sector: Seq<u8>) -> bool {
    &&& sector.len() >= 488
    &&& arith::le_value(sector.subrange(0, 4)) == 0x4161_5252
    &&& arith::le_value(sector.subrange(484, 488)) == 0x6141_7272
}

/// A free-space summary with other numbers.
pub open spec fn info_with(sector: Seq<u8>, free_count: u32, next_free: u32) -> Seq<u8> {
    arith::splice(
        arith::splice(sector, 488, arith::le_bytes(free_count as nat, 4)),
        492,
        arith::le_bytes(next_free as nat, 4),
    )
}

/// Refreshes the free-space summary in a sector, and says whether the sector
/// holds one: a sector without the signatures of a summary is left as it is,
/// and is not written back.
pub fn set_info(sector: &mut Vec<u8>, free_count: u32, next_free: u32) -> (refreshed: bool)
    requires
        old(sector)@.len() < 488 || old(sector)@.len() >= 496,
    ensures
        refreshed == is_info_sector(old(sector)@),
        final(sector)@ == if refreshed {
            info_with(old(sector)@, free_count, next_free)
        } else {
            old(sector)@
        },
{
    if sector.len() < 488 {
        return false;
    }
    if arith::read_u32(sector.as_slice(), 0) != 0x4161_5252 || arith::read_u32(
        sector.as_slice(),
        484,
    ) != 0x6141_7272 {
        return false;
    }
    arith::write_le(sector, 488, free_count as u64, 4);
    arith::write_le(sector, 492, next_free as u64, 4);
    true
}

/// A refreshed summary holds the numbers that were written, and no other
/// byte of its sector changes.
pub proof fn lemma_info_holds_numbers(sector: Seq<u8>, free_count: u32, next_free: u32)
    requires
        sector.len() >= 496,
    ensures
        info_with(sector, free_count, next_free).len() == sector.len(),
        arith::le_value(info_with(sector, free_count, next_free).subrange(488, 492)) == free_count,
        arith::le_value(info_with(sector, free_count, next_free).subrange(492, 496)) == next_free,
        forall|i: int|
            0 <= i < sector.len() && !(488 <= i < 496) ==> #[trigger] info_with(
                sector,
                free_count,
                next_free,
            )[i] == sector[i],
{
    let patched = info_with(sector, free_count, next_free);
    let first = arith::le_bytes(free_count as nat, 4);
    let second = arith::le_bytes(next_free as nat, 4);
    arith::lemma_le_bytes_len(free_count as nat, 4);
    arith::lemma_le_bytes_len(next_free as nat, 4);
    arith::lemma_le_round_trip(free_count as nat, 4);
    arith::lemma_le_round_trip(next_free as nat, 4);
    assert(vstd::arithmetic::power::pow(256, 4) == 0x1_0000_0000) by {
        reveal_with_fuel(vstd::arithmetic::power::pow, 5);
    }
    vstd::arithmetic::div_mod::lemma_small_mod(free_count as nat, 0x1_0000_0000);
    vstd::arithmetic::div_mod::lemma_small_mod(next_free as nat, 0x1_0000_0000);
    assert(patched.subrange(488, 492) =~= first);
    assert(patched.subrange(492, 496) =~= second);
}

// ---------------------------------------------------------------------
// Whole reads and writes out of partial ones
// ---------------------------------------------------------------------

/// Which way bytes go between a buffer and the device.
#[derive(Clone, Copy, Debug, PartialEq, Eq, Structural)]
pub enum Direction {
    Read,
    Write,
}

/// What a transfer reports that moves nothing though bytes are left.
pub open spec fn short_transfer(direction: Direction) -> ErrorView {
    match direction {
        Direction::Read => error::io_failure(IoKind::UnexpectedEof, "short device read"@),
        Direction::Write => error::io_failure(IoKind::WriteZero, "short device write"@),
    }
}

/// A transfer between a buffer and the device that may come in parts.
pub struct Transfer {
    pub direction: Direction,
    pub offset: u64,
    pub done: usize,
    pub length: usize,
}

impl Transfer {
    /// A transfer of a whole buffer from or to a place of the device.
    pub fn new(direction: Direction, offset: u64, length: usize) -> (transfer: Transfer)
        ensures
            transfer == (Transfer { direction, offset, done: 0, length }),
    {
        Transfer { direction, offset, done: 0, length }
    }

    /// Takes note of `count` more bytes. A part that moved nothing while
    /// bytes are left ends the transfer.
    pub fn moved(&mut self, count: usize) -> (result: Result<(), ServiceError>)
        requires
            old(self).done < old(self).length,
            count <= old(self).length - old(self).done,
        ensures
            final(self).direction == old(self).direction,
            final(self).length == old(self).length,
            final(self).done == old(self).done + count,
            final(self).offset == arith::sat64(old(self).offset + count),
            (result is Ok) == (count > 0),
            result matches Err(e) ==> e@ == short_transfer(old(self).direction),
    {
        if count == 0 {
            return Err(
                match self.direction {
                    Direction::Read => error::io_error(IoKind::UnexpectedEof, "short device read"),
                    Direction::Write => error::io_error(IoKind::WriteZero, "short device write"),
                },
            );
        }
        self.offset = self.offset.saturating_add(count as u64);
        self.done = self.done + count;
        Ok(())
    }
}

// ---------------------------------------------------------------------
// Verified copies
// ---------------------------------------------------------------------

/// The most bytes that are copied before they are read back.
pub const COPY_CHUNK: u64 = 0x10_0000;

/// A copy of a cluster in parts, each read back before the next.
#[derive(Clone, Copy, Debug, PartialEq, Eq, Structural)]
pub struct ClusterCopy {
    pub source: u64,
    pub destination: u64,
    pub remaining: u64,
}

pub open spec fn verification_error(offset: u64) -> ErrorView {
    ErrorView::UnsafeFilesystem(
        "data verification failed at byte offset "@ + text::decimal(offset as nat),
    )
}

impl ClusterCopy {
    /// How many bytes the next part has.
    pub open spec fn part(self) -> int {
        arith::min_int(COPY_CHUNK as int, self.remaining as int)
    }

    /// The copy when its next part is done.
    pub open spec fn after_part(self) -> ClusterCopy {
        ClusterCopy {
            source: arith::sat64(self.source + self.part()) as u64,
            destination: arith::sat64(self.destination + self.part()) as u64,
            remaining: (self.remaining - self.part()) as u64,
        }
    }

    /// How many bytes are copied next; none where the copy is complete.
    pub fn next_length(&self) -> (length: u64)
        ensures
            length == self.part(),
            (length == 0) == (self.remaining == 0),
    {
        if self.remaining < COPY_CHUNK {
            self.remaining
        } else {
            COPY_CHUNK
        }
    }

    /// Compares a part with what was read back of it. The copy goes on only
    /// where the two are the same.
    pub fn confirm(&mut self, written: &Vec<u8>, read_back: &Vec<u8>) -> (result: Result<
        (),
        ServiceError,
    >)
        requires
            old(self).remaining > 0,
        ensures
            (result is Ok) == (written@ == read_back@),
            result is Ok ==> *final(self) == old(self).after_part(),
            result matches Err(e) ==> *final(self) == *old(self) && e@ == verification_error(
                old(self).destination,
            ),
    {
        if !path::same_bytes(written.as_slice(), read_back.as_slice()) {
            let mut message: String = "data verification failed at byte offset ".to_owned();
            text::push_decimal(&mut message, self.destination);
            return Err(error::unsafe_fs(message));
        }
        let length: u64 = self.next_length();
        self.source = self.source.saturating_add(length);
        self.destination = self.destination.saturating_add(length);
        self.remaining = self.remaining - length;
        Ok(())
    }
}

} // verus!
