//! What holds of every request to the kernel and of what is read from its
//! replies.

use vstd::prelude::*;

use crate::arith;
use crate::error::IoctlErrorView;
use crate::linux;
use crate::linux::{FsMap, FsMapKind, MetadataKind, Paging};

verus! {

proof fn lemma_widths()
    ensures
        vstd::arithmetic::power::pow(256, 4) == 0x1_0000_0000,
        vstd::arithmetic::power::pow(256, 8) == 0x1_0000_0000_0000_0000,
{
    reveal_with_fuel(vstd::arithmetic::power::pow, 9);
    assert(256 * (256 * (256 * (256 * 1int))) == 0x1_0000_0000) by (nonlinear_arith);
    assert(256 * (256 * (256 * (256 * 0x1_0000_0000int))) == 0x1_0000_0000_0000_0000)
        by (nonlinear_arith);
}

/// A number that stands in a request is read where it stands.
proof fn lemma_field(request: Seq<u8>, at: int, value: nat, width: nat)
    requires
        0 <= at,
        at + width <= request.len(),
        request.subrange(at, at + width) == arith::le_bytes(value, width),
        width == 4 && value <= u32::MAX || width == 8 && value <= u64::MAX,
    ensures
        linux::field(request, at, width as int) == value,
{
    lemma_widths();
    arith::lemma_le_round_trip(value, width);
    assert(value % (vstd::arithmetic::power::pow(256, width) as nat) == value) by {
        vstd::arithmetic::div_mod::lemma_small_mod(
            value,
            vstd::arithmetic::power::pow(256, width) as nat,
        );
    }
}

/// A request for the extents of a file asks for everything from a place in
/// the file to its end, says whether the file is to be written back first,
/// and has room for as many extents as it says.
pub proof fn lemma_extents_are_asked_for(start: u64, sync: bool)
    ensures
        ({
            let request = linux::fiemap_request_bytes(start, sync);
            &&& request.len() == 32 + 256 * 56
            &&& linux::field(request, 0, 8) == start
            &&& linux::field(request, 8, 8) == u64::MAX - start
            &&& linux::field(request, 16, 4) == (if sync {
                1int
            } else {
                0
            })
            &&& linux::field(request, 20, 4) == 0
            &&& linux::field(request, 24, 4) == 256
        }),
{
    let request = linux::fiemap_request_bytes(start, sync);
    let flag: nat = if sync {
        1
    } else {
        0
    };
    let rest = (u64::MAX - start) as nat;
    arith::lemma_le_bytes_len(start as nat, 8);
    arith::lemma_le_bytes_len(rest, 8);
    arith::lemma_le_bytes_len(flag, 4);
    arith::lemma_le_bytes_len(0, 4);
    arith::lemma_le_bytes_len(256, 4);
    assert(request.subrange(0, 8) =~= arith::le_bytes(start as nat, 8));
    assert(request.subrange(8, 16) =~= arith::le_bytes(rest, 8));
    assert(request.subrange(16, 20) =~= arith::le_bytes(flag, 4));
    assert(request.subrange(20, 24) =~= arith::le_bytes(0, 4));
    assert(request.subrange(24, 28) =~= arith::le_bytes(256, 4));
    lemma_field(request, 0, start as nat, 8);
    lemma_field(request, 8, rest, 8);
    lemma_field(request, 16, flag, 4);
    lemma_field(request, 20, 0, 4);
    lemma_field(request, 24, 256, 4);
}

/// Every extent of a reply is taken, as it stands there. A query ends with an
/// empty reply or with the extent that is marked as the last; otherwise it
/// goes on where the last extent ends, and fails where that is no further on
/// or where a reply says that it has more than it has room for.
pub proof fn lemma_extents_are_read(start: u64, reply: Seq<u8>, i: int)
    ensures
        ({
            let (next, added, outcome) = linux::fiemap_step(start, reply);
            let count = linux::field(reply, 20, 4);
            let at = 32 + i * 56;
            let end = added.last().logical + added.last().length;
            &&& count > 256 <==> outcome == Err::<Paging, IoctlErrorView>(
                IoctlErrorView::InvalidCount("FIEMAP"@),
            )
            &&& count > 256 ==> added.len() == 0 && next == start
            &&& count <= 256 ==> added.len() == count
            &&& 0 <= i < added.len() ==> {
                &&& added[i].logical == linux::field(reply, at, 8) as u64
                &&& added[i].physical == linux::field(reply, at + 8, 8) as u64
                &&& added[i].length == linux::field(reply, at + 16, 8) as u64
                &&& added[i].flags == linux::field(reply, at + 40, 4) as u32
            }
            &&& count == 0 ==> outcome == Ok::<Paging, IoctlErrorView>(Paging::Done)
            &&& 0 < count <= 256 && added.last().flags & 1u32 != 0 ==> outcome == Ok::<
                Paging,
                IoctlErrorView,
            >(Paging::Done)
            &&& 0 < count <= 256 && added.last().flags & 1u32 == 0 && end <= u64::MAX ==> {
                &&& end > start ==> outcome == Ok::<Paging, IoctlErrorView>(Paging::Continue)
                    && next == end
                &&& end <= start ==> outcome == Err::<Paging, IoctlErrorView>(
                    IoctlErrorView::DidNotAdvance,
                )
            }
        }),
{
}

/// Whether the fields of a record stand in a request.
pub open spec fn holds_record(request: Seq<u8>, at: int, record: FsMap) -> bool {
    &&& linux::field(request, at, 4) == record.device
    &&& linux::field(request, at + 4, 4) == record.flags
    &&& linux::field(request, at + 8, 8) == record.physical
    &&& linux::field(request, at + 16, 8) == record.owner
    &&& linux::field(request, at + 24, 8) == record.offset
    &&& linux::field(request, at + 32, 8) == record.length
}

proof fn lemma_record(request: Seq<u8>, at: int, record: FsMap)
    requires
        0 <= at,
        at + 64 <= request.len(),
        request.subrange(at, at + 64) == linux::fsmap_record_bytes(record),
    ensures
        holds_record(request, at, record),
{
    let bytes = linux::fsmap_record_bytes(record);
    arith::lemma_le_bytes_len(record.device as nat, 4);
    arith::lemma_le_bytes_len(record.flags as nat, 4);
    arith::lemma_le_bytes_len(record.physical as nat, 8);
    arith::lemma_le_bytes_len(record.owner as nat, 8);
    arith::lemma_le_bytes_len(record.offset as nat, 8);
    arith::lemma_le_bytes_len(record.length as nat, 8);
    assert(bytes.len() == 64);
    assert(request.subrange(at, at + 4) =~= bytes.subrange(0, 4));
    assert(bytes.subrange(0, 4) =~= arith::le_bytes(record.device as nat, 4));
    assert(request.subrange(at + 4, at + 8) =~= bytes.subrange(4, 8));
    assert(bytes.subrange(4, 8) =~= arith::le_bytes(record.flags as nat, 4));
    assert(request.subrange(at + 8, at + 16) =~= bytes.subrange(8, 16));
    assert(bytes.subrange(8, 16) =~= arith::le_bytes(record.physical as nat, 8));
    assert(request.subrange(at + 16, at + 24) =~= bytes.subrange(16, 24));
    assert(bytes.subrange(16, 24) =~= arith::le_bytes(record.owner as nat, 8));
    assert(request.subrange(at + 24, at + 32) =~= bytes.subrange(24, 32));
    assert(bytes.subrange(24, 32) =~= arith::le_bytes(record.offset as nat, 8));
    assert(request.subrange(at + 32, at + 40) =~= bytes.subrange(32, 40));
    assert(bytes.subrange(32, 40) =~= arith::le_bytes(record.length as nat, 8));
    lemma_field(request, at, record.device as nat, 4);
    lemma_field(request, at + 4, record.flags as nat, 4);
    lemma_field(request, at + 8, record.physical as nat, 8);
    lemma_field(request, at + 16, record.owner as nat, 8);
    lemma_field(request, at + 24, record.offset as nat, 8);
    lemma_field(request, at + 32, record.length as nat, 8);
}

/// A request for the allocation map asks for everything behind a record, up
/// to the highest that there can be, and has room for as many records as it
/// says.
pub proof fn lemma_map_is_asked_for(low: FsMap)
    ensures
        ({
            let request = linux::fsmap_request_bytes(low);
            &&& request.len() == 192 + 256 * 64
            &&& linux::field(request, 8, 4) == 256
            &&& holds_record(request, 64, low)
            &&& holds_record(
                request,
                128,
                FsMap {
                    device: u32::MAX,
                    flags: u32::MAX,
                    physical: u64::MAX,
                    owner: u64::MAX,
                    offset: u64::MAX,
                    length: u64::MAX,
                },
            )
        }),
{
    let request = linux::fsmap_request_bytes(low);
    let high = linux::highest_key();
    arith::lemma_le_bytes_len(0, 4);
    arith::lemma_le_bytes_len(256, 4);
    lemma_record_len(low);
    lemma_record_len(high);
    assert(request.subrange(8, 12) =~= arith::le_bytes(256, 4));
    lemma_field(request, 8, 256, 4);
    assert(request.subrange(64, 128) =~= linux::fsmap_record_bytes(low));
    assert(request.subrange(128, 192) =~= linux::fsmap_record_bytes(high));
    lemma_record(request, 64, low);
    lemma_record(request, 128, high);
}

proof fn lemma_record_len(record: FsMap)
    ensures
        linux::fsmap_record_bytes(record).len() == 64,
{
    arith::lemma_le_bytes_len(record.device as nat, 4);
    arith::lemma_le_bytes_len(record.flags as nat, 4);
    arith::lemma_le_bytes_len(record.physical as nat, 8);
    arith::lemma_le_bytes_len(record.owner as nat, 8);
    arith::lemma_le_bytes_len(record.offset as nat, 8);
    arith::lemma_le_bytes_len(record.length as nat, 8);
}

/// Every record of a reply is taken, as a range that lies where the record
/// says. A query ends with an empty reply or with the record that is marked
/// as the last; otherwise the last record is the key of the next request, and
/// the query fails where it reaches no further than the key before.
pub proof fn lemma_map_is_read(low: FsMap, reply: Seq<u8>, i: int)
    ensures
        ({
            let (next, added, outcome) = linux::fsmap_step(low, reply);
            let count = linux::field(reply, 12, 4);
            let at = 192 + i * 64;
            let last = linux::fsmap_record(reply, count - 1);
            let end = last.physical + last.length;
            &&& count > 256 <==> outcome == Err::<Paging, IoctlErrorView>(
                IoctlErrorView::InvalidCount("FSMAP"@),
            )
            &&& count <= 256 ==> added.len() == count
            &&& 0 <= i < added.len() ==> {
                &&& added[i].physical == linux::field(reply, at + 8, 8) as u64
                &&& added[i].length == linux::field(reply, at + 32, 8) as u64
                &&& added[i].kind == linux::record_kind(linux::fsmap_record(reply, i))
                &&& linux::fsmap_record(reply, i).flags == linux::field(reply, at + 4, 4) as u32
                &&& linux::fsmap_record(reply, i).owner == linux::field(reply, at + 16, 8) as u64
            }
            &&& count == 0 ==> outcome == Ok::<Paging, IoctlErrorView>(Paging::Done)
            &&& 0 < count <= 256 && last.flags & 0x20u32 != 0 ==> outcome == Ok::<
                Paging,
                IoctlErrorView,
            >(Paging::Done)
            &&& 0 < count <= 256 && last.flags & 0x20u32 == 0 && end <= u64::MAX && low.physical
                + low.length <= u64::MAX ==> {
                &&& end > low.physical + low.length ==> outcome == Ok::<Paging, IoctlErrorView>(
                    Paging::Continue,
                ) && next == last
                &&& end <= low.physical + low.length ==> outcome == Err::<Paging, IoctlErrorView>(
                    IoctlErrorView::DidNotAdvance,
                )
            }
        }),
{
}

/// A record without a special owner is file data. One with a special owner is
/// free space or the metadata that its owner says; an owner that is not known
/// is reserved.
pub proof fn lemma_owners_are_told_apart(record: FsMap)
    ensures
        record.flags & 0x10u32 == 0 ==> linux::record_kind(record) == FsMapKind::Allocated,
        record.flags & 0x10u32 != 0 ==> ({
            let kind = linux::record_kind(record);
            let owner = record.owner;
            &&& owner == 1 <==> kind == FsMapKind::Free
            &&& owner == 2 <==> kind == FsMapKind::Allocated
            &&& owner == 3 <==> kind == FsMapKind::Metadata(MetadataKind::Other)
            &&& owner == 0x58_0000_0001 <==> kind == FsMapKind::Metadata(
                MetadataKind::FilesystemHeaders,
            )
            &&& owner == 0x58_0000_0002 <==> kind == FsMapKind::Metadata(MetadataKind::Journal)
            &&& owner == 0x58_0000_0005 <==> kind == FsMapKind::Metadata(
                MetadataKind::FileMetadata,
            )
            &&& owner == 0x66_0000_0001 || owner == 0x66_0000_0002 <==> kind == FsMapKind::Metadata(
                MetadataKind::GroupDescriptors,
            )
            &&& owner == 0x66_0000_0003 <==> kind == FsMapKind::Metadata(
                MetadataKind::BlockBitmaps,
            )
            &&& owner == 0x66_0000_0004 <==> kind == FsMapKind::Metadata(MetadataKind::FileBitmaps)
            &&& kind != FsMapKind::Metadata(MetadataKind::AllocationTables)
        }),
{
}

/// A request to exchange blocks names the donor, the same first block in both
/// files, and how many blocks.
pub proof fn lemma_exchanges_are_asked_for(donor: u32, start: u64, count: u64)
    ensures
        ({
            let request = linux::move_request_bytes(donor, start, count);
            &&& request.len() == 40
            &&& linux::field(request, 4, 4) == donor
            &&& linux::field(request, 8, 8) == start
            &&& linux::field(request, 16, 8) == start
            &&& linux::field(request, 24, 8) == count
            &&& linux::field(request, 32, 8) == 0
        }),
{
    let request = linux::move_request_bytes(donor, start, count);
    arith::lemma_le_bytes_len(0, 4);
    arith::lemma_le_bytes_len(0, 8);
    arith::lemma_le_bytes_len(donor as nat, 4);
    arith::lemma_le_bytes_len(start as nat, 8);
    arith::lemma_le_bytes_len(count as nat, 8);
    assert(request.subrange(4, 8) =~= arith::le_bytes(donor as nat, 4));
    assert(request.subrange(8, 16) =~= arith::le_bytes(start as nat, 8));
    assert(request.subrange(16, 24) =~= arith::le_bytes(start as nat, 8));
    assert(request.subrange(24, 32) =~= arith::le_bytes(count as nat, 8));
    assert(request.subrange(32, 40) =~= arith::le_bytes(0, 8));
    lemma_field(request, 4, donor as nat, 4);
    lemma_field(request, 8, start as nat, 8);
    lemma_field(request, 16, start as nat, 8);
    lemma_field(request, 24, count as nat, 8);
    lemma_field(request, 32, 0, 8);
}

} // verus!
