//! The kernel's mapping interfaces: request numbers, the byte layout of the
//! FIEMAP and GETFSMAP requests on little-endian machines, and the paging of
//! their replies.

use vstd::prelude::*;

use crate::arith;
use crate::error::OsError;

verus! {

pub const IOC_NRSHIFT: u32 = 0;

pub const IOC_TYPESHIFT: u32 = 8;

pub const IOC_SIZESHIFT: u32 = 16;

pub const IOC_DIRSHIFT: u32 = 30;

pub const IOC_WRITE: u32 = 1;

pub const IOC_READ: u32 = 2;

/// The number of an ioctl request, from its direction, type, number and
/// argument size.
pub open spec fn request_number(direction: u32, type_: u8, nr: u8, size: u32) -> u32 {
    (direction << IOC_DIRSHIFT) | ((type_ as u32) << IOC_TYPESHIFT) | ((nr as u32) << IOC_NRSHIFT)
        | (size << IOC_SIZESHIFT)
}

/// The number of a request that reads.
pub fn ior(type_: u8, nr: u8, size: u32) -> (code: u64)
    ensures
        code == request_number(IOC_READ, type_, nr, size),
        size < 0x4000 ==> code == 0x8000_0000 + size * 0x1_0000 + type_ * 0x100 + nr,
{
    let code: u32 = (2u32 << 30) | ((type_ as u32) << 8) | ((nr as u32) << 0) | (size << 16);
    assert(size < 0x4000 ==> (2u32 << 30) | ((type_ as u32) << 8) | ((nr as u32) << 0) | (size
        << 16) == 0x8000_0000 + size * 0x1_0000 + type_ * 0x100 + nr) by (bit_vector);
    code as u64
}

/// The number of a request that reads and writes.
pub fn iowr(type_: u8, nr: u8, size: u32) -> (code: u64)
    ensures
        code == request_number(IOC_READ | IOC_WRITE, type_, nr, size),
        size < 0x4000 ==> code == 0xc000_0000 + size * 0x1_0000 + type_ * 0x100 + nr,
{
    let code: u32 = ((2u32 | 1u32) << 30) | ((type_ as u32) << 8) | ((nr as u32) << 0) | (size
        << 16);
    assert(size < 0x4000 ==> ((2u32 | 1u32) << 30) | ((type_ as u32) << 8) | ((nr as u32) << 0) | (
    size << 16) == 0xc000_0000 + size * 0x1_0000 + type_ * 0x100 + nr) by (bit_vector);
    code as u64
}

pub const FIEMAP_FLAG_SYNC: u32 = 0x0000_0001;

pub const FIEMAP_EXTENT_LAST: u32 = 0x0000_0001;

pub const FIEMAP_EXTENT_UNKNOWN: u32 = 0x0000_0002;

pub const FIEMAP_EXTENT_DELALLOC: u32 = 0x0000_0004;

pub const FIEMAP_EXTENT_ENCODED: u32 = 0x0000_0008;

pub const FIEMAP_EXTENT_DATA_ENCRYPTED: u32 = 0x0000_0080;

pub const FIEMAP_EXTENT_NOT_ALIGNED: u32 = 0x0000_0100;

pub const FIEMAP_EXTENT_DATA_INLINE: u32 = 0x0000_0200;

pub const FIEMAP_EXTENT_DATA_TAIL: u32 = 0x0000_0400;

pub const FIEMAP_EXTENT_UNWRITTEN: u32 = 0x0000_0800;

pub const FS_IMMUTABLE_FL: u32 = 0x0000_0010;

pub const FS_APPEND_FL: u32 = 0x0000_0020;

pub const EXT4_EXTENTS_FL: u32 = 0x0008_0000;

pub const EXT4_INLINE_DATA_FL: u32 = 0x1000_0000;

pub const FMR_OF_SPECIAL_OWNER: u32 = 0x10;

pub const FMR_OF_LAST: u32 = 0x20;

/// The owner code of a record: a type in the upper half, a number in the
/// lower.
pub open spec fn fmr_owner(type_: u8, code: u32) -> int {
    type_ * 0x1_0000_0000 + code
}

/// What a range of the device holds.
#[derive(Clone, Copy, Debug, PartialEq, Eq, Structural)]
pub enum FsMapKind {
    Free,
    Allocated,
    Metadata(MetadataKind),
}

/// What a range of filesystem metadata holds.
#[derive(Clone, Copy, Debug, PartialEq, Eq, Structural)]
pub enum MetadataKind {
    FilesystemHeaders,
    Journal,
    AllocationTables,
    FileMetadata,
    GroupDescriptors,
    BlockBitmaps,
    FileBitmaps,
    Reserved,
    Other,
}

/// A range of the device and what it holds.
#[derive(Clone, Copy, Debug, PartialEq, Eq, Structural)]
pub struct FsMapRange {
    pub physical: u64,
    pub length: u64,
    pub kind: FsMapKind,
}

/// A range of a file and where it lies on the device.
#[derive(Clone, Copy, Debug, PartialEq, Eq, Structural)]
pub struct FileExtent {
    pub logical: u64,
    pub physical: u64,
    pub length: u64,
    pub flags: u32,
}

/// Why a mapping query fails.
#[derive(Debug)]
pub enum IoctlError {
    Io { operation: &'static str, source: OsError },
    InvalidCount(&'static str),
    DidNotAdvance,
}

// ---------------------------------------------------------------------
// Layout
// ---------------------------------------------------------------------

/// The size of one extent record of FIEMAP.
pub const FIEMAP_EXTENT_SIZE: usize = 56;

/// The size of what stands before the extent records.
pub const FIEMAP_HEADER_SIZE: usize = 32;

/// The size of one record of GETFSMAP.
pub const FSMAP_RECORD_SIZE: usize = 64;

/// The size of what stands before the records, the two keys counted in.
pub const FSMAP_HEADER_SIZE: usize = 192;

/// How many records one request has room for.
pub const BATCH: usize = 256;

/// The size of a whole FIEMAP request.
pub const FIEMAP_REQUEST_SIZE: usize = 14_368;

/// The size of a whole GETFSMAP request.
pub const FSMAP_REQUEST_SIZE: usize = 16_576;

/// The number of `width` bytes at `at`.
pub open spec fn field(bytes: Seq<u8>, at: int, width: int) -> nat {
    arith::le_value(bytes.subrange(at, at + width))
}

/// `count` zero bytes.
pub open spec fn zeros(count: nat) -> Seq<u8> {
    Seq::new(count, |i: int| 0u8)
}

fn push_zeros(bytes: &mut Vec<u8>, count: usize)
    ensures
        final(bytes)@ == old(bytes)@ + zeros(count as nat),
{
    let ghost start = bytes@;
    let mut i: usize = 0;
    while i < count
        invariant
            i <= count,
            bytes@ == start + zeros(i as nat),
        decreases count - i,
    {
        bytes.push(0);
        i = i + 1;
        assert(bytes@ =~= start + zeros(i as nat));
    }
}

// ---------------------------------------------------------------------
// FIEMAP
// ---------------------------------------------------------------------

/// A FIEMAP request for everything from `start` on, with an empty reply.
pub open spec fn fiemap_request_bytes(start: u64, sync: bool) -> Seq<u8> {
    arith::le_bytes(start as nat, 8) + arith::le_bytes((u64::MAX - start) as nat, 8)
        + arith::le_bytes(
        if sync {
            1
        } else {
            0
        },
        4,
    ) + arith::le_bytes(0, 4) + arith::le_bytes(256, 4) + arith::le_bytes(0, 4) + zeros(
        (BATCH * FIEMAP_EXTENT_SIZE) as nat,
    )
}

/// The extent record with the given number.
pub open spec fn fiemap_extent(reply: Seq<u8>, index: int) -> FileExtent {
    let at = FIEMAP_HEADER_SIZE + index * FIEMAP_EXTENT_SIZE;
    FileExtent {
        logical: field(reply, at, 8) as u64,
        physical: field(reply, at + 8, 8) as u64,
        length: field(reply, at + 16, 8) as u64,
        flags: field(reply, at + 40, 4) as u32,
    }
}

/// The first `count` extent records.
pub open spec fn fiemap_extents(reply: Seq<u8>, count: nat) -> Seq<FileExtent> {
    Seq::new(count, |i: int| fiemap_extent(reply, i))
}

/// Whether a query needs another request.
#[derive(Clone, Copy, Debug, PartialEq, Eq, Structural)]
pub enum Paging {
    Continue,
    Done,
}

/// The state of a file mapping query: where the next request starts, and
/// what came so far.
pub struct FiemapQuery {
    pub start: u64,
    pub sync: bool,
    pub extents: Vec<FileExtent>,
}

/// What a reply does to a file mapping query: the next start, what is added
/// and how it goes on.
pub open spec fn fiemap_step(start: u64, reply: Seq<u8>) -> (
    u64,
    Seq<FileExtent>,
    Result<Paging, crate::error::IoctlErrorView>,
) {
    let count = field(reply, 20, 4);
    if count > BATCH {
        (start, Seq::empty(), Err(crate::error::IoctlErrorView::InvalidCount("FIEMAP"@)))
    } else if count == 0 {
        (start, Seq::empty(), Ok(Paging::Done))
    } else {
        let added = fiemap_extents(reply, count);
        let last = added.last();
        let next = arith::sat64(last.logical + last.length);
        if last.flags & FIEMAP_EXTENT_LAST != 0 {
            (start, added, Ok(Paging::Done))
        } else if next <= start {
            (start, added, Err(crate::error::IoctlErrorView::DidNotAdvance))
        } else {
            (next as u64, added, Ok(Paging::Continue))
        }
    }
}

fn decode_fiemap_extent(reply: &[u8], index: usize) -> (extent: FileExtent)
    requires
        reply@.len() == FIEMAP_REQUEST_SIZE,
        index < BATCH,
    ensures
        extent == fiemap_extent(reply@, index as int),
{
    let at: usize = FIEMAP_HEADER_SIZE + index * FIEMAP_EXTENT_SIZE;
    FileExtent {
        logical: arith::read_u64(reply, at),
        physical: arith::read_u64(reply, at + 8),
        length: arith::read_u64(reply, at + 16),
        flags: arith::read_u32(reply, at + 40),
    }
}

impl FiemapQuery {
    /// A query for the whole file; `sync` asks the kernel to write it back
    /// first.
    pub fn new(sync: bool) -> (query: FiemapQuery)
        ensures
            query.start == 0,
            query.sync == sync,
            query.extents@ == Seq::<FileExtent>::empty(),
    {
        FiemapQuery { start: 0, sync, extents: Vec::new() }
    }

    /// The next request to hand to the kernel.
    pub fn request(&self) -> (bytes: Vec<u8>)
        ensures
            bytes@ == fiemap_request_bytes(self.start, self.sync),
            bytes@.len() == FIEMAP_REQUEST_SIZE,
    {
        let mut bytes: Vec<u8> = Vec::new();
        arith::push_le(&mut bytes, self.start, 8);
        arith::push_le(&mut bytes, u64::MAX - self.start, 8);
        let flags: u64 = if self.sync {
            1
        } else {
            0
        };
        arith::push_le(&mut bytes, flags, 4);
        arith::push_le(&mut bytes, 0, 4);
        arith::push_le(&mut bytes, 256, 4);
        arith::push_le(&mut bytes, 0, 4);
        push_zeros(&mut bytes, BATCH * FIEMAP_EXTENT_SIZE);
        proof {
            arith::lemma_le_bytes_len(self.start as nat, 8);
            arith::lemma_le_bytes_len((u64::MAX - self.start) as nat, 8);
            arith::lemma_le_bytes_len(flags as nat, 4);
            arith::lemma_le_bytes_len(0, 4);
            arith::lemma_le_bytes_len(256, 4);
            assert(bytes@ =~= fiemap_request_bytes(self.start, self.sync));
        }
        bytes
    }

    /// Takes the kernel's reply to the request.
    pub fn accept(&mut self, reply: &[u8]) -> (paging: Result<Paging, IoctlError>)
        requires
            reply@.len() == FIEMAP_REQUEST_SIZE,
        ensures
            ({
                let (next, added, outcome) = fiemap_step(old(self).start, reply@);
                &&& final(self).start == next
                &&& final(self).sync == old(self).sync
                &&& final(self).extents@ == old(self).extents@ + added
                &&& match paging {
                    Ok(p) => outcome == Ok::<Paging, crate::error::IoctlErrorView>(p),
                    Err(e) => outcome == Err::<Paging, crate::error::IoctlErrorView>(e@),
                }
            }),
            paging == Ok::<Paging, IoctlError>(Paging::Continue) ==> final(self).start > old(
                self,
            ).start,
    {
        let ghost before = self.extents@;
        let count: u32 = arith::read_u32(reply, 20);
        if count > BATCH as u32 {
            assert(before + Seq::<FileExtent>::empty() =~= before);
            return Err(IoctlError::InvalidCount("FIEMAP"));
        }
        if count == 0 {
            assert(before + Seq::<FileExtent>::empty() =~= before);
            return Ok(Paging::Done);
        }
        let ghost added = fiemap_extents(reply@, count as nat);
        let ghost start = self.start;
        let ghost sync = self.sync;
        let mut i: usize = 0;
        while i < count as usize
            invariant
                i <= count <= BATCH,
                reply@.len() == FIEMAP_REQUEST_SIZE,
                added == fiemap_extents(reply@, count as nat),
                self.extents@ == before + added.take(i as int),
                self.start == start,
                self.sync == sync,
            decreases count - i,
        {
            let extent: FileExtent = decode_fiemap_extent(reply, i);
            self.extents.push(extent);
            i = i + 1;
            assert(added.take(i as int) =~= added.take(i - 1).push(added[i - 1]));
            assert(self.extents@ =~= before + added.take(i as int));
        }
        assert(added.take(i as int) =~= added);
        let last: FileExtent = decode_fiemap_extent(reply, count as usize - 1);
        assert(last == added.last());
        if last.flags & FIEMAP_EXTENT_LAST != 0 {
            return Ok(Paging::Done);
        }
        let next: u64 = last.logical.saturating_add(last.length);
        if next <= self.start {
            return Err(IoctlError::DidNotAdvance);
        }
        self.start = next;
        Ok(Paging::Continue)
    }
}

// ---------------------------------------------------------------------
// GETFSMAP
// ---------------------------------------------------------------------

/// One record of the kernel's allocation map.
#[derive(Clone, Copy, Debug, PartialEq, Eq, Structural)]
pub struct FsMap {
    pub device: u32,
    pub flags: u32,
    pub physical: u64,
    pub owner: u64,
    pub offset: u64,
    pub length: u64,
}

pub open spec fn fsmap_record_bytes(record: FsMap) -> Seq<u8> {
    arith::le_bytes(record.device as nat, 4) + arith::le_bytes(record.flags as nat, 4)
        + arith::le_bytes(record.physical as nat, 8) + arith::le_bytes(record.owner as nat, 8)
        + arith::le_bytes(record.offset as nat, 8) + arith::le_bytes(record.length as nat, 8)
        + zeros(24)
}

/// The key beyond every record.
pub open spec fn highest_key() -> FsMap {
    FsMap {
        device: u32::MAX,
        flags: u32::MAX,
        physical: u64::MAX,
        owner: u64::MAX,
        offset: u64::MAX,
        length: u64::MAX,
    }
}

/// A GETFSMAP request for everything behind `low`, with an empty reply.
pub open spec fn fsmap_request_bytes(low: FsMap) -> Seq<u8> {
    arith::le_bytes(0, 4) + arith::le_bytes(0, 4) + arith::le_bytes(256, 4) + arith::le_bytes(0, 4)
        + zeros(48) + fsmap_record_bytes(low) + fsmap_record_bytes(highest_key()) + zeros(
        (BATCH * FSMAP_RECORD_SIZE) as nat,
    )
}

/// The record with the given number.
pub open spec fn fsmap_record(reply: Seq<u8>, index: int) -> FsMap {
    let at = FSMAP_HEADER_SIZE + index * FSMAP_RECORD_SIZE;
    FsMap {
        device: field(reply, at, 4) as u32,
        flags: field(reply, at + 4, 4) as u32,
        physical: field(reply, at + 8, 8) as u64,
        owner: field(reply, at + 16, 8) as u64,
        offset: field(reply, at + 24, 8) as u64,
        length: field(reply, at + 32, 8) as u64,
    }
}

/// What the range of a record holds.
pub open spec fn record_kind(record: FsMap) -> FsMapKind {
    let owner = record.owner as int;
    if record.flags & FMR_OF_SPECIAL_OWNER == 0 {
        FsMapKind::Allocated
    } else if owner == fmr_owner(0, 1) {
        FsMapKind::Free
    } else if owner == fmr_owner(0, 2) {
        FsMapKind::Allocated
    } else if owner == fmr_owner(88, 1) {
        FsMapKind::Metadata(MetadataKind::FilesystemHeaders)
    } else if owner == fmr_owner(88, 2) {
        FsMapKind::Metadata(MetadataKind::Journal)
    } else if owner == fmr_owner(88, 5) {
        FsMapKind::Metadata(MetadataKind::FileMetadata)
    } else if owner == fmr_owner(102, 1) || owner == fmr_owner(102, 2) {
        FsMapKind::Metadata(MetadataKind::GroupDescriptors)
    } else if owner == fmr_owner(102, 3) {
        FsMapKind::Metadata(MetadataKind::BlockBitmaps)
    } else if owner == fmr_owner(102, 4) {
        FsMapKind::Metadata(MetadataKind::FileBitmaps)
    } else if owner == fmr_owner(0, 3) {
        FsMapKind::Metadata(MetadataKind::Other)
    } else {
        FsMapKind::Metadata(MetadataKind::Reserved)
    }
}

pub const FMR_OWN_FREE: u64 = 0x0000_0000_0000_0001;

pub const FMR_OWN_UNKNOWN: u64 = 0x0000_0000_0000_0002;

pub const FMR_OWN_METADATA: u64 = 0x0000_0000_0000_0003;

pub const EXT4_FMR_OWN_FS: u64 = 0x0000_0058_0000_0001;

pub const EXT4_FMR_OWN_LOG: u64 = 0x0000_0058_0000_0002;

pub const EXT4_FMR_OWN_INODES: u64 = 0x0000_0058_0000_0005;

pub const EXT4_FMR_OWN_GDT: u64 = 0x0000_0066_0000_0001;

pub const EXT4_FMR_OWN_RESV_GDT: u64 = 0x0000_0066_0000_0002;

pub const EXT4_FMR_OWN_BLKBM: u64 = 0x0000_0066_0000_0003;

pub const EXT4_FMR_OWN_INOBM: u64 = 0x0000_0066_0000_0004;

/// Tells what the range of a record holds.
pub fn classify_record(record: &FsMap) -> (kind: FsMapKind)
    ensures
        kind == record_kind(*record),
{
    let owner: u64 = record.owner;
    if record.flags & FMR_OF_SPECIAL_OWNER == 0 {
        FsMapKind::Allocated
    } else if owner == FMR_OWN_FREE {
        FsMapKind::Free
    } else if owner == FMR_OWN_UNKNOWN {
        FsMapKind::Allocated
    } else if owner == EXT4_FMR_OWN_FS {
        FsMapKind::Metadata(MetadataKind::FilesystemHeaders)
    } else if owner == EXT4_FMR_OWN_LOG {
        FsMapKind::Metadata(MetadataKind::Journal)
    } else if owner == EXT4_FMR_OWN_INODES {
        FsMapKind::Metadata(MetadataKind::FileMetadata)
    } else if owner == EXT4_FMR_OWN_GDT || owner == EXT4_FMR_OWN_RESV_GDT {
        FsMapKind::Metadata(MetadataKind::GroupDescriptors)
    } else if owner == EXT4_FMR_OWN_BLKBM {
        FsMapKind::Metadata(MetadataKind::BlockBitmaps)
    } else if owner == EXT4_FMR_OWN_INOBM {
        FsMapKind::Metadata(MetadataKind::FileBitmaps)
    } else if owner == FMR_OWN_METADATA {
        FsMapKind::Metadata(MetadataKind::Other)
    } else {
        FsMapKind::Metadata(MetadataKind::Reserved)
    }
}

/// The ranges of the first `count` records.
pub open spec fn fsmap_ranges(reply: Seq<u8>, count: nat) -> Seq<FsMapRange> {
    Seq::new(
        count,
        |i: int|
            {
                let record = fsmap_record(reply, i);
                FsMapRange {
                    physical: record.physical,
                    length: record.length,
                    kind: record_kind(record),
                }
            },
    )
}

/// The state of an allocation map query: the key of the next request, and
/// what came so far.
pub struct FsMapQuery {
    pub low: FsMap,
    pub ranges: Vec<FsMapRange>,
}

/// What a reply does to an allocation map query. The last record becomes the
/// next key as it stands; the filesystem goes on behind it by itself.
pub open spec fn fsmap_step(low: FsMap, reply: Seq<u8>) -> (
    FsMap,
    Seq<FsMapRange>,
    Result<Paging, crate::error::IoctlErrorView>,
) {
    let count = field(reply, 12, 4);
    if count > BATCH {
        (low, Seq::empty(), Err(crate::error::IoctlErrorView::InvalidCount("FSMAP"@)))
    } else if count == 0 {
        (low, Seq::empty(), Ok(Paging::Done))
    } else {
        let added = fsmap_ranges(reply, count);
        let last = fsmap_record(reply, count - 1);
        let next = arith::sat64(last.physical + last.length);
        if last.flags & FMR_OF_LAST != 0 {
            (low, added, Ok(Paging::Done))
        } else if next <= arith::sat64(low.physical + low.length) {
            (low, added, Err(crate::error::IoctlErrorView::DidNotAdvance))
        } else {
            (last, added, Ok(Paging::Continue))
        }
    }
}

fn push_record(bytes: &mut Vec<u8>, record: &FsMap)
    ensures
        final(bytes)@ == old(bytes)@ + fsmap_record_bytes(*record),
        fsmap_record_bytes(*record).len() == FSMAP_RECORD_SIZE,
{
    let ghost start = bytes@;
    arith::push_le(bytes, record.device as u64, 4);
    arith::push_le(bytes, record.flags as u64, 4);
    arith::push_le(bytes, record.physical, 8);
    arith::push_le(bytes, record.owner, 8);
    arith::push_le(bytes, record.offset, 8);
    arith::push_le(bytes, record.length, 8);
    push_zeros(bytes, 24);
    proof {
        arith::lemma_le_bytes_len(record.device as nat, 4);
        arith::lemma_le_bytes_len(record.flags as nat, 4);
        arith::lemma_le_bytes_len(record.physical as nat, 8);
        arith::lemma_le_bytes_len(record.owner as nat, 8);
        arith::lemma_le_bytes_len(record.offset as nat, 8);
        arith::lemma_le_bytes_len(record.length as nat, 8);
        assert(bytes@ =~= start + fsmap_record_bytes(*record));
    }
}

fn decode_record(reply: &[u8], index: usize) -> (record: FsMap)
    requires
        reply@.len() == FSMAP_REQUEST_SIZE,
        index < BATCH,
    ensures
        record == fsmap_record(reply@, index as int),
{
    let at: usize = FSMAP_HEADER_SIZE + index * FSMAP_RECORD_SIZE;
    FsMap {
        device: arith::read_u32(reply, at),
        flags: arith::read_u32(reply, at + 4),
        physical: arith::read_u64(reply, at + 8),
        owner: arith::read_u64(reply, at + 16),
        offset: arith::read_u64(reply, at + 24),
        length: arith::read_u64(reply, at + 32),
    }
}

impl FsMapQuery {
    /// A query for the whole filesystem.
    pub fn new() -> (query: FsMapQuery)
        ensures
            query.low == (FsMap {
                device: 0,
                flags: 0,
                physical: 0,
                owner: 0,
                offset: 0,
                length: 0,
            }),
            query.ranges@ == Seq::<FsMapRange>::empty(),
    {
        FsMapQuery {
            low: FsMap { device: 0, flags: 0, physical: 0, owner: 0, offset: 0, length: 0 },
            ranges: Vec::new(),
        }
    }

    /// The next request to hand to the kernel.
    pub fn request(&self) -> (bytes: Vec<u8>)
        ensures
            bytes@ == fsmap_request_bytes(self.low),
            bytes@.len() == FSMAP_REQUEST_SIZE,
    {
        let mut bytes: Vec<u8> = Vec::new();
        arith::push_le(&mut bytes, 0, 4);
        arith::push_le(&mut bytes, 0, 4);
        arith::push_le(&mut bytes, 256, 4);
        arith::push_le(&mut bytes, 0, 4);
        push_zeros(&mut bytes, 48);
        proof {
            arith::lemma_le_bytes_len(0, 4);
            arith::lemma_le_bytes_len(256, 4);
        }
        assert(bytes@.len() == 64);
        push_record(&mut bytes, &self.low);
        let high: FsMap = FsMap {
            device: u32::MAX,
            flags: u32::MAX,
            physical: u64::MAX,
            owner: u64::MAX,
            offset: u64::MAX,
            length: u64::MAX,
        };
        push_record(&mut bytes, &high);
        assert(bytes@.len() == FSMAP_HEADER_SIZE);
        push_zeros(&mut bytes, BATCH * FSMAP_RECORD_SIZE);
        assert(bytes@ =~= fsmap_request_bytes(self.low));
        bytes
    }

    /// Takes the kernel's reply to the request.
    pub fn accept(&mut self, reply: &[u8]) -> (paging: Result<Paging, IoctlError>)
        requires
            reply@.len() == FSMAP_REQUEST_SIZE,
        ensures
            ({
                let (next, added, outcome) = fsmap_step(old(self).low, reply@);
                &&& final(self).low == next
                &&& final(self).ranges@ == old(self).ranges@ + added
                &&& match paging {
                    Ok(p) => outcome == Ok::<Paging, crate::error::IoctlErrorView>(p),
                    Err(e) => outcome == Err::<Paging, crate::error::IoctlErrorView>(e@),
                }
            }),
            paging == Ok::<Paging, IoctlError>(Paging::Continue) ==> arith::sat64(
                final(self).low.physical + final(self).low.length,
            ) > arith::sat64(old(self).low.physical + old(self).low.length),
    {
        let ghost before = self.ranges@;
        let count: u32 = arith::read_u32(reply, 12);
        if count > BATCH as u32 {
            assert(before + Seq::<FsMapRange>::empty() =~= before);
            return Err(IoctlError::InvalidCount("FSMAP"));
        }
        if count == 0 {
            assert(before + Seq::<FsMapRange>::empty() =~= before);
            return Ok(Paging::Done);
        }
        let ghost added = fsmap_ranges(reply@, count as nat);
        let ghost low = self.low;
        let mut i: usize = 0;
        while i < count as usize
            invariant
                i <= count <= BATCH,
                reply@.len() == FSMAP_REQUEST_SIZE,
                added == fsmap_ranges(reply@, count as nat),
                self.ranges@ == before + added.take(i as int),
                self.low == low,
            decreases count - i,
        {
            let record: FsMap = decode_record(reply, i);
            let kind: FsMapKind = classify_record(&record);
            self.ranges.push(
                FsMapRange { physical: record.physical, length: record.length, kind },
            );
            i = i + 1;
            assert(added.take(i as int) =~= added.take(i - 1).push(added[i - 1]));
            assert(self.ranges@ =~= before + added.take(i as int));
        }
        assert(added.take(i as int) =~= added);
        let last: FsMap = decode_record(reply, count as usize - 1);
        if last.flags & FMR_OF_LAST != 0 {
            return Ok(Paging::Done);
        }
        let next: u64 = last.physical.saturating_add(last.length);
        let previous_end: u64 = self.low.physical.saturating_add(self.low.length);
        if next <= previous_end {
            return Err(IoctlError::DidNotAdvance);
        }
        self.low = last;
        Ok(Paging::Continue)
    }
}

// ---------------------------------------------------------------------
// Moving extents
// ---------------------------------------------------------------------

/// The size of a request to exchange extents.
pub const MOVE_EXTENT_SIZE: usize = 40;

/// The bytes of a request to exchange blocks of a file with the same blocks of
/// a donor.
pub open spec fn move_request_bytes(donor: u32, start: u64, count: u64) -> Seq<u8> {
    arith::le_bytes(0, 4) + arith::le_bytes(donor as nat, 4) + arith::le_bytes(start as nat, 8)
        + arith::le_bytes(start as nat, 8) + arith::le_bytes(count as nat, 8) + arith::le_bytes(
        0,
        8,
    )
}

/// The request to exchange blocks of a file with the same blocks of a donor,
/// which is named by its descriptor.
pub fn move_request(donor: u32, start: u64, count: u64) -> (bytes: Vec<u8>)
    ensures
        bytes@ == move_request_bytes(donor, start, count),
        bytes@.len() == MOVE_EXTENT_SIZE,
{
    let mut bytes: Vec<u8> = Vec::new();
    arith::push_le(&mut bytes, 0, 4);
    arith::push_le(&mut bytes, donor as u64, 4);
    arith::push_le(&mut bytes, start, 8);
    arith::push_le(&mut bytes, start, 8);
    arith::push_le(&mut bytes, count, 8);
    arith::push_le(&mut bytes, 0, 8);
    proof {
        arith::lemma_le_bytes_len(0, 4);
        arith::lemma_le_bytes_len(0, 8);
        arith::lemma_le_bytes_len(donor as nat, 4);
        arith::lemma_le_bytes_len(start as nat, 8);
        arith::lemma_le_bytes_len(count as nat, 8);
        assert(bytes@ =~= move_request_bytes(donor, start, count));
    }
    bytes
}

/// The number of blocks that the kernel exchanged, from its reply.
pub fn moved_blocks(reply: &[u8]) -> (count: u64)
    requires
        reply@.len() == MOVE_EXTENT_SIZE,
    ensures
        count == arith::le_value(reply@.subrange(32, 40)),
{
    arith::read_u64(reply, 32)
}

} // verus!
