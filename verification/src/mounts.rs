//! Which volumes there are: mounts, block devices, and how they make up the
//! list of volumes.

use vstd::prelude::*;
use vstd::utf8::*;

use crate::arith;
use crate::backend;
use crate::backend::Backend;
use crate::domain::{MountState, SupportStatus, SupportView, Volume, VolumeId, VolumeView};
use crate::error::{ErrorView, OsError, OsErrorView, ServiceError};
use crate::path;
use crate::path::FsPath;
use crate::sort;
use crate::sort::TextKey;
use crate::text;
use crate::views;

verus! {

// ---------------------------------------------------------------------
// Escapes
// ---------------------------------------------------------------------

/// The byte that begins an escape.
pub const BACKSLASH: u8 = 92;

/// The byte of a plus sign.
pub const PLUS: u8 = 43;

pub open spec fn is_octal(b: u8) -> bool {
    48 <= b <= 55
}

/// The byte that three octal digits write; a plus sign may stand in place of
/// the first.
pub open spec fn octal_value(a: u8, b: u8, c: u8) -> Option<u8> {
    if !is_octal(b) || !is_octal(c) {
        None
    } else if a == PLUS {
        Some(((b - 48) * 8 + (c - 48)) as u8)
    } else if is_octal(a) && a <= 51 {
        Some(((a - 48) * 64 + (b - 48) * 8 + (c - 48)) as u8)
    } else {
        None
    }
}

/// A field of the mount table without its escapes. Each byte stands for the
/// character of its number.
pub open spec fn unescaped(bytes: Seq<u8>) -> Seq<char>
    decreases bytes.len(),
{
    if bytes.len() == 0 {
        Seq::empty()
    } else if bytes[0] == BACKSLASH && bytes.len() > 3 && octal_value(
        bytes[1],
        bytes[2],
        bytes[3],
    ) is Some {
        seq![octal_value(bytes[1], bytes[2], bytes[3])->Some_0 as char] + unescaped(bytes.skip(4))
    } else {
        seq![bytes[0] as char] + unescaped(bytes.skip(1))
    }
}

fn octal(a: u8, b: u8, c: u8) -> (value: Option<u8>)
    ensures
        value == octal_value(a, b, c),
{
    if b < 48 || b > 55 || c < 48 || c > 55 {
        return None;
    }
    let low: u8 = (b - 48) * 8 + (c - 48);
    if a == PLUS {
        Some(low)
    } else if a >= 48 && a <= 51 {
        Some((a - 48) * 64 + low)
    } else {
        None
    }
}

/// Removes the escapes from a field of the mount table.
pub fn unescape(value: &str) -> (result: String)
    ensures
        result@ == unescaped(encode_utf8(value@)),
{
    let bytes: &[u8] = value.as_bytes();
    let ghost all = bytes@;
    let mut result: String = String::new();
    let mut at: usize = 0;
    assert(all.skip(0) =~= all);
    assert(result@ + unescaped(all.skip(0)) =~= unescaped(all));
    while at < bytes.len()
        invariant
            at <= bytes@.len(),
            all == bytes@,
            result@ + unescaped(all.skip(at as int)) == unescaped(all),
        decreases bytes@.len() - at,
    {
        let len: usize = bytes.len();
        let ghost rest = all.skip(at as int);
        let ghost before = result@;
        if bytes[at] == BACKSLASH && len - at > 3 {
            if let Some(decoded) = octal(bytes[at + 1], bytes[at + 2], bytes[at + 3]) {
                proof {
                    assert(rest.skip(4) =~= all.skip(at + 4));
                    assert(before.push(decoded as char) + unescaped(rest.skip(4)) =~= before + (
                    seq![decoded as char] + unescaped(rest.skip(4))));
                }
                text::push_char(&mut result, decoded as char);
                at = at + 4;
                continue;
            }
        }
        proof {
            assert(rest.skip(1) =~= all.skip(at + 1));
            assert(before.push(rest[0] as char) + unescaped(rest.skip(1)) =~= before + (
            seq![rest[0] as char] + unescaped(rest.skip(1))));
        }
        text::push_char(&mut result, bytes[at] as char);
        at = at + 1;
    }
    assert(all.skip(at as int) =~= Seq::empty());
    assert(result@ + unescaped(all.skip(at as int)) =~= result@);
    result
}

// ---------------------------------------------------------------------
// Mounts
// ---------------------------------------------------------------------

/// A line of the mount table.
#[derive(Debug)]
pub struct MountInfo {
    pub mount_id: u64,
    pub parent_mount_id: u64,
    pub major: u32,
    pub minor: u32,
    pub root: FsPath,
    pub mount_point: FsPath,
    pub options: Vec<String>,
    pub filesystem: String,
    pub source: String,
}

/// The contents of a [`MountInfo`].
#[verifier::ext_equal]
pub struct MountInfoView {
    pub mount_id: u64,
    pub parent_mount_id: u64,
    pub major: u32,
    pub minor: u32,
    pub root: Seq<u8>,
    pub mount_point: Seq<u8>,
    pub options: Seq<Seq<char>>,
    pub filesystem: Seq<char>,
    pub source: Seq<char>,
}

impl View for MountInfo {
    type V = MountInfoView;

    open spec fn view(&self) -> MountInfoView {
        MountInfoView {
            mount_id: self.mount_id,
            parent_mount_id: self.parent_mount_id,
            major: self.major,
            minor: self.minor,
            root: self.root@,
            mount_point: self.mount_point@,
            options: views::of(self.options@),
            filesystem: self.filesystem@,
            source: self.source@,
        }
    }
}

/// The numbers of a device, written with a colon between them.
pub open spec fn device_numbers(value: Seq<char>) -> Option<(u32, u32)> {
    match text::cut_at(value, ':') {
        None => None,
        Some((major, minor)) => match (
            text::parse_number(major, u32::MAX as nat),
            text::parse_number(minor, u32::MAX as nat),
        ) {
            (Some(major), Some(minor)) => Some((major as u32, minor as u32)),
            _ => None,
        },
    }
}

/// Reads the numbers of a device.
pub fn parse_device_number(value: &str) -> (numbers: Option<(u32, u32)>)
    ensures
        numbers == device_numbers(value@),
{
    let (major, minor) = match text::split_once(value, ':') {
        None => {
            return None;
        },
        Some(parts) => parts,
    };
    match (text::parse_u32(major.as_str()), text::parse_u32(minor.as_str())) {
        (Some(major), Some(minor)) => Some((major, minor)),
        _ => None,
    }
}

/// The text of an escaped field as a path.
pub open spec fn field_path(word: Seq<char>) -> Seq<u8> {
    encode_utf8(unescaped(encode_utf8(word)))
}

/// What a line of the mount table says, where it has the form of one.
pub open spec fn mount_line(line: Seq<char>) -> Option<MountInfoView> {
    match text::cut_at_part(line, " - "@) {
        None => None,
        Some((left, right)) => {
            let l = text::words(left);
            let r = text::words(right);
            if l.len() < 6 || r.len() < 2 {
                None
            } else {
                match (
                    text::parse_number(l[0], u64::MAX as nat),
                    text::parse_number(l[1], u64::MAX as nat),
                    device_numbers(l[2]),
                ) {
                    (Some(id), Some(parent), Some((major, minor))) => Some(
                        MountInfoView {
                            mount_id: id as u64,
                            parent_mount_id: parent as u64,
                            major,
                            minor,
                            root: field_path(l[3]),
                            mount_point: field_path(l[4]),
                            options: text::pieces(l[5], ','),
                            filesystem: r[0],
                            source: unescaped(encode_utf8(r[1])),
                        },
                    ),
                    _ => None,
                }
            }
        },
    }
}

/// Reads a line of the mount table.
pub fn parse_line(line: &str) -> (info: Option<MountInfo>)
    ensures
        views::opt(info) == mount_line(line@),
{
    let (left, right) = match text::split_once_text(line, " - ") {
        None => {
            return None;
        },
        Some(parts) => parts,
    };
    let l: Vec<String> = text::split_words(left.as_str());
    let r: Vec<String> = text::split_words(right.as_str());
    assert(views::of(l@).len() == l@.len());
    assert(views::of(r@).len() == r@.len());
    if l.len() < 6 || r.len() < 2 {
        return None;
    }
    proof {
        assert(forall|i: int| 0 <= i < l@.len() ==> views::of(l@)[i] == #[trigger] l@[i]@);
        assert(forall|i: int| 0 <= i < r@.len() ==> views::of(r@)[i] == #[trigger] r@[i]@);
    }
    let id: Option<u64> = text::parse_u64(l[0].as_str());
    let parent: Option<u64> = text::parse_u64(l[1].as_str());
    let device: Option<(u32, u32)> = parse_device_number(l[2].as_str());
    match (id, parent, device) {
        (Some(mount_id), Some(parent_mount_id), Some((major, minor))) => Some(
            MountInfo {
                mount_id,
                parent_mount_id,
                major,
                minor,
                root: FsPath::from_text(unescape(l[3].as_str()).as_str()),
                mount_point: FsPath::from_text(unescape(l[4].as_str()).as_str()),
                options: text::split_char(l[5].as_str(), ','),
                filesystem: r[0].clone(),
                source: unescape(r[1].as_str()),
            },
        ),
        _ => None,
    }
}

/// Whether a filesystem lies on no device of its own.
pub open spec fn is_virtual(filesystem: Seq<char>) -> bool {
    ||| filesystem == "proc"@
    ||| filesystem == "sysfs"@
    ||| filesystem == "tmpfs"@
    ||| filesystem == "devtmpfs"@
    ||| filesystem == "devpts"@
    ||| filesystem == "cgroup"@
    ||| filesystem == "cgroup2"@
    ||| filesystem == "overlay"@
    ||| filesystem == "squashfs"@
    ||| filesystem == "tracefs"@
    ||| filesystem == "debugfs"@
    ||| filesystem == "securityfs"@
    ||| filesystem == "pstore"@
    ||| filesystem == "efivarfs"@
    ||| filesystem == "mqueue"@
    ||| filesystem == "hugetlbfs"@
    ||| filesystem == "fusectl"@
    ||| filesystem == "configfs"@
    ||| filesystem == "autofs"@
}

/// Whether a mount is one of a volume.
pub open spec fn is_of_volume(info: MountInfoView) -> bool {
    !is_virtual(info.filesystem) && (text::begins_with(info.source, "/dev/"@) || info.filesystem
        == "ext4"@)
}

fn on_no_device(name: &str) -> (yes: bool)
    ensures
        yes == is_virtual(name@),
{
    text::same_text(name, "proc") || text::same_text(name, "sysfs") || text::same_text(
        name,
        "tmpfs",
    ) || text::same_text(name, "devtmpfs") || text::same_text(name, "devpts") || text::same_text(
        name,
        "cgroup",
    ) || text::same_text(name, "cgroup2") || text::same_text(name, "overlay") || text::same_text(
        name,
        "squashfs",
    ) || text::same_text(name, "tracefs") || text::same_text(name, "debugfs") || text::same_text(
        name,
        "securityfs",
    ) || text::same_text(name, "pstore") || text::same_text(name, "efivarfs") || text::same_text(
        name,
        "mqueue",
    ) || text::same_text(name, "hugetlbfs") || text::same_text(name, "fusectl") || text::same_text(
        name,
        "configfs",
    ) || text::same_text(name, "autofs")
}

/// Tells whether a mount is one of a volume.
pub fn is_interesting(info: &MountInfo) -> (yes: bool)
    ensures
        yes == is_of_volume(info@),
{
    if on_no_device(info.filesystem.as_str()) {
        return false;
    }
    text::starts_with(info.source.as_str(), "/dev/") || text::same_text(
        info.filesystem.as_str(),
        "ext4",
    )
}

/// The mounts of volumes among lines of the mount table, in order.
pub open spec fn mounts_in(lines: Seq<Seq<char>>) -> Seq<MountInfoView>
    decreases lines.len(),
{
    if lines.len() == 0 {
        Seq::empty()
    } else {
        let before = mounts_in(lines.drop_last());
        match mount_line(lines.last()) {
            Some(info) => if is_of_volume(info) {
                before.push(info)
            } else {
                before
            },
            None => before,
        }
    }
}

/// Reads the mounts of volumes from the mount table.
pub fn read_mounts(contents: &str) -> (mounts: Vec<MountInfo>)
    ensures
        views::of(mounts@) == mounts_in(text::lines(contents@)),
{
    let lines: Vec<String> = text::split_lines(contents);
    let ghost all = text::lines(contents@);
    let mut mounts: Vec<MountInfo> = Vec::new();
    let mut i: usize = 0;
    assert(views::of(mounts@) =~= Seq::empty());
    while i < lines.len()
        invariant
            i <= lines@.len(),
            views::of(lines@) == all,
            views::of(mounts@) == mounts_in(all.take(i as int)),
        decreases lines@.len() - i,
    {
        assert(all.take(i + 1).drop_last() =~= all.take(i as int));
        assert(all.take(i + 1).last() == lines@[i as int]@) by {
            assert(views::of(lines@)[i as int] == lines@[i as int]@);
        }
        if let Some(info) = parse_line(lines[i].as_str()) {
            if is_interesting(&info) {
                let ghost before = views::of(mounts@);
                let ghost added = info@;
                mounts.push(info);
                assert(views::of(mounts@) =~= before.push(added));
            }
        }
        i = i + 1;
    }
    assert(all.take(i as int) =~= all);
    mounts
}

// ---------------------------------------------------------------------
// Devices
// ---------------------------------------------------------------------

/// What is known of a block device that holds a filesystem.
#[derive(Debug)]
pub struct DeviceInfo {
    pub source: String,
    pub filesystem: String,
    pub capacity: u64,
    pub label: Option<String>,
    pub uuid: Option<String>,
}

/// The contents of a [`DeviceInfo`].
#[verifier::ext_equal]
pub struct DeviceView {
    pub source: Seq<char>,
    pub filesystem: Seq<char>,
    pub capacity: u64,
    pub label: Option<Seq<char>>,
    pub uuid: Option<Seq<char>>,
}

impl View for DeviceInfo {
    type V = DeviceView;

    open spec fn view(&self) -> DeviceView {
        DeviceView {
            source: self.source@,
            filesystem: self.filesystem@,
            capacity: self.capacity,
            label: views::opt(self.label),
            uuid: views::opt(self.uuid),
        }
    }
}

impl Clone for DeviceInfo {
    fn clone(&self) -> (copy: Self)
        ensures
            copy@ == self@,
    {
        DeviceInfo {
            source: self.source.clone(),
            filesystem: self.filesystem.clone(),
            capacity: self.capacity,
            label: views::clone_option(&self.label),
            uuid: views::clone_option(&self.uuid),
        }
    }
}

/// The identity of the volume on a device.
pub open spec fn volume_id_of(major: u32, minor: u32) -> VolumeId {
    VolumeId((major * 0x1_0000_0000 + minor) as u64)
}

/// Identifies the volume on a device.
pub fn device_volume_id(major: u32, minor: u32) -> (id: VolumeId)
    ensures
        id == volume_id_of(major, minor),
{
    VolumeId(major as u64 * 0x1_0000_0000 + minor as u64)
}

/// Volumes on different devices have different identities, and identities
/// stand in the order of the device numbers.
pub proof fn lemma_volume_ids_are_device_based(a: u32, b: u32, c: u32, d: u32)
    ensures
        volume_id_of(a, b) == volume_id_of(c, d) ==> a == c && b == d,
        volume_id_of(a, b).0 < volume_id_of(c, d).0 <==> a < c || (a == c && b < d),
        volume_id_of(a, b).0 == (a as u64) << 32u64 | b as u64,
{
    assert(((a as u64) << 32u64 | b as u64) == a * 0x1_0000_0000 + b) by (bit_vector);
}

/// The properties that a line of a udev record gives.
pub open spec fn udev_property(line: Seq<char>) -> Option<(Seq<char>, Seq<char>)> {
    if text::begins_with(line, "E:"@) {
        text::cut_at(line.skip("E:"@.len() as int), '=')
    } else {
        None
    }
}

/// The value of a property in a udev record; the last one counts.
pub open spec fn property(lines: Seq<Seq<char>>, key: Seq<char>) -> Option<Seq<char>>
    decreases lines.len(),
{
    if lines.len() == 0 {
        None
    } else {
        match udev_property(lines.last()) {
            Some((k, value)) => if k == key {
                Some(value)
            } else {
                property(lines.drop_last(), key)
            },
            None => property(lines.drop_last(), key),
        }
    }
}

/// Finds a property in a udev record.
pub fn find_property(contents: &str, key: &str) -> (value: Option<String>)
    ensures
        views::opt(value) == property(text::lines(contents@), key@),
{
    let lines: Vec<String> = text::split_lines(contents);
    let ghost all = text::lines(contents@);
    let mut found: Option<String> = None;
    let mut i: usize = 0;
    while i < lines.len()
        invariant
            i <= lines@.len(),
            views::of(lines@) == all,
            views::opt(found) == property(all.take(i as int), key@),
        decreases lines@.len() - i,
    {
        assert(all.take(i + 1).drop_last() =~= all.take(i as int));
        assert(all.take(i + 1).last() == lines@[i as int]@) by {
            assert(views::of(lines@)[i as int] == lines@[i as int]@);
        }
        if let Some(rest) = text::strip_prefix(lines[i].as_str(), "E:") {
            if let Some((k, value)) = text::split_once(rest.as_str(), '=') {
                if text::same_text(k.as_str(), key) {
                    found = Some(value);
                }
            }
        }
        i = i + 1;
    }
    assert(all.take(i as int) =~= all);
    found
}

/// The bytes of a device whose size is given in sectors.
pub open spec fn device_capacity(size: Option<Seq<char>>) -> u64 {
    match size {
        None => 0,
        Some(size) => match text::parse_number(text::trimmed(size), u64::MAX as nat) {
            Some(sectors) => arith::sat64((sectors * 512) as int) as u64,
            None => 0,
        },
    }
}

/// What is known of a block device by its name, its udev record and its
/// size. Only devices that hold a filesystem of a known type count.
pub open spec fn device_of(
    name: Seq<char>,
    record: Option<Seq<char>>,
    size: Option<Seq<char>>,
) -> Option<DeviceView> {
    match record {
        None => None,
        Some(record) => {
            let lines = text::lines(record);
            match (property(lines, "ID_FS_USAGE"@), property(lines, "ID_FS_TYPE"@)) {
                (Some(usage), Some(filesystem)) => if usage == "filesystem"@ {
                    Some(
                        DeviceView {
                            source: "/dev/"@ + name,
                            filesystem,
                            capacity: device_capacity(size),
                            label: property(lines, "ID_FS_LABEL"@),
                            uuid: property(lines, "ID_FS_UUID"@),
                        },
                    )
                } else {
                    None
                },
                _ => None,
            }
        },
    }
}

fn capacity_of(size: &Option<String>) -> (capacity: u64)
    ensures
        capacity == device_capacity(views::opt(*size)),
{
    match size {
        None => 0,
        Some(size) => {
            let trimmed: String = text::trim(size.as_str());
            match text::parse_u64(trimmed.as_str()) {
                Some(sectors) => arith::saturating_mul(sectors, 512),
                None => 0,
            }
        },
    }
}

/// Gathers what is known of a block device.
pub fn read_device(name: &str, record: &Option<String>, size: &Option<String>) -> (info: Option<
    DeviceInfo,
>)
    ensures
        views::opt(info) == device_of(name@, views::opt(*record), views::opt(*size)),
{
    let record: &String = match record {
        None => {
            return None;
        },
        Some(record) => record,
    };
    let usage: String = match find_property(record.as_str(), "ID_FS_USAGE") {
        None => {
            return None;
        },
        Some(usage) => usage,
    };
    if !text::same_text(usage.as_str(), "filesystem") {
        return None;
    }
    let filesystem: String = match find_property(record.as_str(), "ID_FS_TYPE") {
        None => {
            return None;
        },
        Some(filesystem) => filesystem,
    };
    let mut source: String = "/dev/".to_owned();
    text::push_text(&mut source, name);
    Some(
        DeviceInfo {
            source,
            filesystem,
            capacity: capacity_of(size),
            label: find_property(record.as_str(), "ID_FS_LABEL"),
            uuid: find_property(record.as_str(), "ID_FS_UUID"),
        },
    )
}

// ---------------------------------------------------------------------
// The list of devices
// ---------------------------------------------------------------------

/// A block device and what is known of it.
#[derive(Debug)]
pub struct Device {
    pub major: u32,
    pub minor: u32,
    pub info: DeviceInfo,
}

/// The contents of a [`Device`].
#[verifier::ext_equal]
pub struct EntryView {
    pub major: u32,
    pub minor: u32,
    pub info: DeviceView,
}

impl View for Device {
    type V = EntryView;

    open spec fn view(&self) -> EntryView {
        EntryView { major: self.major, minor: self.minor, info: self.info@ }
    }
}

impl Clone for Device {
    fn clone(&self) -> (copy: Self)
        ensures
            copy@ == self@,
    {
        Device { major: self.major, minor: self.minor, info: self.info.clone() }
    }
}

/// The number by which devices are ordered.
pub open spec fn entry_key(entry: EntryView) -> u64 {
    volume_id_of(entry.major, entry.minor).0
}

/// A list of devices in order, with one more. Of a device that is listed
/// already, the new entry or the old one stays.
pub open spec fn with_device(list: Seq<EntryView>, entry: EntryView, replace: bool) -> Seq<EntryView>
    decreases list.len(),
{
    if list.len() == 0 {
        seq![entry]
    } else if entry_key(list[0]) < entry_key(entry) {
        seq![list[0]] + with_device(list.skip(1), entry, replace)
    } else if entry_key(list[0]) == entry_key(entry) {
        if replace {
            seq![entry] + list.skip(1)
        } else {
            list
        }
    } else {
        seq![entry] + list
    }
}

/// The devices that were found, in order; of two entries for one device the
/// later counts.
pub open spec fn listed(found: Seq<EntryView>) -> Seq<EntryView>
    decreases found.len(),
{
    if found.len() == 0 {
        Seq::empty()
    } else {
        with_device(listed(found.drop_last()), found.last(), true)
    }
}

/// What a mount says of its device.
pub open spec fn mount_device(info: MountInfoView) -> EntryView {
    EntryView {
        major: info.major,
        minor: info.minor,
        info: DeviceView {
            source: info.source,
            filesystem: info.filesystem,
            capacity: 0,
            label: None,
            uuid: None,
        },
    }
}

/// A list of devices with those of mounts that it lacks.
pub open spec fn with_mounts(list: Seq<EntryView>, mounts: Seq<MountInfoView>) -> Seq<EntryView>
    decreases mounts.len(),
{
    if mounts.len() == 0 {
        list
    } else {
        with_device(with_mounts(list, mounts.drop_last()), mount_device(mounts.last()), false)
    }
}

/// Whether devices stand in order, each once.
pub open spec fn devices_ordered(list: Seq<EntryView>) -> bool {
    forall|i: int, j: int|
        0 <= i < j < list.len() ==> entry_key(#[trigger] list[i]) < entry_key(#[trigger] list[j])
}

proof fn lemma_device_place(list: Seq<EntryView>, entry: EntryView, replace: bool, at: int)
    requires
        0 <= at <= list.len(),
        forall|k: int| 0 <= k < at ==> entry_key(#[trigger] list[k]) < entry_key(entry),
        at < list.len() ==> entry_key(list[at]) >= entry_key(entry),
    ensures
        with_device(list, entry, replace) == (if at < list.len() && entry_key(list[at])
            == entry_key(entry) {
            if replace {
                list.update(at, entry)
            } else {
                list
            }
        } else {
            list.insert(at, entry)
        }),
    decreases at,
{
    if at == 0 {
        if list.len() == 0 {
            assert(list.insert(0, entry) =~= seq![entry]);
        } else if entry_key(list[0]) == entry_key(entry) {
            assert(list.update(0, entry) =~= seq![entry] + list.skip(1));
        } else {
            assert(list.insert(0, entry) =~= seq![entry] + list);
        }
    } else {
        let rest = list.skip(1);
        assert(entry_key(list[0]) < entry_key(entry));
        assert forall|k: int| 0 <= k < at - 1 implies entry_key(#[trigger] rest[k]) < entry_key(
            entry,
        ) by {
            assert(rest[k] == list[k + 1]);
        }
        lemma_device_place(rest, entry, replace, at - 1);
        if at < list.len() {
            assert(rest[at - 1] == list[at]);
            assert(seq![list[0]] + rest.update(at - 1, entry) =~= list.update(at, entry));
        }
        assert(seq![list[0]] + rest =~= list);
        assert(seq![list[0]] + rest.insert(at - 1, entry) =~= list.insert(at, entry));
    }
}

/// Adding a device keeps the list in order, and the device is on it.
pub proof fn lemma_devices_stay_ordered(list: Seq<EntryView>, entry: EntryView, replace: bool)
    requires
        devices_ordered(list),
    ensures
        devices_ordered(with_device(list, entry, replace)),
        exists|i: int|
            0 <= i < with_device(list, entry, replace).len() && entry_key(
                #[trigger] with_device(list, entry, replace)[i],
            ) == entry_key(entry),
    decreases list.len(),
{
    let out = with_device(list, entry, replace);
    let at = first_not_below(list, entry_key(entry), 0);
    lemma_first_not_below(list, entry_key(entry), 0);
    lemma_device_place(list, entry, replace, at);
    assert(entry_key(out[at]) == entry_key(entry));
}

spec fn first_not_below(list: Seq<EntryView>, key: u64, from: int) -> int
    decreases list.len() - from,
{
    if from >= list.len() || entry_key(list[from]) >= key {
        from
    } else {
        first_not_below(list, key, from + 1)
    }
}

proof fn lemma_first_not_below(list: Seq<EntryView>, key: u64, from: int)
    requires
        0 <= from <= list.len(),
        forall|k: int| 0 <= k < from ==> entry_key(#[trigger] list[k]) < key,
    ensures
        ({
            let at = first_not_below(list, key, from);
            &&& from <= at <= list.len()
            &&& forall|k: int| 0 <= k < at ==> entry_key(#[trigger] list[k]) < key
            &&& at < list.len() ==> entry_key(list[at]) >= key
        }),
    decreases list.len() - from,
{
    if from < list.len() && entry_key(list[from]) < key {
        lemma_first_not_below(list, key, from + 1);
    }
}

fn device_key(device: &Device) -> (key: u64)
    ensures
        key == entry_key(device@),
{
    device_volume_id(device.major, device.minor).0
}

/// Adds a device to an ordered list.
fn put_device(list: &mut Vec<Device>, device: Device, replace: bool)
    ensures
        views::of(final(list)@) == with_device(views::of(old(list)@), device@, replace),
{
    let ghost start = views::of(list@);
    let ghost entry = device@;
    let key: u64 = device_key(&device);
    let mut at: usize = 0;
    while at < list.len() && device_key(&list[at]) < key
        invariant
            at <= list@.len(),
            start == views::of(list@),
            key == entry_key(entry),
            forall|k: int| 0 <= k < at ==> entry_key(#[trigger] start[k]) < key,
        decreases list@.len() - at,
    {
        assert(start[at as int] == list@[at as int]@);
        at = at + 1;
    }
    proof {
        if at < list@.len() {
            assert(start[at as int] == list@[at as int]@);
        }
        lemma_device_place(start, entry, replace, at as int);
    }
    if at < list.len() && device_key(&list[at]) == key {
        if replace {
            list.set(at, device);
            assert(views::of(list@) =~= start.update(at as int, entry));
        }
    } else {
        list.insert(at, device);
        assert(views::of(list@) =~= start.insert(at as int, entry));
    }
}

fn list_devices(found: &Vec<Device>, mounts: &Vec<MountInfo>) -> (list: Vec<Device>)
    ensures
        views::of(list@) == with_mounts(listed(views::of(found@)), views::of(mounts@)),
{
    let ghost all = views::of(found@);
    let mut list: Vec<Device> = Vec::new();
    assert(views::of(list@) =~= Seq::empty());
    let mut i: usize = 0;
    while i < found.len()
        invariant
            i <= found@.len(),
            all == views::of(found@),
            views::of(list@) == listed(all.take(i as int)),
        decreases found@.len() - i,
    {
        assert(all.take(i + 1).drop_last() =~= all.take(i as int));
        put_device(&mut list, found[i].clone(), true);
        i = i + 1;
    }
    assert(all.take(i as int) =~= all);
    let ghost devices = views::of(list@);
    let ghost table = views::of(mounts@);
    let mut j: usize = 0;
    while j < mounts.len()
        invariant
            j <= mounts@.len(),
            table == views::of(mounts@),
            views::of(list@) == with_mounts(devices, table.take(j as int)),
        decreases mounts@.len() - j,
    {
        assert(table.take(j + 1).drop_last() =~= table.take(j as int));
        let info: &MountInfo = &mounts[j];
        put_device(
            &mut list,
            Device {
                major: info.major,
                minor: info.minor,
                info: DeviceInfo {
                    source: info.source.clone(),
                    filesystem: info.filesystem.clone(),
                    capacity: 0,
                    label: None,
                    uuid: None,
                },
            },
            false,
        );
        j = j + 1;
    }
    assert(table.take(j as int) =~= table);
    list
}

// ---------------------------------------------------------------------
// The mount of a volume
// ---------------------------------------------------------------------

/// Whether a mount shows only a part of its filesystem.
pub open spec fn is_partial(info: MountInfoView) -> bool {
    !path::same_path(info.root, seq![path::SLASH])
}

/// Whether a mount is no worse than another: whole filesystems first, of
/// those the first path.
pub open spec fn no_worse(a: MountInfoView, b: MountInfoView) -> bool {
    if is_partial(a) == is_partial(b) {
        path::path_le(a.mount_point, b.mount_point)
    } else {
        !is_partial(a)
    }
}

pub open spec fn is_on(info: MountInfoView, major: u32, minor: u32) -> bool {
    info.major == major && info.minor == minor
}

/// Whether the mount at a place is the one by which a device is known: no
/// other mount of it is better, and no earlier one is as good.
pub open spec fn is_chosen(mounts: Seq<MountInfoView>, major: u32, minor: u32, i: int) -> bool {
    &&& 0 <= i < mounts.len()
    &&& is_on(mounts[i], major, minor)
    &&& forall|j: int|
        0 <= j < i && is_on(#[trigger] mounts[j], major, minor) ==> !no_worse(mounts[j], mounts[i])
    &&& forall|j: int|
        i <= j < mounts.len() && is_on(#[trigger] mounts[j], major, minor) ==> no_worse(
            mounts[i],
            mounts[j],
        )
}

/// The mount by which a device is known, where it is mounted.
pub open spec fn chosen(mounts: Seq<MountInfoView>, major: u32, minor: u32) -> Option<MountInfoView> {
    if exists|i: int| is_chosen(mounts, major, minor, i) {
        Some(mounts[choose|i: int| is_chosen(mounts, major, minor, i)])
    } else {
        None
    }
}

proof fn lemma_no_worse_total(a: MountInfoView, b: MountInfoView)
    ensures
        no_worse(a, b) || no_worse(b, a),
{
    path::lemma_path_total(a.mount_point, b.mount_point);
}

proof fn lemma_no_worse_transitive(a: MountInfoView, b: MountInfoView, c: MountInfoView)
    requires
        no_worse(a, b),
        no_worse(b, c),
    ensures
        no_worse(a, c),
{
    if is_partial(a) == is_partial(b) && is_partial(b) == is_partial(c) {
        path::lemma_path_transitive(a.mount_point, b.mount_point, c.mount_point);
    }
}

/// Whether the mount at a place is the one among the first `n`.
spec fn is_best(mounts: Seq<MountInfoView>, n: int, major: u32, minor: u32, i: int) -> bool {
    &&& 0 <= i < n
    &&& is_on(mounts[i], major, minor)
    &&& forall|j: int|
        0 <= j < i && is_on(#[trigger] mounts[j], major, minor) ==> !no_worse(mounts[j], mounts[i])
    &&& forall|j: int|
        i <= j < n && is_on(#[trigger] mounts[j], major, minor) ==> no_worse(mounts[i], mounts[j])
}

proof fn lemma_better(mounts: Seq<MountInfoView>, n: int, major: u32, minor: u32, i: int)
    requires
        0 <= n < mounts.len(),
        is_best(mounts, n, major, minor, i),
        is_on(mounts[n], major, minor),
        !no_worse(mounts[i], mounts[n]),
    ensures
        is_best(mounts, n + 1, major, minor, n),
{
    lemma_no_worse_total(mounts[i], mounts[n]);
    lemma_no_worse_total(mounts[n], mounts[n]);
    assert forall|j: int|
        0 <= j < n && is_on(#[trigger] mounts[j], major, minor) implies !no_worse(
        mounts[j],
        mounts[n],
    ) by {
        if no_worse(mounts[j], mounts[n]) {
            if j < i {
                lemma_no_worse_transitive(mounts[j], mounts[n], mounts[i]);
            } else {
                lemma_no_worse_transitive(mounts[i], mounts[j], mounts[n]);
            }
        }
    }
}

fn mount_no_worse(a: &MountInfo, b: &MountInfo) -> (yes: bool)
    ensures
        yes == no_worse(a@, b@),
{
    let root: FsPath = FsPath::root();
    let a_partial: bool = !a.root.same(&root);
    let b_partial: bool = !b.root.same(&root);
    if a_partial == b_partial {
        a.mount_point.at_most(&b.mount_point)
    } else {
        !a_partial
    }
}

fn choose_mount(mounts: &Vec<MountInfo>, major: u32, minor: u32) -> (found: Option<usize>)
    ensures
        match found {
            Some(i) => i < mounts@.len() && chosen(views::of(mounts@), major, minor) == Some(
                mounts@[i as int]@,
            ),
            None => chosen(views::of(mounts@), major, minor) is None,
        },
{
    let ghost all = views::of(mounts@);
    let mut best: Option<usize> = None;
    let mut n: usize = 0;
    while n < mounts.len()
        invariant
            n <= mounts@.len(),
            all == views::of(mounts@),
            match best {
                Some(i) => is_best(all, n as int, major, minor, i as int),
                None => forall|j: int| 0 <= j < n ==> !is_on(#[trigger] all[j], major, minor),
            },
        decreases mounts@.len() - n,
    {
        assert(all[n as int] == mounts@[n as int]@);
        if mounts[n].major == major && mounts[n].minor == minor {
            match best {
                None => {
                    proof {
                        lemma_no_worse_total(all[n as int], all[n as int]);
                    }
                    best = Some(n);
                },
                Some(i) => {
                    assert(all[i as int] == mounts@[i as int]@);
                    if !mount_no_worse(&mounts[i], &mounts[n]) {
                        proof {
                            lemma_better(all, n as int, major, minor, i as int);
                        }
                        best = Some(n);
                    }
                },
            }
        }
        n = n + 1;
    }
    proof {
        if let Some(i) = best {
            assert(is_chosen(all, major, minor, i as int));
            let k = choose|k: int| is_chosen(all, major, minor, k);
            assert(k == i) by {
                if k < i {
                    assert(!no_worse(all[k], all[i as int]));
                    assert(no_worse(all[k], all[i as int]));
                } else if i < k {
                    assert(!no_worse(all[i as int], all[k]));
                    assert(no_worse(all[i as int], all[k]));
                }
            }
        }
    }
    best
}

// ---------------------------------------------------------------------
// Volumes
// ---------------------------------------------------------------------

/// The size of a mounted filesystem and what is free of it.
#[derive(Clone, Copy, Debug, PartialEq, Eq, Structural)]
pub struct MountSize {
    pub mount_id: u64,
    pub capacity: u64,
    pub free: u64,
}

/// The size of a mount, where it could be measured.
pub open spec fn size_of(sizes: Seq<MountSize>, mount_id: u64) -> Option<(u64, u64)>
    decreases sizes.len(),
{
    if sizes.len() == 0 {
        None
    } else if sizes[0].mount_id == mount_id {
        Some((sizes[0].capacity, sizes[0].free))
    } else {
        size_of(sizes.skip(1), mount_id)
    }
}

fn find_size(sizes: &Vec<MountSize>, mount_id: u64) -> (size: Option<(u64, u64)>)
    ensures
        size == size_of(sizes@, mount_id),
{
    let mut i: usize = 0;
    assert(sizes@.skip(0) =~= sizes@);
    while i < sizes.len()
        invariant
            i <= sizes@.len(),
            size_of(sizes@, mount_id) == size_of(sizes@.skip(i as int), mount_id),
        decreases sizes@.len() - i,
    {
        if sizes[i].mount_id == mount_id {
            return Some((sizes[i].capacity, sizes[i].free));
        }
        assert(sizes@.skip(i as int).skip(1) =~= sizes@.skip(i + 1));
        i = i + 1;
    }
    None
}

/// What the service can do with a filesystem.
pub open spec fn support_of(backends: Seq<Backend>, filesystem: Seq<char>) -> SupportView {
    match backend::first_supporting(backends, filesystem) {
        Some(found) => backend::FilesystemBackend::support_for(&found, filesystem),
        None => SupportView::Unsupported { reason: "No filesystem backend is installed"@ },
    }
}

/// The volume on a device.
pub open spec fn volume_of(
    entry: EntryView,
    mounts: Seq<MountInfoView>,
    sizes: Seq<MountSize>,
    backends: Seq<Backend>,
) -> VolumeView {
    let mount = chosen(mounts, entry.major, entry.minor);
    let filesystem = match mount {
        Some(info) => info.filesystem,
        None => entry.info.filesystem,
    };
    let read_only = match mount {
        Some(info) => info.options.contains("ro"@),
        None => false,
    };
    let size = match mount {
        Some(info) => size_of(sizes, info.mount_id),
        None => None,
    };
    VolumeView {
        id: volume_id_of(entry.major, entry.minor),
        mount_id: match mount {
            Some(info) => Some(info.mount_id),
            None => None,
        },
        parent_mount_id: match mount {
            Some(info) => Some(info.parent_mount_id),
            None => None,
        },
        device_major: entry.major,
        device_minor: entry.minor,
        mount_point: match mount {
            Some(info) => Some(info.mount_point),
            None => None,
        },
        source: match mount {
            Some(info) => info.source,
            None => entry.info.source,
        },
        filesystem,
        label: entry.info.label,
        uuid: entry.info.uuid,
        mount_state: if mount is None {
            MountState::Unmounted
        } else if read_only {
            MountState::MountedReadOnly
        } else {
            MountState::MountedReadWrite
        },
        read_only,
        capacity_bytes: match size {
            Some((capacity, _)) => capacity,
            None => entry.info.capacity,
        },
        used_bytes: match size {
            Some((capacity, free)) => Some(arith::max_int(capacity - free, 0) as u64),
            None => None,
        },
        free_bytes: match size {
            Some((_, free)) => Some(free),
            None => None,
        },
        support: support_of(backends, filesystem),
    }
}

/// The volumes on devices, in order; a device without a filesystem has none.
pub open spec fn volumes_on(
    entries: Seq<EntryView>,
    mounts: Seq<MountInfoView>,
    sizes: Seq<MountSize>,
    backends: Seq<Backend>,
) -> Seq<VolumeView>
    decreases entries.len(),
{
    if entries.len() == 0 {
        Seq::empty()
    } else {
        let before = volumes_on(entries.drop_last(), mounts, sizes, backends);
        let volume = volume_of(entries.last(), mounts, sizes, backends);
        if volume.filesystem.len() == 0 {
            before
        } else {
            before.push(volume)
        }
    }
}

fn support_status(backends: &Vec<Backend>, volume: &Volume) -> (support: SupportStatus)
    ensures
        support@ == support_of(backends@, volume@.filesystem),
{
    match backend::find_backend(backends, volume) {
        Some(found) => backend::FilesystemBackend::probe(&found, volume),
        None => SupportStatus::Unsupported {
            reason: "No filesystem backend is installed".to_owned(),
        },
    }
}

fn make_volume(
    device: &Device,
    mounts: &Vec<MountInfo>,
    sizes: &Vec<MountSize>,
    backends: &Vec<Backend>,
) -> (volume: Volume)
    ensures
        volume@ == volume_of(device@, views::of(mounts@), sizes@, backends@),
{
    let mut volume: Volume = Volume {
        id: device_volume_id(device.major, device.minor),
        mount_id: None,
        parent_mount_id: None,
        device_major: device.major,
        device_minor: device.minor,
        mount_point: None,
        source: device.info.source.clone(),
        filesystem: device.info.filesystem.clone(),
        label: views::clone_option(&device.info.label),
        uuid: views::clone_option(&device.info.uuid),
        mount_state: MountState::Unmounted,
        read_only: false,
        capacity_bytes: device.info.capacity,
        used_bytes: None,
        free_bytes: None,
        support: SupportStatus::ReadOnly,
    };
    if let Some(i) = choose_mount(mounts, device.major, device.minor) {
        let info: &MountInfo = &mounts[i];
        let read_only: bool = text::holds_text(&info.options, "ro");
        volume.mount_id = Some(info.mount_id);
        volume.parent_mount_id = Some(info.parent_mount_id);
        volume.mount_point = Some(info.mount_point.clone());
        volume.source = info.source.clone();
        volume.filesystem = info.filesystem.clone();
        volume.read_only = read_only;
        volume.mount_state = if read_only {
            MountState::MountedReadOnly
        } else {
            MountState::MountedReadWrite
        };
        if let Some((capacity, free)) = find_size(sizes, info.mount_id) {
            volume.capacity_bytes = capacity;
            volume.used_bytes = Some(capacity.saturating_sub(free));
            volume.free_bytes = Some(free);
        }
    }
    volume.support = support_status(backends, &volume);
    volume
}

/// What the list of volumes is made of: the mount table, the block devices
/// that were found, and the sizes of mounted filesystems.
#[derive(Debug)]
pub struct Surroundings {
    pub mount_table: Result<String, OsError>,
    pub devices: Vec<Device>,
    pub sizes: Vec<MountSize>,
}

/// The contents of [`Surroundings`].
#[verifier::ext_equal]
pub struct SurroundingsView {
    pub mount_table: Result<Seq<char>, OsErrorView>,
    pub devices: Seq<EntryView>,
    pub sizes: Seq<MountSize>,
}

impl View for Surroundings {
    type V = SurroundingsView;

    open spec fn view(&self) -> SurroundingsView {
        SurroundingsView {
            mount_table: match self.mount_table {
                Ok(table) => Ok(table@),
                Err(e) => Err(e@),
            },
            devices: views::of(self.devices@),
            sizes: self.sizes@,
        }
    }
}

/// The volumes before they are sorted.
pub open spec fn found_volumes(
    table: Seq<char>,
    devices: Seq<EntryView>,
    sizes: Seq<MountSize>,
    backends: Seq<Backend>,
) -> Seq<VolumeView> {
    let mounts = mounts_in(text::lines(table));
    volumes_on(with_mounts(listed(devices), mounts), mounts, sizes, backends)
}

/// Whether volumes stand in the order of their sources; volumes of one
/// source stay in the order in which they were found.
pub open spec fn is_by_source(volumes: Seq<VolumeView>, out: Seq<VolumeView>) -> bool {
    exists|keys: Seq<TextKey>| #[trigger]
        source_keys(volumes, keys) && sort::is_sorted_by(keys, volumes, out)
}

pub open spec fn source_keys(volumes: Seq<VolumeView>, keys: Seq<TextKey>) -> bool {
    &&& keys.len() == volumes.len()
    &&& forall|i: int| 0 <= i < keys.len() ==> (#[trigger] keys[i]).chars@ == volumes[i].source
}

/// Volumes in the order of their sources.
pub open spec fn by_source(volumes: Seq<VolumeView>) -> Seq<VolumeView> {
    choose|out: Seq<VolumeView>| is_by_source(volumes, out)
}

/// The volumes that there are.
pub open spec fn discovered(around: SurroundingsView, backends: Seq<Backend>) -> Result<
    Seq<VolumeView>,
    ErrorView,
> {
    match around.mount_table {
        Ok(table) => Ok(by_source(found_volumes(table, around.devices, around.sizes, backends))),
        Err(e) => Err(ErrorView::Io(e)),
    }
}

proof fn lemma_by_source_unique(
    volumes: Seq<VolumeView>,
    first: Seq<VolumeView>,
    second: Seq<VolumeView>,
)
    requires
        is_by_source(volumes, first),
        is_by_source(volumes, second),
    ensures
        first == second,
{
    let a = choose|keys: Seq<TextKey>| #[trigger]
        source_keys(volumes, keys) && sort::is_sorted_by(keys, volumes, first);
    let b = choose|keys: Seq<TextKey>| #[trigger]
        source_keys(volumes, keys) && sort::is_sorted_by(keys, volumes, second);
    let order = choose|order: Seq<usize>| #[trigger]
        sort::is_stable_order(a, order) && first == Seq::new(
            volumes.len(),
            |i: int| volumes[order[i] as int],
        );
    assert(sort::is_stable_order(b, order)) by {
        assert forall|i: int, j: int| 0 <= i < j < order.len() implies sort::before(
            b,
            #[trigger] order[i] as int,
            #[trigger] order[j] as int,
        ) by {
            assert(sort::before(a, order[i] as int, order[j] as int));
            assert(a[order[i] as int].chars@ == b[order[i] as int].chars@);
            assert(a[order[j] as int].chars@ == b[order[j] as int].chars@);
        }
    }
    assert(sort::is_sorted_by(b, volumes, first));
    sort::lemma_sorted_unique(b, volumes, first, second);
}

/// Sorting by source neither adds nor drops a volume.
pub proof fn lemma_by_source_keeps_volumes(
    volumes: Seq<VolumeView>,
    out: Seq<VolumeView>,
    i: int,
)
    requires
        is_by_source(volumes, out),
        0 <= i < out.len(),
    ensures
        out.len() == volumes.len(),
        volumes.contains(out[i]),
{
    let keys = choose|keys: Seq<TextKey>| #[trigger]
        source_keys(volumes, keys) && sort::is_sorted_by(keys, volumes, out);
    let order = choose|order: Seq<usize>| #[trigger]
        sort::is_stable_order(keys, order) && out == Seq::new(
            volumes.len(),
            |i: int| volumes[order[i] as int],
        );
    assert(order[i] < keys.len());
    assert(out[i] == volumes[order[i] as int]);
}

fn sort_by_source(volumes: Vec<Volume>) -> (out: Vec<Volume>)
    ensures
        is_by_source(views::of(volumes@), views::of(out@)),
        views::of(out@) == by_source(views::of(volumes@)),
{
    let ghost all = views::of(volumes@);
    let mut keys: Vec<TextKey> = Vec::new();
    let mut i: usize = 0;
    while i < volumes.len()
        invariant
            i <= volumes@.len(),
            all == views::of(volumes@),
            keys@.len() == i,
            forall|k: int| 0 <= k < i ==> (#[trigger] keys@[k]).chars@ == all[k].source,
        decreases volumes@.len() - i,
    {
        keys.push(TextKey { chars: text::chars_of(volumes[i].source.as_str()) });
        i = i + 1;
    }
    let ghost before = volumes@;
    let out: Vec<Volume> = sort::sort_by_keys(&keys, volumes);
    proof {
        assert(source_keys(all, keys@));
        sort::lemma_sorted_views(keys@, before, out@);
        assert(is_by_source(all, views::of(out@)));
        lemma_by_source_unique(all, views::of(out@), by_source(all));
    }
    out
}

/// What listing volumes gives, over views.
pub open spec fn listing(volumes: Result<Vec<Volume>, ServiceError>) -> Result<
    Seq<VolumeView>,
    ErrorView,
> {
    match volumes {
        Ok(list) => Ok(views::of(list@)),
        Err(e) => Err(e@),
    }
}

/// Lists the volumes.
pub fn discover(around: &Surroundings, backends: &Vec<Backend>) -> (volumes: Result<
    Vec<Volume>,
    ServiceError,
>)
    ensures
        listing(volumes) == discovered(around@, backends@),
        volumes matches Ok(list) ==> around@.mount_table matches Ok(table) && is_by_source(
            found_volumes(table, around@.devices, around@.sizes, backends@),
            views::of(list@),
        ),
{
    let table: &String = match &around.mount_table {
        Err(e) => {
            return Err(ServiceError::Io(e.clone()));
        },
        Ok(table) => table,
    };
    let mounts: Vec<MountInfo> = read_mounts(table.as_str());
    let devices: Vec<Device> = list_devices(&around.devices, &mounts);
    let ghost entries = views::of(devices@);
    let ghost infos = views::of(mounts@);
    let mut volumes: Vec<Volume> = Vec::new();
    assert(views::of(volumes@) =~= Seq::empty());
    let mut i: usize = 0;
    while i < devices.len()
        invariant
            i <= devices@.len(),
            entries == views::of(devices@),
            infos == views::of(mounts@),
            views::of(volumes@) == volumes_on(
                entries.take(i as int),
                infos,
                around.sizes@,
                backends@,
            ),
        decreases devices@.len() - i,
    {
        assert(entries.take(i + 1).drop_last() =~= entries.take(i as int));
        let volume: Volume = make_volume(&devices[i], &mounts, &around.sizes, backends);
        if !text::same_text(volume.filesystem.as_str(), "") {
            proof {
                reveal_strlit("");
                if volume.filesystem@.len() == 0 {
                    assert(volume.filesystem@ =~= ""@);
                }
            }
            let ghost before = views::of(volumes@);
            let ghost added = volume@;
            volumes.push(volume);
            assert(views::of(volumes@) =~= before.push(added));
        } else {
            proof {
                reveal_strlit("");
            }
        }
        i = i + 1;
    }
    assert(entries.take(i as int) =~= entries);
    Ok(sort_by_source(volumes))
}

// ---------------------------------------------------------------------
// What holds of every list of volumes
// ---------------------------------------------------------------------

proof fn lemma_lists_are_ordered(found: Seq<EntryView>, mounts: Seq<MountInfoView>)
    ensures
        devices_ordered(listed(found)),
        devices_ordered(with_mounts(listed(found), mounts)),
    decreases found.len() + mounts.len(),
{
    if mounts.len() > 0 {
        lemma_lists_are_ordered(found, mounts.drop_last());
        lemma_devices_stay_ordered(
            with_mounts(listed(found), mounts.drop_last()),
            mount_device(mounts.last()),
            false,
        );
    } else if found.len() > 0 {
        lemma_lists_are_ordered(found.drop_last(), mounts);
        lemma_devices_stay_ordered(listed(found.drop_last()), found.last(), true);
    }
}

proof fn lemma_ids_ascend(
    entries: Seq<EntryView>,
    mounts: Seq<MountInfoView>,
    sizes: Seq<MountSize>,
    backends: Seq<Backend>,
)
    requires
        devices_ordered(entries),
    ensures
        ({
            let volumes = volumes_on(entries, mounts, sizes, backends);
            &&& forall|i: int, j: int|
                0 <= i < j < volumes.len() ==> (#[trigger] volumes[i]).id.0 < (
                #[trigger] volumes[j]).id.0
            &&& forall|i: int|
                0 <= i < volumes.len() ==> entries.len() > 0 && (#[trigger] volumes[i]).id.0
                    <= entry_key(entries.last())
        }),
    decreases entries.len(),
{
    if entries.len() > 0 {
        let rest = entries.drop_last();
        assert forall|i: int, j: int| 0 <= i < j < rest.len() implies entry_key(
            #[trigger] rest[i],
        ) < entry_key(#[trigger] rest[j]) by {
            assert(rest[i] == entries[i] && rest[j] == entries[j]);
        }
        lemma_ids_ascend(rest, mounts, sizes, backends);
        if rest.len() > 0 {
            assert(rest.last() == entries[entries.len() - 2]);
            assert(entry_key(entries[entries.len() - 2]) < entry_key(
                entries[entries.len() - 1],
            ));
        }
    }
}

/// No two volumes of a list have the same identity: a volume is found again
/// by it.
pub proof fn lemma_volume_ids_differ(
    table: Seq<char>,
    devices: Seq<EntryView>,
    sizes: Seq<MountSize>,
    backends: Seq<Backend>,
)
    ensures
        ({
            let volumes = found_volumes(table, devices, sizes, backends);
            forall|i: int, j: int|
                0 <= i < j < volumes.len() ==> (#[trigger] volumes[i]).id != (
                #[trigger] volumes[j]).id
        }),
{
    let mounts = mounts_in(text::lines(table));
    lemma_lists_are_ordered(devices, mounts);
    lemma_ids_ascend(with_mounts(listed(devices), mounts), mounts, sizes, backends);
}

} // verus!
