//! What holds of every list of volumes: that no device and no mount is
//! missing, and what a volume says of its mount, its size and its support.

use vstd::prelude::*;

use crate::backend;
use crate::domain::{MountState, VolumeView};
use crate::mounts;
use crate::mounts::{EntryView, MountInfoView, MountSize};
use crate::path;

verus! {

// ---------------------------------------------------------------------
// The mount of a volume
// ---------------------------------------------------------------------

proof fn lemma_order(a: MountInfoView, b: MountInfoView, c: MountInfoView)
    ensures
        mounts::no_worse(a, b) || mounts::no_worse(b, a),
        mounts::no_worse(a, b) && mounts::no_worse(b, c) ==> mounts::no_worse(a, c),
{
    path::lemma_path_total(a.mount_point, b.mount_point);
    if mounts::no_worse(a, b) && mounts::no_worse(b, c) && mounts::is_partial(a)
        == mounts::is_partial(b) && mounts::is_partial(b) == mounts::is_partial(c) {
        path::lemma_path_transitive(a.mount_point, b.mount_point, c.mount_point);
    }
}

/// A device that is mounted has a mount by which it is known.
proof fn lemma_some_mount_is_chosen(list: Seq<MountInfoView>, major: u32, minor: u32, k: int) -> (i:
    int)
    requires
        0 <= k < list.len(),
        mounts::is_on(list[k], major, minor),
    ensures
        mounts::is_chosen(list, major, minor, i),
    decreases list.len(),
{
    let rest = list.drop_last();
    let last = list.len() - 1;
    if exists|j: int| 0 <= j < rest.len() && mounts::is_on(#[trigger] rest[j], major, minor) {
        let j = choose|j: int|
            0 <= j < rest.len() && mounts::is_on(#[trigger] rest[j], major, minor);
        let i = lemma_some_mount_is_chosen(rest, major, minor, j);
        assert forall|x: int| 0 <= x < rest.len() implies #[trigger] list[x] == rest[x] by {}
        if !mounts::is_on(list[last], major, minor) || mounts::no_worse(list[i], list[last]) {
            assert forall|x: int|
                0 <= x < i && mounts::is_on(#[trigger] list[x], major, minor) implies
                !mounts::no_worse(list[x], list[i]) by {
                assert(mounts::is_on(rest[x], major, minor));
            }
            assert forall|x: int|
                i <= x < list.len() && mounts::is_on(#[trigger] list[x], major, minor) implies
                mounts::no_worse(list[i], list[x]) by {
                if x < rest.len() {
                    assert(mounts::is_on(rest[x], major, minor));
                }
            }
            i
        } else {
            lemma_order(list[i], list[last], list[last]);
            lemma_order(list[last], list[last], list[last]);
            assert forall|x: int|
                0 <= x < last && mounts::is_on(#[trigger] list[x], major, minor) implies
                !mounts::no_worse(list[x], list[last]) by {
                assert(mounts::is_on(rest[x], major, minor));
                lemma_order(list[i], list[x], list[last]);
                lemma_order(list[x], list[last], list[i]);
                if x < i {
                    assert(!mounts::no_worse(rest[x], rest[i]));
                } else {
                    assert(mounts::no_worse(rest[i], rest[x]));
                }
            }
            last
        }
    } else {
        assert(k == last) by {
            if k < last {
                assert(mounts::is_on(rest[k], major, minor));
            }
        }
        lemma_order(list[last], list[last], list[last]);
        assert forall|x: int|
            0 <= x < last && mounts::is_on(#[trigger] list[x], major, minor) implies
            !mounts::no_worse(list[x], list[last]) by {
            assert(mounts::is_on(rest[x], major, minor));
        }
        last
    }
}

/// Whether a volume is shown as mounted by a mount.
pub open spec fn shows_mount(volume: VolumeView, mount: MountInfoView) -> bool {
    &&& volume.mount_id == Some(mount.mount_id)
    &&& volume.parent_mount_id == Some(mount.parent_mount_id)
    &&& volume.mount_point == Some(mount.mount_point)
    &&& volume.source == mount.source
    &&& volume.filesystem == mount.filesystem
    &&& volume.read_only == mount.options.contains("ro"@)
    &&& volume.mount_state == (if mount.options.contains("ro"@) {
        MountState::MountedReadOnly
    } else {
        MountState::MountedReadWrite
    })
}

/// A volume is mounted exactly where a mount of its device is known. It shows
/// such a mount, one of the whole filesystem where there is one, and otherwise
/// what its device says of itself.
pub proof fn lemma_volumes_show_their_mount(
    entry: EntryView,
    list: Seq<MountInfoView>,
    sizes: Seq<MountSize>,
    backends: Seq<backend::Backend>,
    k: int,
)
    ensures
        ({
            let volume = mounts::volume_of(entry, list, sizes, backends);
            &&& volume.device_major == entry.major
            &&& volume.device_minor == entry.minor
            &&& volume.id == mounts::volume_id_of(entry.major, entry.minor)
            &&& volume.label == entry.info.label
            &&& volume.uuid == entry.info.uuid
            &&& 0 <= k < list.len() && list[k].major == entry.major && list[k].minor == entry.minor
                ==> exists|i: int| {
                &&& 0 <= i < list.len()
                &&& (#[trigger] list[i]).major == entry.major
                &&& list[i].minor == entry.minor
                &&& shows_mount(volume, list[i])
                &&& path::same_path(list[k].root, seq![47u8]) ==> path::same_path(
                    list[i].root,
                    seq![47u8],
                )
            }
            &&& (forall|i: int|
                0 <= i < list.len() ==> (#[trigger] list[i]).major != entry.major || list[i].minor
                    != entry.minor) ==> {
                &&& volume.mount_state == MountState::Unmounted
                &&& volume.mount_point is None
                &&& volume.mount_id is None
                &&& !volume.read_only
                &&& volume.source == entry.info.source
                &&& volume.filesystem == entry.info.filesystem
                &&& volume.capacity_bytes == entry.info.capacity
                &&& volume.used_bytes is None
                &&& volume.free_bytes is None
            }
        }),
{
    let (major, minor) = (entry.major, entry.minor);
    let volume = mounts::volume_of(entry, list, sizes, backends);
    if 0 <= k < list.len() && mounts::is_on(list[k], major, minor) {
        let some = lemma_some_mount_is_chosen(list, major, minor, k);
        let i = choose|i: int| mounts::is_chosen(list, major, minor, i);
        assert(mounts::is_chosen(list, major, minor, i));
        assert(mounts::chosen(list, major, minor) == Some(list[i]));
        assert(shows_mount(volume, list[i]));
        assert(!mounts::is_partial(list[k]) ==> !mounts::is_partial(list[i])) by {
            if k < i {
                assert(!mounts::no_worse(list[k], list[i]));
            } else {
                assert(mounts::no_worse(list[i], list[k]));
            }
        }
    }
}

/// A mounted volume whose sizes are known has its capacity, its free bytes,
/// and as used what the one has more than the other.
pub proof fn lemma_volumes_show_their_size(
    entry: EntryView,
    mount: MountInfoView,
    size: MountSize,
    backends: Seq<backend::Backend>,
)
    requires
        mount.major == entry.major,
        mount.minor == entry.minor,
        size.mount_id == mount.mount_id,
    ensures
        ({
            let volume = mounts::volume_of(entry, seq![mount], seq![size], backends);
            &&& volume.capacity_bytes == size.capacity
            &&& volume.free_bytes == Some(size.free)
            &&& size.free <= size.capacity ==> volume.used_bytes == Some(
                (size.capacity - size.free) as u64,
            )
            &&& size.free > size.capacity ==> volume.used_bytes == Some(0u64)
        }),
{
    let list = seq![mount];
    lemma_order(mount, mount, mount);
    let some = lemma_some_mount_is_chosen(list, entry.major, entry.minor, 0);
    let i = choose|i: int| mounts::is_chosen(list, entry.major, entry.minor, i);
    assert(mounts::is_chosen(list, entry.major, entry.minor, i));
    assert(list[i] == mount);
    assert(seq![size][0] == size);
}

/// What can be done with a volume depends on its filesystem alone: ext4 is
/// defragmented, FAT and exFAT are read, and nothing else is known.
pub proof fn lemma_support_goes_by_filesystem(filesystem: Seq<char>)
    ensures
        ({
            let support = mounts::support_of(backend::known_backends(), filesystem);
            &&& support is Defragmentable <==> filesystem == "ext4"@
            &&& support is ReadOnly <==> filesystem == "fat"@ || filesystem == "msdos"@
                || filesystem == "vfat"@ || filesystem == "exfat"@
        }),
{
    reveal_with_fuel(backend::first_supporting, 3);
    backend::lemma_families_are_apart(filesystem);
    let known = backend::known_backends();
    assert(known.skip(1)[0] == known[1]);
    assert(known.skip(1).skip(1).len() == 0);
}

// ---------------------------------------------------------------------
// No device is missing
// ---------------------------------------------------------------------

/// Whether a list has an entry for a device.
pub open spec fn has_device(list: Seq<EntryView>, major: u32, minor: u32) -> bool {
    exists|i: int|
        0 <= i < list.len() && (#[trigger] list[i]).major == major && list[i].minor == minor
}

proof fn lemma_entered(list: Seq<EntryView>, entry: EntryView, replace: bool)
    ensures
        has_device(mounts::with_device(list, entry, replace), entry.major, entry.minor),
        forall|major: u32, minor: u32|
            has_device(list, major, minor) ==> #[trigger] has_device(
                mounts::with_device(list, entry, replace),
                major,
                minor,
            ),
    decreases list.len(),
{
    let after = mounts::with_device(list, entry, replace);
    if list.len() == 0 {
        assert(after[0] == entry);
    } else {
        let rest = list.skip(1);
        lemma_entered(rest, entry, replace);
        mounts::lemma_volume_ids_are_device_based(
            list[0].major,
            list[0].minor,
            entry.major,
            entry.minor,
        );
        let more = mounts::with_device(rest, entry, replace);
        if mounts::entry_key(list[0]) < mounts::entry_key(entry) {
            assert(forall|i: int| 0 <= i < more.len() ==> #[trigger] more[i] == after[i + 1]);
            let i = choose|i: int|
                0 <= i < more.len() && (#[trigger] more[i]).major == entry.major && more[i].minor
                    == entry.minor;
            assert(after[i + 1] == more[i]);
        } else if mounts::entry_key(list[0]) == mounts::entry_key(entry) {
            assert(after[0].major == entry.major && after[0].minor == entry.minor);
        } else {
            assert(after[0] == entry);
        }
        assert forall|major: u32, minor: u32|
            has_device(list, major, minor) implies #[trigger] has_device(after, major, minor) by {
            let i = choose|i: int|
                0 <= i < list.len() && (#[trigger] list[i]).major == major && list[i].minor
                    == minor;
            if mounts::entry_key(list[0]) < mounts::entry_key(entry) {
                if i == 0 {
                    assert(after[0] == list[0]);
                } else {
                    assert(rest[i - 1] == list[i]);
                    assert(has_device(rest, major, minor));
                    assert(has_device(more, major, minor));
                    let j = choose|j: int|
                        0 <= j < more.len() && (#[trigger] more[j]).major == major
                            && more[j].minor == minor;
                    assert(after[j + 1] == more[j]);
                }
            } else if mounts::entry_key(list[0]) == mounts::entry_key(entry) {
                if i == 0 || !replace {
                    assert(after[i].major == major && after[i].minor == minor);
                } else {
                    assert(after[i] == list[i]);
                }
            } else {
                assert(after[i + 1] == list[i]);
            }
        }
    }
}

proof fn lemma_listed(found: Seq<EntryView>, k: int)
    requires
        0 <= k < found.len(),
    ensures
        has_device(mounts::listed(found), found[k].major, found[k].minor),
    decreases found.len(),
{
    let rest = found.drop_last();
    lemma_entered(mounts::listed(rest), found.last(), true);
    if k < rest.len() {
        lemma_listed(rest, k);
        assert(found[k] == rest[k]);
    } else {
        assert(found[k] == found.last());
    }
}

proof fn lemma_mounts_listed(list: Seq<EntryView>, found: Seq<MountInfoView>)
    ensures
        forall|k: int|
            0 <= k < found.len() ==> has_device(
                mounts::with_mounts(list, found),
                (#[trigger] found[k]).major,
                found[k].minor,
            ),
        forall|major: u32, minor: u32|
            has_device(list, major, minor) ==> #[trigger] has_device(
                mounts::with_mounts(list, found),
                major,
                minor,
            ),
    decreases found.len(),
{
    if found.len() > 0 {
        let rest = found.drop_last();
        lemma_mounts_listed(list, rest);
        lemma_entered(mounts::with_mounts(list, rest), mounts::mount_device(found.last()), false);
        assert forall|k: int| 0 <= k < found.len() implies has_device(
            mounts::with_mounts(list, found),
            (#[trigger] found[k]).major,
            found[k].minor,
        ) by {
            if k < rest.len() {
                assert(found[k] == rest[k]);
                assert(has_device(mounts::with_mounts(list, rest), rest[k].major, rest[k].minor));
            } else {
                assert(found[k] == found.last());
            }
        }
    }
}

proof fn lemma_volume_on(
    entries: Seq<EntryView>,
    list: Seq<MountInfoView>,
    sizes: Seq<MountSize>,
    backends: Seq<backend::Backend>,
    i: int,
)
    requires
        0 <= i < entries.len(),
        mounts::volume_of(entries[i], list, sizes, backends).filesystem.len() > 0,
    ensures
        mounts::volumes_on(entries, list, sizes, backends).contains(
            mounts::volume_of(entries[i], list, sizes, backends),
        ),
    decreases entries.len(),
{
    let rest = entries.drop_last();
    let all = mounts::volumes_on(entries, list, sizes, backends);
    if i < rest.len() {
        assert(rest[i] == entries[i]);
        lemma_volume_on(rest, list, sizes, backends, i);
        let before = mounts::volumes_on(rest, list, sizes, backends);
        let v = mounts::volume_of(entries[i], list, sizes, backends);
        let k = choose|k: int| 0 <= k < before.len() && before[k] == v;
        assert(all[k] == v);
    } else {
        assert(entries[i] == entries.last());
        assert(all[all.len() - 1] == mounts::volume_of(entries[i], list, sizes, backends));
    }
}

/// No device and no mount is missing: each block device with a filesystem
/// that was found, and each mount of a volume in the mount table, has a volume
/// with its device numbers, as long as its filesystem has a name.
pub proof fn lemma_no_volume_is_missing(
    table: Seq<char>,
    devices: Seq<EntryView>,
    sizes: Seq<MountSize>,
    backends: Seq<backend::Backend>,
    major: u32,
    minor: u32,
)
    requires
        ({
            let list = mounts::mounts_in(crate::text::lines(table));
            ||| exists|k: int|
                0 <= k < devices.len() && (#[trigger] devices[k]).major == major && devices[k].minor
                    == minor
            ||| exists|k: int|
                0 <= k < list.len() && (#[trigger] list[k]).major == major && list[k].minor == minor
        }),
    ensures
        ({
            let list = mounts::mounts_in(crate::text::lines(table));
            let volumes = mounts::found_volumes(table, devices, sizes, backends);
            exists|entry: EntryView| {
                let volume = #[trigger] mounts::volume_of(entry, list, sizes, backends);
                &&& entry.major == major
                &&& entry.minor == minor
                &&& volume.device_major == major
                &&& volume.device_minor == minor
                &&& volume.filesystem.len() > 0 ==> volumes.contains(volume)
            }
        }),
{
    let list = mounts::mounts_in(crate::text::lines(table));
    let known = mounts::listed(devices);
    let entries = mounts::with_mounts(known, list);
    lemma_mounts_listed(known, list);
    if exists|k: int|
        0 <= k < devices.len() && (#[trigger] devices[k]).major == major && devices[k].minor
            == minor {
        let k = choose|k: int|
            0 <= k < devices.len() && (#[trigger] devices[k]).major == major && devices[k].minor
                == minor;
        lemma_listed(devices, k);
        assert(has_device(known, major, minor));
    } else {
        let k = choose|k: int|
            0 <= k < list.len() && (#[trigger] list[k]).major == major && list[k].minor == minor;
        assert(has_device(entries, list[k].major, list[k].minor));
    }
    assert(has_device(entries, major, minor));
    let i = choose|i: int|
        0 <= i < entries.len() && (#[trigger] entries[i]).major == major && entries[i].minor
            == minor;
    let volume = mounts::volume_of(entries[i], list, sizes, backends);
    if volume.filesystem.len() > 0 {
        lemma_volume_on(entries, list, sizes, backends, i);
    }
}

/// Sorting the volumes by their sources keeps every volume.
pub proof fn lemma_sorted_volumes_are_all_there(
    volumes: Seq<VolumeView>,
    out: Seq<VolumeView>,
    i: int,
)
    requires
        mounts::is_by_source(volumes, out),
        volumes.len() <= usize::MAX,
        0 <= i < volumes.len(),
    ensures
        out.contains(volumes[i]),
        out.len() == volumes.len(),
{
    let keys = choose|keys: Seq<crate::sort::TextKey>| #[trigger]
        mounts::source_keys(volumes, keys) && crate::sort::is_sorted_by(keys, volumes, out);
    let order = choose|order: Seq<usize>| #[trigger]
        crate::sort::is_stable_order(keys, order) && out == Seq::new(
            volumes.len(),
            |i: int| volumes[order[i] as int],
        );
    assert(order.contains(i as usize));
    let at = choose|at: int| 0 <= at < order.len() && order[at] == i as usize;
    assert(out[at] == volumes[i]);
}

// ---------------------------------------------------------------------
// Escapes
// ---------------------------------------------------------------------

/// An escape in a field of the mount table stands for the byte whose number
/// its three octal digits write; any other byte stands for itself.
pub proof fn lemma_escapes_are_read(a: u8, b: u8, c: u8, rest: Seq<u8>)
    ensures
        48 <= a <= 51 && 48 <= b <= 55 && 48 <= c <= 55 ==> mounts::unescaped(
            seq![92u8, a, b, c] + rest,
        ) == seq![(((a - 48) * 64 + (b - 48) * 8 + (c - 48)) as u8) as char] + mounts::unescaped(
            rest,
        ),
        a != 92 ==> mounts::unescaped(seq![a] + rest) == seq![a as char] + mounts::unescaped(rest),
        mounts::unescaped(Seq::<u8>::empty()).len() == 0,
{
    let escaped = seq![92u8, a, b, c] + rest;
    assert(escaped[0] == 92 && escaped[1] == a && escaped[2] == b && escaped[3] == c);
    assert(escaped.skip(4) =~= rest);
    let plain = seq![a] + rest;
    assert(plain[0] == a);
    assert(plain.skip(1) =~= rest);
}

/// Of the lines of a device's record that give a property, the last counts;
/// other lines do not matter.
pub proof fn lemma_last_property_counts(
    lines: Seq<Seq<char>>,
    line: Seq<char>,
    key: Seq<char>,
    name: Seq<char>,
    value: Seq<char>,
)
    requires
        mounts::udev_property(line) == Some((name, value)),
    ensures
        name == key ==> mounts::property(lines.push(line), key) == Some(value),
        name != key ==> mounts::property(lines.push(line), key) == mounts::property(lines, key),
        mounts::property(Seq::<Seq<char>>::empty(), key) is None,
{
    assert(lines.push(line).drop_last() =~= lines);
}

} // verus!
