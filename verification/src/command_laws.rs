//! What holds of every line of words that a command is given with: what it
//! asks for, and which volume it means.

use vstd::prelude::*;
use vstd::utf8::*;

use crate::cli;
use crate::cli::{CommandView, LocatedView, SelectableView};
use crate::domain::{VolumeId, VolumeView};
use crate::mounts;
use crate::path;
use crate::text;
use crate::window_laws;

verus! {

// ---------------------------------------------------------------------
// Words
// ---------------------------------------------------------------------

/// The words that stand for something else than a volume.
pub open spec fn is_flag(word: Seq<char>) -> bool {
    word == "--yes"@ || word == "--require-fully-defragmented"@ || word == "--require-zero-excess"@
}

proof fn lemma_flags_differ()
    ensures
        "--yes"@ != "--require-fully-defragmented"@,
        "--yes"@ != "--require-zero-excess"@,
        "--require-fully-defragmented"@ != "--require-zero-excess"@,
        !is_flag("defrag"@),
        "defrag"@ != "help"@,
        "defrag"@ != "-h"@,
        "defrag"@ != "--help"@,
        "defrag"@ != "list"@,
        "defrag"@ != "analyze"@,
        "analyze"@ != "help"@,
        "analyze"@ != "-h"@,
        "analyze"@ != "--help"@,
        "analyze"@ != "list"@,
        "list"@ != "help"@,
        "list"@ != "-h"@,
        "list"@ != "--help"@,
{
    reveal_strlit("--yes");
    reveal_strlit("--require-fully-defragmented");
    reveal_strlit("--require-zero-excess");
    reveal_strlit("defrag");
    reveal_strlit("analyze");
    reveal_strlit("list");
    reveal_strlit("help");
    reveal_strlit("-h");
    reveal_strlit("--help");
    assert("--yes"@.len() == 5 && "--require-fully-defragmented"@.len() == 28
        && "--require-zero-excess"@.len() == 21 && "defrag"@.len() == 6 && "analyze"@.len() == 7
        && "list"@.len() == 4 && "help"@.len() == 4 && "-h"@.len() == 2 && "--help"@.len() == 6);
    assert("list"@[0] == 'l' && "help"@[0] == 'h');
    assert("defrag"@[0] == 'd' && "--help"@[0] == '-');
}

proof fn lemma_flag_goes(words: Seq<Seq<char>>, flag: Seq<char>, rest: Seq<Seq<char>>, k: int)
    requires
        0 <= k < words.len(),
        words[k] == flag,
        forall|j: int| 0 <= j < k ==> #[trigger] words[j] != flag,
        rest == words.remove(k),
    ensures
        cli::without_flag(words, flag) == rest,
        words.contains(flag),
{
    lemma_place(words, flag, k);
}

proof fn lemma_place(words: Seq<Seq<char>>, flag: Seq<char>, k: int)
    requires
        0 <= k < words.len(),
        words[k] == flag,
        forall|j: int| 0 <= j < k ==> #[trigger] words[j] != flag,
    ensures
        cli::flag_place(words, flag) == k,
    decreases k,
{
    if k > 0 {
        let rest = words.skip(1);
        assert(words[0] != flag);
        assert forall|j: int| 0 <= j < k - 1 implies #[trigger] rest[j] != flag by {
            assert(rest[j] == words[j + 1]);
        }
        lemma_place(rest, flag, k - 1);
    }
}

/// A command names one volume, and it is that volume which is worked on: a
/// defragmentation is confirmed before or behind the volume, and is refused
/// where nothing confirms it or no volume is named.
pub proof fn lemma_words_make_commands(selector: Seq<char>)
    requires
        !is_flag(selector),
    ensures
        cli::command_of(seq!["list"@]) == Ok::<CommandView, Seq<char>>(CommandView::List),
        cli::command_of(seq!["analyze"@, selector]) == Ok::<CommandView, Seq<char>>(
            CommandView::Analyze { selector },
        ),
        cli::command_of(seq!["defrag"@, selector, "--yes"@]) == Ok::<CommandView, Seq<char>>(
            CommandView::Defrag { selector, require_zero: false },
        ),
        cli::command_of(seq!["defrag"@, "--yes"@, selector]) == Ok::<CommandView, Seq<char>>(
            CommandView::Defrag { selector, require_zero: false },
        ),
        cli::command_of(seq!["defrag"@, selector]) is Err,
        cli::command_of(seq!["defrag"@, "--yes"@]) is Err,
        cli::command_of(seq!["analyze"@]) is Err,
{
    lemma_flags_differ();
    let zero = "--require-zero-excess"@;
    let full = "--require-fully-defragmented"@;
    let plain = seq!["defrag"@, selector];
    assert forall|flag: Seq<char>| is_flag(flag) implies !(#[trigger] plain.contains(flag)) by {
        assert(plain[0] != flag && plain[1] != flag);
    }
    assert(cli::without_flag(plain, full) == plain);
    assert(cli::without_flag(plain, zero) == plain);
    let behind = seq!["defrag"@, selector, "--yes"@];
    assert(behind.remove(2) =~= plain);
    lemma_flag_goes(behind, "--yes"@, plain, 2);
    let before = seq!["defrag"@, "--yes"@, selector];
    assert(before.remove(1) =~= plain);
    lemma_flag_goes(before, "--yes"@, plain, 1);
    let alone = seq!["defrag"@];
    let named = seq!["defrag"@, "--yes"@];
    assert(named.remove(1) =~= alone);
    lemma_flag_goes(named, "--yes"@, alone, 1);
    assert forall|flag: Seq<char>| is_flag(flag) implies !(#[trigger] alone.contains(flag)) by {
        assert(alone[0] != flag);
    }
    assert(cli::without_flag(alone, full) == alone);
    assert(cli::without_flag(alone, zero) == alone);
}

// ---------------------------------------------------------------------
// Volumes
// ---------------------------------------------------------------------

/// Whether a path leads to a place: it spells the place, or both are known
/// to lead to the same path.
pub open spec fn leads_to(word: Seq<u8>, canonical: Option<Seq<u8>>, place: LocatedView) -> bool {
    ||| path::same_path(word, place.path)
    ||| canonical is Some && place.canonical is Some && path::same_path(
        canonical->0,
        place.canonical->0,
    )
}

/// Whether a path leads to some place of a volume.
pub open spec fn selects(
    word: Seq<u8>,
    canonical: Option<Seq<u8>>,
    volume: SelectableView,
) -> bool {
    exists|i: int| 0 <= i < volume.places.len() && leads_to(word, canonical, #[trigger] volume.places[i])
}

/// Whether a path leads to a place of the volume with a number.
pub open spec fn selects_id(
    word: Seq<u8>,
    canonical: Option<Seq<u8>>,
    volumes: Seq<SelectableView>,
    id: VolumeId,
) -> bool {
    exists|k: int|
        0 <= k < volumes.len() && selects(word, canonical, #[trigger] volumes[k]) && volumes[k].id
            == id
}

proof fn lemma_meant(
    word: Seq<u8>,
    canonical: Option<Seq<u8>>,
    volumes: Seq<SelectableView>,
    id: VolumeId,
)
    ensures
        cli::meant(LocatedView { path: word, canonical }, volumes).contains(id) <==> selects_id(
            word,
            canonical,
            volumes,
            id,
        ),
    decreases volumes.len(),
{
    if volumes.len() > 0 {
        let located = LocatedView { path: word, canonical };
        let rest = volumes.drop_last();
        let last = volumes.last();
        let before = cli::meant(located, rest);
        let all = cli::meant(located, volumes);
        lemma_meant(word, canonical, rest, id);
        if cli::is_meant(located, last) {
            let i = choose|i: int|
                0 <= i < last.places.len() && cli::is_same_place(located, #[trigger] last.places[i]);
            assert(leads_to(word, canonical, last.places[i]));
            assert(selects(word, canonical, volumes[volumes.len() - 1]));
        }
        if selects(word, canonical, last) {
            let i = choose|i: int|
                0 <= i < last.places.len() && leads_to(word, canonical, #[trigger] last.places[i]);
            assert(cli::is_same_place(located, last.places[i]));
        }
        if selects_id(word, canonical, rest, id) {
            let k = choose|k: int|
                0 <= k < rest.len() && selects(word, canonical, #[trigger] rest[k]) && rest[k].id
                    == id;
            assert(selects(word, canonical, volumes[k]));
        }
        if before.contains(id) {
            let k = choose|k: int| 0 <= k < before.len() && before[k] == id;
            assert(all[k] == id);
        }
        if selects_id(word, canonical, volumes, id) {
            let k = choose|k: int|
                0 <= k < volumes.len() && selects(word, canonical, #[trigger] volumes[k])
                    && volumes[k].id == id;
            if k < rest.len() {
                assert(selects(word, canonical, rest[k]));
            } else {
                assert(all.last() == id);
            }
        }
        if all.contains(id) && !before.contains(id) {
            let k = choose|k: int| 0 <= k < all.len() && all[k] == id;
            if k < before.len() {
                assert(before[k] == id);
            }
            assert(selects(word, canonical, volumes[volumes.len() - 1]));
        }
    }
}

/// A selector means the volume that has a place it leads to. Where it leads
/// to places of two volumes it means none of them.
pub proof fn lemma_places_select_their_volume(
    selector: Seq<char>,
    canonical: Option<Seq<u8>>,
    volumes: Seq<SelectableView>,
    id: VolumeId,
)
    requires
        selects_id(encode_utf8(selector), canonical, volumes, id),
    ensures
        ({
            let out = cli::resolved(selector, canonical, volumes);
            let alone = forall|other: VolumeId| #[trigger]
                selects_id(encode_utf8(selector), canonical, volumes, other) ==> other == id;
            &&& alone ==> out == Ok::<VolumeId, Seq<char>>(id)
            &&& !alone ==> out is Err
        }),
{
    let word = encode_utf8(selector);
    let ids = cli::meant(LocatedView { path: word, canonical }, volumes);
    lemma_meant(word, canonical, volumes, id);
    let at = choose|k: int| 0 <= k < ids.len() && ids[k] == id;
    if forall|other: VolumeId| #[trigger]
        selects_id(word, canonical, volumes, other) ==> other == id {
        assert forall|i: int| 0 <= i < ids.len() implies #[trigger] ids[i] == id by {
            assert(ids.contains(ids[i]));
            lemma_meant(word, canonical, volumes, ids[i]);
        }
        assert(ids[0] == id);
    } else {
        let other = choose|other: VolumeId| #[trigger]
            selects_id(word, canonical, volumes, other) && other != id;
        lemma_meant(word, canonical, volumes, other);
        let j = choose|k: int| 0 <= k < ids.len() && ids[k] == other;
        assert(ids[at] != ids[j]);
    }
}

/// A selector that leads to no place means the volume whose number it spells,
/// where there is one, and otherwise none.
pub proof fn lemma_numbers_select_their_volume(
    selector: Seq<char>,
    canonical: Option<Seq<u8>>,
    volumes: Seq<SelectableView>,
)
    requires
        forall|id: VolumeId| !(#[trigger] selects_id(encode_utf8(selector), canonical, volumes, id)),
    ensures
        ({
            let out = cli::resolved(selector, canonical, volumes);
            &&& out matches Ok(id) ==> cli::volume_number(selector) == Ok::<VolumeId, Seq<char>>(id)
                && cli::is_listed(id, volumes)
            &&& cli::volume_number(selector) matches Ok(id) ==> cli::is_listed(id, volumes) ==> out
                == Ok::<VolumeId, Seq<char>>(id)
        }),
{
    let word = encode_utf8(selector);
    let ids = cli::meant(LocatedView { path: word, canonical }, volumes);
    if ids.len() > 0 {
        assert(ids.contains(ids[0]));
        lemma_meant(word, canonical, volumes, ids[0]);
    }
}

/// Volumes are told by their device numbers, as the kernel writes them, and
/// by their own numbers.
pub proof fn lemma_volume_numbers_are_read(major: u32, minor: u32, id: VolumeId)
    ensures
        cli::volume_number(text::decimal(major as nat) + seq![':'] + text::decimal(minor as nat))
            == Ok::<VolumeId, Seq<char>>(mounts::volume_id_of(major, minor)),
        cli::volume_number(text::decimal(id.0 as nat)) == Ok::<VolumeId, Seq<char>>(id),
{
    let left = text::decimal(major as nat);
    let right = text::decimal(minor as nat);
    let whole = left + seq![':'] + right;
    window_laws::lemma_digits(major as nat);
    window_laws::lemma_digits(id.0 as nat);
    window_laws::lemma_written_numbers_are_read(major as nat, u32::MAX as nat);
    window_laws::lemma_written_numbers_are_read(minor as nat, u32::MAX as nat);
    window_laws::lemma_written_numbers_are_read(id.0 as nat, u64::MAX as nat);
    text::lemma_find_char(whole, ':');
    text::lemma_find_char(text::decimal(id.0 as nat), ':');
    let k = text::find_char(whole, ':') as int;
    assert(whole[left.len() as int] == ':');
    assert forall|i: int| 0 <= i < left.len() implies #[trigger] whole[i] != ':' by {
        assert(text::is_digit(left[i]));
    }
    assert(k == left.len());
    assert(whole.take(k) =~= left);
    assert(whole.skip(k + 1) =~= right);
}

/// A volume is found by its device, by where it is mounted and by the file
/// that backs it.
pub proof fn lemma_volumes_have_their_places(volume: VolumeView, backing: Option<Seq<u8>>)
    ensures
        ({
            let places = cli::paths_of(volume, backing);
            &&& places.contains(encode_utf8(volume.source))
            &&& volume.mount_point matches Some(mount) ==> places.contains(mount)
            &&& backing matches Some(file) ==> places.contains(file)
            &&& forall|place: Seq<u8>| #[trigger]
                places.contains(place) ==> place == encode_utf8(volume.source) || Some(place)
                    == volume.mount_point || Some(place) == backing
        }),
{
    let places = cli::paths_of(volume, backing);
    assert(places[0] == encode_utf8(volume.source));
    if volume.mount_point is Some {
        assert(places[1] == volume.mount_point->0);
    }
    if backing is Some {
        assert(places.last() == backing->0);
    }
}

} // verus!
