//! The command line: what its words ask for, which volume they mean, and the
//! lines that it prints.

use vstd::prelude::*;
use vstd::utf8::*;

use crate::domain::{
    AnalysisId, AnalysisReport, AnalysisReportView, DefragProgress, DefragProgressView, EventView,
    FileReport, FileReportView, FragmentationMetrics, JobProgress, JobProgressView, PhysicalRange,
    PlanSummary, PlanSummaryView, ServiceEvent, Volume, VolumeId, VolumeView,
};
use crate::labels;
use crate::mounts;
use crate::path;
use crate::path::FsPath;
use crate::text;
use crate::views;

verus! {

// ---------------------------------------------------------------------
// Words
// ---------------------------------------------------------------------

/// What the command line is asked to do.
#[derive(Debug)]
pub enum Command {
    Help,
    List,
    Analyze { selector: String },
    Defrag { selector: String, require_zero: bool },
}

/// The contents of a [`Command`].
#[verifier::ext_equal]
pub enum CommandView {
    Help,
    List,
    Analyze { selector: Seq<char> },
    Defrag { selector: Seq<char>, require_zero: bool },
}

impl View for Command {
    type V = CommandView;

    open spec fn view(&self) -> CommandView {
        match self {
            Command::Help => CommandView::Help,
            Command::List => CommandView::List,
            Command::Analyze { selector } => CommandView::Analyze { selector: selector@ },
            Command::Defrag { selector, require_zero } => CommandView::Defrag {
                selector: selector@,
                require_zero: *require_zero,
            },
        }
    }
}

/// The first place of a word, or the number of words.
pub open spec fn flag_place(words: Seq<Seq<char>>, flag: Seq<char>) -> int
    decreases words.len(),
{
    if words.len() == 0 || words[0] == flag {
        0
    } else {
        flag_place(words.skip(1), flag) + 1
    }
}

/// Whether a word is among the words.
pub open spec fn has_flag(words: Seq<Seq<char>>, flag: Seq<char>) -> bool {
    words.contains(flag)
}

/// The words without the first one of a kind.
pub open spec fn without_flag(words: Seq<Seq<char>>, flag: Seq<char>) -> Seq<Seq<char>> {
    if has_flag(words, flag) {
        words.remove(flag_place(words, flag))
    } else {
        words
    }
}

proof fn lemma_flag_place(words: Seq<Seq<char>>, flag: Seq<char>)
    ensures
        0 <= flag_place(words, flag) <= words.len(),
        has_flag(words, flag) == (flag_place(words, flag) < words.len()),
        has_flag(words, flag) ==> words[flag_place(words, flag)] == flag,
        forall|k: int| 0 <= k < flag_place(words, flag) ==> #[trigger] words[k] != flag,
    decreases words.len(),
{
    if words.len() > 0 && words[0] != flag {
        let rest = words.skip(1);
        lemma_flag_place(rest, flag);
        assert forall|k: int| 0 <= k < flag_place(words, flag) implies #[trigger] words[k]
            != flag by {
            if k > 0 {
                assert(rest[k - 1] == words[k]);
            }
        }
        if has_flag(rest, flag) {
            assert(words[flag_place(rest, flag) + 1] == flag);
        }
        if has_flag(words, flag) {
            let k = choose|k: int| 0 <= k < words.len() && words[k] == flag;
            assert(rest[k - 1] == flag);
        }
    }
}

/// Removes the first word of a kind from the words, and tells whether there
/// was one.
pub fn take_flag(arguments: &mut Vec<String>, flag: &str) -> (found: bool)
    ensures
        found == has_flag(views::of(old(arguments)@), flag@),
        views::of(final(arguments)@) == without_flag(views::of(old(arguments)@), flag@),
{
    let ghost all = views::of(arguments@);
    proof {
        lemma_flag_place(all, flag@);
    }
    let mut i: usize = 0;
    while i < arguments.len()
        invariant
            i <= arguments@.len(),
            *arguments == *old(arguments),
            all == views::of(arguments@),
            i <= flag_place(all, flag@) <= all.len(),
            has_flag(all, flag@) == (flag_place(all, flag@) < all.len()),
            has_flag(all, flag@) ==> all[flag_place(all, flag@)] == flag@,
            forall|k: int| 0 <= k < flag_place(all, flag@) ==> #[trigger] all[k] != flag@,
        decreases arguments@.len() - i,
    {
        assert(all[i as int] == arguments@[i as int]@);
        if text::same_text(arguments[i].as_str(), flag) {
            let _ = arguments.remove(i);
            assert(views::of(arguments@) =~= all.remove(i as int));
            return true;
        }
        i = i + 1;
    }
    false
}

/// The words of a command without those that are its flags.
pub open spec fn defrag_words(words: Seq<Seq<char>>) -> Seq<Seq<char>> {
    without_flag(
        without_flag(without_flag(words, "--yes"@), "--require-fully-defragmented"@),
        "--require-zero-excess"@,
    )
}

/// Whether a command asks that no extra fragments are left.
pub open spec fn wants_zero(words: Seq<Seq<char>>) -> bool {
    let rest = without_flag(words, "--yes"@);
    has_flag(rest, "--require-fully-defragmented"@) || has_flag(
        without_flag(rest, "--require-fully-defragmented"@),
        "--require-zero-excess"@,
    )
}

/// What words ask for.
pub open spec fn command_of(words: Seq<Seq<char>>) -> Result<CommandView, Seq<char>> {
    if words.len() == 0 || words[0] == "help"@ || words[0] == "-h"@ || words[0] == "--help"@ {
        Ok(CommandView::Help)
    } else if words[0] == "list"@ && words.len() == 1 {
        Ok(CommandView::List)
    } else if words[0] == "analyze"@ && words.len() == 2 {
        Ok(CommandView::Analyze { selector: words[1] })
    } else if words[0] == "defrag"@ {
        if defrag_words(words).len() != 2 {
            Err("defrag expects a device or mount path"@)
        } else if !has_flag(words, "--yes"@) {
            Err("defrag modifies the filesystem; pass --yes to confirm"@)
        } else {
            Ok(
                CommandView::Defrag {
                    selector: defrag_words(words)[1],
                    require_zero: wants_zero(words),
                },
            )
        }
    } else {
        Err("invalid command; run defragger-cli --help"@)
    }
}

/// The outcome of reading a command, by its contents.
pub open spec fn command_outcome(outcome: Result<Command, String>) -> Result<
    CommandView,
    Seq<char>,
> {
    match outcome {
        Ok(command) => Ok(command@),
        Err(message) => Err(message@),
    }
}

/// Reads the command that words ask for.
pub fn read_command(arguments: Vec<String>) -> (outcome: Result<Command, String>)
    ensures
        command_outcome(outcome) == command_of(views::of(arguments@)),
{
    let mut arguments: Vec<String> = arguments;
    let ghost words = views::of(arguments@);
    if arguments.len() == 0 {
        return Ok(Command::Help);
    }
    assert(words[0] == arguments@[0]@);
    let verb: String = arguments[0].clone();
    if text::same_text(verb.as_str(), "help") || text::same_text(verb.as_str(), "-h")
        || text::same_text(verb.as_str(), "--help") {
        return Ok(Command::Help);
    }
    if text::same_text(verb.as_str(), "list") && arguments.len() == 1 {
        return Ok(Command::List);
    }
    if text::same_text(verb.as_str(), "analyze") && arguments.len() == 2 {
        assert(words[1] == arguments@[1]@);
        return Ok(Command::Analyze { selector: arguments[1].clone() });
    }
    if !text::same_text(verb.as_str(), "defrag") {
        return Err("invalid command; run defragger-cli --help".to_owned());
    }
    let confirmed: bool = take_flag(&mut arguments, "--yes");
    let require_fully_defragmented: bool = take_flag(
        &mut arguments,
        "--require-fully-defragmented",
    );
    let legacy_require_zero: bool = take_flag(&mut arguments, "--require-zero-excess");
    assert(views::of(arguments@) == defrag_words(words));
    if arguments.len() != 2 {
        return Err("defrag expects a device or mount path".to_owned());
    }
    if !confirmed {
        return Err("defrag modifies the filesystem; pass --yes to confirm".to_owned());
    }
    assert(defrag_words(words)[1] == arguments@[1]@);
    Ok(
        Command::Defrag {
            selector: arguments[1].clone(),
            require_zero: require_fully_defragmented || legacy_require_zero,
        },
    )
}

/// The socket of the helper, where the words of a process, its own name among
/// them, start it as one.
pub open spec fn helper_socket(words: Seq<Seq<u8>>) -> Option<Seq<u8>> {
    if words.len() == 3 && words[1] == encode_utf8("--defragger-development-helper"@) {
        Some(words[2])
    } else {
        None
    }
}

/// Finds the socket of the helper, where the words of a process start it as
/// one.
pub fn development_helper_socket(words: &Vec<FsPath>) -> (socket: Option<FsPath>)
    ensures
        views::opt(socket) == helper_socket(views::of(words@)),
{
    let ghost all = views::of(words@);
    if words.len() != 3 {
        return None;
    }
    assert(all[1] == words@[1]@ && all[2] == words@[2]@);
    let flag: FsPath = FsPath::from_text("--defragger-development-helper");
    if path::same_bytes(&words[1].bytes, &flag.bytes) {
        Some(words[2].clone())
    } else {
        None
    }
}

// ---------------------------------------------------------------------
// Volumes
// ---------------------------------------------------------------------

/// The volume that a device number or a number names.
pub open spec fn volume_number(s: Seq<char>) -> Result<VolumeId, Seq<char>> {
    match text::cut_at(s, ':') {
        Some((major, minor)) => match (
            text::parse_number(major, u32::MAX as nat),
            text::parse_number(minor, u32::MAX as nat),
        ) {
            (None, _) => Err("invalid device major number: "@ + major),
            (Some(_), None) => Err("invalid device minor number: "@ + minor),
            (Some(a), Some(b)) => Ok(mounts::volume_id_of(a as u32, b as u32)),
        },
        None => match text::parse_number(s, u64::MAX as nat) {
            Some(id) => Ok(VolumeId(id as u64)),
            None => Err("invalid volume id: "@ + s + "; expected MAJOR:MINOR"@),
        },
    }
}

/// An outcome whose error is a text, by its contents.
pub open spec fn text_outcome<T>(outcome: Result<T, String>) -> Result<T, Seq<char>> {
    match outcome {
        Ok(value) => Ok(value),
        Err(message) => Err(message@),
    }
}

fn message_with(head: &str, tail: &str) -> (message: String)
    ensures
        message@ == head@ + tail@,
{
    let mut message: String = head.to_owned();
    text::push_text(&mut message, tail);
    message
}

/// Reads the identity of a volume: `MAJOR:MINOR`, or one number.
pub fn parse_volume_id(value: &str) -> (id: Result<VolumeId, String>)
    ensures
        text_outcome(id) == volume_number(value@),
{
    match text::split_once(value, ':') {
        Some((major, minor)) => {
            let major_number: u32 = match text::parse_u32(major.as_str()) {
                Some(number) => number,
                None => {
                    return Err(message_with("invalid device major number: ", major.as_str()));
                },
            };
            let minor_number: u32 = match text::parse_u32(minor.as_str()) {
                Some(number) => number,
                None => {
                    return Err(message_with("invalid device minor number: ", minor.as_str()));
                },
            };
            Ok(mounts::device_volume_id(major_number, minor_number))
        },
        None => match text::parse_u64(value) {
            Some(id) => Ok(VolumeId(id)),
            None => {
                let mut message: String = message_with("invalid volume id: ", value);
                text::push_text(&mut message, "; expected MAJOR:MINOR");
                Err(message)
            },
        },
    }
}

/// A path, and what it leads to where that can be found out.
#[derive(Debug)]
pub struct Located {
    pub path: FsPath,
    pub canonical: Option<FsPath>,
}

/// The contents of a [`Located`].
#[verifier::ext_equal]
pub struct LocatedView {
    pub path: Seq<u8>,
    pub canonical: Option<Seq<u8>>,
}

impl View for Located {
    type V = LocatedView;

    open spec fn view(&self) -> LocatedView {
        LocatedView { path: self.path@, canonical: views::opt(self.canonical) }
    }
}

/// A volume as a selector can mean it.
#[derive(Debug)]
pub struct Selectable {
    pub id: VolumeId,
    pub source: String,
    pub places: Vec<Located>,
}

/// The contents of a [`Selectable`].
#[verifier::ext_equal]
pub struct SelectableView {
    pub id: VolumeId,
    pub source: Seq<char>,
    pub places: Seq<LocatedView>,
}

impl View for Selectable {
    type V = SelectableView;

    open spec fn view(&self) -> SelectableView {
        SelectableView { id: self.id, source: self.source@, places: views::of(self.places@) }
    }
}

/// Whether two paths mean the same place: they are equal, or lead to equal
/// ones.
pub open spec fn is_same_place(left: LocatedView, right: LocatedView) -> bool {
    path::same_path(left.path, right.path) || (left.canonical is Some && right.canonical is Some
        && path::same_path(left.canonical->0, right.canonical->0))
}

/// Tells whether two paths mean the same place.
pub fn path_matches(left: &Located, right: &Located) -> (yes: bool)
    ensures
        yes == is_same_place(left@, right@),
{
    if left.path.same(&right.path) {
        return true;
    }
    match (&left.canonical, &right.canonical) {
        (Some(l), Some(r)) => l.same(r),
        _ => false,
    }
}

/// The paths by which a volume can be meant: its device, where it is
/// mounted, and the file behind a loop device.
pub open spec fn paths_of(volume: VolumeView, backing: Option<Seq<u8>>) -> Seq<Seq<u8>> {
    seq![encode_utf8(volume.source)] + (match volume.mount_point {
        Some(mount) => seq![mount],
        None => Seq::empty(),
    }) + (match backing {
        Some(file) => seq![file],
        None => Seq::empty(),
    })
}

/// Lists the paths by which a volume can be meant.
pub fn volume_paths(volume: &Volume, backing: Option<FsPath>) -> (paths: Vec<FsPath>)
    ensures
        views::of(paths@) == paths_of(volume@, views::opt(backing)),
{
    let mut paths: Vec<FsPath> = Vec::new();
    paths.push(FsPath::from_text(volume.source.as_str()));
    if let Some(mount) = &volume.mount_point {
        paths.push(mount.clone());
    }
    if let Some(file) = backing {
        paths.push(file);
    }
    assert(views::of(paths@) =~= paths_of(volume@, views::opt(backing)));
    paths
}

/// The name of a loop device.
pub open spec fn loop_name(source: Seq<char>) -> Option<Seq<char>> {
    match path::file_name_of(encode_utf8(source)) {
        Some(name) => if text::begins_with(path::lossy_text(name), "loop"@) {
            Some(path::lossy_text(name))
        } else {
            None
        },
        None => None,
    }
}

/// Finds the name of a loop device, where a volume lies on one.
pub fn loop_device(source: &str) -> (name: Option<String>)
    ensures
        views::opt(name) == loop_name(source@),
{
    match FsPath::from_text(source).file_name() {
        Some(bytes) => {
            let name: String = (FsPath { bytes }).display();
            if text::starts_with(name.as_str(), "loop") {
                Some(name)
            } else {
                None
            }
        },
        None => None,
    }
}

/// A text without an ending, where it has it.
pub open spec fn without_suffix(s: Seq<char>, suffix: Seq<char>) -> Seq<char> {
    if text::ends_with(s, suffix) {
        s.take(s.len() - suffix.len())
    } else {
        s
    }
}

/// The file behind a loop device, from what the kernel says of it.
pub open spec fn backing_of(record: Seq<char>) -> Option<Seq<u8>> {
    let file = without_suffix(text::trimmed(record), " (deleted)"@);
    if file.len() == 0 {
        None
    } else {
        Some(encode_utf8(file))
    }
}

/// Finds the file behind a loop device in what the kernel says of it.
pub fn loop_backing_file(record: &str) -> (file: Option<FsPath>)
    ensures
        views::opt(file) == backing_of(record@),
{
    let whole: String = text::trim(record);
    let file: String = match text::strip_suffix(whole.as_str(), " (deleted)") {
        Some(part) => part,
        None => whole,
    };
    if text::chars_of(file.as_str()).len() == 0 {
        None
    } else {
        Some(FsPath::from_text(file.as_str()))
    }
}

/// Whether a selector means a volume.
pub open spec fn is_meant(selector: LocatedView, volume: SelectableView) -> bool {
    exists|i: int|
        0 <= i < volume.places.len() && is_same_place(selector, #[trigger] volume.places[i])
}

/// The volumes that a selector means, in order.
pub open spec fn meant(selector: LocatedView, volumes: Seq<SelectableView>) -> Seq<VolumeId>
    decreases volumes.len(),
{
    if volumes.len() == 0 {
        Seq::empty()
    } else if is_meant(selector, volumes.last()) {
        meant(selector, volumes.drop_last()).push(volumes.last().id)
    } else {
        meant(selector, volumes.drop_last())
    }
}

/// Whether a volume is among the volumes.
pub open spec fn is_listed(id: VolumeId, volumes: Seq<SelectableView>) -> bool {
    exists|i: int| 0 <= i < volumes.len() && (#[trigger] volumes[i]).id == id
}

/// The devices of volumes, between commas.
pub open spec fn sources(volumes: Seq<SelectableView>) -> Seq<char>
    decreases volumes.len(),
{
    if volumes.len() == 0 {
        Seq::empty()
    } else if volumes.len() == 1 {
        volumes[0].source
    } else {
        sources(volumes.drop_last()) + ", "@ + volumes.last().source
    }
}

/// The one volume that a selector means.
pub open spec fn resolved(
    selector: Seq<char>,
    canonical: Option<Seq<u8>>,
    volumes: Seq<SelectableView>,
) -> Result<VolumeId, Seq<char>> {
    let ids = meant(LocatedView { path: encode_utf8(selector), canonical }, volumes);
    if ids.len() == 0 {
        match volume_number(selector) {
            Ok(id) if is_listed(id, volumes) => Ok(id),
            _ => Err(
                "no volume matches "@ + selector + "; available devices: "@ + sources(volumes),
            ),
        }
    } else if forall|i: int| 0 <= i < ids.len() ==> #[trigger] ids[i] == ids[0] {
        Ok(ids[0])
    } else {
        Err(selector + " matches more than one volume"@)
    }
}

fn means(selector: &Located, volume: &Selectable) -> (yes: bool)
    ensures
        yes == is_meant(selector@, volume@),
{
    let ghost all = volume@.places;
    let mut i: usize = 0;
    while i < volume.places.len()
        invariant
            i <= volume.places@.len(),
            all == volume@.places,
            all == views::of(volume.places@),
            forall|k: int| 0 <= k < i ==> !is_same_place(selector@, #[trigger] all[k]),
        decreases volume.places@.len() - i,
    {
        assert(all[i as int] == volume.places@[i as int]@);
        if path_matches(selector, &volume.places[i]) {
            return true;
        }
        i = i + 1;
    }
    false
}

fn find_meant(selector: &Located, volumes: &Vec<Selectable>) -> (ids: Vec<VolumeId>)
    ensures
        ids@ == meant(selector@, views::of(volumes@)),
{
    let ghost all = views::of(volumes@);
    let mut ids: Vec<VolumeId> = Vec::new();
    assert(all.take(0) =~= Seq::empty());
    let mut i: usize = 0;
    while i < volumes.len()
        invariant
            i <= volumes@.len(),
            all == views::of(volumes@),
            ids@ == meant(selector@, all.take(i as int)),
        decreases volumes@.len() - i,
    {
        assert(all.take(i + 1).drop_last() =~= all.take(i as int));
        if means(selector, &volumes[i]) {
            ids.push(volumes[i].id);
        }
        i = i + 1;
    }
    assert(all.take(i as int) =~= all);
    ids
}

fn listed(id: VolumeId, volumes: &Vec<Selectable>) -> (yes: bool)
    ensures
        yes == is_listed(id, views::of(volumes@)),
{
    let ghost all = views::of(volumes@);
    let mut i: usize = 0;
    while i < volumes.len()
        invariant
            i <= volumes@.len(),
            all == views::of(volumes@),
            forall|k: int| 0 <= k < i ==> (#[trigger] all[k]).id != id,
        decreases volumes@.len() - i,
    {
        assert(all[i as int] == volumes@[i as int]@);
        if volumes[i].id.0 == id.0 {
            return true;
        }
        i = i + 1;
    }
    false
}

fn join_sources(volumes: &Vec<Selectable>) -> (list: String)
    ensures
        list@ == sources(views::of(volumes@)),
{
    let ghost all = views::of(volumes@);
    let mut list: String = String::new();
    assert(list@ =~= sources(all.take(0)));
    let mut i: usize = 0;
    while i < volumes.len()
        invariant
            i <= volumes@.len(),
            all == views::of(volumes@),
            list@ == sources(all.take(i as int)),
        decreases volumes@.len() - i,
    {
        assert(all.take(i + 1).drop_last() =~= all.take(i as int));
        if i > 0 {
            text::push_text(&mut list, ", ");
        }
        let ghost head = list@;
        text::push_text(&mut list, volumes[i].source.as_str());
        assert(i == 0 ==> list@ =~= volumes@[0].source@);
        i = i + 1;
    }
    assert(all.take(i as int) =~= all);
    list
}

fn all_equal(ids: &Vec<VolumeId>) -> (yes: bool)
    ensures
        yes == (forall|i: int| 0 <= i < ids@.len() ==> #[trigger] ids@[i] == ids@[0]),
{
    let mut i: usize = 0;
    while i < ids.len()
        invariant
            i <= ids@.len(),
            forall|k: int| 0 <= k < i ==> #[trigger] ids@[k] == ids@[0],
        decreases ids@.len() - i,
    {
        if ids[i].0 != ids[0].0 {
            return false;
        }
        assert(ids@[i as int] == ids@[0]);
        i = i + 1;
    }
    true
}

/// Finds the one volume that a selector means: by a path, or, where no path
/// is meant, by the number of a volume.
pub fn resolve_volume_id(
    selector: &str,
    canonical: Option<FsPath>,
    volumes: &Vec<Selectable>,
) -> (id: Result<VolumeId, String>)
    ensures
        text_outcome(id) == resolved(selector@, views::opt(canonical), views::of(volumes@)),
{
    let located = Located { path: FsPath::from_text(selector), canonical };
    let ids: Vec<VolumeId> = find_meant(&located, volumes);
    if ids.len() == 0 {
        if let Ok(id) = parse_volume_id(selector) {
            if listed(id, volumes) {
                return Ok(id);
            }
        }
        let mut message: String = message_with("no volume matches ", selector);
        text::push_text(&mut message, "; available devices: ");
        let list: String = join_sources(volumes);
        text::push_text(&mut message, list.as_str());
        return Err(message);
    }
    if all_equal(&ids) {
        Ok(ids[0])
    } else {
        Err(message_with(selector, " matches more than one volume"))
    }
}

// ---------------------------------------------------------------------
// Values as text
// ---------------------------------------------------------------------

/// A share in hundredths of a percent, as text.
pub open spec fn share_text(value: Option<u16>) -> Seq<char> {
    match value {
        Some(points) => text::decimal((points / 100) as nat) + "."@ + text::two_digits(
            (points % 100) as nat,
        ) + "%"@,
        None => "unknown"@,
    }
}

/// Writes a share in hundredths of a percent.
pub fn format_basis_points(value: Option<u16>) -> (shown: String)
    ensures
        shown@ == share_text(value),
{
    match value {
        Some(points) => {
            let mut shown: String = String::new();
            text::push_decimal(&mut shown, (points / 100) as u64);
            assert(shown@ =~= text::decimal((points / 100) as nat));
            text::push_text(&mut shown, ".");
            text::push_two_digits(&mut shown, points % 100);
            text::push_text(&mut shown, "%");
            shown
        },
        None => "unknown".to_owned(),
    }
}

/// How full a volume is, as text.
pub open spec fn occupancy_text(used: Option<u64>, capacity: u64) -> Seq<char> {
    match used {
        Some(bytes) => if capacity == 0 {
            "unknown"@
        } else if bytes * 10_000 / capacity as int >= 10_000 {
            share_text(Some(10_000u16))
        } else {
            share_text(Some((bytes * 10_000 / capacity as int) as u16))
        },
        None => "unknown"@,
    }
}

/// Writes how full a volume is.
pub fn occupancy(volume: &Volume) -> (shown: String)
    ensures
        shown@ == occupancy_text(volume.used_bytes, volume.capacity_bytes),
{
    match volume.used_bytes {
        Some(used) => {
            if volume.capacity_bytes == 0 {
                return "unknown".to_owned();
            }
            let points: u128 = used as u128 * 10_000 / volume.capacity_bytes as u128;
            if points >= 10_000 {
                format_basis_points(Some(10_000))
            } else {
                format_basis_points(Some(points as u16))
            }
        },
        None => "unknown".to_owned(),
    }
}

/// A path as text, or a dash.
pub open spec fn path_text(path: Option<Seq<u8>>) -> Seq<char> {
    match path {
        Some(p) => path::lossy_text(p),
        None => "-"@,
    }
}

/// Writes a path, or a dash.
pub fn display_path(shown: &Option<FsPath>) -> (line: String)
    ensures
        line@ == path_text(views::opt(*shown)),
{
    match shown {
        Some(p) => p.display(),
        None => "-".to_owned(),
    }
}

/// One range as text.
pub open spec fn range_text(range: PhysicalRange) -> Seq<char> {
    text::decimal(range.offset_bytes as nat) + ":"@ + text::decimal(range.length_bytes as nat)
}

/// Ranges between commas.
pub open spec fn range_list(list: Seq<PhysicalRange>) -> Seq<char>
    decreases list.len(),
{
    if list.len() == 0 {
        Seq::empty()
    } else if list.len() == 1 {
        range_text(list[0])
    } else {
        range_list(list.drop_last()) + ","@ + range_text(list.last())
    }
}

/// Ranges as text, or a dash.
pub open spec fn ranges_text(list: Seq<PhysicalRange>) -> Seq<char> {
    if list.len() == 0 {
        "-"@
    } else {
        range_list(list)
    }
}

fn format_range(range: &PhysicalRange) -> (shown: String)
    ensures
        shown@ == range_text(*range),
{
    let mut shown: String = String::new();
    text::push_decimal(&mut shown, range.offset_bytes);
    assert(shown@ =~= text::decimal(range.offset_bytes as nat));
    text::push_text(&mut shown, ":");
    text::push_decimal(&mut shown, range.length_bytes);
    shown
}

/// Writes ranges, or a dash.
pub fn ranges(values: &Vec<PhysicalRange>) -> (shown: String)
    ensures
        shown@ == ranges_text(values@),
{
    if values.len() == 0 {
        return "-".to_owned();
    }
    let mut shown: String = String::new();
    assert(shown@ =~= range_list(values@.take(0)));
    let mut i: usize = 0;
    while i < values.len()
        invariant
            i <= values@.len(),
            shown@ == range_list(values@.take(i as int)),
        decreases values@.len() - i,
    {
        assert(values@.take(i + 1).drop_last() =~= values@.take(i as int));
        if i > 0 {
            text::push_text(&mut shown, ",");
        }
        let one: String = format_range(&values[i]);
        text::push_text(&mut shown, one.as_str());
        assert(i == 0 ==> shown@ =~= range_text(values@[0]));
        i = i + 1;
    }
    assert(values@.take(i as int) =~= values@);
    shown
}

// ---------------------------------------------------------------------
// The list of volumes
// ---------------------------------------------------------------------

/// One line of the list of volumes, by its cells.
pub struct Row {
    pub source: String,
    pub filesystem: String,
    pub state: String,
    pub mount: String,
    pub occupancy: String,
    pub support: String,
}

/// The contents of a [`Row`].
#[verifier::ext_equal]
pub struct RowView {
    pub source: Seq<char>,
    pub filesystem: Seq<char>,
    pub state: Seq<char>,
    pub mount: Seq<char>,
    pub occupancy: Seq<char>,
    pub support: Seq<char>,
}

impl View for Row {
    type V = RowView;

    open spec fn view(&self) -> RowView {
        RowView {
            source: self.source@,
            filesystem: self.filesystem@,
            state: self.state@,
            mount: self.mount@,
            occupancy: self.occupancy@,
            support: self.support@,
        }
    }
}

/// The names of the columns.
pub open spec fn heading() -> RowView {
    RowView {
        source: "SOURCE"@,
        filesystem: "FS"@,
        state: "STATE"@,
        mount: "MOUNT"@,
        occupancy: "OCCUPANCY"@,
        support: "SUPPORT"@,
    }
}

/// The cells of a volume.
pub open spec fn row_of(volume: VolumeView) -> RowView {
    RowView {
        source: volume.source,
        filesystem: volume.filesystem,
        state: labels::mount_state_name(volume.mount_state),
        mount: path_text(volume.mount_point),
        occupancy: occupancy_text(volume.used_bytes, volume.capacity_bytes),
        support: labels::support_name(volume.support),
    }
}

/// The rows of the list: the names of the columns, then one row for each
/// volume.
pub open spec fn rows_of(volumes: Seq<VolumeView>) -> Seq<RowView> {
    seq![heading()] + Seq::new(volumes.len(), |i: int| row_of(volumes[i]))
}

/// The widths of the columns that are padded.
#[verifier::ext_equal]
pub struct Widths {
    pub source: usize,
    pub filesystem: usize,
    pub state: usize,
    pub mount: usize,
    pub occupancy: usize,
}

/// Whether columns are as wide as their widest cells.
pub open spec fn fits(widths: Widths, rows: Seq<RowView>) -> bool {
    &&& is_width(widths.source, Seq::new(rows.len(), |i: int| rows[i].source))
    &&& is_width(widths.filesystem, Seq::new(rows.len(), |i: int| rows[i].filesystem))
    &&& is_width(widths.state, Seq::new(rows.len(), |i: int| rows[i].state))
    &&& is_width(widths.mount, Seq::new(rows.len(), |i: int| rows[i].mount))
    &&& is_width(widths.occupancy, Seq::new(rows.len(), |i: int| rows[i].occupancy))
}

/// Whether a column is as wide as its widest cell.
pub open spec fn is_width(width: usize, cells: Seq<Seq<char>>) -> bool {
    &&& forall|i: int| 0 <= i < cells.len() ==> (#[trigger] cells[i]).len() <= width
    &&& width == 0 || exists|i: int| 0 <= i < cells.len() && (#[trigger] cells[i]).len() == width
}

/// A cell with blanks up to the width of its column.
pub open spec fn padded(cell: Seq<char>, width: nat) -> Seq<char> {
    if cell.len() >= width {
        cell
    } else {
        cell + Seq::new((width - cell.len()) as nat, |i: int| ' ')
    }
}

/// A line of the list.
pub open spec fn line_of(row: RowView, widths: Widths) -> Seq<char> {
    padded(row.source, widths.source as nat) + "  "@ + padded(
        row.filesystem,
        widths.filesystem as nat,
    ) + "  "@ + padded(row.state, widths.state as nat) + "  "@ + padded(
        row.mount,
        widths.mount as nat,
    ) + "  "@ + padded(row.occupancy, widths.occupancy as nat) + "  "@ + row.support
}

/// The lines of the list.
pub open spec fn lines_of(rows: Seq<RowView>, widths: Widths) -> Seq<Seq<char>> {
    Seq::new(rows.len(), |i: int| line_of(rows[i], widths))
}

fn width_of(cell: &str) -> (width: usize)
    ensures
        width == cell@.len(),
{
    text::chars_of(cell).len()
}

fn max_width(width: usize, cell: &str) -> (wider: usize)
    ensures
        wider == (if cell@.len() > width {
            cell@.len()
        } else {
            width as nat
        }),
{
    let own: usize = width_of(cell);
    if own > width {
        own
    } else {
        width
    }
}

fn push_padded(line: &mut String, cell: &str, width: usize)
    ensures
        final(line)@ == old(line)@ + padded(cell@, width as nat),
{
    text::push_text(line, cell);
    let own: usize = width_of(cell);
    let ghost start = line@;
    let mut i: usize = own;
    assert(start + Seq::new(0, |k: int| ' ') =~= start);
    while i < width
        invariant
            own <= i,
            i <= width || i == own,
            line@ == start + Seq::new((i - own) as nat, |k: int| ' '),
        decreases width - i,
    {
        text::push_char(line, ' ');
        i = i + 1;
        assert(line@ =~= start + Seq::new((i - own) as nat, |k: int| ' '));
    }
    assert(line@ =~= old(line)@ + padded(cell@, width as nat));
}

fn make_row(volume: &Volume) -> (row: Row)
    ensures
        row@ == row_of(volume@),
{
    Row {
        source: volume.source.clone(),
        filesystem: volume.filesystem.clone(),
        state: labels::mount_state(volume.mount_state).to_owned(),
        mount: display_path(&volume.mount_point),
        occupancy: occupancy(volume),
        support: labels::support(&volume.support).to_owned(),
    }
}

fn make_rows(volumes: &Vec<Volume>) -> (rows: Vec<Row>)
    ensures
        views::of(rows@) == rows_of(views::of(volumes@)),
{
    let ghost all = views::of(volumes@);
    let mut rows: Vec<Row> = Vec::new();
    rows.push(
        Row {
            source: "SOURCE".to_owned(),
            filesystem: "FS".to_owned(),
            state: "STATE".to_owned(),
            mount: "MOUNT".to_owned(),
            occupancy: "OCCUPANCY".to_owned(),
            support: "SUPPORT".to_owned(),
        },
    );
    assert(views::of(rows@) =~= rows_of(all.take(0)));
    let mut i: usize = 0;
    while i < volumes.len()
        invariant
            i <= volumes@.len(),
            all == views::of(volumes@),
            views::of(rows@) == rows_of(all.take(i as int)),
        decreases volumes@.len() - i,
    {
        let ghost before = views::of(rows@);
        let row: Row = make_row(&volumes[i]);
        let ghost added = row@;
        rows.push(row);
        assert(views::of(rows@) =~= before.push(added));
        assert(before.push(added) =~= rows_of(all.take(i + 1)));
        i = i + 1;
    }
    assert(all.take(i as int) =~= all);
    rows
}

/// Whether a column of the first rows is as wide as its widest cell.
spec fn is_width_so_far(width: usize, cells: Seq<Seq<char>>, n: int) -> bool {
    &&& forall|i: int| 0 <= i < n ==> (#[trigger] cells[i]).len() <= width
    &&& width == 0 || exists|i: int| 0 <= i < n && (#[trigger] cells[i]).len() == width
}

proof fn lemma_wider(width: usize, wider: usize, cells: Seq<Seq<char>>, n: int)
    requires
        0 <= n < cells.len(),
        is_width_so_far(width, cells, n),
        wider == (if cells[n].len() > width {
            cells[n].len()
        } else {
            width as nat
        }),
    ensures
        is_width_so_far(wider, cells, n + 1),
{
    if cells[n].len() <= width && width != 0 {
        let k = choose|i: int| 0 <= i < n && (#[trigger] cells[i]).len() == width;
        assert(cells[k].len() == wider);
    } else if cells[n].len() > width {
        assert(cells[n].len() == wider);
    }
}

fn measure(rows: &Vec<Row>) -> (widths: Widths)
    ensures
        fits(widths, views::of(rows@)),
{
    let ghost all = views::of(rows@);
    let ghost c0 = Seq::new(all.len(), |i: int| all[i].source);
    let ghost c1 = Seq::new(all.len(), |i: int| all[i].filesystem);
    let ghost c2 = Seq::new(all.len(), |i: int| all[i].state);
    let ghost c3 = Seq::new(all.len(), |i: int| all[i].mount);
    let ghost c4 = Seq::new(all.len(), |i: int| all[i].occupancy);
    let mut w0: usize = 0;
    let mut w1: usize = 0;
    let mut w2: usize = 0;
    let mut w3: usize = 0;
    let mut w4: usize = 0;
    let mut i: usize = 0;
    while i < rows.len()
        invariant
            i <= rows@.len(),
            all == views::of(rows@),
            c0 == Seq::new(all.len(), |k: int| all[k].source),
            c1 == Seq::new(all.len(), |k: int| all[k].filesystem),
            c2 == Seq::new(all.len(), |k: int| all[k].state),
            c3 == Seq::new(all.len(), |k: int| all[k].mount),
            c4 == Seq::new(all.len(), |k: int| all[k].occupancy),
            is_width_so_far(w0, c0, i as int),
            is_width_so_far(w1, c1, i as int),
            is_width_so_far(w2, c2, i as int),
            is_width_so_far(w3, c3, i as int),
            is_width_so_far(w4, c4, i as int),
        decreases rows@.len() - i,
    {
        assert(all[i as int] == rows@[i as int]@);
        let n0: usize = max_width(w0, rows[i].source.as_str());
        let n1: usize = max_width(w1, rows[i].filesystem.as_str());
        let n2: usize = max_width(w2, rows[i].state.as_str());
        let n3: usize = max_width(w3, rows[i].mount.as_str());
        let n4: usize = max_width(w4, rows[i].occupancy.as_str());
        proof {
            lemma_wider(w0, n0, c0, i as int);
            lemma_wider(w1, n1, c1, i as int);
            lemma_wider(w2, n2, c2, i as int);
            lemma_wider(w3, n3, c3, i as int);
            lemma_wider(w4, n4, c4, i as int);
        }
        w0 = n0;
        w1 = n1;
        w2 = n2;
        w3 = n3;
        w4 = n4;
        i = i + 1;
    }
    Widths { source: w0, filesystem: w1, state: w2, mount: w3, occupancy: w4 }
}

fn make_line(row: &Row, widths: &Widths) -> (line: String)
    ensures
        line@ == line_of(row@, *widths),
{
    let mut line: String = String::new();
    push_padded(&mut line, row.source.as_str(), widths.source);
    assert(line@ =~= padded(row@.source, widths.source as nat));
    text::push_text(&mut line, "  ");
    push_padded(&mut line, row.filesystem.as_str(), widths.filesystem);
    text::push_text(&mut line, "  ");
    push_padded(&mut line, row.state.as_str(), widths.state);
    text::push_text(&mut line, "  ");
    push_padded(&mut line, row.mount.as_str(), widths.mount);
    text::push_text(&mut line, "  ");
    push_padded(&mut line, row.occupancy.as_str(), widths.occupancy);
    text::push_text(&mut line, "  ");
    text::push_text(&mut line, row.support.as_str());
    line
}

/// Writes the list of volumes, with columns as wide as their widest cells.
pub fn list(volumes: &Vec<Volume>) -> (lines: Vec<String>)
    ensures
        exists|widths: Widths|
            #[trigger] fits(widths, rows_of(views::of(volumes@))) && views::of(lines@) == lines_of(
                rows_of(views::of(volumes@)),
                widths,
            ),
{
    let rows: Vec<Row> = make_rows(volumes);
    let widths: Widths = measure(&rows);
    let ghost all = views::of(rows@);
    let mut lines: Vec<String> = Vec::new();
    let mut i: usize = 0;
    while i < rows.len()
        invariant
            i <= rows@.len(),
            all == views::of(rows@),
            lines@.len() == i,
            forall|k: int| 0 <= k < i ==> #[trigger] lines@[k]@ == line_of(all[k], widths),
        decreases rows@.len() - i,
    {
        let line: String = make_line(&rows[i], &widths);
        lines.push(line);
        i = i + 1;
    }
    proof {
        assert(views::of(lines@) =~= lines_of(all, widths));
        assert(fits(widths, all));
    }
    lines
}

// ---------------------------------------------------------------------
// Events
// ---------------------------------------------------------------------

/// What follows from an event of a job.
#[derive(Debug)]
pub enum Turn {
    /// Nothing is shown.
    Quiet,
    /// A line is shown.
    Note(String),
    /// The analysis is done.
    Analyzed { analysis_id: AnalysisId, report: Box<AnalysisReport> },
    /// The defragmentation is done, or was stopped.
    Ended { report: Box<AnalysisReport>, stopped: bool },
    /// The job failed.
    Failed(String),
}

/// The contents of a [`Turn`].
#[verifier::ext_equal]
pub enum TurnView {
    Quiet,
    Note(Seq<char>),
    Analyzed { analysis_id: AnalysisId, report: AnalysisReportView },
    Ended { report: AnalysisReportView, stopped: bool },
    Failed(Seq<char>),
}

impl View for Turn {
    type V = TurnView;

    open spec fn view(&self) -> TurnView {
        match self {
            Turn::Quiet => TurnView::Quiet,
            Turn::Note(line) => TurnView::Note(line@),
            Turn::Analyzed { analysis_id, report } => TurnView::Analyzed {
                analysis_id: *analysis_id,
                report: (**report)@,
            },
            Turn::Ended { report, stopped } => TurnView::Ended {
                report: (**report)@,
                stopped: *stopped,
            },
            Turn::Failed(message) => TurnView::Failed(message@),
        }
    }
}

/// The line about the progress of an analysis.
pub open spec fn analysis_line(progress: JobProgressView) -> Seq<char> {
    "PROGRESS analysis files="@ + text::decimal(progress.files_scanned as nat) + " bytes="@
        + text::decimal(progress.bytes_scanned as nat) + " path="@ + path_text(
        progress.current_path,
    )
}

/// The line about the progress of a defragmentation.
pub open spec fn defrag_line(progress: DefragProgressView) -> Seq<char> {
    "PROGRESS defrag phase="@ + labels::defrag_phase_name(progress.phase) + " files="@
        + text::decimal(progress.files_completed as nat) + "/"@ + text::decimal(
        progress.files_total as nat,
    ) + " bytes="@ + text::decimal(progress.bytes_moved as nat) + "/"@ + text::decimal(
        progress.bytes_total as nat,
    ) + " path="@ + path_text(progress.current_path)
}

/// The line about what is read and written.
pub open spec fn activity_line(reading: Seq<PhysicalRange>, writing: Seq<PhysicalRange>) -> Seq<
    char,
> {
    "ACTIVITY read="@ + ranges_text(reading) + " write="@ + ranges_text(writing)
}

/// The line about a file that was rewritten.
pub open spec fn file_line(file: FileReportView, fragmentation: FragmentationMetrics) -> Seq<char> {
    "FILE path="@ + path::lossy_text(file.path) + " fragments="@ + text::decimal(
        file.physical_runs as nat,
    ) + " extra_fragments="@ + text::decimal(file.excess_runs as nat)
        + " remaining_extra_fragments="@ + text::decimal(fragmentation.total_excess_runs as nat)
}

/// What follows from an event of an analysis.
pub open spec fn analysis_turn(event: EventView) -> TurnView {
    match event {
        EventView::Progress(progress) => TurnView::Note(analysis_line(progress)),
        EventView::AnalysisFinished { job_id, analysis_id, report } => TurnView::Analyzed {
            analysis_id,
            report,
        },
        EventView::JobCancelled { job_id } => TurnView::Failed("cancelled safely"@),
        EventView::Failed { job_id, message } => TurnView::Failed(message),
        _ => TurnView::Quiet,
    }
}

/// What follows from an event of a defragmentation.
pub open spec fn defrag_turn(event: EventView) -> TurnView {
    match event {
        EventView::DefragProgress(progress) => TurnView::Note(defrag_line(progress)),
        EventView::DefragPendingIo { job_id, reading, writing } => TurnView::Note(
            activity_line(reading, writing),
        ),
        EventView::DefragFileUpdated { job_id, file, fragmentation, bytes_moved } => TurnView::Note(
            file_line(file, fragmentation),
        ),
        EventView::DefragFinished { job_id, report } => TurnView::Ended { report, stopped: false },
        EventView::DefragStopped { job_id, report } => TurnView::Ended { report, stopped: true },
        EventView::JobCancelled { job_id } => TurnView::Failed("cancelled safely"@),
        EventView::Failed { job_id, message } => TurnView::Failed(message),
        _ => TurnView::Quiet,
    }
}

fn show_analysis(progress: &JobProgress) -> (line: String)
    ensures
        line@ == analysis_line(progress@),
{
    let mut line: String = "PROGRESS analysis files=".to_owned();
    text::push_decimal(&mut line, progress.files_scanned);
    text::push_text(&mut line, " bytes=");
    text::push_decimal(&mut line, progress.bytes_scanned);
    text::push_text(&mut line, " path=");
    let shown: String = display_path(&progress.current_path);
    text::push_text(&mut line, shown.as_str());
    line
}

fn show_defrag(progress: &DefragProgress) -> (line: String)
    ensures
        line@ == defrag_line(progress@),
{
    let mut line: String = "PROGRESS defrag phase=".to_owned();
    text::push_text(&mut line, labels::defrag_phase(progress.phase));
    text::push_text(&mut line, " files=");
    text::push_decimal(&mut line, progress.files_completed);
    text::push_text(&mut line, "/");
    text::push_decimal(&mut line, progress.files_total);
    text::push_text(&mut line, " bytes=");
    text::push_decimal(&mut line, progress.bytes_moved);
    text::push_text(&mut line, "/");
    text::push_decimal(&mut line, progress.bytes_total);
    text::push_text(&mut line, " path=");
    let shown: String = display_path(&progress.current_path);
    text::push_text(&mut line, shown.as_str());
    line
}

fn show_activity(reading: &Vec<PhysicalRange>, writing: &Vec<PhysicalRange>) -> (line: String)
    ensures
        line@ == activity_line(reading@, writing@),
{
    let mut line: String = "ACTIVITY read=".to_owned();
    let read: String = ranges(reading);
    text::push_text(&mut line, read.as_str());
    text::push_text(&mut line, " write=");
    let write: String = ranges(writing);
    text::push_text(&mut line, write.as_str());
    line
}

fn show_file(file: &FileReport, fragmentation: &FragmentationMetrics) -> (line: String)
    ensures
        line@ == file_line(file@, *fragmentation),
{
    let mut line: String = "FILE path=".to_owned();
    let shown: String = file.path.display();
    text::push_text(&mut line, shown.as_str());
    text::push_text(&mut line, " fragments=");
    text::push_decimal(&mut line, file.physical_runs as u64);
    text::push_text(&mut line, " extra_fragments=");
    text::push_decimal(&mut line, file.excess_runs as u64);
    text::push_text(&mut line, " remaining_extra_fragments=");
    text::push_decimal(&mut line, fragmentation.total_excess_runs);
    line
}

/// Says what follows from an event of an analysis.
pub fn analyze(event: ServiceEvent) -> (turn: Turn)
    ensures
        turn@ == analysis_turn(event@),
{
    match event {
        ServiceEvent::Progress(progress) => Turn::Note(show_analysis(&progress)),
        ServiceEvent::AnalysisFinished { job_id: _, analysis_id, report } => Turn::Analyzed {
            analysis_id,
            report,
        },
        ServiceEvent::JobCancelled { .. } => Turn::Failed("cancelled safely".to_owned()),
        ServiceEvent::Failed { job_id: _, message } => Turn::Failed(message),
        _ => Turn::Quiet,
    }
}

/// Says what follows from an event of a defragmentation.
pub fn defrag(event: ServiceEvent) -> (turn: Turn)
    ensures
        turn@ == defrag_turn(event@),
{
    match event {
        ServiceEvent::DefragProgress(progress) => Turn::Note(show_defrag(&progress)),
        ServiceEvent::DefragPendingIo { job_id: _, reading, writing } => Turn::Note(
            show_activity(&reading, &writing),
        ),
        ServiceEvent::DefragFileUpdated { job_id: _, file, fragmentation, bytes_moved: _ } =>
        Turn::Note(show_file(&file, &fragmentation)),
        ServiceEvent::DefragFinished { job_id: _, report } => Turn::Ended {
            report,
            stopped: false,
        },
        ServiceEvent::DefragStopped { job_id: _, report } => Turn::Ended { report, stopped: true },
        ServiceEvent::JobCancelled { .. } => Turn::Failed("cancelled safely".to_owned()),
        ServiceEvent::Failed { job_id: _, message } => Turn::Failed(message),
        _ => Turn::Quiet,
    }
}

// ---------------------------------------------------------------------
// Reports
// ---------------------------------------------------------------------

/// The line about the volume of a report. The sizes are written by the
/// caller.
pub open spec fn volume_line(
    volume: VolumeView,
    capacity: Seq<char>,
    used: Seq<char>,
    free: Seq<char>,
) -> Seq<char> {
    "VOLUME filesystem="@ + volume.filesystem + " capacity="@ + capacity + " used="@ + used
        + " free="@ + free + " occupancy="@ + occupancy_text(
        volume.used_bytes,
        volume.capacity_bytes,
    )
}

/// Writes the line about the volume of a report.
pub fn show_volume(volume: &Volume, capacity: &str, used: &str, free: &str) -> (line: String)
    ensures
        line@ == volume_line(volume@, capacity@, used@, free@),
{
    let mut line: String = "VOLUME filesystem=".to_owned();
    text::push_text(&mut line, volume.filesystem.as_str());
    text::push_text(&mut line, " capacity=");
    text::push_text(&mut line, capacity);
    text::push_text(&mut line, " used=");
    text::push_text(&mut line, used);
    text::push_text(&mut line, " free=");
    text::push_text(&mut line, free);
    text::push_text(&mut line, " occupancy=");
    let full: String = occupancy(volume);
    text::push_text(&mut line, full.as_str());
    line
}

/// The line about the files of a report.
pub open spec fn report_line(label: Seq<char>, report: AnalysisReportView) -> Seq<char> {
    label + " files="@ + text::decimal(report.coverage.files_scanned as nat)
        + " fragmented_files="@ + text::decimal(report.fragmentation.fragmented_files as nat)
        + " fragmented_data="@ + share_text(report.fragmentation.fragmented_basis_points)
        + " fragments="@ + text::decimal(report.fragmentation.total_physical_runs as nat)
        + " extra_fragments="@ + text::decimal(report.fragmentation.total_excess_runs as nat)
        + " skipped="@ + text::decimal(report.coverage.skipped_entries as nat)
        + " completeness="@ + labels::completeness_name(report.completeness)
}

/// Writes the line about the files of a report.
pub fn show_report(label: &str, report: &AnalysisReport) -> (line: String)
    ensures
        line@ == report_line(label@, report@),
{
    let mut line: String = label.to_owned();
    text::push_text(&mut line, " files=");
    text::push_decimal(&mut line, report.coverage.files_scanned);
    text::push_text(&mut line, " fragmented_files=");
    text::push_decimal(&mut line, report.fragmentation.fragmented_files);
    text::push_text(&mut line, " fragmented_data=");
    let share: String = format_basis_points(report.fragmentation.fragmented_basis_points);
    text::push_text(&mut line, share.as_str());
    text::push_text(&mut line, " fragments=");
    text::push_decimal(&mut line, report.fragmentation.total_physical_runs);
    text::push_text(&mut line, " extra_fragments=");
    text::push_decimal(&mut line, report.fragmentation.total_excess_runs);
    text::push_text(&mut line, " skipped=");
    text::push_decimal(&mut line, report.coverage.skipped_entries);
    text::push_text(&mut line, " completeness=");
    text::push_text(&mut line, labels::completeness(report.completeness));
    line
}

/// The line about a plan.
pub open spec fn plan_line(plan: PlanSummaryView) -> Seq<char> {
    "PLAN candidates="@ + text::decimal(plan.candidates.len()) + " bytes="@ + text::decimal(
        plan.estimated_rewrite_bytes as nat,
    ) + " excluded="@ + text::decimal(plan.excluded_files as nat)
}

/// Writes the line about a plan.
pub fn show_plan(plan: &PlanSummary) -> (line: String)
    ensures
        line@ == plan_line(plan@),
{
    let mut line: String = "PLAN candidates=".to_owned();
    text::push_decimal(&mut line, plan.candidates.len() as u64);
    text::push_text(&mut line, " bytes=");
    text::push_decimal(&mut line, plan.estimated_rewrite_bytes);
    text::push_text(&mut line, " excluded=");
    text::push_decimal(&mut line, plan.excluded_files);
    line
}

/// Lets a plan be carried out, where this build can do so.
pub fn plan_is_executable(plan: &PlanSummary) -> (result: Result<(), String>)
    ensures
        text_outcome(result) == (if plan.requirements.available_in_this_build {
            Ok::<(), Seq<char>>(())
        } else {
            Err("plan cannot be executed by this build"@)
        }),
{
    if plan.requirements.available_in_this_build {
        Ok(())
    } else {
        Err("plan cannot be executed by this build".to_owned())
    }
}

/// The outcome of a defragmentation: a failure where extra fragments are left
/// that must not be.
pub open spec fn remaining_outcome(report: AnalysisReportView, require_zero: bool) -> Result<
    (),
    Seq<char>,
> {
    if require_zero && report.fragmentation.total_excess_runs != 0 {
        Err(
            text::decimal(report.fragmentation.total_excess_runs as nat)
                + " extra fragments remain"@,
        )
    } else {
        Ok(())
    }
}

/// Says how a defragmentation ended.
pub fn conclude(report: &AnalysisReport, require_zero: bool) -> (result: Result<(), String>)
    ensures
        text_outcome(result) == remaining_outcome(report@, require_zero),
{
    if require_zero && report.fragmentation.total_excess_runs != 0 {
        let mut message: String = String::new();
        text::push_decimal(&mut message, report.fragmentation.total_excess_runs);
        assert(message@ =~= text::decimal(report.fragmentation.total_excess_runs as nat));
        text::push_text(&mut message, " extra fragments remain");
        Err(message)
    } else {
        Ok(())
    }
}

/// The label of the report that a defragmentation ends with.
pub fn end_label(stopped: bool) -> (label: &'static str)
    ensures
        label@ == (if stopped {
            "STOPPED"@
        } else {
            "AFTER"@
        }),
{
    if stopped {
        "STOPPED"
    } else {
        "AFTER"
    }
}

// ---------------------------------------------------------------------
// What holds of every command
// ---------------------------------------------------------------------

proof fn lemma_removal_keeps_others(words: Seq<Seq<char>>, flag: Seq<char>, other: Seq<char>)
    requires
        flag != other,
    ensures
        has_flag(without_flag(words, flag), other) == has_flag(words, other),
{
    lemma_flag_place(words, flag);
    let rest = without_flag(words, flag);
    let at = flag_place(words, flag);
    if has_flag(words, flag) {
        if has_flag(words, other) {
            let k = choose|k: int| 0 <= k < words.len() && words[k] == other;
            if k < at {
                assert(rest[k] == other);
            } else {
                assert(rest[k - 1] == other);
            }
        }
        if has_flag(rest, other) {
            let k = choose|k: int| 0 <= k < rest.len() && rest[k] == other;
            if k < at {
                assert(words[k] == other);
            } else {
                assert(words[k + 1] == other);
            }
        }
    }
}

/// No words make the command line write to a filesystem unless one of them
/// confirms it.
pub proof fn lemma_writing_is_confirmed(words: Seq<Seq<char>>)
    requires
        command_of(words) matches Ok(command) && command is Defrag,
    ensures
        words.contains("--yes"@),
{
}

/// A defragmentation is held to leave no extra fragments exactly where one of
/// the two words for it was given.
pub proof fn lemma_either_word_asks_for_zero(words: Seq<Seq<char>>)
    requires
        command_of(words) matches Ok(command) && command is Defrag,
    ensures
        command_of(words)->Ok_0->require_zero == (words.contains("--require-fully-defragmented"@)
            || words.contains("--require-zero-excess"@)),
{
    reveal_strlit("--yes");
    reveal_strlit("--require-fully-defragmented");
    reveal_strlit("--require-zero-excess");
    assert("--yes"@.len() == 5 && "--require-fully-defragmented"@.len() == 28
        && "--require-zero-excess"@.len() == 21);
    let rest = without_flag(words, "--yes"@);
    lemma_removal_keeps_others(words, "--yes"@, "--require-fully-defragmented"@);
    lemma_removal_keeps_others(words, "--yes"@, "--require-zero-excess"@);
    lemma_removal_keeps_others(rest, "--require-fully-defragmented"@, "--require-zero-excess"@);
}

/// A volume that a selector resolves to is one of the volumes.
pub proof fn lemma_resolved_volume_is_listed(
    selector: Seq<char>,
    canonical: Option<Seq<u8>>,
    volumes: Seq<SelectableView>,
)
    requires
        resolved(selector, canonical, volumes) is Ok,
    ensures
        is_listed(resolved(selector, canonical, volumes)->Ok_0, volumes),
{
    let located = LocatedView { path: encode_utf8(selector), canonical };
    lemma_meant_are_listed(located, volumes);
}

proof fn lemma_meant_are_listed(selector: LocatedView, volumes: Seq<SelectableView>)
    ensures
        forall|i: int|
            0 <= i < meant(selector, volumes).len() ==> is_listed(
                #[trigger] meant(selector, volumes)[i],
                volumes,
            ),
    decreases volumes.len(),
{
    if volumes.len() > 0 {
        let rest = volumes.drop_last();
        let out = meant(selector, volumes);
        let before = meant(selector, rest);
        lemma_meant_are_listed(selector, rest);
        assert forall|i: int| 0 <= i < out.len() implies is_listed(#[trigger] out[i], volumes) by {
            if i < before.len() {
                assert(out[i] == before[i]);
                assert(is_listed(before[i], rest));
                let k = choose|k: int| 0 <= k < rest.len() && (#[trigger] rest[k]).id == before[i];
                assert(volumes[k].id == out[i]);
            } else {
                assert(volumes[volumes.len() - 1].id == out[i]);
            }
        }
    }
}

} // verus!
