//! The filesystems that the service knows, and what it can do with each.

use vstd::prelude::*;

use crate::domain::{JobId, MountState, SupportStatus, SupportView, Volume, VolumeView};
use crate::plan::{Analysis, Ext4Analysis, FatAnalysis, FilesystemAnalysis};
use crate::scan;
use crate::scan::{Scan, ScanKind, ScanStage, ScanView};
use crate::text;

verus! {

/// How an analysis reaches a volume: through a mount, or by reading the device
/// itself.
#[derive(Clone, Copy, Debug, PartialEq, Eq, Structural)]
pub enum AnalysisAccess {
    MountedReadOnly,
    RawDevice,
}

/// What the service can do with the volumes of one family of filesystems.
pub trait FilesystemBackend {
    /// The name of the family.
    spec fn family(&self) -> Seq<char>;

    /// What can be done with a filesystem of a name.
    spec fn support_for(&self, filesystem: Seq<char>) -> SupportView;

    /// How an analysis reaches a volume.
    spec fn access_for(&self, volume: VolumeView) -> AnalysisAccess;

    /// The walk that an analysis makes.
    spec fn walk(&self) -> ScanKind;

    fn id(&self) -> (id: &'static str)
        ensures
            id@ == self.family(),
    ;

    fn probe(&self, volume: &Volume) -> (support: SupportStatus)
        ensures
            support@ == self.support_for(volume@.filesystem),
    ;

    fn analysis_access(&self, volume: &Volume) -> (access: AnalysisAccess)
        ensures
            access == self.access_for(volume@),
    ;

    /// Begins an analysis of a volume that is mounted for it.
    fn analyze(&self, volume: &Volume, job_id: JobId) -> (scan: Scan)
        ensures
            scan.wf(),
            scan@ == scan::new_scan(self.walk(), volume@, job_id),
    ;
}

pub open spec fn not_implemented(filesystem: Seq<char>) -> SupportView {
    SupportView::Unsupported { reason: filesystem + " analysis is not implemented"@ }
}

fn unsupported(filesystem: &str) -> (support: SupportStatus)
    ensures
        support@ == not_implemented(filesystem@),
{
    let mut reason: String = filesystem.to_owned();
    text::push_text(&mut reason, " analysis is not implemented");
    SupportStatus::Unsupported { reason }
}

/// ext4: analyzed and defragmented while mounted.
#[derive(Clone, Copy, Debug, PartialEq, Eq, Structural)]
pub struct Ext4Backend;

impl FilesystemBackend for Ext4Backend {
    open spec fn family(&self) -> Seq<char> {
        "ext4"@
    }

    open spec fn support_for(&self, filesystem: Seq<char>) -> SupportView {
        if filesystem == "ext4"@ {
            SupportView::Defragmentable
        } else {
            not_implemented(filesystem)
        }
    }

    open spec fn access_for(&self, volume: VolumeView) -> AnalysisAccess {
        AnalysisAccess::MountedReadOnly
    }

    open spec fn walk(&self) -> ScanKind {
        ScanKind::Ext4
    }

    fn id(&self) -> (id: &'static str) {
        "ext4"
    }

    fn probe(&self, volume: &Volume) -> (support: SupportStatus) {
        if text::same_text(volume.filesystem.as_str(), "ext4") {
            SupportStatus::Defragmentable
        } else {
            unsupported(volume.filesystem.as_str())
        }
    }

    fn analysis_access(&self, volume: &Volume) -> (access: AnalysisAccess) {
        AnalysisAccess::MountedReadOnly
    }

    fn analyze(&self, volume: &Volume, job_id: JobId) -> (scan: Scan) {
        Scan::new(ScanKind::Ext4, volume.clone(), job_id)
    }
}

/// The names of classic FAT filesystems.
pub open spec fn is_classic_fat(filesystem: Seq<char>) -> bool {
    filesystem == "fat"@ || filesystem == "msdos"@ || filesystem == "vfat"@
}

/// The names of FAT filesystems.
pub open spec fn is_fat(filesystem: Seq<char>) -> bool {
    is_classic_fat(filesystem) || filesystem == "exfat"@
}

/// Tells whether a name is that of a classic FAT filesystem.
pub fn names_classic_fat(filesystem: &str) -> (yes: bool)
    ensures
        yes == is_classic_fat(filesystem@),
{
    text::same_text(filesystem, "fat") || text::same_text(filesystem, "msdos")
        || text::same_text(filesystem, "vfat")
}

/// FAT and exFAT: analyzed while mounted; an unmounted classic FAT volume is
/// read from its device.
#[derive(Clone, Copy, Debug, PartialEq, Eq, Structural)]
pub struct FatBackend;

impl FilesystemBackend for FatBackend {
    open spec fn family(&self) -> Seq<char> {
        "fat"@
    }

    open spec fn support_for(&self, filesystem: Seq<char>) -> SupportView {
        if is_fat(filesystem) {
            SupportView::ReadOnly
        } else {
            not_implemented(filesystem)
        }
    }

    open spec fn access_for(&self, volume: VolumeView) -> AnalysisAccess {
        if volume.mount_state == MountState::Unmounted && is_classic_fat(volume.filesystem) {
            AnalysisAccess::RawDevice
        } else {
            AnalysisAccess::MountedReadOnly
        }
    }

    open spec fn walk(&self) -> ScanKind {
        ScanKind::Fat
    }

    fn id(&self) -> (id: &'static str) {
        "fat"
    }

    fn probe(&self, volume: &Volume) -> (support: SupportStatus) {
        let name: &str = volume.filesystem.as_str();
        if names_classic_fat(name) || text::same_text(name, "exfat") {
            SupportStatus::ReadOnly
        } else {
            unsupported(name)
        }
    }

    fn analysis_access(&self, volume: &Volume) -> (access: AnalysisAccess) {
        if volume.mount_state == MountState::Unmounted && names_classic_fat(
            volume.filesystem.as_str(),
        ) {
            AnalysisAccess::RawDevice
        } else {
            AnalysisAccess::MountedReadOnly
        }
    }

    fn analyze(&self, volume: &Volume, job_id: JobId) -> (scan: Scan) {
        Scan::new(ScanKind::Fat, volume.clone(), job_id)
    }
}

/// A family of filesystems.
#[derive(Clone, Copy, Debug, PartialEq, Eq, Structural)]
pub enum Backend {
    Ext4(Ext4Backend),
    Fat(FatBackend),
}

impl FilesystemBackend for Backend {
    open spec fn family(&self) -> Seq<char> {
        match self {
            Backend::Ext4(backend) => backend.family(),
            Backend::Fat(backend) => backend.family(),
        }
    }

    open spec fn support_for(&self, filesystem: Seq<char>) -> SupportView {
        match self {
            Backend::Ext4(backend) => backend.support_for(filesystem),
            Backend::Fat(backend) => backend.support_for(filesystem),
        }
    }

    open spec fn access_for(&self, volume: VolumeView) -> AnalysisAccess {
        match self {
            Backend::Ext4(backend) => backend.access_for(volume),
            Backend::Fat(backend) => backend.access_for(volume),
        }
    }

    open spec fn walk(&self) -> ScanKind {
        match self {
            Backend::Ext4(backend) => backend.walk(),
            Backend::Fat(backend) => backend.walk(),
        }
    }

    fn id(&self) -> (id: &'static str) {
        match self {
            Backend::Ext4(backend) => backend.id(),
            Backend::Fat(backend) => backend.id(),
        }
    }

    fn probe(&self, volume: &Volume) -> (support: SupportStatus) {
        match self {
            Backend::Ext4(backend) => backend.probe(volume),
            Backend::Fat(backend) => backend.probe(volume),
        }
    }

    fn analysis_access(&self, volume: &Volume) -> (access: AnalysisAccess) {
        match self {
            Backend::Ext4(backend) => backend.analysis_access(volume),
            Backend::Fat(backend) => backend.analysis_access(volume),
        }
    }

    fn analyze(&self, volume: &Volume, job_id: JobId) -> (scan: Scan) {
        match self {
            Backend::Ext4(backend) => backend.analyze(volume, job_id),
            Backend::Fat(backend) => backend.analyze(volume, job_id),
        }
    }
}

/// The families that the service knows, in the order in which they are
/// asked.
pub open spec fn known_backends() -> Seq<Backend> {
    seq![Backend::Ext4(Ext4Backend), Backend::Fat(FatBackend)]
}

/// Lists the families that the service knows.
pub fn default_backends() -> (backends: Vec<Backend>)
    ensures
        backends@ == known_backends(),
{
    let mut backends: Vec<Backend> = Vec::new();
    backends.push(Backend::Ext4(Ext4Backend));
    backends.push(Backend::Fat(FatBackend));
    assert(backends@ =~= known_backends());
    backends
}

/// Whether the service can do something with a volume.
pub open spec fn is_supported(support: SupportView) -> bool {
    support is ReadOnly || support is Defragmentable
}

/// The first family that can do something with a filesystem.
pub open spec fn first_supporting(backends: Seq<Backend>, filesystem: Seq<char>) -> Option<Backend>
    decreases backends.len(),
{
    if backends.len() == 0 {
        None
    } else if is_supported(backends[0].support_for(filesystem)) {
        Some(backends[0])
    } else {
        first_supporting(backends.skip(1), filesystem)
    }
}

/// Finds the first family that can do something with a volume.
pub fn find_backend(backends: &Vec<Backend>, volume: &Volume) -> (found: Option<Backend>)
    ensures
        found == first_supporting(backends@, volume@.filesystem),
{
    let mut i: usize = 0;
    assert(backends@.skip(0) =~= backends@);
    while i < backends.len()
        invariant
            i <= backends@.len(),
            first_supporting(backends@, volume@.filesystem) == first_supporting(
                backends@.skip(i as int),
                volume@.filesystem,
            ),
        decreases backends@.len() - i,
    {
        let supported: bool = match backends[i].probe(volume) {
            SupportStatus::ReadOnly => true,
            SupportStatus::Defragmentable => true,
            SupportStatus::Unsupported { .. } => false,
        };
        if supported {
            return Some(backends[i]);
        }
        assert(backends@.skip(i as int).skip(1) =~= backends@.skip(i + 1));
        i = i + 1;
    }
    None
}

/// At most one of the known families can do something with a filesystem, so
/// their order does not matter.
pub proof fn lemma_families_are_apart(filesystem: Seq<char>)
    ensures
        !(is_supported(Ext4Backend.support_for(filesystem)) && is_supported(
            FatBackend.support_for(filesystem),
        )),
{
    reveal_strlit("ext4");
    reveal_strlit("fat");
    reveal_strlit("msdos");
    reveal_strlit("vfat");
    reveal_strlit("exfat");
    assert("ext4"@.len() == 4 && "vfat"@.len() == 4);
    assert("ext4"@[0] == 'e' && "vfat"@[0] == 'v');
}

/// Only unmounted volumes are read from their device, and of those only
/// classic FAT; everything else is analyzed through a mount.
pub proof fn lemma_only_unmounted_fat_is_read_raw(backend: Backend, volume: VolumeView)
    ensures
        backend.access_for(volume) == AnalysisAccess::RawDevice <==> (backend
            == Backend::Fat(FatBackend) && volume.mount_state == MountState::Unmounted
            && is_classic_fat(volume.filesystem)),
{
}

/// What a finished walk becomes.
pub open spec fn is_analysis_of(s: ScanView, analysis: Analysis) -> bool {
    &&& analysis.found() == scan::scan_report(s)
    &&& match s.kind {
        ScanKind::Ext4 => analysis is Ext4,
        ScanKind::Fat => analysis is Fat,
    }
}

/// Makes a finished walk an analysis.
pub fn conclude(scan: Scan) -> (analysis: Analysis)
    requires
        scan.wf(),
        scan@.stage == ScanStage::Finished,
    ensures
        is_analysis_of(scan@, analysis),
{
    match scan.kind() {
        ScanKind::Ext4 => Analysis::Ext4(Ext4Analysis { report: scan.into_report() }),
        ScanKind::Fat => Analysis::Fat(FatAnalysis { report: scan.into_report() }),
    }
}

} // verus!
