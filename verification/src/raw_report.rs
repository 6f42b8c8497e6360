//! What a snapshot of an unmounted classic FAT volume becomes: a report on its
//! files, and a drive map on which every cluster is known.

use vstd::prelude::*;

use crate::arith;
use crate::block_map;
use crate::classic_fat::{ClassicSnapshot, Geometry, RawFileView, SnapshotView};
use crate::cluster_set;
use crate::cluster_set::ClusterSet;
use crate::domain::{
    AnalysisCompleteness, AnalysisPhase, AnalysisReport, AnalysisReportView, EventView,
    FileReport, FileReportView, FragmentationMetrics, JobId, JobProgress, JobProgressView,
    PhysicalRange, ScanCoverage, Volume, VolumeView,
};
use crate::extents;
use crate::fat_table;
use crate::fat_table::ClassicKind;
use crate::file_report;
use crate::file_report::{FileFacts, FileKind};
use crate::jobs::EventSink;
use crate::linux::FileExtent;
use crate::plan::{Analysis, FatAnalysis, FilesystemAnalysis};
use crate::report_map;
use crate::scan;
use crate::views;

verus! {

// ---------------------------------------------------------------------
// Files
// ---------------------------------------------------------------------

/// Where a cluster of the data area begins, as far as a `u64` can say.
pub open spec fn place_of(geometry: Geometry, cluster: u32) -> u64 {
    arith::sat64(geometry.data_start + (cluster - 2) * geometry.cluster_size) as u64
}

/// The extents of a file with a chain of clusters: neighbours on the device
/// are joined.
pub open spec fn chain_extents(geometry: Geometry, chain: Seq<u32>) -> Seq<FileExtent>
    decreases chain.len(),
{
    if chain.len() == 0 {
        Seq::empty()
    } else {
        let before = chain_extents(geometry, chain.drop_last());
        let place = place_of(geometry, chain.last());
        if before.len() > 0 && before.last().physical + before.last().length == place {
            before.update(
                before.len() - 1,
                FileExtent {
                    length: arith::sat64(before.last().length + geometry.cluster_size) as u64,
                    ..before.last()
                },
            )
        } else {
            before.push(
                FileExtent {
                    logical: arith::sat64((chain.len() - 1) * geometry.cluster_size) as u64,
                    physical: place,
                    length: geometry.cluster_size as u64,
                    flags: 0,
                },
            )
        }
    }
}

/// What a snapshot says of a file as the system would.
pub open spec fn raw_facts(geometry: Geometry, file: RawFileView) -> FileFacts {
    FileFacts {
        kind: FileKind::Regular,
        device: 0,
        inode: 0,
        length: file.size,
        block_size: geometry.cluster_size as u64,
    }
}

/// The report on a file of a snapshot.
pub open spec fn raw_file_report(geometry: Geometry, file: RawFileView) -> FileReportView {
    file_report::fat_file_report(
        file.path,
        raw_facts(geometry, file),
        chain_extents(geometry, file.chain),
    )
}

/// The reports on the files of a snapshot, in its order.
pub open spec fn raw_file_reports(geometry: Geometry, files: Seq<RawFileView>) -> Seq<
    FileReportView,
> {
    Seq::new(files.len(), |i: int| raw_file_report(geometry, files[i]))
}

fn place_cluster(geometry: &Geometry, cluster: u32) -> (place: u64)
    requires
        cluster >= 2,
    ensures
        place == place_of(*geometry, cluster),
{
    assert(0 <= (cluster - 2) * geometry.cluster_size <= u32::MAX * u32::MAX)
        by (nonlinear_arith)
        requires
            2 <= cluster <= u32::MAX,
            0 <= geometry.cluster_size <= u32::MAX,
    ;
    geometry.data_start.saturating_add((cluster - 2) as u64 * geometry.cluster_size as u64)
}

/// Forms the extents of a chain.
pub fn join_chain(geometry: &Geometry, chain: &Vec<u32>) -> (list: Vec<FileExtent>)
    requires
        forall|i: int| 0 <= i < chain@.len() ==> 2 <= #[trigger] chain@[i],
    ensures
        list@ == chain_extents(*geometry, chain@),
{
    let mut list: Vec<FileExtent> = Vec::new();
    let mut i: usize = 0;
    while i < chain.len()
        invariant
            i <= chain@.len(),
            forall|k: int| 0 <= k < chain@.len() ==> 2 <= #[trigger] chain@[k],
            list@ == chain_extents(*geometry, chain@.take(i as int)),
        decreases chain@.len() - i,
    {
        let ghost part = chain@.take(i + 1);
        assert(part.drop_last() =~= chain@.take(i as int));
        let place: u64 = place_cluster(geometry, chain[i]);
        let count: usize = list.len();
        let joins: bool = count > 0 && list[count - 1].physical <= place && place - list[count
            - 1].physical == list[count - 1].length;
        if joins {
            let last: FileExtent = list[count - 1];
            list.set(
                count - 1,
                FileExtent {
                    length: last.length.saturating_add(geometry.cluster_size as u64),
                    ..last
                },
            );
        } else {
            list.push(
                FileExtent {
                    logical: arith::saturating_mul(i as u64, geometry.cluster_size as u64),
                    physical: place,
                    length: geometry.cluster_size as u64,
                    flags: 0,
                },
            );
        }
        i = i + 1;
        assert(list@ =~= chain_extents(*geometry, part));
    }
    assert(chain@.take(i as int) =~= chain@);
    list
}

fn report_files(snapshot: &ClassicSnapshot) -> (files: Vec<FileReport>)
    requires
        snapshot@.complete(),
    ensures
        views::of(files@) == raw_file_reports(snapshot@.geometry, snapshot@.files),
{
    let ghost all = raw_file_reports(snapshot@.geometry, snapshot@.files);
    let mut files: Vec<FileReport> = Vec::new();
    let mut i: usize = 0;
    assert(views::of(files@) =~= all.take(0));
    while i < snapshot.files.len()
        invariant
            i <= snapshot.files@.len(),
            snapshot@.complete(),
            all == raw_file_reports(snapshot@.geometry, snapshot@.files),
            views::of(files@) == all.take(i as int),
        decreases snapshot.files@.len() - i,
    {
        let ghost before = views::of(files@);
        let ghost file = snapshot@.files[i as int];
        assert forall|k: int| 0 <= k < snapshot.files@[i as int].chain@.len() implies 2
            <= #[trigger] snapshot.files@[i as int].chain@[k] by {
            assert(2 <= file.chain[k]);
        }
        let list: Vec<FileExtent> = join_chain(&snapshot.geometry, &snapshot.files[i].chain);
        let facts: FileFacts = FileFacts {
            kind: FileKind::Regular,
            device: 0,
            inode: 0,
            length: snapshot.files[i].size,
            block_size: snapshot.geometry.cluster_size as u64,
        };
        let report: FileReport = file_report::inspect_fat_file(
            snapshot.files[i].path.clone(),
            facts,
            &list,
        );
        files.push(report);
        i = i + 1;
        assert(views::of(files@) =~= before.push(report@));
        assert(views::of(files@) =~= all.take(i as int));
    }
    assert(all.take(i as int) =~= all);
    files
}

// ---------------------------------------------------------------------
// Directories
// ---------------------------------------------------------------------

/// Whether a cluster goes on where another cluster of a directory ends.
pub open spec fn continues_directory(s: SnapshotView, cluster: u32) -> bool {
    exists|before: u32| #[trigger]
        s.directory_clusters.contains(before) && fat_table::entry_of(s.fat, s.kind, before)
            == Some(cluster)
}

/// The clusters that directories begin with.
pub open spec fn directory_heads(s: SnapshotView) -> Set<u32> {
    Set::new(|c: u32| s.directory_clusters.contains(c) && !continues_directory(s, c))
}

/// The number of directories of a volume. The root directory of all but FAT32
/// has no cluster.
pub open spec fn directory_count(s: SnapshotView) -> nat {
    cluster_set::size(directory_heads(s)) + if s.kind == ClassicKind::Fat32 {
        0nat
    } else {
        1nat
    }
}

/// Counts the directories of a volume.
fn count_directories(snapshot: &ClassicSnapshot) -> (count: u64)
    requires
        snapshot@.complete(),
    ensures
        count == directory_count(snapshot@),
{
    let ghost s = snapshot@;
    let limit: usize = snapshot.directory_clusters.bound();
    let mut later: ClusterSet = ClusterSet::new(limit);
    let mut c: usize = 0;
    while c < limit && c as u64 <= u32::MAX as u64
        invariant
            c <= limit,
            c <= 0x1_0000_0000,
            s == snapshot@,
            limit == snapshot.directory_clusters.limit(),
            later.limit() == limit,
            forall|x: u32| #[trigger]
                later@.contains(x) ==> x < limit && continues_directory(s, x),
            forall|b: u32, x: u32|
                #![trigger s.directory_clusters.contains(b), later@.contains(x)]
                b < c && s.directory_clusters.contains(b) && x < limit && fat_table::entry_of(
                    s.fat,
                    s.kind,
                    b,
                ) == Some(x) ==> later@.contains(x),
        decreases limit - c,
    {
        let cluster: u32 = c as u32;
        if snapshot.directory_clusters.contains(cluster) {
            if let Some(next) = fat_table::fat_entry(&snapshot.fat, snapshot.kind, cluster) {
                if (next as u64) < limit as u64 {
                    assert(s.directory_clusters.contains(cluster));
                    later.insert(next);
                }
            }
        }
        c = c + 1;
    }
    let mut heads: ClusterSet = ClusterSet::new(limit);
    let mut h: usize = 0;
    while h < limit && h as u64 <= u32::MAX as u64
        invariant
            h <= limit,
            h <= 0x1_0000_0000,
            s == snapshot@,
            limit == snapshot.directory_clusters.limit(),
            heads.limit() == limit,
            forall|x: u32| #[trigger]
                heads@.contains(x) <==> x < h && s.directory_clusters.contains(x)
                    && !later@.contains(x),
        decreases limit - h,
    {
        let cluster: u32 = h as u32;
        if snapshot.directory_clusters.contains(cluster) && !later.contains(cluster) {
            heads.insert(cluster);
        }
        h = h + 1;
    }
    proof {
        assert forall|x: u32| heads@.contains(x) == #[trigger] directory_heads(s).contains(x) by {
            snapshot.directory_clusters.lemma_below_limit(x);
            if s.directory_clusters.contains(x) && continues_directory(s, x) {
                let before = choose|before: u32| #[trigger]
                    s.directory_clusters.contains(before) && fat_table::entry_of(
                        s.fat,
                        s.kind,
                        before,
                    ) == Some(x);
                snapshot.directory_clusters.lemma_below_limit(before);
                assert(later@.contains(x));
            }
        }
        assert(heads@ =~= directory_heads(s));
        cluster_set::lemma_size(heads@);
    }
    heads.len() + if snapshot.kind == ClassicKind::Fat32 {
        0
    } else {
        1
    }
}

// ---------------------------------------------------------------------
// The report
// ---------------------------------------------------------------------

/// The report on a volume that was read from its device. It is complete
/// where nothing was found that speaks against the volume.
pub open spec fn raw_report(s: SnapshotView, volume: VolumeView) -> AnalysisReportView {
    let files = raw_file_reports(s.geometry, s.files);
    let scanned = arith::sat64(scan::file_bytes(files) as int) as u64;
    let total = arith::sat64(scan::data_bytes(s.ranges) as int) as u64;
    report_map::redrawn(
        AnalysisReportView {
            volume,
            completeness: if s.writable_issues.len() == 0 {
                AnalysisCompleteness::Complete
            } else {
                AnalysisCompleteness::Partial
            },
            coverage: ScanCoverage {
                files_scanned: arith::sat64(files.len() as int) as u64,
                directories_scanned: directory_count(s) as u64,
                skipped_entries: 0,
                scanned_allocated_bytes: scanned,
                total_allocated_data_bytes: total,
                estimated_basis_points: arith::basis_points(scanned as int, total as int),
            },
            fragmentation: file_report::completed(file_report::counted_all(files), scanned),
            files: scan::listed(files),
            map: Seq::empty(),
            warnings: s.writable_issues,
        },
        s.ranges,
        Seq::empty(),
    )
}

/// What is told of a volume that was read from its device: how much of it
/// there is, and its drive map.
pub open spec fn raw_events(report: AnalysisReportView, job_id: JobId) -> Seq<EventView> {
    seq![
        EventView::Progress(
            JobProgressView {
                job_id,
                phase: AnalysisPhase::BuildingReport,
                files_scanned: report.coverage.files_scanned,
                bytes_scanned: report.coverage.scanned_allocated_bytes,
                current_path: None,
            },
        ),
        EventView::MapUpdated { job_id, full_snapshot: true, bins: report.map },
    ]
}

/// Reports on a volume that was read from its device.
pub fn report_snapshot(snapshot: &ClassicSnapshot, volume: &Volume) -> (report: AnalysisReport)
    requires
        snapshot@.complete(),
    ensures
        report@ == raw_report(snapshot@, volume@),
{
    let found: Vec<FileReport> = report_files(snapshot);
    let ghost all = views::of(found@);
    let mut metrics: FragmentationMetrics = FragmentationMetrics {
        fragmented_files: 0,
        fragmented_allocated_bytes: 0,
        total_physical_runs: 0,
        total_excess_runs: 0,
        average_run_bytes: 0,
        fragmented_basis_points: None,
    };
    let mut scanned: u64 = 0;
    let mut i: usize = 0;
    while i < found.len()
        invariant
            i <= found@.len(),
            all == views::of(found@),
            metrics == file_report::counted_all(all.take(i as int)),
            scanned == arith::sat64(scan::file_bytes(all.take(i as int)) as int),
        decreases found@.len() - i,
    {
        assert(all.take(i + 1).drop_last() =~= all.take(i as int));
        file_report::count_file(&mut metrics, &found[i]);
        scanned = scanned.saturating_add(found[i].allocated_bytes);
        i = i + 1;
    }
    assert(all.take(i as int) =~= all);
    file_report::complete_metrics(&mut metrics, scanned);
    let total: u64 = scan::total_data_bytes(&snapshot.ranges);
    let coverage: ScanCoverage = ScanCoverage {
        files_scanned: found.len() as u64,
        directories_scanned: count_directories(snapshot),
        skipped_entries: 0,
        scanned_allocated_bytes: scanned,
        total_allocated_data_bytes: total,
        estimated_basis_points: arith::ratio_basis_points(scanned, total),
    };
    let warnings: Vec<String> = views::clone_list(&snapshot.writable_issues);
    let mut report: AnalysisReport = AnalysisReport {
        volume: volume.clone(),
        completeness: if snapshot.writable_issues.len() == 0 {
            AnalysisCompleteness::Complete
        } else {
            AnalysisCompleteness::Partial
        },
        coverage,
        fragmentation: metrics,
        files: scan::sort_files(found),
        map: Vec::new(),
        warnings,
    };
    let none: Vec<PhysicalRange> = Vec::new();
    report_map::redraw(&mut report, &snapshot.ranges, &none);
    assert(report@ =~= raw_report(snapshot@, volume@));
    report
}

/// Makes the snapshot of an unmounted volume an analysis, and tells of it.
pub fn analyze_snapshot<S: EventSink>(
    snapshot: &ClassicSnapshot,
    volume: &Volume,
    job_id: JobId,
    sink: &mut S,
) -> (analysis: Analysis)
    requires
        snapshot@.complete(),
        old(sink).job() == job_id,
    ensures
        analysis is Fat,
        analysis.found() == raw_report(snapshot@, volume@),
        final(sink).job() == job_id,
        final(sink).log() == old(sink).log() + raw_events(raw_report(snapshot@, volume@), job_id),
{
    let report: AnalysisReport = report_snapshot(snapshot, volume);
    sink.progress(
        JobProgress {
            job_id,
            phase: AnalysisPhase::BuildingReport,
            files_scanned: report.coverage.files_scanned,
            bytes_scanned: report.coverage.scanned_allocated_bytes,
            current_path: None,
        },
    );
    sink.map_updated(true, views::copy_list(&report.map));
    assert(sink.log() =~= old(sink).log() + raw_events(raw_report(snapshot@, volume@), job_id));
    Analysis::Fat(FatAnalysis { report })
}

// ---------------------------------------------------------------------
// What holds of every report
// ---------------------------------------------------------------------

/// The drive map of a report is the allocation map of the volume, over which
/// its files are drawn; it is complete exactly where the tables and chains of
/// the volume are in order.
pub proof fn lemma_raw_map_is_the_allocation_map(s: SnapshotView, volume: VolumeView)
    ensures
        ({
            let report = raw_report(s, volume);
            let fresh = scan::fresh_map(s.ranges, volume.capacity_bytes);
            let map = scan::scanned_all(fresh, report_map::file_ranges(report.files));
            &&& report.map == block_map::map_bins(map.frame, map.bins)
            &&& report.completeness == AnalysisCompleteness::Complete <==> s.writable_issues.len()
                == 0
        }),
{
}

proof fn lemma_chain_end(geometry: Geometry, chain: Seq<u32>)
    requires
        chain.len() * geometry.cluster_size <= u64::MAX,
    ensures
        extents::total_bytes(chain_extents(geometry, chain)) == chain.len()
            * geometry.cluster_size,
    decreases chain.len(),
{
    if chain.len() > 0 {
        let rest = chain.drop_last();
        let before = chain_extents(geometry, rest);
        let after = chain_extents(geometry, chain);
        assert(chain.len() * geometry.cluster_size == rest.len() * geometry.cluster_size
            + geometry.cluster_size) by (nonlinear_arith)
            requires
                chain.len() == rest.len() + 1,
        ;
        lemma_chain_end(geometry, rest);
        if after.len() == before.len() {
            extents::lemma_last_is_part(before);
            extents::lemma_replaced_last(before, after.last());
        } else {
            assert(after.drop_last() =~= before);
        }
    }
}

/// A file has exactly the bytes of the clusters of its chain.
pub proof fn lemma_chain_bytes_are_held(geometry: Geometry, file: RawFileView)
    requires
        file.chain.len() * geometry.cluster_size <= u64::MAX,
    ensures
        raw_file_report(geometry, file).allocated_bytes == file.chain.len()
            * geometry.cluster_size,
{
    lemma_chain_end(geometry, file.chain);
}

} // verus!
