//! Running jobs: what they tell, and how they are held up and ended.

use vstd::prelude::*;

use crate::domain::{
    DefragProgress, DefragProgressView, EventView, FileReport, FragmentationMetrics, JobId,
    JobProgress, JobProgressView, MapBin, PhysicalRange, ServiceEvent,
};
use crate::error::{ErrorView, ServiceError};
use crate::views;

verus! {

/// Where a job tells what it does. Everything is told in the name of one
/// job, whatever job a progress report names.
pub trait EventSink {
    /// The job in whose name events are told.
    spec fn job(&self) -> JobId;

    /// What was told so far.
    spec fn log(&self) -> Seq<EventView>;

    fn progress(&mut self, progress: JobProgress)
        ensures
            final(self).job() == old(self).job(),
            final(self).log() == old(self).log().push(
                EventView::Progress(JobProgressView { job_id: old(self).job(), ..progress@ }),
            ),
    ;

    fn map_updated(&mut self, full_snapshot: bool, bins: Vec<MapBin>)
        ensures
            final(self).job() == old(self).job(),
            final(self).log() == old(self).log().push(
                EventView::MapUpdated { job_id: old(self).job(), full_snapshot, bins: bins@ },
            ),
    ;

    fn defrag_progress(&mut self, progress: DefragProgress)
        ensures
            final(self).job() == old(self).job(),
            final(self).log() == old(self).log().push(
                EventView::DefragProgress(
                    DefragProgressView { job_id: old(self).job(), ..progress@ },
                ),
            ),
    ;

    /// Publishes physical I/O that is announced and not yet reflected in the
    /// drive map. An empty pair clears the pending set.
    fn defrag_pending_io(&mut self, reading: Vec<PhysicalRange>, writing: Vec<PhysicalRange>)
        ensures
            final(self).job() == old(self).job(),
            final(self).log() == old(self).log().push(
                EventView::DefragPendingIo {
                    job_id: old(self).job(),
                    reading: reading@,
                    writing: writing@,
                },
            ),
    ;

    fn defrag_file_updated(
        &mut self,
        file: FileReport,
        fragmentation: FragmentationMetrics,
        bytes_moved: u64,
    )
        ensures
            final(self).job() == old(self).job(),
            final(self).log() == old(self).log().push(
                EventView::DefragFileUpdated {
                    job_id: old(self).job(),
                    file: file@,
                    fragmentation,
                    bytes_moved,
                },
            ),
    ;
}

/// Gathers the events of a job until they are sent on.
#[derive(Debug)]
pub struct ChannelSink {
    pub job_id: JobId,
    pub sent: Vec<ServiceEvent>,
}

impl ChannelSink {
    /// A sink for a job that has told nothing yet.
    pub fn new(job_id: JobId) -> (sink: ChannelSink)
        ensures
            sink.job() == job_id,
            sink.log() == Seq::<EventView>::empty(),
    {
        let sink = ChannelSink { job_id, sent: Vec::new() };
        assert(sink.log() =~= Seq::empty());
        sink
    }

    fn send(&mut self, event: ServiceEvent)
        ensures
            final(self).job() == old(self).job(),
            final(self).log() == old(self).log().push(event@),
    {
        let ghost before = views::of(self.sent@);
        let ghost told = event@;
        self.sent.push(event);
        assert(views::of(self.sent@) =~= before.push(told));
    }

    /// Hands out what was told since the last call.
    pub fn take(&mut self) -> (events: Vec<ServiceEvent>)
        ensures
            views::of(events@) == old(self).log(),
            final(self).job() == old(self).job(),
            final(self).log() == Seq::<EventView>::empty(),
    {
        let mut events: Vec<ServiceEvent> = Vec::new();
        std::mem::swap(&mut events, &mut self.sent);
        assert(self.log() =~= Seq::empty());
        events
    }
}

impl EventSink for ChannelSink {
    open spec fn job(&self) -> JobId {
        self.job_id
    }

    open spec fn log(&self) -> Seq<EventView> {
        views::of(self.sent@)
    }

    fn progress(&mut self, progress: JobProgress) {
        let mut stamped: JobProgress = progress;
        stamped.job_id = self.job_id;
        self.send(ServiceEvent::Progress(stamped));
    }

    fn map_updated(&mut self, full_snapshot: bool, bins: Vec<MapBin>) {
        self.send(ServiceEvent::MapUpdated { job_id: self.job_id, full_snapshot, bins });
    }

    fn defrag_progress(&mut self, progress: DefragProgress) {
        let mut stamped: DefragProgress = progress;
        stamped.job_id = self.job_id;
        self.send(ServiceEvent::DefragProgress(stamped));
    }

    fn defrag_pending_io(&mut self, reading: Vec<PhysicalRange>, writing: Vec<PhysicalRange>) {
        self.send(ServiceEvent::DefragPendingIo { job_id: self.job_id, reading, writing });
    }

    fn defrag_file_updated(
        &mut self,
        file: FileReport,
        fragmentation: FragmentationMetrics,
        bytes_moved: u64,
    ) {
        self.send(
            ServiceEvent::DefragFileUpdated {
                job_id: self.job_id,
                file,
                fragmentation,
                bytes_moved,
            },
        );
    }
}

// ---------------------------------------------------------------------
// Control
// ---------------------------------------------------------------------

/// What a job does at a checkpoint.
#[derive(Clone, Copy, Debug, PartialEq, Eq, Structural)]
pub enum Gate {
    /// Go on.
    Proceed,
    /// Wait for a change and ask again.
    Wait,
}

/// How a job learns that it is held up or ended.
pub trait JobControl {
    spec fn paused(&self) -> bool;

    spec fn cancelled(&self) -> bool;

    /// A cancelled job ends here, even while it is paused; a paused one
    /// waits.
    fn checkpoint(&self) -> (gate: Result<Gate, ServiceError>)
        ensures
            gate matches Err(e) ==> e@ == ErrorView::Cancelled,
            (gate is Err) == self.cancelled(),
            gate matches Ok(g) ==> g == (if self.paused() {
                Gate::Wait
            } else {
                Gate::Proceed
            }),
    ;

    fn is_cancelled(&self) -> (yes: bool)
        ensures
            yes == self.cancelled(),
    ;
}

/// The state of a job as its owner sets it.
#[derive(Clone, Copy, Debug, PartialEq, Eq, Structural)]
pub struct Control {
    pub paused: bool,
    pub cancelled: bool,
}

impl Default for Control {
    fn default() -> (control: Self)
        ensures
            control == (Control { paused: false, cancelled: false }),
    {
        Control { paused: false, cancelled: false }
    }
}

impl Control {
    /// Holds a job up or lets it go on, and says whether a waiting job must
    /// be woken.
    pub fn set_paused(&mut self, paused: bool) -> (wake: bool)
        ensures
            *final(self) == (Control { paused, ..*old(self) }),
            wake == !paused,
    {
        self.paused = paused;
        !paused
    }

    /// Ends a job; it is never taken back.
    pub fn cancel(&mut self)
        ensures
            *final(self) == (Control { cancelled: true, ..*old(self) }),
    {
        self.cancelled = true;
    }
}

impl JobControl for Control {
    open spec fn paused(&self) -> bool {
        self.paused
    }

    open spec fn cancelled(&self) -> bool {
        self.cancelled
    }

    fn checkpoint(&self) -> (gate: Result<Gate, ServiceError>) {
        if self.cancelled {
            Err(ServiceError::Cancelled)
        } else if self.paused {
            Ok(Gate::Wait)
        } else {
            Ok(Gate::Proceed)
        }
    }

    fn is_cancelled(&self) -> (yes: bool) {
        self.cancelled
    }
}

/// The owner's end of a job: its events in the order in which they were
/// told, and its control.
#[derive(Debug)]
pub struct JobHandle {
    job_id: JobId,
    queue: Vec<ServiceEvent>,
    control: Control,
}

/// The contents of a [`JobHandle`].
#[verifier::ext_equal]
pub struct HandleView {
    pub job_id: JobId,
    pub events: Seq<EventView>,
    pub control: Control,
}

impl View for JobHandle {
    type V = HandleView;

    closed spec fn view(&self) -> HandleView {
        HandleView {
            job_id: self.job_id,
            events: views::of(self.queue@),
            control: self.control,
        }
    }
}

impl JobHandle {
    /// The handle of a job that has just been announced.
    pub(crate) fn new(job_id: JobId, announcement: ServiceEvent) -> (handle: JobHandle)
        ensures
            handle@ == (HandleView {
                job_id,
                events: seq![announcement@],
                control: Control { paused: false, cancelled: false },
            }),
    {
        let ghost told = announcement@;
        let mut queue: Vec<ServiceEvent> = Vec::new();
        queue.push(announcement);
        assert(views::of(queue@) =~= seq![told]);
        JobHandle { job_id, queue, control: Control { paused: false, cancelled: false } }
    }

    /// The job of this handle.
    pub fn id(&self) -> (id: JobId)
        ensures
            id == self@.job_id,
    {
        self.job_id
    }

    /// The events that were told and not yet received, oldest first.
    pub fn events(&self) -> (events: &Vec<ServiceEvent>)
        ensures
            views::of(events@) == self@.events,
    {
        &self.queue
    }

    /// Appends an event that the job told.
    pub fn deliver(&mut self, event: ServiceEvent)
        ensures
            final(self)@ == (HandleView {
                events: old(self)@.events.push(event@),
                ..old(self)@
            }),
    {
        let ghost before = views::of(self.queue@);
        let ghost told = event@;
        self.queue.push(event);
        assert(views::of(self.queue@) =~= before.push(told));
    }

    /// Receives the oldest event.
    pub fn receive(&mut self) -> (event: Option<ServiceEvent>)
        ensures
            old(self)@.events.len() == 0 ==> event is None && final(self)@ == old(self)@,
            old(self)@.events.len() > 0 ==> views::opt(event) == Some(old(self)@.events[0])
                && final(self)@ == (HandleView {
                events: old(self)@.events.skip(1),
                ..old(self)@
            }),
    {
        if self.queue.len() == 0 {
            return None;
        }
        let ghost before = views::of(self.queue@);
        let event: ServiceEvent = self.queue.remove(0);
        assert(views::of(self.queue@) =~= before.skip(1));
        Some(event)
    }

    /// What the job finds at its next checkpoint.
    pub fn control(&self) -> (control: Control)
        ensures
            control == self@.control,
    {
        self.control
    }

    /// Holds the job up at its next checkpoint.
    pub fn pause(&mut self)
        ensures
            final(self)@ == (HandleView {
                control: Control { paused: true, ..old(self)@.control },
                ..old(self)@
            }),
    {
        let _ = self.control.set_paused(true);
    }

    /// Lets the job go on.
    pub fn resume(&mut self)
        ensures
            final(self)@ == (HandleView {
                control: Control { paused: false, ..old(self)@.control },
                ..old(self)@
            }),
    {
        let _ = self.control.set_paused(false);
    }

    /// Ends the job at its next checkpoint.
    pub fn cancel(&mut self)
        ensures
            final(self)@ == (HandleView {
                control: Control { cancelled: true, ..old(self)@.control },
                ..old(self)@
            }),
    {
        self.control.cancel();
    }
}

} // verus!
