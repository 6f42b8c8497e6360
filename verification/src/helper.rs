//! The helper that serves the service to other processes: who may ask for
//! what, and how long jobs and analyses are kept for a client that is gone.

use vstd::prelude::*;

use crate::domain::{
    AnalysisId, AnalysisReport, AnalysisReportView, EventView, FileReport, FileReportView, JobId,
    PlanId, ServiceEvent,
};
use crate::service;
use crate::text;
use crate::views;

verus! {

/// How the helper knows its callers.
#[derive(Clone, Copy, Debug, PartialEq, Eq, Structural)]
pub enum AuthorizationMode {
    /// By their names on the bus.
    PolicyKit,
    /// There is one, and it started the helper.
    TrustedPeer,
}

/// What a caller asks leave for.
#[derive(Clone, Copy, Debug, PartialEq, Eq, Structural)]
pub enum Leave {
    /// To inspect all files of a volume.
    ReadAllFiles,
    /// To write to a filesystem.
    ModifyFilesystem,
}

/// Why the helper refuses a request.
#[derive(Debug)]
pub enum HelperError {
    Failed(String),
    AccessDenied(String),
    UnknownObject(String),
    LimitsExceeded(String),
}

/// The contents of a [`HelperError`].
#[verifier::ext_equal]
pub enum RefusalView {
    Failed(Seq<char>),
    AccessDenied(Seq<char>),
    UnknownObject(Seq<char>),
    LimitsExceeded(Seq<char>),
}

impl View for HelperError {
    type V = RefusalView;

    open spec fn view(&self) -> RefusalView {
        match self {
            HelperError::Failed(message) => RefusalView::Failed(message@),
            HelperError::AccessDenied(message) => RefusalView::AccessDenied(message@),
            HelperError::UnknownObject(message) => RefusalView::UnknownObject(message@),
            HelperError::LimitsExceeded(message) => RefusalView::LimitsExceeded(message@),
        }
    }
}

/// A job, an analysis or a plan, and who owns it.
#[derive(Debug)]
pub struct Entry {
    pub id: u64,
    pub owner: String,
    /// When the owner last asked for it, in milliseconds.
    pub last_used: u64,
}

/// The contents of an [`Entry`].
#[verifier::ext_equal]
pub struct EntryView {
    pub id: u64,
    pub owner: Seq<char>,
    pub last_used: u64,
}

impl View for Entry {
    type V = EntryView;

    open spec fn view(&self) -> EntryView {
        EntryView { id: self.id, owner: self.owner@, last_used: self.last_used }
    }
}

impl Clone for Entry {
    fn clone(&self) -> (copy: Self)
        ensures
            copy@ == self@,
    {
        Entry { id: self.id, owner: self.owner.clone(), last_used: self.last_used }
    }
}

/// How long a job is kept whose owner does not ask for events, in
/// milliseconds.
pub const ABANDONED_AFTER: u64 = 30_000;

/// How long an analysis is kept that is not used, in milliseconds.
pub const EXPIRED_AFTER: u64 = 600_000;

/// The longest time that the helper waits for an event, in milliseconds.
pub const LONGEST_WAIT: u32 = 1_000;

/// What the helper keeps for its clients.
#[derive(Debug)]
pub struct Helper {
    pub authorization: AuthorizationMode,
    pub jobs: Vec<Entry>,
    pub analyses: Vec<Entry>,
    pub plans: Vec<Entry>,
}

/// The contents of a [`Helper`].
#[verifier::ext_equal]
pub struct HelperView {
    pub authorization: AuthorizationMode,
    pub jobs: Seq<EntryView>,
    pub analyses: Seq<EntryView>,
    pub plans: Seq<EntryView>,
}

impl View for Helper {
    type V = HelperView;

    open spec fn view(&self) -> HelperView {
        HelperView {
            authorization: self.authorization,
            jobs: views::of(self.jobs@),
            analyses: views::of(self.analyses@),
            plans: views::of(self.plans@),
        }
    }
}

// ---------------------------------------------------------------------
// Lists of entries
// ---------------------------------------------------------------------

/// The place of an entry, or the number of entries.
pub open spec fn place(list: Seq<EntryView>, id: u64) -> int
    decreases list.len(),
{
    if list.len() == 0 || list[0].id == id {
        0
    } else {
        place(list.skip(1), id) + 1
    }
}

/// The entries without one of a number.
pub open spec fn without(list: Seq<EntryView>, id: u64) -> Seq<EntryView>
    decreases list.len(),
{
    if list.len() == 0 {
        list
    } else if list.last().id == id {
        without(list.drop_last(), id)
    } else {
        without(list.drop_last(), id).push(list.last())
    }
}

/// The entries with one more, which takes the place of one of its number.
pub open spec fn with_entry(list: Seq<EntryView>, entry: EntryView) -> Seq<EntryView> {
    without(list, entry.id).push(entry)
}

/// The entries when one was asked for.
pub open spec fn touched(list: Seq<EntryView>, at: int, now: u64) -> Seq<EntryView> {
    list.update(at, EntryView { last_used: now, ..list[at] })
}

/// Whether an entry has not been asked for so long.
pub open spec fn is_stale(entry: EntryView, now: u64, limit: u64) -> bool {
    now - entry.last_used >= limit
}

/// The entries that were asked for lately.
pub open spec fn fresh(list: Seq<EntryView>, now: u64, limit: u64) -> Seq<EntryView>
    decreases list.len(),
{
    if list.len() == 0 {
        list
    } else if is_stale(list.last(), now, limit) {
        fresh(list.drop_last(), now, limit)
    } else {
        fresh(list.drop_last(), now, limit).push(list.last())
    }
}

/// The numbers of the entries that were not asked for lately.
pub open spec fn stale(list: Seq<EntryView>, now: u64, limit: u64) -> Seq<u64>
    decreases list.len(),
{
    if list.len() == 0 {
        Seq::empty()
    } else if is_stale(list.last(), now, limit) {
        stale(list.drop_last(), now, limit).push(list.last().id)
    } else {
        stale(list.drop_last(), now, limit)
    }
}

/// Whether a caller owns an entry of a list.
pub open spec fn owns_one(list: Seq<EntryView>, owner: Seq<char>) -> bool {
    exists|i: int| 0 <= i < list.len() && (#[trigger] list[i]).owner == owner
}

/// Where the entry of a number stands, if a caller owns it.
pub open spec fn access(list: Seq<EntryView>, noun: Seq<char>, id: u64, owner: Seq<char>) -> Result<
    int,
    RefusalView,
> {
    let at = place(list, id);
    if at >= list.len() {
        Err(
            RefusalView::UnknownObject(
                noun + " "@ + text::decimal(id as nat) + " was not found"@,
            ),
        )
    } else if list[at].owner != owner {
        Err(RefusalView::AccessDenied("the "@ + noun + " belongs to a different client"@))
    } else {
        Ok(at)
    }
}

/// Whether no number occurs twice in a list.
pub open spec fn numbers_differ(list: Seq<EntryView>) -> bool {
    forall|i: int, j: int|
        0 <= i < j < list.len() ==> (#[trigger] list[i]).id != (#[trigger] list[j]).id
}

impl HelperView {
    /// Whether each job, each analysis and each plan is kept once.
    pub open spec fn distinct(self) -> bool {
        &&& numbers_differ(self.jobs)
        &&& numbers_differ(self.analyses)
        &&& numbers_differ(self.plans)
    }
}

/// What may be done with a job by a caller.
pub open spec fn job_access(jobs: Seq<EntryView>, job_id: u64, owner: Seq<char>) -> Result<
    int,
    RefusalView,
> {
    access(jobs, "analysis job"@, job_id, owner)
}

/// What may be done with an analysis by a caller.
pub open spec fn analysis_access(
    analyses: Seq<EntryView>,
    analysis_id: u64,
    owner: Seq<char>,
) -> Result<int, RefusalView> {
    access(analyses, "analysis"@, analysis_id, owner)
}

/// What may be done with a plan by a caller.
pub open spec fn plan_access(plans: Seq<EntryView>, plan_id: u64, owner: Seq<char>) -> Result<
    int,
    RefusalView,
> {
    access(plans, "plan"@, plan_id, owner)
}

proof fn lemma_place(list: Seq<EntryView>, id: u64)
    ensures
        0 <= place(list, id) <= list.len(),
        place(list, id) < list.len() ==> list[place(list, id)].id == id,
        forall|k: int| 0 <= k < place(list, id) ==> (#[trigger] list[k]).id != id,
    decreases list.len(),
{
    if list.len() > 0 && list[0].id != id {
        let rest = list.skip(1);
        lemma_place(rest, id);
        assert forall|k: int| 0 <= k < place(list, id) implies (#[trigger] list[k]).id != id by {
            if k > 0 {
                assert(rest[k - 1] == list[k]);
            }
        }
    }
}

fn find(list: &Vec<Entry>, id: u64) -> (at: usize)
    ensures
        at == place(views::of(list@), id),
        at <= list@.len(),
{
    let ghost all = views::of(list@);
    proof {
        lemma_place(all, id);
    }
    let mut i: usize = 0;
    while i < list.len()
        invariant
            i <= list@.len(),
            all == views::of(list@),
            i <= place(all, id) <= all.len(),
            place(all, id) < all.len() ==> all[place(all, id)].id == id,
            forall|k: int| 0 <= k < place(all, id) ==> (#[trigger] all[k]).id != id,
        decreases list@.len() - i,
    {
        assert(all[i as int] == list@[i as int]@);
        if list[i].id == id {
            return i;
        }
        i = i + 1;
    }
    i
}

fn remove(list: &Vec<Entry>, id: u64) -> (rest: Vec<Entry>)
    ensures
        views::of(rest@) == without(views::of(list@), id),
{
    let ghost all = views::of(list@);
    let mut rest: Vec<Entry> = Vec::new();
    assert(views::of(rest@) =~= all.take(0));
    let mut i: usize = 0;
    while i < list.len()
        invariant
            i <= list@.len(),
            all == views::of(list@),
            views::of(rest@) == without(all.take(i as int), id),
        decreases list@.len() - i,
    {
        assert(all.take(i + 1).drop_last() =~= all.take(i as int));
        if list[i].id != id {
            let ghost before = views::of(rest@);
            let entry: Entry = list[i].clone();
            let ghost added = entry@;
            rest.push(entry);
            assert(views::of(rest@) =~= before.push(added));
        }
        i = i + 1;
    }
    assert(all.take(i as int) =~= all);
    rest
}

fn enter(list: &Vec<Entry>, id: u64, owner: &str, now: u64) -> (longer: Vec<Entry>)
    ensures
        views::of(longer@) == with_entry(
            views::of(list@),
            EntryView { id, owner: owner@, last_used: now },
        ),
{
    let mut longer: Vec<Entry> = remove(list, id);
    let ghost before = views::of(longer@);
    longer.push(Entry { id, owner: owner.to_owned(), last_used: now });
    assert(views::of(longer@) =~= before.push(EntryView { id, owner: owner@, last_used: now }));
    longer
}

fn touch(list: &mut Vec<Entry>, at: usize, now: u64)
    requires
        at < old(list)@.len(),
    ensures
        views::of(final(list)@) == touched(views::of(old(list)@), at as int, now),
{
    let ghost before = views::of(list@);
    let mut entry: Entry = list[at].clone();
    entry.last_used = now;
    let ghost changed = entry@;
    list.set(at, entry);
    assert(views::of(list@) =~= before.update(at as int, changed));
}

fn reach(list: &Vec<Entry>, noun: &str, id: u64, owner: &str) -> (result: Result<
    usize,
    HelperError,
>)
    ensures
        match result {
            Ok(at) => at < list@.len() && access(views::of(list@), noun@, id, owner@) == Ok::<
                int,
                RefusalView,
            >(at as int),
            Err(e) => access(views::of(list@), noun@, id, owner@) == Err::<int, RefusalView>(e@),
        },
{
    let at: usize = find(list, id);
    if at >= list.len() {
        let mut message: String = noun.to_owned();
        text::push_text(&mut message, " ");
        text::push_decimal(&mut message, id);
        text::push_text(&mut message, " was not found");
        return Err(HelperError::UnknownObject(message));
    }
    assert(views::of(list@)[at as int] == list@[at as int]@);
    if !text::same_text(list[at].owner.as_str(), owner) {
        let mut message: String = "the ".to_owned();
        text::push_text(&mut message, noun);
        text::push_text(&mut message, " belongs to a different client");
        return Err(HelperError::AccessDenied(message));
    }
    Ok(at)
}

fn part_by_age(list: &Vec<Entry>, now: u64, limit: u64) -> (parts: (Vec<Entry>, Vec<u64>))
    requires
        limit > 0,
    ensures
        views::of(parts.0@) == fresh(views::of(list@), now, limit),
        parts.1@ == stale(views::of(list@), now, limit),
{
    let ghost all = views::of(list@);
    let mut kept: Vec<Entry> = Vec::new();
    let mut gone: Vec<u64> = Vec::new();
    assert(views::of(kept@) =~= all.take(0));
    let mut i: usize = 0;
    while i < list.len()
        invariant
            i <= list@.len(),
            limit > 0,
            all == views::of(list@),
            views::of(kept@) == fresh(all.take(i as int), now, limit),
            gone@ == stale(all.take(i as int), now, limit),
        decreases list@.len() - i,
    {
        assert(all.take(i + 1).drop_last() =~= all.take(i as int));
        if now.saturating_sub(list[i].last_used) >= limit {
            gone.push(list[i].id);
        } else {
            let ghost before = views::of(kept@);
            let entry: Entry = list[i].clone();
            let ghost added = entry@;
            kept.push(entry);
            assert(views::of(kept@) =~= before.push(added));
        }
        i = i + 1;
    }
    assert(all.take(i as int) =~= all);
    (kept, gone)
}

// ---------------------------------------------------------------------
// Callers
// ---------------------------------------------------------------------

/// Under which name a caller owns what it starts.
pub open spec fn owner_of(mode: AuthorizationMode, sender: Option<Seq<char>>) -> Result<
    Seq<char>,
    RefusalView,
> {
    match (mode, sender) {
        (AuthorizationMode::TrustedPeer, _) => Ok("development-peer"@),
        (AuthorizationMode::PolicyKit, Some(name)) => Ok(name),
        (AuthorizationMode::PolicyKit, None) => Err(
            RefusalView::AccessDenied("the D-Bus caller has no unique name"@),
        ),
    }
}

/// An event as it is sent to a client: of a report only the fragmented files
/// are, for the client shows no others.
pub open spec fn sent_event(event: EventView) -> EventView {
    match event {
        EventView::AnalysisFinished { job_id, analysis_id, report } => EventView::AnalysisFinished {
            job_id,
            analysis_id,
            report: AnalysisReportView { files: fragmented(report.files), ..report },
        },
        _ => event,
    }
}

/// The fragmented files, in order.
pub open spec fn fragmented(files: Seq<FileReportView>) -> Seq<FileReportView>
    decreases files.len(),
{
    if files.len() == 0 {
        files
    } else if files.last().excess_runs > 0 {
        fragmented(files.drop_last()).push(files.last())
    } else {
        fragmented(files.drop_last())
    }
}

fn only_fragmented(files: &Vec<FileReport>) -> (rest: Vec<FileReport>)
    ensures
        views::of(rest@) == fragmented(views::of(files@)),
{
    let ghost all = views::of(files@);
    let mut rest: Vec<FileReport> = Vec::new();
    assert(views::of(rest@) =~= all.take(0));
    let mut i: usize = 0;
    while i < files.len()
        invariant
            i <= files@.len(),
            all == views::of(files@),
            views::of(rest@) == fragmented(all.take(i as int)),
        decreases files@.len() - i,
    {
        assert(all.take(i + 1).drop_last() =~= all.take(i as int));
        if files[i].excess_runs > 0 {
            let ghost before = views::of(rest@);
            let file: FileReport = files[i].clone();
            let ghost added = file@;
            rest.push(file);
            assert(views::of(rest@) =~= before.push(added));
        }
        i = i + 1;
    }
    assert(all.take(i as int) =~= all);
    rest
}

/// What the helper keeps when an event of a job was sent: a finished
/// analysis belongs to the owner of its job, and a job is over with its last
/// event.
pub open spec fn after_event(
    h: HelperView,
    job_id: u64,
    owner: Seq<char>,
    event: EventView,
    now: u64,
) -> HelperView {
    HelperView {
        analyses: match event {
            EventView::AnalysisFinished { job_id: _, analysis_id, report } => with_entry(
                h.analyses,
                EntryView { id: analysis_id.0, owner, last_used: now },
            ),
            _ => h.analyses,
        },
        jobs: if service::ends_job(event) {
            without(h.jobs, job_id)
        } else {
            h.jobs
        },
        ..h
    }
}

impl Helper {
    /// A helper that keeps nothing yet.
    pub fn new(authorization: AuthorizationMode) -> (helper: Helper)
        ensures
            helper@ == (HelperView {
                authorization,
                jobs: Seq::empty(),
                analyses: Seq::empty(),
                plans: Seq::empty(),
            }),
            helper@.distinct(),
    {
        let helper = Helper {
            authorization,
            jobs: Vec::new(),
            analyses: Vec::new(),
            plans: Vec::new(),
        };
        assert(helper@.jobs =~= Seq::empty());
        assert(helper@.analyses =~= Seq::empty());
        assert(helper@.plans =~= Seq::empty());
        helper
    }

    /// Says under which name a caller owns what it starts.
    pub fn owner(&self, sender: Option<String>) -> (owner: Result<String, HelperError>)
        ensures
            match owner {
                Ok(name) => owner_of(self@.authorization, views::opt(sender)) == Ok::<
                    Seq<char>,
                    RefusalView,
                >(name@),
                Err(e) => owner_of(self@.authorization, views::opt(sender)) == Err::<
                    Seq<char>,
                    RefusalView,
                >(e@),
            },
    {
        match self.authorization {
            AuthorizationMode::TrustedPeer => Ok("development-peer".to_owned()),
            AuthorizationMode::PolicyKit => match sender {
                Some(name) => Ok(name),
                None => Err(
                    HelperError::AccessDenied("the D-Bus caller has no unique name".to_owned()),
                ),
            },
        }
    }

    /// Lets a caller start a job, where it has none: a client owns at most
    /// one running job.
    pub fn may_start(&self, owner: &str) -> (result: Result<(), HelperError>)
        ensures
            (result is Err) == owns_one(self@.jobs, owner@),
            result matches Err(e) ==> e@ == RefusalView::LimitsExceeded(
                "this client already has an active analysis"@,
            ),
    {
        let ghost all = views::of(self.jobs@);
        let mut i: usize = 0;
        while i < self.jobs.len()
            invariant
                i <= self.jobs@.len(),
                all == views::of(self.jobs@),
                forall|k: int| 0 <= k < i ==> (#[trigger] all[k]).owner != owner@,
            decreases self.jobs@.len() - i,
        {
            assert(all[i as int] == self.jobs@[i as int]@);
            if text::same_text(self.jobs[i].owner.as_str(), owner) {
                return Err(
                    HelperError::LimitsExceeded(
                        "this client already has an active analysis".to_owned(),
                    ),
                );
            }
            i = i + 1;
        }
        Ok(())
    }

    /// Takes in a job that a caller started, which had none.
    pub fn job_started(&mut self, job_id: JobId, owner: &str, now: u64)
        requires
            !owns_one(old(self)@.jobs, owner@),
        ensures
            final(self)@ == (HelperView {
                jobs: with_entry(
                    old(self)@.jobs,
                    EntryView { id: job_id.0, owner: owner@, last_used: now },
                ),
                ..old(self)@
            }),
    {
        self.jobs = enter(&self.jobs, job_id.0, owner, now);
    }

    /// Lets a caller control a job that it owns.
    pub fn control_job(&self, job_id: u64, owner: &str) -> (result: Result<(), HelperError>)
        ensures
            match result {
                Ok(_) => job_access(self@.jobs, job_id, owner@) is Ok,
                Err(e) => job_access(self@.jobs, job_id, owner@) == Err::<int, RefusalView>(e@),
            },
    {
        match reach(&self.jobs, "analysis job", job_id, owner) {
            Ok(_) => Ok(()),
            Err(e) => Err(e),
        }
    }

    /// Lets a caller ask for an event of a job that it owns, and remembers
    /// that it did.
    pub fn next_event(&mut self, job_id: u64, owner: &str, now: u64) -> (result: Result<
        (),
        HelperError,
    >)
        ensures
            match job_access(old(self)@.jobs, job_id, owner@) {
                Ok(at) => result is Ok && final(self)@ == (HelperView {
                    jobs: touched(old(self)@.jobs, at, now),
                    ..old(self)@
                }),
                Err(failure) => result matches Err(e) && e@ == failure && final(self)@ == old(
                    self,
                )@,
            },
    {
        match reach(&self.jobs, "analysis job", job_id, owner) {
            Ok(at) => {
                touch(&mut self.jobs, at, now);
                Ok(())
            },
            Err(e) => Err(e),
        }
    }

    /// Takes in an event of a job that was waited for, and gives it as it is
    /// sent.
    pub fn event_came(&mut self, job_id: u64, owner: &str, event: ServiceEvent, now: u64) -> (sent:
        ServiceEvent)
        ensures
            sent@ == sent_event(event@),
            final(self)@ == after_event(old(self)@, job_id, owner@, event@, now),
    {
        let last: bool = service::is_terminal(&event);
        if last {
            self.jobs = remove(&self.jobs, job_id);
        }
        match event {
            ServiceEvent::AnalysisFinished { job_id: told, analysis_id, report } => {
                self.analyses = enter(&self.analyses, analysis_id.0, owner, now);
                let mut reduced: AnalysisReport = *report;
                reduced.files = only_fragmented(&reduced.files);
                ServiceEvent::AnalysisFinished {
                    job_id: told,
                    analysis_id,
                    report: Box::new(reduced),
                }
            },
            _ => event,
        }
    }

    /// Takes in that a job ended without a last event.
    pub fn stream_closed(&mut self, job_id: u64) -> (refusal: HelperError)
        ensures
            refusal@ == RefusalView::Failed("analysis event stream closed unexpectedly"@),
            final(self)@ == (HelperView {
                jobs: without(old(self)@.jobs, job_id),
                ..old(self)@
            }),
    {
        self.jobs = remove(&self.jobs, job_id);
        HelperError::Failed("analysis event stream closed unexpectedly".to_owned())
    }

    /// Lets a caller plan with an analysis that it owns, and remembers that
    /// it did.
    pub fn build_plan(&mut self, analysis_id: u64, owner: &str, now: u64) -> (result: Result<
        (),
        HelperError,
    >)
        ensures
            match analysis_access(old(self)@.analyses, analysis_id, owner@) {
                Ok(at) => result is Ok && final(self)@ == (HelperView {
                    analyses: touched(old(self)@.analyses, at, now),
                    ..old(self)@
                }),
                Err(failure) => result matches Err(e) && e@ == failure && final(self)@ == old(
                    self,
                )@,
            },
    {
        match reach(&self.analyses, "analysis", analysis_id, owner) {
            Ok(at) => {
                touch(&mut self.analyses, at, now);
                Ok(())
            },
            Err(e) => Err(e),
        }
    }

    /// Takes in a plan that was built for a caller.
    pub fn plan_built(&mut self, plan_id: PlanId, owner: &str, now: u64)
        ensures
            final(self)@ == (HelperView {
                plans: with_entry(
                    old(self)@.plans,
                    EntryView { id: plan_id.0, owner: owner@, last_used: now },
                ),
                ..old(self)@
            }),
    {
        self.plans = enter(&self.plans, plan_id.0, owner, now);
    }

    /// Lets a caller carry out a plan that it owns, where it has no running
    /// job. The plan is then used up.
    pub fn start_defrag(&mut self, plan_id: u64, owner: &str) -> (result: Result<(), HelperError>)
        ensures
            match plan_access(old(self)@.plans, plan_id, owner@) {
                Ok(_) => if owns_one(old(self)@.jobs, owner@) {
                    &&& result matches Err(e)
                    &&& e@ == RefusalView::LimitsExceeded(
                        "this client already has an active analysis"@,
                    )
                    &&& final(self)@ == old(self)@
                } else {
                    &&& result is Ok
                    &&& final(self)@ == (HelperView {
                        plans: without(old(self)@.plans, plan_id),
                        ..old(self)@
                    })
                },
                Err(failure) => result matches Err(e) && e@ == failure && final(self)@ == old(
                    self,
                )@,
            },
    {
        if let Err(e) = reach(&self.plans, "plan", plan_id, owner) {
            return Err(e);
        }
        if let Err(e) = self.may_start(owner) {
            return Err(e);
        }
        self.plans = remove(&self.plans, plan_id);
        Ok(())
    }

    /// Gives up what no client asks for any more, and says which jobs are to
    /// be cancelled and which analyses are to be discarded.
    pub fn reap(&mut self, now: u64) -> (gone: (Vec<u64>, Vec<u64>))
        ensures
            final(self)@ == (HelperView {
                jobs: fresh(old(self)@.jobs, now, ABANDONED_AFTER),
                analyses: fresh(old(self)@.analyses, now, EXPIRED_AFTER),
                ..old(self)@
            }),
            gone.0@ == stale(old(self)@.jobs, now, ABANDONED_AFTER),
            gone.1@ == stale(old(self)@.analyses, now, EXPIRED_AFTER),
    {
        let (jobs, abandoned) = part_by_age(&self.jobs, now, ABANDONED_AFTER);
        let (analyses, expired) = part_by_age(&self.analyses, now, EXPIRED_AFTER);
        self.jobs = jobs;
        self.analyses = analyses;
        (abandoned, expired)
    }
}

/// The action of PolicyKit that grants leave.
pub open spec fn action_name(leave: Leave) -> Seq<char> {
    match leave {
        Leave::ReadAllFiles => "net.gootz.defragger.read-all-files"@,
        Leave::ModifyFilesystem => "net.gootz.defragger.modify-filesystem"@,
    }
}

/// Names the action of PolicyKit that grants leave.
pub fn action(leave: Leave) -> (name: &'static str)
    ensures
        name@ == action_name(leave),
{
    match leave {
        Leave::ReadAllFiles => "net.gootz.defragger.read-all-files",
        Leave::ModifyFilesystem => "net.gootz.defragger.modify-filesystem",
    }
}

/// The answer to a caller that was refused leave.
pub open spec fn refused_text(leave: Leave) -> Seq<char> {
    match leave {
        Leave::ReadAllFiles => "authorization to inspect all files was not granted"@,
        Leave::ModifyFilesystem => "authorization to modify the filesystem was not granted"@,
    }
}

/// Lets a caller go on that was granted leave.
pub fn authorized(owner: String, leave: Leave, granted: bool) -> (result: Result<
    String,
    HelperError,
>)
    ensures
        match result {
            Ok(name) => granted && name@ == owner@,
            Err(e) => !granted && e@ == RefusalView::AccessDenied(refused_text(leave)),
        },
{
    if granted {
        return Ok(owner);
    }
    Err(
        HelperError::AccessDenied(
            match leave {
                Leave::ReadAllFiles => "authorization to inspect all files was not granted",
                Leave::ModifyFilesystem => "authorization to modify the filesystem was not granted",
            }.to_owned(),
        ),
    )
}

/// Cuts the time that a client wants to wait for an event.
pub fn wait_limit(timeout_ms: u32) -> (wait: u32)
    ensures
        wait == (if timeout_ms < LONGEST_WAIT {
            timeout_ms
        } else {
            LONGEST_WAIT
        }),
{
    if timeout_ms < LONGEST_WAIT {
        timeout_ms
    } else {
        LONGEST_WAIT
    }
}

// ---------------------------------------------------------------------
// What holds of every client
// ---------------------------------------------------------------------

/// Whether no client owns two entries of a list.
pub open spec fn one_each(list: Seq<EntryView>) -> bool {
    forall|i: int, j: int|
        0 <= i < j < list.len() ==> (#[trigger] list[i]).owner != (#[trigger] list[j]).owner
}

/// Whether a list holds entries of another one alone, in their order.
spec fn is_part(part: Seq<EntryView>, list: Seq<EntryView>) -> bool {
    &&& one_each(list) ==> one_each(part)
    &&& numbers_differ(list) ==> numbers_differ(part)
    &&& forall|i: int| 0 <= i < part.len() ==> list.contains(#[trigger] part[i])
}

proof fn lemma_part_of_longer(
    part: Seq<EntryView>,
    rest: Seq<EntryView>,
    list: Seq<EntryView>,
    longer: Seq<EntryView>,
)
    requires
        list.len() > 0,
        rest == list.drop_last(),
        is_part(part, rest),
        longer == part || longer == part.push(list.last()),
    ensures
        is_part(longer, list),
{
    assert forall|i: int| 0 <= i < longer.len() implies list.contains(#[trigger] longer[i]) by {
        if i < part.len() {
            assert(longer[i] == part[i]);
            assert(rest.contains(part[i]));
            let k = choose|k: int| 0 <= k < rest.len() && rest[k] == part[i];
            assert(list[k] == part[i]);
        } else {
            assert(list[list.len() - 1] == longer[i]);
        }
    }
    if one_each(list) {
        assert forall|i: int, j: int| 0 <= i < j < rest.len() implies (#[trigger] rest[i]).owner
            != (#[trigger] rest[j]).owner by {
            assert(rest[i] == list[i] && rest[j] == list[j]);
        }
        assert forall|i: int, j: int| 0 <= i < j < longer.len() implies (
        #[trigger] longer[i]).owner != (#[trigger] longer[j]).owner by {
            if j == part.len() {
                assert(rest.contains(part[i]));
                let k = choose|k: int| 0 <= k < rest.len() && rest[k] == part[i];
                assert(list[k] == longer[i] && list[list.len() - 1] == longer[j]);
            }
        }
    }
    if numbers_differ(list) {
        assert forall|i: int, j: int| 0 <= i < j < rest.len() implies (#[trigger] rest[i]).id != (
        #[trigger] rest[j]).id by {
            assert(rest[i] == list[i] && rest[j] == list[j]);
        }
        assert forall|i: int, j: int| 0 <= i < j < longer.len() implies (#[trigger] longer[i]).id
            != (#[trigger] longer[j]).id by {
            if j == part.len() {
                assert(rest.contains(part[i]));
                let k = choose|k: int| 0 <= k < rest.len() && rest[k] == part[i];
                assert(list[k] == longer[i] && list[list.len() - 1] == longer[j]);
            }
        }
    }
}

proof fn lemma_without(list: Seq<EntryView>, id: u64)
    ensures
        is_part(without(list, id), list),
        forall|i: int|
            0 <= i < without(list, id).len() ==> (#[trigger] without(list, id)[i]).id != id,
    decreases list.len(),
{
    if list.len() > 0 {
        let rest = list.drop_last();
        let out = without(list, id);
        let before = without(rest, id);
        lemma_without(rest, id);
        lemma_part_of_longer(before, rest, list, out);
        assert forall|i: int| 0 <= i < out.len() implies (#[trigger] out[i]).id != id by {
            if i < before.len() {
                assert(out[i] == before[i]);
            }
        }
    }
}

proof fn lemma_fresh(list: Seq<EntryView>, now: u64, limit: u64)
    ensures
        is_part(fresh(list, now, limit), list),
    decreases list.len(),
{
    if list.len() > 0 {
        let rest = list.drop_last();
        lemma_fresh(rest, now, limit);
        lemma_part_of_longer(fresh(rest, now, limit), rest, list, fresh(list, now, limit));
    }
}

proof fn lemma_place_of_new(list: Seq<EntryView>, entry: EntryView)
    requires
        forall|i: int| 0 <= i < list.len() ==> (#[trigger] list[i]).id != entry.id,
    ensures
        place(list.push(entry), entry.id) == list.len(),
    decreases list.len(),
{
    let all = list.push(entry);
    if list.len() > 0 {
        assert(all[0] == list[0]);
        assert(all.skip(1) =~= list.skip(1).push(entry));
        assert forall|i: int| 0 <= i < list.skip(1).len() implies (#[trigger] list.skip(1)[i]).id
            != entry.id by {
            assert(list.skip(1)[i] == list[i + 1]);
        }
        lemma_place_of_new(list.skip(1), entry);
    }
}

/// What was entered for an owner can be reached by that owner, and by nobody
/// else.
pub proof fn lemma_entries_are_bound_to_owners(
    list: Seq<EntryView>,
    noun: Seq<char>,
    entry: EntryView,
    other: Seq<char>,
)
    requires
        other != entry.owner,
    ensures
        access(with_entry(list, entry), noun, entry.id, entry.owner) is Ok,
        access(with_entry(list, entry), noun, entry.id, other) == Err::<int, RefusalView>(
            RefusalView::AccessDenied("the "@ + noun + " belongs to a different client"@),
        ),
{
    lemma_without(list, entry.id);
    lemma_place_of_new(without(list, entry.id), entry);
}

/// A finished analysis can be planned with by the owner of its job, and by
/// nobody else.
pub proof fn lemma_analyses_are_bound_to_owners(
    h: HelperView,
    job_id: JobId,
    analysis_id: AnalysisId,
    report: AnalysisReportView,
    owner: Seq<char>,
    other: Seq<char>,
    now: u64,
)
    requires
        owner != other,
    ensures
        ({
            let event = EventView::AnalysisFinished { job_id, analysis_id, report };
            let after = after_event(h, job_id.0, owner, event, now);
            &&& analysis_access(after.analyses, analysis_id.0, owner) is Ok
            &&& analysis_access(after.analyses, analysis_id.0, other) is Err
        }),
{
    lemma_entries_are_bound_to_owners(
        h.analyses,
        "analysis"@,
        EntryView { id: analysis_id.0, owner, last_used: now },
        other,
    );
}

/// Where no client owns two jobs, none does after a client without a job has
/// started one.
pub proof fn lemma_clients_own_one_job(h: HelperView, job_id: u64, owner: Seq<char>, now: u64)
    requires
        one_each(h.jobs),
        !owns_one(h.jobs, owner),
    ensures
        one_each(with_entry(h.jobs, EntryView { id: job_id, owner, last_used: now })),
{
    let rest = without(h.jobs, job_id);
    let out = rest.push(EntryView { id: job_id, owner, last_used: now });
    lemma_without(h.jobs, job_id);
    assert forall|i: int, j: int| 0 <= i < j < out.len() implies (#[trigger] out[i]).owner != (
    #[trigger] out[j]).owner by {
        if j == rest.len() {
            assert(h.jobs.contains(rest[i]));
            let k = choose|k: int| 0 <= k < h.jobs.len() && h.jobs[k] == rest[i];
            assert(h.jobs[k].owner != owner);
        }
    }
}

/// Where no client owns two jobs, none does after a client asked for an
/// event, after an event was sent, after a job broke off, and after abandoned
/// jobs were given up.
pub proof fn lemma_clients_keep_one_job(
    h: HelperView,
    job_id: u64,
    owner: Seq<char>,
    event: EventView,
    now: u64,
)
    requires
        one_each(h.jobs),
    ensures
        job_access(h.jobs, job_id, owner) matches Ok(at) ==> one_each(touched(h.jobs, at, now)),
        one_each(after_event(h, job_id, owner, event, now).jobs),
        one_each(without(h.jobs, job_id)),
        one_each(fresh(h.jobs, now, ABANDONED_AFTER)),
{
    lemma_without(h.jobs, job_id);
    lemma_fresh(h.jobs, now, ABANDONED_AFTER);
    lemma_place(h.jobs, job_id);
}

proof fn lemma_entered_numbers_differ(list: Seq<EntryView>, entry: EntryView)
    requires
        numbers_differ(list),
    ensures
        numbers_differ(with_entry(list, entry)),
{
    lemma_without(list, entry.id);
    let rest = without(list, entry.id);
    let out = with_entry(list, entry);
    assert forall|i: int, j: int| 0 <= i < j < out.len() implies (#[trigger] out[i]).id != (
    #[trigger] out[j]).id by {
        assert(out[i] == rest[i]);
        if j < rest.len() {
            assert(out[j] == rest[j]);
        }
    }
}

/// Each job, analysis and plan is kept once: nothing that a helper does
/// enters a number twice.
pub proof fn lemma_numbers_stay_apart(
    h: HelperView,
    id: u64,
    owner: Seq<char>,
    event: EventView,
    now: u64,
)
    requires
        h.distinct(),
    ensures
        (HelperView {
            jobs: with_entry(h.jobs, EntryView { id, owner, last_used: now }),
            ..h
        }).distinct(),
        job_access(h.jobs, id, owner) matches Ok(at) ==> (HelperView {
            jobs: touched(h.jobs, at, now),
            ..h
        }).distinct(),
        after_event(h, id, owner, event, now).distinct(),
        (HelperView { jobs: without(h.jobs, id), ..h }).distinct(),
        analysis_access(h.analyses, id, owner) matches Ok(at) ==> (HelperView {
            analyses: touched(h.analyses, at, now),
            ..h
        }).distinct(),
        (HelperView {
            plans: with_entry(h.plans, EntryView { id, owner, last_used: now }),
            ..h
        }).distinct(),
        (HelperView { plans: without(h.plans, id), ..h }).distinct(),
        (HelperView {
            jobs: fresh(h.jobs, now, ABANDONED_AFTER),
            analyses: fresh(h.analyses, now, EXPIRED_AFTER),
            ..h
        }).distinct(),
{
    let entry = EntryView { id, owner, last_used: now };
    lemma_entered_numbers_differ(h.jobs, entry);
    lemma_entered_numbers_differ(h.plans, entry);
    if let EventView::AnalysisFinished { job_id, analysis_id, report } = event {
        lemma_entered_numbers_differ(
            h.analyses,
            EntryView { id: analysis_id.0, owner, last_used: now },
        );
    }
    lemma_without(h.jobs, id);
    lemma_without(h.plans, id);
    lemma_fresh(h.jobs, now, ABANDONED_AFTER);
    lemma_fresh(h.analyses, now, EXPIRED_AFTER);
    lemma_place(h.jobs, id);
    lemma_place(h.analyses, id);
}

/// A job that its owner asked for lately is kept, and an analysis that was
/// used lately is; an older one is given up.
pub proof fn lemma_only_what_is_unused_goes(list: Seq<EntryView>, now: u64, limit: u64)
    ensures
        forall|e: EntryView|
            #![trigger list.contains(e)]
            list.contains(e) && !is_stale(e, now, limit) ==> fresh(list, now, limit).contains(e),
        forall|e: EntryView|
            #![trigger fresh(list, now, limit).contains(e)]
            fresh(list, now, limit).contains(e) ==> list.contains(e) && !is_stale(e, now, limit),
        fresh(list, now, limit).len() + stale(list, now, limit).len() == list.len(),
    decreases list.len(),
{
    if list.len() > 0 {
        let rest = list.drop_last();
        let out = fresh(list, now, limit);
        let before = fresh(rest, now, limit);
        lemma_only_what_is_unused_goes(rest, now, limit);
        assert forall|e: EntryView|
            #![trigger list.contains(e)]
            list.contains(e) && !is_stale(e, now, limit) implies out.contains(e) by {
            let k = choose|k: int| 0 <= k < list.len() && list[k] == e;
            if k < rest.len() {
                assert(rest[k] == e);
                assert(rest.contains(e));
                let m = choose|m: int| 0 <= m < before.len() && before[m] == e;
                assert(out[m] == e);
            } else {
                assert(out[out.len() - 1] == e);
            }
        }
        assert forall|e: EntryView|
            #![trigger out.contains(e)]
            out.contains(e) implies list.contains(e) && !is_stale(e, now, limit) by {
            let k = choose|k: int| 0 <= k < out.len() && out[k] == e;
            if k < before.len() {
                assert(before[k] == e);
                assert(before.contains(e));
                let m = choose|m: int| 0 <= m < rest.len() && rest[m] == e;
                assert(list[m] == e);
            } else {
                assert(list[list.len() - 1] == e);
            }
        }
    }
}

} // verus!
