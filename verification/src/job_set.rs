//! A set of background jobs and its shutdown.

use crate::log::{LogLine, Message};
use crate::token::{cancel, Signal};
use tokio_util::sync::CancellationToken;
use vstd::multiset::Multiset;
use vstd::prelude::*;

verus! {

/// The outcome of a shutdown. Each job ends up in exactly one of the lists,
/// in the order in which the jobs ended.
#[derive(Debug)]
#[non_exhaustive]
pub struct ShutdownReport {
    /// Jobs that returned by themselves.
    pub clean: Vec<&'static str>,
    /// Jobs that did not end within the grace period and were aborted.
    pub aborted: Vec<&'static str>,
    /// Jobs whose body panicked.
    pub panicked: Vec<&'static str>,
}

/// The lists of a [`ShutdownReport`].
#[verifier::ext_equal]
pub struct ReportView {
    pub clean: Seq<&'static str>,
    pub aborted: Seq<&'static str>,
    pub panicked: Seq<&'static str>,
}

impl View for ShutdownReport {
    type V = ReportView;

    open spec fn view(&self) -> ReportView {
        ReportView { clean: self.clean@, aborted: self.aborted@, panicked: self.panicked@ }
    }
}

/// The report on no jobs.
pub open spec fn empty_report() -> ReportView {
    ReportView { clean: Seq::empty(), aborted: Seq::empty(), panicked: Seq::empty() }
}

impl Default for ShutdownReport {
    fn default() -> (report: ShutdownReport)
        ensures
            report@ == empty_report(),
    {
        ShutdownReport { clean: Vec::new(), aborted: Vec::new(), panicked: Vec::new() }
    }
}

/// How a task ended.
#[derive(Debug, Clone, Copy, PartialEq, Eq, Structural)]
pub enum Outcome {
    /// It returned.
    Completed,
    /// It panicked.
    Panicked,
    /// It was aborted before it returned.
    Aborted,
}

/// A task that has ended, by its number in the set.
#[derive(Debug, Clone, Copy, PartialEq, Eq, Structural)]
pub struct Joined {
    pub task: usize,
    pub outcome: Outcome,
}

/// The name of a task; of one that is not in the set, a placeholder.
pub open spec fn name_of(names: Seq<&'static str>, task: usize) -> &'static str {
    if task < names.len() {
        names[task as int]
    } else {
        "<unknown>"
    }
}

/// The report with one more task, listed by how it ended.
pub open spec fn with_joined(
    names: Seq<&'static str>,
    report: ReportView,
    joined: Joined,
) -> ReportView {
    let name = name_of(names, joined.task);
    match joined.outcome {
        Outcome::Completed => ReportView { clean: report.clean.push(name), ..report },
        Outcome::Panicked => ReportView { panicked: report.panicked.push(name), ..report },
        Outcome::Aborted => ReportView { aborted: report.aborted.push(name), ..report },
    }
}

/// What is logged about a task that has ended. An abort is worth a line only
/// where the grace period is what ran out.
pub open spec fn joined_line(
    names: Seq<&'static str>,
    joined: Joined,
    after_grace: bool,
) -> Option<LogLine> {
    let job = name_of(names, joined.task);
    match joined.outcome {
        Outcome::Completed => None,
        Outcome::Panicked => Some(LogLine { job, message: Message::Panicked }),
        Outcome::Aborted => if after_grace {
            Some(LogLine { job, message: Message::AbortedAfterGrace })
        } else {
            None
        },
    }
}

/// The name under which `task` is known.
fn lookup(names: &Vec<&'static str>, task: usize) -> (name: &'static str)
    ensures
        name == name_of(names@, task),
{
    if task < names.len() {
        names[task]
    } else {
        "<unknown>"
    }
}

/// The same names once more.
fn copy(names: &Vec<&'static str>) -> (same: Vec<&'static str>)
    ensures
        same@ == names@,
{
    let mut same: Vec<&'static str> = Vec::new();
    let mut i: usize = 0;
    while i < names.len()
        invariant
            i <= names.len(),
            same@ == names@.take(i as int),
        decreases names.len() - i,
    {
        same.push(names[i]);
        i = i + 1;
        assert(same@ =~= names@.take(i as int));
    }
    assert(names@.take(i as int) =~= names@);
    same
}

/// Lists a task that has ended in the report, by how it ended, and gives the
/// line to be logged about it. `after_grace` tells whether the remaining tasks
/// have been aborted because the grace period was over.
pub fn classify(
    names: &Vec<&'static str>,
    joined: Joined,
    after_grace: bool,
    report: &mut ShutdownReport,
) -> (line: Option<LogLine>)
    ensures
        final(report)@ == with_joined(names@, old(report)@, joined),
        line == joined_line(names@, joined, after_grace),
        final(report).clean@ == with_joined(names@, old(report)@, joined).clean,
        final(report).aborted@ == with_joined(names@, old(report)@, joined).aborted,
        final(report).panicked@ == with_joined(names@, old(report)@, joined).panicked,
{
    let job: &'static str = lookup(names, joined.task);
    match joined.outcome {
        Outcome::Completed => {
            report.clean.push(job);
            None
        },
        Outcome::Panicked => {
            report.panicked.push(job);
            Some(LogLine { job, message: Message::Panicked })
        },
        Outcome::Aborted => {
            report.aborted.push(job);
            if after_grace {
                Some(LogLine { job, message: Message::AbortedAfterGrace })
            } else {
                None
            }
        },
    }
}

/// The owner of a set of background jobs: the token that stops them all, the
/// names under which they are known, and whether they have been shut down.
///
/// Each job runs as a task. Here a task is known by its number, which it is
/// given when the job is registered: they are counted from zero.
pub struct JobSet {
    signal: Signal,
    names: Vec<&'static str>,
    shut_down: bool,
}

impl JobSet {
    /// The token that all jobs of the set share.
    pub closed spec fn token(self) -> CancellationToken {
        self.signal.token()
    }

    /// Whether the set has left its token alone. Where it has not, it has
    /// cancelled the token.
    pub closed spec fn live(self) -> bool {
        self.signal.live()
    }

    /// The names of the tasks, in the order of their numbers.
    pub closed spec fn names(self) -> Seq<&'static str> {
        self.names@
    }

    /// Whether a shutdown of the set has begun.
    pub closed spec fn shut_down(self) -> bool {
        self.shut_down
    }

    /// An empty set with a token of its own.
    #[must_use]
    pub fn new() -> (jobs: JobSet)
        ensures
            is_new(jobs),
            jobs.names().len() == 0,
            jobs.live(),
            !jobs.shut_down(),
    {
        JobSet { signal: Signal::new(), names: Vec::new(), shut_down: false }
    }

    /// The token that all jobs of the set share. With it, other code can see
    /// the same shutdown signal.
    #[must_use]
    pub fn cancellation_token(&self) -> (token: CancellationToken)
        ensures
            token == self.token(),
    {
        self.signal.handle()
    }

    /// Takes the periodic job `name` into the set, and gives the number of its
    /// task.
    pub fn periodic(&mut self, name: &'static str) -> (task: usize)
        ensures
            registers(*old(self), *final(self), name),
            final(self).names() == old(self).names().push(name),
            final(self).token() == old(self).token(),
            final(self).live() == old(self).live(),
            final(self).shut_down() == old(self).shut_down(),
            task == old(self).names().len(),
    {
        self.insert(name)
    }

    /// Takes the long-running job `name` into the set, and gives the number of
    /// its task.
    pub fn task(&mut self, name: &'static str) -> (task: usize)
        ensures
            registers(*old(self), *final(self), name),
            final(self).names() == old(self).names().push(name),
            final(self).token() == old(self).token(),
            final(self).live() == old(self).live(),
            final(self).shut_down() == old(self).shut_down(),
            task == old(self).names().len(),
    {
        self.insert(name)
    }

    fn insert(&mut self, name: &'static str) -> (task: usize)
        ensures
            registers(*old(self), *final(self), name),
            final(self).names() == old(self).names().push(name),
            final(self).token() == old(self).token(),
            final(self).live() == old(self).live(),
            final(self).shut_down() == old(self).shut_down(),
            task == old(self).names().len(),
    {
        let task: usize = self.names.len();
        self.names.push(name);
        task
    }

    /// Begins to shut the set down: cancels the token, so that every job sees
    /// it, and tells what to do first. An empty set is done at once.
    pub fn shutdown(&mut self) -> (begun: (Shutdown, ShutdownAction))
        ensures
            begins_shutdown(*old(self), *final(self)),
            final(self).names() == old(self).names(),
            final(self).token() == old(self).token(),
            !final(self).live(),
            final(self).shut_down(),
            begun.0@ == begun_shutdown(old(self).names()),
            begun.1 == first_shutdown_action(old(self).names()),
            begun.1 == ShutdownAction::Finish <==> old(self).names().len() == 0,
            begun.1 == ShutdownAction::JoinUntilDeadline <==> old(self).names().len() > 0,
    {
        cancel(&mut self.signal);
        self.shut_down = true;
        let shutdown: Shutdown = Shutdown {
            names: copy(&self.names),
            report: ShutdownReport::default(),
            after_grace: false,
        };
        if self.names.len() == 0 {
            (shutdown, ShutdownAction::Finish)
        } else {
            (shutdown, ShutdownAction::JoinUntilDeadline)
        }
    }

    /// What is done when the set is dropped: its token is cancelled, and where
    /// it has not been shut down a warning with the number of its tasks is due.
    pub fn on_drop(&mut self) -> (warning: Option<usize>)
        ensures
            final(self).token() == old(self).token(),
            final(self).names() == old(self).names(),
            final(self).shut_down() == old(self).shut_down(),
            !final(self).live(),
            warning == drop_warning(old(self).shut_down(), old(self).names().len()),
            warning is None <==> old(self).shut_down(),
            warning matches Some(live) ==> live == old(self).names().len(),
    {
        cancel(&mut self.signal);
        if self.shut_down {
            None
        } else {
            Some(self.names.len())
        }
    }
}

/// Whether the set has just been made.
pub open spec fn is_new(jobs: JobSet) -> bool {
    &&& jobs.live()
    &&& jobs.names() == Seq::<&'static str>::empty()
    &&& !jobs.shut_down()
}

/// Whether `after` is `before` with one more task, of the given name. The token
/// is left alone.
pub open spec fn registers(before: JobSet, after: JobSet, name: &'static str) -> bool {
    &&& after.token() == before.token()
    &&& after.live() == before.live()
    &&& after.names() == before.names().push(name)
    &&& after.shut_down() == before.shut_down()
}

/// Whether `after` is `before` once a shutdown has begun and the token has been
/// cancelled.
pub open spec fn begins_shutdown(before: JobSet, after: JobSet) -> bool {
    &&& after.token() == before.token()
    &&& !after.live()
    &&& after.names() == before.names()
    &&& after.shut_down()
}

impl Default for JobSet {
    fn default() -> (jobs: JobSet)
        ensures
            is_new(jobs),
            jobs.names().len() == 0,
            jobs.live(),
            !jobs.shut_down(),
    {
        JobSet::new()
    }
}

// ---------------------------------------------------------------------------
// Drop

/// The number of tasks to warn of when a set of `live` tasks is dropped: a
/// warning is due exactly where the set has not been shut down.
pub open spec fn drop_warning(shut_down: bool, live: nat) -> Option<usize> {
    if shut_down {
        None
    } else {
        Some(live as usize)
    }
}

// ---------------------------------------------------------------------------
// Shutdown

/// What is to be done next in a shutdown.
#[derive(Debug, Clone, Copy, PartialEq, Eq, Structural)]
pub enum ShutdownAction {
    /// Wait for a task to end, but no longer than until the grace period is
    /// over. A task that has ended is looked for first.
    JoinUntilDeadline,
    /// Abort all tasks that are left, then wait for one to end.
    AbortThenJoin,
    /// Wait for a task to end.
    Join,
    /// Return the report.
    Finish,
}

/// What has happened in a shutdown.
#[derive(Debug, Clone, Copy, PartialEq, Eq, Structural)]
pub enum JoinEvent {
    /// A task has ended.
    Joined(Joined),
    /// No task is left.
    Drained,
    /// The grace period is over.
    GraceExpired,
}

/// The line to be logged about an event, and what to do next.
#[derive(Debug, Clone, Copy, PartialEq, Eq)]
pub struct ShutdownStep {
    pub log: Option<LogLine>,
    pub action: ShutdownAction,
}

/// A shutdown under way.
pub struct Shutdown {
    names: Vec<&'static str>,
    report: ShutdownReport,
    after_grace: bool,
}

/// The names of the tasks that a [`Shutdown`] is about, its report so far, and
/// whether the grace period is over.
#[verifier::ext_equal]
pub struct ShutdownView {
    pub names: Seq<&'static str>,
    pub report: ReportView,
    pub after_grace: bool,
}

/// A shutdown in which nothing has happened yet.
pub open spec fn begun_shutdown(names: Seq<&'static str>) -> ShutdownView {
    ShutdownView { names, report: empty_report(), after_grace: false }
}

/// What a shutdown begins with.
pub open spec fn first_shutdown_action(names: Seq<&'static str>) -> ShutdownAction {
    if names.len() == 0 {
        ShutdownAction::Finish
    } else {
        ShutdownAction::JoinUntilDeadline
    }
}

/// What an event makes of a shutdown.
pub open spec fn next_shutdown(shutdown: ShutdownView, event: JoinEvent) -> ShutdownView {
    match event {
        JoinEvent::Joined(joined) => ShutdownView {
            report: with_joined(shutdown.names, shutdown.report, joined),
            ..shutdown
        },
        JoinEvent::Drained => shutdown,
        JoinEvent::GraceExpired => ShutdownView { after_grace: true, ..shutdown },
    }
}

/// What follows an event.
pub open spec fn next_shutdown_action(after_grace: bool, event: JoinEvent) -> ShutdownAction {
    match event {
        JoinEvent::Joined(_) => if after_grace {
            ShutdownAction::Join
        } else {
            ShutdownAction::JoinUntilDeadline
        },
        JoinEvent::Drained => ShutdownAction::Finish,
        JoinEvent::GraceExpired => ShutdownAction::AbortThenJoin,
    }
}

impl View for Shutdown {
    type V = ShutdownView;

    closed spec fn view(&self) -> ShutdownView {
        ShutdownView {
            names: self.names@,
            report: self.report@,
            after_grace: self.after_grace,
        }
    }
}

impl Shutdown {
    /// Takes note of `event`, and tells what follows.
    pub fn step(&mut self, event: JoinEvent) -> (step: ShutdownStep)
        ensures
            final(self)@ == next_shutdown(old(self)@, event),
            step.action == next_shutdown_action(old(self)@.after_grace, event),
            step.log == (match event {
                JoinEvent::Joined(joined) => joined_line(
                    old(self)@.names,
                    joined,
                    old(self)@.after_grace,
                ),
                _ => None,
            }),
    {
        match event {
            JoinEvent::Joined(joined) => {
                let log: Option<LogLine> = classify(
                    &self.names,
                    joined,
                    self.after_grace,
                    &mut self.report,
                );
                let action: ShutdownAction = if self.after_grace {
                    ShutdownAction::Join
                } else {
                    ShutdownAction::JoinUntilDeadline
                };
                ShutdownStep { log, action }
            },
            JoinEvent::Drained => ShutdownStep { log: None, action: ShutdownAction::Finish },
            JoinEvent::GraceExpired => {
                self.after_grace = true;
                ShutdownStep { log: None, action: ShutdownAction::AbortThenJoin }
            },
        }
    }

    /// The report.
    pub fn into_report(self) -> (report: ShutdownReport)
        ensures
            report@ == self@.report,
            report.clean@ == self@.report.clean,
            report.aborted@ == self@.report.aborted,
            report.panicked@ == self@.report.panicked,
    {
        self.report
    }
}

// ---------------------------------------------------------------------------
// Laws
//
// A history of a shutdown is the sequence of its events.

/// The shutdown after a history.
pub open spec fn shutdown_after(
    names: Seq<&'static str>,
    events: Seq<JoinEvent>,
) -> ShutdownView
    decreases events.len(),
{
    if events.len() == 0 {
        begun_shutdown(names)
    } else {
        next_shutdown(shutdown_after(names, events.drop_last()), events.last())
    }
}

/// The tasks that have ended in a history, in order.
pub open spec fn ended(events: Seq<JoinEvent>) -> Seq<Joined>
    decreases events.len(),
{
    if events.len() == 0 {
        Seq::empty()
    } else {
        match events.last() {
            JoinEvent::Joined(joined) => ended(events.drop_last()).push(joined),
            _ => ended(events.drop_last()),
        }
    }
}

/// A shutdown is about the same tasks all the time.
proof fn lemma_names_stay(names: Seq<&'static str>, events: Seq<JoinEvent>)
    ensures
        shutdown_after(names, events).names == names,
    decreases events.len(),
{
    if events.len() > 0 {
        lemma_names_stay(names, events.drop_last());
    }
}

/// The names of those tasks that ended in the given way, in order.
pub open spec fn names_by_outcome(
    names: Seq<&'static str>,
    tasks: Seq<Joined>,
    outcome: Outcome,
) -> Seq<&'static str> {
    tasks.filter(|joined: Joined| joined.outcome == outcome).map_values(
        |joined: Joined| name_of(names, joined.task),
    )
}

proof fn lemma_names_by_outcome_push(
    names: Seq<&'static str>,
    tasks: Seq<Joined>,
    joined: Joined,
    outcome: Outcome,
)
    ensures
        names_by_outcome(names, tasks.push(joined), outcome) == (if joined.outcome == outcome {
            names_by_outcome(names, tasks, outcome).push(name_of(names, joined.task))
        } else {
            names_by_outcome(names, tasks, outcome)
        }),
{
    reveal(Seq::filter);
    assert(tasks.push(joined).drop_last() =~= tasks);
    let kept = tasks.filter(|joined: Joined| joined.outcome == outcome);
    let name = |joined: Joined| name_of(names, joined.task);
    assert(kept.push(joined).map_values(name) =~= kept.map_values(name).push(name(joined)));
}

/// Each job is classified by its own outcome: a list of the report holds the
/// names of exactly those tasks that ended in its way, in the order in which
/// they ended. Neither the other tasks nor the end of the grace period enter
/// into it, so a task that ends by itself after the grace period is clean.
pub proof fn each_job_is_classified_by_its_own_outcome(
    names: Seq<&'static str>,
    events: Seq<JoinEvent>,
)
    ensures
        shutdown_after(names, events).report == (ReportView {
            clean: names_by_outcome(names, ended(events), Outcome::Completed),
            aborted: names_by_outcome(names, ended(events), Outcome::Aborted),
            panicked: names_by_outcome(names, ended(events), Outcome::Panicked),
        }),
    decreases events.len(),
{
    if events.len() == 0 {
        reveal(Seq::filter);
        assert(shutdown_after(names, events).report =~= ReportView {
            clean: names_by_outcome(names, ended(events), Outcome::Completed),
            aborted: names_by_outcome(names, ended(events), Outcome::Aborted),
            panicked: names_by_outcome(names, ended(events), Outcome::Panicked),
        });
    } else {
        each_job_is_classified_by_its_own_outcome(names, events.drop_last());
        lemma_names_stay(names, events.drop_last());
        if let JoinEvent::Joined(joined) = events.last() {
            let before = ended(events.drop_last());
            lemma_names_by_outcome_push(names, before, joined, Outcome::Completed);
            lemma_names_by_outcome_push(names, before, joined, Outcome::Aborted);
            lemma_names_by_outcome_push(names, before, joined, Outcome::Panicked);
        }
    }
}

/// All names of a report, with how often each is listed.
pub open spec fn listed(report: ReportView) -> Multiset<&'static str> {
    report.clean.to_multiset().add(report.aborted.to_multiset()).add(
        report.panicked.to_multiset(),
    )
}

/// The names of tasks, with how often each occurs.
pub open spec fn names_of(
    names: Seq<&'static str>,
    tasks: Seq<usize>,
) -> Multiset<&'static str> {
    tasks.map_values(|task: usize| name_of(names, task)).to_multiset()
}

/// The numbers of tasks that have ended.
pub open spec fn numbers(tasks: Seq<Joined>) -> Seq<usize> {
    tasks.map_values(|joined: Joined| joined.task)
}

proof fn lemma_names_of_push(names: Seq<&'static str>, tasks: Seq<usize>, task: usize)
    ensures
        names_of(names, tasks.push(task)) == names_of(names, tasks).insert(name_of(names, task)),
{
    broadcast use vstd::seq_lib::group_to_multiset_ensures;

    let name = |task: usize| name_of(names, task);
    assert(tasks.push(task).map_values(name) =~= tasks.map_values(name).push(name(task)));
}

/// Nothing is lost and nothing listed twice: the report of a history lists the
/// name of each task that has ended exactly as often as it ended.
proof fn lemma_listed_is_ended(names: Seq<&'static str>, events: Seq<JoinEvent>)
    ensures
        listed(shutdown_after(names, events).report) == names_of(names, numbers(ended(events))),
    decreases events.len(),
{
    broadcast use vstd::seq_lib::group_to_multiset_ensures;

    if events.len() == 0 {
        let name = |task: usize| name_of(names, task);
        assert(numbers(ended(events)).map_values(name) =~= Seq::<&'static str>::empty());
        assert(Seq::<&'static str>::empty().to_multiset().len() == 0);
        assert(Seq::<&'static str>::empty().to_multiset() =~= Multiset::empty());
        assert(listed(shutdown_after(names, events).report) =~= Multiset::empty());
    } else {
        lemma_listed_is_ended(names, events.drop_last());
        lemma_names_stay(names, events.drop_last());
        let before = shutdown_after(names, events.drop_last()).report;
        match events.last() {
            JoinEvent::Joined(joined) => {
                let tasks = ended(events.drop_last());
                let name = name_of(names, joined.task);
                assert(numbers(tasks.push(joined)) =~= numbers(tasks).push(joined.task));
                lemma_names_of_push(names, numbers(tasks), joined.task);
                assert(listed(with_joined(names, before, joined)) =~= listed(before).insert(name));
            },
            _ => {},
        }
    }
}

/// Tasks that are the same up to order have the same names up to order.
proof fn lemma_names_of_reordered(names: Seq<&'static str>, a: Seq<usize>, b: Seq<usize>)
    requires
        a.to_multiset() == b.to_multiset(),
    ensures
        names_of(names, a) == names_of(names, b),
    decreases a.len(),
{
    broadcast use vstd::seq_lib::group_to_multiset_ensures;

    let name = |task: usize| name_of(names, task);
    assert(a.len() == a.to_multiset().len());
    assert(b.len() == b.to_multiset().len());
    if a.len() == 0 {
        assert(a.map_values(name) =~= b.map_values(name));
    } else {
        let task = a.last();
        assert(a.contains(task));
        assert(b.to_multiset().count(task) > 0);
        assert(b.contains(task));
        let i = b.index_of(task);
        let rest = b.remove(i);
        assert(a.drop_last().push(task) =~= a);
        assert(a.drop_last().to_multiset() =~= rest.to_multiset()) by {
            assert(a.to_multiset() =~= a.drop_last().to_multiset().insert(task));
            assert(rest.to_multiset() =~= b.to_multiset().remove(task));
        }
        lemma_names_of_reordered(names, a.drop_last(), rest);
        lemma_names_of_push(names, a.drop_last(), task);
        let (all, left) = (b.map_values(name), rest.map_values(name));
        assert(all.remove(i) =~= left);
        assert(left.to_multiset() == all.to_multiset().remove(all[i]));
        assert(all.contains(all[i]));
        assert(all.to_multiset().count(all[i]) > 0);
        assert(all.to_multiset() =~= left.to_multiset().insert(name(task)));
    }
}

/// The numbers of a set of `n` tasks.
pub open spec fn all_tasks(n: nat) -> Seq<usize> {
    Seq::new(n, |i: int| i as usize)
}

/// Each job ends up in exactly one list of the report: once every task of the
/// set has ended, the lists together hold the names of the set, each as often
/// as the set holds a task of that name.
pub proof fn each_job_is_reported_once(names: Seq<&'static str>, events: Seq<JoinEvent>)
    requires
        names.len() <= usize::MAX,
        numbers(ended(events)).to_multiset() == all_tasks(names.len()).to_multiset(),
    ensures
        listed(shutdown_after(names, events).report) == names.to_multiset(),
        ({
            let report = shutdown_after(names, events).report;
            report.clean.len() + report.aborted.len() + report.panicked.len() == names.len()
        }),
{
    broadcast use vstd::seq_lib::group_to_multiset_ensures;

    let tasks = all_tasks(names.len());
    lemma_listed_is_ended(names, events);
    lemma_names_of_reordered(names, numbers(ended(events)), tasks);
    assert(tasks.map_values(|task: usize| name_of(names, task)) =~= names);
    let report = shutdown_after(names, events).report;
    assert(listed(report).len() == report.clean.len() + report.aborted.len()
        + report.panicked.len());
}

/// The lines that are logged in a history, in order.
pub open spec fn lines(names: Seq<&'static str>, events: Seq<JoinEvent>) -> Seq<LogLine>
    decreases events.len(),
{
    if events.len() == 0 {
        Seq::empty()
    } else {
        let before = events.drop_last();
        match events.last() {
            JoinEvent::Joined(joined) => match joined_line(
                names,
                joined,
                shutdown_after(names, before).after_grace,
            ) {
                Some(line) => lines(names, before).push(line),
                None => lines(names, before),
            },
            _ => lines(names, before),
        }
    }
}

/// The jobs that lines with the given message are about, in order.
pub open spec fn jobs_by_message(lines: Seq<LogLine>, message: Message) -> Seq<&'static str> {
    lines.filter(|line: LogLine| line.message == message).map_values(|line: LogLine| line.job)
}

proof fn lemma_jobs_by_message_push(lines: Seq<LogLine>, line: LogLine, message: Message)
    ensures
        jobs_by_message(lines.push(line), message) == (if line.message == message {
            jobs_by_message(lines, message).push(line.job)
        } else {
            jobs_by_message(lines, message)
        }),
{
    reveal(Seq::filter);
    assert(lines.push(line).drop_last() =~= lines);
    let kept = lines.filter(|line: LogLine| line.message == message);
    let job = |line: LogLine| line.job;
    assert(kept.push(line).map_values(job) =~= kept.map_values(job).push(job(line)));
}

/// What went wrong is logged: there is a line about each job that is reported
/// as panicked, and, where no task was aborted before the grace period was
/// over, about each that is reported as aborted. There are no others.
pub proof fn what_went_wrong_is_logged(names: Seq<&'static str>, events: Seq<JoinEvent>)
    ensures
        jobs_by_message(lines(names, events), Message::Panicked) == shutdown_after(
            names,
            events,
        ).report.panicked,
        (forall|i: int|
            0 <= i < events.len() && (#[trigger] events[i] matches JoinEvent::Joined(joined)
                && joined.outcome == Outcome::Aborted) ==> events.take(i).contains(
                JoinEvent::GraceExpired,
            )) ==> jobs_by_message(lines(names, events), Message::AbortedAfterGrace)
            == shutdown_after(names, events).report.aborted,
        lines(names, events).len() == jobs_by_message(lines(names, events), Message::Panicked).len()
            + jobs_by_message(lines(names, events), Message::AbortedAfterGrace).len(),
    decreases events.len(),
{
    if events.len() == 0 {
        reveal(Seq::filter);
        assert(jobs_by_message(lines(names, events), Message::Panicked) =~= Seq::empty());
        assert(jobs_by_message(lines(names, events), Message::AbortedAfterGrace) =~= Seq::empty());
    } else {
        let n = events.len() - 1;
        let before = events.drop_last();
        what_went_wrong_is_logged(names, before);
        lemma_names_stay(names, before);
        assert forall|i: int| 0 <= i < n implies #[trigger] before.take(i) == events.take(i) by {
            assert(before.take(i) =~= events.take(i));
        }
        assert(events.take(n) =~= before);
        lemma_after_grace(names, events, n);
        if let JoinEvent::Joined(joined) = events.last() {
            let after_grace = shutdown_after(names, before).after_grace;
            if let Some(line) = joined_line(names, joined, after_grace) {
                lemma_jobs_by_message_push(lines(names, before), line, Message::Panicked);
                lemma_jobs_by_message_push(lines(names, before), line, Message::AbortedAfterGrace);
            }
            if joined.outcome == Outcome::Aborted && !after_grace {
                assert(events[n] == JoinEvent::Joined(joined));
            }
        }
    }
}

/// Whether an event is a way in which an action can end.
pub open spec fn ends(action: ShutdownAction, event: JoinEvent) -> bool {
    match action {
        ShutdownAction::JoinUntilDeadline => true,
        ShutdownAction::AbortThenJoin | ShutdownAction::Join => event != JoinEvent::GraceExpired,
        ShutdownAction::Finish => false,
    }
}

/// What is to be done after the first `n` events of a history.
pub open spec fn action_after(
    names: Seq<&'static str>,
    events: Seq<JoinEvent>,
    n: int,
) -> ShutdownAction {
    if n == 0 {
        first_shutdown_action(names)
    } else {
        next_shutdown_action(
            shutdown_after(names, events.take(n - 1)).after_grace,
            events[n - 1],
        )
    }
}

/// Whether each event is a way in which the action before it can end.
pub open spec fn is_history(names: Seq<&'static str>, events: Seq<JoinEvent>) -> bool {
    forall|i: int|
        0 <= i < events.len() ==> ends(#[trigger] action_after(names, events, i), events[i])
}

/// An empty set is shut down at once: nothing is waited for and nothing
/// happens.
pub proof fn an_empty_set_is_done_at_once(names: Seq<&'static str>, events: Seq<JoinEvent>)
    requires
        names.len() == 0,
        is_history(names, events),
    ensures
        action_after(names, events, 0) == ShutdownAction::Finish,
        events.len() == 0,
        shutdown_after(names, events).report == empty_report(),
{
    if events.len() > 0 {
        assert(ends(action_after(names, events, 0), events[0]));
    }
}

/// Only an empty set is done at once. The shutdown of any other begins by waiting
/// for a task against the deadline.
pub proof fn a_set_with_jobs_is_waited_for(names: Seq<&'static str>)
    ensures
        first_shutdown_action(names) == ShutdownAction::Finish <==> names.len() == 0,
        names.len() > 0 ==> first_shutdown_action(names) == ShutdownAction::JoinUntilDeadline,
{
}

/// A shutdown is done only when there is no task: none to begin with, or none
/// left by the last event.
pub proof fn a_shutdown_is_done_when_no_task_is_left(
    names: Seq<&'static str>,
    events: Seq<JoinEvent>,
    n: int,
)
    requires
        0 <= n <= events.len(),
        action_after(names, events, n) == ShutdownAction::Finish,
    ensures
        n == 0 ==> names.len() == 0,
        n > 0 ==> events[n - 1] == JoinEvent::Drained,
{
}

/// What follows an event: the end where no task is left, and nowhere else; the
/// abort of all tasks where the grace period is over, and nowhere else; after a
/// task that has ended the next one, against the deadline as long as there is
/// one.
pub proof fn what_follows_an_event_in_a_shutdown(after_grace: bool, event: JoinEvent)
    ensures
        next_shutdown_action(after_grace, event) == ShutdownAction::Finish <==> event
            == JoinEvent::Drained,
        next_shutdown_action(after_grace, event) == ShutdownAction::AbortThenJoin <==> event
            == JoinEvent::GraceExpired,
        next_shutdown_action(after_grace, event) == ShutdownAction::Join <==> event is Joined
            && after_grace,
        next_shutdown_action(after_grace, event) == ShutdownAction::JoinUntilDeadline <==> event
            is Joined && !after_grace,
{
}

/// A task that has ended is added to the list for the way in which it ended, at
/// the end and under its own name, and to no other list. One that is not in the
/// set goes by a placeholder.
pub proof fn a_task_is_listed_under_its_own_name(
    names: Seq<&'static str>,
    report: ReportView,
    joined: Joined,
)
    ensures
        ({
            let after = with_joined(names, report, joined);
            let name = if joined.task < names.len() {
                names[joined.task as int]
            } else {
                "<unknown>"
            };
            &&& after.clean == (if joined.outcome == Outcome::Completed {
                report.clean.push(name)
            } else {
                report.clean
            })
            &&& after.panicked == (if joined.outcome == Outcome::Panicked {
                report.panicked.push(name)
            } else {
                report.panicked
            })
            &&& after.aborted == (if joined.outcome == Outcome::Aborted {
                report.aborted.push(name)
            } else {
                report.aborted
            })
        }),
{
}

/// A panic is logged, and an abort where the grace period is over, under the name
/// of the task. Nothing else is.
pub proof fn a_line_is_about_the_task_that_ended(
    names: Seq<&'static str>,
    joined: Joined,
    after_grace: bool,
)
    ensures
        ({
            let name = if joined.task < names.len() {
                names[joined.task as int]
            } else {
                "<unknown>"
            };
            let line = joined_line(names, joined, after_grace);
            &&& joined.outcome == Outcome::Panicked ==> line == Some(
                LogLine { job: name, message: Message::Panicked },
            )
            &&& joined.outcome == Outcome::Aborted && after_grace ==> line == Some(
                LogLine { job: name, message: Message::AbortedAfterGrace },
            )
            &&& joined.outcome == Outcome::Aborted && !after_grace ==> line is None
            &&& joined.outcome == Outcome::Completed ==> line is None
        }),
{
}

/// A shutdown begins with the names of its set, empty lists and the grace period
/// before it. The names never change; the lists change only by a task that has
/// ended; and the grace period is over from the event on that says so.
pub proof fn a_shutdown_keeps_what_an_event_does_not_change(
    names: Seq<&'static str>,
    shutdown: ShutdownView,
    event: JoinEvent,
)
    ensures
        begun_shutdown(names).names == names,
        begun_shutdown(names).report.clean.len() == 0,
        begun_shutdown(names).report.aborted.len() == 0,
        begun_shutdown(names).report.panicked.len() == 0,
        !begun_shutdown(names).after_grace,
        next_shutdown(shutdown, event).names == shutdown.names,
        next_shutdown(shutdown, event).after_grace <==> shutdown.after_grace || event
            == JoinEvent::GraceExpired,
        event is Joined <==> next_shutdown(shutdown, event).report != shutdown.report,
        event matches JoinEvent::Joined(joined) ==> next_shutdown(shutdown, event).report
            == with_joined(shutdown.names, shutdown.report, joined),
{
    if let JoinEvent::Joined(joined) = event {
        let (before, after) = (
            shutdown.report,
            with_joined(shutdown.names, shutdown.report, joined),
        );
        assert(after.clean.len() + after.aborted.len() + after.panicked.len()
            == before.clean.len() + before.aborted.len() + before.panicked.len() + 1);
    }
}

/// A report is its three lists.
pub proof fn a_report_is_its_lists(report: ShutdownReport)
    ensures
        report@.clean == report.clean@,
        report@.aborted == report.aborted@,
        report@.panicked == report.panicked@,
{
}

/// A set that was shut down is dropped in silence; of any other there is a
/// warning with the number of its tasks, also where it has none.
pub proof fn a_drop_is_silent_only_after_a_shutdown(live: usize)
    ensures
        drop_warning(true, live as nat) is None,
        drop_warning(false, live as nat) == Some(live),
{
}

/// A new set holds no job, has not been shut down and has left its token alone. A
/// shutdown cancels the token and changes nothing else but that it has begun.
pub proof fn a_set_begins_and_ends(fresh: JobSet, before: JobSet, after: JobSet)
    requires
        is_new(fresh),
        begins_shutdown(before, after),
    ensures
        fresh.names().len() == 0,
        !fresh.shut_down(),
        fresh.live(),
        after.token() == before.token(),
        after.names() == before.names(),
        after.shut_down(),
        !after.live(),
{
}

/// The grace period is over from the event on that says so.
proof fn lemma_after_grace(names: Seq<&'static str>, events: Seq<JoinEvent>, n: int)
    requires
        0 <= n <= events.len(),
    ensures
        shutdown_after(names, events.take(n)).after_grace <==> events.take(n).contains(
            JoinEvent::GraceExpired,
        ),
    decreases n,
{
    if n > 0 {
        lemma_after_grace(names, events, n - 1);
        let (longer, shorter) = (events.take(n), events.take(n - 1));
        assert(longer.drop_last() =~= shorter);
        assert(longer =~= shorter.push(events[n - 1]));
        if shorter.contains(JoinEvent::GraceExpired) {
            let i = shorter.index_of(JoinEvent::GraceExpired);
            assert(longer[i] == JoinEvent::GraceExpired);
        }
        if events[n - 1] == JoinEvent::GraceExpired {
            assert(longer[n - 1] == JoinEvent::GraceExpired);
        }
    }
}

/// A shutdown waits against the deadline until the grace period is over, aborts
/// what is left exactly once, right then, and from there on waits without a
/// deadline. It is done exactly when no task is left.
pub proof fn tasks_are_aborted_once(names: Seq<&'static str>, events: Seq<JoinEvent>, n: int)
    requires
        is_history(names, events),
        0 < n <= events.len(),
    ensures
        action_after(names, events, n) == ShutdownAction::AbortThenJoin <==> events[n - 1]
            == JoinEvent::GraceExpired,
        action_after(names, events, n) == ShutdownAction::Finish <==> events[n - 1]
            == JoinEvent::Drained,
        action_after(names, events, n) == ShutdownAction::Join ==> events.take(n).contains(
            JoinEvent::GraceExpired,
        ),
        action_after(names, events, n) == ShutdownAction::JoinUntilDeadline ==> !events.take(
            n,
        ).contains(JoinEvent::GraceExpired),
        events[n - 1] == JoinEvent::GraceExpired ==> !events.take(n - 1).contains(
            JoinEvent::GraceExpired,
        ),
        events[n - 1] == JoinEvent::Drained ==> n == events.len(),
{
    lemma_after_grace(names, events, n - 1);
    assert(ends(action_after(names, events, n - 1), events[n - 1]));
    if n < events.len() {
        assert(ends(action_after(names, events, n), events[n]));
    }
    let (longer, shorter) = (events.take(n), events.take(n - 1));
    assert(longer =~= shorter.push(events[n - 1]));
    if shorter.contains(JoinEvent::GraceExpired) {
        let i = shorter.index_of(JoinEvent::GraceExpired);
        assert(longer[i] == JoinEvent::GraceExpired);
        lemma_no_deadline_after_grace(names, events, n - 1);
    }
}

/// Once the grace period is over there is no deadline.
proof fn lemma_no_deadline_after_grace(names: Seq<&'static str>, events: Seq<JoinEvent>, n: int)
    requires
        is_history(names, events),
        0 <= n <= events.len(),
        events.take(n).contains(JoinEvent::GraceExpired),
    ensures
        action_after(names, events, n) != ShutdownAction::JoinUntilDeadline,
{
    if n > 0 {
        lemma_after_grace(names, events, n - 1);
        let (longer, shorter) = (events.take(n), events.take(n - 1));
        let i = longer.index_of(JoinEvent::GraceExpired);
        if i < n - 1 {
            assert(shorter[i] == JoinEvent::GraceExpired);
        }
    }
}

/// A registered job is exactly one more, also where there is a job of that name
/// already. The jobs from before keep their names and numbers, and the token is
/// left alone.
pub proof fn a_registered_job_is_one_more(before: JobSet, after: JobSet, name: &'static str)
    requires
        registers(before, after, name),
    ensures
        after.names().to_multiset() == before.names().to_multiset().insert(name),
        after.names().len() == before.names().len() + 1,
        forall|task: usize|
            task < before.names().len() ==> #[trigger] name_of(after.names(), task) == name_of(
                before.names(),
                task,
            ),
        after.names()[before.names().len() as int] == name,
        after.token() == before.token(),
        after.live() == before.live(),
        after.shut_down() == before.shut_down(),
{
    broadcast use vstd::seq_lib::group_to_multiset_ensures;

}

/// A shutdown reports a registered job besides the others: once every task has
/// ended, the report lists the names of the jobs from before and `name` once
/// more.
pub proof fn a_registered_job_is_reported(
    before: JobSet,
    after: JobSet,
    name: &'static str,
    events: Seq<JoinEvent>,
)
    requires
        registers(before, after, name),
        after.names().len() <= usize::MAX,
        numbers(ended(events)).to_multiset() == all_tasks(after.names().len()).to_multiset(),
    ensures
        listed(shutdown_after(after.names(), events).report)
            == before.names().to_multiset().insert(name),
{
    each_job_is_reported_once(after.names(), events);
    a_registered_job_is_one_more(before, after, name);
}

// The life of a set is the sequence of what it was, from its making on.

/// Whether a shutdown begins at step `i` of a life.
pub open spec fn shutdown_at(sets: Seq<JobSet>, i: int) -> bool {
    begins_shutdown(sets[i - 1], sets[i])
}

/// Whether `after` is `before` with one more task.
pub open spec fn registers_some(before: JobSet, after: JobSet) -> bool {
    exists|name: &'static str| registers(before, after, name)
}

/// Whether a job is registered at step `i` of a life.
pub open spec fn registration_at(sets: Seq<JobSet>, i: int) -> bool {
    registers_some(sets[i - 1], sets[i])
}

/// Whether each step of a life registers a job or begins a shutdown.
pub open spec fn is_life(sets: Seq<JobSet>) -> bool {
    &&& sets.len() > 0
    &&& is_new(sets[0])
    &&& forall|i: int|
        0 < i < sets.len() ==> #[trigger] registration_at(sets, i) || shutdown_at(sets, i)
}

/// Whether a shutdown begins in a life.
pub open spec fn was_shut_down(sets: Seq<JobSet>) -> bool {
    exists|i: int| 0 < i < sets.len() && #[trigger] shutdown_at(sets, i)
}

/// What is known of a set after `n` steps of its life.
proof fn lemma_life(sets: Seq<JobSet>, n: int)
    requires
        is_life(sets),
        0 <= n < sets.len(),
    ensures
        sets[n].token() == sets[0].token(),
        sets[n].shut_down() <==> exists|i: int| 0 < i <= n && #[trigger] shutdown_at(sets, i),
        sets[n].live() == !sets[n].shut_down(),
        !sets[n].shut_down() ==> sets[n].names().len() == n,
    decreases n,
{
    if n > 0 {
        lemma_life(sets, n - 1);
        assert(registration_at(sets, n) || shutdown_at(sets, n));
        if sets[n].shut_down() && !sets[n - 1].shut_down() {
            assert(shutdown_at(sets, n));
        }
        if sets[n - 1].shut_down() {
            let i = choose|i: int| 0 < i <= n - 1 && #[trigger] shutdown_at(sets, i);
            assert(0 < i <= n && shutdown_at(sets, i));
        }
    }
}

/// A set leaves its token alone until it is shut down, and cancels it then. It
/// is all the time the same token.
pub proof fn the_token_is_left_alone_until_shutdown(sets: Seq<JobSet>)
    requires
        is_life(sets),
    ensures
        sets.last().token() == sets[0].token(),
        sets.last().live() <==> !was_shut_down(sets),
{
    let n = sets.len() - 1;
    lemma_life(sets, n);
    if was_shut_down(sets) {
        let i = choose|i: int| 0 < i < sets.len() && #[trigger] shutdown_at(sets, i);
        assert(0 < i <= n && shutdown_at(sets, i));
    }
}

/// Only a forgotten shutdown is warned of: a set is dropped in silence exactly
/// where a shutdown of it was begun at some time; of any other the warning
/// gives the number of jobs that were registered.
pub proof fn only_a_forgotten_shutdown_is_warned_of(sets: Seq<JobSet>)
    requires
        is_life(sets),
    ensures
        ({
            let jobs = sets.last();
            drop_warning(jobs.shut_down(), jobs.names().len()) == (if was_shut_down(sets) {
                None
            } else {
                Some((sets.len() - 1) as usize)
            })
        }),
{
    let n = sets.len() - 1;
    lemma_life(sets, n);
    if was_shut_down(sets) {
        let i = choose|i: int| 0 < i < sets.len() && #[trigger] shutdown_at(sets, i);
        assert(0 < i <= n && shutdown_at(sets, i));
    }
}

} // verus!
