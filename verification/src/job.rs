//! Periodic jobs and the driver that runs them.
//!
//! The driver is a function from what has just happened to what is to be done
//! next. Whoever runs it performs each action and reports how it ended.

use crate::binary32::value;
use crate::duration::Duration;
use crate::jitter::{fits, is_sample, is_steady, jittered_nanos, no_fraction_keeps_the_delay};
use crate::log::{LogLine, Message};
use crate::schedule::{
    a_wait_is_the_period_varied_by_the_fraction, a_wait_stays_within_the_fraction_of_the_period,
    FirstTick, Schedule,
};
use vstd::arithmetic::power2::*;
use vstd::prelude::*;

verus! {

/// A closure that stands in where a periodic job is expected. Made by
/// [`job_fn`].
#[derive(Debug, Clone, Copy)]
pub struct JobFn<F>(pub F);

/// Wraps a closure so that it can be passed as a periodic job.
pub fn job_fn<F>(f: F) -> (job: JobFn<F>)
    ensures
        job.0 == f,
{
    JobFn(f)
}

/// What has happened to a periodic job.
#[derive(Debug, Clone, Copy, PartialEq, Eq, Structural)]
pub enum Event {
    /// The job was started.
    Started,
    /// A wait ran to its end before cancellation was seen.
    Elapsed,
    /// Cancellation was seen during a wait. It is looked for first: where the
    /// wait is over as well, this is the event.
    Cancelled,
    /// The tick ended without an error.
    TickSucceeded,
    /// The tick returned an error.
    TickFailed,
}

/// What a periodic job does next.
#[derive(Debug, Clone, Copy, PartialEq, Eq, Structural)]
pub enum Action {
    /// Wait this long, or until cancellation is seen.
    Wait(Duration),
    /// Run one tick to its end, whether or not cancellation comes meanwhile.
    Tick,
    /// End.
    Stop,
}

/// An [`Action`] with its wait in nanoseconds.
pub enum ActionView {
    Wait(nat),
    Tick,
    Stop,
}

impl View for Action {
    type V = ActionView;

    open spec fn view(&self) -> ActionView {
        match self {
            Action::Wait(d) => ActionView::Wait(d@),
            Action::Tick => ActionView::Tick,
            Action::Stop => ActionView::Stop,
        }
    }
}

/// What follows an event. A failed tick is followed by the same as one that
/// succeeded.
pub open spec fn next_action(schedule: Schedule, event: Event, sample: u32) -> ActionView {
    match event {
        Event::Started => if schedule.first_wait_nanos(sample) == 0 {
            ActionView::Tick
        } else {
            ActionView::Wait(schedule.first_wait_nanos(sample))
        },
        Event::Elapsed => ActionView::Tick,
        Event::Cancelled => ActionView::Stop,
        Event::TickSucceeded | Event::TickFailed => ActionView::Wait(schedule.wait_nanos(sample)),
    }
}

/// What is logged about an event.
pub open spec fn next_message(event: Event) -> Option<Message> {
    match event {
        Event::Started | Event::Elapsed => None,
        Event::Cancelled => Some(Message::Stopped),
        Event::TickSucceeded => Some(Message::TickOk),
        Event::TickFailed => Some(Message::TickFailed),
    }
}

/// The line that is logged about an event of the job `name`.
pub open spec fn line_about(name: &'static str, event: Event) -> Option<LogLine> {
    match next_message(event) {
        Some(message) => Some(LogLine { job: name, message }),
        None => None,
    }
}

/// Whether what follows the event is a wait of one period.
pub open spec fn starts_period(schedule: Schedule, event: Event) -> bool {
    match event {
        Event::Started => schedule.first_tick() == FirstTick::SkipImmediate,
        Event::TickSucceeded | Event::TickFailed => true,
        Event::Elapsed | Event::Cancelled => false,
    }
}

/// The driver of a periodic job. It owns the job, which carries its state from
/// tick to tick.
#[derive(Debug)]
pub struct Driver<J> {
    name: &'static str,
    schedule: Schedule,
    job: J,
}

impl<J> Driver<J> {
    /// The name under which the job is logged.
    pub closed spec fn name(self) -> &'static str {
        self.name
    }

    /// The cadence of the job.
    pub closed spec fn schedule(self) -> Schedule {
        self.schedule
    }

    /// The job, in the state that its last tick has left.
    pub closed spec fn job(self) -> J {
        self.job
    }

    /// A driver that ticks `job` on `schedule` and logs under `name`.
    pub fn new(name: &'static str, schedule: Schedule, job: J) -> (driver: Driver<J>)
        ensures
            driver.name() == name,
            driver.schedule() == schedule,
            driver.job() == job,
    {
        Driver { name, schedule, job }
    }

    /// The job, for one tick. What the tick makes of it is what the next one
    /// finds.
    pub fn job_mut(&mut self) -> (job: &mut J)
        ensures
            *job == old(self).job(),
            final(self).job() == *final(job),
            final(self).name() == old(self).name(),
            final(self).schedule() == old(self).schedule(),
    {
        &mut self.job
    }

    /// Whether what follows `event` depends on the sample that is drawn for
    /// it.
    pub fn draws(&self, event: Event) -> (r: bool)
        ensures
            r == (starts_period(self.schedule(), event) && !is_steady(
                self.schedule().jitter_fraction(),
            )),
    {
        self.starts_period(event) && self.schedule.varies()
    }

    fn starts_period(&self, event: Event) -> (r: bool)
        ensures
            r == starts_period(self.schedule(), event),
    {
        match event {
            Event::Started => self.schedule.skips_immediate(),
            Event::TickSucceeded | Event::TickFailed => true,
            Event::Elapsed | Event::Cancelled => false,
        }
    }

    /// Whether the wait that follows `event` is one that a [`Duration`] can
    /// hold.
    pub fn can_follow(&self, event: Event, sample: u32) -> (r: bool)
        requires
            is_sample(sample),
        ensures
            r == (starts_period(self.schedule(), event) ==> self.schedule().wait_fits(sample)),
    {
        !self.starts_period(event) || self.schedule.can_wait(sample)
    }

    /// The line that is logged about `event`, before what follows it.
    pub fn line(&self, event: Event) -> (line: Option<LogLine>)
        ensures
            line == line_about(self.name(), event),
            line is None <==> event == Event::Started || event == Event::Elapsed,
            line matches Some(said) ==> said.job == self.name(),
    {
        match event {
            Event::Started | Event::Elapsed => None,
            Event::Cancelled => Some(LogLine { job: self.name, message: Message::Stopped }),
            Event::TickSucceeded => Some(LogLine { job: self.name, message: Message::TickOk }),
            Event::TickFailed => Some(LogLine { job: self.name, message: Message::TickFailed }),
        }
    }

    /// What follows `event` when `sample` is drawn for it.
    pub fn next(&self, event: Event, sample: u32) -> (action: Action)
        requires
            is_sample(sample),
            starts_period(self.schedule(), event) ==> self.schedule().wait_fits(sample),
        ensures
            action@ == next_action(self.schedule(), event, sample),
    {
        match event {
            Event::Started => {
                let wait: Duration = self.schedule.first_wait(sample);
                if wait.is_zero() {
                    Action::Tick
                } else {
                    Action::Wait(wait)
                }
            },
            Event::Elapsed => Action::Tick,
            Event::Cancelled => Action::Stop,
            Event::TickSucceeded | Event::TickFailed => Action::Wait(self.schedule.wait(sample)),
        }
    }
}

// ---------------------------------------------------------------------------
// Laws
//
// A history of a job is the sequence of its events, each with the sample drawn
// for it, and of the actions that follow them.

/// The action that follows the event numbered `i` of a history.
pub open spec fn action_at(schedule: Schedule, turns: Seq<(Event, u32)>, i: int) -> ActionView {
    next_action(schedule, turns[i].0, turns[i].1)
}

/// Whether an event is a way in which an action can end.
pub open spec fn ends(action: ActionView, event: Event) -> bool {
    match action {
        ActionView::Wait(_) => event == Event::Elapsed || event == Event::Cancelled,
        ActionView::Tick => event == Event::TickSucceeded || event == Event::TickFailed,
        ActionView::Stop => false,
    }
}

/// Whether the events are those of a job that is started once and then
/// performs one action after the other.
pub open spec fn is_history(schedule: Schedule, turns: Seq<(Event, u32)>) -> bool {
    &&& turns.len() > 0 ==> turns[0].0 == Event::Started
    &&& forall|i: int|
        0 <= i < turns.len() - 1 ==> ends(#[trigger] action_at(schedule, turns, i), turns[i + 1].0)
}

/// After a tick, however it ended, the job waits one period, varied by the
/// schedule's fraction as the sample picks: with the fraction `f` and the sample
/// `s`, the period times one and `f` times two `s` less one, up to six parts in
/// two to the 24 of the period and half a nanosecond. Without a fraction it waits
/// the period itself.
///
/// With values in units of two to the -149, all sides are multiplied by two and
/// by the square of the value of one.
pub proof fn a_tick_is_followed_by_one_varied_period(
    schedule: Schedule,
    event: Event,
    sample: u32,
)
    requires
        schedule.wf(),
        schedule.every().wf(),
        is_sample(sample),
        event == Event::TickSucceeded || event == Event::TickFailed,
    ensures
        match next_action(schedule, event, sample) {
            ActionView::Wait(wait) => {
                let (o, f, s) = (
                    pow2(149) as int,
                    value(schedule.jitter_fraction()),
                    value(sample),
                );
                let n = schedule.every().secs() * 1_000_000_000 + schedule.every().nanos();
                let (exact, slack) = (o * o + (2 * s - o) * f, 6 * pow2(274) as int);
                &&& 2 * (wait * (o * o)) <= 2 * (n * (exact + slack)) + o * o
                &&& 2 * (wait * (o * o)) + o * o >= 2 * (n * (exact - slack))
                &&& f == 0 ==> wait == n
            },
            _ => false,
        },
        next_action(schedule, event, sample) == ActionView::Wait(
            jittered_nanos(schedule.every(), schedule.jitter_fraction(), sample),
        ),
{
    a_wait_is_the_period_varied_by_the_fraction(schedule, sample);
}

/// After a tick the job waits no longer and no shorter than its fraction of the
/// period allows, but for one part in two to the 50 of the period and half a
/// nanosecond; with a tenth, and a period of a second or more, at least nine and
/// at most eleven tenths of the period.
pub proof fn the_wait_after_a_tick_stays_within_the_fraction(
    schedule: Schedule,
    event: Event,
    sample: u32,
)
    requires
        schedule.wf(),
        schedule.every().wf(),
        is_sample(sample),
        event == Event::TickSucceeded || event == Event::TickFailed,
    ensures
        match next_action(schedule, event, sample) {
            ActionView::Wait(wait) => {
                let (o, f) = (pow2(149) as int, value(schedule.jitter_fraction()));
                let n = schedule.every().secs() * 1_000_000_000 + schedule.every().nanos();
                &&& 2 * (wait * o) <= 2 * (n * (o + f + pow2(99))) + o
                &&& 2 * (wait * o) + o >= 2 * (n * (o - f - pow2(99)))
                &&& schedule.jitter_fraction() == 0x3dcc_cccd && n >= 1_000_000_000 ==> 9 * n
                    <= 10 * wait <= 11 * n
            },
            _ => false,
        },
{
    a_wait_stays_within_the_fraction_of_the_period(schedule, sample);
}

/// A job that skips the immediate tick begins as it goes on after a tick with the
/// same sample: with a wait of one varied period. Only where that wait is empty it
/// ticks at once.
pub proof fn a_skipped_first_tick_waits_as_after_a_tick(schedule: Schedule, sample: u32)
    requires
        schedule.first_tick() == FirstTick::SkipImmediate,
    ensures
        next_action(schedule, Event::TickSucceeded, sample) == ActionView::Wait(0) ==> next_action(
            schedule,
            Event::Started,
            sample,
        ) == ActionView::Tick,
        next_action(schedule, Event::TickSucceeded, sample) != ActionView::Wait(0) ==> next_action(
            schedule,
            Event::Started,
            sample,
        ) == next_action(schedule, Event::TickSucceeded, sample),
        ({
            let wait = jittered_nanos(schedule.every(), schedule.jitter_fraction(), sample);
            next_action(schedule, Event::Started, sample) == (if wait > 0 {
                ActionView::Wait(wait)
            } else {
                ActionView::Tick
            })
        }),
{
}

/// The first tick of a job that skips the immediate one begins one varied period
/// after the start, as long as one that follows a tick.
pub proof fn a_skipped_first_tick_comes_one_period_after_the_start(
    schedule: Schedule,
    sample: u32,
)
    requires
        schedule.wf(),
        schedule.every().wf(),
        is_sample(sample),
        schedule.first_tick() == FirstTick::SkipImmediate,
    ensures
        ({
            let (o, f, s) = (
                pow2(149) as int,
                value(schedule.jitter_fraction()),
                value(sample),
            );
            let n = schedule.every().secs() * 1_000_000_000 + schedule.every().nanos();
            let (exact, slack) = (o * o + (2 * s - o) * f, 6 * pow2(274) as int);
            match next_action(schedule, Event::Started, sample) {
                ActionView::Wait(wait) => {
                    &&& wait > 0
                    &&& 2 * (wait * (o * o)) <= 2 * (n * (exact + slack)) + o * o
                    &&& 2 * (wait * (o * o)) + o * o >= 2 * (n * (exact - slack))
                    &&& f == 0 ==> wait == n
                },
                ActionView::Tick => {
                    &&& o * o >= 2 * (n * (exact - slack))
                    &&& f == 0 ==> n == 0
                },
                ActionView::Stop => false,
            }
        }),
{
    a_wait_is_the_period_varied_by_the_fraction(schedule, sample);
    let o = pow2(149) as int;
    assert(0 * (o * o) == 0) by (nonlinear_arith);
}

/// A job whose first tick comes after a given span waits exactly that span,
/// whatever its period, its fraction and the sample; where the span is empty it
/// ticks at once.
pub proof fn a_given_first_wait_is_kept(schedule: Schedule, wait: Duration, sample: u32)
    requires
        schedule.first_tick() == FirstTick::After(wait),
    ensures
        ({
            let n = wait.secs() * 1_000_000_000 + wait.nanos();
            &&& n > 0 ==> next_action(schedule, Event::Started, sample) == ActionView::Wait(
                n as nat,
            )
            &&& n == 0 ==> next_action(schedule, Event::Started, sample) == ActionView::Tick
        }),
{
}

/// An immediate job begins with a tick, a wait that has run to its end is followed
/// by one, and cancellation by the end, whatever the schedule and the sample.
pub proof fn ticks_begin_and_end_a_job(schedule: Schedule, sample: u32)
    ensures
        schedule.first_tick() == FirstTick::Immediate ==> next_action(
            schedule,
            Event::Started,
            sample,
        ) == ActionView::Tick,
        next_action(schedule, Event::Elapsed, sample) == ActionView::Tick,
        next_action(schedule, Event::Cancelled, sample) == ActionView::Stop,
{
}

/// The sample counts only where a period begins, and a period begins at the start
/// of a job that skips the immediate tick and after each tick. Elsewhere, and
/// without a fraction, what follows is the same with any sample.
pub proof fn only_periods_depend_on_the_sample(schedule: Schedule, event: Event, a: u32, b: u32)
    requires
        schedule.wf(),
    ensures
        starts_period(schedule, event) <==> {
            ||| event == Event::TickSucceeded
            ||| event == Event::TickFailed
            ||| event == Event::Started && schedule.first_tick() == FirstTick::SkipImmediate
        },
        !starts_period(schedule, event) || value(schedule.jitter_fraction()) == 0 ==> next_action(
            schedule,
            event,
            a,
        ) == next_action(schedule, event, b),
        schedule.wait_fits(a) == fits(schedule.every(), schedule.jitter_fraction(), a),
{
    if value(schedule.jitter_fraction()) == 0 {
        no_fraction_keeps_the_delay(schedule.every(), schedule.jitter_fraction(), a);
        no_fraction_keeps_the_delay(schedule.every(), schedule.jitter_fraction(), b);
    }
}

/// A line is about the job that is named, and tells what has happened: a tick
/// that succeeded, one that failed, or the end after cancellation. The start and
/// the end of a wait are not logged.
pub proof fn a_line_tells_what_has_happened(name: &'static str)
    ensures
        line_about(name, Event::TickSucceeded) == Some(
            LogLine { job: name, message: Message::TickOk },
        ),
        line_about(name, Event::TickFailed) == Some(
            LogLine { job: name, message: Message::TickFailed },
        ),
        line_about(name, Event::Cancelled) == Some(
            LogLine { job: name, message: Message::Stopped },
        ),
        line_about(name, Event::Started) is None,
        line_about(name, Event::Elapsed) is None,
{
}

/// An action is what its view says, with its wait in nanoseconds.
pub proof fn an_action_is_its_view(action: Action)
    ensures
        action@ is Tick <==> action == Action::Tick,
        action@ is Stop <==> action == Action::Stop,
        action matches Action::Wait(wait) ==> action@ == ActionView::Wait(
            (wait.secs() * 1_000_000_000 + wait.nanos()) as nat,
        ),
{
}

/// Ticks are serial: after a tick the job waits, so between two ticks there is
/// always a wait, and the first of them has ended before the second begins.
pub proof fn ticks_are_serial(schedule: Schedule, turns: Seq<(Event, u32)>, i: int)
    requires
        is_history(schedule, turns),
        0 <= i < turns.len() - 1,
        action_at(schedule, turns, i) is Tick,
    ensures
        action_at(schedule, turns, i + 1) is Wait,
        turns[i + 1].0 == Event::TickSucceeded || turns[i + 1].0 == Event::TickFailed,
{
    assert(ends(action_at(schedule, turns, i), turns[i + 1].0));
}

/// Every tick but one at the very start follows a wait that ran to its end.
pub proof fn ticks_follow_waits(schedule: Schedule, turns: Seq<(Event, u32)>, i: int)
    requires
        is_history(schedule, turns),
        0 < i < turns.len(),
        action_at(schedule, turns, i) is Tick,
    ensures
        action_at(schedule, turns, i - 1) is Wait,
        turns[i].0 == Event::Elapsed,
{
    assert(ends(action_at(schedule, turns, i - 1), turns[i].0));
}

/// A failed tick changes nothing in what follows.
pub proof fn a_failed_tick_goes_on(schedule: Schedule, sample: u32)
    ensures
        next_action(schedule, Event::TickFailed, sample) == next_action(
            schedule,
            Event::TickSucceeded,
            sample,
        ),
        next_action(schedule, Event::TickFailed, sample) is Wait,
{
}

/// Cancellation ends a job from a wait, and from nowhere else: a tick under way
/// is not cut short. Nothing follows.
pub proof fn cancellation_stops_between_ticks(
    schedule: Schedule,
    turns: Seq<(Event, u32)>,
    i: int,
)
    requires
        is_history(schedule, turns),
        0 <= i < turns.len(),
    ensures
        action_at(schedule, turns, i) is Stop <==> turns[i].0 == Event::Cancelled,
        turns[i].0 == Event::Cancelled ==> {
            &&& i == turns.len() - 1
            &&& i > 0
            &&& action_at(schedule, turns, i - 1) is Wait
        },
{
    if i > 0 {
        assert(ends(action_at(schedule, turns, i - 1), turns[i].0));
    }
    if i + 1 < turns.len() {
        assert(ends(action_at(schedule, turns, i), turns[i + 1].0));
    }
}

/// Where there is nothing to wait for, a job ticks at once, before it looks for
/// cancellation.
pub proof fn an_immediate_job_ticks_first(schedule: Schedule, turns: Seq<(Event, u32)>)
    requires
        is_history(schedule, turns),
        turns.len() > 0,
        schedule.first_tick() == FirstTick::Immediate,
    ensures
        action_at(schedule, turns, 0) is Tick,
{
}

/// The lines that are logged in a history, in order.
pub open spec fn lines(name: &'static str, turns: Seq<(Event, u32)>) -> Seq<LogLine>
    decreases turns.len(),
{
    if turns.len() == 0 {
        Seq::empty()
    } else {
        match line_about(name, turns.last().0) {
            Some(line) => lines(name, turns.drop_last()).push(line),
            None => lines(name, turns.drop_last()),
        }
    }
}

/// How the ticks of a history ended, in order.
pub open spec fn outcomes(schedule: Schedule, turns: Seq<(Event, u32)>) -> Seq<Event>
    decreases turns.len(),
{
    if turns.len() < 2 {
        Seq::empty()
    } else if action_at(schedule, turns, turns.len() - 2) is Tick {
        outcomes(schedule, turns.drop_last()).push(turns.last().0)
    } else {
        outcomes(schedule, turns.drop_last())
    }
}

/// The line about a tick that ended in the given way.
pub open spec fn tick_line(name: &'static str, outcome: Event) -> LogLine {
    LogLine {
        job: name,
        message: if outcome == Event::TickSucceeded {
            Message::TickOk
        } else {
            Message::TickFailed
        },
    }
}

/// Each tick is logged once, by how it ended and in order, and the end of the
/// job after all of them. There are no other lines.
pub proof fn each_tick_is_logged_and_then_the_stop(
    name: &'static str,
    schedule: Schedule,
    turns: Seq<(Event, u32)>,
)
    requires
        is_history(schedule, turns),
    ensures
        ({
            let ticks = outcomes(schedule, turns).map_values(
                |outcome: Event| tick_line(name, outcome),
            );
            lines(name, turns) == (if turns.len() > 0 && action_at(
                schedule,
                turns,
                turns.len() - 1,
            ) is Stop {
                ticks.push(LogLine { job: name, message: Message::Stopped })
            } else {
                ticks
            })
        }),
    decreases turns.len(),
{
    let line = |outcome: Event| tick_line(name, outcome);
    if turns.len() == 0 {
        assert(outcomes(schedule, turns).map_values(line) =~= Seq::empty());
    } else {
        let before = turns.drop_last();
        let n = turns.len() - 1;
        assert forall|i: int| 0 <= i < n implies #[trigger] action_at(schedule, before, i)
            == action_at(schedule, turns, i) by {}
        assert(is_history(schedule, before)) by {
            assert forall|i: int| 0 <= i < before.len() - 1 implies ends(
                #[trigger] action_at(schedule, before, i),
                before[i + 1].0,
            ) by {
                assert(ends(action_at(schedule, turns, i), turns[i + 1].0));
            }
        }
        each_tick_is_logged_and_then_the_stop(name, schedule, before);
        if n == 0 {
            assert(lines(name, before) =~= Seq::empty());
            assert(outcomes(schedule, turns).map_values(line) =~= Seq::empty());
        } else {
            let last = action_at(schedule, turns, n - 1);
            assert(ends(last, turns[n].0));
            assert(action_at(schedule, before, n - 1) == last);
            if last is Tick {
                let ended = outcomes(schedule, before);
                assert(ended.push(turns[n].0).map_values(line) =~= ended.map_values(line).push(
                    line(turns[n].0),
                ));
            }
        }
    }
}

// The run of a job is its history with the driver that each event is met by.

/// Whether what happens between the events numbered `i` and `i + 1` is what the
/// driver asks for: a tick may change the job, and nothing else changes.
pub open spec fn passes_on<J>(drivers: Seq<Driver<J>>, turns: Seq<(Event, u32)>, i: int) -> bool {
    &&& drivers[i + 1].name() == drivers[i].name()
    &&& drivers[i + 1].schedule() == drivers[i].schedule()
    &&& action_at(drivers[i].schedule(), turns, i) is Tick || drivers[i + 1].job()
        == drivers[i].job()
}

/// Whether the events are those of one driver, as it is when each of them comes.
pub open spec fn is_run<J>(drivers: Seq<Driver<J>>, turns: Seq<(Event, u32)>) -> bool {
    &&& drivers.len() == turns.len() > 0
    &&& is_history(drivers[0].schedule(), turns)
    &&& forall|i: int| 0 <= i < turns.len() - 1 ==> #[trigger] passes_on(drivers, turns, i)
}

proof fn lemma_schedule_stays<J>(drivers: Seq<Driver<J>>, turns: Seq<(Event, u32)>, n: int)
    requires
        is_run(drivers, turns),
        0 <= n < turns.len(),
    ensures
        drivers[n].schedule() == drivers[0].schedule(),
    decreases n,
{
    if n > 0 {
        lemma_schedule_stays(drivers, turns, n - 1);
        assert(passes_on(drivers, turns, n - 1));
    }
}

proof fn lemma_job_stays<J>(drivers: Seq<Driver<J>>, turns: Seq<(Event, u32)>, a: int, b: int)
    requires
        is_run(drivers, turns),
        0 <= a <= b < turns.len(),
        forall|i: int|
            a <= i < b ==> !(#[trigger] action_at(drivers[0].schedule(), turns, i) is Tick),
    ensures
        drivers[b].job() == drivers[a].job(),
    decreases b - a,
{
    if a < b {
        lemma_job_stays(drivers, turns, a, b - 1);
        lemma_schedule_stays(drivers, turns, b - 1);
        assert(passes_on(drivers, turns, b - 1));
        assert(!(action_at(drivers[0].schedule(), turns, b - 1) is Tick));
    }
}

/// A job keeps its state from tick to tick. The tick numbered `b` among the
/// actions finds the job as the one before it, numbered `a`, has left it,
/// however that one ended.
pub proof fn a_tick_finds_what_the_last_one_left<J>(
    drivers: Seq<Driver<J>>,
    turns: Seq<(Event, u32)>,
    a: int,
    b: int,
)
    requires
        is_run(drivers, turns),
        0 <= a < b < turns.len(),
        action_at(drivers[0].schedule(), turns, a) is Tick,
        action_at(drivers[0].schedule(), turns, b) is Tick,
        forall|i: int|
            a < i < b ==> !(#[trigger] action_at(drivers[0].schedule(), turns, i) is Tick),
    ensures
        drivers[b].job() == drivers[a + 1].job(),
        a + 1 < b,
        turns[a + 1].0 == Event::TickSucceeded || turns[a + 1].0 == Event::TickFailed,
{
    ticks_are_serial(drivers[0].schedule(), turns, a);
    lemma_job_stays(drivers, turns, a + 1, b);
}

/// The first tick finds the job as it was handed to the driver.
pub proof fn the_first_tick_finds_the_job_as_given<J>(
    drivers: Seq<Driver<J>>,
    turns: Seq<(Event, u32)>,
    a: int,
)
    requires
        is_run(drivers, turns),
        0 <= a < turns.len(),
        forall|i: int|
            0 <= i < a ==> !(#[trigger] action_at(drivers[0].schedule(), turns, i) is Tick),
    ensures
        drivers[a].job() == drivers[0].job(),
{
    lemma_job_stays(drivers, turns, 0, a);
}

/// The time that has passed before the action numbered `i`, where the action
/// numbered `j` takes `spans[j]`.
pub open spec fn time_before(spans: Seq<nat>, i: nat) -> nat
    decreases i,
{
    if i == 0 {
        0
    } else {
        time_before(spans, (i - 1) as nat) + spans[i - 1]
    }
}

/// The number of waits before the first tick.
pub open spec fn lead(schedule: Schedule, turns: Seq<(Event, u32)>) -> nat {
    if schedule.first_wait_nanos(turns[0].1) == 0 {
        0
    } else {
        1
    }
}

/// The time that the first `n` ticks take and the waits of one period after
/// them, by the samples drawn for these.
pub open spec fn rounds(
    schedule: Schedule,
    turns: Seq<(Event, u32)>,
    spans: Seq<nat>,
    n: nat,
) -> nat
    decreases n,
{
    if n == 0 {
        0
    } else {
        let i = lead(schedule, turns) + 2 * (n - 1);
        rounds(schedule, turns, spans, (n - 1) as nat) + spans[i] + schedule.wait_nanos(
            turns[i + 1].1,
        )
    }
}

/// The cadence: as long as a job is not cancelled, its tick numbered `n` is the
/// action numbered `lead + 2 n`, and it begins after the first wait and `n`
/// rounds, each as long as a tick and one period.
pub proof fn ticks_keep_the_cadence(
    schedule: Schedule,
    turns: Seq<(Event, u32)>,
    spans: Seq<nat>,
    n: nat,
)
    requires
        is_history(schedule, turns),
        turns.len() > lead(schedule, turns) + 2 * n,
        forall|i: int| 0 <= i < turns.len() ==> (#[trigger] turns[i]).0 != Event::Cancelled,
        forall|i: int|
            0 <= i < turns.len() ==> (action_at(schedule, turns, i) matches ActionView::Wait(wait)
                ==> #[trigger] spans[i] == wait),
    ensures
        action_at(schedule, turns, (lead(schedule, turns) + 2 * n) as int) is Tick,
        time_before(spans, lead(schedule, turns) + 2 * n) == schedule.first_wait_nanos(turns[0].1)
            + rounds(schedule, turns, spans, n),
    decreases n,
{
    let l = lead(schedule, turns);
    if n == 0 {
        assert(time_before(spans, 0) == 0);
        if l == 1 {
            assert(ends(action_at(schedule, turns, 0), turns[1].0));
            assert(spans[0] == schedule.first_wait_nanos(turns[0].1));
            assert(time_before(spans, 1) == time_before(spans, 0) + spans[0]);
        }
    } else {
        let m = (n - 1) as nat;
        let i = (l + 2 * m) as int;
        ticks_keep_the_cadence(schedule, turns, spans, m);
        assert(ends(action_at(schedule, turns, i), turns[i + 1].0));
        assert(action_at(schedule, turns, i + 1) == ActionView::Wait(
            schedule.wait_nanos(turns[i + 1].1),
        ));
        assert(ends(action_at(schedule, turns, i + 1), turns[i + 2].0));
        assert(spans[i + 1] == schedule.wait_nanos(turns[i + 1].1));
        assert(time_before(spans, (i + 1) as nat) == time_before(spans, i as nat) + spans[i]);
        assert(time_before(spans, (i + 2) as nat) == time_before(spans, (i + 1) as nat) + spans[i
            + 1]);
    }
}

/// The time that the first `n` ticks take.
pub open spec fn ticking(
    schedule: Schedule,
    turns: Seq<(Event, u32)>,
    spans: Seq<nat>,
    n: nat,
) -> nat
    decreases n,
{
    if n == 0 {
        0
    } else {
        ticking(schedule, turns, spans, (n - 1) as nat) + spans[lead(schedule, turns) + 2 * (n
            - 1)]
    }
}

/// Without variation, the tick numbered `n` begins after the first wait, `n`
/// periods and the time that the ticks before it took: the pause between two
/// ticks is one period, however long they are.
pub proof fn a_steady_cadence_adds_whole_periods(
    schedule: Schedule,
    turns: Seq<(Event, u32)>,
    spans: Seq<nat>,
    n: nat,
)
    requires
        is_history(schedule, turns),
        is_steady(schedule.jitter_fraction()),
        turns.len() > lead(schedule, turns) + 2 * n,
        forall|i: int| 0 <= i < turns.len() ==> (#[trigger] turns[i]).0 != Event::Cancelled,
        forall|i: int|
            0 <= i < turns.len() ==> (action_at(schedule, turns, i) matches ActionView::Wait(wait)
                ==> #[trigger] spans[i] == wait),
    ensures
        time_before(spans, lead(schedule, turns) + 2 * n) == schedule.first_wait_nanos(turns[0].1)
            + n * schedule.every()@ + ticking(schedule, turns, spans, n),
{
    ticks_keep_the_cadence(schedule, turns, spans, n);
    lemma_steady_rounds(schedule, turns, spans, n);
}

proof fn lemma_steady_rounds(
    schedule: Schedule,
    turns: Seq<(Event, u32)>,
    spans: Seq<nat>,
    n: nat,
)
    requires
        is_steady(schedule.jitter_fraction()),
    ensures
        rounds(schedule, turns, spans, n) == n * schedule.every()@ + ticking(
            schedule,
            turns,
            spans,
            n,
        ),
    decreases n,
{
    if n > 0 {
        lemma_steady_rounds(schedule, turns, spans, (n - 1) as nat);
        let e = schedule.every()@;
        assert(n * e == (n - 1) * e + e) by (nonlinear_arith);
    } else {
        let e = schedule.every()@;
        assert(0 * e == 0) by (nonlinear_arith);
    }
}

} // verus!
