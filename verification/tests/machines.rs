//! Schedules, the driver and the shutdown, event by event.

use easi_job::binary32::ONE;
use easi_job::job_set::classify;
use easi_job::{
    job_fn, Action, Driver, Duration, Event, FirstTick, JobSet, JoinEvent, Joined, LogLine,
    Message, Outcome, Schedule, ShutdownAction, ShutdownReport,
};

const HALF: u32 = 0x3f00_0000;

fn line(job: &'static str, message: Message) -> Option<LogLine> {
    Some(LogLine { job, message })
}

fn joined(task: usize, outcome: Outcome) -> JoinEvent {
    JoinEvent::Joined(Joined { task, outcome })
}

#[test]
fn a_new_schedule_skips_the_first_period_and_varies_by_a_tenth() {
    let driver = Driver::new("a", Schedule::new(Duration::from_secs(60)), ());
    assert!(driver.draws(Event::Started));
    assert_eq!(
        driver.next(Event::Started, HALF),
        Action::Wait(Duration::from_secs(60))
    );
    // A tenth down: the least single-precision number that is within it.
    assert_eq!(easi_job::schedule::TENTH, 0.1f32.to_bits());
    assert_eq!(
        driver.next(Event::TickSucceeded, 0),
        Action::Wait(Duration::new(54, 2146))
    );
}

#[test]
fn with_jitter_clamps() {
    let day = Duration::from_secs(86_400);
    for fraction in [0.0f32, -0.0, -3.0, f32::NAN, f32::NEG_INFINITY] {
        let schedule = Schedule::new(day).with_jitter(fraction.to_bits());
        assert!(!schedule.varies());
        assert_eq!(schedule.wait(ONE - 1), day);
    }
    for fraction in [1.0f32, 1.5, f32::INFINITY] {
        let schedule = Schedule::new(day).with_jitter(fraction.to_bits());
        assert!(schedule.varies());
        assert_eq!(schedule.wait(0), Duration::from_secs(0));
    }
    let schedule = Schedule::new(day).with_jitter(0.25f32.to_bits());
    assert_eq!(schedule.wait(0), Duration::from_secs(64_800));
}

#[test]
fn one_schedule_drives_several_jobs() {
    let schedule = Schedule::new(Duration::from_secs(5))
        .with_first_tick(FirstTick::After(Duration::new(0, 250_000_000)))
        .with_jitter(0);
    let a = Driver::new("a", schedule.clone(), ());
    let b = Driver::new("b", schedule, ());
    for driver in [&a, &b] {
        assert_eq!(
            driver.next(Event::Started, 0),
            Action::Wait(Duration::new(0, 250_000_000))
        );
        assert_eq!(
            driver.next(Event::TickFailed, 0),
            Action::Wait(Duration::from_secs(5))
        );
    }
    assert_eq!(a.line(Event::Cancelled), line("a", Message::Stopped));
    assert_eq!(b.line(Event::Cancelled), line("b", Message::Stopped));
}

#[test]
fn a_first_wait_of_nothing_is_a_tick() {
    let schedule = Schedule::new(Duration::from_secs(10)).with_jitter(0);
    for first_tick in [FirstTick::Immediate, FirstTick::After(Duration::from_secs(0))] {
        let driver = Driver::new("a", schedule.clone().with_first_tick(first_tick), ());
        assert_eq!(driver.next(Event::Started, 0), Action::Tick);
    }
    let nothing = Driver::new("a", Schedule::new(Duration::from_secs(0)), ());
    assert_eq!(nothing.next(Event::Started, HALF), Action::Tick);
    // Between ticks there is a wait even then: it looks for cancellation.
    assert_eq!(
        nothing.next(Event::TickSucceeded, HALF),
        Action::Wait(Duration::from_secs(0))
    );
}

#[test]
fn the_driver_answers_every_event() {
    let driver = Driver::new(
        "sweep",
        Schedule::new(Duration::from_secs(10))
            .with_first_tick(FirstTick::Immediate)
            .with_jitter(0),
        (),
    );
    let pause = Action::Wait(Duration::from_secs(10));
    let answers = [
        (Event::Started, Action::Tick, None),
        (Event::Elapsed, Action::Tick, None),
        (Event::Cancelled, Action::Stop, line("sweep", Message::Stopped)),
        (Event::TickSucceeded, pause, line("sweep", Message::TickOk)),
        (Event::TickFailed, pause, line("sweep", Message::TickFailed)),
    ];
    for (event, action, log) in answers {
        assert!(!driver.draws(event));
        assert!(driver.can_follow(event, 0));
        assert_eq!(driver.next(event, 0), action);
        assert_eq!(driver.line(event), log);
    }
}

#[test]
fn samples_are_drawn_only_for_a_period() {
    let schedule = Schedule::new(Duration::from_secs(10));
    let skip = Driver::new("a", schedule.clone(), ());
    let at_once = Driver::new("a", schedule.with_first_tick(FirstTick::Immediate), ());
    assert!(skip.draws(Event::Started));
    assert!(!at_once.draws(Event::Started));
    for driver in [skip, at_once] {
        assert!(driver.draws(Event::TickSucceeded));
        assert!(driver.draws(Event::TickFailed));
        assert!(!driver.draws(Event::Elapsed));
        assert!(!driver.draws(Event::Cancelled));
    }
}

#[test]
fn a_wait_beyond_the_range_cannot_follow() {
    let driver = Driver::new("a", Schedule::new(Duration::new(u64::MAX, 0)), ());
    assert!(!driver.can_follow(Event::Started, ONE - 1));
    assert!(!driver.can_follow(Event::TickSucceeded, ONE - 1));
    assert!(driver.can_follow(Event::TickSucceeded, 0));
    assert!(driver.can_follow(Event::Elapsed, ONE - 1));
}

#[test]
fn a_wrapped_closure_is_the_closure() {
    let mut n = 0;
    let mut job = job_fn(|step: i32| {
        n += step;
        n
    });
    assert_eq!((job.0)(2), 2);
    assert_eq!((job.0)(3), 5);
}

#[test]
fn classify_lists_a_task_by_its_outcome() {
    let names = vec!["zero", "one", "two"];
    let mut report = ShutdownReport::default();
    let cases = [
        (0, Outcome::Completed, false, None),
        (1, Outcome::Panicked, false, line("one", Message::Panicked)),
        (2, Outcome::Aborted, false, None),
        (0, Outcome::Completed, true, None),
        (1, Outcome::Panicked, true, line("one", Message::Panicked)),
        (2, Outcome::Aborted, true, line("two", Message::AbortedAfterGrace)),
        (3, Outcome::Aborted, true, line("<unknown>", Message::AbortedAfterGrace)),
    ];
    for (task, outcome, after_grace, log) in cases {
        assert_eq!(
            classify(&names, Joined { task, outcome }, after_grace, &mut report),
            log
        );
    }
    assert_eq!(report.clean, vec!["zero", "zero"]);
    assert_eq!(report.panicked, vec!["one", "one"]);
    assert_eq!(report.aborted, vec!["two", "two", "<unknown>"]);
}

#[test]
fn a_shutdown_within_grace() {
    let mut jobs = JobSet::new();
    assert_eq!(jobs.periodic("a"), 0);
    assert_eq!(jobs.task("b"), 1);
    let (mut shutdown, action) = jobs.shutdown();
    assert_eq!(action, ShutdownAction::JoinUntilDeadline);
    let step = shutdown.step(joined(1, Outcome::Completed));
    assert_eq!((step.log, step.action), (None, ShutdownAction::JoinUntilDeadline));
    let step = shutdown.step(joined(0, Outcome::Panicked));
    assert_eq!(step.log, line("a", Message::Panicked));
    assert_eq!(step.action, ShutdownAction::JoinUntilDeadline);
    let step = shutdown.step(JoinEvent::Drained);
    assert_eq!((step.log, step.action), (None, ShutdownAction::Finish));
    let report = shutdown.into_report();
    assert_eq!(report.clean, vec!["b"]);
    assert_eq!(report.panicked, vec!["a"]);
    assert!(report.aborted.is_empty());
}

#[test]
fn a_shutdown_beyond_grace() {
    let mut jobs = JobSet::new();
    jobs.periodic("same");
    jobs.periodic("late");
    jobs.periodic("same");
    let (mut shutdown, _) = jobs.shutdown();
    shutdown.step(joined(0, Outcome::Completed));
    let step = shutdown.step(JoinEvent::GraceExpired);
    assert_eq!((step.log, step.action), (None, ShutdownAction::AbortThenJoin));
    // It returned by itself just after the deadline: clean, not aborted.
    let step = shutdown.step(joined(1, Outcome::Completed));
    assert_eq!((step.log, step.action), (None, ShutdownAction::Join));
    let step = shutdown.step(joined(2, Outcome::Aborted));
    assert_eq!(step.log, line("same", Message::AbortedAfterGrace));
    assert_eq!(step.action, ShutdownAction::Join);
    let step = shutdown.step(JoinEvent::Drained);
    assert_eq!(step.action, ShutdownAction::Finish);
    let report = shutdown.into_report();
    // Each of the three jobs is listed once.
    assert_eq!(report.clean, vec!["same", "late"]);
    assert_eq!(report.aborted, vec!["same"]);
    assert!(report.panicked.is_empty());
}

#[test]
fn an_empty_set_has_nothing_to_shut_down() {
    let (shutdown, action) = JobSet::new().shutdown();
    assert_eq!(action, ShutdownAction::Finish);
    let report = shutdown.into_report();
    assert!(report.clean.is_empty() && report.aborted.is_empty() && report.panicked.is_empty());
}

#[test]
fn only_a_forgotten_shutdown_is_warned_of() {
    let mut jobs = JobSet::new();
    assert_eq!(jobs.on_drop(), Some(0));
    jobs.periodic("a");
    jobs.task("b");
    jobs.task("b");
    assert_eq!(jobs.on_drop(), Some(3));
    let _ = jobs.shutdown();
    assert_eq!(jobs.on_drop(), None);
    // A job that comes late does not make it a forgotten one.
    jobs.task("c");
    assert_eq!(jobs.on_drop(), None);

    let mut empty = JobSet::new();
    let _ = empty.shutdown();
    assert_eq!(empty.on_drop(), None);
}

#[test]
fn a_registered_job_is_reported_once_more() {
    let mut jobs = JobSet::new();
    jobs.task("same");
    jobs.periodic("same");
    let (mut shutdown, _) = jobs.shutdown();
    // One that comes after the shutdown has begun is none of its tasks.
    jobs.task("late");
    shutdown.step(joined(0, Outcome::Completed));
    shutdown.step(joined(1, Outcome::Completed));
    assert_eq!(shutdown.into_report().clean, vec!["same", "same"]);
}

#[test]
fn a_tick_finds_the_job_as_the_last_one_left_it() {
    let schedule = Schedule::new(Duration::from_secs(10)).with_jitter(0);
    let mut driver = Driver::new("count", schedule, vec![0]);
    let mut found = Vec::new();
    for (tick, outcome) in [(1, Event::TickSucceeded), (2, Event::TickFailed)] {
        assert_eq!(driver.next(Event::Elapsed, 0), Action::Tick);
        found.push(driver.job_mut().clone());
        driver.job_mut().push(tick);
        assert_eq!(driver.next(outcome, 0), Action::Wait(Duration::from_secs(10)));
    }
    assert_eq!(found, vec![vec![0], vec![0, 1]]);
    assert_eq!(*driver.job_mut(), vec![0, 1, 2]);
}

#[test]
fn each_tick_is_logged_and_then_the_stop() {
    let driver = Driver::new("sweep", Schedule::new(Duration::from_secs(10)), ());
    let events = [
        Event::Started,
        Event::Elapsed,
        Event::TickSucceeded,
        Event::Elapsed,
        Event::TickFailed,
        Event::Cancelled,
    ];
    let lines: Vec<LogLine> = events.iter().filter_map(|event| driver.line(*event)).collect();
    let messages: Vec<Message> = lines.iter().map(|line| line.message).collect();
    assert_eq!(messages, vec![Message::TickOk, Message::TickFailed, Message::Stopped]);
    assert!(lines.iter().all(|line| line.job == "sweep"));
}
