//! The driver and the shutdown under a runtime whose clock stands still until
//! everything waits for it.

use std::collections::HashMap;
use std::future::Future;
use std::sync::atomic::{AtomicBool, AtomicUsize, Ordering};
use std::sync::Arc;
use std::time::Duration;

use easi_job::{
    job_fn, Action, CancellationToken, Driver, Event, FirstTick, JobFn, JobSet, JoinEvent, Joined,
    LogLine, Message, Outcome, Schedule, ShutdownAction, ShutdownReport,
};
use tokio::task::{Id, JoinHandle, JoinSet};

fn paused<F: Future>(body: F) -> F::Output {
    tokio::runtime::Builder::new_current_thread()
        .enable_time()
        .start_paused(true)
        .build()
        .unwrap()
        .block_on(body)
}

fn span(d: Duration) -> easi_job::Duration {
    easi_job::Duration::new(d.as_secs(), d.subsec_nanos())
}

fn every(secs: u64) -> Schedule {
    Schedule::new(easi_job::Duration::from_secs(secs)).with_jitter(0.0f32.to_bits())
}

async fn run_periodic<F, Fut>(
    name: &'static str,
    schedule: Schedule,
    token: CancellationToken,
    job: JobFn<F>,
) -> Vec<LogLine>
where
    F: FnMut(CancellationToken) -> Fut,
    Fut: Future<Output = Result<(), &'static str>>,
{
    let mut driver = Driver::new(name, schedule, job);
    let mut lines = Vec::new();
    let mut event = Event::Started;
    loop {
        lines.extend(driver.line(event));
        let sample = if driver.draws(event) {
            fastrand::f32().to_bits()
        } else {
            0
        };
        assert!(driver.can_follow(event, sample));
        event = match driver.next(event, sample) {
            Action::Wait(delay) => {
                let delay = Duration::new(delay.as_secs(), delay.subsec_nanos());
                // Looks for cancellation before it looks at the clock.
                match tokio::time::timeout(delay, token.cancelled()).await {
                    Ok(()) => Event::Cancelled,
                    Err(_) => Event::Elapsed,
                }
            }
            Action::Tick => match (driver.job_mut().0)(token.child_token()).await {
                Ok(()) => Event::TickSucceeded,
                Err(_) => Event::TickFailed,
            },
            Action::Stop => return lines,
        };
    }
}

struct Jobs {
    jobs: JobSet,
    tasks: JoinSet<()>,
    numbers: HashMap<Id, usize>,
}

impl Jobs {
    fn new() -> Jobs {
        Jobs {
            jobs: JobSet::new(),
            tasks: JoinSet::new(),
            numbers: HashMap::new(),
        }
    }

    fn periodic<F, Fut>(&mut self, name: &'static str, schedule: Schedule, job: JobFn<F>)
    where
        F: FnMut(CancellationToken) -> Fut + Send + 'static,
        Fut: Future<Output = Result<(), &'static str>> + Send,
    {
        let token = self.jobs.cancellation_token();
        let abort = self.tasks.spawn(async move {
            let _ = run_periodic(name, schedule, token, job).await;
        });
        let task = self.jobs.periodic(name);
        self.numbers.insert(abort.id(), task);
    }

    fn task<F, Fut>(&mut self, name: &'static str, work: F)
    where
        F: FnOnce(CancellationToken) -> Fut,
        Fut: Future<Output = ()> + Send + 'static,
    {
        let abort = self.tasks.spawn(work(self.jobs.cancellation_token()));
        let task = self.jobs.task(name);
        self.numbers.insert(abort.id(), task);
    }

    async fn shutdown(mut self, grace: Duration) -> (ShutdownReport, Vec<LogLine>) {
        let deadline = tokio::time::Instant::now() + grace;
        let (mut shutdown, mut action) = self.jobs.shutdown();
        let mut lines = Vec::new();
        loop {
            let event = match action {
                ShutdownAction::Finish => return (shutdown.into_report(), lines),
                ShutdownAction::JoinUntilDeadline => tokio::time::timeout_at(deadline, self.join())
                    .await
                    .unwrap_or(JoinEvent::GraceExpired),
                ShutdownAction::AbortThenJoin => {
                    self.tasks.abort_all();
                    self.join().await
                }
                ShutdownAction::Join => self.join().await,
            };
            let step = shutdown.step(event);
            lines.extend(step.log);
            action = step.action;
        }
    }

    async fn join(&mut self) -> JoinEvent {
        let (id, outcome) = match self.tasks.join_next_with_id().await {
            None => return JoinEvent::Drained,
            Some(Ok((id, ()))) => (id, Outcome::Completed),
            Some(Err(e)) if e.is_panic() => (e.id(), Outcome::Panicked),
            Some(Err(e)) => (e.id(), Outcome::Aborted),
        };
        let task = self.numbers[&id];
        JoinEvent::Joined(Joined { task, outcome })
    }
}

/// Spawns a job that counts its ticks.
fn spawn_counting(
    schedule: Schedule,
) -> (Arc<AtomicUsize>, CancellationToken, JoinHandle<Vec<LogLine>>) {
    let counter = Arc::new(AtomicUsize::new(0));
    let token = CancellationToken::new();
    let counter_for_work = counter.clone();
    let job = job_fn(move |_ct: CancellationToken| {
        let c = counter_for_work.clone();
        async move {
            c.fetch_add(1, Ordering::SeqCst);
            Ok(())
        }
    });
    let handle = tokio::spawn(run_periodic("test", schedule, token.clone(), job));
    (counter, token, handle)
}

async fn sleep_secs(secs: u64) {
    tokio::time::sleep(Duration::from_secs(secs)).await;
}

async fn sleep_one_milli() {
    tokio::time::sleep(Duration::from_millis(1)).await;
}

#[test]
fn skip_immediate_first_tick_at_one_period() {
    paused(async {
        let (counter, token, handle) = spawn_counting(every(10));

        sleep_secs(9).await;
        assert_eq!(counter.load(Ordering::SeqCst), 0, "no tick before t=10");

        sleep_secs(2).await;
        assert_eq!(counter.load(Ordering::SeqCst), 1, "first tick at t=10");

        sleep_secs(10).await;
        assert_eq!(counter.load(Ordering::SeqCst), 2, "second tick at t=20");

        token.cancel();
        handle.await.unwrap();
    });
}

#[test]
fn immediate_first_tick_at_t_zero() {
    paused(async {
        let (counter, token, handle) =
            spawn_counting(every(10).with_first_tick(FirstTick::Immediate));

        sleep_one_milli().await;
        assert_eq!(counter.load(Ordering::SeqCst), 1, "immediate tick at t=0");

        sleep_secs(10).await;
        assert_eq!(counter.load(Ordering::SeqCst), 2, "second tick at t=10");

        token.cancel();
        handle.await.unwrap();
    });
}

#[test]
fn after_first_tick_at_specified_duration() {
    paused(async {
        let (counter, token, handle) = spawn_counting(
            every(10).with_first_tick(FirstTick::After(span(Duration::from_secs(3)))),
        );

        sleep_secs(2).await;
        assert_eq!(
            counter.load(Ordering::SeqCst),
            0,
            "no tick before initial wait"
        );

        sleep_secs(2).await;
        assert_eq!(counter.load(Ordering::SeqCst), 1, "first tick at t=3");

        sleep_secs(10).await;
        assert_eq!(counter.load(Ordering::SeqCst), 2, "second tick at t=13");

        token.cancel();
        handle.await.unwrap();
    });
}

#[test]
fn cancellation_during_sleep_breaks_promptly() {
    paused(async {
        let (counter, token, handle) = spawn_counting(every(60));

        sleep_secs(10).await;
        assert_eq!(counter.load(Ordering::SeqCst), 0);

        token.cancel();
        let lines = handle.await.unwrap();
        assert_eq!(counter.load(Ordering::SeqCst), 0);
        assert_eq!(
            lines,
            vec![LogLine {
                job: "test",
                message: Message::Stopped
            }]
        );
    });
}

#[test]
fn cancellation_during_work_lets_work_finish() {
    paused(async {
        let work_started = Arc::new(AtomicBool::new(false));
        let work_completed = Arc::new(AtomicBool::new(false));
        let token = CancellationToken::new();

        let ws = work_started.clone();
        let wc = work_completed.clone();
        let job = job_fn(move |_ct: CancellationToken| {
            let ws = ws.clone();
            let wc = wc.clone();
            async move {
                ws.store(true, Ordering::SeqCst);
                tokio::time::sleep(Duration::from_secs(5)).await;
                wc.store(true, Ordering::SeqCst);
                Ok(())
            }
        });
        let handle = tokio::spawn(run_periodic(
            "test",
            every(10).with_first_tick(FirstTick::Immediate),
            token.clone(),
            job,
        ));

        sleep_one_milli().await;
        assert!(work_started.load(Ordering::SeqCst), "work started");
        assert!(!work_completed.load(Ordering::SeqCst), "work still running");

        token.cancel();

        sleep_secs(6).await;
        assert!(
            work_completed.load(Ordering::SeqCst),
            "work runs to completion despite cancel — driver does not abort it"
        );

        handle.await.unwrap();
    });
}

#[test]
fn error_in_work_continues_loop() {
    paused(async {
        let counter = Arc::new(AtomicUsize::new(0));
        let token = CancellationToken::new();
        let counter_for_work = counter.clone();
        let job = job_fn(move |_ct: CancellationToken| {
            let c = counter_for_work.clone();
            async move {
                let n = c.fetch_add(1, Ordering::SeqCst);
                if n % 2 == 0 {
                    Err("simulated")
                } else {
                    Ok(())
                }
            }
        });
        let handle = tokio::spawn(run_periodic(
            "test",
            every(10).with_first_tick(FirstTick::Immediate),
            token.clone(),
            job,
        ));

        sleep_one_milli().await;
        assert_eq!(counter.load(Ordering::SeqCst), 1, "first tick (errored)");

        sleep_secs(10).await;
        assert_eq!(counter.load(Ordering::SeqCst), 2, "second tick after error");

        sleep_secs(10).await;
        assert_eq!(counter.load(Ordering::SeqCst), 3, "third tick");

        token.cancel();
        let lines = handle.await.unwrap();
        let messages: Vec<Message> = lines.iter().map(|line| line.message).collect();
        assert_eq!(
            messages,
            vec![
                Message::TickFailed,
                Message::TickOk,
                Message::TickFailed,
                Message::Stopped
            ]
        );
    });
}

#[test]
fn trait_job_holds_state_across_ticks() {
    struct Counting {
        ticks: usize,
        mirror: Arc<AtomicUsize>,
    }

    impl Counting {
        fn tick(&mut self) {
            self.ticks += 1;
            self.mirror.store(self.ticks, Ordering::SeqCst);
        }
    }

    paused(async {
        let mirror = Arc::new(AtomicUsize::new(0));
        let token = CancellationToken::new();
        let mut counting = Counting {
            ticks: 0,
            mirror: mirror.clone(),
        };
        let job = job_fn(move |_ct: CancellationToken| {
            counting.tick();
            async { Ok(()) }
        });
        let handle = tokio::spawn(run_periodic(
            "test",
            every(10).with_first_tick(FirstTick::Immediate),
            token.clone(),
            job,
        ));

        sleep_one_milli().await;
        assert_eq!(mirror.load(Ordering::SeqCst), 1, "first tick");

        sleep_secs(10).await;
        assert_eq!(
            mirror.load(Ordering::SeqCst),
            2,
            "state carried to second tick"
        );

        sleep_secs(10).await;
        assert_eq!(
            mirror.load(Ordering::SeqCst),
            3,
            "state carried to third tick"
        );

        token.cancel();
        handle.await.unwrap();
    });
}

#[test]
fn a_job_cancelled_at_the_start_ticks_only_if_it_is_immediate() {
    paused(async {
        for (first_tick, ticks) in [(FirstTick::Immediate, 1), (FirstTick::SkipImmediate, 0)] {
            let (counter, token, handle) = spawn_counting(every(10).with_first_tick(first_tick));
            token.cancel();
            handle.await.unwrap();
            assert_eq!(counter.load(Ordering::SeqCst), ticks);
        }
    });
}

#[test]
fn the_period_begins_when_the_tick_has_ended() {
    paused(async {
        let starts = Arc::new(AtomicUsize::new(0));
        let token = CancellationToken::new();
        let counter = starts.clone();
        let job = job_fn(move |_ct: CancellationToken| {
            let counter = counter.clone();
            async move {
                counter.fetch_add(1, Ordering::SeqCst);
                tokio::time::sleep(Duration::from_secs(7)).await;
                Ok(())
            }
        });
        let handle = tokio::spawn(run_periodic("test", every(10), token.clone(), job));
        // Ticks begin at 10, 27 and 44.
        for (step, ticks) in [(9, 0), (2, 1), (15, 1), (2, 2), (15, 2), (2, 3)] {
            sleep_secs(step).await;
            assert_eq!(starts.load(Ordering::SeqCst), ticks);
        }
        token.cancel();
        handle.await.unwrap();
    });
}

#[test]
fn a_varied_cadence_stays_within_a_tenth() {
    paused(async {
        let (counter, token, handle) =
            spawn_counting(Schedule::new(easi_job::Duration::from_secs(100)));
        sleep_secs(89).await;
        assert_eq!(counter.load(Ordering::SeqCst), 0);
        sleep_secs(22).await;
        assert_eq!(counter.load(Ordering::SeqCst), 1);
        token.cancel();
        handle.await.unwrap();
    });
}

/// Spawns a job that counts its ticks into the set.
fn add_counting(set: &mut Jobs, name: &'static str, secs: u64, counter: Arc<AtomicUsize>) {
    set.periodic(
        name,
        every(secs),
        job_fn(move |_ct: CancellationToken| {
            let c = counter.clone();
            async move {
                c.fetch_add(1, Ordering::SeqCst);
                Ok(())
            }
        }),
    );
}

#[test]
fn shutdown_joins_clean_jobs_within_grace() {
    paused(async {
        let counter = Arc::new(AtomicUsize::new(0));
        let mut jobs = Jobs::new();
        add_counting(&mut jobs, "a", 10, counter.clone());
        add_counting(&mut jobs, "b", 10, counter.clone());
        add_counting(&mut jobs, "c", 10, counter.clone());

        sleep_secs(15).await;
        assert_eq!(counter.load(Ordering::SeqCst), 3, "one tick per job");

        let shutdown = jobs.shutdown(Duration::from_secs(60));
        let (report, lines) = tokio::time::timeout(Duration::from_secs(1), shutdown)
            .await
            .expect("clean cancellation should complete in zero virtual time");

        assert_eq!(report.clean.len(), 3, "all 3 jobs joined cleanly");
        assert!(report.aborted.is_empty(), "no aborts on clean shutdown");
        assert!(report.panicked.is_empty(), "no panics");
        assert!(lines.is_empty());

        let after = counter.load(Ordering::SeqCst);
        sleep_secs(60).await;
        assert_eq!(
            counter.load(Ordering::SeqCst),
            after,
            "no ticks after shutdown"
        );
    });
}

#[test]
fn shutdown_aborts_slow_job_after_grace() {
    paused(async {
        let work_completed = Arc::new(AtomicBool::new(false));
        let wc = work_completed.clone();

        let mut jobs = Jobs::new();
        jobs.periodic(
            "slow_job",
            every(10).with_first_tick(FirstTick::Immediate),
            job_fn(move |_ct: CancellationToken| {
                let wc = wc.clone();
                async move {
                    tokio::time::sleep(Duration::from_secs(60)).await;
                    wc.store(true, Ordering::SeqCst);
                    Ok(())
                }
            }),
        );

        sleep_one_milli().await;

        let (report, lines) = jobs.shutdown(Duration::from_secs(5)).await;
        assert_eq!(report.aborted, vec!["slow_job"]);
        assert!(report.clean.is_empty());
        assert!(report.panicked.is_empty());
        assert_eq!(
            lines,
            vec![LogLine {
                job: "slow_job",
                message: Message::AbortedAfterGrace
            }]
        );

        sleep_secs(120).await;
        assert!(
            !work_completed.load(Ordering::SeqCst),
            "slow job should have been aborted, not completed"
        );
    });
}

#[test]
fn shutdown_reports_panicked_job() {
    paused(async {
        let mut jobs = Jobs::new();
        jobs.periodic(
            "boom",
            every(10).with_first_tick(FirstTick::Immediate),
            job_fn(|_ct: CancellationToken| async { panic!("boom in tick") }),
        );

        sleep_one_milli().await;

        let (report, lines) = jobs.shutdown(Duration::from_secs(5)).await;
        assert_eq!(report.panicked, vec!["boom"]);
        assert!(report.clean.is_empty());
        assert!(report.aborted.is_empty());
        assert_eq!(
            lines,
            vec![LogLine {
                job: "boom",
                message: Message::Panicked
            }]
        );
    });
}

#[test]
fn shutdown_classifies_each_job_by_its_own_outcome() {
    paused(async {
        let mut jobs = Jobs::new();
        jobs.periodic(
            "fast",
            every(100).with_first_tick(FirstTick::Immediate),
            job_fn(|_ct: CancellationToken| async move {
                tokio::time::sleep(Duration::from_secs(1)).await;
                Ok(())
            }),
        );
        jobs.periodic(
            "slow",
            every(100).with_first_tick(FirstTick::Immediate),
            job_fn(|_ct: CancellationToken| async move {
                tokio::time::sleep(Duration::from_secs(60)).await;
                Ok(())
            }),
        );

        sleep_one_milli().await;

        let (report, _) = jobs.shutdown(Duration::from_secs(5)).await;
        assert_eq!(report.clean, vec!["fast"], "fast finished within grace");
        assert_eq!(report.aborted, vec!["slow"], "slow aborted at grace");
        assert!(report.panicked.is_empty());
    });
}

#[test]
fn shutdown_empty_set_returns_immediately() {
    paused(async {
        let jobs = Jobs::new();
        let (report, _) = tokio::time::timeout(
            Duration::from_millis(1),
            jobs.shutdown(Duration::from_secs(60)),
        )
        .await
        .expect("empty shutdown should not block");
        assert!(report.clean.is_empty());
        assert!(report.aborted.is_empty());
        assert!(report.panicked.is_empty());
    });
}

#[test]
fn task_receives_cancellation_token_and_observes_shutdown() {
    paused(async {
        let exited = Arc::new(AtomicBool::new(false));
        let exited_for_task = exited.clone();

        let mut jobs = Jobs::new();
        jobs.task("listener", move |ct| {
            let exited = exited_for_task;
            async move {
                ct.cancelled().await;
                exited.store(true, Ordering::SeqCst);
            }
        });

        sleep_secs(60).await;
        assert!(!exited.load(Ordering::SeqCst), "task waiting on token");

        let (report, _) = jobs.shutdown(Duration::from_secs(5)).await;
        assert!(exited.load(Ordering::SeqCst), "task exited after cancel");
        assert_eq!(report.clean, vec!["listener"]);
        assert!(report.aborted.is_empty());
    });
}

#[test]
fn drop_without_shutdown_cancels_token() {
    let mut jobs = JobSet::new();
    let token = jobs.cancellation_token();
    jobs.task("listener");
    assert!(!token.is_cancelled());

    assert_eq!(jobs.on_drop(), Some(1));
    assert!(token.is_cancelled(), "Drop guard should cancel the token");
}

#[test]
fn a_set_that_was_shut_down_is_dropped_in_silence() {
    let mut jobs = JobSet::default();
    jobs.periodic("sweep");
    let token = jobs.cancellation_token();
    let (_shutdown, action) = jobs.shutdown();
    assert_eq!(action, ShutdownAction::JoinUntilDeadline);
    assert!(token.is_cancelled());
    assert_eq!(jobs.on_drop(), None);
    assert!(token.is_cancelled());
}

#[test]
fn an_empty_set_that_is_dropped_cancels_its_token() {
    let mut jobs = JobSet::new();
    let token = jobs.cancellation_token();
    assert_eq!(jobs.on_drop(), Some(0));
    assert!(token.is_cancelled());
}

#[test]
fn the_token_of_a_set_is_shared() {
    let mut jobs = JobSet::new();
    jobs.task("listener");
    let (a, b) = (jobs.cancellation_token(), jobs.cancellation_token());
    assert!(a == b);
    assert!(a != JobSet::new().cancellation_token());
    a.cancel();
    assert!(b.is_cancelled());
    // Cancelled from outside: the shutdown is forgotten all the same.
    assert_eq!(jobs.on_drop(), Some(1));
    assert!(b.is_cancelled());
}
