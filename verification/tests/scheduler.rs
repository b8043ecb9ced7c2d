use xlurm::daemon::{handle, Reply};
use xlurm::device::{Backend, Inventory};
use xlurm::error::Error;
use xlurm::executor::Executor;
use xlurm::model::{
    Device, Job, Kind, Outcome, Owner, Request, Response, State, Store, Submission,
};
use xlurm::scheduler::{allocate, Cancellation, Scheduler, HISTORY_RETENTION_SECS};
use xlurm::table::{Keys, Table};
use xlurm::tick::Tick;

/// Remembers what it was asked to do, and answers as it was told to.
struct Script {
    calls: Vec<String>,
    started: Vec<u64>,
    cancelled: Vec<u64>,
    refuse: Option<u64>,
    ended: Vec<(u64, i32)>,
    poll_fails: bool,
    cancel_fails: bool,
}

impl Script {
    fn new() -> Self {
        Script {
            calls: vec![],
            started: vec![],
            cancelled: vec![],
            refuse: None,
            ended: vec![],
            poll_fails: false,
            cancel_fails: false,
        }
    }
}

impl Executor for Script {
    fn start(&mut self, job: &Job) -> Result<(), Error> {
        self.calls.push(format!("start {}", job.id));
        if self.refuse == Some(job.id) {
            return Err(Error::Other("worker already running".into()));
        }
        self.started.push(job.id);
        Ok(())
    }

    fn poll(&mut self, id: u64) -> Result<Option<Outcome>, Error> {
        self.calls.push(format!("poll {id}"));
        if self.poll_fails {
            return Err(Error::Other("broken lock".into()));
        }
        let found = self.ended.iter().find(|(ended, _)| *ended == id);
        Ok(found.map(|(_, code)| Outcome {
            state: if *code == 0 {
                State::Completed
            } else {
                State::Failed
            },
            exit_code: *code,
            finished_at: 500,
            error: None,
        }))
    }

    fn cancel(&mut self, id: u64) -> Result<(), Error> {
        self.calls.push(format!("cancel {id}"));
        if self.cancel_fails {
            return Err(Error::Other("no such worker".into()));
        }
        self.cancelled.push(id);
        Ok(())
    }
}

fn gpu(id: u32) -> Device {
    Device {
        kind: Kind::Nvidia,
        id,
        name: "gpu".into(),
        visible: format!("GPU-{id}"),
        npu: None,
        chip: None,
    }
}

fn npu(id: u32) -> Device {
    Device {
        kind: Kind::Ascend,
        id,
        name: "npu".into(),
        visible: format!("{id}"),
        npu: Some(0),
        chip: Some(id),
    }
}

fn owner() -> Owner {
    Owner {
        uid: 1234,
        gid: 1234,
        name: "alice".into(),
    }
}

fn spec(count: usize, kind: Option<Kind>) -> Submission {
    Submission {
        command: vec!["true".into()],
        cwd: "/".into(),
        env: Table::new(),
        name: "test".into(),
        count,
        kind,
        time_limit: None,
        script: None,
    }
}

fn inventory(devices: Vec<Device>, status: &str) -> Inventory {
    let mut table = Table::new();
    for device in &devices {
        table.insert(device.key(), status.into());
    }
    Inventory {
        devices,
        status: table,
    }
}

fn scheduler(devices: Vec<Device>, max_running: usize) -> Scheduler<Script> {
    Scheduler::new(
        Store::default(),
        inventory(devices, "idle"),
        Script::new(),
        max_running,
    )
    .ok()
    .unwrap()
}

/// Runs a whole pass, and tells how often the store was to be saved.
fn pass(scheduler: &mut Scheduler<Script>) -> usize {
    let mut saved = 0;
    let mut at = Tick::Collect;
    while !at.done() {
        if at.must_save() {
            saved += 1;
        }
        at = scheduler.tick(at, Ok(())).ok().unwrap();
    }
    saved
}

fn states(scheduler: &Scheduler<Script>) -> Vec<State> {
    scheduler.store.jobs.iter().map(|job| job.state).collect()
}

fn history_scheduler() -> Scheduler<Script> {
    let discovery = Inventory::discover(Backend::Cpu, None, None).ok().unwrap();
    Scheduler::new(Store::default(), discovery.inventory, Script::new(), 1)
        .ok()
        .unwrap()
}

fn history_job(id: u64, state: State, finished_at: u64) -> Job {
    Job {
        id,
        owner: owner(),
        spec: Submission {
            command: vec!["true".into()],
            cwd: "/".into(),
            env: Table::new(),
            name: "history".into(),
            count: 0,
            kind: None,
            time_limit: None,
            script: None,
        },
        state,
        devices: vec![],
        submitted_at: 0,
        started_at: Some(0),
        result: Some(Outcome {
            state,
            exit_code: 0,
            finished_at,
            error: None,
        }),
    }
}

#[test]
fn allocation_is_exclusive_and_never_mixes_vendors() {
    let devices = vec![
        Device {
            kind: Kind::Nvidia,
            id: 0,
            name: "gpu".into(),
            visible: "GPU-a".into(),
            npu: None,
            chip: None,
        },
        Device {
            kind: Kind::Ascend,
            id: 0,
            name: "npu".into(),
            visible: "0".into(),
            npu: Some(0),
            chip: None,
        },
    ];
    let mut spec = Submission {
        command: vec!["true".into()],
        cwd: "/".into(),
        env: Table::new(),
        name: "test".into(),
        count: 2,
        kind: None,
        time_limit: None,
        script: None,
    };
    assert!(allocate(&spec, &devices, &Keys::new()).is_none());
    spec.count = 1;
    let mut reserved = Keys::new();
    reserved.insert(devices[0].key());
    assert_eq!(
        allocate(&spec, &devices, &reserved).unwrap()[0].kind,
        Kind::Ascend
    );
    spec.kind = Some(Kind::Nvidia);
    assert!(allocate(&spec, &devices, &reserved).is_none());
    spec.count = 0;
    assert!(allocate(&spec, &vec![], &reserved).unwrap().is_empty());
}

#[test]
fn allocation_takes_the_first_free_devices_of_the_first_vendor() {
    let devices = vec![npu(2), gpu(0), gpu(1), npu(3)];
    let visible = |list: Option<Vec<Device>>| -> Vec<String> {
        list.unwrap().iter().map(|d| d.visible.clone()).collect()
    };
    let any = allocate(&spec(2, None), &devices, &Keys::new());
    assert_eq!(visible(any), vec!["GPU-0", "GPU-1"]);
    let wanted = allocate(&spec(2, Some(Kind::Ascend)), &devices, &Keys::new());
    assert_eq!(visible(wanted), vec!["2", "3"]);
    let mut reserved = Keys::new();
    reserved.insert("nvidia:GPU-0".into());
    let one = allocate(&spec(1, None), &devices, &reserved);
    assert_eq!(visible(one), vec!["GPU-1"]);
    let two = allocate(&spec(2, None), &devices, &reserved);
    assert_eq!(visible(two), vec!["2", "3"]);
}

#[test]
fn a_scheduler_lets_at_least_one_job_run() {
    let error = Scheduler::new(
        Store::default(),
        inventory(vec![], "idle"),
        Script::new(),
        0,
    )
    .err()
    .unwrap();
    assert_eq!(error.message(), "max-running must be positive");
}

#[test]
fn submissions_are_refused_for_the_first_reason_that_applies() {
    let mut scheduler = scheduler(vec![gpu(0)], 1);
    let refused = |scheduler: &mut Scheduler<Script>, spec: Submission, exists: bool| -> String {
        scheduler
            .submit_at(spec, owner(), exists, 7)
            .unwrap_err()
            .message()
    };
    let mut bad = spec(9, None);
    bad.command = vec![];
    bad.time_limit = Some(0);
    assert_eq!(refused(&mut scheduler, bad.clone(), false), "empty command");
    bad.script = Some("true".into());
    assert_eq!(
        refused(&mut scheduler, bad.clone(), false),
        "working directory does not exist"
    );
    assert_eq!(
        refused(&mut scheduler, bad.clone(), true),
        "time-limit must be positive"
    );
    bad.time_limit = Some(1);
    assert_eq!(
        refused(&mut scheduler, bad.clone(), true),
        "requested 9 device(s), but no matching pool has enough devices"
    );
    bad.count = 1;
    scheduler.store.next_id = u64::MAX;
    assert_eq!(refused(&mut scheduler, bad, true), "job ID exhausted");
    assert!(scheduler.store.jobs.is_empty());
}

#[test]
fn submitted_jobs_wait_under_the_next_number() {
    let mut scheduler = scheduler(vec![gpu(0)], 1);
    let job = scheduler.submit_at(spec(1, None), owner(), true, 77).unwrap();
    assert_eq!((job.id, job.state, job.submitted_at), (1, State::Pending, 77));
    assert!(job.devices.is_empty() && job.started_at.is_none() && job.result.is_none());
    assert_eq!(scheduler.submit(spec(1, None), owner(), true).unwrap().id, 2);
    assert!(scheduler.submit(spec(2, None), owner(), true).is_err());
    assert_eq!(scheduler.submit(spec(0, None), owner(), true).unwrap().id, 3);
}

#[test]
fn a_job_that_could_not_be_saved_loses_its_place_but_not_its_number() {
    let mut scheduler = scheduler(vec![], 1);
    let job = scheduler.submit(spec(0, None), owner(), true).unwrap();
    let full = Err(Error::Other("disk full".into()));
    let error = scheduler.submitted(job, full).err().unwrap();
    assert_eq!(error.message(), "disk full");
    assert!(scheduler.store.jobs.is_empty());
    let job = scheduler.submit(spec(0, None), owner(), true).unwrap();
    assert_eq!(scheduler.submitted(job, Ok(())).unwrap().id, 2);
    assert_eq!(scheduler.store.jobs.len(), 1);
    scheduler.withdraw();
    assert!(scheduler.store.jobs.is_empty());
    assert_eq!(scheduler.submit(spec(0, None), owner(), true).unwrap().id, 3);
    scheduler.withdraw();
    scheduler.withdraw();
    assert!(scheduler.store.jobs.is_empty());
}

#[test]
fn submission_times_come_from_the_clock() {
    let mut scheduler = scheduler(vec![], 1);
    let before = xlurm::model::now();
    let job = scheduler.submit(spec(0, None), owner(), true).unwrap();
    assert!(before > 1_600_000_000 && job.submitted_at >= before);
}

#[test]
fn starts_cancellations_and_failures_are_recorded_with_the_time() {
    let mut scheduler = scheduler(vec![], 2);
    for _ in 0..3 {
        scheduler.submit(spec(0, None), owner(), true).unwrap();
    }
    scheduler.executor.refuse = Some(2);
    let before = xlurm::model::now();
    scheduler.cancel(3).unwrap();
    pass(&mut scheduler);
    assert_eq!(
        states(&scheduler),
        vec![State::Running, State::Failed, State::Cancelled]
    );
    let after = xlurm::model::now();
    let jobs = &scheduler.store.jobs;
    let times = [
        jobs[0].started_at.unwrap(),
        jobs[1].result.as_ref().unwrap().finished_at,
        jobs[2].result.as_ref().unwrap().finished_at,
    ];
    assert!(times.iter().all(|time| before <= *time && *time <= after));
}

#[test]
fn unknown_jobs_are_not_found() {
    let mut scheduler = scheduler(vec![], 1);
    assert_eq!(scheduler.get(1).unwrap_err().message(), "job not found");
    assert_eq!(scheduler.cancel(1).unwrap_err().message(), "job not found");
}

#[test]
fn cancelling_depends_on_the_state() {
    let mut scheduler = scheduler(vec![], 1);
    for _ in 0..3 {
        scheduler.submit(spec(0, None), owner(), true).unwrap();
    }
    pass(&mut scheduler);
    assert_eq!(
        states(&scheduler),
        vec![State::Running, State::Pending, State::Pending]
    );
    assert_eq!(scheduler.cancel(1).unwrap(), false);
    assert_eq!(scheduler.executor.cancelled, vec![1]);
    assert_eq!(scheduler.get(1).unwrap().state, State::Running);
    assert_eq!(scheduler.cancel(2).unwrap(), true);
    assert_eq!(scheduler.executor.cancelled, vec![1]);
    assert_eq!(
        scheduler.cancel_at(3, 66).unwrap(),
        Cancellation::Recorded
    );
    let result = scheduler.get(3).unwrap().result.unwrap();
    assert_eq!(
        (result.state, result.exit_code, result.finished_at),
        (State::Cancelled, 130, 66)
    );
    assert_eq!(scheduler.cancel_at(3, 99).unwrap(), Cancellation::Nothing);
    assert_eq!(scheduler.get(3).unwrap().result.unwrap().finished_at, 66);
    assert_eq!(scheduler.cancel_at(1, 99).unwrap(), Cancellation::Signal);
}

#[test]
fn cancelling_a_running_job_asks_the_executor_once_and_hands_on_its_answer() {
    let mut scheduler = scheduler(vec![], 1);
    scheduler.submit(spec(0, None), owner(), true).unwrap();
    pass(&mut scheduler);
    scheduler.executor.calls.clear();
    assert_eq!(scheduler.cancel(1).unwrap(), false);
    assert_eq!(scheduler.executor.calls, vec!["cancel 1"]);
    scheduler.executor.cancel_fails = true;
    assert_eq!(scheduler.cancel(1).unwrap_err().message(), "no such worker");
    assert_eq!(scheduler.executor.calls, vec!["cancel 1", "cancel 1"]);
    assert_eq!(states(&scheduler), vec![State::Running]);
    let uid = owner().uid;
    let refused = handle(&mut scheduler, uid, 0, Request::Cancel(1)).err().unwrap();
    assert_eq!(refused.message(), "no such worker");
    scheduler.executor.cancel_fails = false;
    scheduler.executor.calls.clear();
    assert!(matches!(
        handle(&mut scheduler, uid, 0, Request::Cancel(1)),
        Ok(Reply::Respond(Response::Accepted))
    ));
    assert_eq!(scheduler.executor.calls, vec!["cancel 1"]);
}

#[test]
fn cancelled_jobs_are_never_started() {
    let mut scheduler = scheduler(vec![], 1);
    for _ in 0..3 {
        scheduler.submit(spec(0, None), owner(), true).unwrap();
    }
    assert_eq!(scheduler.cancel(1).unwrap(), true);
    assert_eq!(scheduler.cancel(1).unwrap(), false);
    pass(&mut scheduler);
    scheduler.executor.ended = vec![(2, 0)];
    pass(&mut scheduler);
    pass(&mut scheduler);
    assert_eq!(
        states(&scheduler),
        vec![State::Cancelled, State::Completed, State::Running]
    );
    assert_eq!(
        scheduler.executor.calls,
        vec!["start 2", "poll 2", "start 3", "poll 3"]
    );
}

#[test]
fn running_jobs_are_asked_after_once_and_in_order() {
    let mut scheduler = scheduler(vec![], 2);
    for _ in 0..4 {
        scheduler.submit(spec(0, None), owner(), true).unwrap();
    }
    pass(&mut scheduler);
    scheduler.executor.ended = vec![(1, 0)];
    pass(&mut scheduler);
    scheduler.executor.calls.clear();
    assert_eq!(
        states(&scheduler),
        vec![State::Completed, State::Running, State::Running, State::Pending]
    );
    pass(&mut scheduler);
    assert_eq!(scheduler.executor.calls, vec!["poll 2", "poll 3"]);
    scheduler.executor.poll_fails = true;
    scheduler.executor.calls.clear();
    assert!(scheduler.tick(Tick::Collect, Ok(())).is_err());
    assert_eq!(scheduler.executor.calls, vec!["poll 2"]);
}

#[test]
fn a_pass_starts_what_fits_and_lets_small_jobs_overtake() {
    let mut scheduler = scheduler(vec![gpu(0), gpu(1)], 4);
    scheduler.submit(spec(1, None), owner(), true).unwrap();
    scheduler.submit(spec(2, None), owner(), true).unwrap();
    scheduler.submit(spec(1, None), owner(), true).unwrap();
    scheduler.submit(spec(0, None), owner(), true).unwrap();
    assert_eq!(pass(&mut scheduler), 3);
    assert_eq!(
        states(&scheduler),
        vec![
            State::Running,
            State::Pending,
            State::Running,
            State::Running
        ]
    );
    assert_eq!(scheduler.executor.started, vec![1, 3, 4]);
    assert_eq!(scheduler.store.jobs[0].devices[0].visible, "GPU-0");
    assert_eq!(scheduler.store.jobs[2].devices[0].visible, "GPU-1");
    assert!(scheduler.store.jobs[3].devices.is_empty());
    assert!(scheduler.store.jobs[0].started_at.is_some());
    scheduler.executor.ended = vec![(1, 0), (3, 9)];
    assert_eq!(pass(&mut scheduler), 2);
    assert_eq!(
        states(&scheduler),
        vec![
            State::Completed,
            State::Running,
            State::Failed,
            State::Running
        ]
    );
    assert_eq!(scheduler.store.jobs[1].devices.len(), 2);
}

#[test]
fn a_pass_ends_and_saves_what_it_changes() {
    let mut scheduler = scheduler(vec![gpu(0)], 8);
    for count in [0, 1, 1, 0] {
        scheduler.submit(spec(count, None), owner(), true).unwrap();
    }
    scheduler.executor.refuse = Some(2);
    for _ in 0..3 {
        scheduler.executor.ended.push((1, 0));
        let mut at = Tick::Collect;
        let mut steps = 0;
        while !at.done() {
            let before = states(&scheduler);
            at = scheduler.tick(at, Ok(())).ok().unwrap();
            steps += 1;
            assert!(states(&scheduler) == before || at.must_save());
        }
        assert!(steps <= 2 * scheduler.store.jobs.len() + 4);
    }
    assert_eq!(
        states(&scheduler),
        vec![
            State::Completed,
            State::Failed,
            State::Running,
            State::Running
        ]
    );
}

#[test]
fn no_more_jobs_run_than_may() {
    let mut scheduler = scheduler(vec![], 2);
    for _ in 0..5 {
        scheduler.submit(spec(0, None), owner(), true).unwrap();
    }
    pass(&mut scheduler);
    assert_eq!(scheduler.executor.started, vec![1, 2]);
    assert_eq!(pass(&mut scheduler), 0);
    scheduler.executor.ended = vec![(1, 0)];
    pass(&mut scheduler);
    assert_eq!(scheduler.executor.started, vec![1, 2, 3]);
}

#[test]
fn devices_that_are_not_idle_are_not_given() {
    for status in ["busy", "unknown"] {
        let mut scheduler =
            Scheduler::new(Store::default(), inventory(vec![gpu(0)], status), Script::new(), 4)
                .ok()
                .unwrap();
        scheduler.submit(spec(1, None), owner(), true).unwrap();
        pass(&mut scheduler);
        assert_eq!(states(&scheduler), vec![State::Pending]);
        scheduler.inventory.status.insert("nvidia:GPU-0".into(), "idle".into());
        pass(&mut scheduler);
        assert_eq!(states(&scheduler), vec![State::Running]);
    }
    let mut unprobed = Scheduler::new(
        Store::default(),
        Inventory {
            devices: vec![gpu(0)],
            status: Table::new(),
        },
        Script::new(),
        4,
    )
    .ok()
    .unwrap();
    unprobed.submit(spec(1, None), owner(), true).unwrap();
    pass(&mut unprobed);
    assert_eq!(states(&unprobed), vec![State::Pending]);
}

#[test]
fn a_job_that_cannot_be_started_fails_and_frees_its_devices() {
    let mut scheduler = scheduler(vec![gpu(0)], 1);
    scheduler.submit(spec(1, None), owner(), true).unwrap();
    scheduler.submit(spec(1, None), owner(), true).unwrap();
    scheduler.executor.refuse = Some(1);
    assert_eq!(pass(&mut scheduler), 3);
    assert_eq!(states(&scheduler), vec![State::Failed, State::Running]);
    let result = scheduler.get(1).unwrap().result.unwrap();
    assert_eq!(result.exit_code, 1);
    assert_eq!(result.error.unwrap(), "worker already running");
}

#[test]
fn the_store_is_saved_before_a_job_is_started() {
    let mut scheduler = scheduler(vec![], 1);
    scheduler.submit(spec(0, None), owner(), true).unwrap();
    let at = scheduler.tick(Tick::Collect, Ok(())).ok().unwrap();
    assert!(!at.must_save());
    let at = scheduler.tick(at, Ok(())).ok().unwrap();
    assert!(at.must_save() && matches!(at, Tick::Launch { index: 0, .. }));
    assert_eq!(states(&scheduler), vec![State::Running]);
    assert!(scheduler.executor.started.is_empty());
    let at = scheduler.tick(at, Ok(())).ok().unwrap();
    assert!(!at.must_save());
    assert_eq!(scheduler.executor.started, vec![1]);
    assert!(scheduler.tick(at, Ok(())).ok().unwrap().done());
    assert!(scheduler.tick(Tick::Done, Ok(())).ok().unwrap().done());
}

#[test]
fn a_job_is_not_started_where_the_store_cannot_be_saved() {
    let mut scheduler = scheduler(vec![], 1);
    scheduler.submit(spec(0, None), owner(), true).unwrap();
    let at = scheduler.tick(Tick::Collect, Ok(())).ok().unwrap();
    let at = scheduler.tick(at, Ok(())).ok().unwrap();
    assert!(at.must_save());
    let full = Err(Error::Other("disk full".into()));
    let error = scheduler.tick(at, full).err().unwrap();
    assert_eq!(error.message(), "disk full");
    assert!(scheduler.executor.calls.is_empty());
    assert_eq!(states(&scheduler), vec![State::Running]);
}

#[test]
fn a_failing_poll_ends_the_pass() {
    let mut scheduler = scheduler(vec![], 1);
    scheduler.submit(spec(0, None), owner(), true).unwrap();
    pass(&mut scheduler);
    scheduler.executor.poll_fails = true;
    let error = scheduler.tick(Tick::Collect, Ok(())).err().unwrap();
    assert_eq!(error.message(), "broken lock");
}

#[test]
fn steps_take_what_came_back_from_outside() {
    let mut scheduler = scheduler(vec![gpu(0)], 3);
    scheduler.submit(spec(1, None), owner(), true).unwrap();
    let plan = scheduler.plan();
    assert_eq!((plan.running, plan.cursor), (0, 0));
    assert_eq!(scheduler.admit_at(&plan, 40), Some(0));
    assert_eq!(scheduler.store.jobs[0].started_at, Some(40));
    let (plan, failed) = scheduler.launched_at(0, plan, Ok(()), 41);
    assert!(!failed && plan.running == 1 && plan.cursor == 1);
    assert!(plan.reserved.contains(&"nvidia:GPU-0".to_string()));
    assert!(!scheduler.absorb(0, None));
    let over = Outcome {
        state: State::TimedOut,
        exit_code: 124,
        finished_at: 50,
        error: None,
    };
    assert!(scheduler.absorb(0, Some(over)));
    assert_eq!(states(&scheduler), vec![State::TimedOut]);
    assert_eq!(scheduler.admit_at(&plan, 60), None);
}

#[test]
fn info_tells_who_holds_a_device() {
    let mut scheduler = scheduler(vec![gpu(0), gpu(1)], 4);
    scheduler.submit(spec(0, None), owner(), true).unwrap();
    scheduler.submit(spec(1, None), owner(), true).unwrap();
    pass(&mut scheduler);
    scheduler.inventory.status.insert("nvidia:GPU-1".into(), "busy".into());
    let views = scheduler.info();
    assert_eq!(
        views
            .iter()
            .map(|view| (view.device.id, view.job, view.status.as_str()))
            .collect::<Vec<_>>(),
        vec![(0, Some(2), "allocated"), (1, None, "busy")]
    );
    scheduler.inventory.status.remove("nvidia:GPU-1");
    assert_eq!(scheduler.info()[1].status, "unknown");
}

#[test]
fn cleanup_expires_only_finished_jobs_and_preserves_ids_across_restart() {
    let mut scheduler = history_scheduler();
    let timestamp = 2 * HISTORY_RETENTION_SECS;
    for (index, state) in [
        State::Completed,
        State::Failed,
        State::Cancelled,
        State::TimedOut,
        State::Pending,
        State::Running,
        State::Completed,
        State::Failed,
        State::Completed,
    ]
    .into_iter()
    .enumerate()
    {
        let id = index as u64 + 1;
        let finished_at = match id {
            7 => timestamp - HISTORY_RETENTION_SECS + 1,
            8 => timestamp + 100,
            9 => timestamp - 24 * 60 * 60,
            _ => timestamp - HISTORY_RETENTION_SECS,
        };
        scheduler
            .store
            .jobs
            .push(history_job(id, state, finished_at));
    }
    scheduler.store.next_id = 9;
    let cleanup = scheduler.cleanup(timestamp).unwrap();
    for id in 1..=9 {
        for extension in ["json", "log", "lock", "result", "cancel", "tmp.123"] {
            assert_eq!(cleanup.removes(&format!("{id}.{extension}")), id <= 4);
        }
    }
    assert!(!cleanup.removes(&"11.log".to_string()));
    scheduler.forget(cleanup);
    assert_eq!(
        scheduler
            .store
            .jobs
            .iter()
            .map(|job| job.id)
            .collect::<Vec<_>>(),
        vec![5, 6, 7, 8, 9]
    );
    assert!(scheduler.cleanup(timestamp).is_none());
    let mut restarted = history_scheduler();
    restarted.store = scheduler.store;
    assert!(restarted.get(1).is_err());
    assert!(restarted.get(7).is_ok());
    let cleanup = restarted.cleanup(timestamp + 1).unwrap();
    restarted.forget(cleanup);
    assert!(restarted.get(7).is_err());
    assert!(restarted.get(8).is_ok());
    let job = history_job(0, State::Pending, 0);
    assert_eq!(restarted.submit(job.spec, job.owner, true).unwrap().id, 10);
}

#[test]
fn cleanup_can_retry_after_a_file_cannot_be_deleted() {
    let mut scheduler = history_scheduler();
    scheduler
        .store
        .jobs
        .push(history_job(1, State::Completed, 0));
    scheduler.store.next_id = 1;
    // The first pass stops at a file that cannot be removed, and forgets nothing.
    let interrupted = scheduler.cleanup(HISTORY_RETENTION_SECS).unwrap();
    assert!(interrupted.removes(&"1.log".to_string()));
    assert!(scheduler.get(1).is_ok());
    let cleanup = scheduler.cleanup(HISTORY_RETENTION_SECS).unwrap();
    assert!(cleanup.removes(&"1.log".to_string()));
    scheduler.forget(cleanup);
    assert!(scheduler.get(1).is_err());
}
