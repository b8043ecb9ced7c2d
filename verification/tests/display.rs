use xlurm::display::{
    device_names, format_duration, info_header, info_row, job_detail, job_times, local_seconds,
    queue_header, queue_row, queue_row_named, requested_devices, timestamp, visible_queue_jobs,
    Calendar, Started,
};
use xlurm::model::{
    Device, DeviceView, Job, JobSummary, Kind, Outcome, Owner, State, Submission,
};
use xlurm::table::Table;

fn summary(id: u64, state: State) -> JobSummary {
    JobSummary {
        id,
        owner: Owner {
            uid: 1,
            gid: 1,
            name: "user".into(),
        },
        name: format!("job-{id}"),
        state,
        count: 0,
        kind: None,
        devices: vec![],
        submitted_at: id,
        started_at: None,
        finished_at: None,
    }
}

fn device(kind: Kind, id: u32) -> Device {
    Device {
        kind,
        id,
        name: "card".into(),
        visible: format!("{id}"),
        npu: None,
        chip: None,
    }
}

fn afternoon() -> Calendar {
    Calendar {
        year: 126,
        month: 8,
        day: 20,
        hour: 12,
        minute: 4,
        second: 56,
    }
}

#[test]
fn job_times_follow_the_job_lifecycle() {
    assert_eq!(job_times(100, None, None, 130), (30, None));
    assert_eq!(job_times(100, Some(110), None, 135), (10, Some(25)));
    assert_eq!(job_times(100, Some(110), Some(150), 999), (10, Some(40)));
    assert_eq!(job_times(100, None, Some(125), 999), (25, None));
}

#[test]
fn a_clock_that_runs_backwards_shows_no_time() {
    assert_eq!(job_times(100, None, None, 90), (0, None));
    assert_eq!(job_times(100, Some(95), Some(90), 999), (0, Some(0)));
}

#[test]
fn durations_use_fixed_clock_fields_and_days() {
    assert_eq!(format_duration(0), "00:00:00");
    assert_eq!(format_duration(3_661), "01:01:01");
    assert_eq!(format_duration(183_845), "2-03:04:05");
}

#[test]
fn durations_change_their_form_after_a_day() {
    assert_eq!(format_duration(86_399), "23:59:59");
    assert_eq!(format_duration(86_400), "1-00:00:00");
    assert_eq!(format_duration(u64::MAX), "213503982334601-07:00:15");
}

#[test]
fn queue_keeps_the_latest_hundred_matching_jobs_in_display_order() {
    let jobs = (1..=110).map(|id| summary(id, State::Pending)).collect();
    let visible = visible_queue_jobs(jobs, false);
    assert_eq!(visible.len(), 100);
    assert_eq!(visible.first().unwrap().id, 11);
    assert_eq!(visible.last().unwrap().id, 110);

    let jobs = (1..=202)
        .map(|id| {
            summary(
                id,
                if id % 2 == 0 {
                    State::Completed
                } else {
                    State::Running
                },
            )
        })
        .collect();
    let active = visible_queue_jobs(jobs, false);
    assert_eq!(active.len(), 100);
    assert_eq!(active.first().unwrap().id, 3);
    assert_eq!(active.last().unwrap().id, 201);

    let history = (1..=110).map(|id| summary(id, State::Completed)).collect();
    let visible = visible_queue_jobs(history, true);
    assert_eq!(visible.len(), 100);
    assert_eq!(visible.first().unwrap().id, 11);
    assert_eq!(visible.last().unwrap().id, 110);
}

#[test]
fn a_short_queue_is_shown_whole() {
    let jobs = (1..=5).map(|id| summary(id, State::Pending)).collect();
    let ids: Vec<u64> = visible_queue_jobs(jobs, false)
        .iter()
        .map(|job| job.id)
        .collect();
    assert_eq!(ids, vec![1, 2, 3, 4, 5]);
    let over = (1..=5).map(|id| summary(id, State::Failed)).collect();
    assert!(visible_queue_jobs(over, false).is_empty());
}

#[test]
fn timestamps_are_in_utc() {
    assert_eq!(
        timestamp(1_789_905_896, Some(afternoon())),
        "2026-09-20 12:04:56 UTC"
    );
    assert_eq!(timestamp(-5, None), "-5 Unix");
    assert_eq!(timestamp(17, None), "17 Unix");
}

#[test]
fn starts_are_shown_by_the_local_clock() {
    assert_eq!(local_seconds(0), Some(28_800));
    assert_eq!(local_seconds(i64::MAX as u64 - 28_800), Some(i64::MAX));
    assert_eq!(local_seconds(i64::MAX as u64 - 28_799), None);
    let started = Started::At(afternoon());
    assert_eq!(started.label_text(false), "09-20 12:04:56");
    assert_eq!(started.label_text(true), "2026-09-20 12:04:56");
    assert_eq!(started.detail_text(), "2026-09-20 12:04:56 UTC+8");
    assert_eq!(Started::NotYet.label_text(true), "-");
    assert_eq!(Started::NotYet.detail_text(), "-");
    assert_eq!(Started::Beyond(7).label_text(false), "7 Unix");
}

#[test]
fn the_short_start_is_the_long_one_without_its_year() {
    let started = Started::At(afternoon());
    let long = started.label_text(true);
    let (_, rest) = long.split_once('-').unwrap();
    assert_eq!(rest, started.label_text(false));
}

#[test]
fn devices_of_one_vendor_are_merged() {
    assert_eq!(device_names(&vec![]), "-");
    assert_eq!(device_names(&vec![device(Kind::Nvidia, 0)]), "nvidia:0");
    assert_eq!(
        device_names(&vec![device(Kind::Ascend, 0), device(Kind::Ascend, 1)]),
        "ascend:[0,1]"
    );
    assert_eq!(
        device_names(&vec![device(Kind::Nvidia, 0), device(Kind::Nvidia, 1)]),
        "nvidia:[0,1]"
    );
    assert_eq!(
        device_names(&vec![device(Kind::Ascend, 4), device(Kind::Nvidia, 2)]),
        "ascend:4,nvidia:2"
    );
    assert_eq!(
        device_names(&vec![
            device(Kind::Nvidia, 0),
            device(Kind::Ascend, 1),
            device(Kind::Nvidia, 2)
        ]),
        "nvidia:[0,2],ascend:1"
    );
}

#[test]
fn waiting_jobs_show_what_they_ask_for() {
    assert_eq!(
        requested_devices(Some(Kind::Ascend), 2),
        "ascend:2 requested"
    );
    assert_eq!(requested_devices(None, 1), "auto:1 requested");
    assert_eq!(requested_devices(None, 0), "cpu");
    assert_eq!(requested_devices(Some(Kind::Nvidia), 0), "cpu");
}

#[test]
fn the_queue_is_a_table() {
    assert_eq!(
        queue_header(),
        "JOB    USER         STATE       COUNT DEVICES          STARTED (UTC+8)     WAIT         RUN          NAME"
    );
    let waiting = summary(3, State::Pending);
    assert_eq!(
        queue_row(&waiting, &Started::NotYet, false, 64),
        "3      user         PENDING     0     cpu              -                   00:01:01     -            job-3"
    );
    let mut ran = summary(3, State::TimedOut);
    ran.count = 2;
    ran.devices = vec![device(Kind::Ascend, 0), device(Kind::Ascend, 1)];
    ran.started_at = Some(5);
    ran.finished_at = Some(10);
    assert_eq!(
        queue_row(&ran, &Started::At(afternoon()), true, 64),
        "3      user         TIMEDOUT    2     ascend:[0,1]     2026-09-20 12:04:56 00:00:02     00:00:05     job-3"
    );
}

#[test]
fn names_cannot_disturb_the_queue() {
    let mut job = summary(3, State::Running);
    job.name = "two\nlines \u{1b}[2J".into();
    let row = queue_row(&job, &Started::NotYet, false, 3);
    assert!(row.ends_with(" two\\nlines \\u{1b}[2J"));
    assert!(!row.contains('\n'));
    let named = queue_row_named(&job, "as given", &Started::NotYet, false, 3);
    assert!(named.ends_with(" as given"));
}

fn detailed(result: Option<Outcome>) -> Job {
    Job {
        id: 12,
        owner: Owner {
            uid: 1234,
            gid: 99,
            name: "alice".into(),
        },
        spec: Submission {
            command: vec!["true".into()],
            cwd: "/home/alice".into(),
            env: Table::new(),
            name: "train".into(),
            count: 1,
            kind: None,
            time_limit: None,
            script: None,
        },
        state: State::Running,
        devices: vec![device(Kind::Nvidia, 3)],
        submitted_at: 100,
        started_at: Some(110),
        result,
    }
}

#[test]
fn details_of_a_running_job() {
    assert_eq!(
        job_detail(&detailed(None), &Started::At(afternoon()), 130),
        "Job 12: Running\nName: train\nUser: alice (UID 1234)\nDirectory: /home/alice\nLog: xqueue 12 --log\nDevices: nvidia:3\nStarted at: 2026-09-20 12:04:56 UTC+8\nWait time: 00:00:10\nRun time: 00:00:20"
    );
}

#[test]
fn details_of_a_job_that_is_over() {
    let failed = Outcome {
        state: State::Failed,
        exit_code: -1,
        finished_at: 115,
        error: Some("cannot execute".into()),
    };
    let mut job = detailed(Some(failed));
    job.state = State::Failed;
    let text = job_detail(&job, &Started::NotYet, 130);
    assert!(text.starts_with("Job 12: Failed\n"));
    assert!(text.contains("\nStarted at: -\n"));
    assert!(text.ends_with("\nRun time: 00:00:05\nExit code: -1\nError: cannot execute"));
}

#[test]
fn devices_are_a_table() {
    assert_eq!(info_header(), "DEVICE       STATUS      JOB    NAME");
    let held = DeviceView {
        device: device(Kind::Nvidia, 0),
        job: Some(31),
        status: "allocated".into(),
    };
    assert_eq!(info_row(&held), "nvidia:0     allocated   31     card");
    let free = DeviceView {
        device: device(Kind::Ascend, 12),
        job: None,
        status: "idle".into(),
    };
    assert_eq!(info_row(&free), "ascend:12    idle        -      card");
}
