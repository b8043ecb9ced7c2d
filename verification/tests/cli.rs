use xlurm::cli::{
    batch, cancellation_notice, check_max_running, clean_report, daemon_arguments, ending,
    is_daemon_call, queue_action, reading, started_notice, startup, startup_failure, stopping,
    submission, waiting_notice, worker_arguments, wrapper_name, Follow, QueueAction, Reading, Resources, Script,
    Startup, Stopping,
};
use xlurm::device::Backend;
use xlurm::error::Error;
use xlurm::model::{Kind, Outcome, State};
use xlurm::table::Table;

fn call(list: &[&str]) -> Vec<Option<String>> {
    list.iter().map(|text| Some(text.to_string())).collect()
}

fn resources() -> Resources {
    Resources {
        gpus: 2,
        device: Some(Kind::Ascend),
        name: None,
        time_limit: Some(60),
    }
}

#[test]
fn workers_are_called_with_a_job_and_a_descriptor() {
    assert!(worker_arguments(&call(&["xlurm"])).is_none());
    assert!(worker_arguments(&call(&["xlurm", "start"])).is_none());
    let good = worker_arguments(&call(&["xlurm", "__worker", "12", "-7"]));
    assert_eq!(good.unwrap().unwrap(), (12, -7));
    let error = |list: Vec<Option<String>>| worker_arguments(&list).unwrap().unwrap_err().message();
    assert_eq!(
        error(call(&["xlurm", "__worker", "12"])),
        "invalid worker arguments"
    );
    assert_eq!(
        error(call(&["xlurm", "__worker", "-1", "3"])),
        "invalid digit found in string"
    );
    assert_eq!(
        error(call(&["xlurm", "__worker", "1", "-2147483649"])),
        "number too small to fit in target type"
    );
    let mut unreadable = call(&["xlurm", "__worker", "1", "3"]);
    unreadable[3] = None;
    assert_eq!(error(unreadable.clone()), "invalid descriptor");
    unreadable[2] = None;
    assert_eq!(error(unreadable), "invalid job ID");
}

#[test]
fn the_background_daemon_is_called_by_a_name_of_its_own() {
    assert!(is_daemon_call(&call(&["xlurm", "__daemon", "--backend"])));
    assert!(!is_daemon_call(&call(&["xlurm", "daemon"])));
    assert!(!is_daemon_call(&vec![Some("xlurm".into()), None]));
    assert!(!is_daemon_call(&call(&["__daemon"])));
    assert_eq!(
        daemon_arguments(Backend::Cpu, 32),
        vec!["__daemon", "--backend", "none", "--max-running", "32"]
    );
    assert!(check_max_running(1).is_ok());
    assert_eq!(
        check_max_running(0).unwrap_err().message(),
        "max-running must be positive"
    );
}

#[test]
fn subcommands_have_short_names() {
    for (subcommand, name) in [
        ("run", "xrun"),
        ("batch", "xbatch"),
        ("queue", "xqueue"),
        ("cancel", "xcancel"),
        ("info", "xinfo"),
    ] {
        assert_eq!(wrapper_name(subcommand).unwrap(), name);
    }
    assert_eq!(
        wrapper_name("start").unwrap_err().message(),
        "unknown command wrapper"
    );
}

#[test]
fn submissions_take_the_command_as_their_name() {
    let mut env = Table::new();
    env.insert("A".into(), "b".into());
    let command = vec!["python".to_string(), "train.py".to_string()];
    let spec = submission(resources(), command, None, Ok("/work".into()), env).unwrap();
    assert_eq!(spec.name, "python");
    assert_eq!(spec.command, vec!["python", "train.py"]);
    assert_eq!((spec.cwd.as_str(), spec.count), ("/work", 2));
    assert_eq!((spec.kind, spec.time_limit), (Some(Kind::Ascend), Some(60)));
    assert_eq!(spec.env.get(&"A".to_string()).unwrap(), "b");
    assert!(spec.script.is_none());
    let unnamed = submission(
        resources(),
        vec![],
        Some("true".into()),
        Ok("/".into()),
        Table::new(),
    )
    .unwrap();
    assert_eq!(unnamed.name, "batch");
    assert_eq!(unnamed.script.unwrap(), "true");
    let mut named = resources();
    named.name = Some("mine".into());
    let spec = submission(named, vec!["x".into()], None, Ok("/".into()), Table::new()).unwrap();
    assert_eq!(spec.name, "mine");
}

#[test]
fn submissions_need_time_and_a_directory() {
    let lost = || Err(Error::Other("no current directory".into()));
    let mut hurried = resources();
    hurried.time_limit = Some(0);
    assert_eq!(
        submission(hurried, vec![], None, lost(), Table::new())
            .unwrap_err()
            .message(),
        "time-limit must be positive"
    );
    assert_eq!(
        submission(resources(), vec![], None, lost(), Table::new())
            .unwrap_err()
            .message(),
        "no current directory"
    );
}

#[test]
fn background_jobs_are_wrapped_commands_or_scripts() {
    let wrapped = batch(resources(), Some("a | b".into()), None, vec![]).unwrap();
    assert_eq!(wrapped.command, vec!["bash", "-c", "a | b"]);
    assert!(wrapped.script.is_none() && wrapped.resources.name.is_none());
    let script = || {
        Some(Script {
            text: "echo".into(),
            name: Some("train.sh".into()),
        })
    };
    let scripted = batch(resources(), None, script(), vec!["--x".into()]).unwrap();
    assert_eq!(scripted.command, vec!["--x"]);
    assert_eq!(scripted.script.unwrap(), "echo");
    assert_eq!(scripted.resources.name.unwrap(), "train.sh");
    let mut named = resources();
    named.name = Some("mine".into());
    let kept = batch(named, None, script(), vec![]).unwrap();
    assert_eq!(kept.resources.name.unwrap(), "mine");
    assert_eq!(
        batch(resources(), None, None, vec![]).unwrap_err().message(),
        "script is required"
    );
}

#[test]
fn starting_waits_for_an_answer_an_exit_or_the_deadline() {
    assert_eq!(startup(true, true, 99999), Startup::Running);
    assert_eq!(startup(false, true, 99999), Startup::Exited);
    assert_eq!(startup(false, false, 45000), Startup::TooLate);
    assert_eq!(startup(false, false, 44999), Startup::Waiting);
    assert_eq!(stopping(true, 99999), Stopping::Gone);
    assert_eq!(stopping(false, 45000), Stopping::TooLate);
    assert_eq!(stopping(false, 44999), Stopping::Waiting);
    assert_eq!(
        startup_failure(&Some("exit status: 1".into()), "/s/daemon.log"),
        "daemon exited (exit status: 1); see /s/daemon.log"
    );
    assert_eq!(
        startup_failure(&None, "/s/daemon.log"),
        "daemon startup timed out; see /s/daemon.log"
    );
}

#[test]
fn each_notice_comes_once() {
    let mut follow = Follow::new();
    let early = follow.report(State::Pending, None, 999);
    assert!(!early.waiting && !early.started);
    let late = follow.report(State::Pending, None, 1000);
    assert!(late.waiting && !late.started);
    assert!(!follow.report(State::Pending, None, 5000).waiting);
    let over = follow.report(State::Completed, Some(7), 6000);
    assert!(over.started && !over.waiting);
    assert!(!follow.report(State::Completed, Some(7), 7000).started);
    assert_eq!(
        waiting_notice("2026-09-20 12:34:56 UTC", 3),
        "[xlurm] 2026-09-20 12:34:56 UTC Job 3: Waiting for resources..."
    );
    assert_eq!(
        started_notice("2026-09-20 12:35:10 UTC", 3),
        "[xlurm] 2026-09-20 12:35:10 UTC Job 3: Task started."
    );
    assert_eq!(cancellation_notice(9), "Cancellation requested for job 9");
}

#[test]
fn an_interrupt_cancels_once() {
    let mut follow = Follow::new();
    assert!(!follow.interrupt(false));
    assert!(follow.interrupt(true));
    assert!(!follow.interrupt(true));
}

#[test]
fn the_foreground_ends_with_the_job_once_its_log_was_read() {
    let over = Some(Outcome {
        state: State::Failed,
        exit_code: 7,
        finished_at: 1,
        error: Some("cannot execute".into()),
    });
    assert_eq!(reading(0, 1), Reading::Drained);
    assert_eq!(reading(0, 16), Reading::Drained);
    assert_eq!(reading(1, 15), Reading::ReadOn);
    assert_eq!(reading(1, 16), Reading::LookAgain);
    assert!(ending(&None, true).is_none());
    assert!(ending(&over, false).is_none());
    let end = ending(&over, true).unwrap();
    assert_eq!((end.exit_code, end.error.unwrap().as_str()), (7, "cannot execute"));
}

#[test]
fn removed_logs_are_counted() {
    assert_eq!(clean_report(1, true), "Removed 1 job log(s) and daemon.log.");
    assert_eq!(
        clean_report(0, false),
        "Removed 0 job log(s); daemon.log was already absent."
    );
}

#[test]
fn the_queue_command_cancels_before_it_shows() {
    assert_eq!(
        queue_action(Some(4), Some(5), true, true),
        QueueAction::Cancel(4)
    );
    assert_eq!(queue_action(None, Some(5), true, true), QueueAction::Log(5));
    assert_eq!(
        queue_action(None, Some(5), false, true),
        QueueAction::Show { id: 5, json: true }
    );
    assert_eq!(
        queue_action(None, None, false, false),
        QueueAction::List { json: false }
    );
}
