use xlurm::executor::{
    arguments, assume_identity, check_descriptor, environment, failure, failure_at, poll_outcome,
    visible, Observation, Supervision,
};
use xlurm::model::{Device, Job, Kind, Owner, State, Submission};
use xlurm::table::Table;

fn device(kind: Kind, visible: &str) -> Device {
    Device {
        kind,
        id: 0,
        name: "card".into(),
        visible: visible.into(),
        npu: None,
        chip: None,
    }
}

fn job(devices: Vec<Device>) -> Job {
    let mut env = Table::new();
    env.insert("USER".into(), "root".into());
    env.insert("CUDA_VISIBLE_DEVICES".into(), "0,1,2".into());
    env.insert("ASCEND_DEVICE_ID".into(), "7".into());
    env.insert("KEPT".into(), "value".into());
    Job {
        id: 42,
        owner: Owner {
            uid: 1234,
            gid: 99,
            name: "alice".into(),
        },
        spec: Submission {
            command: vec!["python".into(), "train.py".into()],
            cwd: "/work".into(),
            env,
            name: "train.sh".into(),
            count: devices.len(),
            kind: None,
            time_limit: None,
            script: None,
        },
        state: State::Running,
        devices,
        submitted_at: 1,
        started_at: Some(2),
        result: None,
    }
}

fn value(env: &Table, name: &str) -> Option<String> {
    env.get(&name.to_string()).cloned()
}

#[test]
fn commands_run_as_they_are_and_scripts_under_bash() {
    let mut job = job(vec![]);
    assert_eq!(arguments(&job).unwrap(), vec!["python", "train.py"]);
    job.spec.script = Some("echo $1".into());
    job.spec.command = vec!["a b".into()];
    assert_eq!(
        arguments(&job).unwrap(),
        vec!["bash", "-c", "echo $1", "train.sh", "a b"]
    );
    job.spec.script = None;
    job.spec.command = vec![];
    assert_eq!(arguments(&job).unwrap_err().message(), "empty command");
}

#[test]
fn jobs_see_only_their_devices() {
    let gpus = job(vec![
        device(Kind::Nvidia, "GPU-a"),
        device(Kind::Nvidia, "GPU-b"),
    ]);
    assert_eq!(visible(&gpus, Kind::Nvidia), "GPU-a,GPU-b");
    assert_eq!(visible(&gpus, Kind::Ascend), "-1");
    let env = environment(&gpus, &"alice".to_string());
    assert_eq!(value(&env, "CUDA_VISIBLE_DEVICES").unwrap(), "GPU-a,GPU-b");
    assert_eq!(value(&env, "ASCEND_RT_VISIBLE_DEVICES").unwrap(), "-1");
    assert_eq!(value(&env, "ASCEND_DEVICE_ID"), None);
    let npus = job(vec![device(Kind::Ascend, "2"), device(Kind::Ascend, "3")]);
    let env = environment(&npus, &"alice".to_string());
    assert_eq!(value(&env, "ASCEND_RT_VISIBLE_DEVICES").unwrap(), "2,3");
    assert_eq!(value(&env, "ASCEND_DEVICE_ID").unwrap(), "0");
    assert_eq!(value(&env, "CUDA_VISIBLE_DEVICES").unwrap(), "-1");
}

#[test]
fn the_environment_names_the_owner_and_keeps_the_rest() {
    let env = environment(&job(vec![]), &"alice".to_string());
    assert_eq!(value(&env, "USER").unwrap(), "alice");
    assert_eq!(value(&env, "LOGNAME").unwrap(), "alice");
    assert_eq!(value(&env, "XLURM_JOB_ID").unwrap(), "42");
    assert_eq!(value(&env, "XLURM_SUBMIT_DIR").unwrap(), "/work");
    assert_eq!(value(&env, "KEPT").unwrap(), "value");
    assert_eq!(value(&env, "CUDA_VISIBLE_DEVICES").unwrap(), "-1");
    assert_eq!(value(&env, "ASCEND_RT_VISIBLE_DEVICES").unwrap(), "-1");
}

#[test]
fn workers_take_on_the_identity_of_the_owner_only() {
    let owner = Owner {
        uid: 1234,
        gid: 99,
        name: "alice".into(),
    };
    assert!(assume_identity(&owner, &owner, 0, 0).unwrap());
    assert!(!assume_identity(&owner, &owner, 1234, 99).unwrap());
    assert_eq!(
        assume_identity(&owner, &owner, 1234, 98)
            .unwrap_err()
            .message(),
        "executor cannot assume the submitting user's identity"
    );
    let mut renamed = owner.clone();
    renamed.name = "bob".into();
    assert_eq!(
        assume_identity(&owner, &renamed, 0, 0).unwrap_err().message(),
        "job owner's account changed since submission"
    );
    assert!(check_descriptor(3).is_ok());
    assert_eq!(
        check_descriptor(2).unwrap_err().message(),
        "invalid worker lock descriptor"
    );
}

#[test]
fn a_worker_that_is_gone_has_failed() {
    assert!(poll_outcome(false, Some(failure_at("x".into(), 1)), 2).is_none());
    let kept = poll_outcome(true, Some(failure_at("x".into(), 1)), 2).unwrap();
    assert_eq!((kept.finished_at, kept.error.unwrap().as_str()), (1, "x"));
    let gone = poll_outcome(true, None, 2).unwrap();
    assert_eq!((gone.state, gone.exit_code, gone.finished_at), (State::Failed, 1, 2));
    assert_eq!(
        gone.error.unwrap(),
        "executor worker disappeared without an exit result"
    );
    let now = failure("y".into());
    assert!(now.finished_at > 1_600_000_000 && now.error.unwrap() == "y");
}

fn seen(cancelled: bool, interrupted: bool, elapsed: u64) -> Observation {
    Observation {
        cancelled,
        interrupted,
        elapsed,
    }
}

#[test]
fn cancellation_terminates_then_kills() {
    let mut supervision = Supervision::new();
    let first = supervision.step(None, seen(false, false, 100));
    assert!(!first.terminate && !first.kill);
    let asked = supervision.step(None, seen(true, false, 200));
    assert!(asked.terminate && !asked.kill);
    let waiting = supervision.step(None, seen(true, true, 1199));
    assert!(!waiting.terminate && !waiting.kill);
    let killed = supervision.step(None, seen(true, false, 1200));
    assert!(!killed.terminate && killed.kill);
    let outcome = supervision.outcome(Some(0), None, 9);
    assert_eq!((outcome.state, outcome.exit_code), (State::Cancelled, 130));
}

#[test]
fn time_limits_are_in_whole_seconds() {
    let mut supervision = Supervision::new();
    assert!(!supervision.step(Some(2), seen(false, false, 1999)).terminate);
    assert!(supervision.step(Some(2), seen(false, false, 2000)).terminate);
    supervision.step(Some(2), seen(true, false, 2050));
    let outcome = supervision.outcome(None, Some(15), 9);
    assert_eq!((outcome.state, outcome.exit_code), (State::TimedOut, 124));
}

#[test]
fn exit_codes_are_passed_on() {
    let supervision = Supervision::new();
    let ends = |code: Option<i32>, signal: Option<i32>| {
        let outcome = supervision.outcome(code, signal, 9);
        (outcome.state, outcome.exit_code, outcome.error.is_none())
    };
    assert_eq!(ends(Some(0), None), (State::Completed, 0, true));
    assert_eq!(ends(Some(7), None), (State::Failed, 7, true));
    assert_eq!(ends(None, Some(9)), (State::Failed, 137, true));
    assert_eq!(ends(None, None), (State::Failed, 128, true));
}
