use xlurm::daemon::{
    answer, check_idle, check_server, checked, framed, handle, is_shutdown, log_response, served,
    socket_mode, Client, Frame, Received, Reply, Situation, Work,
};
use xlurm::device::{Backend, Inventory};
use xlurm::error::{Action, Error};
use xlurm::executor::Executor;
use xlurm::model::{Job, Outcome, Owner, Request, Response, State, Store, Submission};
use xlurm::scheduler::Scheduler;
use xlurm::table::Table;

struct Idle;

impl Executor for Idle {
    fn start(&mut self, _: &Job) -> Result<(), Error> {
        Ok(())
    }

    fn poll(&mut self, _: u64) -> Result<Option<Outcome>, Error> {
        Ok(None)
    }

    fn cancel(&mut self, _: u64) -> Result<(), Error> {
        Ok(())
    }
}

fn idle_scheduler() -> Scheduler<Idle> {
    let discovery = Inventory::discover(Backend::Cpu, None, None).ok().unwrap();
    Scheduler::new(Store::default(), discovery.inventory, Idle, 1)
        .ok()
        .unwrap()
}

fn private_spec() -> Submission {
    let mut env = Table::new();
    env.insert("TOKEN".into(), "private-token".into());
    Submission {
        command: vec!["private-command".into()],
        cwd: "/home/alice".into(),
        env,
        name: "public-name".into(),
        count: 0,
        kind: None,
        time_limit: None,
        script: None,
    }
}

fn refusal(scheduler: &mut Scheduler<Idle>, uid: u32, request: Request) -> String {
    handle(scheduler, uid, 4000, request).err().unwrap().message()
}

#[test]
fn api_keeps_details_logs_cancellation_and_shutdown_private() {
    let mut scheduler = idle_scheduler();
    let owner = Owner {
        uid: 23456,
        gid: 23456,
        name: "alice".into(),
    };
    let id = scheduler
        .submit(private_spec(), owner.clone(), true)
        .unwrap()
        .id;
    let other_owner = Owner {
        uid: 23457,
        gid: 23457,
        name: "bob".into(),
    };
    let other_id = scheduler
        .submit(private_spec(), other_owner.clone(), true)
        .unwrap()
        .id;
    let log = b"private-output\x00\xff";

    for request in [
        Request::Get(id),
        Request::Log { id, offset: 0 },
        Request::Cancel(id),
        Request::Stop,
        Request::Restart,
    ] {
        assert!(handle(&mut scheduler, 23457, 4000, request).is_err());
    }
    assert_eq!(scheduler.get(id).unwrap().state, State::Pending);
    let queue = handle(&mut scheduler, other_owner.uid, 4000, Request::Queue);
    let Ok(Reply::Respond(Response::Queue(jobs))) = queue else {
        panic!("unexpected response");
    };
    assert_eq!(jobs.len(), 2);
    assert!(jobs.iter().any(|job| job.id == other_id));
    assert!(jobs.iter().any(|job| job.id == id));
    let shown = format!("{jobs:?}");
    assert!(shown.contains("bob") && shown.contains("public-name"));
    assert!(shown.contains("alice"));
    assert!(!shown.contains("private-command") && !shown.contains("private-token"));
    let root_queue = handle(&mut scheduler, 0, 4000, Request::Queue);
    assert!(matches!(root_queue, Ok(Reply::Respond(Response::Queue(jobs))) if jobs.len() == 2));
    assert!(handle(&mut scheduler, owner.uid, 4000, Request::Get(id)).is_ok());
    let read = handle(&mut scheduler, owner.uid, 4000, Request::Log { id, offset: 8 });
    let Ok(Reply::ReadLog { id: read_id, offset }) = read else {
        panic!("unexpected response");
    };
    assert_eq!(read_id, id);
    let part = log_response(offset, log[offset as usize..].to_vec());
    assert!(matches!(part, Response::Log { bytes, offset: 16 } if bytes == b"output\x00\xff"));
    assert!(matches!(
        handle(&mut scheduler, 0, 4000, Request::Cancel(id)),
        Ok(Reply::Persist(Response::Accepted))
    ));
    assert_eq!(scheduler.get(id).unwrap().state, State::Cancelled);
    assert!(handle(&mut scheduler, 0, 4000, Request::Stop).is_ok());
}

#[test]
fn only_a_root_daemon_runs_jobs_for_others() {
    let mut scheduler = idle_scheduler();
    assert_eq!(
        refusal(&mut scheduler, 1, Request::Submit(private_spec())),
        "only a root daemon can run jobs for other users"
    );
    for (uid, daemon_uid) in [(1, 0), (0, 0), (7, 7)] {
        let reply = handle(&mut scheduler, uid, daemon_uid, Request::Submit(private_spec()));
        assert!(matches!(reply, Ok(Reply::Submit(spec)) if spec.name == "public-name"));
    }
    assert!(scheduler.store.jobs.is_empty());
}

#[test]
fn unknown_jobs_are_refused_by_name() {
    let mut scheduler = idle_scheduler();
    assert_eq!(refusal(&mut scheduler, 0, Request::Get(5)), "job not found");
    assert_eq!(refusal(&mut scheduler, 0, Request::Cancel(5)), "job not found");
    assert_eq!(
        refusal(&mut scheduler, 0, Request::Log { id: 5, offset: 0 }),
        "job not found"
    );
}

#[test]
fn only_the_administrator_stops_and_running_jobs_forbid_a_restart() {
    let mut scheduler = idle_scheduler();
    let alice = Owner {
        uid: 1,
        gid: 1,
        name: "alice".into(),
    };
    for _ in 0..3 {
        scheduler.submit(private_spec(), alice.clone(), true).unwrap();
    }
    assert_eq!(
        refusal(&mut scheduler, 1, Request::Stop),
        "only the administrator may stop or restart the scheduler"
    );
    assert!(handle(&mut scheduler, 4000, 4000, Request::Restart).is_ok());
    scheduler.store.jobs[0].state = State::Running;
    scheduler.store.jobs[2].state = State::Running;
    assert_eq!(
        refusal(&mut scheduler, 4000, Request::Restart),
        "cannot restart while jobs are running: 1, 3"
    );
    assert_eq!(
        refusal(&mut scheduler, 1, Request::Restart),
        "only the administrator may stop or restart the scheduler"
    );
    assert!(handle(&mut scheduler, 4000, 4000, Request::Stop).is_ok());
    assert_eq!(
        check_idle(&scheduler.store, Action::CleanLogs)
            .unwrap_err()
            .message(),
        "cannot clean logs while jobs are running: 1, 3"
    );
    scheduler.store.jobs.clear();
    assert!(check_idle(&scheduler.store, Action::CleanLogs).is_ok());
}

#[test]
fn cancelling_what_is_over_needs_no_saving() {
    let mut scheduler = idle_scheduler();
    let alice = Owner {
        uid: 1,
        gid: 1,
        name: "alice".into(),
    };
    scheduler.submit(private_spec(), alice, true).unwrap();
    scheduler.store.jobs[0].state = State::Completed;
    assert!(matches!(
        handle(&mut scheduler, 1, 4000, Request::Cancel(1)),
        Ok(Reply::Respond(Response::Accepted))
    ));
}

#[test]
fn devices_are_told_to_everyone() {
    let mut scheduler = idle_scheduler();
    assert!(matches!(
        handle(&mut scheduler, 77, 4000, Request::Info),
        Ok(Reply::Respond(Response::Info(devices))) if devices.is_empty()
    ));
}

#[test]
fn messages_end_at_the_first_newline() {
    let mut frame = Frame::new(64);
    assert_eq!(
        frame.push(b"{\"Que").unwrap(),
        Received {
            consumed: 5,
            complete: false
        }
    );
    assert_eq!(
        frame.push(b"ue\"}\nnext").unwrap(),
        Received {
            consumed: 5,
            complete: true
        }
    );
    assert_eq!(frame.bytes, b"{\"Queue\"}\n");
}

#[test]
fn cutting_a_message_into_chunks_changes_nothing() {
    let sent = framed(b"\"Info\"".to_vec());
    for size in 1..=sent.len() {
        let mut frame = Frame::new(sent.len());
        let mut complete = false;
        for chunk in sent.chunks(size) {
            complete = frame.push(chunk).unwrap().complete;
        }
        assert!(complete);
        assert_eq!(frame.bytes, sent);
    }
}

#[test]
fn messages_are_limited_and_must_be_complete() {
    let mut frame = Frame::new(4);
    assert_eq!(
        frame.push(b"").unwrap_err().message(),
        "connection closed before complete message"
    );
    assert!(frame.push(b"abc").is_ok());
    assert_eq!(
        frame.push(b"d\n").unwrap_err().message(),
        "message exceeds size limit"
    );
    assert!(frame.push(b"\nlong tail").unwrap().complete);
    assert_eq!(frame.bytes, b"abc\n");
}

#[test]
fn answers_carry_errors_as_text() {
    let refused = answer(Err(Error::JobNotFound));
    assert!(matches!(&refused, Response::Error(text) if text == "job not found"));
    assert_eq!(checked(refused).unwrap_err().message(), "job not found");
    assert!(matches!(
        checked(answer(Ok(Response::Accepted))),
        Ok(Response::Accepted)
    ));
}

#[test]
fn the_socket_belongs_to_the_state_directory() {
    assert!(check_server(0, 0).is_ok());
    assert_eq!(
        check_server(5, 0).unwrap_err().message(),
        "socket peer does not own the state directory"
    );
    assert_eq!(socket_mode(0), 0o666);
    assert_eq!(socket_mode(1000), 0o600);
}

fn situation(client: Client) -> Situation {
    Situation {
        interrupted: false,
        client,
        since_refresh: 0,
        since_cleanup: 0,
    }
}

#[test]
fn a_round_serves_at_most_sixteen_clients() {
    let mut work = Work::first(false);
    let mut clients = 0;
    while work != Work::Tick {
        clients += 1;
        work = work.next(situation(Client::Served));
    }
    assert_eq!(clients, 16);
    assert_eq!(
        Work::first(false).next(situation(Client::NoneWaiting)),
        Work::Tick
    );
}

#[test]
fn devices_and_history_are_looked_after_in_time() {
    let mut now = situation(Client::NoneWaiting);
    now.since_refresh = 1999;
    now.since_cleanup = 59999;
    assert_eq!(Work::Accept { served: 3 }.next(now), Work::Tick);
    assert_eq!(Work::Tick.next(now), Work::Rest);
    now.since_refresh = 2000;
    now.since_cleanup = 60000;
    assert_eq!(Work::Accept { served: 3 }.next(now), Work::Refresh);
    assert_eq!(Work::Refresh.next(now), Work::Tick);
    assert_eq!(Work::Tick.next(now), Work::Cleanup);
    assert_eq!(Work::Cleanup.next(now), Work::Rest);
    assert_eq!(Work::Rest.next(now), Work::Accept { served: 0 });
}

#[test]
fn the_daemon_stops_on_a_signal_or_an_agreed_request() {
    let mut now = situation(Client::Served);
    now.interrupted = true;
    assert_eq!(Work::Rest.next(now), Work::Stop);
    assert_eq!(Work::first(true), Work::Stop);
    assert_eq!(Work::Accept { served: 0 }.next(now), Work::Accept { served: 1 });
    let shutdown = is_shutdown(&Request::Restart);
    assert!(shutdown && is_shutdown(&Request::Stop) && !is_shutdown(&Request::Info));
    assert_eq!(served(shutdown, &Response::Accepted), Client::Stopping);
    assert_eq!(
        served(shutdown, &Response::Error("no".into())),
        Client::Served
    );
    assert_eq!(served(false, &Response::Accepted), Client::Served);
    assert_eq!(
        Work::Accept { served: 0 }.next(situation(Client::Stopping)),
        Work::Stop
    );
    assert_eq!(Work::Stop.next(situation(Client::Served)), Work::Stop);
}
