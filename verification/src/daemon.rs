//! What the scheduler answers, how messages are framed, and in which order the daemon works.
use vstd::prelude::*;
use vstd::string::*;

use crate::auth::{authorize, may_manage};
use crate::error::{Action, Error, ErrorModel};
use crate::executor::Executor;
use crate::model::{
    summaries_hide_private_parts, summary_models, Job, JobModel, JobSummary, Request, Response,
    ResponseModel, State, Store, Submission, SummaryModel,
};
use crate::places::{lemma_one_more, picks};
use crate::scheduler::{jobs_are_found_by_number, place, shown, Scheduler};

verus! {

// ---- Framing ----

/// The longest request, in bytes.
pub const REQUEST_LIMIT: usize = 4 * 1024 * 1024;

/// The longest response, in bytes.
pub const RESPONSE_LIMIT: usize = 64 * 1024 * 1024;

/// The byte that ends a message.
pub const NEWLINE: u8 = 10;

/// Where the first newline stands from `from` on; the length if there is none.
pub open spec fn newline_from(bytes: Seq<u8>, from: int) -> int
    decreases bytes.len() - from,
{
    if from < 0 || from >= bytes.len() {
        bytes.len() as int
    } else if bytes[from] == NEWLINE {
        from
    } else {
        newline_from(bytes, from + 1)
    }
}

/// The chunk ends a message.
pub open spec fn ends_message(chunk: Seq<u8>) -> bool {
    newline_from(chunk, 0) < chunk.len()
}

/// How much of a chunk belongs to the message: all of it, or all up to the first newline.
pub open spec fn share(chunk: Seq<u8>) -> int {
    if ends_message(chunk) {
        newline_from(chunk, 0) + 1
    } else {
        chunk.len() as int
    }
}

/// A message that is being received.
pub struct Frame {
    pub bytes: Vec<u8>,
    pub limit: usize,
}

/// What became of a chunk.
#[derive(Debug, Clone, Copy, PartialEq, Eq, Structural)]
pub struct Received {
    /// How many bytes of it belong to the message.
    pub consumed: usize,
    /// The message is complete.
    pub complete: bool,
}

impl Frame {
    /// A message of at most `limit` bytes, of which nothing was received.
    pub fn new(limit: usize) -> (r: Self)
        ensures
            r.bytes@ == Seq::<u8>::empty(),
            r.limit == limit,
    {
        Frame { bytes: Vec::new(), limit }
    }

    /// Takes what belongs to the message from the next chunk.
    pub fn push(&mut self, chunk: &[u8]) -> (r: Result<Received, Error>)
        ensures
            final(self).limit == old(self).limit,
            if chunk@.len() == 0 {
                r is Err && r->Err_0@ == ErrorModel::ConnectionClosed && *final(self) == *old(self)
            } else if old(self).bytes@.len() + share(chunk@) > old(self).limit {
                r is Err && r->Err_0@ == ErrorModel::MessageTooLong && *final(self) == *old(self)
            } else {
                &&& r is Ok
                &&& r->Ok_0.consumed == share(chunk@)
                &&& r->Ok_0.complete == ends_message(chunk@)
                &&& final(self).bytes@ == old(self).bytes@ + chunk@.take(share(chunk@))
            },
    {
        if chunk.len() == 0 {
            return Err(Error::ConnectionClosed);
        }
        let mut end: usize = 0;
        while end < chunk.len() && chunk[end] != NEWLINE
            invariant
                end <= chunk@.len(),
                newline_from(chunk@, 0) == newline_from(chunk@, end as int),
            decreases chunk@.len() - end,
        {
            end = end + 1;
        }
        let complete = end < chunk.len();
        let consumed: usize = if complete {
            end + 1
        } else {
            end
        };
        if self.bytes.len() > self.limit || consumed > self.limit - self.bytes.len() {
            return Err(Error::MessageTooLong);
        }
        let ghost before = self.bytes@;
        for i in 0..consumed
            invariant
                consumed <= chunk@.len(),
                self.limit == old(self).limit,
                self.bytes@ == before + chunk@.take(i as int),
        {
            self.bytes.push(chunk[i]);
            assert(self.bytes@ =~= before + chunk@.take(i + 1));
        }
        Ok(Received { consumed, complete })
    }
}

/// A message as it is sent: its bytes and a newline.
pub fn framed(message: Vec<u8>) -> (r: Vec<u8>)
    ensures
        r@ == message@.push(NEWLINE),
{
    let mut r = message;
    r.push(NEWLINE);
    r
}

/// What is received in all when the chunks come one after another: nothing yet, a message, or an
/// error.
pub open spec fn receiving(bytes: Seq<u8>, chunks: Seq<Seq<u8>>, limit: nat) -> Result<
    Option<Seq<u8>>,
    ErrorModel,
>
    decreases chunks.len(),
{
    if chunks.len() == 0 {
        Ok(None)
    } else {
        let chunk = chunks[0];
        if chunk.len() == 0 {
            Err(ErrorModel::ConnectionClosed)
        } else if bytes.len() + share(chunk) > limit {
            Err(ErrorModel::MessageTooLong)
        } else if ends_message(chunk) {
            Ok(Some(bytes + chunk.take(share(chunk))))
        } else {
            receiving(bytes + chunk, chunks.drop_first(), limit)
        }
    }
}

/// The chunks one after another.
pub open spec fn stream(chunks: Seq<Seq<u8>>) -> Seq<u8>
    decreases chunks.len(),
{
    if chunks.len() == 0 {
        Seq::empty()
    } else {
        chunks[0] + stream(chunks.drop_first())
    }
}

proof fn lemma_newline(bytes: Seq<u8>, from: int)
    requires
        0 <= from <= bytes.len(),
    ensures
        from <= newline_from(bytes, from) <= bytes.len(),
        newline_from(bytes, from) < bytes.len() ==> bytes[newline_from(bytes, from)] == NEWLINE,
        forall|i: int| from <= i < newline_from(bytes, from) ==> bytes[i] != NEWLINE,
    decreases bytes.len() - from,
{
    if from < bytes.len() && bytes[from] != NEWLINE {
        lemma_newline(bytes, from + 1);
    }
}

proof fn lemma_newline_is(bytes: Seq<u8>, from: int, at: int)
    requires
        0 <= from <= at <= bytes.len(),
        at < bytes.len() ==> bytes[at] == NEWLINE,
        forall|i: int| from <= i < at ==> bytes[i] != NEWLINE,
    ensures
        newline_from(bytes, from) == at,
    decreases at - from,
{
    if from < at {
        lemma_newline_is(bytes, from + 1, at);
    }
}

/// How the bytes are cut into chunks does not matter: the message is what comes up to the first
/// newline, and it is too long just when that is more than the limit.
pub proof fn framing_ignores_chunking(before: Seq<u8>, chunks: Seq<Seq<u8>>, limit: nat)
    requires
        forall|i: int| 0 <= i < chunks.len() ==> (#[trigger] chunks[i]).len() > 0,
        ends_message(stream(chunks)),
    ensures
        receiving(before, chunks, limit) == if before.len() + share(stream(chunks)) > limit {
            Err::<Option<Seq<u8>>, ErrorModel>(ErrorModel::MessageTooLong)
        } else {
            Ok::<Option<Seq<u8>>, ErrorModel>(
                Some(before + stream(chunks).take(share(stream(chunks)))),
            )
        },
    decreases chunks.len(),
{
    let all = stream(chunks);
    if chunks.len() > 0 {
        let chunk = chunks[0];
        let rest = chunks.drop_first();
        lemma_newline(chunk, 0);
        lemma_newline(all, 0);
        if ends_message(chunk) {
            let at = newline_from(chunk, 0);
            assert forall|i: int| 0 <= i < at implies all[i] != NEWLINE by {
                assert(all[i] == chunk[i]);
            }
            assert(all[at] == chunk[at]);
            lemma_newline_is(all, 0, at);
            assert(all.take(at + 1) =~= chunk.take(at + 1));
        } else {
            let after = stream(rest);
            lemma_newline(after, 0);
            let at = newline_from(after, 0);
            assert forall|i: int| 0 <= i < chunk.len() + at implies all[i] != NEWLINE by {
                if i < chunk.len() {
                    assert(all[i] == chunk[i]);
                } else {
                    assert(all[i] == after[i - chunk.len()]);
                }
            }
            if at < after.len() {
                assert(all[chunk.len() + at] == after[at]);
            }
            lemma_newline_is(all, 0, chunk.len() + at);
            assert forall|i: int| 0 <= i < rest.len() implies (#[trigger] rest[i]).len() > 0 by {
                assert(rest[i] == chunks[i + 1]);
            }
            framing_ignores_chunking(before + chunk, rest, limit);
            assert(before + all.take(chunk.len() + at + 1) =~= (before + chunk) + after.take(
                at + 1,
            ));
        }
    }
}

/// A message without a newline in it that is sent arrives whole, however it is cut into chunks and
/// whatever follows it, as long as it fits the limit with its newline.
pub proof fn sent_messages_arrive(
    message: Seq<u8>,
    following: Seq<u8>,
    chunks: Seq<Seq<u8>>,
    limit: nat,
)
    requires
        forall|i: int| 0 <= i < message.len() ==> message[i] != NEWLINE,
        forall|i: int| 0 <= i < chunks.len() ==> (#[trigger] chunks[i]).len() > 0,
        stream(chunks) == message.push(NEWLINE) + following,
        message.len() + 1 <= limit,
    ensures
        receiving(Seq::empty(), chunks, limit) == Ok::<Option<Seq<u8>>, ErrorModel>(
            Some(message.push(NEWLINE)),
        ),
{
    let all = stream(chunks);
    assert(all[message.len() as int] == NEWLINE);
    assert forall|i: int| 0 <= i < message.len() implies all[i] != NEWLINE by {
        assert(all[i] == message[i]);
    }
    lemma_newline_is(all, 0, message.len() as int);
    framing_ignores_chunking(Seq::empty(), chunks, limit);
    assert(Seq::<u8>::empty() + all.take(message.len() as int + 1) =~= message.push(NEWLINE));
}

// ---- Requests ----

/// How many bytes of a log one response holds at most.
pub const LOG_CHUNK: u64 = 64 * 1024;

/// What a request asks for.
pub enum Reply {
    /// The answer is known.
    Respond(Response),
    /// The answer is known; the store is to be saved first.
    Persist(Response),
    /// The submission is to be put into the queue for the account of the user.
    Submit(Submission),
    /// At most `LOG_CHUNK` bytes of the job's log are to be read from the offset on.
    ReadLog { id: u64, offset: u64 },
}

/// Why the user may not have the job with this number.
pub open spec fn denial(jobs: Seq<JobModel>, uid: u32, id: u64) -> Option<ErrorModel> {
    let at = place(jobs, id);
    if at == jobs.len() {
        Some(ErrorModel::JobNotFound)
    } else if !may_manage(uid, jobs[at].owner) {
        Some(
            ErrorModel::PermissionDenied {
                name: jobs[at].owner.name,
                uid: jobs[at].owner.uid,
            },
        )
    } else {
        None
    }
}

/// What the queue shows.
pub open spec fn summaries(jobs: Seq<JobModel>) -> Seq<SummaryModel> {
    Seq::new(jobs.len(), |i: int| jobs[i].summary())
}

/// The numbers of the running jobs.
pub open spec fn running_ids(jobs: Seq<JobModel>) -> Seq<u64>
    decreases jobs.len(),
{
    if jobs.len() == 0 {
        Seq::empty()
    } else {
        let front = running_ids(jobs.drop_last());
        if jobs.last().state == State::Running {
            front.push(jobs.last().id)
        } else {
            front
        }
    }
}

/// Root and the account of the daemon may stop it.
pub open spec fn is_administrator(uid: u32, daemon_uid: u32) -> bool {
    uid == 0 || uid == daemon_uid
}

/// The user's jobs can be run: as root the daemon runs them for all, otherwise for its own account.
pub open spec fn may_submit(uid: u32, daemon_uid: u32) -> bool {
    daemon_uid == 0 || uid == daemon_uid
}

/// The job that a request is to cancel.
pub open spec fn cancelled_id(request: Request) -> u64 {
    match request {
        Request::Cancel(id) => id,
        _ => 0,
    }
}

/// The reply is this answer, with nothing to save.
pub open spec fn responds(r: Result<Reply, Error>, response: ResponseModel) -> bool {
    match r {
        Ok(Reply::Respond(given)) => given@ == response,
        _ => false,
    }
}

/// The request is refused with this error.
pub open spec fn refuses(r: Result<Reply, Error>, error: ErrorModel) -> bool {
    r is Err && r->Err_0@ == error
}

/// What the queue shows of all jobs.
fn summaries_of(store: &Store) -> (r: Vec<JobSummary>)
    ensures
        summary_models(r@) == summaries(store@.jobs),
{
    let mut r: Vec<JobSummary> = Vec::new();
    for i in 0..store.jobs.len()
        invariant
            r@.len() == i,
            forall|j: int| 0 <= j < i ==> (#[trigger] r@[j])@ == store.jobs@[j]@.summary(),
    {
        r.push(JobSummary::of(&store.jobs[i]));
    }
    assert(summary_models(r@) =~= summaries(store@.jobs));
    r
}

/// The numbers of the running jobs.
fn running_jobs(store: &Store) -> (r: Vec<u64>)
    ensures
        r@ == running_ids(store@.jobs),
{
    let ghost all = store@.jobs;
    let mut r: Vec<u64> = Vec::new();
    assert(r@ =~= running_ids(all.take(0)));
    for i in 0..store.jobs.len()
        invariant
            all == store@.jobs,
            r@ == running_ids(all.take(i as int)),
    {
        assert(all.take(i + 1).drop_last() =~= all.take(i as int));
        assert(all.take(i + 1).last() == store.jobs@[i as int]@);
        if store.jobs[i].state == State::Running {
            r.push(store.jobs[i].id);
        }
    }
    assert(all.take(all.len() as int) =~= all);
    r
}

/// Checks that no job is running, which the action needs.
pub fn check_idle(store: &Store, action: Action) -> (r: Result<(), Error>)
    ensures
        match r {
            Ok(_) => running_ids(store@.jobs).len() == 0,
            Err(error) => running_ids(store@.jobs).len() > 0 && error@
                == (ErrorModel::RunningJobs { action, ids: running_ids(store@.jobs) }),
        },
{
    let ids = running_jobs(store);
    if ids.len() == 0 {
        Ok(())
    } else {
        Err(Error::RunningJobs { action, ids })
    }
}

/// The job with this number, if the user may have it.
fn permitted<E: Executor>(scheduler: &Scheduler<E>, uid: u32, id: u64) -> (r: Result<Job, Error>)
    ensures
        match denial(scheduler.store@.jobs, uid, id) {
            Some(error) => r is Err && r->Err_0@ == error,
            None => r is Ok && r->Ok_0@ == scheduler.store@.jobs[place(
                scheduler.store@.jobs,
                id,
            )] && place(scheduler.store@.jobs, id) < scheduler.store@.jobs.len(),
        },
{
    match scheduler.get(id) {
        Ok(job) => match authorize(uid, &job.owner) {
            Ok(_) => Ok(job),
            Err(error) => Err(error),
        },
        Err(error) => Err(error),
    }
}

/// Decides what a request of the user asks for. The daemon runs as `daemon_uid`.
pub fn handle<E: Executor>(
    scheduler: &mut Scheduler<E>,
    uid: u32,
    daemon_uid: u32,
    request: Request,
) -> (r: Result<Reply, Error>)
    ensures
        request !is Cancel ==> *final(scheduler) == *old(scheduler),
        ({
            let jobs = old(scheduler).store@.jobs;
            &&& request is Cancel
            &&& denial(jobs, uid, cancelled_id(request)) is None
            &&& jobs[place(jobs, cancelled_id(request))].state == State::Running
        }) ==> exists|asked: &mut E, answer: Result<(), Error>|
            {
                &&& *asked == old(scheduler).executor
                &&& *final(asked) == final(scheduler).executor
                &&& #[trigger] call_ensures(E::cancel, (asked, cancelled_id(request)), answer)
                &&& match answer {
                    Ok(_) => responds(r, ResponseModel::Accepted),
                    Err(error) => r == Err::<Reply, Error>(error),
                }
            },
        r is Err ==> final(scheduler).store == old(scheduler).store,
        ({
            let jobs = old(scheduler).store@.jobs;
            match request {
                Request::Submit(spec) => if may_submit(uid, daemon_uid) {
                    r == Ok::<Reply, Error>(Reply::Submit(spec))
                } else {
                    refuses(r, ErrorModel::ForeignSubmission)
                },
                Request::Queue => responds(r, ResponseModel::Queue(summaries(jobs))),
                Request::Get(id) => match denial(jobs, uid, id) {
                    Some(error) => refuses(r, error),
                    None => responds(r, ResponseModel::Job(jobs[place(jobs, id)])),
                },
                Request::Cancel(id) => match denial(jobs, uid, id) {
                    Some(error) => refuses(r, error) && *final(scheduler) == *old(scheduler),
                    None => exists|given: Result<bool, Error>|
                        #[trigger] old(scheduler).cancelling(id, *final(scheduler), given)
                            && match given {
                            Ok(true) => match r {
                                Ok(Reply::Persist(response)) => response@
                                    == ResponseModel::Accepted,
                                _ => false,
                            },
                            Ok(false) => responds(r, ResponseModel::Accepted),
                            Err(error) => r == Err::<Reply, Error>(error),
                        },
                },
                Request::Log { id, offset } => match denial(jobs, uid, id) {
                    Some(error) => refuses(r, error),
                    None => r == Ok::<Reply, Error>(Reply::ReadLog { id, offset }),
                },
                Request::Info => responds(
                    r,
                    ResponseModel::Info(
                        Seq::new(
                            old(scheduler).inventory.devices@.len(),
                            |i: int|
                                shown(
                                    jobs,
                                    old(scheduler).inventory.status@,
                                    old(scheduler).inventory.devices@[i]@,
                                ),
                        ),
                    ),
                ),
                Request::Stop => if is_administrator(uid, daemon_uid) {
                    responds(r, ResponseModel::Accepted)
                } else {
                    refuses(r, ErrorModel::NotAdministrator)
                },
                Request::Restart => if !is_administrator(uid, daemon_uid) {
                    refuses(r, ErrorModel::NotAdministrator)
                } else if running_ids(jobs).len() > 0 {
                    refuses(
                        r,
                        ErrorModel::RunningJobs {
                            action: Action::Restart,
                            ids: running_ids(jobs),
                        },
                    )
                } else {
                    responds(r, ResponseModel::Accepted)
                },
            }
        }),
{
    match request {
        Request::Submit(spec) => if daemon_uid == 0 || uid == daemon_uid {
            Ok(Reply::Submit(spec))
        } else {
            Err(Error::ForeignSubmission)
        },
        Request::Queue => Ok(Reply::Respond(Response::Queue(summaries_of(&scheduler.store)))),
        Request::Get(id) => match permitted(scheduler, uid, id) {
            Ok(job) => Ok(Reply::Respond(Response::Job(Box::new(job)))),
            Err(error) => Err(error),
        },
        Request::Cancel(id) => {
            if let Err(error) = permitted(scheduler, uid, id) {
                return Err(error);
            }
            match scheduler.cancel(id) {
                Ok(true) => Ok(Reply::Persist(Response::Accepted)),
                Ok(false) => Ok(Reply::Respond(Response::Accepted)),
                Err(error) => Err(error),
            }
        },
        Request::Log { id, offset } => match permitted(scheduler, uid, id) {
            Ok(_) => Ok(Reply::ReadLog { id, offset }),
            Err(error) => Err(error),
        },
        Request::Info => Ok(Reply::Respond(Response::Info(scheduler.info()))),
        Request::Stop => if uid == 0 || uid == daemon_uid {
            Ok(Reply::Respond(Response::Accepted))
        } else {
            Err(Error::NotAdministrator)
        },
        Request::Restart => {
            if !(uid == 0 || uid == daemon_uid) {
                return Err(Error::NotAdministrator);
            }
            match check_idle(&scheduler.store, Action::Restart) {
                Ok(_) => Ok(Reply::Respond(Response::Accepted)),
                Err(error) => Err(error),
            }
        },
    }
}

/// The answer that hands out a part of a log that was read from an offset on.
pub fn log_response(offset: u64, bytes: Vec<u8>) -> (r: Response)
    requires
        offset + bytes@.len() <= u64::MAX,
    ensures
        r@ == (ResponseModel::Log { bytes: bytes@, offset: (offset + bytes@.len()) as u64 }),
{
    let next: u64 = offset + bytes.len() as u64;
    Response::Log { bytes, offset: next }
}

/// The answer to a request, whether or not it went well.
pub fn answer(result: Result<Response, Error>) -> (r: Response)
    ensures
        r@ == match result {
            Ok(response) => response@,
            Err(error) => ResponseModel::Error(error@.text()),
        },
{
    match result {
        Ok(response) => response,
        Err(error) => Response::Error(error.message()),
    }
}

/// What a client makes of an answer: a reported error is an error.
pub fn checked(response: Response) -> (r: Result<Response, Error>)
    ensures
        match response {
            Response::Error(text) => r == Err::<Response, Error>(Error::Other(text)),
            _ => r == Ok::<Response, Error>(response),
        },
{
    match response {
        Response::Error(text) => Err(Error::Other(text)),
        other => Ok(other),
    }
}

/// Checks that whoever listens at the socket owns the state directory.
pub fn check_server(server_uid: u32, home_uid: u32) -> (r: Result<(), Error>)
    ensures
        match r {
            Ok(_) => server_uid == home_uid,
            Err(error) => server_uid != home_uid && error@ == ErrorModel::Other(
                "socket peer does not own the state directory"@,
            ),
        },
{
    if server_uid == home_uid {
        Ok(())
    } else {
        Err(Error::Other("socket peer does not own the state directory".to_owned()))
    }
}

/// The permissions of the socket: all users may connect to a root daemon.
pub fn socket_mode(daemon_uid: u32) -> (r: u32)
    ensures
        r == if daemon_uid == 0 {
            0o666u32
        } else {
            0o600u32
        },
{
    if daemon_uid == 0 {
        0o666
    } else {
        0o600
    }
}

/// A stranger, who is neither root nor the owner, is refused the details, the log and the
/// cancellation of a job, and is told no more than whose job it is.
pub proof fn strangers_are_refused(jobs: Seq<JobModel>, uid: u32, id: u64)
    requires
        place(jobs, id) < jobs.len(),
        uid != 0,
        uid != jobs[place(jobs, id)].owner.uid,
    ensures
        denial(jobs, uid, id) == Some(
            ErrorModel::PermissionDenied {
                name: jobs[place(jobs, id)].owner.name,
                uid: jobs[place(jobs, id)].owner.uid,
            },
        ),
{
}

/// Owner and root are never refused a job that is there.
pub proof fn owner_and_root_are_served(jobs: Seq<JobModel>, uid: u32, id: u64)
    requires
        place(jobs, id) < jobs.len(),
        uid == 0 || uid == jobs[place(jobs, id)].owner.uid,
    ensures
        denial(jobs, uid, id) is None,
{
}

/// Only running jobs forbid a restart and the removal of logs; waiting ones do not.
pub proof fn only_running_jobs_are_in_the_way(jobs: Seq<JobModel>)
    ensures
        running_ids(jobs).len() == 0 <==> forall|i: int|
            0 <= i < jobs.len() ==> (#[trigger] jobs[i]).state != State::Running,
    decreases jobs.len(),
{
    if jobs.len() > 0 {
        let shorter = jobs.drop_last();
        only_running_jobs_are_in_the_way(shorter);
        assert(jobs[jobs.len() - 1] == jobs.last());
        assert forall|i: int| 0 <= i < shorter.len() implies #[trigger] shorter[i] == jobs[i] by {}
        if running_ids(jobs).len() == 0 {
            assert forall|i: int| 0 <= i < jobs.len() implies (#[trigger] jobs[i]).state
                != State::Running by {
                if i < shorter.len() {
                    assert(shorter[i].state != State::Running);
                }
            }
        }
    }
}

/// What all users see of the queue stays the same whatever the private parts of its jobs are.
pub proof fn the_queue_hides_private_parts(
    jobs: Seq<JobModel>,
    at: int,
    command: Seq<Seq<char>>,
    script: Option<Seq<char>>,
    env: Map<Seq<char>, Seq<char>>,
    cwd: Seq<char>,
)
    requires
        0 <= at < jobs.len(),
    ensures
        summaries(
            jobs.update(at, jobs[at].with_private_parts(command, script, env, cwd)),
        ) == summaries(jobs),
{
    summaries_hide_private_parts(jobs[at], command, script, env, cwd);
    assert(summaries(jobs.update(at, jobs[at].with_private_parts(command, script, env, cwd)))
        =~= summaries(jobs));
}

// ---- The order of work ----

/// How many clients are served at most before jobs are looked after again.
pub const CLIENTS_PER_ROUND: usize = 16;

/// How often the devices are asked, in milliseconds.
pub const REFRESH_INTERVAL: u64 = 2000;

/// How often finished jobs are looked through, in milliseconds.
pub const CLEANUP_INTERVAL: u64 = 60000;

/// How long the daemon rests after a round, in milliseconds.
pub const REST: u64 = 50;

/// What the daemon does next.
#[derive(Debug, Clone, Copy, PartialEq, Eq, Structural)]
pub enum Work {
    /// Accept a client, if one waits; so many were served in this round.
    Accept { served: usize },
    Refresh,
    Tick,
    Cleanup,
    Rest,
    Stop,
}

/// What accepting a client led to.
#[derive(Debug, Clone, Copy, PartialEq, Eq, Structural)]
pub enum Client {
    NoneWaiting,
    Served,
    /// The client was told that the daemon stops.
    Stopping,
}

/// What the daemon knows when it decides.
#[derive(Debug, Clone, Copy)]
pub struct Situation {
    /// A signal asked the daemon to stop.
    pub interrupted: bool,
    /// What the last client led to.
    pub client: Client,
    /// Milliseconds since the devices were asked.
    pub since_refresh: u64,
    /// Milliseconds since finished jobs were looked through.
    pub since_cleanup: u64,
}

/// What the daemon does once the clients of a round are served.
pub open spec fn after_clients(now: Situation) -> Work {
    if now.since_refresh >= REFRESH_INTERVAL {
        Work::Refresh
    } else {
        Work::Tick
    }
}

/// What the daemon does after a piece of work. A signal is heeded between rounds.
pub open spec fn following(work: Work, now: Situation) -> Work {
    match work {
        Work::Accept { served } => match now.client {
            Client::NoneWaiting => after_clients(now),
            Client::Served => if served + 1 < CLIENTS_PER_ROUND {
                Work::Accept { served: (served + 1) as usize }
            } else {
                after_clients(now)
            },
            Client::Stopping => Work::Stop,
        },
        Work::Refresh => Work::Tick,
        Work::Tick => if now.since_cleanup >= CLEANUP_INTERVAL {
            Work::Cleanup
        } else {
            Work::Rest
        },
        Work::Cleanup => Work::Rest,
        Work::Rest => if now.interrupted {
            Work::Stop
        } else {
            Work::Accept { served: 0 }
        },
        Work::Stop => Work::Stop,
    }
}

impl Work {
    /// What the daemon begins with.
    pub fn first(interrupted: bool) -> (r: Self)
        ensures
            r == if interrupted {
                Work::Stop
            } else {
                Work::Accept { served: 0 }
            },
    {
        if interrupted {
            Work::Stop
        } else {
            Work::Accept { served: 0 }
        }
    }

    /// What the daemon does after this.
    pub fn next(self, now: Situation) -> (r: Self)
        ensures
            r == following(self, now),
    {
        match self {
            Work::Accept { served } => match now.client {
                Client::Stopping => Work::Stop,
                Client::Served if served < CLIENTS_PER_ROUND - 1 => Work::Accept {
                    served: served + 1,
                },
                _ => if now.since_refresh >= REFRESH_INTERVAL {
                    Work::Refresh
                } else {
                    Work::Tick
                },
            },
            Work::Refresh => Work::Tick,
            Work::Tick => if now.since_cleanup >= CLEANUP_INTERVAL {
                Work::Cleanup
            } else {
                Work::Rest
            },
            Work::Cleanup => Work::Rest,
            Work::Rest => Work::first(now.interrupted),
            Work::Stop => Work::Stop,
        }
    }
}

/// Whether the request asks the daemon to end.
pub fn is_shutdown(request: &Request) -> (r: bool)
    ensures
        r == (*request is Stop || *request is Restart),
{
    match request {
        Request::Stop | Request::Restart => true,
        _ => false,
    }
}

/// What serving a client led to: the daemon stops once it has agreed to.
pub fn served(shutdown: bool, response: &Response) -> (r: Client)
    ensures
        r == if shutdown && *response is Accepted {
            Client::Stopping
        } else {
            Client::Served
        },
{
    if !shutdown {
        return Client::Served;
    }
    match response {
        Response::Accepted => Client::Stopping,
        _ => Client::Served,
    }
}

/// How many pieces of work there are at most before the next tick.
pub open spec fn distance(work: Work) -> int {
    match work {
        Work::Accept { served } => if served < CLIENTS_PER_ROUND {
            CLIENTS_PER_ROUND - served + 1
        } else {
            2
        },
        Work::Refresh => 1,
        Work::Tick => 0,
        Work::Cleanup => CLIENTS_PER_ROUND + 3,
        Work::Rest => CLIENTS_PER_ROUND + 2,
        Work::Stop => 0,
    }
}

/// A stream of clients cannot starve the jobs: whatever happens, each piece of work but a tick
/// brings the next tick nearer, unless the daemon stops.
pub proof fn clients_cannot_starve_jobs(work: Work, now: Situation)
    requires
        work !is Tick,
        work !is Stop,
    ensures
        following(work, now) is Stop || 0 <= distance(following(work, now)) < distance(work),
        distance(work) <= CLIENTS_PER_ROUND + 3,
{
}

/// The daemon goes on until a signal or an agreed request ends it.
pub proof fn the_daemon_stops_only_when_asked(work: Work, now: Situation)
    requires
        work !is Stop,
        following(work, now) is Stop,
    ensures
        (work is Rest && now.interrupted) || (work is Accept && now.client is Stopping),
{
}

// ---- What answering promises ----

/// A message ends at its first newline, which belongs to it; without one all of a chunk belongs to
/// the message, which goes on.
pub proof fn messages_end_at_the_first_newline(chunk: Seq<u8>, at: int)
    requires
        0 <= at <= chunk.len(),
        at < chunk.len() ==> chunk[at] == 10,
        forall|i: int| 0 <= i < at ==> chunk[i] != 10,
    ensures
        ends_message(chunk) <==> at < chunk.len(),
        at < chunk.len() ==> share(chunk) == at + 1,
        at == chunk.len() ==> share(chunk) == chunk.len(),
{
    lemma_newline_is(chunk, 0, at);
}

/// A connection that is closed before the newline is an error, and so is a message that is longer
/// than the limit.
pub proof fn broken_messages_are_refused(bytes: Seq<u8>, chunk: Seq<u8>, limit: nat)
    requires
        forall|i: int| 0 <= i < chunk.len() ==> chunk[i] != 10,
    ensures
        receiving(bytes, seq![Seq::empty()], limit) == Err::<Option<Seq<u8>>, ErrorModel>(
            ErrorModel::ConnectionClosed,
        ),
        chunk.len() > 0 && bytes.len() + chunk.len() > limit ==> receiving(
            bytes,
            seq![chunk],
            limit,
        ) == Err::<Option<Seq<u8>>, ErrorModel>(ErrorModel::MessageTooLong),
        chunk.len() > 0 && bytes.len() + chunk.len() <= limit ==> receiving(
            bytes,
            seq![chunk],
            limit,
        ) == Ok::<Option<Seq<u8>>, ErrorModel>(None),
{
    messages_end_at_the_first_newline(chunk, chunk.len() as int);
    reveal_with_fuel(receiving, 2);
}

/// What no job has as its number is not found, whoever asks.
pub proof fn missing_jobs_are_not_found(jobs: Seq<JobModel>, uid: u32, id: u64)
    requires
        forall|i: int| 0 <= i < jobs.len() ==> (#[trigger] jobs[i]).id != id,
    ensures
        denial(jobs, uid, id) == Some(ErrorModel::JobNotFound),
{
    jobs_are_found_by_number(jobs, id, jobs.len() as int);
}

/// A job is refused to all but root and its owner, and to these never.
pub proof fn jobs_are_refused_to_strangers_only(jobs: Seq<JobModel>, uid: u32, id: u64, at: int)
    requires
        0 <= at < jobs.len(),
        jobs[at].id == id,
        forall|i: int| 0 <= i < at ==> (#[trigger] jobs[i]).id != id,
    ensures
        denial(jobs, uid, id) is None <==> uid == 0 || uid == jobs[at].owner.uid,
        denial(jobs, uid, id) is Some ==> denial(jobs, uid, id) == Some(
            ErrorModel::PermissionDenied {
                name: jobs[at].owner.name,
                uid: jobs[at].owner.uid,
            },
        ),
{
    jobs_are_found_by_number(jobs, id, at);
}

/// Root and the account that the daemon runs as may stop it, and nobody else. A daemon that does not
/// run as root takes jobs from its own account only; one that does takes them from all.
pub proof fn the_daemon_serves_root_and_its_own_account(uid: u32, daemon_uid: u32)
    ensures
        is_administrator(0, daemon_uid) && is_administrator(daemon_uid, daemon_uid),
        uid > 0 && uid != daemon_uid ==> !is_administrator(uid, daemon_uid),
        may_submit(uid, 0) && may_submit(daemon_uid, daemon_uid),
        daemon_uid > 0 && uid != daemon_uid ==> !may_submit(uid, daemon_uid),
{
}

/// The queue shows each job, in its place.
pub proof fn the_queue_shows_each_job(jobs: Seq<JobModel>, i: int)
    requires
        0 <= i < jobs.len(),
    ensures
        summaries(jobs).len() == jobs.len(),
        summaries(jobs)[i].id == jobs[i].id,
        summaries(jobs)[i] == jobs[i].summary(),
{
}

/// The running jobs are told by their numbers, each of them and no other, in their order.
pub proof fn running_jobs_are_told_by_number(jobs: Seq<JobModel>, running: Seq<bool>) -> (places:
    Seq<int>)
    requires
        running.len() == jobs.len(),
        forall|i: int|
            0 <= i < jobs.len() ==> #[trigger] running[i] == (jobs[i].state == State::Running),
    ensures
        picks(places, running),
        running_ids(jobs).len() == places.len(),
        forall|k: int|
            0 <= k < places.len() ==> #[trigger] running_ids(jobs)[k] == jobs[places[k]].id,
    decreases jobs.len(),
{
    if jobs.len() == 0 {
        Seq::empty()
    } else {
        let front = jobs.drop_last();
        let at = jobs.len() - 1;
        assert forall|i: int| 0 <= i < front.len() implies #[trigger] running.drop_last()[i] == (
        front[i].state == State::Running) by {
            assert(running[i] == running.drop_last()[i]);
        }
        let places = running_jobs_are_told_by_number(front, running.drop_last());
        lemma_one_more(places, running);
        assert(running[at] == running.last());
        let ids = running_ids(jobs);
        let fewer = running_ids(front);
        assert forall|k: int| 0 <= k < places.len() implies #[trigger] ids[k]
            == jobs[places[k]].id by {
            assert(fewer[k] == front[places[k]].id);
        }
        if running.last() {
            places.push(at)
        } else {
            places
        }
    }
}

/// An answer is given as it is, and a refusal as the error that it is.
pub proof fn replies_say_what_they_say(response: Response, error: Error, id: u64)
    ensures
        responds(Ok(Reply::Respond(response)), response@),
        !responds(Ok(Reply::Persist(response)), response@),
        !responds(Err(error), response@),
        refuses(Err(error), error@),
        !refuses(Ok(Reply::Respond(response)), error@),
        cancelled_id(Request::Cancel(id)) == id,
{
}

// ---- What the order of work promises ----

/// Once the clients of a round are served the devices are asked if that was two seconds ago, and then
/// the jobs are looked after; once a minute the history is, too; and then the daemon rests.
pub proof fn work_is_done_in_its_order(now: Situation)
    ensures
        now.client == Client::NoneWaiting ==> following(Work::Accept { served: 0 }, now) == (
        if now.since_refresh >= 2000 {
            Work::Refresh
        } else {
            Work::Tick
        }),
        following(Work::Refresh, now) == Work::Tick,
        following(Work::Tick, now) == (if now.since_cleanup >= 60 * 1000 {
            Work::Cleanup
        } else {
            Work::Rest
        }),
        following(Work::Cleanup, now) == Work::Rest,
        now.interrupted ==> following(Work::Rest, now) == Work::Stop,
        !now.interrupted ==> following(Work::Rest, now) == (Work::Accept { served: 0 }),
        following(Work::Stop, now) == Work::Stop,
{
}

/// After a client the next one is served, up to sixteen in a round; a round ends as soon as nobody
/// waits, and the daemon stops once it has told a client so.
pub proof fn clients_are_served_in_rounds(served: usize, now: Situation)
    ensures
        ({
            let next = following(Work::Accept { served }, now);
            &&& now.client == Client::Stopping <==> next == Work::Stop
            &&& now.client == Client::Served && served < 15 ==> next == (Work::Accept {
                served: (served + 1) as usize,
            })
            &&& (now.client == Client::Served && served >= 15) || now.client == Client::NoneWaiting
                ==> next == (if now.since_refresh >= 2000 {
                Work::Refresh
            } else {
                Work::Tick
            })
        }),
{
}

/// Requests may have four mebibytes and answers 64; a part of a log has 64 kibibytes.
pub proof fn messages_have_their_limits()
    ensures
        REQUEST_LIMIT == 0x40_0000,
        RESPONSE_LIMIT == 0x400_0000,
        LOG_CHUNK == 0x1_0000,
{
}

} // verus!
