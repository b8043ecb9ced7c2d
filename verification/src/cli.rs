//! What the commands make of their arguments, and the rules by which they wait for the scheduler.
use vstd::prelude::*;
use vstd::string::*;

use crate::device::{backend_name, Backend};
use crate::error::{Error, ErrorModel};
use crate::model::{copy_optional, Kind, Outcome, State, Submission, SubmissionModel};
use crate::table::Table;
use crate::text::{
    a_minus_sign_makes_a_number_negative, chars_of, contains, decimal, decimal_reads_back,
    decimal_text, is_digit, lemma_decimal_nonempty, optional, patterns_are_found_anywhere,
    push_decimal, read_i32, read_unsigned, same_text, signed, strings, unsigned,
};

verus! {

// ---- Arguments ----

/// The argument of a process at a place, where it is text.
pub open spec fn argument(arguments: Seq<Option<String>>, i: int) -> Option<Seq<char>> {
    if 0 <= i < arguments.len() {
        optional(arguments[i])
    } else {
        None
    }
}

/// The process was started as the worker of a job.
pub open spec fn is_worker_call(arguments: Seq<Option<String>>) -> bool {
    argument(arguments, 1) == Some("__worker"@)
}

/// The job and the descriptor of its lock that a worker is started with.
pub open spec fn worker_call(arguments: Seq<Option<String>>) -> Result<(u64, i32), ErrorModel> {
    if arguments.len() != 4 {
        Err(ErrorModel::InvalidWorkerArguments)
    } else {
        match argument(arguments, 2) {
            None => Err(ErrorModel::InvalidJobId),
            Some(id) => match unsigned(id, u64::MAX as nat) {
                Err(cause) => Err(ErrorModel::InvalidNumber(cause)),
                Ok(id) => match argument(arguments, 3) {
                    None => Err(ErrorModel::InvalidDescriptor),
                    Some(descriptor) => match signed(
                        descriptor,
                        i32::MIN as int,
                        i32::MAX as nat,
                    ) {
                        Err(cause) => Err(ErrorModel::InvalidNumber(cause)),
                        Ok(descriptor) => Ok((id as u64, descriptor as i32)),
                    },
                },
            },
        }
    }
}

/// The job and the descriptor of its lock, if the process was started as the worker of a job.
pub fn worker_arguments(arguments: &Vec<Option<String>>) -> (r: Option<
    Result<(u64, i32), Error>,
>)
    ensures
        r is Some == is_worker_call(arguments@),
        r is Some ==> match r->0 {
            Ok(call) => worker_call(arguments@) == Ok::<(u64, i32), ErrorModel>(call),
            Err(error) => worker_call(arguments@) == Err::<(u64, i32), ErrorModel>(error@),
        },
{
    if arguments.len() < 2 {
        return None;
    }
    match &arguments[1] {
        Some(text) => if !same_text(text.as_str(), "__worker") {
            return None;
        },
        None => {
            return None;
        },
    }
    if arguments.len() != 4 {
        return Some(Err(Error::InvalidWorkerArguments));
    }
    let id = match &arguments[2] {
        None => {
            return Some(Err(Error::InvalidJobId));
        },
        Some(text) => match read_unsigned(&chars_of(text.as_str()), u64::MAX) {
            Ok(id) => id,
            Err(cause) => {
                return Some(Err(Error::InvalidNumber(cause)));
            },
        },
    };
    match &arguments[3] {
        None => Some(Err(Error::InvalidDescriptor)),
        Some(text) => match read_i32(&chars_of(text.as_str())) {
            Ok(descriptor) => Some(Ok((id, descriptor))),
            Err(cause) => Some(Err(Error::InvalidNumber(cause))),
        },
    }
}

/// Whether the process was started as the daemon in the background.
pub fn is_daemon_call(arguments: &Vec<Option<String>>) -> (r: bool)
    ensures
        r == (argument(arguments@, 1) == Some("__daemon"@)),
{
    if arguments.len() < 2 {
        return false;
    }
    match &arguments[1] {
        Some(text) => same_text(text.as_str(), "__daemon"),
        None => false,
    }
}

/// The name of the command that is short for a subcommand.
pub open spec fn short_command(subcommand: Seq<char>) -> Option<Seq<char>> {
    if subcommand == "run"@ {
        Some("xrun"@)
    } else if subcommand == "batch"@ {
        Some("xbatch"@)
    } else if subcommand == "queue"@ {
        Some("xqueue"@)
    } else if subcommand == "cancel"@ {
        Some("xcancel"@)
    } else if subcommand == "info"@ {
        Some("xinfo"@)
    } else {
        None
    }
}

/// The name of the command that is short for a subcommand.
pub fn wrapper_name(subcommand: &str) -> (r: Result<&'static str, Error>)
    ensures
        match r {
            Ok(name) => short_command(subcommand@) == Some(name@),
            Err(error) => short_command(subcommand@) is None && error@
                == ErrorModel::UnknownWrapper,
        },
{
    if same_text(subcommand, "run") {
        Ok("xrun")
    } else if same_text(subcommand, "batch") {
        Ok("xbatch")
    } else if same_text(subcommand, "queue") {
        Ok("xqueue")
    } else if same_text(subcommand, "cancel") {
        Ok("xcancel")
    } else if same_text(subcommand, "info") {
        Ok("xinfo")
    } else {
        Err(Error::UnknownWrapper)
    }
}

// ---- Submissions ----

/// How many devices a job asks for unless it says so.
pub const DEFAULT_GPUS: usize = 1;

/// How many jobs may run at once unless the administrator says so.
pub const DEFAULT_MAX_RUNNING: usize = 32;

/// What a job asks for on the command line.
#[derive(Debug)]
pub struct Resources {
    pub gpus: usize,
    pub device: Option<Kind>,
    pub name: Option<String>,
    pub time_limit: Option<u64>,
}

/// A script with the name of its file.
#[derive(Debug)]
pub struct Script {
    pub text: String,
    pub name: Option<String>,
}

/// What is submitted in the background.
#[derive(Debug)]
pub struct Batch {
    pub resources: Resources,
    pub command: Vec<String>,
    pub script: Option<String>,
}

/// What is submitted for a background job: a wrapped command goes to bash as it stands; a script
/// keeps its arguments, and its file names the job unless the user does.
pub fn batch(
    resources: Resources,
    wrap: Option<String>,
    script: Option<Script>,
    arguments: Vec<String>,
) -> (r: Result<Batch, Error>)
    ensures
        match (wrap, script) {
            (Some(wrap), _) => {
                &&& r is Ok
                &&& r->Ok_0.resources == resources
                &&& strings(r->Ok_0.command@) == seq!["bash"@, "-c"@, wrap@]
                &&& r->Ok_0.script is None
            },
            (None, Some(script)) => {
                &&& r is Ok
                &&& r->Ok_0.resources == (Resources {
                    name: if resources.name is None {
                        script.name
                    } else {
                        resources.name
                    },
                    ..resources
                })
                &&& r->Ok_0.command == arguments
                &&& r->Ok_0.script == Some(script.text)
            },
            (None, None) => r is Err && r->Err_0@ == ErrorModel::Other("script is required"@),
        },
{
    match wrap {
        Some(wrap) => {
            let command: Vec<String> = vec!["bash".to_owned(), "-c".to_owned(), wrap];
            assert(strings(command@) =~= seq!["bash"@, "-c"@, wrap@]);
            Ok(Batch { resources, command, script: None })
        },
        None => match script {
            Some(script) => {
                let mut resources = resources;
                if resources.name.is_none() {
                    resources.name = script.name;
                }
                Ok(Batch { resources, command: arguments, script: Some(script.text) })
            },
            None => Err(Error::Other("script is required".to_owned())),
        },
    }
}

/// The name of a job: the given one, else the command, else `batch`.
pub open spec fn job_name(name: Option<Seq<char>>, command: Seq<Seq<char>>) -> Seq<char> {
    match name {
        Some(name) => name,
        None => if command.len() > 0 {
            command[0]
        } else {
            "batch"@
        },
    }
}

/// What is submitted. A time limit of zero is refused before anything else matters; then the
/// current directory has to be known.
pub fn submission(
    resources: Resources,
    command: Vec<String>,
    script: Option<String>,
    cwd: Result<String, Error>,
    env: Table,
) -> (r: Result<Submission, Error>)
    ensures
        if resources.time_limit == Some(0u64) {
            r is Err && r->Err_0@ == ErrorModel::ZeroTimeLimit
        } else {
            match cwd {
                Err(error) => r == Err::<Submission, Error>(error),
                Ok(cwd) => {
                    &&& r is Ok
                    &&& r->Ok_0@ == (SubmissionModel {
                        command: strings(command@),
                        cwd: cwd@,
                        env: env@,
                        name: job_name(optional(resources.name), strings(command@)),
                        count: resources.gpus,
                        kind: resources.device,
                        time_limit: resources.time_limit,
                        script: optional(script),
                    })
                },
            }
        },
{
    if resources.time_limit == Some(0u64) {
        return Err(Error::ZeroTimeLimit);
    }
    let cwd = match cwd {
        Ok(cwd) => cwd,
        Err(error) => {
            return Err(error);
        },
    };
    assert(strings(command@).len() == command@.len());
    let name = match resources.name {
        Some(name) => name,
        None => if command.len() > 0 {
            command[0].clone()
        } else {
            "batch".to_owned()
        },
    };
    Ok(
        Submission {
            command,
            cwd,
            env,
            name,
            count: resources.gpus,
            kind: resources.device,
            time_limit: resources.time_limit,
            script,
        },
    )
}

// ---- The queue ----

/// What the queue command does.
#[derive(Debug, Clone, Copy, PartialEq, Eq, Structural)]
pub enum QueueAction {
    Cancel(u64),
    /// Print the log of a job.
    Log(u64),
    /// Show a job, in JSON or in words.
    Show { id: u64, json: bool },
    /// Show the queue, in JSON or as a table.
    List { json: bool },
}

/// What the queue command does: cancelling comes before all else, and the log of a job before its
/// details.
pub fn queue_action(cancel: Option<u64>, id: Option<u64>, log: bool, json: bool) -> (r: QueueAction)
    ensures
        r == match (cancel, id) {
            (Some(id), _) => QueueAction::Cancel(id),
            (None, Some(id)) => if log {
                QueueAction::Log(id)
            } else {
                QueueAction::Show { id, json }
            },
            (None, None) => QueueAction::List { json },
        },
{
    match (cancel, id) {
        (Some(id), _) => QueueAction::Cancel(id),
        (None, Some(id)) => if log {
            QueueAction::Log(id)
        } else {
            QueueAction::Show { id, json }
        },
        (None, None) => QueueAction::List { json },
    }
}

// ---- Starting the daemon ----

/// Checks how many jobs may run at once.
pub fn check_max_running(max_running: usize) -> (r: Result<(), Error>)
    ensures
        match r {
            Ok(_) => max_running > 0,
            Err(error) => max_running == 0 && error@ == ErrorModel::ZeroMaxRunning,
        },
{
    if max_running == 0 {
        Err(Error::ZeroMaxRunning)
    } else {
        Ok(())
    }
}

/// The arguments with which the daemon is started in the background.
pub fn daemon_arguments(backend: Backend, max_running: usize) -> (r: Vec<String>)
    ensures
        strings(r@) == seq![
            "__daemon"@,
            "--backend"@,
            backend_name(backend),
            "--max-running"@,
            decimal(max_running as nat),
        ],
{
    let r: Vec<String> = vec![
        "__daemon".to_owned(),
        "--backend".to_owned(),
        backend.name().to_owned(),
        "--max-running".to_owned(),
        decimal_text(max_running as u64),
    ];
    assert(strings(r@) =~= seq![
        "__daemon"@,
        "--backend"@,
        backend_name(backend),
        "--max-running"@,
        decimal(max_running as nat),
    ]);
    r
}

/// How long the daemon may take to come up, in milliseconds.
pub const STARTUP_LIMIT: u64 = 45000;

/// What waiting for the daemon has come to.
#[derive(Debug, Clone, Copy, PartialEq, Eq, Structural)]
pub enum Startup {
    Running,
    Exited,
    /// The daemon has to be ended: it must not come up after the failure was reported.
    TooLate,
    Waiting,
}

/// What waiting for the daemon has come to: whether it answers, whether its process has ended,
/// and how many milliseconds it has had.
pub fn startup(answers: bool, exited: bool, elapsed: u64) -> (r: Startup)
    ensures
        r == if answers {
            Startup::Running
        } else if exited {
            Startup::Exited
        } else if elapsed >= STARTUP_LIMIT {
            Startup::TooLate
        } else {
            Startup::Waiting
        },
{
    if answers {
        Startup::Running
    } else if exited {
        Startup::Exited
    } else if elapsed >= STARTUP_LIMIT {
        Startup::TooLate
    } else {
        Startup::Waiting
    }
}

/// What waiting for the daemon to be gone has come to.
#[derive(Debug, Clone, Copy, PartialEq, Eq, Structural)]
pub enum Stopping {
    Gone,
    TooLate,
    Waiting,
}

/// What waiting for the daemon to be gone has come to: whether it has released its lock, and how
/// many milliseconds it has had.
pub fn stopping(released: bool, elapsed: u64) -> (r: Stopping)
    ensures
        r == if released {
            Stopping::Gone
        } else if elapsed >= STARTUP_LIMIT {
            Stopping::TooLate
        } else {
            Stopping::Waiting
        },
{
    if released {
        Stopping::Gone
    } else if elapsed >= STARTUP_LIMIT {
        Stopping::TooLate
    } else {
        Stopping::Waiting
    }
}

/// The report of a daemon that did not come up: how it ended, or that it took too long, and where
/// to look.
pub open spec fn startup_report(status: Option<Seq<char>>, log: Seq<char>) -> Seq<char> {
    match status {
        Some(status) => "daemon exited ("@ + status + "); see "@ + log,
        None => "daemon startup timed out; see "@ + log,
    }
}

/// The report of a daemon that did not come up.
pub fn startup_failure(status: &Option<String>, log: &str) -> (r: String)
    ensures
        r@ == startup_report(optional(*status), log@),
{
    match status {
        Some(status) => {
            let mut r = "daemon exited (".to_owned();
            r.append(status.as_str());
            r.append("); see ");
            r.append(log);
            r
        },
        None => {
            let mut r = "daemon startup timed out; see ".to_owned();
            r.append(log);
            r
        },
    }
}

// ---- Following a job ----

/// How many parts of the log are read before the job is asked after again.
pub const CHUNKS_PER_ROUND: usize = 16;

/// After how long a job that waits is reported, in milliseconds.
pub const WAITING_NOTICE: u64 = 1000;

/// What was done for a job that is followed in the foreground.
#[derive(Debug, Clone, Copy, PartialEq, Eq, Structural)]
pub struct Follow {
    pub cancelled: bool,
    pub waiting_reported: bool,
    pub started_reported: bool,
}

/// What is to be reported.
#[derive(Debug, Clone, Copy, PartialEq, Eq, Structural)]
pub struct Notices {
    pub waiting: bool,
    pub started: bool,
}

/// What a look at the job leads to: what was done so far, and what is to be reported. A fast job can
/// be over between two looks, so what counts is whether it ever started.
pub open spec fn reported(
    before: Follow,
    state: State,
    started_at: Option<u64>,
    waited: u64,
) -> (Follow, Notices) {
    let waiting = state == State::Pending && !before.waiting_reported && waited >= WAITING_NOTICE;
    let started = started_at is Some && !before.started_reported;
    (
        Follow {
            waiting_reported: before.waiting_reported || waiting,
            started_reported: before.started_reported || started,
            ..before
        },
        Notices { waiting, started },
    )
}

impl Follow {
    /// Nothing was done yet.
    pub fn new() -> (r: Self)
        ensures
            r == (Follow {
                cancelled: false,
                waiting_reported: false,
                started_reported: false,
            }),
    {
        Follow { cancelled: false, waiting_reported: false, started_reported: false }
    }

    /// Whether the job is to be cancelled now: once, after a signal.
    pub fn interrupt(&mut self, interrupted: bool) -> (r: bool)
        ensures
            r == (interrupted && !old(self).cancelled),
            *final(self) == (Follow {
                cancelled: old(self).cancelled || interrupted,
                ..*old(self)
            }),
    {
        let r = interrupted && !self.cancelled;
        if r {
            self.cancelled = true;
        }
        r
    }

    /// What is to be reported of the job after it was followed for some milliseconds.
    pub fn report(&mut self, state: State, started_at: Option<u64>, waited: u64) -> (r: Notices)
        ensures
            (*final(self), r) == reported(*old(self), state, started_at, waited),
    {
        let waiting = state == State::Pending && !self.waiting_reported && waited
            >= WAITING_NOTICE;
        let started = started_at.is_some() && !self.started_reported;
        if waiting {
            self.waiting_reported = true;
        }
        if started {
            self.started_reported = true;
        }
        Notices { waiting, started }
    }
}

/// Each report is made at most once: after it was made, no look makes it again.
pub proof fn notices_come_once(
    before: Follow,
    state: State,
    started_at: Option<u64>,
    waited: u64,
    later_state: State,
    later_start: Option<u64>,
    later_wait: u64,
)
    ensures
        ({
            let (after, first) = reported(before, state, started_at, waited);
            let (_, second) = reported(after, later_state, later_start, later_wait);
            !(first.waiting && second.waiting) && !(first.started && second.started)
        }),
{
}

/// How reading a log goes on.
#[derive(Debug, Clone, Copy, PartialEq, Eq, Structural)]
pub enum Reading {
    /// The log was read to its end.
    Drained,
    /// Read the next part.
    ReadOn,
    /// Look after the job before reading more.
    LookAgain,
}

/// How reading a log goes on after a part of so many bytes, the last of `parts` in this round.
pub fn reading(length: usize, parts: usize) -> (r: Reading)
    ensures
        r == if length == 0 {
            Reading::Drained
        } else if parts < CHUNKS_PER_ROUND {
            Reading::ReadOn
        } else {
            Reading::LookAgain
        },
{
    if length == 0 {
        Reading::Drained
    } else if parts < CHUNKS_PER_ROUND {
        Reading::ReadOn
    } else {
        Reading::LookAgain
    }
}

/// What the foreground command ends with.
#[derive(Debug)]
pub struct Ending {
    pub exit_code: i32,
    pub error: Option<String>,
}

/// What the foreground command ends with, once the job is over and its log was read to the end.
pub fn ending(result: &Option<Outcome>, drained: bool) -> (r: Option<Ending>)
    ensures
        r is Some == (*result is Some && drained),
        r is Some ==> r->0.exit_code == (*result)->0.exit_code && r->0.error == (
        *result)->0.error,
{
    match result {
        Some(outcome) => if drained {
            Some(Ending { exit_code: outcome.exit_code, error: copy_optional(&outcome.error) })
        } else {
            None
        },
        None => None,
    }
}

/// A report on a job, with the time.
pub open spec fn notice(timestamp: Seq<char>, id: u64, text: Seq<char>) -> Seq<char> {
    "[xlurm] "@ + timestamp + " Job "@ + decimal(id as nat) + ": "@ + text
}

fn notice_text(timestamp: &str, id: u64, text: &str) -> (r: String)
    ensures
        r@ == notice(timestamp@, id, text@),
{
    let mut r = "[xlurm] ".to_owned();
    r.append(timestamp);
    r.append(" Job ");
    push_decimal(&mut r, id);
    r.append(": ");
    r.append(text);
    r
}

/// The report that a job waits.
pub fn waiting_notice(timestamp: &str, id: u64) -> (r: String)
    ensures
        r@ == notice(timestamp@, id, "Waiting for resources..."@),
{
    notice_text(timestamp, id, "Waiting for resources...")
}

/// The report that a job has started.
pub fn started_notice(timestamp: &str, id: u64) -> (r: String)
    ensures
        r@ == notice(timestamp@, id, "Task started."@),
{
    notice_text(timestamp, id, "Task started.")
}

/// The report that a job is to be cancelled.
pub fn cancellation_notice(id: u64) -> (r: String)
    ensures
        r@ == "Cancellation requested for job "@ + decimal(id as nat),
{
    let mut r = "Cancellation requested for job ".to_owned();
    push_decimal(&mut r, id);
    r
}

// ---- Removing logs ----

/// The report of which logs were removed.
pub open spec fn removal_report(job_logs: nat, daemon_log: bool) -> Seq<char> {
    "Removed "@ + decimal(job_logs) + " job log(s)"@ + (if daemon_log {
        " and daemon.log"@
    } else {
        "; daemon.log was already absent"@
    }) + "."@
}

/// The report of which logs were removed.
pub fn clean_report(job_logs: u64, daemon_log: bool) -> (r: String)
    ensures
        r@ == removal_report(job_logs as nat, daemon_log),
{
    let mut r = "Removed ".to_owned();
    push_decimal(&mut r, job_logs);
    r.append(" job log(s)");
    r.append(
        if daemon_log {
            " and daemon.log"
        } else {
            "; daemon.log was already absent"
        },
    );
    r.append(".");
    r
}

// ---- What the commands promise ----

/// A worker that is started with the number of a job and the descriptor of its lock, both in decimal,
/// is told just these; with more or fewer arguments it is refused.
pub proof fn workers_are_told_job_and_lock(
    arguments: Seq<Option<String>>,
    id: u64,
    descriptor: i32,
)
    requires
        descriptor >= 0,
        arguments.len() >= 4,
        arguments[2] is Some && arguments[2]->0@ == decimal(id as nat),
        arguments[3] is Some && arguments[3]->0@ == decimal(descriptor as nat),
    ensures
        arguments.len() == 4 ==> worker_call(arguments) == Ok::<(u64, i32), ErrorModel>(
            (id, descriptor),
        ),
        arguments.len() != 4 ==> worker_call(arguments) == Err::<(u64, i32), ErrorModel>(
            ErrorModel::InvalidWorkerArguments,
        ),
{
    decimal_reads_back(id as nat, u64::MAX as nat);
    decimal_reads_back(descriptor as nat, i32::MAX as nat);
    lemma_decimal_nonempty(descriptor as nat);
    assert(is_digit(decimal(descriptor as nat)[0]));
    a_minus_sign_makes_a_number_negative(
        decimal(descriptor as nat),
        i32::MIN as int,
        i32::MAX as nat,
    );
}

/// What a worker is told where something is missing or is no number.
pub proof fn bad_worker_calls_are_refused(arguments: Seq<Option<String>>)
    requires
        arguments.len() == 4,
    ensures
        arguments[2] is None ==> worker_call(arguments) == Err::<(u64, i32), ErrorModel>(
            ErrorModel::InvalidJobId,
        ),
        arguments[2] is Some && unsigned(arguments[2]->0@, u64::MAX as nat) is Err ==> worker_call(
            arguments,
        ) == Err::<(u64, i32), ErrorModel>(
            ErrorModel::InvalidNumber(unsigned(arguments[2]->0@, u64::MAX as nat)->Err_0),
        ),
        arguments[2] is Some && unsigned(arguments[2]->0@, u64::MAX as nat) is Ok && arguments[3]
            is None ==> worker_call(arguments) == Err::<(u64, i32), ErrorModel>(
            ErrorModel::InvalidDescriptor,
        ),
        arguments[2] is Some && unsigned(arguments[2]->0@, u64::MAX as nat) is Ok && arguments[3]
            is Some && signed(arguments[3]->0@, i32::MIN as int, i32::MAX as nat) is Err
            ==> worker_call(arguments) is Err,
{
}

/// The second argument tells what a process was started as; without it the process is a command.
pub proof fn the_second_argument_tells_the_role(arguments: Seq<Option<String>>)
    ensures
        arguments.len() < 2 ==> !is_worker_call(arguments) && argument(arguments, 1) is None,
        arguments.len() >= 2 && arguments[1] is Some ==> argument(arguments, 1) == Some(
            arguments[1]->0@,
        ) && is_worker_call(arguments) == (arguments[1]->0@ == "__worker"@),
        arguments.len() >= 2 && arguments[1] is None ==> !is_worker_call(arguments),
{
}

/// The short commands are the subcommands for jobs and devices with an x before them; no other
/// subcommand has one.
pub proof fn short_commands_begin_with_x(subcommand: Seq<char>)
    ensures
        ({
            let known = subcommand == "run"@ || subcommand == "batch"@ || subcommand == "queue"@
                || subcommand == "cancel"@ || subcommand == "info"@;
            &&& known ==> short_command(subcommand) == Some(seq!['x'] + subcommand)
            &&& !known ==> short_command(subcommand) is None
        }),
{
    reveal_strlit("run");
    reveal_strlit("batch");
    reveal_strlit("queue");
    reveal_strlit("cancel");
    reveal_strlit("info");
    reveal_strlit("xrun");
    reveal_strlit("xbatch");
    reveal_strlit("xqueue");
    reveal_strlit("xcancel");
    reveal_strlit("xinfo");
    assert("xrun"@ =~= seq!['x'] + "run"@);
    assert("xbatch"@ =~= seq!['x'] + "batch"@);
    assert("xqueue"@ =~= seq!['x'] + "queue"@);
    assert("xcancel"@ =~= seq!['x'] + "cancel"@);
    assert("xinfo"@ =~= seq!['x'] + "info"@);
}

/// A job has the name that its submitter gave it; else it is named after its program.
pub proof fn jobs_are_named_by_their_submitter(
    name: Seq<char>,
    program: Seq<char>,
    arguments: Seq<Seq<char>>,
)
    ensures
        job_name(Some(name), seq![program] + arguments) == name,
        job_name(Some(name), Seq::empty()) == name,
        job_name(None, seq![program] + arguments) == program,
        job_name(None, Seq::empty()) == "batch"@,
{
}

/// Waiting is reported once a job has waited for a second, and a start as soon as it is seen, both
/// unless that was done before; what was reported is remembered, and nothing else is changed.
pub proof fn notices_come_in_time(
    before: Follow,
    state: State,
    started_at: Option<u64>,
    waited: u64,
)
    ensures
        ({
            let (after, told) = reported(before, state, started_at, waited);
            &&& told.waiting <==> !before.waiting_reported && state == State::Pending && waited
                >= 1000
            &&& told.started <==> !before.started_reported && started_at is Some
            &&& after.waiting_reported <==> before.waiting_reported || told.waiting
            &&& after.started_reported <==> before.started_reported || told.started
            &&& after.cancelled == before.cancelled
        }),
{
}

/// A daemon has 45 seconds to come up, and as long to be gone; what is seen of it counts before the
/// time.
pub proof fn daemons_have_their_time(
    answers: bool,
    exited: bool,
    released: bool,
    elapsed: u64,
    up: Startup,
    down: Stopping,
)
    requires
        call_ensures(startup, (answers, exited, elapsed), up),
        call_ensures(stopping, (released, elapsed), down),
    ensures
        up == Startup::Running <==> answers,
        up == Startup::Exited <==> exited && !answers,
        up == Startup::TooLate <==> !answers && !exited && elapsed >= 45 * 1000,
        down == Stopping::Gone <==> released,
        down == Stopping::TooLate <==> !released && elapsed >= 45 * 1000,
{
}

/// A job asks for one device and the daemon runs up to 32 jobs at once, unless it is said otherwise.
pub proof fn defaults_of_the_commands()
    ensures
        DEFAULT_GPUS == 1,
        DEFAULT_MAX_RUNNING == 32,
{
}

/// A log is read in rounds of sixteen parts; an empty part ends it.
pub proof fn logs_are_read_in_rounds(length: usize, parts: usize, r: Reading)
    requires
        call_ensures(reading, (length, parts), r),
    ensures
        r == Reading::Drained <==> length == 0,
        r == Reading::ReadOn <==> length > 0 && parts < 16,
{
}

/// A notice names the time and the job, and ends with what happened.
pub proof fn notices_name_time_and_job(timestamp: Seq<char>, id: u64, text: Seq<char>)
    ensures
        notice(timestamp, id, text) == "[xlurm] "@ + timestamp + " Job "@ + decimal(id as nat)
            + ": "@ + text,
        contains(notice(timestamp, id, text), timestamp),
        contains(notice(timestamp, id, text), decimal(id as nat)),
{
    let all = notice(timestamp, id, text);
    let rest = " Job "@ + decimal(id as nat) + ": "@ + text;
    assert(all =~= "[xlurm] "@ + timestamp + rest);
    patterns_are_found_anywhere("[xlurm] "@, timestamp, rest);
    let before = "[xlurm] "@ + timestamp + " Job "@;
    let after = ": "@ + text;
    assert(all =~= before + decimal(id as nat) + after);
    patterns_are_found_anywhere(before, decimal(id as nat), after);
}

/// The report of a daemon that did not come up names how it ended, where it did, and its log.
pub proof fn startup_reports_name_the_log(status: Seq<char>, log: Seq<char>)
    ensures
        contains(startup_report(Some(status), log), status),
        startup_report(Some(status), log) == "daemon exited ("@ + status + "); see "@ + log,
        startup_report(None, log) == "daemon startup timed out; see "@ + log,
{
    let all = startup_report(Some(status), log);
    assert(all =~= "daemon exited ("@ + status + ("); see "@ + log));
    patterns_are_found_anywhere("daemon exited ("@, status, "); see "@ + log);
}

/// The report of a cleaning tells how many logs were removed and what became of the daemon's own.
pub proof fn cleanings_are_counted(job_logs: nat)
    ensures
        removal_report(job_logs, true) == "Removed "@ + decimal(job_logs)
            + " job log(s) and daemon.log."@,
        removal_report(job_logs, false) == "Removed "@ + decimal(job_logs)
            + " job log(s); daemon.log was already absent."@,
{
    reveal_strlit(" job log(s)");
    reveal_strlit(" and daemon.log");
    reveal_strlit("; daemon.log was already absent");
    reveal_strlit(".");
    reveal_strlit(" job log(s) and daemon.log.");
    reveal_strlit(" job log(s); daemon.log was already absent.");
    assert(" job log(s)"@ + " and daemon.log"@ + "."@ =~= " job log(s) and daemon.log."@);
    assert(" job log(s)"@ + "; daemon.log was already absent"@ + "."@
        =~= " job log(s); daemon.log was already absent."@);
    let first = "Removed "@ + decimal(job_logs);
    assert(removal_report(job_logs, true) =~= first + " job log(s) and daemon.log."@);
    assert(removal_report(job_logs, false) =~= first
        + " job log(s); daemon.log was already absent."@);
}

} // verus!
