//! What runs a job: the interface that the scheduler knows, and the rules by which a worker
//! prepares, watches and ends the process of a job.
use vstd::prelude::*;
use vstd::string::*;

use crate::error::{Error, ErrorModel};
use crate::model::{
    clock_gave, device_models, now, Device, DeviceModel, Job, JobModel, Kind, Outcome,
    OutcomeModel, Owner, State,
};
use crate::places::{lemma_one_more, picks};
use crate::table::Table;
use crate::text::{copy_strings, decimal, decimal_text, join, joined, strings};

verus! {

/// The scheduler knows only this of what runs the jobs. What a method gives is for the executor to
/// decide.
pub trait Executor {
    /// Starts a job. An executor may rely on it that the job was marked as running before, with the
    /// time of its start.
    fn start(&mut self, job: &Job) -> Result<(), Error>
        requires
            job.state == State::Running,
            job.started_at is Some,
    ;

    /// Asks after a job: nothing while it runs, its outcome once it is over.
    fn poll(&mut self, id: u64) -> Result<Option<Outcome>, Error>;

    /// Asks a running job to end.
    fn cancel(&mut self, id: u64) -> Result<(), Error>;
}

/// Starting the job, asked of the executor in this state, gave this.
pub open spec fn start_gave<E: Executor>(
    executor: E,
    job: &Job,
    answer: Result<(), Error>,
) -> bool {
    exists|asked: &mut E|
        *asked == executor && #[trigger] call_ensures(E::start, (asked, job), answer)
}

/// Asking the executor in this state after the job with this number gave this.
pub open spec fn poll_gave<E: Executor>(
    executor: E,
    id: u64,
    answer: Result<Option<Outcome>, Error>,
) -> bool {
    exists|asked: &mut E|
        *asked == executor && #[trigger] call_ensures(E::poll, (asked, id), answer)
}

/// Telling the executor in this state to end the job with this number gave this.
pub open spec fn cancel_gave<E: Executor>(
    executor: E,
    id: u64,
    answer: Result<(), Error>,
) -> bool {
    exists|asked: &mut E|
        *asked == executor && #[trigger] call_ensures(E::cancel, (asked, id), answer)
}

/// How a job ends that could not be run.
pub open spec fn failed_outcome(message: Seq<char>, finished_at: u64) -> OutcomeModel {
    OutcomeModel { state: State::Failed, exit_code: 1, finished_at, error: Some(message) }
}

/// How a job ends that is cancelled.
pub open spec fn cancelled_outcome(finished_at: u64) -> OutcomeModel {
    OutcomeModel { state: State::Cancelled, exit_code: 130, finished_at, error: None }
}

/// The outcome of a job that could not be run, at a given time.
pub fn failure_at(message: String, finished_at: u64) -> (r: Outcome)
    ensures
        r@ == failed_outcome(message@, finished_at),
{
    Outcome { state: State::Failed, exit_code: 1, finished_at, error: Some(message) }
}

/// The outcome of a job that could not be run, now.
pub fn failure(message: String) -> (r: Outcome)
    ensures
        r@ == failed_outcome(message@, r.finished_at),
        clock_gave(r.finished_at),
{
    failure_at(message, now())
}

/// The outcome of a job that is cancelled, at a given time.
pub fn cancellation_at(finished_at: u64) -> (r: Outcome)
    ensures
        r@ == cancelled_outcome(finished_at),
{
    Outcome { state: State::Cancelled, exit_code: 130, finished_at, error: None }
}

/// What a worker that is gone left behind.
pub open spec fn left_behind(result: Option<OutcomeModel>, finished_at: u64) -> OutcomeModel {
    match result {
        Some(outcome) => outcome,
        None => failed_outcome(
            "executor worker disappeared without an exit result"@,
            finished_at,
        ),
    }
}

/// What polling a job gives. As long as the worker holds its lock the job is not over, even if its
/// result is there already; a worker that is gone without a result has failed.
pub fn poll_outcome(unlocked: bool, result: Option<Outcome>, finished_at: u64) -> (r: Option<
    Outcome,
>)
    ensures
        r is Some == unlocked,
        r is Some ==> r->0@ == left_behind(crate::model::outcome_model(result), finished_at),
{
    if !unlocked {
        return None;
    }
    match result {
        Some(outcome) => Some(outcome),
        None => Some(
            failure_at(
                "executor worker disappeared without an exit result".to_owned(),
                finished_at,
            ),
        ),
    }
}

// ---- Preparing the process ----

/// What is run for the job. A script goes to bash as text, with the job's name as `$0`.
pub open spec fn command_line(job: JobModel) -> Seq<Seq<char>> {
    match job.spec.script {
        Some(script) => seq!["bash"@, "-c"@, script, job.spec.name] + job.spec.command,
        None => job.spec.command,
    }
}

/// What is run for the job.
pub fn arguments(job: &Job) -> (r: Result<Vec<String>, Error>)
    ensures
        match r {
            Ok(list) => strings(list@) == command_line(job@) && list@.len() > 0,
            Err(error) => error@ == ErrorModel::EmptyCommand && command_line(job@).len() == 0,
        },
{
    let mut list: Vec<String> = Vec::new();
    match &job.spec.script {
        Some(script) => {
            list.push("bash".to_owned());
            list.push("-c".to_owned());
            list.push(script.clone());
            list.push(job.spec.name.clone());
        },
        None => {},
    }
    let ghost prefix = list@;
    let mut command = copy_strings(&job.spec.command);
    list.append(&mut command);
    assert(strings(list@) =~= strings(prefix) + strings(job.spec.command@));
    assert(strings(list@) =~= command_line(job@));
    if list.len() == 0 {
        return Err(Error::EmptyCommand);
    }
    Ok(list)
}

/// The visible names of the devices of one vendor.
pub open spec fn names_of(devices: Seq<DeviceModel>, kind: Kind) -> Seq<Seq<char>>
    decreases devices.len(),
{
    if devices.len() == 0 {
        Seq::empty()
    } else {
        let front = names_of(devices.drop_last(), kind);
        if devices.last().kind == kind {
            front.push(devices.last().visible)
        } else {
            front
        }
    }
}

/// The value of a vendor's visibility variable.
pub open spec fn visibility(devices: Seq<DeviceModel>, kind: Kind) -> Seq<char> {
    if names_of(devices, kind).len() == 0 {
        "-1"@
    } else {
        joined(names_of(devices, kind), ","@)
    }
}

/// The value of a vendor's visibility variable for the job.
pub fn visible(job: &Job, kind: Kind) -> (r: String)
    ensures
        r@ == visibility(job@.devices, kind),
{
    let mut values: Vec<String> = Vec::new();
    let ghost all = device_models(job.devices@);
    assert(strings(values@) =~= names_of(all.take(0), kind));
    for i in 0..job.devices.len()
        invariant
            all == device_models(job.devices@),
            strings(values@) == names_of(all.take(i as int), kind),
    {
        let ghost before = values@;
        assert(all.take(i + 1).drop_last() =~= all.take(i as int));
        assert(all.take(i + 1).last() == job.devices@[i as int]@);
        if job.devices[i].kind == kind {
            values.push(job.devices[i].visible.clone());
            assert(strings(values@) =~= strings(before).push(job.devices@[i as int].visible@));
        }
    }
    assert(all.take(all.len() as int) =~= all);
    assert(strings(values@).len() == values@.len());
    if values.len() == 0 {
        "-1".to_owned()
    } else {
        join(&values, ",")
    }
}

/// Whether the job has a device of the vendor.
pub open spec fn uses(devices: Seq<DeviceModel>, kind: Kind) -> bool {
    exists|i: int| 0 <= i < devices.len() && (#[trigger] devices[i]).kind == kind
}

/// The environment in which the job runs: the submitted one, with the identity of its owner and
/// the devices that it was given.
pub open spec fn job_environment(job: JobModel, owner: Seq<char>) -> Map<Seq<char>, Seq<char>> {
    let shared = job.spec.env.insert("USER"@, owner).insert("LOGNAME"@, owner).insert(
        "XLURM_JOB_ID"@,
        decimal(job.id as nat),
    ).insert("XLURM_SUBMIT_DIR"@, job.spec.cwd).insert(
        "CUDA_VISIBLE_DEVICES"@,
        visibility(job.devices, Kind::Nvidia),
    ).insert("ASCEND_RT_VISIBLE_DEVICES"@, visibility(job.devices, Kind::Ascend)).remove(
        "ASCEND_DEVICE_ID"@,
    );
    if uses(job.devices, Kind::Ascend) {
        shared.insert("ASCEND_DEVICE_ID"@, "0"@)
    } else {
        shared
    }
}

fn has_device(devices: &Vec<Device>, kind: Kind) -> (r: bool)
    ensures
        r == uses(device_models(devices@), kind),
{
    for i in 0..devices.len()
        invariant
            forall|j: int|
                0 <= j < i ==> (#[trigger] device_models(devices@)[j]).kind != kind,
    {
        if devices[i].kind == kind {
            assert(device_models(devices@)[i as int].kind == kind);
            return true;
        }
    }
    false
}

/// The environment in which the job runs.
pub fn environment(job: &Job, owner: &String) -> (r: Table)
    ensures
        r@ == job_environment(job@, owner@),
{
    let mut env = job.spec.env.clone();
    env.insert("USER".to_owned(), owner.clone());
    env.insert("LOGNAME".to_owned(), owner.clone());
    env.insert("XLURM_JOB_ID".to_owned(), decimal_text(job.id));
    env.insert("XLURM_SUBMIT_DIR".to_owned(), job.spec.cwd.clone());
    env.insert("CUDA_VISIBLE_DEVICES".to_owned(), visible(job, Kind::Nvidia));
    env.insert("ASCEND_RT_VISIBLE_DEVICES".to_owned(), visible(job, Kind::Ascend));
    env.remove("ASCEND_DEVICE_ID");
    if has_device(&job.devices, Kind::Ascend) {
        env.insert("ASCEND_DEVICE_ID".to_owned(), "0".to_owned());
    }
    env
}

/// Checks that the worker may take on the identity of the job's owner: `account` is what the host
/// says of that identity now. Tells whether the worker has to drop its own.
pub fn assume_identity(owner: &Owner, account: &Owner, euid: u32, egid: u32) -> (r: Result<
    bool,
    Error,
>)
    ensures
        match r {
            Ok(privileged) => {
                &&& account.name@ == owner.name@
                &&& privileged == (euid == 0)
                &&& privileged || (account.uid == euid && account.gid == egid)
            },
            Err(error) => if account.name@ != owner.name@ {
                error@ == ErrorModel::AccountChanged
            } else {
                &&& error@ == ErrorModel::ForeignIdentity
                &&& euid != 0
                &&& account.uid != euid || account.gid != egid
            },
        },
{
    if account.name != owner.name {
        return Err(Error::AccountChanged);
    }
    let privileged = euid == 0;
    if !privileged && !(account.uid == euid && account.gid == egid) {
        return Err(Error::ForeignIdentity);
    }
    Ok(privileged)
}

/// Checks the descriptor of the lock that a worker inherits: the first three are taken.
pub fn check_descriptor(fd: i32) -> (r: Result<(), Error>)
    ensures
        match r {
            Ok(_) => fd >= 3,
            Err(error) => fd < 3 && error@ == ErrorModel::InvalidLockDescriptor,
        },
{
    if fd >= 3 {
        Ok(())
    } else {
        Err(Error::InvalidLockDescriptor)
    }
}

// ---- Watching the process ----

/// What the worker sees of a running job.
#[derive(Debug, Clone, Copy)]
pub struct Observation {
    /// The cancellation marker is there.
    pub cancelled: bool,
    /// The worker itself was told to stop.
    pub interrupted: bool,
    /// Milliseconds since the process was started.
    pub elapsed: u64,
}

/// Which signals go to the process group.
#[derive(Debug, Clone, Copy)]
pub struct Signals {
    pub terminate: bool,
    pub kill: bool,
}

/// Milliseconds between the request to terminate and the kill.
pub const GRACE: u64 = 1000;

/// When the process was told to terminate, and why.
#[derive(Debug, Clone, Copy)]
pub struct Supervision {
    pub termination: Option<(u64, State)>,
}

/// Why a process has to terminate. Cancellation comes before the time limit.
pub open spec fn reason_to_stop(time_limit: Option<u64>, seen: Observation) -> Option<State> {
    if seen.cancelled || seen.interrupted {
        Some(State::Cancelled)
    } else if time_limit is Some && seen.elapsed / 1000 >= time_limit->0 {
        Some(State::TimedOut)
    } else {
        None
    }
}

/// The termination once the worker has looked.
pub open spec fn termination_after(
    termination: Option<(u64, State)>,
    time_limit: Option<u64>,
    seen: Observation,
) -> Option<(u64, State)> {
    match termination {
        Some(_) => termination,
        None => match reason_to_stop(time_limit, seen) {
            Some(reason) => Some((seen.elapsed, reason)),
            None => None,
        },
    }
}

/// Whether a process that was told to terminate has used up its grace period.
pub open spec fn is_overdue(termination: Option<(u64, State)>, elapsed: u64) -> bool {
    match termination {
        Some((since, _)) => elapsed >= since + GRACE,
        None => false,
    }
}

impl Supervision {
    /// The process was not told to terminate.
    pub fn new() -> (r: Self)
        ensures
            r.termination is None,
    {
        Supervision { termination: None }
    }

    /// One look at a process that has not ended: asks it to terminate once there is a reason, and
    /// kills it when it is still there after the grace period.
    pub fn step(&mut self, time_limit: Option<u64>, seen: Observation) -> (r: Signals)
        ensures
            final(self).termination == termination_after(
                old(self).termination,
                time_limit,
                seen,
            ),
            r.terminate == (old(self).termination is None && final(self).termination is Some),
            r.kill == is_overdue(final(self).termination, seen.elapsed),
            old(self).termination is None && !seen.cancelled && !seen.interrupted ==> (r.terminate
                <==> time_limit is Some && seen.elapsed >= 1000 * time_limit->0),
            old(self).termination is None && (seen.cancelled || seen.interrupted) ==> r.terminate,
            old(self).termination is Some ==> !r.terminate && (r.kill <==> seen.elapsed
                - (old(self).termination->0).0 >= 1000),
    {
        let mut terminate = false;
        if self.termination.is_none() {
            let reason: Option<State> = if seen.cancelled || seen.interrupted {
                Some(State::Cancelled)
            } else {
                match time_limit {
                    Some(limit) => if seen.elapsed / 1000 >= limit {
                        Some(State::TimedOut)
                    } else {
                        None
                    },
                    None => None,
                }
            };
            match reason {
                Some(reason) => {
                    self.termination = Some((seen.elapsed, reason));
                    terminate = true;
                },
                None => {},
            }
        }
        let kill = match self.termination {
            Some((since, _)) => seen.elapsed >= since && seen.elapsed - since >= GRACE,
            None => false,
        };
        Signals { terminate, kill }
    }

    /// The outcome of a process that has ended: `code` is its exit code, `signal` the signal that
    /// ended it.
    pub fn outcome(&self, code: Option<i32>, signal: Option<i32>, finished_at: u64) -> (r: Outcome)
        requires
            signal is Some ==> signal->0 <= i32::MAX - 128,
        ensures
            r@ == (OutcomeModel {
                state: final_state(self.termination, code),
                exit_code: final_code(self.termination, code, signal),
                finished_at,
                error: None,
            }),
    {
        let state = match self.termination {
            Some((_, state)) => state,
            None => match code {
                Some(code) => if code == 0 {
                    State::Completed
                } else {
                    State::Failed
                },
                None => State::Failed,
            },
        };
        let exit_code: i32 = match state {
            State::Cancelled => 130,
            State::TimedOut => 124,
            _ => match code {
                Some(code) => code,
                None => match signal {
                    Some(signal) => 128 + signal,
                    None => 128,
                },
            },
        };
        Outcome { state, exit_code, finished_at, error: None }
    }
}

/// The state in which a job ends: the reason for which it was terminated, or else what its exit
/// code says.
pub open spec fn final_state(termination: Option<(u64, State)>, code: Option<i32>) -> State {
    match termination {
        Some((_, state)) => state,
        None => if code == Some(0i32) {
            State::Completed
        } else {
            State::Failed
        },
    }
}

/// The exit code of a job.
pub open spec fn final_code(
    termination: Option<(u64, State)>,
    code: Option<i32>,
    signal: Option<i32>,
) -> i32 {
    match final_state(termination, code) {
        State::Cancelled => 130,
        State::TimedOut => 124,
        _ => match code {
            Some(code) => code,
            None => match signal {
                Some(signal) => (128 + signal) as i32,
                None => 128,
            },
        },
    }
}

// ---- Laws ----

/// Once there is a reason to terminate it stays the same, whatever is seen later; and the process
/// is asked to terminate only once.
pub proof fn first_reason_stands(
    termination: Option<(u64, State)>,
    time_limit: Option<u64>,
    first: Observation,
    second: Observation,
)
    requires
        termination_after(termination, time_limit, first) is Some,
    ensures
        termination_after(
            termination_after(termination, time_limit, first),
            time_limit,
            second,
        ) == termination_after(termination, time_limit, first),
{
}

/// The worker terminates a job as cancelled or timed out, and for no other reason; such a job ends
/// with exit code 130 or 124, however its process ended.
pub proof fn terminated_jobs_have_fixed_codes(
    time_limit: Option<u64>,
    seen: Observation,
    code: Option<i32>,
    signal: Option<i32>,
)
    requires
        termination_after(None, time_limit, seen) is Some,
    ensures
        ({
            let termination = termination_after(None, time_limit, seen);
            ||| final_state(termination, code) == State::Cancelled && final_code(
                termination,
                code,
                signal,
            ) == 130
            ||| final_state(termination, code) == State::TimedOut && final_code(
                termination,
                code,
                signal,
            ) == 124
        }),
{
}

/// A job that was not terminated passes on its exit code, and is completed just when that is zero.
pub proof fn exit_codes_pass_through(code: i32, signal: Option<i32>)
    ensures
        final_code(None, Some(code), signal) == code,
        final_state(None, Some(code)) == State::Completed <==> code == 0,
        final_state(None, Some(code)).is_terminal(),
{
}

proof fn lemma_variable_names()
    ensures
        "USER"@ != "LOGNAME"@,
        "USER"@ != "XLURM_JOB_ID"@,
        "USER"@ != "XLURM_SUBMIT_DIR"@,
        "USER"@ != "CUDA_VISIBLE_DEVICES"@,
        "USER"@ != "ASCEND_RT_VISIBLE_DEVICES"@,
        "USER"@ != "ASCEND_DEVICE_ID"@,
        "LOGNAME"@ != "XLURM_JOB_ID"@,
        "LOGNAME"@ != "XLURM_SUBMIT_DIR"@,
        "LOGNAME"@ != "CUDA_VISIBLE_DEVICES"@,
        "LOGNAME"@ != "ASCEND_RT_VISIBLE_DEVICES"@,
        "LOGNAME"@ != "ASCEND_DEVICE_ID"@,
        "CUDA_VISIBLE_DEVICES"@ != "ASCEND_RT_VISIBLE_DEVICES"@,
        "CUDA_VISIBLE_DEVICES"@ != "ASCEND_DEVICE_ID"@,
        "ASCEND_RT_VISIBLE_DEVICES"@ != "ASCEND_DEVICE_ID"@,
{
    reveal_strlit("USER");
    reveal_strlit("LOGNAME");
    reveal_strlit("XLURM_JOB_ID");
    reveal_strlit("XLURM_SUBMIT_DIR");
    reveal_strlit("CUDA_VISIBLE_DEVICES");
    reveal_strlit("ASCEND_RT_VISIBLE_DEVICES");
    reveal_strlit("ASCEND_DEVICE_ID");
    assert("USER"@.len() == 4 && "LOGNAME"@.len() == 7);
    assert("XLURM_JOB_ID"@.len() == 12 && "XLURM_SUBMIT_DIR"@.len() == 16);
    assert("CUDA_VISIBLE_DEVICES"@.len() == 20 && "ASCEND_RT_VISIBLE_DEVICES"@.len() == 25);
    assert("ASCEND_DEVICE_ID"@.len() == 16);
}

/// The submitted environment cannot forge the user's name or the visible devices: these come from
/// the owner and the allocation, whatever was submitted.
pub proof fn environment_cannot_be_forged(job: JobModel, owner: Seq<char>)
    ensures
        job_environment(job, owner)["USER"@] == owner,
        job_environment(job, owner)["LOGNAME"@] == owner,
        job_environment(job, owner)["CUDA_VISIBLE_DEVICES"@] == visibility(
            job.devices,
            Kind::Nvidia,
        ),
        job_environment(job, owner)["ASCEND_RT_VISIBLE_DEVICES"@] == visibility(
            job.devices,
            Kind::Ascend,
        ),
        job_environment(job, owner).contains_key("ASCEND_DEVICE_ID"@) <==> uses(
            job.devices,
            Kind::Ascend,
        ),
{
    lemma_variable_names();
}

/// The variables that the scheduler sets for a job.
pub open spec fn is_set_by_scheduler(name: Seq<char>) -> bool {
    ||| name == "USER"@
    ||| name == "LOGNAME"@
    ||| name == "XLURM_JOB_ID"@
    ||| name == "XLURM_SUBMIT_DIR"@
    ||| name == "CUDA_VISIBLE_DEVICES"@
    ||| name == "ASCEND_RT_VISIBLE_DEVICES"@
    ||| name == "ASCEND_DEVICE_ID"@
}

/// All else of the submitted environment is kept, and nothing is added to it.
pub proof fn the_submitted_environment_is_kept(job: JobModel, owner: Seq<char>, name: Seq<char>)
    requires
        !is_set_by_scheduler(name),
    ensures
        job_environment(job, owner).contains_key(name) == job.spec.env.contains_key(name),
        job.spec.env.contains_key(name) ==> job_environment(job, owner)[name]
            == job.spec.env[name],
{
}

/// A job without devices sees none of either vendor.
pub proof fn cpu_jobs_see_no_device(job: JobModel, owner: Seq<char>)
    requires
        job.devices.len() == 0,
    ensures
        job_environment(job, owner)["CUDA_VISIBLE_DEVICES"@] == "-1"@,
        job_environment(job, owner)["ASCEND_RT_VISIBLE_DEVICES"@] == "-1"@,
{
    environment_cannot_be_forged(job, owner);
}

proof fn lemma_no_names(devices: Seq<DeviceModel>, kind: Kind)
    requires
        forall|i: int| 0 <= i < devices.len() ==> (#[trigger] devices[i]).kind != kind,
    ensures
        names_of(devices, kind).len() == 0,
    decreases devices.len(),
{
    if devices.len() > 0 {
        assert(devices[devices.len() - 1].kind != kind);
        assert forall|i: int| 0 <= i < devices.drop_last().len() implies (
        #[trigger] devices.drop_last()[i]).kind != kind by {
            assert(devices.drop_last()[i] == devices[i]);
        }
        lemma_no_names(devices.drop_last(), kind);
    }
}

/// A job whose devices are of one vendor sees no device of the other.
pub proof fn other_vendor_stays_hidden(devices: Seq<DeviceModel>, kind: Kind)
    requires
        !uses(devices, kind),
    ensures
        visibility(devices, kind) == "-1"@,
{
    lemma_no_names(devices, kind);
}

/// A job with a time limit is told to terminate as timed out once it has run for so many seconds, to
/// the millisecond, and not before; from then on it is due at every later time.
pub proof fn time_limits_are_kept(limit: u64, elapsed: u64, later: u64)
    requires
        elapsed <= later,
    ensures
        ({
            let seen = Observation { cancelled: false, interrupted: false, elapsed };
            let told = termination_after(None, Some(limit), seen);
            &&& told is Some <==> elapsed >= 1000 * limit
            &&& told is Some ==> told->0 == (elapsed, State::TimedOut)
            &&& told is Some ==> termination_after(
                None,
                Some(limit),
                Observation { elapsed: later, ..seen },
            ) == Some((later, State::TimedOut))
        }),
{
}

/// A job without a time limit runs until it is cancelled; a cancelled or interrupted one is told to
/// terminate at once, as cancelled, whatever its limit.
pub proof fn cancellations_are_heeded_at_once(time_limit: Option<u64>, seen: Observation)
    ensures
        seen.cancelled || seen.interrupted ==> termination_after(None, time_limit, seen) == Some(
            (seen.elapsed, State::Cancelled),
        ),
        !seen.cancelled && !seen.interrupted && time_limit is None ==> termination_after(
            None,
            time_limit,
            seen,
        ) is None,
{
}

/// A process that was told to terminate is killed once it has had a second, and not before; one that
/// was not told is never killed.
pub proof fn a_second_of_grace_is_given(since: u64, reason: State, elapsed: u64)
    ensures
        is_overdue(Some((since, reason)), elapsed) <==> elapsed - since >= 1000,
        !is_overdue(None, elapsed),
{
}

/// A process that a signal ended has failed with 128 and the number of the signal; the reason for
/// which a job was terminated outweighs how its process ended.
pub proof fn signals_are_told_by_the_exit_code(
    code: Option<i32>,
    signal: Option<i32>,
    since: u64,
    reason: State,
)
    requires
        signal is Some ==> 0 < signal->0 <= i32::MAX - 128,
    ensures
        final_state(None, None) == State::Failed,
        signal is Some ==> final_code(None, None, signal) == 128 + signal->0,
        signal is None ==> final_code(None, None, signal) == 128,
        code is Some ==> final_code(None, code, signal) == code->0,
        final_state(None, code) == if code == Some(0i32) {
            State::Completed
        } else {
            State::Failed
        },
        final_state(Some((since, reason)), code) == reason,
        final_state(Some((since, State::Cancelled)), code) == State::Cancelled,
        final_code(Some((since, State::Cancelled)), code, signal) == 130,
        final_state(Some((since, State::TimedOut)), code) == State::TimedOut,
        final_code(Some((since, State::TimedOut)), code, signal) == 124,
{
}

/// A job that could not be run has failed with exit code 1 and says why; one that was cancelled before
/// it ran ends with exit code 130 and no error.
pub proof fn jobs_that_did_not_run_say_why(message: Seq<char>, finished_at: u64)
    ensures
        failed_outcome(message, finished_at).state == State::Failed,
        failed_outcome(message, finished_at).exit_code == 1,
        failed_outcome(message, finished_at).finished_at == finished_at,
        failed_outcome(message, finished_at).error == Some(message),
        cancelled_outcome(finished_at).state == State::Cancelled,
        cancelled_outcome(finished_at).exit_code == 130,
        cancelled_outcome(finished_at).finished_at == finished_at,
        cancelled_outcome(finished_at).error is None,
{
}

/// What a worker wrote before it was gone is the outcome of its job, as it stands; a worker that is
/// gone without a word has failed, at the time at which that was seen.
pub proof fn the_word_of_the_worker_counts(outcome: OutcomeModel, seen_at: u64)
    ensures
        left_behind(Some(outcome), seen_at) == outcome,
        left_behind(None, seen_at).state == State::Failed,
        left_behind(None, seen_at).exit_code == 1,
        left_behind(None, seen_at).finished_at == seen_at,
        left_behind(None, seen_at).error is Some,
{
}

/// A command is run as it was submitted; a script is given to bash as text, under the job's name, and
/// with the arguments of the submission in their order.
pub proof fn jobs_run_what_was_submitted(job: JobModel, i: int)
    ensures
        job.spec.script is None ==> command_line(job) == job.spec.command,
        job.spec.script is Some ==> {
            let line = command_line(job);
            &&& line.len() == job.spec.command.len() + 4
            &&& line[0] == "bash"@ && line[1] == "-c"@
            &&& line[2] == job.spec.script->0
            &&& line[3] == job.spec.name
            &&& 0 <= i < job.spec.command.len() ==> line[i + 4] == job.spec.command[i]
        },
{
}

/// The names that a job sees of a vendor are those of its devices of that vendor, all of them and in
/// their order.
pub proof fn jobs_see_the_devices_that_they_were_given(
    devices: Seq<DeviceModel>,
    kind: Kind,
    of_vendor: Seq<bool>,
) -> (places: Seq<int>)
    requires
        of_vendor.len() == devices.len(),
        forall|i: int| 0 <= i < devices.len() ==> #[trigger] of_vendor[i] == (devices[i].kind == kind),
    ensures
        picks(places, of_vendor),
        names_of(devices, kind).len() == places.len(),
        forall|k: int|
            0 <= k < places.len() ==> #[trigger] names_of(devices, kind)[k]
                == devices[places[k]].visible,
    decreases devices.len(),
{
    if devices.len() == 0 {
        Seq::empty()
    } else {
        let front = devices.drop_last();
        let at = devices.len() - 1;
        assert forall|i: int| 0 <= i < front.len() implies #[trigger] of_vendor.drop_last()[i] == (
        front[i].kind == kind) by {
            assert(of_vendor[i] == of_vendor.drop_last()[i]);
        }
        let places = jobs_see_the_devices_that_they_were_given(front, kind, of_vendor.drop_last());
        lemma_one_more(places, of_vendor);
        assert(of_vendor[at] == of_vendor.last());
        let names = names_of(devices, kind);
        let fewer = names_of(front, kind);
        assert forall|k: int| 0 <= k < places.len() implies #[trigger] names[k]
            == devices[places[k]].visible by {
            assert(fewer[k] == front[places[k]].visible);
        }
        if of_vendor.last() {
            places.push(at)
        } else {
            places
        }
    }
}

/// A job that was given devices of a vendor sees them by their visible names with commas between;
/// a single one by its name alone.
pub proof fn visible_names_are_listed(devices: Seq<DeviceModel>, kind: Kind)
    ensures
        names_of(devices, kind).len() > 0 ==> visibility(devices, kind) == joined(
            names_of(devices, kind),
            seq![','],
        ),
        names_of(devices, kind).len() == 0 ==> visibility(devices, kind) == seq!['-', '1'],
        devices.len() == 1 && devices[0].kind == kind ==> visibility(devices, kind)
            == devices[0].visible,
        devices.len() == 2 && devices[0].kind == kind && devices[1].kind == kind ==> visibility(
            devices,
            kind,
        ) == devices[0].visible + seq![','] + devices[1].visible,
{
    reveal_strlit(",");
    reveal_strlit("-1");
    assert(","@ =~= seq![',']);
    assert("-1"@ =~= seq!['-', '1']);
    reveal_with_fuel(names_of, 3);
    reveal_with_fuel(joined, 3);
    if devices.len() == 2 && devices[0].kind == kind && devices[1].kind == kind {
        let names = names_of(devices, kind);
        assert(names =~= seq![devices[0].visible, devices[1].visible]);
        assert(names.drop_last() =~= seq![devices[0].visible]);
    }
}

/// A job is told its number and the directory that it was submitted from; it is told to take its
/// first Ascend device just when it was given one.
pub proof fn jobs_are_told_who_they_are(job: JobModel, owner: Seq<char>, at: int)
    ensures
        job_environment(job, owner).contains_key("XLURM_JOB_ID"@),
        job_environment(job, owner)["XLURM_JOB_ID"@] == decimal(job.id as nat),
        job_environment(job, owner).contains_key("XLURM_SUBMIT_DIR"@),
        job_environment(job, owner)["XLURM_SUBMIT_DIR"@] == job.spec.cwd,
        job_environment(job, owner).contains_key("USER"@),
        job_environment(job, owner).contains_key("LOGNAME"@),
        job_environment(job, owner).contains_key("CUDA_VISIBLE_DEVICES"@),
        job_environment(job, owner).contains_key("ASCEND_RT_VISIBLE_DEVICES"@),
        0 <= at < job.devices.len() && job.devices[at].kind == Kind::Ascend ==> job_environment(
            job,
            owner,
        ).contains_key("ASCEND_DEVICE_ID"@) && job_environment(job, owner)["ASCEND_DEVICE_ID"@]
            == seq!['0'],
        (forall|i: int| 0 <= i < job.devices.len() ==> (#[trigger] job.devices[i]).kind
            == Kind::Nvidia) ==> !job_environment(job, owner).contains_key("ASCEND_DEVICE_ID"@),
{
    lemma_variable_names();
    reveal_strlit("XLURM_JOB_ID");
    reveal_strlit("XLURM_SUBMIT_DIR");
    reveal_strlit("CUDA_VISIBLE_DEVICES");
    reveal_strlit("ASCEND_RT_VISIBLE_DEVICES");
    reveal_strlit("ASCEND_DEVICE_ID");
    reveal_strlit("0");
    assert("0"@ =~= seq!['0']);
    assert("XLURM_JOB_ID"@.len() == 12 && "XLURM_SUBMIT_DIR"@.len() == 16);
    assert("CUDA_VISIBLE_DEVICES"@.len() == 20 && "ASCEND_RT_VISIBLE_DEVICES"@.len() == 25);
    assert("ASCEND_DEVICE_ID"@.len() == 16);
    assert("XLURM_SUBMIT_DIR"@[0] != "ASCEND_DEVICE_ID"@[0]);
    if 0 <= at < job.devices.len() && job.devices[at].kind == Kind::Ascend {
        assert(uses(job.devices, Kind::Ascend));
    }
}

} // verus!
