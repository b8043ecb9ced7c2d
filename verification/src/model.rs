//! The data that the scheduler keeps and exchanges.
//!
//! Each type has a view: a record of plain values in which texts are sequences of characters.
//! Contracts speak of the views.
use vstd::prelude::*;
use vstd::string::*;

use crate::table::Table;
use crate::text::{copy_strings, optional, strings};

verus! {

/// The vendor of a device.
#[derive(Debug, Clone, Copy, PartialEq, Eq, Structural)]
pub enum Kind {
    Nvidia,
    Ascend,
}

/// The name of a vendor.
pub open spec fn kind_name(kind: Kind) -> Seq<char> {
    match kind {
        Kind::Nvidia => "nvidia"@,
        Kind::Ascend => "ascend"@,
    }
}

impl Kind {
    /// The name of the vendor.
    pub fn name(self) -> (r: &'static str)
        ensures
            r@ == kind_name(self),
    {
        match self {
            Kind::Nvidia => "nvidia",
            Kind::Ascend => "ascend",
        }
    }
}

/// A device that can be given to one job at a time.
#[derive(Debug)]
pub struct Device {
    pub kind: Kind,
    pub id: u32,
    pub name: String,
    /// NVIDIA UUID or Ascend logical ID; never a physical Ascend card ID.
    pub visible: String,
    pub npu: Option<u32>,
    pub chip: Option<u32>,
}

/// The content of a device.
pub struct DeviceModel {
    pub kind: Kind,
    pub id: u32,
    pub name: Seq<char>,
    pub visible: Seq<char>,
    pub npu: Option<u32>,
    pub chip: Option<u32>,
}

impl DeviceModel {
    /// What a device is known by in the whole inventory.
    pub open spec fn key(self) -> Seq<char> {
        kind_name(self.kind) + ":"@ + self.visible
    }
}

impl View for Device {
    type V = DeviceModel;

    open spec fn view(&self) -> DeviceModel {
        DeviceModel {
            kind: self.kind,
            id: self.id,
            name: self.name@,
            visible: self.visible@,
            npu: self.npu,
            chip: self.chip,
        }
    }
}

impl Clone for Device {
    fn clone(&self) -> (r: Self)
        ensures
            r@ == self@,
    {
        Device {
            kind: self.kind,
            id: self.id,
            name: self.name.clone(),
            visible: self.visible.clone(),
            npu: self.npu,
            chip: self.chip,
        }
    }
}

impl Device {
    /// What the device is known by in the whole inventory.
    pub fn key(&self) -> (r: String)
        ensures
            r@ == self@.key(),
    {
        let mut r = self.kind.name().to_owned();
        r.append(":");
        r.append(self.visible.as_str());
        r
    }
}

/// The views of a list of devices.
pub open spec fn device_models(list: Seq<Device>) -> Seq<DeviceModel> {
    Seq::new(list.len(), |i: int| list[i]@)
}

/// A copy of each device.
pub fn copy_devices(list: &Vec<Device>) -> (r: Vec<Device>)
    ensures
        device_models(r@) == device_models(list@),
{
    let mut r: Vec<Device> = Vec::new();
    for i in 0..list.len()
        invariant
            r@.len() == i,
            forall|j: int| 0 <= j < i ==> (#[trigger] r@[j])@ == list@[j]@,
    {
        r.push(list[i].clone());
    }
    assert(device_models(r@) =~= device_models(list@));
    r
}

/// Two devices share a key just when vendor and visible name agree.
pub proof fn device_keys_are_injective(a: DeviceModel, b: DeviceModel)
    ensures
        a.key() == b.key() <==> a.kind == b.kind && a.visible == b.visible,
{
    reveal_strlit("nvidia");
    reveal_strlit("ascend");
    reveal_strlit(":");
    if a.key() == b.key() {
        assert(a.key()[0] == kind_name(a.kind)[0]);
        assert(b.key()[0] == kind_name(b.kind)[0]);
        assert(a.kind == b.kind);
        assert(a.visible =~= a.key().skip(7));
        assert(b.visible =~= b.key().skip(7));
    }
}

/// What a user wants to be run.
#[derive(Debug)]
pub struct Submission {
    pub command: Vec<String>,
    pub cwd: String,
    pub env: Table,
    pub name: String,
    pub count: usize,
    pub kind: Option<Kind>,
    pub time_limit: Option<u64>,
    /// Batch scripts are snapshotted at submission, not read when dequeued.
    pub script: Option<String>,
}

/// The content of a submission.
pub struct SubmissionModel {
    pub command: Seq<Seq<char>>,
    pub cwd: Seq<char>,
    pub env: Map<Seq<char>, Seq<char>>,
    pub name: Seq<char>,
    pub count: usize,
    pub kind: Option<Kind>,
    pub time_limit: Option<u64>,
    pub script: Option<Seq<char>>,
}

impl View for Submission {
    type V = SubmissionModel;

    open spec fn view(&self) -> SubmissionModel {
        SubmissionModel {
            command: strings(self.command@),
            cwd: self.cwd@,
            env: self.env@,
            name: self.name@,
            count: self.count,
            kind: self.kind,
            time_limit: self.time_limit,
            script: optional(self.script),
        }
    }
}

impl Clone for Submission {
    fn clone(&self) -> (r: Self)
        ensures
            r@ == self@,
    {
        Submission {
            command: copy_strings(&self.command),
            cwd: self.cwd.clone(),
            env: self.env.clone(),
            name: self.name.clone(),
            count: self.count,
            kind: self.kind,
            time_limit: self.time_limit,
            script: copy_optional(&self.script),
        }
    }
}

/// A copy of an optional string.
pub fn copy_optional(value: &Option<String>) -> (r: Option<String>)
    ensures
        r == *value,
{
    match value {
        Some(text) => Some(text.clone()),
        None => None,
    }
}

/// The account that submitted a job.
#[derive(Debug)]
pub struct Owner {
    pub uid: u32,
    pub gid: u32,
    pub name: String,
}

/// The content of an owner.
pub struct OwnerModel {
    pub uid: u32,
    pub gid: u32,
    pub name: Seq<char>,
}

impl View for Owner {
    type V = OwnerModel;

    open spec fn view(&self) -> OwnerModel {
        OwnerModel { uid: self.uid, gid: self.gid, name: self.name@ }
    }
}

impl Clone for Owner {
    fn clone(&self) -> (r: Self)
        ensures
            r == *self,
    {
        Owner { uid: self.uid, gid: self.gid, name: self.name.clone() }
    }
}

/// How far a job has come.
#[derive(Debug, Clone, Copy, PartialEq, Eq, Structural)]
pub enum State {
    Pending,
    Running,
    Completed,
    Failed,
    Cancelled,
    TimedOut,
}

impl State {
    /// Whether a job in this state is over.
    pub open spec fn is_terminal(self) -> bool {
        self != State::Pending && self != State::Running
    }

    /// Whether a job in this state is over.
    pub fn terminal(self) -> (r: bool)
        ensures
            r == self.is_terminal(),
    {
        self != State::Pending && self != State::Running
    }
}

/// How a job ended.
#[derive(Debug)]
pub struct Outcome {
    pub state: State,
    pub exit_code: i32,
    pub finished_at: u64,
    pub error: Option<String>,
}

/// The content of an outcome.
pub struct OutcomeModel {
    pub state: State,
    pub exit_code: i32,
    pub finished_at: u64,
    pub error: Option<Seq<char>>,
}

impl View for Outcome {
    type V = OutcomeModel;

    open spec fn view(&self) -> OutcomeModel {
        OutcomeModel {
            state: self.state,
            exit_code: self.exit_code,
            finished_at: self.finished_at,
            error: optional(self.error),
        }
    }
}

impl Clone for Outcome {
    fn clone(&self) -> (r: Self)
        ensures
            r == *self,
    {
        Outcome {
            state: self.state,
            exit_code: self.exit_code,
            finished_at: self.finished_at,
            error: copy_optional(&self.error),
        }
    }
}

/// The view of an optional outcome.
pub open spec fn outcome_model(result: Option<Outcome>) -> Option<OutcomeModel> {
    match result {
        Some(outcome) => Some(outcome@),
        None => None,
    }
}

/// A submission in the queue or in its history.
#[derive(Debug)]
pub struct Job {
    pub id: u64,
    pub owner: Owner,
    pub spec: Submission,
    pub state: State,
    pub devices: Vec<Device>,
    pub submitted_at: u64,
    pub started_at: Option<u64>,
    pub result: Option<Outcome>,
}

/// The content of a job.
pub struct JobModel {
    pub id: u64,
    pub owner: OwnerModel,
    pub spec: SubmissionModel,
    pub state: State,
    pub devices: Seq<DeviceModel>,
    pub submitted_at: u64,
    pub started_at: Option<u64>,
    pub result: Option<OutcomeModel>,
}

impl View for Job {
    type V = JobModel;

    open spec fn view(&self) -> JobModel {
        JobModel {
            id: self.id,
            owner: self.owner@,
            spec: self.spec@,
            state: self.state,
            devices: device_models(self.devices@),
            submitted_at: self.submitted_at,
            started_at: self.started_at,
            result: outcome_model(self.result),
        }
    }
}

impl Clone for Job {
    fn clone(&self) -> (r: Self)
        ensures
            r@ == self@,
    {
        Job {
            id: self.id,
            owner: self.owner.clone(),
            spec: self.spec.clone(),
            state: self.state,
            devices: copy_devices(&self.devices),
            submitted_at: self.submitted_at,
            started_at: self.started_at,
            result: match &self.result {
                Some(outcome) => Some(outcome.clone()),
                None => None,
            },
        }
    }
}

/// The views of a list of jobs.
pub open spec fn job_models(list: Seq<Job>) -> Seq<JobModel> {
    Seq::new(list.len(), |i: int| list[i]@)
}

/// Queue metadata deliberately excludes commands, scripts and environment.
#[derive(Debug)]
pub struct JobSummary {
    pub id: u64,
    pub owner: Owner,
    pub name: String,
    pub state: State,
    pub count: usize,
    /// The vendor that the job asks for.
    pub kind: Option<Kind>,
    pub devices: Vec<Device>,
    pub submitted_at: u64,
    pub started_at: Option<u64>,
    pub finished_at: Option<u64>,
}

/// The content of a summary.
pub struct SummaryModel {
    pub id: u64,
    pub owner: OwnerModel,
    pub name: Seq<char>,
    pub state: State,
    pub count: usize,
    pub kind: Option<Kind>,
    pub devices: Seq<DeviceModel>,
    pub submitted_at: u64,
    pub started_at: Option<u64>,
    pub finished_at: Option<u64>,
}

impl View for JobSummary {
    type V = SummaryModel;

    open spec fn view(&self) -> SummaryModel {
        SummaryModel {
            id: self.id,
            owner: self.owner@,
            name: self.name@,
            state: self.state,
            count: self.count,
            kind: self.kind,
            devices: device_models(self.devices@),
            submitted_at: self.submitted_at,
            started_at: self.started_at,
            finished_at: self.finished_at,
        }
    }
}

impl Clone for JobSummary {
    fn clone(&self) -> (r: Self)
        ensures
            r@ == self@,
    {
        JobSummary {
            id: self.id,
            owner: self.owner.clone(),
            name: self.name.clone(),
            state: self.state,
            count: self.count,
            kind: self.kind,
            devices: copy_devices(&self.devices),
            submitted_at: self.submitted_at,
            started_at: self.started_at,
            finished_at: self.finished_at,
        }
    }
}

/// The views of a list of summaries.
pub open spec fn summary_models(list: Seq<JobSummary>) -> Seq<SummaryModel> {
    Seq::new(list.len(), |i: int| list[i]@)
}

impl JobModel {
    /// What the queue shows of the job.
    pub open spec fn summary(self) -> SummaryModel {
        SummaryModel {
            id: self.id,
            owner: self.owner,
            name: self.spec.name,
            state: self.state,
            count: self.spec.count,
            kind: self.spec.kind,
            devices: self.devices,
            submitted_at: self.submitted_at,
            started_at: self.started_at,
            finished_at: match self.result {
                Some(outcome) => Some(outcome.finished_at),
                None => None,
            },
        }
    }

    /// The job with other private parts: command, script, environment and directory.
    pub open spec fn with_private_parts(
        self,
        command: Seq<Seq<char>>,
        script: Option<Seq<char>>,
        env: Map<Seq<char>, Seq<char>>,
        cwd: Seq<char>,
    ) -> JobModel {
        JobModel { spec: SubmissionModel { command, script, env, cwd, ..self.spec }, ..self }
    }
}

impl JobSummary {
    /// What the queue shows of a job.
    pub fn of(job: &Job) -> (r: Self)
        ensures
            r@ == job@.summary(),
    {
        JobSummary {
            id: job.id,
            owner: job.owner.clone(),
            name: job.spec.name.clone(),
            state: job.state,
            count: job.spec.count,
            kind: job.spec.kind,
            devices: copy_devices(&job.devices),
            submitted_at: job.submitted_at,
            started_at: job.started_at,
            finished_at: match &job.result {
                Some(outcome) => Some(outcome.finished_at),
                None => None,
            },
        }
    }
}

/// The queue never shows a command, a script, an environment or a directory: a summary stays the
/// same whatever these are.
pub proof fn summaries_hide_private_parts(
    job: JobModel,
    command: Seq<Seq<char>>,
    script: Option<Seq<char>>,
    env: Map<Seq<char>, Seq<char>>,
    cwd: Seq<char>,
)
    ensures
        job.with_private_parts(command, script, env, cwd).summary() == job.summary(),
{
}

/// The jobs in the order of their submission, and the last number that was given.
#[derive(Debug)]
pub struct Store {
    pub next_id: u64,
    pub jobs: Vec<Job>,
}

/// The content of a store.
pub struct StoreModel {
    pub next_id: u64,
    pub jobs: Seq<JobModel>,
}

impl View for Store {
    type V = StoreModel;

    open spec fn view(&self) -> StoreModel {
        StoreModel { next_id: self.next_id, jobs: job_models(self.jobs@) }
    }
}

impl Default for Store {
    fn default() -> (r: Self)
        ensures
            r@ == (StoreModel { next_id: 0, jobs: Seq::empty() }),
    {
        let r = Store { next_id: 0, jobs: Vec::new() };
        assert(r@.jobs =~= Seq::empty());
        r
    }
}

/// What a client asks of the scheduler.
#[derive(Debug)]
pub enum Request {
    Submit(Submission),
    Queue,
    Get(u64),
    Cancel(u64),
    Log { id: u64, offset: u64 },
    Info,
    Stop,
    Restart,
}

/// What is told of a device.
#[derive(Debug)]
pub struct DeviceView {
    pub device: Device,
    pub job: Option<u64>,
    /// idle, busy (outside xlurm), unknown (probe failed), or allocated.
    pub status: String,
}

/// The content of what is told of a device.
pub struct DeviceViewModel {
    pub device: DeviceModel,
    pub job: Option<u64>,
    pub status: Seq<char>,
}

impl View for DeviceView {
    type V = DeviceViewModel;

    open spec fn view(&self) -> DeviceViewModel {
        DeviceViewModel { device: self.device@, job: self.job, status: self.status@ }
    }
}

/// The views of a list of device views.
pub open spec fn device_view_models(list: Seq<DeviceView>) -> Seq<DeviceViewModel> {
    Seq::new(list.len(), |i: int| list[i]@)
}

/// What the scheduler answers.
#[derive(Debug)]
pub enum Response {
    Job(Box<Job>),
    Queue(Vec<JobSummary>),
    Log { bytes: Vec<u8>, offset: u64 },
    Info(Vec<DeviceView>),
    Accepted,
    Error(String),
}

/// The content of an answer.
pub enum ResponseModel {
    Job(JobModel),
    Queue(Seq<SummaryModel>),
    Log { bytes: Seq<u8>, offset: u64 },
    Info(Seq<DeviceViewModel>),
    Accepted,
    Error(Seq<char>),
}

impl View for Response {
    type V = ResponseModel;

    open spec fn view(&self) -> ResponseModel {
        match *self {
            Response::Job(job) => ResponseModel::Job(job@),
            Response::Queue(jobs) => ResponseModel::Queue(summary_models(jobs@)),
            Response::Log { bytes, offset } => ResponseModel::Log { bytes: bytes@, offset },
            Response::Info(devices) => ResponseModel::Info(device_view_models(devices@)),
            Response::Accepted => ResponseModel::Accepted,
            Response::Error(text) => ResponseModel::Error(text@),
        }
    }
}

/// The seconds since the Unix epoch, as `SystemTime::now` tells them; zero for a clock that is set
/// before the epoch. Nothing is stated of the result: it is whatever the clock says.
#[verifier::external_body]
pub fn now() -> u64 {
    std::time::SystemTime::now()
        .duration_since(std::time::UNIX_EPOCH)
        .unwrap_or_default()
        .as_secs()
}

/// Asking the clock gave this time.
pub open spec fn clock_gave(seconds: u64) -> bool {
    call_ensures(now, (), seconds)
}

/// A job is over just when it has completed, failed, been cancelled or run out of time.
pub proof fn four_states_are_final(state: State)
    ensures
        state.is_terminal() <==> state == State::Completed || state == State::Failed || state
            == State::Cancelled || state == State::TimedOut,
{
}

/// A device is known by its vendor in small letters, a colon and its visible name.
pub proof fn keys_name_vendor_and_device(device: DeviceModel)
    ensures
        device.key().len() == 7 + device.visible.len(),
        device.key().skip(7) == device.visible,
        device.kind == Kind::Nvidia ==> device.key().take(7) == seq![
            'n',
            'v',
            'i',
            'd',
            'i',
            'a',
            ':',
        ],
        device.kind == Kind::Ascend ==> device.key().take(7) == seq![
            'a',
            's',
            'c',
            'e',
            'n',
            'd',
            ':',
        ],
{
    reveal_strlit("nvidia");
    reveal_strlit("ascend");
    reveal_strlit(":");
    assert(device.key().skip(7) =~= device.visible);
    if device.kind == Kind::Nvidia {
        assert(device.key().take(7) =~= seq!['n', 'v', 'i', 'd', 'i', 'a', ':']);
    } else {
        assert(device.key().take(7) =~= seq!['a', 's', 'c', 'e', 'n', 'd', ':']);
    }
}

/// The queue shows of each job its number, owner, name, state, what it asks for and was given, and
/// its times; the end of the job is that of its outcome.
pub proof fn summaries_tell_the_public_parts(job: JobModel)
    ensures
        ({
            let shown = job.summary();
            &&& shown.id == job.id && shown.owner == job.owner && shown.name == job.spec.name
            &&& shown.state == job.state && shown.count == job.spec.count
            &&& shown.kind == job.spec.kind && shown.devices == job.devices
            &&& shown.submitted_at == job.submitted_at && shown.started_at == job.started_at
            &&& shown.finished_at is Some == job.result is Some
            &&& job.result is Some ==> shown.finished_at->0 == job.result->0.finished_at
        }),
{
}

/// The view of a device, of a submission and of an outcome holds all their parts.
pub proof fn views_of_parts_are_faithful(
    device: Device,
    spec: Submission,
    owner: Owner,
    outcome: Outcome,
    i: int,
)
    ensures
        device@.kind == device.kind && device@.id == device.id && device@.npu == device.npu,
        device@.chip == device.chip && device@.name == device.name@,
        device@.visible == device.visible@,
        spec@.cwd == spec.cwd@ && spec@.env == spec.env@ && spec@.name == spec.name@,
        spec@.count == spec.count && spec@.kind == spec.kind && spec@.time_limit == spec.time_limit,
        spec@.command.len() == spec.command@.len(),
        0 <= i < spec.command@.len() ==> spec@.command[i] == spec.command@[i]@,
        spec@.script is Some == spec.script is Some,
        spec.script is Some ==> spec@.script->0 == spec.script->0@,
        owner@.uid == owner.uid && owner@.gid == owner.gid && owner@.name == owner.name@,
        outcome@.state == outcome.state && outcome@.exit_code == outcome.exit_code,
        outcome@.finished_at == outcome.finished_at,
        outcome@.error is Some == outcome.error is Some,
        outcome.error is Some ==> outcome@.error->0 == outcome.error->0@,
{
}

/// The view of a job and of a store holds all their parts.
pub proof fn views_of_jobs_are_faithful(job: Job, store: Store, i: int)
    ensures
        job@.id == job.id && job@.owner == job.owner@ && job@.spec == job.spec@,
        job@.state == job.state && job@.submitted_at == job.submitted_at,
        job@.started_at == job.started_at,
        job@.devices.len() == job.devices@.len(),
        0 <= i < job.devices@.len() ==> job@.devices[i] == job.devices@[i]@,
        job@.result is Some == job.result is Some,
        job.result is Some ==> job@.result->0 == job.result->0@,
        store@.next_id == store.next_id,
        store@.jobs.len() == store.jobs@.len(),
        0 <= i < store.jobs@.len() ==> store@.jobs[i] == store.jobs@[i]@,
{
}

/// The view of a summary and of what is told of a device holds all their parts.
pub proof fn views_of_what_is_told_are_faithful(job: JobSummary, view: DeviceView, i: int)
    ensures
        job@.id == job.id && job@.owner == job.owner@ && job@.name == job.name@,
        job@.state == job.state && job@.count == job.count && job@.kind == job.kind,
        job@.devices.len() == job.devices@.len(),
        0 <= i < job.devices@.len() ==> job@.devices[i] == job.devices@[i]@,
        job@.submitted_at == job.submitted_at && job@.started_at == job.started_at,
        job@.finished_at == job.finished_at,
        view@.device == view.device@ && view@.job == view.job && view@.status == view.status@,
{
}

/// The views of lists hold all their items in their order, and the view of an answer holds what it
/// hands out.
pub proof fn views_of_answers_are_faithful(
    jobs: Seq<JobSummary>,
    views: Seq<DeviceView>,
    response: Response,
    i: int,
)
    ensures
        summary_models(jobs).len() == jobs.len(),
        0 <= i < jobs.len() ==> summary_models(jobs)[i] == jobs[i]@,
        device_view_models(views).len() == views.len(),
        0 <= i < views.len() ==> device_view_models(views)[i] == views[i]@,
        match response {
            Response::Job(job) => response@ == ResponseModel::Job(job@),
            Response::Queue(list) => response@ == ResponseModel::Queue(summary_models(list@)),
            Response::Log { bytes, offset } => response@ == (ResponseModel::Log {
                bytes: bytes@,
                offset,
            }),
            Response::Info(list) => response@ == ResponseModel::Info(device_view_models(list@)),
            Response::Accepted => response@ == ResponseModel::Accepted,
            Response::Error(text) => response@ == ResponseModel::Error(text@),
        },
{
}

} // verus!
