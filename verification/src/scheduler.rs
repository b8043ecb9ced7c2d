//! The queue and the allocation of devices.
//!
//! The scheduler decides; its caller saves the store where it is told to, before it goes on.
use vstd::prelude::*;
use vstd::string::*;

use crate::device::{distinct_keys, Inventory};
use crate::error::{Error, ErrorModel};
use crate::executor::{cancel_gave, cancellation_at, cancelled_outcome, Executor};
use crate::model::{
    clock_gave, device_models, device_view_models, job_models, now, Device, DeviceModel, DeviceView,
    DeviceViewModel, Job, JobModel, Kind, Outcome, OutcomeModel, Owner, OwnerModel, State, Store,
    StoreModel, Submission, SubmissionModel,
};
use crate::places::{lemma_most_places, lemma_one_more, picked, picks};
use crate::table::Keys;
use crate::text::strings;

verus! {

// ---- Allocation ----

/// The devices of a vendor that are not reserved, in the order of the inventory.
pub open spec fn available(
    devices: Seq<DeviceModel>,
    kind: Kind,
    reserved: Set<Seq<char>>,
) -> Seq<DeviceModel>
    decreases devices.len(),
{
    if devices.len() == 0 {
        Seq::empty()
    } else {
        let front = available(devices.drop_last(), kind, reserved);
        let last = devices.last();
        if last.kind == kind && !reserved.contains(last.key()) {
            front.push(last)
        } else {
            front
        }
    }
}

/// Whether the vendor may serve the request, and has enough free devices.
pub open spec fn serves(
    kind: Kind,
    spec: SubmissionModel,
    devices: Seq<DeviceModel>,
    reserved: Set<Seq<char>>,
) -> bool {
    &&& spec.kind is None || spec.kind == Some(kind)
    &&& available(devices, kind, reserved).len() >= spec.count
}

/// The devices that a submission is given: the first free ones of the first vendor that has
/// enough of them, NVIDIA before Ascend.
pub open spec fn allocation(
    spec: SubmissionModel,
    devices: Seq<DeviceModel>,
    reserved: Set<Seq<char>>,
) -> Option<Seq<DeviceModel>> {
    if spec.count == 0 {
        Some(Seq::empty())
    } else if serves(Kind::Nvidia, spec, devices, reserved) {
        Some(available(devices, Kind::Nvidia, reserved).take(spec.count as int))
    } else if serves(Kind::Ascend, spec, devices, reserved) {
        Some(available(devices, Kind::Ascend, reserved).take(spec.count as int))
    } else {
        None
    }
}

/// What is available in a part of the inventory comes first in the whole.
proof fn lemma_available_prefix(
    devices: Seq<DeviceModel>,
    kind: Kind,
    reserved: Set<Seq<char>>,
    n: int,
)
    requires
        0 <= n <= devices.len(),
    ensures
        available(devices.take(n), kind, reserved).len() <= available(
            devices,
            kind,
            reserved,
        ).len(),
        available(devices, kind, reserved).take(
            available(devices.take(n), kind, reserved).len() as int,
        ) == available(devices.take(n), kind, reserved),
    decreases devices.len() - n,
{
    let whole = available(devices, kind, reserved);
    let some = available(devices.take(n), kind, reserved);
    if n < devices.len() {
        let more = available(devices.take(n + 1), kind, reserved);
        assert(devices.take(n + 1).drop_last() =~= devices.take(n));
        lemma_available_prefix(devices, kind, reserved, n + 1);
        assert(more.take(some.len() as int) =~= some);
        assert(whole.take(some.len() as int) =~= whole.take(more.len() as int).take(
            some.len() as int,
        ));
    } else {
        assert(devices.take(n) =~= devices);
        assert(whole.take(whole.len() as int) =~= whole);
    }
}

/// The first `count` free devices of a vendor, or all of them if there are fewer.
fn select(devices: &Vec<Device>, kind: Kind, reserved: &Keys, count: usize) -> (r: Vec<Device>)
    ensures
        ({
            let all = available(device_models(devices@), kind, reserved@);
            device_models(r@) == all.take(if all.len() < count { all.len() as int } else { count as int })
        }),
{
    let mut r: Vec<Device> = Vec::new();
    let ghost all = device_models(devices@);
    assert(device_models(r@) =~= available(all.take(0), kind, reserved@));
    let mut i: usize = 0;
    while i < devices.len() && r.len() < count
        invariant
            i <= devices.len(),
            r.len() <= count,
            all == device_models(devices@),
            device_models(r@) == available(all.take(i as int), kind, reserved@),
        decreases devices.len() - i,
    {
        let ghost before = device_models(r@);
        assert(all.take(i + 1).drop_last() =~= all.take(i as int));
        assert(all.take(i + 1).last() == devices@[i as int]@);
        if devices[i].kind == kind && !reserved.contains(&devices[i].key()) {
            r.push(devices[i].clone());
            assert(device_models(r@) =~= before.push(devices@[i as int]@));
        }
        i = i + 1;
    }
    proof {
        assert(device_models(r@).len() == r@.len());
        lemma_available_prefix(all, kind, reserved@, i as int);
        if i == devices.len() {
            assert(all.take(i as int) =~= all);
        }
    }
    r
}

/// The content of an optional list of devices.
pub open spec fn optional_models(list: Option<Vec<Device>>) -> Option<Seq<DeviceModel>> {
    match list {
        Some(list) => Some(device_models(list@)),
        None => None,
    }
}

/// The devices that a submission is given.
pub fn allocate(spec: &Submission, devices: &Vec<Device>, reserved: &Keys) -> (r: Option<
    Vec<Device>,
>)
    ensures
        optional_models(r) == allocation(spec@, device_models(devices@), reserved@),
{
    if spec.count == 0 {
        let none: Vec<Device> = Vec::new();
        assert(device_models(none@) =~= Seq::empty());
        return Some(none);
    }
    if spec.kind.is_none() || spec.kind == Some(Kind::Nvidia) {
        let selected = select(devices, Kind::Nvidia, reserved, spec.count);
        assert(device_models(selected@).len() == selected@.len());
        if selected.len() == spec.count {
            return Some(selected);
        }
    }
    if spec.kind.is_none() || spec.kind == Some(Kind::Ascend) {
        let selected = select(devices, Kind::Ascend, reserved, spec.count);
        assert(device_models(selected@).len() == selected@.len());
        if selected.len() == spec.count {
            return Some(selected);
        }
    }
    None
}

/// The device is in the inventory.
pub open spec fn listed(devices: Seq<DeviceModel>, device: DeviceModel) -> bool {
    exists|i: int| 0 <= i < devices.len() && #[trigger] devices[i] == device
}

/// What is available is of the vendor and not reserved, and comes from the inventory.
pub(crate) proof fn lemma_available(devices: Seq<DeviceModel>, kind: Kind, reserved: Set<Seq<char>>)
    ensures
        forall|i: int|
            #![trigger available(devices, kind, reserved)[i]]
            0 <= i < available(devices, kind, reserved).len() ==> {
                let device = available(devices, kind, reserved)[i];
                &&& listed(devices, device)
                &&& device.kind == kind
                &&& !reserved.contains(device.key())
            },
        distinct_keys(devices) ==> distinct_keys(available(devices, kind, reserved)),
    decreases devices.len(),
{
    let all = available(devices, kind, reserved);
    if devices.len() > 0 {
        let front = available(devices.drop_last(), kind, reserved);
        let last = devices.last();
        lemma_available(devices.drop_last(), kind, reserved);
        assert forall|i: int| 0 <= i < all.len() implies listed(devices, #[trigger] all[i]) by {
            if i < front.len() {
                let device = front[i];
                assert(listed(devices.drop_last(), device));
                let j = choose|j: int|
                    0 <= j < devices.drop_last().len() && #[trigger] devices.drop_last()[j]
                        == device;
                assert(devices[j] == device);
            } else {
                assert(devices[devices.len() - 1] == all[i]);
            }
        }
        if distinct_keys(devices) {
            assert(distinct_keys(devices.drop_last())) by {
                assert forall|i: int, j: int| 0 <= i < j < devices.drop_last().len() implies (
                #[trigger] devices.drop_last()[i]).key() != (
                #[trigger] devices.drop_last()[j]).key() by {
                    assert(devices[i].key() != devices[j].key());
                }
            }
            assert forall|i: int, j: int| 0 <= i < j < all.len() implies (
            #[trigger] all[i]).key() != (#[trigger] all[j]).key() by {
                assert(all[i] == front[i]);
                if j < front.len() {
                    assert(all[j] == front[j]);
                } else {
                    assert(listed(devices.drop_last(), front[i]));
                    let k = choose|k: int|
                        0 <= k < devices.drop_last().len() && #[trigger] devices.drop_last()[k]
                            == front[i];
                    assert(devices[k].key() != devices[devices.len() - 1].key());
                }
            }
        }
    }
}

/// All devices of an allocation come from one vendor.
pub open spec fn one_vendor(devices: Seq<DeviceModel>) -> bool {
    forall|i: int, j: int|
        0 <= i < devices.len() && 0 <= j < devices.len() ==> (#[trigger] devices[i]).kind == (
        #[trigger] devices[j]).kind
}

/// What is given to a submission is as many devices as it asks for, all of the inventory, of one
/// vendor and of the wanted one, none of them reserved and none of them twice.
pub proof fn allocations_are_exclusive_and_of_one_vendor(
    spec: SubmissionModel,
    devices: Seq<DeviceModel>,
    reserved: Set<Seq<char>>,
)
    requires
        distinct_keys(devices),
        allocation(spec, devices, reserved) is Some,
    ensures
        ({
            let given = allocation(spec, devices, reserved)->0;
            &&& given.len() == spec.count
            &&& one_vendor(given)
            &&& distinct_keys(given)
            &&& forall|i: int|
                #![trigger given[i]]
                0 <= i < given.len() ==> {
                    &&& listed(devices, given[i])
                    &&& !reserved.contains(given[i].key())
                    &&& spec.kind is Some ==> spec.kind == Some(given[i].kind)
                }
        }),
{
    lemma_available(devices, Kind::Nvidia, reserved);
    lemma_available(devices, Kind::Ascend, reserved);
    let given = allocation(spec, devices, reserved)->0;
    if spec.count > 0 {
        let kind = if serves(Kind::Nvidia, spec, devices, reserved) {
            Kind::Nvidia
        } else {
            Kind::Ascend
        };
        let all = available(devices, kind, reserved);
        assert forall|i: int| 0 <= i < given.len() implies given[i] == #[trigger] all[i] by {}
        assert(distinct_keys(given)) by {
            assert forall|i: int, j: int| 0 <= i < j < given.len() implies (
            #[trigger] given[i]).key() != (#[trigger] given[j]).key() by {
                assert(all[i].key() != all[j].key());
            }
        }
    }
}

/// A submission that fits the free devices also fits the same devices with fewer of them reserved.
pub proof fn releasing_devices_never_hurts(
    spec: SubmissionModel,
    devices: Seq<DeviceModel>,
    reserved: Set<Seq<char>>,
    fewer: Set<Seq<char>>,
)
    requires
        fewer.subset_of(reserved),
        allocation(spec, devices, reserved) is Some,
    ensures
        allocation(spec, devices, fewer) is Some,
{
    lemma_available_grows(devices, Kind::Nvidia, reserved, fewer);
    lemma_available_grows(devices, Kind::Ascend, reserved, fewer);
}

proof fn lemma_available_grows(
    devices: Seq<DeviceModel>,
    kind: Kind,
    reserved: Set<Seq<char>>,
    fewer: Set<Seq<char>>,
)
    requires
        fewer.subset_of(reserved),
    ensures
        available(devices, kind, reserved).len() <= available(devices, kind, fewer).len(),
    decreases devices.len(),
{
    if devices.len() > 0 {
        lemma_available_grows(devices.drop_last(), kind, reserved, fewer);
    }
}

// ---- The scheduler ----

/// Jobs, devices, what runs the jobs, and how many may run at once.
pub struct Scheduler<E> {
    pub store: Store,
    pub inventory: Inventory,
    pub executor: E,
    pub max_running: usize,
}

/// Why a submission is refused, the first reason that applies.
pub open spec fn refusal(
    spec: SubmissionModel,
    directory_exists: bool,
    devices: Seq<DeviceModel>,
    next_id: u64,
) -> Option<ErrorModel> {
    if spec.script is None && spec.command.len() == 0 {
        Some(ErrorModel::EmptyCommand)
    } else if !directory_exists {
        Some(ErrorModel::MissingDirectory)
    } else if spec.time_limit == Some(0u64) {
        Some(ErrorModel::ZeroTimeLimit)
    } else if allocation(spec, devices, Set::empty()) is None {
        Some(ErrorModel::NotEnoughDevices { count: spec.count })
    } else if next_id == u64::MAX {
        Some(ErrorModel::JobIdsExhausted)
    } else {
        None
    }
}

/// A job that was just submitted.
pub open spec fn new_job(
    id: u64,
    spec: SubmissionModel,
    owner: OwnerModel,
    submitted_at: u64,
) -> JobModel {
    JobModel {
        id,
        owner,
        spec,
        state: State::Pending,
        devices: Seq::empty(),
        submitted_at,
        started_at: None,
        result: None,
    }
}

impl StoreModel {
    /// The store with a new job at the end.
    pub open spec fn with(self, job: JobModel) -> StoreModel {
        StoreModel { next_id: job.id, jobs: self.jobs.push(job) }
    }

    /// The store with one job changed.
    pub open spec fn changed(self, index: int, job: JobModel) -> StoreModel {
        StoreModel { next_id: self.next_id, jobs: self.jobs.update(index, job) }
    }
}

/// Where the job with this number stands, searching from `from`; the length of the list if it
/// stands nowhere.
pub open spec fn place_from(jobs: Seq<JobModel>, id: u64, from: int) -> int
    decreases jobs.len() - from,
{
    if from < 0 || from >= jobs.len() {
        jobs.len() as int
    } else if jobs[from].id == id {
        from
    } else {
        place_from(jobs, id, from + 1)
    }
}

/// Where the job with this number stands; the length of the list if it stands nowhere.
pub open spec fn place(jobs: Seq<JobModel>, id: u64) -> int {
    place_from(jobs, id, 0)
}

/// The place of a job is the first one that carries its number.
pub(crate) proof fn lemma_place(jobs: Seq<JobModel>, id: u64, from: int)
    requires
        0 <= from <= jobs.len(),
    ensures
        from <= place_from(jobs, id, from) <= jobs.len(),
        place_from(jobs, id, from) < jobs.len() ==> jobs[place_from(jobs, id, from)].id == id,
        forall|i: int|
            from <= i < place_from(jobs, id, from) ==> (#[trigger] jobs[i]).id != id,
    decreases jobs.len() - from,
{
    if from < jobs.len() && jobs[from].id != id {
        lemma_place(jobs, id, from + 1);
    }
}

/// What cancelling asks for.
#[derive(Debug, Clone, Copy, PartialEq, Eq, Structural)]
pub enum Cancellation {
    /// The job was pending and is now cancelled; the store is to be saved.
    Recorded,
    /// The job is running; what runs it is to be told.
    Signal,
    /// The job is over already.
    Nothing,
}

impl<E: Executor> Scheduler<E> {
    /// Cancelling the job led to the state, and gave this.
    pub open spec fn cancelling(self, id: u64, after: Self, r: Result<bool, Error>) -> bool {
        let jobs = self.store@.jobs;
        let at = place(jobs, id);
        &&& after.inventory == self.inventory
        &&& after.max_running == self.max_running
        &&& if at == jobs.len() {
            &&& r is Err
            &&& r->Err_0@ == ErrorModel::JobNotFound
            &&& after == self
        } else if jobs[at].state == State::Pending {
            &&& r == Ok::<bool, Error>(true)
            &&& after.executor == self.executor
            &&& exists|finished_at: u64|
                #[trigger] clock_gave(finished_at) && after.store@ == self.store@.changed(
                    at,
                    settled(jobs[at], cancelled_outcome(finished_at)),
                )
        } else if jobs[at].state == State::Running {
            &&& after.store == self.store
            &&& exists|answer: Result<(), Error>|
                #[trigger] cancel_gave(self.executor, id, answer) && r == passed_on(answer)
        } else {
            r == Ok::<bool, Error>(false) && after == self
        }
    }
}

/// What cancelling a running job gives: nothing is to be saved, and a failure is passed on.
pub open spec fn passed_on(answer: Result<(), Error>) -> Result<bool, Error> {
    match answer {
        Ok(_) => Ok(false),
        Err(error) => Err(error),
    }
}

/// What a job becomes that ends with the given outcome.
pub open spec fn settled(job: JobModel, outcome: OutcomeModel) -> JobModel {
    JobModel { state: outcome.state, result: Some(outcome), ..job }
}

impl<E: Executor> Scheduler<E> {
    /// A scheduler over a store that was loaded or is empty.
    pub fn new(store: Store, inventory: Inventory, executor: E, max_running: usize) -> (r: Result<
        Self,
        Error,
    >)
        ensures
            match r {
                Ok(scheduler) => max_running > 0 && scheduler == (Scheduler {
                    store,
                    inventory,
                    executor,
                    max_running,
                }),
                Err(error) => max_running == 0 && error@ == ErrorModel::ZeroMaxRunning,
            },
    {
        if max_running == 0 {
            return Err(Error::ZeroMaxRunning);
        }
        Ok(Scheduler { store, inventory, executor, max_running })
    }

    /// Puts a submission into the queue at a given time. The caller saves the store, and hands what
    /// came of that to `submitted`.
    pub fn submit_at(
        &mut self,
        spec: Submission,
        owner: Owner,
        directory_exists: bool,
        submitted_at: u64,
    ) -> (r: Result<Job, Error>)
        ensures
            match refusal(
                spec@,
                directory_exists,
                device_models(old(self).inventory.devices@),
                old(self).store.next_id,
            ) {
                Some(error) => r is Err && r->Err_0@ == error && *final(self) == *old(self),
                None => {
                    let job = new_job(
                        (old(self).store.next_id + 1) as u64,
                        spec@,
                        owner@,
                        submitted_at,
                    );
                    &&& r is Ok
                    &&& r->Ok_0@ == job
                    &&& final(self).store@ == old(self).store@.with(job)
                },
            },
            final(self).inventory == old(self).inventory,
            final(self).executor == old(self).executor,
            final(self).max_running == old(self).max_running,
    {
        assert(strings(spec.command@).len() == spec.command@.len());
        if spec.script.is_none() && spec.command.len() == 0 {
            return Err(Error::EmptyCommand);
        }
        if !directory_exists {
            return Err(Error::MissingDirectory);
        }
        if spec.time_limit == Some(0u64) {
            return Err(Error::ZeroTimeLimit);
        }
        if allocate(&spec, &self.inventory.devices, &Keys::new()).is_none() {
            return Err(Error::NotEnoughDevices { count: spec.count });
        }
        if self.store.next_id == u64::MAX {
            return Err(Error::JobIdsExhausted);
        }
        let id: u64 = self.store.next_id + 1;
        let job = Job {
            id,
            owner,
            spec,
            state: State::Pending,
            devices: Vec::new(),
            submitted_at,
            started_at: None,
            result: None,
        };
        assert(job@.devices =~= Seq::empty());
        self.store.next_id = id;
        self.store.jobs.push(job.clone());
        assert(self.store@.jobs =~= old(self).store@.jobs.push(job@));
        Ok(job)
    }

    /// Puts a submission into the queue now.
    pub fn submit(&mut self, spec: Submission, owner: Owner, directory_exists: bool) -> (r: Result<
        Job,
        Error,
    >)
        ensures
            match refusal(
                spec@,
                directory_exists,
                device_models(old(self).inventory.devices@),
                old(self).store.next_id,
            ) {
                Some(error) => r is Err && r->Err_0@ == error && *final(self) == *old(self),
                None => {
                    &&& r is Ok
                    &&& r->Ok_0@ == new_job(
                        (old(self).store.next_id + 1) as u64,
                        spec@,
                        owner@,
                        r->Ok_0.submitted_at,
                    )
                    &&& clock_gave(r->Ok_0.submitted_at)
                    &&& final(self).store@ == old(self).store@.with(r->Ok_0@)
                },
            },
            final(self).inventory == old(self).inventory,
            final(self).executor == old(self).executor,
            final(self).max_running == old(self).max_running,
    {
        self.submit_at(spec, owner, directory_exists, now())
    }

    /// Takes the last job back out of the queue. Its number is not given again.
    pub fn withdraw(&mut self)
        ensures
            final(self).store@ == (StoreModel {
                jobs: if old(self).store@.jobs.len() == 0 {
                    old(self).store@.jobs
                } else {
                    old(self).store@.jobs.drop_last()
                },
                ..old(self).store@
            }),
            final(self).inventory == old(self).inventory,
            final(self).executor == old(self).executor,
            final(self).max_running == old(self).max_running,
    {
        let _last = self.store.jobs.pop();
        proof {
            let before = old(self).store@.jobs;
            if before.len() == 0 {
                assert(self.store@.jobs =~= before);
            } else {
                assert(self.store@.jobs =~= before.drop_last());
            }
        }
    }

    /// The answer to a submission that was just put into the queue, by what came of saving the
    /// store. A job that could not be saved is taken back; its number is not given again.
    pub fn submitted(&mut self, job: Job, saved: Result<(), Error>) -> (r: Result<Job, Error>)
        ensures
            match saved {
                Ok(_) => r == Ok::<Job, Error>(job) && *final(self) == *old(self),
                Err(error) => {
                    &&& r == Err::<Job, Error>(error)
                    &&& final(self).store@ == (StoreModel {
                        jobs: if old(self).store@.jobs.len() == 0 {
                            old(self).store@.jobs
                        } else {
                            old(self).store@.jobs.drop_last()
                        },
                        ..old(self).store@
                    })
                },
            },
            final(self).inventory == old(self).inventory,
            final(self).executor == old(self).executor,
            final(self).max_running == old(self).max_running,
    {
        match saved {
            Ok(_) => Ok(job),
            Err(error) => {
                self.withdraw();
                Err(error)
            },
        }
    }

    /// Where the job with this number stands, if anywhere.
    fn position(&self, id: u64) -> (r: Option<usize>)
        ensures
            match r {
                Some(i) => i == place(self.store@.jobs, id) && i < self.store@.jobs.len(),
                None => place(self.store@.jobs, id) == self.store@.jobs.len(),
            },
    {
        let ghost jobs = self.store@.jobs;
        for i in 0..self.store.jobs.len()
            invariant
                jobs == self.store@.jobs,
                place(jobs, id) == place_from(jobs, id, i as int),
        {
            assert(jobs[i as int].id == self.store.jobs@[i as int].id);
            if self.store.jobs[i].id == id {
                return Some(i);
            }
        }
        None
    }

    /// The first job with this number.
    pub fn get(&self, id: u64) -> (r: Result<Job, Error>)
        ensures
            match r {
                Ok(job) => place(self.store@.jobs, id) < self.store@.jobs.len() && job@
                    == self.store@.jobs[place(self.store@.jobs, id)],
                Err(error) => place(self.store@.jobs, id) == self.store@.jobs.len() && error@
                    == ErrorModel::JobNotFound,
            },
    {
        match self.position(id) {
            Some(i) => Ok(self.store.jobs[i].clone()),
            None => Err(Error::JobNotFound),
        }
    }

    /// Ends the job at a place.
    pub fn settle(&mut self, index: usize, outcome: Outcome)
        requires
            index < old(self).store.jobs.len(),
        ensures
            final(self).store@ == old(self).store@.changed(
                index as int,
                settled(old(self).store@.jobs[index as int], outcome@),
            ),
            final(self).inventory == old(self).inventory,
            final(self).executor == old(self).executor,
            final(self).max_running == old(self).max_running,
    {
        let job = &mut self.store.jobs[index];
        job.state = outcome.state;
        job.result = Some(outcome);
        assert(self.store@.jobs =~= old(self).store@.jobs.update(
            index as int,
            settled(old(self).store@.jobs[index as int], outcome@),
        ));
    }

    /// Decides what cancelling a job asks for, at a given time, and records it where the job has
    /// not started.
    pub fn cancel_at(&mut self, id: u64, finished_at: u64) -> (r: Result<Cancellation, Error>)
        ensures
            ({
                let jobs = old(self).store@.jobs;
                let at = place(jobs, id);
                if at == jobs.len() {
                    &&& r is Err
                    &&& r->Err_0@ == ErrorModel::JobNotFound
                    &&& *final(self) == *old(self)
                } else if jobs[at].state == State::Pending {
                    &&& r == Ok::<Cancellation, Error>(Cancellation::Recorded)
                    &&& final(self).store@ == old(self).store@.changed(
                        at,
                        settled(jobs[at], cancelled_outcome(finished_at)),
                    )
                } else if jobs[at].state == State::Running {
                    r == Ok::<Cancellation, Error>(Cancellation::Signal) && *final(self) == *old(
                        self,
                    )
                } else {
                    r == Ok::<Cancellation, Error>(Cancellation::Nothing) && *final(self) == *old(
                        self,
                    )
                }
            }),
            final(self).inventory == old(self).inventory,
            final(self).executor == old(self).executor,
            final(self).max_running == old(self).max_running,
    {
        match self.position(id) {
            None => Err(Error::JobNotFound),
            Some(i) => {
                proof {
                    lemma_place(self.store@.jobs, id, 0);
                }
                assert(self.store@.jobs[i as int].state == self.store.jobs@[i as int].state);
                match self.store.jobs[i].state {
                    State::Pending => {
                        self.settle(i, cancellation_at(finished_at));
                        Ok(Cancellation::Recorded)
                    },
                    State::Running => Ok(Cancellation::Signal),
                    _ => Ok(Cancellation::Nothing),
                }
            },
        }
    }

    /// Cancels a job now: a pending one in the store, a running one by telling what runs it, once.
    /// Gives whether the store is to be saved.
    pub fn cancel(&mut self, id: u64) -> (r: Result<bool, Error>)
        ensures
            old(self).cancelling(id, *final(self), r),
            ({
                let jobs = old(self).store@.jobs;
                place(jobs, id) < jobs.len() && jobs[place(jobs, id)].state == State::Running
            }) ==> exists|asked: &mut E, answer: Result<(), Error>|
                {
                    &&& *asked == old(self).executor
                    &&& *final(asked) == final(self).executor
                    &&& #[trigger] call_ensures(E::cancel, (asked, id), answer)
                    &&& r == passed_on(answer)
                },
    {
        let finished_at: u64 = now();
        assert(clock_gave(finished_at));
        match self.cancel_at(id, finished_at) {
            Err(error) => Err(error),
            Ok(Cancellation::Recorded) => Ok(true),
            Ok(Cancellation::Nothing) => Ok(false),
            Ok(Cancellation::Signal) => {
                let answer = self.executor.cancel(id);
                assert(cancel_gave(old(self).executor, id, answer));
                match answer {
                    Ok(_) => Ok(false),
                    Err(error) => Err(error),
                }
            },
        }
    }
}

// ---- What the devices do ----

/// The keys of a list of devices.
pub open spec fn keys_of(devices: Seq<DeviceModel>) -> Set<Seq<char>> {
    Set::new(|key: Seq<char>| has_key(devices, key))
}

/// One of the devices has the key.
pub open spec fn has_key(devices: Seq<DeviceModel>, key: Seq<char>) -> bool {
    exists|i: int| 0 <= i < devices.len() && (#[trigger] devices[i]).key() == key
}

/// The job is running and has the device with this key.
pub open spec fn holds(job: JobModel, key: Seq<char>) -> bool {
    job.state == State::Running && has_key(job.devices, key)
}

/// The number of the first job that holds the device, searching from `from`.
pub open spec fn holder_from(jobs: Seq<JobModel>, key: Seq<char>, from: int) -> Option<u64>
    decreases jobs.len() - from,
{
    if from < 0 || from >= jobs.len() {
        None
    } else if holds(jobs[from], key) {
        Some(jobs[from].id)
    } else {
        holder_from(jobs, key, from + 1)
    }
}

/// The number of the first job that holds the device.
pub open spec fn holder(jobs: Seq<JobModel>, key: Seq<char>) -> Option<u64> {
    holder_from(jobs, key, 0)
}

/// What is told of a device: the job that holds it, or what its last probe said.
pub open spec fn shown(
    jobs: Seq<JobModel>,
    status: Map<Seq<char>, Seq<char>>,
    device: DeviceModel,
) -> DeviceViewModel {
    let job = holder(jobs, device.key());
    DeviceViewModel {
        device,
        job,
        status: if job is Some {
            "allocated"@
        } else if status.contains_key(device.key()) {
            status[device.key()]
        } else {
            "unknown"@
        },
    }
}

/// Whether one of the devices has the key.
fn has_device(devices: &Vec<Device>, key: &String) -> (r: bool)
    ensures
        r == has_key(device_models(devices@), key@),
{
    for i in 0..devices.len()
        invariant
            forall|j: int| 0 <= j < i ==> (#[trigger] device_models(devices@)[j]).key() != key@,
    {
        assert(device_models(devices@)[i as int] == devices@[i as int]@);
        if devices[i].key() == *key {
            return true;
        }
    }
    false
}

/// Adds the keys of the devices.
pub fn reserve(reserved: &mut Keys, devices: &Vec<Device>)
    ensures
        final(reserved)@ == old(reserved)@.union(keys_of(device_models(devices@))),
{
    let ghost all = device_models(devices@);
    assert(reserved@ =~= old(reserved)@.union(keys_of(all.take(0))));
    for i in 0..devices.len()
        invariant
            all == device_models(devices@),
            reserved@ == old(reserved)@.union(keys_of(all.take(i as int))),
    {
        let _new = reserved.insert(devices[i].key());
        proof {
            lemma_keys_push(all, i as int);
            assert(reserved@ =~= old(reserved)@.union(keys_of(all.take(i + 1))));
        }
    }
    assert(all.take(all.len() as int) =~= all);
}

/// One more device adds its key.
pub(crate) proof fn lemma_keys_push(devices: Seq<DeviceModel>, i: int)
    requires
        0 <= i < devices.len(),
    ensures
        keys_of(devices.take(i + 1)) == keys_of(devices.take(i)).insert(devices[i].key()),
{
    let more = devices.take(i + 1);
    let some = devices.take(i);
    assert forall|key: Seq<char>| has_key(more, key) == (has_key(some, key) || key
        == devices[i].key()) by {
        if has_key(some, key) {
            let j = choose|j: int| 0 <= j < some.len() && (#[trigger] some[j]).key() == key;
            assert(more[j].key() == key);
        }
        if key == devices[i].key() {
            assert(more[i].key() == key);
        }
        if has_key(more, key) {
            let j = choose|j: int| 0 <= j < more.len() && (#[trigger] more[j]).key() == key;
            if j < i {
                assert(some[j].key() == key);
            }
        }
    }
    assert(keys_of(more) =~= keys_of(some).insert(devices[i].key()));
}

impl<E: Executor> Scheduler<E> {
    /// What is told of each device of the inventory, in its order.
    pub fn info(&self) -> (r: Vec<DeviceView>)
        ensures
            device_view_models(r@) == Seq::new(
                self.inventory.devices@.len(),
                |i: int|
                    shown(self.store@.jobs, self.inventory.status@, self.inventory.devices@[i]@),
            ),
    {
        let mut r: Vec<DeviceView> = Vec::new();
        for i in 0..self.inventory.devices.len()
            invariant
                r@.len() == i,
                forall|j: int|
                    0 <= j < i ==> (#[trigger] r@[j])@ == shown(
                        self.store@.jobs,
                        self.inventory.status@,
                        self.inventory.devices@[j]@,
                    ),
        {
            let device = self.inventory.devices[i].clone();
            let key = device.key();
            let job = self.holder_of(&key);
            let status = match job {
                Some(_) => "allocated".to_owned(),
                None => match self.inventory.status.get(&key) {
                    Some(status) => status.clone(),
                    None => "unknown".to_owned(),
                },
            };
            r.push(DeviceView { device, job, status });
        }
        r
    }

    /// The number of the first job that holds the device.
    fn holder_of(&self, key: &String) -> (r: Option<u64>)
        ensures
            r == holder(self.store@.jobs, key@),
    {
        let ghost jobs = self.store@.jobs;
        for i in 0..self.store.jobs.len()
            invariant
                jobs == self.store@.jobs,
                holder(jobs, key@) == holder_from(jobs, key@, i as int),
        {
            let job = &self.store.jobs[i];
            assert(jobs[i as int] == job@);
            if job.state == State::Running && has_device(&job.devices, key) {
                return Some(job.id);
            }
        }
        None
    }
}

// ---- Forgetting finished jobs ----

/// How long a finished job is remembered, in seconds.
pub const HISTORY_RETENTION_SECS: u64 = 7 * 24 * 60 * 60;

/// The job ended long enough ago to be forgotten.
pub open spec fn is_expired(job: JobModel, timestamp: u64) -> bool {
    &&& job.state.is_terminal()
    &&& job.result is Some
    &&& timestamp >= job.result->0.finished_at + HISTORY_RETENTION_SECS
}

/// The numbers of the jobs that are to be forgotten.
pub open spec fn expired_ids(jobs: Seq<JobModel>, timestamp: u64) -> Seq<u64>
    decreases jobs.len(),
{
    if jobs.len() == 0 {
        Seq::empty()
    } else {
        let front = expired_ids(jobs.drop_last(), timestamp);
        if is_expired(jobs.last(), timestamp) {
            front.push(jobs.last().id)
        } else {
            front
        }
    }
}

/// The jobs whose numbers are not among the given ones.
pub open spec fn without(jobs: Seq<JobModel>, ids: Seq<u64>) -> Seq<JobModel>
    decreases jobs.len(),
{
    if jobs.len() == 0 {
        Seq::empty()
    } else {
        let front = without(jobs.drop_last(), ids);
        if ids.contains(jobs.last().id) {
            front
        } else {
            front.push(jobs.last())
        }
    }
}

/// Whether the job ended long enough ago to be forgotten.
fn expired(job: &Job, timestamp: u64) -> (r: bool)
    ensures
        r == is_expired(job@, timestamp),
{
    if !job.state.terminal() {
        return false;
    }
    match &job.result {
        Some(outcome) => timestamp >= outcome.finished_at && timestamp - outcome.finished_at
            >= HISTORY_RETENTION_SECS,
        None => false,
    }
}

/// Whether the number is among the given ones.
pub fn among(ids: &Vec<u64>, id: u64) -> (r: bool)
    ensures
        r == ids@.contains(id),
{
    for i in 0..ids.len()
        invariant
            forall|j: int| 0 <= j < i ==> ids@[j] != id,
    {
        if ids[i] == id {
            assert(ids@[i as int] == id);
            return true;
        }
    }
    false
}

/// What forgetting asks for: the files of the expired jobs are removed and the retained store is
/// saved, in this order, before the scheduler takes it over.
pub struct Cleanup {
    pub expired: Vec<u64>,
    pub retained: Store,
}

impl<E: Executor> Scheduler<E> {
    /// The jobs to forget at a given time; nothing if there are none.
    pub fn cleanup(&self, timestamp: u64) -> (r: Option<Cleanup>)
        ensures
            match r {
                None => expired_ids(self.store@.jobs, timestamp).len() == 0,
                Some(cleanup) => {
                    &&& cleanup.expired@.len() > 0
                    &&& cleanup.expired@ == expired_ids(self.store@.jobs, timestamp)
                    &&& cleanup.retained@ == (StoreModel {
                        next_id: self.store@.next_id,
                        jobs: without(self.store@.jobs, cleanup.expired@),
                    })
                },
            },
    {
        let ghost all = self.store@.jobs;
        let mut ids: Vec<u64> = Vec::new();
        assert(ids@ =~= expired_ids(all.take(0), timestamp));
        for i in 0..self.store.jobs.len()
            invariant
                all == self.store@.jobs,
                ids@ == expired_ids(all.take(i as int), timestamp),
        {
            assert(all.take(i + 1).drop_last() =~= all.take(i as int));
            assert(all.take(i + 1).last() == self.store.jobs@[i as int]@);
            if expired(&self.store.jobs[i], timestamp) {
                ids.push(self.store.jobs[i].id);
            }
        }
        assert(all.take(all.len() as int) =~= all);
        if ids.len() == 0 {
            return None;
        }
        let mut kept: Vec<Job> = Vec::new();
        assert(job_models(kept@) =~= without(all.take(0), ids@));
        for i in 0..self.store.jobs.len()
            invariant
                all == self.store@.jobs,
                job_models(kept@) == without(all.take(i as int), ids@),
        {
            let ghost before = job_models(kept@);
            assert(all.take(i + 1).drop_last() =~= all.take(i as int));
            assert(all.take(i + 1).last() == self.store.jobs@[i as int]@);
            if !among(&ids, self.store.jobs[i].id) {
                kept.push(self.store.jobs[i].clone());
                assert(job_models(kept@) =~= before.push(self.store.jobs@[i as int]@));
            }
        }
        Some(
            Cleanup { expired: ids, retained: Store { next_id: self.store.next_id, jobs: kept } },
        )
    }

    /// Takes over the retained store.
    pub fn forget(&mut self, cleanup: Cleanup)
        ensures
            final(self).store == cleanup.retained,
            final(self).inventory == old(self).inventory,
            final(self).executor == old(self).executor,
            final(self).max_running == old(self).max_running,
    {
        self.store = cleanup.retained;
    }
}

/// No number occurs twice.
pub open spec fn distinct_ids(jobs: Seq<JobModel>) -> bool {
    forall|i: int, j: int|
        0 <= i < j < jobs.len() ==> (#[trigger] jobs[i]).id != (#[trigger] jobs[j]).id
}

/// The jobs that are not to be forgotten.
pub open spec fn surviving(jobs: Seq<JobModel>, timestamp: u64) -> Seq<JobModel>
    decreases jobs.len(),
{
    if jobs.len() == 0 {
        Seq::empty()
    } else {
        let front = surviving(jobs.drop_last(), timestamp);
        if is_expired(jobs.last(), timestamp) {
            front
        } else {
            front.push(jobs.last())
        }
    }
}

/// An expired number belongs to an expired job, and each expired job's number is there.
proof fn lemma_expired_ids(jobs: Seq<JobModel>, timestamp: u64, id: u64)
    ensures
        expired_ids(jobs, timestamp).contains(id) <==> exists|i: int|
            0 <= i < jobs.len() && (#[trigger] jobs[i]).id == id && is_expired(jobs[i], timestamp),
    decreases jobs.len(),
{
    let ids = expired_ids(jobs, timestamp);
    if jobs.len() > 0 {
        let shorter = jobs.drop_last();
        let front = expired_ids(shorter, timestamp);
        lemma_expired_ids(shorter, timestamp, id);
        if front.contains(id) {
            let i = choose|i: int|
                0 <= i < shorter.len() && (#[trigger] shorter[i]).id == id && is_expired(
                    shorter[i],
                    timestamp,
                );
            assert(jobs[i].id == id && is_expired(jobs[i], timestamp));
            let k = choose|k: int| 0 <= k < front.len() && front[k] == id;
            assert(ids[k] == id);
        }
        if is_expired(jobs.last(), timestamp) {
            assert(ids.last() == jobs.last().id);
            assert(jobs[jobs.len() - 1] == jobs.last());
        }
        if ids.contains(id) && !front.contains(id) {
            let k = choose|k: int| 0 <= k < ids.len() && ids[k] == id;
            assert(k == front.len());
            assert(jobs[jobs.len() - 1].id == id);
        }
        if exists|i: int|
            0 <= i < jobs.len() && (#[trigger] jobs[i]).id == id && is_expired(jobs[i], timestamp) {
            let i = choose|i: int|
                0 <= i < jobs.len() && (#[trigger] jobs[i]).id == id && is_expired(
                    jobs[i],
                    timestamp,
                );
            if i < shorter.len() {
                assert(shorter[i].id == id);
            }
        }
    }
}

/// Where numbers are distinct, forgetting removes the expired jobs and nothing else: what is
/// pending, running or finished more recently stays, as it was and in its order.
pub proof fn only_expired_jobs_are_forgotten(jobs: Seq<JobModel>, timestamp: u64)
    requires
        distinct_ids(jobs),
    ensures
        without(jobs, expired_ids(jobs, timestamp)) == surviving(jobs, timestamp),
        forall|i: int|
            0 <= i < jobs.len() && !(#[trigger] jobs[i]).state.is_terminal() ==> surviving(
                jobs,
                timestamp,
            ).contains(jobs[i]),
{
    let ids = expired_ids(jobs, timestamp);
    assert forall|i: int| 0 <= i < jobs.len() implies ids.contains((#[trigger] jobs[i]).id)
        == is_expired(jobs[i], timestamp) by {
        lemma_expired_ids(jobs, timestamp, jobs[i].id);
    }
    lemma_without_is_surviving(jobs, ids, timestamp);
    assert forall|i: int|
        0 <= i < jobs.len() && !(#[trigger] jobs[i]).state.is_terminal() implies surviving(
        jobs,
        timestamp,
    ).contains(jobs[i]) by {
        lemma_survives(jobs, timestamp, i);
    }
}

proof fn lemma_without_is_surviving(jobs: Seq<JobModel>, ids: Seq<u64>, timestamp: u64)
    requires
        forall|i: int|
            0 <= i < jobs.len() ==> ids.contains((#[trigger] jobs[i]).id) == is_expired(
                jobs[i],
                timestamp,
            ),
    ensures
        without(jobs, ids) == surviving(jobs, timestamp),
    decreases jobs.len(),
{
    if jobs.len() > 0 {
        let shorter = jobs.drop_last();
        assert forall|i: int| 0 <= i < shorter.len() implies ids.contains(
            (#[trigger] shorter[i]).id,
        ) == is_expired(shorter[i], timestamp) by {
            assert(shorter[i] == jobs[i]);
        }
        lemma_without_is_surviving(shorter, ids, timestamp);
        assert(jobs[jobs.len() - 1] == jobs.last());
    }
}

proof fn lemma_survives(jobs: Seq<JobModel>, timestamp: u64, i: int)
    requires
        0 <= i < jobs.len(),
        !is_expired(jobs[i], timestamp),
    ensures
        surviving(jobs, timestamp).contains(jobs[i]),
    decreases jobs.len(),
{
    let front = surviving(jobs.drop_last(), timestamp);
    let all = surviving(jobs, timestamp);
    if i == jobs.len() - 1 {
        assert(all.last() == jobs[i]);
    } else {
        lemma_survives(jobs.drop_last(), timestamp, i);
        let k = choose|k: int| 0 <= k < front.len() && front[k] == jobs[i];
        assert(all[k] == jobs[i]);
    }
}

/// What was forgotten once leaves nothing to forget at the same time.
pub proof fn forgetting_twice_is_forgetting_once(jobs: Seq<JobModel>, timestamp: u64)
    ensures
        expired_ids(without(jobs, expired_ids(jobs, timestamp)), timestamp).len() == 0,
{
    let ids = expired_ids(jobs, timestamp);
    assert forall|i: int| 0 <= i < jobs.len() && is_expired(#[trigger] jobs[i], timestamp) implies
        ids.contains(jobs[i].id) by {
        lemma_expired_ids(jobs, timestamp, jobs[i].id);
    }
    lemma_nothing_expired_is_left(jobs, ids, timestamp);
}

proof fn lemma_nothing_expired_is_left(jobs: Seq<JobModel>, ids: Seq<u64>, timestamp: u64)
    requires
        forall|i: int|
            0 <= i < jobs.len() && is_expired(#[trigger] jobs[i], timestamp) ==> ids.contains(
                jobs[i].id,
            ),
    ensures
        expired_ids(without(jobs, ids), timestamp).len() == 0,
    decreases jobs.len(),
{
    if jobs.len() > 0 {
        let shorter = jobs.drop_last();
        assert forall|i: int|
            0 <= i < shorter.len() && is_expired(#[trigger] shorter[i], timestamp) implies
            ids.contains(shorter[i].id) by {
            assert(shorter[i] == jobs[i]);
        }
        lemma_nothing_expired_is_left(shorter, ids, timestamp);
        assert(jobs[jobs.len() - 1] == jobs.last());
        let front = without(shorter, ids);
        if !ids.contains(jobs.last().id) {
            assert(front.push(jobs.last()).drop_last() =~= front);
        }
    }
}

/// A job that was forgotten is not found any more.
pub proof fn forgotten_jobs_are_not_found(jobs: Seq<JobModel>, ids: Seq<u64>, id: u64)
    requires
        ids.contains(id),
    ensures
        place(without(jobs, ids), id) == without(jobs, ids).len(),
{
    lemma_without(jobs, ids);
    lemma_place(without(jobs, ids), id, 0);
}

proof fn lemma_without(jobs: Seq<JobModel>, ids: Seq<u64>)
    ensures
        forall|i: int|
            0 <= i < without(jobs, ids).len() ==> !ids.contains(
                (#[trigger] without(jobs, ids)[i]).id,
            ),
    decreases jobs.len(),
{
    if jobs.len() > 0 {
        lemma_without(jobs.drop_last(), ids);
    }
}

// ---- What allocation promises ----

/// The free devices of a vendor stand at these places of the inventory.
proof fn lemma_available_places(
    devices: Seq<DeviceModel>,
    kind: Kind,
    reserved: Set<Seq<char>>,
    free: Seq<bool>,
) -> (places: Seq<int>)
    requires
        free.len() == devices.len(),
        forall|i: int|
            0 <= i < devices.len() ==> #[trigger] free[i] == (devices[i].kind == kind
                && !reserved.contains(devices[i].key())),
    ensures
        picks(places, free),
        available(devices, kind, reserved) == picked(devices, places),
    decreases devices.len(),
{
    if devices.len() == 0 {
        assert(picked(devices, Seq::empty()) =~= Seq::empty());
        Seq::empty()
    } else {
        let front = devices.drop_last();
        let at = devices.len() - 1;
        assert forall|i: int| 0 <= i < front.len() implies #[trigger] free.drop_last()[i] == (
        front[i].kind == kind && !reserved.contains(front[i].key())) by {
            assert(free[i] == free.drop_last()[i]);
        }
        let places = lemma_available_places(front, kind, reserved, free.drop_last());
        lemma_one_more(places, free);
        assert(free[at] == free.last());
        if free.last() {
            let more = places.push(at);
            assert(picked(devices, more) =~= picked(front, places).push(devices.last()));
            more
        } else {
            assert(picked(devices, places) =~= picked(front, places));
            places
        }
    }
}

/// Which devices of a vendor are free.
spec fn free_ones(devices: Seq<DeviceModel>, kind: Kind, reserved: Set<Seq<char>>) -> Seq<bool> {
    Seq::new(
        devices.len(),
        |i: int| devices[i].kind == kind && !reserved.contains(devices[i].key()),
    )
}

/// A submission is never refused where a vendor that it may have has as many free devices as it
/// asks for, wherever these stand in the inventory.
pub proof fn enough_free_devices_are_given(
    spec: SubmissionModel,
    devices: Seq<DeviceModel>,
    reserved: Set<Seq<char>>,
    kind: Kind,
    places: Seq<int>,
)
    requires
        spec.kind is None || spec.kind == Some(kind),
        places.no_duplicates(),
        places.len() >= spec.count,
        forall|k: int|
            0 <= k < places.len() ==> 0 <= #[trigger] places[k] < devices.len() && devices[places[
            k]].kind == kind && !reserved.contains(devices[places[k]].key()),
    ensures
        allocation(spec, devices, reserved) is Some,
{
    let free = free_ones(devices, kind, reserved);
    let all = lemma_available_places(devices, kind, reserved, free);
    assert forall|k: int| 0 <= k < places.len() implies 0 <= #[trigger] places[k] < free.len()
        && free[places[k]] by {
        assert(devices[places[k]].kind == kind);
    }
    lemma_most_places(all, free, places);
}

/// Where NVIDIA devices will do and there are enough of them free, the job gets these.
pub proof fn nvidia_comes_first(
    spec: SubmissionModel,
    devices: Seq<DeviceModel>,
    reserved: Set<Seq<char>>,
    places: Seq<int>,
)
    requires
        spec.kind is None,
        places.no_duplicates(),
        places.len() >= spec.count,
        forall|k: int|
            0 <= k < places.len() ==> 0 <= #[trigger] places[k] < devices.len() && devices[places[
            k]].kind == Kind::Nvidia && !reserved.contains(devices[places[k]].key()),
    ensures
        allocation(spec, devices, reserved) is Some,
        forall|i: int|
            0 <= i < allocation(spec, devices, reserved)->0.len() ==> (#[trigger] allocation(
                spec,
                devices,
                reserved,
            )->0[i]).kind == Kind::Nvidia,
{
    let free = free_ones(devices, Kind::Nvidia, reserved);
    let all = lemma_available_places(devices, Kind::Nvidia, reserved, free);
    assert forall|k: int| 0 <= k < places.len() implies 0 <= #[trigger] places[k] < free.len()
        && free[places[k]] by {
        assert(devices[places[k]].kind == Kind::Nvidia);
    }
    lemma_most_places(all, free, places);
    lemma_available(devices, Kind::Nvidia, reserved);
    if spec.count > 0 {
        let given = allocation(spec, devices, reserved)->0;
        assert forall|i: int| 0 <= i < given.len() implies (#[trigger] given[i]).kind
            == Kind::Nvidia by {
            assert(given[i] == available(devices, Kind::Nvidia, reserved)[i]);
        }
    }
}

/// What is given stands in the inventory in the order in which it is given, is of one vendor that
/// the submission may have, and is free; and no free device of that vendor before the last of them
/// is passed over. Ascend devices are given without being asked for only where fewer NVIDIA devices
/// are free than are wanted.
pub proof fn the_first_free_devices_are_given(
    spec: SubmissionModel,
    devices: Seq<DeviceModel>,
    reserved: Set<Seq<char>>,
) -> (r: (Kind, Seq<int>))
    requires
        allocation(spec, devices, reserved) is Some,
    ensures
        ({
            let (kind, places) = r;
            &&& places.len() == spec.count
            &&& allocation(spec, devices, reserved)->0 == picked(devices, places)
            &&& spec.kind is None || spec.kind == Some(kind) || spec.count == 0
            &&& forall|k: int|
                0 <= k < places.len() ==> 0 <= #[trigger] places[k] < devices.len()
                    && devices[places[k]].kind == kind && !reserved.contains(
                    devices[places[k]].key(),
                )
            &&& forall|k: int, l: int|
                0 <= k < l < places.len() ==> #[trigger] places[k] < #[trigger] places[l]
            &&& forall|i: int|
                places.len() > 0 && 0 <= i < places.last() && (#[trigger] devices[i]).kind == kind
                    && !reserved.contains(devices[i].key()) ==> places.contains(i)
            &&& spec.count > 0 && spec.kind is None && kind == Kind::Ascend ==> forall|
                chosen: Seq<int>,
            |
                #[trigger] chosen.no_duplicates() && (forall|k: int|
                    0 <= k < chosen.len() ==> 0 <= #[trigger] chosen[k] < devices.len()
                        && devices[chosen[k]].kind == Kind::Nvidia && !reserved.contains(
                        devices[chosen[k]].key(),
                    )) ==> chosen.len() < spec.count
        }),
{
    let given = allocation(spec, devices, reserved)->0;
    if spec.count == 0 {
        assert(given =~= picked(devices, Seq::empty()));
        (Kind::Nvidia, Seq::empty())
    } else {
        let kind = if serves(Kind::Nvidia, spec, devices, reserved) {
            Kind::Nvidia
        } else {
            Kind::Ascend
        };
        let free = free_ones(devices, kind, reserved);
        let all = lemma_available_places(devices, kind, reserved, free);
        let places = all.take(spec.count as int);
        assert(given =~= picked(devices, places));
        assert forall|k: int| 0 <= k < places.len() implies 0 <= #[trigger] places[k]
            < devices.len() && devices[places[k]].kind == kind && !reserved.contains(
            devices[places[k]].key(),
        ) by {
            assert(free[all[k]]);
        }
        assert forall|i: int|
            0 <= i < places.last() && (#[trigger] devices[i]).kind == kind && !reserved.contains(
                devices[i].key(),
            ) implies places.contains(i) by {
            assert(free[i]);
            let k = choose|k: int| 0 <= k < all.len() && all[k] == i;
            if k >= places.len() {
                assert(all[places.len() - 1] < all[k]);
            }
            assert(places[k] == i);
        }
        if kind == Kind::Ascend && spec.kind is None {
            let others = free_ones(devices, Kind::Nvidia, reserved);
            let there = lemma_available_places(devices, Kind::Nvidia, reserved, others);
            assert forall|chosen: Seq<int>|
                #[trigger] chosen.no_duplicates() && (forall|k: int|
                    0 <= k < chosen.len() ==> 0 <= #[trigger] chosen[k] < devices.len()
                        && devices[chosen[k]].kind == Kind::Nvidia && !reserved.contains(
                        devices[chosen[k]].key(),
                    )) implies chosen.len() < spec.count by {
                assert forall|k: int| 0 <= k < chosen.len() implies 0 <= #[trigger] chosen[k]
                    < others.len() && others[chosen[k]] by {
                    assert(devices[chosen[k]].kind == Kind::Nvidia);
                }
                lemma_most_places(there, others, chosen);
            }
        }
        (kind, places)
    }
}

// ---- What submitting, cancelling and forgetting promise ----

/// A submission with something to run, in a directory that exists, without a time limit or with a
/// positive one, and for which one vendor that it may have has enough devices is taken in, as long
/// as there are numbers left.
pub proof fn good_submissions_are_taken_in(
    spec: SubmissionModel,
    devices: Seq<DeviceModel>,
    next_id: u64,
    kind: Kind,
    places: Seq<int>,
)
    requires
        spec.script is Some || spec.command.len() > 0,
        spec.time_limit is None || spec.time_limit->0 > 0,
        next_id < u64::MAX,
        spec.kind is None || spec.kind == Some(kind),
        places.no_duplicates(),
        places.len() >= spec.count,
        forall|k: int|
            0 <= k < places.len() ==> 0 <= #[trigger] places[k] < devices.len() && devices[places[
            k]].kind == kind,
    ensures
        refusal(spec, true, devices, next_id) is None,
{
    enough_free_devices_are_given(spec, devices, Set::empty(), kind, places);
}

/// A submission is refused for what is wrong with it: nothing to run, no directory, a time limit of
/// zero, more devices than one vendor has, or no number left; the first of these is told.
pub proof fn bad_submissions_are_refused(
    spec: SubmissionModel,
    directory_exists: bool,
    devices: Seq<DeviceModel>,
    next_id: u64,
)
    ensures
        ({
            let told = refusal(spec, directory_exists, devices, next_id);
            let runs = spec.script is Some || spec.command.len() > 0;
            let limited = spec.time_limit is None || spec.time_limit->0 > 0;
            &&& !runs ==> told == Some(ErrorModel::EmptyCommand)
            &&& runs && !directory_exists ==> told == Some(ErrorModel::MissingDirectory)
            &&& runs && directory_exists && !limited ==> told == Some(ErrorModel::ZeroTimeLimit)
            &&& told == Some(ErrorModel::EmptyCommand) ==> !runs
            &&& told == Some(ErrorModel::MissingDirectory) ==> !directory_exists
            &&& told == Some(ErrorModel::ZeroTimeLimit) ==> !limited
            &&& told == Some(ErrorModel::JobIdsExhausted) ==> next_id == u64::MAX
            &&& next_id == u64::MAX ==> told is Some
            &&& told is Some && told->0 is NotEnoughDevices ==> told
                == Some(ErrorModel::NotEnoughDevices { count: spec.count })
        }),
        runs_nowhere(spec, devices) && directory_exists && spec.command.len() > 0
            && spec.time_limit is None ==> refusal(spec, directory_exists, devices, next_id) == Some(
            ErrorModel::NotEnoughDevices { count: spec.count },
        ),
{
    if runs_nowhere(spec, devices) {
        let none = Set::<Seq<char>>::empty();
        if allocation(spec, devices, none) is Some {
            let (kind, places) = the_first_free_devices_are_given(spec, devices, none);
            assert(places.no_duplicates());
            assert(vendor_has(devices, kind, places));
        }
    }
}

/// The places are different ones, and devices of the vendor stand at them.
pub open spec fn vendor_has(devices: Seq<DeviceModel>, kind: Kind, places: Seq<int>) -> bool {
    &&& places.no_duplicates()
    &&& forall|k: int|
        0 <= k < places.len() ==> 0 <= #[trigger] places[k] < devices.len() && devices[places[
        k]].kind == kind
}

/// No vendor that the submission may have has as many devices as it asks for.
pub open spec fn runs_nowhere(spec: SubmissionModel, devices: Seq<DeviceModel>) -> bool {
    &&& spec.count > 0
    &&& forall|kind: Kind, places: Seq<int>|
        #[trigger] vendor_has(devices, kind, places) && (spec.kind is None || spec.kind == Some(
            kind,
        )) ==> places.len() < spec.count
}

/// A new job waits, with nothing given to it yet, and goes to the end of the queue; its number is
/// the last one that was given.
pub proof fn new_jobs_wait_at_the_end(
    store: StoreModel,
    id: u64,
    spec: SubmissionModel,
    owner: OwnerModel,
    submitted_at: u64,
)
    ensures
        ({
            let job = new_job(id, spec, owner, submitted_at);
            let after = store.with(job);
            &&& job.id == id && job.spec == spec && job.owner == owner
            &&& job.submitted_at == submitted_at
            &&& job.state == State::Pending
            &&& job.devices.len() == 0
            &&& job.started_at is None && job.result is None
            &&& after.next_id == id
            &&& after.jobs.len() == store.jobs.len() + 1
            &&& after.jobs.last() == job
            &&& forall|i: int|
                0 <= i < store.jobs.len() ==> #[trigger] after.jobs[i] == store.jobs[i]
        }),
{
}

/// Changing a job changes no other one, and gives no number.
pub proof fn one_job_is_changed(store: StoreModel, index: int, job: JobModel, i: int)
    requires
        0 <= index < store.jobs.len(),
        0 <= i < store.jobs.len(),
    ensures
        store.changed(index, job).jobs.len() == store.jobs.len(),
        store.changed(index, job).next_id == store.next_id,
        store.changed(index, job).jobs[index] == job,
        i != index ==> store.changed(index, job).jobs[i] == store.jobs[i],
{
}

/// A job that ends takes on the state of its outcome and keeps all else.
pub proof fn ended_jobs_keep_all_but_their_state(job: JobModel, outcome: OutcomeModel)
    ensures
        ({
            let ended = settled(job, outcome);
            &&& ended.state == outcome.state
            &&& ended.result == Some(outcome)
            &&& ended.id == job.id && ended.owner == job.owner && ended.spec == job.spec
            &&& ended.devices == job.devices
            &&& ended.submitted_at == job.submitted_at && ended.started_at == job.started_at
        }),
{
}

/// A job is found by its number wherever it stands; the first one counts. What is not there is not
/// found.
pub proof fn jobs_are_found_by_number(jobs: Seq<JobModel>, id: u64, at: int)
    requires
        0 <= at <= jobs.len(),
        at < jobs.len() ==> jobs[at].id == id,
        forall|i: int| 0 <= i < at ==> (#[trigger] jobs[i]).id != id,
    ensures
        place(jobs, id) == at,
{
    lemma_place(jobs, id, 0);
}

/// Cancelling a waiting job ends it as cancelled with exit code 130 at the time of the clock, and
/// touches no other job; of a job that runs or is over it changes nothing.
pub proof fn cancelling_ends_what_waits<E: Executor>(
    before: Scheduler<E>,
    id: u64,
    after: Scheduler<E>,
    r: Result<bool, Error>,
    at: int,
    i: int,
)
    requires
        before.cancelling(id, after, r),
        0 <= at < before.store@.jobs.len(),
        before.store@.jobs[at].id == id,
        forall|k: int| 0 <= k < at ==> (#[trigger] before.store@.jobs[k]).id != id,
        0 <= i < before.store@.jobs.len(),
    ensures
        ({
            let old_job = before.store@.jobs[at];
            let new_job = after.store@.jobs[at];
            &&& after.store@.jobs.len() == before.store@.jobs.len()
            &&& after.store@.next_id == before.store@.next_id
            &&& i != at ==> after.store@.jobs[i] == before.store@.jobs[i]
            &&& if old_job.state == State::Pending {
                &&& r == Ok::<bool, Error>(true)
                &&& new_job.state == State::Cancelled
                &&& new_job.result is Some
                &&& new_job.result->0.state == State::Cancelled
                &&& new_job.result->0.exit_code == 130
                &&& new_job.result->0.error is None
                &&& clock_gave(new_job.result->0.finished_at)
                &&& new_job.id == id && new_job.owner == old_job.owner
                &&& new_job.spec == old_job.spec && new_job.submitted_at == old_job.submitted_at
                &&& new_job.started_at == old_job.started_at
            } else {
                after.store@ == before.store@
            }
        }),
{
    jobs_are_found_by_number(before.store@.jobs, id, at);
}

/// The job is over, and has been for seven days.
pub open spec fn is_old(job: JobModel, timestamp: int) -> bool {
    &&& job.state == State::Completed || job.state == State::Failed || job.state == State::Cancelled
        || job.state == State::TimedOut
    &&& job.result is Some
    &&& job.result->0.finished_at + 604800 <= timestamp
}

/// A cleanup leaves no job that has been over for seven days.
pub proof fn cleanups_leave_nothing_old(jobs: Seq<JobModel>, timestamp: u64, i: int)
    requires
        0 <= i < without(jobs, expired_ids(jobs, timestamp)).len(),
    ensures
        !is_old(without(jobs, expired_ids(jobs, timestamp))[i], timestamp as int),
{
    let ids = expired_ids(jobs, timestamp);
    let rest = without(jobs, ids);
    if is_old(rest[i], timestamp as int) {
        forgetting_twice_is_forgetting_once(jobs, timestamp);
        lemma_expired_ids(rest, timestamp, rest[i].id);
        assert(expired_ids(rest, timestamp).contains(rest[i].id));
    }
}

/// A cleanup forgets a job only where a job of its number has been over for seven days. So a job that
/// waits or runs, and one that ended more recently, is kept wherever numbers are distinct.
pub proof fn cleanups_keep_what_is_not_old(jobs: Seq<JobModel>, timestamp: u64, i: int)
    requires
        0 <= i < jobs.len(),
        distinct_ids(jobs),
        !is_old(jobs[i], timestamp as int),
    ensures
        without(jobs, expired_ids(jobs, timestamp)).contains(jobs[i]),
        !expired_ids(jobs, timestamp).contains(jobs[i].id),
{
    lemma_expired_ids(jobs, timestamp, jobs[i].id);
    only_expired_jobs_are_forgotten(jobs, timestamp);
    lemma_survives(jobs, timestamp, i);
}

/// The numbers that a cleanup tells are those of the jobs that have been over for seven days: each of
/// these, and no other. Something is to be forgotten just when there is such a job.
pub proof fn cleanups_tell_what_is_old(jobs: Seq<JobModel>, timestamp: u64, id: u64)
    ensures
        expired_ids(jobs, timestamp).contains(id) <==> exists|i: int|
            0 <= i < jobs.len() && (#[trigger] jobs[i]).id == id && is_old(
                jobs[i],
                timestamp as int,
            ),
        expired_ids(jobs, timestamp).len() > 0 ==> exists|i: int|
            0 <= i < jobs.len() && is_old(#[trigger] jobs[i], timestamp as int),
{
    lemma_expired_ids(jobs, timestamp, id);
    if exists|i: int|
        0 <= i < jobs.len() && (#[trigger] jobs[i]).id == id && is_old(jobs[i], timestamp as int) {
        let i = choose|i: int|
            0 <= i < jobs.len() && (#[trigger] jobs[i]).id == id && is_old(
                jobs[i],
                timestamp as int,
            );
        assert(is_expired(jobs[i], timestamp));
    }
    let ids = expired_ids(jobs, timestamp);
    if ids.len() > 0 {
        lemma_expired_ids(jobs, timestamp, ids[0]);
        assert(ids.contains(ids[0]));
        let i = choose|i: int|
            0 <= i < jobs.len() && (#[trigger] jobs[i]).id == ids[0] && is_expired(
                jobs[i],
                timestamp,
            );
        assert(is_old(jobs[i], timestamp as int));
    }
}

/// What a cleanup forgets it forgets at every later time, too.
pub proof fn what_is_old_stays_old(jobs: Seq<JobModel>, timestamp: u64, later: u64, id: u64)
    requires
        timestamp <= later,
        expired_ids(jobs, timestamp).contains(id),
    ensures
        expired_ids(jobs, later).contains(id),
{
    lemma_expired_ids(jobs, timestamp, id);
    lemma_expired_ids(jobs, later, id);
    let i = choose|i: int|
        0 <= i < jobs.len() && (#[trigger] jobs[i]).id == id && is_expired(jobs[i], timestamp);
    assert(is_expired(jobs[i], later));
}

/// What is left after forgetting are the jobs whose numbers are not among the given ones, all of
/// them, as they were and in their order.
pub proof fn forgetting_goes_by_number(
    jobs: Seq<JobModel>,
    ids: Seq<u64>,
    stays: Seq<bool>,
) -> (places: Seq<int>)
    requires
        stays.len() == jobs.len(),
        forall|i: int| 0 <= i < jobs.len() ==> #[trigger] stays[i] == !ids.contains(jobs[i].id),
    ensures
        picks(places, stays),
        without(jobs, ids) == picked(jobs, places),
    decreases jobs.len(),
{
    if jobs.len() == 0 {
        assert(picked(jobs, Seq::empty()) =~= Seq::empty());
        Seq::empty()
    } else {
        let front = jobs.drop_last();
        let at = jobs.len() - 1;
        assert forall|i: int| 0 <= i < front.len() implies #[trigger] stays.drop_last()[i]
            == !ids.contains(front[i].id) by {
            assert(stays[i] == stays.drop_last()[i]);
        }
        let places = forgetting_goes_by_number(front, ids, stays.drop_last());
        lemma_one_more(places, stays);
        assert(stays[at] == stays.last());
        if stays.last() {
            let more = places.push(at);
            assert(picked(jobs, more) =~= picked(front, places).push(jobs.last()));
            more
        } else {
            assert(picked(jobs, places) =~= picked(front, places));
            places
        }
    }
}

// ---- What is told of the devices ----

/// A device that a running job has is told as allocated to it, to the first such job; no job that
/// waits or is over counts.
pub proof fn held_devices_are_told_as_allocated(
    jobs: Seq<JobModel>,
    status: Map<Seq<char>, Seq<char>>,
    device: DeviceModel,
    at: int,
    given: int,
)
    requires
        0 <= at < jobs.len(),
        jobs[at].state == State::Running,
        0 <= given < jobs[at].devices.len(),
        jobs[at].devices[given].key() == device.key(),
        forall|i: int, k: int|
            0 <= i < at && 0 <= k < jobs[i].devices.len() && jobs[i].state == State::Running
                ==> #[trigger] jobs[i].devices[k].key() != device.key(),
    ensures
        shown(jobs, status, device).device == device,
        shown(jobs, status, device).job == Some(jobs[at].id),
        shown(jobs, status, device).status == "allocated"@,
{
    assert(holds(jobs[at], device.key()));
    assert forall|i: int| 0 <= i < at implies !holds(#[trigger] jobs[i], device.key()) by {
        if holds(jobs[i], device.key()) {
            let k = choose|k: int|
                0 <= k < jobs[i].devices.len() && (#[trigger] jobs[i].devices[k]).key()
                    == device.key();
            assert(jobs[i].devices[k].key() != device.key());
        }
    }
    lemma_first_holder(jobs, device.key(), 0, at);
}

/// A device that no running job has is told with what its last probe said, or as unknown where it
/// was not probed.
pub proof fn free_devices_are_told_as_probed(
    jobs: Seq<JobModel>,
    status: Map<Seq<char>, Seq<char>>,
    device: DeviceModel,
)
    requires
        forall|i: int, k: int|
            0 <= i < jobs.len() && 0 <= k < jobs[i].devices.len() && jobs[i].state
                == State::Running ==> #[trigger] jobs[i].devices[k].key() != device.key(),
    ensures
        shown(jobs, status, device).device == device,
        shown(jobs, status, device).job is None,
        status.contains_key(device.key()) ==> shown(jobs, status, device).status
            == status[device.key()],
        !status.contains_key(device.key()) ==> shown(jobs, status, device).status == "unknown"@,
{
    assert forall|i: int| 0 <= i < jobs.len() implies !holds(#[trigger] jobs[i], device.key()) by {
        if holds(jobs[i], device.key()) {
            let k = choose|k: int|
                0 <= k < jobs[i].devices.len() && (#[trigger] jobs[i].devices[k]).key()
                    == device.key();
            assert(jobs[i].devices[k].key() != device.key());
        }
    }
    lemma_first_holder(jobs, device.key(), 0, jobs.len() as int);
}

proof fn lemma_first_holder(jobs: Seq<JobModel>, key: Seq<char>, from: int, at: int)
    requires
        0 <= from <= at <= jobs.len(),
        at < jobs.len() ==> holds(jobs[at], key),
        forall|i: int| from <= i < at ==> !holds(#[trigger] jobs[i], key),
    ensures
        holder_from(jobs, key, from) == if at < jobs.len() {
            Some(jobs[at].id)
        } else {
            None
        },
    decreases at - from,
{
    if from < at {
        assert(!holds(jobs[from], key));
        lemma_first_holder(jobs, key, from + 1, at);
    }
}

/// The keys of some devices are the keys of each of them, and no other.
pub proof fn keys_are_those_of_the_devices(devices: Seq<DeviceModel>, key: Seq<char>)
    ensures
        keys_of(devices).contains(key) <==> exists|i: int|
            0 <= i < devices.len() && (#[trigger] devices[i]).key() == key,
{
}

/// What the executor answers to a cancellation is handed on: its error, or that nothing is to be
/// saved.
pub proof fn answers_to_cancellations_are_handed_on(error: Error)
    ensures
        passed_on(Ok(())) == Ok::<bool, Error>(false),
        passed_on(Err(error)) == Err::<bool, Error>(error),
{
}

/// What holds of allocation holds of what is allocated: a vendor's free devices, if they are enough,
/// are never refused, and what is given is as much as was asked for, unreserved, and of one vendor
/// that may serve.
pub proof fn what_is_allocated_is_what_is_free(
    spec: &Submission,
    devices: &Vec<Device>,
    reserved: &Keys,
    r: Option<Vec<Device>>,
    kind: Kind,
    places: Seq<int>,
    k: int,
)
    requires
        call_ensures(allocate, (spec, devices, reserved), r),
        places.no_duplicates(),
        forall|k: int|
            0 <= k < places.len() ==> 0 <= #[trigger] places[k] < devices@.len() && devices@[places[
            k]].kind == kind && !reserved@.contains(devices@[places[k]]@.key()),
    ensures
        (spec.kind is None || spec.kind == Some(kind)) && places.len() >= spec.count ==> r is Some,
        r is Some ==> r->0@.len() == spec.count,
        r is Some && 0 <= k < r->0@.len() ==> !reserved@.contains(r->0@[k]@.key()) && (spec.kind
            is None || spec.kind == Some(r->0@[k].kind)) && r->0@[k].kind == r->0@[0].kind,
{
    let models = device_models(devices@);
    if (spec.kind is None || spec.kind == Some(kind)) && places.len() >= spec.count {
        assert forall|k: int| 0 <= k < places.len() implies 0 <= #[trigger] places[k]
            < models.len() && models[places[k]].kind == kind && !reserved@.contains(
            models[places[k]].key(),
        ) by {
            assert(models[places[k]] == devices@[places[k]]@);
        }
        enough_free_devices_are_given(spec@, models, reserved@, kind, places);
    }
    if r is Some {
        let given = device_models(r->0@);
        assert(allocation(spec@, models, reserved@) == Some(given));
        assert(given.len() == r->0@.len());
        let (vendor, chosen) = the_first_free_devices_are_given(spec@, models, reserved@);
        if 0 <= k < r->0@.len() {
            assert(given[k] == r->0@[k]@ && given[0] == r->0@[0]@);
            assert(given[k] == models[chosen[k]] && given[0] == models[chosen[0]]);
        }
    }
}

} // verus!
