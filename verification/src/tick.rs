//! One pass over the queue: collect what has ended, then start what fits.
//!
//! The pass is taken in steps. Wherever a step says so the caller saves the store before the next
//! one; in particular before a job is started, so that a restart never starts it twice.
use vstd::prelude::*;

use crate::device::distinct_keys;
use crate::error::{Error, ErrorModel};
use crate::executor::{failed_outcome, failure_at, poll_gave, start_gave, Executor};
use crate::model::{
    clock_gave, device_models, now, DeviceModel, JobModel, Kind, Outcome, OutcomeModel, OwnerModel,
    State, StoreModel, SubmissionModel,
};
use crate::places::{lemma_one_more, picks};
use crate::scheduler::{
    allocate, allocation, allocations_are_exclusive_and_of_one_vendor,
    enough_free_devices_are_given, has_key, holder,
    holder_from, holds, keys_of, lemma_available, lemma_keys_push, lemma_place, listed, new_job,
    one_vendor, place, releasing_devices_never_hurts, reserve, settled, without, Scheduler,
};
use crate::table::Keys;

verus! {

/// How many of the jobs are running.
pub open spec fn running_count(jobs: Seq<JobModel>) -> nat
    decreases jobs.len(),
{
    if jobs.len() == 0 {
        0
    } else {
        running_count(jobs.drop_last()) + if jobs.last().state == State::Running {
            1nat
        } else {
            0nat
        }
    }
}

/// The keys of the devices that running jobs hold.
pub open spec fn held(jobs: Seq<JobModel>) -> Set<Seq<char>> {
    Set::new(|key: Seq<char>| is_held(jobs, key))
}

/// A running job has the device.
pub open spec fn is_held(jobs: Seq<JobModel>, key: Seq<char>) -> bool {
    exists|i: int| 0 <= i < jobs.len() && holds(#[trigger] jobs[i], key)
}

/// The last probe found the device idle.
pub open spec fn is_idle(status: Map<Seq<char>, Seq<char>>, key: Seq<char>) -> bool {
    status.contains_key(key) && status[key] == "idle"@
}

/// The keys of the devices that are not known to be idle.
pub open spec fn busy(devices: Seq<DeviceModel>, status: Map<Seq<char>, Seq<char>>) -> Set<
    Seq<char>,
> {
    Set::new(|key: Seq<char>| has_key(devices, key) && !is_idle(status, key))
}

/// The keys that no new job may have.
pub open spec fn blocked(
    jobs: Seq<JobModel>,
    devices: Seq<DeviceModel>,
    status: Map<Seq<char>, Seq<char>>,
) -> Set<Seq<char>> {
    held(jobs).union(busy(devices, status))
}

/// How far the pass has come in starting jobs.
pub struct Plan {
    /// The keys of the devices that are taken.
    pub reserved: Keys,
    /// How many jobs are running.
    pub running: usize,
    /// The first job that was not looked at.
    pub cursor: usize,
}

/// The content of a plan.
pub struct PlanModel {
    pub reserved: Set<Seq<char>>,
    pub running: nat,
    pub cursor: nat,
}

impl View for Plan {
    type V = PlanModel;

    open spec fn view(&self) -> PlanModel {
        PlanModel {
            reserved: self.reserved@,
            running: self.running as nat,
            cursor: self.cursor as nat,
        }
    }
}

/// The plan with which a pass begins.
pub open spec fn first_plan(
    jobs: Seq<JobModel>,
    devices: Seq<DeviceModel>,
    status: Map<Seq<char>, Seq<char>>,
) -> PlanModel {
    PlanModel {
        reserved: blocked(jobs, devices, status),
        running: running_count(jobs),
        cursor: 0,
    }
}

/// The first pending job from `from` on that fits the free devices; the length of the list if
/// there is none.
pub open spec fn fitting_from(
    jobs: Seq<JobModel>,
    devices: Seq<DeviceModel>,
    reserved: Set<Seq<char>>,
    from: int,
) -> int
    decreases jobs.len() - from,
{
    if from < 0 || from >= jobs.len() {
        jobs.len() as int
    } else if jobs[from].state == State::Pending && allocation(
        jobs[from].spec,
        devices,
        reserved,
    ) is Some {
        from
    } else {
        fitting_from(jobs, devices, reserved, from + 1)
    }
}

/// The job to start next: the first one that fits, as long as another one may run.
pub open spec fn admission(
    jobs: Seq<JobModel>,
    devices: Seq<DeviceModel>,
    plan: PlanModel,
    max_running: usize,
) -> Option<int> {
    if plan.running >= max_running {
        None
    } else {
        let at = fitting_from(jobs, devices, plan.reserved, plan.cursor as int);
        if at < jobs.len() {
            Some(at)
        } else {
            None
        }
    }
}

/// What a job becomes that is about to be started.
pub open spec fn starting(job: JobModel, devices: Seq<DeviceModel>, started_at: u64) -> JobModel {
    JobModel { devices, state: State::Running, started_at: Some(started_at), ..job }
}

/// What the store becomes when the next job is about to be started.
pub open spec fn admitted(
    store: StoreModel,
    devices: Seq<DeviceModel>,
    plan: PlanModel,
    max_running: usize,
    started_at: u64,
) -> StoreModel {
    match admission(store.jobs, devices, plan, max_running) {
        Some(at) => store.changed(
            at,
            starting(
                store.jobs[at],
                allocation(store.jobs[at].spec, devices, plan.reserved)->0,
                started_at,
            ),
        ),
        None => store,
    }
}

/// What the store becomes when starting a job gave this result.
pub open spec fn after_launch(
    store: StoreModel,
    index: int,
    result: Result<(), ErrorModel>,
    finished_at: u64,
) -> StoreModel {
    match result {
        Ok(_) => store,
        Err(error) => store.changed(
            index,
            settled(store.jobs[index], failed_outcome(error.text(), finished_at)),
        ),
    }
}

/// How the pass goes on when starting a job gave this result.
pub open spec fn plan_after(
    plan: PlanModel,
    job: JobModel,
    index: nat,
    started: bool,
) -> PlanModel {
    if started {
        PlanModel {
            reserved: plan.reserved.union(keys_of(job.devices)),
            running: plan.running + 1,
            cursor: index + 1,
        }
    } else {
        PlanModel { cursor: index + 1, ..plan }
    }
}

/// A result of starting a job, with the view of its error.
pub open spec fn result_model(result: Result<(), Error>) -> Result<(), ErrorModel> {
    match result {
        Ok(_) => Ok(()),
        Err(error) => Err(error@),
    }
}

/// The steps of a pass.
pub enum Tick {
    /// Ask after the running jobs.
    Collect,
    /// Begin to start jobs; the store is to be saved first if a job has ended.
    Schedule { changed: bool },
    /// Start the job at this place, after saving the store.
    Launch { index: usize, plan: Plan },
    /// Go on starting jobs; the store is to be saved first if the last start failed.
    Scan { plan: Plan, failed: bool },
    /// The pass is over.
    Done,
}

impl Tick {
    /// The store is to be saved before this step.
    pub open spec fn saves(self) -> bool {
        match self {
            Tick::Collect => false,
            Tick::Schedule { changed } => changed,
            Tick::Launch { .. } => true,
            Tick::Scan { failed, .. } => failed,
            Tick::Done => false,
        }
    }

    /// Whether the store is to be saved before this step.
    pub fn must_save(&self) -> (r: bool)
        ensures
            r == self.saves(),
    {
        match self {
            Tick::Collect => false,
            Tick::Schedule { changed } => *changed,
            Tick::Launch { .. } => true,
            Tick::Scan { failed, .. } => *failed,
            Tick::Done => false,
        }
    }

    /// Whether the pass is over.
    pub fn done(&self) -> (r: bool)
        ensures
            r == (*self is Done),
    {
        match self {
            Tick::Done => true,
            _ => false,
        }
    }
}

/// A running job is unchanged or has ended; all others are unchanged.
pub open spec fn collected(before: Seq<JobModel>, after: Seq<JobModel>) -> bool {
    &&& before.len() == after.len()
    &&& forall|i: int|
        #![trigger before[i]]
        #![trigger after[i]]
        0 <= i < before.len() ==> unchanged_or_ended(before[i], after[i])
}

/// The job was running and has ended.
pub open spec fn has_ended(before: JobModel, after: JobModel) -> bool {
    &&& before.state == State::Running
    &&& after.result is Some
    &&& after == settled(before, after.result->0)
}

/// At least one job has ended.
pub open spec fn some_ended(before: Seq<JobModel>, after: Seq<JobModel>) -> bool {
    exists|i: int| 0 <= i < before.len() && has_ended(before[i], #[trigger] after[i])
}

/// A running job may have ended; any other is unchanged.
pub open spec fn unchanged_or_ended(before: JobModel, after: JobModel) -> bool {
    after == before || has_ended(before, after)
}

/// The first running job from `from` on after which asking failed; the length of the list if there
/// is none. The answers stand at the places of their jobs.
pub open spec fn failing_from(
    jobs: Seq<JobModel>,
    answers: Seq<Result<Option<Outcome>, Error>>,
    from: int,
) -> int
    decreases jobs.len() - from,
{
    if from < 0 || from >= jobs.len() {
        jobs.len() as int
    } else if jobs[from].state == State::Running && answers[from] is Err {
        from
    } else {
        failing_from(jobs, answers, from + 1)
    }
}

/// The answer says that the job has ended.
pub open spec fn says_ended(job: JobModel, answer: Result<Option<Outcome>, Error>) -> bool {
    job.state == State::Running && answer is Ok && answer->Ok_0 is Some
}

/// What a job becomes by the answer.
pub open spec fn answered(job: JobModel, answer: Result<Option<Outcome>, Error>) -> JobModel {
    match answer {
        Ok(Some(outcome)) if job.state == State::Running => settled(job, outcome@),
        _ => job,
    }
}

/// What the answers make of the jobs before `end`.
pub open spec fn answered_until(
    jobs: Seq<JobModel>,
    answers: Seq<Result<Option<Outcome>, Error>>,
    end: int,
) -> Seq<JobModel> {
    Seq::new(
        jobs.len(),
        |i: int|
            if i < end {
                answered(jobs[i], answers[i])
            } else {
                jobs[i]
            },
    )
}

/// One of the answers before `end` says that its job has ended.
pub open spec fn end_told(
    jobs: Seq<JobModel>,
    answers: Seq<Result<Option<Outcome>, Error>>,
    end: int,
) -> bool {
    exists|i: int| 0 <= i < end && i < jobs.len() && says_ended(jobs[i], #[trigger] answers[i])
}

/// What the answers lead to: each job is changed by its answer up to the first failure, which is
/// given; without one it is told whether a job has ended.
pub open spec fn gathered(
    before: Seq<JobModel>,
    answers: Seq<Result<Option<Outcome>, Error>>,
    after: Seq<JobModel>,
    r: Result<bool, Error>,
) -> bool {
    let end = failing_from(before, answers, 0);
    &&& after == answered_until(before, answers, end)
    &&& if end < before.len() {
        r == Err::<bool, Error>(answers[end]->Err_0)
    } else {
        r == Ok::<bool, Error>(end_told(before, answers, end))
    }
}

/// The answers are those of the executor: each running job was asked after by its number, in the
/// order of the queue, up to the first failure. The states are those of the executor before each
/// job, and at the end.
pub open spec fn asked_in_turn<E: Executor>(
    jobs: Seq<JobModel>,
    answers: Seq<Result<Option<Outcome>, Error>>,
    states: Seq<E>,
) -> bool {
    &&& answers.len() == jobs.len()
    &&& states.len() == jobs.len() + 1
    &&& forall|i: int|
        #![trigger answers[i]]
        0 <= i < jobs.len() && i <= failing_from(jobs, answers, 0) ==> if jobs[i].state
            == State::Running {
            poll_gave(states[i], jobs[i].id, answers[i])
        } else {
            states[i + 1] == states[i]
        }
}

impl<E: Executor> Scheduler<E> {
    /// Asking after the running jobs, with these answers and by way of these states of the
    /// executor, led to the state and gave this.
    pub open spec fn collecting(
        self,
        answers: Seq<Result<Option<Outcome>, Error>>,
        states: Seq<E>,
        after: Self,
        r: Result<bool, Error>,
    ) -> bool {
        let jobs = self.store@.jobs;
        let end = failing_from(jobs, answers, 0);
        &&& asked_in_turn(jobs, answers, states)
        &&& states[0] == self.executor
        &&& after.executor == states[if end < jobs.len() {
            end + 1
        } else {
            end
        }]
        &&& gathered(jobs, answers, after.store@.jobs, r)
    }
}

/// What the jobs hold is held once: by one job, and by that job once.
pub open spec fn exclusive(jobs: Seq<JobModel>) -> bool {
    &&& forall|i: int, j: int, key: Seq<char>|
        0 <= i < j < jobs.len() ==> !(#[trigger] holds(jobs[i], key) && #[trigger] holds(
            jobs[j],
            key,
        ))
    &&& forall|i: int| 0 <= i < jobs.len() ==> held_once(#[trigger] jobs[i])
}

/// A running job has no device twice.
pub open spec fn held_once(job: JobModel) -> bool {
    job.state == State::Running ==> distinct_keys(job.devices)
}

/// Nothing that the submitter gave was changed, and what is over stays as it ended.
pub open spec fn kept(before: Seq<JobModel>, after: Seq<JobModel>) -> bool {
    &&& before.len() == after.len()
    &&& forall|i: int|
        #![trigger before[i]]
        #![trigger after[i]]
        0 <= i < before.len() ==> {
            &&& after[i].id == before[i].id
            &&& after[i].owner == before[i].owner
            &&& after[i].spec == before[i].spec
            &&& after[i].submitted_at == before[i].submitted_at
            &&& before[i].state.is_terminal() ==> after[i] == before[i]
        }
}

// ---- Facts about single changes ----

proof fn lemma_running_update(jobs: Seq<JobModel>, at: int, job: JobModel)
    requires
        0 <= at < jobs.len(),
    ensures
        running_count(jobs.update(at, job)) == running_count(jobs) - (if jobs[at].state
            == State::Running {
            1int
        } else {
            0int
        }) + (if job.state == State::Running {
            1int
        } else {
            0int
        }),
    decreases jobs.len(),
{
    let updated = jobs.update(at, job);
    if at == jobs.len() - 1 {
        assert(updated.drop_last() =~= jobs.drop_last());
    } else {
        assert(updated.drop_last() =~= jobs.drop_last().update(at, job));
        lemma_running_update(jobs.drop_last(), at, job);
    }
}

/// A job that stops holding anything, or whose devices nobody holds, leaves the rest exclusive.
proof fn lemma_exclusive_update(jobs: Seq<JobModel>, at: int, job: JobModel)
    requires
        0 <= at < jobs.len(),
        exclusive(jobs),
        forall|i: int, key: Seq<char>|
            0 <= i < jobs.len() && i != at && holds(job, key) ==> !#[trigger] holds(jobs[i], key),
        held_once(job),
    ensures
        exclusive(jobs.update(at, job)),
{
    let updated = jobs.update(at, job);
    assert forall|i: int| 0 <= i < updated.len() implies held_once(#[trigger] updated[i]) by {
        if i != at {
            assert(held_once(jobs[i]));
        }
    }
    assert forall|i: int, j: int, key: Seq<char>| 0 <= i < j < updated.len() implies !(
    #[trigger] holds(updated[i], key) && #[trigger] holds(updated[j], key)) by {
        if i == at {
            assert(updated[j] == jobs[j]);
        } else if j == at {
            assert(updated[i] == jobs[i]);
        } else {
            assert(updated[i] == jobs[i] && updated[j] == jobs[j]);
            assert(!(holds(jobs[i], key) && holds(jobs[j], key)));
        }
    }
}

/// What has ended frees devices and places and takes none.
pub proof fn collecting_only_frees(before: Seq<JobModel>, after: Seq<JobModel>)
    requires
        collected(before, after),
    ensures
        running_count(after) <= running_count(before),
        held(after).subset_of(held(before)),
        exclusive(before) ==> exclusive(after),
{
    assert forall|i: int, key: Seq<char>| 0 <= i < after.len() && #[trigger] holds(
        after[i],
        key,
    ) implies holds(before[i], key) by {
        assert(unchanged_or_ended(before[i], after[i]));
    }
    assert forall|key: Seq<char>| is_held(after, key) implies is_held(before, key) by {
        let i = choose|i: int| 0 <= i < after.len() && holds(#[trigger] after[i], key);
        assert(holds(before[i], key));
    }
    if exclusive(before) {
        assert forall|i: int, j: int, key: Seq<char>| 0 <= i < j < after.len() implies !(
        #[trigger] holds(after[i], key) && #[trigger] holds(after[j], key)) by {
            assert(!(holds(before[i], key) && holds(before[j], key)));
        }
        assert forall|i: int| 0 <= i < after.len() implies held_once(#[trigger] after[i]) by {
            assert(unchanged_or_ended(before[i], after[i]));
            assert(held_once(before[i]));
        }
    }
    lemma_fewer_running(before, after);
}

proof fn lemma_fewer_running(before: Seq<JobModel>, after: Seq<JobModel>)
    requires
        before.len() == after.len(),
        forall|i: int|
            0 <= i < after.len() && (#[trigger] after[i]).state == State::Running ==> before[i].state
                == State::Running,
    ensures
        running_count(after) <= running_count(before),
    decreases before.len(),
{
    if before.len() > 0 {
        let b = before.drop_last();
        let a = after.drop_last();
        assert forall|i: int|
            0 <= i < a.len() && (#[trigger] a[i]).state == State::Running implies b[i].state
            == State::Running by {
            assert(after[i] == a[i]);
        }
        lemma_fewer_running(b, a);
        assert(after[after.len() - 1] == after.last());
        assert(before[before.len() - 1] == before.last());
    }
}

// ---- The pass ----

impl<E: Executor> Scheduler<E> {
    /// Records what asking after the job at a place gave, and tells whether it has ended.
    pub fn absorb(&mut self, index: usize, polled: Option<Outcome>) -> (r: bool)
        requires
            index < old(self).store.jobs.len(),
        ensures
            r == (polled is Some),
            match polled {
                Some(outcome) => final(self).store@ == old(self).store@.changed(
                    index as int,
                    settled(old(self).store@.jobs[index as int], outcome@),
                ),
                None => final(self).store == old(self).store,
            },
            final(self).inventory == old(self).inventory,
            final(self).executor == old(self).executor,
            final(self).max_running == old(self).max_running,
    {
        match polled {
            Some(outcome) => {
                self.settle(index, outcome);
                true
            },
            None => false,
        }
    }

    /// Asks after each running job, and tells whether one has ended. Where asking fails the jobs
    /// before it have been recorded.
    fn collect(&mut self) -> (r: Result<bool, Error>)
        ensures
            exists|answers: Seq<Result<Option<Outcome>, Error>>, states: Seq<E>|
                {
                    &&& #[trigger] old(self).collecting(answers, states, *final(self), r)
                    &&& forall|i: int|
                        #![trigger old(self).store@.jobs[i]]
                        {
                            &&& 0 <= i < old(self).store@.jobs.len()
                            &&& i <= failing_from(old(self).store@.jobs, answers, 0)
                            &&& old(self).store@.jobs[i].state == State::Running
                        } ==> exists|asked: &mut E|
                            {
                                &&& *asked == states[i]
                                &&& *final(asked) == states[i + 1]
                                &&& #[trigger] call_ensures(
                                    E::poll,
                                    (asked, old(self).store@.jobs[i].id),
                                    answers[i],
                                )
                            }
                },
            collected(old(self).store@.jobs, final(self).store@.jobs),
            r == Ok::<bool, Error>(false) ==> final(self).store@ == old(self).store@,
            r == Ok::<bool, Error>(true) ==> some_ended(
                old(self).store@.jobs,
                final(self).store@.jobs,
            ),
            running_count(old(self).store@.jobs) == 0 ==> r == Ok::<bool, Error>(false),
            final(self).store.next_id == old(self).store.next_id,
            final(self).inventory == old(self).inventory,
            final(self).max_running == old(self).max_running,
    {
        let mut changed = false;
        let ghost before = self.store@.jobs;
        let ghost mut answers = Seq::<Result<Option<Outcome>, Error>>::empty();
        let ghost mut states = seq![self.executor];
        let count = self.store.jobs.len();
        assert(self.store@.jobs =~= answered_until(before, answers, 0));
        for i in 0..count
            invariant
                before == old(self).store@.jobs,
                count == before.len(),
                answers.len() == i,
                states.len() == i + 1,
                states[0] == old(self).executor,
                states[i as int] == self.executor,
                answered_in_turn(before, answers, states, i as int),
                forall|k: int|
                    #![trigger before[k]]
                    0 <= k < i && before[k].state == State::Running ==> exists|asked: &mut E|
                        {
                            &&& *asked == states[k]
                            &&& *final(asked) == states[k + 1]
                            &&& #[trigger] call_ensures(E::poll, (asked, before[k].id), answers[k])
                        },
                self.store@.jobs == answered_until(before, answers, i as int),
                changed == end_told(before, answers, i as int),
                self.store.next_id == old(self).store.next_id,
                self.inventory == old(self).inventory,
                self.max_running == old(self).max_running,
        {
            let ghost now_jobs = self.store@.jobs;
            let ghost now_answers = answers;
            let ghost now_states = states;
            assert(now_jobs.len() == self.store.jobs@.len());
            assert(now_jobs[i as int] == before[i as int]);
            assert(self.store.jobs@[i as int]@ == now_jobs[i as int]);
            if self.store.jobs[i].state == State::Running {
                let id = self.store.jobs[i].id;
                let answer = self.executor.poll(id);
                assert(poll_gave(now_states[i as int], id, answer));
                assert(exists|asked: &mut E|
                    {
                        &&& *asked == now_states[i as int]
                        &&& *final(asked) == self.executor
                        &&& #[trigger] call_ensures(E::poll, (asked, id), answer)
                    });
                proof {
                    answers = now_answers.push(answer);
                    states = now_states.push(self.executor);
                }
                match answer {
                    Ok(outcome) => {
                        let ended = self.absorb(i, outcome);
                        if ended {
                            changed = true;
                        }
                    },
                    Err(error) => {
                        proof {
                            assert(answers.drop_last() =~= now_answers);
                            assert(states.drop_last() =~= now_states);
                            lemma_failed(before, answers, states, i as int);
                            lemma_collected(before, padded_answers(answers, before.len()));
                            assert(self.store@.jobs =~= answered_until(
                                before,
                                padded_answers(answers, before.len()),
                                i as int,
                            ));
                            assert(old(self).collecting(
                                padded_answers(answers, before.len()),
                                padded_states(states, before.len() + 1),
                                *self,
                                Err(error),
                            ));
                        }
                        return Err(error);
                    },
                }
            } else {
                proof {
                    answers = now_answers.push(Ok(None));
                    states = now_states.push(self.executor);
                }
            }
            proof {
                assert(answers.drop_last() =~= now_answers);
                assert(states.drop_last() =~= now_states);
                lemma_answered_one_more(before, now_answers, now_states, answers, states, i as int);
                assert forall|k: int|
                    #![trigger before[k]]
                    0 <= k < i + 1 && before[k].state == State::Running implies exists|
                    asked: &mut E,
                |
                    {
                        &&& *asked == states[k]
                        &&& *final(asked) == states[k + 1]
                        &&& #[trigger] call_ensures(E::poll, (asked, before[k].id), answers[k])
                    } by {
                    if k < i {
                        assert(answers[k] == now_answers[k]);
                        assert(states[k] == now_states[k] && states[k + 1] == now_states[k + 1]);
                    }
                }
                assert(self.store@.jobs =~= answered_until(before, answers, i + 1));
            }
        }
        proof {
            lemma_all_answered(before, answers, states);
            lemma_collected(before, answers);
            assert(old(self).collecting(answers, states, *self, Ok(changed)));
        }
        Ok(changed)
    }

    /// The plan with which starting jobs begins.
    pub fn plan(&self) -> (r: Plan)
        ensures
            r@ == first_plan(
                self.store@.jobs,
                device_models(self.inventory.devices@),
                self.inventory.status@,
            ),
    {
        let ghost jobs = self.store@.jobs;
        let ghost devices = device_models(self.inventory.devices@);
        let ghost status = self.inventory.status@;
        let mut reserved = Keys::new();
        let mut running: usize = 0;
        assert(reserved@ =~= held(jobs.take(0)));
        for i in 0..self.store.jobs.len()
            invariant
                jobs == self.store@.jobs,
                reserved@ == held(jobs.take(i as int)),
                running == running_count(jobs.take(i as int)),
                running <= i,
        {
            let job = &self.store.jobs[i];
            assert(jobs.take(i + 1).drop_last() =~= jobs.take(i as int));
            assert(jobs.take(i + 1).last() == job@);
            if job.state == State::Running {
                reserve(&mut reserved, &job.devices);
                running = running + 1;
            }
            proof {
                lemma_held_push(jobs, i as int);
            }
        }
        assert(jobs.take(jobs.len() as int) =~= jobs);
        assert(reserved@ =~= held(jobs).union(busy(devices.take(0), status)));
        for i in 0..self.inventory.devices.len()
            invariant
                jobs == self.store@.jobs,
                devices == device_models(self.inventory.devices@),
                status == self.inventory.status@,
                reserved@ == held(jobs).union(busy(devices.take(i as int), status)),
        {
            let key = self.inventory.devices[i].key();
            assert(devices[i as int].key() == key@);
            let idle = match self.inventory.status.get(&key) {
                Some(status) => *status == "idle".to_owned(),
                None => false,
            };
            assert(idle == is_idle(status, key@));
            if !idle {
                let _new = reserved.insert(key);
            }
            proof {
                lemma_busy_push(devices, status, i as int);
                assert(reserved@ =~= held(jobs).union(busy(devices.take(i + 1), status)));
            }
        }
        assert(devices.take(devices.len() as int) =~= devices);
        Plan { reserved, running, cursor: 0 }
    }

    /// Takes the next job that can be started, at a given time, and marks it as running.
    pub fn admit_at(&mut self, plan: &Plan, started_at: u64) -> (r: Option<usize>)
        ensures
            match admission(
                old(self).store@.jobs,
                device_models(old(self).inventory.devices@),
                plan@,
                old(self).max_running,
            ) {
                Some(at) => r is Some && r->0 == at,
                None => r is None,
            },
            final(self).store@ == admitted(
                old(self).store@,
                device_models(old(self).inventory.devices@),
                plan@,
                old(self).max_running,
                started_at,
            ),
            final(self).inventory == old(self).inventory,
            final(self).executor == old(self).executor,
            final(self).max_running == old(self).max_running,
    {
        if plan.running >= self.max_running {
            return None;
        }
        let ghost jobs = self.store@.jobs;
        let ghost devices = device_models(self.inventory.devices@);
        let mut i: usize = plan.cursor;
        while i < self.store.jobs.len()
            invariant
                *self == *old(self),
                jobs == self.store@.jobs,
                devices == device_models(self.inventory.devices@),
                plan.running < self.max_running,
                fitting_from(jobs, devices, plan.reserved@, i as int) == fitting_from(
                    jobs,
                    devices,
                    plan.reserved@,
                    plan.cursor as int,
                ),
            decreases self.store.jobs.len() - i,
        {
            assert(jobs[i as int] == self.store.jobs@[i as int]@);
            if self.store.jobs[i].state == State::Pending {
                let given = allocate(
                    &self.store.jobs[i].spec,
                    &self.inventory.devices,
                    &plan.reserved,
                );
                if let Some(list) = given {
                    let ghost models = device_models(list@);
                    let job = &mut self.store.jobs[i];
                    job.devices = list;
                    job.state = State::Running;
                    job.started_at = Some(started_at);
                    assert(self.store@.jobs =~= jobs.update(
                        i as int,
                        starting(jobs[i as int], models, started_at),
                    ));
                    return Some(i);
                }
            }
            i = i + 1;
        }
        None
    }

    /// Records what starting the job at a place gave, at a given time. Gives how the pass goes on
    /// and whether the start failed.
    pub fn launched_at(
        &mut self,
        index: usize,
        plan: Plan,
        result: Result<(), Error>,
        finished_at: u64,
    ) -> (r: (Plan, bool))
        requires
            index < old(self).store.jobs.len(),
            plan.running < usize::MAX,
        ensures
            r.0@ == plan_after(
                plan@,
                old(self).store@.jobs[index as int],
                index as nat,
                result is Ok,
            ),
            r.1 == (result is Err),
            final(self).store@ == after_launch(
                old(self).store@,
                index as int,
                result_model(result),
                finished_at,
            ),
            final(self).inventory == old(self).inventory,
            final(self).executor == old(self).executor,
            final(self).max_running == old(self).max_running,
    {
        let mut plan = plan;
        plan.cursor = index + 1;
        match result {
            Ok(_) => {
                reserve(&mut plan.reserved, &self.store.jobs[index].devices);
                plan.running = plan.running + 1;
                (plan, false)
            },
            Err(error) => {
                self.settle(index, failure_at(error.message(), finished_at));
                (plan, true)
            },
        }
    }
}

/// The running jobs before `end` were asked after, and none of the answers is a failure.
spec fn answered_in_turn<E: Executor>(
    jobs: Seq<JobModel>,
    answers: Seq<Result<Option<Outcome>, Error>>,
    states: Seq<E>,
    end: int,
) -> bool {
    forall|i: int|
        #![trigger answers[i]]
        0 <= i < end ==> if jobs[i].state == State::Running {
            answers[i] is Ok && poll_gave(states[i], jobs[i].id, answers[i])
        } else {
            states[i + 1] == states[i]
        }
}

/// The answers with nothing said of the jobs behind them.
spec fn padded_answers(answers: Seq<Result<Option<Outcome>, Error>>, count: nat) -> Seq<
    Result<Option<Outcome>, Error>,
> {
    Seq::new(
        count,
        |i: int|
            if i < answers.len() {
                answers[i]
            } else {
                Ok(None)
            },
    )
}

/// The states of the executor, the last of them for all places behind.
spec fn padded_states<E>(states: Seq<E>, count: nat) -> Seq<E> {
    Seq::new(
        count,
        |i: int|
            if i < states.len() {
                states[i]
            } else {
                states.last()
            },
    )
}

proof fn lemma_failing_is(
    jobs: Seq<JobModel>,
    answers: Seq<Result<Option<Outcome>, Error>>,
    from: int,
    at: int,
)
    requires
        0 <= from <= at <= jobs.len(),
        forall|i: int|
            from <= i < at && (#[trigger] jobs[i]).state == State::Running ==> answers[i] is Ok,
        at < jobs.len() ==> jobs[at].state == State::Running && answers[at] is Err,
    ensures
        failing_from(jobs, answers, from) == at,
    decreases at - from,
{
    if from < at {
        lemma_failing_is(jobs, answers, from + 1, at);
    }
}

/// One more answer that is no failure.
proof fn lemma_answered_one_more<E: Executor>(
    jobs: Seq<JobModel>,
    answers: Seq<Result<Option<Outcome>, Error>>,
    states: Seq<E>,
    more_answers: Seq<Result<Option<Outcome>, Error>>,
    more_states: Seq<E>,
    at: int,
)
    requires
        0 <= at < jobs.len(),
        answers.len() == at,
        states.len() == at + 1,
        answered_in_turn(jobs, answers, states, at),
        more_answers.len() == at + 1,
        more_answers.drop_last() == answers,
        more_states.len() == at + 2,
        more_states.drop_last() == states,
        if jobs[at].state == State::Running {
            more_answers[at] is Ok && poll_gave(states[at], jobs[at].id, more_answers[at])
        } else {
            more_states[at + 1] == states[at]
        },
    ensures
        answered_in_turn(jobs, more_answers, more_states, at + 1),
        answered_until(jobs, more_answers, at + 1) == answered_until(jobs, answers, at).update(
            at,
            answered(jobs[at], more_answers[at]),
        ),
        end_told(jobs, more_answers, at + 1) == (end_told(jobs, answers, at) || says_ended(
            jobs[at],
            more_answers[at],
        )),
{
    assert forall|i: int| 0 <= i < at implies answers[i] == #[trigger] more_answers[i] by {
        assert(more_answers.drop_last()[i] == more_answers[i]);
    }
    assert forall|i: int| 0 <= i <= at implies states[i] == #[trigger] more_states[i] by {
        assert(more_states.drop_last()[i] == more_states[i]);
    }
    assert forall|i: int| #![trigger more_answers[i]] 0 <= i < at + 1 implies if jobs[i].state
        == State::Running {
        more_answers[i] is Ok && poll_gave(more_states[i], jobs[i].id, more_answers[i])
    } else {
        more_states[i + 1] == more_states[i]
    } by {
        assert(states[at] == more_states[at]);
        if i < at {
            assert(answers[i] == more_answers[i]);
            assert(states[i] == more_states[i]);
            assert(states[i + 1] == more_states[i + 1]);
        }
    }
    assert(answered_until(jobs, more_answers, at + 1) =~= answered_until(jobs, answers, at).update(
        at,
        answered(jobs[at], more_answers[at]),
    ));
    if end_told(jobs, answers, at) {
        let i = choose|i: int|
            0 <= i < at && i < jobs.len() && says_ended(jobs[i], #[trigger] answers[i]);
        assert(says_ended(jobs[i], more_answers[i]));
    }
    if says_ended(jobs[at], more_answers[at]) {
        assert(end_told(jobs, more_answers, at + 1));
    }
    if end_told(jobs, more_answers, at + 1) {
        let i = choose|i: int|
            0 <= i < at + 1 && i < jobs.len() && says_ended(jobs[i], #[trigger] more_answers[i]);
        if i < at {
            assert(says_ended(jobs[i], answers[i]));
        }
    }
}

/// All were answered without a failure.
proof fn lemma_all_answered<E: Executor>(
    jobs: Seq<JobModel>,
    answers: Seq<Result<Option<Outcome>, Error>>,
    states: Seq<E>,
)
    requires
        answers.len() == jobs.len(),
        states.len() == jobs.len() + 1,
        answered_in_turn(jobs, answers, states, jobs.len() as int),
    ensures
        failing_from(jobs, answers, 0) == jobs.len(),
        asked_in_turn(jobs, answers, states),
{
    assert forall|i: int|
        0 <= i < jobs.len() && (#[trigger] jobs[i]).state
            == State::Running implies answers[i] is Ok by {}
    lemma_failing_is(jobs, answers, 0, jobs.len() as int);
}

/// The last answer is a failure; nobody behind it was asked.
proof fn lemma_failed<E: Executor>(
    jobs: Seq<JobModel>,
    answers: Seq<Result<Option<Outcome>, Error>>,
    states: Seq<E>,
    at: int,
)
    requires
        0 <= at < jobs.len(),
        answers.len() == at + 1,
        states.len() == at + 2,
        answered_in_turn(jobs, answers.drop_last(), states.drop_last(), at),
        jobs[at].state == State::Running,
        answers[at] is Err,
        poll_gave(states[at], jobs[at].id, answers[at]),
    ensures
        failing_from(jobs, padded_answers(answers, jobs.len()), 0) == at,
        asked_in_turn(
            jobs,
            padded_answers(answers, jobs.len()),
            padded_states(states, jobs.len() + 1),
        ),
{
    let all = padded_answers(answers, jobs.len());
    let every = padded_states(states, jobs.len() + 1);
    assert forall|i: int| 0 <= i < at implies if jobs[i].state == State::Running {
        #[trigger] all[i] is Ok && poll_gave(every[i], jobs[i].id, all[i])
    } else {
        every[i + 1] == every[i]
    } by {
        assert(answers.drop_last()[i] == all[i]);
        assert(states.drop_last()[i] == every[i]);
        assert(states.drop_last()[i + 1] == every[i + 1]);
    }
    assert forall|i: int|
        0 <= i < at && (#[trigger] jobs[i]).state == State::Running implies all[i] is Ok by {
        assert(all[i] == all[i]);
    }
    lemma_failing_is(jobs, all, 0, at);
}

/// What follows from the answers for the jobs, whatever they are.
proof fn lemma_collected(jobs: Seq<JobModel>, answers: Seq<Result<Option<Outcome>, Error>>)
    ensures
        ({
            let end = failing_from(jobs, answers, 0);
            let after = answered_until(jobs, answers, end);
            &&& collected(jobs, after)
            &&& !end_told(jobs, answers, end) ==> after == jobs
            &&& end_told(jobs, answers, end) ==> some_ended(jobs, after)
            &&& running_count(jobs) == 0 ==> end == jobs.len() && !end_told(jobs, answers, end)
        }),
{
    let end = failing_from(jobs, answers, 0);
    let after = answered_until(jobs, answers, end);
    assert forall|i: int| 0 <= i < jobs.len() implies unchanged_or_ended(
        jobs[i],
        #[trigger] after[i],
    ) by {}
    if end_told(jobs, answers, end) {
        let i = choose|i: int|
            0 <= i < end && i < jobs.len() && says_ended(jobs[i], #[trigger] answers[i]);
        assert(has_ended(jobs[i], after[i]));
        lemma_running_counts(jobs, i);
    } else {
        assert forall|i: int| 0 <= i < jobs.len() implies after[i] == jobs[i] by {
            if i < end {
                assert(!says_ended(jobs[i], answers[i]));
            }
        }
        assert(after =~= jobs);
    }
    lemma_failing(jobs, answers, 0);
    if end < jobs.len() {
        lemma_running_counts(jobs, end);
    }
}

/// What fails is a running job.
proof fn lemma_failing(
    jobs: Seq<JobModel>,
    answers: Seq<Result<Option<Outcome>, Error>>,
    from: int,
)
    requires
        0 <= from <= jobs.len(),
    ensures
        from <= failing_from(jobs, answers, from) <= jobs.len(),
        failing_from(jobs, answers, from) < jobs.len() ==> jobs[failing_from(
            jobs,
            answers,
            from,
        )].state == State::Running && answers[failing_from(jobs, answers, from)] is Err,
        forall|j: int|
            from <= j < failing_from(jobs, answers, from) && (#[trigger] jobs[j]).state
                == State::Running ==> answers[j] is Ok,
    decreases jobs.len() - from,
{
    if from < jobs.len() && !(jobs[from].state == State::Running && answers[from] is Err) {
        lemma_failing(jobs, answers, from + 1);
    }
}

proof fn lemma_running_counts(jobs: Seq<JobModel>, i: int)
    requires
        0 <= i < jobs.len(),
        jobs[i].state == State::Running,
    ensures
        running_count(jobs) > 0,
    decreases jobs.len(),
{
    if i < jobs.len() - 1 {
        lemma_running_counts(jobs.drop_last(), i);
    }
}

proof fn lemma_held_push(jobs: Seq<JobModel>, i: int)
    requires
        0 <= i < jobs.len(),
    ensures
        held(jobs.take(i + 1)) == if jobs[i].state == State::Running {
            held(jobs.take(i)).union(keys_of(jobs[i].devices))
        } else {
            held(jobs.take(i))
        },
{
    let more = jobs.take(i + 1);
    let some = jobs.take(i);
    assert forall|key: Seq<char>| is_held(more, key) == (is_held(some, key) || holds(
        jobs[i],
        key,
    )) by {
        if is_held(some, key) {
            let j = choose|j: int| 0 <= j < some.len() && holds(#[trigger] some[j], key);
            assert(holds(more[j], key));
        }
        if holds(jobs[i], key) {
            assert(holds(more[i], key));
        }
        if is_held(more, key) {
            let j = choose|j: int| 0 <= j < more.len() && holds(#[trigger] more[j], key);
            if j < i {
                assert(holds(some[j], key));
            }
        }
    }
    if jobs[i].state == State::Running {
        assert(held(more) =~= held(some).union(keys_of(jobs[i].devices)));
    } else {
        assert(held(more) =~= held(some));
    }
}

proof fn lemma_busy_push(devices: Seq<DeviceModel>, status: Map<Seq<char>, Seq<char>>, i: int)
    requires
        0 <= i < devices.len(),
    ensures
        busy(devices.take(i + 1), status) == if is_idle(status, devices[i].key()) {
            busy(devices.take(i), status)
        } else {
            busy(devices.take(i), status).insert(devices[i].key())
        },
{
    lemma_keys_push(devices, i);
    let more = devices.take(i + 1);
    let some = devices.take(i);
    assert forall|key: Seq<char>| has_key(more, key) == (has_key(some, key) || key
        == devices[i].key()) by {
        assert(keys_of(more).contains(key) == keys_of(some).insert(devices[i].key()).contains(key));
    }
    if is_idle(status, devices[i].key()) {
        assert(busy(more, status) =~= busy(some, status));
    } else {
        assert(busy(more, status) =~= busy(some, status).insert(devices[i].key()));
    }
}

/// The keys of the devices that running jobs hold, the one at `except` aside.
pub open spec fn held_except(jobs: Seq<JobModel>, except: int) -> Set<Seq<char>> {
    Set::new(|key: Seq<char>| is_held_except(jobs, except, key))
}

/// A running job other than the one at `except` has the device.
pub open spec fn is_held_except(jobs: Seq<JobModel>, except: int, key: Seq<char>) -> bool {
    exists|i: int| 0 <= i < jobs.len() && i != except && holds(#[trigger] jobs[i], key)
}

/// None of the pending jobs before `end` fits the free devices.
pub open spec fn passed_over(
    jobs: Seq<JobModel>,
    devices: Seq<DeviceModel>,
    reserved: Set<Seq<char>>,
    end: int,
) -> bool {
    forall|i: int|
        0 <= i < jobs.len() && i < end && (#[trigger] jobs[i]).state == State::Pending
            ==> allocation(jobs[i].spec, devices, reserved) is None
}

/// The step that follows what collecting told.
pub open spec fn scheduling(told: Result<bool, Error>) -> Result<Tick, Error> {
    match told {
        Ok(changed) => Ok(Tick::Schedule { changed }),
        Err(error) => Err(error),
    }
}

/// The step that was given says that a start failed.
pub open spec fn start_failed(r: Result<Tick, Error>) -> bool {
    match r {
        Ok(Tick::Scan { failed, .. }) => failed,
        _ => false,
    }
}

/// The step that follows when this job, if any, is to be started.
pub open spec fn proceeds(next: Tick, admission: Option<int>, plan: PlanModel) -> bool {
    match admission {
        Some(at) => match next {
            Tick::Launch { index, plan: carried } => index == at && carried@ == plan,
            _ => false,
        },
        None => next is Done,
    }
}

impl<E> Scheduler<E> {
    /// The step fits the state of the queue. The first step always does, and so does each one that
    /// a step gives.
    pub open spec fn accepts(self, at: Tick) -> bool {
        let jobs = self.store@.jobs;
        let devices = device_models(self.inventory.devices@);
        match at {
            Tick::Launch { index, plan } => {
                &&& index < jobs.len()
                &&& jobs[index as int].state == State::Running
                &&& jobs[index as int].started_at is Some
                &&& plan.running < self.max_running
                &&& plan.running + 1 == running_count(jobs)
                &&& plan@.reserved == held_except(jobs, index as int).union(
                    busy(devices, self.inventory.status@),
                )
                &&& passed_over(jobs, devices, plan@.reserved, index as int)
            },
            Tick::Scan { plan, .. } => {
                &&& plan.running == running_count(jobs)
                &&& plan@.reserved == blocked(jobs, devices, self.inventory.status@)
                &&& passed_over(jobs, devices, plan@.reserved, plan.cursor as int)
            },
            _ => true,
        }
    }

    /// As many jobs run as may, or none of the pending ones fits the devices that are free.
    pub open spec fn saturated(self) -> bool {
        let jobs = self.store@.jobs;
        let devices = device_models(self.inventory.devices@);
        ||| running_count(jobs) >= self.max_running
        ||| passed_over(
            jobs,
            devices,
            blocked(jobs, devices, self.inventory.status@),
            jobs.len() as int,
        )
    }

    /// Marking the next job as running under this plan led to the state and to the next step.
    pub open spec fn advanced(self, plan: PlanModel, after: Self, next: Tick) -> bool {
        let devices = device_models(self.inventory.devices@);
        &&& exists|started_at: u64|
            #[trigger] clock_gave(started_at) && after.store@ == admitted(
                self.store@,
                devices,
                plan,
                self.max_running,
                started_at,
            )
        &&& proceeds(next, admission(self.store@.jobs, devices, plan, self.max_running), plan)
        &&& after.executor == self.executor
    }
}

impl<E: Executor> Scheduler<E> {
    /// The step led to the state and to what it gave. Only two steps ask anything of the executor:
    /// collecting asks after the running jobs, and launching starts one job.
    pub open spec fn stepped(self, at: Tick, after: Self, r: Result<Tick, Error>) -> bool {
        match at {
            Tick::Collect => {
                &&& exists|
                    answers: Seq<Result<Option<Outcome>, Error>>,
                    states: Seq<E>,
                    told: Result<bool, Error>,
                |
                    #[trigger] self.collecting(answers, states, after, told) && r == scheduling(
                        told,
                    )
                &&& collected(self.store@.jobs, after.store@.jobs)
                &&& r is Ok ==> r->Ok_0 is Schedule
                &&& r == Ok::<Tick, Error>(Tick::Schedule { changed: false }) ==> after.store@
                    == self.store@
                &&& r == Ok::<Tick, Error>(Tick::Schedule { changed: true }) ==> some_ended(
                    self.store@.jobs,
                    after.store@.jobs,
                )
                &&& running_count(self.store@.jobs) == 0 ==> r == Ok::<Tick, Error>(
                    Tick::Schedule { changed: false },
                )
            },
            Tick::Schedule { .. } => {
                &&& r is Ok
                &&& self.advanced(
                    first_plan(
                        self.store@.jobs,
                        device_models(self.inventory.devices@),
                        self.inventory.status@,
                    ),
                    after,
                    r->Ok_0,
                )
            },
            Tick::Scan { plan, .. } => r is Ok && self.advanced(plan@, after, r->Ok_0),
            Tick::Launch { index, plan } => {
                &&& r is Ok
                &&& match r->Ok_0 {
                    Tick::Scan { plan: next, failed } => {
                        &&& next@ == plan_after(
                            plan@,
                            self.store@.jobs[index as int],
                            index as nat,
                            !failed,
                        )
                        &&& exists|result: Result<(), Error>, finished_at: u64|
                            {
                                &&& #[trigger] start_gave(
                                    self.executor,
                                    &self.store.jobs@[index as int],
                                    result,
                                )
                                &&& failed == (result is Err)
                                &&& clock_gave(finished_at)
                                &&& after.store@ == #[trigger] after_launch(
                                    self.store@,
                                    index as int,
                                    result_model(result),
                                    finished_at,
                                )
                            }
                    },
                    _ => false,
                }
            },
            Tick::Done => r == Ok::<Tick, Error>(Tick::Done) && after == self,
        }
    }
}

impl<E: Executor> Scheduler<E> {
    /// Marks the next job as running, now.
    fn advance(&mut self, plan: Plan) -> (r: Tick)
        requires
            plan.running == running_count(old(self).store@.jobs),
            plan@.reserved == blocked(
                old(self).store@.jobs,
                device_models(old(self).inventory.devices@),
                old(self).inventory.status@,
            ),
            passed_over(
                old(self).store@.jobs,
                device_models(old(self).inventory.devices@),
                plan@.reserved,
                plan.cursor as int,
            ),
        ensures
            old(self).advanced(plan@, *final(self), r),
            r is Done ==> final(self).saturated(),
            final(self).accepts(r),
            kept(old(self).store@.jobs, final(self).store@.jobs),
            exclusive(old(self).store@.jobs) && distinct_keys(
                device_models(old(self).inventory.devices@),
            ) ==> exclusive(final(self).store@.jobs),
            running_count(final(self).store@.jobs) <= running_count(old(self).store@.jobs)
                || running_count(final(self).store@.jobs) <= old(self).max_running,
            final(self).store.next_id == old(self).store.next_id,
            final(self).inventory == old(self).inventory,
            final(self).max_running == old(self).max_running,
    {
        let ghost jobs = self.store@.jobs;
        let ghost devices = device_models(self.inventory.devices@);
        let ghost reserved = plan.reserved@;
        let started_at: u64 = now();
        assert(clock_gave(started_at));
        match self.admit_at(&plan, started_at) {
            Some(index) => {
                proof {
                    let at = index as int;
                    lemma_fitting(jobs, devices, reserved, plan.cursor as int);
                    let job = self.store@.jobs[at];
                    assert(self.store@.jobs == jobs.update(at, job));
                    lemma_running_update(jobs, at, job);
                    lemma_given_is_free(jobs[at].spec, devices, reserved);
                    if exclusive(jobs) && distinct_keys(devices) {
                        allocations_are_exclusive_and_of_one_vendor(
                            jobs[at].spec,
                            devices,
                            reserved,
                        );
                        lemma_exclusive_update(jobs, at, job);
                    }
                    lemma_held_except_update(jobs, at, job);
                    assert(held_except(self.store@.jobs, at) =~= held(jobs));
                }
                Tick::Launch { index, plan }
            },
            None => {
                proof {
                    if plan.running < self.max_running {
                        lemma_nothing_fits(jobs, devices, reserved, plan.cursor as int);
                    }
                }
                Tick::Done
            },
        }
    }

    /// Takes one step of a pass, and gives the next one. A pass begins with `Tick::Collect`.
    /// `saved` is what came of saving the store before the step, where it must be saved; if that
    /// failed, the pass ends with its error, and nothing is changed or asked of the executor.
    ///
    /// What the executor is asked is fixed with the state in which each call leaves it: collecting
    /// asks after the running jobs in their order, launching starts the job at its place once, and
    /// no other step asks anything.
    pub fn tick(&mut self, at: Tick, saved: Result<(), Error>) -> (r: Result<Tick, Error>)
        requires
            old(self).accepts(at),
        ensures
            match saved {
                Ok(_) => old(self).stepped(at, *final(self), r),
                Err(error) => r == Err::<Tick, Error>(error) && *final(self) == *old(self),
            },
            saved is Ok && at is Collect ==> exists|
                answers: Seq<Result<Option<Outcome>, Error>>,
                states: Seq<E>,
                told: Result<bool, Error>,
            |
                {
                    &&& #[trigger] old(self).collecting(answers, states, *final(self), told)
                    &&& r == scheduling(told)
                    &&& forall|i: int|
                        #![trigger old(self).store@.jobs[i]]
                        {
                            &&& 0 <= i < old(self).store@.jobs.len()
                            &&& i <= failing_from(old(self).store@.jobs, answers, 0)
                            &&& old(self).store@.jobs[i].state == State::Running
                        } ==> exists|asked: &mut E|
                            {
                                &&& *asked == states[i]
                                &&& *final(asked) == states[i + 1]
                                &&& #[trigger] call_ensures(
                                    E::poll,
                                    (asked, old(self).store@.jobs[i].id),
                                    answers[i],
                                )
                            }
                },
            saved is Ok && at is Launch ==> exists|asked: &mut E, result: Result<(), Error>, finished_at: u64|
                {
                    &&& *asked == old(self).executor
                    &&& *final(asked) == final(self).executor
                    &&& #[trigger] call_ensures(
                        E::start,
                        (asked, &old(self).store.jobs@[at->index as int]),
                        result,
                    )
                    &&& start_failed(r) == (result is Err)
                    &&& clock_gave(finished_at)
                    &&& final(self).store@ == #[trigger] after_launch(
                        old(self).store@,
                        at->index as int,
                        result_model(result),
                        finished_at,
                    )
                },
            at is Schedule || at is Scan || at is Done ==> final(self).executor == old(
                self,
            ).executor,
            r is Ok ==> final(self).accepts(r->Ok_0),
            r is Ok && r->Ok_0 is Done && at !is Done ==> final(self).saturated(),
            kept(old(self).store@.jobs, final(self).store@.jobs),
            exclusive(old(self).store@.jobs) && distinct_keys(
                device_models(old(self).inventory.devices@),
            ) ==> exclusive(final(self).store@.jobs),
            running_count(final(self).store@.jobs) <= running_count(old(self).store@.jobs)
                || running_count(final(self).store@.jobs) <= old(self).max_running,
            final(self).store.next_id == old(self).store.next_id,
            final(self).inventory == old(self).inventory,
            final(self).max_running == old(self).max_running,
    {
        let ghost jobs = self.store@.jobs;
        let ghost devices = device_models(self.inventory.devices@);
        let ghost status = self.inventory.status@;
        if let Err(error) = saved {
            return Err(error);
        }
        match at {
            Tick::Collect => {
                let collected = self.collect();
                proof {
                    collecting_only_frees(jobs, self.store@.jobs);
                }
                match collected {
                    Ok(changed) => Ok(Tick::Schedule { changed }),
                    Err(error) => Err(error),
                }
            },
            Tick::Schedule { .. } => {
                let plan = self.plan();
                Ok(self.advance(plan))
            },
            Tick::Scan { plan, .. } => Ok(self.advance(plan)),
            Tick::Launch { index, plan } => {
                let ghost before = plan@;
                assert(self.store.jobs@[index as int]@ == jobs[index as int]);
                let result = self.executor.start(&self.store.jobs[index]);
                let ghost model = result_model(result);
                assert(start_gave(
                    old(self).executor,
                    &old(self).store.jobs@[index as int],
                    result,
                ));
                assert(exists|asked: &mut E|
                    {
                        &&& *asked == old(self).executor
                        &&& *final(asked) == self.executor
                        &&& #[trigger] call_ensures(
                            E::start,
                            (asked, &old(self).store.jobs@[index as int]),
                            result,
                        )
                    });
                let finished_at: u64 = now();
                assert(clock_gave(finished_at));
                let (plan, failed) = self.launched_at(index, plan, result, finished_at);
                proof {
                    let at = index as int;
                    let after = self.store@.jobs;
                    assert(failed == (model is Err));
                    if failed {
                        let job = after[at];
                        assert(after == jobs.update(at, job));
                        lemma_running_update(jobs, at, job);
                        if exclusive(jobs) {
                            lemma_exclusive_update(jobs, at, job);
                        }
                    }
                    lemma_held_splits(jobs, at);
                    if failed {
                        lemma_held_splits(after, at);
                        lemma_held_except_update(jobs, at, after[at]);
                        assert(held(after) =~= held_except(jobs, at));
                        assert(plan@.reserved =~= blocked(after, devices, status));
                    } else {
                        assert(plan@.reserved =~= blocked(after, devices, status));
                    }
                    assert forall|i: int|
                        0 <= i < after.len() && i < at + 1 && (#[trigger] after[i]).state
                            == State::Pending implies allocation(
                        after[i].spec,
                        devices,
                        plan@.reserved,
                    ) is None by {
                        assert(after[i] == jobs[i]);
                        if allocation(after[i].spec, devices, plan@.reserved) is Some {
                            releasing_devices_never_hurts(
                                after[i].spec,
                                devices,
                                plan@.reserved,
                                before.reserved,
                            );
                        }
                    }
                }
                Ok(Tick::Scan { plan, failed })
            },
            Tick::Done => Ok(Tick::Done),
        }
    }
}

/// Changing a job leaves what the others hold.
proof fn lemma_held_except_update(jobs: Seq<JobModel>, at: int, job: JobModel)
    requires
        0 <= at < jobs.len(),
    ensures
        held_except(jobs.update(at, job), at) == held_except(jobs, at),
        jobs[at].state != State::Running ==> held_except(jobs, at) == held(jobs),
{
    let updated = jobs.update(at, job);
    assert forall|key: Seq<char>| is_held_except(updated, at, key) == is_held_except(
        jobs,
        at,
        key,
    ) by {
        if is_held_except(updated, at, key) {
            let i = choose|i: int|
                0 <= i < updated.len() && i != at && holds(#[trigger] updated[i], key);
            assert(holds(jobs[i], key));
        }
        if is_held_except(jobs, at, key) {
            let i = choose|i: int| 0 <= i < jobs.len() && i != at && holds(#[trigger] jobs[i], key);
            assert(holds(updated[i], key));
        }
    }
    assert(held_except(updated, at) =~= held_except(jobs, at));
    if jobs[at].state != State::Running {
        lemma_held_splits(jobs, at);
        assert(held_except(jobs, at) =~= held(jobs));
    }
}

/// What is held is held by the job at a place or by another one.
proof fn lemma_held_splits(jobs: Seq<JobModel>, at: int)
    requires
        0 <= at < jobs.len(),
    ensures
        held(jobs) == if jobs[at].state == State::Running {
            held_except(jobs, at).union(keys_of(jobs[at].devices))
        } else {
            held_except(jobs, at)
        },
{
    assert forall|key: Seq<char>| is_held(jobs, key) == (is_held_except(jobs, at, key) || holds(
        jobs[at],
        key,
    )) by {
        if is_held(jobs, key) {
            let i = choose|i: int| 0 <= i < jobs.len() && holds(#[trigger] jobs[i], key);
            if i != at {
                assert(is_held_except(jobs, at, key));
            }
        }
    }
    if jobs[at].state == State::Running {
        assert(held(jobs) =~= held_except(jobs, at).union(keys_of(jobs[at].devices)));
    } else {
        assert(held(jobs) =~= held_except(jobs, at));
    }
}

/// Where the search finds nothing, no pending job from there on fits.
proof fn lemma_nothing_fits(
    jobs: Seq<JobModel>,
    devices: Seq<DeviceModel>,
    reserved: Set<Seq<char>>,
    from: int,
)
    requires
        0 <= from,
        fitting_from(jobs, devices, reserved, from) >= jobs.len(),
    ensures
        forall|i: int|
            from <= i < jobs.len() && (#[trigger] jobs[i]).state == State::Pending ==> allocation(
                jobs[i].spec,
                devices,
                reserved,
            ) is None,
    decreases jobs.len() - from,
{
    if from < jobs.len() {
        lemma_nothing_fits(jobs, devices, reserved, from + 1);
    }
}

/// The first fitting job is pending, fits, and stands at or after the cursor.
proof fn lemma_fitting(
    jobs: Seq<JobModel>,
    devices: Seq<DeviceModel>,
    reserved: Set<Seq<char>>,
    from: int,
)
    requires
        0 <= from,
        fitting_from(jobs, devices, reserved, from) < jobs.len(),
    ensures
        ({
            let at = fitting_from(jobs, devices, reserved, from);
            &&& from <= at < jobs.len()
            &&& jobs[at].state == State::Pending
            &&& allocation(jobs[at].spec, devices, reserved) is Some
            &&& forall|i: int|
                from <= i < at && (#[trigger] jobs[i]).state == State::Pending ==> allocation(
                    jobs[i].spec,
                    devices,
                    reserved,
                ) is None
        }),
    decreases jobs.len() - from,
{
    if from < jobs.len() && !(jobs[from].state == State::Pending && allocation(
        jobs[from].spec,
        devices,
        reserved,
    ) is Some) {
        lemma_fitting(jobs, devices, reserved, from + 1);
    }
}

/// Nothing that is given is reserved.
proof fn lemma_given_is_free(
    spec: SubmissionModel,
    devices: Seq<DeviceModel>,
    reserved: Set<Seq<char>>,
)
    requires
        allocation(spec, devices, reserved) is Some,
    ensures
        forall|key: Seq<char>|
            #[trigger] has_key(allocation(spec, devices, reserved)->0, key) ==> has_key(
                devices,
                key,
            ) && !reserved.contains(key),
{
    lemma_available(devices, Kind::Nvidia, reserved);
    lemma_available(devices, Kind::Ascend, reserved);
    let given = allocation(spec, devices, reserved)->0;
    assert forall|key: Seq<char>| #[trigger] has_key(given, key) implies has_key(devices, key)
        && !reserved.contains(key) by {
        let i = choose|i: int| 0 <= i < given.len() && (#[trigger] given[i]).key() == key;
        assert(listed(devices, given[i]));
        let j = choose|j: int| 0 <= j < devices.len() && #[trigger] devices[j] == given[i];
        assert(devices[j].key() == key);
    }
}

// ---- Laws ----

/// The job that a pass starts next waits longest of those that fit: each pending job before it
/// that the pass has not looked at yet does not fit the free devices.
pub proof fn earlier_jobs_that_fit_go_first(
    jobs: Seq<JobModel>,
    devices: Seq<DeviceModel>,
    plan: PlanModel,
    max_running: usize,
    at: int,
    earlier: int,
)
    requires
        admission(jobs, devices, plan, max_running) == Some(at),
        plan.cursor <= earlier < at,
        jobs[earlier].state == State::Pending,
    ensures
        allocation(jobs[earlier].spec, devices, plan.reserved) is None,
{
    lemma_fitting(jobs, devices, plan.reserved, plan.cursor as int);
}

/// A job is only ever given devices that are idle and that no running job holds: as many as it
/// asks for, of one vendor, of the wanted one, and none of them twice.
pub proof fn started_jobs_get_free_devices(
    jobs: Seq<JobModel>,
    devices: Seq<DeviceModel>,
    status: Map<Seq<char>, Seq<char>>,
    plan: PlanModel,
    max_running: usize,
    at: int,
)
    requires
        distinct_keys(devices),
        plan.reserved == blocked(jobs, devices, status),
        admission(jobs, devices, plan, max_running) == Some(at),
    ensures
        ({
            let given = allocation(jobs[at].spec, devices, plan.reserved)->0;
            &&& jobs[at].state == State::Pending
            &&& given.len() == jobs[at].spec.count
            &&& one_vendor(given)
            &&& distinct_keys(given)
            &&& forall|i: int|
                #![trigger given[i]]
                0 <= i < given.len() ==> {
                    &&& listed(devices, given[i])
                    &&& is_idle(status, given[i].key())
                    &&& !is_held(jobs, given[i].key())
                    &&& jobs[at].spec.kind is Some ==> jobs[at].spec.kind == Some(given[i].kind)
                }
        }),
{
    lemma_fitting(jobs, devices, plan.reserved, plan.cursor as int);
    let spec = jobs[at].spec;
    let given = allocation(spec, devices, plan.reserved)->0;
    allocations_are_exclusive_and_of_one_vendor(spec, devices, plan.reserved);
    assert forall|i: int| #![trigger given[i]] 0 <= i < given.len() implies is_idle(
        status,
        given[i].key(),
    ) && !is_held(jobs, given[i].key()) by {
        let key = given[i].key();
        assert(listed(devices, given[i]));
        let j = choose|j: int| 0 <= j < devices.len() && #[trigger] devices[j] == given[i];
        assert(devices[j].key() == key);
        assert(has_key(devices, key));
        assert(!plan.reserved.contains(key));
        assert(!held(jobs).contains(key));
        assert(!busy(devices, status).contains(key));
    }
}

/// Marking the next job changes that one job, which was pending and now is running; what its
/// submitter gave and all other jobs stay as they are.
pub proof fn starting_changes_one_pending_job(
    store: StoreModel,
    devices: Seq<DeviceModel>,
    plan: PlanModel,
    max_running: usize,
    started_at: u64,
    i: int,
)
    requires
        0 <= i < store.jobs.len(),
    ensures
        ({
            let after = admitted(store, devices, plan, max_running, started_at);
            &&& after.next_id == store.next_id
            &&& after.jobs.len() == store.jobs.len()
            &&& if admission(store.jobs, devices, plan, max_running) == Some(i) {
                &&& store.jobs[i].state == State::Pending
                &&& after.jobs[i].state == State::Running
                &&& after.jobs[i].started_at == Some(started_at)
                &&& after.jobs[i].spec == store.jobs[i].spec
                &&& after.jobs[i].owner == store.jobs[i].owner
                &&& after.jobs[i].id == store.jobs[i].id
            } else {
                after.jobs[i] == store.jobs[i]
            }
        }),
{
    if admission(store.jobs, devices, plan, max_running) is Some {
        lemma_fitting(store.jobs, devices, plan.reserved, plan.cursor as int);
    }
}

/// A job is marked as running, and the store with that mark is due to be saved, before the executor
/// is asked to start it. The step that comes before a launch found the job pending, marked it with
/// its devices and the time, and asked nothing of the executor; and the launch is a step before
/// which the store must be saved.
pub proof fn starts_are_saved_first<E: Executor>(
    before: Scheduler<E>,
    at: Tick,
    after: Scheduler<E>,
    next: Tick,
)
    requires
        before.stepped(at, after, Ok(next)),
        next is Launch,
    ensures
        at is Schedule || at is Scan,
        next.saves(),
        after.executor == before.executor,
        ({
            let index = next->index as int;
            &&& 0 <= index < before.store@.jobs.len()
            &&& before.store@.jobs[index].state == State::Pending
            &&& after.store@.jobs[index].state == State::Running
            &&& after.store@.jobs[index].started_at is Some
            &&& after.store@.jobs[index].devices.len() == before.store@.jobs[index].spec.count
            &&& after.store@.jobs[index].id == before.store@.jobs[index].id
            &&& well_numbered(before.store@) ==> is_spent(
                after.store@,
                before.store@.jobs[index].id,
            )
        }),
{
    let devices = device_models(before.inventory.devices@);
    let jobs = before.store@.jobs;
    let plan = match at {
        Tick::Scan { plan, .. } => plan@,
        _ => first_plan(jobs, devices, before.inventory.status@),
    };
    let index = next->index as int;
    lemma_fitting(jobs, devices, plan.reserved, plan.cursor as int);
    lemma_allocation_count(jobs[index].spec, devices, plan.reserved);
    assert forall|i: int| 0 <= i < jobs.len() && i != index implies #[trigger] after.store@.jobs[i]
        == jobs[i] by {}
}

/// What is given is as much as was asked for.
proof fn lemma_allocation_count(
    spec: SubmissionModel,
    devices: Seq<DeviceModel>,
    reserved: Set<Seq<char>>,
)
    requires
        allocation(spec, devices, reserved) is Some,
    ensures
        allocation(spec, devices, reserved)->0.len() == spec.count,
{
}

/// The number was given, and no job with it waits: it was started, or it is over, or it was
/// forgotten.
pub open spec fn is_spent(store: StoreModel, id: u64) -> bool {
    &&& id <= store.next_id
    &&& forall|i: int|
        0 <= i < store.jobs.len() && (#[trigger] store.jobs[i]).id == id ==> store.jobs[i].state
            != State::Pending
}

/// Nothing has begun to wait but what got a new number.
pub open spec fn evolves(before: StoreModel, after: StoreModel) -> bool {
    &&& before.next_id <= after.next_id
    &&& forall|i: int|
        0 <= i < after.jobs.len() && (#[trigger] after.jobs[i]).state == State::Pending
            && after.jobs[i].id <= before.next_id ==> waits(before, after.jobs[i].id)
}

/// A job with this number waits.
pub open spec fn waits(store: StoreModel, id: u64) -> bool {
    exists|i: int|
        0 <= i < store.jobs.len() && (#[trigger] store.jobs[i]).id == id && store.jobs[i].state
            == State::Pending
}

/// Submitting, taking a job back, ending a job, forgetting jobs and changing nothing let nothing
/// wait again.
pub proof fn queue_changes_let_nothing_wait_again(
    store: StoreModel,
    job: JobModel,
    at: int,
    outcome: OutcomeModel,
    ids: Seq<u64>,
)
    requires
        job.id > store.next_id,
        0 <= at < store.jobs.len(),
        outcome.state.is_terminal(),
    ensures
        evolves(store, store.with(job)),
        evolves(store, StoreModel { jobs: store.jobs.drop_last(), ..store }),
        evolves(store, store.changed(at, settled(store.jobs[at], outcome))),
        evolves(store, StoreModel { jobs: without(store.jobs, ids), ..store }),
        evolves(store, store),
{
    let with = store.with(job);
    assert forall|i: int|
        0 <= i < with.jobs.len() && (#[trigger] with.jobs[i]).state == State::Pending
            && with.jobs[i].id <= store.next_id implies waits(store, with.jobs[i].id) by {
        assert(store.jobs[i].id == with.jobs[i].id);
    }
    let shorter = store.jobs.drop_last();
    assert forall|i: int|
        0 <= i < shorter.len() && (#[trigger] shorter[i]).state == State::Pending && shorter[i].id
            <= store.next_id implies waits(store, shorter[i].id) by {
        assert(store.jobs[i].id == shorter[i].id);
    }
    let ended = store.changed(at, settled(store.jobs[at], outcome));
    assert forall|i: int|
        0 <= i < ended.jobs.len() && (#[trigger] ended.jobs[i]).state == State::Pending
            && ended.jobs[i].id <= store.next_id implies waits(store, ended.jobs[i].id) by {
        assert(store.jobs[i].id == ended.jobs[i].id);
    }
    lemma_without_was_there(store.jobs, ids);
    let rest = without(store.jobs, ids);
    assert forall|k: int|
        0 <= k < rest.len() && (#[trigger] rest[k]).state == State::Pending && rest[k].id
            <= store.next_id implies waits(store, rest[k].id) by {
        let i = choose|i: int| 0 <= i < store.jobs.len() && #[trigger] store.jobs[i] == rest[k];
        assert(store.jobs[i].id == rest[k].id);
    }
}

/// What is left was there before.
proof fn lemma_without_was_there(jobs: Seq<JobModel>, ids: Seq<u64>)
    ensures
        forall|k: int|
            0 <= k < without(jobs, ids).len() ==> exists|i: int|
                0 <= i < jobs.len() && #[trigger] jobs[i] == #[trigger] without(jobs, ids)[k],
    decreases jobs.len(),
{
    if jobs.len() > 0 {
        let shorter = jobs.drop_last();
        let front = without(shorter, ids);
        let all = without(jobs, ids);
        lemma_without_was_there(shorter, ids);
        assert forall|k: int| 0 <= k < all.len() implies exists|i: int|
            0 <= i < jobs.len() && #[trigger] jobs[i] == #[trigger] all[k] by {
            if k < front.len() {
                assert(front[k] == all[k]);
                let i = choose|i: int| 0 <= i < shorter.len() && #[trigger] shorter[i] == front[k];
                assert(jobs[i] == all[k]);
            } else {
                assert(jobs[jobs.len() - 1] == all[k]);
            }
        }
    }
}

/// No step of a pass lets a job wait again, as long as the executor gives no ended job the state of
/// a waiting one.
pub proof fn steps_let_nothing_wait_again<E: Executor>(
    before: Scheduler<E>,
    at: Tick,
    after: Scheduler<E>,
    r: Result<Tick, Error>,
)
    requires
        before.accepts(at),
        before.stepped(at, after, r),
        after.store.next_id == before.store.next_id,
        forall|i: int|
            0 <= i < before.store@.jobs.len() && has_ended(
                before.store@.jobs[i],
                #[trigger] after.store@.jobs[i],
            ) ==> after.store@.jobs[i].state != State::Pending,
    ensures
        evolves(before.store@, after.store@),
{
    let old_jobs = before.store@.jobs;
    let new_jobs = after.store@.jobs;
    let devices = device_models(before.inventory.devices@);
    match at {
        Tick::Schedule { .. } | Tick::Scan { .. } => {
            let plan = match at {
                Tick::Scan { plan, .. } => plan@,
                _ => first_plan(old_jobs, devices, before.inventory.status@),
            };
            if admission(old_jobs, devices, plan, before.max_running) is Some {
                lemma_fitting(old_jobs, devices, plan.reserved, plan.cursor as int);
            }
        },
        _ => {},
    }
    assert forall|i: int|
        0 <= i < new_jobs.len() && (#[trigger] new_jobs[i]).state == State::Pending
            && new_jobs[i].id <= before.store@.next_id implies waits(
        before.store@,
        new_jobs[i].id,
    ) by {
        if at is Collect {
            assert(unchanged_or_ended(old_jobs[i], new_jobs[i]));
        }
        assert(old_jobs[i].id == new_jobs[i].id && old_jobs[i].state == State::Pending);
    }
}

/// A number that is spent stays so, whatever happens to the queue.
pub proof fn spent_numbers_stay_spent(history: Seq<StoreModel>, id: u64)
    requires
        history.len() > 0,
        is_spent(history[0], id),
        forall|k: int|
            0 <= k < history.len() - 1 ==> evolves(#[trigger] history[k], history[k + 1]),
    ensures
        is_spent(history.last(), id),
    decreases history.len(),
{
    if history.len() > 1 {
        let earlier = history.drop_last();
        assert forall|k: int| 0 <= k < earlier.len() - 1 implies evolves(
            #[trigger] earlier[k],
            earlier[k + 1],
        ) by {
            assert(evolves(history[k], history[k + 1]));
        }
        spent_numbers_stay_spent(earlier, id);
        let before = history[history.len() - 2];
        let after = history.last();
        assert(evolves(before, after));
        assert forall|i: int|
            0 <= i < after.jobs.len() && (#[trigger] after.jobs[i]).id
                == id implies after.jobs[i].state != State::Pending by {
            if after.jobs[i].state == State::Pending {
                assert(waits(before, id));
                let j = choose|j: int|
                    0 <= j < before.jobs.len() && (#[trigger] before.jobs[j]).id == id
                        && before.jobs[j].state == State::Pending;
                assert(before.jobs[j].id == id);
            }
        }
    }
}

/// No job is started twice: once its number is spent, which it is before its start, no step of any
/// later pass leads to launching it. The same goes for a job that is over.
pub proof fn no_job_is_started_twice<E: Executor>(
    history: Seq<StoreModel>,
    id: u64,
    later: Scheduler<E>,
    at: Tick,
    after: Scheduler<E>,
    next: Tick,
)
    requires
        history.len() > 0,
        is_spent(history[0], id),
        forall|k: int|
            0 <= k < history.len() - 1 ==> evolves(#[trigger] history[k], history[k + 1]),
        later.store@ == history.last(),
        later.stepped(at, after, Ok(next)),
        next is Launch,
    ensures
        after.store@.jobs[next->index as int].id != id,
{
    spent_numbers_stay_spent(history, id);
    starts_are_saved_first(later, at, after, next);
}

/// Cancelling a job spends its number where it was waiting; what runs or is over has a spent number
/// already. So no later pass starts a job that was cancelled.
pub proof fn cancelling_spends_the_number<E: Executor>(
    before: Scheduler<E>,
    id: u64,
    after: Scheduler<E>,
    r: Result<bool, Error>,
)
    requires
        well_numbered(before.store@),
        place(before.store@.jobs, id) < before.store@.jobs.len(),
        before.cancelling(id, after, r),
    ensures
        is_spent(after.store@, id),
{
    let jobs = before.store@.jobs;
    let at = place(jobs, id);
    lemma_place(jobs, id, 0);
    assert forall|i: int|
        0 <= i < after.store@.jobs.len() && (#[trigger] after.store@.jobs[i]).id
            == id implies after.store@.jobs[i].state != State::Pending by {
        assert(jobs[i].id == id);
        if i < at {
            assert(jobs[i].id < jobs[at].id);
        } else if at < i {
            assert(jobs[at].id < jobs[i].id);
        }
    }
    assert(jobs[at].id <= before.store@.next_id);
}

/// Cancelling a waiting job a second time succeeds and changes nothing, the time of its end included,
/// and asks nothing of the executor.
pub proof fn cancelling_again_changes_nothing<E: Executor>(
    before: Scheduler<E>,
    id: u64,
    after: Scheduler<E>,
    first: Result<bool, Error>,
    again: Scheduler<E>,
    second: Result<bool, Error>,
)
    requires
        place(before.store@.jobs, id) < before.store@.jobs.len(),
        before.store@.jobs[place(before.store@.jobs, id)].state == State::Pending,
        before.cancelling(id, after, first),
        after.cancelling(id, again, second),
    ensures
        first == Ok::<bool, Error>(true),
        second == Ok::<bool, Error>(false),
        again == after,
{
    let old_jobs = before.store@.jobs;
    let new_jobs = after.store@.jobs;
    lemma_place(old_jobs, id, 0);
    lemma_place(new_jobs, id, 0);
    let at = place(old_jobs, id);
    let found = place(new_jobs, id);
    assert(new_jobs[at].id == id);
    if found < at {
        assert(old_jobs[found].id == id);
    }
    assert(found == at);
}

/// A job that is over is handed to the executor by no step: a launch is of a running job, and
/// collecting leaves the executor as it is at the place of a job that is not running.
pub proof fn finished_jobs_are_handed_to_nobody<E: Executor>(
    scheduler: Scheduler<E>,
    at: Tick,
    answers: Seq<Result<Option<Outcome>, Error>>,
    states: Seq<E>,
    i: int,
)
    requires
        scheduler.accepts(at),
        0 <= i < scheduler.store@.jobs.len(),
        scheduler.store@.jobs[i].state.is_terminal(),
    ensures
        at is Launch ==> at->index != i,
        asked_in_turn(scheduler.store@.jobs, answers, states) && i <= failing_from(
            scheduler.store@.jobs,
            answers,
            0,
        ) ==> states[i + 1] == states[i],
{
    let jobs = scheduler.store@.jobs;
    if asked_in_turn(jobs, answers, states) && i <= failing_from(jobs, answers, 0) {
        assert(answers[i] is Ok || answers[i] is Err);
    }
}

/// A step that changes the store leads to one before which the store must be saved.
pub proof fn changes_are_saved<E: Executor>(
    before: Scheduler<E>,
    at: Tick,
    after: Scheduler<E>,
    next: Tick,
)
    requires
        before.accepts(at),
        before.stepped(at, after, Ok(next)),
    ensures
        after.store@ == before.store@ || next.saves(),
{
}

/// How many more steps the pass takes at most, with so many jobs in the queue.
pub open spec fn steps_left(at: Tick, jobs: nat) -> int {
    match at {
        Tick::Collect => (2 * jobs + 4) as int,
        Tick::Schedule { .. } => (2 * jobs + 3) as int,
        Tick::Scan { plan, .. } => if plan.cursor < jobs {
            2 * (jobs - plan.cursor) + 2
        } else {
            2
        },
        Tick::Launch { index, .. } => 2 * (jobs - index) + 1,
        Tick::Done => 0,
    }
}

/// Each step leaves fewer steps, and as many jobs.
pub proof fn steps_lead_to_the_end<E: Executor>(
    before: Scheduler<E>,
    at: Tick,
    after: Scheduler<E>,
    next: Tick,
)
    requires
        before.accepts(at),
        before.stepped(at, after, Ok(next)),
        at !is Done,
    ensures
        after.store@.jobs.len() == before.store@.jobs.len(),
        0 <= steps_left(next, after.store@.jobs.len()) < steps_left(at, before.store@.jobs.len()),
{
    let jobs = before.store@.jobs;
    let devices = device_models(before.inventory.devices@);
    let plan = match at {
        Tick::Scan { plan, .. } => plan@,
        _ => first_plan(jobs, devices, before.inventory.status@),
    };
    if (at is Schedule || at is Scan) && admission(
        jobs,
        devices,
        plan,
        before.max_running,
    ) is Some {
        lemma_fitting(jobs, devices, plan.reserved, plan.cursor as int);
    }
}

/// A pass ends: it takes at most two steps for each job in the queue, and four more.
pub proof fn passes_end<E: Executor>(states: Seq<Scheduler<E>>, steps: Seq<Tick>)
    requires
        steps.len() == states.len() > 0,
        steps[0] is Collect,
        forall|k: int|
            0 <= k < steps.len() - 1 ==> {
                &&& (#[trigger] steps[k]) !is Done
                &&& states[k].accepts(steps[k])
                &&& states[k].stepped(steps[k], states[k + 1], Ok(steps[k + 1]))
            },
    ensures
        steps.len() - 1 <= 2 * states[0].store@.jobs.len() + 4,
{
    lemma_steps_left(states, steps, steps.len() - 1);
}

/// What a pass has left after `taken` steps.
proof fn lemma_steps_left<E: Executor>(states: Seq<Scheduler<E>>, steps: Seq<Tick>, taken: int)
    requires
        0 <= taken < steps.len() == states.len(),
        steps[0] is Collect,
        forall|k: int|
            0 <= k < steps.len() - 1 ==> {
                &&& (#[trigger] steps[k]) !is Done
                &&& states[k].accepts(steps[k])
                &&& states[k].stepped(steps[k], states[k + 1], Ok(steps[k + 1]))
            },
    ensures
        states[taken].store@.jobs.len() == states[0].store@.jobs.len(),
        0 <= steps_left(steps[taken], states[0].store@.jobs.len()) <= 2
            * states[0].store@.jobs.len() + 4 - taken,
    decreases taken,
{
    if taken > 0 {
        lemma_steps_left(states, steps, taken - 1);
        assert(steps[taken - 1] !is Done);
        steps_lead_to_the_end(states[taken - 1], steps[taken - 1], states[taken], steps[taken]);
    }
}

/// A submission that could not be saved leaves nothing behind but its number, which is not given
/// again.
pub proof fn unsaved_submissions_leave_only_their_number(store: StoreModel, job: JobModel)
    requires
        job.id > store.next_id,
    ensures
        ({
            let after = StoreModel { jobs: store.with(job).jobs.drop_last(), ..store.with(job) };
            &&& after.jobs == store.jobs
            &&& after.next_id == job.id
        }),
{
    assert(store.with(job).jobs.drop_last() =~= store.jobs);
}

/// Where devices are held once, what is told of a device names the job that holds it.
pub proof fn the_holder_is_told(jobs: Seq<JobModel>, key: Seq<char>, at: int)
    requires
        exclusive(jobs),
        0 <= at < jobs.len(),
        holds(jobs[at], key),
    ensures
        holder(jobs, key) == Some(jobs[at].id),
{
    lemma_holder(jobs, key, at, 0);
}

proof fn lemma_holder(jobs: Seq<JobModel>, key: Seq<char>, at: int, from: int)
    requires
        exclusive(jobs),
        0 <= from <= at < jobs.len(),
        holds(jobs[at], key),
    ensures
        holder_from(jobs, key, from) == Some(jobs[at].id),
    decreases at - from,
{
    if from < at {
        assert(!(holds(jobs[from], key) && holds(jobs[at], key)));
        lemma_holder(jobs, key, at, from + 1);
    }
}

/// A job that asks for no device is started whatever the devices do.
pub proof fn cpu_jobs_always_fit(
    spec: SubmissionModel,
    devices: Seq<DeviceModel>,
    reserved: Set<Seq<char>>,
)
    requires
        spec.count == 0,
    ensures
        allocation(spec, devices, reserved) == Some(Seq::<DeviceModel>::empty()),
{
}

/// Submitting, cancelling and forgetting keep what running jobs hold exclusive.
pub proof fn queue_changes_keep_exclusion(
    jobs: Seq<JobModel>,
    job: JobModel,
    at: int,
    outcome: OutcomeModel,
    ids: Seq<u64>,
)
    requires
        exclusive(jobs),
        job.state == State::Pending,
        0 <= at < jobs.len(),
        outcome.state.is_terminal(),
    ensures
        exclusive(jobs.push(job)),
        exclusive(jobs.update(at, settled(jobs[at], outcome))),
        exclusive(without(jobs, ids)),
{
    let pushed = jobs.push(job);
    assert forall|i: int| 0 <= i < pushed.len() implies held_once(#[trigger] pushed[i]) by {
        if i < jobs.len() {
            assert(held_once(jobs[i]));
        }
    }
    assert forall|i: int, j: int, key: Seq<char>| 0 <= i < j < pushed.len() implies !(
    #[trigger] holds(pushed[i], key) && #[trigger] holds(pushed[j], key)) by {
        if j < jobs.len() {
            assert(!(holds(jobs[i], key) && holds(jobs[j], key)));
        }
    }
    lemma_exclusive_update(jobs, at, settled(jobs[at], outcome));
    lemma_without_is_exclusive(jobs, ids);
}

/// Each job that is left was there, at places in the same order.
proof fn lemma_without_is_exclusive(jobs: Seq<JobModel>, ids: Seq<u64>)
    requires
        exclusive(jobs),
    ensures
        exclusive(without(jobs, ids)),
        forall|k: int, key: Seq<char>|
            0 <= k < without(jobs, ids).len() && #[trigger] holds(without(jobs, ids)[k], key)
                ==> is_held(jobs, key),
    decreases jobs.len(),
{
    if jobs.len() > 0 {
        let shorter = jobs.drop_last();
        let front = without(shorter, ids);
        let all = without(jobs, ids);
        assert forall|i: int, j: int, key: Seq<char>| 0 <= i < j < shorter.len() implies !(
        #[trigger] holds(shorter[i], key) && #[trigger] holds(shorter[j], key)) by {
            assert(!(holds(jobs[i], key) && holds(jobs[j], key)));
        }
        assert forall|i: int| 0 <= i < shorter.len() implies held_once(#[trigger] shorter[i]) by {
            assert(held_once(jobs[i]));
        }
        lemma_without_is_exclusive(shorter, ids);
        assert forall|i: int| 0 <= i < all.len() implies held_once(#[trigger] all[i]) by {
            if i < front.len() {
                assert(held_once(front[i]));
            } else {
                assert(held_once(jobs[jobs.len() - 1]));
            }
        }
        assert forall|key: Seq<char>| is_held(shorter, key) implies is_held(jobs, key) && !holds(
            jobs.last(),
            key,
        ) by {
            let i = choose|i: int| 0 <= i < shorter.len() && holds(#[trigger] shorter[i], key);
            assert(holds(jobs[i], key));
            assert(!(holds(jobs[i], key) && holds(jobs[jobs.len() - 1], key)));
        }
        assert forall|i: int, j: int, key: Seq<char>| 0 <= i < j < all.len() implies !(
        #[trigger] holds(all[i], key) && #[trigger] holds(all[j], key)) by {
            if j < front.len() {
                assert(!(holds(front[i], key) && holds(front[j], key)));
            } else if holds(all[i], key) {
                assert(holds(front[i], key));
                assert(is_held(shorter, key));
            }
        }
        assert forall|k: int, key: Seq<char>|
            0 <= k < all.len() && #[trigger] holds(all[k], key) implies is_held(jobs, key) by {
            if k < front.len() {
                assert(holds(front[k], key));
            } else {
                assert(holds(jobs[jobs.len() - 1], key));
            }
        }
    }
}

// ---- Numbers ----

/// Numbers are distinct and grow along the queue, and none exceeds the last one given.
pub open spec fn well_numbered(store: StoreModel) -> bool {
    &&& forall|i: int, j: int|
        0 <= i < j < store.jobs.len() ==> (#[trigger] store.jobs[i]).id < (
        #[trigger] store.jobs[j]).id
    &&& forall|i: int| 0 <= i < store.jobs.len() ==> (#[trigger] store.jobs[i]).id <= store.next_id
}

/// A new job's number is greater than all numbers in the queue and than all given before, and the
/// queue stays well numbered. So no number is given twice, even after its job was forgotten.
pub proof fn new_numbers_are_greater(
    store: StoreModel,
    spec: SubmissionModel,
    owner: OwnerModel,
    submitted_at: u64,
)
    requires
        well_numbered(store),
        store.next_id < u64::MAX,
    ensures
        ({
            let job = new_job((store.next_id + 1) as u64, spec, owner, submitted_at);
            &&& job.id > store.next_id
            &&& forall|i: int| 0 <= i < store.jobs.len() ==> (#[trigger] store.jobs[i]).id < job.id
            &&& well_numbered(store.with(job))
            &&& store.with(job).next_id == job.id
        }),
{
}

/// A step of a pass, taking a job back and forgetting jobs keep the queue well numbered.
pub proof fn changes_keep_numbers(store: StoreModel, after: Seq<JobModel>, ids: Seq<u64>)
    requires
        well_numbered(store),
        kept(store.jobs, after),
    ensures
        well_numbered(StoreModel { jobs: after, ..store }),
        store.jobs.len() > 0 ==> well_numbered(
            StoreModel { jobs: store.jobs.drop_last(), ..store },
        ),
        well_numbered(StoreModel { jobs: without(store.jobs, ids), ..store }),
{
    lemma_without_is_numbered(store, ids);
    if store.jobs.len() > 0 {
        let shorter = store.jobs.drop_last();
        assert forall|i: int, j: int| 0 <= i < j < shorter.len() implies (
        #[trigger] shorter[i]).id < (#[trigger] shorter[j]).id by {
            assert(store.jobs[i].id < store.jobs[j].id);
        }
        assert forall|i: int| 0 <= i < shorter.len() implies (#[trigger] shorter[i]).id
            <= store.next_id by {
            assert(store.jobs[i].id <= store.next_id);
        }
    }
    assert forall|i: int, j: int| 0 <= i < j < after.len() implies (#[trigger] after[i]).id < (
    #[trigger] after[j]).id by {
        assert(store.jobs[i].id < store.jobs[j].id);
    }
}

proof fn lemma_without_is_numbered(store: StoreModel, ids: Seq<u64>)
    requires
        well_numbered(store),
    ensures
        well_numbered(StoreModel { jobs: without(store.jobs, ids), ..store }),
    decreases store.jobs.len(),
{
    let jobs = store.jobs;
    if jobs.len() > 0 {
        let shorter = jobs.drop_last();
        let front = without(shorter, ids);
        let all = without(jobs, ids);
        let smaller = StoreModel { jobs: shorter, ..store };
        assert forall|i: int, j: int| 0 <= i < j < shorter.len() implies (
        #[trigger] shorter[i]).id < (#[trigger] shorter[j]).id by {
            assert(jobs[i].id < jobs[j].id);
        }
        assert forall|i: int| 0 <= i < shorter.len() implies (#[trigger] shorter[i]).id
            <= store.next_id by {
            assert(jobs[i].id <= store.next_id);
        }
        lemma_without_is_numbered(smaller, ids);
        lemma_without_was_there(shorter, ids);
        lemma_without_was_there(jobs, ids);
        assert forall|i: int, j: int| 0 <= i < j < all.len() implies (#[trigger] all[i]).id < (
        #[trigger] all[j]).id by {
            assert(front[i] == all[i]);
            if j < front.len() {
                assert(front[j] == all[j]);
            } else {
                let k = choose|k: int| 0 <= k < shorter.len() && #[trigger] shorter[k] == front[i];
                assert(jobs[k].id < jobs[jobs.len() - 1].id);
            }
        }
        assert forall|k: int| 0 <= k < all.len() implies (#[trigger] all[k]).id
            <= store.next_id by {
            let i = choose|i: int| 0 <= i < jobs.len() && #[trigger] jobs[i] == all[k];
            assert(jobs[i].id <= store.next_id);
        }
    }
}

// ---- What a pass promises, from device to device ----

/// A device is called idle by that word alone, and only where it was probed.
pub proof fn idle_is_what_is_called_idle(status: Map<Seq<char>, Seq<char>>, key: Seq<char>)
    ensures
        is_idle(status, key) <==> status.contains_key(key) && status[key] == seq![
            'i',
            'd',
            'l',
            'e',
        ],
{
    reveal_strlit("idle");
    assert("idle"@ =~= seq!['i', 'd', 'l', 'e']);
}

/// The devices that are taken are those that running jobs have and those that are not known to be
/// idle, and no others.
pub proof fn what_is_taken_is_held_or_not_idle(
    jobs: Seq<JobModel>,
    devices: Seq<DeviceModel>,
    status: Map<Seq<char>, Seq<char>>,
    key: Seq<char>,
)
    ensures
        blocked(jobs, devices, status).contains(key) <==> (exists|i: int, k: int|
            0 <= i < jobs.len() && jobs[i].state == State::Running && 0 <= k
                < jobs[i].devices.len() && (#[trigger] jobs[i].devices[k]).key() == key) || (
        !is_idle(status, key) && exists|d: int|
            0 <= d < devices.len() && (#[trigger] devices[d]).key() == key),
        first_plan(jobs, devices, status).reserved == blocked(jobs, devices, status),
        first_plan(jobs, devices, status).running == running_count(jobs),
        first_plan(jobs, devices, status).cursor == 0,
{
    if held(jobs).contains(key) {
        let i = choose|i: int| 0 <= i < jobs.len() && holds(#[trigger] jobs[i], key);
        let k = choose|k: int|
            0 <= k < jobs[i].devices.len() && (#[trigger] jobs[i].devices[k]).key() == key;
        assert(jobs[i].devices[k].key() == key);
    }
    if exists|i: int, k: int|
        0 <= i < jobs.len() && jobs[i].state == State::Running && 0 <= k < jobs[i].devices.len()
            && (#[trigger] jobs[i].devices[k]).key() == key {
        let (i, k) = choose|i: int, k: int|
            0 <= i < jobs.len() && jobs[i].state == State::Running && 0 <= k
                < jobs[i].devices.len() && (#[trigger] jobs[i].devices[k]).key() == key;
        assert(holds(jobs[i], key));
    }
}

/// The running jobs are counted one by one.
pub proof fn running_jobs_are_counted(jobs: Seq<JobModel>, running: Seq<bool>) -> (places: Seq<int>)
    requires
        running.len() == jobs.len(),
        forall|i: int|
            0 <= i < jobs.len() ==> #[trigger] running[i] == (jobs[i].state == State::Running),
    ensures
        picks(places, running),
        running_count(jobs) == places.len(),
    decreases jobs.len(),
{
    if jobs.len() == 0 {
        Seq::empty()
    } else {
        let front = jobs.drop_last();
        let at = jobs.len() - 1;
        assert forall|i: int| 0 <= i < front.len() implies #[trigger] running.drop_last()[i] == (
        front[i].state == State::Running) by {
            assert(running[i] == running.drop_last()[i]);
        }
        let places = running_jobs_are_counted(front, running.drop_last());
        lemma_one_more(places, running);
        assert(running[at] == running.last());
        if running.last() {
            places.push(at)
        } else {
            places
        }
    }
}

/// Nothing that could run is left waiting: where a pass has ended and another job may run, no pending
/// job could be given as many devices as it asks for, of a vendor that it may have, that are idle and
/// that no running job has.
pub proof fn nothing_that_fits_is_left_waiting<E: Executor>(
    scheduler: Scheduler<E>,
    at: int,
    kind: Kind,
    chosen: Seq<int>,
)
    requires
        scheduler.saturated(),
        running_count(scheduler.store@.jobs) < scheduler.max_running,
        0 <= at < scheduler.store@.jobs.len(),
        scheduler.store@.jobs[at].state == State::Pending,
        scheduler.store@.jobs[at].spec.kind is None || scheduler.store@.jobs[at].spec.kind == Some(
            kind,
        ),
        chosen.no_duplicates(),
        forall|k: int|
            #![trigger chosen[k]]
            0 <= k < chosen.len() ==> {
                let devices = device_models(scheduler.inventory.devices@);
                &&& 0 <= chosen[k] < devices.len()
                &&& devices[chosen[k]].kind == kind
                &&& is_idle(scheduler.inventory.status@, devices[chosen[k]].key())
                &&& !is_held(scheduler.store@.jobs, devices[chosen[k]].key())
            },
    ensures
        chosen.len() < scheduler.store@.jobs[at].spec.count,
{
    let jobs = scheduler.store@.jobs;
    let devices = device_models(scheduler.inventory.devices@);
    let taken = blocked(jobs, devices, scheduler.inventory.status@);
    assert(allocation(jobs[at].spec, devices, taken) is None);
    if chosen.len() >= jobs[at].spec.count {
        assert forall|k: int| 0 <= k < chosen.len() implies 0 <= #[trigger] chosen[k]
            < devices.len() && devices[chosen[k]].kind == kind && !taken.contains(
            devices[chosen[k]].key(),
        ) by {
            assert(!held(jobs).contains(devices[chosen[k]].key()));
        }
        enough_free_devices_are_given(jobs[at].spec, devices, taken, kind, chosen);
    }
}

/// As long as another job may run, a pending job that fits is started, or an earlier one is; where as
/// many run as may, none is.
pub proof fn jobs_that_fit_are_started(
    jobs: Seq<JobModel>,
    devices: Seq<DeviceModel>,
    plan: PlanModel,
    max_running: usize,
    at: int,
)
    requires
        plan.cursor <= at < jobs.len(),
        jobs[at].state == State::Pending,
        allocation(jobs[at].spec, devices, plan.reserved) is Some,
    ensures
        plan.running < max_running ==> admission(jobs, devices, plan, max_running) is Some
            && plan.cursor <= admission(jobs, devices, plan, max_running)->0 <= at,
        plan.running >= max_running ==> admission(jobs, devices, plan, max_running) is None,
{
    lemma_fits_by(jobs, devices, plan.reserved, plan.cursor as int, at);
}

proof fn lemma_fits_by(
    jobs: Seq<JobModel>,
    devices: Seq<DeviceModel>,
    reserved: Set<Seq<char>>,
    from: int,
    at: int,
)
    requires
        0 <= from <= at < jobs.len(),
        jobs[at].state == State::Pending,
        allocation(jobs[at].spec, devices, reserved) is Some,
    ensures
        from <= fitting_from(jobs, devices, reserved, from) <= at,
    decreases at - from,
{
    if from < at {
        lemma_fits_by(jobs, devices, reserved, from + 1, at);
    }
}

/// A job that is started was waiting, and runs with the devices that it was allocated.
pub proof fn started_jobs_run_with_what_they_were_allocated(
    store: StoreModel,
    devices: Seq<DeviceModel>,
    plan: PlanModel,
    max_running: usize,
    started_at: u64,
    at: int,
)
    requires
        admission(store.jobs, devices, plan, max_running) == Some(at),
    ensures
        ({
            let after = admitted(store, devices, plan, max_running, started_at);
            &&& plan.running < max_running
            &&& 0 <= at < store.jobs.len()
            &&& store.jobs[at].state == State::Pending
            &&& after.jobs[at].state == State::Running
            &&& after.jobs[at].started_at == Some(started_at)
            &&& allocation(store.jobs[at].spec, devices, plan.reserved) == Some(
                after.jobs[at].devices,
            )
            &&& after.jobs[at].result == store.jobs[at].result
            &&& after.jobs.len() == store.jobs.len()
        }),
{
    lemma_fitting(store.jobs, devices, plan.reserved, plan.cursor as int);
}

/// A start that succeeded changes nothing more; one that failed ends its job as failed with exit code
/// 1, the error and the time, and touches no other.
pub proof fn failed_starts_end_the_job(
    store: StoreModel,
    index: int,
    error: ErrorModel,
    finished_at: u64,
    i: int,
)
    requires
        0 <= index < store.jobs.len(),
        0 <= i < store.jobs.len(),
    ensures
        after_launch(store, index, Ok(()), finished_at) == store,
        ({
            let after = after_launch(store, index, Err(error), finished_at);
            let job = after.jobs[index];
            &&& after.next_id == store.next_id && after.jobs.len() == store.jobs.len()
            &&& i != index ==> after.jobs[i] == store.jobs[i]
            &&& job.state == State::Failed
            &&& job.result is Some
            &&& job.result->0.state == State::Failed
            &&& job.result->0.exit_code == 1
            &&& job.result->0.finished_at == finished_at
            &&& job.result->0.error == Some(error.text())
            &&& job.id == store.jobs[index].id && job.owner == store.jobs[index].owner
            &&& job.spec == store.jobs[index].spec && job.devices == store.jobs[index].devices
            &&& job.started_at == store.jobs[index].started_at
        }),
{
}

/// What the executor tells of a running job is recorded: its outcome where it has ended, and nothing
/// where it runs on; a job that is not running stays as it is. A job behind one that could not be
/// asked after stays as it is, too.
pub proof fn outcomes_are_recorded(
    before: Seq<JobModel>,
    answers: Seq<Result<Option<Outcome>, Error>>,
    after: Seq<JobModel>,
    r: Result<bool, Error>,
    i: int,
)
    requires
        gathered(before, answers, after, r),
        answers.len() == before.len(),
        0 <= i < before.len(),
    ensures
        after.len() == before.len(),
        before[i].state != State::Running ==> after[i] == before[i],
        before[i].state == State::Running && r is Ok ==> {
            &&& answers[i] is Ok
            &&& answers[i]->Ok_0 is None ==> after[i] == before[i]
            &&& answers[i]->Ok_0 is Some ==> {
                &&& after[i].state == answers[i]->Ok_0->0.state
                &&& after[i].result == Some(answers[i]->Ok_0->0@)
                &&& after[i].id == before[i].id && after[i].owner == before[i].owner
                &&& after[i].spec == before[i].spec && after[i].devices == before[i].devices
                &&& after[i].submitted_at == before[i].submitted_at
                &&& after[i].started_at == before[i].started_at
                &&& r == Ok::<bool, Error>(true)
            }
        },
        r == Ok::<bool, Error>(true) ==> exists|k: int|
            0 <= k < before.len() && before[k].state == State::Running && (#[trigger] answers[k])
                is Ok && answers[k]->Ok_0 is Some,
        before[i].state == State::Running && answers[i] is Err ==> r is Err && after[i]
            == before[i],
        r is Err ==> exists|k: int|
            0 <= k < before.len() && before[k].state == State::Running && (#[trigger] answers[k])
                == Err::<Option<Outcome>, Error>(r->Err_0),
{
    let end = failing_from(before, answers, 0);
    lemma_failing(before, answers, 0);
    if end >= before.len() {
        if answers[i] is Ok && answers[i]->Ok_0 is Some && before[i].state == State::Running {
            assert(says_ended(before[i], answers[i]));
        }
    } else {
        assert(answers[end] == Err::<Option<Outcome>, Error>(r->Err_0));
    }
}

/// No two running jobs have a device in common, and none has a device twice.
pub proof fn running_jobs_share_no_device(
    jobs: Seq<JobModel>,
    i: int,
    j: int,
    k: int,
    l: int,
)
    requires
        exclusive(jobs),
        0 <= i < jobs.len(),
        0 <= j < jobs.len(),
        jobs[i].state == State::Running,
        jobs[j].state == State::Running,
        0 <= k < jobs[i].devices.len(),
        0 <= l < jobs[j].devices.len(),
        i != j || k != l,
    ensures
        jobs[i].devices[k].key() != jobs[j].devices[l].key(),
{
    let key = jobs[i].devices[k].key();
    if jobs[j].devices[l].key() == key {
        assert(holds(jobs[i], key) && holds(jobs[j], key));
        if i == j {
            assert(held_once(jobs[i]));
            assert(distinct_keys(jobs[i].devices));
        }
    }
}

/// A pass changes nothing that the submitter gave, and nothing of a job that is over.
pub proof fn a_pass_keeps_what_was_submitted(before: Seq<JobModel>, after: Seq<JobModel>, i: int)
    requires
        kept(before, after),
        0 <= i < before.len(),
    ensures
        after.len() == before.len(),
        after[i].id == before[i].id && after[i].owner == before[i].owner,
        after[i].spec == before[i].spec && after[i].submitted_at == before[i].submitted_at,
        before[i].state != State::Pending && before[i].state != State::Running ==> after[i]
            == before[i],
{
}

/// The view of a start's result tells whether it failed, and with which error.
pub proof fn views_of_starts_are_faithful(result: Result<(), Error>, plan: Plan)
    ensures
        result_model(result) is Ok == result is Ok,
        result is Err ==> result_model(result) == Err::<(), ErrorModel>(result->Err_0@),
        plan@.reserved == plan.reserved@ && plan@.running == plan.running,
        plan@.cursor == plan.cursor,
{
}

} // verus!
