//! What the commands show: the queue, the details of a job, the devices.
use vstd::prelude::*;
use vstd::string::*;

use crate::model::{
    device_models, kind_name, outcome_model, summary_models, Device, DeviceModel, DeviceView,
    DeviceViewModel, Job, JobModel, JobSummary, Kind, Outcome, OutcomeModel, State, SummaryModel,
};
use crate::places::{lemma_one_more, picked as at_places, picks};
use crate::text::{
    contains, decimal, decimal_text, found_patterns_stand_there, join, joined, lowered,
    numbers_are_filled_up_with_zeros,
    numbers_are_written_digit_by_digit, padded, patterns_are_found_anywhere, push_decimal,
    push_padded, push_signed_padded, push_zero_padded, signed_padded, strings, ten_digits,
    two_digits, zero_padded,
};

verus! {

// ---- Which jobs are shown ----

/// The most jobs that the queue shows.
pub const DEFAULT_QUEUE_LIMIT: usize = 100;

/// The jobs that the queue shows if it has room: the active ones, or all.
pub open spec fn matching(jobs: Seq<SummaryModel>, all: bool) -> Seq<SummaryModel>
    decreases jobs.len(),
{
    if jobs.len() == 0 {
        Seq::empty()
    } else {
        let front = matching(jobs.drop_last(), all);
        if all || !jobs.last().state.is_terminal() {
            front.push(jobs.last())
        } else {
            front
        }
    }
}

/// The last `count` of the jobs, in their order.
pub open spec fn latest(jobs: Seq<SummaryModel>, count: int) -> Seq<SummaryModel> {
    if jobs.len() <= count {
        jobs
    } else {
        jobs.skip(jobs.len() - count)
    }
}

/// The latest jobs that the queue shows, in its order.
pub fn visible_queue_jobs(jobs: Vec<JobSummary>, all: bool) -> (r: Vec<JobSummary>)
    ensures
        summary_models(r@) == latest(
            matching(summary_models(jobs@), all),
            DEFAULT_QUEUE_LIMIT as int,
        ),
{
    let ghost models = summary_models(jobs@);
    let mut found: Vec<usize> = Vec::new();
    assert(picked(models, found@) =~= matching(models.take(0), all));
    for i in 0..jobs.len()
        invariant
            models == summary_models(jobs@),
            forall|k: int| 0 <= k < found@.len() ==> #[trigger] found@[k] < i,
            picked(models, found@) == matching(models.take(i as int), all),
    {
        let ghost before = found@;
        assert(models.take(i + 1).drop_last() =~= models.take(i as int));
        assert(models.take(i + 1).last() == jobs@[i as int]@);
        if all || !jobs[i].state.terminal() {
            found.push(i);
            assert(picked(models, found@) =~= picked(models, before).push(models[i as int]));
        }
    }
    assert(models.take(models.len() as int) =~= models);
    let start: usize = if found.len() > DEFAULT_QUEUE_LIMIT {
        found.len() - DEFAULT_QUEUE_LIMIT
    } else {
        0
    };
    let mut r: Vec<JobSummary> = Vec::new();
    for i in start..found.len()
        invariant
            models == summary_models(jobs@),
            forall|k: int| 0 <= k < found@.len() ==> #[trigger] found@[k] < jobs.len(),
            r@.len() == i - start,
            forall|k: int|
                0 <= k < r@.len() ==> (#[trigger] r@[k])@ == picked(models, found@)[start + k],
    {
        r.push(jobs[found[i]].clone());
    }
    assert(summary_models(r@) =~= latest(picked(models, found@), DEFAULT_QUEUE_LIMIT as int));
    r
}

/// The jobs at the given places.
spec fn picked(jobs: Seq<SummaryModel>, places: Seq<usize>) -> Seq<SummaryModel> {
    Seq::new(places.len(), |k: int| jobs[places[k] as int])
}

/// What is shown is what matches, the newest of it and at most as much as the limit; each active
/// job is shown as long as there are no more than the limit of them.
pub proof fn the_newest_jobs_are_shown(jobs: Seq<SummaryModel>, all: bool, limit: nat)
    ensures
        latest(matching(jobs, all), limit as int).len() <= limit,
        matching(jobs, all).len() <= limit ==> latest(matching(jobs, all), limit as int)
            == matching(jobs, all),
        jobs.len() > 0 && limit > 0 && (all || !jobs.last().state.is_terminal()) ==> latest(
            matching(jobs, all),
            limit as int,
        ).last() == jobs.last(),
        all ==> matching(jobs, all) == jobs,
{
    if all {
        lemma_all_match(jobs);
    }
}

proof fn lemma_all_match(jobs: Seq<SummaryModel>)
    ensures
        matching(jobs, true) == jobs,
    decreases jobs.len(),
{
    if jobs.len() > 0 {
        lemma_all_match(jobs.drop_last());
        assert(jobs.drop_last().push(jobs.last()) =~= jobs);
    }
}

// ---- Times ----

/// The time from one moment to another, none if the second is earlier.
pub open spec fn span(from: u64, to: u64) -> u64 {
    if to >= from {
        (to - from) as u64
    } else {
        0
    }
}

/// How long a job has waited and run: up to its start and its end, or up to now.
pub open spec fn times(
    submitted_at: u64,
    started_at: Option<u64>,
    finished_at: Option<u64>,
    now: u64,
) -> (u64, Option<u64>) {
    let end = match finished_at {
        Some(finished_at) => finished_at,
        None => now,
    };
    match started_at {
        Some(started_at) => (span(submitted_at, started_at), Some(span(started_at, end))),
        None => (span(submitted_at, end), None),
    }
}

fn span_of(from: u64, to: u64) -> (r: u64)
    ensures
        r == span(from, to),
{
    if to >= from {
        to - from
    } else {
        0
    }
}

/// How long a job has waited and run.
pub fn job_times(
    submitted_at: u64,
    started_at: Option<u64>,
    finished_at: Option<u64>,
    timestamp: u64,
) -> (r: (u64, Option<u64>))
    ensures
        r == times(submitted_at, started_at, finished_at, timestamp),
{
    let end = match finished_at {
        Some(finished_at) => finished_at,
        None => timestamp,
    };
    match started_at {
        Some(started_at) => (span_of(submitted_at, started_at), Some(span_of(started_at, end))),
        None => (span_of(submitted_at, end), None),
    }
}

/// Waiting of a pending job and running of a running one go on with time; once the job is over
/// both stay.
pub proof fn times_go_on_until_the_end(
    submitted_at: u64,
    started_at: Option<u64>,
    finished_at: Option<u64>,
    now: u64,
    later: u64,
)
    requires
        now <= later,
    ensures
        finished_at is Some ==> times(submitted_at, started_at, finished_at, later) == times(
            submitted_at,
            started_at,
            finished_at,
            now,
        ),
        finished_at is None && started_at is None && submitted_at <= now ==> times(
            submitted_at,
            started_at,
            finished_at,
            later,
        ).0 - times(submitted_at, started_at, finished_at, now).0 == later - now,
        finished_at is None && started_at is Some && started_at->0 <= now ==> times(
            submitted_at,
            started_at,
            finished_at,
            later,
        ).1->0 - times(submitted_at, started_at, finished_at, now).1->0 == later - now,
{
}

/// A length of time: hours, minutes and seconds, after a day with the days before them.
pub open spec fn duration(seconds: nat) -> Seq<char> {
    let clock = zero_padded(seconds % 86400 / 3600, 2) + ":"@ + zero_padded(
        seconds % 3600 / 60,
        2,
    ) + ":"@ + zero_padded(seconds % 60, 2);
    if seconds >= 86400 {
        decimal(seconds / 86400) + "-"@ + clock
    } else {
        clock
    }
}

/// A length of time in words.
pub fn format_duration(seconds: u64) -> (r: String)
    ensures
        r@ == duration(seconds as nat),
{
    let days: u64 = seconds / 86400;
    let mut clock = String::new();
    push_zero_padded(&mut clock, seconds % 86400 / 3600, 2);
    assert(clock@ =~= zero_padded((seconds % 86400 / 3600) as nat, 2));
    clock.append(":");
    push_zero_padded(&mut clock, seconds % 3600 / 60, 2);
    clock.append(":");
    push_zero_padded(&mut clock, seconds % 60, 2);
    if days > 0 {
        let mut r = decimal_text(days);
        r.append("-");
        r.append(clock.as_str());
        r
    } else {
        clock
    }
}

/// A length of time, if there is one.
pub open spec fn optional_duration(seconds: Option<u64>) -> Seq<char> {
    match seconds {
        Some(seconds) => duration(seconds as nat),
        None => "-"@,
    }
}

fn optional_duration_text(seconds: Option<u64>) -> (r: String)
    ensures
        r@ == optional_duration(seconds),
{
    match seconds {
        Some(seconds) => format_duration(seconds),
        None => "-".to_owned(),
    }
}

/// The fields of a broken-down time, as the C library counts them: years from 1900, months from 0.
#[derive(Debug, Clone, Copy)]
pub struct Calendar {
    pub year: i32,
    pub month: i32,
    pub day: i32,
    pub hour: i32,
    pub minute: i32,
    pub second: i32,
}

impl Calendar {
    /// Month, day and time of day.
    pub open spec fn short(self) -> Seq<char> {
        signed_padded(self.month + 1, 2) + "-"@ + signed_padded(self.day as int, 2) + " "@
            + signed_padded(self.hour as int, 2) + ":"@ + signed_padded(self.minute as int, 2)
            + ":"@ + signed_padded(self.second as int, 2)
    }

    /// Date and time of day.
    pub open spec fn long(self) -> Seq<char> {
        signed_padded(self.year + 1900, 4) + "-"@ + self.short()
    }

    /// Month, day and time of day.
    pub fn short_text(&self) -> (r: String)
        ensures
            r@ == self.short(),
    {
        let mut r = String::new();
        push_signed_padded(&mut r, self.month as i64 + 1, 2);
        assert(r@ =~= signed_padded(self.month + 1, 2));
        r.append("-");
        push_signed_padded(&mut r, self.day as i64, 2);
        r.append(" ");
        push_signed_padded(&mut r, self.hour as i64, 2);
        r.append(":");
        push_signed_padded(&mut r, self.minute as i64, 2);
        r.append(":");
        push_signed_padded(&mut r, self.second as i64, 2);
        r
    }

    /// Date and time of day.
    pub fn long_text(&self) -> (r: String)
        ensures
            r@ == self.long(),
    {
        let mut r = String::new();
        push_signed_padded(&mut r, self.year as i64 + 1900, 4);
        assert(r@ =~= signed_padded(self.year + 1900, 4));
        r.append("-");
        r.append(self.short_text().as_str());
        r
    }
}

/// A moment in UTC; one that the calendar does not reach is shown in seconds.
pub open spec fn moment(seconds: int, calendar: Option<Calendar>) -> Seq<char> {
    match calendar {
        Some(calendar) => calendar.long() + " UTC"@,
        None => signed_padded(seconds, 0) + " Unix"@,
    }
}

/// A moment in UTC.
pub fn timestamp(seconds: i64, calendar: Option<Calendar>) -> (r: String)
    ensures
        r@ == moment(seconds as int, calendar),
{
    let mut r = String::new();
    match calendar {
        Some(calendar) => {
            r.append(calendar.long_text().as_str());
            assert(r@ =~= calendar.long());
            r.append(" UTC");
        },
        None => {
            push_signed_padded(&mut r, seconds, 0);
            assert(r@ =~= signed_padded(seconds as int, 0));
            r.append(" Unix");
        },
    }
    r
}

/// How far the clock that start times are shown in is ahead of UTC, in seconds.
pub const LOCAL_OFFSET: u64 = 8 * 3600;

/// The seconds whose UTC calendar shows the local time of a moment, if they can be counted.
pub fn local_seconds(timestamp: u64) -> (r: Option<i64>)
    ensures
        match r {
            Some(seconds) => seconds == timestamp + LOCAL_OFFSET,
            None => timestamp + LOCAL_OFFSET > i64::MAX,
        },
{
    if timestamp > i64::MAX as u64 - LOCAL_OFFSET {
        None
    } else {
        Some((timestamp + LOCAL_OFFSET) as i64)
    }
}

/// When a job was started, by the local clock.
#[derive(Debug, Clone, Copy)]
pub enum Started {
    NotYet,
    At(Calendar),
    /// The calendar does not reach the moment, which is given in seconds.
    Beyond(u64),
}

impl Started {
    /// The start as the queue shows it.
    pub open spec fn label(self, with_year: bool) -> Seq<char> {
        match self {
            Started::NotYet => "-"@,
            Started::At(calendar) => if with_year {
                calendar.long()
            } else {
                calendar.short()
            },
            Started::Beyond(seconds) => decimal(seconds as nat) + " Unix"@,
        }
    }

    /// The start as the details show it.
    pub open spec fn detail(self) -> Seq<char> {
        match self {
            Started::At(calendar) => calendar.long() + " UTC+8"@,
            _ => self.label(true),
        }
    }

    /// The start as the queue shows it.
    pub fn label_text(&self, with_year: bool) -> (r: String)
        ensures
            r@ == self.label(with_year),
    {
        match self {
            Started::NotYet => "-".to_owned(),
            Started::At(calendar) => if with_year {
                calendar.long_text()
            } else {
                calendar.short_text()
            },
            Started::Beyond(seconds) => {
                let mut r = decimal_text(*seconds);
                r.append(" Unix");
                r
            },
        }
    }

    /// The start as the details show it.
    pub fn detail_text(&self) -> (r: String)
        ensures
            r@ == self.detail(),
    {
        match self {
            Started::At(calendar) => {
                let mut r = calendar.long_text();
                r.append(" UTC+8");
                r
            },
            _ => self.label_text(true),
        }
    }
}

/// The list of all jobs shows a start with the year, the list of active ones the same without it.
pub proof fn only_the_year_is_left_out(calendar: Calendar)
    ensures
        Started::At(calendar).label(true) == signed_padded(calendar.year + 1900, 4) + "-"@
            + Started::At(calendar).label(false),
        Started::At(calendar).detail() == Started::At(calendar).label(true) + " UTC+8"@,
{
}

// ---- Devices ----

/// The numbers of the devices of one vendor.
pub open spec fn numbers_of(devices: Seq<DeviceModel>, kind: Kind) -> Seq<Seq<char>>
    decreases devices.len(),
{
    if devices.len() == 0 {
        Seq::empty()
    } else {
        let front = numbers_of(devices.drop_last(), kind);
        if devices.last().kind == kind {
            front.push(decimal(devices.last().id as nat))
        } else {
            front
        }
    }
}

/// The devices of one vendor: its name, and the number or the list of numbers.
pub open spec fn vendor_text(kind: Kind, numbers: Seq<Seq<char>>) -> Seq<char> {
    if numbers.len() == 1 {
        kind_name(kind) + ":"@ + numbers[0]
    } else {
        kind_name(kind) + ":["@ + joined(numbers, ","@) + "]"@
    }
}

/// The vendor that is not this one.
pub open spec fn other_kind(kind: Kind) -> Kind {
    match kind {
        Kind::Nvidia => Kind::Ascend,
        Kind::Ascend => Kind::Nvidia,
    }
}

/// The devices that a job was given, in their order: the vendor of the first device comes first,
/// with all its numbers.
pub open spec fn device_text(devices: Seq<DeviceModel>) -> Seq<char> {
    if devices.len() == 0 {
        "-"@
    } else {
        let first = devices[0].kind;
        let others = numbers_of(devices, other_kind(first));
        if others.len() == 0 {
            vendor_text(first, numbers_of(devices, first))
        } else {
            vendor_text(first, numbers_of(devices, first)) + ","@ + vendor_text(
                other_kind(first),
                others,
            )
        }
    }
}

/// What a job asks for.
pub open spec fn request_text(kind: Option<Kind>, count: usize) -> Seq<char> {
    if count == 0 {
        "cpu"@
    } else {
        (match kind {
            Some(kind) => kind_name(kind),
            None => "auto"@,
        }) + ":"@ + decimal(count as nat) + " requested"@
    }
}

/// The devices of a job in the queue: what it asks for while it waits, then what it was given.
pub open spec fn queue_devices(job: SummaryModel) -> Seq<char> {
    if job.state == State::Pending {
        request_text(job.kind, job.count)
    } else {
        device_text(job.devices)
    }
}

fn numbers(devices: &Vec<Device>, kind: Kind) -> (r: Vec<String>)
    ensures
        strings(r@) == numbers_of(device_models(devices@), kind),
{
    let mut r: Vec<String> = Vec::new();
    let ghost all = device_models(devices@);
    assert(strings(r@) =~= numbers_of(all.take(0), kind));
    for i in 0..devices.len()
        invariant
            all == device_models(devices@),
            strings(r@) == numbers_of(all.take(i as int), kind),
    {
        let ghost before = r@;
        assert(all.take(i + 1).drop_last() =~= all.take(i as int));
        assert(all.take(i + 1).last() == devices@[i as int]@);
        if devices[i].kind == kind {
            r.push(decimal_text(devices[i].id as u64));
            assert(strings(r@) =~= strings(before).push(decimal(devices@[i as int].id as nat)));
        }
    }
    assert(all.take(all.len() as int) =~= all);
    r
}

fn vendor(kind: Kind, numbers: &Vec<String>) -> (r: String)
    ensures
        r@ == vendor_text(kind, strings(numbers@)),
{
    assert(strings(numbers@).len() == numbers@.len());
    let mut r = kind.name().to_owned();
    if numbers.len() == 1 {
        r.append(":");
        r.append(numbers[0].as_str());
    } else {
        r.append(":[");
        r.append(join(numbers, ",").as_str());
        r.append("]");
    }
    r
}

/// The devices that a job was given: those of the first one's vendor, then the others.
pub fn device_names(devices: &Vec<Device>) -> (r: String)
    ensures
        r@ == device_text(device_models(devices@)),
{
    if devices.len() == 0 {
        return "-".to_owned();
    }
    let first = devices[0].kind;
    let second = match first {
        Kind::Nvidia => Kind::Ascend,
        Kind::Ascend => Kind::Nvidia,
    };
    assert(device_models(devices@)[0].kind == first);
    let mut r = vendor(first, &numbers(devices, first));
    let others = numbers(devices, second);
    assert(strings(others@).len() == others@.len());
    if others.len() > 0 {
        r.append(",");
        r.append(vendor(second, &others).as_str());
    }
    r
}

/// What a job asks for.
pub fn requested_devices(kind: Option<Kind>, count: usize) -> (r: String)
    ensures
        r@ == request_text(kind, count),
{
    if count == 0 {
        return "cpu".to_owned();
    }
    let mut r = match kind {
        Some(kind) => kind.name().to_owned(),
        None => "auto".to_owned(),
    };
    r.append(":");
    push_decimal(&mut r, count as u64);
    r.append(" requested");
    r
}

// ---- The queue ----

/// The name of a state.
pub open spec fn state_name(state: State) -> Seq<char> {
    match state {
        State::Pending => "Pending"@,
        State::Running => "Running"@,
        State::Completed => "Completed"@,
        State::Failed => "Failed"@,
        State::Cancelled => "Cancelled"@,
        State::TimedOut => "TimedOut"@,
    }
}

/// The name of a state in capitals.
pub open spec fn state_capitals(state: State) -> Seq<char> {
    match state {
        State::Pending => "PENDING"@,
        State::Running => "RUNNING"@,
        State::Completed => "COMPLETED"@,
        State::Failed => "FAILED"@,
        State::Cancelled => "CANCELLED"@,
        State::TimedOut => "TIMEDOUT"@,
    }
}

impl State {
    /// The name of the state.
    pub fn name(self) -> (r: &'static str)
        ensures
            r@ == state_name(self),
    {
        match self {
            State::Pending => "Pending",
            State::Running => "Running",
            State::Completed => "Completed",
            State::Failed => "Failed",
            State::Cancelled => "Cancelled",
            State::TimedOut => "TimedOut",
        }
    }

    /// The name of the state in capitals.
    pub fn capitals(self) -> (r: &'static str)
        ensures
            r@ == state_capitals(self),
    {
        match self {
            State::Pending => "PENDING",
            State::Running => "RUNNING",
            State::Completed => "COMPLETED",
            State::Failed => "FAILED",
            State::Cancelled => "CANCELLED",
            State::TimedOut => "TIMEDOUT",
        }
    }
}

/// The text that `str::escape_debug` makes of a text.
pub uninterp spec fn debug_escaped(text: Seq<char>) -> Seq<char>;

/// The text with what cannot be printed escaped, as `str::escape_debug` writes it. The claim is
/// only that the result depends on nothing but the text: which characters count as printable is a
/// matter of Unicode tables.
#[verifier::external_body]
fn escape_debug(text: &str) -> (r: String)
    ensures
        r@ == debug_escaped(text@),
{
    text.escape_debug().to_string()
}

/// The line above the queue.
pub open spec fn queue_heading() -> Seq<char> {
    padded("JOB"@, 6) + " "@ + padded("USER"@, 12) + " "@ + padded("STATE"@, 11) + " "@ + padded(
        "COUNT"@,
        5,
    ) + " "@ + padded("DEVICES"@, 16) + " "@ + padded("STARTED (UTC+8)"@, 19) + " "@ + padded(
        "WAIT"@,
        12,
    ) + " "@ + padded("RUN"@, 12) + " "@ + "NAME"@
}

/// The line of a job in the queue, its name given as it is shown.
pub open spec fn queue_line(
    job: SummaryModel,
    name: Seq<char>,
    started: Started,
    with_year: bool,
    now: u64,
) -> Seq<char> {
    let (waited, ran) = times(job.submitted_at, job.started_at, job.finished_at, now);
    padded(decimal(job.id as nat), 6) + " "@ + padded(job.owner.name, 12) + " "@ + padded(
        state_capitals(job.state),
        11,
    ) + " "@ + padded(decimal(job.count as nat), 5) + " "@ + padded(queue_devices(job), 16) + " "@
        + padded(started.label(with_year), 19) + " "@ + padded(duration(waited as nat), 12) + " "@
        + padded(optional_duration(ran), 12) + " "@ + name
}

/// The line above the queue.
pub fn queue_header() -> (r: String)
    ensures
        r@ == queue_heading(),
{
    let mut r = String::new();
    push_padded(&mut r, "JOB", 6);
    assert(r@ =~= padded("JOB"@, 6));
    r.append(" ");
    push_padded(&mut r, "USER", 12);
    r.append(" ");
    push_padded(&mut r, "STATE", 11);
    r.append(" ");
    push_padded(&mut r, "COUNT", 5);
    r.append(" ");
    push_padded(&mut r, "DEVICES", 16);
    r.append(" ");
    push_padded(&mut r, "STARTED (UTC+8)", 19);
    r.append(" ");
    push_padded(&mut r, "WAIT", 12);
    r.append(" ");
    push_padded(&mut r, "RUN", 12);
    r.append(" ");
    r.append("NAME");
    r
}

/// The line of a job in the queue, its name given as it is shown.
pub fn queue_row_named(
    job: &JobSummary,
    name: &str,
    started: &Started,
    with_year: bool,
    timestamp: u64,
) -> (r: String)
    ensures
        r@ == queue_line(job@, name@, *started, with_year, timestamp),
{
    let (waited, ran) = job_times(job.submitted_at, job.started_at, job.finished_at, timestamp);
    let devices = if job.state == State::Pending {
        requested_devices(job.kind, job.count)
    } else {
        device_names(&job.devices)
    };
    let mut r = String::new();
    push_padded(&mut r, decimal_text(job.id).as_str(), 6);
    assert(r@ =~= padded(decimal(job.id as nat), 6));
    r.append(" ");
    push_padded(&mut r, job.owner.name.as_str(), 12);
    r.append(" ");
    push_padded(&mut r, job.state.capitals(), 11);
    r.append(" ");
    push_padded(&mut r, decimal_text(job.count as u64).as_str(), 5);
    r.append(" ");
    push_padded(&mut r, devices.as_str(), 16);
    r.append(" ");
    push_padded(&mut r, started.label_text(with_year).as_str(), 19);
    r.append(" ");
    push_padded(&mut r, format_duration(waited).as_str(), 12);
    r.append(" ");
    push_padded(&mut r, optional_duration_text(ran).as_str(), 12);
    r.append(" ");
    r.append(name);
    r
}

/// The line of a job in the queue. What cannot be printed in its name is escaped.
pub fn queue_row(job: &JobSummary, started: &Started, with_year: bool, timestamp: u64) -> (r:
    String)
    ensures
        r@ == queue_line(job@, debug_escaped(job@.name), *started, with_year, timestamp),
{
    let name = escape_debug(job.name.as_str());
    queue_row_named(job, name.as_str(), started, with_year, timestamp)
}

// ---- The details of a job ----

/// The details of a job, without the end of the last line.
pub open spec fn job_text(job: JobModel, started: Started, now: u64) -> Seq<char> {
    let finished_at = match job.result {
        Some(outcome) => Some(outcome.finished_at),
        None => None,
    };
    let (waited, ran) = times(job.submitted_at, job.started_at, finished_at, now);
    "Job "@ + decimal(job.id as nat) + ": "@ + state_name(job.state) + "\nName: "@ + job.spec.name
        + "\nUser: "@ + job.owner.name + " (UID "@ + decimal(job.owner.uid as nat)
        + ")\nDirectory: "@ + job.spec.cwd + "\nLog: xqueue "@ + decimal(job.id as nat)
        + " --log\nDevices: "@ + device_text(job.devices) + "\nStarted at: "@ + started.detail()
        + "\nWait time: "@ + duration(waited as nat) + "\nRun time: "@ + optional_duration(ran)
        + outcome_text(job.result)
}

/// What the details of a job that is over end with.
pub open spec fn outcome_text(result: Option<OutcomeModel>) -> Seq<char> {
    match result {
        Some(outcome) => "\nExit code: "@ + signed_padded(outcome.exit_code as int, 0) + (
        match outcome.error {
            Some(error) => "\nError: "@ + error,
            None => Seq::empty(),
        }),
        None => Seq::empty(),
    }
}

fn outcome_lines(result: &Option<Outcome>) -> (r: String)
    ensures
        r@ == outcome_text(outcome_model(*result)),
{
    let mut r = String::new();
    if let Some(outcome) = result {
        r.append("\nExit code: ");
        push_signed_padded(&mut r, outcome.exit_code as i64, 0);
        assert(r@ =~= "\nExit code: "@ + signed_padded(outcome.exit_code as int, 0));
        if let Some(error) = &outcome.error {
            let ghost before = r@;
            r.append("\nError: ");
            r.append(error.as_str());
            assert(r@ =~= before + ("\nError: "@ + error@));
        }
    }
    assert(r@ =~= outcome_text(outcome_model(*result)));
    r
}

/// The details of a job, without the end of the last line.
pub fn job_detail(job: &Job, started: &Started, timestamp: u64) -> (r: String)
    ensures
        r@ == job_text(job@, *started, timestamp),
{
    let finished_at = match &job.result {
        Some(outcome) => Some(outcome.finished_at),
        None => None,
    };
    let (waited, ran) = job_times(job.submitted_at, job.started_at, finished_at, timestamp);
    let mut r = "Job ".to_owned();
    push_decimal(&mut r, job.id);
    r.append(": ");
    r.append(job.state.name());
    r.append("\nName: ");
    r.append(job.spec.name.as_str());
    r.append("\nUser: ");
    r.append(job.owner.name.as_str());
    r.append(" (UID ");
    push_decimal(&mut r, job.owner.uid as u64);
    r.append(")\nDirectory: ");
    r.append(job.spec.cwd.as_str());
    r.append("\nLog: xqueue ");
    push_decimal(&mut r, job.id);
    r.append(" --log\nDevices: ");
    r.append(device_names(&job.devices).as_str());
    r.append("\nStarted at: ");
    r.append(started.detail_text().as_str());
    r.append("\nWait time: ");
    r.append(format_duration(waited).as_str());
    r.append("\nRun time: ");
    r.append(optional_duration_text(ran).as_str());
    r.append(outcome_lines(&job.result).as_str());
    r
}

// ---- The devices ----

/// The line above the devices.
pub open spec fn device_heading() -> Seq<char> {
    padded("DEVICE"@, 12) + " "@ + padded("STATUS"@, 11) + " "@ + padded("JOB"@, 6) + " "@
        + "NAME"@
}

/// The line of a device.
pub open spec fn device_line(view: DeviceViewModel) -> Seq<char> {
    padded(
        kind_name(view.device.kind) + ":"@ + decimal(view.device.id as nat),
        12,
    ) + " "@ + padded(view.status, 11) + " "@ + padded(
        match view.job {
            Some(id) => decimal(id as nat),
            None => "-"@,
        },
        6,
    ) + " "@ + view.device.name
}

/// The line above the devices.
pub fn info_header() -> (r: String)
    ensures
        r@ == device_heading(),
{
    let mut r = String::new();
    push_padded(&mut r, "DEVICE", 12);
    assert(r@ =~= padded("DEVICE"@, 12));
    r.append(" ");
    push_padded(&mut r, "STATUS", 11);
    r.append(" ");
    push_padded(&mut r, "JOB", 6);
    r.append(" ");
    r.append("NAME");
    r
}

/// The line of a device.
pub fn info_row(view: &DeviceView) -> (r: String)
    ensures
        r@ == device_line(view@),
{
    let mut label = view.device.kind.name().to_owned();
    label.append(":");
    push_decimal(&mut label, view.device.id as u64);
    let job = match view.job {
        Some(id) => decimal_text(id),
        None => "-".to_owned(),
    };
    let mut r = String::new();
    push_padded(&mut r, label.as_str(), 12);
    assert(r@ =~= padded(label@, 12));
    r.append(" ");
    push_padded(&mut r, view.status.as_str(), 11);
    r.append(" ");
    push_padded(&mut r, job.as_str(), 6);
    r.append(" ");
    r.append(view.device.name.as_str());
    r
}

// ---- What the queue promises ----

/// Without being asked for all jobs the queue shows only such that wait or run, and never more than
/// a hundred.
pub proof fn only_active_jobs_are_shown(
    jobs: Vec<JobSummary>,
    all: bool,
    r: Vec<JobSummary>,
    i: int,
)
    requires
        call_ensures(visible_queue_jobs, (jobs, all), r),
        0 <= i < r@.len(),
    ensures
        r@.len() <= 100,
        !all ==> r@[i].state == State::Pending || r@[i].state == State::Running,
{
    let models = summary_models(jobs@);
    let wanted = Seq::new(
        models.len(),
        |k: int| all || models[k].state == State::Pending || models[k].state == State::Running,
    );
    let places = the_jobs_that_are_asked_for_match(models, all, wanted);
    let found = matching(models, all);
    let shown = latest(found, DEFAULT_QUEUE_LIMIT as int);
    assert(summary_models(r@) == shown);
    assert(r@.len() == summary_models(r@).len());
    assert(summary_models(r@)[i] == r@[i]@);
    let k = if found.len() <= 100 {
        i
    } else {
        found.len() - 100 + i
    };
    assert(shown[i] == found[k]);
    assert(found[k] == models[places[k]]);
    assert(wanted[places[k]]);
}

/// What is asked for are the jobs that wait or run, or all jobs: each of them, once and in its order.
pub proof fn the_jobs_that_are_asked_for_match(
    jobs: Seq<SummaryModel>,
    all: bool,
    wanted: Seq<bool>,
) -> (places: Seq<int>)
    requires
        wanted.len() == jobs.len(),
        forall|i: int|
            0 <= i < jobs.len() ==> #[trigger] wanted[i] == (all || jobs[i].state == State::Pending
                || jobs[i].state == State::Running),
    ensures
        picks(places, wanted),
        matching(jobs, all) == at_places(jobs, places),
    decreases jobs.len(),
{
    if jobs.len() == 0 {
        assert(at_places(jobs, Seq::empty()) =~= Seq::empty());
        Seq::empty()
    } else {
        let front = jobs.drop_last();
        let at = jobs.len() - 1;
        assert forall|i: int| 0 <= i < front.len() implies #[trigger] wanted.drop_last()[i] == (all
            || front[i].state == State::Pending || front[i].state == State::Running) by {
            assert(wanted[i] == wanted.drop_last()[i]);
        }
        let places = the_jobs_that_are_asked_for_match(front, all, wanted.drop_last());
        lemma_one_more(places, wanted);
        assert(wanted[at] == wanted.last());
        if wanted.last() {
            let more = places.push(at);
            assert(at_places(jobs, more) =~= at_places(front, places).push(jobs.last()));
            more
        } else {
            assert(at_places(jobs, places) =~= at_places(front, places));
            places
        }
    }
}

/// The last jobs are kept, as many as there is room for, in their order.
pub proof fn the_last_jobs_are_kept(jobs: Seq<SummaryModel>, count: nat, i: int)
    requires
        0 <= i < latest(jobs, count as int).len(),
    ensures
        latest(jobs, count as int).len() == if jobs.len() < count {
            jobs.len()
        } else {
            count
        },
        latest(jobs, count as int)[i] == jobs[jobs.len() - latest(jobs, count as int).len() + i],
{
}

/// A job that was asked for is shown unless a hundred later ones were asked for, too.
pub proof fn recent_jobs_are_shown(jobs: Vec<JobSummary>, all: bool, r: Vec<JobSummary>, at: int)
    requires
        call_ensures(visible_queue_jobs, (jobs, all), r),
        0 <= at < jobs@.len(),
        all || jobs@[at].state == State::Pending || jobs@[at].state == State::Running,
        jobs@.len() - at <= 100,
    ensures
        summary_models(r@).contains(jobs@[at]@),
{
    let models = summary_models(jobs@);
    let wanted = Seq::new(
        models.len(),
        |k: int| all || models[k].state == State::Pending || models[k].state == State::Running,
    );
    let places = the_jobs_that_are_asked_for_match(models, all, wanted);
    let found = matching(models, all);
    let shown = latest(found, DEFAULT_QUEUE_LIMIT as int);
    assert(models[at] == jobs@[at]@);
    assert(wanted[at]);
    let k = choose|k: int| 0 <= k < places.len() && places[k] == at;
    lemma_places_left(places, wanted, k);
    assert(found[k] == models[at]);
    let i = k - (found.len() - shown.len());
    assert(shown[i] == found[k]);
}

/// Behind a place there are no more chosen ones than places.
proof fn lemma_places_left(places: Seq<int>, wanted: Seq<bool>, k: int)
    requires
        picks(places, wanted),
        0 <= k < places.len(),
    ensures
        places.len() - k <= wanted.len() - places[k],
    decreases places.len() - k,
{
    if k + 1 < places.len() {
        lemma_places_left(places, wanted, k + 1);
        assert(places[k] < places[k + 1]);
    }
}

// ---- What the times promise ----

/// A job has waited from its submission to its start, and run from there to its end; what has not
/// happened yet is counted up to now. A clock that was set back gives no time at all.
pub proof fn times_are_counted_from_event_to_event(
    submitted_at: u64,
    started_at: Option<u64>,
    finished_at: Option<u64>,
    now: u64,
)
    ensures
        ({
            let (waited, ran) = times(submitted_at, started_at, finished_at, now);
            let end = if finished_at is Some {
                finished_at->0
            } else {
                now
            };
            let until = if started_at is Some {
                started_at->0
            } else {
                end
            };
            &&& submitted_at <= until ==> submitted_at + waited == until
            &&& submitted_at > until ==> waited == 0
            &&& ran is Some == started_at is Some
            &&& started_at is Some && started_at->0 <= end ==> started_at->0 + ran->0 == end
            &&& started_at is Some && started_at->0 > end ==> ran == Some(0u64)
        }),
{
}

/// A length of time is written as hours, minutes and seconds of two digits each, from a day on with
/// the days before them.
pub proof fn durations_are_written_as_a_clock_shows_them(
    days: nat,
    hours: nat,
    minutes: nat,
    seconds: nat,
)
    requires
        hours < 24,
        minutes < 60,
        seconds < 60,
    ensures
        duration(((days * 24 + hours) * 60 + minutes) * 60 + seconds) == (if days > 0 {
            decimal(days) + seq!['-']
        } else {
            Seq::empty()
        }) + seq![
            ten_digits()[(hours / 10) as int],
            ten_digits()[(hours % 10) as int],
            ':',
            ten_digits()[(minutes / 10) as int],
            ten_digits()[(minutes % 10) as int],
            ':',
            ten_digits()[(seconds / 10) as int],
            ten_digits()[(seconds % 10) as int],
        ],
        optional_duration(None) == seq!['-'],
{
    let total = ((days * 24 + hours) * 60 + minutes) * 60 + seconds;
    assert(total == days * 86400 + hours * 3600 + minutes * 60 + seconds);
    assert(total % 60 == seconds);
    assert(total % 3600 == minutes * 60 + seconds);
    assert(total % 86400 == hours * 3600 + minutes * 60 + seconds);
    assert(total % 3600 / 60 == minutes);
    assert(total % 86400 / 3600 == hours);
    assert(total / 86400 == days);
    two_digits(hours / 10, hours % 10);
    two_digits(minutes / 10, minutes % 10);
    two_digits(seconds / 10, seconds % 10);
    reveal_strlit(":");
    reveal_strlit("-");
    assert(":"@ =~= seq![':'] && "-"@ =~= seq!['-']);
    assert(10 * (hours / 10) + hours % 10 == hours);
    assert(10 * (minutes / 10) + minutes % 10 == minutes);
    assert(10 * (seconds / 10) + seconds % 10 == seconds);
    let clock = seq![
        ten_digits()[(hours / 10) as int],
        ten_digits()[(hours % 10) as int],
        ':',
        ten_digits()[(minutes / 10) as int],
        ten_digits()[(minutes % 10) as int],
        ':',
        ten_digits()[(seconds / 10) as int],
        ten_digits()[(seconds % 10) as int],
    ];
    assert(zero_padded(hours, 2) + ":"@ + zero_padded(minutes, 2) + ":"@ + zero_padded(seconds, 2)
        =~= clock);
    assert(Seq::<char>::empty() + clock =~= clock);
}

proof fn lemma_four_digits(a: nat, b: nat, c: nat, d: nat)
    requires
        0 < a < 10,
        b < 10,
        c < 10,
        d < 10,
    ensures
        zero_padded(1000 * a + 100 * b + 10 * c + d, 4) == seq![
            ten_digits()[a as int],
            ten_digits()[b as int],
            ten_digits()[c as int],
            ten_digits()[d as int],
        ],
{
    numbers_are_written_digit_by_digit(0, a);
    numbers_are_written_digit_by_digit(a, b);
    numbers_are_written_digit_by_digit(10 * a + b, c);
    numbers_are_written_digit_by_digit(100 * a + 10 * b + c, d);
    assert(10 * (10 * a + b) + c == 100 * a + 10 * b + c);
    assert(10 * (100 * a + 10 * b + c) + d == 1000 * a + 100 * b + 10 * c + d);
    assert(zero_padded(1000 * a + 100 * b + 10 * c + d, 4) =~= seq![
        ten_digits()[a as int],
        ten_digits()[b as int],
        ten_digits()[c as int],
        ten_digits()[d as int],
    ]);
}

/// Two digits for a number below a hundred.
pub open spec fn pair(n: int) -> Seq<char> {
    seq![ten_digits()[n / 10], ten_digits()[n % 10]]
}

/// A date is written with the year, the month and the day of the common calendar, and the time of day
/// after it, each part with its zeros.
pub proof fn dates_are_written_in_full(calendar: Calendar)
    requires
        -900 <= calendar.year <= 8099,
        0 <= calendar.month < 12,
        1 <= calendar.day <= 31,
        0 <= calendar.hour < 24,
        0 <= calendar.minute < 60,
        0 <= calendar.second <= 60,
    ensures
        calendar.short() == pair(calendar.month + 1) + seq!['-'] + pair(calendar.day as int) + seq![
            ' ',
        ] + pair(calendar.hour as int) + seq![':'] + pair(calendar.minute as int) + seq![':']
            + pair(calendar.second as int),
        calendar.long() == pair((calendar.year + 1900) / 100) + pair(
            (calendar.year + 1900) % 100,
        ) + seq!['-'] + calendar.short(),
{
    reveal_strlit(":");
    reveal_strlit("-");
    reveal_strlit(" ");
    assert(":"@ =~= seq![':'] && "-"@ =~= seq!['-'] && " "@ =~= seq![' ']);
    lemma_pair(calendar.month + 1);
    lemma_pair(calendar.day as int);
    lemma_pair(calendar.hour as int);
    lemma_pair(calendar.minute as int);
    lemma_pair(calendar.second as int);
    let year = calendar.year + 1900;
    let high = year / 100;
    let low = year % 100;
    lemma_four_digits(
        (high / 10) as nat,
        (high % 10) as nat,
        (low / 10) as nat,
        (low % 10) as nat,
    );
    assert(1000 * (high / 10) + 100 * (high % 10) + 10 * (low / 10) + low % 10 == year);
    assert(zero_padded(year as nat, 4) =~= pair(high) + pair(low));
}

proof fn lemma_pair(n: int)
    requires
        0 <= n < 100,
    ensures
        signed_padded(n, 2) == pair(n),
{
    two_digits((n / 10) as nat, (n % 10) as nat);
    assert(10 * (n / 10) + n % 10 == n);
}

/// A start is shown as a dash before it has happened, by the calendar in UTC+8 where that reaches, and
/// otherwise in seconds; a moment in UTC likewise.
pub proof fn moments_are_shown_by_the_calendar(calendar: Calendar, seconds: u64, with_year: bool)
    ensures
        Started::NotYet.label(with_year) == seq!['-'],
        Started::NotYet.detail() == seq!['-'],
        Started::At(calendar).label(true) == calendar.long(),
        Started::At(calendar).label(false) == calendar.short(),
        Started::At(calendar).detail() == calendar.long() + " UTC+8"@,
        Started::Beyond(seconds).label(with_year) == decimal(seconds as nat) + " Unix"@,
        Started::Beyond(seconds).detail() == decimal(seconds as nat) + " Unix"@,
        moment(seconds as int, Some(calendar)) == calendar.long() + " UTC"@,
        moment(seconds as int, None) == decimal(seconds as nat) + " Unix"@,
{
    reveal_strlit("-");
    assert("-"@ =~= seq!['-']);
    numbers_are_filled_up_with_zeros(seconds as nat, 0);
    assert(zero_padded(seconds as nat, 0) =~= decimal(seconds as nat));
}

/// The clock that start times are shown in is eight hours ahead of UTC.
pub proof fn starts_are_shown_eight_hours_ahead(timestamp: u64, r: Option<i64>)
    requires
        call_ensures(local_seconds, (timestamp,), r),
    ensures
        r is Some ==> r->0 - timestamp == 8 * 60 * 60,
        r is None <==> timestamp + 28800 > i64::MAX,
{
}

// ---- What the devices and states promise ----

/// The numbers of a vendor are those of its devices among the given ones, all of them and in their
/// order.
pub proof fn the_numbers_of_a_vendor_are_listed(
    devices: Seq<DeviceModel>,
    kind: Kind,
    of_vendor: Seq<bool>,
) -> (places: Seq<int>)
    requires
        of_vendor.len() == devices.len(),
        forall|i: int| 0 <= i < devices.len() ==> #[trigger] of_vendor[i] == (devices[i].kind == kind),
    ensures
        picks(places, of_vendor),
        numbers_of(devices, kind).len() == places.len(),
        forall|k: int|
            0 <= k < places.len() ==> #[trigger] numbers_of(devices, kind)[k] == decimal(
                devices[places[k]].id as nat,
            ),
    decreases devices.len(),
{
    if devices.len() == 0 {
        Seq::empty()
    } else {
        let front = devices.drop_last();
        let at = devices.len() - 1;
        assert forall|i: int| 0 <= i < front.len() implies #[trigger] of_vendor.drop_last()[i] == (
        front[i].kind == kind) by {
            assert(of_vendor[i] == of_vendor.drop_last()[i]);
        }
        let places = the_numbers_of_a_vendor_are_listed(front, kind, of_vendor.drop_last());
        lemma_one_more(places, of_vendor);
        assert(of_vendor[at] == of_vendor.last());
        let numbers = numbers_of(devices, kind);
        let fewer = numbers_of(front, kind);
        assert forall|k: int| 0 <= k < places.len() implies #[trigger] numbers[k] == decimal(
            devices[places[k]].id as nat,
        ) by {
            assert(fewer[k] == decimal(front[places[k]].id as nat));
        }
        if of_vendor.last() {
            places.push(at)
        } else {
            places
        }
    }
}

proof fn lemma_numbers_of_all(devices: Seq<DeviceModel>, kind: Kind)
    requires
        forall|i: int| 0 <= i < devices.len() ==> (#[trigger] devices[i]).kind == kind,
    ensures
        numbers_of(devices, kind) == Seq::new(
            devices.len(),
            |i: int| decimal(devices[i].id as nat),
        ),
        numbers_of(devices, other_kind(kind)).len() == 0,
    decreases devices.len(),
{
    if devices.len() > 0 {
        let front = devices.drop_last();
        assert forall|i: int| 0 <= i < front.len() implies (#[trigger] front[i]).kind == kind by {
            assert(devices[i].kind == kind);
        }
        lemma_numbers_of_all(front, kind);
        assert(devices[devices.len() - 1].kind == kind);
        assert(numbers_of(devices, kind) =~= Seq::new(
            devices.len(),
            |i: int| decimal(devices[i].id as nat),
        ));
    } else {
        assert(numbers_of(devices, kind) =~= Seq::new(
            devices.len(),
            |i: int| decimal(devices[i].id as nat),
        ));
    }
}

/// The devices of a job, which are of one vendor, are shown under its name: one by its number, more
/// of them by the list of their numbers; no devices by a dash.
pub proof fn devices_are_shown_under_their_vendor(devices: Seq<DeviceModel>, kind: Kind)
    requires
        forall|i: int| 0 <= i < devices.len() ==> (#[trigger] devices[i]).kind == kind,
    ensures
        devices.len() == 0 ==> device_text(devices) == seq!['-'],
        devices.len() == 1 ==> device_text(devices) == kind_name(kind) + seq![':'] + decimal(
            devices[0].id as nat,
        ),
        devices.len() > 1 ==> device_text(devices) == kind_name(kind) + seq![':', '['] + joined(
            Seq::new(devices.len(), |i: int| decimal(devices[i].id as nat)),
            seq![','],
        ) + seq![']'],
{
    lemma_numbers_of_all(devices, kind);
    reveal_strlit(":");
    reveal_strlit(":[");
    reveal_strlit("]");
    reveal_strlit(",");
    reveal_strlit("-");
    assert(":"@ =~= seq![':'] && ":["@ =~= seq![':', '['] && "]"@ =~= seq![']']);
    assert(","@ =~= seq![','] && "-"@ =~= seq!['-']);
}

/// Devices of two vendors are shown with the vendor of the first one first.
pub proof fn mixed_devices_keep_the_first_vendor_first(devices: Seq<DeviceModel>, at: int)
    requires
        0 <= at < devices.len(),
        devices[at].kind != devices[0].kind,
    ensures
        device_text(devices) == vendor_text(
            devices[0].kind,
            numbers_of(devices, devices[0].kind),
        ) + seq![','] + vendor_text(devices[at].kind, numbers_of(devices, devices[at].kind)),
{
    reveal_strlit(",");
    assert(","@ =~= seq![',']);
    let flags = Seq::new(devices.len(), |i: int| devices[i].kind == devices[at].kind);
    let places = the_numbers_of_a_vendor_are_listed(devices, devices[at].kind, flags);
    assert(flags[at]);
    assert(places.contains(at));
    assert(other_kind(devices[0].kind) == devices[at].kind);
}

/// A job that waits shows what it asks for: nothing but the processor, or so many devices of a vendor
/// or of any; one that does not wait shows what it was given.
pub proof fn waiting_jobs_show_what_they_ask_for(job: SummaryModel)
    ensures
        job.state == State::Pending && job.count == 0 ==> queue_devices(job) == "cpu"@,
        job.state == State::Pending && job.count > 0 && job.kind is None ==> queue_devices(job)
            == "auto:"@ + decimal(job.count as nat) + " requested"@,
        job.state == State::Pending && job.count > 0 && job.kind is Some ==> queue_devices(job)
            == kind_name(job.kind->0) + ":"@ + decimal(job.count as nat) + " requested"@,
        job.state != State::Pending ==> queue_devices(job) == device_text(job.devices),
{
    reveal_strlit("auto");
    reveal_strlit(":");
    reveal_strlit("auto:");
    assert("auto"@ + ":"@ =~= "auto:"@);
}

/// The name of a state in capitals is its name.
pub proof fn capitals_spell_the_same_name(state: State)
    ensures
        lowered(state_capitals(state)) == lowered(state_name(state)),
        forall|i: int|
            0 <= i < state_capitals(state).len() ==> 'A' <= #[trigger] state_capitals(state)[i]
                <= 'Z',
        state == State::Pending ==> state_name(state) == "Pending"@,
        state == State::Running ==> state_name(state) == "Running"@,
        state == State::Completed ==> state_name(state) == "Completed"@,
        state == State::Failed ==> state_name(state) == "Failed"@,
        state == State::Cancelled ==> state_name(state) == "Cancelled"@,
        state == State::TimedOut ==> state_name(state) == "TimedOut"@,
{
    reveal_strlit("Pending");
    reveal_strlit("Running");
    reveal_strlit("Completed");
    reveal_strlit("Failed");
    reveal_strlit("Cancelled");
    reveal_strlit("TimedOut");
    reveal_strlit("PENDING");
    reveal_strlit("RUNNING");
    reveal_strlit("COMPLETED");
    reveal_strlit("FAILED");
    reveal_strlit("CANCELLED");
    reveal_strlit("TIMEDOUT");
    assert(lowered(state_capitals(state)) =~= lowered(state_name(state)));
}

// ---- What the tables promise ----

/// The columns of the queue stand below their headings: each field begins at the same place in every
/// line, as long as the fields before it fit.
pub proof fn the_columns_of_the_queue_line_up(
    job: SummaryModel,
    name: Seq<char>,
    started: Started,
    with_year: bool,
    now: u64,
)
    requires
        decimal(job.id as nat).len() <= 6,
        job.owner.name.len() <= 12,
        decimal(job.count as nat).len() <= 5,
        queue_devices(job).len() <= 16,
        started.label(with_year).len() <= 19,
        duration(times(job.submitted_at, job.started_at, job.finished_at, now).0 as nat).len()
            <= 12,
        optional_duration(times(job.submitted_at, job.started_at, job.finished_at, now).1).len()
            <= 12,
    ensures
        ({
            let (waited, ran) = times(job.submitted_at, job.started_at, job.finished_at, now);
            let line = queue_line(job, name, started, with_year, now);
            let top = queue_heading();
            &&& begins_at(line, 0, decimal(job.id as nat)) && begins_at(top, 0, "JOB"@)
            &&& begins_at(line, 7, job.owner.name) && begins_at(top, 7, "USER"@)
            &&& begins_at(line, 20, state_capitals(job.state)) && begins_at(top, 20, "STATE"@)
            &&& begins_at(line, 32, decimal(job.count as nat)) && begins_at(top, 32, "COUNT"@)
            &&& begins_at(line, 38, queue_devices(job)) && begins_at(top, 38, "DEVICES"@)
            &&& begins_at(line, 55, started.label(with_year)) && begins_at(
                top,
                55,
                "STARTED (UTC+8)"@,
            )
            &&& begins_at(line, 75, duration(waited as nat)) && begins_at(top, 75, "WAIT"@)
            &&& begins_at(line, 88, optional_duration(ran)) && begins_at(top, 88, "RUN"@)
            &&& line.skip(101) == name && top.skip(101) == "NAME"@
        }),
{
    let (waited, ran) = times(job.submitted_at, job.started_at, job.finished_at, now);
    let state = state_capitals(job.state);
    reveal_strlit("PENDING");
    reveal_strlit("RUNNING");
    reveal_strlit("COMPLETED");
    reveal_strlit("FAILED");
    reveal_strlit("CANCELLED");
    reveal_strlit("TIMEDOUT");
    assert(state.len() <= 11);
    lemma_columns(
        decimal(job.id as nat),
        job.owner.name,
        state,
        decimal(job.count as nat),
        queue_devices(job),
        started.label(with_year),
        duration(waited as nat),
        optional_duration(ran),
        name,
    );
    reveal_strlit("JOB");
    reveal_strlit("USER");
    reveal_strlit("STATE");
    reveal_strlit("COUNT");
    reveal_strlit("DEVICES");
    reveal_strlit("STARTED (UTC+8)");
    reveal_strlit("WAIT");
    reveal_strlit("RUN");
    lemma_columns(
        "JOB"@,
        "USER"@,
        "STATE"@,
        "COUNT"@,
        "DEVICES"@,
        "STARTED (UTC+8)"@,
        "WAIT"@,
        "RUN"@,
        "NAME"@,
    );
}

/// The text stands at a place of a line, with at least a space behind it.
pub open spec fn begins_at(line: Seq<char>, at: int, text: Seq<char>) -> bool {
    &&& 0 <= at && at + text.len() < line.len()
    &&& line.subrange(at, at + text.len()) == text
    &&& line[at + text.len()] == ' '
}

proof fn lemma_columns(
    a: Seq<char>,
    b: Seq<char>,
    c: Seq<char>,
    d: Seq<char>,
    e: Seq<char>,
    f: Seq<char>,
    g: Seq<char>,
    h: Seq<char>,
    last: Seq<char>,
)
    requires
        a.len() <= 6 && b.len() <= 12 && c.len() <= 11 && d.len() <= 5,
        e.len() <= 16 && f.len() <= 19 && g.len() <= 12 && h.len() <= 12,
    ensures
        ({
            let line = padded(a, 6) + " "@ + padded(b, 12) + " "@ + padded(c, 11) + " "@ + padded(
                d,
                5,
            ) + " "@ + padded(e, 16) + " "@ + padded(f, 19) + " "@ + padded(g, 12) + " "@ + padded(
                h,
                12,
            ) + " "@ + last;
            &&& begins_at(line, 0, a) && begins_at(line, 7, b) && begins_at(line, 20, c)
            &&& begins_at(line, 32, d) && begins_at(line, 38, e) && begins_at(line, 55, f)
            &&& begins_at(line, 75, g) && begins_at(line, 88, h)
            &&& line.skip(101) == last
        }),
{
    reveal_strlit(" ");
    let line = padded(a, 6) + " "@ + padded(b, 12) + " "@ + padded(c, 11) + " "@ + padded(d, 5)
        + " "@ + padded(e, 16) + " "@ + padded(f, 19) + " "@ + padded(g, 12) + " "@ + padded(h, 12)
        + " "@ + last;
    assert(line.subrange(0, a.len() as int) =~= a);
    assert(line.subrange(7, (7 + b.len()) as int) =~= b);
    assert(line.subrange(20, (20 + c.len()) as int) =~= c);
    assert(line.subrange(32, (32 + d.len()) as int) =~= d);
    assert(line.subrange(38, (38 + e.len()) as int) =~= e);
    assert(line.subrange(55, (55 + f.len()) as int) =~= f);
    assert(line.subrange(75, (75 + g.len()) as int) =~= g);
    assert(line.subrange(88, (88 + h.len()) as int) =~= h);
    assert(line.skip(101) =~= last);
}

/// The columns of the device list stand below their headings; a device without a job shows a dash.
pub proof fn the_columns_of_the_devices_line_up(view: DeviceViewModel)
    requires
        kind_name(view.device.kind).len() + decimal(view.device.id as nat).len() < 12,
        view.status.len() <= 11,
        view.job is Some ==> decimal(view.job->0 as nat).len() <= 6,
    ensures
        ({
            let line = device_line(view);
            let top = device_heading();
            &&& begins_at(
                line,
                0,
                kind_name(view.device.kind) + seq![':'] + decimal(view.device.id as nat),
            ) && begins_at(top, 0, "DEVICE"@)
            &&& begins_at(line, 13, view.status) && begins_at(top, 13, "STATUS"@)
            &&& view.job is Some ==> begins_at(line, 25, decimal(view.job->0 as nat))
            &&& view.job is None ==> begins_at(line, 25, seq!['-'])
            &&& begins_at(top, 25, "JOB"@)
            &&& line.skip(32) == view.device.name && top.skip(32) == "NAME"@
        }),
{
    reveal_strlit(":");
    reveal_strlit("-");
    reveal_strlit("DEVICE");
    reveal_strlit("STATUS");
    reveal_strlit("JOB");
    assert(":"@ =~= seq![':'] && "-"@ =~= seq!['-']);
    let label = kind_name(view.device.kind) + ":"@ + decimal(view.device.id as nat);
    let job = match view.job {
        Some(id) => decimal(id as nat),
        None => "-"@,
    };
    lemma_device_columns(label, view.status, job, view.device.name);
    lemma_device_columns("DEVICE"@, "STATUS"@, "JOB"@, "NAME"@);
}

proof fn lemma_device_columns(a: Seq<char>, b: Seq<char>, c: Seq<char>, last: Seq<char>)
    requires
        a.len() <= 12 && b.len() <= 11 && c.len() <= 6,
    ensures
        ({
            let line = padded(a, 12) + " "@ + padded(b, 11) + " "@ + padded(c, 6) + " "@ + last;
            &&& begins_at(line, 0, a) && begins_at(line, 13, b) && begins_at(line, 25, c)
            &&& line.skip(32) == last
        }),
{
    reveal_strlit(" ");
    let line = padded(a, 12) + " "@ + padded(b, 11) + " "@ + padded(c, 6) + " "@ + last;
    assert(line.subrange(0, a.len() as int) =~= a);
    assert(line.subrange(13, (13 + b.len()) as int) =~= b);
    assert(line.subrange(25, (25 + c.len()) as int) =~= c);
    assert(line.skip(32) =~= last);
}

// ---- What the details promise ----

/// The details of a job tell all that its owner may want to know, each under its own label: number
/// and state, name, owner, directory, log, devices, start and times.
pub proof fn details_tell_all_of_a_job(job: JobModel, started: Started, now: u64)
    ensures
        ({
            let text = job_text(job, started, now);
            let (waited, ran) = times(
                job.submitted_at,
                job.started_at,
                match job.result {
                    Some(outcome) => Some(outcome.finished_at),
                    None => None,
                },
                now,
            );
            &&& contains(text, "Job "@ + decimal(job.id as nat) + ": "@ + state_name(job.state))
            &&& contains(text, "\nName: "@ + job.spec.name)
            &&& contains(
                text,
                "\nUser: "@ + job.owner.name + " (UID "@ + decimal(job.owner.uid as nat) + ")"@,
            )
            &&& contains(text, "\nDirectory: "@ + job.spec.cwd)
            &&& contains(text, "\nLog: xqueue "@ + decimal(job.id as nat) + " --log"@)
            &&& contains(text, "\nDevices: "@ + device_text(job.devices))
            &&& contains(text, "\nStarted at: "@ + started.detail())
            &&& contains(text, "\nWait time: "@ + duration(waited as nat))
            &&& contains(text, "\nRun time: "@ + optional_duration(ran))
        }),
{
    let text = job_text(job, started, now);
    let (waited, ran) = times(
        job.submitted_at,
        job.started_at,
        match job.result {
            Some(outcome) => Some(outcome.finished_at),
            None => None,
        },
        now,
    );
    reveal_strlit(")");
    reveal_strlit(")\nDirectory: ");
    reveal_strlit("\nDirectory: ");
    reveal_strlit(" --log");
    reveal_strlit(" --log\nDevices: ");
    reveal_strlit("\nDevices: ");
    assert(")\nDirectory: "@ =~= ")"@ + "\nDirectory: "@);
    assert(" --log\nDevices: "@ =~= " --log"@ + "\nDevices: "@);
    let id = decimal(job.id as nat);
    let uid = decimal(job.owner.uid as nat);
    let devices = device_text(job.devices);
    let start = started.detail();
    let wait = duration(waited as nat);
    let run = optional_duration(ran);
    let a = "Job "@ + id + ": "@ + state_name(job.state);
    let b = "\nName: "@ + job.spec.name;
    let c = "\nUser: "@ + job.owner.name + " (UID "@ + uid + ")"@;
    let d = "\nDirectory: "@ + job.spec.cwd;
    let e = "\nLog: xqueue "@ + id + " --log"@;
    let f = "\nDevices: "@ + devices;
    let g = "\nStarted at: "@ + start;
    let h = "\nWait time: "@ + wait;
    let i = "\nRun time: "@ + run;
    let j = outcome_text(job.result);
    let t1 = a + b;
    lemma_regroup(a, "\nName: "@, job.spec.name);
    let t2 = t1 + c;
    lemma_regroup(t1, "\nUser: "@, job.owner.name);
    lemma_regroup(t1, "\nUser: "@ + job.owner.name, " (UID "@);
    lemma_regroup(t1, "\nUser: "@ + job.owner.name + " (UID "@, uid);
    lemma_regroup(t1, "\nUser: "@ + job.owner.name + " (UID "@ + uid, ")"@);
    lemma_regroup(t1 + ("\nUser: "@ + job.owner.name + " (UID "@ + uid), ")"@, "\nDirectory: "@);
    let t3 = t2 + d;
    lemma_regroup(t2, "\nDirectory: "@, job.spec.cwd);
    let t4 = t3 + e;
    lemma_regroup(t3, "\nLog: xqueue "@, id);
    lemma_regroup(t3, "\nLog: xqueue "@ + id, " --log"@);
    lemma_regroup(t3 + ("\nLog: xqueue "@ + id), " --log"@, "\nDevices: "@);
    let t5 = t4 + f;
    lemma_regroup(t4, "\nDevices: "@, devices);
    let t6 = t5 + g;
    lemma_regroup(t5, "\nStarted at: "@, start);
    let t7 = t6 + h;
    lemma_regroup(t6, "\nWait time: "@, wait);
    let t8 = t7 + i;
    lemma_regroup(t7, "\nRun time: "@, run);
    assert(text == t8 + j);
    let none = Seq::<char>::empty();
    assert(none + a =~= a);
    lemma_stands(none, a);
    lemma_stands(a, b);
    lemma_stands(t1, c);
    lemma_stands(t2, d);
    lemma_stands(t3, e);
    lemma_stands(t4, f);
    lemma_stands(t5, g);
    lemma_stands(t6, h);
    lemma_stands(t7, i);
    lemma_stands_further(a, b, a);
    lemma_stands_on(t1, c, d, e, f, g, h, i, j, a);
    lemma_stands_on(t1, c, d, e, f, g, h, i, j, b);
    lemma_stands_on(t1, c, d, e, f, g, h, i, j, c);
    lemma_stands_on(t1, c, d, e, f, g, h, i, j, d);
    lemma_stands_on(t1, c, d, e, f, g, h, i, j, e);
    lemma_stands_on(t1, c, d, e, f, g, h, i, j, f);
    lemma_stands_on(t1, c, d, e, f, g, h, i, j, g);
    lemma_stands_on(t1, c, d, e, f, g, h, i, j, h);
    lemma_stands_on(t1, c, d, e, f, g, h, i, j, i);
}

proof fn lemma_regroup(a: Seq<char>, b: Seq<char>, c: Seq<char>)
    ensures
        a + (b + c) == a + b + c,
{
    assert(a + (b + c) =~= a + b + c);
}

proof fn lemma_stands(before: Seq<char>, part: Seq<char>)
    ensures
        contains(before + part, part),
{
    patterns_are_found_anywhere(before, part, Seq::empty());
    assert(before + part + Seq::<char>::empty() =~= before + part);
}

/// What stands in a text stands in the text with more behind it.
proof fn lemma_stands_further(text: Seq<char>, more: Seq<char>, part: Seq<char>)
    ensures
        contains(text, part) ==> contains(text + more, part),
{
    if contains(text, part) {
        let (before, after) = found_patterns_stand_there(text, part);
        patterns_are_found_anywhere(before, part, after + more);
        assert(before + part + (after + more) =~= text + more);
    }
}

/// What stands in a text, or in the text with some of the parts behind it, stands in the whole.
proof fn lemma_stands_on(
    t: Seq<char>,
    a: Seq<char>,
    b: Seq<char>,
    c: Seq<char>,
    d: Seq<char>,
    e: Seq<char>,
    f: Seq<char>,
    g: Seq<char>,
    h: Seq<char>,
    part: Seq<char>,
)
    requires
        contains(t, part) || contains(t + a, part) || contains(t + a + b, part) || contains(
            t + a + b + c,
            part,
        ) || contains(t + a + b + c + d, part) || contains(t + a + b + c + d + e, part) || contains(
            t + a + b + c + d + e + f,
            part,
        ) || contains(t + a + b + c + d + e + f + g, part),
    ensures
        contains(t + a + b + c + d + e + f + g + h, part),
{
    lemma_stands_further(t, a, part);
    lemma_stands_further(t + a, b, part);
    lemma_stands_further(t + a + b, c, part);
    lemma_stands_further(t + a + b + c, d, part);
    lemma_stands_further(t + a + b + c + d, e, part);
    lemma_stands_further(t + a + b + c + d + e, f, part);
    lemma_stands_further(t + a + b + c + d + e + f, g, part);
    lemma_stands_further(t + a + b + c + d + e + f + g, h, part);
}

/// The details of a job that is over end with its exit code, and with its error where it has one;
/// those of another job have neither.
pub proof fn details_tell_how_a_job_ended(outcome: OutcomeModel)
    ensures
        outcome_text(None).len() == 0,
        outcome.exit_code >= 0 && outcome.error is None ==> outcome_text(Some(outcome))
            == "\nExit code: "@ + decimal(outcome.exit_code as nat),
        outcome.exit_code < 0 && outcome.error is None ==> outcome_text(Some(outcome))
            == "\nExit code: "@ + (seq!['-'] + decimal((-outcome.exit_code) as nat)),
        outcome.error is Some ==> outcome_text(Some(outcome)) == outcome_text(
            Some(OutcomeModel { error: None, ..outcome }),
        ) + ("\nError: "@ + outcome.error->0),
{
    let code = outcome.exit_code;
    if code >= 0 {
        numbers_are_filled_up_with_zeros(code as nat, 0);
        assert(zero_padded(code as nat, 0) =~= decimal(code as nat));
    } else {
        numbers_are_filled_up_with_zeros((-code) as nat, 0);
    }
    let first = "\nExit code: "@ + signed_padded(code as int, 0);
    assert(first + Seq::<char>::empty() =~= first);
}

/// A line of the queue has all its fields, whether they fit their columns or not, and the name at
/// the end; so has a line of the devices.
pub proof fn lines_hold_all_their_fields(
    job: SummaryModel,
    name: Seq<char>,
    started: Started,
    with_year: bool,
    now: u64,
    view: DeviceViewModel,
)
    ensures
        ({
            let (waited, ran) = times(job.submitted_at, job.started_at, job.finished_at, now);
            queue_line(job, name, started, with_year, now) == padded(decimal(job.id as nat), 6)
                + " "@ + padded(job.owner.name, 12) + " "@ + padded(state_capitals(job.state), 11)
                + " "@ + padded(decimal(job.count as nat), 5) + " "@ + padded(
                queue_devices(job),
                16,
            ) + " "@ + padded(started.label(with_year), 19) + " "@ + padded(
                duration(waited as nat),
                12,
            ) + " "@ + padded(optional_duration(ran), 12) + " "@ + name
        }),
        view.job is None ==> device_line(view) == padded(
            kind_name(view.device.kind) + ":"@ + decimal(view.device.id as nat),
            12,
        ) + " "@ + padded(view.status, 11) + " "@ + padded("-"@, 6) + " "@ + view.device.name,
        view.job is Some ==> device_line(view) == padded(
            kind_name(view.device.kind) + ":"@ + decimal(view.device.id as nat),
            12,
        ) + " "@ + padded(view.status, 11) + " "@ + padded(decimal(view.job->0 as nat), 6) + " "@
            + view.device.name,
{
}

} // verus!
