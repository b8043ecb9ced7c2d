//! Everything that can go wrong, with the words in which it is reported.
use vstd::prelude::*;
use vstd::string::*;

use crate::text::{decimal, decimal_text, join, joined, push_decimal, strings, NumberError};

verus! {

/// What went wrong.
#[derive(Debug)]
pub enum Error {
    EmptyCommand,
    MissingDirectory,
    ZeroTimeLimit,
    NotEnoughDevices { count: usize },
    JobIdsExhausted,
    JobNotFound,
    ZeroMaxRunning,
    PermissionDenied { name: String, uid: u32 },
    NoAccount { uid: u32 },
    InvalidGroupCount,
    UnresolvedGroups,
    ForeignSubmission,
    NotAdministrator,
    RunningJobs { action: Action, ids: Vec<u64> },
    ConnectionClosed,
    MessageTooLong,
    InvalidNumber(NumberError),
    InvalidNvidiaInventory,
    MissingAscendHeader,
    MissingNpuColumn,
    ShortAscendRow,
    InvalidLogicalId(NumberError),
    InvalidChipId(NumberError),
    NoDevices,
    DuplicateDevices,
    ProbeTimeout,
    ProbeFailed { program: String, output: String, errors: String },
    AccountChanged,
    ForeignIdentity,
    InvalidLockDescriptor,
    InvalidWorkerArguments,
    InvalidJobId,
    InvalidDescriptor,
    UnknownWrapper,
    UntrustedDirectory { path: String },
    ForeignHome,
    WritableHome,
    ForeignJobsDirectory,
    Other(String),
}

/// What running jobs forbid.
#[derive(Debug, Clone, Copy, PartialEq, Eq, Structural)]
pub enum Action {
    Restart,
    CleanLogs,
}

/// The content of an error.
pub enum ErrorModel {
    EmptyCommand,
    MissingDirectory,
    ZeroTimeLimit,
    NotEnoughDevices { count: usize },
    JobIdsExhausted,
    JobNotFound,
    ZeroMaxRunning,
    PermissionDenied { name: Seq<char>, uid: u32 },
    NoAccount { uid: u32 },
    InvalidGroupCount,
    UnresolvedGroups,
    ForeignSubmission,
    NotAdministrator,
    RunningJobs { action: Action, ids: Seq<u64> },
    ConnectionClosed,
    MessageTooLong,
    InvalidNumber(NumberError),
    InvalidNvidiaInventory,
    MissingAscendHeader,
    MissingNpuColumn,
    ShortAscendRow,
    InvalidLogicalId(NumberError),
    InvalidChipId(NumberError),
    NoDevices,
    DuplicateDevices,
    ProbeTimeout,
    ProbeFailed { program: Seq<char>, output: Seq<char>, errors: Seq<char> },
    AccountChanged,
    ForeignIdentity,
    InvalidLockDescriptor,
    InvalidWorkerArguments,
    InvalidJobId,
    InvalidDescriptor,
    UnknownWrapper,
    UntrustedDirectory { path: Seq<char> },
    ForeignHome,
    WritableHome,
    ForeignJobsDirectory,
    Other(Seq<char>),
}

impl View for Error {
    type V = ErrorModel;

    open spec fn view(&self) -> ErrorModel {
        match *self {
            Error::EmptyCommand => ErrorModel::EmptyCommand,
            Error::MissingDirectory => ErrorModel::MissingDirectory,
            Error::ZeroTimeLimit => ErrorModel::ZeroTimeLimit,
            Error::NotEnoughDevices { count } => ErrorModel::NotEnoughDevices { count },
            Error::JobIdsExhausted => ErrorModel::JobIdsExhausted,
            Error::JobNotFound => ErrorModel::JobNotFound,
            Error::ZeroMaxRunning => ErrorModel::ZeroMaxRunning,
            Error::PermissionDenied { name, uid } => ErrorModel::PermissionDenied {
                name: name@,
                uid,
            },
            Error::NoAccount { uid } => ErrorModel::NoAccount { uid },
            Error::InvalidGroupCount => ErrorModel::InvalidGroupCount,
            Error::UnresolvedGroups => ErrorModel::UnresolvedGroups,
            Error::ForeignSubmission => ErrorModel::ForeignSubmission,
            Error::NotAdministrator => ErrorModel::NotAdministrator,
            Error::RunningJobs { action, ids } => ErrorModel::RunningJobs { action, ids: ids@ },
            Error::ConnectionClosed => ErrorModel::ConnectionClosed,
            Error::MessageTooLong => ErrorModel::MessageTooLong,
            Error::InvalidNumber(cause) => ErrorModel::InvalidNumber(cause),
            Error::InvalidNvidiaInventory => ErrorModel::InvalidNvidiaInventory,
            Error::MissingAscendHeader => ErrorModel::MissingAscendHeader,
            Error::MissingNpuColumn => ErrorModel::MissingNpuColumn,
            Error::ShortAscendRow => ErrorModel::ShortAscendRow,
            Error::InvalidLogicalId(cause) => ErrorModel::InvalidLogicalId(cause),
            Error::InvalidChipId(cause) => ErrorModel::InvalidChipId(cause),
            Error::NoDevices => ErrorModel::NoDevices,
            Error::DuplicateDevices => ErrorModel::DuplicateDevices,
            Error::ProbeTimeout => ErrorModel::ProbeTimeout,
            Error::ProbeFailed { program, output, errors } => ErrorModel::ProbeFailed {
                program: program@,
                output: output@,
                errors: errors@,
            },
            Error::AccountChanged => ErrorModel::AccountChanged,
            Error::ForeignIdentity => ErrorModel::ForeignIdentity,
            Error::InvalidLockDescriptor => ErrorModel::InvalidLockDescriptor,
            Error::InvalidWorkerArguments => ErrorModel::InvalidWorkerArguments,
            Error::InvalidJobId => ErrorModel::InvalidJobId,
            Error::InvalidDescriptor => ErrorModel::InvalidDescriptor,
            Error::UnknownWrapper => ErrorModel::UnknownWrapper,
            Error::UntrustedDirectory { path } => ErrorModel::UntrustedDirectory { path: path@ },
            Error::ForeignHome => ErrorModel::ForeignHome,
            Error::WritableHome => ErrorModel::WritableHome,
            Error::ForeignJobsDirectory => ErrorModel::ForeignJobsDirectory,
            Error::Other(text) => ErrorModel::Other(text@),
        }
    }
}

/// The decimal form of each number.
pub open spec fn decimals(ids: Seq<u64>) -> Seq<Seq<char>> {
    Seq::new(ids.len(), |i: int| decimal(ids[i] as nat))
}

/// The words in which a text that is not a number is reported.
pub open spec fn number_error_text(cause: NumberError) -> Seq<char> {
    match cause {
        NumberError::Empty => "cannot parse integer from empty string"@,
        NumberError::InvalidDigit => "invalid digit found in string"@,
        NumberError::TooLarge => "number too large to fit in target type"@,
        NumberError::TooSmall => "number too small to fit in target type"@,
    }
}

impl ErrorModel {
    /// The words in which the error is reported.
    pub open spec fn text(self) -> Seq<char> {
        match self {
            ErrorModel::EmptyCommand => "empty command"@,
            ErrorModel::MissingDirectory => "working directory does not exist"@,
            ErrorModel::ZeroTimeLimit => "time-limit must be positive"@,
            ErrorModel::NotEnoughDevices { count } => "requested "@ + decimal(count as nat)
                + " device(s), but no matching pool has enough devices"@,
            ErrorModel::JobIdsExhausted => "job ID exhausted"@,
            ErrorModel::JobNotFound => "job not found"@,
            ErrorModel::ZeroMaxRunning => "max-running must be positive"@,
            ErrorModel::PermissionDenied { name, uid } => "permission denied: job belongs to "@
                + name + " (UID "@ + decimal(uid as nat) + ")"@,
            ErrorModel::NoAccount { uid } => "no local account for UID "@ + decimal(uid as nat),
            ErrorModel::InvalidGroupCount => "invalid supplementary group count"@,
            ErrorModel::UnresolvedGroups => "cannot resolve supplementary groups"@,
            ErrorModel::ForeignSubmission => "only a root daemon can run jobs for other users"@,
            ErrorModel::NotAdministrator =>
                "only the administrator may stop or restart the scheduler"@,
            ErrorModel::RunningJobs { action, ids } => (match action {
                Action::Restart => "cannot restart while jobs are running: "@,
                Action::CleanLogs => "cannot clean logs while jobs are running: "@,
            }) + joined(decimals(ids), ", "@),
            ErrorModel::ConnectionClosed => "connection closed before complete message"@,
            ErrorModel::MessageTooLong => "message exceeds size limit"@,
            ErrorModel::InvalidNumber(cause) => number_error_text(cause),
            ErrorModel::InvalidNvidiaInventory => "invalid nvidia-smi inventory"@,
            ErrorModel::MissingAscendHeader => "missing Ascend mapping header"@,
            ErrorModel::MissingNpuColumn => "missing NPU ID"@,
            ErrorModel::ShortAscendRow => "short Ascend mapping row"@,
            ErrorModel::InvalidLogicalId(cause) =>
                "invalid logical device ID; refusing to guess Ascend mapping: "@
                + number_error_text(cause),
            ErrorModel::InvalidChipId(cause) => "invalid Ascend chip ID: "@ + number_error_text(
                cause,
            ),
            ErrorModel::NoDevices => "no compute devices discovered"@,
            ErrorModel::DuplicateDevices => "duplicate device IDs in inventory"@,
            ErrorModel::ProbeTimeout => "device probe timed out after 3 seconds"@,
            ErrorModel::ProbeFailed { program, output, errors } => program + " failed: "@
                + output + " "@ + errors,
            ErrorModel::AccountChanged => "job owner's account changed since submission"@,
            ErrorModel::ForeignIdentity =>
                "executor cannot assume the submitting user's identity"@,
            ErrorModel::InvalidLockDescriptor => "invalid worker lock descriptor"@,
            ErrorModel::InvalidWorkerArguments => "invalid worker arguments"@,
            ErrorModel::InvalidJobId => "invalid job ID"@,
            ErrorModel::InvalidDescriptor => "invalid descriptor"@,
            ErrorModel::UnknownWrapper => "unknown command wrapper"@,
            ErrorModel::UntrustedDirectory { path } =>
                "root daemon state must be under trusted root-owned directories: "@ + path,
            ErrorModel::ForeignHome =>
                "XLURM_HOME must be a directory owned by the daemon account"@,
            ErrorModel::WritableHome => "XLURM_HOME must not be writable by other users"@,
            ErrorModel::ForeignJobsDirectory => "invalid jobs directory owner"@,
            ErrorModel::Other(text) => text,
        }
    }
}

fn number_error_message(cause: NumberError) -> (r: &'static str)
    ensures
        r@ == number_error_text(cause),
{
    match cause {
        NumberError::Empty => "cannot parse integer from empty string",
        NumberError::InvalidDigit => "invalid digit found in string",
        NumberError::TooLarge => "number too large to fit in target type",
        NumberError::TooSmall => "number too small to fit in target type",
    }
}

/// The numbers in decimal, with `", "` between each two of them.
fn listed(ids: &Vec<u64>) -> (r: String)
    ensures
        r@ == joined(decimals(ids@), ", "@),
{
    let mut list: Vec<String> = Vec::new();
    for i in 0..ids.len()
        invariant
            list@.len() == i,
            forall|j: int| 0 <= j < i ==> (#[trigger] list@[j])@ == decimal(ids@[j] as nat),
    {
        list.push(decimal_text(ids[i]));
    }
    assert(strings(list@) =~= decimals(ids@));
    join(&list, ", ")
}

impl Error {
    /// The words in which the error is reported.
    pub fn message(&self) -> (r: String)
        ensures
            r@ == self@.text(),
    {
        match self {
            Error::EmptyCommand => "empty command".to_owned(),
            Error::MissingDirectory => "working directory does not exist".to_owned(),
            Error::ZeroTimeLimit => "time-limit must be positive".to_owned(),
            Error::NotEnoughDevices { count } => {
                let mut r = "requested ".to_owned();
                push_decimal(&mut r, *count as u64);
                r.append(" device(s), but no matching pool has enough devices");
                r
            },
            Error::JobIdsExhausted => "job ID exhausted".to_owned(),
            Error::JobNotFound => "job not found".to_owned(),
            Error::ZeroMaxRunning => "max-running must be positive".to_owned(),
            Error::PermissionDenied { name, uid } => {
                let mut r = "permission denied: job belongs to ".to_owned();
                r.append(name.as_str());
                r.append(" (UID ");
                push_decimal(&mut r, *uid as u64);
                r.append(")");
                r
            },
            Error::NoAccount { uid } => {
                let mut r = "no local account for UID ".to_owned();
                push_decimal(&mut r, *uid as u64);
                r
            },
            Error::InvalidGroupCount => "invalid supplementary group count".to_owned(),
            Error::UnresolvedGroups => "cannot resolve supplementary groups".to_owned(),
            Error::ForeignSubmission => {
                "only a root daemon can run jobs for other users".to_owned()
            },
            Error::NotAdministrator => {
                "only the administrator may stop or restart the scheduler".to_owned()
            },
            Error::RunningJobs { action, ids } => {
                let mut r = match action {
                    Action::Restart => "cannot restart while jobs are running: ".to_owned(),
                    Action::CleanLogs => "cannot clean logs while jobs are running: ".to_owned(),
                };
                r.append(listed(ids).as_str());
                r
            },
            Error::ConnectionClosed => "connection closed before complete message".to_owned(),
            Error::MessageTooLong => "message exceeds size limit".to_owned(),
            Error::InvalidNumber(cause) => number_error_message(*cause).to_owned(),
            Error::InvalidNvidiaInventory => "invalid nvidia-smi inventory".to_owned(),
            Error::MissingAscendHeader => "missing Ascend mapping header".to_owned(),
            Error::MissingNpuColumn => "missing NPU ID".to_owned(),
            Error::ShortAscendRow => "short Ascend mapping row".to_owned(),
            Error::InvalidLogicalId(cause) => {
                let mut r =
                    "invalid logical device ID; refusing to guess Ascend mapping: ".to_owned();
                r.append(number_error_message(*cause));
                r
            },
            Error::InvalidChipId(cause) => {
                let mut r = "invalid Ascend chip ID: ".to_owned();
                r.append(number_error_message(*cause));
                r
            },
            Error::NoDevices => "no compute devices discovered".to_owned(),
            Error::DuplicateDevices => "duplicate device IDs in inventory".to_owned(),
            Error::ProbeTimeout => "device probe timed out after 3 seconds".to_owned(),
            Error::ProbeFailed { program, output, errors } => {
                let mut r = program.clone();
                r.append(" failed: ");
                r.append(output.as_str());
                r.append(" ");
                r.append(errors.as_str());
                r
            },
            Error::AccountChanged => "job owner's account changed since submission".to_owned(),
            Error::ForeignIdentity => {
                "executor cannot assume the submitting user's identity".to_owned()
            },
            Error::InvalidLockDescriptor => "invalid worker lock descriptor".to_owned(),
            Error::InvalidWorkerArguments => "invalid worker arguments".to_owned(),
            Error::InvalidJobId => "invalid job ID".to_owned(),
            Error::InvalidDescriptor => "invalid descriptor".to_owned(),
            Error::UnknownWrapper => "unknown command wrapper".to_owned(),
            Error::UntrustedDirectory { path } => {
                let mut r =
                    "root daemon state must be under trusted root-owned directories: ".to_owned();
                r.append(path.as_str());
                r
            },
            Error::ForeignHome => {
                "XLURM_HOME must be a directory owned by the daemon account".to_owned()
            },
            Error::WritableHome => "XLURM_HOME must not be writable by other users".to_owned(),
            Error::ForeignJobsDirectory => "invalid jobs directory owner".to_owned(),
            Error::Other(text) => text.clone(),
        }
    }
}

/// An error names what it is about: how many devices were wanted, whose job it is, which account is
/// missing, which jobs are running, what a tool printed, which directory is not trusted.
pub proof fn errors_name_what_they_are_about(
    count: usize,
    uid: u32,
    name: Seq<char>,
    output: Seq<char>,
    errors: Seq<char>,
    ids: Seq<u64>,
)
    ensures
        (ErrorModel::NotEnoughDevices { count }).text() == "requested "@ + decimal(count as nat)
            + " device(s), but no matching pool has enough devices"@,
        (ErrorModel::PermissionDenied { name, uid }).text()
            == "permission denied: job belongs to "@ + name + " (UID "@ + decimal(uid as nat)
            + ")"@,
        (ErrorModel::NoAccount { uid }).text() == "no local account for UID "@ + decimal(
            uid as nat,
        ),
        (ErrorModel::RunningJobs { action: Action::Restart, ids }).text()
            == "cannot restart while jobs are running: "@ + joined(
            Seq::new(ids.len(), |i: int| decimal(ids[i] as nat)),
            seq![',', ' '],
        ),
        (ErrorModel::RunningJobs { action: Action::CleanLogs, ids }).text()
            == "cannot clean logs while jobs are running: "@ + joined(
            Seq::new(ids.len(), |i: int| decimal(ids[i] as nat)),
            seq![',', ' '],
        ),
        (ErrorModel::ProbeFailed { program: name, output, errors }).text() == name
            + " failed: "@ + output + " "@ + errors,
        (ErrorModel::UntrustedDirectory { path: name }).text()
            == "root daemon state must be under trusted root-owned directories: "@ + name,
        ErrorModel::Other(name).text() == name,
{
    reveal_strlit(", ");
    assert(", "@ =~= seq![',', ' ']);
    assert(decimals(ids) =~= Seq::new(ids.len(), |i: int| decimal(ids[i] as nat)));
}

/// What is wrong with a number is told wherever the number stands.
pub proof fn errors_tell_what_is_wrong_with_a_number(cause: NumberError)
    ensures
        ErrorModel::InvalidNumber(cause).text() == match cause {
            NumberError::Empty => "cannot parse integer from empty string"@,
            NumberError::InvalidDigit => "invalid digit found in string"@,
            NumberError::TooLarge => "number too large to fit in target type"@,
            NumberError::TooSmall => "number too small to fit in target type"@,
        },
        ErrorModel::InvalidLogicalId(cause).text()
            == "invalid logical device ID; refusing to guess Ascend mapping: "@
            + ErrorModel::InvalidNumber(cause).text(),
        ErrorModel::InvalidChipId(cause).text() == "invalid Ascend chip ID: "@
            + ErrorModel::InvalidNumber(cause).text(),
{
}

} // verus!
