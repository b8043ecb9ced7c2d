//! Where the state is kept, and which files belong to it.
//!
//! A path is a sequence of bytes, as the system has it.
use vstd::prelude::*;
use vstd::string::*;
use vstd::utf8::encode_utf8;

use crate::error::{Error, ErrorModel};
use crate::scheduler::{among, Cleanup};
use crate::text::{
    chars_of, decimal, decimal_reads_back, decimal_text, find, find_from, lemma_decimal_nonempty,
    lemma_find_from_is, matches_at, part, read_u32, read_unsigned, same_chars, starts_with,
    unsigned,
};

verus! {

// ---- Paths ----

/// A path beneath another one: an absolute path stands for itself.
pub open spec fn beneath(base: Seq<u8>, path: Seq<u8>) -> Seq<u8> {
    if is_absolute(path) {
        path
    } else if base.len() > 0 && base.last() != 47 {
        base.push(47u8) + path
    } else {
        base + path
    }
}

/// The path starts with a slash.
pub open spec fn is_absolute(path: Seq<u8>) -> bool {
    path.len() > 0 && path[0] == 47
}

/// The bytes of a text.
pub fn encoded(text: &str) -> (r: Vec<u8>)
    ensures
        r@ == encode_utf8(text@),
{
    let mut r: Vec<u8> = Vec::new();
    r.extend_from_slice(text.as_bytes());
    assert(r@ =~= text.spec_bytes());
    r
}

/// A copy of a path.
pub fn copy_path(path: &Vec<u8>) -> (r: Vec<u8>)
    ensures
        r@ == path@,
{
    let mut r: Vec<u8> = Vec::new();
    for i in 0..path.len()
        invariant
            r@ == path@.take(i as int),
    {
        r.push(path[i]);
        assert(r@ =~= path@.take(i + 1));
    }
    assert(path@.take(path@.len() as int) =~= path@);
    r
}

/// A path beneath another one.
pub fn join_path(base: &Vec<u8>, path: &Vec<u8>) -> (r: Vec<u8>)
    ensures
        r@ == beneath(base@, path@),
{
    if path.len() > 0 && path[0] == 47 {
        return copy_path(path);
    }
    let mut r = copy_path(base);
    if base.len() > 0 && base[base.len() - 1] != 47 {
        r.push(47);
    }
    let mut rest = copy_path(path);
    r.append(&mut rest);
    r
}

/// The state directory.
#[derive(Debug)]
pub struct Paths(pub Vec<u8>);

impl View for Paths {
    type V = Seq<u8>;

    open spec fn view(&self) -> Seq<u8> {
        self.0@
    }
}

impl Clone for Paths {
    fn clone(&self) -> (r: Self)
        ensures
            r@ == self@,
    {
        Paths(copy_path(&self.0))
    }
}

/// The name of a file of a job.
pub open spec fn job_file_name(id: u64, extension: Seq<char>) -> Seq<char> {
    decimal(id as nat) + "."@ + extension
}

impl Paths {
    /// The state directory that the environment names, or the shared one. A relative path is taken
    /// from the current directory, and only then does it matter whether that is known.
    pub fn discover(home: Option<Vec<u8>>, current: Result<Vec<u8>, Error>) -> (r: Result<
        Self,
        Error,
    >)
        ensures
            ({
                let path = match home {
                    Some(home) => home@,
                    None => encode_utf8("/var/lib/xlurm"@),
                };
                match r {
                    Ok(paths) => if is_absolute(path) {
                        paths@ == path
                    } else {
                        current is Ok && paths@ == beneath(current->Ok_0@, path)
                    },
                    Err(error) => !is_absolute(path) && current is Err && error
                        == current->Err_0,
                }
            }),
    {
        let path = match home {
            Some(home) => home,
            None => encoded("/var/lib/xlurm"),
        };
        if path.len() > 0 && path[0] == 47 {
            return Ok(Paths(path));
        }
        match current {
            Ok(directory) => Ok(Paths(join_path(&directory, &path))),
            Err(error) => Err(error),
        }
    }

    /// A file of the state directory.
    pub fn file(&self, name: &str) -> (r: Vec<u8>)
        ensures
            r@ == beneath(self@, encode_utf8(name@)),
    {
        join_path(&self.0, &encoded(name))
    }

    /// The socket of the scheduler.
    pub fn socket(&self) -> (r: Vec<u8>)
        ensures
            r@ == beneath(self@, encode_utf8("xlurm.sock"@)),
    {
        self.file("xlurm.sock")
    }

    /// A file of a job.
    pub fn job(&self, id: u64, extension: &str) -> (r: Vec<u8>)
        ensures
            r@ == beneath(
                beneath(self@, encode_utf8("jobs"@)),
                encode_utf8(job_file_name(id, extension@)),
            ),
    {
        let mut name = decimal_text(id);
        name.append(".");
        name.append(extension);
        join_path(&self.file("jobs"), &encoded(name.as_str()))
    }
}

// ---- Who may keep the state where ----

/// What is known of a directory.
pub struct Meta {
    pub is_dir: bool,
    pub uid: u32,
    pub mode: u32,
}

/// The permissions of the state directory.
pub const HOME_MODE: u32 = 0o755;

/// The permissions of the directory of the jobs' files.
pub const JOBS_MODE: u32 = 0o700;

impl Meta {
    /// Others than the owner may write here.
    pub open spec fn is_shared(self) -> bool {
        self.mode & 0o022 != 0
    }

    /// Only the owner of a file may remove it here.
    pub open spec fn is_sticky(self) -> bool {
        self.mode & 0o1000 != 0
    }

    /// It is a directory of the user.
    pub open spec fn belongs_to(self, uid: u32) -> bool {
        self.is_dir && self.uid == uid
    }

    /// Checks a directory above the state of a root daemon, which is shown as `path`.
    pub fn check_ancestor(&self, path: String) -> (r: Result<(), Error>)
        ensures
            match r {
                Ok(_) => self.belongs_to(0) && (!self.is_shared() || self.is_sticky()),
                Err(error) => !(self.belongs_to(0) && (!self.is_shared() || self.is_sticky()))
                    && error@ == (ErrorModel::UntrustedDirectory { path: path@ }),
            },
    {
        if self.is_dir && self.uid == 0 && (self.mode & 0o022 == 0 || self.mode & 0o1000 != 0) {
            Ok(())
        } else {
            Err(Error::UntrustedDirectory { path })
        }
    }

    /// Checks the state directory of a daemon that runs as the user.
    pub fn check_home(&self, uid: u32) -> (r: Result<(), Error>)
        ensures
            match r {
                Ok(_) => self.belongs_to(uid) && !self.is_shared(),
                Err(error) => if !self.belongs_to(uid) {
                    error@ == ErrorModel::ForeignHome
                } else {
                    self.is_shared() && error@ == ErrorModel::WritableHome
                },
            },
    {
        if !(self.is_dir && self.uid == uid) {
            return Err(Error::ForeignHome);
        }
        if self.mode & 0o022 != 0 {
            return Err(Error::WritableHome);
        }
        Ok(())
    }

    /// Checks the directory of the jobs' files of a daemon that runs as the user.
    pub fn check_jobs(&self, uid: u32) -> (r: Result<(), Error>)
        ensures
            match r {
                Ok(_) => self.belongs_to(uid),
                Err(error) => !self.belongs_to(uid) && error@ == ErrorModel::ForeignJobsDirectory,
            },
    {
        if self.is_dir && self.uid == uid {
            Ok(())
        } else {
            Err(Error::ForeignJobsDirectory)
        }
    }
}

// ---- The files of a job ----

/// What follows the number in the name of a file of a job.
pub open spec fn is_job_extension(extension: Seq<char>) -> bool {
    ||| extension == "json"@
    ||| extension == "log"@
    ||| extension == "lock"@
    ||| extension == "result"@
    ||| extension == "cancel"@
    ||| {
        &&& matches_at(extension, "tmp."@, 0)
        &&& unsigned(extension.skip(4), u32::MAX as nat) is Ok
    }
}

/// The number before the first dot of a name, and what follows the dot.
pub open spec fn numbered(name: Seq<char>) -> Option<(u64, Seq<char>)> {
    let dot = find_from(name, '.', 0);
    if dot >= name.len() {
        None
    } else {
        match unsigned(name.take(dot), u64::MAX as nat) {
            Ok(id) => Some((id as u64, name.skip(dot + 1))),
            Err(_) => None,
        }
    }
}

/// The job that a file belongs to by its name.
pub open spec fn owning_job(name: Seq<char>) -> Option<u64> {
    match numbered(name) {
        Some((id, extension)) => if is_job_extension(extension) {
            Some(id)
        } else {
            None
        },
        None => None,
    }
}

/// The name is that of a job's log.
pub open spec fn names_log(name: Seq<char>) -> bool {
    match numbered(name) {
        Some((_, extension)) => extension == "log"@,
        None => false,
    }
}

/// The view of a number and a text.
pub open spec fn numbered_model(value: Option<(u64, Vec<char>)>) -> Option<(u64, Seq<char>)> {
    match value {
        Some((id, extension)) => Some((id, extension@)),
        None => None,
    }
}

/// The number before the first dot of a name, and what follows the dot.
fn split_name(name: &String) -> (r: Option<(u64, Vec<char>)>)
    ensures
        numbered_model(r) == numbered(name@),
{
    let text = chars_of(name.as_str());
    let dot = find(&text, '.', 0);
    if dot >= text.len() {
        return None;
    }
    let head = part(&text, 0, dot);
    assert(head@ =~= text@.take(dot as int));
    match read_unsigned(&head, u64::MAX) {
        Ok(id) => {
            let extension = part(&text, dot + 1, text.len());
            assert(extension@ =~= text@.skip(dot + 1));
            Some((id, extension))
        },
        Err(_) => None,
    }
}

/// Whether this follows the number in the name of a file of a job.
fn job_extension(extension: &Vec<char>) -> (r: bool)
    ensures
        r == is_job_extension(extension@),
{
    if same_chars(extension, &chars_of("json")) || same_chars(extension, &chars_of("log"))
        || same_chars(extension, &chars_of("lock")) || same_chars(extension, &chars_of("result"))
        || same_chars(extension, &chars_of("cancel")) {
        return true;
    }
    if !starts_with(extension, "tmp.") {
        return false;
    }
    proof {
        reveal_strlit("tmp.");
    }
    let pid = part(extension, 4, extension.len());
    assert(pid@ =~= extension@.skip(4));
    match read_u32(&pid) {
        Ok(_) => true,
        Err(_) => false,
    }
}

/// The job that a file belongs to by its name.
pub fn job_file(name: &String) -> (r: Option<u64>)
    ensures
        r == owning_job(name@),
{
    match split_name(name) {
        Some((id, extension)) => if job_extension(&extension) {
            Some(id)
        } else {
            None
        },
        None => None,
    }
}

/// Whether the name is that of a job's log.
pub fn is_job_log(name: &String) -> (r: bool)
    ensures
        r == names_log(name@),
{
    match split_name(name) {
        Some((_, extension)) => same_chars(&extension, &chars_of("log")),
        None => false,
    }
}

impl Cleanup {
    /// Whether a file of the jobs' directory is to be removed.
    pub fn removes(&self, name: &String) -> (r: bool)
        ensures
            r == (owning_job(name@) is Some && self.expired@.contains(owning_job(name@)->0)),
    {
        match job_file(name) {
            Some(id) => among(&self.expired, id),
            None => false,
        }
    }
}

/// The name that a job's file is given is read back as the number and the extension.
pub proof fn job_file_names_read_back(id: u64, extension: Seq<char>)
    ensures
        numbered(job_file_name(id, extension)) == Some((id, extension)),
        is_job_extension(extension) ==> owning_job(job_file_name(id, extension)) == Some(id),
{
    let name = job_file_name(id, extension);
    let digits = decimal(id as nat);
    reveal_strlit(".");
    lemma_decimal_nonempty(id as nat);
    assert forall|j: int| 0 <= j < digits.len() implies name[j] != '.' by {
        assert(name[j] == digits[j]);
    }
    assert(name[digits.len() as int] == '.');
    lemma_find_from_is(name, '.', 0, digits.len() as int);
    assert(name.take(digits.len() as int) =~= digits);
    assert(name.skip(digits.len() as int + 1) =~= extension);
    decimal_reads_back(id as nat, u64::MAX as nat);
}

/// A temporary file of any process is one of the job's files.
proof fn lemma_temporary_extension(pid: u32)
    ensures
        is_job_extension("tmp."@ + decimal(pid as nat)),
{
    let temporary = "tmp."@ + decimal(pid as nat);
    reveal_strlit("tmp.");
    decimal_reads_back(pid as nat, u32::MAX as nat);
    assert(temporary.skip(4) =~= decimal(pid as nat));
    assert(temporary.subrange(0, 4) =~= "tmp."@);
}

/// What follows the number in the name of a file that the process writes before it takes the place
/// of another one. Such a file is recognised as one of the job's.
pub fn temporary_extension(pid: u32) -> (r: String)
    ensures
        r@ == "tmp."@ + decimal(pid as nat),
        is_job_extension(r@),
{
    let mut r = "tmp.".to_owned();
    r.append(decimal_text(pid as u64).as_str());
    proof {
        lemma_temporary_extension(pid);
    }
    r
}

/// No two jobs share a file, and no two files of a job share a name.
pub proof fn job_files_do_not_clash(a: u64, one: Seq<char>, b: u64, other: Seq<char>)
    requires
        job_file_name(a, one) == job_file_name(b, other),
    ensures
        a == b && one == other,
{
    job_file_names_read_back(a, one);
    job_file_names_read_back(b, other);
}

/// What a job leaves behind is removed with it: description, log, lock, result, cancellation and
/// temporary files.
pub proof fn job_files_are_recognised(id: u64, pid: u32)
    ensures
        owning_job(job_file_name(id, "json"@)) == Some(id),
        owning_job(job_file_name(id, "log"@)) == Some(id),
        owning_job(job_file_name(id, "lock"@)) == Some(id),
        owning_job(job_file_name(id, "result"@)) == Some(id),
        owning_job(job_file_name(id, "cancel"@)) == Some(id),
        owning_job(job_file_name(id, "tmp."@ + decimal(pid as nat))) == Some(id),
        names_log(job_file_name(id, "log"@)),
{
    lemma_temporary_extension(pid);
    job_file_names_read_back(id, "json"@);
    job_file_names_read_back(id, "log"@);
    job_file_names_read_back(id, "lock"@);
    job_file_names_read_back(id, "result"@);
    job_file_names_read_back(id, "cancel"@);
    job_file_names_read_back(id, "tmp."@ + decimal(pid as nat));
}

/// Removing logs removes nothing else of a job: its description, lock, result and cancellation
/// stay.
pub proof fn removing_logs_keeps_the_rest(id: u64)
    ensures
        !names_log(job_file_name(id, "json"@)),
        !names_log(job_file_name(id, "lock"@)),
        !names_log(job_file_name(id, "result"@)),
        !names_log(job_file_name(id, "cancel"@)),
{
    reveal_strlit("log");
    reveal_strlit("json");
    reveal_strlit("lock");
    reveal_strlit("result");
    reveal_strlit("cancel");
    assert("log"@.len() == 3);
    assert("json"@.len() == 4);
    assert("lock"@.len() == 4);
    assert("result"@.len() == 6);
    assert("cancel"@.len() == 6);
    job_file_names_read_back(id, "json"@);
    job_file_names_read_back(id, "lock"@);
    job_file_names_read_back(id, "result"@);
    job_file_names_read_back(id, "cancel"@);
}

/// A path beneath another one follows it after one slash; an absolute path stands for itself, and
/// nothing goes before it.
pub proof fn paths_are_joined_by_one_slash(base: Seq<u8>, path: Seq<u8>)
    ensures
        path.len() > 0 && path[0] == 0x2f ==> beneath(base, path) == path,
        !(path.len() > 0 && path[0] == 0x2f) && base.len() > 0 && base.last() != 0x2f ==> beneath(
            base,
            path,
        ) == base + seq![0x2fu8] + path,
        !(path.len() > 0 && path[0] == 0x2f) && base.len() > 0 && base.last() == 0x2f ==> beneath(
            base,
            path,
        ) == base + path,
        beneath(Seq::empty(), path) == path,
        is_absolute(path) <==> path.len() > 0 && path[0] == 0x2f,
{
    if base.len() > 0 && base.last() != 0x2f {
        assert(base.push(47u8) + path =~= base + seq![0x2fu8] + path);
    }
    assert(Seq::<u8>::empty() + path =~= path);
}

/// A directory is shared where its group or all others may write to it; it is sticky by the bit for
/// that. A user's directory is a directory of that user.
pub proof fn permissions_are_read_bit_by_bit(meta: Meta, uid: u32)
    ensures
        meta.is_shared() <==> (meta.mode & 0o020 != 0 || meta.mode & 0o002 != 0),
        meta.is_sticky() <==> meta.mode & 0x200 != 0,
        meta.belongs_to(uid) <==> meta.is_dir && meta.uid == uid,
        HOME_MODE & 0o022 == 0,
        JOBS_MODE & 0o077 == 0,
{
    let mode = meta.mode;
    assert(mode & 0o022 != 0 <==> (mode & 0o020 != 0 || mode & 0o002 != 0)) by (bit_vector);
    assert(0o755u32 & 0o022 == 0 && 0o700u32 & 0o077 == 0) by (bit_vector);
}

/// A file belongs to a job only by a number before its first dot and an extension that jobs' files
/// have: nothing else is removed with a job.
pub proof fn other_files_belong_to_no_job(name: Seq<char>, dot: int)
    requires
        0 <= dot <= name.len(),
        dot < name.len() ==> name[dot] == '.',
        forall|i: int| 0 <= i < dot ==> name[i] != '.',
    ensures
        dot == name.len() ==> owning_job(name) is None && !names_log(name),
        dot < name.len() && unsigned(name.take(dot), u64::MAX as nat) is Err ==> owning_job(name)
            is None && !names_log(name),
        dot < name.len() ==> {
            let extension = name.skip(dot + 1);
            let known = extension == "json"@ || extension == "log"@ || extension == "lock"@
                || extension == "result"@ || extension == "cancel"@;
            let temporary = matches_at(extension, seq!['t', 'm', 'p', '.'], 0) && unsigned(
                extension.skip(4),
                u32::MAX as nat,
            ) is Ok;
            &&& !known && !temporary ==> owning_job(name) is None
            &&& extension != "log"@ ==> !names_log(name)
            &&& unsigned(name.take(dot), u64::MAX as nat) is Ok && (known || temporary)
                ==> owning_job(name) == Some(
                unsigned(name.take(dot), u64::MAX as nat)->Ok_0 as u64,
            )
        },
{
    crate::text::the_first_place_is_found(name, '.', 0, dot);
    reveal_strlit("tmp.");
    assert("tmp."@ =~= seq!['t', 'm', 'p', '.']);
}

/// A file of a job is named by the number in decimal, a dot and the extension.
pub proof fn job_files_are_named_by_number(id: u64, extension: Seq<char>)
    ensures
        job_file_name(id, extension) == decimal(id as nat) + seq!['.'] + extension,
        HOME_MODE == 0x1ed && JOBS_MODE == 0x1c0,
{
    reveal_strlit(".");
    assert("."@ =~= seq!['.']);
}

} // verus!
