use xlurm::error::Error;
use xlurm::storage::{is_job_log, job_file, join_path, temporary_extension, Meta, Paths};

#[test]
fn the_state_directory_comes_from_the_environment() {
    let here = || Ok(b"/home/me".to_vec());
    let at = |home: Option<&[u8]>| Paths::discover(home.map(|home| home.to_vec()), here()).unwrap().0;
    assert_eq!(at(None), b"/var/lib/xlurm");
    assert_eq!(at(Some(b"/srv/\xffstate")), b"/srv/\xffstate");
    assert_eq!(at(Some(b"state")), b"/home/me/state");
    assert_eq!(at(Some(b"")), b"/home/me/");
}

#[test]
fn the_current_directory_matters_only_for_relative_paths() {
    let lost = || Err(Error::Other("no current directory".into()));
    assert!(Paths::discover(None, lost()).is_ok());
    assert_eq!(
        Paths::discover(Some(b"state".to_vec()), lost())
            .unwrap_err()
            .message(),
        "no current directory"
    );
}

#[test]
fn files_have_fixed_names() {
    let paths = Paths(b"/var/lib/xlurm".to_vec());
    assert_eq!(paths.socket(), b"/var/lib/xlurm/xlurm.sock");
    assert_eq!(paths.job(42, "log"), b"/var/lib/xlurm/jobs/42.log");
    assert_eq!(paths.file("state.json"), b"/var/lib/xlurm/state.json");
    assert_eq!(Paths(b"/".to_vec()).socket(), b"/xlurm.sock");
    assert_eq!(
        paths.clone().job(u64::MAX, "tmp.7"),
        b"/var/lib/xlurm/jobs/18446744073709551615.tmp.7"
    );
}

#[test]
fn absolute_paths_stand_for_themselves() {
    let join = |base: &[u8], path: &[u8]| join_path(&base.to_vec(), &path.to_vec());
    assert_eq!(join(b"/a", b"/b"), b"/b");
    assert_eq!(join(b"", b"b"), b"b");
    assert_eq!(join(b"a", b"b"), b"a/b");
}

#[test]
fn job_files_are_recognised_by_name() {
    let owner = |name: &str| job_file(&name.to_string());
    for extension in ["json", "log", "lock", "result", "cancel", "tmp.1", "tmp.+4294967295"] {
        assert_eq!(owner(&format!("7.{extension}")), Some(7));
    }
    assert_eq!(owner("+7.log"), Some(7));
    for pid in [0, 1, 4207, u32::MAX] {
        assert_eq!(temporary_extension(pid), format!("tmp.{pid}"));
        assert_eq!(owner(&format!("7.{}", temporary_extension(pid))), Some(7));
    }
    for name in [
        "7", "7.", "7.logs", "7.log.1", "x.log", ".log", "-7.log", "7.tmp", "7.tmp.", "7.tmp.x",
        "7.tmp.4294967296", "18446744073709551616.log",
    ] {
        assert_eq!(owner(name), None);
    }
}

#[test]
fn only_logs_are_logs() {
    let log = |name: &str| is_job_log(&name.to_string());
    assert!(log("1.log") && log("0001.log"));
    assert!(!log("1.result") && !log("daemon.log") && !log("1.log.old") && !log("log"));
}

fn meta(is_dir: bool, uid: u32, mode: u32) -> Meta {
    Meta { is_dir, uid, mode }
}

#[test]
fn root_keeps_state_only_below_trusted_directories() {
    assert!(meta(true, 0, 0o40755).check_ancestor("/var".into()).is_ok());
    assert!(meta(true, 0, 0o41777).check_ancestor("/tmp".into()).is_ok());
    for bad in [
        meta(true, 0, 0o40777),
        meta(true, 0, 0o40775),
        meta(true, 1, 0o40755),
        meta(false, 0, 0o120777),
    ] {
        assert_eq!(
            bad.check_ancestor("/x".into()).unwrap_err().message(),
            "root daemon state must be under trusted root-owned directories: /x"
        );
    }
}

#[test]
fn the_state_directory_belongs_to_the_daemon() {
    assert!(meta(true, 5, 0o40755).check_home(5).is_ok());
    let foreign = "XLURM_HOME must be a directory owned by the daemon account";
    assert_eq!(meta(true, 6, 0o40777).check_home(5).unwrap_err().message(), foreign);
    assert_eq!(meta(false, 5, 0o755).check_home(5).unwrap_err().message(), foreign);
    for mode in [0o40775, 0o40757] {
        assert_eq!(
            meta(true, 5, mode).check_home(5).unwrap_err().message(),
            "XLURM_HOME must not be writable by other users"
        );
    }
    assert!(meta(true, 5, 0o40777).check_jobs(5).is_ok());
    assert_eq!(
        meta(true, 5, 0o40700).check_jobs(6).unwrap_err().message(),
        "invalid jobs directory owner"
    );
}
