use xlurm::auth::{account, authorize, groups, AccountStep, GroupStep, Lookup};
use xlurm::model::Owner;

fn alice() -> Owner {
    Owner {
        uid: 1234,
        gid: 4567,
        name: "alice".into(),
    }
}

#[test]
fn owners_and_root_can_manage_jobs_but_other_users_cannot() {
    let owner = alice();
    assert!(authorize(1234, &owner).is_ok());
    assert!(authorize(0, &owner).is_ok());
    assert!(authorize(1235, &owner).is_err());
}

#[test]
fn a_refusal_names_the_owner() {
    assert_eq!(
        authorize(1235, &alice()).unwrap_err().message(),
        "permission denied: job belongs to alice (UID 1234)"
    );
}

#[test]
fn account_buffers_double_up_to_a_limit() {
    let retry = account(7, 8, 16384, Lookup::TooSmall);
    assert!(matches!(retry, Ok(AccountStep::Retry(32768))));
    let last = account(7, 8, 1024 * 1024 - 1, Lookup::TooSmall);
    assert!(matches!(last, Ok(AccountStep::Retry(2097150))));
    let error = account(7, 8, 1024 * 1024, Lookup::TooSmall).err().unwrap();
    assert_eq!(error.message(), "no local account for UID 7");
}

#[test]
fn accounts_have_textual_names() {
    let Ok(AccountStep::Known(owner)) = account(7, 8, 16384, Lookup::Found(Ok("bob".into())))
    else {
        panic!("account was not found");
    };
    assert_eq!((owner.uid, owner.gid, owner.name.as_str()), (7, 8, "bob"));
    let cause = String::from_utf8(vec![b'b', 0xff]).unwrap_err().utf8_error().to_string();
    let error = account(7, 8, 16384, Lookup::Found(Err(cause))).err().unwrap();
    assert_eq!(
        error.message(),
        "non-UTF8 account name: invalid utf-8 sequence of 1 bytes from index 1"
    );
    let error = account(7, 8, 16384, Lookup::Missing).err().unwrap();
    assert_eq!(error.message(), "no local account for UID 7");
}

#[test]
fn group_lists_grow_until_they_fit() {
    assert!(matches!(
        groups(3, 16, 3, vec![1, 2, 3, 0, 0]),
        Ok(GroupStep::Known(list)) if list == vec![1, 2, 3]
    ));
    assert!(matches!(
        groups(-1, 16, 40, vec![0; 16]),
        Ok(GroupStep::Retry(40))
    ));
    let stuck = groups(-1, 16, 16, vec![0; 16]).err().unwrap();
    assert_eq!(stuck.message(), "cannot resolve supplementary groups");
    let absurd = groups(-1, 16, 65537, vec![0; 16]).err().unwrap();
    assert_eq!(absurd.message(), "invalid supplementary group count");
    assert!(matches!(
        groups(-1, 16, 65536, vec![0; 16]),
        Ok(GroupStep::Retry(65536))
    ));
}
