//! Local identities come from the kernel, never from submitted JSON.
use vstd::prelude::*;
use vstd::string::*;

use crate::error::{Error, ErrorModel};
use crate::model::{Owner, OwnerModel};

verus! {

/// Root and the owner may manage a job.
pub open spec fn may_manage(uid: u32, owner: OwnerModel) -> bool {
    uid == 0 || uid == owner.uid
}

/// Checks that the user may manage a job of the owner.
pub fn authorize(uid: u32, owner: &Owner) -> (r: Result<(), Error>)
    ensures
        match r {
            Ok(_) => may_manage(uid, owner@),
            Err(error) => !may_manage(uid, owner@) && error@ == (ErrorModel::PermissionDenied {
                name: owner@.name,
                uid: owner@.uid,
            }),
        },
{
    if uid == 0 || uid == owner.uid {
        Ok(())
    } else {
        Err(Error::PermissionDenied { name: owner.name.clone(), uid: owner.uid })
    }
}

/// The size of the first buffer for an account, in bytes.
pub const ACCOUNT_BUFFER: usize = 16384;

/// From this size on the buffer for an account is not enlarged.
pub const LARGEST_ACCOUNT_BUFFER: usize = 1024 * 1024;

/// What looking up an account gave.
pub enum Lookup {
    /// The buffer was too small.
    TooSmall,
    /// There is no such account, or it could not be read.
    Missing,
    /// The name of the account, or what is wrong with it as text.
    Found(Result<String, String>),
}

/// What follows from looking up an account.
pub enum AccountStep {
    /// Look again with a buffer of this size.
    Retry(usize),
    Known(Owner),
}

/// Decides what follows from looking up an account with a buffer of the given size.
pub fn account(uid: u32, gid: u32, buffer: usize, lookup: Lookup) -> (r: Result<AccountStep, Error>)
    ensures
        match lookup {
            Lookup::TooSmall if buffer < LARGEST_ACCOUNT_BUFFER => r == Ok::<AccountStep, Error>(
                AccountStep::Retry((2 * buffer) as usize),
            ),
            Lookup::Found(Ok(name)) => r == Ok::<AccountStep, Error>(
                AccountStep::Known(Owner { uid, gid, name }),
            ),
            Lookup::Found(Err(cause)) => r is Err && r->Err_0@ == ErrorModel::Other(
                "non-UTF8 account name: "@ + cause@,
            ),
            _ => r is Err && r->Err_0@ == (ErrorModel::NoAccount { uid }),
        },
{
    match lookup {
        Lookup::TooSmall => if buffer < LARGEST_ACCOUNT_BUFFER {
            Ok(AccountStep::Retry(2 * buffer))
        } else {
            Err(Error::NoAccount { uid })
        },
        Lookup::Missing => Err(Error::NoAccount { uid }),
        Lookup::Found(Ok(name)) => Ok(AccountStep::Known(Owner { uid, gid, name })),
        Lookup::Found(Err(cause)) => {
            let mut text = "non-UTF8 account name: ".to_owned();
            text.append(cause.as_str());
            Err(Error::Other(text))
        },
    }
}

/// How many groups the first list has room for.
pub const GROUP_BUFFER: i32 = 16;

/// The most groups that a list may have room for.
pub const LARGEST_GROUP_BUFFER: i32 = 65536;

/// What follows from asking for the groups of an account.
pub enum GroupStep {
    /// Ask again with room for this many groups.
    Retry(i32),
    Known(Vec<u32>),
}

/// Decides what follows from asking for the groups of an account with room for `room` groups. The
/// call gave `status`, filled the list, and left the number of groups in `count`.
pub fn groups(status: i32, room: i32, count: i32, list: Vec<u32>) -> (r: Result<GroupStep, Error>)
    ensures
        if status >= 0 {
            match r {
                Ok(GroupStep::Known(known)) => known@ == if 0 <= count < list@.len() {
                    list@.take(count as int)
                } else {
                    list@
                },
                _ => false,
            }
        } else if count <= room {
            r is Err && r->Err_0@ == ErrorModel::UnresolvedGroups
        } else if !(0 < count <= LARGEST_GROUP_BUFFER) {
            r is Err && r->Err_0@ == ErrorModel::InvalidGroupCount
        } else {
            r == Ok::<GroupStep, Error>(GroupStep::Retry(count))
        },
{
    if status >= 0 {
        let mut list = list;
        if count >= 0 {
            list.truncate(count as usize);
        }
        return Ok(GroupStep::Known(list));
    }
    if count <= room {
        return Err(Error::UnresolvedGroups);
    }
    if count <= 0 || count > LARGEST_GROUP_BUFFER {
        return Err(Error::InvalidGroupCount);
    }
    Ok(GroupStep::Retry(count))
}

/// Root may manage every job and each user their own; nobody else may.
pub proof fn only_root_and_the_owner_manage_a_job(uid: u32, owner: OwnerModel)
    ensures
        may_manage(0, owner),
        may_manage(owner.uid, owner),
        uid > 0 && uid != owner.uid ==> !may_manage(uid, owner),
{
}

} // verus!
