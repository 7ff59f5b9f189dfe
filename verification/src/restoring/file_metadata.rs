//! The metadata that a restored file gets (owner, permissions, modification time), as the
//! header of its archive entry gives it.

use vstd::prelude::*;

use crate::text::{debug_quoted, debug_str};
use crate::users::{UsersCache, answer_step, lookup_error};

verus! {

/// The owner of a file.
#[derive(Clone, Copy, Debug, PartialEq, Eq, Structural)]
pub struct Owner {
    pub uid: u32,
    pub gid: u32,
}

/// What is set on a restored file: its owner (when owners are restored), its permissions
/// (not for a symbolic link) and its modification time.
#[derive(Clone, Copy, Debug, PartialEq, Eq, Structural)]
pub struct FileMetadata {
    pub owner: Option<Owner>,
    pub mode: Option<u32>,
    pub mtime: i64,
}

/// The fields of an archive entry's header, each as read, or the error of reading it.
pub struct EntryHeader {
    /// The entry's path, `None` if it can not be read.
    pub path: Option<String>,
    pub uid: Result<u64, String>,
    pub username: Result<Option<String>, String>,
    pub gid: Result<u64, String>,
    pub groupname: Result<Option<String>, String>,
    pub symlink: bool,
    pub mode: Result<u32, String>,
    pub mtime: Result<u64, String>,
}

/// The message of a number that does not fit the type it is converted to.
pub open spec fn conversion_error() -> Seq<char> {
    "out of range integral type conversion attempted"@
}

/// The message of an invalid header field.
pub open spec fn invalid_field(path: Option<String>, field: Seq<char>, cause: Seq<char>) -> Seq<char> {
    "Got an invalid "@ + field + (match path {
        Some(p) => " for "@ + debug_quoted(p@),
        None => Seq::empty(),
    }) + " from archive: "@ + cause
}

/// A user or group ID of a header, which must fit 32 bits.
pub open spec fn id_field(value: Result<u64, String>, path: Option<String>, field: Seq<char>) -> Result<u32, Seq<char>> {
    match value {
        Err(e) => Err(e@),
        Ok(v) => if v <= u32::MAX { Ok(v as u32) } else { Err(invalid_field(path, field, conversion_error())) },
    }
}

/// A user or group name of a header.
pub open spec fn name_field(value: Result<Option<String>, String>, path: Option<String>, field: Seq<char>) -> Result<Option<Seq<char>>, Seq<char>> {
    match value {
        Err(e) => Err(invalid_field(path, field, e@)),
        Ok(None) => Ok(None),
        Ok(Some(n)) => Ok(Some(n@)),
    }
}

/// The owner fields of a header, read in order: user ID, user name, group ID, group name.
pub open spec fn owner_fields(h: EntryHeader) -> Result<(u32, Option<Seq<char>>, u32, Option<Seq<char>>), Seq<char>> {
    match id_field(h.uid, h.path, "user ID"@) {
        Err(e) => Err(e),
        Ok(uid) => match name_field(h.username, h.path, "user name"@) {
            Err(e) => Err(e),
            Ok(user) => match id_field(h.gid, h.path, "group ID"@) {
                Err(e) => Err(e),
                Ok(gid) => match name_field(h.groupname, h.path, "group name"@) {
                    Err(e) => Err(e),
                    Ok(group) => Ok((uid, user, gid, group)),
                },
            },
        },
    }
}

/// The permissions (none for a symbolic link) and modification time of a header.
pub open spec fn mode_and_mtime(h: EntryHeader) -> Result<(Option<u32>, i64), Seq<char>> {
    let mode: Result<Option<u32>, Seq<char>> = if h.symlink {
        Ok(None)
    } else {
        match h.mode {
            Err(e) => Err(e@),
            Ok(m) => Ok(Some(m)),
        }
    };
    match mode {
        Err(e) => Err(e),
        Ok(mode) => match h.mtime {
            Err(e) => Err(e@),
            Ok(t) => if t <= i64::MAX {
                Ok((mode, t as i64))
            } else {
                Err(invalid_field(h.path, "file modification time"@, conversion_error()))
            },
        },
    }
}

/// The ID that a file gets: that of its name on this system, where the name is known
/// there, else the one the archive holds.
pub open spec fn local_id(id: u32, name: Option<Seq<char>>, known: Map<Seq<char>, Option<u32>>) -> u32 {
    match name {
        Some(n) => match known[n] {
            Some(local) => local,
            None => id,
        },
        None => id,
    }
}

fn invalid_field_message(path: &Option<String>, field: &str, cause: &str) -> (r: String)
    ensures
        r@ == invalid_field(*path, field@, cause@),
{
    let mut m = String::from_str("Got an invalid ");
    m.append(field);
    match path {
        Some(p) => {
            m.append(" for ");
            m.append(debug_str(p.as_str()).as_str());
        },
        None => {},
    }
    m.append(" from archive: ");
    m.append(cause);
    proof {
        assert(m@ =~= invalid_field(*path, field@, cause@));
    }
    m
}

fn read_id(value: &Result<u64, String>, path: &Option<String>, field: &str) -> (r: Result<u32, String>)
    ensures
        match id_field(*value, *path, field@) {
            Ok(id) => r == Ok::<u32, String>(id),
            Err(e) => r matches Err(x) && x@ == e,
        },
{
    match value {
        Err(e) => Err(String::from_str(e.as_str())),
        Ok(v) => if *v <= 0xffff_ffffu64 {
            Ok(*v as u32)
        } else {
            Err(invalid_field_message(path, field, "out of range integral type conversion attempted"))
        },
    }
}

fn read_name(value: &Result<Option<String>, String>, path: &Option<String>, field: &str) -> (r: Result<Option<String>, String>)
    ensures
        match name_field(*value, *path, field@) {
            Ok(None) => r matches Ok(None),
            Ok(Some(n)) => r matches Ok(Some(x)) && x@ == n,
            Err(e) => r matches Err(x) && x@ == e,
        },
{
    match value {
        Err(e) => Err(invalid_field_message(path, field, e.as_str())),
        Ok(None) => Ok(None),
        Ok(Some(n)) => Ok(Some(String::from_str(n.as_str()))),
    }
}

fn read_mode_and_mtime(h: &EntryHeader) -> (r: Result<(Option<u32>, i64), String>)
    ensures
        match mode_and_mtime(*h) {
            Ok(v) => r == Ok::<(Option<u32>, i64), String>(v),
            Err(e) => r matches Err(x) && x@ == e,
        },
{
    let mode = if h.symlink {
        None
    } else {
        match &h.mode {
            Err(e) => return Err(String::from_str(e.as_str())),
            Ok(m) => Some(*m),
        }
    };
    match &h.mtime {
        Err(e) => Err(String::from_str(e.as_str())),
        Ok(t) => if *t <= 0x7fff_ffff_ffff_ffffu64 {
            Ok((mode, *t as i64))
        } else {
            Err(invalid_field_message(&h.path, "file modification time", "out of range integral type conversion attempted"))
        },
    }
}

/// The owner of a file, with its user and group names mapped to this system's IDs.
fn read_owner(h: &EntryHeader, users: &mut UsersCache) -> (r: Result<Owner, String>)
    ensures
        forall|k: Seq<char>| #[trigger] old(users)@.users.contains_key(k) ==>
            final(users)@.users.contains_key(k) && final(users)@.users[k] == old(users)@.users[k],
        forall|k: Seq<char>| #[trigger] old(users)@.groups.contains_key(k) ==>
            final(users)@.groups.contains_key(k) && final(users)@.groups[k] == old(users)@.groups[k],
        id_field(h.uid, h.path, "user ID"@) is Err ==> final(users)@ == old(users)@,
        match r {
            Ok(o) => owner_fields(*h) matches Ok((uid, user, gid, group))
                && (user matches Some(n) ==> final(users)@.users.contains_key(n))
                && (group matches Some(n) ==> final(users)@.groups.contains_key(n))
                && o.uid == local_id(uid, user, final(users)@.users)
                && o.gid == local_id(gid, group, final(users)@.groups),
            Err(e) => owner_fields(*h) == Err::<(u32, Option<Seq<char>>, u32, Option<Seq<char>>), Seq<char>>(e@)
                || exists|kind: Seq<char>, n: Seq<char>, c: Seq<char>| e@ == lookup_error(kind, n, c),
        },
{
    let mut uid = match read_id(&h.uid, &h.path, "user ID") {
        Ok(id) => id,
        Err(e) => return Err(e),
    };
    let user = match read_name(&h.username, &h.path, "user name") {
        Ok(n) => n,
        Err(e) => return Err(e),
    };
    match &user {
        Some(name) => {
            match users.get_uid(name.as_str()) {
                Ok(Some(id)) => {
                    uid = id;
                },
                Ok(None) => {},
                Err(e) => return Err(e),
            }
        },
        None => {},
    }
    let mut gid = match read_id(&h.gid, &h.path, "group ID") {
        Ok(id) => id,
        Err(e) => return Err(e),
    };
    let group = match read_name(&h.groupname, &h.path, "group name") {
        Ok(n) => n,
        Err(e) => return Err(e),
    };
    match &group {
        Some(name) => {
            match users.get_gid(name.as_str()) {
                Ok(Some(id)) => {
                    gid = id;
                },
                Ok(None) => {},
                Err(e) => return Err(e),
            }
        },
        None => {},
    }
    Ok(Owner { uid, gid })
}

/// The metadata of a restored file, from its archive entry's header; its owner only when
/// `users` maps names to this system's IDs (when owners are restored).
pub fn get_file_metadata(h: &EntryHeader, users: &mut Option<UsersCache>) -> (r: Result<FileMetadata, String>)
    ensures
        (*final(users)) is Some <==> (*old(users)) is Some,
        (*old(users)) is None ==> match mode_and_mtime(*h) {
            Ok((mode, mtime)) => r == Ok::<FileMetadata, String>(FileMetadata { owner: None, mode, mtime }),
            Err(e) => r matches Err(x) && x@ == e,
        },
        (*old(users)) matches Some(c) ==> {
            let f = (*final(users)).unwrap()@;
            &&& (forall|k: Seq<char>| #[trigger] c@.users.contains_key(k) ==> f.users.contains_key(k) && f.users[k] == c@.users[k])
            &&& (forall|k: Seq<char>| #[trigger] c@.groups.contains_key(k) ==> f.groups.contains_key(k) && f.groups[k] == c@.groups[k])
            &&& match r {
                Ok(m) => owner_fields(*h) matches Ok((uid, user, gid, group))
                    && (user matches Some(n) ==> f.users.contains_key(n))
                    && (group matches Some(n) ==> f.groups.contains_key(n))
                    && m.owner == Some(Owner {
                        uid: local_id(uid, user, f.users),
                        gid: local_id(gid, group, f.groups),
                    })
                    && mode_and_mtime(*h) == Ok::<(Option<u32>, i64), Seq<char>>((m.mode, m.mtime)),
                Err(e) => owner_fields(*h) == Err::<(u32, Option<Seq<char>>, u32, Option<Seq<char>>), Seq<char>>(e@)
                    || (owner_fields(*h) is Ok && mode_and_mtime(*h) == Err::<(Option<u32>, i64), Seq<char>>(e@))
                    || exists|kind: Seq<char>, n: Seq<char>, cause: Seq<char>| e@ == lookup_error(kind, n, cause),
            }
        },
{
    let owner: Result<Option<Owner>, String> = match users.take() {
        Some(mut cache) => {
            let o = read_owner(h, &mut cache);
            *users = Some(cache);
            match o {
                Ok(o) => Ok(Some(o)),
                Err(e) => Err(e),
            }
        },
        None => Ok(None),
    };
    let owner = match owner {
        Ok(o) => o,
        Err(e) => return Err(e),
    };
    let (mode, mtime) = match read_mode_and_mtime(h) {
        Ok(v) => v,
        Err(e) => return Err(e),
    };
    Ok(FileMetadata { owner, mode, mtime })
}

} // verus!
