//! The user and group IDs that names have on this system, each name looked up once.

use vstd::prelude::*;
use vstd::hash_map::StringHashMap;

use crate::text::{debug_quoted, debug_str};

verus! {

/// The ID of the user with the given name on this system (`nix::unistd::User::from_name`):
/// `None` if there is no such user, or the text of the lookup's error. What it returns
/// depends on the system's user database, so nothing is stated of it.
#[verifier::external_body]
fn lookup_user_id(name: &str) -> (r: Result<Option<u32>, String>)
{
    match nix::unistd::User::from_name(name) {
        Ok(Some(user)) => Ok(Some(user.uid.as_raw())),
        Ok(None) => Ok(None),
        Err(e) => Err(e.to_string()),
    }
}

/// The ID of the group with the given name on this system (`nix::unistd::Group::from_name`):
/// `None` if there is no such group, or the text of the lookup's error. What it returns
/// depends on the system's group database, so nothing is stated of it.
#[verifier::external_body]
fn lookup_group_id(name: &str) -> (r: Result<Option<u32>, String>)
{
    match nix::unistd::Group::from_name(name) {
        Ok(Some(group)) => Ok(Some(group.gid.as_raw())),
        Ok(None) => Ok(None),
        Err(e) => Err(e.to_string()),
    }
}

/// The answers known so far: the ID of each name that was looked up (`None` for a name
/// that the system does not know).
pub struct UsersCache {
    users: StringHashMap<Option<u32>>,
    groups: StringHashMap<Option<u32>>,
}

/// The answers of a cache, as maps.
pub struct UsersCacheView {
    pub users: Map<Seq<char>, Option<u32>>,
    pub groups: Map<Seq<char>, Option<u32>>,
}

impl View for UsersCache {
    type V = UsersCacheView;

    closed spec fn view(&self) -> UsersCacheView {
        UsersCacheView { users: self.users@, groups: self.groups@ }
    }
}

/// The error of a failed lookup of a `kind` ("user" or "group") name.
pub open spec fn lookup_error(kind: Seq<char>, name: Seq<char>, cause: Seq<char>) -> Seq<char> {
    "Unable to lookup "@ + debug_quoted(name) + " "@ + kind + ": "@ + cause
}

/// One answer for `name`, from the answers `before` to the answers `after`: a known name is
/// answered from them with nothing changed; an unknown one is looked up, and a successful
/// lookup is remembered, a failed one changes nothing.
pub open spec fn answer_step(
    before: Map<Seq<char>, Option<u32>>,
    kind: Seq<char>,
    name: Seq<char>,
    r: Result<Option<u32>, String>,
    after: Map<Seq<char>, Option<u32>>,
) -> bool {
    if before.contains_key(name) {
        r == Ok::<Option<u32>, String>(before[name]) && after == before
    } else {
        match r {
            Ok(id) => after == before.insert(name, id),
            Err(e) => after == before && exists|cause: Seq<char>| e@ == lookup_error(kind, name, cause),
        }
    }
}

/// Once a name has been answered, every later question about it gets the same answer, and
/// the answers stay as they were.
pub proof fn lemma_answers_are_kept(
    s0: Map<Seq<char>, Option<u32>>,
    kind: Seq<char>,
    name: Seq<char>,
    r1: Result<Option<u32>, String>,
    s1: Map<Seq<char>, Option<u32>>,
    r2: Result<Option<u32>, String>,
    s2: Map<Seq<char>, Option<u32>>,
)
    requires
        answer_step(s0, kind, name, r1, s1),
        r1 is Ok,
        answer_step(s1, kind, name, r2, s2),
    ensures
        r2 == r1,
        s2 == s1,
{
    assert(s1.contains_key(name));
}

impl UsersCache {
    /// A cache with no answers.
    pub fn new() -> (r: UsersCache)
        ensures
            r@.users == Map::<Seq<char>, Option<u32>>::empty(),
            r@.groups == Map::<Seq<char>, Option<u32>>::empty(),
    {
        UsersCache { users: StringHashMap::new(), groups: StringHashMap::new() }
    }

    /// The ID of the user with the given name (`None` if the system has no such user).
    pub fn get_uid(&mut self, name: &str) -> (r: Result<Option<u32>, String>)
        ensures
            answer_step(old(self)@.users, "user"@, name@, r, final(self)@.users),
            final(self)@.groups == old(self)@.groups,
    {
        match self.users.get(name) {
            Some(id) => {
                return Ok(*id);
            },
            None => {},
        }
        match lookup_user_id(name) {
            Ok(id) => {
                self.users.insert(String::from_str(name), id);
                Ok(id)
            },
            Err(cause) => {
                let mut m = String::from_str("Unable to lookup ");
                m.append(debug_str(name).as_str());
                m.append(" user: ");
                m.append(cause.as_str());
                proof {
                    reveal_strlit(" user: ");
                    reveal_strlit(" ");
                    reveal_strlit("user");
                    reveal_strlit(": ");
                    assert(m@ =~= lookup_error("user"@, name@, cause@));
                }
                Err(m)
            },
        }
    }

    /// The ID of the group with the given name (`None` if the system has no such group).
    pub fn get_gid(&mut self, name: &str) -> (r: Result<Option<u32>, String>)
        ensures
            answer_step(old(self)@.groups, "group"@, name@, r, final(self)@.groups),
            final(self)@.users == old(self)@.users,
    {
        match self.groups.get(name) {
            Some(id) => {
                return Ok(*id);
            },
            None => {},
        }
        match lookup_group_id(name) {
            Ok(id) => {
                self.groups.insert(String::from_str(name), id);
                Ok(id)
            },
            Err(cause) => {
                let mut m = String::from_str("Unable to lookup ");
                m.append(debug_str(name).as_str());
                m.append(" group: ");
                m.append(cause.as_str());
                proof {
                    reveal_strlit(" group: ");
                    reveal_strlit(" ");
                    reveal_strlit("group");
                    reveal_strlit(": ");
                    assert(m@ =~= lookup_error("group"@, name@, cause@));
                }
                Err(m)
            },
        }
    }
}

} // verus!
