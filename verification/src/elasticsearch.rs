//! Records fetched from the remote directory source, and the filtering that
//! the fetch stage applies to them: a role is usable only when it carries a
//! group id, and a user is retained only while holding at least one usable
//! role. The transport that obtains the raw records lives outside the
//! library and hands them over as plain values.

use vstd::prelude::*;
use crate::text::str_eq;

verus! {

/// Connection settings for the remote directory source.
pub struct ElasticsearchConfig {
    pub url: String,
    pub user: String,
    pub password: String,
    pub timeout: Option<u64>,
}

impl ElasticsearchConfig {
    /// The request timeout in seconds: ten when unspecified.
    pub fn timeout_secs(&self) -> (r: u64)
        ensures
            r == match self.timeout {
                Some(t) => t,
                None => 10u64,
            },
    {
        match self.timeout {
            Some(t) => t,
            None => 10,
        }
    }
}

/// A user record as fetched from the remote source.
pub struct User {
    pub email: String,
    pub full_name: String,
    pub password: String,
    pub username: String,
    pub roles: Vec<String>,
}

/// A role record as fetched from the remote source.
pub struct Role {
    pub metadata: RoleMeta,
}

/// The metadata of a role record: the optional numeric group id.
pub struct RoleMeta {
    pub glauth_gid: Option<u64>,
}

/// The usable roles of a run: a mapping from role name to its group id,
/// holding exactly the fetched roles that carry one.
pub struct RoleMap {
    entries: Vec<(String, u64)>,
}

/// No role name occurs twice among the entries.
pub open spec fn distinct_role_keys(s: Seq<(String, u64)>) -> bool {
    forall|i: int, j: int| 0 <= i < j < s.len() ==> s[i].0@ != s[j].0@
}

/// The mapping described by a sequence of role entries.
pub open spec fn gid_map_of(s: Seq<(String, u64)>) -> Map<Seq<char>, u64>
    decreases s.len(),
{
    if s.len() == 0 {
        Map::empty()
    } else {
        gid_map_of(s.drop_last()).insert(s.last().0@, s.last().1)
    }
}

impl View for RoleMap {
    type V = Map<Seq<char>, u64>;

    closed spec fn view(&self) -> Map<Seq<char>, u64> {
        gid_map_of(self.entries@)
    }
}

proof fn lemma_gid_map_of_contains(s: Seq<(String, u64)>)
    ensures
        forall|k: Seq<char>|
            #[trigger] gid_map_of(s).contains_key(k) <==> (exists|i: int|
                0 <= i < s.len() && s[i].0@ == k),
    decreases s.len(),
{
    if s.len() > 0 {
        let d = s.drop_last();
        lemma_gid_map_of_contains(d);
        assert forall|k: Seq<char>| #[trigger] gid_map_of(s).contains_key(k) implies (exists|i: int|
            0 <= i < s.len() && s[i].0@ == k) by {
            if k == s.last().0@ {
                assert(s[s.len() - 1].0@ == k);
            } else {
                assert(gid_map_of(d).contains_key(k));
                let i = choose|i: int| 0 <= i < d.len() && d[i].0@ == k;
                assert(d[i] == s[i]);
                assert(s[i].0@ == k);
            }
        }
        assert forall|k: Seq<char>|
            (exists|i: int| 0 <= i < s.len() && s[i].0@ == k) implies #[trigger] gid_map_of(
            s,
        ).contains_key(k) by {
            let i = choose|i: int| 0 <= i < s.len() && s[i].0@ == k;
            if i < s.len() - 1 {
                assert(d[i] == s[i]);
                assert(d[i].0@ == k);
                assert(gid_map_of(d).contains_key(k));
            } else {
                assert(k == s.last().0@);
            }
            assert(gid_map_of(s).contains_key(k));
        }
    }
}

proof fn lemma_gid_map_of_get(s: Seq<(String, u64)>)
    requires
        distinct_role_keys(s),
    ensures
        forall|i: int|
            0 <= i < s.len() ==> gid_map_of(s).contains_key(#[trigger] s[i].0@) && gid_map_of(s)[s[i].0@]
                == s[i].1,
    decreases s.len(),
{
    if s.len() > 0 {
        let d = s.drop_last();
        assert(distinct_role_keys(d)) by {
            assert forall|i: int, j: int| 0 <= i < j < d.len() implies d[i].0@ != d[j].0@ by {
                assert(d[i] == s[i] && d[j] == s[j]);
            }
        }
        lemma_gid_map_of_get(d);
        assert forall|i: int| 0 <= i < s.len() implies gid_map_of(s).contains_key(
            #[trigger] s[i].0@,
        ) && gid_map_of(s)[s[i].0@] == s[i].1 by {
            if i < s.len() - 1 {
                assert(d[i] == s[i]);
                assert(gid_map_of(d).contains_key(d[i].0@) && gid_map_of(d)[d[i].0@] == d[i].1);
                assert(s[i].0@ != s[s.len() - 1].0@);
            }
        }
    }
}

impl RoleMap {
    /// Every entry names a different role.
    pub closed spec fn wf(&self) -> bool {
        distinct_role_keys(self.entries@)
    }

    /// Whether a role name is usable.
    #[verifier::loop_isolation(false)]
    pub fn contains_key(&self, name: &str) -> (r: bool)
        ensures
            r == self@.contains_key(name@),
    {
        proof {
            lemma_gid_map_of_contains(self.entries@);
        }
        let mut i: usize = 0;
        while i < self.entries.len()
            invariant
                i <= self.entries@.len(),
                forall|j: int| 0 <= j < i ==> self.entries@[j].0@ != name@,
            decreases self.entries@.len() - i,
        {
            if str_eq(self.entries[i].0.as_str(), name) {
                proof {
                    assert(self.entries@[i as int].0@ == name@);
                }
                return true;
            }
            i += 1;
        }
        proof {
            if self@.contains_key(name@) {
                let j = choose|j: int|
                    0 <= j < self.entries@.len() && self.entries@[j].0@ == name@;
                assert(false);
            }
        }
        false
    }

    /// The group id of a usable role, or nothing for an unknown role name.
    #[verifier::loop_isolation(false)]
    pub fn get_gid(&self, name: &str) -> (r: Option<u64>)
        requires
            self.wf(),
        ensures
            match r {
                Some(g) => self@.contains_key(name@) && g == self@[name@],
                None => !self@.contains_key(name@),
            },
    {
        proof {
            lemma_gid_map_of_contains(self.entries@);
            lemma_gid_map_of_get(self.entries@);
        }
        let mut i: usize = 0;
        while i < self.entries.len()
            invariant
                i <= self.entries@.len(),
                forall|j: int| 0 <= j < i ==> self.entries@[j].0@ != name@,
            decreases self.entries@.len() - i,
        {
            if str_eq(self.entries[i].0.as_str(), name) {
                proof {
                    assert(self.entries@[i as int].0@ == name@);
                }
                return Some(self.entries[i].1);
            }
            i += 1;
        }
        proof {
            if self@.contains_key(name@) {
                let j = choose|j: int|
                    0 <= j < self.entries@.len() && self.entries@[j].0@ == name@;
                assert(false);
            }
        }
        None
    }
}

/// The usable part of a fetched role listing: role names that carry a group
/// id, each bound to that id; on a repeated name the earliest record wins.
pub open spec fn usable_roles_of(s: Seq<(String, Role)>) -> Map<Seq<char>, u64>
    decreases s.len(),
{
    if s.len() == 0 {
        Map::empty()
    } else {
        let m = usable_roles_of(s.drop_last());
        match s.last().1.metadata.glauth_gid {
            Some(g) => if m.contains_key(s.last().0@) {
                m
            } else {
                m.insert(s.last().0@, g)
            },
            None => m,
        }
    }
}

/// Drop every fetched role that lacks a group id.
#[verifier::loop_isolation(false)]
pub fn filter_usable_roles(raw: &Vec<(String, Role)>) -> (r: RoleMap)
    ensures
        r@ == usable_roles_of(raw@),
        r.wf(),
{
    let mut rm = RoleMap { entries: Vec::new() };
    let mut i: usize = 0;
    while i < raw.len()
        invariant
            i <= raw@.len(),
            rm@ == usable_roles_of(raw@.take(i as int)),
            rm.wf(),
        decreases raw@.len() - i,
    {
        let ghost before = rm.entries@;
        match raw[i].1.metadata.glauth_gid {
            Some(g) => {
                if !rm.contains_key(raw[i].0.as_str()) {
                    rm.entries.push((raw[i].0.clone(), g));
                    proof {
                        assert(rm.entries@.drop_last() == before);
                        lemma_gid_map_of_contains(before);
                        assert(distinct_role_keys(rm.entries@)) by {
                            assert forall|a: int, b: int|
                                0 <= a < b < rm.entries@.len() implies rm.entries@[a].0@
                                != rm.entries@[b].0@ by {
                                if b == rm.entries@.len() - 1 {
                                    assert(rm.entries@[a] == before[a]);
                                }
                            }
                        }
                    }
                }
            },
            None => {},
        }
        proof {
            assert(raw@.take(i + 1).drop_last() =~= raw@.take(i as int));
            assert(raw@.take(i + 1).last() == raw@[i as int]);
        }
        i += 1;
    }
    proof {
        assert(raw@.take(raw@.len() as int) =~= raw@);
    }
    rm
}

/// Whether a user holds at least one usable role.
pub open spec fn user_usable(u: User, m: Map<Seq<char>, u64>) -> bool {
    exists|i: int| 0 <= i < u.roles@.len() && m.contains_key(#[trigger] u.roles@[i]@)
}

/// The users retained by post-fetch filtering, in fetch order.
pub open spec fn kept_users(users: Seq<User>, m: Map<Seq<char>, u64>) -> Seq<User>
    decreases users.len(),
{
    if users.len() == 0 {
        Seq::empty()
    } else {
        let rest = kept_users(users.drop_last(), m);
        if user_usable(users.last(), m) {
            rest.push(users.last())
        } else {
            rest
        }
    }
}

/// Every retained user is usable and comes from the input.
pub proof fn lemma_kept_users(users: Seq<User>, m: Map<Seq<char>, u64>)
    ensures
        kept_users(users, m).len() <= users.len(),
        forall|i: int|
            0 <= i < kept_users(users, m).len() ==> user_usable(#[trigger] kept_users(users, m)[i], m)
                && (exists|j: int| 0 <= j < users.len() && kept_users(users, m)[i] == users[j]),
    decreases users.len(),
{
    if users.len() > 0 {
        let d = users.drop_last();
        lemma_kept_users(d, m);
        assert forall|i: int| 0 <= i < kept_users(users, m).len() implies user_usable(
            #[trigger] kept_users(users, m)[i],
            m,
        ) && (exists|j: int| 0 <= j < users.len() && kept_users(users, m)[i] == users[j]) by {
            if i < kept_users(d, m).len() {
                assert(kept_users(users, m)[i] == kept_users(d, m)[i]);
                let j = choose|j: int| 0 <= j < d.len() && kept_users(d, m)[i] == d[j];
                assert(users[j] == d[j]);
            } else {
                assert(kept_users(users, m)[i] == users.last());
                assert(users[users.len() - 1] == users.last());
            }
        }
    }
}

/// Whether this user holds at least one role that the map knows.
#[verifier::loop_isolation(false)]
pub fn has_usable_role(u: &User, roles: &RoleMap) -> (r: bool)
    ensures
        r == user_usable(*u, roles@),
{
    let mut i: usize = 0;
    while i < u.roles.len()
        invariant
            i <= u.roles@.len(),
            forall|j: int| 0 <= j < i ==> !roles@.contains_key(#[trigger] u.roles@[j]@),
        decreases u.roles@.len() - i,
    {
        if roles.contains_key(u.roles[i].as_str()) {
            proof {
                assert(roles@.contains_key(u.roles@[i as int]@));
            }
            return true;
        }
        i += 1;
    }
    false
}

/// Keep only the users that hold at least one usable role, in fetch order.
#[verifier::loop_isolation(false)]
pub fn filter_users(users: Vec<User>, roles: &RoleMap) -> (r: Vec<User>)
    ensures
        r@ == kept_users(users@, roles@),
{
    let ghost orig = users@;
    let mut remaining = users;
    let ghost mut done: Seq<User> = Seq::empty();
    let mut kept: Vec<User> = Vec::new();
    proof {
        assert(done + remaining@ =~= orig);
    }
    while remaining.len() > 0
        invariant
            done + remaining@ == orig,
            kept@ == kept_users(done, roles@),
        decreases remaining@.len(),
    {
        let ghost rem_before = remaining@;
        let u = remaining.remove(0);
        proof {
            assert(rem_before =~= seq![u] + remaining@);
            assert(done.push(u) + remaining@ =~= done + rem_before);
            assert(done.push(u).drop_last() =~= done);
        }
        let usable = has_usable_role(&u, roles);
        proof {
            assert(done.push(u).last() == u);
        }
        if usable {
            kept.push(u);
        }
        proof {
            done = done.push(u);
        }
    }
    proof {
        assert(remaining@.len() == 0);
        assert(done =~= orig);
    }
    kept
}

} // verus!
