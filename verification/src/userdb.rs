//! The identity store: a persistent mapping from username to an assigned uid.
//!
//! The store is the sole source of uid stability: an entry, once written, is
//! never mutated by any function of this module. Reading and writing the
//! backing file is the caller's concern; the store itself is plain data with
//! a mathematical view as a `Map` from username characters to uid.

use vstd::prelude::*;
use crate::text::str_eq;

verus! {

/// One stored identity record: the uid assigned to a username.
pub struct User {
    uid: u64,
}

impl User {
    /// The assigned uid, as contracts speak of it.
    pub closed spec fn spec_uid(&self) -> u64 {
        self.uid
    }

    pub fn get_uid(&self) -> (r: u64)
        ensures
            r == self.spec_uid(),
    {
        self.uid
    }
}

/// The username-to-uid mapping held by the identity store.
pub struct UserDB {
    users: Vec<(String, User)>,
}

/// No username occurs twice among the entries.
pub open spec fn distinct_keys(s: Seq<(String, User)>) -> bool {
    forall|i: int, j: int| 0 <= i < j < s.len() ==> s[i].0@ != s[j].0@
}

/// The mapping described by a sequence of entries; a later entry for the
/// same username would win, but well-formed stores have distinct usernames.
pub open spec fn map_of(s: Seq<(String, User)>) -> Map<Seq<char>, u64>
    decreases s.len(),
{
    if s.len() == 0 {
        Map::empty()
    } else {
        map_of(s.drop_last()).insert(s.last().0@, s.last().1.spec_uid())
    }
}

impl View for UserDB {
    type V = Map<Seq<char>, u64>;

    closed spec fn view(&self) -> Map<Seq<char>, u64> {
        map_of(self.users@)
    }
}

proof fn lemma_map_of_contains(s: Seq<(String, User)>)
    ensures
        forall|k: Seq<char>|
            #[trigger] map_of(s).contains_key(k) <==> (exists|i: int|
                0 <= i < s.len() && s[i].0@ == k),
    decreases s.len(),
{
    if s.len() > 0 {
        let d = s.drop_last();
        lemma_map_of_contains(d);
        assert(map_of(s) == map_of(d).insert(s.last().0@, s.last().1.spec_uid()));
        assert forall|k: Seq<char>| #[trigger] map_of(s).contains_key(k) implies (exists|i: int|
            0 <= i < s.len() && s[i].0@ == k) by {
            if k == s.last().0@ {
                assert(s[s.len() - 1].0@ == k);
            } else {
                assert(map_of(d).contains_key(k));
                let i = choose|i: int| 0 <= i < d.len() && d[i].0@ == k;
                assert(d[i] == s[i]);
                assert(s[i].0@ == k);
            }
        }
        assert forall|k: Seq<char>|
            (exists|i: int| 0 <= i < s.len() && s[i].0@ == k) implies #[trigger] map_of(
            s,
        ).contains_key(k) by {
            let i = choose|i: int| 0 <= i < s.len() && s[i].0@ == k;
            if i < s.len() - 1 {
                assert(d[i] == s[i]);
                assert(d[i].0@ == k);
                assert(map_of(d).contains_key(k));
            } else {
                assert(k == s.last().0@);
            }
            assert(map_of(s).contains_key(k));
        }
    }
}

proof fn lemma_map_of_get(s: Seq<(String, User)>)
    requires
        distinct_keys(s),
    ensures
        forall|i: int|
            0 <= i < s.len() ==> map_of(s).contains_key(#[trigger] s[i].0@) && map_of(s)[s[i].0@]
                == s[i].1.spec_uid(),
    decreases s.len(),
{
    if s.len() > 0 {
        let d = s.drop_last();
        assert(distinct_keys(d)) by {
            assert forall|i: int, j: int| 0 <= i < j < d.len() implies d[i].0@ != d[j].0@ by {
                assert(d[i] == s[i] && d[j] == s[j]);
            }
        }
        lemma_map_of_get(d);
        assert forall|i: int| 0 <= i < s.len() implies map_of(s).contains_key(#[trigger] s[i].0@)
            && map_of(s)[s[i].0@] == s[i].1.spec_uid() by {
            if i < s.len() - 1 {
                assert(d[i] == s[i]);
                assert(map_of(d).contains_key(d[i].0@) && map_of(d)[d[i].0@] == d[i].1.spec_uid());
                assert(s[i].0@ != s[s.len() - 1].0@);
            }
        }
    }
}

impl UserDB {
    /// Every entry names a different username.
    pub closed spec fn wf(&self) -> bool {
        distinct_keys(self.users@)
    }

    /// An empty store, as used when no backing file exists yet.
    pub fn new() -> (r: UserDB)
        ensures
            r@ == Map::<Seq<char>, u64>::empty(),
            r.wf(),
    {
        UserDB { users: Vec::new() }
    }

    /// The entries of the store as plain pairs, for persisting.
    #[verifier::loop_isolation(false)]
    pub fn entries(&self) -> (r: Vec<(String, u64)>)
        requires
            self.wf(),
        ensures
            r@.len() == self@.dom().len(),
            forall|i: int|
                0 <= i < r@.len() ==> self@.contains_key(#[trigger] r@[i].0@) && self@[r@[i].0@]
                    == r@[i].1,
            forall|k: Seq<char>|
                self@.contains_key(k) ==> exists|i: int| 0 <= i < r@.len() && #[trigger] r@[i].0@
                    == k,
    {
        proof {
            lemma_map_of_get(self.users@);
            lemma_map_of_contains(self.users@);
            Self::lemma_map_of_len(self.users@);
        }
        let mut r: Vec<(String, u64)> = Vec::new();
        let mut i: usize = 0;
        while i < self.users.len()
            invariant
                i <= self.users@.len(),
                r@.len() == i,
                forall|j: int| 0 <= j < i ==> r@[j].0@ == self.users@[j].0@,
                forall|j: int| 0 <= j < i ==> r@[j].1 == self.users@[j].1.spec_uid(),
            decreases self.users@.len() - i,
        {
            let name = self.users[i].0.clone();
            let uid = self.users[i].1.get_uid();
            r.push((name, uid));
            i += 1;
        }
        proof {
            assert forall|k: Seq<char>| self@.contains_key(k) implies exists|j: int|
                0 <= j < r@.len() && #[trigger] r@[j].0@ == k by {
                let j = choose|j: int| 0 <= j < self.users@.len() && self.users@[j].0@ == k;
                assert(r@[j].0@ == k);
            }
            assert forall|j: int| 0 <= j < r@.len() implies self@.contains_key(#[trigger] r@[j].0@)
                && self@[r@[j].0@] == r@[j].1 by {
                assert(self.users@[j].0@ == r@[j].0@);
                assert(map_of(self.users@)[self.users@[j].0@] == self.users@[j].1.spec_uid());
            }
        }
        r
    }

    proof fn lemma_map_of_len(s: Seq<(String, User)>)
        requires
            distinct_keys(s),
        ensures
            map_of(s).dom().finite(),
            map_of(s).dom().len() == s.len(),
        decreases s.len(),
    {
        if s.len() > 0 {
            let d = s.drop_last();
            assert(distinct_keys(d)) by {
                assert forall|i: int, j: int| 0 <= i < j < d.len() implies d[i].0@ != d[j].0@ by {
                    assert(d[i] == s[i] && d[j] == s[j]);
                }
            }
            Self::lemma_map_of_len(d);
            lemma_map_of_contains(d);
            assert(!map_of(d).contains_key(s.last().0@)) by {
                if map_of(d).contains_key(s.last().0@) {
                    let i = choose|i: int| 0 <= i < d.len() && d[i].0@ == s.last().0@;
                    assert(d[i] == s[i]);
                    assert(s[i].0@ == s[s.len() - 1].0@);
                }
            }
            assert(map_of(s).dom() =~= map_of(d).dom().insert(s.last().0@));
        }
    }

    /// Whether a username already holds an assigned uid.
    #[verifier::loop_isolation(false)]
    pub fn contains(&self, username: &str) -> (r: bool)
        ensures
            r == self@.contains_key(username@),
    {
        proof {
            lemma_map_of_contains(self.users@);
        }
        let mut i: usize = 0;
        while i < self.users.len()
            invariant
                i <= self.users@.len(),
                forall|j: int| 0 <= j < i ==> self.users@[j].0@ != username@,
            decreases self.users@.len() - i,
        {
            if str_eq(self.users[i].0.as_str(), username) {
                proof {
                    assert(self.users@[i as int].0@ == username@);
                }
                return true;
            }
            i += 1;
        }
        proof {
            if self@.contains_key(username@) {
                let j = choose|j: int|
                    0 <= j < self.users@.len() && self.users@[j].0@ == username@;
                assert(false);
            }
        }
        false
    }

    /// Record a freshly assigned uid. The caller must guarantee that the
    /// username is not yet present: an existing entry is never overwritten.
    pub fn insert(&mut self, username: String, uid: u64)
        requires
            old(self).wf(),
            !old(self)@.contains_key(username@),
        ensures
            final(self).wf(),
            final(self)@ == old(self)@.insert(username@, uid),
    {
        proof {
            lemma_map_of_contains(self.users@);
        }
        self.users.push((username, User { uid }));
        proof {
            assert(self.users@.drop_last() == old(self).users@);
        }
    }

    /// Look a username up in the store.
    #[verifier::loop_isolation(false)]
    pub fn get_user(&self, username: &str) -> (r: Option<&User>)
        requires
            self.wf(),
        ensures
            match r {
                Some(u) => self@.contains_key(username@) && u.spec_uid() == self@[username@],
                None => !self@.contains_key(username@),
            },
    {
        proof {
            lemma_map_of_contains(self.users@);
            lemma_map_of_get(self.users@);
        }
        let mut i: usize = 0;
        while i < self.users.len()
            invariant
                i <= self.users@.len(),
                forall|j: int| 0 <= j < i ==> self.users@[j].0@ != username@,
            decreases self.users@.len() - i,
        {
            if str_eq(self.users[i].0.as_str(), username) {
                proof {
                    assert(self.users@[i as int].0@ == username@);
                    assert(map_of(self.users@)[self.users@[i as int].0@] == self.users@[i as int]
                        .1.spec_uid());
                }
                return Some(&self.users[i].1);
            }
            i += 1;
        }
        proof {
            if self@.contains_key(username@) {
                let j = choose|j: int|
                    0 <= j < self.users@.len() && self.users@[j].0@ == username@;
                assert(false);
            }
        }
        None
    }

    /// The greatest uid assigned so far, or nothing for an empty store.
    #[verifier::loop_isolation(false)]
    pub fn get_max_uid(&self) -> (r: Option<u64>)
        requires
            self.wf(),
        ensures
            match r {
                Some(m) => (exists|k: Seq<char>| #[trigger] self@.contains_key(k) && self@[k] == m)
                    && (forall|k: Seq<char>| #[trigger] self@.contains_key(k) ==> self@[k] <= m),
                None => self@ == Map::<Seq<char>, u64>::empty(),
            },
    {
        proof {
            lemma_map_of_contains(self.users@);
            lemma_map_of_get(self.users@);
        }
        let mut best: Option<u64> = None;
        let mut i: usize = 0;
        while i < self.users.len()
            invariant
                i <= self.users@.len(),
                match best {
                    Some(m) => (exists|j: int|
                        0 <= j < i && self.users@[j].1.spec_uid() == m) && (forall|j: int|
                        0 <= j < i ==> self.users@[j].1.spec_uid() <= m),
                    None => i == 0,
                },
            decreases self.users@.len() - i,
        {
            let uid = self.users[i].1.get_uid();
            best = match best {
                None => Some(uid),
                Some(m) => if uid > m {
                    Some(uid)
                } else {
                    Some(m)
                },
            };
            i += 1;
        }
        proof {
            let s = self.users@;
            assert(self@ == map_of(s));
            match best {
                Some(m) => {
                    assert(i == s.len());
                    let j = choose|j: int| 0 <= j < i && s[j].1.spec_uid() == m;
                    assert(0 <= j < s.len() && s[j].1.spec_uid() == m);
                    assert(map_of(s).contains_key(s[j].0@) && map_of(s)[s[j].0@] == m);
                    assert(self@.contains_key(s[j].0@) && self@[s[j].0@] == m);
                    assert forall|k: Seq<char>| #[trigger] self@.contains_key(k) implies self@[k]
                        <= m by {
                        let jj = choose|jj: int| 0 <= jj < s.len() && s[jj].0@ == k;
                        assert(map_of(s)[s[jj].0@] == s[jj].1.spec_uid());
                        assert(s[jj].1.spec_uid() <= m);
                    }
                },
                None => {
                    assert(i == 0 && s.len() == 0);
                },
            }
        }
        best
    }
}

} // verus!
