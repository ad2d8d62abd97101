//! Reconciliation: merging fetched users against the identity store.
//!
//! A username already present keeps its uid untouched; a new username is
//! assigned the next unused uid, in fetch order, starting strictly above
//! both the prior maximum and just below the configured floor. The store is
//! the sole record of these assignments.

use vstd::prelude::*;
use crate::elasticsearch::User;
use crate::userdb::UserDB;

verus! {

/// The usernames of a user sequence, in order.
pub open spec fn names_of(users: Seq<User>) -> Seq<Seq<char>> {
    users.map_values(|u: User| u.username@)
}

/// The store after one reconciliation pass: each name not yet present is
/// bound to the next counter value, in order; present names are untouched.
pub open spec fn assign_all(m: Map<Seq<char>, u64>, names: Seq<Seq<char>>, next: int) -> Map<
    Seq<char>,
    u64,
>
    decreases names.len(),
{
    if names.len() == 0 {
        m
    } else if m.contains_key(names[0]) {
        assign_all(m, names.drop_first(), next)
    } else {
        assign_all(m.insert(names[0], next as u64), names.drop_first(), next + 1)
    }
}

/// What reconciliation does to the store, in full: present keys keep their
/// values, new keys come from the name list and take values from `next` on,
/// pairwise distinct.
pub proof fn lemma_assign_all_props(m: Map<Seq<char>, u64>, names: Seq<Seq<char>>, next: int)
    requires
        next + names.len() <= u64::MAX + 1,
        next >= 0,
    ensures
        forall|k: Seq<char>|
            #[trigger] assign_all(m, names, next).contains_key(k) <==> m.contains_key(k) || (
            exists|i: int| 0 <= i < names.len() && names[i] == k),
        forall|k: Seq<char>|
            m.contains_key(k) ==> #[trigger] assign_all(m, names, next)[k] == m[k],
        forall|k: Seq<char>|
            #[trigger] assign_all(m, names, next).contains_key(k) && !m.contains_key(k) ==> next
                <= assign_all(m, names, next)[k] < next + names.len(),
        forall|k1: Seq<char>, k2: Seq<char>|
            #[trigger] assign_all(m, names, next).contains_key(k1)
                && #[trigger] assign_all(m, names, next).contains_key(k2) && !m.contains_key(k1)
                && !m.contains_key(k2) && k1 != k2 ==> assign_all(m, names, next)[k1] != assign_all(
                m,
                names,
                next,
            )[k2],
    decreases names.len(),
{
    if names.len() > 0 {
        let d = names.drop_first();
        let h = names[0];
        if m.contains_key(h) {
            lemma_assign_all_props(m, d, next);
            assert(assign_all(m, names, next) == assign_all(m, d, next));
            assert forall|k: Seq<char>|
                #[trigger] assign_all(m, names, next).contains_key(k) implies m.contains_key(k)
                || (exists|i: int| 0 <= i < names.len() && names[i] == k) by {
                if !m.contains_key(k) {
                    let i = choose|i: int| 0 <= i < d.len() && d[i] == k;
                    assert(names[i + 1] == k);
                }
            }
            assert forall|k: Seq<char>|
                (m.contains_key(k) || (exists|i: int|
                    0 <= i < names.len() && names[i] == k)) implies #[trigger] assign_all(
                m,
                names,
                next,
            ).contains_key(k) by {
                if !m.contains_key(k) {
                    let i = choose|i: int| 0 <= i < names.len() && names[i] == k;
                    if i == 0 {
                        assert(m.contains_key(k));
                    } else {
                        assert(d[i - 1] == k);
                    }
                }
            }
        } else {
            let m1 = m.insert(h, next as u64);
            lemma_assign_all_props(m1, d, next + 1);
            assert(assign_all(m, names, next) == assign_all(m1, d, next + 1));
            assert forall|k: Seq<char>|
                #[trigger] assign_all(m, names, next).contains_key(k) implies m.contains_key(k)
                || (exists|i: int| 0 <= i < names.len() && names[i] == k) by {
                if !m.contains_key(k) {
                    if k == h {
                        assert(names[0] == k);
                    } else {
                        assert(!m1.contains_key(k));
                        let i = choose|i: int| 0 <= i < d.len() && d[i] == k;
                        assert(names[i + 1] == k);
                    }
                }
            }
            assert forall|k: Seq<char>|
                (m.contains_key(k) || (exists|i: int|
                    0 <= i < names.len() && names[i] == k)) implies #[trigger] assign_all(
                m,
                names,
                next,
            ).contains_key(k) by {
                if m.contains_key(k) {
                    assert(m1.contains_key(k));
                } else {
                    let i = choose|i: int| 0 <= i < names.len() && names[i] == k;
                    if i == 0 {
                        assert(m1.contains_key(k));
                    } else {
                        assert(d[i - 1] == k);
                    }
                }
            }
            assert forall|k: Seq<char>|
                m.contains_key(k) implies #[trigger] assign_all(m, names, next)[k] == m[k] by {
                assert(m1.contains_key(k) && m1[k] == m[k]);
                assert(assign_all(m1, d, next + 1)[k] == m1[k]);
            }
            assert forall|k: Seq<char>|
                #[trigger] assign_all(m, names, next).contains_key(k) && !m.contains_key(
                    k,
                ) implies next <= assign_all(m, names, next)[k] < next + names.len() by {
                if k == h {
                    assert(m1.contains_key(k) && m1[k] == next as u64);
                    assert(assign_all(m1, d, next + 1)[k] == m1[k]);
                } else {
                    assert(!m1.contains_key(k));
                    assert(next + 1 <= assign_all(m1, d, next + 1)[k] < next + 1 + d.len());
                }
            }
            assert forall|k1: Seq<char>, k2: Seq<char>|
                #[trigger] assign_all(m, names, next).contains_key(k1)
                    && #[trigger] assign_all(m, names, next).contains_key(k2) && !m.contains_key(
                    k1,
                ) && !m.contains_key(k2) && k1 != k2 implies assign_all(m, names, next)[k1]
                != assign_all(m, names, next)[k2] by {
                let out = assign_all(m1, d, next + 1);
                if k1 == h {
                    assert(out[k1] == next as u64);
                    assert(!m1.contains_key(k2));
                    assert(next + 1 <= out[k2]);
                } else if k2 == h {
                    assert(out[k2] == next as u64);
                    assert(!m1.contains_key(k1));
                    assert(next + 1 <= out[k1]);
                } else {
                    assert(!m1.contains_key(k1) && !m1.contains_key(k2));
                }
            }
        }
    }
}

/// When every name is already present, reconciliation changes nothing.
pub proof fn lemma_assign_all_noop(m: Map<Seq<char>, u64>, names: Seq<Seq<char>>, next: int)
    requires
        forall|i: int| 0 <= i < names.len() ==> m.contains_key(#[trigger] names[i]),
    ensures
        assign_all(m, names, next) == m,
    decreases names.len(),
{
    if names.len() > 0 {
        let d = names.drop_first();
        assert forall|i: int| 0 <= i < d.len() implies m.contains_key(#[trigger] d[i]) by {
            assert(d[i] == names[i + 1]);
        }
        lemma_assign_all_noop(m, d, next);
    }
}

/// The starting counter of a run: at least the floor, strictly above every
/// stored uid, and no higher than either bound forces.
pub open spec fn is_start_uid(m: Map<Seq<char>, u64>, floor: u64, start: int) -> bool {
    &&& start >= floor
    &&& forall|k: Seq<char>| #[trigger] m.contains_key(k) ==> m[k] < start
    &&& (start == floor || exists|k: Seq<char>| #[trigger] m.contains_key(k) && m[k] + 1 == start)
}

/// Compute the first uid available for new assignments.
pub fn start_uid(db: &UserDB, floor: u64) -> (r: u64)
    requires
        db.wf(),
        forall|k: Seq<char>| db@.contains_key(k) ==> #[trigger] db@[k] < u64::MAX,
    ensures
        is_start_uid(db@, floor, r as int),
{
    match db.get_max_uid() {
        None => floor,
        Some(m) => {
            let c = m + 1;
            if c > floor {
                c
            } else {
                floor
            }
        },
    }
}

/// Assign a uid to every fetched user not yet in the store, in fetch order.
/// Present usernames are left untouched.
#[verifier::loop_isolation(false)]
pub fn add_missing_users(db: &mut UserDB, users: &Vec<User>, start: u64)
    requires
        old(db).wf(),
        start + users@.len() <= u64::MAX + 1,
    ensures
        final(db).wf(),
        final(db)@ == assign_all(old(db)@, names_of(users@), start as int),
{
    let ghost names = names_of(users@);
    let mut count: usize = 0;
    let mut i: usize = 0;
    proof {
        assert(names.skip(0) =~= names);
    }
    while i < users.len()
        invariant
            i <= users@.len(),
            count <= i,
            db.wf(),
            assign_all(old(db)@, names, start as int) == assign_all(
                db@,
                names.skip(i as int),
                start + count,
            ),
        decreases users@.len() - i,
    {
        let ghost pre = db@;
        let present = db.contains(users[i].username.as_str());
        proof {
            assert(names[i as int] == users@[i as int].username@);
            assert(names.skip(i as int)[0] == names[i as int]);
            assert(names.skip(i as int).drop_first() =~= names.skip(i + 1));
        }
        if !present {
            let uid = start + (count as u64);
            db.insert(users[i].username.clone(), uid);
            count += 1;
        }
        i += 1;
    }
    proof {
        assert(names.skip(users@.len() as int) =~= Seq::<Seq<char>>::empty());
    }
}

/// UID stability: a username already present in the store keeps its uid
/// through any reconciliation run, whatever the remote source returned.
pub proof fn lemma_uid_stability(m: Map<Seq<char>, u64>, names: Seq<Seq<char>>, start: int)
    requires
        0 <= start,
        start + names.len() <= u64::MAX + 1,
    ensures
        forall|k: Seq<char>|
            m.contains_key(k) ==> #[trigger] assign_all(m, names, start).contains_key(k)
                && assign_all(m, names, start)[k] == m[k],
{
    lemma_assign_all_props(m, names, start);
}

/// UID monotonic uniqueness: every newly assigned uid lies at or above the
/// floor and strictly above every previously stored uid, and a new uid
/// never equals any other uid, new or old.
pub proof fn lemma_uid_monotonic_unique(
    m: Map<Seq<char>, u64>,
    names: Seq<Seq<char>>,
    floor: u64,
    start: int,
)
    requires
        is_start_uid(m, floor, start),
        start + names.len() <= u64::MAX + 1,
    ensures
        forall|k: Seq<char>|
            #[trigger] assign_all(m, names, start).contains_key(k) && !m.contains_key(k) ==> floor
                <= assign_all(m, names, start)[k],
        forall|k: Seq<char>, k0: Seq<char>|
            #[trigger] assign_all(m, names, start).contains_key(k) && !m.contains_key(k)
                && #[trigger] m.contains_key(k0) ==> assign_all(m, names, start)[k] > m[k0],
        forall|k1: Seq<char>, k2: Seq<char>|
            #[trigger] assign_all(m, names, start).contains_key(k1)
                && #[trigger] assign_all(m, names, start).contains_key(k2) && !m.contains_key(k1)
                && k1 != k2 ==> assign_all(m, names, start)[k1] != assign_all(m, names, start)[k2],
{
    lemma_assign_all_props(m, names, start);
    let out = assign_all(m, names, start);
    assert forall|k1: Seq<char>, k2: Seq<char>|
        #[trigger] out.contains_key(k1) && #[trigger] out.contains_key(k2) && !m.contains_key(k1)
            && k1 != k2 implies out[k1] != out[k2] by {
        if m.contains_key(k2) {
            assert(out[k2] == m[k2]);
            assert(m[k2] < start);
            assert(start <= out[k1]);
        }
    }
}

/// Pair each user with the uid the store holds for it.
pub open spec fn pairs_of(users: Seq<User>, m: Map<Seq<char>, u64>) -> Seq<(User, u64)> {
    users.map_values(|u: User| (u, m[u.username@]))
}

/// Look up the uid of every user; reconciliation has made them all present.
#[verifier::loop_isolation(false)]
pub fn resolve_uids(db: &UserDB, users: Vec<User>) -> (r: Vec<(User, u64)>)
    requires
        db.wf(),
        forall|i: int| 0 <= i < users@.len() ==> db@.contains_key(#[trigger] users@[i].username@),
    ensures
        r@ == pairs_of(users@, db@),
{
    let ghost orig = users@;
    let mut remaining = users;
    let ghost mut done: Seq<User> = Seq::empty();
    let mut r: Vec<(User, u64)> = Vec::new();
    proof {
        assert(done + remaining@ =~= orig);
        assert(r@ =~= pairs_of(done, db@));
    }
    while remaining.len() > 0
        invariant
            done + remaining@ == orig,
            r@ == pairs_of(done, db@),
        decreases remaining@.len(),
    {
        let ghost rem_before = remaining@;
        let u = remaining.remove(0);
        proof {
            assert(rem_before =~= seq![u] + remaining@);
            assert(done.push(u) + remaining@ =~= done + rem_before);
            assert(orig[done.len() as int] == u);
        }
        let uid = match db.get_user(u.username.as_str()) {
            Some(rec) => rec.get_uid(),
            None => {
                proof {
                    assert(false);
                }
                0
            },
        };
        r.push((u, uid));
        proof {
            done = done.push(u);
            assert(r@ =~= pairs_of(done, db@));
        }
    }
    proof {
        assert(done =~= orig);
    }
    r
}

/// Where an entry belongs among entries sorted by uid: before the first one
/// with a greater uid, after every one with a smaller or equal uid.
pub open spec fn insert_by_uid(e: (User, u64), s: Seq<(User, u64)>) -> Seq<(User, u64)>
    decreases s.len(),
{
    if s.len() == 0 {
        seq![e]
    } else if s[0].1 <= e.1 {
        seq![s[0]] + insert_by_uid(e, s.drop_first())
    } else {
        seq![e] + s
    }
}

/// The stable sort of reconciled entries by ascending uid.
pub open spec fn sort_by_uid(s: Seq<(User, u64)>) -> Seq<(User, u64)>
    decreases s.len(),
{
    if s.len() == 0 {
        Seq::empty()
    } else {
        insert_by_uid(s.last(), sort_by_uid(s.drop_last()))
    }
}

proof fn lemma_insert_by_uid_at(e: (User, u64), s: Seq<(User, u64)>, p: int)
    requires
        0 <= p <= s.len(),
        forall|j: int| 0 <= j < p ==> s[j].1 <= e.1,
        p < s.len() ==> !(s[p].1 <= e.1),
    ensures
        insert_by_uid(e, s) =~= s.take(p) + seq![e] + s.skip(p),
    decreases s.len(),
{
    if s.len() == 0 {
        assert(insert_by_uid(e, s) =~= s.take(p) + seq![e] + s.skip(p));
    } else if p == 0 {
        assert(insert_by_uid(e, s) =~= seq![e] + s);
        assert(seq![e] + s =~= s.take(0) + seq![e] + s.skip(0));
    } else {
        let d = s.drop_first();
        assert(forall|j: int| 0 <= j < p - 1 ==> d[j] == s[j + 1]);
        lemma_insert_by_uid_at(e, d, p - 1);
        assert(insert_by_uid(e, s) == seq![s[0]] + insert_by_uid(e, d));
        assert(seq![s[0]] + (d.take(p - 1) + seq![e] + d.skip(p - 1)) =~= s.take(p) + seq![e]
            + s.skip(p));
    }
}

/// Inserting keeps exactly the entries present before, plus the new one.
proof fn lemma_insert_by_uid_mem(e: (User, u64), s: Seq<(User, u64)>)
    ensures
        forall|x: (User, u64)|
            #[trigger] insert_by_uid(e, s).contains(x) <==> (x == e || s.contains(x)),
    decreases s.len(),
{
    if s.len() > 0 && s[0].1 <= e.1 {
        let d = s.drop_first();
        lemma_insert_by_uid_mem(e, d);
        assert forall|x: (User, u64)| #[trigger] insert_by_uid(e, s).contains(x) implies (x == e
            || s.contains(x)) by {
            let out = seq![s[0]] + insert_by_uid(e, d);
            let i = choose|i: int| 0 <= i < out.len() && out[i] == x;
            if i == 0 {
                assert(s[0] == x);
            } else {
                assert(insert_by_uid(e, d).contains(x)) by {
                    assert(insert_by_uid(e, d)[i - 1] == x);
                }
                if x != e {
                    let j = choose|j: int| 0 <= j < d.len() && d[j] == x;
                    assert(s[j + 1] == x);
                }
            }
        }
        assert forall|x: (User, u64)| (x == e || s.contains(x)) implies #[trigger] insert_by_uid(
            e,
            s,
        ).contains(x) by {
            let out = seq![s[0]] + insert_by_uid(e, d);
            if x == e {
                assert(insert_by_uid(e, d).contains(x));
                let i = choose|i: int| 0 <= i < insert_by_uid(e, d).len() && insert_by_uid(e, d)[i]
                    == x;
                assert(out[i + 1] == x);
            } else {
                let j = choose|j: int| 0 <= j < s.len() && s[j] == x;
                if j == 0 {
                    assert(out[0] == x);
                } else {
                    assert(d[j - 1] == x);
                    assert(insert_by_uid(e, d).contains(x));
                    let i = choose|i: int|
                        0 <= i < insert_by_uid(e, d).len() && insert_by_uid(e, d)[i] == x;
                    assert(out[i + 1] == x);
                }
            }
        }
    } else {
        assert forall|x: (User, u64)| #[trigger] insert_by_uid(e, s).contains(x) implies (x == e
            || s.contains(x)) by {
            let out = seq![e] + s;
            let i = choose|i: int| 0 <= i < out.len() && out[i] == x;
            if i > 0 {
                assert(s[i - 1] == x);
            }
        }
        assert forall|x: (User, u64)| (x == e || s.contains(x)) implies #[trigger] insert_by_uid(
            e,
            s,
        ).contains(x) by {
            let out = seq![e] + s;
            if x == e {
                assert(out[0] == x);
            } else {
                let j = choose|j: int| 0 <= j < s.len() && s[j] == x;
                assert(out[j + 1] == x);
            }
        }
    }
}

/// Sorting keeps exactly the entries of its input.
pub proof fn lemma_sort_by_uid_mem(s: Seq<(User, u64)>)
    ensures
        forall|x: (User, u64)| #[trigger] sort_by_uid(s).contains(x) <==> s.contains(x),
    decreases s.len(),
{
    if s.len() > 0 {
        let d = s.drop_last();
        lemma_sort_by_uid_mem(d);
        lemma_insert_by_uid_mem(s.last(), sort_by_uid(d));
        assert forall|x: (User, u64)| #[trigger] sort_by_uid(s).contains(x) implies s.contains(
            x,
        ) by {
            if x == s.last() {
                assert(s[s.len() - 1] == x);
            } else {
                assert(sort_by_uid(d).contains(x));
                assert(d.contains(x));
                let j = choose|j: int| 0 <= j < d.len() && d[j] == x;
                assert(s[j] == x);
            }
        }
        assert forall|x: (User, u64)| s.contains(x) implies #[trigger] sort_by_uid(s).contains(
            x,
        ) by {
            let j = choose|j: int| 0 <= j < s.len() && s[j] == x;
            if j == s.len() - 1 {
                assert(x == s.last());
            } else {
                assert(d[j] == x);
                assert(sort_by_uid(d).contains(x));
            }
        }
    }
}

/// Insert an entry into a vector sorted by uid, keeping the order stable.
#[verifier::loop_isolation(false)]
fn insert_entry_vec(v: &mut Vec<(User, u64)>, e: (User, u64))
    ensures
        final(v)@ == insert_by_uid(e, old(v)@),
{
    let mut p: usize = 0;
    while p < v.len() && v[p].1 <= e.1
        invariant
            p <= v@.len(),
            v == old(v),
            forall|j: int| 0 <= j < p ==> v@[j].1 <= e.1,
        decreases v@.len() - p,
    {
        p += 1;
    }
    proof {
        lemma_insert_by_uid_at(e, v@, p as int);
    }
    v.insert(p, e);
    proof {
        assert(v@ =~= old(v)@.take(p as int) + seq![e] + old(v)@.skip(p as int));
    }
}

/// Sort reconciled entries by ascending uid, stably.
#[verifier::loop_isolation(false)]
pub fn sort_entries(input: Vec<(User, u64)>) -> (r: Vec<(User, u64)>)
    ensures
        r@ == sort_by_uid(input@),
{
    let ghost orig = input@;
    let mut remaining = input;
    let ghost mut done: Seq<(User, u64)> = Seq::empty();
    let mut r: Vec<(User, u64)> = Vec::new();
    proof {
        assert(done + remaining@ =~= orig);
    }
    while remaining.len() > 0
        invariant
            done + remaining@ == orig,
            r@ == sort_by_uid(done),
        decreases remaining@.len(),
    {
        let ghost rem_before = remaining@;
        let e = remaining.remove(0);
        proof {
            assert(rem_before =~= seq![e] + remaining@);
            assert(done.push(e) + remaining@ =~= done + rem_before);
            assert(done.push(e).drop_last() =~= done);
            assert(done.push(e).last() == e);
        }
        insert_entry_vec(&mut r, e);
        proof {
            done = done.push(e);
        }
    }
    proof {
        assert(done =~= orig);
    }
    r
}

} // verus!
