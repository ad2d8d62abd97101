//! One reconciliation run, fetch results in, configuration text out: filter
//! the fetched users against the usable roles, assign uids to the new ones,
//! order everything by uid and render. The caller persists the store and
//! publishes the text; both are pure data here.

use vstd::prelude::*;
use crate::elasticsearch::RoleMap;
use crate::elasticsearch::User;
use crate::elasticsearch::filter_users;
use crate::elasticsearch::kept_users;
use crate::elasticsearch::lemma_kept_users;
use crate::elasticsearch::user_usable;
use crate::reconcile::add_missing_users;
use crate::reconcile::assign_all;
use crate::reconcile::is_start_uid;
use crate::reconcile::lemma_assign_all_noop;
use crate::reconcile::lemma_assign_all_props;
use crate::reconcile::lemma_sort_by_uid_mem;
use crate::reconcile::names_of;
use crate::reconcile::pairs_of;
use crate::reconcile::resolve_uids;
use crate::reconcile::sort_by_uid;
use crate::reconcile::sort_entries;
use crate::reconcile::start_uid;
use crate::render::render_config;
use crate::render::render_of;
use crate::userdb::UserDB;

verus! {

/// The entries a run renders: the retained users, each with its uid from
/// the reconciled store, sorted by ascending uid.
pub open spec fn reconciled_entries(
    db: Map<Seq<char>, u64>,
    users: Seq<User>,
    m: Map<Seq<char>, u64>,
) -> Seq<(User, u64)> {
    sort_by_uid(pairs_of(kept_users(users, m), db))
}

/// The text a run renders, given the reconciled store.
pub open spec fn pipeline_output(
    db: Map<Seq<char>, u64>,
    users: Seq<User>,
    m: Map<Seq<char>, u64>,
    pg: u64,
    template: Seq<char>,
) -> Seq<char> {
    render_of(template, reconciled_entries(db, users, m), pg, m)
}

/// One full run over fetched data: filter the users, assign uids to the
/// new usernames in fetch order, and render the configuration text in
/// ascending uid order. The store afterwards holds every retained user.
pub fn run(
    db: &mut UserDB,
    users: Vec<User>,
    roles: &RoleMap,
    floor: u64,
    pg: u64,
    template: &str,
) -> (cfg: String)
    requires
        old(db).wf(),
        roles.wf(),
        forall|k: Seq<char>|
            old(db)@.contains_key(k) ==> #[trigger] old(db)@[k] + users@.len() < u64::MAX,
        floor + users@.len() < u64::MAX,
    ensures
        final(db).wf(),
        exists|start: int|
            #[trigger] is_start_uid(old(db)@, floor, start) && final(db)@ == assign_all(
                old(db)@,
                names_of(kept_users(users@, roles@)),
                start,
            ),
        cfg@ == pipeline_output(final(db)@, users@, roles@, pg, template@),
{
    let ghost users0 = users@;
    let ghost db0 = db@;
    let kept = filter_users(users, roles);
    let start = start_uid(db, floor);
    proof {
        lemma_kept_users(users0, roles@);
        if start as int != floor as int {
            let k = choose|k: Seq<char>| #[trigger] db@.contains_key(k) && db@[k] + 1 == start as int;
            assert(db@[k] + users0.len() < u64::MAX);
        }
        assert(start + kept@.len() <= u64::MAX + 1);
    }
    add_missing_users(db, &kept, start);
    proof {
        lemma_assign_all_props(db0, names_of(kept@), start as int);
        assert forall|i: int| 0 <= i < kept@.len() implies db@.contains_key(
            #[trigger] kept@[i].username@,
        ) by {
            assert(names_of(kept@)[i] == kept@[i].username@);
        }
        assert(is_start_uid(db0, floor, start as int) && db@ == assign_all(
            db0,
            names_of(kept_users(users0, roles@)),
            start as int,
        ));
    }
    let entries = resolve_uids(db, kept);
    let sorted = sort_entries(entries);
    let cfg = render_config(template, &sorted, pg, roles);
    proof {
        assert(sorted@ == reconciled_entries(db@, users0, roles@));
    }
    cfg
}

/// Idempotence: a second reconciliation against an unchanged remote source
/// changes no store entry, so it renders byte-identical output and the
/// second run publishes nothing.
pub proof fn lemma_idempotent(
    db0: Map<Seq<char>, u64>,
    users: Seq<User>,
    m: Map<Seq<char>, u64>,
    pg: u64,
    template: Seq<char>,
    s1: int,
    s2: int,
)
    requires
        0 <= s1,
        s1 + kept_users(users, m).len() <= u64::MAX + 1,
    ensures
        assign_all(
            assign_all(db0, names_of(kept_users(users, m)), s1),
            names_of(kept_users(users, m)),
            s2,
        ) == assign_all(db0, names_of(kept_users(users, m)), s1),
        pipeline_output(
            assign_all(
                assign_all(db0, names_of(kept_users(users, m)), s1),
                names_of(kept_users(users, m)),
                s2,
            ),
            users,
            m,
            pg,
            template,
        ) == pipeline_output(assign_all(db0, names_of(kept_users(users, m)), s1), users, m, pg, template),
{
    let names = names_of(kept_users(users, m));
    let db1 = assign_all(db0, names, s1);
    lemma_assign_all_props(db0, names, s1);
    assert forall|i: int| 0 <= i < names.len() implies db1.contains_key(#[trigger] names[i]) by {
        assert(0 <= i < names.len() && names[i] == names[i]);
    }
    lemma_assign_all_noop(db1, names, s2);
}

/// Filtering correctness: a user none of whose roles is usable is excluded
/// from the rendered entries, and its username is never allocated a uid.
pub proof fn lemma_filtering_excludes(
    db0: Map<Seq<char>, u64>,
    users: Seq<User>,
    m: Map<Seq<char>, u64>,
    u: User,
    start: int,
)
    requires
        !user_usable(u, m),
        !db0.contains_key(u.username@),
        forall|j: int|
            0 <= j < users.len() && (#[trigger] users[j]).username@ == u.username@ ==> users[j]
                == u,
        0 <= start,
        start + kept_users(users, m).len() <= u64::MAX + 1,
    ensures
        forall|i: int|
            0 <= i < kept_users(users, m).len() ==> #[trigger] kept_users(users, m)[i] != u,
        !assign_all(db0, names_of(kept_users(users, m)), start).contains_key(u.username@),
        forall|i: int|
            0 <= i < reconciled_entries(
                assign_all(db0, names_of(kept_users(users, m)), start),
                users,
                m,
            ).len() ==> (#[trigger] reconciled_entries(
                assign_all(db0, names_of(kept_users(users, m)), start),
                users,
                m,
            )[i]).0 != u,
{
    let kept = kept_users(users, m);
    let names = names_of(kept);
    lemma_kept_users(users, m);
    assert forall|i: int| 0 <= i < kept.len() implies #[trigger] kept[i] != u by {
        assert(user_usable(kept[i], m));
    }
    assert forall|i: int| 0 <= i < names.len() implies #[trigger] names[i] != u.username@ by {
        assert(names[i] == kept[i].username@);
        if kept[i].username@ == u.username@ {
            let j = choose|j: int| 0 <= j < users.len() && kept[i] == users[j];
            assert(users[j].username@ == u.username@);
            assert(users[j] == u);
            assert(kept[i] != u);
        }
    }
    lemma_assign_all_props(db0, names, start);
    let db1 = assign_all(db0, names, start);
    assert(!db1.contains_key(u.username@)) by {
        if db1.contains_key(u.username@) {
            let i = choose|i: int| 0 <= i < names.len() && names[i] == u.username@;
        }
    }
    let pairs = pairs_of(kept, db1);
    lemma_sort_by_uid_mem(pairs);
    assert forall|i: int| 0 <= i < sort_by_uid(pairs).len() implies (#[trigger] sort_by_uid(
        pairs,
    )[i]).0 != u by {
        let x = sort_by_uid(pairs)[i];
        assert(sort_by_uid(pairs).contains(x));
        assert(pairs.contains(x));
        let j = choose|j: int| 0 <= j < pairs.len() && pairs[j] == x;
        assert(pairs[j].0 == kept[j]);
        assert(kept[j] != u);
    }
}

} // verus!
