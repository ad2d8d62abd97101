//! Deterministic rendering of reconciled users into the configuration text.
//!
//! The output is the template followed by one block per user in ascending
//! uid order. Group ids are rendered in decimal and sorted by their string
//! representation — the order the consumer has always seen, kept for output
//! stability even where it differs from numeric order.

use vstd::prelude::*;
use vstd::string::StrSliceExecFns;
use vstd::string::StringExecFns;
use crate::elasticsearch::RoleMap;
use crate::elasticsearch::User;
use crate::text::first_name_of;
use crate::text::hex_upper;
use crate::text::hex_upper_str;
use crate::text::join_chars;
use crate::text::join_strs;
use crate::text::last_name_of;
use crate::text::sort_lex;
use crate::text::sort_lex_vec;
use crate::text::split_name;
use crate::text::u64_dec;
use crate::text::u64_to_dec;
use crate::text::views_of;

verus! {

/// The decimal renderings of the group ids behind a user's roles: one entry
/// per role the map knows, zero-valued ids dropped, duplicates kept.
pub open spec fn gid_strs(roles: Seq<String>, m: Map<Seq<char>, u64>) -> Seq<Seq<char>>
    decreases roles.len(),
{
    if roles.len() == 0 {
        Seq::empty()
    } else {
        let rest = gid_strs(roles.drop_last(), m);
        let name = roles.last()@;
        if m.contains_key(name) && m[name] > 0 {
            rest.push(u64_dec(m[name] as int))
        } else {
            rest
        }
    }
}

/// The rendered other-groups list: group ids sorted as strings, joined with
/// a comma and a space.
pub open spec fn other_groups_of(roles: Seq<String>, m: Map<Seq<char>, u64>) -> Seq<char> {
    join_chars(sort_lex(gid_strs(roles, m)), ", "@)
}

/// Render the other-groups list of one user.
#[verifier::loop_isolation(false)]
pub fn other_groups(roles: &Vec<String>, m: &RoleMap) -> (r: String)
    requires
        m.wf(),
    ensures
        r@ == other_groups_of(roles@, m@),
{
    let mut gids: Vec<String> = Vec::new();
    let mut i: usize = 0;
    proof {
        assert(views_of(gids@) =~= gid_strs(roles@.take(0), m@));
    }
    while i < roles.len()
        invariant
            i <= roles@.len(),
            views_of(gids@) == gid_strs(roles@.take(i as int), m@),
        decreases roles@.len() - i,
    {
        let ghost before = gids@;
        match m.get_gid(roles[i].as_str()) {
            Some(g) => {
                if g > 0 {
                    gids.push(u64_to_dec(g));
                    proof {
                        assert(views_of(gids@) =~= views_of(before).push(u64_dec(g as int)));
                    }
                }
            },
            None => {},
        }
        proof {
            assert(roles@.take(i + 1).drop_last() =~= roles@.take(i as int));
            assert(roles@.take(i + 1).last() == roles@[i as int]);
        }
        i += 1;
    }
    proof {
        assert(roles@.take(roles@.len() as int) =~= roles@);
    }
    let sorted = sort_lex_vec(&gids);
    join_strs(&sorted, ", ")
}

/// The configuration block of one reconciled user, exactly as the consumer
/// expects it.
pub open spec fn user_block(u: User, uid: u64, pg: u64, m: Map<Seq<char>, u64>) -> Seq<char> {
    "\n[[users]]\n  name = \""@ + u.username@ + "\"\n  mail = \""@ + u.email@
        + "\"\n  givenname = \""@ + first_name_of(u.full_name@) + "\"\n  sn = \""@ + last_name_of(
        u.full_name@,
    ) + "\"\n  uidnumber = \""@ + u64_dec(uid as int) + "\"\n  primarygroup = "@ + u64_dec(
        pg as int,
    ) + "\n  otherGroups = ["@ + other_groups_of(u.roles@, m) + "]\n  passbcrypt = \""@
        + hex_upper(vstd::utf8::encode_utf8(u.password@))
        + "\"\n    [[users.customattributes]]\n      displayName = [\""@ + last_name_of(
        u.full_name@,
    ) + " "@ + first_name_of(u.full_name@)
        + "\"]\n    [[users.capabilities]]\n      action = \"search\"\n      object = \"*\"\n"@
}

/// Render the configuration block of one user.
#[verifier::rlimit(50)]
pub fn render_user_block(u: &User, uid: u64, pg: u64, roles: &RoleMap) -> (r: String)
    requires
        roles.wf(),
    ensures
        r@ == user_block(*u, uid, pg, roles@),
{
    let names = split_name(u.full_name.as_str());
    let pass = hex_upper_str(u.password.as_str());
    let uid_s = u64_to_dec(uid);
    let pg_s = u64_to_dec(pg);
    let og = other_groups(&u.roles, roles);
    let mut r = String::new();
    r.append("\n[[users]]\n  name = \"");
    r.append(u.username.as_str());
    r.append("\"\n  mail = \"");
    r.append(u.email.as_str());
    r.append("\"\n  givenname = \"");
    r.append(names.0.as_str());
    r.append("\"\n  sn = \"");
    r.append(names.1.as_str());
    r.append("\"\n  uidnumber = \"");
    r.append(uid_s.as_str());
    r.append("\"\n  primarygroup = ");
    r.append(pg_s.as_str());
    r.append("\n  otherGroups = [");
    r.append(og.as_str());
    r.append("]\n  passbcrypt = \"");
    r.append(pass.as_str());
    r.append("\"\n    [[users.customattributes]]\n      displayName = [\"");
    r.append(names.1.as_str());
    r.append(" ");
    r.append(names.0.as_str());
    r.append("\"]\n    [[users.capabilities]]\n      action = \"search\"\n      object = \"*\"\n");
    proof {
        assert(r@ =~= user_block(*u, uid, pg, roles@));
    }
    r
}

/// The blocks of all reconciled users, in the order given.
pub open spec fn blocks_of(entries: Seq<(User, u64)>, pg: u64, m: Map<Seq<char>, u64>) -> Seq<char>
    decreases entries.len(),
{
    if entries.len() == 0 {
        Seq::empty()
    } else {
        blocks_of(entries.drop_last(), pg, m) + user_block(
            entries.last().0,
            entries.last().1,
            pg,
            m,
        )
    }
}

/// The whole rendered configuration: the template text followed by one
/// block per user, in the order given.
pub open spec fn render_of(
    template: Seq<char>,
    entries: Seq<(User, u64)>,
    pg: u64,
    m: Map<Seq<char>, u64>,
) -> Seq<char> {
    template + blocks_of(entries, pg, m)
}

/// Render the configuration for the given entries, template first.
#[verifier::loop_isolation(false)]
pub fn render_config(template: &str, entries: &Vec<(User, u64)>, pg: u64, roles: &RoleMap) -> (r:
    String)
    requires
        roles.wf(),
    ensures
        r@ == render_of(template@, entries@, pg, roles@),
{
    let mut r = String::from_str(template);
    let mut i: usize = 0;
    proof {
        assert(r@ =~= render_of(template@, entries@.take(0), pg, roles@));
    }
    while i < entries.len()
        invariant
            i <= entries@.len(),
            r@ == render_of(template@, entries@.take(i as int), pg, roles@),
        decreases entries@.len() - i,
    {
        let block = render_user_block(&entries[i].0, entries[i].1, pg, roles);
        r.append(block.as_str());
        proof {
            assert(entries@.take(i + 1).drop_last() =~= entries@.take(i as int));
            assert(entries@.take(i + 1).last() == entries@[i as int]);
            assert(r@ =~= render_of(template@, entries@.take(i + 1), pg, roles@));
        }
        i += 1;
    }
    proof {
        assert(entries@.take(entries@.len() as int) =~= entries@);
    }
    r
}

} // verus!
