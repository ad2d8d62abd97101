use elastic_glauth::elasticsearch::filter_usable_roles;
use elastic_glauth::elasticsearch::filter_users;
use elastic_glauth::elasticsearch::has_usable_role;
use elastic_glauth::elasticsearch::Role;
use elastic_glauth::elasticsearch::RoleMap;
use elastic_glauth::elasticsearch::RoleMeta;
use elastic_glauth::elasticsearch::User;
use elastic_glauth::pipeline::run;
use elastic_glauth::publish::should_publish;
use elastic_glauth::reconcile::add_missing_users;
use elastic_glauth::reconcile::start_uid;
use elastic_glauth::render::other_groups;
use elastic_glauth::render::render_user_block;
use elastic_glauth::text::hex_upper_str;
use elastic_glauth::text::split_name;
use elastic_glauth::text::u64_to_dec;
use elastic_glauth::userdb::UserDB;

fn role(gid: Option<u64>) -> Role {
    Role { metadata: RoleMeta { glauth_gid: gid } }
}

fn user(username: &str, full_name: &str, roles: &[&str]) -> User {
    User {
        email: format!("{}@example.org", username),
        full_name: full_name.to_string(),
        password: "secret".to_string(),
        username: username.to_string(),
        roles: roles.iter().map(|r| r.to_string()).collect(),
    }
}

fn sample_roles() -> RoleMap {
    let raw = vec![
        ("zero".to_string(), role(Some(0))),
        ("three".to_string(), role(Some(3))),
        ("ten".to_string(), role(Some(10))),
        ("two".to_string(), role(Some(2))),
        ("nogid".to_string(), role(None)),
    ];
    filter_usable_roles(&raw)
}

#[test]
fn split_name_test() {
    assert_eq!(
        split_name("John Doe"),
        ("John".to_string(), "Doe".to_string())
    );
    assert_eq!(
        split_name("John Doe Foo"),
        ("John".to_string(), "Doe Foo".to_string())
    );
    assert_eq!(split_name("John"), ("John".to_string(), "".to_string()));
    assert_eq!(split_name(""), ("".to_string(), "".to_string()));
    assert_eq!(
        split_name("John  Doe"),
        ("John".to_string(), "Doe".to_string())
    );
}

#[test]
fn decimal_rendering() {
    assert_eq!(u64_to_dec(0), "0");
    assert_eq!(u64_to_dec(42), "42");
    assert_eq!(u64_to_dec(10070), "10070");
    assert_eq!(u64_to_dec(u64::MAX), "18446744073709551615");
}

#[test]
fn hex_rendering() {
    assert_eq!(hex_upper_str("abc"), "616263");
    assert_eq!(hex_upper_str(""), "");
    assert_eq!(hex_upper_str("s3cr3t!"), "73336372337421");
}

#[test]
fn role_filtering_drops_unusable() {
    let roles = sample_roles();
    assert!(roles.contains_key("zero"));
    assert!(roles.contains_key("three"));
    assert!(!roles.contains_key("nogid"));
    assert_eq!(roles.get_gid("ten"), Some(10));
    assert_eq!(roles.get_gid("nogid"), None);
}

#[test]
fn user_filtering_drops_users_without_usable_roles() {
    let roles = sample_roles();
    let users = vec![
        user("alice", "Alice A", &["ten"]),
        user("carol", "Carol C", &["nogid", "unknown"]),
        user("bob", "Bob B", &["two", "nogid"]),
    ];
    assert!(!has_usable_role(&users[1], &roles));
    let kept = filter_users(users, &roles);
    let names: Vec<&str> = kept.iter().map(|u| u.username.as_str()).collect();
    assert_eq!(names, vec!["alice", "bob"]);
}

#[test]
fn group_id_rendering_sorts_as_strings() {
    let roles = sample_roles();
    let groups = vec![
        "zero".to_string(),
        "three".to_string(),
        "ten".to_string(),
        "two".to_string(),
    ];
    assert_eq!(other_groups(&groups, &roles), "10, 2, 3");
}

#[test]
fn store_lookup_and_max() {
    let mut db = UserDB::new();
    assert_eq!(db.get_max_uid(), None);
    assert!(!db.contains("alice"));
    db.insert("alice".to_string(), 2000);
    db.insert("bob".to_string(), 1500);
    assert!(db.contains("alice"));
    assert_eq!(db.get_user("alice").unwrap().get_uid(), 2000);
    assert!(db.get_user("carol").is_none());
    assert_eq!(db.get_max_uid(), Some(2000));
    let mut entries = db.entries();
    entries.sort();
    assert_eq!(
        entries,
        vec![("alice".to_string(), 2000), ("bob".to_string(), 1500)]
    );
}

#[test]
fn uid_stability_for_existing_users() {
    let roles = sample_roles();
    let mut db = UserDB::new();
    db.insert("alice".to_string(), 7777);
    let users = vec![user("alice", "Alice A", &["ten"])];
    let kept = filter_users(users, &roles);
    let start = start_uid(&db, 5000);
    add_missing_users(&mut db, &kept, start);
    assert_eq!(db.get_user("alice").unwrap().get_uid(), 7777);
}

#[test]
fn uid_assignment_is_monotonic_and_unique() {
    let mut db = UserDB::new();
    db.insert("old".to_string(), 6000);
    let start = start_uid(&db, 5000);
    assert_eq!(start, 6001);
    let roles = sample_roles();
    let users = vec![
        user("new1", "New One", &["ten"]),
        user("new2", "New Two", &["two"]),
    ];
    let kept = filter_users(users, &roles);
    add_missing_users(&mut db, &kept, start);
    assert_eq!(db.get_user("new1").unwrap().get_uid(), 6001);
    assert_eq!(db.get_user("new2").unwrap().get_uid(), 6002);
    assert_eq!(db.get_user("old").unwrap().get_uid(), 6000);
}

#[test]
fn empty_store_starts_at_floor() {
    let db = UserDB::new();
    assert_eq!(start_uid(&db, 5000), 5000);
}

#[test]
fn floor_wins_over_small_max() {
    let mut db = UserDB::new();
    db.insert("tiny".to_string(), 10);
    assert_eq!(start_uid(&db, 5000), 5000);
}

#[test]
fn rendered_block_matches_schema() {
    let roles = sample_roles();
    let mut u = user("jdoe", "John Doe", &["ten"]);
    u.email = "j@x".to_string();
    u.password = "abc".to_string();
    let block = render_user_block(&u, 5000, 100, &roles);
    let expected = "\n[[users]]\n  name = \"jdoe\"\n  mail = \"j@x\"\n  givenname = \"John\"\n  sn = \"Doe\"\n  uidnumber = \"5000\"\n  primarygroup = 100\n  otherGroups = [10]\n  passbcrypt = \"616263\"\n    [[users.customattributes]]\n      displayName = [\"Doe John\"]\n    [[users.capabilities]]\n      action = \"search\"\n      object = \"*\"\n";
    assert_eq!(block, expected);
}

#[test]
fn pipeline_is_idempotent() {
    let roles = sample_roles();
    let mk = || {
        vec![
            user("alice", "Alice Liddell", &["ten", "three"]),
            user("bob", "Bob", &["two"]),
            user("carol", "Carol C", &["nogid"]),
        ]
    };
    let mut db = UserDB::new();
    let template = "# preamble\n";
    let out1 = run(&mut db, mk(), &roles, 5000, 100, template);
    let out2 = run(&mut db, mk(), &roles, 5000, 100, template);
    assert_eq!(out1, out2);
    assert!(!should_publish(&out1, &out2));
    assert_eq!(db.get_user("alice").unwrap().get_uid(), 5000);
    assert_eq!(db.get_user("bob").unwrap().get_uid(), 5001);
    assert!(db.get_user("carol").is_none());
    assert!(out1.starts_with("# preamble\n"));
    assert!(out1.contains("name = \"alice\""));
    assert!(!out1.contains("carol"));
}

#[test]
fn pipeline_orders_blocks_by_uid() {
    let roles = sample_roles();
    let mut db = UserDB::new();
    db.insert("zeta".to_string(), 100);
    let users = vec![
        user("newer", "New User", &["two"]),
        user("zeta", "Zeta Z", &["ten"]),
    ];
    let out = run(&mut db, users, &roles, 5000, 100, "");
    let zeta_at = out.find("name = \"zeta\"").unwrap();
    let newer_at = out.find("name = \"newer\"").unwrap();
    assert!(zeta_at < newer_at);
    assert_eq!(db.get_user("newer").unwrap().get_uid(), 5000);
}

#[test]
fn no_op_detection() {
    assert!(!should_publish("same\ntext\n", "same\ntext\n"));
    assert!(should_publish("old\n", "new\n"));
    assert!(should_publish("", "anything"));
}
