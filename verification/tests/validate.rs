use ccdu::config::{Config, ConfigFile, SafetyConfig};
use ccdu::plan::validate::{
    changed_message, default_protected, validate, Finding, IdentLook, OpLook, Severity, Space,
    ValidateOptions, World,
};
use ccdu::plan::{Conflict, EntryKind, Ident, Op, Plan, PLAN_VERSION};

fn standard() -> ValidateOptions {
    ValidateOptions::standard(&Some(b"/home/me".to_vec()))
}

fn offline() -> ValidateOptions {
    ValidateOptions { offline: true, ..standard() }
}

fn ident(kind: EntryKind) -> Ident {
    Ident { dev: 1, ino: 2, size: 3, mtime: 4, kind }
}

fn plan_with(ops: Vec<Op>) -> Plan {
    let mut plan = Plan::new(b"/data".to_vec());
    plan.ops = ops;
    plan
}

fn del(path: &str, kind: EntryKind) -> Op {
    Op::Delete { path: path.as_bytes().to_vec(), ident: ident(kind), est_bytes: 10 }
}

fn mv(src: &str, dst: &str) -> Op {
    Op::Move {
        src: src.as_bytes().to_vec(),
        dst: dst.as_bytes().to_vec(),
        ident: ident(EntryKind::Dir),
        est_bytes: 10,
        on_conflict: Conflict::Fail,
    }
}

/// Nothing was looked at.
fn nowhere(plan: &Plan) -> World {
    World { host: plan.host.clone(), looks: Vec::new(), spaces: Vec::new() }
}

/// An entry that still looks the way it did, on a machine where everything can be written to.
fn as_staged(op: &Op) -> OpLook {
    OpLook {
        source: IdentLook::Found(*op.ident()),
        parent_writable: true,
        dst_exists: false,
        dst_parent: Some(ident(EntryKind::Dir)),
        dst_parent_writable: true,
    }
}

fn world(plan: &Plan, looks: Vec<OpLook>) -> World {
    World { host: plan.host.clone(), looks, spaces: Vec::new() }
}

fn check(plan: &Plan, opts: &ValidateOptions) -> Vec<Finding> {
    validate(plan, opts, &nowhere(plan))
}

fn errors(findings: &[Finding]) -> Vec<&str> {
    findings
        .iter()
        .filter(|f| f.severity == Severity::Error)
        .map(|f| f.message.as_str())
        .collect()
}

#[test]
fn a_plain_plan_passes() {
    let plan = plan_with(vec![del("/data/cache", EntryKind::Dir)]);
    assert!(errors(&check(&plan, &offline())).is_empty());
}

#[test]
fn protected_paths_are_refused() {
    let plan = plan_with(vec![del("/usr", EntryKind::Dir)]);
    let found = check(&plan, &ValidateOptions { allow_outside_root: true, ..offline() });
    assert!(errors(&found).iter().any(|m| m.contains("protected")), "{found:?}");
    // The directory itself is refused, its contents are not.
    let plan = plan_with(vec![del("/usr/local/x", EntryKind::Dir)]);
    let found = check(&plan, &ValidateOptions { allow_outside_root: true, ..offline() });
    assert!(errors(&found).is_empty(), "{found:?}");
}

#[test]
fn the_scan_root_itself_is_refused() {
    let plan = plan_with(vec![del("/data", EntryKind::Dir)]);
    let found = check(&plan, &offline());
    assert!(errors(&found).iter().any(|m| m.contains("scan root")), "{found:?}");
}

#[test]
fn paths_outside_the_scanned_tree_need_permission() {
    let plan = plan_with(vec![del("/elsewhere/junk", EntryKind::File)]);
    assert!(errors(&check(&plan, &offline())).iter().any(|m| m.contains("outside")));

    let allowed = ValidateOptions { allow_outside_root: true, ..offline() };
    assert!(errors(&check(&plan, &allowed)).is_empty());
}

#[test]
fn moving_a_directory_into_itself_is_refused() {
    let plan = plan_with(vec![mv("/data/tree", "/data/tree/inner")]);
    let found = check(&plan, &offline());
    assert!(errors(&found).iter().any(|m| m.contains("inside the directory being moved")));
}

#[test]
fn two_operations_cannot_share_a_destination() {
    let plan = plan_with(vec![mv("/data/a", "/mnt/x"), mv("/data/b", "/mnt/x")]);
    let found = check(&plan, &offline());
    assert!(errors(&found).iter().any(|m| m.contains("already writes")), "{found:?}");
}

#[test]
fn the_same_path_cannot_be_operated_on_twice() {
    let plan = plan_with(vec![del("/data/a", EntryKind::File), mv("/data/a", "/mnt/a")]);
    let found = check(&plan, &offline());
    assert!(errors(&found).iter().any(|m| m.contains("already operated on")), "{found:?}");
}

#[test]
fn nesting_warns_for_deletes_but_blocks_moves() {
    let plan = plan_with(vec![
        del("/data/tree", EntryKind::Dir),
        del("/data/tree/file", EntryKind::File),
    ]);
    let found = check(&plan, &offline());
    assert!(errors(&found).is_empty(), "{found:?}");
    assert!(found.iter().any(|f| f.message.contains("redundant")), "{found:?}");

    let plan = plan_with(vec![del("/data/tree", EntryKind::Dir), mv("/data/tree/f", "/mnt/f")]);
    let found = check(&plan, &offline());
    assert!(errors(&found).iter().any(|m| m.contains("cannot move out of")), "{found:?}");
}

#[test]
fn a_sibling_with_a_shared_prefix_is_not_nested() {
    let plan =
        plan_with(vec![del("/data/tree", EntryKind::Dir), del("/data/tree2", EntryKind::Dir)]);
    let found = check(&plan, &offline());
    assert!(found.iter().all(|f| !f.message.contains("redundant")), "{found:?}");
}

#[test]
fn a_newer_plan_format_is_refused_outright() {
    let mut plan = plan_with(vec![del("/data/a", EntryKind::File)]);
    plan.version = PLAN_VERSION + 1;
    let found = check(&plan, &offline());
    assert_eq!(found.len(), 1, "no other check should run: {found:?}");
    assert!(found[0].message.contains("newer than this build"));
}

#[test]
fn a_plan_from_another_host_is_refused_even_when_the_paths_exist_here() {
    let mut plan = plan_with(vec![del("/data/a", EntryKind::File)]);
    let here = World {
        host: plan.host.clone(),
        looks: vec![as_staged(&plan.ops[0])],
        spaces: Vec::new(),
    };
    assert!(errors(&validate(&plan, &standard(), &here)).is_empty());
    plan.host = "some-other-machine".to_string();
    let found = validate(&plan, &standard(), &here);
    assert!(errors(&found).iter().any(|m| m.contains("some-other-machine")), "{found:?}");
}

#[test]
fn a_missing_source_is_an_error() {
    let plan = plan_with(vec![del("/data/gone", EntryKind::File)]);
    let look = OpLook { source: IdentLook::Gone, ..as_staged(&plan.ops[0]) };
    let found = validate(&plan, &standard(), &world(&plan, vec![look]));
    assert!(errors(&found).iter().any(|m| m.contains("no longer exists")), "{found:?}");
}

#[test]
fn a_source_that_cannot_be_looked_at_is_an_error() {
    let plan = plan_with(vec![del("/data/f", EntryKind::File)]);
    let look = OpLook {
        source: IdentLook::Failed("Permission denied".to_string()),
        ..as_staged(&plan.ops[0])
    };
    let found = validate(&plan, &standard(), &world(&plan, vec![look]));
    assert!(errors(&found).iter().any(|m| m.contains("Permission denied")), "{found:?}");
}

#[test]
fn a_source_that_changed_since_staging_is_an_error() {
    let staged = Ident { size: 100, ..ident(EntryKind::File) };
    let plan = plan_with(vec![Op::Delete {
        path: b"/data/f".to_vec(),
        ident: staged,
        est_bytes: 100,
    }]);
    let same = validate(&plan, &standard(), &world(&plan, vec![as_staged(&plan.ops[0])]));
    assert!(errors(&same).is_empty());

    // Same path, different file.
    let look = OpLook {
        source: IdentLook::Found(Ident { ino: 9, size: 200, ..staged }),
        ..as_staged(&plan.ops[0])
    };
    let found = validate(&plan, &standard(), &world(&plan, vec![look]));
    assert!(errors(&found).iter().any(|m| m.contains("changed since staging")), "{found:?}");
}

#[test]
fn drift_says_what_actually_changed() {
    // Something new in a directory moves its time, and nothing else that is looked at.
    let plan = plan_with(vec![del("/data/tree", EntryKind::Dir)]);
    let was = ident(EntryKind::Dir);
    let look = OpLook {
        source: IdentLook::Found(Ident { mtime: was.mtime + 1, ..was }),
        ..as_staged(&plan.ops[0])
    };
    let found = validate(&plan, &standard(), &world(&plan, vec![look]));
    let messages = errors(&found);
    assert_eq!(messages.len(), 1, "{found:?}");
    assert!(messages[0].contains("changed since staging"), "{found:?}");

    // Only the time moved: naming the size would quote a value against itself.
    let touched = changed_message(&was, &Ident { mtime: 14, ..was });
    assert_eq!(
        touched,
        "changed since staging: modified at 1970-01-01 00:00:14 (was 1970-01-01 00:00:04)"
    );
    let grown = changed_message(&was, &Ident { size: 2048, ..was });
    assert!(grown.contains("3 B") && grown.contains("2.0 KiB"), "{grown}");

    // Whichever detail the message reports, the two values must actually differ.
    let was = Ident { dev: 1, ino: 2, size: 1048576, mtime: 4, kind: EntryKind::File };
    for size in [1048577, 1048575, 2097152, 0] {
        let message = changed_message(&was, &Ident { size, ..was });
        assert!(message.starts_with("changed since staging"), "{message}");
        let (before, after) = message.split_once(" -> ").unwrap();
        // The value before the arrow is the tail of the sentence: take the same number of words
        // the value after it has, in the order they were written.
        let words = after.split_whitespace().count();
        let mut tail: Vec<&str> = before.rsplit(' ').take(words).collect();
        tail.reverse();
        assert_ne!(
            tail.join(" "),
            after.trim(),
            "the message reports a change by quoting a value against itself: {message}"
        );
    }
    assert_eq!(
        changed_message(&was, &Ident { size: 1048577, ..was }),
        "changed since staging: size 1048576 B -> 1048577 B"
    );
}

#[test]
fn an_existing_destination_blocks_a_move() {
    let mut plan = plan_with(vec![mv("/data/src", "/data/dst")]);
    let look = OpLook { dst_exists: true, ..as_staged(&plan.ops[0]) };
    let found = validate(&plan, &standard(), &world(&plan, vec![look.clone()]));
    assert!(errors(&found).iter().any(|m| m.contains("already exists")), "{found:?}");

    // Asking to skip turns it into something to be aware of, not a blocker.
    let Op::Move { on_conflict, .. } = &mut plan.ops[0] else { unreachable!() };
    *on_conflict = Conflict::Skip;
    let found = validate(&plan, &standard(), &world(&plan, vec![look]));
    assert!(errors(&found).is_empty(), "{found:?}");
    assert!(found.iter().any(|f| f.message.contains("will be skipped")));
}

#[test]
fn a_missing_destination_directory_is_an_error() {
    let plan = plan_with(vec![mv("/data/src", "/data/nope/deeper/dst")]);
    let look = OpLook { dst_parent: None, ..as_staged(&plan.ops[0]) };
    let opts = ValidateOptions { allow_outside_root: true, ..standard() };
    let found = validate(&plan, &opts, &world(&plan, vec![look]));
    assert!(errors(&found).iter().any(|m| m.contains("does not exist")), "{found:?}");
}

#[test]
fn a_same_filesystem_move_does_not_claim_space() {
    // Absurdly large: if this were treated as consuming space it would fail the free space
    // check. A rename consumes nothing.
    let op = Op::Move {
        src: b"/data/src".to_vec(),
        dst: b"/data/to/src".to_vec(),
        ident: Ident { size: 4096, ..ident(EntryKind::File) },
        est_bytes: u64::MAX / 2,
        on_conflict: Conflict::Fail,
    };
    let plan = plan_with(vec![op]);
    let mut here = world(&plan, vec![as_staged(&plan.ops[0])]);
    here.spaces = vec![Space { dev: 1, available: 100, reserve: 2 }];
    let found = validate(&plan, &standard(), &here);
    assert!(errors(&found).is_empty(), "{found:?}");
    assert!(
        found.iter().all(|f| !f.message.contains("crosses filesystems")),
        "same-filesystem move should not be reported as a copy: {found:?}"
    );
}

#[test]
fn a_copy_needs_room_and_some_to_spare() {
    let op = Op::Move {
        src: b"/data/src".to_vec(),
        dst: b"/mnt/src".to_vec(),
        ident: ident(EntryKind::File),
        est_bytes: 1000,
        on_conflict: Conflict::Fail,
    };
    let plan = plan_with(vec![op]);
    let look = OpLook {
        dst_parent: Some(Ident { dev: 7, ..ident(EntryKind::Dir) }),
        ..as_staged(&plan.ops[0])
    };
    let mut here = world(&plan, vec![look]);
    here.spaces = vec![Space { dev: 7, available: 1100, reserve: 100 }];
    let found = validate(&plan, &standard(), &here);
    assert!(errors(&found).is_empty(), "{found:?}");
    assert!(found.iter().any(|f| f.message.contains("crosses filesystems")), "{found:?}");

    here.spaces = vec![Space { dev: 7, available: 1100, reserve: 101 }];
    assert_eq!(errors(&validate(&plan, &standard(), &here)).len(), 1);
}

#[test]
fn errors_are_listed_before_warnings() {
    let plan = plan_with(vec![
        del("/data/tree", EntryKind::Dir),
        del("/data/tree/file", EntryKind::File),
        del("/usr", EntryKind::Dir),
    ]);
    let found = check(&plan, &offline());
    let first_warning = found.iter().position(|f| f.severity == Severity::Warning).unwrap();
    assert!(found[first_warning..].iter().all(|f| f.severity == Severity::Warning), "{found:?}");
    assert!(first_warning > 0);
}

fn protecting(protect: &[&str], no_default_protection: bool) -> Config {
    Config {
        safety: SafetyConfig {
            protect: protect.iter().map(|p| p.as_bytes().to_vec()).collect(),
            no_default_protection,
        },
        ..Config::default()
    }
}

#[test]
fn no_file_means_defaults() {
    let config = Config::load_from(b"/c/absent.toml", ConfigFile::Missing).unwrap();
    assert_eq!(config, Config::default());
}

#[test]
fn a_malformed_file_is_an_error_not_a_silent_default() {
    // The important case: a typo in the safety section must stop the program rather than leave
    // the user believing a path is protected when it is not.
    let problem = ConfigFile::Malformed("unknown field `protekt`".to_string());
    let err = Config::load_from(b"/c/config.toml", problem).unwrap_err();
    assert_eq!(err, "/c/config.toml: unknown field `protekt`");

    let broken = "this is not toml at all {{{".parse::<toml::Table>().unwrap_err().to_string();
    assert!(Config::load_from(b"/c/config.toml", ConfigFile::Malformed(broken)).is_err());
    let denied = ConfigFile::Unreadable("Permission denied".to_string());
    assert_eq!(Config::load_from(b"/c", denied), Err("Permission denied".to_string()));
}

#[test]
fn protected_paths_add_to_the_built_in_list() {
    let config = protecting(&["/srv/precious", "/data"], false);
    let protected = config.protected(&Some(b"/home/me".to_vec()));

    assert!(protected.contains(&b"/srv/precious".to_vec()));
    assert!(protected.contains(&b"/data".to_vec()));
    assert!(protected.contains(&b"/usr".to_vec()), "the built-ins should still be there");
    assert!(protected.contains(&b"/home/me".to_vec()));
}

#[test]
fn the_built_in_list_can_be_dropped_deliberately() {
    let protected = protecting(&["/only"], true).protected(&Some(b"/home/me".to_vec()));
    assert_eq!(protected, vec![b"/only".to_vec()]);
}

#[test]
fn duplicates_between_the_lists_appear_once() {
    let protected = protecting(&["/usr", "/usr"], false).protected(&None);
    assert_eq!(protected.iter().filter(|p| p.as_slice() == b"/usr").count(), 1);
    assert!(default_protected(&None).contains(&b"/usr".to_vec()));
}

#[test]
fn the_example_file_parses_and_means_the_defaults() {
    let text = Config::example();
    let table = text.parse::<toml::Table>().unwrap();
    let scan = table["scan"].as_table().unwrap();
    let safety = table["safety"].as_table().unwrap();
    let standard = Config::default();
    assert_eq!(table.len(), 2);
    assert_eq!(scan["exclude"].as_array().unwrap().len(), standard.scan.exclude.len());
    assert_eq!(scan["one_file_system"].as_bool(), Some(standard.scan.one_file_system));
    assert_eq!(scan["treemap"].as_bool(), Some(standard.scan.treemap));
    assert_eq!(scan["apparent"].as_bool(), Some(standard.scan.apparent));
    assert!(!scan.contains_key("threads") && standard.scan.threads.is_none());
    assert_eq!(scan.len(), 4);
    assert_eq!(safety["protect"].as_array().unwrap().len(), standard.safety.protect.len());
    assert_eq!(
        safety["no_default_protection"].as_bool(),
        Some(standard.safety.no_default_protection)
    );
    assert_eq!(safety["headroom"].as_float(), Some(0.02));
    assert_eq!(safety.len(), 3);
}

#[test]
fn the_configuration_is_where_the_platform_keeps_it() {
    let home = Some(b"/home/me".to_vec());
    let asked = Some(b"/tmp/somewhere/config.toml".to_vec());
    assert_eq!(Config::path(&asked, &home, &None, false), asked);
    assert_eq!(
        Config::path(&None, &home, &None, false),
        Some(b"/home/me/.config/ccdu/config.toml".to_vec())
    );
    assert_eq!(
        Config::path(&None, &home, &Some(b"/xdg".to_vec()), false),
        Some(b"/xdg/ccdu/config.toml".to_vec())
    );
}
