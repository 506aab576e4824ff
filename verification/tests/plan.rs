use std::collections::BTreeMap;

use ccdu::path::path_starts_with;
use ccdu::plan::path_repr::{deserialize, from_hex, read_map, serialize, to_hex, PathError, PathRepr};
use ccdu::plan::store::{list, state_dir, Store};
use ccdu::plan::{civil, id_for, new_id, Conflict, EntryKind, Ident, Op, Plan};
use ccdu::stat::Stat;

fn ident(kind: EntryKind) -> Ident {
    Ident { dev: 66306, ino: 42, size: 10, mtime: 1_700_000_000, kind }
}

fn del(path: &str, kind: EntryKind) -> Op {
    Op::Delete { path: path.as_bytes().to_vec(), ident: ident(kind), est_bytes: 100 }
}

fn plan_at(root: &str) -> Plan {
    Plan::new(root.as_bytes().to_vec())
}

#[test]
fn ids_are_sortable_and_distinct() {
    let a = new_id();
    let b = new_id();
    assert_ne!(a, b, "two plans in the same second collided");
    assert_eq!(a.len(), 24);
    assert!(a.starts_with("20"), "{a}");
}

#[test]
fn an_id_spells_out_the_time_and_the_salt() {
    assert_eq!(id_for(1_000_000_000, 0xcafe_0002), "20010909T014640-cafe0002");
    assert_eq!(civil(951_782_400), (2000, 2, 29, 0, 0, 0));
    assert_eq!(civil(-1), (1969, 12, 31, 23, 59, 59));
    // Chronological, across every kind of boundary, whatever the salt.
    let times = [0, 1, 59, 60, 86_399, 86_400, 951_782_399, 951_782_400, 1_000_000_000, 253_402_300_799];
    for pair in times.windows(2) {
        let (a, b) = (id_for(pair[0], u32::MAX), id_for(pair[1], 0));
        assert!(a < b, "{a} does not sort before {b}");
    }
}

#[test]
fn normalize_drops_entries_inside_a_deleted_directory() {
    let mut plan = plan_at("/data");
    plan.ops = vec![
        del("/data/cache", EntryKind::Dir),
        del("/data/cache/a.bin", EntryKind::File),
        del("/data/cache/sub", EntryKind::Dir),
        del("/data/keep.bin", EntryKind::File),
    ];
    assert_eq!(plan.normalize(), 2);
    assert_eq!(plan.ops.len(), 2);
    assert_eq!(plan.ops[0].source(), b"/data/cache");
    assert_eq!(plan.ops[1].source(), b"/data/keep.bin");
    // There is nothing left to drop.
    assert_eq!(plan.normalize(), 0);
}

#[test]
fn normalize_does_not_confuse_sibling_prefixes() {
    let mut plan = plan_at("/data");
    // "/data/cache2" starts with the string "/data/cache" but is not inside it.
    plan.ops = vec![del("/data/cache", EntryKind::Dir), del("/data/cache2", EntryKind::Dir)];
    assert_eq!(plan.normalize(), 0);
}

#[test]
fn normalize_keeps_moves_out_of_deleted_trees_but_drops_ones_inside() {
    let mut plan = plan_at("/data");
    plan.ops = vec![
        del("/data/old", EntryKind::Dir),
        Op::Move {
            src: b"/data/old/keepme".to_vec(),
            dst: b"/mnt/big/keepme".to_vec(),
            ident: ident(EntryKind::File),
            est_bytes: 5,
            on_conflict: Conflict::Fail,
        },
    ];
    // Moving something out of a directory that is about to be deleted is contradictory; the
    // delete wins because it is the coarser statement of intent.
    assert_eq!(plan.normalize(), 1);
    assert!(plan.ops[0].is_delete());
}

#[test]
fn totals_split_deletes_from_moves() {
    let mut plan = plan_at("/data");
    plan.ops = vec![
        del("/data/a", EntryKind::File),
        Op::Move {
            src: b"/data/b".to_vec(),
            dst: b"/mnt/b".to_vec(),
            ident: ident(EntryKind::File),
            est_bytes: 250,
            on_conflict: Conflict::Fail,
        },
    ];
    assert_eq!(plan.delete_bytes(), 100);
    assert_eq!(plan.move_bytes(), 250);
    assert!(plan.can_total());
    let mut huge = del("/data/c", EntryKind::File);
    let Op::Delete { est_bytes, .. } = &mut huge else { unreachable!() };
    *est_bytes = u64::MAX - 100;
    plan.ops.push(huge);
    assert!(plan.can_total());
    assert_eq!(plan.delete_bytes(), u64::MAX);
    plan.ops.push(del("/data/d", EntryKind::File));
    assert!(!plan.can_total(), "the deletions come to more than can be counted");
    plan.ops.pop();
    assert_eq!(plan.ops[0].summary(), "delete /data/a");
    assert_eq!(plan.ops[1].summary(), "move   /data/b -> /mnt/b");
}

#[test]
fn a_plan_belongs_to_a_host() {
    assert!(!plan_at("/data").host.is_empty());
    assert_eq!(Plan::for_host(b"/data".to_vec(), "box".to_string()).host, "box");
}

#[test]
fn an_identity_is_read_off_a_stat() {
    let stat =
        Stat { dev: 1, ino: 2, size: 1234, mtime: 5, mode: 0o120777, blocks: 8, nlink: 1 };
    assert_eq!(
        Ident::of(&stat),
        Ident { dev: 1, ino: 2, size: 1234, mtime: 5, kind: EntryKind::Symlink }
    );
    assert_eq!(Ident::of(&Stat { mode: 0o100644, ..stat }).kind, EntryKind::File);
    assert_eq!(Ident::of(&Stat { mode: 0o040755, ..stat }).kind, EntryKind::Dir);
    assert_eq!(Ident::of(&Stat { mode: 0o010644, ..stat }).kind, EntryKind::Other);
    assert_eq!(stat.disk(), 4096);
}

#[test]
fn ordinary_paths_stay_readable() {
    let text = serialize(b"/data/some file.txt");
    assert_eq!(text, PathRepr::Text("/data/some file.txt".to_string()));
    assert_eq!(deserialize(&text), Ok(b"/data/some file.txt".to_vec()));
}

#[test]
fn non_utf8_paths_survive_the_round_trip() {
    // A lone 0xFF byte: a perfectly legal filename that is not valid UTF-8.
    let path = b"/data/broken\xffname".to_vec();
    let repr = serialize(&path);
    let PathRepr::Hex(digits) = &repr else { panic!("{repr:?}") };
    assert_eq!(digits, "2f646174612f62726f6b656eff6e616d65");
    assert_eq!(
        deserialize(&repr).as_ref(),
        Ok(&path),
        "a name we cannot print must still be a name we can delete"
    );
    let table = vec![("hex".to_string(), digits.clone())];
    assert_eq!(read_map(&table), Ok(b"/data/broken\xffname".to_vec()));
}

#[test]
fn malformed_hex_is_rejected_rather_than_guessed() {
    let entry = |k: &str, v: &str| vec![(k.to_string(), v.to_string())];
    assert_eq!(read_map(&entry("hex", "zz")), Err(PathError::Malformed("malformed hex path: \"zz\"".to_string())));
    assert!(matches!(read_map(&entry("hex", "abc")), Err(PathError::Malformed(_))));
    assert!(matches!(read_map(&entry("other", "2f")), Err(PathError::Unknown(_))));
    assert_eq!(read_map(&Vec::new()), Err(PathError::Missing));
    assert_eq!(read_map(&entry("hex", "2f61")), Ok(b"/a".to_vec()));
}

#[test]
fn hex_helpers_are_inverses() {
    let bytes: Vec<u8> = (0..=255u8).collect();
    assert_eq!(from_hex(&to_hex(&bytes)).unwrap(), bytes);
}

fn store() -> Store {
    Store::at(b"/state/plans".to_vec())
}

fn sample(root: &str) -> Plan {
    let mut plan = plan_at(root);
    plan.ops = vec![Op::Delete {
        path: format!("{root}/junk").into_bytes(),
        ident: Ident { dev: 1, ino: 2, size: 3, mtime: 4, kind: EntryKind::File },
        est_bytes: 4096,
    }];
    plan
}

#[test]
fn different_plans_are_kept_in_different_files() {
    let ids = ["a", "b", "a.b", "ab", "20260101-000000-0001", "\u{e4}"];
    for x in ids {
        for y in ids {
            assert_eq!(store().load(x) == store().load(y), x == y, "{x} and {y}");
        }
    }
}

#[test]
fn a_plan_is_saved_beside_where_it_goes() {
    let plan = sample("/data");
    let (temp, path) = store().save(&plan).unwrap();
    assert_eq!(path, format!("/state/plans/{}/plan.json", plan.id).into_bytes());
    assert_eq!(temp, format!("/state/plans/{}/plan.json.new", plan.id).into_bytes());
    assert_eq!(store().load(&plan.id), Ok(path));
}

/// The files of a store, each a plan whose paths are written down.
#[derive(Default)]
struct Files(BTreeMap<Vec<u8>, (Plan, Vec<PathRepr>)>);

fn paths_of(plan: &mut Plan) -> Vec<&mut Vec<u8>> {
    let mut out = vec![&mut plan.root];
    for op in &mut plan.ops {
        match op {
            Op::Delete { path, .. } => out.push(path),
            Op::Move { src, dst, .. } => out.extend([src, dst]),
        }
    }
    out
}

impl Files {
    fn save(&mut self, store: &Store, plan: &Plan) -> Vec<u8> {
        let (temporary, target) = store.save(plan).unwrap();
        let mut rest = plan.clone();
        let paths = paths_of(&mut rest)
            .into_iter()
            .map(|path| serialize(&std::mem::take(path)))
            .collect();
        self.0.insert(temporary.clone(), (rest, paths));
        let written = self.0.remove(&temporary).unwrap();
        self.0.insert(target.clone(), written);
        target
    }

    fn load(&self, store: &Store, id: &str) -> Option<Plan> {
        let (rest, paths) = self.0.get(&store.load(id).unwrap())?;
        let mut plan = rest.clone();
        for (place, path) in paths_of(&mut plan).into_iter().zip(paths) {
            *place = deserialize(path).unwrap();
        }
        Some(plan)
    }

    fn remove(&mut self, store: &Store, id: &str) {
        let dir = store.remove(id).unwrap();
        self.0.retain(|file, _| !path_starts_with(file, &dir));
    }
}

#[test]
fn saves_and_loads_a_plan() {
    let (store, mut files) = (store(), Files::default());
    let mut plan = sample("/data");
    let path = files.save(&store, &plan);
    assert!(path.ends_with(b"/plan.json"));
    assert_eq!(files.load(&store, &plan.id).unwrap(), plan);

    // Also where a path is no text.
    plan.ops.push(Op::Move {
        src: b"/data/\xff\xfe".to_vec(),
        dst: b"/mnt/\x80".to_vec(),
        ident: ident(EntryKind::Dir),
        est_bytes: 7,
        on_conflict: Conflict::Skip,
    });
    files.save(&store, &plan);
    assert_eq!(files.load(&store, &plan.id).unwrap(), plan);
}

#[test]
fn saving_twice_leaves_no_temporary_behind() {
    let (store, mut files) = (store(), Files::default());
    let mut plan = sample("/data");
    files.save(&store, &plan);
    plan.ops.clear();
    files.save(&store, &plan);

    let dir = store.dir_for(&plan.id).unwrap();
    let names: Vec<Vec<u8>> = files.0.keys().map(|k| k[dir.len() + 1..].to_vec()).collect();
    assert_eq!(names, [b"plan.json".to_vec()]);
    assert!(files.load(&store, &plan.id).unwrap().ops.is_empty());
}

#[test]
fn remove_deletes_the_whole_plan_directory() {
    let (store, mut files) = (store(), Files::default());
    let (plan, kept) = (sample("/data"), sample("/other"));
    files.save(&store, &plan);
    files.remove(&store, &plan.id);
    assert!(files.load(&store, &plan.id).is_none());
    assert!(files.0.is_empty());

    // Another plan stays.
    files.save(&store, &plan);
    files.save(&store, &kept);
    files.remove(&store, &plan.id);
    assert!(files.load(&store, &plan.id).is_none());
    assert_eq!(files.load(&store, &kept.id).unwrap(), kept);
    assert!(store.remove("../evil").is_err());
}

#[test]
fn the_newest_plan_is_listed_first() {
    let mut old = sample("/data/old");
    old.created = 1_000;
    let mut new = sample("/data/new");
    new.created = 2_000;
    let listed = list(&vec![old, new]);
    assert_eq!(listed.len(), 2, "{listed:?}");
    assert_eq!(listed[0].root, b"/data/new");
    assert_eq!(listed[1].root, b"/data/old");
    assert_eq!(listed[0].delete_bytes, 4096);
}

#[test]
fn listing_an_absent_store_is_empty_not_an_error() {
    assert!(list(&Vec::new()).is_empty());
}

#[test]
fn plan_ids_cannot_escape_the_store() {
    let store = store();
    for bad in ["../evil", "a/b", "..", ""] {
        assert!(store.dir_for(bad).is_err(), "accepted {bad:?}");
    }
    assert!(store.dir_for("20260803T201530-3f2a9c1e").is_ok());
    assert_eq!(store.dir_for("a/b"), Err("bad plan id \"a/b\"".to_string()));
}

#[test]
fn state_is_kept_where_the_platform_keeps_it() {
    let home = Some(b"/home/me".to_vec());
    let xdg = Some(b"/xdg".to_vec());
    assert_eq!(state_dir(&Some(b"/asked".to_vec()), &home, &xdg, false), b"/asked");
    assert_eq!(state_dir(&None, &home, &xdg, false), b"/xdg/ccdu");
    assert_eq!(state_dir(&None, &home, &None, false), b"/home/me/.local/state/ccdu");
    assert_eq!(
        state_dir(&None, &home, &None, true),
        b"/home/me/Library/Application Support/ccdu"
    );
}
