use remodeco::controller::{apply_hashes, check_execute, expected, inverse_steps, new_journal, new_session};
use remodeco::hashing::{random_hex, sha256_hex};
use remodeco::model::{DirectoryIdentity, DirectoryKind, Journal, JournalMode, ManifestEntry, OpKind, Operation, PlannedKind, PlannedStep, StepState, SessionMode, SessionStatus, SourceFingerprint, SourceKind};
use remodeco::ordering::{order_moves, MoveAction, MoveRequest};
use remodeco::plan::{classify_ops, generate_plan, parse_plan, whole_file_hash};
use remodeco::schedule::{schedule, OpProbe, ParentProbe, PathProbe};
use remodeco::store::make_session_id;
use remodeco::trash::{
    encode_trash_path, linux_trash_location, trash_info_body, trash_key, trash_name,
    trash_path_field, TrashKind, TrashLocation,
};

fn entry(id: u64, from: &str) -> ManifestEntry {
    ManifestEntry {
        id,
        from: from.to_owned(),
        fingerprint: SourceFingerprint {
            kind: SourceKind::File,
            dev: "1".into(),
            ino: id.to_string(),
            size: "0".into(),
            nlink: "1".into(),
            mtime_ns: "0".into(),
            mode: 0o100644,
        },
    }
}

fn session(plan: &str) -> remodeco::model::SessionRecord {
    let entries = vec![entry(1, "/r/a")];
    new_session(
        "s".into(),
        "/r".into(),
        SessionMode::Move,
        "t".into(),
        "/d/plan.properties".into(),
        "/d/m.json".into(),
        plan,
        &entries,
        1,
        0,
        "1.0.0".into(),
    )
}

#[test]
fn an_unchanged_generated_plan_asks_for_nothing() {
    let entries = vec![entry(1, "/r/a b.txt"), entry(2, "/r/sub/c'd.txt"), entry(3, "/r/x.txt")];
    let raw = generate_plan("2026-s", "/r", &entries, 1);
    let parsed = parse_plan(&raw).unwrap();
    let header = parsed.header.clone().unwrap();
    assert_eq!((header.remodeco, header.id.as_str(), header.root.as_str()), (1, "2026-s", "/r"));
    assert!(parsed.unknown_lines.is_empty());
    let (ops, skipped) = classify_ops(&parsed, &entries, SessionMode::Move).unwrap();
    assert_eq!(ops.len(), 3);
    assert!(ops.iter().all(|o| o.kind == OpKind::Noop));
    assert!(skipped.is_empty());
}

#[test]
fn a_confirmation_is_refused_after_a_plan_edit() {
    let mut s = session("F1\t:\t/r/a\n");
    assert_eq!(s.status, SessionStatus::Draft);
    assert_eq!(s.revision, 1);
    let e = expected(&s);
    assert_eq!(check_execute(&s, &e), Ok(()));
    let edited = "F1\t:\t/r/b\n";
    let changed = apply_hashes(
        &mut s,
        whole_file_hash(edited),
        remodeco::plan::body_hash(edited),
    );
    assert!(changed);
    assert_eq!(s.revision, 2);
    assert_eq!(
        check_execute(&s, &e),
        Err("session changed since confirmation; reload".to_owned())
    );
    let again = apply_hashes(&mut s, whole_file_hash(edited), remodeco::plan::body_hash(edited));
    assert!(!again);
    assert_eq!(s.revision, 2);
}

#[test]
fn hashes_are_prefixed_sha256_hex() {
    assert_eq!(
        sha256_hex(b"abc"),
        "sha256:ba7816bf8f01cfea414140de5dae2223b00361a396177a9cb410ff61f20015ad"
    );
    assert_ne!(whole_file_hash("a"), whole_file_hash("b"));
    let h = random_hex(8);
    assert_eq!(h.len(), 16);
    assert!(h.chars().all(|c| c.is_ascii_hexdigit() && !c.is_ascii_uppercase()));
    let id = make_session_id("20260101T000000", "/home/me/My Pics");
    assert!(id.starts_with("20260101T000000-"));
    assert_eq!(id.len(), "20260101T000000-".len() + "My-Pics".len() + 5);
}

#[test]
fn a_swap_goes_through_a_stage() {
    let reqs = vec![
        MoveRequest { id: 1, from: "/r/a".into(), to: "/r/b".into(), temp: "/r/.a.t".into() },
        MoveRequest { id: 2, from: "/r/b".into(), to: "/r/a".into(), temp: "/r/.b.t".into() },
    ];
    let order = order_moves(&reqs);
    assert_eq!(order.stuck, None);
    assert!(matches!(order.actions[0], MoveAction::Stage(_)));
    let commits = order
        .actions
        .iter()
        .filter(|a| matches!(a, MoveAction::Commit(_)))
        .count();
    assert_eq!(commits, 2);
}

#[test]
fn a_chain_commits_from_its_free_end() {
    let reqs = vec![
        MoveRequest { id: 1, from: "/r/a".into(), to: "/r/b".into(), temp: "/r/.a.t".into() },
        MoveRequest { id: 2, from: "/r/b".into(), to: "/r/c".into(), temp: "/r/.b.t".into() },
    ];
    let order = order_moves(&reqs);
    assert_eq!(order.stuck, None);
    assert!(matches!(order.actions[0], MoveAction::Commit(1)));
    assert!(matches!(order.actions[1], MoveAction::Commit(0)));
    assert_eq!(order.actions.len(), 2);
}

#[test]
fn trash_names_keys_and_records() {
    assert_eq!(trash_name("a.txt", 0), "a.txt");
    assert_eq!(trash_name("a.txt", 2), "a.txt.2");
    let home = TrashLocation { root: "/h/.local/share/Trash".into(), kind: TrashKind::Home };
    let key = trash_key(&home, "/r/song.mp3", 1).unwrap();
    assert_eq!(key.files_path, "/h/.local/share/Trash/files/song.mp3.1");
    assert_eq!(key.info_path.as_deref(), Some("/h/.local/share/Trash/info/song.mp3.1.trashinfo"));
    assert_eq!(key.original_path, "/r/song.mp3");
    let mac = TrashLocation { root: "/h/.Trash".into(), kind: TrashKind::Macos };
    let key = trash_key(&mac, "/r/song.mp3", 0).unwrap();
    assert_eq!(key.files_path, "/h/.Trash/song.mp3");
    assert_eq!(key.info_path, None);
    assert!(trash_key(&home, "/", 0).is_none());
    assert_eq!(encode_trash_path("/a b#c/é-_.x"), "/a%20b%23c/%C3%A9-_.x");
    assert_eq!(trash_path_field(TrashKind::Top, "/mnt/d/x y", "/mnt/d"), "x y");
    assert_eq!(trash_path_field(TrashKind::Home, "/mnt/d/x", "/mnt/d"), "/mnt/d/x");
    assert_eq!(
        trash_info_body("x y", "2026-01-02T03:04:05", "j1"),
        "[Trash Info]\nPath=x%20y\nDeletionDate=2026-01-02T03:04:05\nX-Remodeco-Journal=j1\n"
    );
    let loc = linux_trash_location("/h/.local/share", false, "/mnt/d", true, 1000);
    assert_eq!((loc.root.as_str(), loc.kind), ("/mnt/d/.Trash/1000", TrashKind::Top));
    let loc = linux_trash_location("/h/.local/share", false, "/mnt/d", false, 1000);
    assert_eq!(loc.root, "/mnt/d/.Trash-1000");
    let loc = linux_trash_location("/h/.local/share", true, "/mnt/d", false, 1000);
    assert_eq!((loc.root.as_str(), loc.kind), ("/h/.local/share/Trash", TrashKind::Home));
}

fn no_probe() -> PathProbe {
    PathProbe { path: String::new(), exists: false, parent: Err("unused".into()) }
}

#[test]
fn duplicate_destinations_are_refused() {
    let entries = vec![entry(1, "/r/a"), entry(2, "/r/b")];
    let ops = vec![
        Operation { id: 1, from: "/r/a".into(), to: "/r/c".into(), kind: OpKind::Move },
        Operation { id: 2, from: "/r/b".into(), to: "/r/c".into(), kind: OpKind::Move },
    ];
    let probes = vec![
        OpProbe { dest: no_probe(), stage: no_probe() },
        OpProbe { dest: no_probe(), stage: no_probe() },
    ];
    let result = schedule(SessionMode::Move, "/r", &entries, &ops, &probes);
    assert_eq!(result.errors, vec!["duplicate dest /r/c".to_owned()]);
    let copies: Vec<Operation> = ops.into_iter().map(|o| Operation { kind: OpKind::Copy, ..o }).collect();
    let dest = || PathProbe {
        path: "/r/c".into(),
        exists: false,
        parent: Ok(ParentProbe {
            existing: "/r".into(),
            identity: DirectoryIdentity { kind: DirectoryKind::Directory, dev: "1".into(), ino: "2".into() },
            missing: vec![],
            leaf: "c".into(),
        }),
    };
    let probes = vec![
        OpProbe { dest: dest(), stage: no_probe() },
        OpProbe { dest: dest(), stage: no_probe() },
    ];
    let result = schedule(SessionMode::Copy, "/r", &entries, &copies, &probes);
    assert_eq!(result.errors, vec!["duplicate dest /r/c".to_owned()]);
}

fn root_probe(leaf: &str) -> Result<ParentProbe, String> {
    Ok(ParentProbe {
        existing: "/r".into(),
        identity: DirectoryIdentity { kind: DirectoryKind::Directory, dev: "1".into(), ino: "2".into() },
        missing: vec![],
        leaf: leaf.into(),
    })
}

fn done_step(op: PlannedKind, from: &str, to: &str, id: u64) -> PlannedStep {
    PlannedStep {
        step_id: format!("s{id}"),
        op,
        from: Some(from.into()),
        to: Some(to.into()),
        id: Some(id),
        fingerprint_from: Some(entry(id, from).fingerprint),
        dest_parent_ref: None,
        mkdir_path: None,
    }
}

#[test]
fn undo_takes_back_renames_and_copies() {
    let mut journal = new_journal(
        vec![
            done_step(PlannedKind::Commit, "/r/a", "/r/b", 1),
            done_step(PlannedKind::Copy, "/r/c", "/r/d", 2),
        ],
        JournalMode::Execute,
        None,
        "h".into(),
        1,
        SessionMode::Move,
    );
    for step in journal.steps.iter_mut() {
        step.state = StepState::Committed;
        step.fingerprint_to = Some(entry(9, "/r/x").fingerprint);
    }
    let undo = inverse_steps(&journal, &vec![root_probe("a"), root_probe("c")]).unwrap();
    let summary: Vec<(PlannedKind, Option<String>, Option<String>)> =
        undo.iter().map(|s| (s.op, s.from.clone(), s.to.clone())).collect();
    assert_eq!(
        summary,
        vec![
            (PlannedKind::Trash, Some("/r/d".to_owned()), None),
            (PlannedKind::Commit, Some("/r/b".to_owned()), Some("/r/a".to_owned())),
        ]
    );
}

#[test]
fn editing_a_destination_keeps_the_recorded_source() {
    let entries = vec![entry(1, "/r/a"), entry(2, "/r/b")];
    let raw = generate_plan("s", "/r", &entries, 1).replace("F1\t:\t/r/a", "F1\t:\t/r/b");
    let parsed = parse_plan(&raw).unwrap();
    let (ops, _) = classify_ops(&parsed, &entries, SessionMode::Move).unwrap();
    assert_eq!((ops[0].id, ops[0].from.as_str(), ops[0].to.as_str()), (1, "/r/a", "/r/b"));
    assert_eq!(ops[0].kind, OpKind::Move);
    assert_eq!((ops[1].from.as_str(), ops[1].kind), ("/r/b", OpKind::Noop));
}
