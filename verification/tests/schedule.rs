//! Schedules of small plans, with the probes a scan of a directory `/t` holding the
//! files `a` and `b` would give.
use remodeco::model::{
    DirectoryIdentity, DirectoryKind, ManifestEntry, OpKind, Operation, PlannedKind, SessionMode,
    SourceFingerprint, SourceKind,
};
use remodeco::schedule::{schedule, stage_path, OpProbe, ParentProbe, PathProbe, ScheduleResult};

fn entry(id: u64, from: &str, size: &str) -> ManifestEntry {
    ManifestEntry {
        id,
        from: from.to_owned(),
        fingerprint: SourceFingerprint {
            kind: SourceKind::File,
            dev: "1".into(),
            ino: id.to_string(),
            size: size.into(),
            nlink: "1".into(),
            mtime_ns: "0".into(),
            mode: 0o100644,
        },
    }
}

fn root_identity() -> DirectoryIdentity {
    DirectoryIdentity { kind: DirectoryKind::Directory, dev: "1".into(), ino: "100".into() }
}

/// A probe of `path` below `/t`, with the directories in `missing` not there yet.
fn probe(path: &str, exists: bool, missing: &[&str]) -> PathProbe {
    PathProbe {
        path: path.to_owned(),
        exists,
        parent: Ok(ParentProbe {
            existing: "/t".into(),
            identity: root_identity(),
            missing: missing.iter().map(|m| (*m).to_owned()).collect(),
            leaf: path.rsplit('/').next().unwrap().to_owned(),
        }),
    }
}

fn move_probe(from: &str, to: &str, dest_exists: bool, missing: &[&str]) -> OpProbe {
    let stage = stage_path(from, "s");
    OpProbe { dest: probe(to, dest_exists, missing), stage: probe(&stage, false, &[]) }
}

fn move_op(id: u64, from: &str, to: &str) -> Operation {
    Operation { id, from: from.into(), to: to.into(), kind: OpKind::Move }
}

fn count(result: &ScheduleResult, op: PlannedKind) -> usize {
    result.steps.iter().filter(|s| s.op == op).count()
}

#[test]
fn new_directory_precedes_commit() {
    let manifest = vec![entry(1, "/t/a", "1")];
    let operations = vec![move_op(1, "/t/a", "/t/nested/b")];
    let probes = vec![move_probe("/t/a", "/t/nested/b", false, &["nested"])];
    let result = schedule(SessionMode::Move, "/t", &manifest, &operations, &probes);
    assert!(result.errors.is_empty(), "{:?}", result.errors);
    assert_eq!(result.steps[0].op, PlannedKind::Mkdir);
    assert_eq!(result.steps[1].op, PlannedKind::Commit);
}

#[test]
fn swap_uses_a_stage() {
    let manifest = vec![entry(1, "/t/a", "1"), entry(2, "/t/b", "1")];
    let operations = vec![move_op(1, "/t/a", "/t/b"), move_op(2, "/t/b", "/t/a")];
    let probes = vec![
        move_probe("/t/a", "/t/b", true, &[]),
        move_probe("/t/b", "/t/a", true, &[]),
    ];
    let result = schedule(SessionMode::Move, "/t", &manifest, &operations, &probes);
    assert!(result.errors.is_empty(), "{:?}", result.errors);
    assert_eq!(count(&result, PlannedKind::Stage), 1);
    assert_eq!(count(&result, PlannedKind::Commit), 2);
}

#[test]
fn changed_fingerprint_still_schedules() {
    // The manifest was taken before `a` changed; scheduling does not look at sources.
    let manifest = vec![entry(1, "/t/a", "1")];
    let operations = vec![move_op(1, "/t/a", "/t/b")];
    let probes = vec![move_probe("/t/a", "/t/b", false, &[])];
    let result = schedule(SessionMode::Move, "/t", &manifest, &operations, &probes);
    assert!(result.errors.is_empty(), "{:?}", result.errors);
    assert_eq!(result.steps.len(), 1);
    assert_eq!(result.steps[0].op, PlannedKind::Commit);
}

#[test]
fn missing_source_still_schedules() {
    let manifest = vec![entry(1, "/t/a", "1")];
    let operations = vec![move_op(1, "/t/a", "/t/b")];
    let probes = vec![move_probe("/t/a", "/t/b", false, &[])];
    let result = schedule(SessionMode::Move, "/t", &manifest, &operations, &probes);
    assert!(result.errors.is_empty(), "{:?}", result.errors);
    assert_eq!(result.steps[0].op, PlannedKind::Commit);
}

#[test]
fn swap_renames_follow_the_greedy_order_and_never_land_on_a_file() {
    let manifest = vec![entry(1, "/t/a", "1"), entry(2, "/t/b", "1")];
    let operations = vec![move_op(1, "/t/a", "/t/b"), move_op(2, "/t/b", "/t/a")];
    let probes = vec![
        move_probe("/t/a", "/t/b", true, &[]),
        move_probe("/t/b", "/t/a", true, &[]),
    ];
    let waiting = probes[0].stage.path.clone();
    let result = schedule(SessionMode::Move, "/t", &manifest, &operations, &probes);
    assert!(result.errors.is_empty(), "{:?}", result.errors);
    let renames: Vec<(PlannedKind, String, String)> = result
        .steps
        .iter()
        .filter(|s| s.op == PlannedKind::Stage || s.op == PlannedKind::Commit)
        .map(|s| (s.op, s.from.clone().unwrap(), s.to.clone().unwrap()))
        .collect();
    assert_eq!(
        renames,
        vec![
            (PlannedKind::Stage, "/t/a".to_owned(), waiting.clone()),
            (PlannedKind::Commit, "/t/b".to_owned(), "/t/a".to_owned()),
            (PlannedKind::Commit, waiting, "/t/b".to_owned()),
        ]
    );
}

#[test]
fn move_schedule_puts_trash_first_commits_each_rename_once_and_plans_directories_before_use() {
    let manifest = vec![entry(1, "/t/a", "1"), entry(2, "/t/b", "1"), entry(3, "/t/c", "1")];
    let operations = vec![
        move_op(1, "/t/a", "/t/sub/x"),
        Operation { id: 3, from: "/t/c".into(), to: String::new(), kind: OpKind::Trash },
        move_op(2, "/t/b", "/t/sub/y"),
        Operation { id: 4, from: "/t/d".into(), to: "/t/d".into(), kind: OpKind::Noop },
    ];
    let probes = vec![
        move_probe("/t/a", "/t/sub/x", false, &["sub"]),
        move_probe("/t/c", "/t/c", true, &[]),
        move_probe("/t/b", "/t/sub/y", false, &["sub"]),
        move_probe("/t/d", "/t/d", true, &[]),
    ];
    let result = schedule(SessionMode::Move, "/t", &manifest, &operations, &probes);
    assert!(result.errors.is_empty(), "{:?}", result.errors);
    assert_eq!(result.steps[0].op, PlannedKind::Trash);
    assert_eq!(result.steps[0].id, Some(3));
    assert!(result.steps[1..].iter().all(|s| s.op != PlannedKind::Trash && s.op != PlannedKind::Copy));
    for (id, to) in [(1u64, "/t/sub/x"), (2u64, "/t/sub/y")] {
        let commits: Vec<&remodeco::model::PlannedStep> =
            result.steps.iter().filter(|s| s.op == PlannedKind::Commit && s.id == Some(id)).collect();
        assert_eq!(commits.len(), 1);
        assert_eq!(commits[0].to.as_deref(), Some(to));
    }
    assert!(result.steps.iter().all(|s| s.id != Some(4)));
    assert_eq!(count(&result, PlannedKind::Mkdir), 1);
    for (t, s) in result.steps.iter().enumerate() {
        if let Some(remodeco::model::DestParentRef::MkdirStep { step_id, .. }) = &s.dest_parent_ref {
            let k = result.steps.iter().position(|x| &x.step_id == step_id).unwrap();
            assert!(k < t);
            assert_eq!(result.steps[k].op, PlannedKind::Mkdir);
        }
    }
}
