//! Journal runs driven through the library's state machine, with the filesystem's and
//! the user's answers scripted.
use remodeco::controller::{finish_execution, new_journal, new_session, start_execution};
use remodeco::execute::{
    advance, JournalRun, MismatchAction, RunAction, RunEvent, SourceStatus, TrashFallbackAction,
};
use remodeco::model::{
    Journal, JournalFinalStatus, JournalMode, ManifestEntry, PlannedKind, PlannedStep, SessionMode,
    SessionRecord, SessionStatus, SourceFingerprint, SourceKind, StepState,
};

fn fingerprint() -> SourceFingerprint {
    SourceFingerprint {
        kind: SourceKind::File,
        dev: "1".into(),
        ino: "2".into(),
        size: "3".into(),
        nlink: "1".into(),
        mtime_ns: "0".into(),
        mode: 0o100644,
    }
}

fn step(id: u64, op: PlannedKind, from: &str, to: Option<&str>) -> PlannedStep {
    PlannedStep {
        step_id: format!("s{id}"),
        op,
        from: Some(from.into()),
        to: to.map(str::to_owned),
        id: Some(id),
        fingerprint_from: Some(fingerprint()),
        dest_parent_ref: None,
        mkdir_path: None,
    }
}

fn journal(steps: Vec<PlannedStep>) -> Journal {
    new_journal(steps, JournalMode::Execute, None, "h".into(), 1, SessionMode::Move)
}

fn two_renames() -> Journal {
    journal(vec![
        step(1, PlannedKind::Commit, "/r/a", Some("/r/a-to")),
        step(2, PlannedKind::Commit, "/r/b", Some("/r/b-to")),
    ])
}

fn trashes(n: u64) -> Journal {
    journal((1..=n).map(|id| step(id, PlannedKind::Trash, &format!("/r/t{id}"), None)).collect())
}

/// What the filesystem and the user answer, and what the run asked for.
struct Script {
    changed: Vec<bool>,
    missing: Vec<bool>,
    trash_available: bool,
    choice: MismatchAction,
    trash_choice: TrashFallbackAction,
    prompts: usize,
    trash_prompts: usize,
    commands: Vec<String>,
    applied: Vec<(usize, bool)>,
}

impl Script {
    fn new(n: usize) -> Self {
        Script {
            changed: vec![false; n],
            missing: vec![false; n],
            trash_available: true,
            choice: MismatchAction::Abort,
            trash_choice: TrashFallbackAction::Abort,
            prompts: 0,
            trash_prompts: 0,
            commands: Vec::new(),
            applied: Vec::new(),
        }
    }

    fn run(&mut self, journal: &mut Journal) {
        let mut run = JournalRun::new();
        let mut event = RunEvent::Next;
        loop {
            let decision = advance(&mut run, journal, event);
            event = match decision.action {
                RunAction::Reconcile { .. } => RunEvent::Reconciled(None),
                RunAction::CheckSource { index, .. } => RunEvent::Source(if self.missing[index] {
                    SourceStatus::Missing
                } else if self.changed[index] {
                    SourceStatus::Changed
                } else {
                    SourceStatus::Unchanged
                }),
                RunAction::AskMismatch { .. } => {
                    self.prompts += 1;
                    RunEvent::Mismatch(self.choice)
                }
                RunAction::LocateTrash { .. } => RunEvent::TrashLocated(if self.trash_available {
                    None
                } else {
                    Some("no safe trash".into())
                }),
                RunAction::AskUnsafeTrash { .. } => {
                    self.trash_prompts += 1;
                    RunEvent::TrashChoice(self.trash_choice)
                }
                RunAction::Apply { index, command, permanent_delete, .. } => {
                    // The step is recorded in progress, and written, before it is applied.
                    assert!(decision.write);
                    assert_eq!(journal.steps[index].state, StepState::InProgress);
                    self.commands.extend(command);
                    self.applied.push((index, permanent_delete));
                    RunEvent::Applied(None)
                }
                RunAction::Prune { .. } => RunEvent::Next,
                RunAction::Finished | RunAction::Stopped => return,
                RunAction::Fail { message } => panic!("{message}"),
            };
        }
    }
}

fn skipped(journal: &Journal) -> usize {
    journal.steps.iter().filter(|s| s.state == StepState::Skipped).count()
}

#[test]
fn skip_leaves_changed_file_and_continues() {
    let mut j = two_renames();
    let mut script = Script { choice: MismatchAction::Skip, ..Script::new(2) };
    script.changed[1] = true;
    script.run(&mut j);
    assert_eq!(j.final_status, Some(JournalFinalStatus::Executed));
    assert_eq!(script.applied, vec![(0, false)]);
    assert_eq!(j.steps[1].state, StepState::Skipped);
    assert!(script.commands.iter().any(|line| line.starts_with("mv ")));
}

#[test]
fn abort_stops_before_the_changed_file() {
    let mut j = two_renames();
    let mut script = Script { choice: MismatchAction::Abort, ..Script::new(2) };
    script.changed[0] = true;
    script.run(&mut j);
    assert_ne!(j.final_status, Some(JournalFinalStatus::Executed));
    assert!(script.applied.is_empty());
    assert!(j.steps.iter().any(|s| s.error.as_deref() == Some("aborted")));
    // The session the run belongs to is left interrupted.
    let mut session = session_for(&j);
    start_execution(&mut session, &j.journal_id);
    finish_execution(&mut session, &j);
    assert_eq!(session.status, SessionStatus::ExecuteInterrupted);
    assert_eq!(session.active_journal_id.as_deref(), Some(j.journal_id.as_str()));
}

fn session_for(j: &Journal) -> SessionRecord {
    let entries = vec![ManifestEntry { id: 1, from: "/r/a".into(), fingerprint: fingerprint() }];
    new_session(
        "s".into(),
        "/r".into(),
        SessionMode::Move,
        "t".into(),
        "/d/plan.properties".into(),
        "/d/m.json".into(),
        &j.expected_plan_hash,
        &entries,
        1,
        0,
        "1.0.0".into(),
    )
}

#[test]
fn proceed_renames_the_changed_file() {
    let mut j = two_renames();
    let mut script = Script { choice: MismatchAction::Proceed, ..Script::new(2) };
    script.changed[1] = true;
    script.run(&mut j);
    assert_eq!(j.final_status, Some(JournalFinalStatus::Executed));
    assert_eq!(script.applied, vec![(0, false), (1, false)]);
    assert_eq!(script.commands.len(), 2);
}

#[test]
fn all_proceeds_remaining_changed_files() {
    let mut j = two_renames();
    let mut script = Script { choice: MismatchAction::All, changed: vec![true, true], ..Script::new(2) };
    script.run(&mut j);
    assert_eq!(j.final_status, Some(JournalFinalStatus::Executed));
    assert_eq!(script.prompts, 1);
    assert_eq!(script.applied, vec![(0, false), (1, false)]);
}

#[test]
fn skip_leaves_missing_file_and_continues() {
    let mut j = two_renames();
    let mut script = Script { choice: MismatchAction::Skip, ..Script::new(2) };
    script.missing[1] = true;
    script.run(&mut j);
    assert_eq!(j.final_status, Some(JournalFinalStatus::Executed));
    assert_eq!(script.applied, vec![(0, false)]);
    assert_eq!(script.prompts, 1);
}

#[test]
fn all_skips_remaining_missing_files() {
    let mut j = two_renames();
    let mut script = Script { choice: MismatchAction::All, missing: vec![true, true], ..Script::new(2) };
    script.run(&mut j);
    assert_eq!(j.final_status, Some(JournalFinalStatus::Executed));
    assert_eq!(script.prompts, 1);
    assert!(script.applied.is_empty());
    assert!(skipped(&j) >= 2);
}

#[test]
fn unsafe_trash_can_permanently_delete() {
    let mut j = trashes(1);
    let mut script = Script {
        trash_available: false,
        trash_choice: TrashFallbackAction::Delete,
        ..Script::new(1)
    };
    script.run(&mut j);
    assert_eq!(j.final_status, Some(JournalFinalStatus::Executed));
    assert_eq!(script.trash_prompts, 1);
    assert_eq!(script.applied, vec![(0, true)]);
}

#[test]
fn unsafe_trash_skip_keeps_the_file() {
    let mut j = trashes(1);
    let mut script = Script {
        trash_available: false,
        trash_choice: TrashFallbackAction::Skip,
        ..Script::new(1)
    };
    script.run(&mut j);
    assert_eq!(j.final_status, Some(JournalFinalStatus::Executed));
    assert!(script.applied.is_empty());
    assert_eq!(skipped(&j), 1);
}

#[test]
fn unsafe_trash_all_deletes_remaining() {
    let mut j = trashes(2);
    let mut script = Script {
        trash_available: false,
        trash_choice: TrashFallbackAction::All,
        ..Script::new(2)
    };
    script.run(&mut j);
    assert_eq!(j.final_status, Some(JournalFinalStatus::Executed));
    assert_eq!(script.trash_prompts, 1);
    assert_eq!(script.applied, vec![(0, true), (1, true)]);
    assert!(j.steps.iter().all(|s| s.state == StepState::Committed));
}

#[test]
fn a_finished_journal_is_not_applied_again() {
    let mut j = two_renames();
    for s in j.steps.iter_mut() {
        s.state = StepState::Committed;
    }
    j.steps[1].state = StepState::Skipped;
    let mut script = Script { choice: MismatchAction::Proceed, ..Script::new(2) };
    script.run(&mut j);
    assert_eq!(j.final_status, Some(JournalFinalStatus::Executed));
    assert!(script.applied.is_empty() && script.commands.is_empty());
    assert_eq!((script.prompts, script.trash_prompts), (0, 0));
    assert_eq!((j.steps[0].state, j.steps[1].state), (StepState::Committed, StepState::Skipped));
}
