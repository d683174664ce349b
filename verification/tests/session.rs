use remodeco::controller::{execution_report, new_journal, new_session, switch_to_copy, undo_report};
use remodeco::model::{
    JournalFinalStatus, JournalMode, ManifestEntry, SessionMode, SessionRecord, SessionStatus,
    SourceFingerprint, SourceKind,
};
use remodeco::store::split_resumable;

fn record(id: &str, status: SessionStatus) -> SessionRecord {
    let entries = vec![ManifestEntry {
        id: 1,
        from: "/r/a".into(),
        fingerprint: SourceFingerprint {
            kind: SourceKind::File,
            dev: "1".into(),
            ino: "1".into(),
            size: "0".into(),
            nlink: "1".into(),
            mtime_ns: "0".into(),
            mode: 0o100644,
        },
    }];
    let mut session = new_session(
        id.into(),
        "/r".into(),
        SessionMode::Move,
        "t".into(),
        "/d/plan.properties".into(),
        "/d/m.json".into(),
        "",
        &entries,
        1,
        0,
        "1.0.0".into(),
    );
    session.status = status;
    session
}

#[test]
fn sessions_mid_undo_are_not_resumed() {
    let (kept, skipped) = split_resumable(vec![
        record("a", SessionStatus::Draft),
        record("b", SessionStatus::Undoing),
        record("c", SessionStatus::ExecuteInterrupted),
        record("d", SessionStatus::UndoInterrupted),
    ]);
    let ids = |v: &Vec<SessionRecord>| v.iter().map(|s| s.id.clone()).collect::<Vec<_>>();
    assert_eq!(ids(&kept), vec!["a", "c"]);
    assert_eq!(ids(&skipped), vec!["b", "d"]);
}

#[test]
fn run_reports_name_the_journal_or_the_first_error() {
    let mut journal = new_journal(vec![], JournalMode::Execute, None, "h".into(), 1, SessionMode::Move);
    journal.final_status = Some(JournalFinalStatus::Executed);
    assert_eq!(execution_report(&journal), Ok(format!("executed {}", journal.journal_id)));
    journal.final_status = None;
    assert_eq!(
        execution_report(&journal),
        Err("execution interrupted: unknown failure".to_owned())
    );
    journal.final_status = Some(JournalFinalStatus::Undone);
    assert_eq!(undo_report(&journal), Ok(format!("undone {}", journal.journal_id)));
    journal.final_status = None;
    assert_eq!(undo_report(&journal), Err(format!("undo interrupted {}", journal.journal_id)));
}

#[test]
fn copy_is_switched_on_only_at_a_terminal() {
    let mut session = record("a", SessionStatus::Draft);
    let revision = session.revision;
    assert_eq!(
        switch_to_copy(&mut session, true, false),
        Err("--copy does not match stored session mode".to_owned())
    );
    assert_eq!(session.mode, SessionMode::Move);
    assert_eq!(switch_to_copy(&mut session, false, true), Ok(false));
    assert_eq!(switch_to_copy(&mut session, true, true), Ok(true));
    assert_eq!((session.mode, session.revision), (SessionMode::Copy, revision + 1));
    assert_eq!(switch_to_copy(&mut session, true, false), Ok(false));
}
