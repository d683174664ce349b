use remodeco::execute::{
    command_line, mismatch_answer, mismatch_text, prune_candidates, untrashable_answer, MismatchAction,
    TrashFallbackAction,
};
use remodeco::model::{PlannedKind, PlannedStep};

fn planned(op: PlannedKind, from: &str, to: Option<&str>) -> PlannedStep {
    PlannedStep {
        step_id: "s".into(),
        op,
        from: Some(from.into()),
        to: to.map(str::to_owned),
        id: Some(1),
        fingerprint_from: None,
        dest_parent_ref: None,
        mkdir_path: None,
    }
}

#[test]
fn command_line_uses_rm_mv_cp() {
    assert_eq!(
        command_line(&planned(PlannedKind::Trash, "/a", None)).as_deref(),
        Some("rm /a")
    );
    assert_eq!(
        command_line(&planned(PlannedKind::Commit, "/a", Some("/b"))).as_deref(),
        Some("mv /a /b")
    );
    assert_eq!(
        command_line(&planned(PlannedKind::Copy, "/a", Some("/b"))).as_deref(),
        Some("cp /a /b")
    );
    let mkdir = PlannedStep {
        mkdir_path: Some("/new".into()),
        from: None,
        ..planned(PlannedKind::Mkdir, "", None)
    };
    assert_eq!(command_line(&mkdir).as_deref(), Some("mkdir /new"));
}

#[test]
fn pruning_stops_below_the_root() {
    assert_eq!(
        prune_candidates("/r/a/b/f.txt", "/r"),
        vec!["/r/a/b".to_owned(), "/r/a".to_owned()]
    );
    assert!(prune_candidates("/r/f.txt", "/r").is_empty());
    assert!(prune_candidates("/elsewhere/d/f.txt", "/r").is_empty());
    assert_eq!(prune_candidates("/r/d/f", "/"), vec!["/r/d".to_owned(), "/r".to_owned()]);
}

#[test]
fn typed_answers_pick_the_action() {
    assert_eq!(mismatch_answer("  p\n", false), Some(MismatchAction::Proceed));
    assert_eq!(mismatch_answer("P", true), None);
    assert_eq!(mismatch_answer("skip", true), Some(MismatchAction::Skip));
    assert_eq!(mismatch_answer("A\n", false), Some(MismatchAction::All));
    assert_eq!(mismatch_answer("q", true), Some(MismatchAction::Abort));
    assert_eq!(mismatch_answer("\n", false), None);
    assert_eq!(untrashable_answer("d"), Some(TrashFallbackAction::Delete));
    assert_eq!(untrashable_answer(" S "), Some(TrashFallbackAction::Skip));
    assert_eq!(untrashable_answer("all"), Some(TrashFallbackAction::All));
    assert_eq!(untrashable_answer("Q"), Some(TrashFallbackAction::Abort));
    assert_eq!(untrashable_answer("x"), None);
    assert_eq!(mismatch_text("Move", "/r/a", true), "Move target is missing: /r/a");
    assert_eq!(
        mismatch_text("Copy", "/r/b", false),
        "Copy target has changed since the plan was made: /r/b"
    );
}
