use remodeco::model::{OpKind, Operation};
use remodeco::tui::{
    footer, handle_key, handle_mouse, is_yes, plain_answer, plain_lines, title_text, Confirm, Key,
    KeyPress, LoopAction, Prompt, ViewState, Wheel,
};

fn op(id: u64, kind: OpKind, from: &str, to: &str) -> Operation {
    Operation {
        id,
        from: from.to_owned(),
        to: to.to_owned(),
        kind,
    }
}

fn sample_ops() -> Vec<Operation> {
    vec![
        op(
            1,
            OpKind::Move,
            "/music/_NEW20/old-one.mp3",
            "/music/_NEW20/new-one.mp3",
        ),
        op(
            2,
            OpKind::Move,
            "/music/_NEW20/old-two.mp3",
            "/music/_NEW20/new-two.mp3",
        ),
        op(12, OpKind::Trash, "/music/other/gone.mp3", ""),
    ]
}

fn state_from(operations: Vec<Operation>) -> ViewState {
    let mut state = ViewState::from_plan(operations, None, "/music", 4, true);
    state.preview.set_viewport(10, 40);
    state
}

fn key(code: Key) -> KeyPress {
    KeyPress {
        key: code,
        ctrl: false,
        alt: false,
    }
}

fn ctrl(c: char) -> KeyPress {
    KeyPress {
        key: Key::Char(c),
        ctrl: true,
        alt: false,
    }
}

#[test]
fn g_and_end_jump_the_list() {
    let mut state = state_from(sample_ops());
    state.preview.set_viewport(2, 40);
    assert_eq!(handle_key(key(Key::Char('G')), &mut state), None);
    assert_eq!(
        state.preview.scroll(),
        state.preview.row_count().saturating_sub(2)
    );
    assert_eq!(handle_key(key(Key::Char('g')), &mut state), None);
    assert_eq!(state.preview.scroll(), 0);
    assert_eq!(handle_key(key(Key::End), &mut state), None);
    assert_eq!(
        state.preview.scroll(),
        state.preview.row_count().saturating_sub(2)
    );
    assert_eq!(handle_key(key(Key::Home), &mut state), None);
    assert_eq!(state.preview.scroll(), 0);
}

#[test]
fn ctrl_d_and_u_move_half_page() {
    let mut state = state_from(sample_ops());
    state.preview.set_viewport(2, 40);
    handle_key(ctrl('d'), &mut state);
    assert_eq!(state.preview.scroll(), 1);
    handle_key(ctrl('u'), &mut state);
    assert_eq!(state.preview.scroll(), 0);
}

#[test]
fn slash_starts_search_and_n_walks_matches() {
    let mut state = state_from(sample_ops());
    assert_eq!(handle_key(key(Key::Char('/')), &mut state), None);
    assert_eq!(state.prompt, Prompt::Search);
    handle_key(key(Key::Char('o')), &mut state);
    handle_key(key(Key::Char('l')), &mut state);
    handle_key(key(Key::Char('d')), &mut state);
    assert!(state.preview.match_count() > 0);
    handle_key(key(Key::Enter), &mut state);
    assert_eq!(state.prompt, Prompt::Inactive);
    let first = state.preview.match_index();
    handle_key(key(Key::Char('n')), &mut state);
    assert_ne!(state.preview.match_index(), first);
}

#[test]
fn filter_prompt_hides_non_matching_rows() {
    let mut state = state_from(sample_ops());
    handle_key(key(Key::Char('f')), &mut state);
    for c in ['g', 'o', 'n', 'e'] {
        handle_key(key(Key::Char(c)), &mut state);
    }
    assert_eq!(state.preview.filter(), "gone");
    assert_eq!(state.preview.row_count(), 2);
    handle_key(key(Key::Esc), &mut state);
    assert!(state.preview.filter().is_empty());
    assert_eq!(state.preview.row_count(), 5);
}

#[test]
fn execute_still_sees_unfiltered_trash() {
    let mut state = state_from(sample_ops());
    state.preview.set_filter("old-one".into());
    assert_eq!(state.preview.row_count(), 2);
    assert_eq!(handle_key(key(Key::Char('e')), &mut state), None);
    assert_eq!(state.confirm, Confirm::Trash);
}

#[test]
fn questions_take_y_as_yes_and_anything_else_as_no() {
    let mut state = state_from(sample_ops());
    handle_key(key(Key::Char('e')), &mut state);
    assert_eq!(handle_key(key(Key::Char('Y')), &mut state), Some(LoopAction::Execute));
    assert_eq!(state.confirm, Confirm::Trash);
    assert_eq!(handle_key(key(Key::Char('r')), &mut state), None);
    assert_eq!(state.status, "execution cancelled");
    handle_key(key(Key::Char('r')), &mut state);
    assert_eq!(state.confirm, Confirm::Reset);
    assert_eq!(handle_key(key(Key::Char('n')), &mut state), None);
    assert_eq!(state.confirm, Confirm::Idle);
    assert_eq!(state.status, "reset cancelled");
    assert_eq!(footer(&state), "reset cancelled");
}

#[test]
fn ctrl_c_quits_from_anywhere() {
    let mut state = state_from(sample_ops());
    handle_key(key(Key::Char('/')), &mut state);
    assert_eq!(handle_key(ctrl('c'), &mut state), Some(LoopAction::Cancel));
    assert_eq!(handle_key(key(Key::Char('o')), &mut state), None);
    handle_key(key(Key::Esc), &mut state);
    assert_eq!(handle_key(key(Key::Char('o')), &mut state), Some(LoopAction::OpenEditor));
    assert_eq!(handle_key(key(Key::Char('q')), &mut state), Some(LoopAction::Cancel));
}

#[test]
fn a_plan_error_blocks_execution() {
    let mut state = ViewState::from_plan(Vec::new(), Some("bad".into()), "/music", 1, true);
    assert_eq!(handle_key(key(Key::Char('e')), &mut state), None);
    assert_eq!(state.status, "fix the plan error before executing");
    let mut clean = ViewState::from_plan(Vec::new(), None, "/music", 1, true);
    assert_eq!(handle_key(key(Key::Char('e')), &mut clean), Some(LoopAction::Execute));
}

#[test]
fn the_wheel_scrolls_three_rows() {
    let mut state = state_from(sample_ops());
    state.preview.set_viewport(1, 40);
    handle_mouse(Wheel::Down, &mut state);
    assert_eq!(state.preview.scroll(), 3);
    handle_mouse(Wheel::Up, &mut state);
    assert_eq!(state.preview.scroll(), 0);
}

#[test]
fn footer_counts_lines_filter_and_matches() {
    let mut state = state_from(sample_ops());
    state.preview.set_viewport(2, 200);
    assert_eq!(footer(&state), "line 1–2 / 5");
    state.preview.set_filter("o".into());
    assert_eq!(footer(&state), "line 1–2 / 5  ·  filter o");
    state.preview.set_search("gone".into());
    assert_eq!(footer(&state), "line 4–5 / 5  ·  filter o  ·  match 1 / 1");
    state.preview.set_viewport(2, 10);
    assert_eq!(footer(&state), "line 4–5 / 5  ·  filter o  ·  match 1 / 1  ·  col 1");
}

#[test]
fn title_counts_changes_and_files() {
    assert_eq!(
        title_text("move", "draft", 1, 2),
        "remodeco move · draft · 1 change / 2 files"
    );
    assert_eq!(
        title_text("copy", "executed", 0, 1),
        "remodeco copy · executed · 0 changes / 1 file"
    );
}

#[test]
fn plain_listing_and_answers() {
    let lines = plain_lines(&sample_ops(), 3);
    assert_eq!(
        lines,
        vec![
            "001  /music/_NEW20/old-one.mp3 -> /music/_NEW20/new-one.mp3".to_owned(),
            "002  /music/_NEW20/old-two.mp3 -> /music/_NEW20/new-two.mp3".to_owned(),
            "012  /music/other/gone.mp3".to_owned(),
        ]
    );
    assert_eq!(plain_answer("  e \n"), 'e');
    assert_eq!(plain_answer("\n"), 'c');
    assert!(is_yes(" yes\n"));
    assert!(!is_yes("n\n"));
}

#[test]
fn reloads_and_resets_update_the_view() {
    let mut state = state_from(sample_ops());
    state.preview.set_filter("one".to_owned());
    state.confirm = Confirm::Trash;
    state.show_reloaded_plan(sample_ops()[..2].to_vec(), None, "/music", 4);
    assert_eq!(state.status, "plan reloaded");
    assert_eq!(state.confirm, Confirm::Idle);
    assert_eq!(state.operations.len(), 2);
    assert_eq!(state.preview.filter(), "one");

    state.confirm = Confirm::Reset;
    state.show_reset_failure("locked");
    assert_eq!(state.status, "reset failed: locked");
    assert_eq!(state.confirm, Confirm::Idle);

    state.prompt = Prompt::Search;
    state.draft = "x".to_owned();
    state.show_reset_plan(sample_ops(), Some("bad".to_owned()), "/music", 4);
    assert_eq!(state.status, "plan reset");
    assert_eq!((state.prompt, state.draft.as_str()), (Prompt::Inactive, ""));
    assert_eq!(state.preview.filter(), "");
    assert_eq!(state.parse_error.as_deref(), Some("bad"));
    assert_eq!(state.operations.len(), 3);
}
