use remodeco::config::{AppConfig, EditorCommand, EditorMode, PlanFormat};
use remodeco::editor::{
    basename, is_headless_remote, multiplexer_command, resolve_editor, EditorError, EditorKind,
};

fn config(editor: Option<EditorCommand>, mode: EditorMode) -> AppConfig {
    AppConfig {
        editor,
        editor_mode: mode,
        exclude: vec![],
        include_hidden: false,
        recursive: true,
        open_editor: true,
        plan_format: PlanFormat::Properties,
    }
}

#[test]
fn shell_words_keep_quoted_editor_arguments() {
    let config = config(
        Some(EditorCommand::String("nvim -c 'set number'".into())),
        EditorMode::Tty,
    );
    let editor = resolve_editor(&config, &None, &None, false, &vec![])
        .unwrap_or_else(|_| panic!("the command splits"))
        .unwrap();
    assert_eq!(editor.argv, vec!["nvim", "-c", "set number"]);
}

#[test]
fn variables_and_fallbacks_pick_the_editor() {
    let auto = config(None, EditorMode::Auto);
    let found = vec!["vi".to_owned(), "code".to_owned()];
    let visual = Some("subl -w".to_owned());
    let e = resolve_editor(&auto, &visual, &None, false, &found)
        .unwrap_or_else(|_| panic!("splits"))
        .unwrap();
    assert_eq!(e.argv, vec!["subl", "-w"]);
    assert_eq!(e.kind, EditorKind::Gui);
    // Over SSH, a windowed editor that the configuration did not name runs in the terminal.
    let e = resolve_editor(&auto, &visual, &None, true, &found)
        .unwrap_or_else(|_| panic!("splits"))
        .unwrap();
    assert_eq!(e.kind, EditorKind::Tty);
    // Nothing configured: a windowed editor found on the path, unless remote.
    let e = resolve_editor(&auto, &None, &None, false, &found)
        .unwrap_or_else(|_| panic!("splits"))
        .unwrap();
    assert_eq!(e.argv, vec!["code"]);
    let e = resolve_editor(&auto, &None, &None, true, &found)
        .unwrap_or_else(|_| panic!("splits"))
        .unwrap();
    assert_eq!(e.argv, vec!["vi"]);
    assert_eq!(e.kind, EditorKind::Tty);
    assert!(resolve_editor(&auto, &None, &None, true, &vec![])
        .unwrap_or_else(|_| panic!("splits"))
        .is_none());
}

#[test]
fn broken_quoting_is_reported_by_source() {
    let auto = config(None, EditorMode::Auto);
    match resolve_editor(&auto, &None, &Some("vim 'open".to_owned()), false, &vec![]) {
        Err(e) => {
            assert_eq!(e, EditorError::Editor);
            assert_eq!(e.message(), "invalid EDITOR");
        }
        Ok(_) => panic!("accepted broken quoting"),
    }
    let line = config(Some(EditorCommand::String("\"x".into())), EditorMode::Auto);
    match resolve_editor(&line, &None, &None, false, &vec![]) {
        Err(e) => assert_eq!(e.message(), "invalid editor command"),
        Ok(_) => panic!("accepted broken quoting"),
    }
}

#[test]
fn remote_sessions_and_multiplexers() {
    assert!(is_headless_remote(true, None));
    assert!(!is_headless_remote(true, Some("vscode")));
    assert!(!is_headless_remote(false, None));
    assert_eq!(
        multiplexer_command(false, true, true, false),
        Some(vec![
            "zellij".to_owned(),
            "action".to_owned(),
            "new-pane".to_owned(),
            "--".to_owned()
        ])
    );
    assert_eq!(multiplexer_command(false, false, false, false), None);
    assert_eq!(basename("/usr/bin/nvim"), "nvim");
}
