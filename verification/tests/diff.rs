use remodeco::diff::{path_diff, path_diff_inline, tokenize, DiffTag};

#[test]
fn path_segments_are_highlighted_without_losing_text() {
    let (old, new) = path_diff("/music/old name.mp3", "/music/new name.mp3");
    assert_eq!(
        old.iter()
            .map(|part| part.text.as_str())
            .collect::<String>(),
        "/music/old name.mp3"
    );
    assert_eq!(
        new.iter()
            .map(|part| part.text.as_str())
            .collect::<String>(),
        "/music/new name.mp3"
    );
    assert!(
        old.iter()
            .any(|part| part.tag == DiffTag::Delete && part.text == "old")
    );
    assert!(
        new.iter()
            .any(|part| part.tag == DiffTag::Insert && part.text == "new")
    );
}

#[test]
fn tokens_split_at_class_changes() {
    assert_eq!(
        tokenize("/a b/c1.mp3"),
        vec!["/", "a", " ", "b", "/", "c1", ".", "mp3"]
    );
}

#[test]
fn inline_diff_keeps_both_paths() {
    let parts = path_diff_inline("/m/old.mp3", "/m/new.mp3");
    let before: String = parts
        .iter()
        .filter(|p| p.tag != DiffTag::Insert)
        .map(|p| p.text.as_str())
        .collect();
    let after: String = parts
        .iter()
        .filter(|p| p.tag != DiffTag::Delete)
        .map(|p| p.text.as_str())
        .collect();
    assert_eq!(before, "/m/old.mp3");
    assert_eq!(after, "/m/new.mp3");
    assert!(parts.iter().any(|p| p.tag == DiffTag::Delete));
}
