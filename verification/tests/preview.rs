use remodeco::model::{OpKind, Operation};
use remodeco::preview::{
    copy_line, directory_header, highlight_range, line_text, skip_line_chars, Preview, Row, Span,
    SpanStyle,
};

fn op(id: u64, kind: OpKind, from: &str, to: &str) -> Operation {
    Operation {
        id,
        from: from.to_owned(),
        to: to.to_owned(),
        kind,
    }
}

fn sample_ops() -> Vec<Operation> {
    vec![
        op(
            1,
            OpKind::Move,
            "/music/_NEW20/old-one.mp3",
            "/music/_NEW20/new-one.mp3",
        ),
        op(
            2,
            OpKind::Move,
            "/music/_NEW20/old-two.mp3",
            "/music/_NEW20/new-two.mp3",
        ),
        op(12, OpKind::Trash, "/music/other/gone.mp3", ""),
    ]
}

fn sample_preview() -> Preview {
    let mut preview = Preview::from_operations(&sample_ops(), "/music", 4, true);
    preview.set_viewport(10, 40);
    preview
}

/// Every row's line, headers padded to `width`, operations as prepared.
fn all_lines(preview: &Preview, width: u16) -> Vec<Vec<Span>> {
    preview
        .rows
        .iter()
        .map(|row| match row {
            Row::Header { directory, count } => directory_header(directory, *count, width),
            Row::Op(index) => copy_line(&preview.prepared[*index].line),
        })
        .collect()
}

fn span(text: &str, style: SpanStyle) -> Span {
    Span {
        text: text.to_owned(),
        style,
        matched: false,
    }
}

#[test]
fn groups_by_directory_with_padded_ids_and_inline_diff() {
    let preview = sample_preview();
    let lines = all_lines(&preview, 40);
    let text: Vec<String> = lines.iter().map(line_text).collect();
    assert!(text[0].starts_with(" _NEW20 2"));
    assert!(text[1].starts_with(" 0001  "));
    assert!(text[1].contains("old"));
    assert!(text[1].contains("new"));
    assert!(!text[1].contains('\n'));
    assert!(text[2].starts_with(" 0002  "));
    assert!(text[3].starts_with(" other 1"));
    assert_eq!(text[4].trim_start(), "0012  other/gone.mp3");
    assert_eq!(lines.len(), 5);
}

#[test]
fn skips_noop_and_skip_ops() {
    let operations = vec![
        op(1, OpKind::Noop, "/music/a.txt", "/music/a.txt"),
        op(2, OpKind::Skip, "/music/b.txt", "/music/b.txt"),
        op(3, OpKind::Move, "/music/old.txt", "/music/new.txt"),
    ];
    let preview = Preview::from_operations(&operations, "/music", 1, true);
    let lines = all_lines(&preview, 20);
    assert_eq!(lines.len(), 2);
    assert!(line_text(&lines[0]).starts_with(" . 1"));
    assert!(line_text(&lines[1]).contains("old"));
    assert!(line_text(&lines[1]).contains("new"));
}

#[test]
fn filter_keeps_matching_ops_and_headers() {
    let mut preview = sample_preview();
    preview.set_filter("gone".into());
    assert_eq!(preview.row_count(), 2);
    match &preview.rows[0] {
        Row::Header { directory, count } => {
            assert_eq!(directory, "other");
            assert_eq!(*count, 1);
        }
        Row::Op(_) => panic!("expected header"),
    }
    assert!(matches!(preview.rows[1], Row::Op(_)));
}

#[test]
fn search_matches_ids_and_paths() {
    let mut preview = sample_preview();
    preview.set_search("0002".into());
    assert_eq!(preview.match_count(), 1);
    preview.set_search("_new20".into());
    assert!(preview.match_count() >= 2);
}

#[test]
fn viewport_only_materializes_visible_rows() {
    let mut preview = sample_preview();
    preview.set_viewport(2, 40);
    preview.goto_start();
    let lines = preview.visible_lines();
    assert_eq!(lines.len(), 2);
    assert!(line_text(&lines[0]).starts_with(" _NEW20 2"));
    preview.scroll = 3;
    let lines = preview.visible_lines();
    assert_eq!(lines.len(), 2);
    assert!(line_text(&lines[0]).starts_with(" other 1"));
}

#[test]
fn horizontal_skip_drops_leading_chars() {
    let line = vec![span("abcd", SpanStyle::Plain), span("efgh", SpanStyle::Inserted)];
    let skipped = skip_line_chars(line, 5);
    assert_eq!(line_text(&skipped), "fgh");
    assert_eq!(skipped.len(), 1);
    assert_eq!(skipped[0].style, SpanStyle::Inserted);
}

#[test]
fn highlight_splits_span_around_match() {
    let line = vec![
        span("pre", SpanStyle::Plain),
        span("MATCH", SpanStyle::Plain),
        span("post", SpanStyle::Plain),
    ];
    let highlighted = highlight_range(line, 3, 5);
    assert_eq!(line_text(&highlighted), "preMATCHpost");
    assert_eq!(highlighted.len(), 3);
    assert!(highlighted[1].matched);
}

#[test]
fn filter_matches_original_path_not_just_inline_diff() {
    let mut preview = sample_preview();
    preview.set_filter("old-one".into());
    assert_eq!(preview.row_count(), 2);
}

#[test]
fn highlight_cuts_a_span_in_the_middle() {
    let line = vec![span("abcdef", SpanStyle::Plain)];
    let highlighted = highlight_range(line, 2, 2);
    let parts: Vec<(&str, bool)> = highlighted
        .iter()
        .map(|s| (s.text.as_str(), s.matched))
        .collect();
    assert_eq!(parts, vec![("ab", false), ("cd", true), ("ef", false)]);
}

#[test]
fn scrolling_stays_within_the_rows() {
    let mut preview = sample_preview();
    preview.set_viewport(2, 40);
    preview.scroll_lines(100);
    assert_eq!(preview.scroll(), 3);
    preview.scroll_lines(-100);
    assert_eq!(preview.scroll(), 0);
    preview.scroll_pages(1);
    assert_eq!(preview.scroll(), 2);
    preview.goto_end();
    assert_eq!(preview.scroll(), 3);
}

#[test]
fn jumping_between_matches_wraps_around() {
    let mut preview = sample_preview();
    assert_eq!(preview.set_search("_new20".into()), "match 1 / 3");
    assert_eq!(preview.jump_match(true), "match 2 / 3");
    assert_eq!(preview.jump_match(true), "match 3 / 3");
    assert_eq!(preview.jump_match(true), "match 1 / 3");
    assert_eq!(preview.jump_match(false), "match 3 / 3");
    assert_eq!(preview.set_search("nothing-like-this".into()), "no matches");
    assert_eq!(preview.jump_match(true), "no matches");
}
