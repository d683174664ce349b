use remodeco::config::PlanFormat;
use remodeco::model::{ManifestEntry, OpKind, SessionMode, SourceFingerprint, SourceKind};
use remodeco::plan::{classify_ops, generate_plan, is_legacy_plan_text, parse_plan, BulletKind};

fn entry(id: u64, from: &str) -> ManifestEntry {
    ManifestEntry {
        id,
        from: from.to_owned(),
        fingerprint: SourceFingerprint {
            kind: SourceKind::File,
            dev: "1".into(),
            ino: id.to_string(),
            size: "0".into(),
            nlink: "1".into(),
            mtime_ns: "0".into(),
            mode: 0o100644,
        },
    }
}

#[test]
fn generated_plan_round_trips_special_characters() {
    let entries = vec![entry(
        1,
        "/tmp/r/You've `made` Announcement: (Lanu) [2CD] 'Stonephace' #1.mp3",
    )];
    let raw = generate_plan("s", "/tmp/r", &entries, 2);
    assert!(raw.contains("F01\t:\t/tmp/r/You've `made`"));
    assert!(raw.contains("# /tmp/r\n"));
    let parsed = parse_plan(&raw).unwrap();
    assert!(parsed.unknown_lines.is_empty());
    assert_eq!(parsed.bullets[0].destination, entries[0].from);
    assert_eq!(parsed.header.unwrap().root, "/tmp/r");
}

#[test]
fn comments_skip_but_comment_text_in_a_path_does_not() {
    let raw = "# F1\t:\t/tmp/skip\nF2\t:\t/tmp/a#b\n";
    let parsed = parse_plan(raw).unwrap();
    assert_eq!(parsed.bullets.len(), 1);
    assert_eq!(parsed.bullets[0].id, 2);
    assert_eq!(parsed.bullets[0].destination, "/tmp/a#b");
}

#[test]
fn missing_tab_colon_tab_is_unknown() {
    let parsed = parse_plan("F1 /tmp/a\nF2:/tmp/b\n").unwrap();
    assert_eq!(parsed.unknown_lines.len(), 2);
}

#[test]
fn parses_legacy_colon_space_entries() {
    let parsed = parse_plan("F1: /tmp/a\nF2:\n").unwrap();
    assert_eq!(parsed.bullets[0].destination, "/tmp/a");
    assert_eq!(parsed.bullets[1].kind, BulletKind::Trash);
    assert!(is_legacy_plan_text("F1: /tmp/a\n"));
    assert!(!is_legacy_plan_text("F1\t:\t/tmp/a\n"));
}

#[test]
fn classifies_noop_move_trash_and_skip() {
    let manifest = vec![
        entry(1, "/tmp/a"),
        entry(2, "/tmp/b"),
        entry(3, "/tmp/c"),
        entry(4, "/tmp/d"),
    ];
    let parsed = parse_plan("F1\t:\t/tmp/a\nF2\t:\t/tmp/x\nF3\t:\t\n").unwrap();
    let (ops, skipped) = classify_ops(&parsed, &manifest, SessionMode::Move).unwrap();
    assert_eq!(
        ops.iter().map(|o| &o.kind).collect::<Vec<_>>(),
        vec![&OpKind::Noop, &OpKind::Move, &OpKind::Trash]
    );
    assert_eq!(skipped, vec![4]);
}

#[test]
fn trash_accepts_colon_only_or_colon_space() {
    let parsed = parse_plan("F1\t:\t\nF2:\nF3: \n").unwrap();
    assert_eq!(parsed.bullets.len(), 3);
    assert!(
        parsed
            .bullets
            .iter()
            .all(|bullet| bullet.kind == BulletKind::Trash)
    );
}

#[test]
fn parses_legacy_markdown_plan() {
    let raw = "---\nremodeco: 1\nid: s\nroot: '/tmp/r'\n---\n\n\
         > Edit the path after `{id}` (the tab) to **rename/move**.\n\
         # /tmp/r\n\n## sub\n- `{01}`\t/tmp/r/You've `made` it.mp3\n";
    assert!(is_legacy_plan_text(raw));
    let parsed = parse_plan(raw).unwrap();
    assert!(parsed.unknown_lines.is_empty());
    assert_eq!(parsed.bullets.len(), 1);
    assert_eq!(parsed.bullets[0].id, 1);
    assert_eq!(parsed.bullets[0].destination, "/tmp/r/You've `made` it.mp3");
}

#[test]
fn unknown_line_numbers_match_the_file() {
    let raw = "# heading\nF1\t:\t/tmp/a\nstale markdown leftover\n";
    let parsed = parse_plan(raw).unwrap();
    assert_eq!(
        parsed.unknown_lines,
        vec![(3, "stale markdown leftover".into())]
    );
}

#[test]
fn generated_plan_starts_with_three_metadata_lines() {
    let entries = vec![entry(1, "/tmp/it's here/a.txt")];
    let raw = generate_plan("s-1", "/tmp/it's here", &entries, 1);
    let lines: Vec<&str> = raw.lines().take(3).collect();
    assert_eq!(lines, vec!["#> remodeco: 1", "#> id: s-1", "#> root: /tmp/it's here"]);
    let header = parse_plan(&raw).unwrap().header.unwrap();
    assert_eq!((header.remodeco, header.id.as_str(), header.root.as_str()), (1, "s-1", "/tmp/it's here"));
}

#[test]
fn plan_hashes_are_sha256_hex() {
    let empty = remodeco::plan::whole_file_hash("");
    assert_eq!(empty, "sha256:e3b0c44298fc1c149afbf4c8996fb92427ae41e4649b934ca495991b7852b855");
    let raw = "#> remodeco: 1\n#> id: s\n#> root: /r\nF1\t:\t/r/a\n";
    assert_eq!(remodeco::plan::body_hash(raw), remodeco::plan::whole_file_hash("F1\t:\t/r/a\n"));
    assert_eq!(
        remodeco::plan::body_hash("---\nid: s\n---\nF1\t:\t/r/a\n"),
        remodeco::plan::whole_file_hash("F1\t:\t/r/a\n")
    );
}

#[test]
fn default_format_writes_plan_properties() {
    assert_eq!(PlanFormat::default(), PlanFormat::Properties);
    assert_eq!(PlanFormat::default().file_name(), "plan.properties");
    assert_eq!(PlanFormat::Yaml.file_name(), "plan.yaml");
    assert_eq!(PlanFormat::PlainText.file_name(), "plan.txt");
    let empty = remodeco::schedule::ScheduleResult::default();
    assert!(empty.steps.is_empty() && empty.errors.is_empty());
}

#[test]
fn rendering_unchanged_destinations_gives_the_generated_plan() {
    let entries = vec![entry(1, "/r/a"), entry(2, "/r/sub/b"), entry(3, "/r/c")];
    let same: std::collections::HashMap<u64, String> =
        entries.iter().map(|e| (e.id, e.from.clone())).collect();
    assert_eq!(
        remodeco::plan::render_plan("s", "/r", &entries, 1, Some(&same)),
        generate_plan("s", "/r", &entries, 1)
    );
    let mut edited = std::collections::HashMap::new();
    edited.insert(2u64, "/r/x".to_owned());
    let raw = remodeco::plan::render_plan("s", "/r", &entries, 1, Some(&edited));
    let entry_lines: Vec<&str> = raw.lines().filter(|l| l.starts_with('F')).collect();
    assert_eq!(entry_lines, vec!["F2\t:\t/r/x"]);
}
