use clap::{Arg, ArgAction, Command};
use remodeco::store::parse_session_id;

/// The command line of the tool, with session ids taken through the library's check.
fn cli() -> Command {
    Command::new("remodeco")
        .arg(Arg::new("directory"))
        .arg(Arg::new("copy").long("copy").action(ArgAction::SetTrue))
        .arg(
            Arg::new("session")
                .long("session")
                .value_name("ID")
                .value_parser(parse_session_id),
        )
        .subcommand(Command::new("list"))
        .subcommand(
            Command::new("delete")
                .arg(
                    Arg::new("session_id")
                        .required(true)
                        .value_parser(parse_session_id),
                )
                .arg(Arg::new("force").long("force").action(ArgAction::SetTrue)),
        )
        .subcommand(
            Command::new("execute").arg(
                Arg::new("session_id")
                    .required(true)
                    .value_parser(parse_session_id),
            ),
        )
        .subcommand(
            Command::new("undo").arg(
                Arg::new("session_id")
                    .required(true)
                    .value_parser(parse_session_id),
            ),
        )
}

#[test]
fn parses_execute_session_command() {
    let matches = cli()
        .try_get_matches_from(["remodeco", "execute", "session-123"])
        .unwrap();
    let (name, sub) = matches.subcommand().unwrap();
    assert!(name == "execute" && sub.get_one::<String>("session_id").unwrap() == "session-123");
}

#[test]
fn rejects_session_ids_that_are_paths() {
    for raw in ["../escape", "a/b", "..", ".", ""] {
        assert!(
            cli().try_get_matches_from(["remodeco", "execute", raw]).is_err(),
            "accepted {raw:?}"
        );
        assert!(
            cli().try_get_matches_from(["remodeco", "--session", raw]).is_err(),
            "accepted {raw:?}"
        );
    }
}

#[test]
fn session_id_errors_name_the_rule() {
    assert_eq!(
        parse_session_id("a\\b"),
        Err("must be a session id, not a path".to_owned())
    );
    assert_eq!(parse_session_id("s-1"), Ok("s-1".to_owned()));
    assert!(remodeco::store::validate_session_id("..").is_err());
    assert_eq!(
        remodeco::store::validate_session_id("x/y"),
        Err("invalid session id".to_owned())
    );
    assert_eq!(remodeco::store::validate_session_id("abc"), Ok(()));
}
