use memory_store::cli::{
    strip_utf8_bom, Cli, CliError, Command, KeywordsSubcommand, Opt, RecallCommand,
    RememberCommand,
};
use memory_store::error::{Field, MemoryError};

#[test]
fn cli_parse_remember_missing_diary_should_error() {
    let args = [
        "memory",
        "remember",
        "--namespace",
        "u1/p1",
        "--keyword",
        "项目",
        "--slice",
        "slice",
    ];
    assert!(Cli::try_parse_from(&args).is_err());
    assert_eq!(Cli::try_parse_from(&args).err(), Some(CliError::Missing(Opt::Diary)));
}

#[test]
fn cli_parse_now_should_work() {
    let args = ["memory", "now"];
    assert!(Cli::try_parse_from(&args).is_ok());
}

#[test]
fn cli_parse_keywords_list_should_work() {
    let args = ["memory", "keywords", "list", "--namespace", "u1/p1"];
    assert!(Cli::try_parse_from(&args).is_ok());
    match Cli::try_parse_from(&args).unwrap().command {
        Some(Command::Keywords(k)) => match k.command {
            KeywordsSubcommand::List(list) => {
                assert_eq!(list.namespace, "u1/p1");
                assert!(!list.pretty);
                assert!(!list.text);
            }
            KeywordsSubcommand::ListGlobal(_) => panic!("unexpected subcommand"),
        },
        _ => panic!("unexpected command"),
    }
}

#[test]
fn cli_parse_keywords_list_global_should_work() {
    let args = ["memory", "keywords", "list-global"];
    assert!(Cli::try_parse_from(&args).is_ok());
}

#[test]
fn read_utf8_file_strip_bom_should_work() {
    let mut bytes = vec![0xEF, 0xBB, 0xBF];
    bytes.extend_from_slice(b"hello");

    let text = String::from_utf8(strip_utf8_bom(&bytes).to_vec()).expect("read");
    assert_eq!(text, "hello");
    assert_eq!(strip_utf8_bom(b"hello"), b"hello");
    assert_eq!(strip_utf8_bom(&[0xEF, 0xBB]), &[0xEF, 0xBB]);
    assert_eq!(strip_utf8_bom(&[0xEF, 0xBB, 0xBF]), b"");
}

#[test]
fn remember_command_file_inputs_should_load_text() {
    let cmd = RememberCommand {
        namespace: "u1/p1".to_string(),
        keywords: vec!["项目".to_string()],
        slice: None,
        slice_file: Some("slice.txt".to_string()),
        diary: None,
        diary_file: Some("diary.txt".to_string()),
        occurred_at: Some("2025-01-02".to_string()),
        importance: Some(3),
        source: Some("test".to_string()),
        pretty: false,
        text: false,
    };

    let args = cmd
        .into_args(Some("slice".to_string()), Some("diary".to_string()))
        .expect("into args");
    assert_eq!(args.slice, "slice");
    assert_eq!(args.diary, "diary");
    assert_eq!(args.importance, Some(3));
}

fn remember_command() -> RememberCommand {
    RememberCommand {
        namespace: "u1/p1".to_string(),
        keywords: vec!["k".to_string()],
        slice: Some("inline slice".to_string()),
        slice_file: None,
        diary: Some("inline diary".to_string()),
        diary_file: None,
        occurred_at: None,
        importance: None,
        source: None,
        pretty: false,
        text: false,
    }
}

#[test]
fn remember_command_prefers_inline_text_and_checks_importance() {
    let args = remember_command().into_args(Some("from file".to_string()), None).unwrap();
    assert_eq!(args.slice, "inline slice");
    assert_eq!(args.diary, "inline diary");

    let mut bad = remember_command();
    bad.importance = Some(0);
    assert_eq!(bad.into_args(None, None).err(), Some(MemoryError::InvalidImportance));

    let mut no_slice = remember_command();
    no_slice.slice = None;
    assert_eq!(
        no_slice.into_args(None, None).err(),
        Some(MemoryError::EmptyField(Field::Slice))
    );
    let mut no_diary = remember_command();
    no_diary.diary = None;
    assert_eq!(
        no_diary.into_args(None, None).err().map(|e| e.message()),
        Some("diary 不能为空".to_string())
    );
}

fn recall_command(limit: usize) -> RecallCommand {
    RecallCommand {
        namespace: "u1/p1".to_string(),
        keywords: vec![],
        start: None,
        end: None,
        query: None,
        limit,
        include_diary: true,
        pretty: false,
        text: false,
    }
}

#[test]
fn recall_command_clamps_the_limit() {
    assert_eq!(recall_command(0).into_args().limit, 20);
    assert_eq!(recall_command(1).into_args().limit, 1);
    assert_eq!(recall_command(100).into_args().limit, 100);
    assert_eq!(recall_command(101).into_args().limit, 100);
    assert_eq!(recall_command(usize::MAX).into_args().limit, 100);
    assert!(recall_command(5).into_args().include_diary);
}

#[test]
fn cli_parses_remember_with_all_its_options() {
    let args = [
        "memory",
        "remember",
        "--namespace=u1/p1",
        "-k",
        "a",
        "b",
        "--keyword",
        "c",
        "-kd",
        "--slice-file",
        "s.txt",
        "--diary",
        "dear diary",
        "--occurred-at",
        "2025-01-02",
        "--importance",
        "5",
        "--source",
        "cli",
        "--pretty",
        "--text",
    ];
    match Cli::try_parse_from(&args).unwrap().command {
        Some(Command::Remember(c)) => {
            assert_eq!(c.namespace, "u1/p1");
            assert_eq!(c.keywords, vec!["a", "b", "c", "d"]);
            assert_eq!(c.slice, None);
            assert_eq!(c.slice_file.as_deref(), Some("s.txt"));
            assert_eq!(c.diary.as_deref(), Some("dear diary"));
            assert_eq!(c.diary_file, None);
            assert_eq!(c.occurred_at.as_deref(), Some("2025-01-02"));
            assert_eq!(c.importance, Some(5));
            assert_eq!(c.source.as_deref(), Some("cli"));
            assert!(c.pretty && c.text);
        }
        _ => panic!("unexpected command"),
    }
}

#[test]
fn cli_parses_recall_with_defaults_and_repeated_keywords() {
    let args = ["memory", "recall", "--namespace", "u1/p1"];
    match Cli::try_parse_from(&args).unwrap().command {
        Some(Command::Recall(c)) => {
            assert_eq!(c.limit, 20);
            assert!(c.keywords.is_empty());
            assert!(!c.include_diary);
        }
        _ => panic!("unexpected command"),
    }
    let args = [
        "memory", "recall", "--namespace", "u1/p1", "-k", "a", "--keyword=b", "--limit", "+7",
        "--start", "2025-01-01", "--end", "2025-12-31", "--query", "x y", "--include-diary",
    ];
    match Cli::try_parse_from(&args).unwrap().command {
        Some(Command::Recall(c)) => {
            assert_eq!(c.keywords, vec!["a", "b"]);
            assert_eq!(c.limit, 7);
            assert_eq!(c.start.as_deref(), Some("2025-01-01"));
            assert_eq!(c.end.as_deref(), Some("2025-12-31"));
            assert_eq!(c.query.as_deref(), Some("x y"));
            assert!(c.include_diary);
        }
        _ => panic!("unexpected command"),
    }
}

#[test]
fn cli_accepts_an_empty_command_line() {
    assert!(Cli::try_parse_from(&["memory"]).unwrap().command.is_none());
    assert!(Cli::try_parse_from(&[]).unwrap().command.is_none());
}

#[test]
fn cli_refuses_what_the_grammar_does_not_allow() {
    let cases: Vec<(Vec<&str>, CliError)> = vec![
        (vec!["memory", "forget"], CliError::UnknownCommand),
        (vec!["memory", "keywords"], CliError::MissingCommand),
        (vec!["memory", "keywords", "drop"], CliError::UnknownCommand),
        (vec!["memory", "--help"], CliError::HelpRequested),
        (vec!["memory", "-V"], CliError::VersionRequested),
        (vec!["memory", "now", "-h"], CliError::HelpRequested),
        (vec!["memory", "now", "--namespace", "u1/p1"], CliError::UnknownOption),
        (vec!["memory", "now", "-x"], CliError::UnknownOption),
        (vec!["memory", "now", "extra"], CliError::UnexpectedArgument),
        (vec!["memory", "now", "--"], CliError::UnexpectedArgument),
        (vec!["memory", "now", "--pretty=yes"], CliError::BadValue),
        (vec!["memory", "now", "--pretty", "--pretty"], CliError::Repeated(Opt::Pretty)),
        (vec!["memory", "recall", "--namespace"], CliError::BadValue),
        (vec!["memory", "recall", "--namespace", "--text"], CliError::BadValue),
        (vec!["memory", "recall"], CliError::Missing(Opt::Namespace)),
        (
            vec!["memory", "recall", "--namespace", "a/b", "--namespace", "c/d"],
            CliError::Repeated(Opt::Namespace),
        ),
        (
            vec!["memory", "recall", "--namespace", "a/b", "--limit", "many"],
            CliError::InvalidNumber(Opt::Limit),
        ),
        (
            vec!["memory", "recall", "--namespace", "a/b", "-k", "x", "y"],
            CliError::UnexpectedArgument,
        ),
        (
            vec!["memory", "remember", "--namespace", "a/b", "--slice", "s", "--diary", "d"],
            CliError::Missing(Opt::Keyword),
        ),
        (
            vec![
                "memory", "remember", "--namespace", "a/b", "-k", "x", "--slice", "s",
                "--slice-file", "f", "--diary", "d",
            ],
            CliError::Conflict(Opt::Slice, Opt::SliceFile),
        ),
        (
            vec![
                "memory", "remember", "--namespace", "a/b", "-k", "x", "--slice", "s", "--diary",
                "d", "--diary-file", "f",
            ],
            CliError::Conflict(Opt::Diary, Opt::DiaryFile),
        ),
        (
            vec!["memory", "remember", "--namespace", "a/b", "-k", "x", "--diary", "d"],
            CliError::Missing(Opt::Slice),
        ),
        (
            vec![
                "memory", "remember", "--namespace", "a/b", "-k", "x", "--slice", "s", "--diary",
                "d", "--importance", "256",
            ],
            CliError::InvalidNumber(Opt::Importance),
        ),
    ];
    for (args, expected) in cases {
        assert_eq!(Cli::try_parse_from(&args).err(), Some(expected), "{:?}", args);
    }
}

#[test]
fn cli_errors_have_words_and_exit_codes() {
    assert_eq!(CliError::HelpRequested.exit_code(), 0);
    assert_eq!(CliError::VersionRequested.exit_code(), 0);
    assert_eq!(CliError::UnknownCommand.exit_code(), 2);
    assert_eq!(
        CliError::Missing(Opt::Diary).message(),
        "a required option was not provided: --diary"
    );
    assert_eq!(
        CliError::Conflict(Opt::Slice, Opt::SliceFile).message(),
        "the options cannot be used together: --slice and --slice-file"
    );
    assert_eq!(CliError::InvalidNumber(Opt::Limit).message(), "invalid number for --limit");
}
