use wizpatch::cli::{list_len, unknown_country};
use wizpatch::{parse_args, Country, Game, Invocation, PatchOptions, Platform, WizPatchError};

fn parse(args: &[&str]) -> Result<Invocation, WizPatchError> {
    parse_args(&args.iter().map(|arg| arg.to_string()).collect())
}

fn options(args: &[&str]) -> PatchOptions {
    match parse(args) {
        Ok(Invocation::Patch(options)) => options,
        other => panic!("{other:?}"),
    }
}

fn error_text(args: &[&str]) -> String {
    match parse(args) {
        Err(WizPatchError::Protocol(text)) => text,
        other => panic!("{other:?}"),
    }
}

#[test]
fn defaults_hold() {
    let o = options(&["--path", "C:/Wiz"]);
    assert_eq!(o.game, Game::Wizard101);
    assert_eq!(o.platform, Platform::Windows);
    assert_eq!(o.country, Country::Us);
    assert_eq!(o.revision, None);
    assert!(o.download_missing);
    assert_eq!(o.game_path, "C:/Wiz");
    assert_eq!(o.jobs, 5);
}

#[test]
fn arguments_set() {
    let o = options(&[
        "--country", "eu", "--revision", "V_r1", "--no-download-missing", "--jobs", "12", "--path", "a", "--patch",
    ]);
    assert_eq!(o.country, Country::Eu);
    assert_eq!(o.revision.as_deref(), Some("V_r1"));
    assert!(!o.download_missing);
    assert_eq!(o.jobs, 12);
}

#[test]
fn last_argument_wins() {
    let o = options(&[
        "--path", "a", "--no-patch", "--patch", "--country", "eu", "--country", "us", "--path", "b", "--jobs", "2",
        "--jobs", "+3", "--no-download-missing", "--download-missing",
    ]);
    assert_eq!(o.game_path, "b");
    assert_eq!(o.country, Country::Us);
    assert_eq!(o.jobs, 3);
    assert!(o.download_missing);
    assert!(matches!(parse(&["--patch", "--no-patch"]), Ok(Invocation::NothingToDo)));
}

#[test]
fn value_is_taken_as_it_is() {
    let o = options(&["--path", "--help", "--revision", "--path"]);
    assert_eq!(o.game_path, "--help");
    assert_eq!(o.revision.as_deref(), Some("--path"));
}

#[test]
fn help_is_heard() {
    for help in ["-h", "--help", "help"] {
        assert!(matches!(parse(&["--no-patch", help, "--jobs", "0", "what"]), Ok(Invocation::Help)));
    }
}

#[test]
fn path_is_needed_to_patch() {
    assert!(matches!(parse(&[]), Ok(Invocation::MissingPath)));
    assert!(matches!(parse(&["--jobs", "1"]), Ok(Invocation::MissingPath)));
    assert!(matches!(parse(&["--no-patch"]), Ok(Invocation::NothingToDo)));
}

#[test]
fn unknown_argument_is_named() {
    match parse(&["--path", "a", "--what", "--help"]) {
        Ok(Invocation::UnknownArgument(arg)) => assert_eq!(arg, "--what"),
        other => panic!("{other:?}"),
    }
    assert!(matches!(parse(&["-H"]), Ok(Invocation::UnknownArgument(_))));
}

#[test]
fn missing_values_are_errors() {
    assert_eq!(error_text(&["--revision"]), "--revision needs a value");
    assert_eq!(error_text(&["--path"]), "--path needs a value");
    assert_eq!(error_text(&["--jobs"]), "--jobs needs a positive integer");
    assert_eq!(error_text(&["--country"]), "unknown country: None");
}

#[test]
fn wrong_values_are_errors() {
    for jobs in ["0", "-1", "", "five", "1.5", "99999999999999999999999"] {
        assert_eq!(error_text(&["--jobs", jobs]), "--jobs needs a positive integer");
    }
    assert_eq!(error_text(&["--country", "fr"]), "unknown country: Some(\"fr\")");
    assert_eq!(error_text(&["--country", "US"]), "unknown country: Some(\"US\")");
    assert_eq!(error_text(&["--country", "a\"b\n"]), "unknown country: Some(\"a\\\"b\\n\")");
}

#[test]
fn country_error_is_rendered() {
    match unknown_country("Some(\"fr\")") {
        WizPatchError::Protocol(text) => assert_eq!(text, "unknown country: Some(\"fr\")"),
        other => panic!("{other:?}"),
    }
}

#[test]
fn commands_need_no_path() {
    assert!(matches!(parse(&["urls"]), Ok(Invocation::Urls(Country::Us))));
    assert!(matches!(parse(&["revision", "--country", "eu"]), Ok(Invocation::Revision(Country::Eu))));
    assert!(matches!(parse(&["list"]), Ok(Invocation::List(Country::Us, None))));
    assert!(matches!(parse(&["list", "--limit", "5"]), Ok(Invocation::List(Country::Us, Some(5)))));
    assert!(matches!(parse(&["list", "--no-patch", "--limit", "0"]), Ok(Invocation::List(_, Some(0)))));
}

#[test]
fn commands_are_known_in_the_first_place_alone() {
    let cases: [(&[&str], &str); 5] = [
        (&["--path", "D", "urls"], "urls"),
        (&["--no-patch", "list", "--limit", "0"], "list"),
        (&["list", "--limit", "5", "urls"], "urls"),
        (&["list", "urls", "--limit", "5"], "urls"),
        (&["revision", "revision"], "revision"),
    ];
    for (args, unknown) in cases {
        match parse(args) {
            Ok(Invocation::UnknownArgument(arg)) => assert_eq!(arg, unknown),
            other => panic!("{other:?}"),
        }
    }
    assert_eq!(options(&["--path", "urls"]).game_path, "urls");
}

#[test]
fn limit_needs_a_number() {
    assert_eq!(error_text(&["list", "--limit"]), "--limit needs a number");
    assert_eq!(error_text(&["list", "--limit", "-5"]), "--limit needs a number");
}

#[test]
fn list_is_cut_at_the_limit() {
    assert_eq!(list_len(9, None), 9);
    assert_eq!(list_len(9, Some(5)), 5);
    assert_eq!(list_len(3, Some(5)), 3);
}

#[test]
fn limit_is_known_behind_list_alone() {
    let cases: [&[&str]; 6] = [
        &["--path", "D", "--limit", "5"],
        &["--limit", "5"],
        &["--limit", "x"],
        &["--limit"],
        &["--limit", "5", "list"],
        &["urls", "--limit", "5"],
    ];
    for args in cases {
        match parse(args) {
            Ok(Invocation::UnknownArgument(arg)) => assert_eq!(arg, "--limit"),
            other => panic!("{other:?}"),
        }
    }
}
