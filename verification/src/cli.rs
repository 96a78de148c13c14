//! The command line.

use crate::enums::{Country, Game, Platform};
use crate::errors;
use crate::errors::WizPatchError;
use crate::patcher;
use crate::patcher::PatchOptions;
use crate::text;
use crate::text::{read_number, same_text};
use vstd::prelude::*;
use vstd::string::*;

verus! {

/// What the command line asks for.
#[derive(Debug)]
pub enum Invocation {
    /// To patch.
    Patch(PatchOptions),
    /// Not to patch.
    NothingToDo,
    /// To print the server's URLs.
    Urls(Country),
    /// To print the server's revision.
    Revision(Country),
    /// To list file records, all of them or so many.
    List(Country, Option<usize>),
    /// To be told the usage.
    Help,
    /// Something that is not known.
    UnknownArgument(String),
    /// To patch, without saying where the game is.
    MissingPath,
}

/// The content of an [`Invocation`].
pub ghost enum InvocationView {
    Patch(patcher::PatchOptionsView),
    NothingToDo,
    Urls(Country),
    Revision(Country),
    List(Country, Option<nat>),
    Help,
    UnknownArgument(Seq<char>),
    MissingPath,
}

impl View for Invocation {
    type V = InvocationView;

    open spec fn view(&self) -> InvocationView {
        match self {
            Invocation::Patch(options) => InvocationView::Patch(options@),
            Invocation::NothingToDo => InvocationView::NothingToDo,
            Invocation::Urls(country) => InvocationView::Urls(*country),
            Invocation::Revision(country) => InvocationView::Revision(*country),
            Invocation::List(country, limit) => InvocationView::List(
                *country,
                optional_number(*limit),
            ),
            Invocation::Help => InvocationView::Help,
            Invocation::UnknownArgument(arg) => InvocationView::UnknownArgument(arg@),
            Invocation::MissingPath => InvocationView::MissingPath,
        }
    }
}

/// The value of an optional number.
pub open spec fn optional_number(n: Option<usize>) -> Option<nat> {
    match n {
        Some(n) => Some(n as nat),
        None => None,
    }
}

/// What there is to do.
#[derive(Debug, Clone, Copy, PartialEq, Eq, Structural)]
pub enum Command {
    /// Patch the game.
    Patch,
    /// Print the server's URLs.
    Urls,
    /// Print the server's revision.
    Revision,
    /// List file records.
    List,
}

/// What the arguments have set so far.
struct Settings {
    command: Command,
    limit: Option<usize>,
    do_patch: bool,
    download_missing: bool,
    country: Country,
    revision: Option<String>,
    game_path: Option<String>,
    jobs: usize,
}

/// What the arguments of a command line set.
pub ghost struct SettingsView {
    pub command: Command,
    pub limit: Option<nat>,
    pub do_patch: bool,
    pub download_missing: bool,
    pub country: Country,
    pub revision: Option<Seq<char>>,
    pub game_path: Option<Seq<char>>,
    pub jobs: nat,
}

impl View for Settings {
    type V = SettingsView;

    closed spec fn view(&self) -> SettingsView {
        SettingsView {
            command: self.command,
            limit: optional_number(self.limit),
            do_patch: self.do_patch,
            download_missing: self.download_missing,
            country: self.country,
            revision: patcher::optional_text(self.revision),
            game_path: patcher::optional_text(self.game_path),
            jobs: self.jobs as nat,
        }
    }
}

/// The settings where no argument says otherwise: patch, download missing files, from the US
/// server, its own revision, with five workers.
pub open spec fn default_settings() -> SettingsView {
    SettingsView {
        command: Command::Patch,
        limit: None,
        do_patch: true,
        download_missing: true,
        country: Country::Us,
        revision: None,
        game_path: None,
        jobs: 5,
    }
}

/// What comes of reading arguments.
pub ghost enum Reading {
    /// All were read, and set this.
    Done(SettingsView),
    /// The usage is asked for.
    Help,
    /// This one is not known.
    Unknown(Seq<char>),
    /// One has a missing or a wrong value.
    Failed(errors::ErrorView),
}

/// The text in which [`std::fmt::Debug`] shows an optional text.
pub uninterp spec fn debug_text(value: Option<Seq<char>>) -> Seq<char>;

/// Shows an optional text as [`std::fmt::Debug`] does, with the `format!` of `{:?}`. The text
/// depends on the value alone; its form, quotes and escapes, is not stated here.
#[verifier::external_body]
fn show(value: Option<&str>) -> (r: String)
    ensures
        r@ == debug_text(
            match value {
                Some(s) => Some(s@),
                None => None,
            },
        ),
{
    format!("{:?}", value)
}

/// The number of workers that a text gives: a number, at least one.
pub open spec fn jobs_of(s: Seq<char>) -> Option<nat> {
    match text::number_of(s) {
        Some(n) => if n >= 1 {
            Some(n)
        } else {
            None
        },
        None => None,
    }
}

/// The country that a text gives.
pub open spec fn country_of(s: Seq<char>) -> Option<Country> {
    if s == "us"@ {
        Some(Country::Us)
    } else if s == "eu"@ {
        Some(Country::Eu)
    } else {
        None
    }
}

/// The error about a country that is not known, shown as `shown`.
pub open spec fn country_error(shown: Seq<char>) -> errors::ErrorView {
    errors::ErrorView::Protocol("unknown country: "@ + shown)
}

/// What one argument, or one with its value, comes to.
pub ghost enum Argument {
    /// It sets something; so many arguments are used up.
    Sets(SettingsView, int),
    /// It ends the reading.
    Ends(Reading),
}

/// The command that a word names.
pub open spec fn command_of(word: Seq<char>) -> Option<Command> {
    if word == "urls"@ {
        Some(Command::Urls)
    } else if word == "revision"@ {
        Some(Command::Revision)
    } else if word == "list"@ {
        Some(Command::List)
    } else {
        None
    }
}

/// What the first of some arguments comes to, behind the command.
pub open spec fn argument(args: Seq<Seq<char>>, s: SettingsView) -> Argument {
    let value = if args.len() > 1 {
        Some(args[1])
    } else {
        None
    };
    if args[0] == "--patch"@ {
        Argument::Sets(SettingsView { do_patch: true, ..s }, 1)
    } else if args[0] == "--no-patch"@ {
        Argument::Sets(SettingsView { do_patch: false, ..s }, 1)
    } else if args[0] == "--download-missing"@ {
        Argument::Sets(SettingsView { download_missing: true, ..s }, 1)
    } else if args[0] == "--no-download-missing"@ {
        Argument::Sets(SettingsView { download_missing: false, ..s }, 1)
    } else if args[0] == "--country"@ {
        if value is Some && country_of(value->0) is Some {
            Argument::Sets(SettingsView { country: country_of(value->0)->0, ..s }, 2)
        } else {
            Argument::Ends(Reading::Failed(country_error(debug_text(value))))
        }
    } else if args[0] == "--revision"@ {
        if value is Some {
            Argument::Sets(SettingsView { revision: value, ..s }, 2)
        } else {
            Argument::Ends(
                Reading::Failed(errors::ErrorView::Protocol("--revision needs a value"@)),
            )
        }
    } else if args[0] == "--path"@ {
        if value is Some {
            Argument::Sets(SettingsView { game_path: value, ..s }, 2)
        } else {
            Argument::Ends(Reading::Failed(errors::ErrorView::Protocol("--path needs a value"@)))
        }
    } else if args[0] == "--jobs"@ {
        if value is Some && jobs_of(value->0) is Some {
            Argument::Sets(SettingsView { jobs: jobs_of(value->0)->0, ..s }, 2)
        } else {
            Argument::Ends(
                Reading::Failed(errors::ErrorView::Protocol("--jobs needs a positive integer"@)),
            )
        }
    } else if args[0] == "--limit"@ && s.command == Command::List {
        if value is Some && text::number_of(value->0) is Some {
            Argument::Sets(SettingsView { limit: text::number_of(value->0), ..s }, 2)
        } else {
            Argument::Ends(Reading::Failed(errors::ErrorView::Protocol("--limit needs a number"@)))
        }
    } else if args[0] == "-h"@ || args[0] == "--help"@ || args[0] == "help"@ {
        Argument::Ends(Reading::Help)
    } else {
        Argument::Ends(Reading::Unknown(args[0]))
    }
}

/// What comes of reading arguments, from the left, after others have set `s`.
pub open spec fn reading(args: Seq<Seq<char>>, s: SettingsView) -> Reading
    decreases args.len(),
{
    if args.len() == 0 {
        Reading::Done(s)
    } else {
        match argument(args, s) {
            Argument::Sets(set, used) => reading(args.skip(used), set),
            Argument::Ends(end) => end,
        }
    }
}

/// What comes of reading a command line. A command is named by the first argument or not at all.
pub open spec fn line_reading(args: Seq<Seq<char>>) -> Reading {
    if args.len() > 0 && command_of(args[0]) is Some {
        reading(
            args.skip(1),
            SettingsView { command: command_of(args[0])->0, ..default_settings() },
        )
    } else {
        reading(args, default_settings())
    }
}

/// What settings ask for.
pub open spec fn asked_for(s: SettingsView) -> InvocationView {
    if s.command == Command::Urls {
        InvocationView::Urls(s.country)
    } else if s.command == Command::Revision {
        InvocationView::Revision(s.country)
    } else if s.command == Command::List {
        InvocationView::List(s.country, s.limit)
    } else if !s.do_patch {
        InvocationView::NothingToDo
    } else {
        match s.game_path {
            None => InvocationView::MissingPath,
            Some(game_path) => InvocationView::Patch(
                patcher::PatchOptionsView {
                    game: Game::Wizard101,
                    platform: Platform::Windows,
                    country: s.country,
                    revision: s.revision,
                    download_missing: s.download_missing,
                    game_path,
                    jobs: s.jobs,
                },
            ),
        }
    }
}

/// What a command line asks for.
pub open spec fn invoked(args: Seq<Seq<char>>) -> Result<InvocationView, errors::ErrorView> {
    match line_reading(args) {
        Reading::Done(s) => Ok(asked_for(s)),
        Reading::Help => Ok(InvocationView::Help),
        Reading::Unknown(arg) => Ok(InvocationView::UnknownArgument(arg)),
        Reading::Failed(error) => Err(error),
    }
}

/// The texts of the arguments.
pub open spec fn arg_texts(args: Seq<String>) -> Seq<Seq<char>> {
    args.map_values(|arg: String| arg@)
}

/// The error about a country that is not known, from how it is shown.
pub fn unknown_country(shown: &str) -> (r: WizPatchError)
    ensures
        r@ == country_error(shown@),
{
    let mut message: String = "unknown country: ".to_owned();
    message.append(shown);
    WizPatchError::Protocol(message)
}

/// Reads the country that a text gives.
fn read_country(s: &str) -> (r: Option<Country>)
    ensures
        r == country_of(s@),
{
    if same_text(s, "us") {
        Some(Country::Us)
    } else if same_text(s, "eu") {
        Some(Country::Eu)
    } else {
        None
    }
}

/// Reads the number of workers that a text gives.
fn read_jobs(s: &str) -> (r: Option<usize>)
    ensures
        match r {
            Some(n) => jobs_of(s@) == Some(n as nat),
            None => jobs_of(s@) is None,
        },
{
    match read_number(s) {
        Some(n) => if n >= 1 {
            Some(n)
        } else {
            None
        },
        None => None,
    }
}

/// Reads the command that a word names.
fn read_command(word: &str) -> (r: Option<Command>)
    ensures
        r == command_of(word@),
{
    if same_text(word, "urls") {
        Some(Command::Urls)
    } else if same_text(word, "revision") {
        Some(Command::Revision)
    } else if same_text(word, "list") {
        Some(Command::List)
    } else {
        None
    }
}

/// Turns settings into what they ask for.
fn settle(s: Settings) -> (r: Invocation)
    ensures
        r@ == asked_for(s@),
{
    match s.command {
        Command::Urls => {
            return Invocation::Urls(s.country);
        },
        Command::Revision => {
            return Invocation::Revision(s.country);
        },
        Command::List => {
            return Invocation::List(s.country, s.limit);
        },
        Command::Patch => {},
    }
    if !s.do_patch {
        return Invocation::NothingToDo;
    }
    match s.game_path {
        None => Invocation::MissingPath,
        Some(game_path) => Invocation::Patch(
            PatchOptions {
                game: Game::Wizard101,
                platform: Platform::Windows,
                country: s.country,
                revision: s.revision,
                download_missing: s.download_missing,
                game_path,
                jobs: s.jobs,
            },
        ),
    }
}

/// How many records to list out of `total`.
pub fn list_len(total: usize, limit: Option<usize>) -> (r: usize)
    ensures
        r == (match limit {
            Some(limit) => if limit < total {
                limit
            } else {
                total
            },
            None => total,
        }),
{
    match limit {
        Some(limit) => if limit < total {
            limit
        } else {
            total
        },
        None => total,
    }
}

/// Reads a command line, without the program's name.
pub fn parse_args(args: &Vec<String>) -> (r: Result<Invocation, WizPatchError>)
    ensures
        errors::viewed(r) == invoked(arg_texts(args@)),
{
    let mut s: Settings = Settings {
        command: Command::Patch,
        limit: None,
        do_patch: true,
        download_missing: true,
        country: Country::Us,
        revision: None,
        game_path: None,
        jobs: 5,
    };
    let ghost texts = arg_texts(args@);
    let mut i: usize = 0;
    assert(texts.skip(0) =~= texts);
    if args.len() > 0 {
        match read_command(args[0].as_str()) {
            Some(command) => {
                s.command = command;
                i = 1;
            },
            None => {},
        }
        assert(texts[0] == args@[0]@);
    }
    while i < args.len()
        invariant
            i <= args.len(),
            texts == arg_texts(args@),
            reading(texts.skip(i as int), s@) == line_reading(texts),
        decreases args.len() - i,
    {
        let arg: &str = args[i].as_str();
        let value: Option<&str> = if args.len() - i > 1 {
            Some(args[i + 1].as_str())
        } else {
            None
        };
        let ghost rest = texts.skip(i as int);
        assert(rest[0] == arg@);
        assert(rest.len() > 1 ==> value is Some && rest[1] == value->0@);
        assert(rest.skip(1) =~= texts.skip(i + 1));
        assert(rest.len() > 1 ==> rest.skip(2) =~= texts.skip(i + 2));
        if same_text(arg, "--patch") {
            s.do_patch = true;
        } else if same_text(arg, "--no-patch") {
            s.do_patch = false;
        } else if same_text(arg, "--download-missing") {
            s.download_missing = true;
        } else if same_text(arg, "--no-download-missing") {
            s.download_missing = false;
        } else if same_text(arg, "--country") {
            let country: Option<Country> = match value {
                Some(text) => read_country(text),
                None => None,
            };
            match country {
                Some(country) => {
                    s.country = country;
                },
                None => {
                    return Err(unknown_country(show(value).as_str()));
                },
            }
            i += 1;
        } else if same_text(arg, "--revision") {
            match value {
                Some(text) => {
                    s.revision = Some(text.to_owned());
                },
                None => {
                    return Err(WizPatchError::Protocol("--revision needs a value".to_owned()));
                },
            }
            i += 1;
        } else if same_text(arg, "--path") {
            match value {
                Some(text) => {
                    s.game_path = Some(text.to_owned());
                },
                None => {
                    return Err(WizPatchError::Protocol("--path needs a value".to_owned()));
                },
            }
            i += 1;
        } else if same_text(arg, "--jobs") {
            let jobs: Option<usize> = match value {
                Some(text) => read_jobs(text),
                None => None,
            };
            match jobs {
                Some(jobs) => {
                    s.jobs = jobs;
                },
                None => {
                    return Err(
                        WizPatchError::Protocol("--jobs needs a positive integer".to_owned()),
                    );
                },
            }
            i += 1;
        } else if s.command == Command::List && same_text(arg, "--limit") {
            let limit: Option<usize> = match value {
                Some(text) => read_number(text),
                None => None,
            };
            if limit.is_none() {
                return Err(WizPatchError::Protocol("--limit needs a number".to_owned()));
            }
            s.limit = limit;
            i += 1;
        } else if same_text(arg, "-h") || same_text(arg, "--help") || same_text(arg, "help") {
            return Ok(Invocation::Help);
        } else {
            return Ok(Invocation::UnknownArgument(arg.to_owned()));
        }
        i += 1;
    }
    Ok(settle(s))
}

/// Arguments are read from the left: where some can be read, those behind them are read with what
/// they have set.
pub proof fn law_reading_goes_on(
    first: Seq<Seq<char>>,
    second: Seq<Seq<char>>,
    s: SettingsView,
    set: SettingsView,
)
    requires
        reading(first, s) == Reading::Done(set),
    ensures
        reading(first + second, s) == reading(second, set),
    decreases first.len(),
{
    if first.len() == 0 {
        assert(first + second =~= second);
    } else {
        let all = first + second;
        assert(all[0] == first[0]);
        assert(first.len() > 1 ==> all[1] == first[1]);
        match argument(first, s) {
            Argument::Sets(next, used) => {
                assert(argument(all, s) == argument(first, s));
                assert(all.skip(used) =~= first.skip(used) + second);
                law_reading_goes_on(first.skip(used), second, next, set);
            },
            Argument::Ends(_) => {},
        }
    }
}

/// A command line that can be read goes on with further arguments, which are read with what it has
/// set. Where it is empty, the first of them names no command.
pub proof fn law_line_goes_on(first: Seq<Seq<char>>, second: Seq<Seq<char>>, set: SettingsView)
    requires
        line_reading(first) == Reading::Done(set),
        first.len() > 0 || second.len() == 0 || command_of(second[0]) is None,
    ensures
        line_reading(first + second) == reading(second, set),
{
    if first.len() > 0 && command_of(first[0]) is Some {
        let s = SettingsView { command: command_of(first[0])->0, ..default_settings() };
        law_reading_goes_on(first.skip(1), second, s, set);
        assert((first + second).skip(1) =~= first.skip(1) + second);
    } else {
        law_reading_goes_on(first, second, default_settings(), set);
    }
}

/// Arguments behind the command do not change it.
proof fn lemma_command_is_kept(args: Seq<Seq<char>>, s: SettingsView)
    ensures
        reading(args, s) matches Reading::Done(set) ==> set.command == s.command,
    decreases args.len(),
{
    if args.len() > 0 {
        if let Argument::Sets(set, used) = argument(args, s) {
            lemma_command_is_kept(args.skip(used), set);
        }
    }
}

/// What a command line that can be read asks for is the command that its first argument names, or
/// a patch where that names none.
pub proof fn law_command_is_the_first_argument(args: Seq<Seq<char>>, set: SettingsView)
    requires
        line_reading(args) == Reading::Done(set),
    ensures
        set.command == (if args.len() > 0 && command_of(args[0]) is Some {
            command_of(args[0])->0
        } else {
            Command::Patch
        }),
{
    if args.len() > 0 && command_of(args[0]) is Some {
        lemma_command_is_kept(
            args.skip(1),
            SettingsView { command: command_of(args[0])->0, ..default_settings() },
        );
    } else {
        lemma_command_is_kept(args, default_settings());
    }
}

/// No two of the arguments are the same.
proof fn lemma_arguments_differ()
    ensures
        forall|i: int, j: int|
            #![trigger known_arguments()[i], known_arguments()[j]]
            0 <= i < j < known_arguments().len() ==> known_arguments()[i] != known_arguments()[j],
{
    reveal_strlit("--patch");
    reveal_strlit("--no-patch");
    reveal_strlit("--download-missing");
    reveal_strlit("--no-download-missing");
    reveal_strlit("--country");
    reveal_strlit("--revision");
    reveal_strlit("--path");
    reveal_strlit("--jobs");
    reveal_strlit("--limit");
    reveal_strlit("urls");
    reveal_strlit("revision");
    reveal_strlit("list");
    reveal_strlit("-h");
    reveal_strlit("--help");
    reveal_strlit("help");
    let all = known_arguments();
    assert forall|i: int, j: int|
        #![trigger all[i], all[j]]
        0 <= i < j < all.len() implies all[i] != all[j] by {
        assert(all[i].len() != all[j].len() || all[i][0] != all[j][0] || all[i][2] != all[j][2]);
    }
}

/// The arguments that are known: `urls`, `revision` and `list` in the first place alone, `--limit`
/// behind `list` alone.
pub open spec fn known_arguments() -> Seq<Seq<char>> {
    seq![
        "--patch"@,
        "--no-patch"@,
        "--download-missing"@,
        "--no-download-missing"@,
        "--country"@,
        "--revision"@,
        "--path"@,
        "--jobs"@,
        "--limit"@,
        "urls"@,
        "revision"@,
        "list"@,
        "-h"@,
        "--help"@,
        "help"@,
    ]
}

/// The arguments that ask for the usage.
pub open spec fn is_help(arg: Seq<char>) -> bool {
    arg == "-h"@ || arg == "--help"@ || arg == "help"@
}

/// The places of the arguments that are known.
proof fn lemma_known_arguments()
    ensures
        known_arguments()[0] == "--patch"@,
        known_arguments()[1] == "--no-patch"@,
        known_arguments()[2] == "--download-missing"@,
        known_arguments()[3] == "--no-download-missing"@,
        known_arguments()[4] == "--country"@,
        known_arguments()[5] == "--revision"@,
        known_arguments()[6] == "--path"@,
        known_arguments()[7] == "--jobs"@,
        known_arguments()[8] == "--limit"@,
        known_arguments()[9] == "urls"@,
        known_arguments()[10] == "revision"@,
        known_arguments()[11] == "list"@,
        known_arguments()[12] == "-h"@,
        known_arguments()[13] == "--help"@,
        known_arguments()[14] == "help"@,
{
}

/// The last of several arguments that set the same thing wins, and it changes nothing else.
pub proof fn law_last_argument_wins(args: Seq<Seq<char>>, set: SettingsView, value: Seq<char>)
    requires
        line_reading(args) == Reading::Done(set),
    ensures
        line_reading(args + seq!["--patch"@]) == Reading::Done(
            SettingsView { do_patch: true, ..set },
        ),
        line_reading(args + seq!["--no-patch"@]) == Reading::Done(
            SettingsView { do_patch: false, ..set },
        ),
        line_reading(args + seq!["--download-missing"@]) == Reading::Done(
            SettingsView { download_missing: true, ..set },
        ),
        line_reading(args + seq!["--no-download-missing"@]) == Reading::Done(
            SettingsView { download_missing: false, ..set },
        ),
        line_reading(args + seq!["--revision"@, value]) == Reading::Done(
            SettingsView { revision: Some(value), ..set },
        ),
        line_reading(args + seq!["--path"@, value]) == Reading::Done(
            SettingsView { game_path: Some(value), ..set },
        ),
        country_of(value) is Some ==> line_reading(args + seq!["--country"@, value])
            == Reading::Done(SettingsView { country: country_of(value)->0, ..set }),
        jobs_of(value) is Some ==> line_reading(args + seq!["--jobs"@, value]) == Reading::Done(
            SettingsView { jobs: jobs_of(value)->0, ..set },
        ),
        set.command == Command::List && text::number_of(value) is Some ==> line_reading(
            args + seq!["--limit"@, value],
        ) == Reading::Done(SettingsView { limit: text::number_of(value), ..set }),
{
    lemma_arguments_differ();
    lemma_known_arguments();
    lemma_one_option(args, set, "--limit"@, value);
    lemma_one_switch(args, set, "--patch"@);
    lemma_one_switch(args, set, "--no-patch"@);
    lemma_one_switch(args, set, "--download-missing"@);
    lemma_one_switch(args, set, "--no-download-missing"@);
    lemma_one_option(args, set, "--revision"@, value);
    lemma_one_option(args, set, "--path"@, value);
    lemma_one_option(args, set, "--country"@, value);
    lemma_one_option(args, set, "--jobs"@, value);
}

/// One more argument without a value is read with what the others have set.
proof fn lemma_one_switch(args: Seq<Seq<char>>, set: SettingsView, switch: Seq<char>)
    requires
        line_reading(args) == Reading::Done(set),
        command_of(switch) is None,
    ensures
        match argument(seq![switch], set) {
            Argument::Sets(next, used) => used == 1 && line_reading(args + seq![switch])
                == Reading::Done(next),
            Argument::Ends(end) => line_reading(args + seq![switch]) == end,
        },
{
    reveal_with_fuel(reading, 2);
    law_line_goes_on(args, seq![switch], set);
    assert(seq![switch].skip(1) =~= Seq::<Seq<char>>::empty());
}

/// One more argument with a value is read with what the others have set.
proof fn lemma_one_option(
    args: Seq<Seq<char>>,
    set: SettingsView,
    option: Seq<char>,
    value: Seq<char>,
)
    requires
        line_reading(args) == Reading::Done(set),
        command_of(option) is None,
    ensures
        match argument(seq![option, value], set) {
            Argument::Sets(next, used) => used == 2 ==> line_reading(args + seq![option, value])
                == Reading::Done(next),
            Argument::Ends(end) => line_reading(args + seq![option, value]) == end,
        },
{
    reveal_with_fuel(reading, 2);
    law_line_goes_on(args, seq![option, value], set);
    assert(seq![option, value].skip(2) =~= Seq::<Seq<char>>::empty());
}

/// Behind arguments that can be read, a call for help is heard, whatever follows it.
pub proof fn law_help_is_heard(
    args: Seq<Seq<char>>,
    set: SettingsView,
    help: Seq<char>,
    rest: Seq<Seq<char>>,
)
    requires
        line_reading(args) == Reading::Done(set),
        is_help(help),
    ensures
        invoked(args + (seq![help] + rest)) == Ok::<InvocationView, errors::ErrorView>(
            InvocationView::Help,
        ),
{
    lemma_arguments_differ();
    lemma_known_arguments();
    assert((seq![help] + rest)[0] == help);
    law_line_goes_on(args, seq![help] + rest, set);
}

/// Behind arguments that can be read, one that is not known ends the reading, whatever follows it.
/// Without `list` before it, `--limit` is not known, nor is a command behind other arguments.
pub proof fn law_unknown_argument_ends_reading(
    args: Seq<Seq<char>>,
    set: SettingsView,
    unknown: Seq<char>,
    rest: Seq<Seq<char>>,
)
    requires
        line_reading(args) == Reading::Done(set),
        ({
            ||| !known_arguments().contains(unknown)
            ||| unknown == "--limit"@ && set.command != Command::List
            ||| command_of(unknown) is Some && args.len() > 0
        }),
    ensures
        invoked(args + (seq![unknown] + rest)) == Ok::<InvocationView, errors::ErrorView>(
            InvocationView::UnknownArgument(unknown),
        ),
{
    let all = known_arguments();
    lemma_arguments_differ();
    lemma_known_arguments();
    if !all.contains(unknown) {
        assert forall|i: int| 0 <= i < all.len() implies #[trigger] all[i] != unknown by {
            assert(all.contains(all[i]));
        }
    }
    assert((seq![unknown] + rest)[0] == unknown);
    law_line_goes_on(args, seq![unknown] + rest, set);
}

/// Reading keeps the number of workers at one or more.
proof fn lemma_jobs_stay_positive(args: Seq<Seq<char>>, s: SettingsView)
    requires
        1 <= s.jobs <= usize::MAX,
    ensures
        reading(args, s) matches Reading::Done(set) ==> 1 <= set.jobs <= usize::MAX,
    decreases args.len(),
{
    if args.len() > 0 {
        if let Argument::Sets(set, used) = argument(args, s) {
            lemma_jobs_stay_positive(args.skip(used), set);
        }
    }
}

/// A patch that the command line asks for is one of Wizard101 for Windows, with at least one
/// worker.
pub proof fn law_asked_patch_has_workers(args: Seq<Seq<char>>)
    ensures
        invoked(args) matches Ok(InvocationView::Patch(options)) ==> {
            &&& options.game == Game::Wizard101
            &&& options.platform == Platform::Windows
            &&& 1 <= options.jobs <= usize::MAX
        },
{
    lemma_jobs_stay_positive(args, default_settings());
    if args.len() > 0 && command_of(args[0]) is Some {
        lemma_jobs_stay_positive(
            args.skip(1),
            SettingsView { command: command_of(args[0])->0, ..default_settings() },
        );
    }
}

/// A path alone asks for a patch with the default settings; without a path none can be made.
pub proof fn law_path_alone_is_enough(path: Seq<char>)
    ensures
        invoked(seq!["--path"@, path]) == Ok::<InvocationView, errors::ErrorView>(
            asked_for(SettingsView { game_path: Some(path), ..default_settings() }),
        ),
        invoked(Seq::empty()) == Ok::<InvocationView, errors::ErrorView>(
            InvocationView::MissingPath,
        ),
{
    lemma_arguments_differ();
    lemma_known_arguments();
    law_last_argument_wins(Seq::empty(), default_settings(), path);
    assert(Seq::<Seq<char>>::empty() + seq!["--path"@, path] =~= seq!["--path"@, path]);
}

/// What settings ask for, field by field. A patch is asked for where no command is named, patching
/// is on and a path is given, with options that are what was set, whatever the others are.
pub proof fn law_options_are_what_was_set(args: Seq<Seq<char>>, set: SettingsView)
    requires
        line_reading(args) == Reading::Done(set),
    ensures
        match set.command {
            Command::Urls => invoked(args) matches Ok(InvocationView::Urls(country)) && country
                == set.country,
            Command::Revision => invoked(args) matches Ok(InvocationView::Revision(country))
                && country == set.country,
            Command::List => invoked(args) matches Ok(InvocationView::List(country, limit))
                && country == set.country && limit == set.limit,
            Command::Patch => if !set.do_patch {
                invoked(args) matches Ok(InvocationView::NothingToDo)
            } else if set.game_path is None {
                invoked(args) matches Ok(InvocationView::MissingPath)
            } else {
                invoked(args) matches Ok(InvocationView::Patch(options)) && {
                    &&& options.country == set.country
                    &&& options.revision == set.revision
                    &&& options.download_missing == set.download_missing
                    &&& Some(options.game_path) == set.game_path
                    &&& options.jobs == set.jobs
                }
            },
        },
{
}

/// What is set where nothing is said, and where a command alone is named.
pub proof fn law_defaults(command: Seq<char>)
    ensures
        line_reading(Seq::empty()) matches Reading::Done(set) && {
            &&& set.command == Command::Patch
            &&& set.limit is None
            &&& set.do_patch
            &&& set.download_missing
            &&& set.country == Country::Us
            &&& set.revision is None
            &&& set.game_path is None
            &&& set.jobs == 5
        },
        command == "urls"@ || command == "revision"@ || command == "list"@ ==> (line_reading(
            seq![command],
        ) matches Reading::Done(set) && {
            &&& set.command == (if command == "urls"@ {
                Command::Urls
            } else if command == "revision"@ {
                Command::Revision
            } else {
                Command::List
            })
            &&& set.limit is None
            &&& set.do_patch
            &&& set.download_missing
            &&& set.country == Country::Us
            &&& set.revision is None
            &&& set.game_path is None
            &&& set.jobs == 5
        }),
{
    lemma_arguments_differ();
    lemma_known_arguments();
    assert(seq![command].skip(1) =~= Seq::<Seq<char>>::empty());
}

/// An option whose value is missing, behind arguments that can be read, is an error that says so.
/// One whose value is wrong is the same error, whatever follows it.
pub proof fn law_missing_and_wrong_values_are_errors(
    args: Seq<Seq<char>>,
    set: SettingsView,
    value: Seq<char>,
    rest: Seq<Seq<char>>,
)
    requires
        line_reading(args) == Reading::Done(set),
    ensures
        invoked(args + seq!["--path"@]) == Err::<InvocationView, _>(
            errors::ErrorView::Protocol("--path needs a value"@),
        ),
        invoked(args + seq!["--revision"@]) == Err::<InvocationView, _>(
            errors::ErrorView::Protocol("--revision needs a value"@),
        ),
        invoked(args + seq!["--jobs"@]) == Err::<InvocationView, _>(
            errors::ErrorView::Protocol("--jobs needs a positive integer"@),
        ),
        invoked(args + seq!["--country"@]) == Err::<InvocationView, _>(
            errors::ErrorView::Protocol("unknown country: "@ + debug_text(None)),
        ),
        set.command == Command::List ==> invoked(args + seq!["--limit"@]) == Err::<
            InvocationView,
            _,
        >(errors::ErrorView::Protocol("--limit needs a number"@)),
        text::number_of(value) is None || text::number_of(value) == Some(0nat) ==> invoked(
            args + (seq!["--jobs"@, value] + rest),
        ) == Err::<InvocationView, _>(
            errors::ErrorView::Protocol("--jobs needs a positive integer"@),
        ),
        value != "us"@ && value != "eu"@ ==> invoked(args + (seq!["--country"@, value] + rest))
            == Err::<InvocationView, _>(
            errors::ErrorView::Protocol("unknown country: "@ + debug_text(Some(value))),
        ),
        set.command == Command::List && text::number_of(value) is None ==> invoked(
            args + (seq!["--limit"@, value] + rest),
        ) == Err::<InvocationView, _>(errors::ErrorView::Protocol("--limit needs a number"@)),
{
    lemma_arguments_differ();
    lemma_known_arguments();
    lemma_one_switch(args, set, "--path"@);
    lemma_one_switch(args, set, "--revision"@);
    lemma_one_switch(args, set, "--jobs"@);
    lemma_one_switch(args, set, "--country"@);
    lemma_one_switch(args, set, "--limit"@);
    lemma_wrong_value(args, set, "--jobs"@, value, rest);
    lemma_wrong_value(args, set, "--country"@, value, rest);
    lemma_wrong_value(args, set, "--limit"@, value, rest);
}

/// An option whose value ends the reading ends it whatever follows.
proof fn lemma_wrong_value(
    args: Seq<Seq<char>>,
    set: SettingsView,
    option: Seq<char>,
    value: Seq<char>,
    rest: Seq<Seq<char>>,
)
    requires
        line_reading(args) == Reading::Done(set),
        command_of(option) is None,
    ensures
        argument(seq![option, value], set) matches Argument::Ends(end) ==> line_reading(
            args + (seq![option, value] + rest),
        ) == end,
{
    let more = seq![option, value] + rest;
    assert(more[0] == option && more[1] == value);
    law_line_goes_on(args, more, set);
    assert(argument(more, set) == argument(seq![option, value], set));
}

/// The texts of the arguments are the arguments' own.
pub proof fn lemma_arg_texts(args: Seq<String>)
    ensures
        arg_texts(args).len() == args.len(),
        forall|i: int| 0 <= i < args.len() ==> #[trigger] arg_texts(args)[i] == args[i]@,
{
}

/// What an invocation's view says is what the invocation says.
pub proof fn law_views_tell_invocations(invocation: Invocation)
    ensures
        match invocation {
            Invocation::Patch(options) => invocation@ matches InvocationView::Patch(view) && view
                == options@,
            Invocation::NothingToDo => invocation@ is NothingToDo,
            Invocation::Urls(country) => invocation@ matches InvocationView::Urls(view) && view
                == country,
            Invocation::Revision(country) => invocation@ matches InvocationView::Revision(view)
                && view == country,
            Invocation::List(country, limit) => invocation@ matches InvocationView::List(
                view,
                number,
            ) && view == country && match (limit, number) {
                (Some(n), Some(m)) => n == m,
                (None, None) => true,
                _ => false,
            },
            Invocation::Help => invocation@ is Help,
            Invocation::UnknownArgument(arg) => invocation@ matches InvocationView::UnknownArgument(
                view,
            ) && view == arg@,
            Invocation::MissingPath => invocation@ is MissingPath,
        },
{
}

/// A path alone asks for a patch of Wizard101 for Windows at that path, from the US server, of its
/// own revision, missing files and all, with five workers.
pub proof fn law_path_alone_asks_for_a_whole_patch(
    args: &Vec<String>,
    r: Result<Invocation, WizPatchError>,
)
    requires
        call_ensures(parse_args, (args,), r),
        args@.len() == 2,
        args@[0]@ == "--path"@,
    ensures
        r matches Ok(Invocation::Patch(options)) && {
            &&& options.game == Game::Wizard101
            &&& options.platform == Platform::Windows
            &&& options.country == Country::Us
            &&& options.revision is None
            &&& options.download_missing
            &&& options.game_path@ == args@[1]@
            &&& options.jobs == 5
        },
{
    lemma_arg_texts(args@);
    assert(arg_texts(args@) =~= seq!["--path"@, args@[1]@]);
    law_path_alone_is_enough(args@[1]@);
}

/// One more argument behind a command line that asks for a patch: a switch sets what it is for and
/// leaves the other options as they were, and anything else that needs no value asks for the usage,
/// lacks its value, or is not known.
pub proof fn law_switch_sets_one_option(
    args: &Vec<String>,
    all: &Vec<String>,
    o: PatchOptions,
    r: Result<Invocation, WizPatchError>,
)
    requires
        call_ensures(parse_args, (args,), Ok(Invocation::Patch(o))),
        call_ensures(parse_args, (all,), r),
        all@.len() == args@.len() + 1,
        forall|i: int| 0 <= i < args@.len() ==> (#[trigger] all@[i])@ == args@[i]@,
    ensures
        all@.last()@ == "--no-download-missing"@ ==> (r matches Ok(Invocation::Patch(p)) && {
            &&& !p.download_missing
            &&& p@ == (patcher::PatchOptionsView { download_missing: false, ..o@ })
        }),
        all@.last()@ == "--download-missing"@ ==> (r matches Ok(Invocation::Patch(p)) && {
            &&& p.download_missing
            &&& p@ == (patcher::PatchOptionsView { download_missing: true, ..o@ })
        }),
        all@.last()@ == "--patch"@ ==> (r matches Ok(Invocation::Patch(p)) && p@ == o@),
        all@.last()@ == "--no-patch"@ ==> (r matches Ok(Invocation::NothingToDo)),
        all@.last()@ == "-h"@ || all@.last()@ == "--help"@ || all@.last()@ == "help"@ ==> (
        r matches Ok(Invocation::Help)),
        all@.last()@ == "--path"@ ==> (r matches Err(WizPatchError::Protocol(text)) && text@
            == "--path needs a value"@),
        all@.last()@ == "--revision"@ ==> (r matches Err(WizPatchError::Protocol(text)) && text@
            == "--revision needs a value"@),
        all@.last()@ == "--jobs"@ ==> (r matches Err(WizPatchError::Protocol(text)) && text@
            == "--jobs needs a positive integer"@),
        all@.last()@ == "--country"@ ==> (r matches Err(WizPatchError::Protocol(text)) && text@
            == "unknown country: "@ + debug_text(None)),
        all@.last()@ != "--no-download-missing"@ && all@.last()@ != "--download-missing"@
            && all@.last()@ != "--patch"@ && all@.last()@ != "--no-patch"@ && all@.last()@ != "-h"@
            && all@.last()@ != "--help"@ && all@.last()@ != "help"@ && all@.last()@ != "--path"@
            && all@.last()@ != "--revision"@ && all@.last()@ != "--jobs"@ && all@.last()@
            != "--country"@ ==> (r matches Ok(Invocation::UnknownArgument(text)) && text@
            == all@.last()@),
{
    let texts = arg_texts(args@);
    let last = all@.last()@;
    lemma_patch_line(args, o);
    assert(arg_texts(all@) =~= texts + seq![last]);
    let set = line_reading(texts)->Done_0;
    lemma_arguments_differ();
    lemma_known_arguments();
    law_line_goes_on(texts, seq![last], set);
    reveal_with_fuel(reading, 2);
    assert(seq![last].skip(1) =~= Seq::<Seq<char>>::empty());
}

/// A command line that asks for a patch was read, and set the patch's options.
proof fn lemma_patch_line(args: &Vec<String>, o: PatchOptions)
    requires
        call_ensures(parse_args, (args,), Ok(Invocation::Patch(o))),
    ensures
        invoked(arg_texts(args@)) == Ok::<_, errors::ErrorView>(InvocationView::Patch(o@)),
        line_reading(arg_texts(args@)) is Done,
        asked_for(line_reading(arg_texts(args@))->Done_0) == InvocationView::Patch(o@),
        line_reading(arg_texts(args@))->Done_0.command == Command::Patch,
        line_reading(arg_texts(args@))->Done_0.do_patch,
        args@.len() > 0,
{
    let r = Ok::<Invocation, WizPatchError>(Invocation::Patch(o));
    assert(errors::viewed(r) == invoked(arg_texts(args@)));
    if args@.len() == 0 {
        assert(arg_texts(args@) =~= Seq::empty());
    }
}

/// Two more arguments behind a command line that asks for a patch, an option and its value: the
/// value is set, read as it stands, and the other options are left as they were. A value that the
/// option does not take is an error.
pub proof fn law_option_sets_its_value(
    args: &Vec<String>,
    all: &Vec<String>,
    value: &str,
    number: Option<usize>,
    o: PatchOptions,
    r: Result<Invocation, WizPatchError>,
)
    requires
        call_ensures(parse_args, (args,), Ok(Invocation::Patch(o))),
        call_ensures(parse_args, (all,), r),
        all@.len() == args@.len() + 2,
        forall|i: int| 0 <= i < args@.len() ==> (#[trigger] all@[i])@ == args@[i]@,
        all@.last()@ == value@,
        call_ensures(read_number, (value,), number),
    ensures
        all@[args@.len() as int]@ == "--path"@ ==> (r matches Ok(Invocation::Patch(p)) && {
            &&& p.game_path@ == value@
            &&& p@ == (patcher::PatchOptionsView { game_path: value@, ..o@ })
        }),
        all@[args@.len() as int]@ == "--revision"@ ==> (r matches Ok(Invocation::Patch(p)) && {
            &&& p.revision matches Some(revision) && revision@ == value@
            &&& p@ == (patcher::PatchOptionsView { revision: Some(value@), ..o@ })
        }),
        all@[args@.len() as int]@ == "--country"@ ==> {
            &&& value@ == "us"@ ==> (r matches Ok(Invocation::Patch(p)) && {
                &&& p.country == Country::Us
                &&& p@ == (patcher::PatchOptionsView { country: Country::Us, ..o@ })
            })
            &&& value@ == "eu"@ ==> (r matches Ok(Invocation::Patch(p)) && {
                &&& p.country == Country::Eu
                &&& p@ == (patcher::PatchOptionsView { country: Country::Eu, ..o@ })
            })
            &&& value@ != "us"@ && value@ != "eu"@ ==> (r matches Err(
                WizPatchError::Protocol(text),
            ) && text@ == "unknown country: "@ + debug_text(Some(value@)))
        },
        all@[args@.len() as int]@ == "--jobs"@ ==> match number {
            Some(n) if n >= 1 => r matches Ok(Invocation::Patch(p)) && {
                &&& p.jobs == n
                &&& p@ == (patcher::PatchOptionsView { jobs: n as nat, ..o@ })
            },
            _ => r matches Err(WizPatchError::Protocol(text)) && text@
                == "--jobs needs a positive integer"@,
        },
{
    let texts = arg_texts(args@);
    let option = all@[args@.len() as int]@;
    lemma_patch_line(args, o);
    assert(arg_texts(all@) =~= texts + seq![option, value@]);
    let set = line_reading(texts)->Done_0;
    lemma_us_is_not_eu();
    lemma_arguments_differ();
    lemma_known_arguments();
    if option == "--path"@ || option == "--revision"@ || option == "--country"@ || option
        == "--jobs"@ {
        lemma_one_option(texts, set, option, value@);
    }
}

/// The two regions have different names.
proof fn lemma_us_is_not_eu()
    ensures
        "us"@ != "eu"@,
{
    reveal_strlit("us");
    reveal_strlit("eu");
    assert("us"@[0] != "eu"@[0]);
}

/// The commands that print something, with a country or, for the list, with a limit.
pub proof fn law_commands_are_obeyed(
    args: &Vec<String>,
    value: &str,
    number: Option<usize>,
    r: Result<Invocation, WizPatchError>,
)
    requires
        call_ensures(parse_args, (args,), r),
        call_ensures(read_number, (value,), number),
        args@.len() == 1 || args@.len() == 3 && args@[2]@ == value@,
    ensures
        args@.len() == 1 && args@[0]@ == "urls"@ ==> (r matches Ok(Invocation::Urls(country))
            && country == Country::Us),
        args@.len() == 1 && args@[0]@ == "revision"@ ==> (r matches Ok(
            Invocation::Revision(country),
        ) && country == Country::Us),
        args@.len() == 1 && args@[0]@ == "list"@ ==> (r matches Ok(Invocation::List(country, limit))
            && country == Country::Us && limit is None),
        args@.len() == 3 && args@[0]@ == "list"@ && args@[1]@ == "--limit"@ ==> match number {
            Some(n) => r matches Ok(Invocation::List(country, limit)) && country == Country::Us
                && limit == Some(n),
            None => r matches Err(WizPatchError::Protocol(text)) && text@
                == "--limit needs a number"@,
        },
        args@.len() == 3 && args@[1]@ == "--country"@ && value@ == "eu"@ ==> {
            &&& args@[0]@ == "urls"@ ==> (r matches Ok(Invocation::Urls(country)) && country
                == Country::Eu)
            &&& args@[0]@ == "revision"@ ==> (r matches Ok(Invocation::Revision(country))
                && country == Country::Eu)
            &&& args@[0]@ == "list"@ ==> (r matches Ok(Invocation::List(country, limit)) && country
                == Country::Eu && limit is None)
        },
{
    let texts = arg_texts(args@);
    lemma_arg_texts(args@);
    lemma_us_is_not_eu();
    lemma_arguments_differ();
    lemma_known_arguments();
    let command = texts[0];
    law_defaults(command);
    if args@.len() == 1 {
        assert(texts =~= seq![command]);
    } else if command_of(command) is Some {
        let set = line_reading(seq![command])->Done_0;
        assert(texts =~= seq![command] + seq![texts[1], value@]);
        if texts[1] == "--limit"@ || texts[1] == "--country"@ {
            lemma_one_option(seq![command], set, texts[1], value@);
        }
    }
}

/// As many records are listed as the limit allows and the list holds.
pub proof fn law_list_is_as_long_as_it_may_be(total: usize, limit: Option<usize>, r: usize)
    requires
        call_ensures(list_len, (total, limit), r),
    ensures
        r <= total,
        limit matches Some(n) ==> r <= n,
        r == total || limit == Some(r),
{
}

/// The error about a country says how it was shown, whole.
pub proof fn law_country_error_ends_with_what_was_shown(shown: &str, error: WizPatchError)
    requires
        call_ensures(unknown_country, (shown,), error),
    ensures
        error matches WizPatchError::Protocol(text) && text@ == "unknown country: "@ + shown@,
{
}

} // verus!
