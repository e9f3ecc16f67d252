//! The command line of the one-shot front end: its grammar, the commands
//! that it yields, and the requests that the commands become.

use vstd::prelude::*;
use vstd::string::*;
use crate::error::{Field, MemoryError};
use crate::keywords::{all_digits, digits_value, is_digit};
use crate::model::{
    check_importance, effective_limit, importance_ok, RecallArgs, RecallArgsView,
    RememberArgs, RememberArgsView,
};
use crate::text::{
    chars_of, opt_text, push_str, same_str, same_text, slice_of, string_of, texts,
};

verus! {

/// An option of the command line.
#[derive(Debug, Clone, Copy, PartialEq, Eq, Structural)]
pub enum Opt {
    Namespace,
    Keyword,
    Slice,
    SliceFile,
    Diary,
    DiaryFile,
    OccurredAt,
    Importance,
    Source,
    Start,
    End,
    Query,
    Limit,
    IncludeDiary,
    Pretty,
    Text,
}

/// What a command line asks to be done.
#[derive(Debug, Clone, Copy, PartialEq, Eq, Structural)]
pub enum Verb {
    Remember,
    Recall,
    Now,
    KeywordsList,
    KeywordsListGlobal,
}

/// How many values an option takes each time it is given.
#[derive(Debug, Clone, Copy, PartialEq, Eq, Structural)]
pub enum Arity {
    /// None: the option is a switch.
    Flag,
    /// Exactly one.
    One,
    /// One or more.
    Many,
}

/// Why a command line was refused.
#[derive(Debug, Clone, Copy, PartialEq, Eq, Structural)]
pub enum CliError {
    /// `--help` or `-h` was given.
    HelpRequested,
    /// `--version` or `-V` was given.
    VersionRequested,
    /// The command is not one of `remember`, `recall`, `now`, `keywords`,
    /// or `keywords` is not followed by `list` or `list-global`.
    UnknownCommand,
    /// `keywords` stands alone.
    MissingCommand,
    /// An option that the command does not have.
    UnknownOption,
    /// An argument that is neither an option nor the value of one.
    UnexpectedArgument,
    /// An option that takes a value is not followed by one, or a switch is
    /// given a value.
    BadValue,
    /// An option that may be given once is given again.
    Repeated(Opt),
    /// An option that must be given is missing.
    Missing(Opt),
    /// Two options that exclude each other are both given.
    Conflict(Opt, Opt),
    /// The value of a numeric option is not a number that fits.
    InvalidNumber(Opt),
}

impl Opt {
    /// The name of the option behind `--`.
    pub open spec fn long(self) -> Seq<char> {
        match self {
            Opt::Namespace => "namespace"@,
            Opt::Keyword => "keyword"@,
            Opt::Slice => "slice"@,
            Opt::SliceFile => "slice-file"@,
            Opt::Diary => "diary"@,
            Opt::DiaryFile => "diary-file"@,
            Opt::OccurredAt => "occurred-at"@,
            Opt::Importance => "importance"@,
            Opt::Source => "source"@,
            Opt::Start => "start"@,
            Opt::End => "end"@,
            Opt::Query => "query"@,
            Opt::Limit => "limit"@,
            Opt::IncludeDiary => "include-diary"@,
            Opt::Pretty => "pretty"@,
            Opt::Text => "text"@,
        }
    }

    /// The name of the option behind `--`.
    pub fn long_name(&self) -> (r: &'static str)
        ensures
            r@ == self.long(),
    {
        match self {
            Opt::Namespace => "namespace",
            Opt::Keyword => "keyword",
            Opt::Slice => "slice",
            Opt::SliceFile => "slice-file",
            Opt::Diary => "diary",
            Opt::DiaryFile => "diary-file",
            Opt::OccurredAt => "occurred-at",
            Opt::Importance => "importance",
            Opt::Source => "source",
            Opt::Start => "start",
            Opt::End => "end",
            Opt::Query => "query",
            Opt::Limit => "limit",
            Opt::IncludeDiary => "include-diary",
            Opt::Pretty => "pretty",
            Opt::Text => "text",
        }
    }

    /// The option with the given number, counted in the order in which the
    /// options are declared.
    pub open spec fn numbered(i: int) -> Opt {
        if i == 0 {
            Opt::Namespace
        } else if i == 1 {
            Opt::Keyword
        } else if i == 2 {
            Opt::Slice
        } else if i == 3 {
            Opt::SliceFile
        } else if i == 4 {
            Opt::Diary
        } else if i == 5 {
            Opt::DiaryFile
        } else if i == 6 {
            Opt::OccurredAt
        } else if i == 7 {
            Opt::Importance
        } else if i == 8 {
            Opt::Source
        } else if i == 9 {
            Opt::Start
        } else if i == 10 {
            Opt::End
        } else if i == 11 {
            Opt::Query
        } else if i == 12 {
            Opt::Limit
        } else if i == 13 {
            Opt::IncludeDiary
        } else if i == 14 {
            Opt::Pretty
        } else {
            Opt::Text
        }
    }

    /// The option with the given number.
    pub fn by_number(i: usize) -> (r: Opt)
        ensures
            r == Opt::numbered(i as int),
    {
        if i == 0 {
            Opt::Namespace
        } else if i == 1 {
            Opt::Keyword
        } else if i == 2 {
            Opt::Slice
        } else if i == 3 {
            Opt::SliceFile
        } else if i == 4 {
            Opt::Diary
        } else if i == 5 {
            Opt::DiaryFile
        } else if i == 6 {
            Opt::OccurredAt
        } else if i == 7 {
            Opt::Importance
        } else if i == 8 {
            Opt::Source
        } else if i == 9 {
            Opt::Start
        } else if i == 10 {
            Opt::End
        } else if i == 11 {
            Opt::Query
        } else if i == 12 {
            Opt::Limit
        } else if i == 13 {
            Opt::IncludeDiary
        } else if i == 14 {
            Opt::Pretty
        } else {
            Opt::Text
        }
    }
}

/// How many values `opt` takes under `verb`; `None` where the verb does not
/// have the option. Only `remember` lets one `--keyword` take several
/// values.
pub open spec fn arity_of(verb: Verb, opt: Opt) -> Option<Arity> {
    match verb {
        Verb::Remember => match opt {
            Opt::Namespace | Opt::Slice | Opt::SliceFile | Opt::Diary | Opt::DiaryFile
            | Opt::OccurredAt | Opt::Importance | Opt::Source => Some(Arity::One),
            Opt::Keyword => Some(Arity::Many),
            Opt::Pretty | Opt::Text => Some(Arity::Flag),
            _ => None,
        },
        Verb::Recall => match opt {
            Opt::Namespace | Opt::Keyword | Opt::Start | Opt::End | Opt::Query | Opt::Limit => Some(
                Arity::One,
            ),
            Opt::IncludeDiary | Opt::Pretty | Opt::Text => Some(Arity::Flag),
            _ => None,
        },
        Verb::Now | Verb::KeywordsListGlobal => match opt {
            Opt::Pretty | Opt::Text => Some(Arity::Flag),
            _ => None,
        },
        Verb::KeywordsList => match opt {
            Opt::Namespace => Some(Arity::One),
            Opt::Pretty | Opt::Text => Some(Arity::Flag),
            _ => None,
        },
    }
}

/// How many values `opt` takes under `verb`.
pub fn arity(verb: Verb, opt: Opt) -> (r: Option<Arity>)
    ensures
        r == arity_of(verb, opt),
{
    match verb {
        Verb::Remember => match opt {
            Opt::Namespace | Opt::Slice | Opt::SliceFile | Opt::Diary | Opt::DiaryFile
            | Opt::OccurredAt | Opt::Importance | Opt::Source => Some(Arity::One),
            Opt::Keyword => Some(Arity::Many),
            Opt::Pretty | Opt::Text => Some(Arity::Flag),
            _ => None,
        },
        Verb::Recall => match opt {
            Opt::Namespace | Opt::Keyword | Opt::Start | Opt::End | Opt::Query | Opt::Limit => Some(
                Arity::One,
            ),
            Opt::IncludeDiary | Opt::Pretty | Opt::Text => Some(Arity::Flag),
            _ => None,
        },
        Verb::Now | Verb::KeywordsListGlobal => match opt {
            Opt::Pretty | Opt::Text => Some(Arity::Flag),
            _ => None,
        },
        Verb::KeywordsList => match opt {
            Opt::Namespace => Some(Arity::One),
            Opt::Pretty | Opt::Text => Some(Arity::Flag),
            _ => None,
        },
    }
}

/// The first option of `verb`, numbered `from` or higher, whose long name
/// is `name`.
pub open spec fn option_named(verb: Verb, name: Seq<char>, from: int) -> Option<Opt>
    decreases 16 - from,
{
    if from < 0 || from >= 16 {
        None
    } else if arity_of(verb, Opt::numbered(from)) is Some && Opt::numbered(from).long() == name {
        Some(Opt::numbered(from))
    } else {
        option_named(verb, name, from + 1)
    }
}

/// The option of `verb` whose long name is `name`.
fn find_option(verb: Verb, name: &Vec<char>) -> (r: Option<Opt>)
    ensures
        r == option_named(verb, name@, 0),
{
    let mut i: usize = 0;
    while i < 16
        invariant
            i <= 16,
            option_named(verb, name@, 0) == option_named(verb, name@, i as int),
        decreases 16 - i,
    {
        let opt = Opt::by_number(i);
        if arity(verb, opt).is_some() && same_text(&chars_of(opt.long_name()), name) {
            return Some(opt);
        }
        i += 1;
    }
    None
}

/// One option as it was given: a switch that was set, or one value of an
/// option that takes values.
#[derive(Debug, Clone)]
pub struct Given {
    pub opt: Opt,
    pub value: Option<String>,
}

/// One option as it was given, as texts.
pub struct GivenView {
    pub opt: Opt,
    pub value: Option<Seq<char>>,
}

impl View for Given {
    type V = GivenView;

    open spec fn view(&self) -> GivenView {
        GivenView { opt: self.opt, value: opt_text(self.value) }
    }
}

/// The views of a sequence of given options.
pub open spec fn given_views(given: Seq<Given>) -> Seq<GivenView> {
    Seq::new(given.len(), |i: int| given[i]@)
}

/// How far the reading of the arguments of a command has come.
pub struct Reading {
    /// The options given so far.
    pub given: Seq<GivenView>,
    /// The option whose value must come next.
    pub awaited: Option<Opt>,
    /// The option that takes another value if one comes next.
    pub open: Option<Opt>,
}

/// What one argument is, read by itself.
pub enum Token {
    /// `--name`.
    Long(Seq<char>),
    /// `--name=value`.
    LongWithValue(Seq<char>, Seq<char>),
    /// `-k`.
    Short(char),
    /// `-kvalue`.
    ShortWithValue(char, Seq<char>),
    /// The bare `--`.
    Stop,
    /// Anything else: a value.
    Plain(Seq<char>),
}

/// The first position of `=` in `s` at or after `from`, or the length of
/// `s`.
pub open spec fn equals_at(s: Seq<char>, from: int) -> int
    decreases s.len() - from,
{
    if from < 0 || from >= s.len() {
        s.len() as int
    } else if s[from] == '=' {
        from
    } else {
        equals_at(s, from + 1)
    }
}

/// What the argument `s` is.
pub open spec fn token_of(s: Seq<char>) -> Token {
    if s.len() >= 2 && s[0] == '-' && s[1] == '-' {
        if s.len() == 2 {
            Token::Stop
        } else {
            let at = equals_at(s, 2);
            if at < s.len() {
                Token::LongWithValue(s.subrange(2, at), s.subrange(at + 1, s.len() as int))
            } else {
                Token::Long(s.subrange(2, s.len() as int))
            }
        }
    } else if s.len() >= 2 && s[0] == '-' {
        if s.len() == 2 {
            Token::Short(s[1])
        } else if s[2] == '=' {
            Token::ShortWithValue(s[1], s.subrange(3, s.len() as int))
        } else {
            Token::ShortWithValue(s[1], s.subrange(2, s.len() as int))
        }
    } else {
        Token::Plain(s)
    }
}

/// The long name that a short name stands for: `k` is `keyword`, `h` is
/// `help`, `V` is `version`.
pub open spec fn long_of_short(c: char) -> Option<Seq<char>> {
    if c == 'k' {
        Some("keyword"@)
    } else if c == 'h' {
        Some("help"@)
    } else if c == 'V' {
        Some("version"@)
    } else {
        None
    }
}

/// The reading once the option named `name` is given, with the value that
/// was attached to it, if one was.
pub open spec fn with_option(
    verb: Verb,
    before: Seq<GivenView>,
    name: Seq<char>,
    attached: Option<Seq<char>>,
) -> Result<Reading, CliError> {
    if name == "help"@ {
        Err(CliError::HelpRequested)
    } else if name == "version"@ {
        Err(CliError::VersionRequested)
    } else {
        match option_named(verb, name, 0) {
            None => Err(CliError::UnknownOption),
            Some(opt) => match arity_of(verb, opt) {
                Some(Arity::Flag) => if attached is Some {
                    Err(CliError::BadValue)
                } else {
                    Ok(
                        Reading {
                            given: before.push(GivenView { opt, value: None }),
                            awaited: None,
                            open: None,
                        },
                    )
                },
                Some(Arity::One) => match attached {
                    Some(v) => Ok(
                        Reading {
                            given: before.push(GivenView { opt, value: Some(v) }),
                            awaited: None,
                            open: None,
                        },
                    ),
                    None => Ok(Reading { given: before, awaited: Some(opt), open: None }),
                },
                _ => match attached {
                    Some(v) => Ok(
                        Reading {
                            given: before.push(GivenView { opt, value: Some(v) }),
                            awaited: None,
                            open: Some(opt),
                        },
                    ),
                    None => Ok(Reading { given: before, awaited: Some(opt), open: Some(opt) }),
                },
            },
        }
    }
}

/// The reading once one more argument is taken in.
///
/// An argument that begins with `-` is an option, unless a value is
/// awaited, which is then missing. Any other argument is the value that is
/// awaited, or one more value of the option that still takes values; where
/// neither is the case it has no place.
pub open spec fn with_argument(verb: Verb, before: Reading, arg: Seq<char>) -> Result<
    Reading,
    CliError,
> {
    match token_of(arg) {
        Token::Plain(v) => match before.awaited {
            Some(opt) => Ok(
                Reading {
                    given: before.given.push(GivenView { opt, value: Some(v) }),
                    awaited: None,
                    open: before.open,
                },
            ),
            None => match before.open {
                Some(opt) => Ok(
                    Reading {
                        given: before.given.push(GivenView { opt, value: Some(v) }),
                        awaited: None,
                        open: before.open,
                    },
                ),
                None => Err(CliError::UnexpectedArgument),
            },
        },
        token => if before.awaited is Some {
            Err(CliError::BadValue)
        } else {
            match token {
                Token::Long(name) => with_option(verb, before.given, name, None),
                Token::LongWithValue(name, v) => with_option(verb, before.given, name, Some(v)),
                Token::Short(c) => match long_of_short(c) {
                    Some(name) => with_option(verb, before.given, name, None),
                    None => Err(CliError::UnknownOption),
                },
                Token::ShortWithValue(c, v) => match long_of_short(c) {
                    Some(name) => with_option(verb, before.given, name, Some(v)),
                    None => Err(CliError::UnknownOption),
                },
                _ => Err(CliError::UnexpectedArgument),
            }
        },
    }
}

/// The reading once the first `n` of the arguments are taken in.
pub open spec fn read_upto(verb: Verb, args: Seq<Seq<char>>, n: nat) -> Result<Reading, CliError>
    decreases n,
{
    if n == 0 {
        Ok(Reading { given: Seq::empty(), awaited: None, open: None })
    } else {
        match read_upto(verb, args, (n - 1) as nat) {
            Err(e) => Err(e),
            Ok(before) => with_argument(verb, before, args[n - 1]),
        }
    }
}

/// The options that the arguments of a command give; a value that is still
/// awaited at the end is missing.
pub open spec fn options_given(verb: Verb, args: Seq<Seq<char>>) -> Result<
    Seq<GivenView>,
    CliError,
> {
    match read_upto(verb, args, args.len()) {
        Err(e) => Err(e),
        Ok(reading) => if reading.awaited is Some {
            Err(CliError::BadValue)
        } else {
            Ok(reading.given)
        },
    }
}

/// The values that were given for `opt`, in order.
pub open spec fn values_of(given: Seq<GivenView>, opt: Opt) -> Seq<Seq<char>>
    decreases given.len(),
{
    if given.len() == 0 {
        Seq::empty()
    } else {
        let before = values_of(given.drop_last(), opt);
        if given.last().opt == opt && given.last().value is Some {
            before.push(given.last().value->0)
        } else {
            before
        }
    }
}

/// How often `opt` was given, each of its values counting once.
pub open spec fn times_given(given: Seq<GivenView>, opt: Opt) -> nat
    decreases given.len(),
{
    if given.len() == 0 {
        0
    } else {
        times_given(given.drop_last(), opt) + if given.last().opt == opt {
            1nat
        } else {
            0nat
        }
    }
}

/// The first option, numbered `from` or higher, that may be given once
/// under `verb` and was given more often.
pub open spec fn repeated_option(verb: Verb, given: Seq<GivenView>, from: int) -> Option<Opt>
    decreases 16 - from,
{
    if from < 0 || from >= 16 {
        None
    } else if arity_of(verb, Opt::numbered(from)) != Some(Arity::Many)
        && !(verb == Verb::Recall && Opt::numbered(from) == Opt::Keyword) && times_given(
        given,
        Opt::numbered(from),
    ) > 1 {
        Some(Opt::numbered(from))
    } else {
        repeated_option(verb, given, from + 1)
    }
}

/// The one value of an option that may be given once.
pub open spec fn value_of(given: Seq<GivenView>, opt: Opt) -> Option<Seq<char>> {
    let all = values_of(given, opt);
    if all.len() > 0 {
        Some(all[0])
    } else {
        None
    }
}

/// The one value of an option, or the empty text where it has none.
pub open spec fn value_or_empty(given: Seq<GivenView>, opt: Opt) -> Seq<char> {
    match value_of(given, opt) {
        Some(v) => v,
        None => Seq::empty(),
    }
}

/// The number that a text writes in base ten, with an optional `+` before
/// it, where it is at most `max`.
pub open spec fn number_of(text: Seq<char>, max: nat) -> Option<nat> {
    let digits = if text.len() > 0 && text[0] == '+' {
        text.drop_first()
    } else {
        text
    };
    if digits.len() > 0 && all_digits(digits) && digits_value(digits) <= max {
        Some(digits_value(digits))
    } else {
        None
    }
}

/// `remember`, as given on the command line.
#[derive(Debug, Clone)]
pub struct RememberCommand {
    pub namespace: String,
    pub keywords: Vec<String>,
    pub slice: Option<String>,
    pub slice_file: Option<String>,
    pub diary: Option<String>,
    pub diary_file: Option<String>,
    pub occurred_at: Option<String>,
    pub importance: Option<u8>,
    pub source: Option<String>,
    pub pretty: bool,
    pub text: bool,
}

/// `remember`, as texts.
pub struct RememberCommandView {
    pub namespace: Seq<char>,
    pub keywords: Seq<Seq<char>>,
    pub slice: Option<Seq<char>>,
    pub slice_file: Option<Seq<char>>,
    pub diary: Option<Seq<char>>,
    pub diary_file: Option<Seq<char>>,
    pub occurred_at: Option<Seq<char>>,
    pub importance: Option<u8>,
    pub source: Option<Seq<char>>,
    pub pretty: bool,
    pub text: bool,
}

impl View for RememberCommand {
    type V = RememberCommandView;

    open spec fn view(&self) -> RememberCommandView {
        RememberCommandView {
            namespace: self.namespace@,
            keywords: texts(self.keywords@),
            slice: opt_text(self.slice),
            slice_file: opt_text(self.slice_file),
            diary: opt_text(self.diary),
            diary_file: opt_text(self.diary_file),
            occurred_at: opt_text(self.occurred_at),
            importance: self.importance,
            source: opt_text(self.source),
            pretty: self.pretty,
            text: self.text,
        }
    }
}

/// `recall`, as given on the command line.
#[derive(Debug, Clone)]
pub struct RecallCommand {
    pub namespace: String,
    pub keywords: Vec<String>,
    pub start: Option<String>,
    pub end: Option<String>,
    pub query: Option<String>,
    pub limit: usize,
    pub include_diary: bool,
    pub pretty: bool,
    pub text: bool,
}

/// `recall`, as texts.
pub struct RecallCommandView {
    pub namespace: Seq<char>,
    pub keywords: Seq<Seq<char>>,
    pub start: Option<Seq<char>>,
    pub end: Option<Seq<char>>,
    pub query: Option<Seq<char>>,
    pub limit: usize,
    pub include_diary: bool,
    pub pretty: bool,
    pub text: bool,
}

impl View for RecallCommand {
    type V = RecallCommandView;

    open spec fn view(&self) -> RecallCommandView {
        RecallCommandView {
            namespace: self.namespace@,
            keywords: texts(self.keywords@),
            start: opt_text(self.start),
            end: opt_text(self.end),
            query: opt_text(self.query),
            limit: self.limit,
            include_diary: self.include_diary,
            pretty: self.pretty,
            text: self.text,
        }
    }
}

/// `now`, as given on the command line.
#[derive(Debug, Clone, Copy, PartialEq, Eq, Structural)]
pub struct NowCommand {
    pub pretty: bool,
    pub text: bool,
}

/// `keywords list`, as given on the command line.
#[derive(Debug, Clone)]
pub struct KeywordsListCommand {
    pub namespace: String,
    pub pretty: bool,
    pub text: bool,
}

/// `keywords list-global`, as given on the command line.
#[derive(Debug, Clone, Copy, PartialEq, Eq, Structural)]
pub struct KeywordsListGlobalCommand {
    pub pretty: bool,
    pub text: bool,
}

/// What `keywords` is asked to do.
#[derive(Debug, Clone)]
pub enum KeywordsSubcommand {
    List(KeywordsListCommand),
    ListGlobal(KeywordsListGlobalCommand),
}

/// `keywords`, as given on the command line.
#[derive(Debug, Clone)]
pub struct KeywordsCommand {
    pub command: KeywordsSubcommand,
}

/// A command of the front end.
#[derive(Debug, Clone)]
pub enum Command {
    Remember(RememberCommand),
    Recall(RecallCommand),
    Now(NowCommand),
    Keywords(KeywordsCommand),
}

/// A command line, read.
#[derive(Debug, Clone)]
pub struct Cli {
    /// The command; `None` where the command line names none.
    pub command: Option<Command>,
}

/// A command, as texts.
pub enum CommandView {
    Remember(RememberCommandView),
    Recall(RecallCommandView),
    Now(NowCommand),
    KeywordsList(Seq<char>, bool, bool),
    KeywordsListGlobal(KeywordsListGlobalCommand),
}

impl View for Command {
    type V = CommandView;

    open spec fn view(&self) -> CommandView {
        match self {
            Command::Remember(c) => CommandView::Remember(c@),
            Command::Recall(c) => CommandView::Recall(c@),
            Command::Now(c) => CommandView::Now(*c),
            Command::Keywords(k) => match k.command {
                KeywordsSubcommand::List(c) => CommandView::KeywordsList(
                    c.namespace@,
                    c.pretty,
                    c.text,
                ),
                KeywordsSubcommand::ListGlobal(c) => CommandView::KeywordsListGlobal(c),
            },
        }
    }
}

/// The first option that `verb` demands and that was not given. `remember`
/// demands a namespace and a keyword; `recall` and `keywords list` demand a
/// namespace.
pub open spec fn missing_option(verb: Verb, given: Seq<GivenView>) -> Option<Opt> {
    if (verb == Verb::Remember || verb == Verb::Recall || verb == Verb::KeywordsList)
        && times_given(given, Opt::Namespace) == 0 {
        Some(Opt::Namespace)
    } else if verb == Verb::Remember && times_given(given, Opt::Keyword) == 0 {
        Some(Opt::Keyword)
    } else {
        None
    }
}

/// What `remember` makes of the options given: the slice comes inline or
/// from a file, one of the two and not both, and so does the diary; the
/// importance is a number up to 255.
pub open spec fn remember_command(given: Seq<GivenView>) -> Result<RememberCommandView, CliError> {
    let importance = value_of(given, Opt::Importance);
    if times_given(given, Opt::Slice) > 0 && times_given(given, Opt::SliceFile) > 0 {
        Err(CliError::Conflict(Opt::Slice, Opt::SliceFile))
    } else if times_given(given, Opt::Diary) > 0 && times_given(given, Opt::DiaryFile) > 0 {
        Err(CliError::Conflict(Opt::Diary, Opt::DiaryFile))
    } else if times_given(given, Opt::Slice) == 0 && times_given(given, Opt::SliceFile) == 0 {
        Err(CliError::Missing(Opt::Slice))
    } else if times_given(given, Opt::Diary) == 0 && times_given(given, Opt::DiaryFile) == 0 {
        Err(CliError::Missing(Opt::Diary))
    } else if importance is Some && number_of(importance->0, 255) is None {
        Err(CliError::InvalidNumber(Opt::Importance))
    } else {
        Ok(
            RememberCommandView {
                namespace: value_or_empty(given, Opt::Namespace),
                keywords: values_of(given, Opt::Keyword),
                slice: value_of(given, Opt::Slice),
                slice_file: value_of(given, Opt::SliceFile),
                diary: value_of(given, Opt::Diary),
                diary_file: value_of(given, Opt::DiaryFile),
                occurred_at: value_of(given, Opt::OccurredAt),
                importance: match importance {
                    Some(text) => Some(number_of(text, 255)->0 as u8),
                    None => None,
                },
                source: value_of(given, Opt::Source),
                pretty: times_given(given, Opt::Pretty) > 0,
                text: times_given(given, Opt::Text) > 0,
            },
        )
    }
}

/// What `recall` makes of the options given: the limit is 20 where none is
/// given, and a number that fits the machine word else.
pub open spec fn recall_command(given: Seq<GivenView>) -> Result<RecallCommandView, CliError> {
    let limit = value_of(given, Opt::Limit);
    if limit is Some && number_of(limit->0, usize::MAX as nat) is None {
        Err(CliError::InvalidNumber(Opt::Limit))
    } else {
        Ok(
            RecallCommandView {
                namespace: value_or_empty(given, Opt::Namespace),
                keywords: values_of(given, Opt::Keyword),
                start: value_of(given, Opt::Start),
                end: value_of(given, Opt::End),
                query: value_of(given, Opt::Query),
                limit: match limit {
                    Some(text) => number_of(text, usize::MAX as nat)->0 as usize,
                    None => 20,
                },
                include_diary: times_given(given, Opt::IncludeDiary) > 0,
                pretty: times_given(given, Opt::Pretty) > 0,
                text: times_given(given, Opt::Text) > 0,
            },
        )
    }
}

/// The command that `verb` and its arguments amount to.
///
/// The arguments are read into options first. Then an option that is given
/// too often is reported, then one that is missing, then what the command
/// itself finds wrong.
pub open spec fn command_of(verb: Verb, args: Seq<Seq<char>>) -> Result<CommandView, CliError> {
    match options_given(verb, args) {
        Err(e) => Err(e),
        Ok(given) => if repeated_option(verb, given, 0) is Some {
            Err(CliError::Repeated(repeated_option(verb, given, 0)->0))
        } else if missing_option(verb, given) is Some {
            Err(CliError::Missing(missing_option(verb, given)->0))
        } else {
            match verb {
                Verb::Remember => match remember_command(given) {
                    Ok(c) => Ok(CommandView::Remember(c)),
                    Err(e) => Err(e),
                },
                Verb::Recall => match recall_command(given) {
                    Ok(c) => Ok(CommandView::Recall(c)),
                    Err(e) => Err(e),
                },
                Verb::Now => Ok(
                    CommandView::Now(
                        NowCommand {
                            pretty: times_given(given, Opt::Pretty) > 0,
                            text: times_given(given, Opt::Text) > 0,
                        },
                    ),
                ),
                Verb::KeywordsList => Ok(
                    CommandView::KeywordsList(
                        value_or_empty(given, Opt::Namespace),
                        times_given(given, Opt::Pretty) > 0,
                        times_given(given, Opt::Text) > 0,
                    ),
                ),
                Verb::KeywordsListGlobal => Ok(
                    CommandView::KeywordsListGlobal(
                        KeywordsListGlobalCommand {
                            pretty: times_given(given, Opt::Pretty) > 0,
                            text: times_given(given, Opt::Text) > 0,
                        },
                    ),
                ),
            }
        },
    }
}

/// What a command line amounts to. Its first member is the name of the
/// program and is not looked at. A command line without a command is
/// accepted as such; `--help` and `--version` in place of a command are
/// reported as requests.
pub open spec fn parsed(argv: Seq<Seq<char>>) -> Result<Option<CommandView>, CliError> {
    if argv.len() <= 1 {
        Ok(None)
    } else {
        let word = argv[1];
        let (verb, from): (Option<Verb>, int) = if word == "remember"@ {
            (Some(Verb::Remember), 2)
        } else if word == "recall"@ {
            (Some(Verb::Recall), 2)
        } else if word == "now"@ {
            (Some(Verb::Now), 2)
        } else if word == "keywords"@ && argv.len() > 2 && argv[2] == "list"@ {
            (Some(Verb::KeywordsList), 3)
        } else if word == "keywords"@ && argv.len() > 2 && argv[2] == "list-global"@ {
            (Some(Verb::KeywordsListGlobal), 3)
        } else {
            (None, 2)
        };
        match verb {
            Some(v) => match command_of(v, argv.skip(from)) {
                Ok(c) => Ok(Some(c)),
                Err(e) => Err(e),
            },
            None => if word == "--help"@ || word == "-h"@ {
                Err(CliError::HelpRequested)
            } else if word == "--version"@ || word == "-V"@ {
                Err(CliError::VersionRequested)
            } else if word == "keywords"@ && argv.len() == 2 {
                Err(CliError::MissingCommand)
            } else if word == "keywords"@ && (argv[2] == "--help"@ || argv[2] == "-h"@) {
                Err(CliError::HelpRequested)
            } else {
                Err(CliError::UnknownCommand)
            },
        }
    }
}

/// What `remember` on the command line asks the store for, given what the
/// files that it names hold: the text of the slice file and of the diary
/// file, where one is named. An importance outside `1..=5` is refused first;
/// then a slice, then a diary, that is given neither inline nor by a file.
pub open spec fn remember_args(
    command: RememberCommandView,
    slice_text: Option<Seq<char>>,
    diary_text: Option<Seq<char>>,
) -> Result<RememberArgsView, MemoryError> {
    let slice = if command.slice is Some {
        command.slice
    } else {
        slice_text
    };
    let diary = if command.diary is Some {
        command.diary
    } else {
        diary_text
    };
    if !importance_ok(command.importance) {
        Err(MemoryError::InvalidImportance)
    } else if slice is None {
        Err(MemoryError::EmptyField(Field::Slice))
    } else if diary is None {
        Err(MemoryError::EmptyField(Field::Diary))
    } else {
        Ok(
            RememberArgsView {
                namespace: command.namespace,
                keywords: command.keywords,
                slice: slice->0,
                diary: diary->0,
                occurred_at: command.occurred_at,
                importance: command.importance,
                source: command.source,
            },
        )
    }
}

/// The text that is given inline or, failing that, by a file.
pub fn resolve_inline_or_file(name: Field, inline: Option<String>, file_text: Option<String>) -> (r:
    Result<String, MemoryError>)
    ensures
        match (if inline is Some {
            inline
        } else {
            file_text
        }) {
            Some(text) => r is Ok && r->Ok_0@ == text@,
            None => r is Err && r->Err_0 == MemoryError::EmptyField(name),
        },
{
    if let Some(v) = inline {
        return Ok(v);
    }
    match file_text {
        Some(text) => Ok(text),
        None => Err(MemoryError::EmptyField(name)),
    }
}

/// Whether the bytes begin with the byte order mark of UTF-8.
pub open spec fn has_bom(bytes: Seq<u8>) -> bool {
    bytes.len() >= 3 && bytes[0] == 0xEF && bytes[1] == 0xBB && bytes[2] == 0xBF
}

/// The bytes without a leading byte order mark of UTF-8.
pub open spec fn without_bom(bytes: Seq<u8>) -> Seq<u8> {
    if has_bom(bytes) {
        bytes.skip(3)
    } else {
        bytes
    }
}

/// Takes a leading byte order mark of UTF-8 off the bytes.
pub fn strip_utf8_bom(bytes: &[u8]) -> (r: &[u8])
    ensures
        r@ == without_bom(bytes@),
{
    if bytes.len() >= 3 && bytes[0] == 0xEF && bytes[1] == 0xBB && bytes[2] == 0xBF {
        let (_, rest) = bytes.split_at(3);
        assert(rest@ == bytes@.skip(3));
        rest
    } else {
        bytes
    }
}

impl RememberCommand {
    /// The request to remember that the command amounts to, given the texts
    /// of the slice file and of the diary file, where one is named.
    pub fn into_args(self, slice_text: Option<String>, diary_text: Option<String>) -> (r: Result<
        RememberArgs,
        MemoryError,
    >)
        ensures
            match remember_args(self@, opt_text(slice_text), opt_text(diary_text)) {
                Ok(args) => r is Ok && r->Ok_0@ == args,
                Err(e) => r is Err && r->Err_0 == e,
            },
    {
        if let Err(e) = check_importance(self.importance) {
            return Err(e);
        }
        let slice = match resolve_inline_or_file(Field::Slice, self.slice, slice_text) {
            Ok(text) => text,
            Err(e) => { return Err(e); },
        };
        let diary = match resolve_inline_or_file(Field::Diary, self.diary, diary_text) {
            Ok(text) => text,
            Err(e) => { return Err(e); },
        };
        Ok(
            RememberArgs {
                namespace: self.namespace,
                keywords: self.keywords,
                slice,
                diary,
                occurred_at: self.occurred_at,
                importance: self.importance,
                source: self.source,
            },
        )
    }
}

impl RecallCommand {
    /// The request to recall that the command amounts to: a limit of 0
    /// becomes 20, and one above 100 becomes 100.
    pub fn into_args(self) -> (r: RecallArgs)
        ensures
            r@ == (RecallArgsView {
                namespace: self@.namespace,
                keywords: self@.keywords,
                start: self@.start,
                end: self@.end,
                query: self@.query,
                limit: effective_limit(Some(self@.limit as u64)),
                include_diary: self@.include_diary,
            }),
            1 <= r.limit <= 100,
            self.limit == 0 ==> r.limit == 20,
            self.limit > 100 ==> r.limit == 100,
    {
        let limit = if self.limit == 0 {
            20
        } else if self.limit > 100 {
            100
        } else {
            self.limit
        };
        RecallArgs {
            namespace: self.namespace,
            keywords: self.keywords,
            start: self.start,
            end: self.end,
            query: self.query,
            limit,
            include_diary: self.include_diary,
        }
    }
}

/// What one argument is, read by itself.
enum Piece {
    Long(Vec<char>),
    LongWithValue(Vec<char>, Vec<char>),
    Short(char),
    ShortWithValue(char, Vec<char>),
    Stop,
    Plain(Vec<char>),
}

/// What an executable reading of one argument stands for.
spec fn piece_token(piece: Piece) -> Token {
    match piece {
        Piece::Long(n) => Token::Long(n@),
        Piece::LongWithValue(n, v) => Token::LongWithValue(n@, v@),
        Piece::Short(c) => Token::Short(c),
        Piece::ShortWithValue(c, v) => Token::ShortWithValue(c, v@),
        Piece::Stop => Token::Stop,
        Piece::Plain(v) => Token::Plain(v@),
    }
}

/// Reads one argument by itself.
fn classify(arg: &Vec<char>) -> (r: Piece)
    ensures
        piece_token(r) == token_of(arg@),
{
    let n = arg.len();
    if n >= 2 && arg[0] == '-' && arg[1] == '-' {
        if n == 2 {
            return Piece::Stop;
        }
        let mut at: usize = 2;
        while at < n && arg[at] != '='
            invariant
                2 <= at <= n,
                n == arg@.len(),
                equals_at(arg@, 2) == equals_at(arg@, at as int),
            decreases n - at,
        {
            at += 1;
        }
        if at < n {
            Piece::LongWithValue(slice_of(arg, 2, at), slice_of(arg, at + 1, n))
        } else {
            Piece::Long(slice_of(arg, 2, n))
        }
    } else if n >= 2 && arg[0] == '-' {
        if n == 2 {
            Piece::Short(arg[1])
        } else if arg[2] == '=' {
            Piece::ShortWithValue(arg[1], slice_of(arg, 3, n))
        } else {
            Piece::ShortWithValue(arg[1], slice_of(arg, 2, n))
        }
    } else {
        Piece::Plain(arg.clone())
    }
}

/// The long name that a short name stands for.
fn expand_short(c: char) -> (r: Option<Vec<char>>)
    ensures
        match long_of_short(c) {
            Some(name) => r is Some && r->0@ == name,
            None => r is None,
        },
{
    if c == 'k' {
        Some(chars_of("keyword"))
    } else if c == 'h' {
        Some(chars_of("help"))
    } else if c == 'V' {
        Some(chars_of("version"))
    } else {
        None
    }
}

/// How far the reading of the arguments of a command has come.
struct Progress {
    given: Vec<Given>,
    awaited: Option<Opt>,
    open: Option<Opt>,
}

/// What an executable state of the reading stands for.
spec fn reading_of(progress: Progress) -> Reading {
    Reading {
        given: given_views(progress.given@),
        awaited: progress.awaited,
        open: progress.open,
    }
}

/// Whether an executable step of the reading is the given one.
spec fn step_is(r: Result<Progress, CliError>, m: Result<Reading, CliError>) -> bool {
    match m {
        Ok(reading) => r is Ok && reading_of(r->Ok_0) == reading,
        Err(e) => r is Err && r->Err_0 == e,
    }
}

/// Appends one given option.
fn note(given: &mut Vec<Given>, opt: Opt, value: Option<Vec<char>>)
    ensures
        given_views(final(given)@) == given_views(old(given)@).push(
            GivenView {
                opt,
                value: match value {
                    Some(v) => Some(v@),
                    None => None,
                },
            },
        ),
{
    let ghost before = given_views(given@);
    let value = match value {
        Some(v) => Some(string_of(&v)),
        None => None,
    };
    given.push(Given { opt, value });
    assert(given_views(given@) == before.push(given@.last()@));
}

/// Takes in the option named `name`.
fn take_option(verb: Verb, given: Vec<Given>, name: &Vec<char>, attached: Option<Vec<char>>) -> (r:
    Result<Progress, CliError>)
    ensures
        step_is(
            r,
            with_option(
                verb,
                given_views(given@),
                name@,
                match attached {
                    Some(v) => Some(v@),
                    None => None,
                },
            ),
        ),
{
    let mut given = given;
    if same_text(name, &chars_of("help")) {
        return Err(CliError::HelpRequested);
    }
    if same_text(name, &chars_of("version")) {
        return Err(CliError::VersionRequested);
    }
    let opt = match find_option(verb, name) {
        Some(opt) => opt,
        None => { return Err(CliError::UnknownOption); },
    };
    match arity(verb, opt) {
        Some(Arity::Flag) => {
            if attached.is_some() {
                return Err(CliError::BadValue);
            }
            note(&mut given, opt, None);
            Ok(Progress { given, awaited: None, open: None })
        },
        Some(Arity::One) => match attached {
            Some(v) => {
                note(&mut given, opt, Some(v));
                Ok(Progress { given, awaited: None, open: None })
            },
            None => Ok(Progress { given, awaited: Some(opt), open: None }),
        },
        _ => match attached {
            Some(v) => {
                note(&mut given, opt, Some(v));
                Ok(Progress { given, awaited: None, open: Some(opt) })
            },
            None => Ok(Progress { given, awaited: Some(opt), open: Some(opt) }),
        },
    }
}

/// Takes in one more argument.
fn take_argument(verb: Verb, before: Progress, arg: &Vec<char>) -> (r: Result<Progress, CliError>)
    ensures
        step_is(r, with_argument(verb, reading_of(before), arg@)),
{
    let Progress { given, awaited, open } = before;
    let mut given = given;
    match classify(arg) {
        Piece::Plain(v) => match awaited {
            Some(opt) => {
                note(&mut given, opt, Some(v));
                Ok(Progress { given, awaited: None, open })
            },
            None => match open {
                Some(opt) => {
                    note(&mut given, opt, Some(v));
                    Ok(Progress { given, awaited: None, open })
                },
                None => Err(CliError::UnexpectedArgument),
            },
        },
        piece => {
            if awaited.is_some() {
                return Err(CliError::BadValue);
            }
            match piece {
                Piece::Long(name) => take_option(verb, given, &name, None),
                Piece::LongWithValue(name, v) => take_option(verb, given, &name, Some(v)),
                Piece::Short(c) => match expand_short(c) {
                    Some(name) => take_option(verb, given, &name, None),
                    None => Err(CliError::UnknownOption),
                },
                Piece::ShortWithValue(c, v) => match expand_short(c) {
                    Some(name) => take_option(verb, given, &name, Some(v)),
                    None => Err(CliError::UnknownOption),
                },
                _ => Err(CliError::UnexpectedArgument),
            }
        },
    }
}

/// The texts of the arguments.
pub open spec fn arg_texts(argv: Seq<&str>) -> Seq<Seq<char>> {
    Seq::new(argv.len(), |i: int| argv[i]@)
}

/// Reads the arguments of a command, from position `from` on, into options.
fn read_options(verb: Verb, argv: &[&str], from: usize) -> (r: Result<Vec<Given>, CliError>)
    requires
        from <= argv@.len(),
    ensures
        match options_given(verb, arg_texts(argv@).skip(from as int)) {
            Ok(given) => r is Ok && given_views(r->Ok_0@) == given,
            Err(e) => r is Err && r->Err_0 == e,
        },
{
    let ghost args = arg_texts(argv@).skip(from as int);
    let mut progress = Progress { given: Vec::new(), awaited: None, open: None };
    assert(given_views(progress.given@) == Seq::<GivenView>::empty());
    let mut i: usize = from;
    while i < argv.len()
        invariant
            from <= i <= argv@.len(),
            args == arg_texts(argv@).skip(from as int),
            read_upto(verb, args, (i - from) as nat) == Ok::<Reading, CliError>(
                reading_of(progress),
            ),
        decreases argv.len() - i,
    {
        let arg = chars_of(argv[i]);
        assert(args[i - from] == arg@);
        progress = match take_argument(verb, progress, &arg) {
            Ok(next) => next,
            Err(e) => {
                proof {
                    lemma_read_failed(verb, args, (i - from + 1) as nat, args.len());
                }
                return Err(e);
            },
        };
        i += 1;
    }
    if progress.awaited.is_some() {
        return Err(CliError::BadValue);
    }
    Ok(progress.given)
}

/// Once the reading has failed, more arguments change nothing.
proof fn lemma_read_failed(verb: Verb, args: Seq<Seq<char>>, n: nat, more: nat)
    requires
        n <= more,
        read_upto(verb, args, n) is Err,
    ensures
        read_upto(verb, args, more) == read_upto(verb, args, n),
    decreases more,
{
    if n < more {
        lemma_read_failed(verb, args, n, (more - 1) as nat);
    }
}

/// The values that were given for `opt`, in order.
fn collect_values(given: &Vec<Given>, opt: Opt) -> (r: Vec<String>)
    ensures
        texts(r@) == values_of(given_views(given@), opt),
{
    let ghost all = given_views(given@);
    let mut out: Vec<String> = Vec::new();
    let mut i: usize = 0;
    assert(all.take(0) == Seq::<GivenView>::empty());
    while i < given.len()
        invariant
            i <= given.len(),
            all == given_views(given@),
            texts(out@) == values_of(all.take(i as int), opt),
        decreases given.len() - i,
    {
        proof {
            assert(all.take(i + 1).drop_last() == all.take(i as int));
            assert(all.take(i + 1).last() == given@[i as int]@);
        }
        if given[i].opt == opt {
            if let Some(v) = &given[i].value {
                let ghost before = texts(out@);
                out.push(v.clone());
                assert(texts(out@) == before.push(v@));
            }
        }
        i += 1;
    }
    assert(all.take(given.len() as int) == all);
    out
}

/// The one value of an option that may be given once.
fn single_value(given: &Vec<Given>, opt: Opt) -> (r: Option<String>)
    ensures
        opt_text(r) == value_of(given_views(given@), opt),
{
    let all = collect_values(given, opt);
    if all.len() > 0 {
        assert(texts(all@)[0] == all@[0]@);
        Some(all[0].clone())
    } else {
        None
    }
}

/// How often `opt` was given.
fn count_given(given: &Vec<Given>, opt: Opt) -> (r: usize)
    ensures
        r == times_given(given_views(given@), opt),
{
    let ghost all = given_views(given@);
    let mut count: usize = 0;
    let mut i: usize = 0;
    assert(all.take(0) == Seq::<GivenView>::empty());
    while i < given.len()
        invariant
            i <= given.len(),
            all == given_views(given@),
            count == times_given(all.take(i as int), opt),
            count <= i,
        decreases given.len() - i,
    {
        proof {
            assert(all.take(i + 1).drop_last() == all.take(i as int));
            assert(all.take(i + 1).last() == given@[i as int]@);
        }
        if given[i].opt == opt {
            count += 1;
        }
        i += 1;
    }
    assert(all.take(given.len() as int) == all);
    count
}

/// The first option that may be given once under `verb` and was given more
/// often.
fn find_repeated(verb: Verb, given: &Vec<Given>) -> (r: Option<Opt>)
    ensures
        r == repeated_option(verb, given_views(given@), 0),
{
    let mut i: usize = 0;
    while i < 16
        invariant
            i <= 16,
            repeated_option(verb, given_views(given@), 0) == repeated_option(
                verb,
                given_views(given@),
                i as int,
            ),
        decreases 16 - i,
    {
        let opt = Opt::by_number(i);
        let many = match arity(verb, opt) {
            Some(Arity::Many) => true,
            _ => false,
        };
        let appended = verb == Verb::Recall && opt == Opt::Keyword;
        if !many && !appended && count_given(given, opt) > 1 {
            return Some(opt);
        }
        i += 1;
    }
    None
}

/// Reads a number in base ten, with an optional `+` before it, that is at
/// most `max`.
fn read_number(text: &Vec<char>, max: u64) -> (r: Option<u64>)
    ensures
        match number_of(text@, max as nat) {
            Some(n) => r == Some(n as u64),
            None => r is None,
        },
{
    let n = text.len();
    let from: usize = if n > 0 && text[0] == '+' {
        1
    } else {
        0
    };
    let ghost digits = text@.subrange(from as int, n as int);
    assert(digits == if text@.len() > 0 && text@[0] == '+' {
        text@.drop_first()
    } else {
        text@
    });
    if from == n {
        return None;
    }
    let mut acc: u128 = 0;
    let mut i: usize = from;
    assert(digits.take(0) == Seq::<char>::empty());
    while i < n
        invariant
            from <= i <= n,
            n == text@.len(),
            digits == text@.subrange(from as int, n as int),
            digits == if text@.len() > 0 && text@[0] == '+' {
                text@.drop_first()
            } else {
                text@
            },
            all_digits(digits.take(i - from)),
            acc == digits_value(digits.take(i - from)),
            acc <= max,
        decreases n - i,
    {
        let c = text[i];
        assert(digits[i - from] == c);
        if !(c >= '0' && c <= '9') {
            assert(!is_digit(digits[i - from]));
            return None;
        }
        proof {
            assert(digits.take(i - from + 1).drop_last() == digits.take(i - from));
            assert(digits.take(i - from + 1).last() == c);
            assert forall|k: int| 0 <= k < i - from + 1 implies is_digit(
                #[trigger] digits.take(i - from + 1)[k],
            ) by {
                if k < i - from {
                    assert(is_digit(digits.take(i - from)[k]));
                }
            }
        }
        acc = acc * 10 + (c as u32 - 48) as u128;
        if acc > max as u128 {
            proof {
                if all_digits(digits) {
                    crate::keywords::lemma_digits_value_grows(digits, i - from + 1);
                }
            }
            return None;
        }
        i += 1;
    }
    assert(digits.take(n - from) == digits);
    Some(acc as u64)
}

/// Whether a switch was set.
fn is_set(given: &Vec<Given>, opt: Opt) -> (r: bool)
    ensures
        r == (times_given(given_views(given@), opt) > 0),
{
    count_given(given, opt) > 0
}

/// The first option that `verb` demands and that was not given.
fn find_missing(verb: Verb, given: &Vec<Given>) -> (r: Option<Opt>)
    ensures
        r == missing_option(verb, given_views(given@)),
{
    if (verb == Verb::Remember || verb == Verb::Recall || verb == Verb::KeywordsList) && !is_set(
        given,
        Opt::Namespace,
    ) {
        Some(Opt::Namespace)
    } else if verb == Verb::Remember && !is_set(given, Opt::Keyword) {
        Some(Opt::Keyword)
    } else {
        None
    }
}

/// What `remember` makes of the options given.
fn build_remember(given: &Vec<Given>) -> (r: Result<RememberCommand, CliError>)
    ensures
        match remember_command(given_views(given@)) {
            Ok(c) => r is Ok && r->Ok_0@ == c,
            Err(e) => r is Err && r->Err_0 == e,
        },
{
    if is_set(given, Opt::Slice) && is_set(given, Opt::SliceFile) {
        return Err(CliError::Conflict(Opt::Slice, Opt::SliceFile));
    }
    if is_set(given, Opt::Diary) && is_set(given, Opt::DiaryFile) {
        return Err(CliError::Conflict(Opt::Diary, Opt::DiaryFile));
    }
    if !is_set(given, Opt::Slice) && !is_set(given, Opt::SliceFile) {
        return Err(CliError::Missing(Opt::Slice));
    }
    if !is_set(given, Opt::Diary) && !is_set(given, Opt::DiaryFile) {
        return Err(CliError::Missing(Opt::Diary));
    }
    let importance = match single_value(given, Opt::Importance) {
        Some(text) => match read_number(&chars_of(text.as_str()), 255) {
            Some(n) => Some(n as u8),
            None => { return Err(CliError::InvalidNumber(Opt::Importance)); },
        },
        None => None,
    };
    Ok(
        RememberCommand {
            namespace: single_value_or_empty(given, Opt::Namespace),
            keywords: collect_values(given, Opt::Keyword),
            slice: single_value(given, Opt::Slice),
            slice_file: single_value(given, Opt::SliceFile),
            diary: single_value(given, Opt::Diary),
            diary_file: single_value(given, Opt::DiaryFile),
            occurred_at: single_value(given, Opt::OccurredAt),
            importance,
            source: single_value(given, Opt::Source),
            pretty: is_set(given, Opt::Pretty),
            text: is_set(given, Opt::Text),
        },
    )
}

/// The one value of an option, or the empty text where it has none.
fn single_value_or_empty(given: &Vec<Given>, opt: Opt) -> (r: String)
    ensures
        r@ == value_or_empty(given_views(given@), opt),
{
    match single_value(given, opt) {
        Some(text) => text,
        None => String::new(),
    }
}

/// What `recall` makes of the options given.
fn build_recall(given: &Vec<Given>) -> (r: Result<RecallCommand, CliError>)
    ensures
        match recall_command(given_views(given@)) {
            Ok(c) => r is Ok && r->Ok_0@ == c,
            Err(e) => r is Err && r->Err_0 == e,
        },
{
    let limit: usize = match single_value(given, Opt::Limit) {
        Some(text) => match read_number(&chars_of(text.as_str()), usize::MAX as u64) {
            Some(n) => n as usize,
            None => { return Err(CliError::InvalidNumber(Opt::Limit)); },
        },
        None => 20,
    };
    Ok(
        RecallCommand {
            namespace: single_value_or_empty(given, Opt::Namespace),
            keywords: collect_values(given, Opt::Keyword),
            start: single_value(given, Opt::Start),
            end: single_value(given, Opt::End),
            query: single_value(given, Opt::Query),
            limit,
            include_diary: is_set(given, Opt::IncludeDiary),
            pretty: is_set(given, Opt::Pretty),
            text: is_set(given, Opt::Text),
        },
    )
}

/// Whether an executable command is the given one, or the same refusal.
pub open spec fn command_is(r: Result<Command, CliError>, m: Result<CommandView, CliError>) -> bool {
    match m {
        Ok(c) => r is Ok && r->Ok_0@ == c,
        Err(e) => r is Err && r->Err_0 == e,
    }
}

/// Reads the command that `verb` and the arguments from `from` on amount to.
fn read_command(verb: Verb, argv: &[&str], from: usize) -> (r: Result<Command, CliError>)
    requires
        from <= argv@.len(),
    ensures
        command_is(r, command_of(verb, arg_texts(argv@).skip(from as int))),
{
    let given = match read_options(verb, argv, from) {
        Ok(given) => given,
        Err(e) => { return Err(e); },
    };
    if let Some(opt) = find_repeated(verb, &given) {
        return Err(CliError::Repeated(opt));
    }
    if let Some(opt) = find_missing(verb, &given) {
        return Err(CliError::Missing(opt));
    }
    match verb {
        Verb::Remember => match build_remember(&given) {
            Ok(c) => Ok(Command::Remember(c)),
            Err(e) => Err(e),
        },
        Verb::Recall => match build_recall(&given) {
            Ok(c) => Ok(Command::Recall(c)),
            Err(e) => Err(e),
        },
        Verb::Now => Ok(
            Command::Now(
                NowCommand { pretty: is_set(&given, Opt::Pretty), text: is_set(&given, Opt::Text) },
            ),
        ),
        Verb::KeywordsList => Ok(
            Command::Keywords(
                KeywordsCommand {
                    command: KeywordsSubcommand::List(
                        KeywordsListCommand {
                            namespace: single_value_or_empty(&given, Opt::Namespace),
                            pretty: is_set(&given, Opt::Pretty),
                            text: is_set(&given, Opt::Text),
                        },
                    ),
                },
            ),
        ),
        Verb::KeywordsListGlobal => Ok(
            Command::Keywords(
                KeywordsCommand {
                    command: KeywordsSubcommand::ListGlobal(
                        KeywordsListGlobalCommand {
                            pretty: is_set(&given, Opt::Pretty),
                            text: is_set(&given, Opt::Text),
                        },
                    ),
                },
            ),
        ),
    }
}

impl Cli {
    /// Reads a command line, the name of the program first.
    pub fn try_parse_from(argv: &[&str]) -> (r: Result<Cli, CliError>)
        ensures
            match parsed(arg_texts(argv@)) {
                Ok(command) => r is Ok && (match r->Ok_0.command {
                    Some(c) => Some(c@),
                    None => None,
                }) == command,
                Err(e) => r is Err && r->Err_0 == e,
            },
    {
        let n = argv.len();
        if n <= 1 {
            return Ok(Cli { command: None });
        }
        let ghost all = arg_texts(argv@);
        assert(all[1] == argv@[1]@);
        let word = argv[1];
        let found = if same_str(word, "remember") {
            Some((Verb::Remember, 2usize))
        } else if same_str(word, "recall") {
            Some((Verb::Recall, 2usize))
        } else if same_str(word, "now") {
            Some((Verb::Now, 2usize))
        } else if same_str(word, "keywords") && n > 2 && same_str(argv[2], "list") {
            assert(all[2] == argv@[2]@);
            Some((Verb::KeywordsList, 3usize))
        } else if same_str(word, "keywords") && n > 2 && same_str(argv[2], "list-global") {
            assert(all[2] == argv@[2]@);
            Some((Verb::KeywordsListGlobal, 3usize))
        } else {
            None
        };
        match found {
            Some((verb, from)) => {
                if n > 2 {
                    assert(all[2] == argv@[2]@);
                }
                match read_command(verb, argv, from) {
                    Ok(c) => Ok(Cli { command: Some(c) }),
                    Err(e) => Err(e),
                }
            },
            None => {
                if n > 2 {
                    assert(all[2] == argv@[2]@);
                }
                if same_str(word, "--help") || same_str(word, "-h") {
                    Err(CliError::HelpRequested)
                } else if same_str(word, "--version") || same_str(word, "-V") {
                    Err(CliError::VersionRequested)
                } else if same_str(word, "keywords") && n == 2 {
                    Err(CliError::MissingCommand)
                } else if same_str(word, "keywords") && (same_str(argv[2], "--help") || same_str(
                    argv[2],
                    "-h",
                )) {
                    Err(CliError::HelpRequested)
                } else {
                    Err(CliError::UnknownCommand)
                }
            },
        }
    }
}

impl CliError {
    /// The refusal in words.
    pub open spec fn text(self) -> Seq<char> {
        match self {
            CliError::HelpRequested => "usage: memory --cli <remember|recall|now|keywords> [options]"@,
            CliError::VersionRequested => "memory"@,
            CliError::UnknownCommand => "unrecognized subcommand"@,
            CliError::MissingCommand => "a subcommand is required: list, list-global"@,
            CliError::UnknownOption => "unexpected option"@,
            CliError::UnexpectedArgument => "unexpected argument"@,
            CliError::BadValue => "an option is missing its value, or a switch was given one"@,
            CliError::Repeated(opt) => "the option cannot be used more than once: --"@ + opt.long(),
            CliError::Missing(opt) => "a required option was not provided: --"@ + opt.long(),
            CliError::Conflict(a, b) => "the options cannot be used together: --"@ + a.long()
                + " and --"@ + b.long(),
            CliError::InvalidNumber(opt) => "invalid number for --"@ + opt.long(),
        }
    }

    /// The refusal in words.
    pub fn message(&self) -> (r: String)
        ensures
            r@ == self.text(),
    {
        let mut out: Vec<char> = Vec::new();
        match self {
            CliError::HelpRequested => push_str(
                &mut out,
                "usage: memory --cli <remember|recall|now|keywords> [options]",
            ),
            CliError::VersionRequested => push_str(&mut out, "memory"),
            CliError::UnknownCommand => push_str(&mut out, "unrecognized subcommand"),
            CliError::MissingCommand => push_str(
                &mut out,
                "a subcommand is required: list, list-global",
            ),
            CliError::UnknownOption => push_str(&mut out, "unexpected option"),
            CliError::UnexpectedArgument => push_str(&mut out, "unexpected argument"),
            CliError::BadValue => push_str(
                &mut out,
                "an option is missing its value, or a switch was given one",
            ),
            CliError::Repeated(opt) => {
                push_str(&mut out, "the option cannot be used more than once: --");
                push_str(&mut out, opt.long_name());
            },
            CliError::Missing(opt) => {
                push_str(&mut out, "a required option was not provided: --");
                push_str(&mut out, opt.long_name());
            },
            CliError::Conflict(a, b) => {
                push_str(&mut out, "the options cannot be used together: --");
                push_str(&mut out, a.long_name());
                push_str(&mut out, " and --");
                push_str(&mut out, b.long_name());
            },
            CliError::InvalidNumber(opt) => {
                push_str(&mut out, "invalid number for --");
                push_str(&mut out, opt.long_name());
            },
        }
        assert(Seq::<char>::empty() + self.text() == self.text());
        string_of(&out)
    }

    /// The exit code that goes with the refusal: 0 for a request for help or
    /// for the version, 2 for a command line that is wrong.
    pub fn exit_code(&self) -> (r: i32)
        ensures
            r == if *self == CliError::HelpRequested || *self == CliError::VersionRequested {
                0i32
            } else {
                2i32
            },
    {
        match self {
            CliError::HelpRequested | CliError::VersionRequested => 0,
            _ => 2,
        }
    }
}

} // verus!
