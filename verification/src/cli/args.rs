//! Commands and their arguments.

use vstd::prelude::*;
use vstd::string::*;

use crate::cli::attributes::{
    holds_flags, no_flags, parse_episode_flags, read_flags, FlagState, TextEpisodeDraft,
};
use crate::cli::number::{
    message3, outcome, parse_u64, parse_u64_token, parse_usize_token, text_in, token_str,
    token_text, token_texts, u64_in_text, u64_of, usize_in, Token,
};
use crate::text::{decimal, pieces, push_decimal, same_text, split_text};

verus! {

/// Hits of a recall without a limit.
pub const DEFAULT_RECALL_LIMIT: usize = 10;

/// Name and version.
pub const VERSION_TEXT: &'static str = "nao-m-e 0.0.1\n";

/// Help of the program.
pub const ROOT_HELP: &'static str = "NAO-M-E symbolic memory command-line interface

Usage:
  nao-m-e init <DATABASE>
  nao-m-e check <DATABASE>
  nao-m-e add <DATABASE> [--quiet] [--timestamp <UNIX_MS>] --attribute <TEXT> --value <TEXT>... [ATTRIBUTE OPTIONS]
  nao-m-e add <DATABASE> --many [--quiet]
  nao-m-e recall <DATABASE> --query <TEXT> [--limit <N>]
  nao-m-e recall <DATABASE> --from <SEQUENCE> [--limit <N>]
  nao-m-e feedback <DATABASE> --from <SEQUENCE> --helpful <SEQUENCE,...>
  nao-m-e feedback <DATABASE> --from <SEQUENCE> --unhelpful <SEQUENCE,...>

Commands:
  init      Create a new SQLite memory store without replacing an existing file
  check     Audit a complete SQLite memory store without changing it
  add       Append one episode, or atomic line-delimited episodes with --many
  recall    Rank episodes against a query or a source episode read-only
  feedback  Learn from one explicit helpful or unhelpful target set

Options:
  -h, --help     Show help
  --version      Show the CLI version
";

/// Help of `init`.
pub const INIT_HELP: &'static str = "Create a new SQLite memory store.

Usage:
  nao-m-e init <DATABASE>
";

/// Help of `check`.
pub const CHECK_HELP: &'static str = "Audit a complete SQLite memory store without changing it.

Usage:
  nao-m-e check <DATABASE>
";

/// Help of `add`.
pub const ADD_HELP: &'static str = "Append symbolic episodes and save atomically.

Usage:
  nao-m-e add <DATABASE> [--quiet] [--timestamp <UNIX_MS>] --attribute <TEXT> --value <TEXT>... [ATTRIBUTE OPTIONS]
  nao-m-e add <DATABASE> --many [--quiet]

Attribute options:
  --attribute <TEXT> --value <TEXT>...   Add one set-valued attribute; repeatable
  --timestamp <UNIX_MS>                  Set signed Unix milliseconds; defaults to current time

With --many, standard input contains one shell-quoted single-episode flag row
per episode. Blank lines and shell comments are ignored. The command parses and
saves all rows once or saves none. Successful add writes the assigned sequence
per episode unless --quiet is present. Missing timestamps share one current-time
default per invocation.

Every new episode must be encoded before it can commit. The pinned model assets
are an installation prerequisite and are never downloaded by this command.
Missing, invalid, or unusable assets reject the complete add without publishing
symbols, an episode, its semantic vector, or a revision.
";

/// Help of `recall`.
pub const RECALL_HELP: &'static str = "Rank episodes without changing state.

Usage:
  nao-m-e recall <DATABASE> --query <TEXT> [--limit <N>]
  nao-m-e recall <DATABASE> --from <SEQUENCE> [--limit <N>]

A query ranks committed episode vectors by semantic similarity. A source ranks
its related episodes.

Symbolic cue overlap provides cold candidates. Direct learned feedback can add
candidates, boost their score, or suppress structural matches. The default
recall limit is 10. Hits are separated by one blank line. No hits produce no
standard output.
";

/// Help of `feedback`.
pub const FEEDBACK_HELP: &'static str = "Learn from one explicit binary assessment and save atomically.

Usage:
  nao-m-e feedback <DATABASE> --from <SEQUENCE> --helpful <SEQUENCE,...>
  nao-m-e feedback <DATABASE> --from <SEQUENCE> --unhelpful <SEQUENCE,...>

Every effective target receives one complete bounded-history sample with the
same assessment. Successful feedback produces no standard output.
";

/// A text that the program prints.
#[derive(Clone, Copy, Debug, PartialEq, Eq, Structural)]
pub enum Page {
    /// Help of the program.
    Root,
    /// Help of `init`.
    Init,
    /// Help of `check`.
    Check,
    /// Help of `add`.
    Add,
    /// Help of `recall`.
    Recall,
    /// Help of `feedback`.
    Feedback,
    /// Name and version.
    Version,
}

impl Page {
    /// Returns the text.
    pub fn text(self) -> (text: &'static str)
        ensures
            text == match self {
                Page::Root => ROOT_HELP,
                Page::Init => INIT_HELP,
                Page::Check => CHECK_HELP,
                Page::Add => ADD_HELP,
                Page::Recall => RECALL_HELP,
                Page::Feedback => FEEDBACK_HELP,
                Page::Version => VERSION_TEXT,
            },
    {
        match self {
            Page::Root => ROOT_HELP,
            Page::Init => INIT_HELP,
            Page::Check => CHECK_HELP,
            Page::Add => ADD_HELP,
            Page::Recall => RECALL_HELP,
            Page::Feedback => FEEDBACK_HELP,
            Page::Version => VERSION_TEXT,
        }
    }
}

/// What the program does with the database, which is the second argument.
#[derive(Clone, Debug, PartialEq, Eq)]
pub enum Command {
    /// Prints a text and touches no database.
    Print(Page),
    /// Creates a store.
    Init,
    /// Audits a store.
    Check,
    /// Appends one episode.
    Add {
        /// The episode.
        draft: TextEpisodeDraft,
        /// Output is suppressed.
        quiet: bool,
    },
    /// Appends the episodes of standard input.
    AddMany {
        /// Output is suppressed.
        quiet: bool,
    },
    /// Ranks episodes against a query.
    Recall {
        /// Free text.
        query: String,
        /// Largest number of hits.
        limit: usize,
    },
    /// Ranks episodes against a source episode.
    RecallFrom {
        /// Sequence of the source.
        source_sequence: u64,
        /// Largest number of hits.
        limit: usize,
    },
    /// Assesses target episodes.
    Feedback {
        /// Sequence of the source.
        source_sequence: u64,
        /// Sequences of the targets.
        target_sequences: Vec<u64>,
        /// The assessment.
        helpful: bool,
    },
}

/// What the arguments ask for.
pub ghost enum Request {
    /// Print a text.
    Print(Page),
    /// Create a store.
    Init,
    /// Audit a store.
    Check,
    /// Append the episode of the flags.
    Add(FlagState),
    /// Append the episodes of standard input.
    AddMany {
        /// Output is suppressed.
        quiet: bool,
    },
    /// Rank episodes against a query.
    Recall {
        /// Free text.
        query: Seq<char>,
        /// Largest number of hits.
        limit: usize,
    },
    /// Rank episodes against a source episode.
    RecallFrom {
        /// Sequence of the source.
        source: u64,
        /// Largest number of hits.
        limit: usize,
    },
    /// Assess target episodes.
    Feedback {
        /// Sequence of the source.
        source: u64,
        /// Sequences of the targets.
        targets: Seq<u64>,
        /// The assessment.
        helpful: bool,
    },
}

/// The command does what the arguments ask for.
pub open spec fn carries_out(command: Command, request: Request) -> bool {
    match (command, request) {
        (Command::Print(page), Request::Print(expected)) => page == expected,
        (Command::Init, Request::Init) => true,
        (Command::Check, Request::Check) => true,
        (Command::Add { draft, quiet }, Request::Add(state)) => holds_flags(draft, quiet, state),
        (Command::AddMany { quiet }, Request::AddMany { quiet: expected }) => quiet == expected,
        (
            Command::Recall { query, limit },
            Request::Recall { query: text, limit: count },
        ) => query@ == text && limit == count,
        (
            Command::RecallFrom { source_sequence, limit },
            Request::RecallFrom { source, limit: count },
        ) => source_sequence == source && limit == count,
        (
            Command::Feedback { source_sequence, target_sequences, helpful },
            Request::Feedback { source, targets, helpful: expected },
        ) => source_sequence == source && target_sequences@ == targets && helpful == expected,
        _ => false,
    }
}

/// The outcome is what the arguments ask for, or what is wrong with them.
pub open spec fn answers(
    result: Result<Command, String>,
    expected: Result<Request, Seq<char>>,
) -> bool {
    match (expected, result) {
        (Ok(request), Ok(command)) => carries_out(command, request),
        (Err(expected), Err(message)) => message@ == expected,
        _ => false,
    }
}

/// The argument is the text.
pub open spec fn is_text(token: Option<Seq<char>>, text: Seq<char>) -> bool {
    token == Some(text)
}

/// The arguments ask for help alone.
pub open spec fn asks_help(tokens: Seq<Option<Seq<char>>>) -> bool {
    tokens.len() == 1 && (is_text(tokens[0], "-h"@) || is_text(tokens[0], "--help"@))
}

fn token_is(token: &Token, text: &str) -> (same: bool)
    ensures
        same == is_text(token_text(*token), text@),
{
    match token {
        Some(found) => same_text(found.as_str(), text),
        None => false,
    }
}

/// Tells whether the arguments from a position on ask for help alone.
fn is_help_request(tokens: &[Token], start: usize) -> (help: bool)
    requires
        start <= tokens@.len(),
    ensures
        help == asks_help(token_texts(tokens@).skip(start as int)),
{
    let ghost rest = token_texts(tokens@).skip(start as int);
    if tokens.len() - start == 1 {
        assert(rest[0] == token_text(tokens@[start as int]));
        token_is(&tokens[start], "-h") || token_is(&tokens[start], "--help")
    } else {
        false
    }
}

/// The suppression flag of `add --many`, or what is wrong with its options.
pub open spec fn many_options(tokens: Seq<Option<Seq<char>>>) -> Result<bool, Seq<char>>
    decreases tokens.len(),
{
    if tokens.len() == 0 {
        Ok(false)
    } else {
        match many_options(tokens.drop_last()) {
            Err(message) => Err(message),
            Ok(quiet) => match tokens.last() {
                None => Err("add options must be valid UTF-8"@),
                Some(option) => if option == "--many"@ {
                    Err("`--many` may be specified only once"@)
                } else if option == "--quiet"@ {
                    if quiet {
                        Err("`--quiet` may be specified only once"@)
                    } else {
                        Ok(true)
                    }
                } else {
                    Err("`--many` cannot be combined with episode option `"@ + option + "`"@)
                },
            },
        }
    }
}

proof fn lemma_options_stop(tokens: Seq<Option<Seq<char>>>, end: int)
    requires
        0 <= end <= tokens.len(),
        many_options(tokens.take(end)) is Err,
    ensures
        many_options(tokens) == many_options(tokens.take(end)),
    decreases tokens.len(),
{
    if end < tokens.len() {
        assert(tokens.drop_last().take(end) =~= tokens.take(end));
        lemma_options_stop(tokens.drop_last(), end);
    } else {
        assert(tokens.take(end) =~= tokens);
    }
}

/// Parses the options behind `--many`.
pub fn parse_many_options(tokens: &[Token]) -> (result: Result<bool, String>)
    ensures
        outcome(result) == many_options(token_texts(tokens@)),
{
    let ghost all = token_texts(tokens@);
    let mut quiet = false;
    let mut index: usize = 0;
    assert(all.take(0) =~= Seq::empty());
    while index < tokens.len()
        invariant
            index <= tokens@.len(),
            all == token_texts(tokens@),
            many_options(all.take(index as int)) == Ok::<bool, Seq<char>>(quiet),
        decreases tokens.len() - index,
    {
        proof {
            let part = all.take(index + 1);
            assert(part.drop_last() =~= all.take(index as int));
            assert(part.last() == token_text(tokens@[index as int]));
            if many_options(part) is Err {
                lemma_options_stop(all, index + 1);
            }
        }
        match &tokens[index] {
            None => {
                return Err("add options must be valid UTF-8".to_owned());
            },
            Some(option) => {
                let option = option.as_str();
                if same_text(option, "--many") {
                    return Err("`--many` may be specified only once".to_owned());
                }
                if same_text(option, "--quiet") {
                    if quiet {
                        return Err("`--quiet` may be specified only once".to_owned());
                    }
                    quiet = true;
                } else {
                    return Err(
                        message3(
                            "`--many` cannot be combined with episode option `",
                            option,
                            "`",
                        ),
                    );
                }
            },
        }
        index += 1;
    }
    assert(all.take(index as int) =~= all);
    Ok(quiet)
}

/// The sequences of comma-separated numbers, or what is wrong with them.
pub open spec fn sequences_in(parts: Seq<Seq<char>>) -> Result<Seq<u64>, Seq<char>>
    decreases parts.len(),
{
    if parts.len() == 0 {
        Ok(Seq::empty())
    } else {
        match sequences_in(parts.drop_last()) {
            Err(message) => Err(message),
            Ok(sequences) => match u64_in_text(parts.last()) {
                Some(sequence) => Ok(sequences.push(sequence)),
                None => Err(
                    "invalid feedback target sequence at index "@ + decimal(
                        (parts.len() - 1) as nat,
                    ),
                ),
            },
        }
    }
}

/// The target sequences of an argument, or what is wrong with it.
pub open spec fn targets_in(token: Option<Seq<char>>) -> Result<Seq<u64>, Seq<char>> {
    match token {
        None => Err("feedback targets must be valid UTF-8"@),
        Some(text) => if text.len() == 0 {
            Err("feedback targets must not be empty"@)
        } else {
            sequences_in(pieces(text, ','))
        },
    }
}

proof fn lemma_sequences_stop(parts: Seq<Seq<char>>, end: int)
    requires
        0 <= end <= parts.len(),
        sequences_in(parts.take(end)) is Err,
    ensures
        sequences_in(parts) == sequences_in(parts.take(end)),
    decreases parts.len(),
{
    if end < parts.len() {
        assert(parts.drop_last().take(end) =~= parts.take(end));
        lemma_sequences_stop(parts.drop_last(), end);
    } else {
        assert(parts.take(end) =~= parts);
    }
}

/// Parses comma-separated target sequences.
pub fn parse_sequence_list(token: &Token) -> (result: Result<Vec<u64>, String>)
    ensures
        match (targets_in(token_text(*token)), result) {
            (Ok(expected), Ok(sequences)) => sequences@ == expected,
            (Err(expected), Err(message)) => message@ == expected,
            _ => false,
        },
{
    let text: &str = match token {
        Some(text) => text.as_str(),
        None => {
            return Err("feedback targets must be valid UTF-8".to_owned());
        },
    };
    if text.is_empty() {
        return Err("feedback targets must not be empty".to_owned());
    }
    let parts = split_text(text, ',');
    let ghost all = parts@.map_values(|part: String| part@);
    let mut sequences: Vec<u64> = Vec::new();
    let mut index: usize = 0;
    assert(all.take(0) =~= Seq::empty());
    while index < parts.len()
        invariant
            index <= parts@.len(),
            all == parts@.map_values(|part: String| part@),
            all == pieces(text@, ','),
            token_text(*token) == Some(text@),
            text@.len() > 0,
            sequences_in(all.take(index as int)) == Ok::<Seq<u64>, Seq<char>>(sequences@),
        decreases parts.len() - index,
    {
        proof {
            let part = all.take(index + 1);
            assert(part.drop_last() =~= all.take(index as int));
            assert(part.last() == parts@[index as int]@);
            if sequences_in(part) is Err {
                lemma_sequences_stop(all, index + 1);
            }
        }
        match parse_u64(parts[index].as_str()) {
            Some(sequence) => {
                sequences.push(sequence);
            },
            None => {
                let mut message = "invalid feedback target sequence at index ".to_owned();
                push_decimal(&mut message, index as u64);
                return Err(message);
            },
        }
        index += 1;
    }
    assert(all.take(index as int) =~= all);
    Ok(sequences)
}

/// What `init` or `check` is asked for.
pub open spec fn single_request(
    rest: Seq<Option<Seq<char>>>,
    page: Page,
    request: Request,
    complaint: Seq<char>,
) -> Result<Request, Seq<char>> {
    if asks_help(rest) {
        Ok(Request::Print(page))
    } else if rest.len() != 1 {
        Err(complaint)
    } else {
        Ok(request)
    }
}

/// What `add` is asked for.
pub open spec fn add_request(rest: Seq<Option<Seq<char>>>) -> Result<Request, Seq<char>> {
    if asks_help(rest) {
        Ok(Request::Print(Page::Add))
    } else if rest.len() == 0 {
        Err("`add` requires a database path and episode flags"@)
    } else if rest.len() > 1 && is_text(rest[1], "--many"@) {
        match many_options(rest.skip(2)) {
            Err(message) => Err(message),
            Ok(quiet) => Ok(Request::AddMany { quiet }),
        }
    } else {
        match read_flags(no_flags(), rest.skip(1), true) {
            Err(message) => Err(message),
            Ok(state) => Ok(Request::Add(state)),
        }
    }
}

/// The limit of a recall: that of the last two arguments, if there are four.
pub open spec fn limit_in(options: Seq<Option<Seq<char>>>) -> Result<usize, Seq<char>> {
    if options.len() == 2 {
        Ok(DEFAULT_RECALL_LIMIT)
    } else {
        usize_in(options[3], "recall limit"@)
    }
}

/// What `recall` is asked for.
pub open spec fn recall_request(rest: Seq<Option<Seq<char>>>) -> Result<Request, Seq<char>> {
    let options = rest.skip(1);
    let shaped = options.len() == 2 || (options.len() == 4 && is_text(options[2], "--limit"@));
    if asks_help(rest) {
        Ok(Request::Print(Page::Recall))
    } else if rest.len() == 0 {
        Err("`recall` requires a database path"@)
    } else if shaped && is_text(options[0], "--from"@) {
        match u64_of(options[1], "source sequence"@) {
            Err(message) => Err(message),
            Ok(source) => match limit_in(options) {
                Err(message) => Err(message),
                Ok(limit) => Ok(Request::RecallFrom { source, limit }),
            },
        }
    } else if shaped && is_text(options[0], "--query"@) {
        match text_in(options[1], "recall query"@) {
            Err(message) => Err(message),
            Ok(query) => match limit_in(options) {
                Err(message) => Err(message),
                Ok(limit) => Ok(Request::Recall { query, limit }),
            },
        }
    } else {
        Err("`recall` requires <DATABASE> --query <TEXT> [--limit <N>]"@)
    }
}

/// What `feedback` is asked for.
pub open spec fn feedback_request(rest: Seq<Option<Seq<char>>>) -> Result<Request, Seq<char>> {
    if asks_help(rest) {
        Ok(Request::Print(Page::Feedback))
    } else if rest.len() != 5 {
        Err(
            "`feedback` requires <DATABASE> --from <SEQUENCE> (--helpful|--unhelpful) <SEQUENCE,...>"@,
        )
    } else if !is_text(rest[1], "--from"@) {
        Err("`feedback` source must use `--from <SEQUENCE>`"@)
    } else if !is_text(rest[3], "--helpful"@) && !is_text(rest[3], "--unhelpful"@) {
        Err("feedback assessment must be `--helpful` or `--unhelpful`"@)
    } else {
        match u64_of(rest[2], "source sequence"@) {
            Err(message) => Err(message),
            Ok(source) => match targets_in(rest[4]) {
                Err(message) => Err(message),
                Ok(targets) => Ok(
                    Request::Feedback {
                        source,
                        targets,
                        helpful: is_text(rest[3], "--helpful"@),
                    },
                ),
            },
        }
    }
}

/// What the arguments ask for.
pub open spec fn request_in(tokens: Seq<Option<Seq<char>>>) -> Result<Request, Seq<char>> {
    if tokens.len() == 0 || tokens[0] is None {
        Err("a command is required"@)
    } else {
        let command = tokens[0]->0;
        let rest = tokens.skip(1);
        if (command == "-h"@ || command == "--help"@) && tokens.len() == 1 {
            Ok(Request::Print(Page::Root))
        } else if command == "--version"@ && tokens.len() == 1 {
            Ok(Request::Print(Page::Version))
        } else if command == "init"@ {
            single_request(
                rest,
                Page::Init,
                Request::Init,
                "`init` requires exactly one database path"@,
            )
        } else if command == "check"@ {
            single_request(
                rest,
                Page::Check,
                Request::Check,
                "`check` requires exactly one database path"@,
            )
        } else if command == "add"@ {
            add_request(rest)
        } else if command == "recall"@ {
            recall_request(rest)
        } else if command == "feedback"@ {
            feedback_request(rest)
        } else {
            Err("unknown command or option `"@ + command + "`"@)
        }
    }
}

fn tokens_from(tokens: &[Token], start: usize) -> (rest: Vec<Token>)
    requires
        start <= tokens@.len(),
    ensures
        token_texts(rest@) == token_texts(tokens@).skip(start as int),
{
    let mut rest: Vec<Token> = Vec::new();
    let mut index: usize = start;
    while index < tokens.len()
        invariant
            start <= index <= tokens@.len(),
            rest@.len() == index - start,
            forall|i: int|
                0 <= i < rest@.len() ==> token_text(#[trigger] rest@[i]) == token_text(
                    tokens@[start + i],
                ),
        decreases tokens.len() - index,
    {
        let token: Token = match &tokens[index] {
            Some(text) => Some(text.clone()),
            None => None,
        };
        rest.push(token);
        index += 1;
    }
    assert(token_texts(rest@) =~= token_texts(tokens@).skip(start as int));
    rest
}

fn parse_add_args(rest: &[Token]) -> (result: Result<Command, String>)
    ensures
        answers(result, add_request(token_texts(rest@))),
{
    let ghost all = token_texts(rest@);
    assert(all.skip(0) =~= all);
    if is_help_request(rest, 0) {
        return Ok(Command::Print(Page::Add));
    }
    if rest.len() == 0 {
        return Err("`add` requires a database path and episode flags".to_owned());
    }
    if rest.len() > 1 && token_is(&rest[1], "--many") {
        let options = tokens_from(rest, 2);
        return match parse_many_options(options.as_slice()) {
            Ok(quiet) => Ok(Command::AddMany { quiet }),
            Err(message) => Err(message),
        };
    }
    let options = tokens_from(rest, 1);
    match parse_episode_flags(options.as_slice(), true) {
        Ok((draft, quiet)) => Ok(Command::Add { draft, quiet }),
        Err(message) => Err(message),
    }
}

fn parse_recall_args(rest: &[Token]) -> (result: Result<Command, String>)
    ensures
        answers(result, recall_request(token_texts(rest@))),
{
    let ghost all = token_texts(rest@);
    let ghost options = all.skip(1);
    assert(all.skip(0) =~= all);
    if is_help_request(rest, 0) {
        return Ok(Command::Print(Page::Recall));
    }
    if rest.len() == 0 {
        return Err("`recall` requires a database path".to_owned());
    }
    let shaped = rest.len() == 3 || (rest.len() == 5 && token_is(&rest[3], "--limit"));
    if shaped {
        proof {
            assert(options[0] == all[1]);
            assert(options[1] == all[2]);
            if all.len() == 5 {
                assert(options[2] == all[3]);
                assert(options[3] == all[4]);
            }
        }
        if token_is(&rest[1], "--from") {
            let source_sequence: u64 = match parse_u64_token(&rest[2], "source sequence") {
                Ok(source) => source,
                Err(message) => {
                    return Err(message);
                },
            };
            if rest.len() == 3 {
                return Ok(Command::RecallFrom { source_sequence, limit: DEFAULT_RECALL_LIMIT });
            }
            return match parse_usize_token(&rest[4], "recall limit") {
                Ok(limit) => Ok(Command::RecallFrom { source_sequence, limit }),
                Err(message) => Err(message),
            };
        }
        if token_is(&rest[1], "--query") {
            let query = match token_str(&rest[2], "recall query") {
                Ok(query) => query.to_owned(),
                Err(message) => {
                    return Err(message);
                },
            };
            if rest.len() == 3 {
                return Ok(Command::Recall { query, limit: DEFAULT_RECALL_LIMIT });
            }
            return match parse_usize_token(&rest[4], "recall limit") {
                Ok(limit) => Ok(Command::Recall { query, limit }),
                Err(message) => Err(message),
            };
        }
    }
    Err("`recall` requires <DATABASE> --query <TEXT> [--limit <N>]".to_owned())
}

fn parse_feedback_args(rest: &[Token]) -> (result: Result<Command, String>)
    ensures
        answers(result, feedback_request(token_texts(rest@))),
{
    let ghost all = token_texts(rest@);
    assert(all.skip(0) =~= all);
    if is_help_request(rest, 0) {
        return Ok(Command::Print(Page::Feedback));
    }
    if rest.len() != 5 {
        return Err(
            "`feedback` requires <DATABASE> --from <SEQUENCE> (--helpful|--unhelpful) <SEQUENCE,...>".to_owned(),
        );
    }
    if !token_is(&rest[1], "--from") {
        return Err("`feedback` source must use `--from <SEQUENCE>`".to_owned());
    }
    let helpful = token_is(&rest[3], "--helpful");
    if !helpful && !token_is(&rest[3], "--unhelpful") {
        return Err("feedback assessment must be `--helpful` or `--unhelpful`".to_owned());
    }
    let source_sequence: u64 = match parse_u64_token(&rest[2], "source sequence") {
        Ok(source) => source,
        Err(message) => {
            return Err(message);
        },
    };
    match parse_sequence_list(&rest[4]) {
        Ok(target_sequences) => Ok(
            Command::Feedback { source_sequence, target_sequences, helpful },
        ),
        Err(message) => Err(message),
    }
}

/// Parses the arguments behind the program's name.
pub fn parse_args(tokens: &[Token]) -> (result: Result<Command, String>)
    ensures
        answers(result, request_in(token_texts(tokens@))),
{
    let ghost all = token_texts(tokens@);
    if tokens.len() == 0 {
        return Err("a command is required".to_owned());
    }
    assert(all[0] == token_text(tokens@[0]));
    let command: &str = match &tokens[0] {
        Some(command) => command.as_str(),
        None => {
            return Err("a command is required".to_owned());
        },
    };
    if (same_text(command, "-h") || same_text(command, "--help")) && tokens.len() == 1 {
        return Ok(Command::Print(Page::Root));
    }
    if same_text(command, "--version") && tokens.len() == 1 {
        return Ok(Command::Print(Page::Version));
    }
    if same_text(command, "init") {
        if is_help_request(tokens, 1) {
            return Ok(Command::Print(Page::Init));
        }
        if tokens.len() != 2 {
            return Err("`init` requires exactly one database path".to_owned());
        }
        return Ok(Command::Init);
    }
    if same_text(command, "check") {
        if is_help_request(tokens, 1) {
            return Ok(Command::Print(Page::Check));
        }
        if tokens.len() != 2 {
            return Err("`check` requires exactly one database path".to_owned());
        }
        return Ok(Command::Check);
    }
    let rest = tokens_from(tokens, 1);
    if same_text(command, "add") {
        return parse_add_args(rest.as_slice());
    }
    if same_text(command, "recall") {
        return parse_recall_args(rest.as_slice());
    }
    if same_text(command, "feedback") {
        return parse_feedback_args(rest.as_slice());
    }
    Err(message3("unknown command or option `", command, "`"))
}

} // verus!
