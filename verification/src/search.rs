//! The lexical search: what is asked of ripgrep, and what its answer amounts to.
use base64::Engine;
use std::path::PathBuf;
use vstd::prelude::*;
use vstd::string::*;
use vstd::utf8::*;

use crate::text;

verus! {

/// `std::string::FromUtf8Error`: the bytes were not UTF-8.
#[verifier::external_type_specification]
#[verifier::external_body]
pub struct ExFromUtf8Error(std::string::FromUtf8Error);

/// A stretch of source lines that holds a match, with the exact snippet that will
/// be judged.
#[derive(Clone, Debug, PartialEq)]
pub struct Candidate {
    /// The path, as ripgrep spells it.
    pub path: String,
    /// The number of the first line, counted from one.
    pub start_line: usize,
    /// The number of the last line, which belongs to the stretch.
    pub end_line: usize,
    /// The numbers of the lines that match.
    pub match_lines: Vec<usize>,
    /// The text of the lines, with their line ends.
    pub snippet: String,
}

/// What a candidate holds.
#[verifier::ext_equal]
pub ghost struct CandidateView {
    pub path: Seq<char>,
    pub start_line: usize,
    pub end_line: usize,
    pub match_lines: Seq<usize>,
    pub snippet: Seq<char>,
}

impl View for Candidate {
    type V = CandidateView;

    open spec fn view(&self) -> CandidateView {
        CandidateView {
            path: self.path@,
            start_line: self.start_line,
            end_line: self.end_line,
            match_lines: self.match_lines@,
            snippet: self.snippet@,
        }
    }
}

/// What each of several candidates holds.
pub open spec fn candidate_views(candidates: Seq<Candidate>) -> Seq<CandidateView> {
    Seq::new(candidates.len(), |i: int| candidates[i]@)
}

/// The candidates of a search, and whether there were more than its limit.
pub struct SearchResult {
    pub candidates: Vec<Candidate>,
    pub truncated: bool,
}

/// A place to search.
pub enum SearchPath {
    /// Standard input, written `-`.
    Stdin,
    /// A file or a directory.
    Place(PathBuf),
}

/// The ripgrep options with supported candidate semantics.
pub struct SearchOptions {
    pub pattern: String,
    pub paths: Vec<SearchPath>,
    pub context: usize,
    pub max_candidates: usize,
    pub globs: Vec<String>,
    pub file_types: Vec<String>,
    pub ignore_case: bool,
    pub fixed_strings: bool,
    pub hidden: bool,
    pub max_filesize: String,
}

/// Why a search failed.
#[derive(Debug)]
pub enum SearchError {
    /// A path names standard input.
    Stdin,
    /// There is no ripgrep to run.
    NoRipgrep,
    /// Ripgrep could not be started, for the given reason.
    Start(String),
    /// A text of ripgrep's output has neither form that it may have.
    TextObject,
    /// A text of ripgrep's output is not base64, for the given reason.
    Base64(String),
    /// A text of ripgrep's output is not UTF-8.
    NotUtf8,
    /// A source line is over the limit.
    LineTooLong { path: String, number: usize },
    /// A source line came without its number.
    NoLineNumber,
    /// Ripgrep complained.
    Diagnostic(String),
    /// Ripgrep ended with the given status.
    Status(String),
}

/// What a search error says.
pub ghost enum SearchFailure {
    Stdin,
    NoRipgrep,
    Start(Seq<char>),
    TextObject,
    Base64(Seq<char>),
    NotUtf8,
    LineTooLong { path: Seq<char>, number: usize },
    NoLineNumber,
    Diagnostic(Seq<char>),
    Status(Seq<char>),
}

impl View for SearchError {
    type V = SearchFailure;

    open spec fn view(&self) -> SearchFailure {
        match *self {
            SearchError::Stdin => SearchFailure::Stdin,
            SearchError::NoRipgrep => SearchFailure::NoRipgrep,
            SearchError::Start(reason) => SearchFailure::Start(reason@),
            SearchError::TextObject => SearchFailure::TextObject,
            SearchError::Base64(cause) => SearchFailure::Base64(cause@),
            SearchError::NotUtf8 => SearchFailure::NotUtf8,
            SearchError::LineTooLong { path, number } => SearchFailure::LineTooLong {
                path: path@,
                number,
            },
            SearchError::NoLineNumber => SearchFailure::NoLineNumber,
            SearchError::Diagnostic(words) => SearchFailure::Diagnostic(words@),
            SearchError::Status(status) => SearchFailure::Status(status@),
        }
    }
}

impl SearchFailure {
    /// The text that tells the user what is wrong.
    pub open spec fn text(self) -> Seq<char> {
        match self {
            SearchFailure::Stdin =>
                "stdin search is unsupported; pass file or directory paths."@,
            SearchFailure::NoRipgrep =>
                "ripgrep (rg) is required; install it and add it to PATH."@,
            SearchFailure::Start(reason) => "Could not start ripgrep: "@ + reason,
            SearchFailure::TextObject => "Invalid ripgrep text object"@,
            SearchFailure::Base64(cause) => "Invalid ripgrep base64 data: "@ + cause,
            SearchFailure::NotUtf8 =>
                "Non-UTF-8 source or path encountered; narrow the search with --glob."@,
            SearchFailure::LineTooLong { path, number } =>
                "Source line exceeds 12000 bytes at "@ + path + ":"@ + text::decimal(number as nat)
                    + "; exclude this file with --glob."@,
            SearchFailure::NoLineNumber => "ripgrep omitted the source line number"@,
            SearchFailure::Diagnostic(words) => words,
            SearchFailure::Status(status) => "ripgrep exited with status "@ + status,
        }
    }
}

impl SearchError {
    /// The text that tells the user what is wrong.
    pub fn message(&self) -> (message: String)
        ensures
            message@ == self@.text(),
    {
        match self {
            SearchError::Stdin =>
                "stdin search is unsupported; pass file or directory paths.".to_owned(),
            SearchError::NoRipgrep =>
                "ripgrep (rg) is required; install it and add it to PATH.".to_owned(),
            SearchError::Start(reason) =>
                "Could not start ripgrep: ".to_owned().concat(reason.as_str()),
            SearchError::TextObject => "Invalid ripgrep text object".to_owned(),
            SearchError::Base64(cause) =>
                "Invalid ripgrep base64 data: ".to_owned().concat(cause.as_str()),
            SearchError::NotUtf8 =>
                "Non-UTF-8 source or path encountered; narrow the search with --glob.".to_owned(),
            SearchError::LineTooLong { path, number } => {
                let digits = text::decimal_text(*number as u64);
                "Source line exceeds 12000 bytes at ".to_owned().concat(path.as_str()).concat(
                    ":",
                ).concat(digits.as_str()).concat("; exclude this file with --glob.")
            },
            SearchError::NoLineNumber => "ripgrep omitted the source line number".to_owned(),
            SearchError::Diagnostic(words) => words.clone(),
            SearchError::Status(status) =>
                "ripgrep exited with status ".to_owned().concat(status.as_str()),
        }
    }
}

/// Why ripgrep could not be started.
pub fn start_error(not_found: bool, reason: String) -> (error: SearchError)
    ensures
        error@ == (if not_found {
            SearchFailure::NoRipgrep
        } else {
            SearchFailure::Start(reason@)
        }),
{
    if not_found {
        SearchError::NoRipgrep
    } else {
        SearchError::Start(reason)
    }
}

/// The bytes that a text in standard base64, with its padding, stands for, or the
/// words that say why it stands for none.
pub uninterp spec fn base64_bytes(text: Seq<char>) -> Result<Seq<u8>, Seq<char>>;

/// `base64::engine::general_purpose::STANDARD.decode`: that the outcome, of a failure
/// the words of the decoder, depends on the text alone.
#[verifier::external_body]
fn decode_base64(text: &str) -> (bytes: Result<Vec<u8>, String>)
    ensures
        match bytes {
            Ok(bytes) => base64_bytes(text@) == Ok::<_, Seq<char>>(bytes@),
            Err(cause) => base64_bytes(text@) == Err::<Seq<u8>, _>(cause@),
        },
{
    base64::engine::general_purpose::STANDARD.decode(text).map_err(|cause| cause.to_string())
}

/// `String::from_utf8`: bytes that are UTF-8 become the string that they encode,
/// others an error.
pub assume_specification[ String::from_utf8 ](bytes: Vec<u8>) -> (string: Result<
    String,
    std::string::FromUtf8Error,
>)
    ensures
        match string {
            Ok(string) => valid_utf8(bytes@) && string@ == decode_utf8(bytes@),
            Err(_) => !valid_utf8(bytes@),
        },
;

/// The characters of a text, or what is wrong with it.
pub open spec fn text_view(text: Result<String, SearchError>) -> Result<Seq<char>, SearchFailure> {
    match text {
        Ok(text) => Ok(text@),
        Err(error) => Err(error@),
    }
}

/// The text that bytes encode.
pub open spec fn bytes_text(bytes: Seq<u8>) -> Result<Seq<char>, SearchFailure> {
    if valid_utf8(bytes) {
        Ok(decode_utf8(bytes))
    } else {
        Err(SearchFailure::NotUtf8)
    }
}

/// The text that bytes encode.
pub fn decode_bytes(bytes: Vec<u8>) -> (text: Result<String, SearchError>)
    ensures
        text_view(text) == bytes_text(bytes@),
{
    match String::from_utf8(bytes) {
        Ok(text) => Ok(text),
        Err(_) => Err(SearchError::NotUtf8),
    }
}

/// A text in ripgrep's output: plain, or its bytes in base64.
pub struct RgText {
    pub text: Option<String>,
    pub bytes: Option<String>,
}

impl RgText {
    /// The text: the plain form if it is there, else what the base64 form encodes.
    pub open spec fn decoded(self) -> Result<Seq<char>, SearchFailure> {
        match (self.text, self.bytes) {
            (Some(text), _) => Ok(text@),
            (None, None) => Err(SearchFailure::TextObject),
            (None, Some(encoded)) => match base64_bytes(encoded@) {
                Err(cause) => Err(SearchFailure::Base64(cause)),
                Ok(bytes) => bytes_text(bytes),
            },
        }
    }

    /// Decodes the text.
    pub fn decode(self) -> (text: Result<String, SearchError>)
        ensures
            text_view(text) == self.decoded(),
    {
        match self.text {
            Some(text) => Ok(text),
            None => match self.bytes {
                None => Err(SearchError::TextObject),
                Some(encoded) => match decode_base64(encoded.as_str()) {
                    Err(cause) => Err(SearchError::Base64(cause)),
                    Ok(bytes) => decode_bytes(bytes),
                },
            },
        }
    }
}

/// Whether standard input is among the places to search.
pub open spec fn searches_stdin(paths: Seq<SearchPath>) -> bool {
    exists|i: int| 0 <= i < paths.len() && #[trigger] paths[i] is Stdin
}

/// An option and each of its values, in turn.
pub open spec fn repeated(option: Seq<char>, values: Seq<Seq<char>>) -> Seq<Seq<char>>
    decreases values.len(),
{
    if values.len() == 0 {
        seq![]
    } else {
        repeated(option, values.drop_last()).push(option).push(values.last())
    }
}

/// A flag, if it is set.
pub open spec fn flag(set: bool, name: Seq<char>) -> Seq<Seq<char>> {
    if set {
        seq![name]
    } else {
        seq![]
    }
}

/// The arguments of ripgrep, up to the places to search; without any place, the
/// current directory is the last argument.
///
/// The user's configuration is ignored, since it can start preprocessors or change
/// the output; sorting by path makes the candidate limit independent of scheduling.
pub open spec fn arguments_of(options: SearchOptions) -> Seq<Seq<char>> {
    seq![
        "--no-config"@,
        "--json"@,
        "--sort"@,
        "path"@,
        "--color"@,
        "never"@,
        "--context"@,
        text::decimal(options.context as nat),
        "--max-filesize"@,
        options.max_filesize@,
    ] + repeated("--glob"@, text::string_views(options.globs@)) + repeated(
        "--type"@,
        text::string_views(options.file_types@),
    ) + flag(options.ignore_case, "--ignore-case"@) + flag(
        options.fixed_strings,
        "--fixed-strings"@,
    ) + flag(options.hidden, "--hidden"@) + seq!["--regexp"@, options.pattern@, "--"@] + flag(
        options.paths@.len() == 0,
        "."@,
    )
}

/// Appends an option and each of its values.
fn push_repeated(arguments: &mut Vec<String>, option: &str, values: &Vec<String>)
    ensures
        text::string_views(final(arguments)@) == text::string_views(old(arguments)@) + repeated(
            option@,
            text::string_views(values@),
        ),
{
    let ghost before = text::string_views(arguments@);
    let ghost all = text::string_views(values@);
    let mut i: usize = 0;
    assert(all.take(0) == Seq::<Seq<char>>::empty());
    assert(before == before + repeated(option@, all.take(0)));
    while i < values.len()
        invariant
            i <= values.len(),
            all == text::string_views(values@),
            text::string_views(arguments@) == before + repeated(option@, all.take(i as int)),
        decreases values.len() - i,
    {
        let ghost now = text::string_views(arguments@);
        arguments.push(option.to_owned());
        assert(text::string_views(arguments@) == now.push(option@));
        arguments.push(values[i].clone());
        assert(text::string_views(arguments@) == now.push(option@).push(values@[i as int]@));
        assert(all.take(i + 1).drop_last() == all.take(i as int));
        i += 1;
    }
    assert(all.take(i as int) == all);
}

/// Appends one argument.
fn push_argument(arguments: &mut Vec<String>, argument: &str)
    ensures
        text::string_views(final(arguments)@) == text::string_views(old(arguments)@).push(
            argument@,
        ),
{
    let ghost before = text::string_views(arguments@);
    arguments.push(argument.to_owned());
    assert(text::string_views(arguments@) == before.push(argument@));
}

/// Appends a flag, if it is set.
fn push_flag(arguments: &mut Vec<String>, set: bool, name: &str)
    ensures
        text::string_views(final(arguments)@) == text::string_views(old(arguments)@) + flag(
            set,
            name@,
        ),
{
    if set {
        push_argument(arguments, name);
    }
}

/// The arguments that stand first.
fn leading_arguments(context: &str, max_filesize: &str) -> (arguments: Vec<String>)
    ensures
        text::string_views(arguments@) == seq![
            "--no-config"@,
            "--json"@,
            "--sort"@,
            "path"@,
            "--color"@,
            "never"@,
            "--context"@,
            context@,
            "--max-filesize"@,
            max_filesize@,
        ],
{
    let mut arguments: Vec<String> = Vec::new();
    push_argument(&mut arguments, "--no-config");
    push_argument(&mut arguments, "--json");
    push_argument(&mut arguments, "--sort");
    push_argument(&mut arguments, "path");
    push_argument(&mut arguments, "--color");
    push_argument(&mut arguments, "never");
    push_argument(&mut arguments, "--context");
    push_argument(&mut arguments, context);
    push_argument(&mut arguments, "--max-filesize");
    push_argument(&mut arguments, max_filesize);
    arguments
}

/// Appends the pattern, and the mark that ends the options.
fn push_pattern(arguments: &mut Vec<String>, pattern: &str)
    ensures
        text::string_views(final(arguments)@) == text::string_views(old(arguments)@) + seq![
            "--regexp"@,
            pattern@,
            "--"@,
        ],
{
    push_argument(arguments, "--regexp");
    push_argument(arguments, pattern);
    push_argument(arguments, "--");
}

/// The arguments of ripgrep up to the places to search, which follow them as they
/// are. Standard input cannot be searched.
pub fn rg_arguments(options: &SearchOptions) -> (arguments: Result<Vec<String>, SearchError>)
    ensures
        match arguments {
            Ok(arguments) => {
                &&& !searches_stdin(options.paths@)
                &&& text::string_views(arguments@) == arguments_of(*options)
            },
            Err(error) => searches_stdin(options.paths@) && error@ == SearchFailure::Stdin,
        },
{
    let mut i: usize = 0;
    while i < options.paths.len()
        invariant
            i <= options.paths.len(),
            forall|k: int| 0 <= k < i ==> !(#[trigger] options.paths@[k] is Stdin),
        decreases options.paths.len() - i,
    {
        match &options.paths[i] {
            SearchPath::Stdin => {
                assert(options.paths@[i as int] is Stdin);
                return Err(SearchError::Stdin);
            },
            SearchPath::Place(_) => {},
        }
        i += 1;
    }
    let context = text::decimal_text(options.context as u64);
    let mut arguments = leading_arguments(context.as_str(), options.max_filesize.as_str());
    push_repeated(&mut arguments, "--glob", &options.globs);
    push_repeated(&mut arguments, "--type", &options.file_types);
    push_flag(&mut arguments, options.ignore_case, "--ignore-case");
    push_flag(&mut arguments, options.fixed_strings, "--fixed-strings");
    push_flag(&mut arguments, options.hidden, "--hidden");
    push_pattern(&mut arguments, options.pattern.as_str());
    push_flag(&mut arguments, options.paths.len() == 0, ".");
    Ok(arguments)
}

/// What a finished search amounts to.
///
/// Any words on standard error fail it. So does a status other than "matches" and
/// "no matches", unless ripgrep was stopped at the candidate limit.
pub fn search_outcome(
    found: SearchResult,
    diagnostic: String,
    code: Option<i32>,
    status: String,
) -> (outcome: Result<SearchResult, SearchError>)
    ensures
        match outcome {
            Ok(result) => {
                &&& text::is_blank(diagnostic@)
                &&& found.truncated || code == Some(0i32) || code == Some(1i32)
                &&& result == found
            },
            Err(error) => if text::is_blank(diagnostic@) {
                &&& !found.truncated && code != Some(0i32) && code != Some(1i32)
                &&& error@ == SearchFailure::Status(status@)
            } else {
                error@ matches SearchFailure::Diagnostic(words) && text::is_trimmed(
                    words,
                    diagnostic@,
                )
            },
        },
{
    if !text::blank(diagnostic.as_str()) {
        return Err(SearchError::Diagnostic(text::trim(diagnostic.as_str())));
    }
    let clean = match code {
        Some(code) => code == 0 || code == 1,
        None => false,
    };
    if !found.truncated && !clean {
        return Err(SearchError::Status(status));
    }
    Ok(found)
}

/// An option with several values stands before each of them.
pub proof fn law_repeated_options(option: Seq<char>, values: Seq<Seq<char>>, k: int)
    ensures
        repeated(option, values).len() == 2 * values.len(),
        0 <= k < values.len() ==> repeated(option, values)[2 * k] == option,
        0 <= k < values.len() ==> repeated(option, values)[2 * k + 1] == values[k],
    decreases values.len(),
{
    if values.len() > 0 {
        law_repeated_options(option, values.drop_last(), k);
    }
}

/// The place of the flags among the arguments: after the options that are always there,
/// the globs and the types.
pub open spec fn flags_start(options: SearchOptions) -> int {
    10int + 2 * options.globs@.len() + 2 * options.file_types@.len()
}

/// The number of flags that are set.
pub open spec fn flags_count(options: SearchOptions) -> int {
    (if options.ignore_case {
        1int
    } else {
        0
    }) + (if options.fixed_strings {
        1int
    } else {
        0
    }) + (if options.hidden {
        1int
    } else {
        0
    })
}

/// The parts that the arguments are made of.
proof fn lemma_argument_parts(options: SearchOptions)
    ensures
        ({
            let arguments = arguments_of(options);
            let globs = repeated("--glob"@, text::string_views(options.globs@));
            let types = repeated("--type"@, text::string_views(options.file_types@));
            let flags = flag(options.ignore_case, "--ignore-case"@) + flag(
                options.fixed_strings,
                "--fixed-strings"@,
            ) + flag(options.hidden, "--hidden"@);
            let start = flags_start(options);
            &&& globs.len() == 2 * options.globs@.len()
            &&& types.len() == 2 * options.file_types@.len()
            &&& flags.len() == flags_count(options)
            &&& arguments.len() == start + flags.len() + 3 + if options.paths@.len() == 0 {
                1int
            } else {
                0
            }
            &&& arguments.subrange(10, 10int + globs.len()) == globs
            &&& arguments.subrange(10int + globs.len(), start) == types
            &&& arguments.subrange(start, start + flags.len()) == flags
        }),
{
    let globs = repeated("--glob"@, text::string_views(options.globs@));
    let types = repeated("--type"@, text::string_views(options.file_types@));
    law_repeated_options("--glob"@, text::string_views(options.globs@), 0);
    law_repeated_options("--type"@, text::string_views(options.file_types@), 0);
    let arguments = arguments_of(options);
    let flags = flag(options.ignore_case, "--ignore-case"@) + flag(
        options.fixed_strings,
        "--fixed-strings"@,
    ) + flag(options.hidden, "--hidden"@);
    let start = flags_start(options);
    assert(arguments.subrange(10, 10int + globs.len()) =~= globs);
    assert(arguments.subrange(10int + globs.len(), start) =~= types);
    assert(arguments.subrange(start, start + flags.len()) =~= flags);
}

/// What ripgrep is always told: to ignore the user's configuration, to report in JSON in
/// the order of paths and without color, how much context to report and which files are
/// too large; the pattern, behind its own option; that no option follows; and, if no
/// place was given, to search the current directory.
pub proof fn law_ripgrep_is_told_what_to_search(options: SearchOptions)
    ensures
        ({
            let arguments = arguments_of(options);
            let end = flags_start(options) + flags_count(options);
            &&& arguments.len() == end + 3 + if options.paths@.len() == 0 {
                1int
            } else {
                0
            }
            &&& arguments[0] == "--no-config"@
            &&& arguments[1] == "--json"@
            &&& arguments[2] == "--sort"@
            &&& arguments[3] == "path"@
            &&& arguments[4] == "--color"@
            &&& arguments[5] == "never"@
            &&& arguments[6] == "--context"@
            &&& text::unsigned_value(arguments[7]) == Some(options.context as nat)
            &&& arguments[8] == "--max-filesize"@
            &&& arguments[9] == options.max_filesize@
            &&& arguments[end] == "--regexp"@
            &&& arguments[end + 1] == options.pattern@
            &&& arguments[end + 2] == "--"@
            &&& options.paths@.len() == 0 ==> arguments[end + 3] == "."@
        }),
{
    lemma_argument_parts(options);
    text::law_decimal_reads_back(options.context as nat);
}

/// Every glob and every type is handed on, in its order, behind its own option.
pub proof fn law_globs_and_types_are_handed_on(options: SearchOptions, k: int)
    ensures
        ({
            let arguments = arguments_of(options);
            let types = 10int + 2 * options.globs@.len();
            &&& 0 <= k < options.globs@.len() ==> arguments[10 + 2 * k] == "--glob"@
                && arguments[10 + 2 * k + 1] == options.globs@[k]@
            &&& 0 <= k < options.file_types@.len() ==> arguments[types + 2 * k] == "--type"@
                && arguments[types + 2 * k + 1] == options.file_types@[k]@
        }),
{
    let arguments = arguments_of(options);
    let globs = text::string_views(options.globs@);
    let types = text::string_views(options.file_types@);
    let middle = 10int + 2 * options.globs@.len();
    lemma_argument_parts(options);
    law_repeated_options("--glob"@, globs, k);
    law_repeated_options("--type"@, types, k);
    let start = flags_start(options);
    if 0 <= k < options.globs@.len() {
        assert(globs[k] == options.globs@[k]@);
        assert(arguments.subrange(10, middle)[2 * k] == arguments[10 + 2 * k]);
        assert(arguments.subrange(10, middle)[2 * k + 1] == arguments[10 + 2 * k + 1]);
    }
    if 0 <= k < options.file_types@.len() {
        assert(types[k] == options.file_types@[k]@);
        assert(arguments.subrange(middle, start)[2 * k] == arguments[middle + 2 * k]);
        assert(arguments.subrange(middle, start)[2 * k + 1] == arguments[middle + 2 * k + 1]);
    }
}

/// Each flag is handed on exactly if it is set, whatever the others are: between the
/// types and the pattern stand the flags that are set, each of them once, and nothing
/// else.
pub proof fn law_flags_are_handed_on_exactly_if_set(options: SearchOptions)
    ensures
        ({
            let arguments = arguments_of(options);
            let start = flags_start(options);
            let end = start + flags_count(options);
            let flags = arguments.subrange(start, end);
            &&& arguments[end] == "--regexp"@
            &&& flags.contains("--ignore-case"@) <==> options.ignore_case
            &&& flags.contains("--fixed-strings"@) <==> options.fixed_strings
            &&& flags.contains("--hidden"@) <==> options.hidden
            &&& flags.no_duplicates()
            &&& forall|i: int|
                0 <= i < flags.len() ==> (#[trigger] flags[i] == "--ignore-case"@ || flags[i]
                    == "--fixed-strings"@ || flags[i] == "--hidden"@)
        }),
{
    lemma_argument_parts(options);
    reveal_strlit("--ignore-case");
    assert("--ignore-case"@.len() == 13);
    reveal_strlit("--fixed-strings");
    assert("--fixed-strings"@.len() == 15);
    reveal_strlit("--hidden");
    assert("--hidden"@.len() == 8);
    let arguments = arguments_of(options);
    let start = flags_start(options);
    let end = start + flags_count(options);
    let flags = arguments.subrange(start, end);
    let fixed_place: int = if options.ignore_case {
        1
    } else {
        0
    };
    if options.ignore_case {
        assert(flags[0] == "--ignore-case"@);
    }
    if options.fixed_strings {
        assert(flags[fixed_place] == "--fixed-strings"@);
    }
    if options.hidden {
        assert(flags[flags.len() - 1] == "--hidden"@);
    }
}

/// What a text of ripgrep's output is: its plain form, whatever else is there; without
/// it the bytes that the base64 form stands for, if they are UTF-8.
pub proof fn law_texts_are_decoded(text: String, encoded: String, other: Option<String>)
    ensures
        (RgText { text: Some(text), bytes: other }).decoded() == Ok::<_, SearchFailure>(text@),
        (RgText { text: None, bytes: None }).decoded() == Err::<Seq<char>, _>(
            SearchFailure::TextObject,
        ),
        match base64_bytes(encoded@) {
            Ok(bytes) => if valid_utf8(bytes) {
                (RgText { text: None, bytes: Some(encoded) }).decoded() == Ok::<_, SearchFailure>(
                    decode_utf8(bytes),
                )
            } else {
                (RgText { text: None, bytes: Some(encoded) }).decoded() == Err::<Seq<char>, _>(
                    SearchFailure::NotUtf8,
                )
            },
            Err(words) => (RgText { text: None, bytes: Some(encoded) }).decoded() == Err::<
                Seq<char>,
                _,
            >(SearchFailure::Base64(words)),
        },
{
}

/// What a candidate holds is what its parts hold.
pub proof fn law_candidate_views(candidates: Seq<Candidate>, i: int)
    requires
        0 <= i < candidates.len(),
    ensures
        candidate_views(candidates).len() == candidates.len(),
        candidate_views(candidates)[i].path == candidates[i].path@,
        candidate_views(candidates)[i].start_line == candidates[i].start_line,
        candidate_views(candidates)[i].end_line == candidates[i].end_line,
        candidate_views(candidates)[i].match_lines == candidates[i].match_lines@,
        candidate_views(candidates)[i].snippet == candidates[i].snippet@,
{
}

/// Standard input is refused wherever it stands among the places to search.
pub proof fn law_stdin_is_refused_anywhere(paths: Seq<SearchPath>, i: int)
    ensures
        0 <= i < paths.len() && paths[i] is Stdin ==> searches_stdin(paths),
        searches_stdin(paths) ==> paths.contains(SearchPath::Stdin),
{
    if searches_stdin(paths) {
        let k = choose|k: int| 0 <= k < paths.len() && #[trigger] paths[k] is Stdin;
        assert(paths[k] == SearchPath::Stdin);
    }
}

/// What a search error holds is what its parts hold.
pub proof fn law_search_errors(words: String, path: String, number: usize)
    ensures
        SearchError::Start(words)@ == SearchFailure::Start(words@),
        SearchError::Base64(words)@ == SearchFailure::Base64(words@),
        SearchError::Diagnostic(words)@ == SearchFailure::Diagnostic(words@),
        SearchError::Status(words)@ == SearchFailure::Status(words@),
        (SearchError::LineTooLong { path, number })@ == (SearchFailure::LineTooLong {
            path: path@,
            number,
        }),
{
}

} // verus!
