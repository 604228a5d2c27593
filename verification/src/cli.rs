//! What a run decides: the values of its arguments, which results it returns, what it
//! measures and how it exits.
use vstd::prelude::*;
use vstd::string::*;

use crate::binary64::{self, Score};
use crate::jev::{self, RankedCandidate, Ranking};
use crate::json;
use crate::ranking;
use crate::reply;
use crate::search::{self, Candidate};
use crate::text::{self, Position};
use serde_json::Value;

verus! {

/// Takes the description of what is sought, which must say something.
pub fn nonempty(value: &str) -> (result: Result<String, String>)
    ensures
        match result {
            Ok(accepted) => !text::is_blank(value@) && accepted@ == value@,
            Err(message) => text::is_blank(value@) && message@ == "must not be empty"@,
        },
{
    if text::blank(value) {
        Err("must not be empty".to_owned())
    } else {
        Ok(value.to_owned())
    }
}

/// Takes a count, which must be at least one.
pub fn positive(value: &str) -> (result: Result<usize, String>)
    ensures
        match result {
            Ok(count) => count > 0 && text::unsigned_value(value@) == Some(count as nat),
            Err(message) => {
                &&& text::unsigned_value(value@) matches Some(count) ==> count == 0 || count
                    > usize::MAX
                &&& message@ == "must be a positive integer"@
            },
        },
{
    match text::parse_unsigned(value) {
        Some(count) if count > 0 => Ok(count),
        _ => Err("must be a positive integer".to_owned()),
    }
}

/// Takes a threshold, given by its bit pattern if it is a number at all: from zero to
/// one, both included.
pub fn probability(value: Option<u64>) -> (result: Result<Score, String>)
    ensures
        match result {
            Ok(score) => value == Some(score.pattern()) && binary64::is_probability(
                score.pattern(),
            ),
            Err(message) => {
                &&& value matches Some(bits) ==> !binary64::is_probability(bits)
                &&& message@ == "must be between 0 and 1"@
            },
        },
{
    let score = match value {
        Some(bits) => Score::new(bits),
        None => None,
    };
    match score {
        Some(score) => Ok(score),
        None => Err("must be between 0 and 1".to_owned()),
    }
}

/// Whether a number of seconds can be waited for: more than none, and in the range of
/// a `Duration`, which is below two to the power of 64.
pub open spec fn is_timeout(bits: u64) -> bool {
    &&& binary64::is_finite(bits)
    &&& 0 < binary64::value(bits) < vstd::arithmetic::power2::pow2(64) * binary64::unit()
}

/// Takes a number of seconds, given by its bit pattern if it is a number at all.
pub fn timeout(value: Option<u64>) -> (result: Result<u64, String>)
    ensures
        match result {
            Ok(bits) => value == Some(bits) && is_timeout(bits),
            Err(message) => {
                &&& value matches Some(bits) ==> !is_timeout(bits)
                &&& message@ == "must be a finite positive timeout"@
            },
        },
{
    proof {
        binary64::lemma_constants();
    }
    match value {
        Some(bits) => {
            proof {
                if bits < binary64::INFINITY {
                    binary64::lemma_order(0, bits);
                    binary64::lemma_order(bits, binary64::TWO_POW_64);
                }
            }
            if 0 < bits && bits < binary64::TWO_POW_64 {
                return Ok(bits);
            }
        },
        None => {},
    }
    Err("must be a finite positive timeout".to_owned())
}

/// Whether candidates are sent to be ranked: not in a dry run, and only if there are
/// any.
pub open spec fn is_ranked(dry_run: bool, candidates: nat) -> bool {
    !dry_run && candidates > 0
}

/// Whether candidates are sent to be ranked: not in a dry run, and only if there are
/// any.
pub fn needs_ranking(dry_run: bool, candidates: usize) -> (result: bool)
    ensures
        result == is_ranked(dry_run, candidates as nat),
{
    !dry_run && candidates > 0
}

/// Candidates without scores.
pub open spec fn without_scores(candidates: Seq<search::CandidateView>) -> Seq<jev::RankedView> {
    Seq::new(
        candidates.len(),
        |i: int| jev::RankedView { candidate: candidates[i], relevance: None },
    )
}

/// The results of a run that asks nobody: all the candidates, in their order, none of
/// them with a score.
pub fn unscored(candidates: Vec<Candidate>) -> (rows: Vec<RankedCandidate>)
    ensures
        jev::ranked_views(rows@) == without_scores(search::candidate_views(candidates@)),
{
    let ghost all = candidates@;
    let mut rows: Vec<RankedCandidate> = Vec::new();
    for candidate in iter: candidates
        invariant
            iter.seq() == all,
            rows.len() == iter.index(),
            forall|k: int|
                0 <= k < rows.len() ==> (#[trigger] rows@[k])@ == (jev::RankedView {
                    candidate: all[k]@,
                    relevance: None,
                }),
    {
        rows.push(RankedCandidate { candidate, relevance: None });
    }
    assert(jev::ranked_views(rows@) =~= without_scores(search::candidate_views(all)));
    rows
}

/// Whether a row reaches the threshold; the threshold itself does.
pub open spec fn reaches(row: jev::RankedView, threshold: int) -> bool {
    row.relevance matches Some(bits) && binary64::value(bits) >= threshold
}

/// The rows that reach the threshold, in their order.
pub open spec fn reaching(rows: Seq<jev::RankedView>, threshold: int) -> Seq<jev::RankedView>
    decreases rows.len(),
{
    if rows.len() == 0 {
        seq![]
    } else if reaches(rows.last(), threshold) {
        reaching(rows.drop_last(), threshold).push(rows.last())
    } else {
        reaching(rows.drop_last(), threshold)
    }
}

/// The first `top` of the rows that reach the threshold.
pub open spec fn selected(rows: Seq<jev::RankedView>, threshold: int, top: nat) -> Seq<
    jev::RankedView,
> {
    let all = reaching(rows, threshold);
    if all.len() <= top {
        all
    } else {
        all.take(top as int)
    }
}

/// The results of a run: of the ranked rows those that reach the threshold, and of
/// those the first `top`.
pub fn select(rows: Vec<RankedCandidate>, threshold: Score, top: usize) -> (results: Vec<
    RankedCandidate,
>)
    ensures
        jev::ranked_views(results@) == selected(
            jev::ranked_views(rows@),
            threshold.value(),
            top as nat,
        ),
{
    let ghost all = jev::ranked_views(rows@);
    let ghost least = threshold.value();
    let mut results: Vec<RankedCandidate> = Vec::new();
    assert(all.take(0) == Seq::<jev::RankedView>::empty());
    assert(jev::ranked_views(results@) =~= seq![]);
    for row in iter: rows
        invariant
            all == jev::ranked_views(iter.seq()),
            least == threshold.value(),
            results.len() <= top,
            jev::ranked_views(results@) == selected(
                all.take(iter.index() as int),
                least,
                top as nat,
            ),
    {
        let ghost n = iter.index() as int;
        let ghost before = jev::ranked_views(results@);
        assert(all.take(n + 1).drop_last() == all.take(n));
        assert(all[n] == row@);
        let enough = match &row.relevance {
            Some(score) => match score.position(&threshold) {
                Position::Before => false,
                _ => true,
            },
            None => false,
        };
        assert(enough == reaches(row@, least));
        if enough && results.len() < top {
            results.push(row);
            assert(jev::ranked_views(results@) =~= before.push(row@));
        }
        assert(jev::ranked_views(results@) =~= selected(all.take(n + 1), least, top as nat));
    }
    assert(all.take(all.len() as int) == all);
    results
}

/// Whether no row ranks before one that stands before it.
pub open spec fn is_descending(rows: Seq<jev::RankedView>) -> bool {
    forall|i: int, j: int|
        0 <= i < j < rows.len() ==> !ranking::ranks_before(#[trigger] rows[j], #[trigger] rows[i])
}

/// The rows that reach a threshold are some of the rows, in their order.
proof fn lemma_reaching(rows: Seq<jev::RankedView>, threshold: int)
    ensures
        forall|i: int|
            0 <= i < reaching(rows, threshold).len() ==> rows.contains(
                #[trigger] reaching(rows, threshold)[i],
            ) && reaches(reaching(rows, threshold)[i], threshold),
        is_descending(rows) ==> is_descending(reaching(rows, threshold)),
    decreases rows.len(),
{
    if rows.len() > 0 {
        let rest = rows.drop_last();
        let few = reaching(rest, threshold);
        let all = reaching(rows, threshold);
        lemma_reaching(rest, threshold);
        assert forall|i: int| 0 <= i < all.len() implies rows.contains(#[trigger] all[i])
            && reaches(all[i], threshold) by {
            if i < few.len() {
                assert(all[i] == few[i]);
                let k = choose|k: int| 0 <= k < rest.len() && rest[k] == few[i];
                assert(rows[k] == all[i]);
            } else {
                assert(rows[rows.len() - 1] == all[i]);
            }
        }
        if is_descending(rows) {
            assert forall|i: int, j: int| 0 <= i < j < rest.len() implies !ranking::ranks_before(
                #[trigger] rest[j],
                #[trigger] rest[i],
            ) by {
                assert(rest[i] == rows[i] && rest[j] == rows[j]);
            }
            assert forall|i: int, j: int| 0 <= i < j < all.len() implies !ranking::ranks_before(
                #[trigger] all[j],
                #[trigger] all[i],
            ) by {
                assert(all[i] == few[i]);
                if j < few.len() {
                    assert(all[j] == few[j]);
                } else {
                    let k = choose|k: int| 0 <= k < rest.len() && rest[k] == few[i];
                    assert(rows[k] == few[i] && rows[rows.len() - 1] == all[j]);
                }
            }
        }
    }
}

/// What is returned is the best there is: every result reaches the threshold, the
/// results are in order, and no row that reaches the threshold and was left out ranks
/// before a result.
pub proof fn law_the_best_are_selected(
    rows: Seq<jev::RankedView>,
    threshold: int,
    top: nat,
)
    requires
        is_descending(rows),
    ensures
        ({
            let results = selected(rows, threshold, top);
            let all = reaching(rows, threshold);
            &&& results.len() <= top
            &&& results.len() < top ==> results == all
            &&& is_descending(results)
            &&& forall|i: int|
                0 <= i < results.len() ==> rows.contains(#[trigger] results[i]) && reaches(
                    results[i],
                    threshold,
                )
            &&& forall|i: int, j: int|
                0 <= i < results.len() <= j < all.len() ==> !ranking::ranks_before(
                    #[trigger] all[j],
                    #[trigger] results[i],
                )
        }),
{
    lemma_reaching(rows, threshold);
    let results = selected(rows, threshold, top);
    let all = reaching(rows, threshold);
    assert(forall|i: int| 0 <= i < results.len() ==> results[i] == all[i]);
}

/// A threshold of zero drops nothing that was judged.
pub proof fn law_zero_threshold_drops_nothing(rows: Seq<jev::RankedView>)
    requires
        forall|i: int|
            0 <= i < rows.len() ==> ((#[trigger] rows[i]).relevance matches Some(bits)
                && binary64::is_probability(bits)),
    ensures
        reaching(rows, 0) == rows,
    decreases rows.len(),
{
    if rows.len() > 0 {
        let rest = rows.drop_last();
        assert forall|i: int| 0 <= i < rest.len() implies ((#[trigger] rest[i]).relevance matches Some(
            bits,
        ) && binary64::is_probability(bits)) by {
            assert(rest[i] == rows[i]);
        }
        law_zero_threshold_drops_nothing(rest);
        assert(reaches(rows[rows.len() - 1], 0));
        assert(rest.push(rows.last()) =~= rows);
    }
}

/// The number of matching lines of several candidates.
pub open spec fn match_line_total(candidates: Seq<search::CandidateView>) -> nat
    decreases candidates.len(),
{
    if candidates.len() == 0 {
        0
    } else {
        match_line_total(candidates.drop_last()) + candidates.last().match_lines.len()
    }
}

/// The number of characters of the snippets of several candidates.
pub open spec fn char_total(candidates: Seq<search::CandidateView>) -> nat
    decreases candidates.len(),
{
    if candidates.len() == 0 {
        0
    } else {
        char_total(candidates.drop_last()) + candidates.last().snippet.len()
    }
}

/// What is counted of candidates.
#[derive(Clone, Copy, Debug, PartialEq, Eq, Structural)]
pub struct Tally {
    /// The matching lines.
    pub match_lines: u128,
    /// The characters of the snippets.
    pub chars: u128,
}

/// Counts the matching lines and the characters of candidates.
pub fn tally(candidates: &Vec<Candidate>) -> (counts: Tally)
    ensures
        counts.match_lines == match_line_total(search::candidate_views(candidates@)),
        counts.chars == char_total(search::candidate_views(candidates@)),
{
    let ghost views = search::candidate_views(candidates@);
    let mut match_lines: u128 = 0;
    let mut chars: u128 = 0;
    let mut i: usize = 0;
    assert(views.take(0) == Seq::<search::CandidateView>::empty());
    while i < candidates.len()
        invariant
            i <= candidates.len(),
            views == search::candidate_views(candidates@),
            match_lines == match_line_total(views.take(i as int)),
            chars == char_total(views.take(i as int)),
            match_lines <= i * 0xffff_ffff_ffff_ffff,
            chars <= i * 0xffff_ffff_ffff_ffff,
        decreases candidates.len() - i,
    {
        assert(views.take(i + 1).drop_last() == views.take(i as int));
        assert(views[i as int] == candidates@[i as int]@);
        match_lines = match_lines + candidates[i].match_lines.len() as u128;
        chars = chars + candidates[i].snippet.as_str().unicode_len() as u128;
        i += 1;
    }
    assert(views.take(i as int) == views);
    Tally { match_lines, chars }
}

/// The candidates of several results.
pub open spec fn results_of(rows: Seq<jev::RankedView>) -> Seq<search::CandidateView> {
    Seq::new(rows.len(), |i: int| rows[i].candidate)
}

/// Counts the characters of the snippets of results.
pub fn returned_chars(rows: &Vec<RankedCandidate>) -> (chars: u128)
    ensures
        chars == char_total(results_of(jev::ranked_views(rows@))),
{
    let ghost views = results_of(jev::ranked_views(rows@));
    let mut chars: u128 = 0;
    let mut i: usize = 0;
    assert(views.take(0) == Seq::<search::CandidateView>::empty());
    while i < rows.len()
        invariant
            i <= rows.len(),
            views == results_of(jev::ranked_views(rows@)),
            chars == char_total(views.take(i as int)),
            chars <= i * 0xffff_ffff_ffff_ffff,
        decreases rows.len() - i,
    {
        assert(views.take(i + 1).drop_last() == views.take(i as int));
        assert(views[i as int] == rows@[i as int].candidate@);
        chars = chars + rows[i].candidate.snippet.as_str().unicode_len() as u128;
        i += 1;
    }
    assert(views.take(i as int) == views);
    chars
}

/// The warning that there were more candidates than were wanted.
pub open spec fn limit_text(limit: nat) -> Seq<char> {
    "jrg: candidate limit ("@ + text::decimal(limit)
        + ") reached; narrow the pattern/paths or raise --max-candidates."@
}

/// The warning that there were more candidates than were wanted.
pub fn limit_warning(limit: usize) -> (message: String)
    ensures
        message@ == limit_text(limit as nat),
{
    let digits = text::decimal_text(limit as u64);
    "jrg: candidate limit (".to_owned().concat(digits.as_str()).concat(
        ") reached; narrow the pattern/paths or raise --max-candidates.",
    )
}

/// What a run measured.
#[derive(Debug)]
pub struct Statistics {
    pub dry_run: bool,
    pub candidates: usize,
    pub limit_reached: bool,
    pub match_lines: u128,
    pub results: usize,
    pub candidate_chars: u128,
    pub returned_chars: u128,
    /// The requests, repeated ones included; zero if nobody was asked.
    pub requests: usize,
    /// The tokens that the service counted, zero if nobody was asked; none where an
    /// answer does not say.
    pub input_tokens: Option<u64>,
    pub models: Vec<String>,
}

impl Statistics {
    /// Whether the sums are in the range of a JSON integer.
    pub open spec fn is_in_range(self) -> bool {
        &&& self.match_lines <= u64::MAX
        &&& self.candidate_chars <= u64::MAX
        &&& self.returned_chars <= u64::MAX
    }

    /// Whether the sums are in the range of a JSON integer.
    pub fn in_range(&self) -> (result: bool)
        ensures
            result == self.is_in_range(),
    {
        self.match_lines <= u64::MAX as u128 && self.candidate_chars <= u64::MAX as u128
            && self.returned_chars <= u64::MAX as u128
    }
}

/// Whether statistics are those of a run: over the candidates that were found, with the
/// ranking if the service was asked, and with the rows that are returned. Where nobody
/// was asked there are no requests, no tokens and no models.
pub open spec fn is_measured(
    statistics: Statistics,
    dry_run: bool,
    found: Seq<search::CandidateView>,
    truncated: bool,
    ranking: Option<Ranking>,
    rows: Seq<jev::RankedView>,
) -> bool {
    &&& statistics.dry_run == dry_run
    &&& statistics.candidates == found.len()
    &&& statistics.limit_reached == truncated
    &&& statistics.match_lines == match_line_total(found)
    &&& statistics.results == rows.len()
    &&& statistics.candidate_chars == char_total(found)
    &&& statistics.returned_chars == char_total(results_of(rows))
    &&& match ranking {
        Some(ranking) => {
            &&& statistics.requests == ranking.requests
            &&& statistics.input_tokens == ranking.input_tokens
            &&& statistics.models == ranking.models
        },
        None => {
            &&& statistics.requests == 0
            &&& statistics.input_tokens == Some(0u64)
            &&& statistics.models@.len() == 0
        },
    }
}

/// Strings as JSON.
pub open spec fn strings_json(strings: Seq<Seq<char>>) -> json::Json {
    json::Json::Array(Seq::new(strings.len(), |i: int| json::Json::Text(strings[i])))
}

/// What a run measured, as JSON; the two times are given as they are to stand there.
pub open spec fn statistics_json(
    statistics: Statistics,
    search_ms: json::Json,
    rerank_ms: json::Json,
) -> json::Json {
    json::Json::Object(
        map![
            "mode"@ => json::Json::Text(if statistics.dry_run {
                "dry-run"@
            } else {
                "jev"@
            }),
            "candidates"@ => json::Json::Unsigned(statistics.candidates as u64),
            "candidate_limit_reached"@ => json::Json::Bool(statistics.limit_reached),
            "candidate_match_lines"@ => json::Json::Unsigned(statistics.match_lines as u64),
            "results"@ => json::Json::Unsigned(statistics.results as u64),
            "candidate_chars"@ => json::Json::Unsigned(statistics.candidate_chars as u64),
            "returned_chars"@ => json::Json::Unsigned(statistics.returned_chars as u64),
            "search_ms"@ => search_ms,
            "rerank_ms"@ => rerank_ms,
            "api_requests"@ => json::Json::Unsigned(statistics.requests as u64),
            "input_tokens"@ => match statistics.input_tokens {
                Some(count) => json::Json::Unsigned(count),
                None => json::Json::Null,
            },
            "models"@ => strings_json(text::string_views(statistics.models@))
        ],
    )
}

/// Strings as JSON.
fn strings_value(strings: &Vec<String>) -> (value: Value)
    ensures
        json::json_of(value) == strings_json(text::string_views(strings@)),
{
    let ghost views = text::string_views(strings@);
    let mut values: Vec<Value> = Vec::new();
    let mut i: usize = 0;
    while i < strings.len()
        invariant
            i <= strings.len(),
            views == text::string_views(strings@),
            json::items(values@) == Seq::new(i as nat, |k: int| json::Json::Text(views[k])),
        decreases strings.len() - i,
    {
        assert(views[i as int] == strings@[i as int]@);
        json::push_item(&mut values, json::string(strings[i].as_str()));
        i += 1;
    }
    json::array(values)
}

/// What a run measured, as JSON.
pub fn statistics_value(statistics: &Statistics, search_ms: Value, rerank_ms: Value) -> (value:
    Value)
    requires
        statistics.is_in_range(),
    ensures
        json::json_of(value) == statistics_json(
            *statistics,
            json::json_of(search_ms),
            json::json_of(rerank_ms),
        ),
{
    proof {
        reveal_strlit("mode");
        assert("mode"@.len() == 4);
        reveal_strlit("candidates");
        assert("candidates"@.len() == 10);
        reveal_strlit("candidate_limit_reached");
        assert("candidate_limit_reached"@.len() == 23);
        reveal_strlit("candidate_match_lines");
        assert("candidate_match_lines"@.len() == 21);
        reveal_strlit("results");
        assert("results"@.len() == 7);
        reveal_strlit("candidate_chars");
        assert("candidate_chars"@.len() == 15);
        reveal_strlit("returned_chars");
        assert("returned_chars"@.len() == 14);
        reveal_strlit("search_ms");
        assert("search_ms"@.len() == 9);
        reveal_strlit("rerank_ms");
        assert("rerank_ms"@.len() == 9);
        reveal_strlit("api_requests");
        assert("api_requests"@.len() == 12);
        reveal_strlit("input_tokens");
        assert("input_tokens"@.len() == 12);
        reveal_strlit("models");
        assert("models"@.len() == 6);
        assert("search_ms"@[0] != "rerank_ms"@[0]);
        assert("api_requests"@[0] != "input_tokens"@[0]);
    }
    let mode = if statistics.dry_run {
        "dry-run"
    } else {
        "jev"
    };
    let mut entries: Vec<(String, Value)> = Vec::new();
    json::push_field(&mut entries, "mode", json::string(mode));
    json::push_field(&mut entries, "candidates", json::number(statistics.candidates as u64));
    json::push_field(
        &mut entries,
        "candidate_limit_reached",
        json::boolean(statistics.limit_reached),
    );
    json::push_field(
        &mut entries,
        "candidate_match_lines",
        json::number(statistics.match_lines as u64),
    );
    json::push_field(&mut entries, "results", json::number(statistics.results as u64));
    json::push_field(
        &mut entries,
        "candidate_chars",
        json::number(statistics.candidate_chars as u64),
    );
    json::push_field(
        &mut entries,
        "returned_chars",
        json::number(statistics.returned_chars as u64),
    );
    json::push_field(&mut entries, "search_ms", search_ms);
    json::push_field(&mut entries, "rerank_ms", rerank_ms);
    json::push_field(&mut entries, "api_requests", json::number(statistics.requests as u64));
    json::push_field(
        &mut entries,
        "input_tokens",
        json::optional_number(statistics.input_tokens),
    );
    json::push_field(&mut entries, "models", strings_value(&statistics.models));
    json::object(entries)
}

/// The exit code of a run that ends with results: whether there are any.
pub fn exit_code(results: usize) -> (code: i32)
    ensures
        code == (if results == 0 {
            1int
        } else {
            0
        }),
{
    if results == 0 {
        1
    } else {
        0
    }
}

/// The exit code of the program: an interrupt comes before all else, and a run that
/// failed has no code of its own.
pub fn exit_status(cancelled: bool, code: Option<i32>) -> (status: i32)
    ensures
        status == (if cancelled {
            130
        } else {
            match code {
                Some(code) => code,
                None => 2,
            }
        }),
{
    if cancelled {
        130
    } else {
        match code {
            Some(code) => code,
            None => 2,
        }
    }
}

/// The rows that reach a threshold, by their places.
proof fn lemma_reaching_places(rows: Seq<jev::RankedView>, threshold: int) -> (at: Seq<int>)
    ensures
        at.len() == reaching(rows, threshold).len(),
        forall|k: int, l: int| 0 <= k < l < at.len() ==> at[k] < at[l],
        forall|k: int|
            0 <= k < at.len() ==> 0 <= #[trigger] at[k] < rows.len() && reaching(
                rows,
                threshold,
            )[k] == rows[at[k]] && (rows[at[k]].relevance matches Some(bits) && binary64::value(
                bits,
            ) >= threshold),
        forall|i: int|
            0 <= i < rows.len() && ((#[trigger] rows[i]).relevance matches Some(bits)
                && binary64::value(bits) >= threshold) ==> at.contains(i),
    decreases rows.len(),
{
    if rows.len() == 0 {
        Seq::empty()
    } else {
        let rest = rows.drop_last();
        let last = rows.len() - 1;
        let before = lemma_reaching_places(rest, threshold);
        let all = reaching(rows, threshold);
        let few = reaching(rest, threshold);
        let at = if all.len() > few.len() {
            before.push(last)
        } else {
            before
        };
        assert forall|k: int| 0 <= k < at.len() implies 0 <= #[trigger] at[k] < rows.len()
            && all[k] == rows[at[k]] && (rows[at[k]].relevance matches Some(bits)
            && binary64::value(bits) >= threshold) by {
            if k < before.len() {
                assert(at[k] == before[k]);
                assert(rest[before[k]] == rows[at[k]]);
                assert(all[k] == few[k]);
            }
        }
        assert forall|i: int|
            0 <= i < rows.len() && ((#[trigger] rows[i]).relevance matches Some(bits)
                && binary64::value(bits) >= threshold) implies at.contains(i) by {
            if i < last {
                assert(rest[i] == rows[i]);
                let k = choose|k: int| 0 <= k < before.len() && before[k] == i;
                assert(at[k] == i);
            } else {
                assert(at[before.len() as int] == i);
            }
        }
        at
    }
}

/// The results are the first `top` of the rows whose score, as a number, is at least the
/// threshold, in their order: the result lists the place of each. Such a row is left out
/// only if there are `top` results before it.
pub proof fn law_results_are_the_first_that_reach_the_threshold(
    rows: Seq<jev::RankedView>,
    threshold: int,
    top: nat,
) -> (at: Seq<int>)
    ensures
        at.len() == selected(rows, threshold, top).len(),
        at.len() <= top,
        forall|k: int, l: int| 0 <= k < l < at.len() ==> at[k] < at[l],
        forall|k: int|
            0 <= k < at.len() ==> 0 <= #[trigger] at[k] < rows.len() && selected(
                rows,
                threshold,
                top,
            )[k] == rows[at[k]] && (rows[at[k]].relevance matches Some(bits) && binary64::value(
                bits,
            ) >= threshold),
        forall|i: int|
            0 <= i < rows.len() && ((#[trigger] rows[i]).relevance matches Some(bits)
                && binary64::value(bits) >= threshold) ==> at.contains(i) || (at.len() == top
                && forall|k: int| 0 <= k < at.len() ==> #[trigger] at[k] < i),
{
    let all = lemma_reaching_places(rows, threshold);
    let at = if all.len() <= top {
        all
    } else {
        all.take(top as int)
    };
    assert forall|k: int| 0 <= k < at.len() implies 0 <= #[trigger] at[k] < rows.len()
        && selected(rows, threshold, top)[k] == rows[at[k]] && (rows[at[k]].relevance matches Some(
        bits,
    ) && binary64::value(bits) >= threshold) by {
        assert(at[k] == all[k]);
    }
    assert forall|i: int|
        0 <= i < rows.len() && ((#[trigger] rows[i]).relevance matches Some(bits)
            && binary64::value(bits) >= threshold) implies at.contains(i) || (at.len() == top
        && forall|k: int| 0 <= k < at.len() ==> #[trigger] at[k] < i) by {
        let k = choose|k: int| 0 <= k < all.len() && all[k] == i;
        if k < at.len() {
            assert(at[k] == i);
        } else {
            assert forall|l: int| 0 <= l < at.len() implies #[trigger] at[l] < i by {
                assert(at[l] == all[l]);
            }
        }
    }
    at
}

/// Candidates without scores are all the candidates, in their order and as they are.
pub proof fn law_nothing_is_scored_without_asking(
    candidates: Seq<search::CandidateView>,
    i: int,
)
    requires
        0 <= i < candidates.len(),
    ensures
        without_scores(candidates).len() == candidates.len(),
        without_scores(candidates)[i].candidate == candidates[i],
        without_scores(candidates)[i].relevance is None,
        results_of(without_scores(candidates)) == candidates,
{
    assert(results_of(without_scores(candidates)) =~= candidates);
}

/// Candidates are counted one by one: each with all its matching lines and all the
/// characters of its snippet.
pub proof fn law_candidates_are_counted_one_by_one(
    a: Seq<search::CandidateView>,
    b: Seq<search::CandidateView>,
    candidate: search::CandidateView,
)
    ensures
        match_line_total(Seq::<search::CandidateView>::empty()) == 0,
        char_total(Seq::<search::CandidateView>::empty()) == 0,
        match_line_total(seq![candidate]) == candidate.match_lines.len(),
        char_total(seq![candidate]) == candidate.snippet.len(),
        match_line_total(a + b) == match_line_total(a) + match_line_total(b),
        char_total(a + b) == char_total(a) + char_total(b),
    decreases b.len(),
{
    let none = Seq::<search::CandidateView>::empty();
    assert(match_line_total(none) == 0 && char_total(none) == 0);
    assert(seq![candidate].drop_last() =~= none);
    if b.len() == 0 {
        assert(a + b =~= a);
    } else {
        law_candidates_are_counted_one_by_one(a, b.drop_last(), candidate);
        assert((a + b).drop_last() =~= a + b.drop_last());
    }
}

/// The candidates of results are those of each, in their order.
pub proof fn law_results_hold_candidates(rows: Seq<jev::RankedView>, i: int)
    requires
        0 <= i < rows.len(),
    ensures
        results_of(rows).len() == rows.len(),
        results_of(rows)[i] == rows[i].candidate,
{
}

/// What is measured of a run.
pub proof fn law_what_is_measured(
    statistics: Statistics,
    dry_run: bool,
    found: Seq<search::CandidateView>,
    truncated: bool,
    ranking: Option<Ranking>,
    rows: Seq<jev::RankedView>,
)
    requires
        is_measured(statistics, dry_run, found, truncated, ranking, rows),
    ensures
        statistics.dry_run == dry_run,
        statistics.candidates == found.len(),
        statistics.results == rows.len(),
        statistics.limit_reached == truncated,
        statistics.match_lines == match_line_total(found),
        statistics.candidate_chars == char_total(found),
        statistics.returned_chars == char_total(results_of(rows)),
        ranking is None ==> statistics.requests == 0 && statistics.input_tokens == Some(0u64)
            && statistics.models@ == Seq::<String>::empty(),
        ranking matches Some(ranking) ==> statistics.requests == ranking.requests
            && statistics.input_tokens == ranking.input_tokens && statistics.models
            == ranking.models,
{
}

/// Every measurement stands in the JSON form under its own name.
pub proof fn law_measurements_are_reported(
    statistics: Statistics,
    search_ms: json::Json,
    rerank_ms: json::Json,
)
    ensures
        ({
            let report = statistics_json(statistics, search_ms, rerank_ms);
            &&& reply::field(report, "mode"@) == Some(
                json::Json::Text(if statistics.dry_run {
                    "dry-run"@
                } else {
                    "jev"@
                }),
            )
            &&& reply::field(report, "candidates"@) == Some(
                json::Json::Unsigned(statistics.candidates as u64),
            )
            &&& reply::field(report, "candidate_limit_reached"@) == Some(
                json::Json::Bool(statistics.limit_reached),
            )
            &&& reply::field(report, "candidate_match_lines"@) == Some(
                json::Json::Unsigned(statistics.match_lines as u64),
            )
            &&& reply::field(report, "results"@) == Some(
                json::Json::Unsigned(statistics.results as u64),
            )
            &&& reply::field(report, "candidate_chars"@) == Some(
                json::Json::Unsigned(statistics.candidate_chars as u64),
            )
            &&& reply::field(report, "returned_chars"@) == Some(
                json::Json::Unsigned(statistics.returned_chars as u64),
            )
            &&& reply::field(report, "search_ms"@) == Some(search_ms)
            &&& reply::field(report, "rerank_ms"@) == Some(rerank_ms)
            &&& reply::field(report, "api_requests"@) == Some(
                json::Json::Unsigned(statistics.requests as u64),
            )
            &&& reply::field(report, "input_tokens"@) == Some(
                match statistics.input_tokens {
                    Some(count) => json::Json::Unsigned(count),
                    None => json::Json::Null,
                },
            )
            &&& reply::field(report, "models"@) matches Some(json::Json::Array(models))
                && models.len() == statistics.models@.len() && forall|i: int|
                0 <= i < models.len() ==> #[trigger] models[i] == json::Json::Text(
                    statistics.models@[i]@,
                )
        }),
{
    reveal_strlit("mode");
    assert("mode"@.len() == 4);
    reveal_strlit("candidates");
    assert("candidates"@.len() == 10);
    reveal_strlit("candidate_limit_reached");
    assert("candidate_limit_reached"@.len() == 23);
    reveal_strlit("candidate_match_lines");
    assert("candidate_match_lines"@.len() == 21);
    reveal_strlit("results");
    assert("results"@.len() == 7);
    reveal_strlit("candidate_chars");
    assert("candidate_chars"@.len() == 15);
    reveal_strlit("returned_chars");
    assert("returned_chars"@.len() == 14);
    reveal_strlit("search_ms");
    assert("search_ms"@.len() == 9);
    reveal_strlit("rerank_ms");
    assert("rerank_ms"@.len() == 9);
    reveal_strlit("api_requests");
    assert("api_requests"@.len() == 12);
    reveal_strlit("input_tokens");
    assert("input_tokens"@.len() == 12);
    reveal_strlit("models");
    assert("models"@.len() == 6);
    assert("search_ms"@[0] != "rerank_ms"@[0]);
    assert("api_requests"@[0] != "input_tokens"@[0]);
}

/// What is asked of arguments: a run ranks unless it is dry or has nothing to rank; a
/// timeout is more than nothing and less than two to the power of 64 seconds; and the
/// warning of the limit names the limit.
pub proof fn law_arguments_are_taken_at_their_word(
    dry_run: bool,
    candidates: nat,
    bits: u64,
    limit: nat,
)
    ensures
        is_ranked(dry_run, candidates) <==> !dry_run && candidates != 0,
        is_timeout(bits) <==> binary64::is_finite(bits) && binary64::value(bits) > 0
            && binary64::value(bits) < binary64::value(0x43f0_0000_0000_0000),
        binary64::value(0x43f0_0000_0000_0000) == vstd::arithmetic::power2::pow2(64)
            * vstd::arithmetic::power2::pow2(1074),
        limit_text(limit) == "jrg: candidate limit ("@ + text::decimal(limit)
            + ") reached; narrow the pattern/paths or raise --max-candidates."@,
{
    binary64::lemma_constants();
}

} // verus!
