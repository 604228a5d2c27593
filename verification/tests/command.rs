use jrg::binary64::{
    half_power, nonnegative, position, Score, HALF, INFINITY, NEGATIVE_ZERO, ONE, THIRTY,
    TWO_POW_64,
};
use jrg::cli::{
    exit_code, exit_status, limit_warning, needs_ranking, nonempty, positive, probability,
    returned_chars, select, statistics_value, tally, timeout, unscored, Statistics,
};
use jrg::jev::{RankedCandidate, Ranking};
use jrg::render::{label_text, rows_as_text, split_lines, terminal_text};
use jrg::search::{Candidate, SearchResult};
use jrg::session::{after_search, warning, Plan, Step};
use jrg::text::{
    blank, decimal_text, parse_unsigned, same, starts_with, trim, utf8_len, white, Position,
};
use jrg::{check_cancelled, Interrupted};
use serde_json::Value;

fn bits(text: &str) -> Option<u64> {
    text.parse::<f64>().ok().map(|value| value.to_bits())
}

fn candidate(path: &str, snippet: &str) -> Candidate {
    Candidate {
        path: path.to_string(),
        start_line: 1,
        end_line: 1,
        match_lines: vec![1],
        snippet: snippet.to_string(),
    }
}

fn scored(path: &str, value: f64) -> RankedCandidate {
    RankedCandidate {
        candidate: candidate(path, "x"),
        relevance: Some(Score::new(value.to_bits()).unwrap()),
    }
}

fn statistics(dry_run: bool) -> Statistics {
    Statistics {
        dry_run,
        candidates: 2,
        limit_reached: false,
        match_lines: 3,
        results: 1,
        candidate_chars: 40,
        returned_chars: 20,
        requests: 0,
        input_tokens: Some(0),
        models: vec![],
    }
}

fn plan(dry_run: bool, min_relevance: f64, top: usize) -> Plan {
    let min_relevance = Score::new(min_relevance.to_bits()).unwrap();
    Plan { dry_run, max_candidates: 200, min_relevance, top }
}

fn corpus() -> SearchResult {
    SearchResult {
        candidates: vec![
            candidate("metrics.py", "retry_metric = 'attempts'\n"),
            candidate("policy.py", "def retry():\n"),
        ],
        truncated: false,
    }
}

#[test]
fn dry_run_is_local_and_ignores_top_and_threshold() {
    let Step::Show(outcome) = after_search(plan(true, 1.0, 1), corpus()) else {
        panic!("a dry run asks nobody");
    };
    let report = outcome.release(false).unwrap();
    assert_eq!(exit_status(false, Some(report.code)), 0);
    assert_eq!(report.rows.len(), 2);
    assert!(report.rows.iter().all(|row| row.relevance.is_none()));
    let stats = statistics_value(&report.statistics, Value::from(1.5), Value::from(0.0));
    assert_eq!(stats["api_requests"], 0);
    assert_eq!(stats["mode"], "dry-run");
    assert_eq!(stats["input_tokens"], 0);
}

#[test]
fn a_run_without_candidates_asks_nobody() {
    let found = SearchResult { candidates: vec![], truncated: false };
    let Step::Show(outcome) = after_search(plan(false, 0.0, 10), found) else {
        panic!("there is nothing to rank");
    };
    let report = outcome.release(false).unwrap();
    assert!(report.rows.is_empty());
    assert_eq!(report.code, 1);
    assert!(!report.statistics.dry_run);
    assert_eq!((report.statistics.requests, report.statistics.input_tokens), (0, Some(0)));
    assert!(report.statistics.models.is_empty());
}

#[test]
fn a_ranked_run_is_measured_and_released_unless_interrupted() {
    let ranked = || {
        let Step::Rank(pending, candidates) = after_search(plan(false, 0.5, 1), corpus()) else {
            panic!("the candidates are to be ranked");
        };
        assert_eq!(candidates, corpus().candidates);
        pending.ranked(Ranking {
            results: vec![scored("a", 0.9), scored("b", 0.5), scored("c", 0.1)],
            requests: 3,
            input_tokens: None,
            models: vec!["m".to_string()],
        })
    };
    let report = ranked().release(false).unwrap();
    assert_eq!(report.rows, [scored("a", 0.9)]);
    assert_eq!(report.code, 0);
    let statistics = report.statistics;
    assert_eq!((statistics.candidates, statistics.results), (2, 1));
    assert_eq!((statistics.match_lines, statistics.candidate_chars), (2, 39));
    assert_eq!((statistics.returned_chars, statistics.requests), (1, 3));
    assert_eq!(statistics.input_tokens, None);
    assert_eq!(statistics.models, ["m"]);
    assert!(ranked().release(true).is_err());
}

#[test]
fn only_a_truncated_search_is_warned_of() {
    let plan = plan(false, 0.0, 10);
    let mut found = corpus();
    assert_eq!(warning(&plan, &found), None);
    found.truncated = true;
    assert_eq!(warning(&plan, &found), Some(limit_warning(200)));
}

#[test]
fn invalid_arguments_fail_before_any_search() {
    assert!(positive("0").is_err());
    assert!(probability(bits("NaN")).is_err());
    assert!(timeout(bits("inf")).is_err());
    assert!(nonempty(" ").is_err());
    assert_eq!(exit_status(false, None), 2);
}

#[test]
fn text_mode_has_unscored_label_and_control_characters_are_escaped() {
    let rows = unscored(vec![candidate("source.py", "retry\x1b[2J\n")]);
    let output = rows_as_text(&rows);
    assert!(output.contains("unscored source.py:1-1"));
    assert!(!output.as_bytes().contains(&27));
    assert_eq!(output, "unscored source.py:1-1\n >     1 retry\\u{1b}[2J\n\n");
}

#[test]
fn counts_are_positive_integers() {
    assert_eq!(positive("1"), Ok(1));
    assert_eq!(positive("+007"), Ok(7));
    assert_eq!(positive(&usize::MAX.to_string()), Ok(usize::MAX));
    let message = Err("must be a positive integer".to_string());
    for text in ["0", "", "-1", "+", "1.0", " 1", "1 ", "++1", "99999999999999999999999", "１"] {
        assert_eq!(positive(text), message, "{text}");
    }
}

#[test]
fn unsigned_numbers_are_read_as_the_standard_library_does() {
    let over = format!("{}0", usize::MAX);
    for text in ["0", "+0", "42", "00", "-0", "", "+", "x", "1x", "18446744073709551615", &over] {
        assert_eq!(parse_unsigned(text), text.parse::<usize>().ok(), "{text}");
    }
}

#[test]
fn thresholds_lie_between_zero_and_one() {
    for text in ["0", "1", "0.5", "-0", "1e-320", "+0.25"] {
        let value: f64 = text.parse().unwrap();
        assert_eq!(probability(bits(text)).unwrap().bits(), value.to_bits());
    }
    let message = "must be between 0 and 1".to_string();
    for text in ["x", "", "-0.1", "1.0000000000000002", "inf", "-inf", "NaN", "-1e-320"] {
        assert_eq!(probability(bits(text)).unwrap_err(), message, "{text}");
    }
}

#[test]
fn timeouts_are_positive_and_fit_a_duration() {
    for text in ["30", "0.05", "1e-300", "18446744073709549568"] {
        let value: f64 = text.parse().unwrap();
        assert!(std::time::Duration::try_from_secs_f64(value).is_ok());
        assert_eq!(timeout(bits(text)), Ok(value.to_bits()));
    }
    let message = Err("must be a finite positive timeout".to_string());
    for text in ["0", "-0", "-1", "inf", "NaN", "x", "18446744073709551616", "1e30"] {
        assert_eq!(timeout(bits(text)), message, "{text}");
    }
}

#[test]
fn descriptions_must_say_something() {
    assert_eq!(nonempty(" a "), Ok(" a ".to_string()));
    for text in ["", " ", "\t\n", "\u{3000}"] {
        assert_eq!(nonempty(text), Err("must not be empty".to_string()));
    }
}

#[test]
fn white_space_is_that_of_unicode() {
    for code in 0..=0x10ffffu32 {
        if let Some(c) = char::from_u32(code) {
            assert_eq!(white(c), c.is_whitespace(), "{code:x}");
        }
    }
    assert!(blank(""));
    assert!(!blank(" x "));
    assert_eq!(trim(" \n a b\t"), "a b");
    assert_eq!(trim(" \n "), "");
}

#[test]
fn what_is_shown_does_nothing_to_a_terminal() {
    for code in 0..=0x10ffffu32 {
        if let Some(c) = char::from_u32(code) {
            let expected: String = if c.is_control() && c != '\t' {
                c.escape_default().collect()
            } else {
                c.to_string()
            };
            assert_eq!(terminal_text(&c.to_string()), expected, "{code:x}");
        }
    }
    let shown = terminal_text("a\u{0}\tb\n\r\u{9f}\\é");
    assert_eq!(shown, "a\\u{0}\tb\\n\\r\\u{9f}\\é");
    assert_eq!(terminal_text(&shown), shown);
}

#[test]
fn scores_are_shown_to_three_places() {
    let mut values = vec![0.0, -0.0, 1.0, 0.5, 0.97, 0.12, 1e-300, 5e-324, 0.0005, 0.9995];
    for n in 0..=16 {
        values.push(n as f64 / 16.0);
    }
    for n in 0..=5000 {
        let value = n as f64 / 5000.0;
        values.push(value);
        values.push(f64::from_bits(value.to_bits() + 1).min(1.0));
        values.push(f64::from_bits(value.to_bits().max(1) - 1));
    }
    let mut pattern: u64 = 1;
    while pattern <= ONE {
        values.push(f64::from_bits(pattern));
        pattern += 3_141_592_653_589_793;
    }
    for value in values {
        let score = Score::new(value.to_bits()).unwrap();
        assert_eq!(label_text(&Some(score)), format!("{value:.3}"), "{value:e}");
    }
    assert_eq!(label_text(&None), "unscored");
}

#[test]
fn results_are_shown_with_marks_and_numbers() {
    let item = Candidate {
        path: "a\nb.rs".to_string(),
        start_line: 99_999,
        end_line: 100_001,
        match_lines: vec![100_000],
        snippet: "one\r\ntwo\t\r\r\nthree\n".to_string(),
    };
    let score = Score::new(0.9704f64.to_bits());
    let rows = vec![
        RankedCandidate { candidate: item, relevance: score },
        RankedCandidate { candidate: candidate("c", ""), relevance: None },
    ];
    assert_eq!(
        rows_as_text(&rows),
        "0.970 a\\nb.rs:99999-100001\n   99999 one\n > 100000 two\t\n   100001 three\n\nunscored c:1-1\n >     1 \n\n"
    );
    assert_eq!(rows_as_text(&vec![]), "");
}

#[test]
fn lines_beyond_the_numbers_are_not_shown() {
    let mut item = candidate("a", "one\ntwo\nthree");
    item.end_line = 2;
    let rows = unscored(vec![item.clone()]);
    assert_eq!(rows_as_text(&rows), "unscored a:1-2\n >     1 one\n       2 two\n\n");
    item.start_line = 3;
    assert_eq!(rows_as_text(&unscored(vec![item.clone()])), "unscored a:3-2\n\n");
    item.start_line = usize::MAX;
    item.end_line = usize::MAX;
    let expected = format!("unscored a:{0}-{0}\n   {0} one\n\n", usize::MAX);
    assert_eq!(rows_as_text(&unscored(vec![item])), expected);
}

#[test]
fn lines_are_split_at_line_feeds() {
    for text in ["", "\n", "a", "a\n", "\na", "a\n\nb\r\n"] {
        assert_eq!(split_lines(text), text.split('\n').collect::<Vec<_>>());
    }
}

#[test]
fn the_best_results_are_selected() {
    let rows = || vec![scored("a", 0.9), scored("b", 0.5), scored("c", 0.5), scored("d", 0.1)];
    let paths = |threshold: f64, top| -> Vec<String> {
        select(rows(), Score::new(threshold.to_bits()).unwrap(), top)
            .into_iter()
            .map(|row| row.candidate.path)
            .collect()
    };
    assert_eq!(paths(0.5, 10), ["a", "b", "c"]);
    assert_eq!(paths(0.5, 2), ["a", "b"]);
    assert_eq!(paths(0.0, 10), ["a", "b", "c", "d"]);
    assert_eq!(paths(-0.0, 10), ["a", "b", "c", "d"]);
    assert_eq!(paths(0.95, 10), Vec::<String>::new());
    assert_eq!(paths(0.0, 0), Vec::<String>::new());
    let zero = Score::new(0).unwrap();
    assert!(select(unscored(vec![candidate("a", "x")]), zero, 10).is_empty());
}

#[test]
fn characters_and_matches_are_counted() {
    let mut first = candidate("a", "再試行\n");
    first.match_lines = vec![1, 2, 3];
    let candidates = vec![first, candidate("b", "xyz")];
    let counts = tally(&candidates);
    assert_eq!((counts.match_lines, counts.chars), (4, 7));
    assert_eq!(returned_chars(&unscored(candidates)), 7);
    assert_eq!(tally(&vec![]).chars, 0);
}

#[test]
fn statistics_have_all_their_fields() {
    let mut measured = statistics(false);
    measured.limit_reached = true;
    measured.requests = 5;
    measured.input_tokens = None;
    measured.models = vec!["a".to_string(), "b".to_string()];
    assert!(measured.in_range());
    let value = statistics_value(&measured, Value::from(1.25), Value::from(0.5));
    assert_eq!(
        value.to_string(),
        "{\"api_requests\":5,\"candidate_chars\":40,\"candidate_limit_reached\":true,\"candidate_match_lines\":3,\"candidates\":2,\"input_tokens\":null,\"mode\":\"jev\",\"models\":[\"a\",\"b\"],\"rerank_ms\":0.5,\"results\":1,\"returned_chars\":20,\"search_ms\":1.25}"
    );
    let value = statistics_value(&statistics(true), Value::from(0), Value::from(0));
    assert_eq!(value["input_tokens"], 0);
    measured.candidate_chars = u64::MAX as u128 + 1;
    assert!(!measured.in_range());
}

#[test]
fn the_limit_warning_names_the_limit() {
    assert_eq!(
        limit_warning(200),
        "jrg: candidate limit (200) reached; narrow the pattern/paths or raise --max-candidates."
    );
}

#[test]
fn exit_codes_tell_how_a_run_ended() {
    assert_eq!((exit_code(0), exit_code(3)), (1, 0));
    assert_eq!(exit_status(false, Some(0)), 0);
    assert_eq!(exit_status(false, Some(1)), 1);
    assert_eq!(exit_status(false, None), 2);
    assert_eq!(exit_status(true, Some(0)), 130);
    assert_eq!(exit_status(true, None), 130);
    assert!(needs_ranking(false, 1));
    assert!(!needs_ranking(false, 0));
}

#[test]
fn an_interrupt_stops_pending_work() {
    assert_eq!(check_cancelled(false), Ok(()));
    assert_eq!(check_cancelled(true), Err(Interrupted));
    assert_eq!(Interrupted.message(), "interrupted");
}

#[test]
fn bit_patterns_are_those_of_the_numbers() {
    assert_eq!(HALF, 0.5f64.to_bits());
    assert_eq!(ONE, 1.0f64.to_bits());
    assert_eq!(THIRTY, 30.0f64.to_bits());
    assert_eq!(TWO_POW_64, 18446744073709551616.0f64.to_bits());
    assert_eq!(INFINITY, f64::INFINITY.to_bits());
    assert_eq!(NEGATIVE_ZERO, (-0.0f64).to_bits());
    for power in 0..=10 {
        assert_eq!(half_power(power), (0.5 * 2f64.powi(power as i32)).to_bits());
    }
    assert!(nonnegative((-0.0f64).to_bits()));
    assert!(!nonnegative((-1e-320f64).to_bits()));
    assert!(!nonnegative(f64::NAN.to_bits()));
    assert_eq!(position(0, NEGATIVE_ZERO), Position::Same);
    assert_eq!(position(1, HALF), Position::Before);
    assert_eq!(position(THIRTY, ONE), Position::After);
}

#[test]
fn strings_are_compared_and_measured_in_utf8() {
    let strings = ["", "a", "ab", "b", "é", "再", "\u{ffff}", "\u{10000}", "a\u{10000}"];
    for a in strings {
        for b in strings {
            let expected = match a.cmp(b) {
                std::cmp::Ordering::Less => Position::Before,
                std::cmp::Ordering::Equal => Position::Same,
                std::cmp::Ordering::Greater => Position::After,
            };
            assert_eq!(jrg::text::position(a, b), expected);
            assert_eq!(same(a, b), a == b);
            assert_eq!(starts_with(a, b), a.starts_with(b));
        }
        assert_eq!(utf8_len(a), a.len());
    }
    for number in [0, 9, 10, 12345, u64::MAX] {
        assert_eq!(decimal_text(number), number.to_string());
    }
}
