use jrg::cli::{exit_code, tally, unscored};
use jrg::collect::{event_kind, Collector, EventKind, MAX_BYTES, MAX_LINES};
use jrg::config::{Exclusions, ResolvedPath, SeenPath};
use jrg::search::{
    rg_arguments, search_outcome, start_error, Candidate, RgText, SearchError, SearchOptions,
    SearchPath, SearchResult,
};
use std::path::PathBuf;

fn text(value: &str) -> Option<RgText> {
    Some(RgText { text: Some(value.to_string()), bytes: None })
}

fn encoded(value: &str) -> RgText {
    RgText { text: None, bytes: Some(value.to_string()) }
}

/// How the file at `path` looks if no link leads to it.
fn plain(path: &str) -> SeenPath {
    let name = path.rsplit('/').next().map(|name| name.to_string());
    SeenPath {
        name: name.clone(),
        resolved: Some(ResolvedPath { bytes: format!("/project/{path}").into_bytes(), name }),
    }
}

/// Reports the lines of a file as ripgrep does: those that contain `word`, and as many
/// as `context` around them.
fn report(
    collector: &mut Collector,
    excluded: &Exclusions,
    seen: &SeenPath,
    path: &str,
    source: &str,
    word: &str,
    context: usize,
) -> Result<(), SearchError> {
    let lines: Vec<&str> = source.split_inclusive('\n').collect();
    for (index, line) in lines.iter().enumerate() {
        let from = index.saturating_sub(context);
        let to = (index + context + 1).min(lines.len());
        let kind = if line.contains(word) {
            EventKind::Match
        } else if lines[from..to].iter().any(|line| line.contains(word)) {
            EventKind::Context
        } else {
            continue;
        };
        if collector.is_full() {
            return Ok(());
        }
        collector.accept(excluded, seen, kind, path.to_string(), Some(index + 1), text(line))?;
    }
    if lines.iter().any(|line| line.contains(word)) {
        collector.accept(excluded, seen, EventKind::End, path.to_string(), None, None)?;
    }
    Ok(())
}

/// Searches files for `retry`.
fn search(
    files: &[(&str, &str)],
    context: usize,
    limit: usize,
    excluded: &Exclusions,
) -> Result<SearchResult, SearchError> {
    let mut collector = Collector::new(limit);
    for (path, source) in files {
        report(&mut collector, excluded, &plain(path), path, source, "retry", context)?;
    }
    Ok(collector.finish())
}

fn options() -> SearchOptions {
    SearchOptions {
        pattern: "retry".to_string(),
        paths: vec![],
        context: 5,
        max_candidates: 200,
        globs: vec![],
        file_types: vec![],
        ignore_case: false,
        fixed_strings: false,
        hidden: false,
        max_filesize: "1M".to_string(),
    }
}

#[test]
fn merged_context_matches_python_coordinates_and_eof() {
    let source = "前置き\nretry()\nafter\nretry()\nlast";
    let result =
        search(&[("source file.py", source)], 1, 200, &Exclusions::new(None)).unwrap().candidates;
    assert_eq!(result.len(), 1);
    assert_eq!(result[0].match_lines, vec![2, 4]);
    assert_eq!(result[0].start_line, 1);
    assert_eq!(result[0].end_line, 5);
    assert_eq!(result[0].snippet, "前置き\nretry()\nafter\nretry()\nlast");
    assert_eq!(result[0].path, "source file.py");
}

#[test]
fn dense_matches_split_and_truncation_is_explicit() {
    let source = "retry\n".repeat(241);
    let found = search(&[("dense.py", &source)], 5, 2, &Exclusions::new(None)).unwrap();
    assert_eq!(found.candidates.len(), 2);
    assert!(found.truncated);
    assert_eq!(tally(&found.candidates).match_lines, 240);
    let found = search(&[("dense.py", &source)], 5, 3, &Exclusions::new(None)).unwrap();
    assert_eq!(found.candidates.len(), 3);
    assert!(!found.truncated);
    assert_eq!(tally(&found.candidates).match_lines, 241);
}

#[test]
fn separate_regions_and_exact_limit_are_preserved() {
    let source = "retry\nnone\nretry\n";
    let found = search(&[("source.py", source)], 0, 2, &Exclusions::new(None)).unwrap();
    assert_eq!(found.candidates.len(), 2);
    assert!(!found.truncated);
}

#[test]
fn rg_flags_ignore_and_configuration_behavior() {
    let mut options = options();
    options.pattern = "retry[".to_string();
    options.ignore_case = true;
    options.fixed_strings = true;
    options.file_types = vec!["py".to_string()];
    assert_eq!(
        rg_arguments(&options).unwrap(),
        [
            "--no-config", "--json", "--sort", "path", "--color", "never", "--context", "5",
            "--max-filesize", "1M", "--type", "py", "--ignore-case", "--fixed-strings",
            "--regexp", "retry[", "--", "."
        ]
    );
}

#[test]
fn globs_hidden_and_places_are_passed_on() {
    let mut options = options();
    options.pattern = "-x".to_string();
    options.context = 0;
    options.globs = vec!["*.py".to_string(), "!t".to_string()];
    options.hidden = true;
    options.max_filesize = "2G".to_string();
    options.paths = vec![SearchPath::Place(PathBuf::from("src"))];
    assert_eq!(
        rg_arguments(&options).unwrap(),
        [
            "--no-config", "--json", "--sort", "path", "--color", "never", "--context", "0",
            "--max-filesize", "2G", "--glob", "*.py", "--glob", "!t", "--hidden", "--regexp",
            "-x", "--"
        ]
    );
}

#[test]
fn no_matches_invalid_pattern_stdin_and_oversized_lines() {
    let corpus = [
        ("policy.py", "def retry():\n    return status >= 500\n"),
        ("metrics.py", "retry_metric = 'attempts'\n"),
    ];
    let mut collector = Collector::new(200);
    for (path, source) in corpus {
        let excluded = Exclusions::new(None);
        report(&mut collector, &excluded, &plain(path), path, source, "absent", 5).unwrap();
    }
    let found = collector.finish();
    assert_eq!(exit_code(found.candidates.len()), 1);
    assert!(found.candidates.is_empty());
    let complaint = "rg: regex parse error\n".to_string();
    let outcome = search_outcome(found, complaint, Some(2), "exit status: 2".to_string());
    match outcome {
        Err(error) => assert_eq!(error.message(), "rg: regex parse error"),
        Ok(_) => panic!("a complaint is a failure"),
    }
    let mut options = options();
    options.paths = vec![SearchPath::Place(PathBuf::from("src")), SearchPath::Stdin];
    let error = rg_arguments(&options).unwrap_err();
    assert!(matches!(error, SearchError::Stdin));
    assert!(error.message().contains("stdin"));
    let big = format!("retry{}", "x".repeat(12_000));
    match search(&[("big.py", &big)], 5, 200, &Exclusions::new(None)) {
        Err(error) => {
            assert_eq!(
                error.message(),
                "Source line exceeds 12000 bytes at big.py:1; exclude this file with --glob."
            );
            assert!(error.message().contains("exceeds"));
        }
        Ok(_) => panic!("the line is over the limit"),
    }
}

#[test]
fn credentials_are_excluded_even_with_hidden_globs_and_explicit_paths() {
    let secret = "TYPESAFE_API_KEY=retry_super_secret\n";
    let files = [
        ("policy.py", "def retry():\n    return status >= 500\n"),
        ("metrics.py", "retry_metric = 'attempts'\n"),
        (".env", secret),
        (".env.local", secret),
        (".jrgenv", secret),
        (".jrgenv.local", secret),
        ("keys.txt", secret),
    ];
    let excluded = Exclusions::new(Some(b"/project/keys.txt".to_vec()));
    let found = search(&files, 5, 200, &excluded).unwrap();
    assert_eq!(found.candidates.len(), 2);
    assert!(found.candidates.iter().all(|item| !item.snippet.contains("retry_super_secret")));
    for name in [".env", ".jrgenv", "keys.txt"] {
        let found = search(&[(name, secret)], 5, 200, &excluded).unwrap();
        assert_eq!(exit_code(found.candidates.len()), 1);
        assert!(found.candidates.is_empty());
    }
}

#[test]
fn credential_symlink_alias_is_excluded() {
    let seen = SeenPath {
        name: Some("alias.txt".to_string()),
        resolved: Some(ResolvedPath {
            bytes: b"/project/.jrgenv".to_vec(),
            name: Some(".jrgenv".to_string()),
        }),
    };
    let mut collector = Collector::new(200);
    let excluded = Exclusions::new(Some(b"/project/.jrgenv".to_vec()));
    let secret = "TYPESAFE_API_KEY=retry_secret\n";
    report(&mut collector, &excluded, &seen, "alias.txt", secret, "retry", 5).unwrap();
    let found = collector.finish();
    assert_eq!(exit_code(found.candidates.len()), 1);
    assert!(found.candidates.is_empty());
}

#[test]
fn text_of_an_excluded_file_is_not_decoded() {
    let mut collector = Collector::new(200);
    let excluded = Exclusions::new(None);
    let broken = || Some(RgText { text: None, bytes: None });
    let accepted = collector.accept(
        &excluded,
        &plain(".env"),
        EventKind::Match,
        ".env".to_string(),
        Some(1),
        broken(),
    );
    assert!(accepted.is_ok());
    let refused = collector.accept(
        &excluded,
        &plain("a.py"),
        EventKind::Match,
        "a.py".to_string(),
        Some(1),
        broken(),
    );
    assert!(matches!(refused, Err(SearchError::TextObject)));
}

#[test]
fn files_that_stay_out_leave_no_trace() {
    let excluded = Exclusions::new(None);
    let with = [("a.py", "retry 1\n"), (".env", "retry 2\n"), ("b.py", "retry 3\n")];
    let without = [("a.py", "retry 1\n"), ("b.py", "retry 3\n")];
    let a = search(&with, 5, 200, &excluded).unwrap();
    let b = search(&without, 5, 200, &excluded).unwrap();
    assert_eq!(a.candidates, b.candidates);
    assert_eq!(a.truncated, b.truncated);
}

#[test]
fn candidates_are_the_source_word_for_word() {
    let source = "one\nretry\r\ntwo\nthree\nfour\nretry again\n";
    let found = search(&[("a.py", source)], 1, 200, &Exclusions::new(None)).unwrap();
    assert_eq!(
        found.candidates,
        [
            Candidate {
                path: "a.py".to_string(),
                start_line: 1,
                end_line: 3,
                match_lines: vec![2],
                snippet: "one\nretry\r\ntwo\n".to_string(),
            },
            Candidate {
                path: "a.py".to_string(),
                start_line: 5,
                end_line: 6,
                match_lines: vec![6],
                snippet: "four\nretry again\n".to_string(),
            },
        ]
    );
}

#[test]
fn candidates_keep_to_the_limits_of_lines_and_bytes() {
    let many = "retry\n".repeat(MAX_LINES + 1);
    let found = search(&[("a.py", &many)], 0, 200, &Exclusions::new(None)).unwrap();
    assert_eq!(found.candidates.len(), 2);
    assert_eq!(found.candidates[0].end_line, MAX_LINES);
    assert_eq!(found.candidates[1].start_line, MAX_LINES + 1);
    let line = format!("retry{}\n", "é".repeat(2997));
    assert_eq!(line.len(), MAX_BYTES / 2);
    let wide = line.repeat(3);
    let found = search(&[("b.py", &wide)], 0, 200, &Exclusions::new(None)).unwrap();
    assert_eq!(found.candidates.len(), 2);
    assert_eq!(found.candidates[0].snippet.len(), MAX_BYTES);
    assert_eq!(found.candidates[1].match_lines, vec![3]);
    let single = format!("retry{}", "x".repeat(MAX_BYTES - 5));
    let found = search(&[("c.py", &single)], 0, 200, &Exclusions::new(None)).unwrap();
    assert_eq!(found.candidates[0].snippet.len(), MAX_BYTES);
}

#[test]
fn no_match_is_lost_and_a_lower_limit_keeps_a_prefix() {
    let source = "retry\nx\nretry\nretry\nx\nretry\n";
    let files = [("a.py", source), ("b.py", source)];
    let all = search(&files, 0, 200, &Exclusions::new(None)).unwrap();
    let matches: Vec<(String, usize)> = all
        .candidates
        .iter()
        .flat_map(|item| item.match_lines.iter().map(|line| (item.path.clone(), *line)))
        .collect();
    let expected: Vec<(String, usize)> = ["a.py", "b.py"]
        .iter()
        .flat_map(|path| [1, 3, 4, 6].map(|line| (path.to_string(), line)))
        .collect();
    assert_eq!(matches, expected);
    for limit in 0..=all.candidates.len() {
        let some = search(&files, 0, limit, &Exclusions::new(None)).unwrap();
        assert_eq!(some.candidates, all.candidates[..limit]);
        assert_eq!(some.truncated, limit < all.candidates.len());
    }
}

#[test]
fn adjacent_lines_within_the_limits_make_one_candidate() {
    let source = format!("{}retry\n{}", "x\n".repeat(60), "y\n".repeat(59));
    let found = search(&[("a.py", &source)], 200, 200, &Exclusions::new(None)).unwrap();
    assert_eq!(found.candidates.len(), 1);
    assert_eq!(found.candidates[0].snippet, source);
    assert_eq!((found.candidates[0].start_line, found.candidates[0].end_line), (1, MAX_LINES));
    let longer = format!("{source}z\nretry\n");
    let found = search(&[("a.py", &longer)], 200, 200, &Exclusions::new(None)).unwrap();
    assert_eq!(found.candidates.len(), 2);
    assert_eq!(found.candidates[1].start_line, MAX_LINES + 1);
}

#[test]
fn context_without_a_match_is_no_candidate() {
    let mut collector = Collector::new(200);
    let excluded = Exclusions::new(None);
    collector
        .accept(&excluded, &plain("a"), EventKind::Context, "a".to_string(), Some(1), text("x\n"))
        .unwrap();
    collector
        .accept(&excluded, &plain("b"), EventKind::Match, "b".to_string(), Some(2), text("y\n"))
        .unwrap();
    let found = collector.finish();
    assert_eq!(found.candidates.len(), 1);
    assert_eq!(found.candidates[0].path, "b");
    assert_eq!(found.candidates[0].start_line, 2);
}

#[test]
fn a_line_without_a_number_is_an_error() {
    for number in [None, Some(0)] {
        let mut collector = Collector::new(200);
        let error = collector
            .accept(
                &Exclusions::new(None),
                &plain("a"),
                EventKind::Match,
                "a".to_string(),
                number,
                text("x\n"),
            )
            .unwrap_err();
        assert!(matches!(error, SearchError::NoLineNumber));
        assert_eq!(error.message(), "ripgrep omitted the source line number");
    }
}

#[test]
fn event_kinds_are_known_by_name() {
    assert_eq!(event_kind("match"), Some(EventKind::Match));
    assert_eq!(event_kind("context"), Some(EventKind::Context));
    assert_eq!(event_kind("end"), Some(EventKind::End));
    assert_eq!(event_kind("begin"), None);
    assert_eq!(event_kind("summary"), None);
}

#[test]
fn texts_are_decoded_from_either_form() {
    assert_eq!(encoded("5YaN6Kmm6KGM").decode().unwrap(), "再試行");
    let both = RgText { text: Some("a".to_string()), bytes: Some("!".to_string()) };
    assert_eq!(both.decode().unwrap(), "a");
    let error = encoded("not base64!").decode().unwrap_err();
    assert!(matches!(error, SearchError::Base64(_)));
    assert_eq!(error.message(), "Invalid ripgrep base64 data: Invalid symbol 32, offset 3.");
    let error = encoded("/w==").decode().unwrap_err();
    assert!(matches!(error, SearchError::NotUtf8));
    assert_eq!(
        error.message(),
        "Non-UTF-8 source or path encountered; narrow the search with --glob."
    );
    let error = RgText { text: None, bytes: None }.decode().unwrap_err();
    assert_eq!(error.message(), "Invalid ripgrep text object");
}

#[test]
fn the_end_of_ripgrep_is_judged() {
    let found = |truncated| SearchResult { candidates: vec![], truncated };
    let end = |truncated, words: &str, code| {
        search_outcome(found(truncated), words.to_string(), code, "status".to_string())
            .map(|result| result.truncated)
            .map_err(|error| error.message())
    };
    assert_eq!(end(false, "", Some(0)), Ok(false));
    assert_eq!(end(false, " \n", Some(1)), Ok(false));
    assert_eq!(end(false, "", Some(2)), Err("ripgrep exited with status status".to_string()));
    assert_eq!(end(false, "", None), Err("ripgrep exited with status status".to_string()));
    assert_eq!(end(true, "", None), Ok(true));
    assert_eq!(end(true, "\n rg: a b \n", Some(0)), Err("rg: a b".to_string()));
}

#[test]
fn a_failure_to_start_ripgrep_is_explained() {
    assert_eq!(
        start_error(true, "x".to_string()).message(),
        "ripgrep (rg) is required; install it and add it to PATH."
    );
    assert_eq!(
        start_error(false, "denied".to_string()).message(),
        "Could not start ripgrep: denied"
    );
}

#[test]
fn candidates_without_scores_keep_their_order() {
    let found = search(
        &[("b.py", "retry\n"), ("a.py", "retry\n")],
        0,
        200,
        &Exclusions::new(None),
    )
    .unwrap();
    let rows = unscored(found.candidates.clone());
    assert!(rows.iter().all(|row| row.relevance.is_none()));
    let kept: Vec<Candidate> = rows.into_iter().map(|row| row.candidate).collect();
    assert_eq!(kept, found.candidates);
}
