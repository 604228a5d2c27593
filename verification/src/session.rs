//! The steps of a run: search, then rank if that is called for, then show.
//!
//! Each step hands out what the next one needs, so results cannot be had before the
//! candidates have been searched and ranked, nor after an interrupt.
use vstd::prelude::*;

use crate::binary64::Score;
use crate::cli::{self, Statistics, Tally};
use crate::jev::{self, RankedCandidate, Ranking};
use crate::search::{self, Candidate, SearchResult};
use crate::Interrupted;

verus! {

/// What the user wants of a run.
pub struct Plan {
    /// Whether nobody is asked, so that all candidates are returned as they are.
    pub dry_run: bool,
    /// The most candidates that are collected.
    pub max_candidates: usize,
    /// The least score that a result has.
    pub min_relevance: Score,
    /// The most results that are returned.
    pub top: usize,
}

/// A run whose candidates are being ranked.
pub struct Pending {
    plan: Plan,
    candidates: usize,
    truncated: bool,
    counts: Tally,
    found: Ghost<Seq<search::CandidateView>>,
}

impl Pending {
    #[verifier::type_invariant]
    spec fn valid(self) -> bool {
        &&& self.candidates == self.found@.len()
        &&& self.counts.match_lines == cli::match_line_total(self.found@)
        &&& self.counts.chars == cli::char_total(self.found@)
    }

    /// What the user wants.
    pub closed spec fn plan(self) -> Plan {
        self.plan
    }

    /// The candidates that were found.
    pub closed spec fn found(self) -> Seq<search::CandidateView> {
        self.found@
    }

    /// Whether there were more candidates than were wanted.
    pub closed spec fn truncated(self) -> bool {
        self.truncated
    }
}

/// What a run came to, before it is known whether it may be shown.
pub struct Outcome {
    rows: Vec<RankedCandidate>,
    statistics: Statistics,
}

impl Outcome {
    /// The results.
    pub closed spec fn rows(self) -> Seq<jev::RankedView> {
        jev::ranked_views(self.rows@)
    }

    /// What was measured.
    pub closed spec fn statistics(self) -> Statistics {
        self.statistics
    }
}

/// What is shown of a run.
pub struct Report {
    pub rows: Vec<RankedCandidate>,
    pub statistics: Statistics,
    /// The exit code of the run.
    pub code: i32,
}

/// The step after the search.
pub enum Step {
    /// The candidates are to be ranked.
    Rank(Pending, Vec<Candidate>),
    /// The results are there.
    Show(Outcome),
}

/// The warning that the search calls for, if any: that there were more candidates than
/// were wanted.
pub fn warning(plan: &Plan, found: &SearchResult) -> (message: Option<String>)
    ensures
        match message {
            Some(message) => found.truncated && message@ == cli::limit_text(
                plan.max_candidates as nat,
            ),
            None => !found.truncated,
        },
{
    if found.truncated {
        Some(cli::limit_warning(plan.max_candidates))
    } else {
        None
    }
}

/// The step that the outcome of the search calls for. The candidates of a dry run are
/// its results, all of them and none with a score; a run without candidates has none.
pub fn after_search(plan: Plan, found: SearchResult) -> (step: Step)
    ensures
        ({
            let views = search::candidate_views(found.candidates@);
            match step {
                Step::Rank(pending, candidates) => {
                    &&& cli::is_ranked(plan.dry_run, views.len())
                    &&& candidates == found.candidates
                    &&& pending.plan() == plan
                    &&& pending.found() == views
                    &&& pending.truncated() == found.truncated
                },
                Step::Show(outcome) => {
                    &&& !cli::is_ranked(plan.dry_run, views.len())
                    &&& outcome.rows() == cli::without_scores(views)
                    &&& cli::is_measured(
                        outcome.statistics(),
                        plan.dry_run,
                        views,
                        found.truncated,
                        None,
                        outcome.rows(),
                    )
                },
            }
        }),
{
    let ghost views = search::candidate_views(found.candidates@);
    let candidates = found.candidates.len();
    let counts = cli::tally(&found.candidates);
    if cli::needs_ranking(plan.dry_run, candidates) {
        let pending = Pending {
            plan,
            candidates,
            truncated: found.truncated,
            counts,
            found: Ghost(views),
        };
        return Step::Rank(pending, found.candidates);
    }
    let rows = cli::unscored(found.candidates);
    assert(jev::ranked_views(rows@).len() == rows.len());
    let statistics = Statistics {
        dry_run: plan.dry_run,
        candidates,
        limit_reached: found.truncated,
        match_lines: counts.match_lines,
        results: rows.len(),
        candidate_chars: counts.chars,
        returned_chars: cli::returned_chars(&rows),
        requests: 0,
        input_tokens: Some(0),
        models: Vec::new(),
    };
    Step::Show(Outcome { rows, statistics })
}

impl Pending {
    /// What a run comes to whose candidates have been ranked: of the rows those that
    /// reach the threshold, and of those the first.
    pub fn ranked(self, ranking: Ranking) -> (outcome: Outcome)
        ensures
            outcome.rows() == cli::selected(
                jev::ranked_views(ranking.results@),
                self.plan().min_relevance.value(),
                self.plan().top as nat,
            ),
            cli::is_measured(
                outcome.statistics(),
                self.plan().dry_run,
                self.found(),
                self.truncated(),
                Some(ranking),
                outcome.rows(),
            ),
    {
        proof {
            use_type_invariant(&self);
        }
        let rows = cli::select(ranking.results, self.plan.min_relevance, self.plan.top);
        assert(jev::ranked_views(rows@).len() == rows.len());
        let statistics = Statistics {
            dry_run: self.plan.dry_run,
            candidates: self.candidates,
            limit_reached: self.truncated,
            match_lines: self.counts.match_lines,
            results: rows.len(),
            candidate_chars: self.counts.chars,
            returned_chars: cli::returned_chars(&rows),
            requests: ranking.requests,
            input_tokens: ranking.input_tokens,
            models: ranking.models,
        };
        Outcome { rows, statistics }
    }
}

impl Outcome {
    /// Hands the results out to be shown, unless the user has interrupted the run.
    pub fn release(self, cancelled: bool) -> (report: Result<Report, Interrupted>)
        ensures
            match report {
                Ok(report) => {
                    &&& !cancelled
                    &&& jev::ranked_views(report.rows@) == self.rows()
                    &&& report.statistics == self.statistics()
                    &&& report.code == if self.rows().len() == 0 {
                        1int
                    } else {
                        0
                    }
                },
                Err(_) => cancelled,
            },
    {
        if crate::check_cancelled(cancelled).is_err() {
            return Err(Interrupted);
        }
        let code = cli::exit_code(self.rows.len());
        Ok(Report { rows: self.rows, statistics: self.statistics, code })
    }
}

/// A run asks nobody and returns all its candidates unless it is to rank some: so a dry
/// run ignores the threshold and the number of results.
pub proof fn law_a_run_ranks_or_shows(plan: Plan, found: SearchResult)
    ensures
        cli::is_ranked(plan.dry_run, search::candidate_views(found.candidates@).len()) <==> !(
        plan.dry_run || found.candidates@.len() == 0),
{
}

} // verus!
