//! What holds of a run as a whole.
use vstd::prelude::*;
use vstd::seq_lib::*;

use crate::arrangement;
use crate::binary64;
use crate::jev::{self, Ranking};
use crate::json;
use crate::ranking;
use crate::reply;
use crate::run;
use crate::search;
use crate::text;

verus! {

/// The order of the places as integers.
spec fn places(order: Seq<usize>) -> Seq<int> {
    order.map_values(|place: usize| place as int)
}

/// An order that sorts is a permutation.
proof fn lemma_order_is_permutation(order: Seq<usize>, rows: Seq<jev::RankedView>)
    requires
        ranking::is_order(order, rows, 0, rows.len() as int),
    ensures
        arrangement::is_permutation(places(order), rows.len()),
{
    assert forall|i: int, j: int|
        0 <= i < order.len() && 0 <= j < order.len() && i != j implies places(order)[i] != places(
        order,
    )[j] by {
        let (a, b) = if i < j {
            (i, j)
        } else {
            (j, i)
        };
        assert(ranking::comes_before(rows, order[a] as int, order[b] as int));
        ranking::lemma_ranks_irreflexive(rows[order[a] as int]);
    }
}

/// The ranking is in order: no row ranks before one that stands before it. A higher
/// score comes first, then the path decides, then the line.
pub proof fn law_ranking_is_ordered(
    sorted: Seq<jev::RankedView>,
    rows: Seq<jev::RankedView>,
    i: int,
    j: int,
)
    requires
        ranking::is_sorted(sorted, rows),
        0 <= i < j < sorted.len(),
    ensures
        !ranking::ranks_before(sorted[j], sorted[i]),
        ranking::score_key(sorted[i]) >= ranking::score_key(sorted[j]),
{
    let order = choose|order: Seq<usize>| ranking::is_arranged(sorted, rows, order);
    assert(ranking::comes_before(rows, order[i] as int, order[j] as int));
    ranking::lemma_ranks_asymmetric(sorted[i], sorted[j]);
}

/// Ordering neither loses nor adds nor changes a row.
pub proof fn law_ranking_keeps_the_rows(
    sorted: Seq<jev::RankedView>,
    rows: Seq<jev::RankedView>,
)
    requires
        ranking::is_sorted(sorted, rows),
    ensures
        sorted.to_multiset() == rows.to_multiset(),
{
    let order = choose|order: Seq<usize>| ranking::is_arranged(sorted, rows, order);
    lemma_order_is_permutation(order, rows);
    arrangement::lemma_arranged_multiset(rows, places(order));
    assert(sorted =~= arrangement::arranged(rows, places(order)));
}

/// There is one way to order given rows.
pub proof fn law_ranking_is_determined(
    a: Seq<jev::RankedView>,
    b: Seq<jev::RankedView>,
    rows: Seq<jev::RankedView>,
)
    requires
        ranking::is_sorted(a, rows),
        ranking::is_sorted(b, rows),
    ensures
        a == b,
{
    let x = choose|order: Seq<usize>| ranking::is_arranged(a, rows, order);
    let y = choose|order: Seq<usize>| ranking::is_arranged(b, rows, order);
    let identity = Seq::new(rows.len(), |i: int| i);
    lemma_order_is_permutation(x, rows);
    lemma_order_is_permutation(y, rows);
    arrangement::lemma_arranged_multiset(identity, places(x));
    arrangement::lemma_arranged_multiset(identity, places(y));
    assert(arrangement::arranged(identity, places(x)) =~= places(x));
    assert(arrangement::arranged(identity, places(y)) =~= places(y));
    let before = |i: int, j: int| ranking::comes_before(rows, i, j);
    assert forall|i: int, j: int| #[trigger] before(i, j) implies !before(j, i) by {
        ranking::lemma_ranks_asymmetric(rows[i], rows[j]);
    }
    arrangement::lemma_strict_order_is_unique(places(x), places(y), before);
    assert forall|i: int| 0 <= i < rows.len() implies a[i] == b[i] by {
        assert(places(x)[i] == places(y)[i]);
        assert(x[i] == y[i]);
    }
    assert(a =~= b);
}

/// Whether the rank decides between any two of the rows.
pub open spec fn is_tieless(rows: Seq<jev::RankedView>) -> bool {
    forall|i: int, j: int|
        0 <= i < j < rows.len() ==> ranking::ranks_before(#[trigger] rows[i], #[trigger] rows[j])
            || ranking::ranks_before(rows[j], rows[i])
}

/// Whether the rank decides does not depend on the order of the rows.
proof fn lemma_tieless(a: Seq<jev::RankedView>, b: Seq<jev::RankedView>)
    requires
        is_tieless(a),
        a.to_multiset() == b.to_multiset(),
    ensures
        is_tieless(b),
{
    assert forall|i: int, j: int| 0 <= i < a.len() && 0 <= j < a.len() && i != j implies a[i]
        != a[j] by {
        ranking::lemma_ranks_irreflexive(a[i]);
    }
    a.lemma_multiset_has_no_duplicates();
    b.lemma_multiset_has_no_duplicates_conv();
    assert forall|i: int, j: int| 0 <= i < j < b.len() implies ranking::ranks_before(
        #[trigger] b[i],
        #[trigger] b[j],
    ) || ranking::ranks_before(b[j], b[i]) by {
        arrangement::lemma_same_members(a, b, b[i]);
        arrangement::lemma_same_members(a, b, b[j]);
        assert(b.contains(b[i]) && b.contains(b[j]));
        let k = choose|k: int| 0 <= k < a.len() && a[k] == b[i];
        let l = choose|l: int| 0 <= l < a.len() && a[l] == b[j];
        assert(b[i] != b[j]);
        if k < l {
            assert(ranking::ranks_before(a[k], a[l]) || ranking::ranks_before(a[l], a[k]));
        } else {
            assert(ranking::ranks_before(a[l], a[k]) || ranking::ranks_before(a[k], a[l]));
        }
    }
}

/// Rows between which the rank decides come out in the same order, in whatever order
/// they went in.
pub proof fn law_order_of_rows_does_not_matter(
    sorted: Seq<jev::RankedView>,
    rows: Seq<jev::RankedView>,
    other_sorted: Seq<jev::RankedView>,
    other_rows: Seq<jev::RankedView>,
)
    requires
        ranking::is_sorted(sorted, rows),
        ranking::is_sorted(other_sorted, other_rows),
        rows.to_multiset() == other_rows.to_multiset(),
        is_tieless(rows),
    ensures
        sorted == other_sorted,
{
    law_ranking_keeps_the_rows(sorted, rows);
    law_ranking_keeps_the_rows(other_sorted, other_rows);
    lemma_tieless(rows, sorted);
    lemma_tieless(rows, other_sorted);
    let before = |a: jev::RankedView, b: jev::RankedView| ranking::ranks_before(a, b);
    assert forall|a: jev::RankedView, b: jev::RankedView| #[trigger] before(a, b) implies !before(
        b,
        a,
    ) by {
        ranking::lemma_ranks_asymmetric(a, b);
    }
    assert forall|i: int, j: int| 0 <= i < j < sorted.len() implies before(sorted[i], sorted[j]) by {
        law_ranking_is_ordered(sorted, rows, i, j);
    }
    assert forall|i: int, j: int| 0 <= i < j < other_sorted.len() implies before(
        other_sorted[i],
        other_sorted[j],
    ) by {
        law_ranking_is_ordered(other_sorted, other_rows, i, j);
    }
    arrangement::lemma_strict_order_is_unique(sorted, other_sorted, before);
}

/// The rows of each of several answers.
pub open spec fn parts(responses: Seq<Ranking>) -> Seq<Seq<jev::RankedView>> {
    responses.map_values(|response: Ranking| jev::ranked_views(response.results@))
}

/// The rows of several answers are their parts, joined.
proof fn lemma_all_rows(responses: Seq<Ranking>)
    ensures
        ranking::all_rows(responses) == arrangement::joined(parts(responses)),
    decreases responses.len(),
{
    if responses.len() > 0 {
        lemma_all_rows(responses.drop_last());
        assert(parts(responses).drop_last() =~= parts(responses.drop_last()));
    }
}

/// The number of requests of each of several answers.
pub open spec fn request_counts(responses: Seq<Ranking>) -> Seq<nat> {
    responses.map_values(|response: Ranking| response.requests as nat)
}

/// The requests of several answers are the sum.
proof fn lemma_total_requests(responses: Seq<Ranking>)
    ensures
        ranking::total_requests(responses) == arrangement::sum(request_counts(responses)),
    decreases responses.len(),
{
    if responses.len() > 0 {
        lemma_total_requests(responses.drop_last());
        assert(request_counts(responses).drop_last() =~= request_counts(responses.drop_last()));
    }
}

/// The number of tokens of each of several answers, zero where one does not say.
pub open spec fn token_counts(responses: Seq<Ranking>) -> Seq<nat> {
    responses.map_values(
        |response: Ranking|
            match response.input_tokens {
                Some(count) => count as nat,
                None => 0,
            },
    )
}

/// Whether each of several answers says how many tokens it took.
pub open spec fn is_counted(responses: Seq<Ranking>) -> bool {
    forall|i: int| 0 <= i < responses.len() ==> (#[trigger] responses[i]).input_tokens is Some
}

/// The tokens of several answers are the sum, if each of them says so and the sum is
/// in range.
proof fn lemma_total_tokens(responses: Seq<Ranking>)
    ensures
        ranking::total_tokens(responses) == if is_counted(responses) && arrangement::sum(
            token_counts(responses),
        ) <= u64::MAX {
            Some(arrangement::sum(token_counts(responses)) as u64)
        } else {
            None
        },
    decreases responses.len(),
{
    if responses.len() > 0 {
        let rest = responses.drop_last();
        lemma_total_tokens(rest);
        assert(token_counts(responses).drop_last() =~= token_counts(rest));
        if is_counted(rest) && responses.last().input_tokens is Some {
            assert forall|i: int| 0 <= i < responses.len() implies (
            #[trigger] responses[i]).input_tokens is Some by {
                if i < rest.len() {
                    assert(rest[i].input_tokens is Some);
                }
            }
        }
        if is_counted(responses) {
            assert forall|i: int| 0 <= i < rest.len() implies (
            #[trigger] rest[i]).input_tokens is Some by {
                assert(responses[i].input_tokens is Some);
            }
            assert(responses[responses.len() - 1].input_tokens is Some);
        }
    }
}

/// What several answers say does not depend on their order.
proof fn lemma_counted_and_named(a: Seq<Ranking>, b: Seq<Ranking>, model: Seq<char>)
    requires
        a.to_multiset() == b.to_multiset(),
    ensures
        is_counted(a) ==> is_counted(b),
        ranking::is_named(model, a) ==> ranking::is_named(model, b),
{
    if is_counted(a) {
        assert forall|i: int| 0 <= i < b.len() implies (#[trigger] b[i]).input_tokens is Some by {
            arrangement::lemma_same_members(a, b, b[i]);
            assert(b.contains(b[i]));
            let k = choose|k: int| 0 <= k < a.len() && a[k] == b[i];
            assert(a[k].input_tokens is Some);
        }
    }
    if ranking::is_named(model, a) {
        let (i, j) = choose|i: int, j: int|
            0 <= i < a.len() && 0 <= j < a[i].models@.len() && #[trigger] a[i].models@[j]@
                == model;
        arrangement::lemma_same_members(a, b, a[i]);
        assert(a.contains(a[i]));
        let k = choose|k: int| 0 <= k < b.len() && b[k] == a[i];
        assert(b[k].models@[j]@ == model);
    }
}

/// An ascending list is determined by what is in it.
proof fn lemma_ascending_is_unique(a: Seq<String>, b: Seq<String>)
    requires
        ranking::is_ascending(a),
        ranking::is_ascending(b),
        forall|string: Seq<char>| #[trigger]
            ranking::is_listed(string, a) <==> ranking::is_listed(string, b),
    ensures
        text::string_views(a) == text::string_views(b),
{
    let (x, y) = (text::string_views(a), text::string_views(b));
    let before = |s: Seq<char>, t: Seq<char>| text::precedes(s, t);
    assert forall|s: Seq<char>, t: Seq<char>| #[trigger] before(s, t) implies !before(t, s) by {
        text::lemma_precedes_irreflexive(s);
        if before(t, s) {
            text::lemma_precedes_transitive(s, t, s);
        }
    }
    lemma_ascending(a);
    lemma_ascending(b);
    assert forall|string: Seq<char>| #[trigger] x.contains(string) <==> y.contains(string) by {
        lemma_listed(a, string);
        lemma_listed(b, string);
        assert(ranking::is_listed(string, a) <==> ranking::is_listed(string, b));
    }
    arrangement::lemma_same_set(x, y);
    arrangement::lemma_strict_order_is_unique(x, y, before);
}

/// An ascending list holds nothing twice.
proof fn lemma_ascending(a: Seq<String>)
    requires
        ranking::is_ascending(a),
    ensures
        text::string_views(a).no_duplicates(),
        forall|i: int, j: int|
            0 <= i < j < a.len() ==> text::precedes(
                #[trigger] text::string_views(a)[i],
                #[trigger] text::string_views(a)[j],
            ),
{
    let x = text::string_views(a);
    assert forall|i: int, j: int| 0 <= i < j < a.len() implies text::precedes(
        #[trigger] x[i],
        #[trigger] x[j],
    ) by {
        assert(text::precedes(a[i]@, a[j]@));
    }
    assert forall|i: int, j: int| 0 <= i < x.len() && 0 <= j < x.len() && i != j implies x[i]
        != x[j] by {
        text::lemma_precedes_irreflexive(x[i]);
    }
}

/// Being in a list of strings.
proof fn lemma_listed(a: Seq<String>, string: Seq<char>)
    ensures
        text::string_views(a).contains(string) <==> ranking::is_listed(string, a),
{
    let x = text::string_views(a);
    if x.contains(string) {
        let i = choose|i: int| 0 <= i < x.len() && x[i] == string;
        assert(a[i]@ == string);
    }
    if ranking::is_listed(string, a) {
        let i = choose|i: int| 0 <= i < a.len() && #[trigger] a[i]@ == string;
        assert(x[i] == string);
    }
}

/// The answers of a run may arrive in any order: the ranking, the counts and the
/// models come out the same, as long as the rank decides between any two rows.
pub proof fn law_arrival_order_does_not_matter(
    ranking: Ranking,
    responses: Seq<Ranking>,
    other_ranking: Ranking,
    other_responses: Seq<Ranking>,
)
    requires
        ranking::is_merged(ranking, responses),
        ranking::is_merged(other_ranking, other_responses),
        responses.to_multiset() == other_responses.to_multiset(),
        is_tieless(ranking::all_rows(responses)),
    ensures
        jev::ranked_views(ranking.results@) == jev::ranked_views(other_ranking.results@),
        ranking.requests == other_ranking.requests,
        ranking.input_tokens == other_ranking.input_tokens,
        text::string_views(ranking.models@) == text::string_views(other_ranking.models@),
{
    let (a, b) = (responses, other_responses);
    lemma_all_rows(a);
    lemma_all_rows(b);
    arrangement::lemma_image_same(
        a,
        b,
        |response: Ranking| jev::ranked_views(response.results@),
    );
    arrangement::lemma_joined_same(parts(a), parts(b));
    law_order_of_rows_does_not_matter(
        jev::ranked_views(ranking.results@),
        ranking::all_rows(a),
        jev::ranked_views(other_ranking.results@),
        ranking::all_rows(b),
    );
    lemma_total_requests(a);
    lemma_total_requests(b);
    arrangement::lemma_image_same(a, b, |response: Ranking| response.requests as nat);
    arrangement::lemma_sum_same(request_counts(a), request_counts(b));
    lemma_total_tokens(a);
    lemma_total_tokens(b);
    arrangement::lemma_image_same(
        a,
        b,
        |response: Ranking|
            match response.input_tokens {
                Some(count) => count as nat,
                None => 0,
            },
    );
    arrangement::lemma_sum_same(token_counts(a), token_counts(b));
    lemma_counted_and_named(a, b, seq![]);
    lemma_counted_and_named(b, a, seq![]);
    assert forall|model: Seq<char>| #[trigger]
        ranking::is_listed(model, ranking.models@) <==> ranking::is_listed(
            model,
            other_ranking.models@,
        ) by {
        lemma_counted_and_named(a, b, model);
        lemma_counted_and_named(b, a, model);
        assert(ranking::is_listed(model, other_ranking.models@) <==> ranking::is_named(model, b));
    }
    lemma_ascending_is_unique(ranking.models@, other_ranking.models@);
}

/// The candidates of several rows.
pub open spec fn judged(rows: Seq<jev::RankedView>) -> Seq<search::CandidateView> {
    rows.map_values(|row: jev::RankedView| row.candidate)
}

/// Whether each of several answers reads one of the requests: the answer at a place
/// the request that `order` lists there, from the given data and after the given
/// number of attempts.
pub open spec fn are_readings(
    responses: Seq<Ranking>,
    data: Seq<json::Json>,
    requests: Seq<Seq<search::CandidateView>>,
    attempts: Seq<usize>,
    order: Seq<int>,
) -> bool {
    &&& arrangement::is_permutation(order, requests.len())
    &&& responses.len() == requests.len()
    &&& data.len() == requests.len()
    &&& attempts.len() == requests.len()
    &&& forall|i: int|
        0 <= i < responses.len() ==> reply::is_reading(
            #[trigger] responses[i],
            data[i],
            requests[order[i]],
            attempts[i],
        )
}

/// Every candidate is ranked, and ranked once: with each request answered, the ranking
/// holds the candidates that were collected, no more and no fewer, in whatever order
/// the answers arrived.
pub proof fn law_every_candidate_is_ranked_once(
    candidates: Seq<search::CandidateView>,
    intent: Seq<char>,
    model: Seq<char>,
    batch_size: nat,
    ranking: Ranking,
    responses: Seq<Ranking>,
    data: Seq<json::Json>,
    attempts: Seq<usize>,
    order: Seq<int>,
)
    requires
        jev::packed(candidates, intent, model, batch_size) is Ok,
        are_readings(
            responses,
            data,
            jev::packed(candidates, intent, model, batch_size)->Ok_0.requests(),
            attempts,
            order,
        ),
        ranking::is_merged(ranking, responses),
    ensures
        judged(jev::ranked_views(ranking.results@)).to_multiset() == candidates.to_multiset(),
{
    let requests = jev::packed(candidates, intent, model, batch_size)->Ok_0.requests();
    let candidate = |row: jev::RankedView| row.candidate;
    let f = |part: Seq<jev::RankedView>| part.map_values(candidate);
    let rows = ranking::all_rows(responses);
    let sorted = jev::ranked_views(ranking.results@);
    jev::law_batches_divide_the_candidates(candidates, intent, model, batch_size);
    lemma_all_rows(responses);
    arrangement::lemma_joined_image(parts(responses), candidate);
    assert(parts(responses).map_values(f) =~= arrangement::arranged(requests, order)) by {
        assert forall|i: int| 0 <= i < responses.len() implies #[trigger] parts(
            responses,
        ).map_values(f)[i] == requests[order[i]] by {
            let response = responses[i];
            assert(reply::is_reading(response, data[i], requests[order[i]], attempts[i]));
            let part = jev::ranked_views(response.results@).map_values(candidate);
            assert(part =~= requests[order[i]]) by {
                assert forall|j: int| 0 <= j < part.len() implies #[trigger] part[j]
                    == requests[order[i]][j] by {
                    assert(response.results@[j]@.candidate == requests[order[i]][j]);
                }
            }
        }
    }
    arrangement::lemma_arranged_multiset(requests, order);
    arrangement::lemma_joined_same(arrangement::arranged(requests, order), requests);
    law_ranking_keeps_the_rows(sorted, rows);
    arrangement::lemma_image_same(sorted, rows, candidate);
}

/// Whether the answers of a run read what its workers were handed: the answer at a place
/// the request that `order` lists there, no request twice.
pub open spec fn are_answers(
    start: run::RunView,
    end: run::RunView,
    data: Seq<json::Json>,
    attempts: Seq<usize>,
    order: Seq<int>,
) -> bool {
    &&& order.no_duplicates()
    &&& order.len() == end.responses.len()
    &&& data.len() == end.responses.len()
    &&& attempts.len() == end.responses.len()
    &&& forall|i: int|
        0 <= i < order.len() ==> 0 <= #[trigger] order[i] < start.waiting.len()
            - end.waiting.len()
    &&& forall|i: int|
        0 <= i < end.responses.len() ==> reply::is_reading(
            #[trigger] end.responses[i],
            data[i],
            search::candidate_views(start.waiting[order[i]].candidates@),
            attempts[i],
        )
}

/// A run that ends with a ranking has ranked every candidate, and each of them once:
/// whatever its workers did, as long as every answer reads a request that was handed
/// out, no request twice.
pub proof fn law_a_complete_run_ranks_every_candidate_once(
    candidates: Seq<search::CandidateView>,
    intent: Seq<char>,
    model: Seq<char>,
    batch_size: nat,
    start: run::RunView,
    events: Seq<run::RunEvent>,
    ranking: Ranking,
    data: Seq<json::Json>,
    attempts: Seq<usize>,
    order: Seq<int>,
)
    requires
        jev::packed(candidates, intent, model, batch_size) is Ok,
        jev::batch_views(start.waiting) == jev::packed(
            candidates,
            intent,
            model,
            batch_size,
        )->Ok_0.requests(),
        start.is_fresh(),
        run::replay(start, events).is_complete(),
        are_answers(start, run::replay(start, events), data, attempts, order),
        ranking::is_merged(ranking, run::replay(start, events).responses),
    ensures
        judged(jev::ranked_views(ranking.results@)).to_multiset() == candidates.to_multiset(),
{
    let end = run::replay(start, events);
    let requests = jev::packed(candidates, intent, model, batch_size)->Ok_0.requests();
    run::lemma_total_stays(start, events);
    assert(start.waiting.len() == requests.len());
    assert forall|i: int| 0 <= i < end.responses.len() implies reply::is_reading(
        #[trigger] end.responses[i],
        data[i],
        requests[order[i]],
        attempts[i],
    ) by {
        assert(0 <= order[i] < start.waiting.len());
        assert(jev::batch_views(start.waiting)[order[i]] == search::candidate_views(
            start.waiting[order[i]].candidates@,
        ));
    }
    law_every_candidate_is_ranked_once(
        candidates,
        intent,
        model,
        batch_size,
        ranking,
        end.responses,
        data,
        attempts,
        order,
    );
}

/// The row that a candidate makes with the score that `scores` gives it.
pub open spec fn row_of(
    candidate: search::CandidateView,
    scores: spec_fn(search::CandidateView) -> u64,
) -> jev::RankedView {
    jev::RankedView { candidate, relevance: Some(scores(candidate)) }
}

/// Whether the service judges each candidate by itself: what the answers say of it is
/// the score that `scores` gives it, whatever request it stood in.
pub open spec fn judges_independently(
    data: Seq<json::Json>,
    requests: Seq<Seq<search::CandidateView>>,
    order: Seq<int>,
    scores: spec_fn(search::CandidateView) -> u64,
) -> bool {
    forall|i: int, j: int|
        0 <= i < data.len() && 0 <= j < requests[order[i]].len() ==> #[trigger] reply::judgement(
            reply::answers_of(data[i])->0,
            j as nat,
        ) == Some(scores(requests[order[i]][j]))
}

/// Whether no two candidates start at the same line of the same file.
pub open spec fn are_apart(candidates: Seq<search::CandidateView>) -> bool {
    forall|i: int, j: int|
        0 <= i < j < candidates.len() ==> (#[trigger] candidates[i]).path != (
        #[trigger] candidates[j]).path || candidates[i].start_line != candidates[j].start_line
}

/// The rows of a run with a service that judges each candidate by itself.
proof fn lemma_independent_rows(
    candidates: Seq<search::CandidateView>,
    intent: Seq<char>,
    model: Seq<char>,
    batch_size: nat,
    responses: Seq<Ranking>,
    data: Seq<json::Json>,
    attempts: Seq<usize>,
    order: Seq<int>,
    scores: spec_fn(search::CandidateView) -> u64,
)
    requires
        jev::packed(candidates, intent, model, batch_size) is Ok,
        ({
            let requests = jev::packed(candidates, intent, model, batch_size)->Ok_0.requests();
            &&& are_readings(responses, data, requests, attempts, order)
            &&& judges_independently(data, requests, order, scores)
        }),
    ensures
        ranking::all_rows(responses).to_multiset() == candidates.map_values(
            |candidate: search::CandidateView| row_of(candidate, scores),
        ).to_multiset(),
{
    let requests = jev::packed(candidates, intent, model, batch_size)->Ok_0.requests();
    let f = |candidate: search::CandidateView| row_of(candidate, scores);
    let g = |request: Seq<search::CandidateView>| request.map_values(f);
    let arranged = arrangement::arranged(requests, order);
    jev::law_batches_divide_the_candidates(candidates, intent, model, batch_size);
    lemma_all_rows(responses);
    assert(parts(responses) =~= arranged.map_values(g)) by {
        assert forall|i: int| 0 <= i < responses.len() implies #[trigger] parts(responses)[i]
            == arranged.map_values(g)[i] by {
            let response = responses[i];
            let request = requests[order[i]];
            assert(reply::is_reading(response, data[i], request, attempts[i]));
            assert(jev::ranked_views(response.results@) =~= request.map_values(f)) by {
                assert forall|j: int| 0 <= j < request.len() implies #[trigger] jev::ranked_views(
                    response.results@,
                )[j] == f(request[j]) by {
                    assert(response.results@[j]@.candidate == request[j]);
                    assert(reply::judgement(reply::answers_of(data[i])->0, j as nat) == Some(
                        scores(requests[order[i]][j]),
                    ));
                }
            }
        }
    }
    arrangement::lemma_joined_image(arranged, f);
    arrangement::lemma_arranged_multiset(requests, order);
    arrangement::lemma_joined_same(arranged, requests);
    arrangement::lemma_image_same(arrangement::joined(arranged), candidates, f);
}

/// How the candidates are divided does not matter: if the service judges each candidate
/// by itself, two runs over the same candidates come to the same ranking, whatever the
/// order of the candidates, the batch size and the order in which the answers arrive.
pub proof fn law_batching_does_not_matter(
    intent: Seq<char>,
    model: Seq<char>,
    scores: spec_fn(search::CandidateView) -> u64,
    candidates: Seq<search::CandidateView>,
    batch_size: nat,
    ranking: Ranking,
    responses: Seq<Ranking>,
    data: Seq<json::Json>,
    attempts: Seq<usize>,
    order: Seq<int>,
    other_candidates: Seq<search::CandidateView>,
    other_batch_size: nat,
    other_ranking: Ranking,
    other_responses: Seq<Ranking>,
    other_data: Seq<json::Json>,
    other_attempts: Seq<usize>,
    other_order: Seq<int>,
)
    requires
        candidates.to_multiset() == other_candidates.to_multiset(),
        are_apart(candidates),
        jev::packed(candidates, intent, model, batch_size) is Ok,
        jev::packed(other_candidates, intent, model, other_batch_size) is Ok,
        ({
            let requests = jev::packed(candidates, intent, model, batch_size)->Ok_0.requests();
            &&& are_readings(responses, data, requests, attempts, order)
            &&& judges_independently(data, requests, order, scores)
        }),
        ({
            let requests = jev::packed(
                other_candidates,
                intent,
                model,
                other_batch_size,
            )->Ok_0.requests();
            &&& are_readings(other_responses, other_data, requests, other_attempts, other_order)
            &&& judges_independently(other_data, requests, other_order, scores)
        }),
        ranking::is_merged(ranking, responses),
        ranking::is_merged(other_ranking, other_responses),
    ensures
        jev::ranked_views(ranking.results@) == jev::ranked_views(other_ranking.results@),
{
    let f = |candidate: search::CandidateView| row_of(candidate, scores);
    let rows = candidates.map_values(f);
    lemma_independent_rows(
        candidates,
        intent,
        model,
        batch_size,
        responses,
        data,
        attempts,
        order,
        scores,
    );
    lemma_independent_rows(
        other_candidates,
        intent,
        model,
        other_batch_size,
        other_responses,
        other_data,
        other_attempts,
        other_order,
        scores,
    );
    arrangement::lemma_image_same(candidates, other_candidates, f);
    assert(is_tieless(rows)) by {
        assert forall|i: int, j: int| 0 <= i < j < rows.len() implies ranking::ranks_before(
            #[trigger] rows[i],
            #[trigger] rows[j],
        ) || ranking::ranks_before(rows[j], rows[i]) by {
            assert(candidates[i].path != candidates[j].path || candidates[i].start_line
                != candidates[j].start_line);
            if !ranking::ranks_before(rows[i], rows[j]) && !ranking::ranks_before(
                rows[j],
                rows[i],
            ) {
                ranking::lemma_ranks_total(rows[i], rows[j]);
            }
        }
    }
    lemma_tieless(rows, ranking::all_rows(responses));
    law_order_of_rows_does_not_matter(
        jev::ranked_views(ranking.results@),
        ranking::all_rows(responses),
        jev::ranked_views(other_ranking.results@),
        ranking::all_rows(other_responses),
    );
}

/// Where a row of several answers comes from.
proof fn lemma_row_has_a_response(responses: Seq<Ranking>, row: jev::RankedView) -> (place: (
    int,
    int,
))
    requires
        ranking::all_rows(responses).contains(row),
    ensures
        0 <= place.0 < responses.len(),
        0 <= place.1 < responses[place.0].results@.len(),
        responses[place.0].results@[place.1]@ == row,
    decreases responses.len(),
{
    let rows = ranking::all_rows(responses);
    let k = choose|k: int| 0 <= k < rows.len() && rows[k] == row;
    let rest = responses.drop_last();
    let first = ranking::all_rows(rest);
    if k < first.len() {
        assert(first[k] == row);
        lemma_row_has_a_response(rest, row)
    } else {
        (responses.len() - 1, k - first.len())
    }
}

/// A score stays with the source that was judged: the candidate of each row of the
/// ranking stands at a place of some request, and the row's score is what the answer to
/// that request says of that place. It is a probability, and it is never missing.
pub proof fn law_scores_belong_to_their_candidates(
    ranking: Ranking,
    responses: Seq<Ranking>,
    data: Seq<json::Json>,
    requests: Seq<Seq<search::CandidateView>>,
    attempts: Seq<usize>,
    order: Seq<int>,
    k: int,
) -> (place: (int, int))
    requires
        are_readings(responses, data, requests, attempts, order),
        ranking::is_merged(ranking, responses),
        0 <= k < ranking.results@.len(),
    ensures
        ({
            let row = ranking.results@[k]@;
            let (i, j) = place;
            &&& 0 <= i < requests.len()
            &&& 0 <= j < requests[order[i]].len()
            &&& row.candidate == requests[order[i]][j]
            &&& row.relevance is Some
            &&& row.relevance == reply::judgement(reply::answers_of(data[i])->0, j as nat)
            &&& binary64::is_probability(row.relevance->0)
        }),
{
    let rows = ranking::all_rows(responses);
    let sorted = jev::ranked_views(ranking.results@);
    law_ranking_keeps_the_rows(sorted, rows);
    arrangement::lemma_same_members(sorted, rows, sorted[k]);
    assert(sorted.contains(sorted[k]));
    let (i, j) = lemma_row_has_a_response(responses, sorted[k]);
    assert(reply::is_reading(responses[i], data[i], requests[order[i]], attempts[i]));
    assert(responses[i].results@[j]@.candidate == requests[order[i]][j]);
    reply::law_judgements_are_probabilities(reply::answers_of(data[i])->0, j as nat);
    (i, j)
}

/// Whether the score of a row, if it has one, is a probability.
pub open spec fn is_judged(row: jev::RankedView) -> bool {
    row.relevance matches Some(bits) ==> binary64::is_probability(bits)
}

/// Whether two rows have the same score: the same number, or none.
pub open spec fn scores_agree(a: jev::RankedView, b: jev::RankedView) -> bool {
    match (a.relevance, b.relevance) {
        (Some(x), Some(y)) => binary64::value(x) == binary64::value(y),
        (None, None) => true,
        _ => false,
    }
}

/// Of any two rows of the ranking the first has the higher score, as a number; where the
/// scores are equal, the path does not descend, and where the path is the same, neither
/// does the line. Rows without a score come last.
pub proof fn law_scores_descend(
    sorted: Seq<jev::RankedView>,
    rows: Seq<jev::RankedView>,
    i: int,
    j: int,
)
    requires
        ranking::is_sorted(sorted, rows),
        0 <= i < j < sorted.len(),
        is_judged(sorted[i]),
        is_judged(sorted[j]),
    ensures
        match (sorted[i].relevance, sorted[j].relevance) {
            (Some(x), Some(y)) => binary64::value(x) >= binary64::value(y),
            (None, Some(_)) => false,
            _ => true,
        },
        scores_agree(sorted[i], sorted[j]) ==> {
            let (a, b) = (sorted[i].candidate, sorted[j].candidate);
            &&& !text::precedes(b.path, a.path)
            &&& a.path == b.path ==> a.start_line <= b.start_line
        },
{
    law_ranking_is_ordered(sorted, rows, i, j);
}

/// The ranking is a rearrangement of the rows: the result lists, for each place of the
/// ranking, the place where its row stood. Rows that agree in score, path and line keep
/// their order.
pub proof fn law_ranking_is_a_stable_rearrangement(
    sorted: Seq<jev::RankedView>,
    rows: Seq<jev::RankedView>,
) -> (order: Seq<int>)
    requires
        ranking::is_sorted(sorted, rows),
    ensures
        sorted.len() == rows.len(),
        order.len() == rows.len(),
        order.no_duplicates(),
        forall|i: int| 0 <= i < order.len() ==> 0 <= #[trigger] order[i] < rows.len(),
        forall|i: int| 0 <= i < order.len() ==> sorted[i] == rows[#[trigger] order[i]],
        forall|i: int, j: int|
            0 <= i < j < order.len() && scores_agree(sorted[i], sorted[j])
                && sorted[i].candidate.path == sorted[j].candidate.path
                && sorted[i].candidate.start_line == sorted[j].candidate.start_line
                ==> #[trigger] order[i] < #[trigger] order[j],
{
    let list = choose|order: Seq<usize>| ranking::is_arranged(sorted, rows, order);
    lemma_order_is_permutation(list, rows);
    let order = places(list);
    assert forall|i: int, j: int|
        0 <= i < j < order.len() && scores_agree(sorted[i], sorted[j])
            && sorted[i].candidate.path == sorted[j].candidate.path
            && sorted[i].candidate.start_line == sorted[j].candidate.start_line implies (
    #[trigger] order[i]) < #[trigger] order[j] by {
        assert(ranking::comes_before(rows, list[i] as int, list[j] as int));
        text::lemma_precedes_irreflexive(sorted[i].candidate.path);
    }
    order
}

/// What a merged ranking says of the use of the service: the requests of all answers
/// together; the tokens of all together, if each says how many, and the sum is in range;
/// and every model that an answer names, no other, none twice, in ascending order.
pub proof fn law_use_of_the_service_adds_up(ranking: Ranking, responses: Seq<Ranking>)
    requires
        ranking::is_merged(ranking, responses),
    ensures
        ranking.requests == arrangement::sum(
            Seq::new(responses.len(), |i: int| responses[i].requests as nat),
        ),
        ranking.input_tokens is Some <==> (forall|i: int|
            0 <= i < responses.len() ==> (#[trigger] responses[i]).input_tokens is Some)
            && arrangement::sum(token_counts(responses)) <= u64::MAX,
        ranking.input_tokens matches Some(total) ==> total == arrangement::sum(
            Seq::new(responses.len(), |i: int| responses[i].input_tokens->0 as nat),
        ),
        forall|model: Seq<char>| #[trigger]
            text::string_views(ranking.models@).contains(model) <==> exists|i: int|
                0 <= i < responses.len() && text::string_views(
                    (#[trigger] responses[i]).models@,
                ).contains(model),
        forall|k: int, l: int|
            0 <= k < l < ranking.models@.len() ==> text::precedes(
                (#[trigger] ranking.models@[k])@,
                (#[trigger] ranking.models@[l])@,
            ),
{
    lemma_total_requests(responses);
    lemma_total_tokens(responses);
    assert(request_counts(responses) =~= Seq::new(
        responses.len(),
        |i: int| responses[i].requests as nat,
    ));
    if is_counted(responses) {
        assert(token_counts(responses) =~= Seq::new(
            responses.len(),
            |i: int| responses[i].input_tokens->0 as nat,
        ));
    }
    assert forall|model: Seq<char>| #[trigger]
        text::string_views(ranking.models@).contains(model) <==> exists|i: int|
            0 <= i < responses.len() && text::string_views(
                (#[trigger] responses[i]).models@,
            ).contains(model) by {
        lemma_listed(ranking.models@, model);
        assert(ranking::is_listed(model, ranking.models@) <==> ranking::is_named(model, responses));
        if ranking::is_named(model, responses) {
            let (i, j) = choose|i: int, j: int|
                0 <= i < responses.len() && 0 <= j < responses[i].models@.len()
                    && #[trigger] responses[i].models@[j]@ == model;
            assert(text::string_views(responses[i].models@)[j] == model);
        }
        if exists|i: int|
            0 <= i < responses.len() && text::string_views(
                (#[trigger] responses[i]).models@,
            ).contains(model) {
            let i = choose|i: int|
                0 <= i < responses.len() && text::string_views(
                    (#[trigger] responses[i]).models@,
                ).contains(model);
            let views = text::string_views(responses[i].models@);
            let j = choose|j: int| 0 <= j < views.len() && views[j] == model;
            assert(responses[i].models@[j]@ == model);
        }
    }
}

/// The rows of several answers are all the rows of each, one answer after the other.
pub proof fn law_all_rows(responses: Seq<Ranking>)
    ensures
        ranking::all_rows(responses) == arrangement::joined(
            Seq::new(responses.len(), |i: int| jev::ranked_views(responses[i].results@)),
        ),
{
    lemma_all_rows(responses);
    assert(parts(responses) =~= Seq::new(
        responses.len(),
        |i: int| jev::ranked_views(responses[i].results@),
    ));
}

} // verus!
