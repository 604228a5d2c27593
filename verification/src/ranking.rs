//! Putting the judged candidates in order, and the answers of a run together.
use vstd::prelude::*;
use vstd::string::*;

use crate::binary64;
use crate::jev::{self, RankError, RankedCandidate, Ranking};
use crate::text::{self, Position};

verus! {

/// The score of a row as a number to order by; a row without one comes after all
/// that have one.
pub open spec fn score_key(row: jev::RankedView) -> int {
    match row.relevance {
        Some(bits) => binary64::value(bits),
        None => -1,
    }
}

/// Whether row `a` ranks before row `b`: by a higher score, else by path, else by line.
pub open spec fn ranks_before(a: jev::RankedView, b: jev::RankedView) -> bool {
    ||| score_key(a) > score_key(b)
    ||| score_key(a) == score_key(b) && {
        ||| text::precedes(a.candidate.path, b.candidate.path)
        ||| a.candidate.path == b.candidate.path && a.candidate.start_line
            < b.candidate.start_line
    }
}

/// No row ranks before itself.
pub proof fn lemma_ranks_irreflexive(a: jev::RankedView)
    ensures
        !ranks_before(a, a),
{
    text::lemma_precedes_irreflexive(a.candidate.path);
}

/// Of two rows at most one ranks before the other.
pub proof fn lemma_ranks_asymmetric(a: jev::RankedView, b: jev::RankedView)
    ensures
        !(ranks_before(a, b) && ranks_before(b, a)),
{
    text::lemma_precedes_irreflexive(a.candidate.path);
    if text::precedes(a.candidate.path, b.candidate.path) && text::precedes(
        b.candidate.path,
        a.candidate.path,
    ) {
        text::lemma_precedes_transitive(
            a.candidate.path,
            b.candidate.path,
            a.candidate.path,
        );
    }
}

/// Two rows between which the order does not decide agree in all that it looks at.
pub proof fn lemma_ranks_total(a: jev::RankedView, b: jev::RankedView)
    requires
        !ranks_before(a, b),
        !ranks_before(b, a),
    ensures
        score_key(a) == score_key(b),
        a.candidate.path == b.candidate.path,
        a.candidate.start_line == b.candidate.start_line,
{
    text::lemma_precedes_total(a.candidate.path, b.candidate.path);
}

/// The order of rows is transitive.
proof fn lemma_ranks_transitive(a: jev::RankedView, b: jev::RankedView, c: jev::RankedView)
    requires
        ranks_before(a, b),
        ranks_before(b, c),
    ensures
        ranks_before(a, c),
{
    if text::precedes(a.candidate.path, b.candidate.path) && text::precedes(
        b.candidate.path,
        c.candidate.path,
    ) {
        text::lemma_precedes_transitive(
            a.candidate.path,
            b.candidate.path,
            c.candidate.path,
        );
    }
}

/// Where the score of row `a` stands to that of row `b`.
fn score_position(a: &RankedCandidate, b: &RankedCandidate) -> (result: Position)
    ensures
        match result {
            Position::Before => score_key(a@) < score_key(b@),
            Position::Same => score_key(a@) == score_key(b@),
            Position::After => score_key(a@) > score_key(b@),
        },
{
    match (a.relevance, b.relevance) {
        (Some(x), Some(y)) => x.position(&y),
        (Some(x), None) => {
            let _bits: u64 = x.bits();
            Position::After
        },
        (None, Some(y)) => {
            let _bits: u64 = y.bits();
            Position::Before
        },
        (None, None) => Position::Same,
    }
}

/// Where row `a` ranks to row `b`.
fn row_position(a: &RankedCandidate, b: &RankedCandidate) -> (result: Position)
    ensures
        match result {
            Position::Before => ranks_before(a@, b@),
            Position::Same => !ranks_before(a@, b@) && !ranks_before(b@, a@),
            Position::After => ranks_before(b@, a@),
        },
{
    match score_position(a, b) {
        Position::After => {
            return Position::Before;
        },
        Position::Before => {
            return Position::After;
        },
        Position::Same => {},
    }
    proof {
        text::lemma_precedes_irreflexive(a.candidate.path@);
    }
    match text::position(a.candidate.path.as_str(), b.candidate.path.as_str()) {
        Position::Before => Position::Before,
        Position::After => Position::After,
        Position::Same => {
            if a.candidate.start_line < b.candidate.start_line {
                Position::Before
            } else if a.candidate.start_line > b.candidate.start_line {
                Position::After
            } else {
                Position::Same
            }
        },
    }
}

/// Whether the row at place `i` comes before the row at place `j`: by rank, and where
/// the rank does not decide, by place.
pub open spec fn comes_before(rows: Seq<jev::RankedView>, i: int, j: int) -> bool {
    ranks_before(rows[i], rows[j]) || (!ranks_before(rows[j], rows[i]) && i < j)
}

/// The order of places is transitive.
proof fn lemma_comes_transitive(rows: Seq<jev::RankedView>, i: int, j: int, k: int)
    requires
        comes_before(rows, i, j),
        comes_before(rows, j, k),
    ensures
        comes_before(rows, i, k),
{
    let (a, b, c) = (rows[i], rows[j], rows[k]);
    lemma_ranks_asymmetric(a, b);
    lemma_ranks_asymmetric(b, c);
    if ranks_before(a, b) && ranks_before(b, c) {
        lemma_ranks_transitive(a, b, c);
    } else if ranks_before(a, b) {
        lemma_ranks_total(b, c);
    } else if ranks_before(b, c) {
        lemma_ranks_total(a, b);
    } else {
        lemma_ranks_total(a, b);
        lemma_ranks_total(b, c);
    }
}

/// Whether `order` lists places among `from..to`, as many as there are, each before
/// those that follow it.
pub open spec fn is_order(
    order: Seq<usize>,
    rows: Seq<jev::RankedView>,
    from: int,
    to: int,
) -> bool {
    &&& order.len() == to - from
    &&& forall|i: int| 0 <= i < order.len() ==> from <= #[trigger] order[i] < to
    &&& forall|i: int, j: int|
        0 <= i < j < order.len() ==> comes_before(rows, order[i] as int, order[j] as int)
}

/// Merges the orders of two neighbouring stretches.
fn merge_orders(
    rows: &Vec<RankedCandidate>,
    left: &Vec<usize>,
    right: &Vec<usize>,
    Ghost(from): Ghost<int>,
    Ghost(middle): Ghost<int>,
    Ghost(to): Ghost<int>,
) -> (order: Vec<usize>)
    requires
        0 <= from <= middle <= to <= rows.len(),
        is_order(left@, jev::ranked_views(rows@), from, middle),
        is_order(right@, jev::ranked_views(rows@), middle, to),
    ensures
        is_order(order@, jev::ranked_views(rows@), from, to),
{
    let ghost views = jev::ranked_views(rows@);
    let mut order: Vec<usize> = Vec::new();
    let mut i: usize = 0;
    let mut j: usize = 0;
    while i < left.len() || j < right.len()
        invariant
            views == jev::ranked_views(rows@),
            0 <= from <= middle <= to <= rows.len(),
            is_order(left@, views, from, middle),
            is_order(right@, views, middle, to),
            i <= left.len(),
            j <= right.len(),
            order.len() == i + j,
            forall|k: int| 0 <= k < order.len() ==> from <= #[trigger] order@[k] < to,
            forall|k: int, l: int|
                0 <= k < l < order.len() ==> comes_before(
                    views,
                    order@[k] as int,
                    order@[l] as int,
                ),
            forall|k: int, l: int|
                0 <= k < order.len() && i <= l < left.len() ==> comes_before(
                    views,
                    #[trigger] order@[k] as int,
                    #[trigger] left@[l] as int,
                ),
            forall|k: int, l: int|
                0 <= k < order.len() && j <= l < right.len() ==> comes_before(
                    views,
                    #[trigger] order@[k] as int,
                    #[trigger] right@[l] as int,
                ),
        decreases left.len() - i + right.len() - j,
    {
        let take_left = if i == left.len() {
            false
        } else if j == right.len() {
            true
        } else {
            match row_position(&rows[left[i]], &rows[right[j]]) {
                Position::After => false,
                _ => true,
            }
        };
        if take_left {
            let next = left[i];
            proof {
                assert forall|l: int| j <= l < right.len() implies comes_before(
                    views,
                    next as int,
                    #[trigger] right@[l] as int,
                ) by {
                    lemma_ranks_asymmetric(views[next as int], views[right@[j as int] as int]);
                    assert(comes_before(views, next as int, right@[j as int] as int));
                    if l > j {
                        lemma_comes_transitive(
                            views,
                            next as int,
                            right@[j as int] as int,
                            right@[l] as int,
                        );
                    }
                }
            }
            order.push(next);
            i += 1;
        } else {
            let next = right[j];
            proof {
                assert forall|l: int| i <= l < left.len() implies comes_before(
                    views,
                    next as int,
                    #[trigger] left@[l] as int,
                ) by {
                    assert(comes_before(views, next as int, left@[i as int] as int));
                    if l > i {
                        lemma_comes_transitive(
                            views,
                            next as int,
                            left@[i as int] as int,
                            left@[l] as int,
                        );
                    }
                }
            }
            order.push(next);
            j += 1;
        }
    }
    order
}

/// The places `from..to` in the order of their rows.
fn order_of(rows: &Vec<RankedCandidate>, from: usize, to: usize) -> (order: Vec<usize>)
    requires
        from <= to <= rows.len(),
    ensures
        is_order(order@, jev::ranked_views(rows@), from as int, to as int),
    decreases to - from,
{
    if to - from < 2 {
        let mut order: Vec<usize> = Vec::new();
        if from < to {
            order.push(from);
        }
        order
    } else {
        let middle = from + (to - from) / 2;
        let left = order_of(rows, from, middle);
        let right = order_of(rows, middle, to);
        merge_orders(
            rows,
            &left,
            &right,
            Ghost(from as int),
            Ghost(middle as int),
            Ghost(to as int),
        )
    }
}

/// Whether `sorted` holds the rows at the places that `order` lists.
pub open spec fn is_arranged(
    sorted: Seq<jev::RankedView>,
    rows: Seq<jev::RankedView>,
    order: Seq<usize>,
) -> bool {
    &&& is_order(order, rows, 0, rows.len() as int)
    &&& sorted == Seq::new(rows.len(), |i: int| rows[order[i] as int])
}

/// Whether `sorted` is `rows` in the order of rank, with rows between which the rank
/// does not decide left in their order.
pub open spec fn is_sorted(sorted: Seq<jev::RankedView>, rows: Seq<jev::RankedView>) -> bool {
    exists|order: Seq<usize>| is_arranged(sorted, rows, order)
}

/// The rows in the order of rank.
pub fn sort_rows(rows: Vec<RankedCandidate>) -> (sorted: Vec<RankedCandidate>)
    ensures
        is_sorted(jev::ranked_views(sorted@), jev::ranked_views(rows@)),
{
    let ghost views = jev::ranked_views(rows@);
    let ghost all = rows@;
    let order = order_of(&rows, 0, rows.len());
    let mut slots: Vec<Option<RankedCandidate>> = Vec::new();
    for row in iter: rows
        invariant
            iter.seq() == all,
            slots.len() == iter.index(),
            forall|k: int| 0 <= k < slots.len() ==> #[trigger] slots@[k] == Some(all[k]),
    {
        slots.push(Some(row));
    }
    let mut sorted: Vec<RankedCandidate> = Vec::new();
    let mut i: usize = 0;
    while i < order.len()
        invariant
            i <= order.len() == slots.len() == all.len(),
            views == jev::ranked_views(all),
            is_order(order@, views, 0, all.len() as int),
            sorted.len() == i,
            forall|k: int| 0 <= k < i ==> #[trigger] sorted@[k] == all[order@[k] as int],
            forall|k: int|
                i <= k < order.len() ==> slots@[#[trigger] order@[k] as int] == Some(
                    all[order@[k] as int],
                ),
        decreases order.len() - i,
    {
        let place = order[i];
        proof {
            assert forall|k: int| i < k < order.len() implies #[trigger] order@[k] != place by {
                assert(comes_before(views, place as int, order@[k] as int));
                lemma_ranks_irreflexive(views[place as int]);
            }
        }
        let ghost before = slots@;
        let taken = slots[place].take();
        assert(forall|k: int|
            0 <= k < before.len() && k != place ==> #[trigger] slots@[k] == before[k]);
        if let Some(row) = taken {
            sorted.push(row);
        }
        i += 1;
    }
    assert(jev::ranked_views(sorted@) =~= Seq::new(
        views.len(),
        |k: int| views[order@[k] as int],
    )) by {
        assert forall|k: int| 0 <= k < views.len() implies #[trigger] jev::ranked_views(sorted@)[k]
            == views[order@[k] as int] by {
            assert(sorted@[k] == all[order@[k] as int]);
        }
    }
    assert(is_arranged(jev::ranked_views(sorted@), views, order@));
    sorted
}

/// The rows of several answers, one after the other.
pub open spec fn all_rows(responses: Seq<Ranking>) -> Seq<jev::RankedView>
    decreases responses.len(),
{
    if responses.len() == 0 {
        seq![]
    } else {
        all_rows(responses.drop_last()) + jev::ranked_views(responses.last().results@)
    }
}

/// The number of requests that several answers took.
pub open spec fn total_requests(responses: Seq<Ranking>) -> nat
    decreases responses.len(),
{
    if responses.len() == 0 {
        0
    } else {
        total_requests(responses.drop_last()) + responses.last().requests as nat
    }
}

/// The number of tokens that several answers took; none where one of them does not
/// say, or where the sum is over the range of the number.
pub open spec fn total_tokens(responses: Seq<Ranking>) -> Option<u64>
    decreases responses.len(),
{
    if responses.len() == 0 {
        Some(0)
    } else {
        match (total_tokens(responses.drop_last()), responses.last().input_tokens) {
            (Some(total), Some(count)) => if total + count <= u64::MAX {
                Some((total + count) as u64)
            } else {
                None
            },
            _ => None,
        }
    }
}

/// Whether a model is among those that several answers name.
pub open spec fn is_named(model: Seq<char>, responses: Seq<Ranking>) -> bool {
    exists|i: int, j: int|
        0 <= i < responses.len() && 0 <= j < responses[i].models@.len()
            && #[trigger] responses[i].models@[j]@ == model
}

/// Whether the strings ascend, so that none occurs twice.
pub open spec fn is_ascending(strings: Seq<String>) -> bool {
    forall|i: int, j: int|
        0 <= i < j < strings.len() ==> text::precedes(
            #[trigger] strings[i]@,
            #[trigger] strings[j]@,
        )
}

/// Whether a string is in the list.
pub open spec fn is_listed(string: Seq<char>, strings: Seq<String>) -> bool {
    exists|i: int| 0 <= i < strings.len() && #[trigger] strings[i]@ == string
}

/// Puts a string into its place in an ascending list, unless it is there.
fn insert_ascending(strings: &mut Vec<String>, string: &String)
    requires
        is_ascending(old(strings)@),
    ensures
        is_ascending(final(strings)@),
        forall|other: Seq<char>| #[trigger]
            is_listed(other, final(strings)@) <==> is_listed(other, old(strings)@) || other
                == string@,
{
    let ghost before = strings@;
    let mut place: usize = 0;
    while place < strings.len()
        invariant
            place <= strings.len(),
            strings@ == before,
            is_ascending(before),
            forall|k: int| 0 <= k < place ==> text::precedes(#[trigger] before[k]@, string@),
        ensures
            place < before.len() ==> text::precedes(string@, before[place as int]@),
        decreases strings.len() - place,
    {
        match text::position(strings[place].as_str(), string.as_str()) {
            Position::Before => {},
            Position::Same => {
                assert(is_listed(string@, before));
                return ;
            },
            Position::After => {
                break;
            },
        }
        place += 1;
    }
    strings.insert(place, string.clone());
    proof {
        let after = strings@;
        assert(after == before.insert(place as int, *string));
        assert forall|k: int| place <= k < before.len() implies text::precedes(
            string@,
            #[trigger] before[k]@,
        ) by {
            if k > place {
                text::lemma_precedes_transitive(string@, before[place as int]@, before[k]@);
            }
        }
        assert forall|i: int, j: int| 0 <= i < j < after.len() implies text::precedes(
            #[trigger] after[i]@,
            #[trigger] after[j]@,
        ) by {
            let a = if i < place {
                i
            } else {
                i - 1
            };
            let b = if j < place {
                j
            } else {
                j - 1
            };
            if i != place {
                assert(after[i] == before[a]);
            }
            if j != place {
                assert(after[j] == before[b]);
            }
        }
        assert forall|other: Seq<char>| #[trigger] is_listed(other, after) <==> is_listed(
            other,
            before,
        ) || other == string@ by {
            assert(after[place as int]@ == string@);
            if is_listed(other, before) {
                let k = choose|k: int| 0 <= k < before.len() && #[trigger] before[k]@ == other;
                let l = if k < place {
                    k
                } else {
                    k + 1
                };
                assert(after[l] == before[k]);
            }
            if is_listed(other, after) {
                let l = choose|l: int| 0 <= l < after.len() && #[trigger] after[l]@ == other;
                if l != place {
                    let k = if l < place {
                        l
                    } else {
                        l - 1
                    };
                    assert(after[l] == before[k]);
                }
            }
        }
    }
}

/// Whether a ranking is what several answers amount to: all their rows in order, the
/// sums of their counts, and their models in order, each of them once.
pub open spec fn is_merged(ranking: Ranking, responses: Seq<Ranking>) -> bool {
    &&& is_sorted(jev::ranked_views(ranking.results@), all_rows(responses))
    &&& ranking.requests == total_requests(responses)
    &&& ranking.input_tokens == total_tokens(responses)
    &&& is_ascending(ranking.models@)
    &&& forall|model: Seq<char>| #[trigger]
        is_listed(model, ranking.models@) <==> is_named(model, responses)
}

/// Adds the models that one answer names.
fn add_models(models: &mut Vec<String>, named: &Vec<String>)
    requires
        is_ascending(old(models)@),
    ensures
        is_ascending(final(models)@),
        forall|model: Seq<char>| #[trigger]
            is_listed(model, final(models)@) <==> is_listed(model, old(models)@) || is_listed(
                model,
                named@,
            ),
{
    let ghost before = models@;
    let mut i: usize = 0;
    while i < named.len()
        invariant
            i <= named.len(),
            is_ascending(models@),
            forall|model: Seq<char>| #[trigger]
                is_listed(model, models@) <==> is_listed(model, before) || is_listed(
                    model,
                    named@.take(i as int),
                ),
        decreases named.len() - i,
    {
        let ghost listed = models@;
        insert_ascending(models, &named[i]);
        proof {
            let shorter = named@.take(i as int);
            let longer = named@.take(i + 1);
            assert forall|model: Seq<char>| #[trigger]
                is_listed(model, models@) <==> is_listed(model, before) || is_listed(
                    model,
                    longer,
                ) by {
                assert(is_listed(model, models@) <==> is_listed(model, listed) || model
                    == named@[i as int]@);
                if is_listed(model, shorter) {
                    let k = choose|k: int|
                        0 <= k < shorter.len() && #[trigger] shorter[k]@ == model;
                    assert(longer[k]@ == model);
                }
                if model == named@[i as int]@ {
                    assert(longer[i as int]@ == model);
                }
                if is_listed(model, longer) {
                    let k = choose|k: int| 0 <= k < longer.len() && #[trigger] longer[k]@ == model;
                    if k < i {
                        assert(shorter[k]@ == model);
                    }
                }
            }
        }
        i += 1;
    }
    assert(named@.take(i as int) == named@);
}

/// Naming the models of one more answer.
proof fn lemma_named(model: Seq<char>, responses: Seq<Ranking>)
    requires
        responses.len() > 0,
    ensures
        is_named(model, responses) <==> is_named(model, responses.drop_last()) || is_listed(
            model,
            responses.last().models@,
        ),
{
    let shorter = responses.drop_last();
    let last = responses.len() - 1;
    if is_named(model, shorter) {
        let (i, j) = choose|i: int, j: int|
            0 <= i < shorter.len() && 0 <= j < shorter[i].models@.len()
                && #[trigger] shorter[i].models@[j]@ == model;
        assert(responses[i].models@[j]@ == model);
    }
    if is_listed(model, responses.last().models@) {
        let j = choose|j: int|
            0 <= j < responses.last().models@.len()
                && #[trigger] responses.last().models@[j]@ == model;
        assert(responses[last].models@[j]@ == model);
    }
    if is_named(model, responses) {
        let (i, j) = choose|i: int, j: int|
            0 <= i < responses.len() && 0 <= j < responses[i].models@.len()
                && #[trigger] responses[i].models@[j]@ == model;
        if i < last {
            assert(shorter[i].models@[j]@ == model);
        } else {
            assert(responses.last().models@[j]@ == model);
        }
    }
}

/// Fewer answers took no more requests.
pub proof fn lemma_total_requests(responses: Seq<Ranking>, len: int)
    requires
        0 <= len <= responses.len(),
    ensures
        total_requests(responses.take(len)) <= total_requests(responses),
    decreases responses.len() - len,
{
    if len < responses.len() {
        lemma_total_requests(responses, len + 1);
        assert(responses.take(len + 1).drop_last() == responses.take(len));
    } else {
        assert(responses.take(len) == responses);
    }
}

/// Puts the answers of a run together.
pub fn merge(responses: Vec<Ranking>) -> (ranking: Ranking)
    requires
        total_requests(responses@) <= usize::MAX,
    ensures
        is_merged(ranking, responses@),
{
    let ghost all = responses@;
    let mut results: Vec<RankedCandidate> = Vec::new();
    let mut requests: usize = 0;
    let mut input_tokens: Option<u64> = Some(0);
    let mut models: Vec<String> = Vec::new();
    assert(all.take(0) == Seq::<Ranking>::empty());
    assert(jev::ranked_views(results@) == all_rows(all.take(0)));
    for response in iter: responses
        invariant
            iter.seq() == all,
            total_requests(all) <= usize::MAX,
            jev::ranked_views(results@) == all_rows(all.take(iter.index() as int)),
            requests == total_requests(all.take(iter.index() as int)),
            input_tokens == total_tokens(all.take(iter.index() as int)),
            is_ascending(models@),
            forall|model: Seq<char>| #[trigger]
                is_listed(model, models@) <==> is_named(model, all.take(iter.index() as int)),
    {
        let ghost n = iter.index() as int;
        let ghost shorter = all.take(n);
        let ghost longer = all.take(n + 1);
        proof {
            assert(longer.drop_last() == shorter);
            assert(longer.last() == response);
            lemma_total_requests(all, n + 1);
        }
        let ghost rows = jev::ranked_views(results@);
        let ghost added = jev::ranked_views(response.results@);
        let mut more = response.results;
        results.append(&mut more);
        assert(jev::ranked_views(results@) =~= rows + added);
        requests = requests + response.requests;
        input_tokens = match (input_tokens, response.input_tokens) {
            (Some(total), Some(count)) => total.checked_add(count),
            _ => None,
        };
        let ghost listed = models@;
        add_models(&mut models, &response.models);
        proof {
            assert forall|model: Seq<char>| #[trigger] is_listed(model, models@) <==> is_named(
                model,
                longer,
            ) by {
                lemma_named(model, longer);
                assert(is_listed(model, listed) <==> is_named(model, shorter));
            }
        }
    }
    assert(all.take(all.len() as int) == all);
    let sorted = sort_rows(results);
    Ranking { results: sorted, requests, input_tokens, models }
}

/// Ends a run atomically: an interrupt or a failed request leaves no ranking at all, so
/// failed requests never become results without a score.
pub fn conclude(cancelled: bool, failure: Option<RankError>, responses: Vec<Ranking>) -> (result:
    Result<Ranking, RankError>)
    requires
        total_requests(responses@) <= usize::MAX,
    ensures
        match result {
            Ok(ranking) => !cancelled && failure is None && is_merged(ranking, responses@),
            Err(error) => if cancelled {
                error@ is Interrupted
            } else {
                failure == Some(error)
            },
        },
{
    if crate::check_cancelled(cancelled).is_err() {
        return Err(RankError::Interrupted);
    }
    match failure {
        Some(error) => Err(error),
        None => Ok(merge(responses)),
    }
}

} // verus!
