//! The state that the workers of a run share.
//!
//! Workers take requests from the front of the queue and report an answer or a
//! failure. After the first failure, or an interrupt, no request is handed out any
//! more, and the run ends without a ranking.
use std::collections::VecDeque;
use vstd::prelude::*;

use crate::jev::{self, Batch, Options, RankError, Ranking};
use crate::ranking;
use crate::search::{self, Candidate};

verus! {

/// What the workers of a run share.
pub struct Run {
    waiting: VecDeque<Batch>,
    responses: Vec<Ranking>,
    failure: Option<RankError>,
    total: usize,
}

/// Where a run stands.
#[verifier::ext_equal]
pub ghost struct RunView {
    /// The requests that no worker has taken.
    pub waiting: Seq<Batch>,
    /// The answers, in the order of their arrival.
    pub responses: Seq<Ranking>,
    /// The first failure.
    pub failure: Option<RankError>,
    /// The number of requests that there were at first.
    pub total: nat,
}

impl View for Run {
    type V = RunView;

    closed spec fn view(&self) -> RunView {
        RunView {
            waiting: self.waiting@,
            responses: self.responses@,
            failure: self.failure,
            total: self.total as nat,
        }
    }
}

impl RunView {
    /// Whether no request waits and there are as many answers as there were requests.
    pub open spec fn is_complete(self) -> bool {
        self.waiting.len() == 0 && self.responses.len() == self.total
    }

    /// Whether the run is over, so that no worker has anything left to do: it is
    /// complete, a request has failed, or the user has interrupted it.
    pub open spec fn is_over(self, cancelled: bool) -> bool {
        cancelled || self.failure is Some || self.is_complete()
    }

    /// Whether nothing has happened yet.
    pub open spec fn is_fresh(self) -> bool {
        &&& self.responses.len() == 0
        &&& self.failure is None
        &&& self.total == self.waiting.len()
    }

    /// Whether a worker that asks gets a request.
    pub open spec fn hands_out(self, cancelled: bool) -> bool {
        !cancelled && self.failure is None && self.waiting.len() > 0
    }

    /// The run after a worker has asked for a request.
    pub open spec fn after_take(self, cancelled: bool) -> RunView {
        if self.hands_out(cancelled) {
            RunView { waiting: self.waiting.drop_first(), ..self }
        } else {
            self
        }
    }

    /// The run with one more answer.
    pub open spec fn with_response(self, response: Ranking) -> RunView {
        RunView { responses: self.responses.push(response), ..self }
    }

    /// The run with one more failure; the first one stays.
    pub open spec fn with_failure(self, cause: RankError) -> RunView {
        RunView {
            failure: if self.failure is Some {
                self.failure
            } else {
                Some(cause)
            },
            ..self
        }
    }
}

/// What a worker does.
pub ghost enum RunEvent {
    /// It asks for a request, after an interrupt or not.
    Take(bool),
    /// It reports an answer.
    Response(Ranking),
    /// It reports a failure.
    Failure(RankError),
}

/// The run after all the events.
pub open spec fn replay(run: RunView, events: Seq<RunEvent>) -> RunView
    decreases events.len(),
{
    if events.len() == 0 {
        run
    } else {
        let before = replay(run, events.drop_last());
        match events.last() {
            RunEvent::Take(cancelled) => before.after_take(cancelled),
            RunEvent::Response(response) => before.with_response(response),
            RunEvent::Failure(cause) => before.with_failure(cause),
        }
    }
}

/// The number of requests that there were at first stays.
pub proof fn lemma_total_stays(run: RunView, events: Seq<RunEvent>)
    ensures
        replay(run, events).total == run.total,
    decreases events.len(),
{
    if events.len() > 0 {
        lemma_total_stays(run, events.drop_last());
    }
}

/// The first failure is final: whatever the workers do after it, it stays, and no
/// request is handed out any more.
pub proof fn law_first_failure_is_final(run: RunView, events: Seq<RunEvent>)
    requires
        run.failure is Some,
    ensures
        replay(run, events).failure == run.failure,
        replay(run, events).waiting == run.waiting,
        forall|cancelled: bool| !#[trigger] replay(run, events).hands_out(cancelled),
    decreases events.len(),
{
    if events.len() > 0 {
        law_first_failure_is_final(run, events.drop_last());
    }
}

/// No request is handed out twice, and none out of turn: what waits is always the end
/// of what waited at first.
pub proof fn law_requests_leave_in_turn(run: RunView, events: Seq<RunEvent>)
    ensures
        replay(run, events).waiting.len() <= run.waiting.len(),
        replay(run, events).waiting == run.waiting.skip(
            run.waiting.len() - replay(run, events).waiting.len(),
        ),
    decreases events.len(),
{
    if events.len() == 0 {
        assert(run.waiting == run.waiting.skip(0));
    } else {
        law_requests_leave_in_turn(run, events.drop_last());
        let before = replay(run, events.drop_last()).waiting;
        let after = replay(run, events).waiting;
        if after != before {
            assert(after =~= run.waiting.skip(run.waiting.len() - after.len()));
        }
    }
}

impl Run {
    /// Divides the candidates into requests, of which none has been taken.
    pub fn start(candidates: Vec<Candidate>, intent: &str, options: &Options) -> (result: Result<
        Run,
        RankError,
    >)
        ensures
            ({
                let packing = jev::packed(
                    search::candidate_views(candidates@),
                    intent@,
                    options.model@,
                    options.batch_size as nat,
                );
                match result {
                    Ok(run) => {
                        &&& packing matches Ok(packing) && jev::batch_views(run@.waiting)
                            == packing.requests()
                        &&& jev::bodies_fit(run@.waiting, intent@, options.model@)
                        &&& run@.is_fresh()
                    },
                    Err(error) => packing == Err::<jev::Packing, _>(error@),
                }
            }),
    {
        match jev::batches(candidates, intent, options) {
            Ok(waiting) => {
                let total = waiting.len();
                Ok(Run { waiting, responses: Vec::new(), failure: None, total })
            },
            Err(error) => Err(error),
        }
    }

    /// The number of requests that no worker has taken.
    pub fn waiting(&self) -> (count: usize)
        ensures
            count == self@.waiting.len(),
    {
        self.waiting.len()
    }

    /// Whether the run is over, so that no worker has anything left to do.
    pub fn is_over(&self, cancelled: bool) -> (result: bool)
        ensures
            result == self@.is_over(cancelled),
    {
        cancelled || self.failure.is_some() || (self.waiting.len() == 0 && self.responses.len()
            == self.total)
    }

    /// Whether a request has failed.
    pub fn has_failed(&self) -> (failed: bool)
        ensures
            failed == (self@.failure is Some),
    {
        self.failure.is_some()
    }

    /// Hands the next request to a worker, in the order of the candidates. After an
    /// interrupt and after a failure there is none.
    pub fn take(&mut self, cancelled: bool) -> (batch: Option<Batch>)
        ensures
            final(self)@ == old(self)@.after_take(cancelled),
            match batch {
                Some(batch) => old(self)@.hands_out(cancelled) && batch == old(self)@.waiting[0],
                None => !old(self)@.hands_out(cancelled),
            },
    {
        let ghost before = self@;
        if cancelled || self.failure.is_some() {
            return None;
        }
        let batch = self.waiting.pop_front();
        assert(self@ == before.after_take(cancelled));
        batch
    }

    /// Takes in an answer.
    pub fn answered(&mut self, response: Ranking)
        ensures
            final(self)@ == old(self)@.with_response(response),
    {
        let ghost before = self@;
        self.responses.push(response);
        assert(self@ == before.with_response(response));
    }

    /// Takes in a failure. The first one stays: those that follow may only say that
    /// another request has failed.
    pub fn failed(&mut self, cause: RankError)
        ensures
            final(self)@ == old(self)@.with_failure(cause),
    {
        if self.failure.is_none() {
            self.failure = Some(cause);
        }
    }

    /// The number of requests that the answers took, if the number is in range.
    pub fn requests(&self) -> (count: Option<usize>)
        ensures
            match count {
                Some(count) => count == ranking::total_requests(self@.responses),
                None => ranking::total_requests(self@.responses) > usize::MAX,
            },
    {
        let mut count: usize = 0;
        let mut i: usize = 0;
        let ghost all = self.responses@;
        assert(all.take(0) == Seq::<Ranking>::empty());
        while i < self.responses.len()
            invariant
                i <= self.responses.len(),
                all == self.responses@,
                count == ranking::total_requests(all.take(i as int)),
            decreases self.responses.len() - i,
        {
            assert(all.take(i + 1).drop_last() == all.take(i as int));
            match count.checked_add(self.responses[i].requests) {
                Some(sum) => {
                    count = sum;
                },
                None => {
                    proof {
                        ranking::lemma_total_requests(all, i + 1);
                    }
                    return None;
                },
            }
            i += 1;
        }
        assert(all.take(i as int) == all);
        Some(count)
    }

    /// Ends a run that is over, and does so atomically: an interrupt or a failed request
    /// leaves no ranking at all, so failed requests never become results without a
    /// score, and a ranking has an answer to every request.
    pub fn finish(self, cancelled: bool) -> (result: Result<Ranking, RankError>)
        requires
            self@.is_over(cancelled),
            ranking::total_requests(self@.responses) <= usize::MAX,
        ensures
            match result {
                Ok(merged) => {
                    &&& !cancelled && self@.failure is None && self@.is_complete()
                    &&& ranking::is_merged(merged, self@.responses)
                },
                Err(error) => if cancelled {
                    error@ is Interrupted
                } else {
                    self@.failure == Some(error)
                },
            },
    {
        ranking::conclude(cancelled, self.failure, self.responses)
    }
}

/// Every answer is kept, in the order of arrival, and of the failures the first; neither
/// changes anything else.
pub proof fn law_answers_and_the_first_failure_are_kept(
    run: RunView,
    events: Seq<RunEvent>,
    response: Ranking,
    cause: RankError,
    cancelled: bool,
)
    ensures
        ({
            let before = replay(run, events);
            let answered = replay(run, events.push(RunEvent::Response(response)));
            let failed = replay(run, events.push(RunEvent::Failure(cause)));
            let taken = replay(run, events.push(RunEvent::Take(cancelled)));
            &&& answered.responses == before.responses.push(response)
            &&& answered.failure == before.failure
            &&& answered.waiting == before.waiting
            &&& failed.failure is Some
            &&& before.failure is None ==> failed.failure == Some(cause)
            &&& before.failure is Some ==> failed.failure == before.failure
            &&& failed.responses == before.responses
            &&& failed.waiting == before.waiting
            &&& taken.responses == before.responses
            &&& taken.failure == before.failure
        }),
{
    assert(events.push(RunEvent::Response(response)).drop_last() =~= events);
    assert(events.push(RunEvent::Failure(cause)).drop_last() =~= events);
    assert(events.push(RunEvent::Take(cancelled)).drop_last() =~= events);
}

/// A worker gets a request exactly if one waits, no request has failed and the user has
/// not interrupted the run; the run is over exactly if every request has its answer, a
/// request has failed or the user has interrupted it.
pub proof fn law_when_a_run_goes_on(run: RunView, cancelled: bool)
    ensures
        run.hands_out(cancelled) <==> !cancelled && run.failure is None && run.waiting.len() != 0,
        run.hands_out(cancelled) ==> run.after_take(cancelled).waiting == run.waiting.skip(1),
        !run.hands_out(cancelled) ==> run.after_take(cancelled) == run,
        run.is_over(cancelled) <==> cancelled || run.failure is Some || (run.waiting.len() == 0
            && run.responses.len() == run.total),
{
    if run.waiting.len() > 0 {
        assert(run.waiting.skip(1) =~= run.waiting.drop_first());
    }
}

} // verus!
