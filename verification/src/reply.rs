//! Reading the answer of the service.
use vstd::prelude::*;
use vstd::string::*;

use crate::binary64::{self, Score};
use crate::jev::{self, RankError, RankedCandidate, Ranking};
use crate::json;
use crate::search::{self, Candidate};
use serde_json::Value;

verus! {

/// The field of an object.
pub open spec fn field(value: json::Json, name: Seq<char>) -> Option<json::Json> {
    match value {
        json::Json::Object(fields) => if fields.contains_key(name) {
            Some(fields[name])
        } else {
            None
        },
        _ => None,
    }
}

/// The field of a field of an object.
pub open spec fn inner_field(value: json::Json, outer: Seq<char>, name: Seq<char>) -> Option<
    json::Json,
> {
    match field(value, outer) {
        Some(inner) => field(inner, name),
        None => None,
    }
}

/// The bit pattern of the probability that a JSON number stands for: a number from
/// zero to one, both included, and nothing else.
pub open spec fn probability(value: json::Json) -> Option<u64> {
    match value {
        json::Json::Float(bits) => if binary64::is_probability(bits) {
            Some(bits)
        } else {
            None
        },
        json::Json::Unsigned(number) => if number == 0 {
            Some(0)
        } else if number == 1 {
            Some(binary64::ONE)
        } else {
            None
        },
        _ => None,
    }
}

/// The judgement of a candidate: an answer under its name, of the type that was asked
/// for, with a probability.
pub open spec fn judgement(answers: json::Json, index: nat) -> Option<u64> {
    let name = jev::candidate_name(index);
    if inner_field(answers, name, "type"@) == Some(json::Json::Text("noul"@)) {
        match inner_field(answers, name, "noul"@) {
            Some(value) => probability(value),
            None => None,
        }
    } else {
        None
    }
}

/// The object that holds the answers.
pub open spec fn answers_of(data: json::Json) -> Option<json::Json> {
    match field(data, "answers"@) {
        Some(json::Json::Object(answers)) => Some(json::Json::Object(answers)),
        _ => None,
    }
}

/// The number of tokens that the service counted, if it says so.
pub open spec fn tokens_of(data: json::Json) -> Option<u64> {
    match inner_field(data, "usage"@, "input_tokens"@) {
        Some(json::Json::Unsigned(count)) => Some(count),
        _ => None,
    }
}

/// The model that answered.
pub open spec fn model_of(data: json::Json) -> Seq<char> {
    match field(data, "model"@) {
        Some(json::Json::Text(model)) => model,
        _ => "unknown"@,
    }
}

/// Whether a ranking is what the answer says of the candidates, each in its place.
pub open spec fn is_reading(
    ranking: Ranking,
    data: json::Json,
    candidates: Seq<search::CandidateView>,
    requests: usize,
) -> bool {
    &&& answers_of(data) is Some
    &&& ranking.results@.len() == candidates.len()
    &&& forall|i: int|
        0 <= i < candidates.len() ==> {
            &&& (#[trigger] ranking.results@[i])@.candidate == candidates[i]
            &&& ranking.results@[i]@.relevance is Some
            &&& ranking.results@[i]@.relevance == judgement(answers_of(data)->0, i as nat)
        }
    &&& ranking.requests == requests
    &&& ranking.input_tokens == tokens_of(data)
    &&& ranking.models@.len() == 1
    &&& ranking.models@[0]@ == model_of(data)
}

/// Why an answer cannot be read: it has no answers, or the candidate at a place, and
/// none before it, has no judgement.
pub open spec fn is_misreading(
    failure: jev::RankFailure,
    data: json::Json,
    candidates: Seq<search::CandidateView>,
) -> bool {
    match answers_of(data) {
        None => failure is Answers,
        Some(answers) => {
            &&& failure matches jev::RankFailure::Noul(index)
            &&& index < candidates.len()
            &&& judgement(answers, index) is None
            &&& forall|k: nat| k < index ==> (#[trigger] judgement(answers, k)) is Some
        },
    }
}

/// Only a finite number from zero to one becomes a score.
pub proof fn law_judgements_are_probabilities(answers: json::Json, index: nat)
    ensures
        judgement(answers, index) matches Some(bits) ==> binary64::is_probability(bits),
{
    lemma_integers();
}

/// The judgement of the candidate at a place.
fn read_judgement(answers: &Value, index: usize) -> (score: Option<Score>)
    ensures
        match score {
            Some(score) => judgement(json::json_of(*answers), index as nat) == Some(
                score.pattern(),
            ),
            None => judgement(json::json_of(*answers), index as nat) is None,
        },
{
    let name = jev::candidate_key(index);
    let answer = match json::get(answers, name.as_str()) {
        Some(answer) => answer,
        None => {
            return None;
        },
    };
    let asked = match json::get(answer, "type") {
        Some(kind) => match json::as_str(kind) {
            Some(kind) => crate::text::same(kind, "noul"),
            None => false,
        },
        None => false,
    };
    if !asked {
        return None;
    }
    let value = match json::get(answer, "noul") {
        Some(value) => value,
        None => {
            return None;
        },
    };
    proof {
        lemma_integers();
    }
    match json::as_float(value) {
        Some(bits) => Score::new(bits),
        None => None,
    }
}

/// Which integers are probabilities.
proof fn lemma_integers()
    ensures
        binary64::is_probability(0),
        binary64::is_probability(binary64::ONE),
        forall|bits: u64|
            binary64::ONE < bits < binary64::INFINITY ==> !#[trigger] binary64::is_probability(bits),
        forall|bits: u64|
            bits >= 0xbff0_0000_0000_0000u64 ==> !#[trigger] binary64::is_probability(bits),
{
    binary64::lemma_constants();
    vstd::arithmetic::power2::lemma_pow2_pos(1074);
    assert forall|bits: u64| binary64::ONE < bits < binary64::INFINITY implies !#[trigger] binary64::is_probability(
        bits,
    ) by {
        binary64::lemma_order(binary64::ONE, bits);
    }
    assert forall|bits: u64| bits >= 0xbff0_0000_0000_0000u64 implies !#[trigger] binary64::is_probability(
        bits,
    ) by {
        if binary64::is_finite(bits) {
            binary64::lemma_order(0, binary64::unsigned(bits));
        }
    }
}

/// Reads an answer. Every candidate must have a judgement; an answer that lacks one
/// fails as a whole.
pub fn parse_response(data: Value, candidates: Vec<Candidate>, requests: usize) -> (result: Result<
    Ranking,
    RankError,
>)
    ensures
        ({
            let views = search::candidate_views(candidates@);
            match result {
                Ok(ranking) => is_reading(ranking, json::json_of(data), views, requests),
                Err(error) => is_misreading(error@, json::json_of(data), views),
            }
        }),
{
    let ghost model = json::json_of(data);
    let ghost views = search::candidate_views(candidates@);
    let answers = match json::get(&data, "answers") {
        Some(answers) => answers,
        None => {
            return Err(RankError::Answers);
        },
    };
    if !json::is_object(answers) {
        return Err(RankError::Answers);
    }
    let mut results: Vec<RankedCandidate> = Vec::new();
    let mut index: usize = 0;
    let total = candidates.len();
    for candidate in iter: candidates
        invariant
            views == search::candidate_views(iter.seq()),
            index == iter.index(),
            iter.seq().len() == total,
            views == search::candidate_views(candidates@),
            model == json::json_of(data),
            answers_of(model) == Some(json::json_of(*answers)),
            results@.len() == index,
            forall|k: nat|
                k < index ==> (#[trigger] judgement(json::json_of(*answers), k)) is Some,
            forall|i: int|
                0 <= i < index ==> {
                    &&& (#[trigger] results@[i])@.candidate == views[i]
                    &&& results@[i]@.relevance is Some
                    &&& results@[i]@.relevance == judgement(json::json_of(*answers), i as nat)
                },
    {
        assert(views[index as int] == candidate@);
        match read_judgement(answers, index) {
            None => {
                return Err(RankError::Noul(index));
            },
            Some(score) => {
                results.push(RankedCandidate { candidate, relevance: Some(score) });
            },
        }
        index += 1;
    }
    let input_tokens = match json::get(&data, "usage") {
        Some(usage) => match json::get(usage, "input_tokens") {
            Some(count) => json::as_unsigned(count),
            None => None,
        },
        None => None,
    };
    let name = match json::get(&data, "model") {
        Some(name) => match json::as_str(name) {
            Some(name) => name.to_owned(),
            None => "unknown".to_owned(),
        },
        None => "unknown".to_owned(),
    };
    let mut models: Vec<String> = Vec::new();
    models.push(name);
    Ok(Ranking { results, requests, input_tokens, models })
}

/// Reads the body of a successful answer.
pub fn read_reply(body: &Vec<u8>, candidates: Vec<Candidate>, requests: usize) -> (result: Result<
    Ranking,
    RankError,
>)
    ensures
        ({
            let views = search::candidate_views(candidates@);
            match (json::parsed(body@), result) {
                (None, Err(error)) => error@ is ReplyJson,
                (Some(data), Ok(ranking)) => is_reading(ranking, data, views, requests),
                (Some(data), Err(error)) => is_misreading(error@, data, views),
                (None, Ok(_)) => false,
            }
        }),
{
    match json::parse(body) {
        Err(_) => Err(RankError::ReplyJson),
        Ok(data) => parse_response(data, candidates, requests),
    }
}

} // verus!
