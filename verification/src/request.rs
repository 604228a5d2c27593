//! What must hold before anything is sent, and what a status code calls for.
use vstd::arithmetic::power2::*;
use vstd::prelude::*;
use vstd::string::*;

use crate::binary64;
use crate::jev::{self, Options, RankError};
use crate::text::{self, same, Position};

verus! {

/// The parts of a URL that decide whether it may be used.
pub struct UrlParts {
    pub scheme: String,
    pub host: Option<String>,
}

/// The scheme and the host of a URL, or the words that say why the text is not a URL.
pub uninterp spec fn url_parts(url: Seq<char>) -> Result<
    (Seq<char>, Option<Seq<char>>),
    Seq<char>,
>;

/// The characters of a host.
pub open spec fn host_view(host: Option<String>) -> Option<Seq<char>> {
    match host {
        Some(host) => Some(host@),
        None => None,
    }
}

/// `reqwest::Url::parse`, `Url::scheme` and `Url::host_str`: that the outcome, of a
/// failure the words of the parser, depends on the text alone.
#[verifier::external_body]
fn parse_url(url: &str) -> (parts: Result<UrlParts, String>)
    ensures
        match parts {
            Ok(parts) => url_parts(url@) == Ok::<_, Seq<char>>(
                (parts.scheme@, host_view(parts.host)),
            ),
            Err(cause) => url_parts(url@) == Err::<(Seq<char>, Option<Seq<char>>), _>(cause@),
        },
{
    match reqwest::Url::parse(url) {
        Ok(url) => Ok(
            UrlParts {
                scheme: url.scheme().to_owned(),
                host: url.host_str().map(|host| host.to_owned()),
            },
        ),
        Err(cause) => Err(cause.to_string()),
    }
}

/// Whether a host is this machine.
pub open spec fn is_local(host: Seq<char>) -> bool {
    host == "localhost"@ || host == "127.0.0.1"@ || host == "[::1]"@
}

/// Whether source may be sent to such a URL: by HTTPS, or to this machine.
pub open spec fn is_allowed(scheme: Seq<char>, host: Option<Seq<char>>) -> bool {
    match host {
        Some(host) => scheme == "https"@ || (scheme == "http"@ && is_local(host)),
        None => false,
    }
}

/// Whether source may be sent to such a URL: by HTTPS, or to this machine.
pub fn allowed(parts: &UrlParts) -> (result: bool)
    ensures
        result == is_allowed(parts.scheme@, host_view(parts.host)),
{
    match &parts.host {
        Some(host) => {
            let scheme = parts.scheme.as_str();
            let host = host.as_str();
            same(scheme, "https") || (same(scheme, "http") && (same(host, "localhost") || same(
                host,
                "127.0.0.1",
            ) || same(host, "[::1]")))
        },
        None => false,
    }
}

/// Whether a text can stand in a header: no control bytes but the tab.
pub open spec fn is_header_text(value: Seq<char>) -> bool {
    let bytes = vstd::utf8::encode_utf8(value);
    forall|i: int|
        0 <= i < bytes.len() ==> (#[trigger] bytes[i] >= 32 && bytes[i] != 127) || bytes[i] == 9
}

/// `reqwest::header::HeaderValue::from_str`: that it accepts a text exactly if every
/// byte is a tab or is at least 32 and is not 127.
#[verifier::external_body]
fn fits_header(value: &str) -> (result: bool)
    ensures
        result == is_header_text(value@),
{
    reqwest::header::HeaderValue::from_str(value).is_ok()
}

/// The header value that carries the key.
pub open spec fn bearer(api_key: Seq<char>) -> Seq<char> {
    "Bearer "@ + api_key
}

/// What keeps the requests from being sent at all, if anything.
pub open spec fn refusal(options: Options, api_key: Seq<char>) -> Option<jev::RankFailure> {
    match url_parts(options.api_url@) {
        Err(cause) => Some(jev::RankFailure::ApiUrl(cause)),
        Ok((scheme, host)) => if !is_allowed(scheme, host) {
            Some(jev::RankFailure::Endpoint)
        } else if options.workers == 0 || options.batch_size == 0 {
            Some(jev::RankFailure::Sizes)
        } else if !is_header_text(bearer(api_key)) {
            Some(jev::RankFailure::KeyCharacters)
        } else {
            None
        },
    }
}

/// Checks all that can be checked before anything is sent. The result is the value of
/// the header that carries the key.
pub fn authorize(options: &Options, api_key: &str) -> (authorization: Result<String, RankError>)
    ensures
        match authorization {
            Ok(value) => refusal(*options, api_key@) is None && value@ == bearer(api_key@),
            Err(error) => refusal(*options, api_key@) == Some(error@),
        },
{
    match parse_url(options.api_url.as_str()) {
        Err(cause) => {
            return Err(RankError::ApiUrl(cause));
        },
        Ok(parts) => {
            if !allowed(&parts) {
                return Err(RankError::Endpoint);
            }
        },
    }
    if options.workers == 0 || options.batch_size == 0 {
        return Err(RankError::Sizes);
    }
    let value = "Bearer ".to_owned().concat(api_key);
    if !fits_header(value.as_str()) {
        return Err(RankError::KeyCharacters);
    }
    Ok(value)
}

/// The number of workers: no more than there are requests.
pub fn worker_count(workers: usize, requests: usize) -> (count: usize)
    ensures
        count == (if workers < requests {
            workers
        } else {
            requests
        }),
{
    if workers < requests {
        workers
    } else {
        requests
    }
}

/// Whether a request may go on: not after an interrupt, nor after another request has
/// failed.
pub fn may_proceed(cancelled: bool, failed: bool) -> (result: Result<(), RankError>)
    ensures
        match result {
            Ok(_) => !cancelled && !failed,
            Err(error) => error@ == (if cancelled {
                jev::RankFailure::Interrupted
            } else {
                jev::RankFailure::OtherBatch
            }) && (cancelled || failed),
        },
{
    if crate::check_cancelled(cancelled).is_err() {
        Err(RankError::Interrupted)
    } else if failed {
        Err(RankError::OtherBatch)
    } else {
        Ok(())
    }
}

/// The longest time to sleep between two looks at the flags, in nanoseconds.
pub const NAP: u64 = 50_000_000;

/// One step of a pause.
#[derive(Clone, Copy, Debug, PartialEq, Eq, Structural)]
pub enum Pause {
    /// The pause is over.
    Over,
    /// Sleep for this many nanoseconds.
    Sleep(u64),
}

/// The next step of a pause of which the given number of nanoseconds is left.
pub fn pause_step(remaining: u128, cancelled: bool, failed: bool) -> (step: Result<Pause, RankError>)
    ensures
        match step {
            Ok(Pause::Over) => remaining == 0,
            Ok(Pause::Sleep(nanos)) => {
                &&& remaining > 0 && !cancelled && !failed
                &&& nanos == (if remaining < NAP {
                    remaining as int
                } else {
                    NAP as int
                })
            },
            Err(error) => {
                &&& remaining > 0 && (cancelled || failed)
                &&& error@ == (if cancelled {
                    jev::RankFailure::Interrupted
                } else {
                    jev::RankFailure::OtherBatch
                })
            },
        },
{
    if remaining == 0 {
        return Ok(Pause::Over);
    }
    match may_proceed(cancelled, failed) {
        Err(error) => Err(error),
        Ok(_) => if remaining < NAP as u128 {
            Ok(Pause::Sleep(remaining as u64))
        } else {
            Ok(Pause::Sleep(NAP))
        },
    }
}

/// What the service says of when to try again.
#[derive(Clone, Copy, Debug, PartialEq, Eq, Structural)]
pub enum RetryAfter {
    /// Nothing.
    Absent,
    /// Something that is not a number.
    Unreadable,
    /// A number of seconds, by its bit pattern.
    Seconds(u64),
}

/// What to do after an answer.
#[derive(Debug)]
pub enum Verdict {
    /// Read the answer; so many requests were made for it.
    Accept(usize),
    /// Try again after this many seconds, given by their bit pattern.
    Retry(u64),
    /// Give up.
    Fail(RankError),
}

/// Whether a status says that the request was carried out.
pub open spec fn is_success(status: u16) -> bool {
    200 <= status < 300
}

/// Whether a status says that the service is overloaded. No other failure is tried
/// again: the request may have been charged for.
pub open spec fn is_overload(status: u16) -> bool {
    status == 429 || status == 503 || status == 529
}

/// Twice the pause that the number of attempts calls for, in the unit of
/// [`binary64::value`]: half a second at first, twice as much each time, for ten times.
pub open spec fn backoff_twice(attempt: nat) -> int {
    let power = if attempt < 10 {
        attempt
    } else {
        10
    };
    (pow2(power) * binary64::unit()) as int
}

/// Twice the pause before the next attempt, the longer one of what the number of
/// attempts and what the service calls for; none where the service asks for what is
/// not a number of seconds.
pub open spec fn delay_twice(attempt: nat, retry_after: RetryAfter) -> Option<int> {
    match retry_after {
        RetryAfter::Absent => Some(backoff_twice(attempt)),
        RetryAfter::Unreadable => None,
        RetryAfter::Seconds(bits) => if !binary64::is_nonnegative(bits) {
            None
        } else if 2 * binary64::value(bits) > backoff_twice(attempt) {
            Some(2 * binary64::value(bits))
        } else {
            Some(backoff_twice(attempt))
        },
    }
}

/// Whether a pause is bearable: at most thirty seconds.
pub open spec fn is_bearable(twice: Option<int>) -> bool {
    match twice {
        Some(twice) => twice <= 60 * binary64::unit(),
        None => false,
    }
}

/// The pause before the next attempt.
fn choose_delay(attempt: u32, retry_after: RetryAfter) -> (delay: Option<u64>)
    ensures
        match delay {
            Some(bits) => {
                &&& binary64::is_nonnegative(bits)
                &&& delay_twice(attempt as nat, retry_after) == Some(2 * binary64::value(bits))
            },
            None => delay_twice(attempt as nat, retry_after) is None,
        },
{
    let power: u32 = if attempt < 10 {
        attempt
    } else {
        10
    };
    let backoff = binary64::half_power(power);
    match retry_after {
        RetryAfter::Absent => Some(backoff),
        RetryAfter::Unreadable => None,
        RetryAfter::Seconds(bits) => {
            if !binary64::nonnegative(bits) {
                None
            } else if binary64::position(bits, backoff) == Position::After {
                Some(bits)
            } else {
                Some(backoff)
            }
        },
    }
}

/// Whether an answer calls for another attempt.
pub open spec fn is_retried(
    status: u16,
    attempt: nat,
    retries: nat,
    retry_after: RetryAfter,
) -> bool {
    &&& is_overload(status)
    &&& attempt < retries
    &&& is_bearable(delay_twice(attempt, retry_after))
}

/// What came of a request.
#[derive(Clone, Copy, Debug, PartialEq, Eq, Structural)]
pub enum Reply {
    /// No answer: the service could not be reached, or not in time.
    Unreachable,
    /// An answer with this status.
    Answer { status: u16, retry_after: RetryAfter },
}

/// What is to be done after the attempt with this number, counted from zero: an answer
/// of success is read, an overload is waited out as long as that is bearable and
/// repetitions are left, and all else fails. A request that was not answered is not
/// repeated: it may have been charged for.
pub open spec fn is_verdict(verdict: Verdict, reply: Reply, attempt: nat, retries: nat) -> bool {
    match reply {
        Reply::Unreachable => verdict matches Verdict::Fail(error) && error@ is Connection,
        Reply::Answer { status, retry_after } => {
            let again = is_retried(status, attempt, retries, retry_after);
            match verdict {
                Verdict::Accept(requests) => is_success(status) && requests == attempt + 1,
                Verdict::Retry(delay) => {
                    &&& again
                    &&& binary64::is_nonnegative(delay)
                    &&& delay_twice(attempt, retry_after) == Some(2 * binary64::value(delay))
                },
                Verdict::Fail(error) => {
                    &&& !is_success(status) && !again
                    &&& error@ == if is_overload(status) && attempt < retries {
                        jev::RankFailure::RetryLater
                    } else {
                        jev::RankFailure::Http(status)
                    }
                },
            }
        },
    }
}

/// What to do after the attempt with this number, counted from zero.
pub fn judge(reply: Reply, attempt: u32, retries: u32) -> (verdict: Verdict)
    requires
        attempt < usize::MAX,
    ensures
        is_verdict(verdict, reply, attempt as nat, retries as nat),
{
    let (status, retry_after) = match reply {
        Reply::Unreachable => {
            return Verdict::Fail(RankError::Connection);
        },
        Reply::Answer { status, retry_after } => (status, retry_after),
    };
    if 200 <= status && status < 300 {
        return Verdict::Accept(attempt as usize + 1);
    }
    if (status == 429 || status == 503 || status == 529) && attempt < retries {
        proof {
            binary64::lemma_constants();
            lemma_pow2_pos(1074);
        }
        match choose_delay(attempt, retry_after) {
            None => {
                return Verdict::Fail(RankError::RetryLater);
            },
            Some(delay) => {
                if binary64::position(delay, binary64::THIRTY) == Position::After {
                    return Verdict::Fail(RankError::RetryLater);
                }
                return Verdict::Retry(delay);
            },
        }
    }
    Verdict::Fail(RankError::Http(status))
}

/// The attempts at one request.
pub struct Evaluation {
    attempt: u32,
    retries: u32,
}

impl Evaluation {
    #[verifier::type_invariant]
    spec fn valid(self) -> bool {
        self.attempt <= self.retries
    }

    /// The number of the attempt that is being made, counted from zero.
    pub closed spec fn attempt(self) -> nat {
        self.attempt as nat
    }

    /// How often the request may be repeated.
    pub closed spec fn retries(self) -> nat {
        self.retries as nat
    }

    /// The first attempt at a request that may be repeated so many times.
    pub fn new(retries: u32) -> (evaluation: Evaluation)
        ensures
            evaluation.attempt() == 0,
            evaluation.retries() == retries,
    {
        Evaluation { attempt: 0, retries }
    }

    /// Whether the requests so far can be counted.
    pub fn is_countable(&self) -> (result: bool)
        ensures
            result == (self.attempt() < usize::MAX),
    {
        (self.attempt as u64) < usize::MAX as u64
    }

    /// What to do after the attempt; if it is to be repeated, the next one begins.
    pub fn judge(&mut self, reply: Reply) -> (verdict: Verdict)
        requires
            old(self).attempt() < usize::MAX,
        ensures
            is_verdict(verdict, reply, old(self).attempt(), old(self).retries()),
            final(self).retries() == old(self).retries(),
            final(self).attempt() == old(self).attempt() + if verdict is Retry {
                1int
            } else {
                0
            },
            final(self).attempt() <= final(self).retries(),
    {
        proof {
            use_type_invariant(&*self);
        }
        let verdict = judge(reply, self.attempt, self.retries);
        if let Verdict::Retry(_) = &verdict {
            self.attempt = self.attempt + 1;
        }
        verdict
    }
}

/// Source leaves this machine by HTTPS only: where nothing is refused, the address is
/// HTTPS, or HTTP to this machine.
pub proof fn law_source_leaves_by_https_only(options: Options, api_key: Seq<char>)
    requires
        refusal(options, api_key) is None,
    ensures
        match url_parts(options.api_url@) {
            Ok((scheme, Some(host))) => scheme == "https"@ || (scheme == "http"@ && is_local(
                host,
            )),
            _ => false,
        },
{
}

/// Whether the verdicts follow from the replies, each of them but the last a call for
/// another attempt.
pub open spec fn is_history(replies: Seq<Reply>, verdicts: Seq<Verdict>, retries: nat) -> bool {
    &&& replies.len() == verdicts.len()
    &&& forall|i: int|
        0 <= i < replies.len() ==> is_verdict(
            #[trigger] verdicts[i],
            replies[i],
            i as nat,
            retries,
        )
    &&& forall|i: int| 0 <= i < replies.len() - 1 ==> (#[trigger] verdicts[i]) is Retry
}

/// The number of pauses that are bearable: the one after it would be longer than thirty
/// seconds by itself.
pub const MAX_PAUSES: u32 = 6;

/// From the seventh attempt on no pause is bearable.
proof fn lemma_pauses_grow(attempt: nat, retry_after: RetryAfter)
    requires
        is_bearable(delay_twice(attempt, retry_after)),
    ensures
        attempt < MAX_PAUSES,
{
    if attempt >= MAX_PAUSES {
        let power = if attempt < 10 {
            attempt
        } else {
            10
        };
        let unit = binary64::unit() as int;
        let factor = pow2(power) as int;
        lemma2_to64();
        lemma_pow2_pos(1074);
        if power > MAX_PAUSES {
            lemma_pow2_strictly_increases(MAX_PAUSES as nat, power);
        }
        assert(factor * unit > 60 * unit) by (nonlinear_arith)
            requires
                factor >= 64,
                unit > 0,
        ;
    }
}

/// A request is sent once and then at most `retries` times more, and at most
/// [`MAX_PAUSES`] times, only after overloads, and the number of requests that is
/// reported in the end is the number that was sent.
pub proof fn law_attempts_are_bounded_and_counted(
    replies: Seq<Reply>,
    verdicts: Seq<Verdict>,
    retries: nat,
)
    requires
        is_history(replies, verdicts, retries),
    ensures
        replies.len() <= retries + 1,
        replies.len() <= MAX_PAUSES + 1,
        forall|i: int|
            0 <= i < replies.len() - 1 ==> ((#[trigger] replies[i]) matches Reply::Answer {
                status,
                ..
            } && is_overload(status)),
        replies.len() > 0 ==> (verdicts.last() matches Verdict::Accept(requests) ==> requests
            == replies.len()),
{
    assert forall|i: int| 0 <= i < replies.len() - 1 implies ((
    #[trigger] replies[i]) matches Reply::Answer { status, .. } && is_overload(status)) by {
        assert(verdicts[i] is Retry);
    }
    if replies.len() > 1 {
        let i = replies.len() - 2;
        assert(verdicts[i] is Retry);
        if let Reply::Answer { status, retry_after } = replies[i] {
            lemma_pauses_grow(i as nat, retry_after);
        }
    }
    if replies.len() > 0 {
        assert(is_verdict(
            verdicts[replies.len() - 1],
            replies[replies.len() - 1],
            (replies.len() - 1) as nat,
            retries,
        ));
    }
}

/// A pause is never longer than thirty seconds, nor shorter than the service asks for.
pub proof fn law_pauses_are_bearable(verdict: Verdict, reply: Reply, attempt: nat, retries: nat)
    requires
        is_verdict(verdict, reply, attempt, retries),
        verdict is Retry,
    ensures
        binary64::value(verdict->Retry_0) <= 30 * binary64::unit(),
        match reply {
            Reply::Answer { retry_after: RetryAfter::Seconds(bits), .. } => binary64::value(bits)
                <= binary64::value(verdict->Retry_0),
            _ => true,
        },
{
}

/// Which addresses are allowed: those with a host that use HTTPS, and HTTP on this
/// machine, by one of its three names.
pub proof fn law_allowed_addresses(scheme: Seq<char>, host: Option<Seq<char>>)
    ensures
        is_allowed(scheme, host) <==> (host matches Some(host) && (scheme == "https"@ || (scheme
            == "http"@ && (host == "localhost"@ || host == "127.0.0.1"@ || host
            == "[::1]"@)))),
{
}

/// What keeps requests from being sent, the first reason of these: the address is no
/// URL, or is not allowed; there would be no worker or no candidate in a request; the
/// key does not fit into the header. Nothing else does.
pub proof fn law_what_keeps_requests_from_being_sent(options: Options, api_key: Seq<char>)
    ensures
        match url_parts(options.api_url@) {
            Err(words) => refusal(options, api_key) == Some(jev::RankFailure::ApiUrl(words)),
            Ok((scheme, host)) => {
                let safe = is_allowed(scheme, host);
                let sized = options.workers > 0 && options.batch_size > 0;
                let fits = is_header_text("Bearer "@ + api_key);
                &&& !safe ==> refusal(options, api_key) == Some(jev::RankFailure::Endpoint)
                &&& safe && !sized ==> refusal(options, api_key) == Some(
                    jev::RankFailure::Sizes,
                )
                &&& safe && sized && !fits ==> refusal(options, api_key) == Some(
                    jev::RankFailure::KeyCharacters,
                )
                &&& safe && sized && fits ==> refusal(options, api_key) is None
            },
        },
        bearer(api_key) == "Bearer "@ + api_key,
{
}

/// The pause that an attempt calls for by itself, in the unit of [`binary64::value`],
/// doubled: one second, then twice as much for each attempt, for ten attempts.
pub open spec fn doubled(attempt: nat) -> int {
    (pow2(if attempt < 10 {
        attempt
    } else {
        10
    }) * binary64::unit()) as int
}

/// What comes of an answer, by its status: 200 to 299 is success, after as many requests
/// as attempts were made; 429, 503 and 529 are waited out, as long as repetitions are
/// left and the service does not ask for what is no time or for more than thirty
/// seconds; anything else fails with the status.
pub proof fn law_what_comes_of_an_answer(
    verdict: Verdict,
    status: u16,
    retry_after: RetryAfter,
    attempt: nat,
    retries: nat,
)
    requires
        is_verdict(verdict, Reply::Answer { status, retry_after }, attempt, retries),
    ensures
        200 <= status <= 299 ==> (verdict matches Verdict::Accept(requests) && requests == attempt
            + 1),
        !(200 <= status <= 299) && !((status == 429 || status == 503 || status == 529) && attempt
            < retries) ==> (verdict matches Verdict::Fail(error) && error@
            == jev::RankFailure::Http(status)),
        (status == 429 || status == 503 || status == 529) && attempt < retries ==> {
            let time = match retry_after {
                RetryAfter::Absent => Some(doubled(attempt)),
                RetryAfter::Unreadable => None,
                RetryAfter::Seconds(bits) => if binary64::is_finite(bits) && binary64::value(bits)
                    >= 0 {
                    Some(
                        if doubled(attempt) >= 2 * binary64::value(bits) {
                            doubled(attempt)
                        } else {
                            2 * binary64::value(bits)
                        },
                    )
                } else {
                    None
                },
            };
            match time {
                Some(time) if time <= 60 * binary64::unit() => verdict matches Verdict::Retry(
                    delay,
                ) && 2 * binary64::value(delay) == time && binary64::is_finite(delay),
                _ => verdict matches Verdict::Fail(error) && error@ is RetryLater,
            }
        },
{
}

/// A request that was not answered is not repeated.
pub proof fn law_no_answer_is_a_failure(verdict: Verdict, attempt: nat, retries: nat)
    requires
        is_verdict(verdict, Reply::Unreachable, attempt, retries),
    ensures
        verdict matches Verdict::Fail(error) && error@ is Connection,
{
}

/// A host is the host that it names.
pub proof fn law_hosts(host: String)
    ensures
        host_view(Some(host)) == Some(host@),
        host_view(None) is None,
{
}

/// Requests go to the service by HTTPS unless the user says otherwise.
pub proof fn law_default_address()
    ensures
        jev::DEFAULT_API_URL@ == "https://api.typesafe.ai/v1/systemone"@,
{
}

} // verus!
