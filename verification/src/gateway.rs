//! The course of a request through the proxy.

use axum::http::HeaderMap;
use vstd::prelude::*;
use vstd::string::*;

use crate::allowlist;
use crate::client_ip;
use crate::clock;
use crate::clock::UtcTime;
use crate::crypto;
use crate::encoding;
use crate::headers;
use crate::ip;
use crate::ip::IpAddr;
use crate::records::AgentRecord;
use crate::records::AgentState;
use crate::state;
use crate::state::AppState;
use crate::state::StateModel;
use crate::sync;
use crate::tables;
use crate::text;
use crate::validate;
use crate::validate::EnrollRequest;
use crate::validate::SignedFields;
use crate::web;
use crate::web::Method;
use crate::web::Reply;
use crate::web::StatusCode;

verus! {

/// A request as far as it is looked at before its credentials are.
pub struct RequestHead {
    pub method: Method,
    pub path: String,
    /// The agents' protocol says that the path is that of a release artifact.
    pub release_artifact: bool,
    pub body_len: usize,
}

/// How the screening of a request ends.
#[derive(Clone, Copy, PartialEq, Eq, Structural, Debug)]
pub enum Screening {
    NotFound,
    NotReady,
    RateLimited,
    TooLarge,
    /// The request goes on; `enroll` tells that it is an enrollment.
    Pass { enroll: bool },
}

/// The notation of the address to which the request is ascribed.
pub open spec fn client_text(state: StateModel, peer: IpAddr, h: headers::Headers) -> Seq<char> {
    ip::ip_text(client_ip::client_address(peer, h, state.config.trusted_proxy_cidrs))
}

/// The request reaches the counter of its client: its route is exposed, and the
/// proxy is ready.
pub open spec fn is_counted(state: StateModel, request: RequestHead) -> bool {
    allowlist::is_allowed(request.method, request.path@, request.release_artifact)
        && state.forwarding
}

/// How the screening of a request ends, at the time `now`. A route that is not
/// exposed does not exist; a proxy that is not ready says so before it counts
/// the request; and the size of the body is looked at last.
pub open spec fn screening_of(
    state: StateModel,
    client: Seq<char>,
    request: RequestHead,
    max_file_bytes: usize,
    now: u64,
) -> Screening {
    let enroll = allowlist::is_enroll(request.method, request.path@);
    if !allowlist::is_allowed(request.method, request.path@, request.release_artifact) {
        Screening::NotFound
    } else if !state.forwarding {
        Screening::NotReady
    } else if !state::within_limit(state.rates, now, client, enroll) {
        Screening::RateLimited
    } else if request.body_len > allowlist::body_limit(
        request.method,
        request.path@,
        max_file_bytes,
    ) {
        Screening::TooLarge
    } else {
        Screening::Pass { enroll }
    }
}

/// The state after the screening of a request.
pub open spec fn after_screening(
    state: StateModel,
    client: Seq<char>,
    request: RequestHead,
    now: u64,
) -> StateModel {
    if is_counted(state, request) {
        StateModel {
            rates: state::after_request(
                state.rates,
                now,
                client,
                allowlist::is_enroll(request.method, request.path@),
            ),
            ..state
        }
    } else {
        state
    }
}

/// Screens a request at the time `now`: is its route exposed, is the proxy
/// ready, is the client within its limit, and is the body small enough?
/// `max_file_bytes` is the size of files that the agents' protocol allows.
pub fn screen_request_at(
    state: &mut AppState,
    peer: &IpAddr,
    request: &RequestHead,
    h: &HeaderMap,
    max_file_bytes: usize,
    now: u64,
) -> (r: Screening)
    ensures
        ({
            let client = client_text(old(state).model(), *peer, headers::header_contents(*h));
            &&& r == screening_of(old(state).model(), client, *request, max_file_bytes, now)
            &&& final(state).model() == after_screening(old(state).model(), client, *request, now)
        }),
{
    if !allowlist::is_allowed_agent_route(
        &request.method,
        request.path.as_str(),
        request.release_artifact,
    ) {
        return Screening::NotFound;
    }
    if !state.forwarding_enabled() {
        return Screening::NotReady;
    }
    let client = client_ip::resolve_client_ip(
        peer,
        h,
        state.config.trusted_proxy_cidrs.as_slice(),
    );
    let enroll = allowlist::is_enroll_route(&request.method, request.path.as_str());
    if !state.check_rate_limit_at(now, client.as_str(), enroll) {
        return Screening::RateLimited;
    }
    let limit = allowlist::max_body_bytes(&request.method, request.path.as_str(), max_file_bytes);
    if request.body_len > limit {
        return Screening::TooLarge;
    }
    Screening::Pass { enroll }
}

/// Screens a request.
pub fn screen_request(
    state: &mut AppState,
    peer: &IpAddr,
    request: &RequestHead,
    h: &HeaderMap,
    max_file_bytes: usize,
) -> (r: Screening)
    ensures
        exists|now: u64|
            r == screening_of(
                old(state).model(),
                client_text(old(state).model(), *peer, headers::header_contents(*h)),
                *request,
                max_file_bytes,
                now,
            ) && final(state).model() == #[trigger] after_screening(
                old(state).model(),
                client_text(old(state).model(), *peer, headers::header_contents(*h)),
                *request,
                now,
            ),
{
    let now = clock::nanos_since(&state.started_at);
    screen_request_at(state, peer, request, h, max_file_bytes, now)
}

/// What a request that does not pass the screening is answered.
pub open spec fn is_screening_reply(screening: Screening, r: Option<Reply>) -> bool {
    match screening {
        Screening::NotFound => r matches Some(a) && a.says(StatusCode::NotFound, "not found"@),
        Screening::NotReady => r matches Some(a) && a.says(
            StatusCode::ServiceUnavailable,
            "proxy not ready (awaiting enrollment/approval or sync)"@,
        ),
        Screening::RateLimited => r matches Some(a) && a.says(
            StatusCode::TooManyRequests,
            "rate limited"@,
        ),
        Screening::TooLarge => r matches Some(a) && a.says(
            StatusCode::PayloadTooLarge,
            "body too large"@,
        ),
        Screening::Pass { enroll } => r is None,
    }
}

/// What a request that does not pass the screening is answered.
pub fn screening_reply(screening: Screening) -> (r: Option<Reply>)
    ensures
        is_screening_reply(screening, r),
{
    match screening {
        Screening::NotFound => Some(Reply::new(StatusCode::NotFound, "not found")),
        Screening::NotReady => Some(
            Reply::new(
                StatusCode::ServiceUnavailable,
                "proxy not ready (awaiting enrollment/approval or sync)",
            ),
        ),
        Screening::RateLimited => Some(Reply::new(StatusCode::TooManyRequests, "rate limited")),
        Screening::TooLarge => Some(Reply::new(StatusCode::PayloadTooLarge, "body too large")),
        Screening::Pass { enroll } => None,
    }
}

/// What goes with a status when a request is refused.
pub open spec fn message_of(status: StatusCode) -> Seq<char> {
    match status {
        StatusCode::Unauthorized => "unauthorized"@,
        StatusCode::Forbidden => "forbidden"@,
        StatusCode::BadRequest => "bad request"@,
        StatusCode::PayloadTooLarge => "body too large"@,
        _ => "rejected"@,
    }
}

/// What goes with a status when a request is refused.
pub fn status_message(status: StatusCode) -> (r: &'static str)
    ensures
        r@ == message_of(status),
{
    match status {
        StatusCode::Unauthorized => "unauthorized",
        StatusCode::Forbidden => "forbidden",
        StatusCode::BadRequest => "bad request",
        StatusCode::PayloadTooLarge => "body too large",
        _ => "rejected",
    }
}

/// What a request with bad credentials is answered.
pub fn refusal(status: StatusCode) -> (r: Reply)
    ensures
        r.says(status, message_of(status)),
{
    Reply::new(status, status_message(status))
}

/// What a request brings along to be let through: an enrollment what its body
/// says, if it is well formed, and any other request what its headers say and
/// the text that is signed, if the headers are there.
pub enum Credentials {
    Enroll(Option<EnrollRequest>),
    Signed(SignedFields, Vec<u8>),
    Missing,
}

/// The verdict on the credentials of a request: those of an enrollment are
/// checked against the announced tokens, those of any other request against the
/// keys of the agents, and credentials of the wrong kind count for nothing.
pub open spec fn credentials_verdict(
    state: StateModel,
    enroll: bool,
    credentials: Credentials,
    now: UtcTime,
    elapsed: u64,
) -> Result<(), StatusCode> {
    match credentials {
        Credentials::Enroll(request) if enroll => validate::enroll_verdict(state, request, now),
        Credentials::Signed(fields, canonical) if !enroll => validate::signed_verdict(
            state,
            fields@,
            canonical@,
            now,
            elapsed,
        ),
        _ => Err(StatusCode::Unauthorized),
    }
}

/// The state after the credentials of a request were checked.
pub open spec fn after_credentials(
    state: StateModel,
    enroll: bool,
    credentials: Credentials,
    now: UtcTime,
    elapsed: u64,
) -> StateModel {
    match credentials {
        Credentials::Signed(fields, canonical) if !enroll => validate::after_signed(
            state,
            fields@,
            canonical@,
            now,
            elapsed,
        ),
        _ => state,
    }
}

/// The answer to a request with this verdict; none where it goes on.
pub open spec fn is_verdict_reply(verdict: Result<(), StatusCode>, r: Option<Reply>) -> bool {
    match verdict {
        Ok(_) => r is None,
        Err(status) => r matches Some(a) && a.says(status, message_of(status)),
    }
}

/// Checks the credentials of a request that has passed the screening, at the
/// moment `now` and `elapsed` nanoseconds after the start. The result is the
/// answer to a request that goes no further.
pub fn authorize_at(
    state: &mut AppState,
    enroll: bool,
    credentials: &Credentials,
    now: &UtcTime,
    elapsed: u64,
) -> (r: Option<Reply>)
    ensures
        is_verdict_reply(
            credentials_verdict(old(state).model(), enroll, *credentials, *now, elapsed),
            r,
        ),
        final(state).model() == after_credentials(
            old(state).model(),
            enroll,
            *credentials,
            *now,
            elapsed,
        ),
{
    let verdict = match credentials {
        Credentials::Enroll(request) => {
            if enroll {
                validate::precheck_enroll_at(state, request, now)
            } else {
                Err(StatusCode::Unauthorized)
            }
        },
        Credentials::Signed(fields, canonical) => {
            if enroll {
                Err(StatusCode::Unauthorized)
            } else {
                validate::verify_signed_agent_request_at(
                    state,
                    fields,
                    canonical.as_slice(),
                    now,
                    elapsed,
                )
            }
        },
        Credentials::Missing => Err(StatusCode::Unauthorized),
    };
    match verdict {
        Ok(_) => None,
        Err(status) => Some(refusal(status)),
    }
}

/// Checks the credentials of a request that has passed the screening. The
/// result is the answer to a request that goes no further.
pub fn authorize(state: &mut AppState, enroll: bool, credentials: &Credentials) -> (r: Option<
    Reply,
>)
    ensures
        exists|now: UtcTime, elapsed: u64|
            is_verdict_reply(
                credentials_verdict(old(state).model(), enroll, *credentials, now, elapsed),
                r,
            ) && final(state).model() == #[trigger] after_credentials(
                old(state).model(),
                enroll,
                *credentials,
                now,
                elapsed,
            ),
{
    let now = clock::utc_now();
    let elapsed = state.nonces.elapsed();
    authorize_at(state, enroll, credentials, &now, elapsed)
}

/// What a request is answered that the server could not be reached for.
pub fn upstream_failure() -> (r: Reply)
    ensures
        r.says(StatusCode::BadGateway, "upstream error"@),
{
    Reply::new(StatusCode::BadGateway, "upstream error")
}

/// What a request is answered that has waited for the fill of an artifact in
/// vain.
pub fn fill_in_progress() -> (r: Reply)
    ensures
        r.status == StatusCode::ServiceUnavailable,
        r.retry_after == Some(30u64),
        r.message@ == "artifact fill in progress"@,
{
    Reply {
        status: StatusCode::ServiceUnavailable,
        retry_after: Some(30),
        message: "artifact fill in progress".to_owned(),
    }
}

/// What a request is answered for an artifact that the server confirms and the
/// cache does not have.
pub fn blob_missing() -> (r: Reply)
    ensures
        r.says(StatusCode::ServiceUnavailable, "cached blob missing"@),
{
    Reply::new(StatusCode::ServiceUnavailable, "cached blob missing")
}

// ---------------------------------------------------------------------------
// After an enrollment
// ---------------------------------------------------------------------------

/// What the server answers to the enrollment of an agent.
#[derive(Clone, Copy, PartialEq, Eq, Structural, Debug)]
pub struct EnrollResponse {
    pub agent_id: u128,
    pub state: AgentState,
}

/// The state once the server has answered an enrollment: where it succeeded the
/// agent is known under the key that it sent, and the token is spent. What the
/// bodies say is `request` and `response`; none where they are not well formed.
pub open spec fn after_enroll(
    state: StateModel,
    status: u16,
    request: Option<EnrollRequest>,
    response: Option<EnrollResponse>,
) -> StateModel {
    if web::is_success(status) && request is Some {
        StateModel {
            agents: match response {
                Some(a) => state.agents.insert(
                    a.agent_id,
                    AgentRecord {
                        credential_pubkey: text::trim(request->0.public_key@),
                        credential_pubkey_previous: None,
                        credential_pubkey_previous_expires_at: None,
                        state: a.state,
                    },
                ),
                None => state.agents,
            },
            tokens: state.tokens.remove(
                crypto::token_hmac(
                    state.config.api_key_pepper,
                    request->0.enrollment_token@,
                ),
            ),
            ..state
        }
    } else {
        state
    }
}

/// Takes in what the server has answered to an enrollment.
pub fn finish_enroll(
    state: &mut AppState,
    status: u16,
    request: &Option<EnrollRequest>,
    response: &Option<EnrollResponse>,
)
    ensures
        final(state).model() == after_enroll(old(state).model(), status, *request, *response),
{
    if !(200 <= status && status < 300) {
        return;
    }
    match request {
        Some(q) => {
            match response {
                Some(a) => {
                    state.upsert_agent_from_enroll(a.agent_id, q.public_key.as_str(), a.state);
                },
                None => {},
            }
            let token_hmac = crypto::hmac_sha256_hex(
                state.config.api_key_pepper.as_str(),
                q.enrollment_token.as_str(),
            );
            tables::tokens_remove(&mut state.enrollment_tokens, token_hmac.as_str());
        },
        None => {},
    }
}

// ---------------------------------------------------------------------------
// What the course promises
// ---------------------------------------------------------------------------

/// A proxy that is not ready lets nothing through, and what it turns away uses
/// up no quota of the client.
pub proof fn lemma_not_ready_costs_nothing(
    state: StateModel,
    client: Seq<char>,
    request: RequestHead,
    max_file_bytes: usize,
    now: u64,
)
    requires
        !state.forwarding,
    ensures
        screening_of(state, client, request, max_file_bytes, now) == Screening::NotFound
            || screening_of(state, client, request, max_file_bytes, now) == Screening::NotReady,
        after_screening(state, client, request, now) == state,
{
}

/// Whatever passes the screening is on an exposed route, at a time when the
/// proxy is ready, within the limit of its client, and not too large.
pub proof fn lemma_passed(
    state: StateModel,
    client: Seq<char>,
    request: RequestHead,
    max_file_bytes: usize,
    now: u64,
)
    requires
        screening_of(state, client, request, max_file_bytes, now) is Pass,
    ensures
        allowlist::is_allowed(request.method, request.path@, request.release_artifact),
        state.forwarding,
        state::within_limit(
            state.rates,
            now,
            client,
            allowlist::is_enroll(request.method, request.path@),
        ),
        request.body_len <= allowlist::body_limit(request.method, request.path@, max_file_bytes),
{
}

/// Only an enrollment with a good token, or a request that a known agent has
/// signed, gets past the check of its credentials.
pub proof fn lemma_authorized(
    state: StateModel,
    enroll: bool,
    credentials: Credentials,
    now: UtcTime,
    elapsed: u64,
)
    requires
        credentials_verdict(state, enroll, credentials, now, elapsed) is Ok,
    ensures
        enroll ==> (credentials matches Credentials::Enroll(Some(q)) && validate::enroll_verdict(
            state,
            Some(q),
            now,
        ) is Ok),
        !enroll ==> (credentials matches Credentials::Signed(f, m) && validate::is_authentic(
            state,
            f@,
            m@,
            now,
        )),
{
}

/// The state after requests of the client, each with the time at which it came.
pub open spec fn after_traffic(
    state: StateModel,
    client: Seq<char>,
    traffic: Seq<(RequestHead, u64)>,
) -> StateModel
    decreases traffic.len(),
{
    if traffic.len() == 0 {
        state
    } else {
        after_screening(
            after_traffic(state, client, traffic.drop_last()),
            client,
            traffic.last().0,
            traffic.last().1,
        )
    }
}

/// A client that would be let through to enroll is so still after as many other
/// requests as it likes.
pub proof fn lemma_traffic_does_not_block_enrollment(
    state: StateModel,
    client: Seq<char>,
    traffic: Seq<(RequestHead, u64)>,
    enrollment: RequestHead,
    max_file_bytes: usize,
    now: u64,
)
    requires
        state.rates.dom().finite(),
        forall|i: int|
            0 <= i < traffic.len() ==> !allowlist::is_enroll(
                (#[trigger] traffic[i]).0.method,
                traffic[i].0.path@,
            ) && traffic[i].1 <= now,
        screening_of(state, client, enrollment, max_file_bytes, now) == (Screening::Pass {
            enroll: true,
        }),
    ensures
        screening_of(
            after_traffic(state, client, traffic),
            client,
            enrollment,
            max_file_bytes,
            now,
        ) == (Screening::Pass { enroll: true }),
        after_traffic(state, client, traffic).rates.dom().finite(),
    decreases traffic.len(),
{
    if traffic.len() > 0 {
        let before = traffic.drop_last();
        assert forall|i: int| 0 <= i < before.len() implies !allowlist::is_enroll(
            (#[trigger] before[i]).0.method,
            before[i].0.path@,
        ) && before[i].1 <= now by {
            assert(before[i] == traffic[i]);
        }
        lemma_traffic_does_not_block_enrollment(
            state,
            client,
            before,
            enrollment,
            max_file_bytes,
            now,
        );
        let s = after_traffic(state, client, before);
        let last = traffic[traffic.len() - 1];
        if is_counted(s, last.0) {
            state::lemma_other_kind_never_blocks(s.rates, client, true, last.1, now);
            state::lemma_after_request_finite(s.rates, last.1, client, false);
        }
    }
}

/// A token with which an agent has enrolled is refused from then on.
pub proof fn lemma_token_spent(
    state: StateModel,
    status: u16,
    request: EnrollRequest,
    response: Option<EnrollResponse>,
    again: EnrollRequest,
    now: UtcTime,
)
    requires
        web::is_success(status),
        again.enrollment_token@ == request.enrollment_token@,
    ensures
        validate::enroll_verdict(
            after_enroll(state, status, Some(request), response),
            Some(again),
            now,
        ) is Err,
{
}

/// A proxy that the server forbids to synchronize lets nothing through until it
/// is allowed to again.
pub proof fn lemma_fails_closed(
    state: StateModel,
    client: Seq<char>,
    request: RequestHead,
    max_file_bytes: usize,
    now: u64,
)
    ensures
        !(screening_of(sync::after_status(state, 403), client, request, max_file_bytes, now)
            is Pass),
{
}

/// An agent that the server leaves out of what it announces, or announces as
/// revoked, is let through with no signed request.
pub proof fn lemma_dropped_agents_refused(
    state: StateModel,
    payload: sync::ProxySyncResponse,
    fields: validate::FieldsModel,
    message: Seq<u8>,
    now: UtcTime,
    elapsed: u64,
)
    requires
        forall|i: int|
            0 <= i < payload.agents@.len() && (#[trigger] payload.agents@[i]).agent_id
                == fields.agent_id ==> payload.agents@[i].state == AgentState::Revoked,
    ensures
        validate::signed_verdict(
            sync::synced(state, payload),
            fields,
            message,
            now,
            elapsed,
        ) is Err,
{
    sync::lemma_announced_agents(payload.agents@, fields.agent_id);
    sync::lemma_announced_record(payload.agents@, fields.agent_id);
}

/// An agent that has enrolled is known from then on, under the key that it sent.
pub proof fn lemma_enrolled_is_known(
    state: StateModel,
    status: u16,
    request: EnrollRequest,
    response: EnrollResponse,
    message: Seq<u8>,
    signature: Seq<char>,
    now: UtcTime,
)
    requires
        web::is_success(status),
        crypto::signature_fits(text::trim(request.public_key@), message, signature),
    ensures
        ({
            let after = after_enroll(state, status, Some(request), Some(response));
            &&& after.agents.dom().contains(response.agent_id)
            &&& after.agents[response.agent_id].state == response.state
            &&& validate::is_signed_by(
                after.agents[response.agent_id],
                message,
                signature,
                now,
            )
        }),
{
}

/// How the screening ends is told by the first of four tests that fails: the
/// route is exposed, the proxy is ready, the client is within its limit, and the
/// body is small enough. A request that fails none goes on, as an enrollment
/// exactly where it is posted to the route for that.
pub proof fn lemma_screening(
    state: StateModel,
    client: Seq<char>,
    request: RequestHead,
    max_file_bytes: usize,
    now: u64,
)
    ensures
        ({
            let r = screening_of(state, client, request, max_file_bytes, now);
            let exposed = allowlist::is_allowed(
                request.method,
                request.path@,
                request.release_artifact,
            );
            let enroll = request.method == Method::Post && request.path@
                == "/api/v1/agent/enroll"@;
            let within = state::within_limit(state.rates, now, client, enroll);
            let small = request.body_len <= allowlist::body_limit(
                request.method,
                request.path@,
                max_file_bytes,
            );
            &&& (r == Screening::NotFound) == !exposed
            &&& (r == Screening::NotReady) == (exposed && !state.forwarding)
            &&& (r == Screening::RateLimited) == (exposed && state.forwarding && !within)
            &&& (r == Screening::TooLarge) == (exposed && state.forwarding && within && !small)
            &&& (r == Screening::Pass { enroll }) == (exposed && state.forwarding && within
                && small)
        }),
{
}

/// A request is counted exactly where it passes the first two tests, whatever
/// comes after, and then as one of its kind; nothing but the counts changes.
pub proof fn lemma_screening_counts(
    state: StateModel,
    client: Seq<char>,
    request: RequestHead,
    max_file_bytes: usize,
    now: u64,
)
    ensures
        ({
            let r = screening_of(state, client, request, max_file_bytes, now);
            let after = after_screening(state, client, request, now);
            let enroll = request.method == Method::Post && request.path@
                == "/api/v1/agent/enroll"@;
            &&& r == Screening::NotFound || r == Screening::NotReady ==> after == state
            &&& r != Screening::NotFound && r != Screening::NotReady ==> after.rates
                == state::after_request(state.rates, now, client, enroll)
            &&& after == (StateModel { rates: after.rates, ..state })
        }),
{
}

/// Clients are told apart by the addresses to which requests are ascribed.
pub proof fn lemma_client_text(state: StateModel, peer: IpAddr, h: headers::Headers)
    ensures
        client_text(state, peer, h) == ip::ip_text(
            client_ip::client_address(peer, h, state.config.trusted_proxy_cidrs),
        ),
        state.config.trusted_proxy_cidrs.len() == 0 ==> client_text(state, peer, h)
            == ip::ip_text(peer),
{
}

/// What is screened out is answered with a client error, but for a proxy that is
/// not ready, which is unavailable; a request that passes is not answered yet.
pub proof fn lemma_screening_replies(screening: Screening, r: Option<Reply>)
    requires
        is_screening_reply(screening, r),
    ensures
        r is None == screening is Pass,
        r matches Some(a) ==> a.retry_after is None && a.status.number() == (match screening {
            Screening::NotFound => 404int,
            Screening::NotReady => 503int,
            Screening::RateLimited => 429int,
            _ => 413int,
        }),
{
}

/// The credentials of an enrollment are those of its body and those of any other
/// request those of its headers: the verdict on them is the verdict on the
/// request, and credentials of the other kind, or none, are unauthorized.
pub proof fn lemma_credentials(
    state: StateModel,
    request: Option<EnrollRequest>,
    fields: SignedFields,
    canonical: Vec<u8>,
    now: UtcTime,
    elapsed: u64,
)
    ensures
        credentials_verdict(state, true, Credentials::Enroll(request), now, elapsed)
            == validate::enroll_verdict(state, request, now),
        credentials_verdict(state, false, Credentials::Signed(fields, canonical), now, elapsed)
            == validate::signed_verdict(state, fields@, canonical@, now, elapsed),
        credentials_verdict(state, false, Credentials::Enroll(request), now, elapsed) == Err::<
            (),
            StatusCode,
        >(StatusCode::Unauthorized),
        credentials_verdict(state, true, Credentials::Signed(fields, canonical), now, elapsed)
            == Err::<(), StatusCode>(StatusCode::Unauthorized),
        credentials_verdict(state, true, Credentials::Missing, now, elapsed) == Err::<
            (),
            StatusCode,
        >(StatusCode::Unauthorized),
        credentials_verdict(state, false, Credentials::Missing, now, elapsed) == Err::<
            (),
            StatusCode,
        >(StatusCode::Unauthorized),
        after_credentials(state, true, Credentials::Enroll(request), now, elapsed) == state,
        after_credentials(state, true, Credentials::Signed(fields, canonical), now, elapsed)
            == state,
        after_credentials(state, false, Credentials::Signed(fields, canonical), now, elapsed)
            == validate::after_signed(state, fields@, canonical@, now, elapsed),
        after_credentials(state, false, Credentials::Enroll(request), now, elapsed) == state,
{
}

/// A request that is refused is answered with the status of the refusal, and one
/// that is let through is not answered yet.
pub proof fn lemma_verdict_replies(verdict: Result<(), StatusCode>, r: Option<Reply>)
    requires
        is_verdict_reply(verdict, r),
    ensures
        r is None == verdict is Ok,
        verdict matches Err(status) ==> r->0.status == status && r->0.retry_after is None,
        verdict == Err::<(), StatusCode>(StatusCode::Unauthorized) ==> r->0.status.number() == 401
            && r->0.message@ == "unauthorized"@,
        verdict == Err::<(), StatusCode>(StatusCode::Forbidden) ==> r->0.status.number() == 403
            && r->0.message@ == "forbidden"@,
        verdict == Err::<(), StatusCode>(StatusCode::BadRequest) ==> r->0.status.number() == 400
            && r->0.message@ == "bad request"@,
{
}

/// Where the server has accepted an enrollment, exactly the agent that it names
/// changes: it is known under the key that was sent, without a previous one, in
/// the state that the server says. Exactly the token that was brought is gone.
/// Nothing else changes, and nothing at all where the server has not accepted it.
pub proof fn lemma_after_enroll(
    state: StateModel,
    status: u16,
    request: EnrollRequest,
    response: Option<EnrollResponse>,
    id: u128,
    key: Seq<char>,
)
    ensures
        ({
            let after = after_enroll(state, status, Some(request), response);
            let spent = crypto::token_hmac(
                state.config.api_key_pepper,
                request.enrollment_token@,
            );
            let named = response is Some && response->0.agent_id == id;
            &&& status < 200 || status > 299 ==> after == state
            &&& 200 <= status <= 299 && named ==> after.agents.dom().contains(id)
                && after.agents[id].credential_pubkey == text::trim(request.public_key@)
                && after.agents[id].credential_pubkey_previous is None
                && after.agents[id].credential_pubkey_previous_expires_at is None
                && after.agents[id].state == response->0.state
            &&& !named ==> after.agents.dom().contains(id) == state.agents.dom().contains(id)
            &&& !named && state.agents.dom().contains(id) ==> after.agents[id] == state.agents[id]
            &&& 200 <= status <= 299 ==> !after.tokens.dom().contains(spent)
            &&& key != spent ==> after.tokens.dom().contains(key) == state.tokens.dom().contains(
                key,
            )
            &&& key != spent && state.tokens.dom().contains(key) ==> after.tokens[key]
                == state.tokens[key]
            &&& after == (StateModel { agents: after.agents, tokens: after.tokens, ..state })
        }),
        after_enroll(state, status, None, response) == state,
{
}

/// An agent that the server announces, and does not announce as revoked, gets
/// through with what it signs under the key that was announced last, whatever
/// previous key was announced with it.
pub proof fn lemma_announced_agent_gets_through(
    state: StateModel,
    payload: sync::ProxySyncResponse,
    i: int,
    fields: validate::FieldsModel,
    message: Seq<u8>,
    now: UtcTime,
    elapsed: u64,
)
    requires
        0 <= i < payload.agents@.len(),
        payload.agents@[i].agent_id == fields.agent_id,
        payload.agents@[i].state != AgentState::Revoked,
        forall|j: int|
            i < j < payload.agents@.len() ==> (#[trigger] payload.agents@[j]).agent_id
                != fields.agent_id,
        crypto::signature_fits(
            payload.agents@[i].credential_pubkey@,
            message,
            fields.signature,
        ),
        -300_000 <= now.secs * 1000 + now.nanos as int / 1_000_000 - fields.timestamp_ms <= 300_000,
        1 <= vstd::utf8::encode_utf8(fields.nonce).len() <= 128,
        !state.nonces.dom().contains((fields.agent_id, fields.nonce)),
    ensures
        validate::signed_verdict(
            sync::synced(state, payload),
            fields,
            message,
            now,
            elapsed,
        ) is Ok,
{
    sync::lemma_announced_last(payload.agents@, i);
    validate::lemma_current_key_admits(
        sync::synced(state, payload),
        fields,
        message,
        now,
        elapsed,
    );
}

/// Every token that the server announces, and not only one of them, serves an
/// agent without identity to enroll, unless it is used or expired.
pub proof fn lemma_announced_token_enrolls(
    state: StateModel,
    payload: sync::ProxySyncResponse,
    i: int,
    request: EnrollRequest,
    digits: Seq<char>,
    key: Seq<u8>,
    expires: (i64, u32),
    now: UtcTime,
)
    requires
        0 <= i < payload.enrollment_tokens@.len(),
        payload.enrollment_tokens@[i].token_hmac@ == crypto::token_hmac(
            state.config.api_key_pepper,
            request.enrollment_token@,
        ),
        forall|j: int|
            i < j < payload.enrollment_tokens@.len() ==> (
            #[trigger] payload.enrollment_tokens@[j]).token_hmac@
                != payload.enrollment_tokens@[i].token_hmac@,
        payload.enrollment_tokens@[i].used_at is None,
        clock::rfc3339_value(payload.enrollment_tokens@[i].expires_at@) == Some(expires),
        expires.0 > now.secs || (expires.0 == now.secs && expires.1 > now.nanos),
        request.enrollment_token@ == seq!['e', 'n', 'r', '_'] + digits,
        digits.len() == 48,
        forall|k: int|
            0 <= k < 48 ==> ('0' <= #[trigger] digits[k] && digits[k] <= '9') || ('a' <= digits[k]
                && digits[k] <= 'f') || ('A' <= digits[k] && digits[k] <= 'F'),
        text::trim(request.public_key@) == encoding::base64_text(key),
        key.len() == 32,
        request.agent_id is None,
    ensures
        validate::enroll_verdict(sync::synced(state, payload), Some(request), now) is Ok,
{
    let hmac = payload.enrollment_tokens@[i].token_hmac@;
    let after = sync::synced(state, payload);
    sync::lemma_announced_tokens(payload.enrollment_tokens@, hmac);
    validate::lemma_enroll_goes_on(
        after,
        request,
        digits,
        key,
        after.tokens[hmac],
        expires,
        now,
    );
}

} // verus!
