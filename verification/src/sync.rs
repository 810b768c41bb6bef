//! What the proxy and the server tell each other: enrollment, the periodic
//! synchronization, and heartbeats.

use dashmap::DashMap;
use vstd::prelude::*;
use vstd::string::*;

use crate::clock;
use crate::clock::UtcTime;
use crate::crypto;
use crate::crypto::ProxyKeypair;
use crate::encoding;
use crate::records::AgentRecord;
use crate::records::AgentState;
use crate::records::CachedAgent;
use crate::records::ProxySyncEnrollmentToken;
use crate::state::AppState;
use crate::state::StateModel;
use crate::tables;
use crate::text;
use crate::web;

verus! {

/// Whether the server has approved the proxy.
#[derive(Clone, Copy, PartialEq, Eq, Structural, Debug)]
pub enum ProxyState {
    Active,
    /// Any state but that of an active proxy.
    Inactive,
}

/// What the proxy sends to enroll.
pub struct ProxyEnrollRequest {
    pub enrollment_token: String,
    pub proxy_id: Option<u128>,
    pub public_key: String,
    pub hostname: String,
    pub version: String,
}

/// What the server answers to an enrollment.
#[derive(Clone, Copy, PartialEq, Eq, Structural, Debug)]
pub struct ProxyEnrollResponse {
    pub proxy_id: u128,
    pub state: ProxyState,
}

/// What the proxy sends as a heartbeat.
pub struct ProxyHeartbeatRequest {
    pub version: String,
    pub uptime_secs: u64,
    pub hostname: String,
}

/// An agent as the server announces it.
pub struct ProxySyncAgent {
    pub agent_id: u128,
    pub credential_pubkey: String,
    pub credential_pubkey_previous: Option<String>,
    pub credential_pubkey_previous_expires_at: Option<String>,
    pub state: AgentState,
}

/// What the server announces to the proxy.
pub struct ProxySyncResponse {
    pub agents: Vec<ProxySyncAgent>,
    pub enrollment_tokens: Vec<ProxySyncEnrollmentToken>,
    pub proxy_enrollment_tokens: Vec<ProxySyncEnrollmentToken>,
}

/// Why the proxy and the server do not come together.
#[derive(PartialEq, Eq, Debug)]
pub enum SyncError {
    /// There is no token to enroll with.
    TokenRequired,
    /// The token is for another proxy.
    BoundElsewhere,
    /// The server answered with another identity.
    IdentityChanged,
    /// The proxy has no identity.
    NotEnrolled,
    /// The server does not announce anything to this proxy.
    SyncForbidden,
    /// The server does not take heartbeats of this proxy.
    HeartbeatForbidden,
    /// The server failed, as the text says.
    Failed(String),
}

/// Why the proxy and the server do not come together, as plain values.
pub enum SyncFault {
    TokenRequired,
    BoundElsewhere,
    IdentityChanged,
    NotEnrolled,
    SyncForbidden,
    HeartbeatForbidden,
    Failed(Seq<char>),
}

impl SyncError {
    /// The fault that the error reports.
    pub open spec fn fault(self) -> SyncFault {
        match self {
            SyncError::TokenRequired => SyncFault::TokenRequired,
            SyncError::BoundElsewhere => SyncFault::BoundElsewhere,
            SyncError::IdentityChanged => SyncFault::IdentityChanged,
            SyncError::NotEnrolled => SyncFault::NotEnrolled,
            SyncError::SyncForbidden => SyncFault::SyncForbidden,
            SyncError::HeartbeatForbidden => SyncFault::HeartbeatForbidden,
            SyncError::Failed(s) => SyncFault::Failed(s@),
        }
    }

    /// What the error says.
    pub fn message(&self) -> (r: String)
        ensures
            r@ == fault_text(self.fault()),
    {
        match self {
            SyncError::TokenRequired =>
                "PROXY_ENROLLMENT_TOKEN required for first enroll (no proxy_id on disk)".to_owned(),
            SyncError::BoundElsewhere =>
                "enrollment token is bound to a different proxy".to_owned(),
            SyncError::IdentityChanged =>
                "proxy re-enroll returned a different proxy_id".to_owned(),
            SyncError::NotEnrolled => "proxy not enrolled".to_owned(),
            SyncError::SyncForbidden =>
                "proxy sync forbidden (pending approval or revoked)".to_owned(),
            SyncError::HeartbeatForbidden => "proxy heartbeat forbidden".to_owned(),
            SyncError::Failed(s) => s.clone(),
        }
    }
}

/// What a fault says.
pub open spec fn fault_text(fault: SyncFault) -> Seq<char> {
    match fault {
        SyncFault::TokenRequired =>
            "PROXY_ENROLLMENT_TOKEN required for first enroll (no proxy_id on disk)"@,
        SyncFault::BoundElsewhere => "enrollment token is bound to a different proxy"@,
        SyncFault::IdentityChanged => "proxy re-enroll returned a different proxy_id"@,
        SyncFault::NotEnrolled => "proxy not enrolled"@,
        SyncFault::SyncForbidden => "proxy sync forbidden (pending approval or revoked)"@,
        SyncFault::HeartbeatForbidden => "proxy heartbeat forbidden"@,
        SyncFault::Failed(s) => s,
    }
}

// ---------------------------------------------------------------------------
// Failures of the server
// ---------------------------------------------------------------------------

/// The phrase that goes with a status code.
pub uninterp spec fn reason_phrase(status: u16) -> Seq<char>;

/// The text of a status code: its number and its phrase.
pub open spec fn status_text(status: u16) -> Seq<char> {
    text::decimal(status as nat) + " "@ + reason_phrase(status)
}

/// `StatusCode::from_u16`, which takes the numbers of three digits, and the
/// text of the status code: its number, a space, and a phrase that is a
/// function of the number.
#[verifier::external_body]
fn status_line(status: u16) -> (r: String)
    requires
        100 <= status < 1000,
    ensures
        r@ == text::decimal(status as nat) + " "@ + reason_phrase(status),
{
    axum::http::StatusCode::from_u16(status).expect("three digits").to_string()
}

/// What is said of a failure of the server.
pub open spec fn failure_text(what: Seq<char>, status: u16, body: Seq<char>) -> Seq<char> {
    what + status_text(status) + " "@ + body
}

fn failure(what: &str, status: u16, body: &str) -> (r: String)
    requires
        100 <= status < 1000,
    ensures
        r@ == failure_text(what@, status, body@),
{
    let line = status_line(status);
    let mut s = text::join(what, line.as_str());
    s.append(" ");
    s.append(body);
    s
}

/// What is said where the server refuses an enrollment.
pub fn enroll_failure(status: u16, body: &str) -> (r: SyncError)
    requires
        100 <= status < 1000,
    ensures
        r.fault() == SyncFault::Failed(failure_text("proxy enroll failed: "@, status, body@)),
{
    SyncError::Failed(failure("proxy enroll failed: ", status, body))
}

/// The failure means that the stored identity is of no use for the token.
pub open spec fn asks_reset(message: Seq<char>) -> bool {
    ||| text::has_text(message, "proxy_id must not be set for a generic enrollment token"@)
    ||| text::has_text(message, "proxy enroll failed: 400 "@)
    ||| text::has_text(message, "proxy enroll failed: 404 "@)
    ||| text::has_text(message, "proxy enroll failed: 401 "@)
}

/// Whether the failure means that the stored identity is of no use for the
/// token.
pub fn should_reset_identity_for_enroll(message: &str) -> (r: bool)
    ensures
        r == asks_reset(message@),
{
    text::contains_text(message, "proxy_id must not be set for a generic enrollment token")
        || text::contains_text(message, "proxy enroll failed: 400 ") || text::contains_text(
        message,
        "proxy enroll failed: 404 ",
    ) || text::contains_text(message, "proxy enroll failed: 401 ")
}

// ---------------------------------------------------------------------------
// Enrollment
// ---------------------------------------------------------------------------

/// How the proxy begins.
#[derive(Clone, Copy, PartialEq, Eq, Structural, Debug)]
pub enum BootstrapStep {
    /// It has no identity and enrolls.
    Enroll,
    /// It has an identity and a token, and enrolls again.
    Reenroll,
    /// It has an identity and no token.
    Sync,
}

/// How the proxy begins.
pub open spec fn bootstrap_step(state: StateModel) -> BootstrapStep {
    if state.proxy_id is None {
        BootstrapStep::Enroll
    } else if state.config.enrollment_token is Some {
        BootstrapStep::Reenroll
    } else {
        BootstrapStep::Sync
    }
}

/// How the proxy begins. Every step is followed by a synchronization.
pub fn bootstrap(state: &AppState) -> (r: BootstrapStep)
    ensures
        r == bootstrap_step(state.model()),
{
    if state.proxy_id.is_none() {
        BootstrapStep::Enroll
    } else if state.config.enrollment_token.is_some() {
        BootstrapStep::Reenroll
    } else {
        BootstrapStep::Sync
    }
}

/// The request to enroll with a token, as plain values.
pub open spec fn is_enroll_request(
    q: ProxyEnrollRequest,
    state: StateModel,
    token: Seq<char>,
    proxy_id: Option<u128>,
    version: Seq<char>,
) -> bool {
    &&& q.enrollment_token@ == token
    &&& q.proxy_id == proxy_id
    &&& q.public_key@ == crypto::public_key_text(state.seed)
    &&& q.hostname@ == state.config.reported_hostname
    &&& q.version@ == version
}

/// The request with which a proxy without identity enrolls; it needs a token.
pub fn enroll_if_needed(state: &AppState, version: &str) -> (r: Result<
    ProxyEnrollRequest,
    SyncError,
>)
    ensures
        match r {
            Ok(q) => state.model().config.enrollment_token is Some && is_enroll_request(
                q,
                state.model(),
                state.model().config.enrollment_token->0,
                None,
                version@,
            ),
            Err(e) => state.model().config.enrollment_token is None && e.fault()
                == SyncFault::TokenRequired,
        },
{
    match &state.config.enrollment_token {
        Some(token) => Ok(
            ProxyEnrollRequest {
                enrollment_token: token.clone(),
                proxy_id: None,
                public_key: state.keypair.public_key_b64(),
                hostname: state.config.reported_hostname.clone(),
                version: version.to_owned(),
            },
        ),
        None => Err(SyncError::TokenRequired),
    }
}

/// A token with which a proxy may enroll again, and its identity.
pub struct Reenrollment {
    pub token: String,
    pub proxy_id: u128,
}

/// The token is announced as one for another proxy.
pub open spec fn is_bound_elsewhere(state: StateModel, token: Seq<char>, proxy_id: u128) -> bool {
    let key = crypto::token_hmac(state.config.api_key_pepper, token);
    state.proxy_tokens.dom().contains(key) && (state.proxy_tokens[key].bound_proxy_id matches Some(
        bound,
    ) && bound != proxy_id)
}

/// Whether the proxy enrolls again, and with what.
pub open spec fn is_reenrollment(
    state: StateModel,
    r: Result<Option<Reenrollment>, SyncError>,
) -> bool {
    let token = state.config.enrollment_token;
    let id = state.proxy_id;
    let elsewhere = token is Some && id is Some && is_bound_elsewhere(state, token->0, id->0);
    match r {
        Ok(Some(target)) => token == Some(target.token@) && id == Some(target.proxy_id)
            && !elsewhere,
        Ok(None) => token is None || id is None,
        Err(e) => elsewhere && e.fault() == SyncFault::BoundElsewhere,
    }
}

/// Whether the proxy enrolls again, which it does where it has a token and an
/// identity. A token that is known to be for another proxy is not tried.
pub fn reenroll_if_needed(state: &AppState) -> (r: Result<Option<Reenrollment>, SyncError>)
    ensures
        is_reenrollment(state.model(), r),
{
    let token = match &state.config.enrollment_token {
        Some(t) => t.clone(),
        None => {
            return Ok(None);
        },
    };
    let proxy_id = match state.proxy_id {
        Some(id) => id,
        None => {
            return Ok(None);
        },
    };
    let token_hmac = crypto::hmac_sha256_hex(state.config.api_key_pepper.as_str(), token.as_str());
    match tables::tokens_get(&state.proxy_enrollment_tokens, token_hmac.as_str()) {
        Some(cached) => match cached.bound_proxy_id {
            Some(bound) => {
                if bound != proxy_id {
                    return Err(SyncError::BoundElsewhere);
                }
            },
            None => {},
        },
        None => {},
    }
    Ok(Some(Reenrollment { token, proxy_id }))
}

/// The request with which the proxy enrolls again, under a fresh key pair that
/// takes the place of the old.
pub fn reenroll_request(
    state: &mut AppState,
    target: &Reenrollment,
    fresh: ProxyKeypair,
    version: &str,
) -> (r: ProxyEnrollRequest)
    ensures
        final(state).model() == (StateModel { seed: fresh.seed(), ..old(state).model() }),
        is_enroll_request(
            r,
            final(state).model(),
            target.token@,
            Some(target.proxy_id),
            version@,
        ),
{
    state.replace_keypair(fresh);
    ProxyEnrollRequest {
        enrollment_token: target.token.clone(),
        proxy_id: Some(target.proxy_id),
        public_key: state.keypair.public_key_b64(),
        hostname: state.config.reported_hostname.clone(),
        version: version.to_owned(),
    }
}

/// What the status of the answer to an enrollment means.
#[derive(Clone, Copy, PartialEq, Eq, Structural, Debug)]
pub enum EnrollReply {
    /// The token is no good, and the identity stays as it is.
    Keep(ProxyEnrollResponse),
    /// The enrollment failed.
    Failed,
    /// The answer follows.
    Accepted,
}

/// What the status of the answer means: a proxy that enrolls again keeps its
/// credentials where the token is rejected.
pub open spec fn enroll_reply_of(status: u16, requested: Option<u128>) -> EnrollReply {
    if status == 401 && requested is Some {
        EnrollReply::Keep(
            ProxyEnrollResponse { proxy_id: requested->0, state: ProxyState::Active },
        )
    } else if web::is_success(status) {
        EnrollReply::Accepted
    } else {
        EnrollReply::Failed
    }
}

/// What the status of the answer to an enrollment means.
pub fn enroll_reply(status: u16, requested: Option<u128>) -> (r: EnrollReply)
    ensures
        r == enroll_reply_of(status, requested),
{
    match requested {
        Some(id) => {
            if status == 401 {
                return EnrollReply::Keep(
                    ProxyEnrollResponse { proxy_id: id, state: ProxyState::Active },
                );
            }
        },
        None => {},
    }
    if 200 <= status && status < 300 {
        EnrollReply::Accepted
    } else {
        EnrollReply::Failed
    }
}

/// The state once the server has accepted an enrollment: a proxy that had no
/// identity takes the one it was given, and forwards nothing before it is
/// approved.
pub open spec fn enrolled(
    state: StateModel,
    requested: Option<u128>,
    response: ProxyEnrollResponse,
) -> StateModel {
    if requested is None {
        StateModel {
            proxy_id: Some(response.proxy_id),
            forwarding: state.forwarding && response.state == ProxyState::Active,
            ..state
        }
    } else {
        state
    }
}

/// Takes in that the server has accepted an enrollment.
pub fn accept_enrollment(
    state: &mut AppState,
    requested: Option<u128>,
    response: &ProxyEnrollResponse,
)
    ensures
        final(state).model() == enrolled(old(state).model(), requested, *response),
{
    if requested.is_none() {
        state.set_proxy_id(response.proxy_id);
        if response.state != ProxyState::Active {
            state.set_forwarding(false);
        }
    }
}

/// Whether the server answered an enrollment of the proxy with its own
/// identity.
pub fn confirm_reenroll(expected: u128, response: &ProxyEnrollResponse) -> (r: Result<(), SyncError>)
    ensures
        match r {
            Ok(_) => response.proxy_id == expected,
            Err(e) => response.proxy_id != expected && e.fault() == SyncFault::IdentityChanged,
        },
{
    if response.proxy_id != expected {
        return Err(SyncError::IdentityChanged);
    }
    Ok(())
}

/// What follows an attempt to enroll again.
#[derive(Clone, Copy, PartialEq, Eq, Structural, Debug)]
pub enum AfterReenroll {
    Sync,
    /// The identity is given up, and the proxy enrolls as a new one.
    ResetAndEnroll,
    Fail,
}

/// What follows an attempt to enroll again that has ended so.
pub open spec fn reenroll_leads_to(failure: Option<Seq<char>>) -> AfterReenroll {
    match failure {
        None => AfterReenroll::Sync,
        Some(message) => if asks_reset(message) {
            AfterReenroll::ResetAndEnroll
        } else {
            AfterReenroll::Fail
        },
    }
}

/// What follows an attempt to enroll again; where it failed, `failure` says
/// why.
pub fn after_reenroll(failure: Option<&str>) -> (r: AfterReenroll)
    ensures
        r == reenroll_leads_to(
            match failure {
                Some(message) => Some(message@),
                None => None,
            },
        ),
{
    match failure {
        None => AfterReenroll::Sync,
        Some(message) => {
            if should_reset_identity_for_enroll(message) {
                AfterReenroll::ResetAndEnroll
            } else {
                AfterReenroll::Fail
            }
        },
    }
}

// ---------------------------------------------------------------------------
// Synchronization
// ---------------------------------------------------------------------------

/// The identity under which the proxy asks for what the server announces.
pub fn run_once(state: &AppState) -> (r: Result<u128, SyncError>)
    ensures
        match r {
            Ok(id) => state.model().proxy_id == Some(id),
            Err(e) => state.model().proxy_id is None && e.fault() == SyncFault::NotEnrolled,
        },
{
    match state.proxy_id {
        Some(id) => Ok(id),
        None => Err(SyncError::NotEnrolled),
    }
}

/// The state once the server has answered with a status: a proxy that it
/// forbids forwards nothing any more.
pub open spec fn after_status(state: StateModel, status: u16) -> StateModel {
    StateModel { forwarding: state.forwarding && status != 403, ..state }
}

/// What is wrong where the server answers with a status: nothing where it is a
/// success, `forbidden` where the proxy is forbidden, and else a failure of which
/// the text begins with `what`.
pub open spec fn reply_fault(
    status: u16,
    forbidden: SyncFault,
    what: Seq<char>,
    body: Seq<char>,
) -> Option<SyncFault> {
    if web::is_success(status) {
        None
    } else if status == 403 {
        Some(forbidden)
    } else {
        Some(SyncFault::Failed(failure_text(what, status, body)))
    }
}

/// Takes in the status of the answer to a synchronization; `body` is the text
/// of an answer that is no success. A proxy that the server forbids forwards
/// nothing any more.
pub fn sync_reply(state: &mut AppState, status: u16, body: &str) -> (r: Result<(), SyncError>)
    requires
        100 <= status < 1000,
    ensures
        match r {
            Ok(_) => reply_fault(
                status,
                SyncFault::SyncForbidden,
                "proxy sync failed: "@,
                body@,
            ) is None,
            Err(e) => reply_fault(
                status,
                SyncFault::SyncForbidden,
                "proxy sync failed: "@,
                body@,
            ) == Some(e.fault()),
        },
        final(state).model() == after_status(old(state).model(), status),
{
    if status == 403 {
        state.set_forwarding(false);
        return Err(SyncError::SyncForbidden);
    }
    if !(200 <= status && status < 300) {
        return Err(SyncError::Failed(failure("proxy sync failed: ", status, body)));
    }
    Ok(())
}

/// The moment that an optional text denotes, where it denotes one.
pub open spec fn moment_of(s: Option<Seq<char>>) -> Option<UtcTime> {
    match s {
        Some(t) => clock::utc_value(t),
        None => None,
    }
}

/// What the proxy keeps of an agent that the server announces.
pub open spec fn announced(agent: ProxySyncAgent) -> AgentRecord {
    AgentRecord {
        credential_pubkey: agent.credential_pubkey@,
        credential_pubkey_previous: text::opt(agent.credential_pubkey_previous),
        credential_pubkey_previous_expires_at: moment_of(
            text::opt(agent.credential_pubkey_previous_expires_at),
        ),
        state: agent.state,
    }
}

/// The agents that the server announces; of two with one identifier the later.
pub open spec fn announced_agents(agents: Seq<ProxySyncAgent>) -> tables::Agents
    decreases agents.len(),
{
    if agents.len() == 0 {
        tables::Agents::empty()
    } else {
        announced_agents(agents.drop_last()).insert(
            agents.last().agent_id,
            announced(agents.last()),
        )
    }
}

/// The tokens that the server announces, by their HMAC.
pub open spec fn announced_tokens(tokens: Seq<ProxySyncEnrollmentToken>) -> tables::Tokens
    decreases tokens.len(),
{
    if tokens.len() == 0 {
        tables::Tokens::empty()
    } else {
        announced_tokens(tokens.drop_last()).insert(tokens.last().token_hmac@, tokens.last()@)
    }
}

/// The state once the proxy has taken over what the server announces.
pub open spec fn synced(state: StateModel, payload: ProxySyncResponse) -> StateModel {
    StateModel {
        agents: announced_agents(payload.agents@),
        tokens: announced_tokens(payload.enrollment_tokens@),
        proxy_tokens: announced_tokens(payload.proxy_enrollment_tokens@),
        forwarding: true,
        ..state
    }
}

/// Fills the table with the tokens that the server announces, in place of all
/// that it held.
fn replace_tokens(
    table: &mut DashMap<String, ProxySyncEnrollmentToken>,
    tokens: &Vec<ProxySyncEnrollmentToken>,
)
    ensures
        tables::token_table(*final(table)) == announced_tokens(tokens@),
{
    tables::tokens_clear(table);
    let mut i: usize = 0;
    assert(tokens@.take(0) =~= Seq::<ProxySyncEnrollmentToken>::empty());
    while i < tokens.len()
        invariant
            i <= tokens@.len(),
            tables::token_table(*table) == announced_tokens(tokens@.take(i as int)),
        decreases tokens@.len() - i,
    {
        let token = &tokens[i];
        let ghost next = tokens@.take(i + 1);
        assert(next.drop_last() =~= tokens@.take(i as int));
        assert(next.last() == *token);
        tables::tokens_insert(table, token.token_hmac.clone(), token.clone());
        i = i + 1;
    }
    assert(tokens@.take(i as int) =~= tokens@);
}

/// Takes over what the server announces, in place of all that was known, and
/// lets requests through.
pub fn apply_sync(state: &mut AppState, payload: &ProxySyncResponse)
    ensures
        final(state).model() == synced(old(state).model(), *payload),
{
    let ghost before = state.model();
    tables::agents_clear(&mut state.agents);
    let mut i: usize = 0;
    let ghost all = payload.agents@;
    assert(all.take(0) =~= Seq::<ProxySyncAgent>::empty());
    while i < payload.agents.len()
        invariant
            i <= payload.agents@.len(),
            all == payload.agents@,
            state.model() == (StateModel { agents: announced_agents(all.take(i as int)), ..before }),
        decreases payload.agents@.len() - i,
    {
        let agent = &payload.agents[i];
        let ghost next = all.take(i + 1);
        assert(next.drop_last() =~= all.take(i as int));
        assert(next.last() == *agent);
        let expires = match &agent.credential_pubkey_previous_expires_at {
            Some(s) => clock::parse_utc(s.as_str()),
            None => None,
        };
        let cached = CachedAgent {
            credential_pubkey: agent.credential_pubkey.clone(),
            credential_pubkey_previous: text::copy_opt(&agent.credential_pubkey_previous),
            credential_pubkey_previous_expires_at: expires,
            state: agent.state,
        };
        assert(cached@ == announced(*agent));
        tables::agents_insert(&mut state.agents, agent.agent_id, cached);
        i = i + 1;
    }
    assert(all.take(i as int) =~= all);

    replace_tokens(&mut state.enrollment_tokens, &payload.enrollment_tokens);
    replace_tokens(&mut state.proxy_enrollment_tokens, &payload.proxy_enrollment_tokens);
    state.set_forwarding(true);
}

// ---------------------------------------------------------------------------
// Heartbeats
// ---------------------------------------------------------------------------

/// The heartbeat that the proxy sends `uptime` nanoseconds after its start, and
/// the identity under which it does. A proxy that has no identity, or forwards
/// nothing, sends none.
pub open spec fn is_heartbeat(
    state: StateModel,
    version: Seq<char>,
    uptime: u64,
    r: Option<(u128, ProxyHeartbeatRequest)>,
) -> bool {
    match r {
        Some((id, q)) => state.proxy_id == Some(id) && state.forwarding && q.version@ == version
            && q.uptime_secs == uptime / 1_000_000_000 && q.hostname@
            == state.config.reported_hostname,
        None => state.proxy_id is None || !state.forwarding,
    }
}

/// The heartbeat that the proxy sends `uptime` nanoseconds after its start.
pub fn heartbeat_at(state: &AppState, version: &str, uptime: u64) -> (r: Option<
    (u128, ProxyHeartbeatRequest),
>)
    ensures
        is_heartbeat(state.model(), version@, uptime, r),
{
    let proxy_id = match state.proxy_id {
        Some(id) => id,
        None => {
            return None;
        },
    };
    if !state.forwarding {
        return None;
    }
    Some(
        (
            proxy_id,
            ProxyHeartbeatRequest {
                version: version.to_owned(),
                uptime_secs: uptime / 1_000_000_000,
                hostname: state.config.reported_hostname.clone(),
            },
        ),
    )
}

/// The heartbeat that the proxy sends, and the identity under which it does.
pub fn heartbeat_once(state: &AppState, version: &str) -> (r: Option<(u128, ProxyHeartbeatRequest)>)
    ensures
        exists|uptime: u64| #[trigger] is_heartbeat(state.model(), version@, uptime, r),
{
    let uptime = clock::nanos_since(&state.started_at);
    heartbeat_at(state, version, uptime)
}

/// Takes in the status of the answer to a heartbeat; `body` is the text of an
/// answer that is no success. A proxy that the server forbids forwards nothing
/// any more.
pub fn heartbeat_reply(state: &mut AppState, status: u16, body: &str) -> (r: Result<(), SyncError>)
    requires
        100 <= status < 1000,
    ensures
        match r {
            Ok(_) => reply_fault(
                status,
                SyncFault::HeartbeatForbidden,
                "proxy heartbeat failed: "@,
                body@,
            ) is None,
            Err(e) => reply_fault(
                status,
                SyncFault::HeartbeatForbidden,
                "proxy heartbeat failed: "@,
                body@,
            ) == Some(e.fault()),
        },
        final(state).model() == after_status(old(state).model(), status),
{
    if status == 403 {
        state.set_forwarding(false);
        return Err(SyncError::HeartbeatForbidden);
    }
    if !(200 <= status && status < 300) {
        return Err(SyncError::Failed(failure("proxy heartbeat failed: ", status, body)));
    }
    Ok(())
}

// ---------------------------------------------------------------------------
// What the exchange promises
// ---------------------------------------------------------------------------

/// Where the server rejects an enrollment as malformed, unauthorized or
/// unknown, whatever else it says, the stored identity is given up.
pub proof fn lemma_rejection_asks_reset(status: u16, body: Seq<char>)
    requires
        status == 400 || status == 401 || status == 404,
    ensures
        asks_reset(failure_text("proxy enroll failed: "@, status, body)),
{
    let message = failure_text("proxy enroll failed: "@, status, body);
    reveal_strlit("proxy enroll failed: ");
    reveal_strlit("proxy enroll failed: 400 ");
    reveal_strlit("proxy enroll failed: 401 ");
    reveal_strlit("proxy enroll failed: 404 ");
    reveal_strlit(" ");
    let pattern = if status == 400 {
        "proxy enroll failed: 400 "@
    } else if status == 401 {
        "proxy enroll failed: 401 "@
    } else {
        "proxy enroll failed: 404 "@
    };
    let n = status as nat;
    let d = text::decimal(n);
    assert(text::decimal(n / 100) =~= seq!['4']);
    assert(text::decimal(n / 10) =~= seq!['4', '0']) by {
        assert((n / 10) / 10 == n / 100);
    }
    assert(d =~= seq!['4', '0', ('0' as int + n % 10) as char]);
    assert(message.subrange(0, pattern.len() as int) =~= pattern);
    assert(text::occurs_at(message, pattern, 0));
}

/// After a synchronization the proxy knows exactly the agents that the server
/// has announced: one that is left out is no longer known.
pub proof fn lemma_announced_agents(agents: Seq<ProxySyncAgent>, id: u128)
    ensures
        announced_agents(agents).dom().contains(id) == exists|i: int|
            0 <= i < agents.len() && (#[trigger] agents[i]).agent_id == id,
    decreases agents.len(),
{
    if agents.len() > 0 {
        let init = agents.drop_last();
        lemma_announced_agents(init, id);
        if announced_agents(init).dom().contains(id) {
            let i = choose|i: int| 0 <= i < init.len() && (#[trigger] init[i]).agent_id == id;
            assert(agents[i].agent_id == id);
        }
        if agents.last().agent_id == id {
            assert(agents[agents.len() - 1].agent_id == id);
        }
        if exists|i: int| 0 <= i < agents.len() && (#[trigger] agents[i]).agent_id == id {
            let i = choose|i: int| 0 <= i < agents.len() && (#[trigger] agents[i]).agent_id == id;
            if i < init.len() {
                assert(init[i].agent_id == id);
            }
        }
    }
}

/// What the proxy keeps of an announced agent is what was announced.
pub proof fn lemma_announced_record(agents: Seq<ProxySyncAgent>, id: u128)
    ensures
        announced_agents(agents).dom().contains(id) ==> exists|i: int|
            0 <= i < agents.len() && (#[trigger] agents[i]).agent_id == id && announced_agents(
                agents,
            )[id] == announced(agents[i]),
    decreases agents.len(),
{
    if agents.len() > 0 {
        let init = agents.drop_last();
        lemma_announced_record(init, id);
        if agents.last().agent_id == id {
            assert(agents[agents.len() - 1].agent_id == id);
        } else if announced_agents(init).dom().contains(id) {
            let i = choose|i: int|
                0 <= i < init.len() && (#[trigger] init[i]).agent_id == id && announced_agents(
                    init,
                )[id] == announced(init[i]);
            assert(agents[i].agent_id == id);
        }
    }
}

/// After a synchronization the proxy knows exactly the tokens that the server has
/// announced, all of them, each by its HMAC and with what was said of it last.
pub proof fn lemma_announced_tokens(tokens: Seq<ProxySyncEnrollmentToken>, hmac: Seq<char>)
    ensures
        announced_tokens(tokens).dom().contains(hmac) == exists|i: int|
            0 <= i < tokens.len() && (#[trigger] tokens[i]).token_hmac@ == hmac,
        forall|i: int|
            0 <= i < tokens.len() && (#[trigger] tokens[i]).token_hmac@ == hmac && (forall|j: int|
                i < j < tokens.len() ==> (#[trigger] tokens[j]).token_hmac@ != hmac) ==> {
                let kept = announced_tokens(tokens)[hmac];
                &&& kept.token_hmac == hmac
                &&& kept.expires_at == tokens[i].expires_at@
                &&& kept.used_at is Some == tokens[i].used_at is Some
                &&& kept.bound_machine_id == tokens[i].bound_machine_id
                &&& kept.bound_proxy_id == tokens[i].bound_proxy_id
            },
    decreases tokens.len(),
{
    if tokens.len() > 0 {
        let init = tokens.drop_last();
        let n = tokens.len() - 1;
        lemma_announced_tokens(init, hmac);
        if announced_tokens(init).dom().contains(hmac) {
            let i = choose|i: int| 0 <= i < init.len() && (#[trigger] init[i]).token_hmac@ == hmac;
            assert(tokens[i].token_hmac@ == hmac);
        }
        if tokens.last().token_hmac@ == hmac {
            assert(tokens[n].token_hmac@ == hmac);
        }
        if exists|i: int| 0 <= i < tokens.len() && (#[trigger] tokens[i]).token_hmac@ == hmac {
            let i = choose|i: int|
                0 <= i < tokens.len() && (#[trigger] tokens[i]).token_hmac@ == hmac;
            if i < n {
                assert(init[i].token_hmac@ == hmac);
            }
        }
        assert forall|i: int|
            0 <= i < tokens.len() && (#[trigger] tokens[i]).token_hmac@ == hmac && (forall|j: int|
                i < j < tokens.len() ==> (#[trigger] tokens[j]).token_hmac@ != hmac) implies {
            let kept = announced_tokens(tokens)[hmac];
            &&& kept.token_hmac == hmac
            &&& kept.expires_at == tokens[i].expires_at@
            &&& kept.used_at is Some == tokens[i].used_at is Some
            &&& kept.bound_machine_id == tokens[i].bound_machine_id
            &&& kept.bound_proxy_id == tokens[i].bound_proxy_id
        } by {
            if i < n {
                assert(tokens[n].token_hmac@ != hmac);
                assert(init[i].token_hmac@ == hmac);
                assert forall|j: int| i < j < init.len() implies (#[trigger] init[j]).token_hmac@
                    != hmac by {
                    assert(tokens[j].token_hmac@ != hmac);
                }
            }
        }
    }
}

/// Of an announced agent the proxy keeps what was said of it last: its key, its
/// previous key, the moment at which that expires, where it denotes one, and
/// whether the agent is revoked.
pub proof fn lemma_announced_last(agents: Seq<ProxySyncAgent>, i: int)
    requires
        0 <= i < agents.len(),
        forall|j: int| i < j < agents.len() ==> (#[trigger] agents[j]).agent_id != agents[i].agent_id,
    ensures
        announced_agents(agents).dom().contains(agents[i].agent_id),
        ({
            let kept = announced_agents(agents)[agents[i].agent_id];
            let expires = agents[i].credential_pubkey_previous_expires_at;
            &&& kept.credential_pubkey == agents[i].credential_pubkey@
            &&& kept.state == agents[i].state
            &&& kept.credential_pubkey_previous is Some
                == agents[i].credential_pubkey_previous is Some
            &&& kept.credential_pubkey_previous is Some ==> kept.credential_pubkey_previous->0
                == agents[i].credential_pubkey_previous->0@
            &&& kept.credential_pubkey_previous_expires_at is Some == (expires is Some
                && clock::rfc3339_value(expires->0@) is Some)
            &&& kept.credential_pubkey_previous_expires_at is Some ==> (
            kept.credential_pubkey_previous_expires_at->0.secs,
            kept.credential_pubkey_previous_expires_at->0.nanos) == clock::rfc3339_value(
                expires->0@,
            )->0
        }),
    decreases agents.len(),
{
    let n = agents.len() - 1;
    if i < n {
        let init = agents.drop_last();
        assert(agents[n].agent_id != agents[i].agent_id);
        assert forall|j: int| i < j < init.len() implies (#[trigger] init[j]).agent_id
            != init[i].agent_id by {
            assert(agents[j].agent_id != agents[i].agent_id);
        }
        lemma_announced_last(init, i);
    }
}

/// A synchronization opens the proxy, and touches neither its identity and key,
/// nor the nonces, the cache and the counts of its clients.
pub proof fn lemma_sync_opens(state: StateModel, payload: ProxySyncResponse)
    ensures
        synced(state, payload).forwarding,
        synced(state, payload).proxy_id == state.proxy_id,
        synced(state, payload).seed == state.seed,
        synced(state, payload).config == state.config,
        synced(state, payload).nonces == state.nonces,
        synced(state, payload).cache == state.cache,
        synced(state, payload).rates == state.rates,
        synced(state, payload).origin == state.origin,
        synced(state, payload).nonce_origin == state.nonce_origin,
        synced(state, payload).agents == announced_agents(payload.agents@),
        synced(state, payload).tokens == announced_tokens(payload.enrollment_tokens@),
        synced(state, payload).proxy_tokens == announced_tokens(payload.proxy_enrollment_tokens@),
{
}

/// Of all statuses only that of a forbidden request closes the proxy; none opens
/// it, and none changes anything else.
pub proof fn lemma_only_forbidden_closes(state: StateModel, status: u16)
    ensures
        status == 403 ==> !after_status(state, status).forwarding,
        status != 403 ==> after_status(state, status) == state,
        after_status(state, status) == (StateModel {
            forwarding: after_status(state, status).forwarding,
            ..state
        }),
{
}

/// How the proxy begins: without an identity it enrolls, with an identity and a
/// token it enrolls again, and with an identity alone it goes on as it is.
pub proof fn lemma_bootstrap(state: StateModel)
    ensures
        (bootstrap_step(state) == BootstrapStep::Enroll) == (state.proxy_id is None),
        (bootstrap_step(state) == BootstrapStep::Reenroll) == (state.proxy_id is Some
            && state.config.enrollment_token is Some),
        (bootstrap_step(state) == BootstrapStep::Sync) == (state.proxy_id is Some
            && state.config.enrollment_token is None),
{
}

/// A request to enroll carries the token, the identity, and the public key of the
/// seed, in base64, so that the server reads back that key.
pub proof fn lemma_enroll_request(
    q: ProxyEnrollRequest,
    state: StateModel,
    token: Seq<char>,
    proxy_id: Option<u128>,
    version: Seq<char>,
)
    requires
        is_enroll_request(q, state, token, proxy_id, version),
    ensures
        q.enrollment_token@ == token,
        q.proxy_id == proxy_id,
        encoding::base64_bytes(q.public_key@) == Some(crypto::ed25519_public_key(state.seed)),
        q.hostname@ == state.config.reported_hostname,
        q.version@ == version,
{
    crypto::lemma_public_key_text(state.seed);
}

/// A token is known to be for another proxy where the server has announced it,
/// by its HMAC, as bound to an identity that is not this one.
pub proof fn lemma_bound_elsewhere(state: StateModel, token: Seq<char>, proxy_id: u128)
    ensures
        ({
            let key = crypto::token_hmac(state.config.api_key_pepper, token);
            &&& !state.proxy_tokens.dom().contains(key) ==> !is_bound_elsewhere(
                state,
                token,
                proxy_id,
            )
            &&& state.proxy_tokens.dom().contains(key)
                && state.proxy_tokens[key].bound_proxy_id is None ==> !is_bound_elsewhere(
                state,
                token,
                proxy_id,
            )
            &&& state.proxy_tokens.dom().contains(key)
                && state.proxy_tokens[key].bound_proxy_id is Some ==> is_bound_elsewhere(
                state,
                token,
                proxy_id,
            ) == (state.proxy_tokens[key].bound_proxy_id->0 != proxy_id)
        }),
{
}

/// A proxy that enrolls again and is unauthorized keeps its identity and counts as
/// active; a success of any kind is accepted, and anything else is a failure.
pub proof fn lemma_enroll_replies(status: u16, requested: Option<u128>)
    ensures
        enroll_reply_of(status, requested) is Keep == (status == 401 && requested is Some),
        enroll_reply_of(401, requested) is Keep ==> enroll_reply_of(401, requested)->Keep_0 == (
        ProxyEnrollResponse { proxy_id: requested->0, state: ProxyState::Active }),
        (enroll_reply_of(status, requested) == EnrollReply::Accepted) == (200 <= status <= 299),
        enroll_reply_of(status, None) == EnrollReply::Accepted || enroll_reply_of(status, None)
            == EnrollReply::Failed,
{
}

/// An enrollment under a new identity is taken over: the proxy has that identity,
/// and one that is not active yet forwards nothing. An enrollment under the old
/// identity changes nothing, and no enrollment opens the proxy.
pub proof fn lemma_enrolled(
    state: StateModel,
    requested: Option<u128>,
    response: ProxyEnrollResponse,
)
    ensures
        ({
            let after = enrolled(state, requested, response);
            &&& requested is Some ==> after == state
            &&& requested is None ==> after.proxy_id == Some(response.proxy_id)
            &&& requested is None && response.state != ProxyState::Active ==> !after.forwarding
            &&& response.state == ProxyState::Active ==> after.forwarding == state.forwarding
            &&& after == (StateModel {
                proxy_id: after.proxy_id,
                forwarding: after.forwarding,
                ..state
            })
        }),
{
}

/// The identity is given up where, and only where, the failure says that it must
/// not be set, or that the server answered with one of three statuses.
pub proof fn lemma_reset_is_asked(message: Seq<char>)
    ensures
        asks_reset(message) == {
            ||| exists|a: Seq<char>, b: Seq<char>|
                message == #[trigger] (a
                    + "proxy_id must not be set for a generic enrollment token"@ + b)
            ||| exists|a: Seq<char>, b: Seq<char>|
                message == #[trigger] (a + "proxy enroll failed: 400 "@ + b)
            ||| exists|a: Seq<char>, b: Seq<char>|
                message == #[trigger] (a + "proxy enroll failed: 401 "@ + b)
            ||| exists|a: Seq<char>, b: Seq<char>|
                message == #[trigger] (a + "proxy enroll failed: 404 "@ + b)
        },
{
    text::lemma_has_text(message, "proxy_id must not be set for a generic enrollment token"@);
    text::lemma_has_text(message, "proxy enroll failed: 400 "@);
    text::lemma_has_text(message, "proxy enroll failed: 401 "@);
    text::lemma_has_text(message, "proxy enroll failed: 404 "@);
}

/// What is said of a failure begins with what failed and the number of the
/// status, and ends with what the server said.
pub proof fn lemma_failure_text(what: Seq<char>, status: u16, body: Seq<char>)
    ensures
        (what + text::decimal(status as nat) + seq![' ']).is_prefix_of(
            failure_text(what, status, body),
        ),
        (seq![' '] + body).is_suffix_of(failure_text(what, status, body)),
{
    reveal_strlit(" ");
    assert(" "@ =~= seq![' ']);
    let s = failure_text(what, status, body);
    let front = what + text::decimal(status as nat) + seq![' '];
    let back = seq![' '] + body;
    assert(s.subrange(0, front.len() as int) =~= front);
    assert(s.subrange(s.len() - back.len(), s.len() as int) =~= back);
}

/// A heartbeat is sent exactly by a proxy that has an identity and forwards
/// requests, under that identity, with its host name, its version and the whole
/// seconds since its start.
pub proof fn lemma_heartbeat(
    state: StateModel,
    version: Seq<char>,
    uptime: u64,
    r: Option<(u128, ProxyHeartbeatRequest)>,
)
    requires
        is_heartbeat(state, version, uptime, r),
    ensures
        r is Some == (state.proxy_id is Some && state.forwarding),
        r matches Some((id, q)) ==> state.proxy_id == Some(id) && q.uptime_secs * 1_000_000_000
            <= uptime < (q.uptime_secs + 1) * 1_000_000_000 && q.version@ == version && q.hostname@
            == state.config.reported_hostname,
{
}

/// The server is content exactly where it answers with a success; a proxy that it
/// forbids is told so, and any other answer is a failure, of which the number of
/// the status and the server's own words are told.
pub proof fn lemma_reply_faults(
    status: u16,
    forbidden: SyncFault,
    what: Seq<char>,
    body: Seq<char>,
)
    ensures
        reply_fault(status, forbidden, what, body) is None == (200 <= status <= 299),
        status == 403 ==> reply_fault(status, forbidden, what, body) == Some(forbidden),
        status != 403 && !(200 <= status <= 299) ==> (reply_fault(
            status,
            forbidden,
            what,
            body,
        ) matches Some(SyncFault::Failed(s)) && (what + text::decimal(status as nat)
            + seq![' ']).is_prefix_of(s) && (seq![' '] + body).is_suffix_of(s)),
{
    lemma_failure_text(what, status, body);
}

/// A proxy with an identity and a token enrolls again with both, unless the token
/// is known to be for another proxy; one that lacks either does not.
pub proof fn lemma_reenrollments(state: StateModel, r: Result<Option<Reenrollment>, SyncError>)
    requires
        is_reenrollment(state, r),
    ensures
        ({
            let both = state.proxy_id is Some && state.config.enrollment_token is Some;
            let key = crypto::token_hmac(
                state.config.api_key_pepper,
                state.config.enrollment_token->0,
            );
            let elsewhere = both && state.proxy_tokens.dom().contains(key)
                && state.proxy_tokens[key].bound_proxy_id is Some
                && state.proxy_tokens[key].bound_proxy_id != state.proxy_id;
            &&& (r is Ok && r->Ok_0 is None) == !both
            &&& r is Err == elsewhere
            &&& r matches Ok(Some(target)) ==> target.proxy_id == state.proxy_id->0 && target.token@
                == state.config.enrollment_token->0
            &&& r matches Err(e) ==> e is BoundElsewhere
        }),
{
}

/// A proxy that has enrolled again synchronizes; one that has failed to gives up
/// its identity exactly where the failure asks for that.
pub proof fn lemma_after_reenroll(message: Seq<char>)
    ensures
        reenroll_leads_to(None) == AfterReenroll::Sync,
        (reenroll_leads_to(Some(message)) == AfterReenroll::ResetAndEnroll) == asks_reset(message),
        (reenroll_leads_to(Some(message)) == AfterReenroll::Fail) == !asks_reset(message),
{
}

} // verus!
