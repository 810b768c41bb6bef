//! Whether a request may go on to the server: the signatures of agents, and
//! the tokens with which agents enroll.

use axum::http::HeaderMap;
use vstd::prelude::*;
use vstd::string::*;

use crate::clock;
use crate::clock::UtcTime;
use crate::crypto;
use crate::encoding;
use crate::headers;
use crate::ids;
use crate::nonce;
use crate::records::AgentRecord;
use crate::records::AgentState;
use crate::records::TokenRecord;
use crate::state::AppState;
use crate::state::StateModel;
use crate::tables;
use crate::text;
use crate::web::StatusCode;

verus! {

/// How far the clock of an agent may be off, in milliseconds.
pub const MAX_CLOCK_SKEW_MS: i64 = 300_000;

// ---------------------------------------------------------------------------
// Signed requests
// ---------------------------------------------------------------------------

/// The names of the headers that carry a signature, as the agents' protocol
/// gives them.
pub struct SigningHeaders {
    pub agent_id: String,
    pub timestamp: String,
    pub nonce: String,
    pub signature: String,
}

/// What the headers of a signed request say.
pub struct SignedFields {
    pub agent_id: u128,
    pub timestamp_ms: i64,
    pub nonce: String,
    pub signature: String,
}

/// What the headers of a signed request say, as plain values.
pub struct FieldsModel {
    pub agent_id: u128,
    pub timestamp_ms: i64,
    pub nonce: Seq<char>,
    pub signature: Seq<char>,
}

impl View for SignedFields {
    type V = FieldsModel;

    open spec fn view(&self) -> FieldsModel {
        FieldsModel {
            agent_id: self.agent_id,
            timestamp_ms: self.timestamp_ms,
            nonce: self.nonce@,
            signature: self.signature@,
        }
    }
}

/// What the headers of a signed request say; none where one of them is missing
/// or is not well formed.
pub open spec fn fields_of(h: headers::Headers, names: SigningHeaders) -> Option<FieldsModel> {
    let agent_id = headers::header_str(h, names.agent_id@);
    let timestamp = headers::header_str(h, names.timestamp@);
    let nonce = headers::header_str(h, names.nonce@);
    let signature = headers::header_str(h, names.signature@);
    if agent_id is Some && ids::uuid_value(agent_id->0) is Some && timestamp is Some
        && text::i64_value(timestamp->0) is Some && nonce is Some && signature is Some {
        Some(
            FieldsModel {
                agent_id: ids::uuid_value(agent_id->0)->0,
                timestamp_ms: text::i64_value(timestamp->0)->0 as i64,
                nonce: nonce->0,
                signature: signature->0,
            },
        )
    } else {
        None
    }
}

fn required_header(h: &HeaderMap, name: &str) -> (r: Result<String, StatusCode>)
    ensures
        match r {
            Ok(s) => headers::header_str(headers::header_contents(*h), name@) == Some(s@),
            Err(e) => headers::header_str(headers::header_contents(*h), name@) is None && e
                == StatusCode::Unauthorized,
        },
{
    match headers::header_text(h, name) {
        Some(s) => Ok(s),
        None => Err(StatusCode::Unauthorized),
    }
}

fn parse_uuid_header(h: &HeaderMap, name: &str) -> (r: Result<u128, StatusCode>)
    ensures
        ({
            let value = headers::header_str(headers::header_contents(*h), name@);
            match r {
                Ok(id) => value is Some && ids::uuid_value(value->0) == Some(id),
                Err(e) => e == StatusCode::Unauthorized && (value is None || ids::uuid_value(
                    value->0,
                ) is None),
            }
        }),
{
    match required_header(h, name) {
        Ok(s) => match ids::parse_uuid(s.as_str()) {
            Some(id) => Ok(id),
            None => Err(StatusCode::Unauthorized),
        },
        Err(e) => Err(e),
    }
}

fn parse_i64_header(h: &HeaderMap, name: &str) -> (r: Result<i64, StatusCode>)
    ensures
        ({
            let value = headers::header_str(headers::header_contents(*h), name@);
            match r {
                Ok(n) => value is Some && text::i64_value(value->0) == Some(n as int),
                Err(e) => e == StatusCode::Unauthorized && (value is None || text::i64_value(
                    value->0,
                ) is None),
            }
        }),
{
    match required_header(h, name) {
        Ok(s) => match text::parse_i64(s.as_str()) {
            Some(n) => Ok(n),
            None => Err(StatusCode::Unauthorized),
        },
        Err(e) => Err(e),
    }
}

/// What the headers of a signed request say. A request without them, or with
/// ill-formed ones, is unauthorized.
pub fn signed_fields(h: &HeaderMap, names: &SigningHeaders) -> (r: Result<SignedFields, StatusCode>)
    ensures
        match r {
            Ok(f) => fields_of(headers::header_contents(*h), *names) == Some(f@),
            Err(e) => fields_of(headers::header_contents(*h), *names) is None && e
                == StatusCode::Unauthorized,
        },
{
    let agent_id = match parse_uuid_header(h, names.agent_id.as_str()) {
        Ok(id) => id,
        Err(e) => {
            return Err(e);
        },
    };
    let timestamp_ms = match parse_i64_header(h, names.timestamp.as_str()) {
        Ok(n) => n,
        Err(e) => {
            return Err(e);
        },
    };
    let nonce = match required_header(h, names.nonce.as_str()) {
        Ok(s) => s,
        Err(e) => {
            return Err(e);
        },
    };
    let signature = match required_header(h, names.signature.as_str()) {
        Ok(s) => s,
        Err(e) => {
            return Err(e);
        },
    };
    Ok(SignedFields { agent_id, timestamp_ms, nonce, signature })
}

/// The clock of the request is not too far off.
pub open spec fn is_timely(timestamp_ms: i64, now: UtcTime) -> bool {
    -MAX_CLOCK_SKEW_MS <= now.millis() - timestamp_ms <= MAX_CLOCK_SKEW_MS
}

/// A nonce has between one byte and one hundred and twenty-eight.
pub open spec fn is_nonce(s: Seq<char>) -> bool {
    1 <= vstd::utf8::encode_utf8(s).len() <= 128
}

/// The signature fits the message under the key of the agent, or under its
/// previous key while that has not expired.
pub open spec fn is_signed_by(
    agent: AgentRecord,
    message: Seq<u8>,
    signature: Seq<char>,
    now: UtcTime,
) -> bool {
    ||| crypto::signature_fits(agent.credential_pubkey, message, signature)
    ||| agent.credential_pubkey_previous is Some
        && agent.credential_pubkey_previous_expires_at is Some
        && agent.credential_pubkey_previous_expires_at->0.later_than(now) && text::trim(
        agent.credential_pubkey_previous->0,
    ).len() > 0 && crypto::signature_fits(
        agent.credential_pubkey_previous->0,
        message,
        signature,
    )
}

/// Everything but the nonce speaks for the request.
pub open spec fn is_authentic(
    state: StateModel,
    fields: FieldsModel,
    message: Seq<u8>,
    now: UtcTime,
) -> bool {
    &&& is_timely(fields.timestamp_ms, now)
    &&& is_nonce(fields.nonce)
    &&& state.agents.dom().contains(fields.agent_id)
    &&& state.agents[fields.agent_id].state != AgentState::Revoked
    &&& is_signed_by(state.agents[fields.agent_id], message, fields.signature, now)
}

/// The answer to a signed request: a revoked agent is forbidden, and any other
/// flaw, a nonce that was used before among them, makes it unauthorized.
pub open spec fn signed_verdict(
    state: StateModel,
    fields: FieldsModel,
    message: Seq<u8>,
    now: UtcTime,
    elapsed: u64,
) -> Result<(), StatusCode> {
    if is_timely(fields.timestamp_ms, now) && is_nonce(fields.nonce) && state.agents.dom().contains(
        fields.agent_id,
    ) && state.agents[fields.agent_id].state == AgentState::Revoked {
        Err(StatusCode::Forbidden)
    } else if is_authentic(state, fields, message, now) && nonce::is_new(
        state.nonces,
        elapsed,
        fields.agent_id,
        fields.nonce,
    ) {
        Ok(())
    } else {
        Err(StatusCode::Unauthorized)
    }
}

/// The state after a signed request: the nonce of an authentic one is recorded.
pub open spec fn after_signed(
    state: StateModel,
    fields: FieldsModel,
    message: Seq<u8>,
    now: UtcTime,
    elapsed: u64,
) -> StateModel {
    if is_authentic(state, fields, message, now) {
        StateModel {
            nonces: nonce::recorded(state.nonces, elapsed, fields.agent_id, fields.nonce),
            ..state
        }
    } else {
        state
    }
}

/// Whether a request whose headers say `fields` may go on, at the moment `now`
/// and `elapsed` nanoseconds after the start. `canonical` is the text that the
/// agents' protocol builds from the request for the signature.
pub fn verify_signed_agent_request_at(
    state: &mut AppState,
    fields: &SignedFields,
    canonical: &[u8],
    now: &UtcTime,
    elapsed: u64,
) -> (r: Result<(), StatusCode>)
    ensures
        r == signed_verdict(old(state).model(), fields@, canonical@, *now, elapsed),
        final(state).model() == after_signed(
            old(state).model(),
            fields@,
            canonical@,
            *now,
            elapsed,
        ),
{
    let skew: i128 = now.timestamp_millis() - (fields.timestamp_ms as i128);
    if skew > MAX_CLOCK_SKEW_MS as i128 || skew < -(MAX_CLOCK_SKEW_MS as i128) {
        return Err(StatusCode::Unauthorized);
    }
    let nonce_len = fields.nonce.as_str().as_bytes().len();
    if nonce_len == 0 || nonce_len > 128 {
        return Err(StatusCode::Unauthorized);
    }
    let agent = match tables::agents_get(&state.agents, fields.agent_id) {
        Some(a) => a,
        None => {
            return Err(StatusCode::Unauthorized);
        },
    };
    if agent.state == AgentState::Revoked {
        return Err(StatusCode::Forbidden);
    }
    let signature = fields.signature.as_str();
    let mut verified = crypto::verify_ed25519(
        agent.credential_pubkey.as_str(),
        canonical,
        signature,
    );
    if !verified {
        match (&agent.credential_pubkey_previous, &agent.credential_pubkey_previous_expires_at) {
            (Some(previous), Some(expires)) => {
                let trimmed = text::trim_text(previous.as_str());
                let chars = text::chars_of(trimmed.as_str());
                verified = expires.is_after(now) && chars.len() > 0 && crypto::verify_ed25519(
                    previous.as_str(),
                    canonical,
                    signature,
                );
            },
            _ => {},
        }
    }
    if !verified {
        return Err(StatusCode::Unauthorized);
    }
    if !state.nonces.insert_at(elapsed, fields.agent_id, fields.nonce.as_str()) {
        return Err(StatusCode::Unauthorized);
    }
    Ok(())
}

/// Whether a request whose headers say `fields` may go on.
pub fn verify_signed_agent_request(
    state: &mut AppState,
    fields: &SignedFields,
    canonical: &[u8],
) -> (r: Result<(), StatusCode>)
    ensures
        exists|now: UtcTime, elapsed: u64|
            r == signed_verdict(old(state).model(), fields@, canonical@, now, elapsed)
                && final(state).model() == #[trigger] after_signed(
                old(state).model(),
                fields@,
                canonical@,
                now,
                elapsed,
            ),
{
    let now = clock::utc_now();
    let elapsed = state.nonces.elapsed();
    verify_signed_agent_request_at(state, fields, canonical, &now, elapsed)
}

// ---------------------------------------------------------------------------
// Enrollment
// ---------------------------------------------------------------------------

/// What an agent sends to enroll, as far as the proxy looks at it.
pub struct EnrollRequest {
    pub enrollment_token: String,
    pub agent_id: Option<u128>,
    pub public_key: String,
}

/// The form of an enrollment token: `enr_` and forty-eight hexadecimal digits.
pub open spec fn is_token(s: Seq<char>) -> bool {
    &&& "enr_"@.is_prefix_of(s)
    &&& s.len() == 52
    &&& forall|i: int| 4 <= i < 52 ==> text::is_hex_digit(#[trigger] s[i])
}

/// The form of a public key: the base64 text of thirty-two bytes.
pub open spec fn is_public_key(s: Seq<char>) -> bool {
    encoding::base64_bytes(s) matches Some(b) && b.len() == 32
}

/// The token may be used by the agent that names itself so: a token that is
/// bound to a machine is for that machine, and one that is not is for an agent
/// that has no identity yet.
pub open spec fn binding_fits(bound: Option<u128>, agent_id: Option<u128>) -> bool {
    match (bound, agent_id) {
        (Some(b), Some(a)) => b == a,
        (Some(_), None) => true,
        (None, Some(_)) => false,
        (None, None) => true,
    }
}

/// The token has not expired at `now` and was not used.
pub open spec fn is_fresh(token: TokenRecord, now: UtcTime) -> bool {
    clock::utc_value(token.expires_at) matches Some(t) && t.later_than(now) && token.used_at is None
}

/// The answer to an enrollment, before the server sees it. What the body of the
/// request says is `request`; none where it is not well formed.
pub open spec fn enroll_verdict(
    state: StateModel,
    request: Option<EnrollRequest>,
    now: UtcTime,
) -> Result<(), StatusCode> {
    match request {
        None => Err(StatusCode::BadRequest),
        Some(q) => {
            let key = crypto::token_hmac(state.config.api_key_pepper, q.enrollment_token@);
            if !is_token(q.enrollment_token@) {
                Err(StatusCode::Unauthorized)
            } else if !is_public_key(text::trim(q.public_key@)) {
                Err(StatusCode::BadRequest)
            } else if state.tokens.dom().contains(key) && is_fresh(state.tokens[key], now)
                && binding_fits(state.tokens[key].bound_machine_id, q.agent_id) {
                Ok(())
            } else {
                Err(StatusCode::Unauthorized)
            }
        },
    }
}

/// Whether a token that is bound so may be used by an agent that names itself
/// so.
pub fn binding_accepts(bound: Option<u128>, agent_id: Option<u128>) -> (r: bool)
    ensures
        r == binding_fits(bound, agent_id),
{
    match (bound, agent_id) {
        (Some(b), Some(a)) => b == a,
        (Some(_), None) => true,
        (None, Some(_)) => false,
        (None, None) => true,
    }
}

fn has_token_form(s: &str) -> (r: bool)
    ensures
        r == is_token(s@),
{
    if !text::starts_with(s, "enr_") {
        return false;
    }
    let v = text::chars_of(s);
    if v.len() != 52 {
        return false;
    }
    let mut i: usize = 4;
    while i < 52
        invariant
            4 <= i <= 52,
            v@.len() == 52,
            v@ == s@,
            forall|j: int| 4 <= j < i ==> text::is_hex_digit(#[trigger] v@[j]),
        decreases 52 - i,
    {
        if text::char_hex_value(v[i]).is_none() {
            assert(!text::is_hex_digit(s@[i as int]));
            return false;
        }
        i = i + 1;
    }
    true
}

/// Whether an enrollment may go on to the server at the moment `now`.
pub fn precheck_enroll_at(
    state: &AppState,
    request: &Option<EnrollRequest>,
    now: &UtcTime,
) -> (r: Result<(), StatusCode>)
    ensures
        r == enroll_verdict(state.model(), *request, *now),
{
    let request = match request {
        Some(q) => q,
        None => {
            return Err(StatusCode::BadRequest);
        },
    };
    if !has_token_form(request.enrollment_token.as_str()) {
        return Err(StatusCode::Unauthorized);
    }
    let key_text = text::trim_text(request.public_key.as_str());
    let key_bytes = match encoding::decode_base64(key_text.as_str()) {
        Some(b) => b,
        None => {
            return Err(StatusCode::BadRequest);
        },
    };
    if key_bytes.len() != 32 {
        return Err(StatusCode::BadRequest);
    }
    let token_hmac = crypto::hmac_sha256_hex(
        state.config.api_key_pepper.as_str(),
        request.enrollment_token.as_str(),
    );
    let token = match tables::tokens_get(&state.enrollment_tokens, token_hmac.as_str()) {
        Some(t) => t,
        None => {
            return Err(StatusCode::Unauthorized);
        },
    };
    let expires_at = match clock::parse_utc(token.expires_at.as_str()) {
        Some(t) => t,
        None => {
            return Err(StatusCode::Unauthorized);
        },
    };
    if !expires_at.is_after(now) {
        return Err(StatusCode::Unauthorized);
    }
    if token.used_at.is_some() {
        return Err(StatusCode::Unauthorized);
    }
    if !binding_accepts(token.bound_machine_id, request.agent_id) {
        return Err(StatusCode::Unauthorized);
    }
    Ok(())
}

/// Whether an enrollment may go on to the server.
pub fn precheck_enroll(state: &AppState, request: &Option<EnrollRequest>) -> (r: Result<
    (),
    StatusCode,
>)
    ensures
        exists|now: UtcTime| r == #[trigger] enroll_verdict(state.model(), *request, now),
{
    let now = clock::utc_now();
    precheck_enroll_at(state, request, &now)
}

// ---------------------------------------------------------------------------
// What the verdicts promise
// ---------------------------------------------------------------------------

/// A request is let through if, and only if, it is of a known agent that is not
/// revoked, its clock is right, its nonce is well formed and new, and its
/// signature fits a key of the agent that counts.
pub proof fn lemma_admitted(
    state: StateModel,
    fields: FieldsModel,
    message: Seq<u8>,
    now: UtcTime,
    elapsed: u64,
)
    ensures
        (signed_verdict(state, fields, message, now, elapsed) is Ok) == {
            &&& state.agents.dom().contains(fields.agent_id)
            &&& state.agents[fields.agent_id].state != AgentState::Revoked
            &&& is_timely(fields.timestamp_ms, now)
            &&& is_nonce(fields.nonce)
            &&& nonce::is_new(state.nonces, elapsed, fields.agent_id, fields.nonce)
            &&& is_signed_by(state.agents[fields.agent_id], message, fields.signature, now)
        },
{
}

/// A revoked agent is let through with no request.
pub proof fn lemma_revoked_refused(
    state: StateModel,
    fields: FieldsModel,
    message: Seq<u8>,
    now: UtcTime,
    elapsed: u64,
)
    requires
        state.agents.dom().contains(fields.agent_id),
        state.agents[fields.agent_id].state == AgentState::Revoked,
    ensures
        signed_verdict(state, fields, message, now, elapsed) is Err,
{
}

/// A request that was let through is not let through a second time, whatever it
/// asks for, while its nonce is remembered.
pub proof fn lemma_replay_unauthorized(
    state: StateModel,
    fields: FieldsModel,
    message: Seq<u8>,
    now: UtcTime,
    elapsed: u64,
    again: FieldsModel,
    message_again: Seq<u8>,
    later: UtcTime,
    elapsed_later: u64,
)
    requires
        signed_verdict(state, fields, message, now, elapsed) == Ok::<(), StatusCode>(()),
        again.agent_id == fields.agent_id,
        again.nonce == fields.nonce,
        elapsed_later < elapsed + nonce::TTL_NANOS,
    ensures
        signed_verdict(
            after_signed(state, fields, message, now, elapsed),
            again,
            message_again,
            later,
            elapsed_later,
        ) == Err::<(), StatusCode>(StatusCode::Unauthorized),
{
    nonce::lemma_replay_refused(
        state.nonces,
        fields.agent_id,
        fields.nonce,
        elapsed,
        elapsed_later,
    );
}

/// A request that is refused leaves no trace but for the nonce of one that was
/// authentic; in particular a forged request uses up no nonce of the agent.
pub proof fn lemma_forgery_leaves_no_trace(
    state: StateModel,
    fields: FieldsModel,
    message: Seq<u8>,
    now: UtcTime,
    elapsed: u64,
)
    requires
        !is_authentic(state, fields, message, now),
    ensures
        signed_verdict(state, fields, message, now, elapsed) is Err,
        after_signed(state, fields, message, now, elapsed) == state,
{
}

/// An enrollment goes on only with a token that the server has announced, that
/// has not expired and was not used, and that is meant for this agent.
pub proof fn lemma_enroll_admitted(state: StateModel, request: EnrollRequest, now: UtcTime)
    requires
        enroll_verdict(state, Some(request), now) == Ok::<(), StatusCode>(()),
    ensures
        ({
            let key = crypto::token_hmac(
                state.config.api_key_pepper,
                request.enrollment_token@,
            );
            &&& state.tokens.dom().contains(key)
            &&& is_fresh(state.tokens[key], now)
            &&& binding_fits(state.tokens[key].bound_machine_id, request.agent_id)
        }),
        is_token(request.enrollment_token@),
        is_public_key(text::trim(request.public_key@)),
{
}

/// A token that is bound to one machine is refused to an agent that names
/// itself otherwise, and one that is not bound is refused to an agent that
/// names itself at all.
pub proof fn lemma_binding_mismatch_refused(
    state: StateModel,
    request: EnrollRequest,
    now: UtcTime,
)
    requires
        ({
            let key = crypto::token_hmac(
                state.config.api_key_pepper,
                request.enrollment_token@,
            );
            request.agent_id is Some && (state.tokens.dom().contains(key)
                ==> state.tokens[key].bound_machine_id != request.agent_id)
        }),
    ensures
        enroll_verdict(state, Some(request), now) is Err,
{
}

/// A request of a known agent that is not revoked, whose clock is at most five
/// minutes off, whose nonce has one to a hundred and twenty-eight bytes and was
/// not seen within the last three hundred seconds, and which is signed with the
/// agent's key, is let through, whatever other key the agent has had.
pub proof fn lemma_current_key_admits(
    state: StateModel,
    fields: FieldsModel,
    message: Seq<u8>,
    now: UtcTime,
    elapsed: u64,
)
    requires
        state.agents.dom().contains(fields.agent_id),
        state.agents[fields.agent_id].state != AgentState::Revoked,
        now.secs * 1000 + now.nanos as int / 1_000_000 - fields.timestamp_ms <= 300_000,
        fields.timestamp_ms - (now.secs * 1000 + now.nanos as int / 1_000_000) <= 300_000,
        1 <= vstd::utf8::encode_utf8(fields.nonce).len() <= 128,
        state.nonces.dom().contains((fields.agent_id, fields.nonce)) ==> elapsed
            >= state.nonces[(fields.agent_id, fields.nonce)] + 300_000_000_000,
        crypto::signature_fits(
            state.agents[fields.agent_id].credential_pubkey,
            message,
            fields.signature,
        ),
    ensures
        signed_verdict(state, fields, message, now, elapsed) == Ok::<(), StatusCode>(()),
{
}

/// The same holds of a request that is signed with the previous key, until that
/// has expired.
pub proof fn lemma_previous_key_admits(
    state: StateModel,
    fields: FieldsModel,
    message: Seq<u8>,
    now: UtcTime,
    elapsed: u64,
    previous: Seq<char>,
    expires: UtcTime,
)
    requires
        state.agents.dom().contains(fields.agent_id),
        state.agents[fields.agent_id].state != AgentState::Revoked,
        now.secs * 1000 + now.nanos as int / 1_000_000 - fields.timestamp_ms <= 300_000,
        fields.timestamp_ms - (now.secs * 1000 + now.nanos as int / 1_000_000) <= 300_000,
        1 <= vstd::utf8::encode_utf8(fields.nonce).len() <= 128,
        state.nonces.dom().contains((fields.agent_id, fields.nonce)) ==> elapsed
            >= state.nonces[(fields.agent_id, fields.nonce)] + 300_000_000_000,
        state.agents[fields.agent_id].credential_pubkey_previous == Some(previous),
        state.agents[fields.agent_id].credential_pubkey_previous_expires_at == Some(expires),
        expires.secs > now.secs || (expires.secs == now.secs && expires.nanos > now.nanos),
        crypto::signature_fits(previous, message, fields.signature),
    ensures
        signed_verdict(state, fields, message, now, elapsed) == Ok::<(), StatusCode>(()),
{
    lemma_key_is_not_blank(previous, message, fields.signature);
}

proof fn lemma_key_is_not_blank(key: Seq<char>, message: Seq<u8>, signature: Seq<char>)
    requires
        crypto::signature_fits(key, message, signature),
    ensures
        text::trim(key).len() > 0,
{
    crypto::lemma_signature_needs_base64(key, message, signature);
    let (b, s) = choose|b: Seq<u8>, s: Seq<u8>|
        #[trigger] encoding::base64_text(b) == key && #[trigger] encoding::base64_text(s)
            == signature && b.len() == 32 && s.len() == 64 && crypto::ed25519_accepts(b, message, s);
    encoding::lemma_base64_visible(b);
    text::lemma_trimmed(key);
    let t = text::trim(key);
    let (x, y) = choose|x: Seq<char>, y: Seq<char>|
        text::is_blank(x) && text::is_blank(y) && key == #[trigger] (x + t + y);
    assert(key.len() > 0);
    if t.len() == 0 {
        assert(text::is_space(key[0])) by {
            if x.len() > 0 {
                assert(key[0] == x[0]);
            } else {
                assert(key[0] == y[0]);
            }
        }
        let c = encoding::base64_text(b)[0];
        assert(' ' < c && c <= '~');
    }
}

/// Nothing else is let through: a request that is has all of this, and is signed
/// with the agent's key, or with its previous one before that has expired.
pub proof fn lemma_admitted_is_sound(
    state: StateModel,
    fields: FieldsModel,
    message: Seq<u8>,
    now: UtcTime,
    elapsed: u64,
)
    requires
        signed_verdict(state, fields, message, now, elapsed) is Ok,
    ensures
        state.agents.dom().contains(fields.agent_id),
        state.agents[fields.agent_id].state != AgentState::Revoked,
        now.secs * 1000 + now.nanos as int / 1_000_000 - fields.timestamp_ms <= 300_000,
        fields.timestamp_ms - (now.secs * 1000 + now.nanos as int / 1_000_000) <= 300_000,
        1 <= vstd::utf8::encode_utf8(fields.nonce).len() <= 128,
        state.nonces.dom().contains((fields.agent_id, fields.nonce)) ==> elapsed
            >= state.nonces[(fields.agent_id, fields.nonce)] + 300_000_000_000,
        crypto::signature_fits(
            state.agents[fields.agent_id].credential_pubkey,
            message,
            fields.signature,
        ) || ({
            let agent = state.agents[fields.agent_id];
            let expires = agent.credential_pubkey_previous_expires_at;
            &&& agent.credential_pubkey_previous is Some
            &&& expires is Some
            &&& expires->0.secs > now.secs || (expires->0.secs == now.secs && expires->0.nanos
                > now.nanos)
            &&& crypto::signature_fits(
                agent.credential_pubkey_previous->0,
                message,
                fields.signature,
            )
        }),
{
}

/// A request with the right clock and a well-formed nonce of a revoked agent is
/// forbidden; whatever else is refused is unauthorized.
pub proof fn lemma_refusals(
    state: StateModel,
    fields: FieldsModel,
    message: Seq<u8>,
    now: UtcTime,
    elapsed: u64,
)
    requires
        signed_verdict(state, fields, message, now, elapsed) is Err,
    ensures
        signed_verdict(state, fields, message, now, elapsed) == if -300_000 <= now.secs * 1000
            + now.nanos as int / 1_000_000 - fields.timestamp_ms <= 300_000 && 0
            < vstd::utf8::encode_utf8(fields.nonce).len() < 129 && state.agents.dom().contains(
            fields.agent_id,
        ) && state.agents[fields.agent_id].state == AgentState::Revoked {
            Err::<(), StatusCode>(StatusCode::Forbidden)
        } else {
            Err::<(), StatusCode>(StatusCode::Unauthorized)
        },
{
}

/// A request that is let through leaves its nonce behind, with the time, and
/// forgets only nonces that are older than three hundred seconds; one that is
/// refused changes no time of a nonce and adds none. Nothing but nonces changes.
pub proof fn lemma_trace_of_a_request(
    state: StateModel,
    fields: FieldsModel,
    message: Seq<u8>,
    now: UtcTime,
    elapsed: u64,
    k: (u128, Seq<char>),
)
    ensures
        ({
            let after = after_signed(state, fields, message, now, elapsed);
            let admitted = signed_verdict(state, fields, message, now, elapsed) is Ok;
            let own = k == (fields.agent_id, fields.nonce);
            &&& after == (StateModel { nonces: after.nonces, ..state })
            &&& admitted && own ==> after.nonces.dom().contains(k) && after.nonces[k] == elapsed
            &&& !(admitted && own) && after.nonces.dom().contains(k) ==> state.nonces.dom().contains(
                k,
            ) && after.nonces[k] == state.nonces[k]
            &&& state.nonces.dom().contains(k) && elapsed < state.nonces[k] + 300_000_000_000
                ==> after.nonces.dom().contains(k)
        }),
{
}

/// The headers say what they say by their first values, whatever case their names
/// are given in: each of the four has to be there, the identity as a UUID and the
/// time as a decimal number.
pub proof fn lemma_fields_from_headers(
    h: headers::Headers,
    names: SigningHeaders,
    fields: FieldsModel,
)
    requires
        fields_of(h, names) == Some(fields),
    ensures
        ({
            let a = text::lower(names.agent_id@);
            let t = text::lower(names.timestamp@);
            let n = text::lower(names.nonce@);
            let s = text::lower(names.signature@);
            &&& h.dom().contains(a) && h.dom().contains(t) && h.dom().contains(n)
                && h.dom().contains(s)
            &&& ids::uuid_value(headers::ascii_text(h[a][0])) == Some(fields.agent_id)
            &&& text::i64_value(headers::ascii_text(h[t][0])) == Some(fields.timestamp_ms as int)
            &&& fields.nonce == headers::ascii_text(h[n][0])
            &&& fields.signature == headers::ascii_text(h[s][0])
        }),
{
    lemma_i64_in_range(headers::ascii_text(h[text::lower(names.timestamp@)][0]));
}

proof fn lemma_i64_in_range(s: Seq<char>)
    ensures
        text::i64_value(s) is Some ==> i64::MIN <= text::i64_value(s)->0 <= i64::MAX,
{
}

/// An enrollment goes on where its token has the right form and was announced
/// under its HMAC, has not expired and was not used, the key has thirty-two
/// bytes, and the token is for this machine, or is for none and the agent has no
/// identity, or is for some machine and the agent does not say which it is.
pub proof fn lemma_enroll_goes_on(
    state: StateModel,
    request: EnrollRequest,
    digits: Seq<char>,
    key: Seq<u8>,
    token: TokenRecord,
    expires: (i64, u32),
    now: UtcTime,
)
    requires
        request.enrollment_token@ == seq!['e', 'n', 'r', '_'] + digits,
        digits.len() == 48,
        forall|i: int|
            0 <= i < 48 ==> ('0' <= #[trigger] digits[i] && digits[i] <= '9') || ('a' <= digits[i]
                && digits[i] <= 'f') || ('A' <= digits[i] && digits[i] <= 'F'),
        text::trim(request.public_key@) == encoding::base64_text(key),
        key.len() == 32,
        state.tokens.dom().contains(
            crypto::token_hmac(state.config.api_key_pepper, request.enrollment_token@),
        ),
        token == state.tokens[crypto::token_hmac(
            state.config.api_key_pepper,
            request.enrollment_token@,
        )],
        clock::rfc3339_value(token.expires_at) == Some(expires),
        expires.0 > now.secs || (expires.0 == now.secs && expires.1 > now.nanos),
        token.used_at is None,
        request.agent_id is Some ==> token.bound_machine_id == request.agent_id,
    ensures
        enroll_verdict(state, Some(request), now) == Ok::<(), StatusCode>(()),
{
    reveal_strlit("enr_");
    let s = request.enrollment_token@;
    assert(s.subrange(0, 4) =~= "enr_"@);
    assert forall|i: int| 4 <= i < 52 implies text::is_hex_digit(#[trigger] s[i]) by {
        assert(s[i] == digits[i - 4]);
    }
    encoding::lemma_base64_round_trip(key);
}

/// Nothing else goes on: the token of an enrollment that does is `enr_` and
/// forty-eight hexadecimal digits, it was announced, is not spent and not
/// expired, and an agent that says which machine it is has a token for that one.
pub proof fn lemma_enroll_is_sound(state: StateModel, request: EnrollRequest, now: UtcTime)
    requires
        enroll_verdict(state, Some(request), now) is Ok,
    ensures
        ({
            let s = request.enrollment_token@;
            let key = crypto::token_hmac(state.config.api_key_pepper, s);
            let token = state.tokens[key];
            let expires = clock::rfc3339_value(token.expires_at);
            &&& s.len() == 52
            &&& s[0] == 'e' && s[1] == 'n' && s[2] == 'r' && s[3] == '_'
            &&& forall|i: int|
                4 <= i < 52 ==> ('0' <= #[trigger] s[i] && s[i] <= '9') || ('a' <= s[i] && s[i]
                    <= 'f') || ('A' <= s[i] && s[i] <= 'F')
            &&& exists|b: Seq<u8>|
                b.len() == 32 && #[trigger] encoding::base64_text(b) == text::trim(
                    request.public_key@,
                )
            &&& state.tokens.dom().contains(key)
            &&& expires matches Some((secs, nanos)) && (secs > now.secs || (secs == now.secs
                && nanos > now.nanos))
            &&& token.used_at is None
            &&& request.agent_id is Some ==> token.bound_machine_id == request.agent_id
        }),
{
    reveal_strlit("enr_");
    let s = request.enrollment_token@;
    let p = "enr_"@;
    assert(p == s.subrange(0, 4));
    assert(p[0] == 'e' && p[1] == 'n' && p[2] == 'r' && p[3] == '_');
    assert forall|i: int| 4 <= i < 52 implies ('0' <= #[trigger] s[i] && s[i] <= '9') || ('a'
        <= s[i] && s[i] <= 'f') || ('A' <= s[i] && s[i] <= 'F') by {
        assert(text::is_hex_digit(s[i]));
    }
    let b = encoding::base64_bytes(text::trim(request.public_key@))->0;
    assert(encoding::base64_text(b) == text::trim(request.public_key@));
}

/// A body that is not well formed, or one with a key that is none under a
/// well-formed token, is a bad request; any other enrollment that is refused is
/// unauthorized.
pub proof fn lemma_enroll_refusals(
    state: StateModel,
    request: Option<EnrollRequest>,
    now: UtcTime,
)
    requires
        enroll_verdict(state, request, now) is Err,
    ensures
        (enroll_verdict(state, request, now)->Err_0 == StatusCode::BadRequest) == (match request {
            None => true,
            Some(q) => is_token(q.enrollment_token@) && forall|b: Seq<u8>|
                #[trigger] encoding::base64_text(b) == text::trim(q.public_key@) ==> b.len() != 32,
        }),
        enroll_verdict(state, request, now)->Err_0 == StatusCode::BadRequest || enroll_verdict(
            state,
            request,
            now,
        )->Err_0 == StatusCode::Unauthorized,
{
    if request is Some {
        let key = text::trim(request->0.public_key@);
        assert forall|b: Seq<u8>| #[trigger] encoding::base64_text(b) == key implies encoding::base64_bytes(
            key,
        ) == Some(b) by {
            encoding::lemma_base64_round_trip(b);
        }
    }
}

/// Headers that are all there, with an identifier and a number among them, are
/// enough for a signed request.
pub proof fn lemma_fields_are_read(h: headers::Headers, names: SigningHeaders)
    requires
        headers::header_str(h, names.agent_id@) matches Some(id) && ids::uuid_value(id) is Some,
        headers::header_str(h, names.timestamp@) matches Some(t) && text::i64_value(t) is Some,
        headers::header_str(h, names.nonce@) is Some,
        headers::header_str(h, names.signature@) is Some,
    ensures
        fields_of(h, names) is Some,
{
}

} // verus!
