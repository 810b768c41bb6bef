//! The state of the proxy.

use dashmap::DashMap;
use std::time::Instant;
use vstd::prelude::*;
use vstd::string::*;

use crate::artifact_cache;
use crate::artifact_cache::ArtifactCache;
use crate::artifact_cache::BlobFile;
use crate::artifact_cache::CacheModel;
use crate::clock;
use crate::config::Config;
use crate::config::ConfigModel;
use crate::crypto::ProxyKeypair;
use crate::ids;
use crate::nonce;
use crate::nonce::NonceCache;
use crate::records::AgentRecord;
use crate::records::AgentState;
use crate::records::CachedAgent;
use crate::records::ProxySyncEnrollmentToken;
use crate::records::RateWindow;
use crate::tables;
use crate::text;

verus! {

/// How many clients are remembered at most.
pub const MAX_RATE_ENTRIES: usize = 8192;

/// How many enrollments a client may ask for in a window.
pub const ENROLL_LIMIT: u32 = 10;

/// How many other requests a client may make in a window.
pub const GENERAL_LIMIT: u32 = 120;

/// The state of the proxy.
pub struct AppState {
    pub config: Config,
    pub(crate) keypair: ProxyKeypair,
    pub(crate) proxy_id: Option<u128>,
    pub(crate) agents: DashMap<u128, CachedAgent>,
    pub(crate) enrollment_tokens: DashMap<String, ProxySyncEnrollmentToken>,
    pub(crate) proxy_enrollment_tokens: DashMap<String, ProxySyncEnrollmentToken>,
    pub(crate) nonces: NonceCache,
    pub artifact_cache: ArtifactCache,
    pub(crate) rate_limits: DashMap<String, RateWindow>,
    pub(crate) forwarding: bool,
    pub(crate) started_at: Instant,
}

/// The state as plain values. The times of the windows are counted from
/// `origin`, those of the nonces from `nonce_origin`.
#[verifier::ext_equal]
pub struct StateModel {
    pub config: ConfigModel,
    pub seed: Seq<u8>,
    pub proxy_id: Option<u128>,
    pub agents: tables::Agents,
    pub tokens: tables::Tokens,
    pub proxy_tokens: tables::Tokens,
    pub nonces: nonce::Seen,
    pub cache: CacheModel,
    pub rates: tables::Rates,
    pub forwarding: bool,
    pub origin: Instant,
    pub nonce_origin: Instant,
}

/// The stored identity of the proxy is no identifier.
#[derive(Clone, Copy, PartialEq, Eq, Structural, Debug)]
pub struct StoredIdError;

/// The identity that a stored text stands for; none where nothing is stored.
pub open spec fn stored_identity(stored: Option<Seq<char>>) -> Result<Option<u128>, StoredIdError> {
    match stored {
        None => Ok(None),
        Some(s) => match ids::uuid_value(text::trim(s)) {
            Some(id) => Ok(Some(id)),
            None => Err(StoredIdError),
        },
    }
}

/// The text under which an identity is stored: the same identity is read from
/// it at the next start.
pub fn proxy_id_text(id: u128) -> (r: String)
    ensures
        r@ == ids::uuid_text(id),
        stored_identity(Some(r@)) == Ok::<Option<u128>, StoredIdError>(Some(id)),
{
    proof {
        ids::lemma_uuid_text_round_trip(id);
    }
    ids::uuid_to_text(id)
}

/// The view of an optional borrowed text.
pub open spec fn opt_str(s: Option<&str>) -> Option<Seq<char>> {
    match s {
        Some(t) => Some(t@),
        None => None,
    }
}

// ---------------------------------------------------------------------------
// Rate limiting
// ---------------------------------------------------------------------------

/// A window that begins at `now`.
pub open spec fn fresh_window(now: u64) -> RateWindow {
    RateWindow { window_start: now, enroll_count: 0, general_count: 0 }
}

/// One more than `n`, up to the largest number.
pub open spec fn one_more(n: u32) -> u32 {
    if n < u32::MAX {
        (n + 1) as u32
    } else {
        n
    }
}

/// The clients that are remembered when a request comes: a full table first
/// loses those whose windows have run out.
pub open spec fn remembered(rates: tables::Rates, now: u64) -> tables::Rates {
    if rates.dom().len() >= MAX_RATE_ENTRIES {
        tables::open_windows(rates, now)
    } else {
        rates
    }
}

/// There is no room in the table for the client.
pub open spec fn crowded_out(rates: tables::Rates, now: u64, client: Seq<char>) -> bool {
    remembered(rates, now).dom().len() >= MAX_RATE_ENTRIES && !remembered(
        rates,
        now,
    ).dom().contains(client)
}

/// The window of the client in which a request at `now` counts.
pub open spec fn current_window(rates: tables::Rates, now: u64, client: Seq<char>) -> RateWindow {
    let kept = remembered(rates, now);
    if kept.dom().contains(client) && kept[client].open_at(now) {
        kept[client]
    } else {
        fresh_window(now)
    }
}

/// The window with one more request in it.
pub open spec fn counted(w: RateWindow, enroll: bool) -> RateWindow {
    if enroll {
        RateWindow { enroll_count: one_more(w.enroll_count), ..w }
    } else {
        RateWindow { general_count: one_more(w.general_count), ..w }
    }
}

/// The request is within the limit of its client.
pub open spec fn within_limit(
    rates: tables::Rates,
    now: u64,
    client: Seq<char>,
    enroll: bool,
) -> bool {
    let w = counted(current_window(rates, now, client), enroll);
    !crowded_out(rates, now, client) && if enroll {
        w.enroll_count <= ENROLL_LIMIT
    } else {
        w.general_count <= GENERAL_LIMIT
    }
}

/// The table once the request is counted.
pub open spec fn after_request(
    rates: tables::Rates,
    now: u64,
    client: Seq<char>,
    enroll: bool,
) -> tables::Rates {
    if crowded_out(rates, now, client) {
        remembered(rates, now)
    } else {
        remembered(rates, now).insert(
            client,
            counted(current_window(rates, now, client), enroll),
        )
    }
}

impl AppState {
    /// The state as plain values.
    pub open(crate) spec fn model(&self) -> StateModel {
        StateModel {
            config: self.config@,
            seed: self.keypair.seed(),
            proxy_id: self.proxy_id,
            agents: tables::agent_table(self.agents),
            tokens: tables::token_table(self.enrollment_tokens),
            proxy_tokens: tables::token_table(self.proxy_enrollment_tokens),
            nonces: self.nonces.seen(),
            cache: self.artifact_cache.model(),
            rates: tables::rate_table(self.rate_limits),
            forwarding: self.forwarding,
            origin: self.started_at,
            nonce_origin: self.nonces.origin(),
        }
    }

    /// The state at the start: with the configuration, the key pair, the
    /// identity that is stored, if any, and the blobs that were found, if any.
    /// Nothing is forwarded yet.
    pub fn new(
        config: Config,
        keypair: ProxyKeypair,
        stored_id: Option<&str>,
        blobs: &Vec<BlobFile>,
    ) -> (r: Result<Self, StoredIdError>)
        ensures
            match r {
                Ok(s) => {
                    &&& stored_identity(opt_str(stored_id)) == Ok::<Option<u128>, StoredIdError>(
                        s.model().proxy_id,
                    )
                    &&& s.model().config == config@
                    &&& s.model().seed == keypair.seed()
                    &&& s.model().agents == tables::Agents::empty()
                    &&& s.model().tokens == tables::Tokens::empty()
                    &&& s.model().proxy_tokens == tables::Tokens::empty()
                    &&& s.model().nonces == nonce::Seen::empty()
                    &&& s.model().rates == tables::Rates::empty()
                    &&& !s.model().forwarding
                    &&& exists|now: u64|
                        s.model().cache == #[trigger] artifact_cache::taken_over(
                            artifact_cache::empty_cache(s.model().cache.origin),
                            blobs@,
                            now,
                        )
                },
                Err(e) => stored_identity(opt_str(stored_id)) == Err::<Option<u128>, StoredIdError>(
                    e,
                ),
            },
    {
        let proxy_id = match stored_id {
            Some(raw) => {
                let trimmed = text::trim_text(raw);
                match ids::parse_uuid(trimmed.as_str()) {
                    Some(id) => Some(id),
                    None => {
                        return Err(StoredIdError);
                    },
                }
            },
            None => None,
        };
        let mut cache = ArtifactCache::new();
        let ghost empty = cache.model();
        cache.bootstrap(blobs);
        let s = AppState {
            config,
            keypair,
            proxy_id,
            agents: tables::agents_new(),
            enrollment_tokens: tables::tokens_new(),
            proxy_enrollment_tokens: tables::tokens_new(),
            nonces: NonceCache::new(),
            artifact_cache: cache,
            rate_limits: tables::rates_new(),
            forwarding: false,
            started_at: clock::instant_now(),
        };
        proof {
            let now = choose|now: u64|
                s.model().cache == #[trigger] artifact_cache::taken_over(empty, blobs@, now);
            assert(s.model().cache == artifact_cache::taken_over(
                artifact_cache::empty_cache(s.model().cache.origin),
                blobs@,
                now,
            ));
        }
        Ok(s)
    }

    /// Takes a new key pair.
    pub fn replace_keypair(&mut self, keypair: ProxyKeypair)
        ensures
            final(self).model() == (StateModel { seed: keypair.seed(), ..old(self).model() }),
    {
        self.keypair = keypair;
    }

    /// Lets requests through, or stops to.
    pub fn set_forwarding(&mut self, enabled: bool)
        ensures
            final(self).model() == (StateModel { forwarding: enabled, ..old(self).model() }),
    {
        self.forwarding = enabled;
    }

    /// Whether requests are let through.
    pub fn forwarding_enabled(&self) -> (r: bool)
        ensures
            r == self.model().forwarding,
    {
        self.forwarding
    }

    /// The identity of the proxy, where it has one.
    pub fn proxy_id(&self) -> (r: Option<u128>)
        ensures
            r == self.model().proxy_id,
    {
        self.proxy_id
    }

    /// Takes an identity.
    pub fn set_proxy_id(&mut self, id: u128)
        ensures
            final(self).model() == (StateModel { proxy_id: Some(id), ..old(self).model() }),
    {
        self.proxy_id = Some(id);
    }

    /// The key pair.
    pub fn keypair(&self) -> (r: &ProxyKeypair)
        ensures
            r.seed() == self.model().seed,
    {
        &self.keypair
    }

    /// Gives up the identity: requests are no longer let through, and the fresh
    /// key pair, where there is one, takes the place of the old.
    pub fn clear_proxy_identity(&mut self, fresh: Option<ProxyKeypair>)
        ensures
            final(self).model() == (StateModel {
                seed: match fresh {
                    Some(k) => k.seed(),
                    None => old(self).model().seed,
                },
                proxy_id: None,
                forwarding: false,
                ..old(self).model()
            }),
    {
        match fresh {
            Some(k) => {
                self.replace_keypair(k);
            },
            None => {},
        }
        self.proxy_id = None;
        self.set_forwarding(false);
    }

    /// Takes in an agent that has enrolled, with the key that it enrolled with.
    pub fn upsert_agent_from_enroll(
        &mut self,
        agent_id: u128,
        credential_pubkey: &str,
        state: AgentState,
    )
        ensures
            final(self).model() == (StateModel {
                agents: old(self).model().agents.insert(
                    agent_id,
                    AgentRecord {
                        credential_pubkey: text::trim(credential_pubkey@),
                        credential_pubkey_previous: None,
                        credential_pubkey_previous_expires_at: None,
                        state,
                    },
                ),
                ..old(self).model()
            }),
    {
        let agent = CachedAgent {
            credential_pubkey: text::trim_text(credential_pubkey),
            credential_pubkey_previous: None,
            credential_pubkey_previous_expires_at: None,
            state,
        };
        tables::agents_insert(&mut self.agents, agent_id, agent);
    }

    /// Counts a request of the client at the time `now`. The result tells
    /// whether it is within the limit: enrollments and other requests have
    /// limits of their own.
    pub fn check_rate_limit_at(&mut self, now: u64, client_ip: &str, enroll: bool) -> (r: bool)
        ensures
            r == within_limit(old(self).model().rates, now, client_ip@, enroll),
            final(self).model() == (StateModel {
                rates: after_request(old(self).model().rates, now, client_ip@, enroll),
                ..old(self).model()
            }),
    {
        if tables::rates_len(&self.rate_limits) >= MAX_RATE_ENTRIES {
            tables::rates_retain(&mut self.rate_limits, now);
        }
        let ghost kept = tables::rate_table(self.rate_limits);
        assert(kept == remembered(old(self).model().rates, now));
        let known = tables::rates_get(&self.rate_limits, client_ip);
        if known.is_none() && tables::rates_len(&self.rate_limits) >= MAX_RATE_ENTRIES {
            return false;
        }
        let mut window = match known {
            Some(w) => w,
            None => RateWindow { window_start: now, enroll_count: 0, general_count: 0 },
        };
        if !window.is_open(now) {
            window = RateWindow { window_start: now, enroll_count: 0, general_count: 0 };
        }
        assert(window == current_window(old(self).model().rates, now, client_ip@));
        let within = if enroll {
            window.enroll_count = window.enroll_count.saturating_add(1);
            window.enroll_count <= ENROLL_LIMIT
        } else {
            window.general_count = window.general_count.saturating_add(1);
            window.general_count <= GENERAL_LIMIT
        };
        tables::rates_insert(&mut self.rate_limits, client_ip.to_owned(), window);
        within
    }

    /// Counts a request of the client. The result tells whether it is within
    /// the limit.
    pub fn check_rate_limit(&mut self, client_ip: &str, enroll: bool) -> (r: bool)
        ensures
            exists|now: u64|
                r == within_limit(old(self).model().rates, now, client_ip@, enroll)
                    && final(self).model() == (StateModel {
                    rates: #[trigger] after_request(
                        old(self).model().rates,
                        now,
                        client_ip@,
                        enroll,
                    ),
                    ..old(self).model()
                }),
    {
        let now = clock::nanos_since(&self.started_at);
        self.check_rate_limit_at(now, client_ip, enroll)
    }
}

/// Enrollments and other requests of one client do not count against each
/// other: whether a request is within its limit is the same whether or not a
/// request of the other kind came just before.
pub proof fn lemma_limits_independent(
    rates: tables::Rates,
    now: u64,
    client: Seq<char>,
    enroll: bool,
)
    ensures
        within_limit(after_request(rates, now, client, !enroll), now, client, enroll)
            == within_limit(rates, now, client, enroll),
{
    let kept = remembered(rates, now);
    let after = after_request(rates, now, client, !enroll);
    if crowded_out(rates, now, client) {
        if rates.dom().len() >= MAX_RATE_ENTRIES {
            assert(tables::open_windows(kept, now) =~= kept);
        }
        assert(remembered(after, now) == kept);
    } else {
        let w = counted(current_window(rates, now, client), !enroll);
        assert(w.open_at(now));
        assert(after.dom().contains(client) && after[client] == w);
        assert(remembered(after, now).dom().contains(client));
        assert(remembered(after, now)[client] == w);
        assert(current_window(after, now, client) == w);
    }
}

/// A request of one client leaves the open window of another as it is.
pub proof fn lemma_clients_independent(
    rates: tables::Rates,
    now: u64,
    client: Seq<char>,
    other: Seq<char>,
    enroll: bool,
)
    requires
        other != client,
        rates.dom().contains(other),
        rates[other].open_at(now),
    ensures
        after_request(rates, now, client, enroll).dom().contains(other),
        after_request(rates, now, client, enroll)[other] == rates[other],
{
}

/// Within one window a client is let through as often as its limit says and no
/// more: a request is within the limit exactly while fewer were counted before.
pub proof fn lemma_limit_exact(rates: tables::Rates, now: u64, client: Seq<char>)
    requires
        !crowded_out(rates, now, client),
    ensures
        within_limit(rates, now, client, true) == (current_window(rates, now, client).enroll_count
            < ENROLL_LIMIT),
        within_limit(rates, now, client, false) == (current_window(
            rates,
            now,
            client,
        ).general_count < GENERAL_LIMIT),
{
}

/// The table stays finite.
pub proof fn lemma_after_request_finite(
    rates: tables::Rates,
    now: u64,
    client: Seq<char>,
    enroll: bool,
)
    requires
        rates.dom().finite(),
    ensures
        after_request(rates, now, client, enroll).dom().finite(),
{
    assert(tables::open_windows(rates, now).dom().subset_of(rates.dom()));
    vstd::set_lib::lemma_len_subset(tables::open_windows(rates, now).dom(), rates.dom());
    let kept = remembered(rates, now);
    assert(kept.dom().finite());
    assert(kept.insert(client, counted(current_window(rates, now, client), enroll)).dom()
        =~= kept.dom().insert(client));
}

/// A request of one kind never makes a later one of the other kind go over its
/// limit.
pub proof fn lemma_other_kind_never_blocks(
    rates: tables::Rates,
    client: Seq<char>,
    enroll: bool,
    earlier: u64,
    now: u64,
)
    requires
        rates.dom().finite(),
        earlier <= now,
        within_limit(rates, now, client, enroll),
    ensures
        within_limit(after_request(rates, earlier, client, !enroll), now, client, enroll),
{
    let kept = remembered(rates, earlier);
    let after = after_request(rates, earlier, client, !enroll);
    lemma_after_request_finite(rates, earlier, client, !enroll);
    assert(tables::open_windows(tables::open_windows(rates, earlier), now)
        =~= tables::open_windows(rates, now));
    assert(tables::open_windows(rates, now).dom().subset_of(rates.dom()));
    vstd::set_lib::lemma_len_subset(tables::open_windows(rates, now).dom(), rates.dom());
    assert(tables::open_windows(after, now).dom().subset_of(after.dom()));
    vstd::set_lib::lemma_len_subset(tables::open_windows(after, now).dom(), after.dom());
    if crowded_out(rates, earlier, client) {
        assert(after == tables::open_windows(rates, earlier));
        assert(remembered(after, now) == remembered(rates, now));
    } else {
        let w = counted(current_window(rates, earlier, client), !enroll);
        assert(after.dom().contains(client) && after[client] == w);
        assert(after.dom() =~= kept.dom().insert(client));
        if after.dom().len() >= MAX_RATE_ENTRIES {
            if w.open_at(now) {
                assert(remembered(after, now).dom().contains(client));
            } else {
                assert(tables::open_windows(after, now).dom() =~= tables::open_windows(
                    rates,
                    now,
                ).dom());
                if rates.dom().len() < MAX_RATE_ENTRIES {
                    assert(tables::open_windows(after, now).dom().len() <= rates.dom().len());
                }
            }
        }
        assert(!crowded_out(after, now, client));
    }
}

/// A client that has an open window counts in it: the request adds one to its own
/// count, up to the largest number, and leaves the other count and the beginning
/// of the window as they are. It is within the limit where ten enrollments, or a
/// hundred and twenty other requests, are not exceeded.
pub proof fn lemma_counting_in_a_window(
    rates: tables::Rates,
    now: u64,
    client: Seq<char>,
    enroll: bool,
)
    requires
        rates.dom().contains(client),
        now < rates[client].window_start + 60_000_000_000,
    ensures
        ({
            let before = rates[client];
            let after = after_request(rates, now, client, enroll);
            &&& after.dom().contains(client)
            &&& after[client].window_start == before.window_start
            &&& enroll ==> after[client].general_count == before.general_count
                && after[client].enroll_count == (if before.enroll_count == u32::MAX {
                u32::MAX as int
            } else {
                before.enroll_count + 1
            }) && within_limit(rates, now, client, enroll) == (before.enroll_count < 10)
            &&& !enroll ==> after[client].enroll_count == before.enroll_count
                && after[client].general_count == (if before.general_count == u32::MAX {
                u32::MAX as int
            } else {
                before.general_count + 1
            }) && within_limit(rates, now, client, enroll) == (before.general_count < 120)
        }),
{
}

/// A client without an open window begins one with the request, which is within
/// the limit, unless eight thousand one hundred and ninety-two other clients have
/// open windows by then: such a request is refused, and nothing is kept of it.
pub proof fn lemma_counting_begins(
    rates: tables::Rates,
    now: u64,
    client: Seq<char>,
    enroll: bool,
)
    requires
        rates.dom().finite(),
        rates.dom().contains(client) ==> now >= rates[client].window_start + 60_000_000_000,
    ensures
        ({
            let after = after_request(rates, now, client, enroll);
            let open = Set::new(
                |k: Seq<char>|
                    rates.dom().contains(k) && now < rates[k].window_start + 60_000_000_000,
            );
            &&& rates.dom().len() < 8192 || open.len() < 8192 ==> within_limit(
                rates,
                now,
                client,
                enroll,
            ) && after.dom().contains(client) && after[client] == (RateWindow {
                window_start: now,
                enroll_count: if enroll {
                    1
                } else {
                    0
                },
                general_count: if enroll {
                    0
                } else {
                    1
                },
            })
            &&& rates.dom().len() >= 8192 && open.len() >= 8192 ==> !within_limit(
                rates,
                now,
                client,
                enroll,
            ) && !after.dom().contains(client)
        }),
{
    let open = Set::new(
        |k: Seq<char>| rates.dom().contains(k) && now < rates[k].window_start + 60_000_000_000,
    );
    assert(tables::open_windows(rates, now).dom() =~= open);
}

/// A request of one client does nothing to the others, but that a table of eight
/// thousand one hundred and ninety-two clients or more loses those whose windows
/// have run out.
pub proof fn lemma_other_clients(
    rates: tables::Rates,
    now: u64,
    client: Seq<char>,
    other: Seq<char>,
    enroll: bool,
)
    requires
        other != client,
    ensures
        ({
            let after = after_request(rates, now, client, enroll);
            &&& after.dom().contains(other) == (rates.dom().contains(other) && (rates.dom().len()
                < 8192 || now < rates[other].window_start + 60_000_000_000))
            &&& after.dom().contains(other) ==> after[other] == rates[other]
        }),
{
}

/// A stored identity is read whatever white space is around it; nothing stored is
/// no identity, and a text that is no identifier is an error.
pub proof fn lemma_stored_identity(a: Seq<char>, b: Seq<char>, id: u128, s: Seq<char>)
    requires
        text::is_blank(a),
        text::is_blank(b),
    ensures
        stored_identity(None) == Ok::<Option<u128>, StoredIdError>(None),
        stored_identity(Some(a + ids::uuid_text(id) + b)) == Ok::<Option<u128>, StoredIdError>(
            Some(id),
        ),
        stored_identity(Some(a + s + b)) == stored_identity(Some(s)),
        stored_identity(Some(s)) is Err == ids::uuid_value(text::trim(s)) is None,
{
    text::lemma_trim(a, s, b);
    text::lemma_trim(a, ids::uuid_text(id), b);
    ids::lemma_uuid_text_round_trip(id);
}

} // verus!
