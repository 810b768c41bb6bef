//! The concurrent hash maps that hold what the proxy knows.

use dashmap::DashMap;
use vstd::prelude::*;
use vstd::string::*;

use crate::records;
use crate::records::AgentRecord;
use crate::records::CachedAgent;
use crate::records::ProxySyncEnrollmentToken;
use crate::records::RateWindow;
use crate::records::TokenRecord;
use crate::text;

verus! {

#[verifier::external_type_specification]
#[verifier::external_body]
#[verifier::reject_recursive_types(K)]
#[verifier::reject_recursive_types(V)]
#[verifier::reject_recursive_types(S)]
pub struct ExDashMap<K, V, S>(dashmap::DashMap<K, V, S>);

/// Tables of agents.
pub type Agents = Map<u128, AgentRecord>;

/// Tables of enrollment tokens by their HMAC.
pub type Tokens = Map<Seq<char>, TokenRecord>;

/// Tables of clients by their address.
pub type Rates = Map<Seq<char>, RateWindow>;

/// Tables of the hashes that are known for a path, the newest first.
pub type HashIndex = Map<Seq<char>, Seq<Seq<char>>>;

/// Tables of numbers.
pub type Counts = Map<Seq<char>, u64>;

// ---------------------------------------------------------------------------
// Agents
// ---------------------------------------------------------------------------

/// The agents that a map holds, by their identifiers.
pub uninterp spec fn agent_table(m: DashMap<u128, CachedAgent>) -> Agents;

/// `DashMap::new`: an empty map.
#[verifier::external_body]
pub(crate) fn agents_new() -> (r: DashMap<u128, CachedAgent>)
    ensures
        agent_table(r) == Agents::empty(),
{
    DashMap::new()
}

/// `DashMap::insert`: the agent takes the place of any under its identifier.
#[verifier::external_body]
pub(crate) fn agents_insert(m: &mut DashMap<u128, CachedAgent>, id: u128, agent: CachedAgent)
    ensures
        agent_table(*final(m)) == agent_table(*old(m)).insert(id, agent@),
{
    m.insert(id, agent);
}

/// `DashMap::get`: a copy of the agent under the identifier.
#[verifier::external_body]
pub(crate) fn agents_get(m: &DashMap<u128, CachedAgent>, id: u128) -> (r: Option<CachedAgent>)
    ensures
        match r {
            Some(agent) => agent_table(*m).dom().contains(id) && agent_table(*m)[id] == agent@,
            None => !agent_table(*m).dom().contains(id),
        },
{
    m.get(&id).map(|e| e.value().clone())
}

/// `DashMap::clear`: drops all agents.
#[verifier::external_body]
pub(crate) fn agents_clear(m: &mut DashMap<u128, CachedAgent>)
    ensures
        agent_table(*final(m)) == Agents::empty(),
{
    m.clear();
}

// ---------------------------------------------------------------------------
// Enrollment tokens
// ---------------------------------------------------------------------------

/// The tokens that a map holds, by their HMAC.
pub uninterp spec fn token_table(m: DashMap<String, ProxySyncEnrollmentToken>) -> Tokens;

/// `DashMap::new`: an empty map.
#[verifier::external_body]
pub(crate) fn tokens_new() -> (r: DashMap<String, ProxySyncEnrollmentToken>)
    ensures
        token_table(r) == Tokens::empty(),
{
    DashMap::new()
}

/// `DashMap::insert`: the token takes the place of any under the key.
#[verifier::external_body]
pub(crate) fn tokens_insert(
    m: &mut DashMap<String, ProxySyncEnrollmentToken>,
    key: String,
    token: ProxySyncEnrollmentToken,
)
    ensures
        token_table(*final(m)) == token_table(*old(m)).insert(key@, token@),
{
    m.insert(key, token);
}

/// `DashMap::get`: a copy of the token under the key.
#[verifier::external_body]
pub(crate) fn tokens_get(
    m: &DashMap<String, ProxySyncEnrollmentToken>,
    key: &str,
) -> (r: Option<ProxySyncEnrollmentToken>)
    ensures
        match r {
            Some(token) => token_table(*m).dom().contains(key@) && token_table(*m)[key@] == token@,
            None => !token_table(*m).dom().contains(key@),
        },
{
    m.get(key).map(|e| e.value().clone())
}

/// `DashMap::remove`: drops the token under the key.
#[verifier::external_body]
pub(crate) fn tokens_remove(m: &mut DashMap<String, ProxySyncEnrollmentToken>, key: &str)
    ensures
        token_table(*final(m)) == token_table(*old(m)).remove(key@),
{
    m.remove(key);
}

/// `DashMap::clear`: drops all tokens.
#[verifier::external_body]
pub(crate) fn tokens_clear(m: &mut DashMap<String, ProxySyncEnrollmentToken>)
    ensures
        token_table(*final(m)) == Tokens::empty(),
{
    m.clear();
}

// ---------------------------------------------------------------------------
// Clients
// ---------------------------------------------------------------------------

/// The windows that a map holds, by the address of the client.
pub uninterp spec fn rate_table(m: DashMap<String, RateWindow>) -> Rates;

/// `DashMap::new`: an empty map.
#[verifier::external_body]
pub(crate) fn rates_new() -> (r: DashMap<String, RateWindow>)
    ensures
        rate_table(r) == Rates::empty(),
{
    DashMap::new()
}

/// `DashMap::len`: the number of clients.
#[verifier::external_body]
pub(crate) fn rates_len(m: &DashMap<String, RateWindow>) -> (r: usize)
    ensures
        has_size(rate_table(*m), r as nat),
{
    m.len()
}

/// `DashMap::retain`: drops the windows that have run out at `now`.
#[verifier::external_body]
pub(crate) fn rates_retain(m: &mut DashMap<String, RateWindow>, now: u64)
    ensures
        rate_table(*final(m)) == open_windows(rate_table(*old(m)), now),
{
    m.retain(|_, w| w.is_open(now));
}

/// `DashMap::get`: a copy of the window of the client.
#[verifier::external_body]
pub(crate) fn rates_get(m: &DashMap<String, RateWindow>, client: &str) -> (r: Option<RateWindow>)
    ensures
        match r {
            Some(w) => rate_table(*m).dom().contains(client@) && rate_table(*m)[client@] == w,
            None => !rate_table(*m).dom().contains(client@),
        },
{
    m.get(client).map(|e| *e.value())
}

/// `DashMap::insert`: the window takes the place of any of the client.
#[verifier::external_body]
pub(crate) fn rates_insert(m: &mut DashMap<String, RateWindow>, client: String, window: RateWindow)
    ensures
        rate_table(*final(m)) == rate_table(*old(m)).insert(client@, window),
{
    m.insert(client, window);
}

/// The table has `n` clients.
pub open spec fn has_size(rates: Rates, n: nat) -> bool {
    rates.dom().finite() && rates.dom().len() == n
}

/// The windows that have not run out at `now`.
pub open spec fn open_windows(rates: Rates, now: u64) -> Rates {
    rates.restrict(
        Set::new(|k: Seq<char>| rates.dom().contains(k) && rates[k].open_at(now)),
    )
}

// ---------------------------------------------------------------------------
// Hashes by path
// ---------------------------------------------------------------------------

/// The hashes that a map holds, by path.
pub uninterp spec fn index_table(m: DashMap<String, Vec<String>>) -> HashIndex;

/// `DashMap::new`: an empty map.
#[verifier::external_body]
pub(crate) fn index_new() -> (r: DashMap<String, Vec<String>>)
    ensures
        index_table(r) == HashIndex::empty(),
{
    DashMap::new()
}

/// `DashMap::get`: a copy of the hashes of the path.
#[verifier::external_body]
pub(crate) fn index_get(m: &DashMap<String, Vec<String>>, path: &str) -> (r: Option<Vec<String>>)
    ensures
        match r {
            Some(v) => index_table(*m).dom().contains(path@) && index_table(*m)[path@]
                == text::texts(v@),
            None => !index_table(*m).dom().contains(path@),
        },
{
    m.get(path).map(|e| records::copy_hashes(e.value()))
}

/// `DashMap::insert`: the hashes take the place of any of the path.
#[verifier::external_body]
pub(crate) fn index_insert(m: &mut DashMap<String, Vec<String>>, path: String, hashes: Vec<String>)
    ensures
        index_table(*final(m)) == index_table(*old(m)).insert(path@, text::texts(hashes@)),
{
    m.insert(path, hashes);
}

/// `DashMap::alter_all`: drops the hash under every path.
#[verifier::external_body]
pub(crate) fn index_forget(m: &mut DashMap<String, Vec<String>>, sha: &str)
    ensures
        index_table(*final(m)) == without_hash(index_table(*old(m)), sha@),
{
    m.alter_all(|_, hashes| records::drop_hash(&hashes, sha));
}

/// The hashes of every path without those equal to `sha`.
pub open spec fn without_hash(index: HashIndex, sha: Seq<char>) -> HashIndex {
    index.map_values(|hashes: Seq<Seq<char>>| records::without(hashes, sha))
}

// ---------------------------------------------------------------------------
// Numbers
// ---------------------------------------------------------------------------

/// The numbers that a map holds.
pub uninterp spec fn count_table(m: DashMap<String, u64>) -> Counts;

/// `DashMap::new`: an empty map.
#[verifier::external_body]
pub(crate) fn counts_new() -> (r: DashMap<String, u64>)
    ensures
        count_table(r) == Counts::empty(),
{
    DashMap::new()
}

/// `DashMap::get`: the number under the key.
#[verifier::external_body]
pub(crate) fn counts_get(m: &DashMap<String, u64>, key: &str) -> (r: Option<u64>)
    ensures
        match r {
            Some(n) => count_table(*m).dom().contains(key@) && count_table(*m)[key@] == n,
            None => !count_table(*m).dom().contains(key@),
        },
{
    m.get(key).map(|e| *e.value())
}

/// `DashMap::insert`: the number takes the place of any under the key.
#[verifier::external_body]
pub(crate) fn counts_insert(m: &mut DashMap<String, u64>, key: String, n: u64)
    ensures
        count_table(*final(m)) == count_table(*old(m)).insert(key@, n),
{
    m.insert(key, n);
}

/// `DashMap::remove`: drops the number under the key.
#[verifier::external_body]
pub(crate) fn counts_remove(m: &mut DashMap<String, u64>, key: &str)
    ensures
        count_table(*final(m)) == count_table(*old(m)).remove(key@),
{
    m.remove(key);
}

/// `DashMap::iter`: each key once with its number, in no particular order.
#[verifier::external_body]
pub(crate) fn counts_entries(m: &DashMap<String, u64>) -> (r: Vec<(String, u64)>)
    ensures
        lists_counts(r@, count_table(*m)),
{
    m.iter().map(|e| (e.key().clone(), *e.value())).collect()
}

/// The entries are those of the table, each once.
pub open spec fn lists_counts(entries: Seq<(String, u64)>, counts: Counts) -> bool {
    &&& forall|i: int|
        0 <= i < entries.len() ==> counts.dom().contains((#[trigger] entries[i]).0@)
            && counts[entries[i].0@] == entries[i].1
    &&& forall|k: Seq<char>| #[trigger]
        counts.dom().contains(k) ==> exists|i: int|
            0 <= i < entries.len() && (#[trigger] entries[i]).0@ == k
    &&& forall|i: int, j: int|
        0 <= i < entries.len() && 0 <= j < entries.len() && i != j ==> (#[trigger] entries[i]).0@
            != (#[trigger] entries[j]).0@
}

} // verus!
