//! What the proxy knows of agents, of enrollment tokens and of its clients.

use vstd::prelude::*;
use vstd::string::*;

use crate::clock::UtcTime;
use crate::text;

verus! {

/// Whether an agent may still speak to the server.
#[derive(Clone, Copy, PartialEq, Eq, Structural, Debug)]
pub enum AgentState {
    /// Any state but that of a revoked agent.
    Admitted,
    Revoked,
}

/// An agent and its credentials.
pub struct CachedAgent {
    pub credential_pubkey: String,
    pub credential_pubkey_previous: Option<String>,
    pub credential_pubkey_previous_expires_at: Option<UtcTime>,
    pub state: AgentState,
}

/// An agent as plain values.
pub struct AgentRecord {
    pub credential_pubkey: Seq<char>,
    pub credential_pubkey_previous: Option<Seq<char>>,
    pub credential_pubkey_previous_expires_at: Option<UtcTime>,
    pub state: AgentState,
}

impl View for CachedAgent {
    type V = AgentRecord;

    open spec fn view(&self) -> AgentRecord {
        AgentRecord {
            credential_pubkey: self.credential_pubkey@,
            credential_pubkey_previous: text::opt(self.credential_pubkey_previous),
            credential_pubkey_previous_expires_at: self.credential_pubkey_previous_expires_at,
            state: self.state,
        }
    }
}

impl Clone for CachedAgent {
    fn clone(&self) -> (r: Self)
        ensures
            r@ == self@,
    {
        CachedAgent {
            credential_pubkey: self.credential_pubkey.clone(),
            credential_pubkey_previous: text::copy_opt(&self.credential_pubkey_previous),
            credential_pubkey_previous_expires_at: self.credential_pubkey_previous_expires_at,
            state: self.state,
        }
    }
}

/// A token with which an agent or a proxy may enroll, known by its HMAC.
pub struct ProxySyncEnrollmentToken {
    pub token_hmac: String,
    pub expires_at: String,
    pub used_at: Option<String>,
    pub bound_machine_id: Option<u128>,
    pub bound_proxy_id: Option<u128>,
}

/// A token as plain values.
pub struct TokenRecord {
    pub token_hmac: Seq<char>,
    pub expires_at: Seq<char>,
    pub used_at: Option<Seq<char>>,
    pub bound_machine_id: Option<u128>,
    pub bound_proxy_id: Option<u128>,
}

impl View for ProxySyncEnrollmentToken {
    type V = TokenRecord;

    open spec fn view(&self) -> TokenRecord {
        TokenRecord {
            token_hmac: self.token_hmac@,
            expires_at: self.expires_at@,
            used_at: text::opt(self.used_at),
            bound_machine_id: self.bound_machine_id,
            bound_proxy_id: self.bound_proxy_id,
        }
    }
}

impl Clone for ProxySyncEnrollmentToken {
    fn clone(&self) -> (r: Self)
        ensures
            r@ == self@,
    {
        ProxySyncEnrollmentToken {
            token_hmac: self.token_hmac.clone(),
            expires_at: self.expires_at.clone(),
            used_at: text::copy_opt(&self.used_at),
            bound_machine_id: self.bound_machine_id,
            bound_proxy_id: self.bound_proxy_id,
        }
    }
}

/// The requests of one client in the current window; times are nanoseconds.
#[derive(Clone, Copy, PartialEq, Eq, Structural, Debug)]
pub struct RateWindow {
    pub window_start: u64,
    pub enroll_count: u32,
    pub general_count: u32,
}

/// How long a window lasts, in nanoseconds.
pub const RATE_WINDOW_NANOS: u64 = 60_000_000_000;

impl RateWindow {
    /// The window has not run out at `now`.
    pub open spec fn open_at(self, now: u64) -> bool {
        now - self.window_start < RATE_WINDOW_NANOS
    }

    /// Whether the window has not run out at `now`.
    pub fn is_open(&self, now: u64) -> (r: bool)
        ensures
            r == self.open_at(now),
    {
        now.saturating_sub(self.window_start) < RATE_WINDOW_NANOS
    }
}

/// The hashes without those equal to `sha`.
pub open spec fn without(hashes: Seq<Seq<char>>, sha: Seq<char>) -> Seq<Seq<char>>
    decreases hashes.len(),
{
    if hashes.len() == 0 {
        Seq::<Seq<char>>::empty()
    } else if hashes.last() == sha {
        without(hashes.drop_last(), sha)
    } else {
        without(hashes.drop_last(), sha).push(hashes.last())
    }
}

/// The hashes without those equal to `sha`.
pub fn drop_hash(hashes: &Vec<String>, sha: &str) -> (r: Vec<String>)
    ensures
        text::texts(r@) == without(text::texts(hashes@), sha@),
{
    let mut out: Vec<String> = Vec::new();
    let ghost all = text::texts(hashes@);
    let mut i: usize = 0;
    assert(text::texts(out@) =~= without(all.take(0), sha@));
    while i < hashes.len()
        invariant
            i <= hashes@.len(),
            all == text::texts(hashes@),
            text::texts(out@) == without(all.take(i as int), sha@),
        decreases hashes@.len() - i,
    {
        let ghost before = text::texts(out@);
        assert(all.take(i + 1).drop_last() =~= all.take(i as int));
        assert(all.take(i + 1).last() == hashes@[i as int]@);
        if !text::same_text(hashes[i].as_str(), sha) {
            out.push(hashes[i].clone());
            assert(text::texts(out@) =~= before.push(hashes@[i as int]@));
        }
        i = i + 1;
    }
    assert(all.take(i as int) =~= all);
    out
}

/// The hashes, copied.
pub fn copy_hashes(hashes: &Vec<String>) -> (r: Vec<String>)
    ensures
        text::texts(r@) == text::texts(hashes@),
{
    let mut out: Vec<String> = Vec::new();
    let mut i: usize = 0;
    while i < hashes.len()
        invariant
            i <= hashes@.len(),
            out@.len() == i,
            forall|j: int| 0 <= j < i ==> (#[trigger] out@[j])@ == hashes@[j]@,
        decreases hashes@.len() - i,
    {
        out.push(hashes[i].clone());
        i = i + 1;
    }
    assert(text::texts(out@) =~= text::texts(hashes@));
    out
}

/// A window lasts for sixty seconds from its beginning.
pub proof fn lemma_window_lasts(w: RateWindow, now: u64)
    ensures
        w.open_at(now) == (now < w.window_start + 60_000_000_000),
{
}

/// Dropping a hash keeps the others, as often as they occur and in their order:
/// what is dropped of two lists in a row is dropped of each.
pub proof fn lemma_without_parts(a: Seq<Seq<char>>, b: Seq<Seq<char>>, sha: Seq<char>)
    ensures
        without(a + b, sha) == without(a, sha) + without(b, sha),
        without(seq![sha], sha) == Seq::<Seq<char>>::empty(),
        forall|h: Seq<char>| h != sha ==> #[trigger] without(seq![h], sha) == seq![h],
    decreases b.len(),
{
    assert(seq![sha].drop_last() =~= Seq::<Seq<char>>::empty());
    assert(without(seq![sha].drop_last(), sha) =~= Seq::<Seq<char>>::empty());
    assert forall|h: Seq<char>| h != sha implies #[trigger] without(seq![h], sha) == seq![h] by {
        assert(seq![h].drop_last() =~= Seq::<Seq<char>>::empty());
        assert(without(seq![h].drop_last(), sha) =~= Seq::<Seq<char>>::empty());
        assert(without(seq![h], sha) =~= seq![h]);
    }
    if b.len() == 0 {
        assert(a + b =~= a);
        assert(without(b, sha) =~= Seq::<Seq<char>>::empty());
        assert(without(a, sha) + without(b, sha) =~= without(a, sha));
    } else {
        let init = b.drop_last();
        lemma_without_parts(a, init, sha);
        assert((a + b).drop_last() =~= a + init);
        assert((a + b).last() == b.last());
        assert(without(a + b, sha) =~= without(a, sha) + without(b, sha));
    }
}

} // verus!
