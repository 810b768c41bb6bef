//! The nonces that were seen of late, so that no request is taken twice.

use std::time::Instant;
use vstd::prelude::*;
use vstd::string::*;

use crate::clock;
use crate::text;

verus! {

/// How long a nonce is remembered, in nanoseconds.
pub const TTL_NANOS: u64 = 300_000_000_000;

struct Entry {
    agent_id: u128,
    nonce: String,
    seen_at: u64,
}

/// The agents and nonces of a cache, with the time at which each was seen.
pub type Seen = Map<(u128, Seq<char>), u64>;

/// A nonce seen at `seen_at` is still remembered at `now`.
pub open spec fn is_live(seen_at: u64, now: u64) -> bool {
    now < seen_at + TTL_NANOS
}

/// What is still remembered at `now`.
pub open spec fn live(seen: Seen, now: u64) -> Seen {
    seen.restrict(
        Set::new(|k: (u128, Seq<char>)| seen.dom().contains(k) && is_live(seen[k], now)),
    )
}

/// No use of the nonce by the agent is remembered at `now`.
pub open spec fn is_new(seen: Seen, now: u64, agent_id: u128, nonce: Seq<char>) -> bool {
    !live(seen, now).dom().contains((agent_id, nonce))
}

/// What is remembered once the agent has used the nonce at `now`.
pub open spec fn recorded(seen: Seen, now: u64, agent_id: u128, nonce: Seq<char>) -> Seen {
    if is_new(seen, now, agent_id, nonce) {
        live(seen, now).insert((agent_id, nonce), now)
    } else {
        live(seen, now)
    }
}

/// Nonces of agents, each remembered for a while after it was seen.
pub struct NonceCache {
    started: Instant,
    entries: Vec<Entry>,
}

spec fn key_of(e: Entry) -> (u128, Seq<char>) {
    (e.agent_id, e.nonce@)
}

spec fn unique(s: Seq<Entry>) -> bool {
    forall|i: int, j: int|
        0 <= i < s.len() && 0 <= j < s.len() && i != j ==> key_of(#[trigger] s[i]) != key_of(
            #[trigger] s[j],
        )
}

spec fn holds(s: Seq<Entry>, k: (u128, Seq<char>)) -> bool {
    exists|i: int| 0 <= i < s.len() && key_of(#[trigger] s[i]) == k
}

spec fn table(s: Seq<Entry>) -> Seen {
    Map::new(
        |k: (u128, Seq<char>)| holds(s, k),
        |k: (u128, Seq<char>)|
            s[choose|i: int| 0 <= i < s.len() && key_of(#[trigger] s[i]) == k].seen_at,
    )
}

proof fn lemma_table_entry(s: Seq<Entry>, i: int)
    requires
        unique(s),
        0 <= i < s.len(),
    ensures
        table(s).dom().contains(key_of(s[i])),
        table(s)[key_of(s[i])] == s[i].seen_at,
{
    assert(key_of(s[i]) == key_of(s[i]));
    assert(holds(s, key_of(s[i])));
}

impl NonceCache {
    #[verifier::type_invariant]
    spec fn well_formed(&self) -> bool {
        unique(self.entries@)
    }

    /// The agents and nonces, with the time at which each was seen.
    pub closed spec fn seen(&self) -> Seen {
        table(self.entries@)
    }

    /// The moment from which the times are counted.
    pub closed spec fn origin(&self) -> Instant {
        self.started
    }

    /// A cache that has seen nothing.
    pub fn new() -> (r: Self)
        ensures
            r.seen() == Seen::empty(),
    {
        let r = NonceCache { started: clock::instant_now(), entries: Vec::new() };
        assert(r.seen() =~= Seen::empty());
        r
    }

    /// The nanoseconds since the cache was made.
    pub(crate) fn elapsed(&self) -> (r: u64) {
        clock::nanos_since(&self.started)
    }

    /// Records that `agent_id` used `nonce` at the time `now`. The result tells
    /// whether the nonce is new; where it is still remembered, nothing is
    /// recorded.
    pub fn insert_at(&mut self, now: u64, agent_id: u128, nonce: &str) -> (r: bool)
        ensures
            r == is_new(old(self).seen(), now, agent_id, nonce@),
            final(self).seen() == recorded(old(self).seen(), now, agent_id, nonce@),
            final(self).origin() == old(self).origin(),
    {
        proof {
            use_type_invariant(&*self);
        }
        let ghost all = self.entries@;
        let ghost seen = self.seen();
        let mut rest: Vec<Entry> = Vec::new();
        std::mem::swap(&mut rest, &mut self.entries);
        let mut kept: Vec<Entry> = Vec::new();
        let mut known: bool = false;
        while rest.len() > 0
            invariant
                rest@ == all.take(rest@.len() as int),
                rest@.len() <= all.len(),
                unique(all),
                unique(kept@),
                forall|i: int|
                    0 <= i < kept@.len() ==> is_live((#[trigger] kept@[i]).seen_at, now) && exists|
                        j: int,
                    |
                        rest@.len() <= j < all.len() && all[j] == kept@[i],
                forall|j: int|
                    rest@.len() <= j < all.len() && is_live((#[trigger] all[j]).seen_at, now)
                        ==> exists|i: int| 0 <= i < kept@.len() && #[trigger] kept@[i] == all[j],
                known == holds(kept@, (agent_id, nonce@)),
            decreases rest@.len(),
        {
            let ghost m = rest@.len() - 1;
            let ghost before = kept@;
            let e = rest.pop().unwrap();
            assert(e == all[m]);
            assert(rest@ =~= all.take(m));
            if (now as u128) < (e.seen_at as u128) + (TTL_NANOS as u128) {
                let same = e.agent_id == agent_id && text::same_text(e.nonce.as_str(), nonce);
                known = known || same;
                kept.push(e);
                assert(kept@.last() == all[m]);
                assert forall|i: int, j: int|
                    0 <= i < kept@.len() && 0 <= j < kept@.len() && i != j implies key_of(
                    #[trigger] kept@[i],
                ) != key_of(#[trigger] kept@[j]) by {
                    if i < before.len() && j < before.len() {
                        assert(before[i] == kept@[i] && before[j] == kept@[j]);
                    } else {
                        let o = if i < before.len() { i } else { j };
                        assert(before[o] == kept@[o]);
                        let w = choose|w: int| m < w < all.len() && all[w] == before[o];
                        assert(key_of(all[w]) != key_of(all[m]));
                    }
                }
                assert forall|i: int| 0 <= i < kept@.len() implies is_live(
                    (#[trigger] kept@[i]).seen_at,
                    now,
                ) && exists|j: int| m <= j < all.len() && all[j] == kept@[i] by {
                    if i < before.len() {
                        assert(before[i] == kept@[i]);
                        let w = choose|w: int| m < w < all.len() && all[w] == before[i];
                        assert(all[w] == kept@[i]);
                    } else {
                        assert(all[m] == kept@[i]);
                    }
                }
                assert forall|j: int|
                    m <= j < all.len() && is_live((#[trigger] all[j]).seen_at, now) implies exists|
                    i: int,
                |
                    0 <= i < kept@.len() && #[trigger] kept@[i] == all[j] by {
                    if j == m {
                        assert(kept@[before.len() as int] == all[j]);
                    } else {
                        let w = choose|w: int|
                            0 <= w < before.len() && #[trigger] before[w] == all[j];
                        assert(kept@[w] == all[j]);
                    }
                }
                proof {
                    let k = (agent_id, nonce@);
                    if holds(before, k) {
                        let w = choose|w: int| 0 <= w < before.len() && key_of(#[trigger] before[w]) == k;
                        assert(kept@[w] == before[w]);
                        assert(holds(kept@, k));
                    }
                    if same {
                        assert(key_of(kept@[before.len() as int]) == k);
                        assert(holds(kept@, k));
                    }
                    if holds(kept@, k) {
                        let w = choose|w: int| 0 <= w < kept@.len() && key_of(#[trigger] kept@[w]) == k;
                        if w < before.len() {
                            assert(before[w] == kept@[w]);
                            assert(holds(before, k));
                        } else {
                            assert(same);
                        }
                    }
                }
            }
        }
        let ghost lived = kept@;
        proof {
            assert forall|k: (u128, Seq<char>)|
                table(lived).dom().contains(k) == live(seen, now).dom().contains(k) by {
                if holds(lived, k) {
                    let i = choose|i: int| 0 <= i < lived.len() && key_of(#[trigger] lived[i]) == k;
                    let j = choose|j: int| 0 <= j < all.len() && all[j] == lived[i];
                    lemma_table_entry(all, j);
                }
                if live(seen, now).dom().contains(k) {
                    let j = choose|j: int| 0 <= j < all.len() && key_of(#[trigger] all[j]) == k;
                    lemma_table_entry(all, j);
                    let i = choose|i: int| 0 <= i < lived.len() && #[trigger] lived[i] == all[j];
                    assert(key_of(lived[i]) == k);
                }
            }
            assert forall|k: (u128, Seq<char>)| table(lived).dom().contains(k) implies table(
                lived,
            )[k] == live(seen, now)[k] by {
                let i = choose|i: int| 0 <= i < lived.len() && key_of(#[trigger] lived[i]) == k;
                lemma_table_entry(lived, i);
                let j = choose|j: int| 0 <= j < all.len() && all[j] == lived[i];
                lemma_table_entry(all, j);
            }
            assert(table(lived) =~= live(seen, now));
        }
        if !known {
            let nonce_text = nonce.to_owned();
            kept.push(Entry { agent_id, nonce: nonce_text, seen_at: now });
            proof {
                let k = (agent_id, nonce@);
                let n = lived.len() as int;
                assert forall|i: int, j: int|
                    0 <= i < kept@.len() && 0 <= j < kept@.len() && i != j implies key_of(
                    #[trigger] kept@[i],
                ) != key_of(#[trigger] kept@[j]) by {
                    if i < n {
                        assert(kept@[i] == lived[i]);
                    }
                    if j < n {
                        assert(kept@[j] == lived[j]);
                    }
                }
                assert forall|q: (u128, Seq<char>)|
                    table(kept@).dom().contains(q) == table(lived).insert(k, now).dom().contains(
                        q,
                    ) by {
                    if holds(kept@, q) {
                        let i = choose|i: int|
                            0 <= i < kept@.len() && key_of(#[trigger] kept@[i]) == q;
                        if i < n {
                            assert(lived[i] == kept@[i]);
                        }
                    }
                    if holds(lived, q) {
                        let i = choose|i: int|
                            0 <= i < lived.len() && key_of(#[trigger] lived[i]) == q;
                        assert(kept@[i] == lived[i]);
                    }
                    assert(key_of(kept@[n]) == k);
                }
                assert forall|q: (u128, Seq<char>)| table(kept@).dom().contains(q) implies table(
                    kept@,
                )[q] == table(lived).insert(k, now)[q] by {
                    let i = choose|i: int| 0 <= i < kept@.len() && key_of(#[trigger] kept@[i]) == q;
                    lemma_table_entry(kept@, i);
                    if i < n {
                        assert(lived[i] == kept@[i]);
                        lemma_table_entry(lived, i);
                    }
                }
                assert(table(kept@) =~= table(lived).insert(k, now));
            }
        }
        self.entries = kept;
        !known
    }

    /// Records that `agent_id` used `nonce` now. The result tells whether the
    /// nonce is new; where it is still remembered, nothing is recorded.
    pub fn insert(&mut self, agent_id: u128, nonce: &str) -> (r: bool)
        ensures
            exists|now: u64|
                r == is_new(old(self).seen(), now, agent_id, nonce@) && final(self).seen()
                    == #[trigger] recorded(old(self).seen(), now, agent_id, nonce@),
            final(self).origin() == old(self).origin(),
    {
        let now = self.elapsed();
        self.insert_at(now, agent_id, nonce)
    }
}

/// A nonce is refused the second time, as long as the first use is remembered.
pub proof fn lemma_replay_refused(seen: Seen, agent_id: u128, nonce: Seq<char>, first: u64, now: u64)
    requires
        is_new(seen, first, agent_id, nonce),
        now < first + TTL_NANOS,
    ensures
        !is_new(recorded(seen, first, agent_id, nonce), now, agent_id, nonce),
{
}

/// Whatever is used in between, a remembered nonce stays remembered with the
/// time of its first use.
pub proof fn lemma_remembered(
    seen: Seen,
    agent_id: u128,
    nonce: Seq<char>,
    now: u64,
    other_id: u128,
    other_nonce: Seq<char>,
)
    requires
        !is_new(seen, now, agent_id, nonce),
    ensures
        recorded(seen, now, other_id, other_nonce).dom().contains((agent_id, nonce)),
        recorded(seen, now, other_id, other_nonce)[(agent_id, nonce)] == seen[(agent_id, nonce)],
{
}

/// Once its time is over a nonce is new again.
pub proof fn lemma_forgotten(seen: Seen, agent_id: u128, nonce: Seq<char>, first: u64, now: u64)
    requires
        is_new(seen, first, agent_id, nonce),
        now >= first + TTL_NANOS,
    ensures
        is_new(recorded(seen, first, agent_id, nonce), now, agent_id, nonce),
{
}

/// A nonce that was seen is remembered for three hundred seconds, and not longer:
/// what is remembered after a use is the nonce itself, with the time of its first
/// use in that span, and every other nonce whose span is not over.
pub proof fn lemma_what_is_remembered(
    seen: Seen,
    now: u64,
    agent_id: u128,
    nonce: Seq<char>,
    k: (u128, Seq<char>),
)
    ensures
        ({
            let after = recorded(seen, now, agent_id, nonce);
            let kept = seen.dom().contains(k) && now < seen[k] + 300_000_000_000;
            &&& after.dom().contains(k) == (kept || k == (agent_id, nonce))
            &&& kept ==> after[k] == seen[k]
            &&& !kept && k == (agent_id, nonce) ==> after[k] == now
        }),
        is_new(seen, now, agent_id, nonce) == !(seen.dom().contains((agent_id, nonce)) && now
            < seen[(agent_id, nonce)] + 300_000_000_000),
{
}

/// Nonces of one agent say nothing of those of another.
pub proof fn lemma_agents_have_their_own_nonces(
    seen: Seen,
    now: u64,
    agent_id: u128,
    other_id: u128,
    nonce: Seq<char>,
    later: u64,
)
    requires
        agent_id != other_id,
        is_new(seen, later, other_id, nonce),
    ensures
        is_new(recorded(seen, now, agent_id, nonce), later, other_id, nonce),
{
}

} // verus!
