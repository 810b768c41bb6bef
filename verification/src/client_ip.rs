//! The address of the client, for rate limiting behind a trusted reverse proxy.

use axum::http::HeaderMap;
use vstd::prelude::*;
use vstd::string::*;

use crate::config;
use crate::config::IpCidr;
use crate::headers;
use crate::ip;
use crate::ip::IpAddr;
use crate::text;

verus! {

/// Some range holds the address.
pub open spec fn is_trusted(addr: IpAddr, cidrs: Seq<IpCidr>) -> bool {
    exists|i: int| 0 <= i < cidrs.len() && (#[trigger] cidrs[i]).holds(addr)
}

/// The leftmost address of `X-Forwarded-For`, where it is one.
pub open spec fn forwarded_for(h: headers::Headers) -> Option<IpAddr> {
    match headers::header_str(h, "x-forwarded-for"@) {
        Some(value) => {
            let first = text::trim(value.take(text::first_index(value, ',')));
            if first.len() > 0 {
                ip::ip_value(first)
            } else {
                None
            }
        },
        None => None,
    }
}

/// The address of the client: that which a trusted peer forwards for, else that
/// of the peer.
pub open spec fn client_address(peer: IpAddr, h: headers::Headers, cidrs: Seq<IpCidr>) -> IpAddr {
    if is_trusted(peer, cidrs) && forwarded_for(h) is Some {
        forwarded_for(h)->0
    } else {
        peer
    }
}

fn any_contains(cidrs: &[IpCidr], addr: IpAddr) -> (r: bool)
    ensures
        r == is_trusted(addr, cidrs@),
{
    let mut i: usize = 0;
    while i < cidrs.len()
        invariant
            i <= cidrs@.len(),
            forall|j: int| 0 <= j < i ==> !(#[trigger] cidrs@[j]).holds(addr),
        decreases cidrs@.len() - i,
    {
        if cidrs[i].contains(addr) {
            return true;
        }
        i = i + 1;
    }
    false
}

fn parse_forwarded_for(h: &HeaderMap) -> (r: Option<IpAddr>)
    ensures
        r == forwarded_for(headers::header_contents(*h)),
{
    let value = match headers::header_text(h, "x-forwarded-for") {
        Some(s) => s,
        None => {
            return None;
        },
    };
    let v = text::chars_of(value.as_str());
    let end: usize = text::first_index_of(&v, ',');
    let hop = text::text_of(&v, 0, end);
    assert(hop@ =~= value@.take(end as int));
    let first = text::trim_text(hop.as_str());
    let chars = text::chars_of(first.as_str());
    if chars.len() == 0 {
        return None;
    }
    ip::parse_ip(first.as_str())
}

/// The notation of the address of the client: where the TCP peer is trusted,
/// the leftmost address of `X-Forwarded-For`, else that of the peer.
pub fn resolve_client_ip(peer: &IpAddr, h: &HeaderMap, trusted_cidrs: &[IpCidr]) -> (r: String)
    ensures
        r@ == ip::ip_text(
            client_address(*peer, headers::header_contents(*h), trusted_cidrs@),
        ),
{
    if any_contains(trusted_cidrs, *peer) {
        match parse_forwarded_for(h) {
            Some(addr) => {
                return addr.to_text();
            },
            None => {},
        }
    }
    peer.to_text()
}

/// What a peer that is not trusted says in its headers does not matter.
pub proof fn lemma_untrusted_headers_ignored(
    peer: IpAddr,
    h: headers::Headers,
    cidrs: Seq<IpCidr>,
)
    requires
        !is_trusted(peer, cidrs),
    ensures
        client_address(peer, h, cidrs) == peer,
{
}

/// The address of the client is what a trusted peer forwards for, where the first
/// item of what it says is an address, and else that of the peer itself.
pub proof fn lemma_client_address(
    peer: IpAddr,
    h: headers::Headers,
    cidrs: Seq<IpCidr>,
    first: Seq<char>,
    rest: Seq<char>,
)
    requires
        !first.contains(','),
    ensures
        ({
            let trusted = exists|i: int| 0 <= i < cidrs.len() && (#[trigger] cidrs[i]).holds(peer);
            let said = headers::header_str(h, "x-forwarded-for"@);
            &&& said is None || !trusted ==> client_address(peer, h, cidrs) == peer
            &&& trusted && (said == Some(first) || said == Some(first + seq![','] + rest))
                ==> client_address(peer, h, cidrs) == (match ip::ip_value(text::trim(first)) {
                Some(addr) => addr,
                None => peer,
            })
        }),
{
    let said = headers::header_str(h, "x-forwarded-for"@);
    text::lemma_split_once(first, rest, ',');
    let whole = first + seq![','] + rest;
    assert(whole.take(first.len() as int) =~= first);
    assert(first.take(first.len() as int) =~= first);
    ip::lemma_no_empty_address();
    if text::trim(first).len() == 0 {
        assert(text::trim(first) =~= Seq::<char>::empty());
    }
}

/// Where no ranges are configured, the peers whose word counts are those with a
/// loopback or a private address.
pub proof fn lemma_trusted_by_default(peer: IpAddr)
    ensures
        is_trusted(peer, config::default_cidrs()) == (match peer {
            IpAddr::V4(n) => 0x7f00_0000 <= n <= 0x7fff_ffff || 0x0a00_0000 <= n <= 0x0aff_ffff
                || 0xac10_0000 <= n <= 0xac1f_ffff || 0xc0a8_0000 <= n <= 0xc0a8_ffff,
            IpAddr::V6(n) => n == 1 || 0xfc00_0000_0000_0000_0000_0000_0000_0000 <= n
                <= 0xfdff_ffff_ffff_ffff_ffff_ffff_ffff_ffff,
        }),
{
    config::lemma_default_ranges(peer);
}

} // verus!
