//! Requests on their way to the server, and its responses on their way back.

use axum::http::HeaderMap;
use vstd::prelude::*;
use vstd::string::*;

use crate::allowlist;
use crate::artifact_cache;
use crate::headers;
use crate::ids;
use crate::signing;
use crate::state;
use crate::state::AppState;
use crate::text;

verus! {

/// A response of the server that has arrived as a whole.
pub struct BufferedForwardResponse {
    pub status: u16,
    pub headers: HeaderMap,
    pub body: Vec<u8>,
}

/// Why a request is not forwarded.
#[derive(Clone, Copy, PartialEq, Eq, Structural, Debug)]
pub enum ForwardError {
    /// The path is not canonical.
    InvalidPath,
}

// ---------------------------------------------------------------------------
// Requests
// ---------------------------------------------------------------------------

/// The URL of the path at the server; an empty query is left out.
pub open spec fn url_text(base: Seq<char>, path: Seq<char>, query: Option<Seq<char>>) -> Seq<char> {
    if query is Some && query->0.len() > 0 {
        base + path + "?"@ + query->0
    } else {
        base + path
    }
}

/// The URL of the path at the server.
pub fn upstream_url(base: &str, path: &str, query: Option<&str>) -> (r: String)
    ensures
        r@ == url_text(base@, path@, state::opt_str(query)),
{
    let mut url = text::join(base, path);
    match query {
        Some(q) => {
            let chars = text::chars_of(q);
            if chars.len() > 0 {
                url.append("?");
                url.append(q);
            }
        },
        None => {},
    }
    url
}

/// The headers with the identity of the proxy, where it has one.
pub open spec fn with_proxy_id(h: headers::Headers, proxy_id: Option<u128>) -> headers::Headers {
    match proxy_id {
        Some(id) => h.insert("x-hecate-proxy-id"@, signing::one_value(ids::uuid_text(id))),
        None => h,
    }
}

/// The headers with which a request goes to the server.
pub open spec fn upstream_headers(h: headers::Headers, proxy_id: Option<u128>) -> headers::Headers {
    with_proxy_id(
        allowlist::forwarded_request(h).remove("host"@).remove("content-length"@).remove(
            "transfer-encoding"@,
        ).remove("connection"@),
        proxy_id,
    )
}

proof fn lemma_proxy_id_name()
    ensures
        headers::is_field_name("x-hecate-proxy-id"@),
{
    reveal_strlit("x-hecate-proxy-id");
}

fn insert_proxy_id(h: &mut HeaderMap, proxy_id: Option<u128>)
    requires
        headers::few_names(headers::header_contents(*old(h))),
    ensures
        headers::header_contents(*final(h)) == with_proxy_id(
            headers::header_contents(*old(h)),
            proxy_id,
        ),
{
    match proxy_id {
        Some(id) => {
            let value = ids::uuid_to_text(id);
            proof {
                lemma_proxy_id_name();
                signing::lemma_uuid_text_visible(id);
                headers::lemma_visible_value(ids::uuid_text(id));
            }
            headers::header_insert(h, "x-hecate-proxy-id", value.as_str().as_bytes());
        },
        None => {},
    }
}

proof fn lemma_remove_keeps_few(h: headers::Headers, name: Seq<char>, n: nat)
    requires
        headers::names_at_most(h, n),
    ensures
        headers::names_at_most(h.remove(name), n),
{
    assert(h.remove(name).dom().subset_of(h.dom()));
    vstd::set_lib::lemma_len_subset(h.remove(name).dom(), h.dom());
}

/// Makes a request ready for the server: the headers are those that are
/// relayed, with the identity of the proxy, and the result is the URL.
pub fn forward_to_upstream(
    state: &AppState,
    path: &str,
    query: Option<&str>,
    h: &mut HeaderMap,
) -> (r: Result<String, ForwardError>)
    ensures
        match r {
            Ok(url) => allowlist::is_canonical(path@) && url@ == url_text(
                state.model().config.upstream_hecate_url,
                path@,
                state::opt_str(query),
            ) && headers::header_contents(*final(h)) == upstream_headers(
                headers::header_contents(*old(h)),
                state.model().proxy_id,
            ),
            Err(e) => !allowlist::is_canonical(path@) && e == ForwardError::InvalidPath && *final(h)
                == *old(h),
        },
{
    match allowlist::canonicalize_agent_path(path) {
        Ok(_) => {},
        Err(_) => {
            return Err(ForwardError::InvalidPath);
        },
    }
    let url = upstream_url(state.config.upstream_hecate_url.as_str(), path, query);
    allowlist::retain_forwardable_request_headers(h);
    let ghost kept = headers::header_contents(*h);
    proof {
        lemma_remove_keeps_few(kept, "host"@, 7);
        lemma_remove_keeps_few(kept.remove("host"@), "content-length"@, 7);
        lemma_remove_keeps_few(
            kept.remove("host"@).remove("content-length"@),
            "transfer-encoding"@,
            7,
        );
        lemma_remove_keeps_few(
            kept.remove("host"@).remove("content-length"@).remove("transfer-encoding"@),
            "connection"@,
            7,
        );
    }
    headers::header_remove(h, "host");
    headers::header_remove(h, "content-length");
    headers::header_remove(h, "transfer-encoding");
    headers::header_remove(h, "connection");
    insert_proxy_id(h, state.proxy_id);
    Ok(url)
}

/// Entity tags for the hashes, with commas between them.
pub open spec fn tag_list(hashes: Seq<Seq<char>>) -> Seq<char>
    decreases hashes.len(),
{
    if hashes.len() == 0 {
        Seq::<char>::empty()
    } else if hashes.len() == 1 {
        artifact_cache::quoted(hashes[0])
    } else {
        tag_list(hashes.drop_last()) + ", "@ + artifact_cache::quoted(hashes.last())
    }
}

/// The hashes that a revalidation names: the first few that are known.
pub open spec fn named_hashes(known: Seq<Seq<char>>) -> Seq<Seq<char>> {
    if known.len() > artifact_cache::MAX_IF_NONE_MATCH {
        known.take(artifact_cache::MAX_IF_NONE_MATCH as int)
    } else {
        known
    }
}

/// The headers with the condition that the artifact is none of those known,
/// where any are and the condition can stand in a header.
pub open spec fn with_known(h: headers::Headers, known: Seq<Seq<char>>) -> headers::Headers {
    let tags = vstd::utf8::encode_utf8(tag_list(named_hashes(known)));
    if known.len() > 0 && headers::is_field_value(tags) {
        h.insert("if-none-match"@, seq![tags])
    } else {
        h
    }
}

/// The headers with which the fill of an artifact goes to the server.
pub open spec fn fill_headers(
    h: headers::Headers,
    known: Seq<Seq<char>>,
    proxy_id: Option<u128>,
) -> headers::Headers {
    with_proxy_id(with_known(allowlist::forwarded_request(h), known), proxy_id)
}

fn tag_list_text(known: &Vec<String>) -> (r: String)
    ensures
        r@ == tag_list(named_hashes(text::texts(known@))),
{
    let n: usize = if known.len() > artifact_cache::MAX_IF_NONE_MATCH {
        artifact_cache::MAX_IF_NONE_MATCH
    } else {
        known.len()
    };
    let ghost hashes = named_hashes(text::texts(known@));
    let mut s = String::new();
    let mut i: usize = 0;
    assert(s@ =~= tag_list(hashes.take(0)));
    while i < n
        invariant
            i <= n <= known@.len(),
            hashes.len() == n,
            forall|j: int| 0 <= j < n ==> #[trigger] hashes[j] == known@[j]@,
            s@ == tag_list(hashes.take(i as int)),
        decreases n - i,
    {
        let ghost before = hashes.take(i as int);
        let ghost next = hashes.take(i + 1);
        assert(next.drop_last() =~= before);
        assert(next.last() == hashes[i as int]);
        if i > 0 {
            s.append(", ");
        }
        let tag = artifact_cache::quote(known[i].as_str());
        s.append(tag.as_str());
        proof {
            if i == 0 {
                assert(next.len() == 1);
                assert(s@ =~= artifact_cache::quoted(hashes[0]));
                assert(next[0] == hashes[0]);
            } else {
                assert(s@ =~= tag_list(before) + ", "@ + artifact_cache::quoted(hashes[i as int]));
            }
        }
        i = i + 1;
    }
    assert(hashes.take(i as int) =~= hashes);
    s
}

/// Makes the fill of an artifact ready for the server: the headers are those
/// that are relayed, with the hashes that are known and the identity of the
/// proxy, and the result is the URL.
pub fn fill_request(
    state: &AppState,
    path: &str,
    query: Option<&str>,
    h: &mut HeaderMap,
    known: &Vec<String>,
) -> (r: String)
    ensures
        r@ == url_text(
            state.model().config.upstream_hecate_url,
            path@,
            state::opt_str(query),
        ),
        headers::header_contents(*final(h)) == fill_headers(
            headers::header_contents(*old(h)),
            text::texts(known@),
            state.model().proxy_id,
        ),
{
    let url = upstream_url(state.config.upstream_hecate_url.as_str(), path, query);
    allowlist::retain_forwardable_request_headers(h);
    if known.len() > 0 {
        let tags = tag_list_text(known);
        proof {
            reveal_strlit("if-none-match");
            assert(headers::is_field_name("if-none-match"@));
        }
        headers::header_insert(h, "if-none-match", tags.as_str().as_bytes());
    }
    insert_proxy_id(h, state.proxy_id);
    url
}

/// Nothing reaches the server but the headers on the list of those that are
/// relayed and the identity of the proxy, which a client cannot set.
pub proof fn lemma_upstream_headers(h: headers::Headers, proxy_id: Option<u128>)
    ensures
        forall|name: Seq<char>| #[trigger]
            upstream_headers(h, proxy_id).dom().contains(name) ==> allowlist::forwards_request(name)
                || name == "x-hecate-proxy-id"@,
        proxy_id is None ==> !upstream_headers(h, proxy_id).dom().contains("x-hecate-proxy-id"@),
        proxy_id is Some ==> upstream_headers(h, proxy_id)["x-hecate-proxy-id"@]
            == signing::one_value(ids::uuid_text(proxy_id->0)),
{
    reveal_strlit("x-hecate-proxy-id");
    reveal_strlit("content-type");
    reveal_strlit("accept");
    reveal_strlit("if-none-match");
    reveal_strlit("x-hecate-agent-id");
    reveal_strlit("x-hecate-timestamp");
    reveal_strlit("x-hecate-nonce");
    reveal_strlit("x-hecate-signature");
    let n = text::lower("x-hecate-proxy-id"@);
    assert(n.len() == 17);
    assert(n[9] == 'p');
    assert("x-hecate-agent-id"@[9] == 'a');
    assert("content-type"@.len() == 12);
    assert("accept"@.len() == 6);
    assert("if-none-match"@.len() == 13);
    assert("x-hecate-timestamp"@.len() == 18);
    assert("x-hecate-nonce"@.len() == 14);
    assert("x-hecate-signature"@.len() == 18);
}

// ---------------------------------------------------------------------------
// Responses
// ---------------------------------------------------------------------------

/// The status with which a response of the server is relayed: a number that is
/// no status becomes that of a bad gateway.
pub open spec fn relayed_status(status: u16) -> u16 {
    if 100 <= status < 1000 {
        status
    } else {
        502
    }
}

/// The status with which a response of the server is relayed.
pub fn relay_status(status: u16) -> (r: u16)
    ensures
        r == relayed_status(status),
{
    if 100 <= status && status < 1000 {
        status
    } else {
        502
    }
}

/// The headers of a response without those that frame it; of several values
/// under one name the last one counts.
pub open spec fn unframed(h: headers::Headers) -> headers::Headers {
    Map::new(
        |name: Seq<char>|
            headers::values_under(h, name).len() > 0 && name != "transfer-encoding"@ && name
                != "content-length"@,
        |name: Seq<char>| seq![headers::values_under(h, name).last()],
    )
}

/// The headers with which a response of the server is relayed.
pub open spec fn relayed_headers(h: headers::Headers) -> headers::Headers {
    allowlist::forwarded_response(unframed(h))
}

/// The last value under each name among pairs of names and values, but for the
/// two names of headers that frame a response.
spec fn last_values(pairs: Seq<(Seq<char>, Seq<u8>)>) -> headers::Headers {
    Map::new(
        |name: Seq<char>|
            headers::values_of(pairs, name).len() > 0 && name != "transfer-encoding"@ && name
                != "content-length"@,
        |name: Seq<char>| seq![headers::values_of(pairs, name).last()],
    )
}

/// The headers with which a response of the server is relayed.
pub fn relay_response_headers(h: &HeaderMap) -> (r: HeaderMap)
    requires
        headers::few_names(headers::header_contents(*h)),
    ensures
        headers::header_contents(r) == relayed_headers(headers::header_contents(*h)),
{
    let pairs = headers::header_pairs(h);
    let ghost all = headers::pair_views(pairs@);
    let ghost source = headers::header_contents(*h);
    let mut out = headers::header_map();
    let mut i: usize = 0;
    assert(headers::header_contents(out) =~= last_values(all.take(0)));
    while i < pairs.len()
        invariant
            i <= pairs@.len(),
            all == headers::pair_views(pairs@),
            source == headers::header_contents(*h),
            headers::few_names(source),
            forall|name: Seq<char>| #[trigger]
                headers::values_of(all, name) == headers::values_under(source, name),
            forall|j: int|
                0 <= j < pairs@.len() ==> headers::is_field_name((#[trigger] pairs@[j]).0@)
                    && headers::is_field_value(pairs@[j].1@),
            headers::header_contents(out) == last_values(all.take(i as int)),
        decreases pairs@.len() - i,
    {
        let ghost before = all.take(i as int);
        let ghost next = all.take(i + 1);
        assert(next.drop_last() =~= before);
        let name = pairs[i].0.as_str();
        assert(all[i as int] == (pairs@[i as int].0@, pairs@[i as int].1@));
        assert(next.last() == all[i as int]);
        if !text::same_text(name, "transfer-encoding") && !text::same_text(name, "content-length") {
            proof {
                let kept = headers::header_contents(out);
                assert forall|k: Seq<char>| kept.dom().contains(k) implies source.dom().contains(
                    k,
                ) by {
                    lemma_values_prefix(all, k, i as int);
                }
                assert(kept.dom().subset_of(source.dom()));
                vstd::set_lib::lemma_len_subset(kept.dom(), source.dom());
            }
            headers::header_insert(&mut out, name, pairs[i].1.as_slice());
        }
        assert(headers::header_contents(out) =~= last_values(next));
        i = i + 1;
    }
    assert(all.take(i as int) =~= all);
    assert(headers::header_contents(out) =~= unframed(source));
    allowlist::retain_forwardable_response_headers(&mut out);
    out
}

/// The status and the headers with which a response of the server is relayed;
/// none where it has more names of headers than a header map surely takes.
pub fn relay_response(status: u16, h: &HeaderMap) -> (r: Option<(u16, HeaderMap)>)
    ensures
        match r {
            Some((relayed, out)) => headers::few_names(headers::header_contents(*h)) && relayed
                == relayed_status(status) && headers::header_contents(out) == relayed_headers(
                headers::header_contents(*h),
            ),
            None => !headers::few_names(headers::header_contents(*h)),
        },
{
    if headers::header_name_count(h) > 4095 {
        return None;
    }
    Some((relay_status(status), relay_response_headers(h)))
}

proof fn lemma_values_prefix(pairs: Seq<(Seq<char>, Seq<u8>)>, name: Seq<char>, n: int)
    requires
        0 <= n <= pairs.len(),
    ensures
        headers::values_of(pairs.take(n), name).len() <= headers::values_of(pairs, name).len(),
    decreases pairs.len(),
{
    if n == pairs.len() {
        assert(pairs.take(n) =~= pairs);
    } else {
        lemma_values_prefix(pairs.drop_last(), name, n);
        assert(pairs.drop_last().take(n) =~= pairs.take(n));
    }
}

/// Nothing of a response reaches an agent but the headers on the list of those
/// that are relayed: no cookie, no location and no hop-by-hop header.
pub proof fn lemma_relayed_headers(h: headers::Headers)
    ensures
        forall|name: Seq<char>| #[trigger]
            relayed_headers(h).dom().contains(name) ==> allowlist::forwards_response(name),
        !relayed_headers(h).dom().contains("set-cookie"@),
        !relayed_headers(h).dom().contains("location"@),
        !relayed_headers(h).dom().contains("connection"@),
{
    reveal_strlit("x-hecate-");
    reveal_strlit("content-type");
    reveal_strlit("etag");
    reveal_strlit("cache-control");
    reveal_strlit("last-modified");
    reveal_strlit("content-disposition");
    reveal_strlit("accept-ranges");
    reveal_strlit("set-cookie");
    reveal_strlit("location");
    reveal_strlit("connection");
    assert(text::lower("set-cookie"@).len() == 10);
    assert(text::lower("location"@).len() == 8);
    assert(text::lower("connection"@).len() == 10);
    assert(text::lower("set-cookie"@)[0] == 's');
    assert(text::lower("location"@)[0] == 'l');
    assert(text::lower("connection"@)[0] == 'c');
    assert("x-hecate-"@[0] == 'x');
    assert("content-type"@.len() == 12);
    assert("etag"@.len() == 4);
    assert("cache-control"@.len() == 13);
    assert("last-modified"@.len() == 13);
    assert("content-disposition"@.len() == 19);
    assert("accept-ranges"@.len() == 13);
    lemma_prefix_first(text::lower("set-cookie"@));
    lemma_prefix_first(text::lower("location"@));
    lemma_prefix_first(text::lower("connection"@));
}

proof fn lemma_prefix_first(s: Seq<char>)
    ensures
        "x-hecate-"@.is_prefix_of(s) ==> s.len() > 0 && s[0] == 'x',
{
    reveal_strlit("x-hecate-");
    if "x-hecate-"@.is_prefix_of(s) {
        assert(s.subrange(0, 9)[0] == s[0]);
    }
}

// ---------------------------------------------------------------------------
// What forwarding promises
// ---------------------------------------------------------------------------

/// The signature of an agent, the type and form of the content and the condition
/// on an artifact reach the server with the values that the client sent.
pub proof fn lemma_signed_request_arrives(
    h: headers::Headers,
    proxy_id: Option<u128>,
    name: Seq<char>,
)
    requires
        h.dom().contains(name),
        name == "content-type"@ || name == "accept"@ || name == "if-none-match"@ || name
            == "x-hecate-agent-id"@ || name == "x-hecate-timestamp"@ || name == "x-hecate-nonce"@
            || name == "x-hecate-signature"@,
    ensures
        upstream_headers(h, proxy_id).dom().contains(name),
        upstream_headers(h, proxy_id)[name] == h[name],
        name != "if-none-match"@ ==> forall|known: Seq<Seq<char>>|
            (#[trigger] fill_headers(h, known, proxy_id)).dom().contains(name) && fill_headers(
                h,
                known,
                proxy_id,
            )[name] == h[name],
        fill_headers(h, Seq::<Seq<char>>::empty(), proxy_id).dom().contains(name),
        fill_headers(h, Seq::<Seq<char>>::empty(), proxy_id)[name] == h[name],
{
    reveal_strlit("x-hecate-proxy-id");
    reveal_strlit("content-type");
    reveal_strlit("accept");
    reveal_strlit("if-none-match");
    reveal_strlit("x-hecate-agent-id");
    reveal_strlit("x-hecate-timestamp");
    reveal_strlit("x-hecate-nonce");
    reveal_strlit("x-hecate-signature");
    reveal_strlit("host");
    reveal_strlit("content-length");
    reveal_strlit("transfer-encoding");
    reveal_strlit("connection");
    text::lemma_lower_fixed("content-type"@);
    text::lemma_lower_fixed("accept"@);
    text::lemma_lower_fixed("if-none-match"@);
    text::lemma_lower_fixed("x-hecate-agent-id"@);
    text::lemma_lower_fixed("x-hecate-timestamp"@);
    text::lemma_lower_fixed("x-hecate-nonce"@);
    text::lemma_lower_fixed("x-hecate-signature"@);
    assert("x-hecate-proxy-id"@.len() == 17 && "x-hecate-proxy-id"@[9] == 'p');
    assert("x-hecate-agent-id"@.len() == 17 && "x-hecate-agent-id"@[9] == 'a');
    assert("content-type"@.len() == 12);
    assert("accept"@.len() == 6);
    assert("if-none-match"@.len() == 13);
    assert("x-hecate-timestamp"@.len() == 18);
    assert("x-hecate-nonce"@.len() == 14 && "x-hecate-nonce"@[0] == 'x');
    assert("x-hecate-signature"@.len() == 18);
    assert("host"@.len() == 4);
    assert("content-length"@.len() == 14 && "content-length"@[0] == 'c');
    assert("transfer-encoding"@.len() == 17 && "transfer-encoding"@[0] == 't');
    assert("x-hecate-agent-id"@[0] == 'x');
    assert("connection"@.len() == 10);
    allowlist::lemma_headers_to_the_server(h, name);
    let list = seq![
        "content-type"@,
        "accept"@,
        "if-none-match"@,
        "x-hecate-agent-id"@,
        "x-hecate-timestamp"@,
        "x-hecate-nonce"@,
        "x-hecate-signature"@,
    ];
    assert(list[0] == "content-type"@);
    assert(list[1] == "accept"@);
    assert(list[2] == "if-none-match"@);
    assert(list[3] == "x-hecate-agent-id"@);
    assert(list[4] == "x-hecate-timestamp"@);
    assert(list[5] == "x-hecate-nonce"@);
    assert(list[6] == "x-hecate-signature"@);
    assert(list.contains(text::lower(name)));
}

/// What reaches the server beside these is the identity of the proxy: its own
/// where it has one, and none where it has none, whatever the client says.
pub proof fn lemma_only_the_proxy_names_itself(
    h: headers::Headers,
    known: Seq<Seq<char>>,
    proxy_id: Option<u128>,
    name: Seq<char>,
)
    ensures
        upstream_headers(h, proxy_id).dom().contains(name) ==> name == "x-hecate-proxy-id"@ || (
        h.dom().contains(name) && upstream_headers(h, proxy_id)[name] == h[name]),
        fill_headers(h, known, proxy_id).dom().contains(name) ==> name == "x-hecate-proxy-id"@
            || name == "if-none-match"@ || (h.dom().contains(name) && fill_headers(
            h,
            known,
            proxy_id,
        )[name] == h[name]),
        upstream_headers(h, proxy_id).dom().contains("x-hecate-proxy-id"@) == proxy_id is Some,
        fill_headers(h, known, proxy_id).dom().contains("x-hecate-proxy-id"@) == proxy_id is Some,
        proxy_id is Some ==> upstream_headers(h, proxy_id)["x-hecate-proxy-id"@] == seq![
            vstd::utf8::encode_utf8(ids::uuid_text(proxy_id->0)),
        ],
        proxy_id is Some ==> fill_headers(h, known, proxy_id)["x-hecate-proxy-id"@] == seq![
            vstd::utf8::encode_utf8(ids::uuid_text(proxy_id->0)),
        ],
{
    lemma_upstream_headers(h, proxy_id);
    lemma_upstream_headers(h, None);
    reveal_strlit("x-hecate-proxy-id");
    reveal_strlit("if-none-match");
    reveal_strlit("host");
    reveal_strlit("content-length");
    reveal_strlit("transfer-encoding");
    reveal_strlit("connection");
    let own = "x-hecate-proxy-id"@;
    assert(own.len() == 17 && own[0] == 'x');
    assert("if-none-match"@.len() == 13);
    assert("host"@.len() == 4);
    assert("content-length"@.len() == 14);
    assert("transfer-encoding"@.len() == 17 && "transfer-encoding"@[0] == 't');
    assert("connection"@.len() == 10);
    assert(!upstream_headers(h, None).dom().contains(own));
    assert(!allowlist::forwarded_request(h).dom().contains(own));
}

/// The condition of a fill names up to eight of the known hashes, the first ones,
/// each in quotation marks, with a comma and a space between two; it takes the
/// place of a condition of the client.
pub proof fn lemma_condition_of_a_fill(
    h: headers::Headers,
    known: Seq<Seq<char>>,
    proxy_id: Option<u128>,
)
    requires
        known.len() > 0,
        forall|i: int| 0 <= i < known.len() ==> signing::is_visible_text(#[trigger] known[i]),
    ensures
        ({
            let n = if known.len() < 8 {
                known.len() as int
            } else {
                8
            };
            let after = fill_headers(h, known, proxy_id);
            &&& after.dom().contains("if-none-match"@)
            &&& after["if-none-match"@] == seq![
                vstd::utf8::encode_utf8(tag_list(known.take(n))),
            ]
        }),
{
    let n = if known.len() < 8 {
        known.len() as int
    } else {
        8
    };
    let named = known.take(n);
    assert(named_hashes(known) =~= named);
    lemma_tag_list_visible(named);
    headers::lemma_visible_value(tag_list(named));
    reveal_strlit("x-hecate-proxy-id");
    reveal_strlit("if-none-match");
    assert("x-hecate-proxy-id"@.len() == 17);
    assert("if-none-match"@.len() == 13);
}

proof fn lemma_tag_list_visible(hashes: Seq<Seq<char>>)
    requires
        forall|i: int| 0 <= i < hashes.len() ==> signing::is_visible_text(#[trigger] hashes[i]),
    ensures
        signing::is_visible_text(tag_list(hashes)),
    decreases hashes.len(),
{
    if hashes.len() > 0 {
        let init = hashes.drop_last();
        let last = hashes[hashes.len() - 1];
        assert(signing::is_visible_text(last));
        let q = artifact_cache::quoted(last);
        assert(signing::is_visible_text(q)) by {
            assert forall|i: int| 0 <= i < q.len() implies ' ' <= #[trigger] q[i] && q[i] <= '~' by {
                if 1 <= i < q.len() - 1 {
                    assert(q[i] == last[i - 1]);
                }
            }
        }
        if hashes.len() > 1 {
            assert forall|i: int| 0 <= i < init.len() implies signing::is_visible_text(
                #[trigger] init[i],
            ) by {
                assert(init[i] == hashes[i]);
            }
            lemma_tag_list_visible(init);
            reveal_strlit(", ");
            let t = tag_list(hashes);
            let front = tag_list(init);
            assert forall|i: int| 0 <= i < t.len() implies ' ' <= #[trigger] t[i] && t[i] <= '~' by {
                if i < front.len() {
                    assert(t[i] == front[i]);
                } else if i < front.len() + 2 {
                    assert(t[i] == ", "@[i - front.len()]);
                } else {
                    assert(t[i] == q[i - front.len() - 2]);
                }
            }
        }
    }
}

/// A list of entity tags is made of its tags: one hash is written between two
/// quotation marks, and two lists are joined by a comma and a space.
pub proof fn lemma_tag_list(a: Seq<Seq<char>>, b: Seq<Seq<char>>, hash: Seq<char>)
    requires
        a.len() > 0,
        b.len() > 0,
    ensures
        tag_list(seq![hash]) == seq!['"'] + hash + seq!['"'],
        tag_list(a + b) == tag_list(a) + seq![',', ' '] + tag_list(b),
    decreases b.len(),
{
    reveal_strlit(", ");
    assert(", "@ =~= seq![',', ' ']);
    let s = a + b;
    assert(s.last() == b.last());
    if b.len() == 1 {
        assert(s.drop_last() =~= a);
        assert(b[0] == b.last());
    } else {
        let init = b.drop_last();
        lemma_tag_list(a, init, hash);
        assert(s.drop_last() =~= a + init);
        assert(tag_list(s) =~= tag_list(a) + seq![',', ' '] + tag_list(b));
    }
}

/// The URL is the address of the server and the path, with a question mark and
/// the query after it where there is something in the query.
pub proof fn lemma_url(base: Seq<char>, path: Seq<char>, query: Seq<char>)
    ensures
        url_text(base, path, None) == base + path,
        url_text(base, path, Some(Seq::<char>::empty())) == base + path,
        query.len() > 0 ==> url_text(base, path, Some(query)) == base + path + seq!['?'] + query,
{
    reveal_strlit("?");
    assert("?"@ =~= seq!['?']);
}

/// Every status of three digits is relayed as it is, and anything else as that of
/// a bad gateway.
pub proof fn lemma_status_is_relayed(status: u16)
    ensures
        100 <= status <= 999 ==> relayed_status(status) == status,
        status < 100 || status > 999 ==> relayed_status(status) == 502,
{
}

/// A header of the server's response reaches the agent exactly where its name may
/// be relayed, and then with the last of its values.
pub proof fn lemma_response_is_relayed(h: headers::Headers, name: Seq<char>)
    requires
        h.dom().contains(name) ==> h[name].len() > 0,
    ensures
        ({
            let n = text::lower(name);
            let out = relayed_headers(h);
            let listed = n == "content-type"@ || n == "etag"@ || n == "cache-control"@ || n
                == "last-modified"@ || n == "content-disposition"@ || n == "accept-ranges"@ || exists|
                rest: Seq<char>,
            |
                n == #[trigger] ("x-hecate-"@ + rest);
            &&& out.dom().contains(name) == (h.dom().contains(name) && listed)
            &&& out.dom().contains(name) ==> out[name] == seq![h[name].last()]
        }),
{
    let n = text::lower(name);
    let out = relayed_headers(h);
    allowlist::lemma_headers_to_an_agent(unframed(h), name);
    let list = seq![
        "content-type"@,
        "etag"@,
        "cache-control"@,
        "last-modified"@,
        "content-disposition"@,
        "accept-ranges"@,
    ];
    assert(list[0] == "content-type"@);
    assert(list[1] == "etag"@);
    assert(list[2] == "cache-control"@);
    assert(list[3] == "last-modified"@);
    assert(list[4] == "content-disposition"@);
    assert(list[5] == "accept-ranges"@);
    // The two names of framing headers are not on the list.
    reveal_strlit("x-hecate-");
    reveal_strlit("content-type");
    reveal_strlit("etag");
    reveal_strlit("cache-control");
    reveal_strlit("last-modified");
    reveal_strlit("content-disposition");
    reveal_strlit("accept-ranges");
    reveal_strlit("transfer-encoding");
    reveal_strlit("content-length");
    text::lemma_lower_fixed("transfer-encoding"@);
    text::lemma_lower_fixed("content-length"@);
    assert("transfer-encoding"@.len() == 17 && "transfer-encoding"@[0] == 't');
    assert("content-length"@.len() == 14 && "content-length"@[0] == 'c');
    assert("content-type"@.len() == 12);
    assert("etag"@.len() == 4);
    assert("cache-control"@.len() == 13);
    assert("last-modified"@.len() == 13);
    assert("content-disposition"@.len() == 19);
    assert("accept-ranges"@.len() == 13);
    assert("x-hecate-"@.len() == 9 && "x-hecate-"@[0] == 'x');
    if exists|rest: Seq<char>| n == #[trigger] ("x-hecate-"@ + rest) {
        let rest = choose|rest: Seq<char>| n == #[trigger] ("x-hecate-"@ + rest);
        assert(n[0] == 'x');
    }
}

} // verus!
