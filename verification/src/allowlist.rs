//! Which requests the proxy lets through, and which of their headers.

use axum::http::HeaderMap;
use vstd::prelude::*;
use vstd::string::*;

use crate::headers;
use crate::web::Method;
use crate::ids;
use crate::text;

verus! {

// ---------------------------------------------------------------------------
// Paths
// ---------------------------------------------------------------------------

/// An absolute path without relative segments, empty segments, backslashes or
/// an encoded dot, slash or backslash.
pub open spec fn is_canonical(path: Seq<char>) -> bool {
    &&& path.len() > 0
    &&& path[0] == '/'
    &&& !path.contains('\\')
    &&& !text::has_text(path, "//"@)
    &&& !text::has_text(path, "/./"@)
    &&& !text::has_text(path, ".."@)
    &&& !text::has_text(text::lower(path), "%2e"@)
    &&& !text::has_text(text::lower(path), "%2f"@)
    &&& !text::has_text(text::lower(path), "%5c"@)
    &&& !has_relative_segment(path)
}

/// Some segment of the path is `.` or `..`.
pub open spec fn has_relative_segment(path: Seq<char>) -> bool {
    exists|i: int|
        0 <= i < text::split_on(path, '/').len() && (#[trigger] text::split_on(path, '/')[i] == "."@
            || text::split_on(path, '/')[i] == ".."@)
}

fn any_relative_segment(v: &Vec<char>) -> (r: bool)
    ensures
        r == has_relative_segment(v@),
{
    let p = text::split_chars(v, '/');
    let ghost segments = text::split_on(v@, '/');
    let mut i: usize = 0;
    while i < p.len()
        invariant
            i <= p@.len(),
            text::pieces(p@) == segments,
            segments == text::split_on(v@, '/'),
            forall|j: int| 0 <= j < i ==> #[trigger] segments[j] != "."@ && segments[j] != ".."@,
        decreases p@.len() - i,
    {
        assert(segments[i as int] == p@[i as int]@);
        if text::chars_are(&p[i], ".") || text::chars_are(&p[i], "..") {
            return true;
        }
        i = i + 1;
    }
    false
}

fn any_char(v: &Vec<char>, c: char) -> (r: bool)
    ensures
        r == v@.contains(c),
{
    let mut i: usize = 0;
    while i < v.len()
        invariant
            i <= v@.len(),
            forall|j: int| 0 <= j < i ==> v@[j] != c,
        decreases v@.len() - i,
    {
        if v[i] == c {
            return true;
        }
        i = i + 1;
    }
    false
}

/// The path itself where it is canonical; an encoded or relative traversal is
/// refused before any route is matched.
pub fn canonicalize_agent_path(path: &str) -> (r: Result<String, ()>)
    ensures
        match r {
            Ok(s) => is_canonical(path@) && s@ == path@,
            Err(_) => !is_canonical(path@),
        },
{
    let v = text::chars_of(path);
    if v.len() == 0 || v[0] != '/' {
        return Err(());
    }
    let lower = text::to_lower(path);
    if any_char(&v, '\\') || text::contains_text(path, "//") || text::contains_text(path, "/./")
        || text::contains_text(path, "..") || text::contains_text(lower.as_str(), "%2e")
        || text::contains_text(lower.as_str(), "%2f") || text::contains_text(
        lower.as_str(),
        "%5c",
    ) {
        return Err(());
    }
    if any_relative_segment(&v) {
        return Err(());
    }
    Ok(path.to_owned())
}

// ---------------------------------------------------------------------------
// Routes
// ---------------------------------------------------------------------------

/// The path of the artifact of a command: the identifier of the command stands
/// between `/api/v1/agent/commands/` and `/artifact`.
pub open spec fn is_command_artifact(path: Seq<char>) -> bool {
    let prefix = "/api/v1/agent/commands/"@;
    let segments = text::split_on(path.skip(prefix.len() as int), '/');
    &&& prefix.is_prefix_of(path)
    &&& segments.len() == 2
    &&& ids::uuid_value(segments[0]) is Some
    &&& segments[1] == "artifact"@
}

fn is_command_artifact_path(path: &str) -> (r: bool)
    ensures
        r == is_command_artifact(path@),
{
    let prefix = "/api/v1/agent/commands/";
    if !text::starts_with(path, prefix) {
        return false;
    }
    let v = text::chars_of(path);
    let p = text::chars_of(prefix);
    let rest = text::text_of(&v, p.len(), v.len());
    let rest_chars = text::chars_of(rest.as_str());
    assert(rest_chars@ =~= path@.skip(prefix@.len() as int));
    let parts = text::split_chars(&rest_chars, '/');
    let ghost segments = text::split_on(rest_chars@, '/');
    assert(segments.len() == parts@.len());
    if parts.len() != 2 {
        return false;
    }
    assert(segments[0] == parts@[0]@);
    assert(segments[1] == parts@[1]@);
    let id = text::text_of(&parts[0], 0, parts[0].len());
    assert(id@ =~= segments[0]);
    text::chars_are(&parts[1], "artifact") && ids::parse_uuid(id.as_str()).is_some()
}

/// The routes that have a fixed path.
pub open spec fn is_fixed_route(method: Method, path: Seq<char>) -> bool {
    match method {
        Method::Post => {
            ||| path == "/api/v1/agent/enroll"@
            ||| path == "/api/v1/agent/credentials/rotate"@
            ||| path == "/api/v1/agent/update-offer"@
            ||| path == "/api/v1/agent/results"@
            ||| path == "/api/v1/agent/heartbeat"@
        },
        Method::Get => path == "/api/v1/agent/status"@ || path == "/api/v1/agent/pull"@,
        _ => false,
    }
}

/// The routes that the proxy may expose: those of a fixed path, the artifacts
/// of releases, and the artifacts of commands. Whether the path is that of a
/// release artifact is `release_artifact`.
pub open spec fn is_allowed(method: Method, path: Seq<char>, release_artifact: bool) -> bool {
    &&& is_canonical(path)
    &&& {
        ||| is_fixed_route(method, path)
        ||| method == Method::Get && release_artifact
        ||| (method == Method::Get || method == Method::Put) && is_command_artifact(path)
    }
}

fn is_fixed(method: Method, path: &str) -> (r: bool)
    ensures
        r == is_fixed_route(method, path@),
{
    match method {
        Method::Post => text::same_text(path, "/api/v1/agent/enroll") || text::same_text(
            path,
            "/api/v1/agent/credentials/rotate",
        ) || text::same_text(path, "/api/v1/agent/update-offer") || text::same_text(
            path,
            "/api/v1/agent/results",
        ) || text::same_text(path, "/api/v1/agent/heartbeat"),
        Method::Get => text::same_text(path, "/api/v1/agent/status") || text::same_text(
            path,
            "/api/v1/agent/pull",
        ),
        _ => false,
    }
}

/// Whether the proxy may expose the route. The agents' protocol decides which
/// paths are those of release artifacts; `release_artifact` is its answer for
/// this path.
pub fn is_allowed_agent_route(method: &Method, path: &str, release_artifact: bool) -> (r: bool)
    ensures
        r == is_allowed(*method, path@, release_artifact),
{
    match canonicalize_agent_path(path) {
        Ok(_) => is_fixed(*method, path) || (*method == Method::Get && release_artifact) || ((*method
            == Method::Get || *method == Method::Put) && is_command_artifact_path(path)),
        Err(_) => false,
    }
}

/// The route on which agents enroll.
pub open spec fn is_enroll(method: Method, path: Seq<char>) -> bool {
    method == Method::Post && path == "/api/v1/agent/enroll"@
}

/// Whether this is the route on which agents enroll.
pub fn is_enroll_route(method: &Method, path: &str) -> (r: bool)
    ensures
        r == is_enroll(*method, path@),
{
    *method == Method::Post && text::same_text(path, "/api/v1/agent/enroll")
}

/// Whether this is the download of a release artifact; `release_artifact` is
/// the protocol's answer for the path.
pub fn is_release_artifact_route(method: &Method, release_artifact: bool) -> (r: bool)
    ensures
        r == (*method == Method::Get && release_artifact),
{
    *method == Method::Get && release_artifact
}

/// How many bytes the body of a request may have: the artifact of a command as
/// many as a file, an enrollment one mebibyte, any other request two.
pub open spec fn body_limit(method: Method, path: Seq<char>, max_file_bytes: usize) -> usize {
    if method == Method::Put && "/api/v1/agent/commands/"@.is_prefix_of(path)
        && "/artifact"@.is_suffix_of(path) {
        max_file_bytes
    } else if is_enroll(method, path) {
        0x10_0000
    } else {
        0x20_0000
    }
}

/// How many bytes the body of a request may have, where the protocol allows
/// files of `max_file_bytes`.
pub fn max_body_bytes(method: &Method, path: &str, max_file_bytes: usize) -> (r: usize)
    ensures
        r == body_limit(*method, path@, max_file_bytes),
{
    if *method == Method::Put && text::starts_with(path, "/api/v1/agent/commands/")
        && text::ends_with(path, "/artifact") {
        return max_file_bytes;
    }
    if is_enroll_route(method, path) {
        return 0x10_0000;
    }
    0x20_0000
}

/// Apart from the artifacts of releases, whose paths the agents' protocol
/// decides, every exposed route lies under `/api/v1/agent/`: none is internal
/// to the server and none is its tool endpoint.
pub proof fn lemma_allowed_under_agent_api(method: Method, path: Seq<char>, release_artifact: bool)
    requires
        is_allowed(method, path, release_artifact),
    ensures
        (method == Method::Get && release_artifact) || "/api/v1/agent/"@.is_prefix_of(path),
        (method == Method::Get && release_artifact) || !("/internal/"@.is_prefix_of(path)),
        (method == Method::Get && release_artifact) || !("/mcp"@.is_prefix_of(path)),
{
    reveal_strlit("/api/v1/agent/");
    reveal_strlit("/internal/");
    reveal_strlit("/mcp");
    if !(method == Method::Get && release_artifact) {
        if is_command_artifact(path) {
            reveal_strlit("/api/v1/agent/commands/");
            let prefix = "/api/v1/agent/commands/"@;
            assert(prefix.take(14) =~= "/api/v1/agent/"@);
            assert(path.take(14) =~= prefix.take(14));
        } else {
            reveal_strlit("/api/v1/agent/enroll");
            reveal_strlit("/api/v1/agent/credentials/rotate");
            reveal_strlit("/api/v1/agent/update-offer");
            reveal_strlit("/api/v1/agent/results");
            reveal_strlit("/api/v1/agent/heartbeat");
            reveal_strlit("/api/v1/agent/status");
            reveal_strlit("/api/v1/agent/pull");
            assert(path.take(14) =~= "/api/v1/agent/"@);
        }
        assert(path.take(14)[1] == 'a');
        assert(path.subrange(0, 10)[1] == 'a');
        assert(path.subrange(0, 4)[1] == 'a');
    }
}

/// A route is exposed only under a canonical path: no segment of it is
/// relative, and nothing in it decodes to a dot, a slash or a backslash.
pub proof fn lemma_allowed_is_canonical(method: Method, path: Seq<char>, release_artifact: bool)
    requires
        is_allowed(method, path, release_artifact),
    ensures
        !has_relative_segment(path),
        !text::has_text(path, ".."@),
        !text::has_text(text::lower(path), "%2e"@),
        !text::has_text(text::lower(path), "%2f"@),
        !text::has_text(text::lower(path), "%5c"@),
{
}

// ---------------------------------------------------------------------------
// Headers
// ---------------------------------------------------------------------------

/// The names of the headers that are relayed to the server.
pub open spec fn forwards_request(name: Seq<char>) -> bool {
    let n = text::lower(name);
    ||| n == "content-type"@
    ||| n == "accept"@
    ||| n == "if-none-match"@
    ||| n == "x-hecate-agent-id"@
    ||| n == "x-hecate-timestamp"@
    ||| n == "x-hecate-nonce"@
    ||| n == "x-hecate-signature"@
}

/// The names of the headers that are relayed to agents: no hop-by-hop header,
/// no cookie and no internal location.
pub open spec fn forwards_response(name: Seq<char>) -> bool {
    let n = text::lower(name);
    ||| "x-hecate-"@.is_prefix_of(n)
    ||| n == "content-type"@
    ||| n == "etag"@
    ||| n == "cache-control"@
    ||| n == "last-modified"@
    ||| n == "content-disposition"@
    ||| n == "accept-ranges"@
}

/// Whether a header may be relayed to the server.
pub fn is_forwardable_request_header(name: &str) -> (r: bool)
    ensures
        r == forwards_request(name@),
{
    let lower = text::to_lower(name);
    let n = lower.as_str();
    text::same_text(n, "content-type") || text::same_text(n, "accept") || text::same_text(
        n,
        "if-none-match",
    ) || text::same_text(n, "x-hecate-agent-id") || text::same_text(n, "x-hecate-timestamp")
        || text::same_text(n, "x-hecate-nonce") || text::same_text(n, "x-hecate-signature")
}

/// Whether a header may be relayed to an agent.
pub fn is_forwardable_response_header(name: &str) -> (r: bool)
    ensures
        r == forwards_response(name@),
{
    let lower = text::to_lower(name);
    let n = lower.as_str();
    text::starts_with(n, "x-hecate-") || text::same_text(n, "content-type") || text::same_text(
        n,
        "etag",
    ) || text::same_text(n, "cache-control") || text::same_text(n, "last-modified")
        || text::same_text(n, "content-disposition") || text::same_text(n, "accept-ranges")
}

/// The headers of a request that are relayed to the server.
pub open spec fn forwarded_request(h: headers::Headers) -> headers::Headers {
    h.restrict(Set::new(|name: Seq<char>| forwards_request(name)))
}

/// The headers of a response that are relayed to an agent.
pub open spec fn forwarded_response(h: headers::Headers) -> headers::Headers {
    h.restrict(Set::new(|name: Seq<char>| forwards_response(name)))
}

/// Drops the headers that must not be relayed to the server.
pub fn retain_forwardable_request_headers(h: &mut HeaderMap)
    ensures
        headers::header_contents(*final(h)) == forwarded_request(headers::header_contents(*old(h))),
        headers::names_at_most(headers::header_contents(*final(h)), 7),
{
    let names = headers::header_names(h);
    let ghost before = headers::header_contents(*h);
    let mut i: usize = 0;
    while i < names.len()
        invariant
            i <= names@.len(),
            text::texts(names@).to_set() == before.dom(),
            forall|j: int| 0 <= j < names@.len() ==> headers::is_field_name((#[trigger] names@[j])@),
            headers::header_contents(*h).submap_of(before),
            forall|k: Seq<char>|
                before.dom().contains(k) && !headers::header_contents(*h).dom().contains(k)
                    ==> !#[trigger] forwards_request(k),
            forall|j: int|
                0 <= j < i ==> forwards_request(#[trigger] text::texts(names@)[j])
                    || !headers::header_contents(*h).dom().contains(text::texts(names@)[j]),
        decreases names@.len() - i,
    {
        let name = names[i].as_str();
        assert(text::texts(names@)[i as int] == name@);
        if !is_forwardable_request_header(name) {
            headers::header_remove(h, name);
        }
        i = i + 1;
    }
    proof {
        let after = headers::header_contents(*h);
        assert forall|k: Seq<char>| after.dom().contains(k) implies forwards_request(k) by {
            assert(before.dom().contains(k));
            assert(text::texts(names@).contains(k));
            let j = choose|j: int| 0 <= j < names@.len() && text::texts(names@)[j] == k;
            assert(text::texts(names@)[j] == k);
        }
        assert(after =~= forwarded_request(before));
        let names_forwarded = set![
            "content-type"@,
            "accept"@,
            "if-none-match"@,
            "x-hecate-agent-id"@,
            "x-hecate-timestamp"@,
            "x-hecate-nonce"@,
            "x-hecate-signature"@,
        ];
        assert forall|k: Seq<char>| after.dom().contains(k) implies names_forwarded.contains(k) by {
            assert(before.dom().contains(k));
            assert(text::texts(names@).contains(k));
            let j = choose|j: int| 0 <= j < names@.len() && text::texts(names@)[j] == k;
            assert(names@[j]@ == k);
            headers::lemma_field_name_lower(k);
        }
        assert(after.dom().subset_of(names_forwarded));
        vstd::set_lib::lemma_len_subset(after.dom(), names_forwarded);
    }
}

/// Drops the headers that must not be relayed to an agent.
pub fn retain_forwardable_response_headers(h: &mut HeaderMap)
    ensures
        headers::header_contents(*final(h)) == forwarded_response(
            headers::header_contents(*old(h)),
        ),
{
    let names = headers::header_names(h);
    let ghost before = headers::header_contents(*h);
    let mut i: usize = 0;
    while i < names.len()
        invariant
            i <= names@.len(),
            text::texts(names@).to_set() == before.dom(),
            headers::header_contents(*h).submap_of(before),
            forall|k: Seq<char>|
                before.dom().contains(k) && !headers::header_contents(*h).dom().contains(k)
                    ==> !#[trigger] forwards_response(k),
            forall|j: int|
                0 <= j < i ==> forwards_response(#[trigger] text::texts(names@)[j])
                    || !headers::header_contents(*h).dom().contains(text::texts(names@)[j]),
        decreases names@.len() - i,
    {
        let name = names[i].as_str();
        assert(text::texts(names@)[i as int] == name@);
        if !is_forwardable_response_header(name) {
            headers::header_remove(h, name);
        }
        i = i + 1;
    }
    proof {
        let after = headers::header_contents(*h);
        assert forall|k: Seq<char>| after.dom().contains(k) implies forwards_response(k) by {
            assert(before.dom().contains(k));
            assert(text::texts(names@).contains(k));
            let j = choose|j: int| 0 <= j < names@.len() && text::texts(names@)[j] == k;
            assert(text::texts(names@)[j] == k);
        }
        assert(after =~= forwarded_response(before));
    }
}

/// Filtering headers a second time changes nothing.
pub proof fn lemma_forwarded_idempotent(h: headers::Headers)
    ensures
        forwarded_request(forwarded_request(h)) == forwarded_request(h),
        forwarded_response(forwarded_response(h)) == forwarded_response(h),
{
    assert(forwarded_request(forwarded_request(h)) =~= forwarded_request(h));
    assert(forwarded_response(forwarded_response(h)) =~= forwarded_response(h));
}

// ---------------------------------------------------------------------------
// What the list promises
// ---------------------------------------------------------------------------

/// Two characters follow one another somewhere in a text.
pub open spec fn has_pair(s: Seq<char>, a: char, b: char) -> bool {
    exists|i: int| 0 <= i < s.len() - 1 && #[trigger] s[i] == a && s[i + 1] == b
}

/// Three characters follow one another somewhere in a text.
pub open spec fn has_triple(s: Seq<char>, a: char, b: char, c: char) -> bool {
    exists|i: int|
        0 <= i < s.len() - 2 && #[trigger] s[i] == a && s[i + 1] == b && s[i + 2] == c
}

proof fn lemma_has_pair(s: Seq<char>, a: char, b: char)
    ensures
        text::has_text(s, seq![a, b]) == has_pair(s, a, b),
{
    let p = seq![a, b];
    if text::has_text(s, p) {
        let i = choose|i: int| text::occurs_at(s, p, i);
        assert(s.subrange(i, i + 2)[0] == s[i] && s.subrange(i, i + 2)[1] == s[i + 1]);
    }
    if has_pair(s, a, b) {
        let i = choose|i: int| 0 <= i < s.len() - 1 && #[trigger] s[i] == a && s[i + 1] == b;
        assert(s.subrange(i, i + 2) =~= p);
        assert(text::occurs_at(s, p, i));
    }
}

proof fn lemma_has_triple(s: Seq<char>, a: char, b: char, c: char)
    ensures
        text::has_text(s, seq![a, b, c]) == has_triple(s, a, b, c),
{
    let p = seq![a, b, c];
    if text::has_text(s, p) {
        let i = choose|i: int| text::occurs_at(s, p, i);
        assert(s.subrange(i, i + 3)[0] == s[i] && s.subrange(i, i + 3)[1] == s[i + 1]
            && s.subrange(i, i + 3)[2] == s[i + 2]);
    }
    if has_triple(s, a, b, c) {
        let i = choose|i: int|
            0 <= i < s.len() - 2 && #[trigger] s[i] == a && s[i + 1] == b && s[i + 2] == c;
        assert(s.subrange(i, i + 3) =~= p);
        assert(text::occurs_at(s, p, i));
    }
}

proof fn lemma_path_literals()
    ensures
        "//"@ == seq!['/', '/'],
        ".."@ == seq!['.', '.'],
        "/./"@ == seq!['/', '.', '/'],
        "%2e"@ == seq!['%', '2', 'e'],
        "%2f"@ == seq!['%', '2', 'f'],
        "%5c"@ == seq!['%', '5', 'c'],
        "."@ == seq!['.'],
{
    reveal_strlit("//");
    reveal_strlit("..");
    reveal_strlit("/./");
    reveal_strlit("%2e");
    reveal_strlit("%2f");
    reveal_strlit("%5c");
    reveal_strlit(".");
    assert("//"@ =~= seq!['/', '/']);
    assert(".."@ =~= seq!['.', '.']);
    assert("/./"@ =~= seq!['/', '.', '/']);
    assert("%2e"@ =~= seq!['%', '2', 'e']);
    assert("%2f"@ =~= seq!['%', '2', 'f']);
    assert("%5c"@ =~= seq!['%', '5', 'c']);
    assert("."@ =~= seq!['.']);
}

proof fn lemma_encoded(path: Seq<char>, digit: char, small: char, capital: char)
    requires
        '0' <= digit && digit <= '9',
        'a' <= small && small <= 'z',
        capital as int == small as int - 32,
    ensures
        has_triple(text::lower(path), '%', digit, small) == (has_triple(path, '%', digit, small)
            || has_triple(path, '%', digit, capital)),
{
    let l = text::lower(path);
    assert forall|i: int| 0 <= i < path.len() implies (#[trigger] l[i] == '%') == (path[i] == '%')
        && (l[i] == digit) == (path[i] == digit) && (l[i] == small) == (path[i] == small
        || path[i] == capital) by {
        text::lemma_lower(path, i);
    }
    if has_triple(l, '%', digit, small) {
        let i = choose|i: int|
            0 <= i < l.len() - 2 && #[trigger] l[i] == '%' && l[i + 1] == digit && l[i + 2] == small;
        assert(path[i] == '%' && path[i + 1] == digit);
    }
    if has_triple(path, '%', digit, small) {
        let i = choose|i: int|
            0 <= i < path.len() - 2 && #[trigger] path[i] == '%' && path[i + 1] == digit && path[i
                + 2] == small;
        assert(l[i] == '%' && l[i + 1] == digit && l[i + 2] == small);
    }
    if has_triple(path, '%', digit, capital) {
        let i = choose|i: int|
            0 <= i < path.len() - 2 && #[trigger] path[i] == '%' && path[i + 1] == digit && path[i
                + 2] == capital;
        assert(l[i] == '%' && l[i + 1] == digit && l[i + 2] == small);
    }
}

/// A path that begins with a slash and has no two dots in a row has a relative
/// segment exactly where a dot stands alone between slashes or at the end.
proof fn lemma_relative_segments(path: Seq<char>)
    requires
        path.len() > 0,
        path[0] == '/',
        !has_pair(path, '.', '.'),
    ensures
        has_relative_segment(path) ==> has_triple(path, '/', '.', '/') || (path.len() >= 2
            && path[path.len() - 2] == '/' && path.last() == '.'),
        path.len() >= 2 && path[path.len() - 2] == '/' && path.last() == '.'
            ==> has_relative_segment(path),
{
    lemma_path_literals();
    let segments = text::split_on(path, '/');
    if path.len() >= 2 && path[path.len() - 2] == '/' && path.last() == '.' {
        let a = path.take(path.len() - 2);
        assert(path =~= a + seq!['/'] + seq!['.']);
        assert(!seq!['.'].contains('/'));
        text::lemma_split_append(a, seq!['.'], '/');
        assert(segments[segments.len() - 1] == seq!['.']);
    }
    if has_relative_segment(path) {
        let k = choose|k: int|
            0 <= k < segments.len() && (#[trigger] segments[k] == "."@ || segments[k] == ".."@);
        let at = text::lemma_piece_stands(path, '/', k);
        assert(segments[k][0] == path[at + 0]);
        if segments[k] == ".."@ {
            assert(segments[k][1] == path[at + 1]);
            assert(path[at] == '.' && path[at + 1] == '.');
        } else {
            let i = at - 1;
            assert(path[i] == '/' && path[i + 1] == '.');
            if k < segments.len() - 1 {
                assert(path[i + 2] == '/');
            }
        }
    }
}

/// A path is taken exactly where it begins with a slash and has no two slashes or
/// two dots in a row, no dot alone between slashes or at the end, no backslash,
/// and no dot, slash or backslash in percent encoding, of whatever case.
pub proof fn lemma_canonical_paths(path: Seq<char>)
    ensures
        is_canonical(path) == {
            &&& path.len() > 0
            &&& path[0] == '/'
            &&& !path.contains('\\')
            &&& !has_pair(path, '/', '/')
            &&& !has_pair(path, '.', '.')
            &&& !has_triple(path, '/', '.', '/')
            &&& !(path.len() >= 2 && path[path.len() - 2] == '/' && path.last() == '.')
            &&& !has_triple(path, '%', '2', 'e') && !has_triple(path, '%', '2', 'E')
            &&& !has_triple(path, '%', '2', 'f') && !has_triple(path, '%', '2', 'F')
            &&& !has_triple(path, '%', '5', 'c') && !has_triple(path, '%', '5', 'C')
        },
{
    let l = text::lower(path);
    assert({
        &&& text::has_text(path, "//"@) == has_pair(path, '/', '/')
        &&& text::has_text(path, ".."@) == has_pair(path, '.', '.')
        &&& text::has_text(path, "/./"@) == has_triple(path, '/', '.', '/')
        &&& text::has_text(l, "%2e"@) == has_triple(l, '%', '2', 'e')
        &&& text::has_text(l, "%2f"@) == has_triple(l, '%', '2', 'f')
        &&& text::has_text(l, "%5c"@) == has_triple(l, '%', '5', 'c')
    }) by {
        lemma_path_literals();
        lemma_has_pair(path, '/', '/');
        lemma_has_pair(path, '.', '.');
        lemma_has_triple(path, '/', '.', '/');
        lemma_has_triple(l, '%', '2', 'e');
        lemma_has_triple(l, '%', '2', 'f');
        lemma_has_triple(l, '%', '5', 'c');
    }
    lemma_encoded(path, '2', 'e', 'E');
    lemma_encoded(path, '2', 'f', 'F');
    lemma_encoded(path, '5', 'c', 'C');
    if path.len() > 0 && path[0] == '/' && !has_pair(path, '.', '.') {
        lemma_relative_segments(path);
    }
}

proof fn lemma_uuid_has_no_slash(id: Seq<char>)
    requires
        ids::uuid_value(id) is Some,
    ensures
        !id.contains('/'),
{
    if id.contains('/') {
        let k = choose|k: int| 0 <= k < id.len() && id[k] == '/';
        assert(!text::is_hex_digit('/'));
        if id.len() == 32 && forall|i: int| 0 <= i < 32 ==> text::is_hex_digit(#[trigger] id[i]) {
            assert(text::is_hex_digit(id[k]));
        } else if ids::is_hyphenated(id) {
            assert(id[k] == '-' || text::is_hex_digit(id[k]));
        } else if id.len() == 38 {
            let inner = id.subrange(1, 37);
            if 1 <= k < 37 {
                assert(inner[k - 1] == '-' || text::is_hex_digit(inner[k - 1]));
            }
        } else {
            reveal_strlit("urn:uuid:");
            if k < 9 {
                let l = text::lower(id.take(9));
                assert(l[k] == '/');
                assert("urn:uuid:"@[k] != '/') by {
                    let u = "urn:uuid:"@;
                    assert(u[0] == 'u' && u[1] == 'r' && u[2] == 'n' && u[3] == ':' && u[4] == 'u'
                        && u[5] == 'u' && u[6] == 'i' && u[7] == 'd' && u[8] == ':');
                }
            } else {
                let inner = id.skip(9);
                assert(inner[k - 9] == '-' || text::is_hex_digit(inner[k - 9]));
            }
        }
    }
}

/// The artifact of a command is found under the identifier of the command, and
/// under nothing else.
pub proof fn lemma_command_artifacts(path: Seq<char>)
    ensures
        is_command_artifact(path) == exists|id: Seq<char>|
            ids::uuid_value(id) is Some && path == #[trigger] ("/api/v1/agent/commands/"@ + id
                + "/artifact"@),
{
    let prefix = "/api/v1/agent/commands/"@;
    let suffix = "/artifact"@;
    reveal_strlit("/artifact");
    reveal_strlit("artifact");
    assert(suffix =~= seq!['/'] + "artifact"@);
    let word = "artifact"@;
    assert(!word.contains('/')) by {
        assert(word =~= seq!['a', 'r', 't', 'i', 'f', 'a', 'c', 't']);
    }
    let rest = path.skip(prefix.len() as int);
    let segments = text::split_on(rest, '/');
    if is_command_artifact(path) {
        text::lemma_split(rest, '/');
        let id = segments[0];
        assert(segments.drop_last() =~= seq![id]);
        assert(text::joined(segments.drop_last(), '/') == id);
        assert(rest == id + seq!['/'] + word);
        assert(path =~= prefix + rest) by {
            assert(prefix == path.subrange(0, prefix.len() as int));
        }
        assert(path =~= prefix + id + suffix);
    }
    if exists|id: Seq<char>|
        ids::uuid_value(id) is Some && path == #[trigger] (prefix + id + suffix) {
        let id = choose|id: Seq<char>|
            ids::uuid_value(id) is Some && path == #[trigger] (prefix + id + suffix);
        lemma_uuid_has_no_slash(id);
        assert(rest =~= id + seq!['/'] + word);
        assert(prefix =~= path.subrange(0, prefix.len() as int));
        text::lemma_split_one(id, '/');
        text::lemma_split_append(id, word, '/');
        assert(segments =~= seq![id, word]);
    }
}

/// The routes that are exposed, under a canonical path: five to post to, two to
/// get, the artifacts of releases to get, and those of commands to get and to
/// put. Nothing is exposed under any other path.
pub proof fn lemma_exposed_routes(method: Method, path: Seq<char>, release_artifact: bool)
    ensures
        is_canonical(path) ==> is_allowed(method, path, release_artifact) == (match method {
            Method::Post => path == "/api/v1/agent/enroll"@ || path
                == "/api/v1/agent/credentials/rotate"@ || path == "/api/v1/agent/update-offer"@
                || path == "/api/v1/agent/results"@ || path == "/api/v1/agent/heartbeat"@,
            Method::Get => path == "/api/v1/agent/status"@ || path == "/api/v1/agent/pull"@
                || release_artifact || exists|id: Seq<char>|
                ids::uuid_value(id) is Some && path == #[trigger] ("/api/v1/agent/commands/"@ + id
                    + "/artifact"@),
            Method::Put => exists|id: Seq<char>|
                ids::uuid_value(id) is Some && path == #[trigger] ("/api/v1/agent/commands/"@ + id
                    + "/artifact"@),
            Method::Other => false,
        }),
        !is_canonical(path) ==> !is_allowed(method, path, release_artifact),
{
    lemma_command_artifacts(path);
}

/// A body may have one mebibyte where an agent enrolls, as many bytes as a file
/// where the artifact of a command is put, and two mebibytes elsewhere.
pub proof fn lemma_body_limits(
    method: Method,
    path: Seq<char>,
    id: Seq<char>,
    max_file_bytes: usize,
)
    ensures
        body_limit(Method::Post, "/api/v1/agent/enroll"@, max_file_bytes) == 1024 * 1024,
        body_limit(
            Method::Put,
            "/api/v1/agent/commands/"@ + id + "/artifact"@,
            max_file_bytes,
        ) == max_file_bytes,
        method != Method::Put && !(method == Method::Post && path == "/api/v1/agent/enroll"@)
            ==> body_limit(method, path, max_file_bytes) == 2 * 1024 * 1024,
        method == Method::Put && !(exists|rest: Seq<char>| path == #[trigger] (
        "/api/v1/agent/commands/"@ + rest)) ==> body_limit(method, path, max_file_bytes) == 2 * 1024
            * 1024,
        method == Method::Put && !(exists|front: Seq<char>| path == #[trigger] (front
            + "/artifact"@)) ==> body_limit(method, path, max_file_bytes) == 2 * 1024 * 1024,
        is_enroll(method, path) == (method == Method::Post && path == "/api/v1/agent/enroll"@),
{
    let prefix = "/api/v1/agent/commands/"@;
    let suffix = "/artifact"@;
    let whole = prefix + id + suffix;
    assert(prefix =~= whole.subrange(0, prefix.len() as int));
    assert(suffix =~= whole.subrange(whole.len() - suffix.len(), whole.len() as int));
    if prefix.is_prefix_of(path) {
        assert(path =~= prefix + path.skip(prefix.len() as int));
    }
    if suffix.is_suffix_of(path) {
        assert(path =~= path.take(path.len() - suffix.len()) + suffix);
    }
}

/// A header goes to the server exactly where its name, of whatever case, is one
/// of seven: the type and the form of the content, the condition on the artifact,
/// and the four that carry the signature of an agent.
pub proof fn lemma_headers_to_the_server(h: headers::Headers, name: Seq<char>)
    ensures
        forwarded_request(h).dom().contains(name) == (h.dom().contains(name) && seq![
            "content-type"@,
            "accept"@,
            "if-none-match"@,
            "x-hecate-agent-id"@,
            "x-hecate-timestamp"@,
            "x-hecate-nonce"@,
            "x-hecate-signature"@,
        ].contains(text::lower(name))),
        forwarded_request(h).dom().contains(name) ==> forwarded_request(h)[name] == h[name],
{
    let n = text::lower(name);
    let list = seq![
        "content-type"@,
        "accept"@,
        "if-none-match"@,
        "x-hecate-agent-id"@,
        "x-hecate-timestamp"@,
        "x-hecate-nonce"@,
        "x-hecate-signature"@,
    ];
    assert(list[0] == "content-type"@);
    assert(list[1] == "accept"@);
    assert(list[2] == "if-none-match"@);
    assert(list[3] == "x-hecate-agent-id"@);
    assert(list[4] == "x-hecate-timestamp"@);
    assert(list[5] == "x-hecate-nonce"@);
    assert(list[6] == "x-hecate-signature"@);
}

/// A header goes to an agent exactly where its name, of whatever case, begins
/// with `x-hecate-` or is one of six.
pub proof fn lemma_headers_to_an_agent(h: headers::Headers, name: Seq<char>)
    ensures
        forwarded_response(h).dom().contains(name) == (h.dom().contains(name) && (seq![
            "content-type"@,
            "etag"@,
            "cache-control"@,
            "last-modified"@,
            "content-disposition"@,
            "accept-ranges"@,
        ].contains(text::lower(name)) || exists|rest: Seq<char>|
            text::lower(name) == #[trigger] ("x-hecate-"@ + rest))),
        forwarded_response(h).dom().contains(name) ==> forwarded_response(h)[name] == h[name],
{
    let n = text::lower(name);
    let list = seq![
        "content-type"@,
        "etag"@,
        "cache-control"@,
        "last-modified"@,
        "content-disposition"@,
        "accept-ranges"@,
    ];
    assert(list[0] == "content-type"@);
    assert(list[1] == "etag"@);
    assert(list[2] == "cache-control"@);
    assert(list[3] == "last-modified"@);
    assert(list[4] == "content-disposition"@);
    assert(list[5] == "accept-ranges"@);
    let prefix = "x-hecate-"@;
    if prefix.is_prefix_of(n) {
        assert(n =~= prefix + n.skip(prefix.len() as int));
    }
    if exists|rest: Seq<char>| n == #[trigger] (prefix + rest) {
        let rest = choose|rest: Seq<char>| n == #[trigger] (prefix + rest);
        assert(prefix =~= n.subrange(0, prefix.len() as int));
    }
}

} // verus!
