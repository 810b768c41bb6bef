use axum::http::HeaderMap;
use axum::http::HeaderValue;
use propylaea::artifact_cache::artifact_head;
use propylaea::artifact_cache::bare_head;
use propylaea::artifact_cache::blob_path;
use propylaea::artifact_cache::etag_digest;
use propylaea::artifact_cache::fill_reply;
use propylaea::artifact_cache::quote;
use propylaea::artifact_cache::serve_blob;
use propylaea::artifact_cache::ArtifactAnswer;
use propylaea::artifact_cache::ArtifactCache;
use propylaea::artifact_cache::ArtifactHead;
use propylaea::artifact_cache::BlobFile;
use propylaea::artifact_cache::CacheStep;
use propylaea::artifact_cache::Download;
use propylaea::artifact_cache::FillError;
use propylaea::artifact_cache::FillOutcome;
use propylaea::artifact_cache::FillReply;
use propylaea::artifact_cache::Reserve;
use propylaea::artifact_cache::ReserveStep;
use propylaea::artifact_cache::VerifiedBlob;
use propylaea::artifact_cache::Waited;
use propylaea::crypto::sha256_hex;
use propylaea::web::StatusCode;

const ABC: &str = "ba7816bf8f01cfea414140de5dae2223b00361a396177a9cb410ff61f20015ad";

fn known(cache: &mut ArtifactCache, path: &str) -> Vec<String> {
    match cache.serve_or_fill(true, path, Waited::NotYet) {
        CacheStep::Fill(hashes) => {
            cache.finish_fill(path);
            hashes
        }
        _ => panic!("nobody fills the path"),
    }
}

fn search(cache: &ArtifactCache, needed: u64, max: u64) -> Vec<String> {
    let mut found = vec![];
    match cache.reserve_space(needed, max) {
        Reserve::Search(mut s) => loop {
            match cache.next_eviction(&mut s) {
                ReserveStep::Evict(sha) => found.push(sha),
                ReserveStep::Refused => return found,
                ReserveStep::Granted => panic!("nothing was evicted"),
            }
        },
        _ => panic!("a search"),
    }
}

#[test]
fn one_request_fills_a_path() {
    let mut cache = ArtifactCache::new();
    assert!(matches!(cache.serve_or_fill(false, "/p", Waited::NotYet), CacheStep::Bypass));
    match cache.serve_or_fill(true, "/p", Waited::NotYet) {
        CacheStep::Fill(hashes) => assert!(hashes.is_empty()),
        _ => panic!("the first request fills"),
    }
    assert!(matches!(cache.serve_or_fill(true, "/p", Waited::NotYet), CacheStep::Wait));
    assert!(matches!(cache.serve_or_fill(true, "/p", Waited::Released), CacheStep::Bypass));
    assert!(matches!(cache.serve_or_fill(true, "/p", Waited::TimedOut), CacheStep::Busy));
    assert!(matches!(cache.serve_or_fill(true, "/q", Waited::NotYet), CacheStep::Fill(_)));
    cache.finish_fill("/p");
    assert!(matches!(cache.serve_or_fill(true, "/p", Waited::Released), CacheStep::Fill(_)));
}

fn tagged(etag: Option<&str>) -> HeaderMap {
    let mut headers = HeaderMap::new();
    if let Some(etag) = etag {
        headers.insert("etag", HeaderValue::from_str(etag).unwrap());
    }
    headers
}

fn download(etag: Option<&str>, max_bytes: u64) -> Download {
    match fill_reply(200, &vec![], &tagged(etag), 0, max_bytes) {
        FillReply::Receive(d) => d,
        _ => panic!("an artifact of unknown length"),
    }
}

/// A blob of `len` bytes, each of them `fill`.
fn blob(fill: u8, len: usize) -> VerifiedBlob {
    let body = vec![fill; len];
    let mut d = download(Some(&sha256_hex(&body)), u64::MAX);
    assert!(d.receive(&body));
    kept(d).0
}

fn kept(d: Download) -> (VerifiedBlob, ArtifactAnswer) {
    match d.finish() {
        Ok(filled) => match filled.outcome {
            FillOutcome::Store(blob) => (blob, filled.answer),
            FillOutcome::PassThrough => panic!("the artifact is kept"),
        },
        Err(_) => panic!("the digest fits"),
    }
}

fn handed_on(d: Download) -> ArtifactAnswer {
    match d.finish() {
        Ok(filled) => {
            assert!(matches!(filled.outcome, FillOutcome::PassThrough));
            filled.answer
        }
        Err(_) => panic!("no digest is looked for"),
    }
}

fn assert_head(head: &ArtifactHead, etag: Option<&str>) {
    assert_eq!(head.status, 200);
    assert_eq!(head.content_type.as_deref(), Some("application/octet-stream"));
    assert_eq!(head.etag.as_deref(), etag);
}

fn assert_bare(head: &ArtifactHead) {
    assert_eq!(head.status, 200);
    assert_eq!(head.content_type, None);
    assert_eq!(head.etag, None);
}

fn name(fill: u8, len: usize) -> String {
    blob(fill, len).digest().to_string()
}

#[test]
fn replies_to_a_fill() {
    let hashes = vec!["a".to_string(), "b".to_string()];
    let reply = |status: u16, known: &Vec<String>| fill_reply(status, known, &HeaderMap::new(), 0, 100);
    match reply(304, &hashes) {
        FillReply::ServeBlob(sha) => assert_eq!(sha, "a"),
        _ => panic!("the newest blob is served"),
    }
    assert!(matches!(reply(304, &vec![]), FillReply::BlobMissing));
    assert!(matches!(reply(200, &hashes), FillReply::Receive(_)));
    assert!(matches!(reply(299, &hashes), FillReply::Receive(_)));
    assert!(matches!(reply(300, &hashes), FillReply::Relay));
    assert!(matches!(reply(404, &hashes), FillReply::Relay));
    assert!(matches!(reply(199, &hashes), FillReply::Relay));
}

#[test]
fn an_artifact_of_known_length_needs_room() {
    let pending = |room: bool| match fill_reply(200, &vec![], &tagged(Some(ABC)), 3, 400) {
        FillReply::Reserve(p) => {
            assert_eq!(p.needed(), 3);
            p.resolve(room)
        }
        _ => panic!("an artifact of known length"),
    };
    match pending(false) {
        Err(head) => assert_bare(&head),
        Ok(_) => panic!("there is no room"),
    }
    match pending(true) {
        Ok(mut d) => {
            assert!(d.receive(b"abc"));
            assert_eq!(kept(d).0.digest(), ABC);
        }
        Err(_) => panic!("there is room"),
    }
}

#[test]
fn entity_tags() {
    let mut headers = HeaderMap::new();
    assert_eq!(etag_digest(&headers), None);
    headers.insert("etag", HeaderValue::from_static(" \"\"abc\"  "));
    assert_eq!(etag_digest(&headers).as_deref(), Some("abc"));
    headers.insert("ETag", HeaderValue::from_static("W/\"abc\""));
    assert_eq!(etag_digest(&headers).as_deref(), Some("W/\"abc"));
    assert_eq!(quote("abc"), "\"abc\"");
}

#[test]
fn an_artifact_is_kept_under_its_digest() {
    let mut d = download(Some(&format!("\"{ABC}\"")), 400);
    assert!(d.receive(b"a"));
    assert!(d.receive(b""));
    assert!(d.receive(b"bc"));
    let (blob, answer) = kept(d);
    assert_eq!(blob.digest(), ABC);
    assert_head(&answer.head, Some(&format!("\"{ABC}\"")));
    assert_eq!(answer.body, b"abc".to_vec());
    let mut d = download(Some(ABC), 400);
    assert!(d.receive(b"ab"));
    assert!(matches!(d.finish(), Err(FillError::EtagMismatch)));
    let mut d = download(None, 400);
    assert!(d.receive(b"abc"));
    let answer = handed_on(d);
    assert_head(&answer.head, None);
    assert_eq!(answer.body, b"abc".to_vec());
}

#[test]
fn an_artifact_that_is_too_large_is_handed_on() {
    let mut d = download(Some(ABC), 11);
    assert!(d.receive(b"ab"));
    assert!(d.cacheable());
    assert!(!d.receive(b"c"));
    assert!(!d.receive(b""));
    assert!(!d.cacheable());
    let answer = handed_on(d);
    assert_head(&answer.head, None);
    assert_eq!(answer.body, b"abc".to_vec());
    let mut d = download(None, 8);
    assert!(d.receive(b"ab"));
    assert!(!d.receive(b"c"));
    assert!(!d.receive(b"d"));
    let answer = handed_on(d);
    assert_head(&answer.head, None);
    assert_eq!(answer.body, b"abcd".to_vec());
}

#[test]
fn heads_of_answers() {
    assert_head(&artifact_head(None), None);
    assert_head(&artifact_head(Some("abc")), Some("\"abc\""));
    assert_bare(&bare_head());
}

#[test]
fn a_blob_that_is_kept_is_served_with_the_same_head() {
    let mut cache = ArtifactCache::new();
    assert!(matches!(cache.serve_or_fill(true, "/p", Waited::NotYet), CacheStep::Fill(_)));
    assert!(matches!(cache.reserve_space(3, 12), Reserve::Granted));
    let pending = match fill_reply(200, &vec![], &tagged(Some(&quote(ABC))), 3, 12) {
        FillReply::Reserve(p) => p,
        _ => panic!("an artifact of known length"),
    };
    let mut d = match pending.resolve(true) {
        Ok(d) => d,
        Err(_) => panic!("there is room"),
    };
    assert!(d.receive(b"abc"));
    let (blob, received) = kept(d);
    cache.commit("/p", &blob, false, 1);
    cache.finish_fill("/p");
    assert_head(&received.head, Some(&quote(ABC)));
    let hashes = known(&mut cache, "/p");
    assert_eq!(hashes, vec![ABC]);
    let sha = match fill_reply(304, &hashes, &HeaderMap::new(), 0, 12) {
        FillReply::ServeBlob(sha) => sha,
        _ => panic!("the blob is confirmed"),
    };
    match serve_blob(&sha, Some(b"abc".to_vec())) {
        Ok(answer) => {
            assert_head(&answer.head, received.head.etag.as_deref());
            assert_eq!(answer.body, received.body);
        }
        Err(_) => panic!("the blob was found"),
    }
    match serve_blob(&sha, None) {
        Ok(_) => panic!("the blob was not found"),
        Err(reply) => {
            assert_eq!(reply.status, StatusCode::ServiceUnavailable);
            assert_eq!(reply.message, "cached blob missing");
            assert_eq!(reply.retry_after, None);
        }
    }
    assert_eq!(known(&mut cache, "/p"), vec![ABC]);
}

#[test]
fn the_newest_hash_comes_first_and_none_twice() {
    let mut cache = ArtifactCache::new();
    cache.commit("/p", &blob(1, 1), false, 1);
    cache.commit("/p", &blob(2, 2), false, 2);
    assert_eq!(known(&mut cache, "/p"), vec![name(2, 2), name(1, 1)]);
    cache.commit("/p", &blob(1, 1), true, 3);
    assert_eq!(known(&mut cache, "/p"), vec![name(1, 1), name(2, 2)]);
    assert!(known(&mut cache, "/q").is_empty());
}

#[test]
fn room_is_found_or_refused() {
    let mut cache = ArtifactCache::new();
    assert!(matches!(cache.reserve_space(26, 100), Reserve::Refused));
    assert!(matches!(cache.reserve_space(25, 100), Reserve::Granted));
    cache.commit("/p", &blob(1, 75), false, 1);
    assert!(matches!(cache.reserve_space(25, 100), Reserve::Granted));
    cache.commit("/p", &blob(1, 75), true, 1);
    assert!(matches!(cache.reserve_space(25, 100), Reserve::Granted));
    cache.commit("/p", &blob(2, 1), false, 2);
    assert!(matches!(cache.reserve_space(25, 100), Reserve::Search(_)));
    assert!(matches!(cache.reserve_space(u64::MAX / 4, u64::MAX), Reserve::Granted));
}

#[test]
fn the_least_recently_used_go_first() {
    let mut cache = ArtifactCache::new();
    cache.commit("/p", &blob(2, 40), false, 20);
    cache.commit("/p", &blob(3, 30), false, 30);
    cache.commit("/q", &blob(1, 30), false, 10);
    let (a, b, c) = (name(1, 30), name(2, 40), name(3, 30));
    assert_eq!(search(&cache, 20, 100), vec![a.clone(), b.clone(), c.clone()]);
    cache.pin(&a, 40);
    assert_eq!(search(&cache, 20, 100), vec![b.clone(), c.clone()]);
    cache.unpin(&a);
    assert_eq!(search(&cache, 20, 100), vec![b, c, a]);
}

#[test]
fn evicting_stops_once_there_is_room() {
    let mut cache = ArtifactCache::new();
    cache.commit("/p", &blob(2, 40), false, 20);
    cache.commit("/p", &blob(3, 30), false, 30);
    cache.commit("/q", &blob(1, 30), false, 10);
    let (a, b, c) = (name(1, 30), name(2, 40), name(3, 30));
    let mut s = match cache.reserve_space(20, 100) {
        Reserve::Search(s) => s,
        _ => panic!("a search"),
    };
    match cache.next_eviction(&mut s) {
        ReserveStep::Evict(sha) => {
            assert_eq!(sha, a);
            cache.evict(&sha, 10);
        }
        _ => panic!("a blob may go"),
    }
    match cache.next_eviction(&mut s) {
        ReserveStep::Evict(sha) => {
            assert_eq!(sha, b);
            cache.evict(&sha, 40);
        }
        _ => panic!("a blob may go"),
    }
    assert!(matches!(cache.next_eviction(&mut s), ReserveStep::Granted));
    assert_eq!(known(&mut cache, "/p"), vec![c.clone()]);
    assert!(known(&mut cache, "/q").is_empty());
    assert_eq!(search(&cache, 15, 60), vec![c]);
}

#[test]
fn blobs_that_were_found_are_counted() {
    let mut cache = ArtifactCache::new();
    let files = vec![
        BlobFile { name: ABC.to_string(), len: 60 },
        BlobFile { name: "tmp".to_string(), len: 1000 },
        BlobFile { name: ABC.replace('a', "g"), len: 1000 },
        BlobFile { name: ABC.to_uppercase(), len: 20 },
    ];
    cache.bootstrap(&files);
    let mut found = search(&cache, 25, 100);
    found.sort();
    assert_eq!(found, vec![ABC.to_uppercase(), ABC.to_string()]);
    assert!(matches!(cache.reserve_space(20, 100), Reserve::Granted));
    assert!(matches!(cache.reserve_space(21, 100), Reserve::Search(_)));
}

#[test]
fn pins_are_counted() {
    let mut cache = ArtifactCache::new();
    cache.commit("/p", &blob(1, 100), false, 1);
    let a = name(1, 100);
    cache.pin(&a, 2);
    cache.pin(&a, 3);
    cache.unpin(&a);
    assert!(search(&cache, 1, 100).is_empty());
    cache.unpin(&a);
    cache.unpin("unknown");
    assert_eq!(search(&cache, 1, 100), vec![a]);
}

#[test]
fn blobs_lie_by_their_first_two_digits() {
    assert_eq!(blob_path("/var/cache", ABC), vec!["/var/cache", "blobs", "ba", ABC]);
    assert_eq!(blob_path("c", "a")[2], "00");
    assert_eq!(blob_path("c", "")[2], "00");
    assert_eq!(blob_path("c", "\u{e9}x")[2], "\u{e9}");
    assert_eq!(blob_path("c", "a\u{e9}")[2], "00");
    assert_eq!(blob_path("c", "\u{20ac}")[2], "00");
}

#[test]
fn the_clock_of_the_cache_does_not_go_back() {
    let cache = ArtifactCache::new();
    let first = cache.now();
    assert!(cache.now() >= first);
}

#[test]
fn a_default_cache_knows_nothing() {
    let mut cache = ArtifactCache::default();
    assert!(known(&mut cache, "/p").is_empty());
    assert!(matches!(cache.reserve_space(25, 100), Reserve::Granted));
}
