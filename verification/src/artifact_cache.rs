//! The cache of release artifacts: blobs named by their SHA-256 digest, filled
//! by one request at a time for each path.

use axum::http::HeaderMap;
use dashmap::DashMap;
use std::time::Instant;
use vstd::prelude::*;
use vstd::string::*;

use crate::clock;
use crate::crypto;
use crate::gateway;
use crate::headers;
use crate::records;
use crate::tables;
use crate::text;
use crate::web;
use crate::web::Reply;

verus! {

/// How many known hashes a revalidation names at most.
pub const MAX_IF_NONE_MATCH: usize = 8;

/// How many seconds a request waits for another that fills the same path.
pub const FOLLOWER_WAIT_SECS: u64 = 120;

/// What is known of the cached artifacts.
pub struct ArtifactCache {
    pub(crate) index: DashMap<String, Vec<String>>,
    pub(crate) inflight: DashMap<String, u64>,
    pub(crate) refcounts: DashMap<String, u64>,
    pub(crate) last_used: DashMap<String, u64>,
    pub(crate) bytes_used: u64,
    pub(crate) started: Instant,
}

/// The cache as plain values: the hashes known for each path, the number of
/// requests that fill each path, the number that read each blob, when each blob
/// was last used, how many bytes the blobs have, and the moment from which the
/// times are counted.
#[verifier::ext_equal]
pub struct CacheModel {
    pub index: tables::HashIndex,
    pub inflight: tables::Counts,
    pub pins: tables::Counts,
    pub last_used: tables::Counts,
    pub bytes_used: u64,
    pub origin: Instant,
}

impl CacheModel {
    /// The hashes that are known for the path, the newest first.
    pub open spec fn known(self, path: Seq<char>) -> Seq<Seq<char>> {
        if self.index.dom().contains(path) {
            self.index[path]
        } else {
            Seq::<Seq<char>>::empty()
        }
    }

    /// Some request reads the blob.
    pub open spec fn is_pinned(self, sha: Seq<char>) -> bool {
        self.pins.dom().contains(sha) && self.pins[sha] > 0
    }

    /// How many requests read the blob.
    pub open spec fn pin_count(self, sha: Seq<char>) -> u64 {
        if self.pins.dom().contains(sha) {
            self.pins[sha]
        } else {
            0
        }
    }
}

/// A file in the directory of the cache.
pub struct BlobFile {
    pub name: String,
    pub len: u64,
}

/// Whether, and with what outcome, a request has waited for another that fills
/// the same path.
#[derive(Clone, Copy, PartialEq, Eq, Structural, Debug)]
pub enum Waited {
    NotYet,
    Released,
    TimedOut,
}

/// What a request for an artifact does next.
pub enum CacheStep {
    /// It goes to the server without the cache.
    Bypass,
    /// It waits for the request that fills the path.
    Wait,
    /// It is told to come back later.
    Busy,
    /// It fills the path; these hashes are known for it.
    Fill(Vec<String>),
}

/// What the head of the server's reply to a fill asks for.
pub enum FillReply {
    /// The blob with this hash is still good.
    ServeBlob(String),
    /// The server confirms a blob, but none is known.
    BlobMissing,
    /// The reply is relayed.
    Relay,
    /// The artifact follows, if there is room for it.
    Reserve(PendingDownload),
    /// The artifact, of unknown length, follows.
    Receive(Download),
}

/// What becomes of an artifact that was received.
pub enum FillOutcome {
    /// It is handed on, and not kept.
    PassThrough,
    /// It is kept.
    Store(VerifiedBlob),
}

/// The head of the answer to a request for an artifact.
pub struct ArtifactHead {
    pub status: u16,
    pub content_type: Option<String>,
    pub etag: Option<String>,
}

/// The answer to a request for an artifact.
pub struct ArtifactAnswer {
    pub head: ArtifactHead,
    pub body: Vec<u8>,
}

/// An artifact that was received whole: what becomes of it, and what the request
/// is answered.
pub struct Filled {
    pub outcome: FillOutcome,
    pub answer: ArtifactAnswer,
}

/// Why an artifact is refused.
#[derive(Clone, Copy, PartialEq, Eq, Structural, Debug)]
pub enum FillError {
    /// The digest of the body is not the entity tag of the reply.
    EtagMismatch,
}

// ---------------------------------------------------------------------------
// The cache as it was found
// ---------------------------------------------------------------------------

/// The name of a blob: sixty-four hexadecimal digits.
pub open spec fn is_blob_name(name: Seq<char>) -> bool {
    name.len() == 64 && forall|i: int| 0 <= i < name.len() ==> text::is_hex_digit(#[trigger] name[i])
}

/// The bytes of the files that are blobs.
pub open spec fn blob_bytes(files: Seq<BlobFile>) -> nat
    decreases files.len(),
{
    if files.len() == 0 {
        0
    } else {
        blob_bytes(files.drop_last()) + if is_blob_name(files.last().name@) {
            files.last().len as nat
        } else {
            0
        }
    }
}

/// The names of the files that are blobs.
pub open spec fn blob_names(files: Seq<BlobFile>) -> Set<Seq<char>> {
    Set::new(
        |name: Seq<char>|
            is_blob_name(name) && exists|i: int|
                0 <= i < files.len() && (#[trigger] files[i]).name@ == name,
    )
}

/// Whether a file of this name is a blob.
pub fn is_blob_file(name: &str) -> (r: bool)
    ensures
        r == is_blob_name(name@),
{
    let v = text::chars_of(name);
    if v.len() != 64 {
        return false;
    }
    let mut i: usize = 0;
    while i < v.len()
        invariant
            i <= v@.len(),
            v@ == name@,
            forall|j: int| 0 <= j < i ==> text::is_hex_digit(#[trigger] v@[j]),
        decreases v@.len() - i,
    {
        if text::char_hex_value(v[i]).is_none() {
            assert(!text::is_hex_digit(name@[i as int]));
            return false;
        }
        i = i + 1;
    }
    true
}

impl ArtifactCache {
    /// The cache as plain values.
    pub open(crate) spec fn model(&self) -> CacheModel {
        CacheModel {
            index: tables::index_table(self.index),
            inflight: tables::count_table(self.inflight),
            pins: tables::count_table(self.refcounts),
            last_used: tables::count_table(self.last_used),
            bytes_used: self.bytes_used,
            origin: self.started,
        }
    }

    /// A cache that knows nothing.
    pub fn new() -> (r: Self)
        ensures
            r.model() == empty_cache(r.model().origin),
    {
        ArtifactCache {
            index: tables::index_new(),
            inflight: tables::counts_new(),
            refcounts: tables::counts_new(),
            last_used: tables::counts_new(),
            bytes_used: 0,
            started: clock::instant_now(),
        }
    }

    /// The nanoseconds since the cache was made.
    pub fn now(&self) -> (r: u64) {
        clock::nanos_since(&self.started)
    }

    /// Takes over the blobs among the files that were found at the time `now`:
    /// their bytes are counted, and each counts as used then.
    pub fn bootstrap_at(&mut self, files: &Vec<BlobFile>, now: u64)
        ensures
            final(self).model() == taken_over(old(self).model(), files@, now),
    {
        let ghost before = self.model();
        let mut total: u64 = 0;
        let mut i: usize = 0;
        assert(files@.take(0) =~= Seq::<BlobFile>::empty());
        assert(self.model().last_used =~= all_used(before.last_used, files@.take(0), now));
        while i < files.len()
            invariant
                i <= files@.len(),
                self.model() == (CacheModel {
                    last_used: all_used(before.last_used, files@.take(i as int), now),
                    ..before
                }),
                total == counted_bytes(files@.take(i as int)),
            decreases files@.len() - i,
        {
            let ghost done = files@.take(i as int);
            let ghost next = files@.take(i + 1);
            assert(next.drop_last() =~= done);
            assert(next.last() == files@[i as int]);
            let ghost name = files@[i as int].name@;
            proof {
                lemma_blob_names_step(done, files@[i as int]);
                assert(next =~= done.push(files@[i as int]));
            }
            if is_blob_file(files[i].name.as_str()) {
                total = total.saturating_add(files[i].len);
                tables::counts_insert(&mut self.last_used, files[i].name.clone(), now);
                assert(blob_names(next) =~= blob_names(done).insert(name));
            } else {
                assert(blob_names(next) =~= blob_names(done));
            }
            assert(self.model().last_used =~= all_used(before.last_used, next, now));
            i = i + 1;
        }
        assert(files@.take(i as int) =~= files@);
        self.bytes_used = total;
    }

    /// Takes over the blobs among the files that were found.
    pub fn bootstrap(&mut self, files: &Vec<BlobFile>)
        ensures
            exists|now: u64|
                final(self).model() == #[trigger] taken_over(old(self).model(), files@, now),
    {
        let now = self.now();
        self.bootstrap_at(files, now);
    }
}

impl Default for ArtifactCache {
    fn default() -> (r: Self)
        ensures
            r.model() == empty_cache(r.model().origin),
    {
        Self::new()
    }
}

/// The bytes of the files that are blobs, up to the largest number.
pub open spec fn counted_bytes(files: Seq<BlobFile>) -> u64 {
    if blob_bytes(files) <= u64::MAX {
        blob_bytes(files) as u64
    } else {
        u64::MAX
    }
}

/// The table of last uses once all blobs among the files were used at `now`.
pub open spec fn all_used(
    last_used: tables::Counts,
    files: Seq<BlobFile>,
    now: u64,
) -> tables::Counts {
    Map::new(
        |sha: Seq<char>| last_used.dom().contains(sha) || blob_names(files).contains(sha),
        |sha: Seq<char>|
            if blob_names(files).contains(sha) {
                now
            } else {
                last_used[sha]
            },
    )
}

/// The cache once it has taken over the blobs among the files.
pub open spec fn taken_over(cache: CacheModel, files: Seq<BlobFile>, now: u64) -> CacheModel {
    CacheModel {
        last_used: all_used(cache.last_used, files, now),
        bytes_used: counted_bytes(files),
        ..cache
    }
}

/// A cache that knows nothing, and counts its times from `origin`.
pub open spec fn empty_cache(origin: Instant) -> CacheModel {
    CacheModel {
        index: tables::HashIndex::empty(),
        inflight: tables::Counts::empty(),
        pins: tables::Counts::empty(),
        last_used: tables::Counts::empty(),
        bytes_used: 0,
        origin,
    }
}

proof fn lemma_blob_names_step(files: Seq<BlobFile>, file: BlobFile)
    ensures
        blob_names(files.push(file)) == if is_blob_name(file.name@) {
            blob_names(files).insert(file.name@)
        } else {
            blob_names(files)
        },
{
    let next = files.push(file);
    assert forall|name: Seq<char>|
        blob_names(next).contains(name) == (if is_blob_name(file.name@) {
            blob_names(files).insert(file.name@)
        } else {
            blob_names(files)
        }).contains(name) by {
        if blob_names(files).contains(name) {
            let i = choose|i: int| 0 <= i < files.len() && (#[trigger] files[i]).name@ == name;
            assert(next[i].name@ == name);
        }
        if blob_names(next).contains(name) {
            let i = choose|i: int| 0 <= i < next.len() && (#[trigger] next[i]).name@ == name;
            if i < files.len() {
                assert(files[i].name@ == name);
            }
        }
        assert(next[files.len() as int].name@ == file.name@);
    }
    assert(blob_names(next) =~= (if is_blob_name(file.name@) {
        blob_names(files).insert(file.name@)
    } else {
        blob_names(files)
    }));
}

// ---------------------------------------------------------------------------
// One fill at a time
// ---------------------------------------------------------------------------

/// The request leads the fill of the path.
pub open spec fn leads(cache: CacheModel, enabled: bool, path: Seq<char>, waited: Waited) -> bool {
    enabled && waited != Waited::TimedOut && !cache.inflight.dom().contains(path)
}

/// The cache once a request for the path knows what it does next.
pub open spec fn after_step(
    cache: CacheModel,
    enabled: bool,
    path: Seq<char>,
    waited: Waited,
) -> CacheModel {
    if leads(cache, enabled, path, waited) {
        CacheModel { inflight: cache.inflight.insert(path, 1), ..cache }
    } else {
        cache
    }
}

/// The cache once the fill of the path has ended.
pub open spec fn after_fill(cache: CacheModel, path: Seq<char>) -> CacheModel {
    CacheModel { inflight: cache.inflight.remove(path), ..cache }
}

/// What a request for the path does next.
pub open spec fn is_cache_step(
    cache: CacheModel,
    enabled: bool,
    path: Seq<char>,
    waited: Waited,
    step: CacheStep,
) -> bool {
    if !enabled {
        step is Bypass
    } else if waited == Waited::TimedOut {
        step is Busy
    } else if cache.inflight.dom().contains(path) {
        if waited == Waited::NotYet {
            step is Wait
        } else {
            step is Bypass
        }
    } else {
        step matches CacheStep::Fill(known) && text::texts(known@) == cache.known(path)
    }
}

impl ArtifactCache {
    /// What a request for the artifact at `path` does next: where another
    /// request fills the path it waits once, and goes without the cache if yet
    /// another has begun by then; else it fills the path itself.
    pub fn serve_or_fill(&mut self, enabled: bool, path: &str, waited: Waited) -> (r: CacheStep)
        ensures
            is_cache_step(old(self).model(), enabled, path@, waited, r),
            final(self).model() == after_step(old(self).model(), enabled, path@, waited),
    {
        if !enabled {
            return CacheStep::Bypass;
        }
        if waited == Waited::TimedOut {
            return CacheStep::Busy;
        }
        if tables::counts_get(&self.inflight, path).is_some() {
            return if waited == Waited::NotYet {
                CacheStep::Wait
            } else {
                CacheStep::Bypass
            };
        }
        let known = match tables::index_get(&self.index, path) {
            Some(v) => v,
            None => Vec::new(),
        };
        assert(text::texts(known@) =~= self.model().known(path@));
        tables::counts_insert(&mut self.inflight, path.to_owned(), 1);
        CacheStep::Fill(known)
    }

    /// Ends the fill of the path, with whatever outcome.
    pub fn finish_fill(&mut self, path: &str)
        ensures
            final(self).model() == after_fill(old(self).model(), path@),
    {
        tables::counts_remove(&mut self.inflight, path);
    }
}

/// While one request fills a path no other does, however often others ask and
/// whether or not they have waited.
pub proof fn lemma_single_flight(
    cache: CacheModel,
    path: Seq<char>,
    first: Waited,
    second: Waited,
)
    requires
        leads(cache, true, path, first),
    ensures
        !leads(
            CacheModel { inflight: cache.inflight.insert(path, 1), ..cache },
            true,
            path,
            second,
        ),
{
}

// ---------------------------------------------------------------------------
// The reply to a fill
// ---------------------------------------------------------------------------

/// The digest that the entity tag of a reply names: the tag without white space
/// and quotation marks at its ends.
pub open spec fn etag_of(h: headers::Headers) -> Option<Seq<char>> {
    match headers::header_str(h, "etag"@) {
        Some(v) => Some(
            text::trim_end_char(text::trim_start_char(text::trim(v), '"'), '"'),
        ),
        None => None,
    }
}

/// The digest that the entity tag of a reply names.
pub fn etag_digest(h: &HeaderMap) -> (r: Option<String>)
    ensures
        text::opt(r) == etag_of(headers::header_contents(*h)),
{
    match headers::header_text(h, "etag") {
        Some(v) => {
            let trimmed = text::trim_text(v.as_str());
            Some(text::trim_both_of(trimmed.as_str(), '"'))
        },
        None => None,
    }
}

/// The entity tag that names a digest.
pub open spec fn quoted(sha: Seq<char>) -> Seq<char> {
    seq!['"'] + sha + seq!['"']
}

/// The entity tag that names a digest.
pub fn quote(sha: &str) -> (r: String)
    ensures
        r@ == quoted(sha@),
{
    let mut s = String::new();
    s.push('"');
    s.append(sha);
    s.push('"');
    assert(s@ =~= quoted(sha@));
    s
}

impl ArtifactHead {
    /// The head of a success with the bytes of an artifact, whose digest is its
    /// entity tag where it is given.
    pub open spec fn announces(&self, sha: Option<Seq<char>>) -> bool {
        &&& self.status == 200
        &&& text::opt(self.content_type) == Some("application/octet-stream"@)
        &&& text::opt(self.etag) == match sha {
            Some(s) => Some(quoted(s)),
            None => None,
        }
    }

    /// The head of a success, and no more.
    pub open spec fn is_bare(&self) -> bool {
        self.status == 200 && self.content_type is None && self.etag is None
    }
}

/// The head under which an artifact is sent, with its digest as the entity tag
/// where it is given.
pub fn artifact_head(sha: Option<&str>) -> (r: ArtifactHead)
    ensures
        r.announces(
            match sha {
                Some(s) => Some(s@),
                None => None,
            },
        ),
{
    let etag = match sha {
        Some(s) => Some(quote(s)),
        None => None,
    };
    ArtifactHead {
        status: 200,
        content_type: Some("application/octet-stream".to_owned()),
        etag,
    }
}

/// The head under which an artifact is handed on as it comes, where the cache
/// has no room for it.
pub fn bare_head() -> (r: ArtifactHead)
    ensures
        r.is_bare(),
{
    ArtifactHead { status: 200, content_type: None, etag: None }
}

/// What a request is answered with the blob `sha` that the server confirms, and
/// that was found or not.
pub fn serve_blob(sha: &str, found: Option<Vec<u8>>) -> (r: Result<ArtifactAnswer, Reply>)
    ensures
        match (found, r) {
            (Some(bytes), Ok(answer)) => answer.head.announces(Some(sha@)) && answer.body@
                == bytes@,
            (None, Err(reply)) => reply.says(
                web::StatusCode::ServiceUnavailable,
                "cached blob missing"@,
            ),
            _ => false,
        },
{
    match found {
        Some(body) => Ok(ArtifactAnswer { head: artifact_head(Some(sha)), body }),
        None => Err(gateway::blob_missing()),
    }
}

/// An artifact on its way from the server: what has arrived of it, how many
/// bytes a cached artifact may have, and the digest that its entity tag names.
pub struct Download {
    body: Vec<u8>,
    limit: u64,
    etag: Option<String>,
}

/// An artifact that is received into the cache once there is room for it.
pub struct PendingDownload {
    download: Download,
    needed: u64,
}

/// An artifact that was received whole, with the digest that its entity tag
/// names.
pub struct VerifiedBlob {
    digest: String,
    total: u64,
}

/// The hash is the digest of some bytes.
pub open spec fn is_body_digest(sha: Seq<char>) -> bool {
    exists|body: Seq<u8>| sha == #[trigger] crypto::sha256_text(body)
}

impl VerifiedBlob {
    #[verifier::type_invariant]
    spec fn well_formed(&self) -> bool {
        is_body_digest(self.digest@)
    }

    /// The digest.
    pub closed spec fn sha(&self) -> Seq<char> {
        self.digest@
    }

    /// How many bytes the artifact has.
    pub closed spec fn size(&self) -> u64 {
        self.total
    }

    /// The digest.
    pub fn digest(&self) -> (r: &str)
        ensures
            r@ == self.sha(),
            is_body_digest(r@),
    {
        proof {
            use_type_invariant(self);
        }
        self.digest.as_str()
    }
}

impl PendingDownload {
    /// The artifact, of which nothing has arrived yet.
    pub closed spec fn download(&self) -> Download {
        self.download
    }

    /// How many bytes of room it needs.
    pub closed spec fn size(&self) -> u64 {
        self.needed
    }

    /// How many bytes of room it needs.
    pub fn needed(&self) -> (r: u64)
        ensures
            r == self.size(),
    {
        self.needed
    }

    /// The artifact, where there is room for it; else the bare head under which
    /// it is handed on as it comes.
    pub fn resolve(self, room: bool) -> (r: Result<Download, ArtifactHead>)
        ensures
            match r {
                Ok(download) => room && download == self.download(),
                Err(head) => !room && head.is_bare(),
            },
    {
        if room {
            Ok(self.download)
        } else {
            Err(bare_head())
        }
    }
}

impl Download {
    /// What has arrived.
    pub closed spec fn received(&self) -> Seq<u8> {
        self.body@
    }

    /// How many bytes a cached artifact may have.
    pub closed spec fn limit(&self) -> u64 {
        self.limit
    }

    /// The digest that the entity tag names, where there is one.
    pub closed spec fn tag(&self) -> Option<Seq<char>> {
        text::opt(self.etag)
    }

    /// More has arrived than a cached artifact may have.
    pub open spec fn oversize(&self) -> bool {
        self.received().len() > self.limit()
    }

    /// Nothing has arrived yet of an artifact for a cache of `max_bytes`, whose
    /// entity tag is that of the reply.
    pub open spec fn begins(&self, h: headers::Headers, max_bytes: u64) -> bool {
        &&& self.received() == Seq::<u8>::empty()
        &&& self.limit() == max_bytes / 4
        &&& self.tag() == etag_of(h)
    }

    fn new(h: &HeaderMap, max_bytes: u64) -> (r: Self)
        ensures
            r.begins(headers::header_contents(*h), max_bytes),
    {
        Download { body: Vec::new(), limit: max_bytes / 4, etag: etag_digest(h) }
    }

    /// Takes the next part of the artifact. The result tells whether what has
    /// arrived so far can still be cached.
    pub fn receive(&mut self, chunk: &[u8]) -> (r: bool)
        ensures
            final(self).received() == old(self).received() + chunk@,
            final(self).limit() == old(self).limit(),
            final(self).tag() == old(self).tag(),
            r == !final(self).oversize(),
    {
        self.body.extend_from_slice(chunk);
        assert(self.body@ =~= old(self).body@ + chunk@);
        (self.body.len() as u64) <= self.limit
    }

    /// Whether what has arrived can still be cached.
    pub fn cacheable(&self) -> (r: bool)
        ensures
            r == !self.oversize(),
    {
        (self.body.len() as u64) <= self.limit
    }

    /// What becomes of the whole artifact, and what the request is answered: one
    /// that is too large, or whose reply had no entity tag, is handed on; any
    /// other must have the digest that the tag names, and is kept.
    pub fn finish(self) -> (r: Result<Filled, FillError>)
        ensures
            is_fill_outcome(self.received(), self.oversize(), self.tag(), r),
    {
        let tag = match (self.cacheable(), self.etag) {
            (true, Some(tag)) => tag,
            _ => {
                return Ok(
                    Filled {
                        outcome: FillOutcome::PassThrough,
                        answer: ArtifactAnswer { head: artifact_head(None), body: self.body },
                    },
                );
            },
        };
        let digest = crypto::sha256_hex(self.body.as_slice());
        if !text::same_text(tag.as_str(), digest.as_str()) {
            return Err(FillError::EtagMismatch);
        }
        let head = artifact_head(Some(digest.as_str()));
        let blob = VerifiedBlob { digest, total: self.body.len() as u64 };
        Ok(
            Filled {
                outcome: FillOutcome::Store(blob),
                answer: ArtifactAnswer { head, body: self.body },
            },
        )
    }
}

/// What becomes of an artifact: it is kept only under its own digest, which is
/// also that of the reply's entity tag. The request is answered with the whole of
/// it, and with its digest exactly where it is kept.
pub open spec fn is_fill_outcome(
    body: Seq<u8>,
    oversize: bool,
    etag: Option<Seq<char>>,
    r: Result<Filled, FillError>,
) -> bool {
    if oversize || etag is None {
        r matches Ok(filled) && filled.outcome is PassThrough && filled.answer.head.announces(None)
            && filled.answer.body@ == body
    } else if etag->0 == crypto::sha256_text(body) {
        &&& r matches Ok(filled)
        &&& filled.outcome matches FillOutcome::Store(blob)
        &&& blob.sha() == crypto::sha256_text(body)
        &&& blob.size() == body.len()
        &&& filled.answer.head.announces(Some(blob.sha()))
        &&& filled.answer.body@ == body
    } else {
        r matches Err(FillError::EtagMismatch)
    }
}

/// What the head of a reply to a fill asks for, where the hashes `known` were
/// named: a confirmed blob is served, a failure is relayed, and an artifact is
/// received, once there is room for it if its length is known.
pub open spec fn is_fill_reply(
    status: u16,
    known: Seq<Seq<char>>,
    h: headers::Headers,
    content_length: u64,
    max_bytes: u64,
    r: FillReply,
) -> bool {
    if status == 304 {
        if known.len() > 0 {
            r matches FillReply::ServeBlob(sha) && sha@ == known[0]
        } else {
            r is BlobMissing
        }
    } else if !web::is_success(status) {
        r is Relay
    } else if content_length > 0 {
        r matches FillReply::Reserve(pending) && pending.size() == content_length
            && pending.download().begins(h, max_bytes)
    } else {
        r matches FillReply::Receive(download) && download.begins(h, max_bytes)
    }
}

/// What the head of a reply to a fill asks for, where the hashes `known` were
/// named and the cache may have `max_bytes`. A length that is not known is
/// given as zero.
pub fn fill_reply(
    status: u16,
    known: &Vec<String>,
    h: &HeaderMap,
    content_length: u64,
    max_bytes: u64,
) -> (r: FillReply)
    ensures
        is_fill_reply(
            status,
            text::texts(known@),
            headers::header_contents(*h),
            content_length,
            max_bytes,
            r,
        ),
{
    if status == 304 {
        if known.len() > 0 {
            assert(text::texts(known@)[0] == known@[0]@);
            FillReply::ServeBlob(known[0].clone())
        } else {
            FillReply::BlobMissing
        }
    } else if !(200 <= status && status < 300) {
        FillReply::Relay
    } else {
        let download = Download::new(h, max_bytes);
        if content_length > 0 {
            FillReply::Reserve(PendingDownload { download, needed: content_length })
        } else {
            FillReply::Receive(download)
        }
    }
}

// ---------------------------------------------------------------------------
// Keeping and reading blobs
// ---------------------------------------------------------------------------

/// The hashes of a path once `digest` is the newest.
pub open spec fn promoted(hashes: Seq<Seq<char>>, digest: Seq<char>) -> Seq<Seq<char>> {
    seq![digest] + records::without(hashes, digest)
}

/// The cache once an artifact is kept: `added` bytes are new.
pub open spec fn stored(
    cache: CacheModel,
    path: Seq<char>,
    digest: Seq<char>,
    added: u64,
    now: u64,
) -> CacheModel {
    CacheModel {
        index: cache.index.insert(path, promoted(cache.known(path), digest)),
        last_used: cache.last_used.insert(digest, now),
        bytes_used: if cache.bytes_used + added <= u64::MAX {
            (cache.bytes_used + added) as u64
        } else {
            u64::MAX
        },
        ..cache
    }
}

/// The cache while one more request reads the blob.
pub open spec fn pinned(cache: CacheModel, sha: Seq<char>, now: u64) -> CacheModel {
    CacheModel {
        pins: cache.pins.insert(
            sha,
            if cache.pin_count(sha) == u64::MAX {
                0
            } else {
                (cache.pin_count(sha) + 1) as u64
            },
        ),
        last_used: cache.last_used.insert(sha, now),
        ..cache
    }
}

/// The cache once a request has read the blob.
pub open spec fn unpinned(cache: CacheModel, sha: Seq<char>) -> CacheModel {
    if cache.pins.dom().contains(sha) {
        CacheModel {
            pins: cache.pins.insert(
                sha,
                if cache.pins[sha] == 0 {
                    u64::MAX
                } else {
                    (cache.pins[sha] - 1) as u64
                },
            ),
            ..cache
        }
    } else {
        cache
    }
}

impl ArtifactCache {
    /// Keeps the artifact at `path` under its digest. Its bytes are new unless
    /// the blob was there before.
    pub fn commit(&mut self, path: &str, blob: &VerifiedBlob, was_there: bool, now: u64)
        ensures
            final(self).model() == stored(
                old(self).model(),
                path@,
                blob.sha(),
                if was_there {
                    0
                } else {
                    blob.size()
                },
                now,
            ),
            is_body_digest(blob.sha()),
    {
        let digest = blob.digest();
        if !was_there {
            self.bytes_used = self.bytes_used.saturating_add(blob.total);
        }
        tables::counts_insert(&mut self.last_used, digest.to_owned(), now);
        let known = match tables::index_get(&self.index, path) {
            Some(v) => v,
            None => Vec::new(),
        };
        assert(text::texts(known@) =~= old(self).model().known(path@));
        let mut hashes = records::drop_hash(&known, digest);
        let ghost rest = text::texts(hashes@);
        hashes.insert(0, digest.to_owned());
        assert(text::texts(hashes@) =~= promoted(old(self).model().known(path@), digest@));
        tables::index_insert(&mut self.index, path.to_owned(), hashes);
    }

    /// Marks that one more request reads the blob.
    pub fn pin(&mut self, sha: &str, now: u64)
        ensures
            final(self).model() == pinned(old(self).model(), sha@, now),
    {
        let n = match tables::counts_get(&self.refcounts, sha) {
            Some(n) => n,
            None => 0,
        };
        tables::counts_insert(&mut self.refcounts, sha.to_owned(), n.wrapping_add(1));
        tables::counts_insert(&mut self.last_used, sha.to_owned(), now);
    }

    /// Marks that a request has read the blob.
    pub fn unpin(&mut self, sha: &str)
        ensures
            final(self).model() == unpinned(old(self).model(), sha@),
    {
        match tables::counts_get(&self.refcounts, sha) {
            Some(n) => {
                tables::counts_insert(&mut self.refcounts, sha.to_owned(), n.wrapping_sub(1));
            },
            None => {},
        }
    }
}

/// A blob is pinned while it is read, and after that as it was before.
pub proof fn lemma_pin_unpin(cache: CacheModel, sha: Seq<char>, now: u64)
    requires
        cache.pin_count(sha) < u64::MAX,
    ensures
        pinned(cache, sha, now).is_pinned(sha),
        forall|other: Seq<char>|
            unpinned(pinned(cache, sha, now), sha).pin_count(other) == cache.pin_count(other),
{
}

proof fn lemma_without(hashes: Seq<Seq<char>>, sha: Seq<char>)
    ensures
        !records::without(hashes, sha).contains(sha),
        forall|h: Seq<char>|
            h != sha ==> records::without(hashes, sha).contains(h) == hashes.contains(h),
        hashes.no_duplicates() ==> records::without(hashes, sha).no_duplicates(),
    decreases hashes.len(),
{
    if hashes.len() > 0 {
        let init = hashes.drop_last();
        lemma_without(init, sha);
        assert(hashes =~= init.push(hashes.last()));
        assert forall|h: Seq<char>| hashes.contains(h) == (init.contains(h) || h == hashes.last()) by {
            if init.contains(h) {
                let i = choose|i: int| 0 <= i < init.len() && init[i] == h;
                assert(hashes[i] == h);
            }
            if h == hashes.last() {
                assert(hashes[hashes.len() - 1] == h);
            }
            if hashes.contains(h) {
                let i = choose|i: int| 0 <= i < hashes.len() && hashes[i] == h;
                if i < init.len() {
                    assert(init[i] == h);
                }
            }
        }
        let r = records::without(init, sha);
        let w = records::without(hashes, sha);
        if hashes.last() != sha {
            assert forall|h: Seq<char>| w.contains(h) == (r.contains(h) || h == hashes.last()) by {
                if r.contains(h) {
                    let i = choose|i: int| 0 <= i < r.len() && r[i] == h;
                    assert(w[i] == h);
                }
                if h == hashes.last() {
                    assert(w[w.len() - 1] == h);
                }
                if w.contains(h) {
                    let i = choose|i: int| 0 <= i < w.len() && w[i] == h;
                    if i < r.len() {
                        assert(r[i] == h);
                    }
                }
            }
        }
        if hashes.no_duplicates() {
            assert(init.no_duplicates());
            if hashes.last() != sha {
                assert(!init.contains(hashes.last()));
                assert(!r.contains(hashes.last()));
                assert forall|i: int, j: int|
                    0 <= i < w.len() && 0 <= j < w.len() && i != j implies w[i] != w[j] by {
                    if i < r.len() && j < r.len() {
                        assert(r[i] != r[j]);
                    } else if i < r.len() {
                        assert(r.contains(r[i]));
                    } else {
                        assert(r.contains(r[j]));
                    }
                }
            }
        }
    } else {
        assert(records::without(hashes, sha) =~= hashes);
    }
}

/// Keeping an artifact makes its digest the first of its path, loses no other
/// hash, and lists none twice.
pub proof fn lemma_promoted(hashes: Seq<Seq<char>>, digest: Seq<char>)
    ensures
        promoted(hashes, digest)[0] == digest,
        forall|h: Seq<char>| hashes.contains(h) ==> promoted(hashes, digest).contains(h),
        hashes.no_duplicates() ==> promoted(hashes, digest).no_duplicates(),
{
    lemma_without(hashes, digest);
    let r = records::without(hashes, digest);
    let p = promoted(hashes, digest);
    assert forall|h: Seq<char>| hashes.contains(h) implies p.contains(h) by {
        if h == digest {
            assert(p[0] == h);
        } else {
            let i = choose|i: int| 0 <= i < r.len() && r[i] == h;
            assert(p[i + 1] == h);
        }
    }
    if hashes.no_duplicates() {
        assert forall|i: int, j: int| 0 <= i < p.len() && 0 <= j < p.len() && i != j implies p[i]
            != p[j] by {
            if i > 0 {
                assert(p[i] == r[i - 1]);
                assert(r.contains(r[i - 1]));
            }
            if j > 0 {
                assert(p[j] == r[j - 1]);
                assert(r.contains(r[j - 1]));
            }
        }
    }
}

/// A blob that the server confirms right after it was kept is the one that is
/// served, so that its entity tag is the same as when it was received.
pub proof fn lemma_confirmed_as_kept(
    cache: CacheModel,
    path: Seq<char>,
    digest: Seq<char>,
    added: u64,
    now: u64,
    h: headers::Headers,
    content_length: u64,
    max_bytes: u64,
    r: FillReply,
)
    requires
        is_fill_reply(
            304,
            stored(cache, path, digest, added, now).known(path),
            h,
            content_length,
            max_bytes,
            r,
        ),
    ensures
        r matches FillReply::ServeBlob(sha) && sha@ == digest,
{
    lemma_promoted(cache.known(path), digest);
}

// ---------------------------------------------------------------------------
// Making room
// ---------------------------------------------------------------------------

/// `needed` more bytes fit into a cache of `max` bytes that has `used`.
pub open spec fn fits(used: u64, needed: u64, max: u64) -> bool {
    used + needed <= max
}

/// The blobs of a table in the order in which they were last used: each once,
/// and none before one that was used earlier.
pub open spec fn is_lru_order(order: Seq<Seq<char>>, last_used: tables::Counts) -> bool {
    &&& order.no_duplicates()
    &&& forall|i: int| 0 <= i < order.len() ==> last_used.dom().contains(#[trigger] order[i])
    &&& forall|sha: Seq<char>| #[trigger] last_used.dom().contains(sha) ==> order.contains(sha)
    &&& forall|i: int, j: int|
        0 <= i <= j < order.len() ==> last_used[#[trigger] order[i]] <= last_used[#[trigger] order[j]]
}

/// A search for room: the blobs that may have to go, the least recently used
/// first, and how many of them have been considered.
pub struct Reservation {
    needed: u64,
    max: u64,
    order: Vec<String>,
    next: usize,
}

/// How a search for room begins.
pub enum Reserve {
    /// There is room.
    Granted,
    /// The artifact is too large for the cache.
    Refused,
    /// Blobs have to go.
    Search(Reservation),
}

/// How a search for room goes on.
pub enum ReserveStep {
    /// There is room.
    Granted,
    /// No blob is left that may go.
    Refused,
    /// The blob with this hash may go.
    Evict(String),
}

impl Reservation {
    #[verifier::type_invariant]
    spec fn well_formed(&self) -> bool {
        self.next <= self.order@.len() && self.needed <= self.max / 4
    }

    /// How many bytes are looked for.
    pub closed spec fn needed(&self) -> u64 {
        self.needed
    }

    /// How many bytes the cache may hold.
    pub closed spec fn max(&self) -> u64 {
        self.max
    }

    /// The blobs that may have to go.
    pub closed spec fn order(&self) -> Seq<Seq<char>> {
        text::texts(self.order@)
    }

    /// How many of them have been considered.
    pub closed spec fn considered(&self) -> int {
        self.next as int
    }
}

/// The first blob from position `i` on that nobody reads stands at `at`; there
/// is none where `at` is the length of the order.
pub open spec fn next_unpinned(cache: CacheModel, order: Seq<Seq<char>>, i: int, at: int) -> bool {
    &&& i <= at <= order.len()
    &&& forall|j: int| i <= j < at ==> cache.is_pinned(#[trigger] order[j])
    &&& at < order.len() ==> !cache.is_pinned(order[at])
}

/// How a search for room for `needed` bytes in a cache of `max` bytes begins.
pub open spec fn is_reserve(cache: CacheModel, needed: u64, max: u64, r: Reserve) -> bool {
    match r {
        Reserve::Refused => needed > max / 4,
        Reserve::Granted => needed <= max / 4 && fits(cache.bytes_used, needed, max),
        Reserve::Search(s) => needed <= max / 4 && !fits(cache.bytes_used, needed, max)
            && s.needed() == needed && s.max() == max && s.considered() == 0 && is_lru_order(
            s.order(),
            cache.last_used,
        ),
    }
}

/// How a search for room goes on: `before` becomes `after`.
pub open spec fn is_reserve_step(
    cache: CacheModel,
    before: Reservation,
    after: Reservation,
    r: ReserveStep,
) -> bool {
    &&& after.needed() == before.needed()
    &&& after.max() == before.max()
    &&& after.order() == before.order()
    &&& match r {
        ReserveStep::Granted => fits(cache.bytes_used, before.needed(), before.max())
            && before.needed() <= before.max() / 4 && after.considered() == before.considered(),
        ReserveStep::Refused => !fits(cache.bytes_used, before.needed(), before.max())
            && next_unpinned(
            cache,
            before.order(),
            before.considered(),
            before.order().len() as int,
        ) && after.considered() == before.order().len(),
        ReserveStep::Evict(sha) => !fits(cache.bytes_used, before.needed(), before.max())
            && after.considered() <= before.order().len() && next_unpinned(
            cache,
            before.order(),
            before.considered(),
            after.considered() - 1,
        ) && sha@ == before.order()[after.considered() - 1],
    }
}

/// The cache once the blob of `len` bytes is gone.
pub open spec fn evicted(cache: CacheModel, sha: Seq<char>, len: u64) -> CacheModel {
    CacheModel {
        index: tables::without_hash(cache.index, sha),
        last_used: cache.last_used.remove(sha),
        bytes_used: if cache.bytes_used >= len {
            (cache.bytes_used - len) as u64
        } else {
            0
        },
        ..cache
    }
}

fn sum_fits(used: u64, needed: u64, max: u64) -> (r: bool)
    ensures
        r == fits(used, needed, max),
{
    needed <= max && used <= max - needed
}

/// The keys of the entries.
spec fn entry_keys(entries: Seq<(String, u64)>) -> Seq<Seq<char>> {
    entries.map_values(|entry: (String, u64)| entry.0@)
}

/// The blobs `keys`, each once, in the order in which they were last used.
spec fn ordered(
    order: Seq<Seq<char>>,
    times: Seq<u64>,
    keys: Set<Seq<char>>,
    last_used: tables::Counts,
) -> bool {
    &&& order.len() == times.len()
    &&& order.no_duplicates()
    &&& order.to_set() == keys
    &&& forall|i: int| 0 <= i < order.len() ==> last_used[#[trigger] order[i]] == times[i]
    &&& forall|i: int, j: int| 0 <= i <= j < times.len() ==> times[i] <= times[j]
}

proof fn lemma_insert_to_set(s: Seq<Seq<char>>, at: int, x: Seq<char>)
    requires
        0 <= at <= s.len(),
    ensures
        s.insert(at, x).to_set() == s.to_set().insert(x),
        s.no_duplicates() && !s.contains(x) ==> s.insert(at, x).no_duplicates(),
{
    let t = s.insert(at, x);
    assert forall|y: Seq<char>| t.to_set().contains(y) == s.to_set().insert(x).contains(y) by {
        if s.contains(y) {
            let i = choose|i: int| 0 <= i < s.len() && s[i] == y;
            assert(t[if i < at { i } else { i + 1 }] == y);
        }
        assert(t[at] == x);
        if t.contains(y) {
            let i = choose|i: int| 0 <= i < t.len() && t[i] == y;
            if i != at {
                assert(s[if i < at { i } else { i - 1 }] == y);
            }
        }
    }
    assert(t.to_set() =~= s.to_set().insert(x));
}

/// A blob that is put behind those that were used no later, and before the
/// others, keeps the order.
proof fn lemma_put_in_order(
    order: Seq<Seq<char>>,
    times: Seq<u64>,
    keys: Set<Seq<char>>,
    last_used: tables::Counts,
    sha: Seq<char>,
    at: int,
)
    requires
        ordered(order, times, keys, last_used),
        !keys.contains(sha),
        0 <= at <= order.len(),
        at > 0 ==> times[at - 1] <= last_used[sha],
        at < order.len() ==> times[at] > last_used[sha],
    ensures
        ordered(
            order.insert(at, sha),
            times.insert(at, last_used[sha]),
            keys.insert(sha),
            last_used,
        ),
{
    lemma_insert_to_set(order, at, sha);
    assert(!order.to_set().contains(sha));
}

/// The keys of the entries, ordered by their numbers.
#[verifier::spinoff_prover]
fn lru_order(entries: &Vec<(String, u64)>, Ghost(last_used): Ghost<tables::Counts>) -> (r: Vec<
    String,
>)
    requires
        tables::lists_counts(entries@, last_used),
    ensures
        is_lru_order(text::texts(r@), last_used),
{
    let ghost names = entry_keys(entries@);
    let mut keys: Vec<String> = Vec::new();
    let mut times: Vec<u64> = Vec::new();
    let mut n: usize = 0;
    assert(text::texts(keys@).to_set() =~= names.take(0).to_set());
    while n < entries.len()
        invariant
            n <= entries@.len(),
            names == entry_keys(entries@),
            tables::lists_counts(entries@, last_used),
            keys@.len() == n,
            ordered(text::texts(keys@), times@, names.take(n as int).to_set(), last_used),
        decreases entries@.len() - n,
    {
        let time = entries[n].1;
        let mut at: usize = n;
        while at > 0 && times[at - 1] > time
            invariant
                at <= n,
                times@.len() == n,
                at < n ==> times@[at as int] > time,
            decreases at,
        {
            at = at - 1;
        }
        let key = entries[n].0.clone();
        proof {
            let before = names.take(n as int);
            assert(!before.contains(key@)) by {
                if before.contains(key@) {
                    let j = choose|j: int| 0 <= j < before.len() && before[j] == key@;
                    assert(entries@[j].0@ == entries@[n as int].0@);
                }
            }
            lemma_put_in_order(
                text::texts(keys@),
                times@,
                before.to_set(),
                last_used,
                key@,
                at as int,
            );
            before.lemma_push_to_set_commute(key@);
            assert(before.push(key@) =~= names.take(n + 1));
            assert(text::texts(keys@.insert(at as int, key)) =~= text::texts(keys@).insert(
                at as int,
                key@,
            ));
        }
        keys.insert(at, key);
        times.insert(at, time);
        n = n + 1;
    }
    proof {
        let order = text::texts(keys@);
        assert(names.take(n as int) =~= names);
        assert forall|sha: Seq<char>| last_used.dom().contains(sha) == #[trigger] order.contains(
            sha,
        ) by {
            assert(order.contains(sha) == order.to_set().contains(sha));
            if last_used.dom().contains(sha) {
                let j = choose|j: int| 0 <= j < entries@.len() && (#[trigger] entries@[j]).0@ == sha;
                assert(names[j] == sha);
            }
            if names.contains(sha) {
                let j = choose|j: int| 0 <= j < names.len() && names[j] == sha;
                assert(entries@[j].0@ == sha);
            }
        }
        assert forall|i: int| 0 <= i < order.len() implies last_used.dom().contains(
            #[trigger] order[i],
        ) by {
            assert(order.contains(order[i]));
        }
    }
    keys
}

impl ArtifactCache {
    /// Begins to look for room for `needed` bytes in a cache of `max` bytes. An
    /// artifact may take a quarter of the cache; where it does not fit beside
    /// the others, the least recently used blobs have to go.
    pub fn reserve_space(&self, needed: u64, max: u64) -> (r: Reserve)
        ensures
            is_reserve(self.model(), needed, max, r),
    {
        if needed > max / 4 {
            return Reserve::Refused;
        }
        if sum_fits(self.bytes_used, needed, max) {
            return Reserve::Granted;
        }
        let entries = tables::counts_entries(&self.last_used);
        let ghost last_used = tables::count_table(self.last_used);
        let order = lru_order(&entries, Ghost(last_used));
        Reserve::Search(Reservation { needed, max, order, next: 0 })
    }

    /// Goes on with a search for room: ends it where there is room by now or no
    /// blob is left, and else names the next blob that nobody reads.
    pub fn next_eviction(&self, search: &mut Reservation) -> (r: ReserveStep)
        ensures
            is_reserve_step(self.model(), *old(search), *final(search), r),
    {
        proof {
            use_type_invariant(&*search);
        }
        if sum_fits(self.bytes_used, search.needed, search.max) {
            return ReserveStep::Granted;
        }
        let ghost order = search.order();
        let mut at: usize = search.next;
        while at < search.order.len()
            invariant
                search.next <= at <= search.order@.len(),
                order == text::texts(search.order@),
                *search == *old(search),
                search.needed <= search.max / 4,
                !fits(self.bytes_used, search.needed, search.max),
                forall|j: int| search.next <= j < at ==> self.model().is_pinned(#[trigger] order[j]),
            decreases search.order@.len() - at,
        {
            let sha = search.order[at].as_str();
            assert(order[at as int] == sha@);
            let readers = match tables::counts_get(&self.refcounts, sha) {
                Some(n) => n,
                None => 0,
            };
            if readers == 0 {
                let victim = search.order[at].clone();
                search.next = at + 1;
                return ReserveStep::Evict(victim);
            }
            at = at + 1;
        }
        search.next = at;
        ReserveStep::Refused
    }

    /// Forgets the blob of `len` bytes, which is gone.
    pub fn evict(&mut self, sha: &str, len: u64)
        ensures
            final(self).model() == evicted(old(self).model(), sha@, len),
    {
        self.bytes_used = self.bytes_used.saturating_sub(len);
        tables::counts_remove(&mut self.last_used, sha);
        tables::index_forget(&mut self.index, sha);
    }
}

/// A blob that is gone is known for no path, and does not count as used; what
/// is known of other blobs, and who reads them, stays.
pub proof fn lemma_evicted(cache: CacheModel, sha: Seq<char>, len: u64)
    ensures
        forall|path: Seq<char>| !evicted(cache, sha, len).known(path).contains(sha),
        forall|path: Seq<char>, other: Seq<char>|
            other != sha ==> evicted(cache, sha, len).known(path).contains(other)
                == cache.known(path).contains(other),
        !evicted(cache, sha, len).last_used.dom().contains(sha),
        evicted(cache, sha, len).pins == cache.pins,
        evicted(cache, sha, len).inflight == cache.inflight,
        evicted(cache, sha, len).bytes_used <= cache.bytes_used,
{
    let after = evicted(cache, sha, len);
    assert forall|path: Seq<char>| !after.known(path).contains(sha) by {
        if cache.index.dom().contains(path) {
            lemma_without(cache.index[path], sha);
        }
    }
    assert forall|path: Seq<char>, other: Seq<char>| other != sha implies after.known(path).contains(
        other,
    ) == cache.known(path).contains(other) by {
        if cache.index.dom().contains(path) {
            lemma_without(cache.index[path], sha);
        }
    }
}

/// An artifact for which room was found leaves the cache within its bounds.
pub proof fn lemma_reserved_fits(
    cache: CacheModel,
    path: Seq<char>,
    digest: Seq<char>,
    needed: u64,
    max: u64,
    now: u64,
)
    requires
        fits(cache.bytes_used, needed, max),
    ensures
        stored(cache, path, digest, needed, now).bytes_used <= max,
        stored(cache, path, digest, needed, now).bytes_used == cache.bytes_used + needed,
{
}

/// What holds of every cache: for each path the hashes are digests of bytes
/// that were received, and none is listed twice.
pub open spec fn is_sound(cache: CacheModel) -> bool {
    forall|path: Seq<char>| #[trigger]
        cache.index.dom().contains(path) ==> cache.index[path].no_duplicates() && forall|i: int|
            0 <= i < cache.index[path].len() ==> is_body_digest(#[trigger] cache.index[path][i])
}

/// A cache that knows no hashes, as each does at the start, is sound.
pub proof fn lemma_sound_at_start(cache: CacheModel)
    requires
        cache.index == tables::HashIndex::empty(),
    ensures
        is_sound(cache),
{
}

/// Nothing that happens to a sound cache makes it unsound.
pub proof fn lemma_stays_sound(
    cache: CacheModel,
    path: Seq<char>,
    digest: Seq<char>,
    sha: Seq<char>,
    bytes: u64,
    now: u64,
)
    requires
        is_sound(cache),
        is_body_digest(digest),
    ensures
        is_sound(stored(cache, path, digest, bytes, now)),
        is_sound(pinned(cache, sha, now)),
        is_sound(unpinned(cache, sha)),
        is_sound(evicted(cache, sha, bytes)),
        is_sound(CacheModel { inflight: cache.inflight.insert(path, 1), ..cache }),
        is_sound(CacheModel { inflight: cache.inflight.remove(path), ..cache }),
{
    let after = stored(cache, path, digest, bytes, now);
    assert forall|p: Seq<char>| #[trigger] after.index.dom().contains(p) implies after.index[p].no_duplicates()
        && forall|i: int|
        0 <= i < after.index[p].len() ==> is_body_digest(#[trigger] after.index[p][i]) by {
        if p == path {
            let old_hashes = cache.known(path);
            let rest = records::without(old_hashes, digest);
            lemma_promoted(old_hashes, digest);
            lemma_without(old_hashes, digest);
            assert forall|i: int| 0 <= i < after.index[p].len() implies is_body_digest(
                #[trigger] after.index[p][i],
            ) by {
                if i > 0 {
                    assert(after.index[p][i] == rest[i - 1]);
                    assert(rest.contains(rest[i - 1]));
                    assert(rest[i - 1] != digest);
                    assert(old_hashes.contains(rest[i - 1]));
                    let j = choose|j: int|
                        0 <= j < old_hashes.len() && old_hashes[j] == rest[i - 1];
                    assert(is_body_digest(old_hashes[j]));
                }
            }
        }
    }
    let gone = evicted(cache, sha, bytes);
    assert forall|p: Seq<char>| #[trigger] gone.index.dom().contains(p) implies gone.index[p].no_duplicates()
        && forall|i: int|
        0 <= i < gone.index[p].len() ==> is_body_digest(#[trigger] gone.index[p][i]) by {
        let hashes = cache.index[p];
        let rest = records::without(hashes, sha);
        lemma_without(hashes, sha);
        assert(cache.index.dom().contains(p));
        assert(gone.index[p] == rest);
        assert forall|i: int| 0 <= i < rest.len() implies is_body_digest(#[trigger] rest[i]) by {
            assert(rest.contains(rest[i]));
            assert(rest[i] != sha);
            assert(hashes.contains(rest[i]));
            let j = choose|j: int| 0 <= j < hashes.len() && hashes[j] == rest[i];
            assert(is_body_digest(hashes[j]));
        }
    }
}

// ---------------------------------------------------------------------------
// Where blobs lie
// ---------------------------------------------------------------------------

/// The directory, among those of the blobs, in which the blob lies: the first
/// two bytes of its hash, or `00` where these are no whole characters.
pub open spec fn blob_directory(sha: Seq<char>) -> Seq<char> {
    if sha.len() >= 2 && (sha[0] as u32) < 0x80 && (sha[1] as u32) < 0x80 {
        sha.take(2)
    } else if sha.len() >= 1 && 0x80 <= (sha[0] as u32) < 0x800 {
        sha.take(1)
    } else {
        "00"@
    }
}

fn blob_prefix(sha: &str) -> (r: String)
    ensures
        r@ == blob_directory(sha@),
{
    let v = text::chars_of(sha);
    if v.len() >= 2 && (v[0] as u32) < 0x80 && (v[1] as u32) < 0x80 {
        assert(v@.subrange(0, 2) =~= v@.take(2));
        text::text_of(&v, 0, 2)
    } else if v.len() >= 1 && 0x80 <= (v[0] as u32) && (v[0] as u32) < 0x800 {
        assert(v@.subrange(0, 1) =~= v@.take(1));
        text::text_of(&v, 0, 1)
    } else {
        "00".to_owned()
    }
}

/// The parts of the path of the blob, each to be joined to those before it.
pub fn blob_path(cache_dir: &str, sha: &str) -> (r: Vec<String>)
    ensures
        text::texts(r@) == seq![cache_dir@, "blobs"@, blob_directory(sha@), sha@],
{
    let mut parts: Vec<String> = Vec::new();
    parts.push(cache_dir.to_owned());
    parts.push("blobs".to_owned());
    parts.push(blob_prefix(sha));
    parts.push(sha.to_owned());
    assert(text::texts(parts@) =~= seq![cache_dir@, "blobs"@, blob_directory(sha@), sha@]);
    parts
}

// ---------------------------------------------------------------------------
// What the cache promises
// ---------------------------------------------------------------------------

/// A cached blob is served exactly where the server confirms that nothing has
/// changed, and then the newest one that is known. Whatever hashes were named, a
/// success brings the artifact itself: room is asked for its length where that is
/// known, and it is received under the entity tag of the reply. Any other status
/// is relayed.
pub proof fn lemma_fill_replies(
    status: u16,
    known: Seq<Seq<char>>,
    h: headers::Headers,
    content_length: u64,
    max_bytes: u64,
    r: FillReply,
)
    requires
        is_fill_reply(status, known, h, content_length, max_bytes, r),
    ensures
        r is ServeBlob == (status == 304 && known.len() > 0),
        r matches FillReply::ServeBlob(sha) ==> sha@ == known[0],
        r is BlobMissing == (status == 304 && known.len() == 0),
        r is Reserve == (200 <= status <= 299 && content_length > 0),
        r matches FillReply::Reserve(pending) ==> pending.size() == content_length,
        r is Receive == (200 <= status <= 299 && content_length == 0),
        r is Relay == (status != 304 && !(200 <= status <= 299)),
        ({
            let download = match r {
                FillReply::Reserve(pending) => Some(pending.download()),
                FillReply::Receive(download) => Some(download),
                _ => None,
            };
            download matches Some(d) ==> d.received().len() == 0 && 4 * d.limit() <= max_bytes < 4
                * d.limit() + 4 && d.tag() == etag_of(h)
        }),
{
}

/// The entity tag of a reply names a digest: the one between quotation marks, or
/// the whole of it where it has none. A reply without a tag names none.
pub proof fn lemma_etag(h: headers::Headers, sha: Seq<char>)
    requires
        sha.len() > 0,
        !sha.contains('"'),
        !text::is_space(sha[0]),
        !text::is_space(sha.last()),
    ensures
        headers::header_str(h, "etag"@) == Some(seq!['"'] + sha + seq!['"']) ==> etag_of(h) == Some(
            sha,
        ),
        headers::header_str(h, "etag"@) == Some(sha) ==> etag_of(h) == Some(sha),
        headers::header_str(h, "etag"@) is None ==> etag_of(h) is None,
{
    let e = Seq::<char>::empty();
    let q = seq!['"'] + sha + seq!['"'];
    text::lemma_trim(e, q, e);
    text::lemma_trim(e, sha, e);
    assert(e + q + e =~= q);
    assert(e + sha + e =~= sha);
    assert(q[0] == '"' && q.last() == '"');
    text::lemma_ascii_space('"');
    assert(sha.contains(sha[0]));
    assert(sha.contains(sha.last()));
    let rest = sha + seq!['"'];
    assert(q.drop_first() =~= rest);
    assert(rest[0] == sha[0]);
    assert(text::trim_start_char(q, '"') == text::trim_start_char(rest, '"'));
    assert(text::trim_start_char(rest, '"') == rest);
    assert(rest.last() == '"');
    assert(rest.drop_last() =~= sha);
    assert(text::trim_end_char(rest, '"') == text::trim_end_char(sha, '"'));
    assert(text::trim_end_char(sha, '"') == sha);
    assert(text::trim_start_char(sha, '"') == sha);
}

/// An artifact that came with the entity tag of its digest, and is not too large,
/// is kept under that digest and answered with it; a tag that is not that of its
/// digest is refused; without a tag, or too large, it is handed on without one.
/// Whatever is answered is the whole of what came.
pub proof fn lemma_fill_outcomes(
    body: Seq<u8>,
    oversize: bool,
    etag: Option<Seq<char>>,
    r: Result<Filled, FillError>,
)
    requires
        is_fill_outcome(body, oversize, etag, r),
    ensures
        r is Err == (!oversize && etag is Some && etag->0 != crypto::sha256_text(body)),
        r matches Ok(filled) ==> filled.answer.body@ == body && filled.answer.head.status == 200
            && filled.answer.head.content_type is Some && filled.answer.head.content_type->0@
            == "application/octet-stream"@,
        r matches Ok(filled) ==> filled.outcome is Store == (!oversize && etag == Some(
            crypto::sha256_text(body),
        )),
        r matches Ok(filled) ==> filled.answer.head.etag is Some == filled.outcome is Store,
        r matches Ok(filled) ==> (filled.outcome matches FillOutcome::Store(blob) ==> blob.sha()
            == crypto::sha256_text(body) && blob.size() == body.len()
            && filled.answer.head.etag->0@ == seq!['"'] + blob.sha() + seq!['"']),
{
}

/// One request fills a path at a time: the first one does, and is told what is
/// known; one that comes meanwhile waits, one that has waited and finds another
/// filling goes without the cache, and one that has waited too long is sent away.
pub proof fn lemma_cache_steps(
    cache: CacheModel,
    path: Seq<char>,
    waited: Waited,
    step: CacheStep,
)
    requires
        is_cache_step(cache, true, path, waited, step),
    ensures
        ({
            let filling = cache.inflight.dom().contains(path);
            &&& step is Fill == (!filling && waited != Waited::TimedOut)
            &&& step is Wait == (filling && waited == Waited::NotYet)
            &&& step is Bypass == (filling && waited == Waited::Released)
            &&& step is Busy == (waited == Waited::TimedOut)
            &&& step is Fill == leads(cache, true, path, waited)
            &&& step matches CacheStep::Fill(known) ==> text::texts(known@) == (
            if cache.index.dom().contains(path) {
                cache.index[path]
            } else {
                Seq::<Seq<char>>::empty()
            })
        }),
{
}

/// A cache that is switched off is passed by, and nobody fills it.
pub proof fn lemma_cache_off(cache: CacheModel, path: Seq<char>, waited: Waited, step: CacheStep)
    requires
        is_cache_step(cache, false, path, waited, step),
    ensures
        step is Bypass,
        !leads(cache, false, path, waited),
{
}

/// Keeping an artifact changes what is known of its path, of its use and of the
/// bytes, and nothing of other paths and blobs: its digest is the first of its
/// path, followed by the others in their order, and the bytes that are new count.
pub proof fn lemma_stored(
    cache: CacheModel,
    path: Seq<char>,
    digest: Seq<char>,
    added: u64,
    now: u64,
    other: Seq<char>,
)
    ensures
        ({
            let after = stored(cache, path, digest, added, now);
            &&& after.known(path).len() > 0 && after.known(path)[0] == digest
            &&& after.known(path).skip(1) == records::without(cache.known(path), digest)
            &&& other != path ==> after.known(other) == cache.known(other)
            &&& after.last_used.dom().contains(digest) && after.last_used[digest] == now
            &&& other != digest ==> after.last_used.dom().contains(other)
                == cache.last_used.dom().contains(other)
            &&& other != digest && cache.last_used.dom().contains(other) ==> after.last_used[other]
                == cache.last_used[other]
            &&& cache.bytes_used + added <= u64::MAX ==> after.bytes_used == cache.bytes_used
                + added
            &&& cache.bytes_used + added > u64::MAX ==> after.bytes_used == u64::MAX
            &&& after.pins == cache.pins && after.inflight == cache.inflight
        }),
{
    let after = stored(cache, path, digest, added, now);
    assert(after.known(path).skip(1) =~= records::without(cache.known(path), digest));
}

/// A request that reads a blob counts as one reader more, and makes the blob the
/// one that was used last; other blobs, the hashes and the bytes stay.
pub proof fn lemma_pinned(cache: CacheModel, sha: Seq<char>, now: u64, other: Seq<char>)
    ensures
        ({
            let after = pinned(cache, sha, now);
            &&& cache.pin_count(sha) < u64::MAX ==> after.pin_count(sha) == cache.pin_count(sha) + 1
            &&& other != sha ==> after.pin_count(other) == cache.pin_count(other)
            &&& after.last_used.dom().contains(sha) && after.last_used[sha] == now
            &&& other != sha ==> after.last_used.dom().contains(other)
                == cache.last_used.dom().contains(other)
            &&& other != sha && cache.last_used.dom().contains(other) ==> after.last_used[other]
                == cache.last_used[other]
            &&& after.index == cache.index && after.bytes_used == cache.bytes_used
                && after.inflight == cache.inflight
            &&& cache.is_pinned(sha) == (cache.pin_count(sha) > 0)
            &&& cache.pin_count(sha) == (if cache.pins.dom().contains(sha) {
                cache.pins[sha]
            } else {
                0
            })
        }),
{
}

/// A request that has read a blob counts no longer; nothing else changes.
pub proof fn lemma_unpinned(cache: CacheModel, sha: Seq<char>, other: Seq<char>)
    ensures
        ({
            let after = unpinned(cache, sha);
            &&& cache.pin_count(sha) > 0 ==> after.pin_count(sha) == cache.pin_count(sha) - 1
            &&& other != sha ==> after.pin_count(other) == cache.pin_count(other)
            &&& after == (CacheModel { pins: after.pins, ..cache })
        }),
{
}

/// A blob that is gone gives back its bytes.
pub proof fn lemma_evicted_bytes(cache: CacheModel, sha: Seq<char>, len: u64, other: Seq<char>)
    ensures
        len <= cache.bytes_used ==> evicted(cache, sha, len).bytes_used == cache.bytes_used - len,
        len > cache.bytes_used ==> evicted(cache, sha, len).bytes_used == 0,
        other != sha && cache.last_used.dom().contains(other) ==> evicted(
            cache,
            sha,
            len,
        ).last_used.dom().contains(other) && evicted(cache, sha, len).last_used[other]
            == cache.last_used[other],
        forall|path: Seq<char>|
            evicted(cache, sha, len).known(path) == records::without(cache.known(path), sha),
{
    assert forall|path: Seq<char>|
        evicted(cache, sha, len).known(path) == records::without(cache.known(path), sha) by {
        if !cache.index.dom().contains(path) {
            assert(records::without(Seq::<Seq<char>>::empty(), sha) =~= Seq::<Seq<char>>::empty());
        }
    }
}

/// Room is room: the bytes that are there and those that are to come do not
/// exceed the bound.
pub proof fn lemma_fits(used: u64, needed: u64, max: u64)
    ensures
        fits(used, needed, max) == (max - used >= needed),
{
}

/// The order in which blobs have to go begins with one that was used before, or
/// when, all the others were, and goes on so.
pub proof fn lemma_lru_order(order: Seq<Seq<char>>, last_used: tables::Counts, sha: Seq<char>)
    requires
        is_lru_order(order, last_used),
    ensures
        order.no_duplicates(),
        last_used.dom().contains(sha) == order.contains(sha),
        last_used.dom().contains(sha) ==> order.len() > 0 && last_used[order[0]] <= last_used[sha],
        last_used.dom().contains(sha) ==> last_used[sha] <= last_used[order.last()],
        forall|i: int|
            0 < i < order.len() ==> last_used[order[i - 1]] <= last_used[#[trigger] order[i]],
{
    if order.contains(sha) {
        let i = choose|i: int| 0 <= i < order.len() && order[i] == sha;
        assert(last_used.dom().contains(order[i]));
    }
    if last_used.dom().contains(sha) {
        assert(order.contains(sha));
        let i = choose|i: int| 0 <= i < order.len() && order[i] == sha;
        assert(last_used[order[0]] <= last_used[order[i]]);
        assert(last_used[order[i]] <= last_used[order[order.len() - 1]]);
    }
    assert forall|i: int| 0 < i < order.len() implies last_used[order[i - 1]]
        <= last_used[#[trigger] order[i]] by {
        let j = i - 1;
        assert(last_used[order[j]] <= last_used[order[i]]);
    }
}

/// The blob that has to go next is the first, in the order, that nobody reads:
/// all that are passed over are being read.
pub proof fn lemma_next_unpinned(cache: CacheModel, order: Seq<Seq<char>>, i: int, at: int)
    requires
        0 <= i,
        next_unpinned(cache, order, i, at),
    ensures
        i <= at <= order.len(),
        at < order.len() ==> cache.pin_count(order[at]) == 0,
        forall|j: int| i <= j < at ==> cache.pin_count(#[trigger] order[j]) > 0,
{
    assert forall|j: int| i <= j < at implies cache.pin_count(#[trigger] order[j]) > 0 by {
        assert(cache.is_pinned(order[j]));
    }
}

/// The files that count are those whose names are sixty-four hexadecimal digits,
/// and each counts with its length; of two lists of files both count.
pub proof fn lemma_blob_bytes(a: Seq<BlobFile>, b: Seq<BlobFile>, file: BlobFile)
    ensures
        blob_bytes(a + b) == blob_bytes(a) + blob_bytes(b),
        blob_bytes(seq![file]) == (if is_blob_name(file.name@) {
            file.len as nat
        } else {
            0
        }),
        is_blob_name(file.name@) == (file.name@.len() == 64 && forall|i: int|
            0 <= i < 64 ==> ('0' <= #[trigger] file.name@[i] && file.name@[i] <= '9') || ('a'
                <= file.name@[i] && file.name@[i] <= 'f') || ('A' <= file.name@[i] && file.name@[i]
                <= 'F')),
    decreases b.len(),
{
    assert(seq![file].drop_last() =~= Seq::<BlobFile>::empty());
    assert(blob_bytes(seq![file].drop_last()) == 0);
    let name = file.name@;
    if is_blob_name(name) {
        assert forall|i: int| 0 <= i < 64 implies ('0' <= #[trigger] name[i] && name[i] <= '9') || (
        'a' <= name[i] && name[i] <= 'f') || ('A' <= name[i] && name[i] <= 'F') by {
            assert(text::is_hex_digit(name[i]));
        }
    }
    if b.len() == 0 {
        assert(a + b =~= a);
    } else {
        lemma_blob_bytes(a, b.drop_last(), file);
        assert((a + b).drop_last() =~= a + b.drop_last());
        assert((a + b).last() == b.last());
    }
}

/// A cache that takes over the files that were found counts their bytes anew, and
/// every blob among them as used at that time; of other blobs, of paths and of
/// readers it knows what it knew.
pub proof fn lemma_taken_over(
    cache: CacheModel,
    files: Seq<BlobFile>,
    now: u64,
    i: int,
    other: Seq<char>,
)
    requires
        0 <= i < files.len(),
        is_blob_name(files[i].name@),
    ensures
        ({
            let after = taken_over(cache, files, now);
            &&& after.last_used.dom().contains(files[i].name@) && after.last_used[files[i].name@]
                == now
            &&& blob_bytes(files) <= u64::MAX ==> after.bytes_used == blob_bytes(files)
            &&& blob_bytes(files) > u64::MAX ==> after.bytes_used == u64::MAX
            &&& !is_blob_name(other) || (forall|j: int|
                0 <= j < files.len() ==> (#[trigger] files[j]).name@ != other) ==> after.last_used.dom().contains(other) == cache.last_used.dom().contains(other)
                && (cache.last_used.dom().contains(other) ==> after.last_used[other]
                == cache.last_used[other])
            &&& after.index == cache.index && after.pins == cache.pins && after.inflight
                == cache.inflight
        }),
{
    assert(blob_names(files).contains(files[i].name@));
}

/// A blob lies in the directory that is named by the first two digits of its
/// hash.
pub proof fn lemma_blob_directory(body: Seq<u8>)
    requires
        crypto::sha256(body).len() > 0,
    ensures
        blob_directory(crypto::sha256_text(body)) == crypto::sha256_text(body).take(2),
{
    let sha = crypto::sha256_text(body);
    crypto::lemma_digest_texts(body, Seq::<char>::empty(), Seq::<char>::empty(), 0);
    assert(text::hex_value(sha[0]) is Some);
    assert(text::hex_value(sha[1]) is Some);
}

/// A head is that of a success. That of an artifact gives the type of plain bytes,
/// and its digest between quotation marks where one is given; a bare one gives
/// neither.
pub proof fn lemma_heads(head: ArtifactHead, sha: Seq<char>)
    ensures
        head.announces(Some(sha)) || head.announces(None) || head.is_bare() ==> head.status == 200,
        head.announces(Some(sha)) || head.announces(None) ==> head.content_type is Some
            && head.content_type->0@ == "application/octet-stream"@,
        head.announces(Some(sha)) ==> head.etag is Some && head.etag->0@ == seq!['"'] + sha + seq![
            '"',
        ],
        head.announces(None) || head.is_bare() ==> head.etag is None,
        head.is_bare() ==> head.content_type is None,
{
}

/// What has arrived of an artifact is too much for a cache of `max_bytes` as soon
/// as it is more than a quarter of that.
pub proof fn lemma_a_quarter_at_most(download: Download, max_bytes: u64)
    requires
        4 * download.limit() <= max_bytes < 4 * download.limit() + 4,
    ensures
        download.oversize() == (4 * download.received().len() > max_bytes),
{
}

/// A hash of fewer than two characters has no directory of its own, nor has one
/// whose second byte is not the end of a character.
pub proof fn lemma_blob_directory_of(sha: Seq<char>)
    ensures
        sha.len() >= 2 && (sha[0] as u32) < 128 && (sha[1] as u32) < 128 ==> blob_directory(sha)
            == seq![sha[0], sha[1]],
        sha.len() >= 1 && 128 <= (sha[0] as u32) < 2048 ==> blob_directory(sha) == seq![sha[0]],
        sha.len() == 0 || (sha[0] as u32) >= 2048 ==> blob_directory(sha) == seq!['0', '0'],
        sha.len() >= 1 && (sha[0] as u32) < 128 && (sha.len() == 1 || (sha[1] as u32) >= 128)
            ==> blob_directory(sha) == seq!['0', '0'],
{
    reveal_strlit("00");
    assert("00"@ =~= seq!['0', '0']);
    if sha.len() >= 2 {
        assert(sha.take(2) =~= seq![sha[0], sha[1]]);
    }
    if sha.len() >= 1 {
        assert(sha.take(1) =~= seq![sha[0]]);
    }
}

/// The number of readers wraps around at the ends of what can be counted, and a
/// blob that nobody has read is not counted down.
pub proof fn lemma_counting_wraps(cache: CacheModel, sha: Seq<char>, now: u64)
    ensures
        cache.pin_count(sha) == u64::MAX ==> pinned(cache, sha, now).pin_count(sha) == 0,
        cache.pins.dom().contains(sha) && cache.pin_count(sha) == 0 ==> unpinned(
            cache,
            sha,
        ).pin_count(sha) == u64::MAX,
        !cache.pins.dom().contains(sha) ==> unpinned(cache, sha) == cache,
{
}

/// The first request that finds nobody filling a path is noted as the one that
/// does, and no other is; nothing else changes. When the fill ends the path is as
/// it was before.
pub proof fn lemma_fill_begins_and_ends(
    cache: CacheModel,
    enabled: bool,
    path: Seq<char>,
    waited: Waited,
    other: Seq<char>,
)
    ensures
        ({
            let after = after_step(cache, enabled, path, waited);
            let begins = enabled && waited != Waited::TimedOut && !cache.inflight.dom().contains(
                path,
            );
            &&& begins ==> after.inflight.dom().contains(path)
            &&& !begins ==> after == cache
            &&& other != path ==> after.inflight.dom().contains(other)
                == cache.inflight.dom().contains(other)
            &&& after == (CacheModel { inflight: after.inflight, ..cache })
            &&& begins ==> after_fill(after, path).inflight =~= cache.inflight
            &&& !after_fill(cache, path).inflight.dom().contains(path)
            &&& other != path ==> after_fill(cache, path).inflight.dom().contains(other)
                == cache.inflight.dom().contains(other)
            &&& after_fill(cache, path) == (CacheModel {
                inflight: after_fill(cache, path).inflight,
                ..cache
            })
        }),
{
}

/// An artifact of more than a quarter of the cache gets no room, one that fits
/// beside what is there gets it at once, and for any other all blobs are looked
/// at, the one that was used least recently first.
pub proof fn lemma_room_is_looked_for(cache: CacheModel, needed: u64, max: u64, r: Reserve)
    requires
        is_reserve(cache, needed, max, r),
    ensures
        r is Refused == (4 * needed > max),
        r is Granted == (4 * needed <= max && cache.bytes_used + needed <= max),
        r is Search == (4 * needed <= max && cache.bytes_used + needed > max),
        r matches Reserve::Search(s) ==> s.needed() == needed && s.max() == max && s.considered()
            == 0,
        r matches Reserve::Search(s) ==> s.order().no_duplicates() && (forall|sha: Seq<char>|
            cache.last_used.dom().contains(sha) == #[trigger] s.order().contains(sha)) && forall|
            i: int,
            j: int,
        |
            0 <= i < j < s.order().len() ==> cache.last_used[#[trigger] s.order()[i]]
                <= cache.last_used[#[trigger] s.order()[j]],
{
    match r {
        Reserve::Search(s) => {
            assert forall|sha: Seq<char>|
                cache.last_used.dom().contains(sha) == #[trigger] s.order().contains(sha) by {
                lemma_lru_order(s.order(), cache.last_used, sha);
            }
        },
        _ => {},
    }
}

/// The search ends as soon as there is room, and only then; until then it names
/// the next blob in the order that nobody reads, and passes over those that are
/// being read. It is in vain where all that are left are being read.
pub proof fn lemma_search_goes_on(
    cache: CacheModel,
    before: Reservation,
    after: Reservation,
    r: ReserveStep,
)
    requires
        is_reserve_step(cache, before, after, r),
        0 <= before.considered() <= before.order().len(),
        4 * before.needed() <= before.max(),
    ensures
        r is Granted == (cache.bytes_used + before.needed() <= before.max()),
        after.needed() == before.needed() && after.max() == before.max() && after.order()
            == before.order(),
        r matches ReserveStep::Evict(sha) ==> {
            let at = after.considered() - 1;
            &&& before.considered() <= at < before.order().len()
            &&& sha@ == before.order()[at]
            &&& cache.pin_count(sha@) == 0
            &&& forall|j: int|
                before.considered() <= j < at ==> cache.pin_count(#[trigger] before.order()[j]) > 0
        },
        r is Refused ==> after.considered() == before.order().len() && forall|j: int|
            before.considered() <= j < before.order().len() ==> cache.pin_count(
                #[trigger] before.order()[j],
            ) > 0,
        r is Granted ==> after.considered() == before.considered(),
{
    match r {
        ReserveStep::Evict(sha) => {
            lemma_next_unpinned(
                cache,
                before.order(),
                before.considered(),
                after.considered() - 1,
            );
        },
        ReserveStep::Refused => {
            lemma_next_unpinned(
                cache,
                before.order(),
                before.considered(),
                before.order().len() as int,
            );
        },
        ReserveStep::Granted => {},
    }
}

} // verus!
