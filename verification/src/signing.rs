//! The signatures of the proxy's own requests.

use axum::http::HeaderMap;
use rand::RngCore;
use vstd::prelude::*;
use vstd::string::*;

use crate::clock;
use crate::clock::UtcTime;
use crate::crypto;
use crate::crypto::ProxyKeypair;
use crate::encoding;
use crate::headers;
use crate::ids;
use crate::text;
use crate::validate;
use crate::validate::FieldsModel;
use crate::validate::SigningHeaders;

verus! {

/// `RngCore::fill_bytes` of the generator of the thread, of which nothing is
/// claimed; it does not return where the operating system has no randomness to
/// seed the generator with.
#[verifier::external_body]
fn random_bytes() -> (r: [u8; 16]) {
    let mut bytes = [0u8; 16];
    rand::thread_rng().fill_bytes(&mut bytes);
    bytes
}

/// The nonce that is made of sixteen bytes: the bytes in hexadecimal.
pub fn nonce_of(bytes: &[u8; 16]) -> (r: String)
    ensures
        r@ == encoding::hex_bytes(bytes@),
{
    encoding::hex_encode(bytes.as_slice())
}

/// A random nonce.
pub fn generate_nonce() -> (r: String)
    ensures
        exists|bytes: Seq<u8>| bytes.len() == 16 && r@ == #[trigger] encoding::hex_bytes(bytes),
{
    let bytes = random_bytes();
    nonce_of(&bytes)
}

/// The time and the nonce of a request.
pub struct Stamp {
    timestamp_ms: i64,
    nonce: String,
}

impl Stamp {
    #[verifier::type_invariant]
    spec fn well_formed(&self) -> bool {
        exists|bytes: Seq<u8>|
            bytes.len() == 16 && self.nonce@ == #[trigger] encoding::hex_bytes(bytes)
    }

    /// The time, in milliseconds since the Unix epoch.
    pub closed spec fn time(&self) -> i64 {
        self.timestamp_ms
    }

    /// The nonce.
    pub closed spec fn nonce_text(&self) -> Seq<char> {
        self.nonce@
    }

    /// The time `moment`, and the nonce that is made of `bytes`.
    pub fn at(moment: &UtcTime, bytes: &[u8; 16]) -> (r: Self)
        requires
            i64::MIN <= moment.millis() <= i64::MAX,
        ensures
            r.time() == moment.millis(),
            r.nonce_text() == encoding::hex_bytes(bytes@),
    {
        let millis: i128 = moment.timestamp_millis();
        let nonce = nonce_of(bytes);
        assert(bytes@.len() == 16);
        Stamp { timestamp_ms: millis as i64, nonce }
    }

    /// The time of the call, and a random nonce.
    pub fn now() -> (r: Self)
        ensures
            exists|moment: UtcTime, bytes: Seq<u8>|
                bytes.len() == 16 && r.time() == #[trigger] moment.millis() && r.nonce_text()
                    == #[trigger] encoding::hex_bytes(bytes),
    {
        let moment = clock::utc_now();
        let bytes = random_bytes();
        assert(bytes@.len() == 16);
        Self::at(&moment, &bytes)
    }

    /// The time, in milliseconds since the Unix epoch.
    pub fn timestamp_ms(&self) -> (r: i64)
        ensures
            r == self.time(),
    {
        self.timestamp_ms
    }

    /// The nonce.
    pub fn nonce(&self) -> (r: &str)
        ensures
            r@ == self.nonce_text(),
    {
        self.nonce.as_str()
    }
}

/// A text is the name of a header.
pub open spec fn is_header_token(name: Seq<char>) -> bool {
    headers::is_field_name(text::lower(name)) && !name.contains('"')
}

/// All four texts are names of headers.
pub open spec fn are_header_tokens(names: SigningHeaders) -> bool {
    &&& is_header_token(names.agent_id@)
    &&& is_header_token(names.timestamp@)
    &&& is_header_token(names.nonce@)
    &&& is_header_token(names.signature@)
}

fn header_token(name: &str) -> (r: bool)
    ensures
        r == is_header_token(name@),
{
    let v = text::chars_of(name);
    if v.len() == 0 || v.len() > 65535 {
        return false;
    }
    let mut i: usize = 0;
    while i < v.len()
        invariant
            i <= v@.len(),
            v@ == name@,
            forall|j: int| 0 <= j < i ==> headers::is_name_char(#[trigger] text::lower(name@)[j]),
            forall|j: int| 0 <= j < i ==> #[trigger] name@[j] != '"',
        decreases v@.len() - i,
    {
        assert(text::lower(name@)[i as int] == text::lower_char(v@[i as int]));
        if v[i] == '"' || !headers::char_is_name(text::char_to_lower(v[i])) {
            return false;
        }
        i = i + 1;
    }
    true
}

/// Whether all four texts are names of headers.
pub fn names_are_tokens(names: &SigningHeaders) -> (r: bool)
    ensures
        r == are_header_tokens(*names),
{
    header_token(names.agent_id.as_str()) && header_token(names.timestamp.as_str())
        && header_token(names.nonce.as_str()) && header_token(names.signature.as_str())
}

/// The bytes of a text, as the only value of a header.
pub open spec fn one_value(s: Seq<char>) -> Seq<Seq<u8>> {
    seq![vstd::utf8::encode_utf8(s)]
}

/// The headers of a signed request.
pub open spec fn signing_headers(names: SigningHeaders, fields: FieldsModel) -> headers::Headers {
    headers::Headers::empty().insert(
        text::lower(names.agent_id@),
        one_value(ids::uuid_text(fields.agent_id)),
    ).insert(
        text::lower(names.timestamp@),
        one_value(text::signed_decimal(fields.timestamp_ms as int)),
    ).insert(text::lower(names.nonce@), one_value(fields.nonce)).insert(
        text::lower(names.signature@),
        one_value(fields.signature),
    )
}

/// A text of the visible ASCII range.
pub open spec fn is_visible_text(s: Seq<char>) -> bool {
    forall|i: int| 0 <= i < s.len() ==> ' ' <= #[trigger] s[i] && s[i] <= '~'
}

fn insert(h: &mut HeaderMap, name: &str, value: &str)
    requires
        headers::few_names(headers::header_contents(*old(h))),
        headers::is_field_name(text::lower(name@)),
        is_visible_text(value@),
    ensures
        headers::header_contents(*final(h)) == headers::header_contents(*old(h)).insert(
            text::lower(name@),
            one_value(value@),
        ),
{
    let lower = text::to_lower(name);
    proof {
        headers::lemma_visible_value(value@);
    }
    headers::header_insert(h, lower.as_str(), value.as_bytes());
}

pub proof fn lemma_uuid_text_visible(id: u128)
    ensures
        is_visible_text(ids::uuid_text(id)),
{
    broadcast use vstd::arithmetic::power::lemma_pow_positive;

    let s = ids::uuid_text(id);
    assert forall|k: int| 0 <= k < 32 implies text::is_hex_digit(#[trigger] ids::uuid_digit(id, k)) by {
        let n = (id as int / vstd::arithmetic::power::pow(16, (31 - k) as nat)) % 16;
        assert(0 <= n < 16);
    }
    assert forall|i: int| 0 <= i < s.len() implies ' ' <= #[trigger] s[i] && s[i] <= '~' by {
        if i < 8 {
            assert(s[i] == ids::uuid_digit(id, i));
        } else if i == 8 || i == 13 || i == 18 || i == 23 {
            assert(s[i] == '-');
        } else if i < 13 {
            assert(s[i] == ids::uuid_digit(id, i - 1));
        } else if i < 18 {
            assert(s[i] == ids::uuid_digit(id, i - 2));
        } else if i < 23 {
            assert(s[i] == ids::uuid_digit(id, i - 3));
        } else {
            assert(s[i] == ids::uuid_digit(id, i - 4));
        }
    }
}

proof fn lemma_signed_decimal(n: i64)
    ensures
        is_visible_text(text::signed_decimal(n as int)),
        text::i64_value(text::signed_decimal(n as int)) == Some(n as int),
{
    let s = text::signed_decimal(n as int);
    if n < 0 {
        let d = text::decimal((-n) as nat);
        text::lemma_decimal_digits((-n) as nat);
        assert(s.skip(1) =~= d);
        assert forall|i: int| 0 <= i < s.len() implies ' ' <= #[trigger] s[i] && s[i] <= '~' by {
            if i > 0 {
                assert(s[i] == d[i - 1]);
                assert(text::is_digit(d[i - 1]));
            }
        }
    } else {
        text::lemma_decimal_digits(n as nat);
        assert(text::is_digit(s[0]));
        assert forall|i: int| 0 <= i < s.len() implies ' ' <= #[trigger] s[i] && s[i] <= '~' by {
            assert(text::is_digit(s[i]));
        }
    }
}

/// The headers of a request of the proxy, signed with its key: they carry its
/// identity, the time and the nonce of the stamp, and the signature of
/// `canonical`, the text that the agents' protocol builds from the request and
/// the stamp. The public key of the pair accepts the signature.
pub fn signed_headers(
    keypair: &ProxyKeypair,
    proxy_id: u128,
    stamp: &Stamp,
    canonical: &[u8],
    names: &SigningHeaders,
) -> (r: HeaderMap)
    requires
        are_header_tokens(*names),
    ensures
        exists|signature: Seq<char>|
            signature == encoding::base64_text(
                crypto::ed25519_signature(keypair.seed(), canonical@),
            ) && #[trigger] crypto::signature_fits(
                crypto::public_key_text(keypair.seed()),
                canonical@,
                signature,
            ) && headers::header_contents(r) == signing_headers(
                *names,
                FieldsModel {
                    agent_id: proxy_id,
                    timestamp_ms: stamp.time(),
                    nonce: stamp.nonce_text(),
                    signature,
                },
            ),
{
    let signature = keypair.sign(canonical);
    let id_text = ids::uuid_to_text(proxy_id);
    let time_text = text::signed_decimal_text(stamp.timestamp_ms);
    proof {
        use_type_invariant(stamp);
        let bytes = choose|bytes: Seq<u8>|
            bytes.len() == 16 && stamp.nonce@ == #[trigger] encoding::hex_bytes(bytes);
        encoding::lemma_hex_bytes_visible(bytes);
        encoding::lemma_base64_visible(crypto::ed25519_signature(keypair.seed(), canonical@));
        lemma_uuid_text_visible(proxy_id);
        lemma_signed_decimal(stamp.timestamp_ms);
    }
    let mut h = headers::header_map();
    insert(&mut h, names.agent_id.as_str(), id_text.as_str());
    insert(&mut h, names.timestamp.as_str(), time_text.as_str());
    insert(&mut h, names.nonce.as_str(), stamp.nonce.as_str());
    insert(&mut h, names.signature.as_str(), signature.as_str());
    h
}

/// The four names are different.
pub open spec fn are_distinct(names: SigningHeaders) -> bool {
    let a = text::lower(names.agent_id@);
    let t = text::lower(names.timestamp@);
    let n = text::lower(names.nonce@);
    let s = text::lower(names.signature@);
    a != t && a != n && a != s && t != n && t != s && n != s
}

/// The headers of a signed request say what was written into them.
pub proof fn lemma_signed_headers_read_back(names: SigningHeaders, fields: FieldsModel)
    requires
        are_header_tokens(names),
        are_distinct(names),
        is_visible_text(fields.nonce),
        is_visible_text(fields.signature),
    ensures
        validate::fields_of(signing_headers(names, fields), names) == Some(fields),
{
    let h = signing_headers(names, fields);
    lemma_uuid_text_visible(fields.agent_id);
    lemma_signed_decimal(fields.timestamp_ms);
    ids::lemma_uuid_text_round_trip(fields.agent_id);
    headers::lemma_visible_value(ids::uuid_text(fields.agent_id));
    headers::lemma_visible_value(text::signed_decimal(fields.timestamp_ms as int));
    headers::lemma_visible_value(fields.nonce);
    headers::lemma_visible_value(fields.signature);
    assert(headers::header_str(h, names.agent_id@) == Some(ids::uuid_text(fields.agent_id)));
    assert(headers::header_str(h, names.timestamp@) == Some(
        text::signed_decimal(fields.timestamp_ms as int),
    ));
    assert(headers::header_str(h, names.nonce@) == Some(fields.nonce));
    assert(headers::header_str(h, names.signature@) == Some(fields.signature));
}

/// The name of a header is made of letters, digits and fifteen marks, and is not
/// empty; the quotation mark is none of them.
pub proof fn lemma_header_tokens(name: Seq<char>)
    requires
        name.len() <= 65535,
    ensures
        is_header_token(name) == (name.len() > 0 && forall|i: int|
            0 <= i < name.len() ==> ('a' <= #[trigger] name[i] && name[i] <= 'z') || ('A' <= name[i]
                && name[i] <= 'Z') || ('0' <= name[i] && name[i] <= '9') || seq![
                '!',
                '#',
                '$',
                '%',
                '&',
                '\'',
                '*',
                '+',
                '-',
                '.',
                '^',
                '_',
                '`',
                '|',
                '~',
            ].contains(name[i])),
{
    let marks = seq!['!', '#', '$', '%', '&', '\'', '*', '+', '-', '.', '^', '_', '`', '|', '~'];
    assert(marks[0] == '!' && marks[1] == '#' && marks[2] == '$' && marks[3] == '%' && marks[4]
        == '&' && marks[5] == '\'' && marks[6] == '*' && marks[7] == '+' && marks[8] == '-'
        && marks[9] == '.' && marks[10] == '^' && marks[11] == '_' && marks[12] == '`' && marks[13]
        == '|' && marks[14] == '~');
    let l = text::lower(name);
    assert forall|i: int| 0 <= i < name.len() implies (headers::is_name_char(l[i]) && name[i]
        != '"') == (('a' <= #[trigger] name[i] && name[i] <= 'z') || ('A' <= name[i] && name[i]
        <= 'Z') || ('0' <= name[i] && name[i] <= '9') || marks.contains(name[i])) by {
        text::lemma_lower(name, i);
        if marks.contains(name[i]) {
            let k = choose|k: int| 0 <= k < marks.len() && marks[k] == name[i];
        }
    }
    if is_header_token(name) {
        assert forall|i: int| 0 <= i < name.len() implies ('a' <= #[trigger] name[i] && name[i]
            <= 'z') || ('A' <= name[i] && name[i] <= 'Z') || ('0' <= name[i] && name[i] <= '9')
            || marks.contains(name[i]) by {
            assert(headers::is_name_char(l[i]));
            assert(name.contains(name[i]));
        }
    } else if name.len() > 0 && forall|i: int|
        0 <= i < name.len() ==> ('a' <= #[trigger] name[i] && name[i] <= 'z') || ('A' <= name[i]
            && name[i] <= 'Z') || ('0' <= name[i] && name[i] <= '9') || marks.contains(name[i]) {
        assert forall|i: int| 0 <= i < l.len() implies headers::is_name_char(#[trigger] l[i]) by {
            assert(name[i] == name[i]);
        }
        assert(!name.contains('"')) by {
            if name.contains('"') {
                let k = choose|k: int| 0 <= k < name.len() && name[k] == '"';
                assert(name[k] == '"');
            }
        }
    }
}

} // verus!
