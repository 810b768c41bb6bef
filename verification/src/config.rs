//! The configuration of the proxy, read from its environment.

use vstd::prelude::*;
use vstd::string::*;

use crate::ip;
use crate::ip::IpAddr;
use crate::text;

verus! {

// ---------------------------------------------------------------------------
// Address ranges
// ---------------------------------------------------------------------------

/// A range of IP addresses, which decides when `X-Forwarded-For` is trusted.
#[derive(Clone, Copy, PartialEq, Eq, Structural, Debug)]
pub struct IpCidr {
    pub addr: IpAddr,
    pub prefix_len: u8,
}

/// Why a text is not a range of addresses.
#[derive(PartialEq, Eq, Debug)]
pub enum CidrError {
    /// There is no slash.
    Form,
    /// What stands before the slash is no address.
    Address(String),
    /// What stands after the slash is no number of bits.
    Prefix(String),
    /// The prefix, the longest one for the address, and the address.
    TooLong(u8, u8, IpAddr),
}

/// What a text means as a range of addresses.
pub enum CidrReading {
    Cidr(IpCidr),
    Form,
    Address(Seq<char>),
    Prefix(Seq<char>),
    TooLong(u8, u8, IpAddr),
}

/// How many bits an address of this family has.
pub open spec fn max_prefix(addr: IpAddr) -> u8 {
    match addr {
        IpAddr::V4(_) => 32,
        IpAddr::V6(_) => 128,
    }
}

/// What a text means as a range of addresses: an address, a slash, and a number
/// of bits that the address has.
pub open spec fn cidr_reading(raw: Seq<char>) -> CidrReading {
    match text::split_once(raw, '/') {
        None => CidrReading::Form,
        Some((addr_part, prefix_part)) => match ip::ip_value(addr_part) {
            None => CidrReading::Address(addr_part),
            Some(addr) => match text::unsigned_value(prefix_part, 255) {
                None => CidrReading::Prefix(prefix_part),
                Some(n) => if n > max_prefix(addr) {
                    CidrReading::TooLong(n as u8, max_prefix(addr), addr)
                } else {
                    CidrReading::Cidr(IpCidr { addr, prefix_len: n as u8 })
                },
            },
        },
    }
}

impl CidrError {
    /// The reading that the error reports.
    pub open spec fn reading(self) -> CidrReading {
        match self {
            CidrError::Form => CidrReading::Form,
            CidrError::Address(s) => CidrReading::Address(s@),
            CidrError::Prefix(s) => CidrReading::Prefix(s@),
            CidrError::TooLong(n, max, addr) => CidrReading::TooLong(n, max, addr),
        }
    }
}

/// Two addresses of `width` bits agree in the first `prefix_len` of them.
pub open spec fn same_prefix(a: int, b: int, prefix_len: u8, width: nat) -> bool {
    prefix_len < width ==> a / (vstd::arithmetic::power2::pow2((width - prefix_len) as nat) as int)
        == b / (vstd::arithmetic::power2::pow2((width - prefix_len) as nat) as int)
}

impl IpCidr {
    /// The range holds the address: it is of the same family, and the leading
    /// bits are those of the range.
    pub open spec fn holds(self, addr: IpAddr) -> bool {
        match (self.addr, addr) {
            (IpAddr::V4(network), IpAddr::V4(a)) => if self.prefix_len >= 32 {
                network == a
            } else {
                same_prefix(network as int, a as int, self.prefix_len, 32)
            },
            (IpAddr::V6(network), IpAddr::V6(a)) => if self.prefix_len >= 128 {
                network == a
            } else {
                same_prefix(network as int, a as int, self.prefix_len, 128)
            },
            _ => false,
        }
    }

    /// The range that the text denotes, or why it denotes none.
    pub fn parse(raw: &str) -> (r: Result<Self, CidrError>)
        ensures
            match r {
                Ok(c) => cidr_reading(raw@) == CidrReading::Cidr(c),
                Err(e) => cidr_reading(raw@) == e.reading() && !(e.reading() is Cidr),
            },
    {
        let v = text::chars_of(raw);
        let i: usize = text::first_index_of(&v, '/');
        if i == v.len() {
            return Err(CidrError::Form);
        }
        let addr_part = text::text_of(&v, 0, i);
        let prefix_part = text::text_of(&v, i + 1, v.len());
        assert(addr_part@ =~= raw@.take(i as int));
        assert(prefix_part@ =~= raw@.skip(i + 1));
        let addr = match ip::parse_ip(addr_part.as_str()) {
            Some(a) => a,
            None => {
                return Err(CidrError::Address(addr_part));
            },
        };
        let prefix_len = match text::parse_unsigned(prefix_part.as_str(), 255) {
            Some(n) => n as u8,
            None => {
                return Err(CidrError::Prefix(prefix_part));
            },
        };
        let max: u8 = match addr {
            IpAddr::V4(_) => 32,
            IpAddr::V6(_) => 128,
        };
        if prefix_len > max {
            return Err(CidrError::TooLong(prefix_len, max, addr));
        }
        Ok(IpCidr { addr, prefix_len })
    }

    /// Whether the range holds the address.
    pub fn contains(&self, addr: IpAddr) -> (r: bool)
        ensures
            r == self.holds(addr),
    {
        match (self.addr, addr) {
            (IpAddr::V4(network), IpAddr::V4(a)) => ipv4_in_prefix(network, a, self.prefix_len),
            (IpAddr::V6(network), IpAddr::V6(a)) => ipv6_in_prefix(network, a, self.prefix_len),
            _ => false,
        }
    }
}

fn ipv4_in_prefix(network: u32, addr: u32, prefix_len: u8) -> (r: bool)
    ensures
        r == (if prefix_len >= 32 {
            network == addr
        } else {
            same_prefix(network as int, addr as int, prefix_len, 32)
        }),
{
    if prefix_len == 0 {
        proof {
            vstd::arithmetic::power2::lemma2_to64();
            assert(network as int / 0x1_0000_0000 == 0);
            assert(addr as int / 0x1_0000_0000 == 0);
        }
        return true;
    }
    if prefix_len >= 32 {
        return network == addr;
    }
    let shift: u32 = 32 - (prefix_len as u32);
    proof {
        vstd::bits::lemma_u32_shr_is_div(network, shift);
        vstd::bits::lemma_u32_shr_is_div(addr, shift);
    }
    (network >> shift) == (addr >> shift)
}

fn ipv6_in_prefix(network: u128, addr: u128, prefix_len: u8) -> (r: bool)
    ensures
        r == (if prefix_len >= 128 {
            network == addr
        } else {
            same_prefix(network as int, addr as int, prefix_len, 128)
        }),
{
    if prefix_len == 0 {
        proof {
            vstd::arithmetic::power2::lemma2_to64();
            vstd::arithmetic::power2::lemma_pow2_adds(64, 64);
            assert(0x1_0000_0000_0000_0000 * 0x1_0000_0000_0000_0000
                == 0x1_0000_0000_0000_0000_0000_0000_0000_0000int);
            assert(network as int / 0x1_0000_0000_0000_0000_0000_0000_0000_0000int == 0);
            assert(addr as int / 0x1_0000_0000_0000_0000_0000_0000_0000_0000int == 0);
        }
        return true;
    }
    if prefix_len >= 128 {
        return network == addr;
    }
    let shift: u128 = 128 - (prefix_len as u128);
    proof {
        vstd::bits::lemma_u128_shr_is_div(network, shift);
        vstd::bits::lemma_u128_shr_is_div(addr, shift);
    }
    (network >> shift) == (addr >> shift)
}

/// The ranges that are trusted where none are configured: loopback and private
/// addresses.
pub open spec fn default_cidrs() -> Seq<IpCidr> {
    seq![
        IpCidr { addr: IpAddr::V4(0x7f00_0000), prefix_len: 8 },
        IpCidr { addr: IpAddr::V4(0x0a00_0000), prefix_len: 8 },
        IpCidr { addr: IpAddr::V4(0xac10_0000), prefix_len: 12 },
        IpCidr { addr: IpAddr::V4(0xc0a8_0000), prefix_len: 16 },
        IpCidr { addr: IpAddr::V6(1), prefix_len: 128 },
        IpCidr { addr: IpAddr::V6(0xfc00_0000_0000_0000_0000_0000_0000_0000), prefix_len: 7 },
    ]
}

fn default_trusted_proxy_cidrs() -> (r: Vec<IpCidr>)
    ensures
        r@ == default_cidrs(),
{
    let r = vec![
        IpCidr { addr: IpAddr::V4(0x7f00_0000), prefix_len: 8 },
        IpCidr { addr: IpAddr::V4(0x0a00_0000), prefix_len: 8 },
        IpCidr { addr: IpAddr::V4(0xac10_0000), prefix_len: 12 },
        IpCidr { addr: IpAddr::V4(0xc0a8_0000), prefix_len: 16 },
        IpCidr { addr: IpAddr::V6(1), prefix_len: 128 },
        IpCidr { addr: IpAddr::V6(0xfc00_0000_0000_0000_0000_0000_0000_0000), prefix_len: 7 },
    ];
    assert(r@ =~= default_cidrs());
    r
}

/// The trimmed pieces that are not blank.
pub open spec fn nonblank(pieces: Seq<Seq<char>>) -> Seq<Seq<char>>
    decreases pieces.len(),
{
    if pieces.len() == 0 {
        Seq::<Seq<char>>::empty()
    } else {
        let t = text::trim(pieces.last());
        if t.len() > 0 {
            nonblank(pieces.drop_last()).push(t)
        } else {
            nonblank(pieces.drop_last())
        }
    }
}

/// The ranges that a list configures, or the error of its first bad item: the
/// items stand between commas, and blank ones do not count. A blank list
/// configures the default.
pub open spec fn trusted_cidrs(
    raw: Option<Seq<char>>,
    r: Result<Seq<IpCidr>, CidrReading>,
) -> bool {
    if raw is None || text::trim(raw->0).len() == 0 {
        r == Ok::<Seq<IpCidr>, CidrReading>(default_cidrs())
    } else {
        let parts = nonblank(text::split_on(raw->0, ','));
        match r {
            Ok(v) => v.len() == parts.len() && forall|i: int|
                0 <= i < parts.len() ==> cidr_reading(#[trigger] parts[i]) == CidrReading::Cidr(
                    v[i],
                ),
            Err(e) => exists|i: int|
                0 <= i < parts.len() && cidr_reading(#[trigger] parts[i]) == e && !(e is Cidr)
                    && forall|j: int|
                    0 <= j < i ==> cidr_reading(#[trigger] parts[j]) is Cidr,
        }
    }
}

/// The ranges or the reading of an error, as plain values.
pub open spec fn cidrs_view(r: Result<Vec<IpCidr>, CidrError>) -> Result<Seq<IpCidr>, CidrReading> {
    match r {
        Ok(v) => Ok(v@),
        Err(e) => Err(e.reading()),
    }
}

/// The ranges that the list configures.
pub fn parse_trusted_proxy_cidrs(raw: &Option<String>) -> (r: Result<Vec<IpCidr>, CidrError>)
    ensures
        trusted_cidrs(text::opt(*raw), cidrs_view(r)),
{
    let list = match raw {
        Some(s) => s,
        None => {
            return Ok(default_trusted_proxy_cidrs());
        },
    };
    let trimmed = text::trim_text(list.as_str());
    let first = text::chars_of(trimmed.as_str());
    if first.len() == 0 {
        return Ok(default_trusted_proxy_cidrs());
    }
    let v = text::chars_of(list.as_str());
    let pieces = text::split_chars(&v, ',');
    let ghost all = text::split_on(list@, ',');
    let ghost parts = nonblank(all);
    let mut out: Vec<IpCidr> = Vec::new();
    let mut i: usize = 0;
    assert(text::pieces(pieces@) == all);
    assert(all.take(0) =~= Seq::<Seq<char>>::empty());
    while i < pieces.len()
        invariant
            i <= pieces@.len(),
            text::pieces(pieces@) == all,
            parts == nonblank(all),
            raw matches Some(s) && all == text::split_on(s@, ',') && text::trim(s@).len() > 0,
            out@.len() == nonblank(all.take(i as int)).len(),
            nonblank(all.take(i as int)).is_prefix_of(parts),
            forall|j: int|
                0 <= j < out@.len() ==> cidr_reading(#[trigger] parts[j]) == CidrReading::Cidr(
                    out@[j],
                ),
        decreases pieces@.len() - i,
    {
        let ghost before = nonblank(all.take(i as int));
        let part = text::trim_chars(&pieces[i]);
        assert(all[i as int] == pieces@[i as int]@);
        assert(all.take(i + 1).drop_last() =~= all.take(i as int));
        assert(all.take(i + 1).last() == all[i as int]);
        let chars = text::chars_of(part.as_str());
        proof {
            lemma_nonblank_prefix(all, i + 1);
        }
        if chars.len() > 0 {
            let ghost now = nonblank(all.take(i + 1));
            assert(now == before.push(part@));
            assert(now.is_prefix_of(parts));
            assert(parts[before.len() as int] == now[before.len() as int]);
            match IpCidr::parse(part.as_str()) {
                Ok(c) => {
                    out.push(c);
                },
                Err(e) => {
                    return Err(e);
                },
            }
        }
        i = i + 1;
    }
    assert(all.take(i as int) =~= all);
    Ok(out)
}

proof fn lemma_nonblank_prefix(pieces: Seq<Seq<char>>, n: int)
    requires
        0 <= n <= pieces.len(),
    ensures
        nonblank(pieces.take(n)).is_prefix_of(nonblank(pieces)),
    decreases pieces.len(),
{
    if n == pieces.len() {
        assert(pieces.take(n) =~= pieces);
    } else {
        lemma_nonblank_prefix(pieces.drop_last(), n);
        assert(pieces.drop_last().take(n) =~= pieces.take(n));
    }
}

impl CidrError {
    /// What the error says.
    pub open spec fn says(self) -> Seq<char> {
        match self {
            CidrError::Form => "CIDR must be in address/prefix form"@,
            CidrError::Address(s) => "invalid CIDR address: "@ + s@,
            CidrError::Prefix(s) => "invalid CIDR prefix: "@ + s@,
            CidrError::TooLong(n, max, addr) => "CIDR prefix "@ + text::decimal(n as nat)
                + " exceeds max "@ + text::decimal(max as nat) + " for "@ + ip::ip_text(addr),
        }
    }

    /// What the error says.
    pub fn message(&self) -> (r: String)
        ensures
            r@ == self.says(),
    {
        match self {
            CidrError::Form => "CIDR must be in address/prefix form".to_owned(),
            CidrError::Address(s) => text::join("invalid CIDR address: ", s.as_str()),
            CidrError::Prefix(s) => text::join("invalid CIDR prefix: ", s.as_str()),
            CidrError::TooLong(n, max, addr) => {
                let mut s = "CIDR prefix ".to_owned();
                let n_text = text::decimal_text(*n as u64);
                s.append(n_text.as_str());
                s.append(" exceeds max ");
                let max_text = text::decimal_text(*max as u64);
                s.append(max_text.as_str());
                s.append(" for ");
                let addr_text = addr.to_text();
                s.append(addr_text.as_str());
                s
            },
        }
    }
}

// ---------------------------------------------------------------------------
// The address of the server
// ---------------------------------------------------------------------------

/// The scheme of a URL and its host, where it has one; none where the text is
/// no URL.
pub uninterp spec fn url_parts(s: Seq<char>) -> Option<(Seq<char>, Option<Seq<char>>)>;

/// A URL's scheme and host as plain values.
pub open spec fn parts_view(
    parts: Option<(String, Option<String>)>,
) -> Option<(Seq<char>, Option<Seq<char>>)> {
    match parts {
        Some((scheme, host)) => Some((scheme@, text::opt(host))),
        None => None,
    }
}

/// `Url::parse`, `Url::scheme` and `Url::host_str`: scheme and host are
/// functions of the text.
#[verifier::external_body]
fn parse_url(raw: &str) -> (r: Option<(String, Option<String>)>)
    ensures
        parts_view(r) == url_parts(raw@),
{
    let url = reqwest::Url::parse(raw).ok()?;
    Some((url.scheme().to_string(), url.host_str().map(|h| h.to_string())))
}

/// Why a text is not an address at which the server may be reached.
#[derive(Clone, Copy, PartialEq, Eq, Structural, Debug)]
pub enum UpstreamError {
    /// It is no URL.
    Invalid,
    /// Its scheme is neither `http` nor `https`.
    Scheme,
    /// It is not encrypted, and the host is not this machine.
    Plain,
}

/// The host is this machine, or the machine that runs the container.
pub open spec fn is_local_host(host: Seq<char>) -> bool {
    let h = text::lower(host);
    ||| h == "localhost"@
    ||| h == "127.0.0.1"@
    ||| h == "::1"@
    ||| h == "[::1]"@
    ||| h == "host.docker.internal"@
    ||| ".localhost"@.is_suffix_of(h)
}

/// What is wrong with a URL of the given scheme and host: the server is reached
/// over HTTPS, and over plain HTTP only on this machine.
pub open spec fn upstream_fault(
    parts: Option<(Seq<char>, Option<Seq<char>>)>,
) -> Option<UpstreamError> {
    match parts {
        None => Some(UpstreamError::Invalid),
        Some((scheme, host)) => if scheme == "https"@ {
            None
        } else if scheme == "http"@ {
            if host is Some && is_local_host(host->0) {
                None
            } else {
                Some(UpstreamError::Plain)
            }
        } else {
            Some(UpstreamError::Scheme)
        },
    }
}

/// Whether the server may be reached at a URL of the given scheme and host.
pub fn check_upstream(parts: &Option<(String, Option<String>)>) -> (r: Result<(), UpstreamError>)
    ensures
        match r {
            Ok(_) => upstream_fault(parts_view(*parts)) is None,
            Err(e) => upstream_fault(parts_view(*parts)) == Some(e),
        },
{
    match parts {
        None => Err(UpstreamError::Invalid),
        Some((scheme, host)) => {
            if text::same_text(scheme.as_str(), "https") {
                Ok(())
            } else if text::same_text(scheme.as_str(), "http") {
                let name = text::text_or(host, "");
                let lower = text::to_lower(name.as_str());
                let h = lower.as_str();
                proof {
                    lemma_no_host_is_not_local();
                }
                if text::same_text(h, "localhost") || text::same_text(h, "127.0.0.1")
                    || text::same_text(h, "::1") || text::same_text(h, "[::1]")
                    || text::same_text(h, "host.docker.internal") || text::ends_with(h, ".localhost") {
                    Ok(())
                } else {
                    Err(UpstreamError::Plain)
                }
            } else {
                Err(UpstreamError::Scheme)
            }
        },
    }
}

proof fn lemma_no_host_is_not_local()
    ensures
        !is_local_host(""@),
{
    reveal_strlit("");
    reveal_strlit("localhost");
    reveal_strlit("127.0.0.1");
    reveal_strlit("::1");
    reveal_strlit("[::1]");
    reveal_strlit("host.docker.internal");
    reveal_strlit(".localhost");
    assert(text::lower(""@).len() == 0);
    assert("localhost"@.len() == 9);
    assert("127.0.0.1"@.len() == 9);
    assert("::1"@.len() == 3);
    assert("[::1]"@.len() == 5);
    assert("host.docker.internal"@.len() == 20);
}

/// Whether the server may be reached at the URL `raw`.
pub fn validate_upstream_hecate_url(raw: &str) -> (r: Result<(), UpstreamError>)
    ensures
        match r {
            Ok(_) => upstream_fault(url_parts(raw@)) is None,
            Err(e) => upstream_fault(url_parts(raw@)) == Some(e),
        },
{
    let parts = parse_url(raw);
    check_upstream(&parts)
}

// ---------------------------------------------------------------------------
// The reported host name
// ---------------------------------------------------------------------------

/// The host name that a file holds: its first line without the white space at
/// the ends, where anything is left.
pub open spec fn hostname_in(contents: Seq<char>) -> Option<Seq<char>> {
    let line = text::trim(contents.take(text::first_index(contents, '\n')));
    if line.len() > 0 {
        Some(line)
    } else {
        None
    }
}

/// The host name that a file with these contents holds.
pub fn read_hostname_file(contents: &str) -> (r: Option<String>)
    ensures
        text::opt(r) == hostname_in(contents@),
{
    let v = text::chars_of(contents);
    let end: usize = text::first_index_of(&v, '\n');
    let line = text::text_of(&v, 0, end);
    assert(line@ =~= contents@.take(end as int));
    let trimmed = text::trim_text(line.as_str());
    let chars = text::chars_of(trimmed.as_str());
    if chars.len() == 0 {
        None
    } else {
        Some(trimmed)
    }
}

/// The host name that is reported to the server: that of the file, else that of
/// the environment, else that of the system, else a fixed one.
pub open spec fn reported_hostname(
    file: Option<Seq<char>>,
    variable: Option<Seq<char>>,
    system: Option<Seq<char>>,
) -> Seq<char> {
    if file is Some && hostname_in(file->0) is Some {
        hostname_in(file->0)->0
    } else if variable is Some && text::trim(variable->0).len() > 0 {
        text::trim(variable->0)
    } else if system is Some && system->0.len() > 0 {
        system->0
    } else {
        "propylaea"@
    }
}

/// The host name that is reported to the server, given the contents of the
/// mounted file, the variable of the environment and the name of the system.
pub fn resolve_reported_hostname(
    file: &Option<String>,
    variable: &Option<String>,
    system: &Option<String>,
) -> (r: String)
    ensures
        r@ == reported_hostname(text::opt(*file), text::opt(*variable), text::opt(*system)),
{
    match file {
        Some(contents) => match read_hostname_file(contents.as_str()) {
            Some(host) => {
                return host;
            },
            None => {},
        },
        None => {},
    }
    match variable {
        Some(value) => {
            let trimmed = text::trim_text(value.as_str());
            let chars = text::chars_of(trimmed.as_str());
            if chars.len() > 0 {
                return trimmed;
            }
        },
        None => {},
    }
    match system {
        Some(name) => {
            let chars = text::chars_of(name.as_str());
            if chars.len() > 0 {
                return name.clone();
            }
        },
        None => {},
    }
    "propylaea".to_owned()
}

// ---------------------------------------------------------------------------
// The configuration
// ---------------------------------------------------------------------------

/// What the environment of the process says: its variables, the contents of
/// the mounted host name file, the host name of the system, and whether the
/// build allows to skip the verification of certificates.
pub struct Environment {
    pub upstream_hecate_url: Option<String>,
    pub api_key_pepper: Option<String>,
    pub insecure_skip_tls_verify: Option<String>,
    pub bind_addr: Option<String>,
    pub proxy_key_path: Option<String>,
    pub proxy_id_path: Option<String>,
    pub proxy_enrollment_token: Option<String>,
    pub sync_interval_secs: Option<String>,
    pub heartbeat_interval_secs: Option<String>,
    pub cache_enabled: Option<String>,
    pub cache_dir: Option<String>,
    pub cache_max_bytes: Option<String>,
    pub trusted_proxy_cidrs: Option<String>,
    pub propylaea_hostname: Option<String>,
    pub host_hostname_file: Option<String>,
    pub system_hostname: Option<String>,
    pub dangerous: bool,
}

/// The configuration of the proxy.
#[derive(Debug)]
pub struct Config {
    pub bind_addr: String,
    pub upstream_hecate_url: String,
    pub api_key_pepper: String,
    pub key_path: String,
    pub proxy_id_path: String,
    pub enrollment_token: Option<String>,
    /// The host name that is reported to the server.
    pub reported_hostname: String,
    pub sync_interval_secs: u64,
    pub heartbeat_interval_secs: u64,
    pub insecure_skip_tls_verify: bool,
    pub cache_enabled: bool,
    pub cache_dir: String,
    pub cache_max_bytes: u64,
    /// The peers whose `X-Forwarded-For` is believed.
    pub trusted_proxy_cidrs: Vec<IpCidr>,
}

/// The configuration as plain values.
pub struct ConfigModel {
    pub bind_addr: Seq<char>,
    pub upstream_hecate_url: Seq<char>,
    pub api_key_pepper: Seq<char>,
    pub key_path: Seq<char>,
    pub proxy_id_path: Seq<char>,
    pub enrollment_token: Option<Seq<char>>,
    pub reported_hostname: Seq<char>,
    pub sync_interval_secs: u64,
    pub heartbeat_interval_secs: u64,
    pub insecure_skip_tls_verify: bool,
    pub cache_enabled: bool,
    pub cache_dir: Seq<char>,
    pub cache_max_bytes: u64,
    pub trusted_proxy_cidrs: Seq<IpCidr>,
}

impl View for Config {
    type V = ConfigModel;

    open spec fn view(&self) -> ConfigModel {
        ConfigModel {
            bind_addr: self.bind_addr@,
            upstream_hecate_url: self.upstream_hecate_url@,
            api_key_pepper: self.api_key_pepper@,
            key_path: self.key_path@,
            proxy_id_path: self.proxy_id_path@,
            enrollment_token: text::opt(self.enrollment_token),
            reported_hostname: self.reported_hostname@,
            sync_interval_secs: self.sync_interval_secs,
            heartbeat_interval_secs: self.heartbeat_interval_secs,
            insecure_skip_tls_verify: self.insecure_skip_tls_verify,
            cache_enabled: self.cache_enabled,
            cache_dir: self.cache_dir@,
            cache_max_bytes: self.cache_max_bytes,
            trusted_proxy_cidrs: self.trusted_proxy_cidrs@,
        }
    }
}

impl Clone for Config {
    fn clone(&self) -> (r: Self)
        ensures
            r@ == self@,
    {
        let r = Config {
            bind_addr: self.bind_addr.clone(),
            upstream_hecate_url: self.upstream_hecate_url.clone(),
            api_key_pepper: self.api_key_pepper.clone(),
            key_path: self.key_path.clone(),
            proxy_id_path: self.proxy_id_path.clone(),
            enrollment_token: text::copy_opt(&self.enrollment_token),
            reported_hostname: self.reported_hostname.clone(),
            sync_interval_secs: self.sync_interval_secs,
            heartbeat_interval_secs: self.heartbeat_interval_secs,
            insecure_skip_tls_verify: self.insecure_skip_tls_verify,
            cache_enabled: self.cache_enabled,
            cache_dir: self.cache_dir.clone(),
            cache_max_bytes: self.cache_max_bytes,
            trusted_proxy_cidrs: self.trusted_proxy_cidrs.clone(),
        };
        assert(r.trusted_proxy_cidrs@ =~= self.trusted_proxy_cidrs@);
        r
    }
}

/// Why the environment configures no proxy.
#[derive(PartialEq, Eq, Debug)]
pub enum ConfigError {
    UpstreamMissing,
    UpstreamEmpty,
    Upstream(UpstreamError),
    PepperMissing,
    /// The pepper has fewer than sixteen bytes.
    PepperShort,
    /// Certificates are verified in every build but those made for danger.
    InsecureRefused,
    TrustedProxies(CidrError),
}

/// Why the environment configures no proxy, as plain values.
pub enum ConfigFault {
    UpstreamMissing,
    UpstreamEmpty,
    Upstream(UpstreamError),
    PepperMissing,
    PepperShort,
    InsecureRefused,
    TrustedProxies(CidrReading),
}

impl ConfigError {
    /// The fault that the error reports.
    pub open spec fn fault(self) -> ConfigFault {
        match self {
            ConfigError::UpstreamMissing => ConfigFault::UpstreamMissing,
            ConfigError::UpstreamEmpty => ConfigFault::UpstreamEmpty,
            ConfigError::Upstream(e) => ConfigFault::Upstream(e),
            ConfigError::PepperMissing => ConfigFault::PepperMissing,
            ConfigError::PepperShort => ConfigFault::PepperShort,
            ConfigError::InsecureRefused => ConfigFault::InsecureRefused,
            ConfigError::TrustedProxies(e) => ConfigFault::TrustedProxies(e.reading()),
        }
    }

    /// What the error says.
    pub open spec fn says(self) -> Seq<char> {
        match self {
            ConfigError::UpstreamMissing => "UPSTREAM_HECATE_URL is required"@,
            ConfigError::UpstreamEmpty => "UPSTREAM_HECATE_URL must not be empty"@,
            ConfigError::Upstream(UpstreamError::Invalid) =>
                "UPSTREAM_HECATE_URL is not a valid URL"@,
            ConfigError::Upstream(UpstreamError::Scheme) =>
                "UPSTREAM_HECATE_URL must be http or https"@,
            ConfigError::Upstream(UpstreamError::Plain) =>
                "UPSTREAM_HECATE_URL must use HTTPS unless the host is loopback or host.docker.internal"@,
            ConfigError::PepperMissing => "API_KEY_PEPPER is required"@,
            ConfigError::PepperShort => "API_KEY_PEPPER must be at least 16 characters"@,
            ConfigError::InsecureRefused =>
                "INSECURE_SKIP_TLS_VERIFY requires building with --features dangerous"@,
            ConfigError::TrustedProxies(e) => e.says(),
        }
    }

    /// What the error says.
    pub fn message(&self) -> (r: String)
        ensures
            r@ == self.says(),
    {
        match self {
            ConfigError::UpstreamMissing => "UPSTREAM_HECATE_URL is required".to_owned(),
            ConfigError::UpstreamEmpty => "UPSTREAM_HECATE_URL must not be empty".to_owned(),
            ConfigError::Upstream(UpstreamError::Invalid) =>
                "UPSTREAM_HECATE_URL is not a valid URL".to_owned(),
            ConfigError::Upstream(UpstreamError::Scheme) =>
                "UPSTREAM_HECATE_URL must be http or https".to_owned(),
            ConfigError::Upstream(UpstreamError::Plain) =>
                "UPSTREAM_HECATE_URL must use HTTPS unless the host is loopback or host.docker.internal".to_owned(),
            ConfigError::PepperMissing => "API_KEY_PEPPER is required".to_owned(),
            ConfigError::PepperShort => "API_KEY_PEPPER must be at least 16 characters".to_owned(),
            ConfigError::InsecureRefused =>
                "INSECURE_SKIP_TLS_VERIFY requires building with --features dangerous".to_owned(),
            ConfigError::TrustedProxies(e) => e.message(),
        }
    }
}

/// The value, or a default where there is none.
pub open spec fn or_text(value: Option<Seq<char>>, default: Seq<char>) -> Seq<char> {
    match value {
        Some(v) => v,
        None => default,
    }
}

/// The number that the value denotes, or a default where it denotes none.
pub open spec fn or_number(value: Option<Seq<char>>, default: u64) -> u64 {
    match value {
        Some(v) => match text::unsigned_value(v, u64::MAX as nat) {
            Some(n) => n as u64,
            None => default,
        },
        None => default,
    }
}

/// The value asks to skip the verification of certificates.
pub open spec fn asks_insecure(value: Option<Seq<char>>) -> bool {
    value matches Some(v) && (v == "1"@ || text::lower(v) == "true"@)
}

/// The value leaves the cache on.
pub open spec fn leaves_cache_on(value: Option<Seq<char>>) -> bool {
    value matches Some(v) ==> v != "0"@ && text::lower(v) != "false"@
}

/// The value, where it is not empty.
pub open spec fn not_empty(value: Option<Seq<char>>) -> Option<Seq<char>> {
    if value is Some && value->0.len() > 0 {
        value
    } else {
        None
    }
}

/// The configuration that a sound environment stands for.
pub open spec fn config_of(env: Environment, trusted: Seq<IpCidr>) -> ConfigModel {
    ConfigModel {
        bind_addr: or_text(text::opt(env.bind_addr), "0.0.0.0:8080"@),
        upstream_hecate_url: text::trim_end_char(env.upstream_hecate_url->0@, '/'),
        api_key_pepper: env.api_key_pepper->0@,
        key_path: or_text(
            text::opt(env.proxy_key_path),
            "/var/lib/hecate-propylaea/proxy.key"@,
        ),
        proxy_id_path: or_text(
            text::opt(env.proxy_id_path),
            "/var/lib/hecate-propylaea/proxy_id"@,
        ),
        enrollment_token: not_empty(text::opt(env.proxy_enrollment_token)),
        reported_hostname: reported_hostname(
            text::opt(env.host_hostname_file),
            text::opt(env.propylaea_hostname),
            text::opt(env.system_hostname),
        ),
        sync_interval_secs: or_number(text::opt(env.sync_interval_secs), 30),
        heartbeat_interval_secs: or_number(text::opt(env.heartbeat_interval_secs), 60),
        insecure_skip_tls_verify: asks_insecure(text::opt(env.insecure_skip_tls_verify)),
        cache_enabled: leaves_cache_on(text::opt(env.cache_enabled)),
        cache_dir: or_text(text::opt(env.cache_dir), "/var/lib/hecate-propylaea/cache"@),
        cache_max_bytes: or_number(text::opt(env.cache_max_bytes), 0x1_0000_0000),
        trusted_proxy_cidrs: trusted,
    }
}

/// What is wrong with the environment, the trusted ranges apart.
pub open spec fn plain_fault(env: Environment) -> Option<ConfigFault> {
    let url = text::opt(env.upstream_hecate_url);
    let pepper = text::opt(env.api_key_pepper);
    if url is None {
        Some(ConfigFault::UpstreamMissing)
    } else {
        let upstream = text::trim_end_char(url->0, '/');
        if upstream.len() == 0 {
            Some(ConfigFault::UpstreamEmpty)
        } else if upstream_fault(url_parts(upstream)) is Some {
            Some(ConfigFault::Upstream(upstream_fault(url_parts(upstream))->0))
        } else if pepper is None {
            Some(ConfigFault::PepperMissing)
        } else if vstd::utf8::encode_utf8(pepper->0).len() < 16 {
            Some(ConfigFault::PepperShort)
        } else if asks_insecure(text::opt(env.insecure_skip_tls_verify)) && !env.dangerous {
            Some(ConfigFault::InsecureRefused)
        } else {
            None
        }
    }
}

/// The environment stands for `r`: a configuration, or the first fault.
pub open spec fn configures(env: Environment, r: Result<ConfigModel, ConfigFault>) -> bool {
    match plain_fault(env) {
        Some(f) => r == Err::<ConfigModel, ConfigFault>(f),
        None => exists|c: Result<Seq<IpCidr>, CidrReading>| #[trigger]
            trusted_cidrs(text::opt(env.trusted_proxy_cidrs), c) && match c {
                Ok(v) => r == Ok::<ConfigModel, ConfigFault>(config_of(env, v)),
                Err(e) => r == Err::<ConfigModel, ConfigFault>(ConfigFault::TrustedProxies(e)),
            },
    }
}

/// The configuration or the fault, as plain values.
pub open spec fn config_view(r: Result<Config, ConfigError>) -> Result<ConfigModel, ConfigFault> {
    match r {
        Ok(c) => Ok(c@),
        Err(e) => Err(e.fault()),
    }
}

fn number_or(value: &Option<String>, default: u64) -> (r: u64)
    ensures
        r == or_number(text::opt(*value), default),
{
    match value {
        Some(v) => match text::parse_unsigned(v.as_str(), u64::MAX) {
            Some(n) => n,
            None => default,
        },
        None => default,
    }
}

fn insecure_asked(value: &Option<String>) -> (r: bool)
    ensures
        r == asks_insecure(text::opt(*value)),
{
    match value {
        Some(v) => {
            let lower = text::to_lower(v.as_str());
            text::same_text(v.as_str(), "1") || text::same_text(lower.as_str(), "true")
        },
        None => false,
    }
}

fn cache_left_on(value: &Option<String>) -> (r: bool)
    ensures
        r == leaves_cache_on(text::opt(*value)),
{
    match value {
        Some(v) => {
            let lower = text::to_lower(v.as_str());
            !text::same_text(v.as_str(), "0") && !text::same_text(lower.as_str(), "false")
        },
        None => true,
    }
}

fn nonempty_text(value: &Option<String>) -> (r: Option<String>)
    ensures
        text::opt(r) == not_empty(text::opt(*value)),
{
    match value {
        Some(v) => {
            let chars = text::chars_of(v.as_str());
            if chars.len() > 0 {
                Some(v.clone())
            } else {
                None
            }
        },
        None => None,
    }
}

impl Config {
    /// The configuration that the environment stands for, or the first fault.
    pub fn from_env(env: &Environment) -> (r: Result<Self, ConfigError>)
        ensures
            configures(*env, config_view(r)),
    {
        let upstream = match &env.upstream_hecate_url {
            Some(url) => text::trim_end_of(url.as_str(), '/'),
            None => {
                return Err(ConfigError::UpstreamMissing);
            },
        };
        let upstream_chars = text::chars_of(upstream.as_str());
        if upstream_chars.len() == 0 {
            return Err(ConfigError::UpstreamEmpty);
        }
        match validate_upstream_hecate_url(upstream.as_str()) {
            Ok(_) => {},
            Err(e) => {
                return Err(ConfigError::Upstream(e));
            },
        }
        let pepper = match &env.api_key_pepper {
            Some(p) => p.clone(),
            None => {
                return Err(ConfigError::PepperMissing);
            },
        };
        if pepper.as_str().as_bytes().len() < 16 {
            return Err(ConfigError::PepperShort);
        }
        let insecure = insecure_asked(&env.insecure_skip_tls_verify);
        if insecure && !env.dangerous {
            return Err(ConfigError::InsecureRefused);
        }
        let cidrs = parse_trusted_proxy_cidrs(&env.trusted_proxy_cidrs);
        let ghost read = cidrs_view(cidrs);
        assert(trusted_cidrs(text::opt(env.trusted_proxy_cidrs), read));
        let trusted = match cidrs {
            Ok(v) => v,
            Err(e) => {
                return Err(ConfigError::TrustedProxies(e));
            },
        };
        let config = Config {
            bind_addr: text::text_or(&env.bind_addr, "0.0.0.0:8080"),
            upstream_hecate_url: upstream,
            api_key_pepper: pepper,
            key_path: text::text_or(&env.proxy_key_path, "/var/lib/hecate-propylaea/proxy.key"),
            proxy_id_path: text::text_or(&env.proxy_id_path, "/var/lib/hecate-propylaea/proxy_id"),
            enrollment_token: nonempty_text(&env.proxy_enrollment_token),
            reported_hostname: resolve_reported_hostname(
                &env.host_hostname_file,
                &env.propylaea_hostname,
                &env.system_hostname,
            ),
            sync_interval_secs: number_or(&env.sync_interval_secs, 30),
            heartbeat_interval_secs: number_or(&env.heartbeat_interval_secs, 60),
            insecure_skip_tls_verify: insecure,
            cache_enabled: cache_left_on(&env.cache_enabled),
            cache_dir: text::text_or(&env.cache_dir, "/var/lib/hecate-propylaea/cache"),
            cache_max_bytes: number_or(&env.cache_max_bytes, 0x1_0000_0000),
            trusted_proxy_cidrs: trusted,
        };
        assert(config@ == config_of(*env, trusted@));
        Ok(config)
    }
}

proof fn lemma_trimmed_end(s: Seq<char>, c: char)
    ensures
        text::trim_end_char(s, c).len() > 0 ==> text::trim_end_char(s, c).last() != c,
    decreases s.len(),
{
    if s.len() > 0 && s.last() == c {
        lemma_trimmed_end(s.drop_last(), c);
    }
}

/// A configuration that is accepted reaches the server over HTTPS, or on this
/// machine; the address of the server does not end with a slash; the pepper has
/// sixteen bytes or more; and certificates go unverified only in a build that
/// allows it.
pub proof fn lemma_config_sound(env: Environment, c: ConfigModel)
    requires
        configures(env, Ok::<ConfigModel, ConfigFault>(c)),
    ensures
        url_parts(c.upstream_hecate_url) matches Some((scheme, host)) && (scheme == "https"@ || (
        scheme == "http"@ && host is Some && is_local_host(host->0))),
        c.upstream_hecate_url.len() > 0,
        c.upstream_hecate_url.last() != '/',
        vstd::utf8::encode_utf8(c.api_key_pepper).len() >= 16,
        c.insecure_skip_tls_verify ==> env.dangerous,
{
    lemma_trimmed_end(env.upstream_hecate_url->0@, '/');
}

// ---------------------------------------------------------------------------
// What the configuration promises
// ---------------------------------------------------------------------------

/// Numbers that agree in all but their last bits lie in one block whose length is
/// a power of two.
proof fn lemma_block(network: int, a: int, size: int)
    requires
        size > 0,
    ensures
        (network / size == a / size) == (network - network % size <= a < network - network % size
            + size),
{
    let q = network / size;
    let p = a / size;
    vstd::arithmetic::div_mod::lemma_fundamental_div_mod(network, size);
    vstd::arithmetic::div_mod::lemma_fundamental_div_mod(a, size);
    vstd::arithmetic::div_mod::lemma_mod_bound(network, size);
    vstd::arithmetic::div_mod::lemma_mod_bound(a, size);
    let base = size * q;
    assert(network - network % size == base);
    assert(a - a % size == size * p);
    if q != p {
        if q < p {
            assert(size * p >= size * q + size) by (nonlinear_arith)
                requires
                    p >= q + 1,
                    size > 0,
            ;
        } else {
            assert(size * q >= size * p + size) by (nonlinear_arith)
                requires
                    q >= p + 1,
                    size > 0,
            ;
        }
    }
}

/// A range holds the addresses of its own family that lie in one block: as many as
/// the bits that are left open can tell apart, from that on which has the leading
/// bits of the range and zeros after them.
pub proof fn lemma_range_is_a_block(c: IpCidr, addr: IpAddr)
    requires
        c.prefix_len <= max_prefix(c.addr),
    ensures
        match (c.addr, addr) {
            (IpAddr::V4(network), IpAddr::V4(a)) => {
                let size = vstd::arithmetic::power2::pow2((32 - c.prefix_len) as nat);
                c.holds(addr) == (network - network as int % (size as int) <= a < network
                    - network as int % (size as int) + size)
            },
            (IpAddr::V6(network), IpAddr::V6(a)) => {
                let size = vstd::arithmetic::power2::pow2((128 - c.prefix_len) as nat);
                c.holds(addr) == (network - network as int % (size as int) <= a < network
                    - network as int % (size as int) + size)
            },
            _ => !c.holds(addr),
        },
{
    vstd::arithmetic::power2::lemma2_to64();
    match (c.addr, addr) {
        (IpAddr::V4(network), IpAddr::V4(a)) => {
            let size = vstd::arithmetic::power2::pow2((32 - c.prefix_len) as nat) as int;
            vstd::arithmetic::power2::lemma_pow2_pos((32 - c.prefix_len) as nat);
            lemma_block(network as int, a as int, size);
        },
        (IpAddr::V6(network), IpAddr::V6(a)) => {
            let size = vstd::arithmetic::power2::pow2((128 - c.prefix_len) as nat) as int;
            vstd::arithmetic::power2::lemma_pow2_pos((128 - c.prefix_len) as nat);
            lemma_block(network as int, a as int, size);
        },
        _ => {},
    }
}

/// The default ranges hold the loopback addresses and the private ones, of both
/// families, and no others.
pub proof fn lemma_default_ranges(addr: IpAddr)
    ensures
        (exists|i: int| 0 <= i < default_cidrs().len() && (#[trigger] default_cidrs()[i]).holds(addr))
            == (match addr {
            IpAddr::V4(n) => 0x7f00_0000 <= n <= 0x7fff_ffff || 0x0a00_0000 <= n <= 0x0aff_ffff
                || 0xac10_0000 <= n <= 0xac1f_ffff || 0xc0a8_0000 <= n <= 0xc0a8_ffff,
            IpAddr::V6(n) => n == 1 || 0xfc00_0000_0000_0000_0000_0000_0000_0000 <= n
                <= 0xfdff_ffff_ffff_ffff_ffff_ffff_ffff_ffff,
        }),
{
    let d = default_cidrs();
    vstd::arithmetic::power2::lemma2_to64();
    vstd::arithmetic::power2::lemma_pow2_adds(64, 32);
    vstd::arithmetic::power2::lemma_pow2_adds(96, 25);
    assert(vstd::arithmetic::power2::pow2(96) == 0x1_0000_0000_0000_0000_0000_0000);
    assert(vstd::arithmetic::power2::pow2(121) == 0x200_0000_0000_0000_0000_0000_0000_0000);
    lemma_range_is_a_block(d[0], addr);
    lemma_range_is_a_block(d[1], addr);
    lemma_range_is_a_block(d[2], addr);
    lemma_range_is_a_block(d[3], addr);
    lemma_range_is_a_block(d[4], addr);
    lemma_range_is_a_block(d[5], addr);
    assert(d.len() == 6);
    match addr {
        IpAddr::V4(n) => {
            assert(d[0].holds(addr) == (0x7f00_0000 <= n <= 0x7fff_ffff));
            assert(d[1].holds(addr) == (0x0a00_0000 <= n <= 0x0aff_ffff));
            assert(d[2].holds(addr) == (0xac10_0000 <= n <= 0xac1f_ffff));
            assert(d[3].holds(addr) == (0xc0a8_0000 <= n <= 0xc0a8_ffff));
            assert(!d[4].holds(addr) && !d[5].holds(addr));
        },
        IpAddr::V6(n) => {
            assert(d[4].holds(addr) == (n == 1));
            assert(d[5].holds(addr) == (0xfc00_0000_0000_0000_0000_0000_0000_0000 <= n
                <= 0xfdff_ffff_ffff_ffff_ffff_ffff_ffff_ffff));
            assert(!d[0].holds(addr) && !d[1].holds(addr) && !d[2].holds(addr)
                && !d[3].holds(addr));
        },
    }
}

/// An address, a slash and a number is a range, as long as the address has so many
/// bits; what has no slash, or no address before it, or no number after it, is
/// none, and the error says which.
pub proof fn lemma_cidr_reading(a: Seq<char>, rest: Seq<char>, n: u8)
    requires
        !a.contains('/'),
    ensures
        cidr_reading(a) == CidrReading::Form,
        ip::ip_value(a) is None ==> cidr_reading(a + seq!['/'] + rest) == CidrReading::Address(a),
        ip::ip_value(a) is Some && text::unsigned_value(rest, 255) is None ==> cidr_reading(
            a + seq!['/'] + rest,
        ) == CidrReading::Prefix(rest),
        ip::ip_value(a) matches Some(IpAddr::V4(x)) ==> cidr_reading(
            a + seq!['/'] + text::decimal(n as nat),
        ) == (if n <= 32 {
            CidrReading::Cidr(IpCidr { addr: IpAddr::V4(x), prefix_len: n })
        } else {
            CidrReading::TooLong(n, 32, IpAddr::V4(x))
        }),
        ip::ip_value(a) matches Some(IpAddr::V6(x)) ==> cidr_reading(
            a + seq!['/'] + text::decimal(n as nat),
        ) == (if n <= 128 {
            CidrReading::Cidr(IpCidr { addr: IpAddr::V6(x), prefix_len: n })
        } else {
            CidrReading::TooLong(n, 128, IpAddr::V6(x))
        }),
{
    text::lemma_split_once(a, rest, '/');
    text::lemma_split_once(a, text::decimal(n as nat), '/');
    text::lemma_unsigned(n as nat, 255, rest);
}

/// Of two lists of items in a row the items of both count, in their order; a blank
/// item does not count, and any other counts without the white space around it.
pub proof fn lemma_nonblank(a: Seq<Seq<char>>, b: Seq<Seq<char>>, item: Seq<char>)
    ensures
        nonblank(a + b) == nonblank(a) + nonblank(b),
        text::is_blank(item) ==> nonblank(seq![item]) == Seq::<Seq<char>>::empty(),
        !text::is_blank(item) ==> nonblank(seq![item]) == seq![text::trim(item)],
    decreases b.len(),
{
    assert(seq![item].drop_last() =~= Seq::<Seq<char>>::empty());
    assert(nonblank(seq![item].drop_last()) =~= Seq::<Seq<char>>::empty());
    assert(nonblank(seq![item]) =~= if text::trim(item).len() > 0 {
        seq![text::trim(item)]
    } else {
        Seq::<Seq<char>>::empty()
    });
    lemma_blank(item);
    if b.len() == 0 {
        assert(a + b =~= a);
        assert(nonblank(b) =~= Seq::<Seq<char>>::empty());
        assert(nonblank(a) + nonblank(b) =~= nonblank(a));
    } else {
        lemma_nonblank(a, b.drop_last(), item);
        assert((a + b).drop_last() =~= a + b.drop_last());
        assert((a + b).last() == b.last());
        assert(nonblank(a + b) =~= nonblank(a) + nonblank(b));
    }
}

proof fn lemma_blank(s: Seq<char>)
    ensures
        (text::trim(s).len() == 0) == text::is_blank(s),
{
    let e = Seq::<char>::empty();
    if text::is_blank(s) {
        text::lemma_trim(s, e, e);
        assert(s + e + e =~= s);
    }
    let t = text::trim(s);
    text::lemma_trimmed(s);
    if t.len() == 0 {
        let (a, b) = choose|a: Seq<char>, b: Seq<char>|
            text::is_blank(a) && text::is_blank(b) && s == #[trigger] (a + t + b);
        assert forall|i: int| 0 <= i < s.len() implies text::is_space(#[trigger] s[i]) by {
            if i < a.len() {
                assert(s[i] == a[i]);
            } else {
                assert(s[i] == b[i - a.len()]);
            }
        }
    }
}

/// The trusted ranges are the default where nothing, or nothing but white space, is
/// configured; a single item is the one range; and of two lists with a comma
/// between them the ranges of both are trusted. No list means two things.
pub proof fn lemma_trusted_ranges(
    a: Seq<char>,
    b: Seq<char>,
    v: Seq<IpCidr>,
    w: Seq<IpCidr>,
    r: Result<Seq<IpCidr>, CidrReading>,
)
    ensures
        trusted_cidrs(None, r) ==> r == Ok::<Seq<IpCidr>, CidrReading>(default_cidrs()),
        text::is_blank(a) && trusted_cidrs(Some(a), r) ==> r == Ok::<Seq<IpCidr>, CidrReading>(
            default_cidrs(),
        ),
        !text::is_blank(a) && !a.contains(',') && trusted_cidrs(
            Some(a),
            Ok::<Seq<IpCidr>, CidrReading>(v),
        ) ==> v.len() == 1 && cidr_reading(text::trim(a)) == CidrReading::Cidr(v[0]),
        !text::is_blank(a) && !text::is_blank(b) && trusted_cidrs(
            Some(a),
            Ok::<Seq<IpCidr>, CidrReading>(v),
        ) && trusted_cidrs(Some(b), Ok::<Seq<IpCidr>, CidrReading>(w)) && trusted_cidrs(
            Some(a + seq![','] + b),
            r,
        ) ==> r == Ok::<Seq<IpCidr>, CidrReading>(v + w),
{
    lemma_blank(a);
    lemma_blank(b);
    if !text::is_blank(a) && !a.contains(',') {
        text::lemma_split_one(a, ',');
        let none = Seq::<Seq<char>>::empty();
        lemma_nonblank(none, none, a);
        assert(nonblank(text::split_on(a, ',')) =~= seq![text::trim(a)]);
        assert(seq![text::trim(a)][0] == text::trim(a));
    }
    if !text::is_blank(a) && !text::is_blank(b) && trusted_cidrs(
        Some(a),
        Ok::<Seq<IpCidr>, CidrReading>(v),
    ) && trusted_cidrs(Some(b), Ok::<Seq<IpCidr>, CidrReading>(w)) && trusted_cidrs(
        Some(a + seq![','] + b),
        r,
    ) {
        let s = a + seq![','] + b;
        lemma_two_lists(a, b, v, w, r);
    }
}

proof fn lemma_two_lists(
    a: Seq<char>,
    b: Seq<char>,
    v: Seq<IpCidr>,
    w: Seq<IpCidr>,
    r: Result<Seq<IpCidr>, CidrReading>,
)
    requires
        !text::is_blank(a),
        !text::is_blank(b),
        trusted_cidrs(Some(a), Ok::<Seq<IpCidr>, CidrReading>(v)),
        trusted_cidrs(Some(b), Ok::<Seq<IpCidr>, CidrReading>(w)),
        trusted_cidrs(Some(a + seq![','] + b), r),
    ensures
        r == Ok::<Seq<IpCidr>, CidrReading>(v + w),
{
    let s = a + seq![','] + b;
    lemma_blank(a);
    lemma_blank(b);
    lemma_blank(s);
    assert(!text::is_blank(s)) by {
        let i = choose|i: int| 0 <= i < a.len() && !text::is_space(#[trigger] a[i]);
        assert(s[i] == a[i]);
    }
    text::lemma_split_concat(a, b, ',');
    let x = nonblank(text::split_on(a, ','));
    let y = nonblank(text::split_on(b, ','));
    lemma_nonblank(text::split_on(a, ','), text::split_on(b, ','), a);
    let parts = nonblank(text::split_on(s, ','));
    assert(parts == x + y);
    assert forall|i: int| 0 <= i < parts.len() implies cidr_reading(#[trigger] parts[i])
        == CidrReading::Cidr((v + w)[i]) by {
        if i < x.len() {
            assert(parts[i] == x[i]);
        } else {
            assert(parts[i] == y[i - x.len()]);
        }
    }
    match r {
        Ok(u) => {
            assert forall|i: int| 0 <= i < u.len() implies u[i] == (v + w)[i] by {
                assert(cidr_reading(parts[i]) == CidrReading::Cidr(u[i]));
            }
            assert(u =~= v + w);
        },
        Err(e) => {},
    }
}

/// The server is reached over HTTPS wherever it is, and over plain HTTP only on
/// this machine, by one of its names, in whatever case; no other scheme is used,
/// and what is no URL is refused as that.
pub proof fn lemma_upstream_faults(scheme: Seq<char>, host: Option<Seq<char>>)
    ensures
        upstream_fault(None) == Some(UpstreamError::Invalid),
        scheme == "https"@ ==> upstream_fault(Some((scheme, host))) is None,
        scheme != "https"@ && scheme != "http"@ ==> upstream_fault(Some((scheme, host))) == Some(
            UpstreamError::Scheme,
        ),
        scheme == "http"@ && scheme != "https"@ && host is None ==> upstream_fault(
            Some((scheme, host)),
        ) == Some(UpstreamError::Plain),
        scheme == "http"@ && scheme != "https"@ && host is Some ==> upstream_fault(
            Some((scheme, host)),
        ) == (if seq![
            "localhost"@,
            "127.0.0.1"@,
            "::1"@,
            "[::1]"@,
            "host.docker.internal"@,
        ].contains(text::lower(host->0)) || exists|front: Seq<char>|
            text::lower(host->0) == #[trigger] (front + ".localhost"@) {
            None::<UpstreamError>
        } else {
            Some(UpstreamError::Plain)
        }),
{
    let names = seq![
        "localhost"@,
        "127.0.0.1"@,
        "::1"@,
        "[::1]"@,
        "host.docker.internal"@,
    ];
    assert(names[0] == "localhost"@);
    assert(names[1] == "127.0.0.1"@);
    assert(names[2] == "::1"@);
    assert(names[3] == "[::1]"@);
    assert(names[4] == "host.docker.internal"@);
    if host is Some {
        let h = text::lower(host->0);
        let suffix = ".localhost"@;
        if suffix.is_suffix_of(h) {
            assert(h =~= h.take(h.len() - suffix.len()) + suffix);
        }
        if exists|front: Seq<char>| h == #[trigger] (front + suffix) {
            let front = choose|front: Seq<char>| h == #[trigger] (front + suffix);
            assert(suffix =~= h.subrange(h.len() - suffix.len(), h.len() as int));
        }
    }
}

/// The host name is the first line of the file, without white space around it,
/// where something is left of it; else the variable, without white space around
/// it, where something is left of that; else the name of the system, where it has
/// one; else a fixed one.
pub proof fn lemma_hostname(
    line: Seq<char>,
    rest: Seq<char>,
    variable: Option<Seq<char>>,
    system: Option<Seq<char>>,
)
    requires
        !line.contains('\n'),
    ensures
        !text::is_blank(line) ==> reported_hostname(Some(line), variable, system) == text::trim(
            line,
        ) && reported_hostname(Some(line + seq!['\n'] + rest), variable, system) == text::trim(line),
        text::is_blank(line) ==> reported_hostname(
            Some(line + seq!['\n'] + rest),
            variable,
            system,
        ) == reported_hostname(None, variable, system),
        text::is_blank(line) ==> reported_hostname(Some(line), variable, system)
            == reported_hostname(None, variable, system),
        variable matches Some(v) ==> reported_hostname(None, variable, system) == (
        if text::is_blank(v) {
            reported_hostname(None, None, system)
        } else {
            text::trim(v)
        }),
        system matches Some(n) ==> n.len() > 0 ==> reported_hostname(None, None, system) == n,
        system is None || system->0.len() == 0 ==> reported_hostname(None, None, system)
            == "propylaea"@,
{
    text::lemma_split_once(line, rest, '\n');
    let whole = line + seq!['\n'] + rest;
    assert(whole.take(line.len() as int) =~= line);
    assert(line.take(line.len() as int) =~= line);
    lemma_blank(line);
    if variable is Some {
        lemma_blank(variable->0);
    }
}

/// What the environment says is what is configured, and what it leaves out has its
/// default.
pub proof fn lemma_config_values(env: Environment, c: ConfigModel)
    requires
        configures(env, Ok::<ConfigModel, ConfigFault>(c)),
    ensures
        env.bind_addr is Some ==> c.bind_addr == env.bind_addr->0@,
        env.bind_addr is None ==> c.bind_addr == "0.0.0.0:8080"@,
        env.proxy_key_path is Some ==> c.key_path == env.proxy_key_path->0@,
        env.proxy_key_path is None ==> c.key_path == "/var/lib/hecate-propylaea/proxy.key"@,
        env.proxy_id_path is Some ==> c.proxy_id_path == env.proxy_id_path->0@,
        env.proxy_id_path is None ==> c.proxy_id_path == "/var/lib/hecate-propylaea/proxy_id"@,
        env.cache_dir is Some ==> c.cache_dir == env.cache_dir->0@,
        env.cache_dir is None ==> c.cache_dir == "/var/lib/hecate-propylaea/cache"@,
        env.api_key_pepper is Some && c.api_key_pepper == env.api_key_pepper->0@,
        env.upstream_hecate_url is Some && c.upstream_hecate_url.is_prefix_of(
            env.upstream_hecate_url->0@,
        ),
        forall|i: int|
            c.upstream_hecate_url.len() <= i < env.upstream_hecate_url->0@.len()
                ==> env.upstream_hecate_url->0@[i] == '/',
        c.upstream_hecate_url.len() > 0 && c.upstream_hecate_url.last() != '/',
        c.enrollment_token is Some == (env.proxy_enrollment_token is Some
            && env.proxy_enrollment_token->0@.len() > 0),
        c.enrollment_token is Some ==> c.enrollment_token->0 == env.proxy_enrollment_token->0@,
        c.reported_hostname == reported_hostname(
            text::opt(env.host_hostname_file),
            text::opt(env.propylaea_hostname),
            text::opt(env.system_hostname),
        ),
        trusted_cidrs(
            text::opt(env.trusted_proxy_cidrs),
            Ok::<Seq<IpCidr>, CidrReading>(c.trusted_proxy_cidrs),
        ),
{
    text::lemma_trim_end_char(env.upstream_hecate_url->0@, '/');
}

/// The intervals and the size of the cache are the numbers that the environment
/// gives in decimal; where it gives none, or what is no number, they are thirty
/// seconds, sixty seconds, and four gibibytes. The cache is on unless it is
/// switched off by `0` or by `false`, in whatever case, and certificates are
/// verified unless `1` or `true` says otherwise.
pub proof fn lemma_config_numbers(env: Environment, c: ConfigModel, n: u64)
    requires
        configures(env, Ok::<ConfigModel, ConfigFault>(c)),
    ensures
        text::opt(env.sync_interval_secs) == Some(text::decimal(n as nat)) ==> c.sync_interval_secs
            == n,
        text::opt(env.heartbeat_interval_secs) == Some(text::decimal(n as nat))
            ==> c.heartbeat_interval_secs == n,
        text::opt(env.cache_max_bytes) == Some(text::decimal(n as nat)) ==> c.cache_max_bytes == n,
        env.sync_interval_secs is None || text::unsigned_value(
            env.sync_interval_secs->0@,
            u64::MAX as nat,
        ) is None ==> c.sync_interval_secs == 30,
        env.heartbeat_interval_secs is None || text::unsigned_value(
            env.heartbeat_interval_secs->0@,
            u64::MAX as nat,
        ) is None ==> c.heartbeat_interval_secs == 60,
        env.cache_max_bytes is None || text::unsigned_value(
            env.cache_max_bytes->0@,
            u64::MAX as nat,
        ) is None ==> c.cache_max_bytes == 4 * 1024 * 1024 * 1024,
        !c.cache_enabled == (env.cache_enabled is Some && (env.cache_enabled->0@ == "0"@
            || text::lower(env.cache_enabled->0@) == "false"@)),
        c.insecure_skip_tls_verify == (env.insecure_skip_tls_verify is Some && (
        env.insecure_skip_tls_verify->0@ == "1"@ || text::lower(env.insecure_skip_tls_verify->0@)
            == "true"@)),
{
    text::lemma_unsigned(n as nat, u64::MAX as nat, text::decimal(n as nat));
}

/// An environment is refused for the first thing that is wrong with it: no server,
/// an empty or unfit address of the server, no pepper or one of fewer than sixteen
/// bytes, certificates that are not verified in a build that does not allow that,
/// and trusted ranges that are none. One with none of these is accepted.
pub proof fn lemma_config_faults(env: Environment, r: Result<ConfigModel, ConfigFault>)
    requires
        configures(env, r),
    ensures
        ({
            let upstream = text::trim_end_char(env.upstream_hecate_url->0@, '/');
            let url = env.upstream_hecate_url is Some;
            let fit = url && upstream.len() > 0 && upstream_fault(url_parts(upstream)) is None;
            let pepper = fit && env.api_key_pepper is Some;
            let long = pepper && vstd::utf8::encode_utf8(env.api_key_pepper->0@).len() >= 16;
            let insecure = env.insecure_skip_tls_verify is Some && (
            env.insecure_skip_tls_verify->0@ == "1"@ || text::lower(
                env.insecure_skip_tls_verify->0@,
            ) == "true"@);
            let sound = long && (env.dangerous || !insecure);
            &&& (r is Err && r->Err_0 is UpstreamMissing) == !url
            &&& (r is Err && r->Err_0 is UpstreamEmpty) == (url && upstream.len() == 0)
            &&& (r is Err && r->Err_0 is Upstream) == (url && upstream.len() > 0 && !fit)
            &&& (r is Err && r->Err_0 is PepperMissing) == (fit && !pepper)
            &&& (r is Err && r->Err_0 is PepperShort) == (pepper && !long)
            &&& (r is Err && r->Err_0 is InsecureRefused) == (long && !sound)
            &&& r is Ok || (r->Err_0 is TrustedProxies) ==> sound
            &&& sound && trusted_cidrs(
                text::opt(env.trusted_proxy_cidrs),
                Ok::<Seq<IpCidr>, CidrReading>(default_cidrs()),
            ) && env.trusted_proxy_cidrs is None ==> r is Ok
        }),
{
}

/// A list is refused for the first of its items that is no range.
pub proof fn lemma_first_bad_item(
    a: Seq<char>,
    b: Seq<char>,
    v: Seq<IpCidr>,
    e: CidrReading,
    r: Result<Seq<IpCidr>, CidrReading>,
)
    requires
        !text::is_blank(a),
        !text::is_blank(b),
    ensures
        !a.contains(',') && trusted_cidrs(Some(a), Err::<Seq<IpCidr>, CidrReading>(e))
            ==> cidr_reading(text::trim(a)) == e && !(e is Cidr),
        trusted_cidrs(Some(a), Ok::<Seq<IpCidr>, CidrReading>(v)) && trusted_cidrs(
            Some(b),
            Err::<Seq<IpCidr>, CidrReading>(e),
        ) && trusted_cidrs(Some(a + seq![','] + b), r) ==> r == Err::<Seq<IpCidr>, CidrReading>(e),
        trusted_cidrs(Some(a), Err::<Seq<IpCidr>, CidrReading>(e)) && trusted_cidrs(
            Some(a + seq![','] + b),
            r,
        ) ==> r == Err::<Seq<IpCidr>, CidrReading>(e),
{
    lemma_blank(a);
    lemma_blank(b);
    if !a.contains(',') {
        text::lemma_split_one(a, ',');
        let none = Seq::<Seq<char>>::empty();
        lemma_nonblank(none, none, a);
        assert(nonblank(text::split_on(a, ',')) =~= seq![text::trim(a)]);
    }
    let s = a + seq![','] + b;
    lemma_blank(s);
    assert(!text::is_blank(s)) by {
        let i = choose|i: int| 0 <= i < a.len() && !text::is_space(#[trigger] a[i]);
        assert(s[i] == a[i]);
    }
    text::lemma_split_concat(a, b, ',');
    let x = nonblank(text::split_on(a, ','));
    let y = nonblank(text::split_on(b, ','));
    lemma_nonblank(text::split_on(a, ','), text::split_on(b, ','), a);
    if trusted_cidrs(Some(s), r) {
        if trusted_cidrs(Some(a), Err::<Seq<IpCidr>, CidrReading>(e)) {
            let i = choose|i: int|
                0 <= i < x.len() && cidr_reading(#[trigger] x[i]) == e && !(e is Cidr) && forall|
                    j: int,
                |
                    0 <= j < i ==> cidr_reading(#[trigger] x[j]) is Cidr;
            lemma_bad_item_decides(x + y, i, e, s, r);
        }
        if trusted_cidrs(Some(a), Ok::<Seq<IpCidr>, CidrReading>(v)) && trusted_cidrs(
            Some(b),
            Err::<Seq<IpCidr>, CidrReading>(e),
        ) {
            let i = choose|i: int|
                0 <= i < y.len() && cidr_reading(#[trigger] y[i]) == e && !(e is Cidr) && forall|
                    j: int,
                |
                    0 <= j < i ==> cidr_reading(#[trigger] y[j]) is Cidr;
            let parts = x + y;
            assert(parts[x.len() + i] == y[i]);
            assert forall|j: int| 0 <= j < x.len() + i implies cidr_reading(
                #[trigger] parts[j],
            ) is Cidr by {
                if j < x.len() {
                    assert(parts[j] == x[j]);
                } else {
                    assert(parts[j] == y[j - x.len()]);
                }
            }
            lemma_bad_item_decides(parts, x.len() + i, e, s, r);
        }
    }
}

proof fn lemma_bad_item_decides(
    parts: Seq<Seq<char>>,
    i: int,
    e: CidrReading,
    s: Seq<char>,
    r: Result<Seq<IpCidr>, CidrReading>,
)
    requires
        text::trim(s).len() > 0,
        parts == nonblank(text::split_on(s, ',')),
        trusted_cidrs(Some(s), r),
        0 <= i < parts.len(),
        cidr_reading(parts[i]) == e,
        !(e is Cidr),
        forall|j: int| 0 <= j < i ==> cidr_reading(#[trigger] parts[j]) is Cidr,
    ensures
        r == Err::<Seq<IpCidr>, CidrReading>(e),
{
    match r {
        Ok(v) => {
            assert(cidr_reading(parts[i]) == CidrReading::Cidr(v[i]));
        },
        Err(f) => {
            let k = choose|k: int|
                0 <= k < parts.len() && cidr_reading(#[trigger] parts[k]) == f && !(f is Cidr)
                    && forall|j: int| 0 <= j < k ==> cidr_reading(#[trigger] parts[j]) is Cidr;
            if k < i {
                assert(cidr_reading(parts[k]) is Cidr);
            }
            if i < k {
                assert(cidr_reading(parts[i]) is Cidr);
            }
        },
    }
}

/// What an error says begins with the variable that is at fault, and what is said
/// of a range ends with what is wrong in it.
pub proof fn lemma_errors_name_what_is_wrong(e: ConfigError, s: String)
    ensures
        e is UpstreamMissing || e is UpstreamEmpty || e is Upstream
            ==> "UPSTREAM_HECATE_URL "@.is_prefix_of(e.says()),
        e is PepperMissing || e is PepperShort ==> "API_KEY_PEPPER "@.is_prefix_of(e.says()),
        e is InsecureRefused ==> "INSECURE_SKIP_TLS_VERIFY "@.is_prefix_of(e.says()),
        s@.is_suffix_of(CidrError::Address(s).says()),
        s@.is_suffix_of(CidrError::Prefix(s).says()),
{
    reveal_strlit("UPSTREAM_HECATE_URL ");
    reveal_strlit("API_KEY_PEPPER ");
    reveal_strlit("INSECURE_SKIP_TLS_VERIFY ");
    reveal_strlit("UPSTREAM_HECATE_URL is required");
    reveal_strlit("UPSTREAM_HECATE_URL must not be empty");
    reveal_strlit("UPSTREAM_HECATE_URL is not a valid URL");
    reveal_strlit("UPSTREAM_HECATE_URL must be http or https");
    reveal_strlit(
        "UPSTREAM_HECATE_URL must use HTTPS unless the host is loopback or host.docker.internal",
    );
    reveal_strlit("API_KEY_PEPPER is required");
    reveal_strlit("API_KEY_PEPPER must be at least 16 characters");
    reveal_strlit("INSECURE_SKIP_TLS_VERIFY requires building with --features dangerous");
    let t = e.says();
    if e is UpstreamMissing || e is UpstreamEmpty || e is Upstream {
        assert(t.subrange(0, 20) =~= "UPSTREAM_HECATE_URL "@);
    }
    if e is PepperMissing || e is PepperShort {
        assert(t.subrange(0, 15) =~= "API_KEY_PEPPER "@);
    }
    if e is InsecureRefused {
        assert(t.subrange(0, 25) =~= "INSECURE_SKIP_TLS_VERIFY "@);
    }
    let a = CidrError::Address(s).says();
    let b = CidrError::Prefix(s).says();
    assert(a.subrange(a.len() - s@.len(), a.len() as int) =~= s@);
    assert(b.subrange(b.len() - s@.len(), b.len() as int) =~= s@);
}

} // verus!
