//! The stored identity of the proxy, and how it is given up.

use vstd::prelude::*;
use vstd::string::*;

use crate::config;
use crate::config::Environment;
use crate::crypto::ProxyKeypair;
use crate::state;
use crate::text;

verus! {

/// Where the identity of the proxy is stored.
#[derive(PartialEq, Eq, Debug)]
pub struct ProxyIdentityPaths {
    pub key_path: String,
    pub proxy_id_path: String,
}

impl Clone for ProxyIdentityPaths {
    fn clone(&self) -> (r: Self)
        ensures
            r.key_path@ == self.key_path@,
            r.proxy_id_path@ == self.proxy_id_path@,
    {
        ProxyIdentityPaths {
            key_path: self.key_path.clone(),
            proxy_id_path: self.proxy_id_path.clone(),
        }
    }
}

impl ProxyIdentityPaths {
    /// The places that the environment names, or the usual ones.
    pub fn from_env(env: &Environment) -> (r: Self)
        ensures
            r.key_path@ == config::or_text(
                text::opt(env.proxy_key_path),
                "/var/lib/hecate-propylaea/proxy.key"@,
            ),
            r.proxy_id_path@ == config::or_text(
                text::opt(env.proxy_id_path),
                "/var/lib/hecate-propylaea/proxy_id"@,
            ),
    {
        ProxyIdentityPaths {
            key_path: text::text_or(&env.proxy_key_path, "/var/lib/hecate-propylaea/proxy.key"),
            proxy_id_path: text::text_or(&env.proxy_id_path, "/var/lib/hecate-propylaea/proxy_id"),
        }
    }
}

/// What was given up.
#[derive(Clone, Copy, PartialEq, Eq, Structural, Debug)]
pub struct ForgetProxyIdentityReport {
    pub removed_proxy_id: bool,
    pub rotated_key: bool,
    pub had_proxy_id: bool,
}

impl Default for ForgetProxyIdentityReport {
    fn default() -> (r: Self)
        ensures
            r == (ForgetProxyIdentityReport {
                removed_proxy_id: false,
                rotated_key: false,
                had_proxy_id: false,
            }),
    {
        ForgetProxyIdentityReport {
            removed_proxy_id: false,
            rotated_key: false,
            had_proxy_id: false,
        }
    }
}

/// What is given up, where a key is stored or not, and an identity is or not:
/// a stored identity is removed, and the key is rotated wherever anything was
/// stored.
pub open spec fn forgotten(had_key: bool, stored_id: Option<Seq<char>>) -> ForgetProxyIdentityReport {
    ForgetProxyIdentityReport {
        removed_proxy_id: stored_id is Some,
        rotated_key: stored_id is Some || had_key,
        had_proxy_id: stored_id is Some && text::trim(stored_id->0).len() > 0,
    }
}

/// Gives up the identity of the proxy, given whether a key is stored and what is
/// stored as its identity. The second part of the result is the key pair that
/// takes the place of the stored one, where the key is rotated. The server is
/// not told.
pub fn forget_proxy_identity(had_key: bool, stored_id: Option<&str>) -> (r: (
    ForgetProxyIdentityReport,
    Option<ProxyKeypair>,
))
    ensures
        r.0 == forgotten(had_key, state::opt_str(stored_id)),
        match r.1 {
            Some(k) => r.0.rotated_key && k.seed().len() == 32,
            None => !r.0.rotated_key,
        },
{
    let mut report = ForgetProxyIdentityReport::default();
    match stored_id {
        Some(raw) => {
            let trimmed = text::trim_text(raw);
            let chars = text::chars_of(trimmed.as_str());
            report.had_proxy_id = chars.len() > 0;
            report.removed_proxy_id = true;
        },
        None => {},
    }
    if report.removed_proxy_id || had_key {
        report.rotated_key = true;
        (report, Some(ProxyKeypair::generate()))
    } else {
        (report, None)
    }
}

/// The lines in which a report is shown.
pub open spec fn report_text(report: ForgetProxyIdentityReport) -> Seq<Seq<char>> {
    if !report.removed_proxy_id && !report.rotated_key {
        seq!["No local proxy identity found; proxy is already unenrolled on this host."@]
    } else {
        seq!["Local proxy identity cleared."@] + (if report.removed_proxy_id {
            seq!["  - removed proxy id"@]
        } else {
            Seq::<Seq<char>>::empty()
        }) + (if report.rotated_key {
            seq!["  - rotated proxy signing key"@]
        } else {
            Seq::<Seq<char>>::empty()
        }) + (if report.had_proxy_id {
            seq![
                ""@,
                "The proxy was forgotten locally. Revoke it in the Hecate UI if it should no longer access the fleet."@,
            ]
        } else {
            Seq::<Seq<char>>::empty()
        }) + seq![
            ""@,
            "Stop Propylaea, set PROXY_ENROLLMENT_TOKEN to a new penr_… token, then restart."@,
        ]
    }
}

/// The lines in which a report is shown.
pub fn report_lines(report: &ForgetProxyIdentityReport) -> (r: Vec<String>)
    ensures
        text::texts(r@) == report_text(*report),
{
    let mut lines: Vec<String> = Vec::new();
    if !report.removed_proxy_id && !report.rotated_key {
        lines.push(
            "No local proxy identity found; proxy is already unenrolled on this host.".to_owned(),
        );
        assert(text::texts(lines@) =~= report_text(*report));
        return lines;
    }
    lines.push("Local proxy identity cleared.".to_owned());
    if report.removed_proxy_id {
        lines.push("  - removed proxy id".to_owned());
    }
    if report.rotated_key {
        lines.push("  - rotated proxy signing key".to_owned());
    }
    if report.had_proxy_id {
        lines.push("".to_owned());
        lines.push(
            "The proxy was forgotten locally. Revoke it in the Hecate UI if it should no longer access the fleet.".to_owned(),
        );
    }
    lines.push("".to_owned());
    lines.push(
        "Stop Propylaea, set PROXY_ENROLLMENT_TOKEN to a new penr_… token, then restart.".to_owned(),
    );
    assert(text::texts(lines@) =~= report_text(*report));
    lines
}

/// Giving up removes a stored identity and rotates the key exactly where there is
/// something to give up, and tells whether an identity was in fact stored: one of
/// white space alone is none.
pub proof fn lemma_forgotten(had_key: bool, stored: Seq<char>)
    ensures
        forgotten(had_key, None) == (ForgetProxyIdentityReport {
            removed_proxy_id: false,
            rotated_key: had_key,
            had_proxy_id: false,
        }),
        forgotten(had_key, Some(stored)).removed_proxy_id,
        forgotten(had_key, Some(stored)).rotated_key,
        forgotten(had_key, Some(stored)).had_proxy_id == !text::is_blank(stored),
{
    let e = Seq::<char>::empty();
    let t = text::trim(stored);
    text::lemma_trimmed(stored);
    if t.len() == 0 {
        let (a, b) = choose|a: Seq<char>, b: Seq<char>|
            text::is_blank(a) && text::is_blank(b) && stored == #[trigger] (a + t + b);
        assert forall|i: int| 0 <= i < stored.len() implies text::is_space(
            #[trigger] stored[i],
        ) by {
            if i < a.len() {
                assert(stored[i] == a[i]);
            } else {
                assert(stored[i] == b[i - a.len()]);
            }
        }
    }
    if text::is_blank(stored) {
        text::lemma_trim(stored, e, e);
        assert(stored + e + e =~= stored);
    }
}

/// Where there was nothing to give up, one line says so. Else the first line says
/// that the identity is cleared, the last one what to do next, and between them
/// stands what was removed, what was rotated, and how to revoke what was known.
pub proof fn lemma_report(report: ForgetProxyIdentityReport)
    ensures
        ({
            let lines = report_text(report);
            let cleared = report.removed_proxy_id || report.rotated_key;
            &&& !cleared ==> lines == seq![
                "No local proxy identity found; proxy is already unenrolled on this host."@,
            ]
            &&& cleared ==> lines[0] == "Local proxy identity cleared."@ && lines.last()
                == "Stop Propylaea, set PROXY_ENROLLMENT_TOKEN to a new penr_… token, then restart."@
                && lines.contains("  - removed proxy id"@) == report.removed_proxy_id
                && lines.contains("  - rotated proxy signing key"@) == report.rotated_key
            &&& cleared && report.had_proxy_id ==> lines.contains(
                "The proxy was forgotten locally. Revoke it in the Hecate UI if it should no longer access the fleet."@,
            )
            &&& cleared ==> lines.len() == 3 + (if report.removed_proxy_id {
                1int
            } else {
                0
            }) + (if report.rotated_key {
                1int
            } else {
                0
            }) + (if report.had_proxy_id {
                2int
            } else {
                0
            })
        }),
{
    let lines = report_text(report);
    reveal_strlit("Local proxy identity cleared.");
    reveal_strlit("  - removed proxy id");
    reveal_strlit("  - rotated proxy signing key");
    reveal_strlit("");
    reveal_strlit(
        "Stop Propylaea, set PROXY_ENROLLMENT_TOKEN to a new penr_… token, then restart.",
    );
    reveal_strlit(
        "The proxy was forgotten locally. Revoke it in the Hecate UI if it should no longer access the fleet.",
    );
    let removed = "  - removed proxy id"@;
    let rotated = "  - rotated proxy signing key"@;
    let cleared = "Local proxy identity cleared."@;
    let stop = "Stop Propylaea, set PROXY_ENROLLMENT_TOKEN to a new penr_… token, then restart."@;
    let revoke =
        "The proxy was forgotten locally. Revoke it in the Hecate UI if it should no longer access the fleet."@;
    assert(removed.len() == 20 && removed[0] == ' ');
    assert(rotated.len() == 29 && rotated[0] == ' ');
    assert(cleared[0] == 'L');
    assert(stop[0] == 'S');
    assert(revoke[0] == 'T');
    assert(""@.len() == 0);
    if report.removed_proxy_id {
        assert(lines[1] == removed);
    }
    if report.rotated_key {
        assert(lines[if report.removed_proxy_id { 2 } else { 1 }] == rotated);
    }
    if report.had_proxy_id && (report.removed_proxy_id || report.rotated_key) {
        assert(lines[lines.len() - 3] == revoke);
    }
}

} // verus!
