//! Service and version identification from the banner a port sends back.
use vstd::prelude::*;
use vstd::string::*;
use crate::network_sniffer::{PortResult, PortView};

verus! {

/// The capture groups of the leftmost match of the regular expression `pattern`
/// in `haystack` (group 0 is the whole match; `None` for a group that did not
/// take part), or `None` when there is no match or the pattern does not compile.
pub uninterp spec fn regex_captures(pattern: Seq<char>, haystack: Seq<char>) -> Option<Seq<Option<Seq<char>>>>;

/// The view of an optional owned string.
pub open spec fn opt_view(o: Option<String>) -> Option<Seq<char>> {
    match o {
        Some(s) => Some(s@),
        None => None,
    }
}

/// Compiles `pattern` with `regex::Regex::new` and searches `haystack` with
/// `regex::Regex::captures`, handing back every capture group as an owned string.
/// The contract claims only that the groups are those of the regex crate's
/// leftmost match, named by [`regex_captures`]; regex semantics are not stated.
#[verifier::external_body]
fn captures(pattern: &str, haystack: &str) -> (r: Option<Vec<Option<String>>>)
    ensures
        match (r, regex_captures(pattern@, haystack@)) {
            (Some(v), Some(g)) => v@.len() == g.len() && forall|i: int|
                0 <= i < g.len() ==> opt_view(#[trigger] v@[i]) == g[i],
            (None, None) => true,
            _ => false,
        },
{
    let re = regex::Regex::new(pattern).ok()?;
    let caps = re.captures(haystack)?;
    Some(caps.iter().map(|m| m.map(|m| m.as_str().to_string())).collect())
}

/// One banner fingerprint: the ports it applies to (empty: any port), the
/// service it identifies, its regular expression, the capture group holding
/// the version, and the confidence of a match.
pub struct FingerprintDef {
    pub ports: Vec<u16>,
    pub service_name: &'static str,
    pub pattern: &'static str,
    pub version_group: Option<usize>,
    pub confidence: u8,
}

/// Mathematical form of a fingerprint: (ports, service, pattern, version group, confidence).
pub type FingerprintView = (Seq<u16>, Seq<char>, Seq<char>, Option<usize>, u8);

impl FingerprintDef {
    pub open spec fn view(&self) -> FingerprintView {
        (self.ports@, self.service_name@, self.pattern@, self.version_group, self.confidence)
    }
}

/// The fingerprint table, tried in order.
pub open spec fn fingerprint_table() -> Seq<FingerprintView> {
    seq![
        (seq![80u16, 443, 8080, 8443, 8000, 8888], "nginx"@, "(?i)Server:\\s*nginx(?:/([\\d.]+))?"@, Some(1usize), 95u8),
        (seq![80u16, 443, 8080], "Apache"@, "(?i)Server:\\s*Apache(?:/([\\d.]+))?"@, Some(1usize), 95u8),
        (seq![80u16, 443], "IIS"@, "(?i)Server:\\s*Microsoft-IIS(?:/([\\d.]+))?"@, Some(1usize), 95u8),
        (seq![22u16], "OpenSSH"@, "SSH-2\\.0-OpenSSH[_-]([\\w.]+)"@, Some(1usize), 95u8),
        (seq![22u16], "Dropbear"@, "(?i)dropbear"@, None, 85u8),
        (seq![21u16], "vsftpd"@, "(?i)vsFTPd(?: ([\\w.]+))?"@, Some(1usize), 90u8),
        (seq![21u16], "proftpd"@, "(?i)ProFTPD(?: ([\\w.]+))?"@, Some(1usize), 90u8),
        (seq![21u16], "Pure-FTPd"@, "(?i)Pure-FTPd"@, None, 85u8),
        (seq![3306u16], "MySQL"@, "(?i)mysql|MariaDB"@, None, 80u8),
        (seq![5432u16], "PostgreSQL"@, "(?i)postgres|psql"@, None, 80u8),
        (seq![6379u16], "Redis"@, "(?i)redis_version:|\\+OK"@, None, 85u8),
        (seq![25u16, 587], "Postfix"@, "(?i)ESMTP\\s+Postfix"@, None, 85u8),
        (seq![25u16, 587], "Sendmail"@, "(?i)ESMTP\\s+Sendmail"@, None, 85u8),
        (seq![25u16, 587], "Exim"@, "(?i)Exim"@, None, 85u8),
        (seq![445u16], "Samba"@, "(?i)Samba"@, None, 80u8),
        (seq![53u16], "dnsmasq"@, "(?i)dnsmasq"@, None, 75u8),
        (Seq::<u16>::empty(), "HTTP"@, "^HTTP/"@, None, 60u8)
    ]
}

/// The fingerprint table as executable data.
pub fn fingerprints() -> (r: Vec<FingerprintDef>)
    ensures
        r@.len() == fingerprint_table().len(),
        forall|i: int| 0 <= i < r@.len() ==> (#[trigger] r@[i]).view() == fingerprint_table()[i],
{
    let r = vec![
        FingerprintDef { ports: vec![80, 443, 8080, 8443, 8000, 8888], service_name: "nginx", pattern: "(?i)Server:\\s*nginx(?:/([\\d.]+))?", version_group: Some(1), confidence: 95 },
        FingerprintDef { ports: vec![80, 443, 8080], service_name: "Apache", pattern: "(?i)Server:\\s*Apache(?:/([\\d.]+))?", version_group: Some(1), confidence: 95 },
        FingerprintDef { ports: vec![80, 443], service_name: "IIS", pattern: "(?i)Server:\\s*Microsoft-IIS(?:/([\\d.]+))?", version_group: Some(1), confidence: 95 },
        FingerprintDef { ports: vec![22], service_name: "OpenSSH", pattern: "SSH-2\\.0-OpenSSH[_-]([\\w.]+)", version_group: Some(1), confidence: 95 },
        FingerprintDef { ports: vec![22], service_name: "Dropbear", pattern: "(?i)dropbear", version_group: None, confidence: 85 },
        FingerprintDef { ports: vec![21], service_name: "vsftpd", pattern: "(?i)vsFTPd(?: ([\\w.]+))?", version_group: Some(1), confidence: 90 },
        FingerprintDef { ports: vec![21], service_name: "proftpd", pattern: "(?i)ProFTPD(?: ([\\w.]+))?", version_group: Some(1), confidence: 90 },
        FingerprintDef { ports: vec![21], service_name: "Pure-FTPd", pattern: "(?i)Pure-FTPd", version_group: None, confidence: 85 },
        FingerprintDef { ports: vec![3306], service_name: "MySQL", pattern: "(?i)mysql|MariaDB", version_group: None, confidence: 80 },
        FingerprintDef { ports: vec![5432], service_name: "PostgreSQL", pattern: "(?i)postgres|psql", version_group: None, confidence: 80 },
        FingerprintDef { ports: vec![6379], service_name: "Redis", pattern: "(?i)redis_version:|\\+OK", version_group: None, confidence: 85 },
        FingerprintDef { ports: vec![25, 587], service_name: "Postfix", pattern: "(?i)ESMTP\\s+Postfix", version_group: None, confidence: 85 },
        FingerprintDef { ports: vec![25, 587], service_name: "Sendmail", pattern: "(?i)ESMTP\\s+Sendmail", version_group: None, confidence: 85 },
        FingerprintDef { ports: vec![25, 587], service_name: "Exim", pattern: "(?i)Exim", version_group: None, confidence: 85 },
        FingerprintDef { ports: vec![445], service_name: "Samba", pattern: "(?i)Samba", version_group: None, confidence: 80 },
        FingerprintDef { ports: vec![53], service_name: "dnsmasq", pattern: "(?i)dnsmasq", version_group: None, confidence: 75 },
        FingerprintDef { ports: Vec::new(), service_name: "HTTP", pattern: "^HTTP/", version_group: None, confidence: 60 },
    ];
    assert forall|i: int| 0 <= i < r@.len() implies (#[trigger] r@[i]).view() == fingerprint_table()[i] by {
        assert(r@[i].ports@ =~= fingerprint_table()[i].0);
    }
    r
}

/// The service name guessed from a port number alone.
pub open spec fn service_by_port(port: u16) -> Option<Seq<char>> {
    if port == 21 { Some("FTP"@) }
    else if port == 22 { Some("SSH"@) }
    else if port == 23 { Some("Telnet"@) }
    else if port == 25 || port == 587 { Some("SMTP"@) }
    else if port == 53 { Some("DNS"@) }
    else if port == 80 { Some("HTTP"@) }
    else if port == 110 { Some("POP3"@) }
    else if port == 111 || port == 135 { Some("RPC"@) }
    else if port == 139 { Some("NetBIOS"@) }
    else if port == 143 { Some("IMAP"@) }
    else if port == 443 { Some("HTTPS"@) }
    else if port == 445 { Some("SMB"@) }
    else if port == 465 { Some("SMTPS"@) }
    else if port == 993 { Some("IMAPS"@) }
    else if port == 995 { Some("POP3S"@) }
    else if port == 1433 { Some("MSSQL"@) }
    else if port == 1521 { Some("Oracle"@) }
    else if port == 2049 { Some("NFS"@) }
    else if port == 3306 { Some("MySQL"@) }
    else if port == 3389 { Some("RDP"@) }
    else if port == 5432 { Some("PostgreSQL"@) }
    else if port == 5900 { Some("VNC"@) }
    else if port == 6379 { Some("Redis"@) }
    else if port == 8080 || port == 9090 { Some("HTTP-Alt"@) }
    else if port == 8443 { Some("HTTPS-Alt"@) }
    else if port == 27017 { Some("MongoDB"@) }
    else { None }
}

/// Guesses the service name from the port number alone.
pub fn guess_service_by_port(port: u16) -> (r: Option<&'static str>)
    ensures
        match service_by_port(port) {
            Some(name) => r matches Some(s) && s@ == name,
            None => r is None,
        },
{
    if port == 21 { Some("FTP") }
    else if port == 22 { Some("SSH") }
    else if port == 23 { Some("Telnet") }
    else if port == 25 || port == 587 { Some("SMTP") }
    else if port == 53 { Some("DNS") }
    else if port == 80 { Some("HTTP") }
    else if port == 110 { Some("POP3") }
    else if port == 111 || port == 135 { Some("RPC") }
    else if port == 139 { Some("NetBIOS") }
    else if port == 143 { Some("IMAP") }
    else if port == 443 { Some("HTTPS") }
    else if port == 445 { Some("SMB") }
    else if port == 465 { Some("SMTPS") }
    else if port == 993 { Some("IMAPS") }
    else if port == 995 { Some("POP3S") }
    else if port == 1433 { Some("MSSQL") }
    else if port == 1521 { Some("Oracle") }
    else if port == 2049 { Some("NFS") }
    else if port == 3306 { Some("MySQL") }
    else if port == 3389 { Some("RDP") }
    else if port == 5432 { Some("PostgreSQL") }
    else if port == 5900 { Some("VNC") }
    else if port == 6379 { Some("Redis") }
    else if port == 8080 || port == 9090 { Some("HTTP-Alt") }
    else if port == 8443 { Some("HTTPS-Alt") }
    else if port == 27017 { Some("MongoDB") }
    else { None }
}

/// A banner match: (service, version, confidence).
pub type BannerMatch = (Seq<char>, Option<Seq<char>>, u8);

/// Whether fingerprint `fp` is tried on `port`.
pub open spec fn applies_to(fp: FingerprintView, port: u16) -> bool {
    fp.0.len() == 0 || fp.0.contains(port)
}

/// The version text a fingerprint reports from the capture groups of its match.
pub open spec fn version_from(group: Option<usize>, groups: Seq<Option<Seq<char>>>) -> Option<Seq<char>> {
    match group {
        Some(g) => if g < groups.len() { groups[g as int] } else { None },
        None => None,
    }
}

/// The first fingerprint at index `i` or later that applies to `port` and matches `banner`.
pub open spec fn first_match(i: nat, port: u16, banner: Seq<char>) -> Option<BannerMatch>
    decreases fingerprint_table().len() - i,
{
    if i >= fingerprint_table().len() {
        None
    } else {
        let fp = fingerprint_table()[i as int];
        if !applies_to(fp, port) {
            first_match(i + 1, port, banner)
        } else {
            match regex_captures(fp.2, banner) {
                Some(groups) => Some((fp.1, version_from(fp.3, groups), fp.4)),
                None => first_match(i + 1, port, banner),
            }
        }
    }
}

/// What `match_banner` reports: the first matching fingerprint, else the
/// default (or port-based) service name with no version and confidence 30.
pub open spec fn banner_match(port: u16, banner: Seq<char>, default_service: Option<Seq<char>>) -> Option<BannerMatch> {
    match first_match(0, port, banner) {
        Some(m) => Some(m),
        None => {
            let fallback = match default_service {
                Some(d) => Some(d),
                None => service_by_port(port),
            };
            match fallback {
                Some(s) => Some((s, None, 30u8)),
                None => None,
            }
        },
    }
}

/// The view of a `match_banner` result.
pub open spec fn match_view(r: Option<(String, Option<String>, u8)>) -> Option<BannerMatch> {
    match r {
        Some((s, v, c)) => Some((s@, opt_view(v), c)),
        None => None,
    }
}

/// Whether `port` is one of `ports`.
fn contains_port(ports: &Vec<u16>, port: u16) -> (b: bool)
    ensures
        b == ports@.contains(port),
{
    let mut i: usize = 0;
    while i < ports.len()
        invariant
            i <= ports@.len(),
            forall|k: int| 0 <= k < i ==> ports@[k] != port,
        decreases ports@.len() - i,
    {
        if ports[i] == port {
            assert(ports@[i as int] == port);
            return true;
        }
        i = i + 1;
    }
    false
}

/// The capture groups as text.
pub open spec fn groups_view(groups: Seq<Option<String>>) -> Seq<Option<Seq<char>>> {
    Seq::new(groups.len(), |i: int| opt_view(groups[i]))
}

/// What fingerprint `index` of the table reports for a match whose capture
/// groups are `groups`: its service, the text of its version group (when
/// it has one and the group took part), and its confidence.
pub fn fingerprint_report(index: usize, groups: &Vec<Option<String>>) -> (r: (String, Option<String>, u8))
    requires
        index < fingerprint_table().len(),
    ensures
        ({
            let fp = fingerprint_table()[index as int];
            match_view(Some(r)) == Some((fp.1, version_from(fp.3, groups_view(groups@)), fp.4))
        }),
{
    let fps = fingerprints();
    let fp = &fps[index];
    assert(fp.view() == fingerprint_table()[index as int]);
    let version = match fp.version_group {
        Some(g) => if g < groups.len() {
            match &groups[g] {
                Some(s) => Some(s.clone()),
                None => None,
            }
        } else {
            None
        },
        None => None,
    };
    (String::from_str(fp.service_name), version, fp.confidence)
}

/// Matches a banner against the fingerprints, returning (service, version, confidence).
pub fn match_banner(port: u16, banner: &str, default_service: Option<&str>) -> (r: Option<(String, Option<String>, u8)>)
    ensures
        match_view(r) == banner_match(port, banner@, match default_service {
            Some(d) => Some(d@),
            None => None,
        }),
{
    let fps = fingerprints();
    let mut i: usize = 0;
    while i < fps.len()
        invariant
            i <= fps@.len(),
            fps@.len() == fingerprint_table().len(),
            forall|k: int| 0 <= k < fps@.len() ==> (#[trigger] fps@[k]).view() == fingerprint_table()[k],
            first_match(0, port, banner@) == first_match(i as nat, port, banner@),
        decreases fps@.len() - i,
    {
        let fp = &fps[i];
        assert(fp.view() == fingerprint_table()[i as int]);
        if fp.ports.len() == 0 || contains_port(&fp.ports, port) {
            match captures(fp.pattern, banner) {
                Some(groups) => {
                    assert(groups_view(groups@) =~= regex_captures(fp.pattern@, banner@)->0);
                    return Some(fingerprint_report(i, &groups));
                },
                None => {},
            }
        }
        i = i + 1;
    }
    let fallback = match default_service {
        Some(d) => Some(d),
        None => guess_service_by_port(port),
    };
    match fallback {
        Some(s) => Some((String::from_str(s), None, 30)),
        None => None,
    }
}


/// What service detection makes of a port result once a banner was (or was
/// not) read: ports that are not open stay as they are; with a banner, the
/// banner is kept and a fingerprint match (falling back to the port's usual
/// service) sets service, version, confidence and the `banner` probe method;
/// without one, the port's usual service is guessed with confidence 20.
pub open spec fn identified(p: PortView, banner: Option<Seq<char>>) -> PortView {
    if p.2 != "open"@ {
        p
    } else {
        match banner {
            Some(b) => match banner_match(p.0, b, service_by_port(p.0)) {
                Some(m) => (p.0, p.1, p.2, Some(m.0), m.1, Some(b), m.2, "banner"@),
                None => (p.0, p.1, p.2, p.3, p.4, Some(b), p.6, p.7),
            },
            None => (p.0, p.1, p.2, service_by_port(p.0), p.4, p.5, 20u8, p.7),
        }
    }
}

/// Fills in a port result from the banner read on it (see [`identified`]).
pub fn identify_service(port_result: PortResult, banner: Option<String>) -> (r: PortResult)
    ensures
        r.view() == identified(port_result.view(), opt_view(banner)),
{
    let mut pr = port_result;
    if !crate::text::str_eq(pr.state.as_str(), "open") {
        return pr;
    }
    match banner {
        Some(b) => {
            let default = guess_service_by_port(pr.port);
            let m = match_banner(pr.port, b.as_str(), default);
            pr.banner = Some(b);
            match m {
                Some((service, version, confidence)) => {
                    pr.service = Some(service);
                    pr.version = version;
                    pr.confidence = confidence;
                    pr.probe_method = String::from_str("banner");
                },
                None => {},
            }
        },
        None => {
            pr.service = match guess_service_by_port(pr.port) {
                Some(s) => Some(String::from_str(s)),
                None => None,
            };
            pr.confidence = 20;
        },
    }
    pr
}

} // verus!
