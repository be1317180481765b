use vstd::prelude::*;
use vstd::string::StrSliceExecFns;
use vstd::string::StringSliceAdditionalSpecFns;
use crate::arc_error::ArcError;
use crate::text::{trimmed, trim_str, utf8, str_eq};

verus! {

/// Where ACME state is cached unless configured.
pub fn default_cache_dir() -> (r: String)
    ensures
        r@ == "/var/lib/arc/acme"@,
{
    String::from_str("/var/lib/arc/acme")
}

/// The environment variable holding the ACME master key unless configured.
pub fn default_master_key_env() -> (r: String)
    ensures
        r@ == "ARC_MASTER_KEY"@,
{
    String::from_str("ARC_MASTER_KEY")
}

/// The ACME challenge used unless configured.
pub fn default_challenge() -> (r: String)
    ensures
        r@ == "tls-alpn-01"@,
{
    String::from_str("tls-alpn-01")
}

/// What `std::path::Path::extension` gives for a path, as text.
pub uninterp spec fn path_extension(path: Seq<char>) -> Option<Seq<char>>;

/// `Path::new(path).extension()` as text: the part of the file name after
/// its last dot (none for names without a dot or with only a leading one).
/// Depends on the path alone.
#[verifier::external_body]
fn extension_of(path: &str) -> (r: Option<String>)
    ensures
        r matches Some(e) ==> path_extension(path@) == Some(e@),
        r is None ==> path_extension(path@) is None,
{
    match std::path::Path::new(path).extension() {
        Some(e) => e.to_str().map(|s| s.to_string()),
        None => None,
    }
}

/// Format of a configuration file.
#[derive(Clone, Copy, Debug, PartialEq, Eq, Structural)]
pub enum ConfigSourceFormat {
    Json,
    Toml,
    Yaml,
}

/// ASCII lower case of each character.
pub open spec fn ascii_lower(s: Seq<char>) -> Seq<char> {
    s.map_values(|c: char| crate::control_helpers::lower_char(c))
}

fn ascii_lower_str(s: &str) -> (r: Vec<char>)
    ensures
        r@ == ascii_lower(s@),
{
    let n = s.unicode_len();
    let mut v: Vec<char> = Vec::new();
    let mut i: usize = 0;
    while i < n
        invariant
            n == s@.len(),
            i <= n,
            v@ == ascii_lower(s@.take(i as int)),
        decreases n - i,
    {
        let c = s.get_char(i);
        v.push(if 'A' <= c && c <= 'Z' { ((c as u8) + 32u8) as char } else { c });
        proof {
            assert(s@.take(i as int + 1) =~= s@.take(i as int).push(c));
            assert(ascii_lower(s@.take(i as int + 1)) =~= ascii_lower(s@.take(i as int)).push(
                crate::control_helpers::lower_char(c),
            ));
        }
        i = i + 1;
    }
    proof {
        assert(s@.take(n as int) =~= s@);
    }
    v
}

fn vec_is(v: &Vec<char>, lit: &str) -> (r: bool)
    ensures
        r == (v@ == lit@),
{
    let n = lit.unicode_len();
    if v.len() != n {
        return false;
    }
    let mut i: usize = 0;
    while i < n
        invariant
            n == lit@.len(),
            v@.len() == n,
            i <= n,
            forall|j: int| 0 <= j < i ==> v@[j] == lit@[j],
        decreases n - i,
    {
        if v[i] != lit.get_char(i) {
            return false;
        }
        i = i + 1;
    }
    assert(v@ =~= lit@);
    true
}

/// The format a configuration path's extension names.
pub open spec fn format_of(ext: Seq<char>) -> Option<ConfigSourceFormat> {
    let e = ascii_lower(ext);
    if e == "json"@ {
        Some(ConfigSourceFormat::Json)
    } else if e == "toml"@ {
        Some(ConfigSourceFormat::Toml)
    } else if e == "yaml"@ || e == "yml"@ {
        Some(ConfigSourceFormat::Yaml)
    } else {
        None
    }
}

impl ConfigSourceFormat {
    /// The format of a configuration file by its extension (ASCII case
    /// ignored): `.json`, `.toml`, `.yaml` or `.yml`; anything else is a
    /// config error naming the path.
    pub fn from_path(path: &str) -> (r: Result<Self, ArcError>)
        ensures
            match path_extension(path@) {
                None => r matches Err(e) && e is Config && e.config_msg() == "unsupported config file extension for '"@
                    + path@ + "': expected .json/.toml/.yaml/.yml"@,
                Some(x) => match format_of(x) {
                    Some(f) => r == Ok::<ConfigSourceFormat, ArcError>(f),
                    None => r matches Err(e) && e is Config && e.config_msg() == "unsupported config file extension '."@
                        + ascii_lower(x) + "' for '"@ + path@ + "': expected .json/.toml/.yaml/.yml"@,
                },
            },
    {
        let ext = match extension_of(path) {
            Some(e) => e,
            None => {
                let mut m = String::from_str("unsupported config file extension for '");
                m.append(path);
                m.append("': expected .json/.toml/.yaml/.yml");
                return Err(ArcError::config(m));
            },
        };
        let lower = ascii_lower_str(ext.as_str());
        if vec_is(&lower, "json") {
            Ok(ConfigSourceFormat::Json)
        } else if vec_is(&lower, "toml") {
            Ok(ConfigSourceFormat::Toml)
        } else if vec_is(&lower, "yaml") || vec_is(&lower, "yml") {
            Ok(ConfigSourceFormat::Yaml)
        } else {
            let mut m = String::from_str("unsupported config file extension '.");
            let mut i: usize = 0;
            let ghost start = m@;
            while i < lower.len()
                invariant
                    i <= lower@.len(),
                    m@ == start + lower@.take(i as int),
                decreases lower@.len() - i,
            {
                let c = lower[i];
                append_char(&mut m, c);
                proof {
                    assert(lower@.take(i as int + 1) =~= lower@.take(i as int).push(c));
                }
                i = i + 1;
            }
            proof {
                assert(lower@.take(lower@.len() as int) =~= lower@);
            }
            m.append("' for '");
            m.append(path);
            m.append("': expected .json/.toml/.yaml/.yml");
            Err(ArcError::config(m))
        }
    }
}

/// Appends one character to a string.
#[verifier::external_body]
fn append_char(s: &mut String, c: char)
    ensures
        final(s)@ == old(s)@.push(c),
{
    s.push(c)
}

/// `s` without its trailing dots.
pub open spec fn strip_dots(s: Seq<char>) -> Seq<char>
    decreases s.len(),
{
    if s.len() > 0 && s.last() == '.' { strip_dots(s.drop_last()) } else { s }
}

/// A host name for certificate lookup: trimmed, trailing dots removed;
/// refused when that leaves nothing or it holds white space or a slash.
pub open spec fn normalized_host(host: Seq<char>) -> Option<Seq<char>> {
    let h = strip_dots(trimmed(host));
    if h.len() == 0 {
        None
    } else if exists|i: int| 0 <= i < utf8(h).len() && #[trigger] bad_host_byte(utf8(h)[i]) {
        None
    } else {
        Some(h)
    }
}

/// ASCII white space or `/`.
pub open spec fn bad_host_byte(b: u8) -> bool {
    crate::ascii::is_ws(b) || b == 0x2Fu8
}

/// Normalizes a host name for certificate lookup.
pub fn normalize_host(host: &str) -> (r: Option<&str>)
    ensures
        r matches Some(h) ==> normalized_host(host@) == Some(h@),
        r is None ==> normalized_host(host@) is None,
{
    let t = trim_str(host);
    let mut k = t.unicode_len();
    proof {
        assert(t@.take(k as int) =~= t@);
    }
    while k > 0 && t.get_char(k - 1) == '.'
        invariant
            k <= t@.len(),
            strip_dots(t@) == strip_dots(t@.take(k as int)),
        decreases k,
    {
        proof {
            assert(t@.take(k as int).drop_last() =~= t@.take(k as int - 1));
        }
        k = k - 1;
    }
    let h = t.substring_char(0, k);
    proof {
        assert(h@ =~= t@.take(k as int));
    }
    if k == 0 {
        return None;
    }
    let b = h.as_bytes();
    let mut i: usize = 0;
    while i < b.len()
        invariant
            i <= b@.len(),
            b@ == utf8(h@),
            h@ == strip_dots(trimmed(host@)),
            h@.len() > 0,
            forall|j: int| 0 <= j < i ==> !#[trigger] bad_host_byte(b@[j]),
        decreases b@.len() - i,
    {
        if crate::ascii::is_ascii_ws(b[i]) || b[i] == 0x2Fu8 {
            proof {
                assert(bad_host_byte(b@[i as int]));
                assert(bad_host_byte(utf8(h@)[i as int]));
            }
            return None;
        }
        i = i + 1;
    }
    Some(h)
}

/// The ACME challenge to answer.
#[derive(Clone, Copy, Debug, PartialEq, Eq, Structural)]
pub enum AcmeChallenge {
    TlsAlpn01,
    Http01,
}

/// The ACME section of a config file as read (`downstream_tls.acme`),
/// defaults filled in.
#[derive(Clone, Debug)]
pub struct AcmeFileConfig {
    pub enabled: bool,
    pub email: Option<String>,
    pub domains: Vec<String>,
    pub staging: bool,
    pub directory_url: Option<String>,
    pub directory_ca_pem: Option<String>,
    pub cache_dir: String,
    pub master_key_env: String,
    pub challenge: String,
    pub http01_listen: Option<String>,
    pub startup_jitter_secs: Option<u64>,
    pub runtime_threads: Option<usize>,
}

/// What starting ACME takes from an enabled section once it is checked.
#[derive(Clone, Debug)]
pub struct AcmePlan {
    pub email: String,
    pub challenge: AcmeChallenge,
    /// Whether an HTTP-01 listener address was given (and is to be read).
    pub has_http01_listen: bool,
    pub startup_jitter_secs: u64,
    pub runtime_threads: usize,
}

/// Why an enabled ACME section is refused, if it is: an empty e-mail
/// (after trimming), no domains, an unknown challenge, a listener address
/// that does not parse (`listen_error`, the parser's message), or HTTP-01
/// without a listener.
pub open spec fn acme_refusal(c: AcmeFileConfig, listen_error: Option<Seq<char>>) -> Option<Seq<char>> {
    let email = match c.email {
        Some(e) => trimmed(e@),
        None => Seq::empty(),
    };
    if email.len() == 0 {
        Some("downstream_tls.acme.enabled=true but email is empty"@)
    } else if c.domains@.len() == 0 {
        Some("downstream_tls.acme.enabled=true but domains is empty"@)
    } else if c.challenge@ != "tls-alpn-01"@ && c.challenge@ != "http-01"@ {
        Some("downstream_tls.acme.challenge must be 'tls-alpn-01' or 'http-01', got '"@ + c.challenge@ + "'"@)
    } else if c.http01_listen is Some && listen_error is Some {
        Some("invalid downstream_tls.acme.http01_listen: "@ + listen_error->0)
    } else if c.challenge@ == "http-01"@ && c.http01_listen is None {
        Some("downstream_tls.acme.challenge=http-01 requires downstream_tls.acme.http01_listen"@)
    } else {
        None
    }
}

/// Checks an enabled ACME section: the trimmed e-mail, the challenge, and
/// the start-up jitter (30 minutes) and worker threads (2) unless given;
/// each refusal is a config error naming the rule. The caller parses
/// `http01_listen` as a socket address and hands in the parser's message
/// when that fails (`None` when it parses or is absent).
pub fn acme_plan(c: &AcmeFileConfig, listen_error: Option<String>) -> (r: Result<AcmePlan, ArcError>)
    ensures
        match acme_refusal(*c, match listen_error {
            Some(e) => Some(e@),
            None => None,
        }) {
            Some(m) => r matches Err(e) && e is Config && e.config_msg() == m,
            None => r matches Ok(p) && p.email@ == (match c.email {
                Some(e) => trimmed(e@),
                None => Seq::empty(),
            }) && p.challenge == (if c.challenge@ == "http-01"@ {
                AcmeChallenge::Http01
            } else {
                AcmeChallenge::TlsAlpn01
            }) && p.has_http01_listen == c.http01_listen is Some && p.startup_jitter_secs == (match c.startup_jitter_secs {
                Some(j) => j,
                None => 1800,
            }) && p.runtime_threads == (match c.runtime_threads {
                Some(t) => t,
                None => 2,
            }),
        },
{
    let email = match &c.email {
        Some(e) => String::from_str(trim_str(e.as_str())),
        None => String::new(),
    };
    if email.as_str().unicode_len() == 0 {
        return Err(ArcError::config(String::from_str("downstream_tls.acme.enabled=true but email is empty")));
    }
    if c.domains.len() == 0 {
        return Err(ArcError::config(String::from_str("downstream_tls.acme.enabled=true but domains is empty")));
    }
    proof {
        reveal_strlit("tls-alpn-01");
        reveal_strlit("http-01");
        assert("tls-alpn-01"@.len() == 11);
        assert("http-01"@.len() == 7);
    }
    let challenge = if str_eq(c.challenge.as_str(), "tls-alpn-01") {
        AcmeChallenge::TlsAlpn01
    } else if str_eq(c.challenge.as_str(), "http-01") {
        AcmeChallenge::Http01
    } else {
        let mut m = String::from_str("downstream_tls.acme.challenge must be 'tls-alpn-01' or 'http-01', got '");
        m.append(c.challenge.as_str());
        m.append("'");
        return Err(ArcError::config(m));
    };
    if c.http01_listen.is_some() {
        if let Some(e) = listen_error {
            let mut m = String::from_str("invalid downstream_tls.acme.http01_listen: ");
            m.append(e.as_str());
            return Err(ArcError::config(m));
        }
    }
    if challenge == AcmeChallenge::Http01 && c.http01_listen.is_none() {
        return Err(ArcError::config(
            String::from_str("downstream_tls.acme.challenge=http-01 requires downstream_tls.acme.http01_listen"),
        ));
    }
    Ok(AcmePlan {
        email,
        challenge,
        has_http01_listen: c.http01_listen.is_some(),
        startup_jitter_secs: match c.startup_jitter_secs {
            Some(j) => j,
            None => 1800,
        },
        runtime_threads: match c.runtime_threads {
            Some(t) => t,
            None => 2,
        },
    })
}

/// The cluster members that certificate work is spread over: the
/// configured ones, or this node alone when none are configured.
pub fn acme_members(members: &Vec<String>, node_id: &String) -> (r: Vec<String>)
    ensures
        members@.len() == 0 ==> r@.len() == 1 && r@[0]@ == node_id@,
        members@.len() > 0 ==> r@.len() == members@.len() && forall|i: int|
            0 <= i < members@.len() ==> #[trigger] r@[i]@ == members@[i]@,
{
    let mut out: Vec<String> = Vec::new();
    if members.len() == 0 {
        out.push(node_id.clone());
        return out;
    }
    let mut i: usize = 0;
    while i < members.len()
        invariant
            i <= members@.len(),
            out@.len() == i,
            forall|j: int| 0 <= j < i ==> #[trigger] out@[j]@ == members@[j]@,
        decreases members@.len() - i,
    {
        out.push(members[i].clone());
        i = i + 1;
    }
    out
}

/// How often, in seconds, the certificate runtime wakes: the configured
/// poll interval, at least once a second.
pub fn acme_tick_secs(poll_interval_secs: u64) -> (r: u64)
    ensures
        r == if poll_interval_secs >= 1 { poll_interval_secs } else { 1 },
{
    if poll_interval_secs >= 1 {
        poll_interval_secs
    } else {
        1
    }
}

} // verus!
