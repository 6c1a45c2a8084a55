//! Configuration from environment variables.

use vstd::prelude::*;
use vstd::string::*;

use crate::chars;

verus! {

/// The port where none is configured.
pub const DEFAULT_PORT: u16 = 3000;

/// How long a disconnected legacy SSE session lingers, in seconds, where
/// nothing is configured.
pub const DEFAULT_SESSION_TTL_SECS: u64 = 1800;

/// Seconds between legacy SSE keep-alive comments where nothing is configured.
pub const DEFAULT_KEEPALIVE_SECS: u64 = 15;

#[derive(Debug)]
pub struct Config {
    /// Bearer token required on all MCP transport endpoints. `None` disables
    /// authentication entirely (logged loudly at startup).
    pub token: Option<String>,
    /// Bind address. Defaults to loopback.
    pub host: String,
    pub port: u16,
    /// Canonicalized workspace root; the file tools are jailed inside it.
    pub workspace: Vec<u8>,
    /// Hosts accepted in the MCP endpoint's `Host` header. Empty accepts any
    /// host.
    pub allowed_hosts: Vec<String>,
    /// Exact `Origin` values allowed on MCP endpoints; empty enables the
    /// localhost default (any port on localhost / 127.0.0.1 / [::1]).
    pub allowed_origins: Vec<String>,
    /// How long a disconnected legacy SSE session lingers before removal, in
    /// nanoseconds.
    pub sse_session_ttl: u128,
    /// Interval between legacy SSE `: keepalive` comments, in nanoseconds.
    pub sse_keepalive: u128,
}

/// The environment variables that are read; nothing where one is not set.
#[derive(Debug)]
pub struct EnvVars {
    pub token: Option<String>,
    pub host: Option<String>,
    pub port: Option<String>,
    pub workspace: Option<String>,
    pub allowed_hosts: Option<String>,
    pub allowed_origins: Option<String>,
}

/// Why there is no configuration: a message, and what caused it.
#[derive(Debug)]
pub struct ConfigError {
    pub message: String,
    pub cause: Option<String>,
}

/// An error with this message and cause.
pub open spec fn is_error(e: ConfigError, message: Seq<char>, cause: Option<Seq<char>>) -> bool {
    e.message@ == message && chars::text_of(e.cause) == cause
}

// ---------------------------------------------------------------------------
// Single values
// ---------------------------------------------------------------------------

/// The token, trimmed; nothing where nothing is left of it.
pub open spec fn token_of(value: Option<Seq<char>>) -> Option<Seq<char>> {
    match value {
        Some(s) => if chars::trimmed(s).len() > 0 {
            Some(chars::trimmed(s))
        } else {
            None
        },
        None => None,
    }
}

fn read_token(value: &Option<String>) -> (r: Option<String>)
    ensures
        chars::text_of(r) == token_of(chars::text_of(*value)),
{
    match value {
        Some(s) => {
            let s: Vec<char> = chars::to_chars(s.as_str());
            let t: &[char] = chars::trim(s.as_slice());
            if t.len() > 0 {
                Some(chars::from_chars(t))
            } else {
                None
            }
        },
        None => None,
    }
}

/// The value of a variable, or a default.
pub open spec fn or_default(value: Option<Seq<char>>, default: Seq<char>) -> Seq<char> {
    match value {
        Some(s) => s,
        None => default,
    }
}

/// The configured bind address.
pub fn host_text(vars: &EnvVars) -> (r: String)
    ensures
        r@ == or_default(chars::text_of(vars.host), "127.0.0.1"@),
{
    match &vars.host {
        Some(s) => s.clone(),
        None => String::from_str("127.0.0.1"),
    }
}

/// The configured workspace directory, before it is resolved.
pub fn workspace_text(vars: &EnvVars) -> (r: String)
    ensures
        r@ == or_default(chars::text_of(vars.workspace), "/workspace"@),
{
    match &vars.workspace {
        Some(s) => s.clone(),
        None => String::from_str("/workspace"),
    }
}

/// Why a text is no port number.
#[derive(Debug, Clone, Copy, PartialEq, Eq, Structural)]
pub enum PortError {
    Empty,
    InvalidDigit,
    TooLarge,
}

/// The value of the digits from `i` on behind those that make up `sum`.
pub open spec fn digits_value(s: Seq<char>, i: int, sum: int) -> Result<u16, PortError>
    decreases s.len() - i,
{
    if i < 0 || i >= s.len() {
        Ok(sum as u16)
    } else if !('0' <= s[i] <= '9') {
        Err(PortError::InvalidDigit)
    } else if sum * 10 + (s[i] as int - '0' as int) > 65535 {
        Err(PortError::TooLarge)
    } else {
        digits_value(s, i + 1, sum * 10 + (s[i] as int - '0' as int))
    }
}

/// The port that a text names: decimal digits, after a plus sign or not.
pub open spec fn port_value(s: Seq<char>) -> Result<u16, PortError> {
    if s.len() == 0 {
        Err(PortError::Empty)
    } else if s[0] == '+' && s.len() == 1 {
        Err(PortError::InvalidDigit)
    } else if s[0] == '+' {
        digits_value(s, 1, 0)
    } else {
        digits_value(s, 0, 0)
    }
}

/// The port that a text names.
pub fn parse_port(text: &str) -> (r: Result<u16, PortError>)
    ensures
        r == port_value(text@),
{
    let s: Vec<char> = chars::to_chars(text);
    let n: usize = s.len();
    if n == 0 {
        return Err(PortError::Empty);
    }
    let mut i: usize = 0;
    if s[0] == '+' {
        if n == 1 {
            return Err(PortError::InvalidDigit);
        }
        i = 1;
    }
    let mut sum: u32 = 0;
    while i < n
        invariant
            n == s@.len(),
            s@ == text@,
            i <= n,
            sum <= 65535,
            port_value(s@) == digits_value(s@, i as int, sum as int),
        decreases n - i,
    {
        let c: char = s[i];
        if c < '0' || c > '9' {
            return Err(PortError::InvalidDigit);
        }
        let next: u32 = sum * 10 + (c as u32 - '0' as u32);
        if next > 65535 {
            return Err(PortError::TooLarge);
        }
        sum = next;
        i = i + 1;
    }
    Ok(sum as u16)
}

/// What is wrong with a port, in words.
pub open spec fn port_error_text(e: PortError) -> Seq<char> {
    match e {
        PortError::Empty => "cannot parse integer from empty string"@,
        PortError::InvalidDigit => "invalid digit found in string"@,
        PortError::TooLarge => "number too large to fit in target type"@,
    }
}

/// The configured port.
pub open spec fn port_of(value: Option<Seq<char>>) -> Result<u16, PortError> {
    match value {
        Some(s) => port_value(s),
        None => Ok(DEFAULT_PORT),
    }
}

fn read_port(value: &Option<String>) -> (r: Result<u16, ConfigError>)
    ensures
        match (r, port_of(chars::text_of(*value))) {
            (Ok(port), Ok(p)) => port == p,
            (Err(e), Err(p)) => is_error(e, "invalid MCPOD_PORT"@, Some(port_error_text(p))),
            _ => false,
        },
{
    match value {
        Some(s) => match parse_port(s.as_str()) {
            Ok(port) => Ok(port),
            Err(e) => {
                let cause: String = match e {
                    PortError::Empty => String::from_str("cannot parse integer from empty string"),
                    PortError::InvalidDigit => String::from_str("invalid digit found in string"),
                    PortError::TooLarge => String::from_str(
                        "number too large to fit in target type",
                    ),
                };
                Err(
                    ConfigError {
                        message: String::from_str("invalid MCPOD_PORT"),
                        cause: Some(cause),
                    },
                )
            },
        },
        None => Ok(DEFAULT_PORT),
    }
}

/// The trimmed parts among the first `n`, without the empty ones.
pub open spec fn kept_parts(parts: Seq<Seq<char>>, n: nat) -> Seq<Seq<char>>
    decreases n,
{
    if n == 0 {
        Seq::empty()
    } else {
        let before = kept_parts(parts, (n - 1) as nat);
        let part = chars::trimmed(parts[n - 1]);
        if part.len() == 0 {
            before
        } else {
            before.push(part)
        }
    }
}

/// The values of a comma-separated list.
pub open spec fn csv_values(s: Seq<char>) -> Seq<Seq<char>> {
    kept_parts(chars::split(s, ','), chars::split(s, ',').len())
}

/// The values of a comma-separated list; none where the variable is not set.
pub fn csv_env(value: &Option<String>) -> (r: Vec<String>)
    ensures
        chars::texts(r@) == (match chars::text_of(*value) {
            Some(s) => csv_values(s),
            None => Seq::empty(),
        }),
{
    let mut r: Vec<String> = Vec::new();
    let text: &String = match value {
        Some(s) => s,
        None => {
            assert(chars::texts(r@) == Seq::<Seq<char>>::empty());
            return r;
        },
    };
    let s: Vec<char> = chars::to_chars(text.as_str());
    let parts: Vec<&[char]> = chars::split_at_char(s.as_slice(), ',');
    let n: usize = parts.len();
    let ghost all = chars::split(s@, ',');
    assert(chars::contents(parts@).len() == parts@.len());
    let mut i: usize = 0;
    assert(chars::texts(r@) == kept_parts(all, 0));
    while i < n
        invariant
            n == parts@.len(),
            all == chars::contents(parts@),
            i <= n,
            chars::texts(r@) == kept_parts(all, i as nat),
        decreases n - i,
    {
        let part: &[char] = chars::trim(parts[i]);
        assert(all[i as int] == parts@[i as int]@);
        if part.len() > 0 {
            let ghost before = chars::texts(r@);
            r.push(chars::from_chars(part));
            assert(chars::texts(r@) == before.push(part@));
        }
        i = i + 1;
    }
    r
}

// ---------------------------------------------------------------------------
// Durations
// ---------------------------------------------------------------------------

/// A configured duration, taken apart.
#[derive(Debug)]
pub struct DurationText {
    /// The value, trimmed.
    pub raw: String,
    /// What stands before the unit, trimmed.
    pub number: String,
    /// The unit, trimmed.
    pub unit: String,
}

/// What the number of a duration is.
#[derive(Debug)]
pub enum Number {
    /// Not a number, for this reason.
    Malformed(String),
    /// Not finite, or not above zero.
    NotPositive,
    Positive,
}

/// Where the unit begins: at the first ASCII letter from `i` on.
pub open spec fn unit_start(s: Seq<char>, i: int) -> int
    decreases s.len() - i,
{
    if 0 <= i < s.len() && !('a' <= s[i] <= 'z' || 'A' <= s[i] <= 'Z') {
        unit_start(s, i + 1)
    } else {
        i
    }
}

/// Take a duration apart; nothing where the default counts, because the
/// variable is not set or blank.
pub fn split_duration(value: &Option<String>) -> (r: Option<DurationText>)
    ensures
        match chars::text_of(*value) {
            None => r is None,
            Some(s) => {
                let raw = chars::trimmed(s);
                if raw.len() == 0 {
                    r is None
                } else {
                    r matches Some(d) && d.raw@ == raw && d.number@ == chars::trimmed(
                        raw.take(unit_start(raw, 0)),
                    ) && d.unit@ == chars::trimmed(raw.skip(unit_start(raw, 0)))
                }
            },
        },
{
    let text: &String = match value {
        Some(s) => s,
        None => {
            return None;
        },
    };
    let s: Vec<char> = chars::to_chars(text.as_str());
    let raw: &[char] = chars::trim(s.as_slice());
    let n: usize = raw.len();
    if n == 0 {
        return None;
    }
    let mut at: usize = 0;
    while at < n && !((raw[at] >= 'a' && raw[at] <= 'z') || (raw[at] >= 'A' && raw[at] <= 'Z'))
        invariant
            n == raw@.len(),
            at <= n,
            unit_start(raw@, 0) == unit_start(raw@, at as int),
        decreases n - at,
    {
        at = at + 1;
    }
    let number: &[char] = vstd::slice::slice_subrange(raw, 0, at);
    let unit: &[char] = vstd::slice::slice_subrange(raw, at, n);
    assert(number@ == raw@.take(at as int));
    assert(unit@ == raw@.skip(at as int));
    Some(
        DurationText {
            raw: chars::from_chars(raw),
            number: chars::from_chars(chars::trim(number)),
            unit: chars::from_chars(chars::trim(unit)),
        },
    )
}

/// How many seconds a unit has.
pub open spec fn unit_seconds(unit: Seq<char>) -> Option<u64> {
    if unit == ""@ || unit == "s"@ {
        Some(1u64)
    } else if unit == "m"@ {
        Some(60u64)
    } else if unit == "h"@ {
        Some(3600u64)
    } else {
        None
    }
}

/// How many seconds the unit of a duration has, given what its number is; or
/// what is wrong with the duration.
pub fn duration_unit(name: &str, text: &DurationText, number: Number) -> (r: Result<
    u64,
    ConfigError,
>)
    ensures
        match number {
            Number::Malformed(cause) => r matches Err(e) && is_error(
                e,
                "invalid "@ + name@ + ": "@ + text.raw@,
                Some(cause@),
            ),
            Number::NotPositive => r matches Err(e) && is_error(
                e,
                "invalid "@ + name@ + ": "@ + text.raw@ + " (must be positive)"@,
                None,
            ),
            Number::Positive => match unit_seconds(text.unit@) {
                Some(seconds) => r == Ok::<u64, ConfigError>(seconds),
                None => r matches Err(e) && is_error(
                    e,
                    "invalid "@ + name@ + " unit: "@ + text.unit@ + " (use s, m, or h)"@,
                    None,
                ),
            },
        },
{
    let mut m: String = String::from_str("invalid ");
    m.append(name);
    match number {
        Number::Malformed(cause) => {
            m.append(": ");
            m.append(text.raw.as_str());
            return Err(ConfigError { message: m, cause: Some(cause) });
        },
        Number::NotPositive => {
            m.append(": ");
            m.append(text.raw.as_str());
            m.append(" (must be positive)");
            return Err(ConfigError { message: m, cause: None });
        },
        Number::Positive => {},
    }
    let unit: &str = text.unit.as_str();
    if chars::same_text(unit, "") || chars::same_text(unit, "s") {
        Ok(1)
    } else if chars::same_text(unit, "m") {
        Ok(60)
    } else if chars::same_text(unit, "h") {
        Ok(3600)
    } else {
        m.append(" unit: ");
        m.append(unit);
        m.append(" (use s, m, or h)");
        Err(ConfigError { message: m, cause: None })
    }
}

// ---------------------------------------------------------------------------
// The configuration
// ---------------------------------------------------------------------------

/// Check what needs no file system: the bind address, which is parsed
/// elsewhere and has this outcome, and the port.
pub fn check_address(vars: &EnvVars, host: Result<(), String>) -> (r: Result<u16, ConfigError>)
    ensures
        match (host, port_of(chars::text_of(vars.port))) {
            (Err(cause), _) => r matches Err(e) && is_error(
                e,
                "invalid MCPOD_HOST"@,
                Some(cause@),
            ),
            (Ok(_), Err(p)) => r matches Err(e) && is_error(
                e,
                "invalid MCPOD_PORT"@,
                Some(port_error_text(p)),
            ),
            (Ok(_), Ok(port)) => r == Ok::<u16, ConfigError>(port),
        },
{
    match host {
        Err(cause) => Err(
            ConfigError {
                message: String::from_str("invalid MCPOD_HOST"),
                cause: Some(cause),
            },
        ),
        Ok(_) => read_port(&vars.port),
    }
}

impl Config {
    /// The configuration that the variables describe, given the outcome of
    /// parsing the bind address, of resolving the workspace and of reading the
    /// two durations. The first problem in this order is reported: bind
    /// address, port, workspace, session lifetime, keep-alive.
    pub fn from_env(
        vars: &EnvVars,
        host: Result<(), String>,
        workspace: Result<Vec<u8>, String>,
        sse_session_ttl: Result<u128, ConfigError>,
        sse_keepalive: Result<u128, ConfigError>,
    ) -> (r: Result<Config, ConfigError>)
        ensures
            match (
                host,
                port_of(chars::text_of(vars.port)),
                workspace,
                sse_session_ttl,
                sse_keepalive,
            ) {
                (Err(cause), _, _, _, _) => r matches Err(e) && is_error(
                    e,
                    "invalid MCPOD_HOST"@,
                    Some(cause@),
                ),
                (Ok(_), Err(p), _, _, _) => r matches Err(e) && is_error(
                    e,
                    "invalid MCPOD_PORT"@,
                    Some(port_error_text(p)),
                ),
                (Ok(_), Ok(_), Err(cause), _, _) => r matches Err(e) && is_error(
                    e,
                    "invalid MCPOD_WORKSPACE"@,
                    Some(cause@),
                ),
                (Ok(_), Ok(_), Ok(_), Err(problem), _) => r == Err::<Config, ConfigError>(problem),
                (Ok(_), Ok(_), Ok(_), Ok(_), Err(problem)) => r == Err::<Config, ConfigError>(
                    problem,
                ),
                (Ok(_), Ok(port), Ok(root), Ok(ttl), Ok(keepalive)) => r matches Ok(config) && {
                    &&& chars::text_of(config.token) == token_of(chars::text_of(vars.token))
                    &&& config.host@ == or_default(chars::text_of(vars.host), "127.0.0.1"@)
                    &&& config.port == port
                    &&& config.workspace@ == root@
                    &&& chars::texts(config.allowed_hosts@) == (match chars::text_of(vars.allowed_hosts) {
                        Some(s) => csv_values(s),
                        None => Seq::empty(),
                    })
                    &&& chars::texts(config.allowed_origins@) == (match chars::text_of(vars.allowed_origins) {
                        Some(s) => csv_values(s),
                        None => Seq::empty(),
                    })
                    &&& config.sse_session_ttl == ttl
                    &&& config.sse_keepalive == keepalive
                },
            },
    {
        let port: u16 = match check_address(vars, host) {
            Ok(port) => port,
            Err(e) => {
                return Err(e);
            },
        };
        let workspace: Vec<u8> = match workspace {
            Ok(workspace) => workspace,
            Err(cause) => {
                return Err(
                    ConfigError {
                        message: String::from_str("invalid MCPOD_WORKSPACE"),
                        cause: Some(cause),
                    },
                );
            },
        };
        let sse_session_ttl: u128 = match sse_session_ttl {
            Ok(ttl) => ttl,
            Err(e) => {
                return Err(e);
            },
        };
        let sse_keepalive: u128 = match sse_keepalive {
            Ok(keepalive) => keepalive,
            Err(e) => {
                return Err(e);
            },
        };
        Ok(
            Config {
                token: read_token(&vars.token),
                host: host_text(vars),
                port,
                workspace,
                allowed_hosts: csv_env(&vars.allowed_hosts),
                allowed_origins: csv_env(&vars.allowed_origins),
                sse_session_ttl,
                sse_keepalive,
            },
        )
    }

    /// True when `origin` passes the Origin allowlist. An empty allowlist
    /// defaults to loopback hosts with any port, http or https.
    pub fn origin_allowed(&self, origin: &str) -> (r: bool)
        ensures
            r == allows_origin(chars::texts(self.allowed_origins@), origin@),
    {
        let n: usize = self.allowed_origins.len();
        let ghost all = chars::texts(self.allowed_origins@);
        if n > 0 {
            let mut i: usize = 0;
            while i < n
                invariant
                    n == self.allowed_origins@.len(),
                    n == all.len(),
                    n > 0,
                    all == chars::texts(self.allowed_origins@),
                    i <= n,
                    forall|k: int| 0 <= k < i ==> #[trigger] all[k] != origin@,
                decreases n - i,
            {
                if chars::same_text(self.allowed_origins[i].as_str(), origin) {
                    assert(all[i as int] == origin@);
                    return true;
                }
                i = i + 1;
            }
            return false;
        }
        let s: Vec<char> = chars::to_chars(origin);
        let len: usize = s.len();
        let at: usize = match chars::position_of(s.as_slice(), "://") {
            Some(at) => at,
            None => {
                return false;
            },
        };
        proof {
            reveal_strlit("://");
        }
        let scheme: &[char] = vstd::slice::slice_subrange(s.as_slice(), 0, at);
        let rest: &[char] = vstd::slice::slice_subrange(s.as_slice(), at + 3, len);
        assert(scheme@ == origin@.take(at as int));
        assert(rest@ == origin@.skip(at + 3));
        if !chars::is_text(scheme, "http") && !chars::is_text(scheme, "https") {
            return false;
        }
        is_on_host(rest, "localhost") || is_on_host(rest, "127.0.0.1") || is_on_host(rest, "[::1]")
    }
}

/// Whether a text holds digits and nothing else.
pub open spec fn is_port_text(s: Seq<char>) -> bool {
    s.len() > 0 && forall|i: int| 0 <= i < s.len() ==> '0' <= #[trigger] s[i] <= '9'
}

/// Whether what follows the scheme of an origin is this host, alone or with a
/// port.
pub open spec fn on_host(rest: Seq<char>, host: Seq<char>) -> bool {
    chars::starts_with(rest, host) && {
        let port = rest.skip(host.len() as int);
        port.len() == 0 || (port[0] == ':' && is_port_text(port.skip(1)))
    }
}

/// Whether what follows the scheme of an origin is this host, alone or with a
/// port.
fn is_on_host(rest: &[char], host: &str) -> (r: bool)
    ensures
        r == on_host(rest@, host@),
{
    if !chars::has_prefix(rest, host) {
        return false;
    }
    let name: Vec<char> = chars::to_chars(host);
    let from: usize = name.len();
    let n: usize = rest.len();
    let ghost port = rest@.skip(from as int);
    if from == n {
        return true;
    }
    if rest[from] != ':' || from + 1 == n {
        return false;
    }
    let mut i: usize = from + 1;
    while i < n
        invariant
            n == rest@.len(),
            from < i <= n,
            from == host@.len(),
            port == rest@.skip(from as int),
            from + 1 < n,
            rest@[from as int] == ':',
            forall|k: int| 0 <= k < i - from - 1 ==> '0' <= #[trigger] port.skip(1)[k] <= '9',
        decreases n - i,
    {
        assert(port.skip(1)[i - from - 1] == rest@[i as int]);
        if rest[i] < '0' || rest[i] > '9' {
            assert(!is_port_text(port.skip(1))) by {
                let k = i - from - 1;
                assert(!('0' <= port.skip(1)[k] <= '9'));
            }
            return false;
        }
        i = i + 1;
    }
    true
}

/// Whether an origin is http or https on a loopback host, which is `localhost`,
/// `127.0.0.1` or `[::1]`, with or without a port.
pub open spec fn loopback_origin(origin: Seq<char>) -> bool {
    match chars::find_text(origin, "://"@, 0) {
        None => false,
        Some(at) => {
            let scheme = origin.take(at);
            let rest = origin.skip(at + 3);
            (scheme == "http"@ || scheme == "https"@) && (on_host(rest, "localhost"@) || on_host(
                rest,
                "127.0.0.1"@,
            ) || on_host(rest, "[::1]"@))
        },
    }
}

/// Whether an origin is on the list, or, where the list is empty, is a
/// loopback origin.
pub open spec fn allows_origin(list: Seq<Seq<char>>, origin: Seq<char>) -> bool {
    if list.len() > 0 {
        list.contains(origin)
    } else {
        loopback_origin(origin)
    }
}

/// With an allowlist exactly the listed origins pass, loopback or not.
pub proof fn allowlist_is_exact(list: Seq<Seq<char>>, origin: Seq<char>)
    requires
        list.len() > 0,
    ensures
        allows_origin(list, origin) <==> exists|i: int| 0 <= i < list.len() && list[i] == origin,
{
}

/// Without an allowlist nothing but http and https passes.
pub proof fn other_schemes_are_refused(origin: Seq<char>)
    requires
        chars::find_text(origin, "://"@, 0) matches Some(at) ==> origin.take(at) != "http"@
            && origin.take(at) != "https"@,
    ensures
        !allows_origin(Seq::empty(), origin),
{
}

/// Each value of a list is a trimmed part between commas. It is not empty, and
/// has no whitespace at its ends.
pub proof fn csv_values_are_clean(s: Seq<char>, i: int)
    requires
        0 <= i < csv_values(s).len(),
    ensures
        csv_values(s)[i].len() > 0,
        !chars::whitespace(csv_values(s)[i][0]),
        !chars::whitespace(csv_values(s)[i].last()),
        exists|part: Seq<char>| chars::split(s, ',').contains(part) && csv_values(s)[i]
            == #[trigger] chars::trimmed(part),
{
    lemma_kept_parts(chars::split(s, ','), chars::split(s, ',').len(), i);
    let part = choose|part: Seq<char>| chars::split(s, ',').contains(part) && csv_values(s)[i]
        == #[trigger] chars::trimmed(part);
    chars::lemma_trimmed_ends(part);
}

proof fn lemma_kept_parts(parts: Seq<Seq<char>>, n: nat, i: int)
    requires
        n <= parts.len(),
        0 <= i < kept_parts(parts, n).len(),
    ensures
        kept_parts(parts, n)[i].len() > 0,
        exists|part: Seq<char>| parts.contains(part) && kept_parts(parts, n)[i]
            == #[trigger] chars::trimmed(part),
    decreases n,
{
    let before = kept_parts(parts, (n - 1) as nat);
    if i < before.len() {
        lemma_kept_parts(parts, (n - 1) as nat, i);
    } else {
        assert(parts.contains(parts[n - 1]));
    }
}

/// A token is taken without the blanks around it, and a blank one counts as
/// none.
pub proof fn token_is_taken_without_blanks(front: Seq<char>, core: Seq<char>, back: Seq<char>)
    requires
        forall|i: int| 0 <= i < front.len() ==> chars::whitespace(#[trigger] front[i]),
        forall|i: int| 0 <= i < back.len() ==> chars::whitespace(#[trigger] back[i]),
        core.len() > 0 ==> !chars::whitespace(core[0]) && !chars::whitespace(core.last()),
    ensures
        token_of(Some(front + core + back)) == if core.len() > 0 {
            Some(core)
        } else {
            None
        },
        token_of(None) is None,
{
    chars::trimming_takes_off_blanks(front, core, back);
}

/// A variable that is set counts as it is; one that is not gives the default.
pub proof fn defaults_fill_in(value: Seq<char>, default: Seq<char>)
    ensures
        or_default(Some(value), default) == value,
        or_default(None, default) == default,
        port_of(None) == Ok::<u16, PortError>(3000),
        port_of(Some(value)) == port_value(value),
{
}

/// Whether a text is made of decimal digits.
pub open spec fn all_digits(s: Seq<char>) -> bool {
    forall|i: int| 0 <= i < s.len() ==> '0' <= #[trigger] s[i] <= '9'
}

proof fn lemma_number_grows(s: Seq<char>, i: int)
    requires
        all_digits(s),
        0 <= i <= s.len(),
    ensures
        0 <= chars::number(s.take(i)) <= chars::number(s),
    decreases s.len() - i,
{
    if i == s.len() {
        assert(s.take(i) == s);
        lemma_number_not_negative(s);
    } else {
        lemma_number_grows(s, i + 1);
        assert(s.take(i + 1).drop_last() == s.take(i));
        assert(s.take(i + 1).last() == s[i]);
        assert(all_digits(s.take(i))) by {
            assert forall|k: int| 0 <= k < s.take(i).len() implies '0'
                <= #[trigger] s.take(i)[k] <= '9' by {
                assert(s.take(i)[k] == s[k]);
            }
        }
        lemma_number_not_negative(s.take(i));
    }
}

proof fn lemma_number_not_negative(s: Seq<char>)
    requires
        all_digits(s),
    ensures
        chars::number(s) >= 0,
    decreases s.len(),
{
    if s.len() > 0 {
        let front = s.drop_last();
        assert forall|k: int| 0 <= k < front.len() implies '0' <= #[trigger] front[k]
            <= '9' by {
            assert(front[k] == s[k]);
        }
        lemma_number_not_negative(front);
        assert(s[s.len() - 1] == s.last());
        assert('0' <= s.last());
    }
}

proof fn lemma_digits_value(s: Seq<char>, from: int, i: int)
    requires
        0 <= from <= i <= s.len(),
        all_digits(s.skip(from)),
        chars::number(s.subrange(from, i)) <= 65535,
    ensures
        digits_value(s, i, chars::number(s.subrange(from, i))) == if chars::number(s.skip(from))
            <= 65535 {
            Ok::<u16, PortError>(chars::number(s.skip(from)) as u16)
        } else {
            Err::<u16, PortError>(PortError::TooLarge)
        },
    decreases s.len() - i,
{
    let digits = s.skip(from);
    if i == s.len() {
        assert(s.subrange(from, i) == digits);
    } else {
        assert(digits[i - from] == s[i]);
        let next = s.subrange(from, i + 1);
        assert(next.drop_last() == s.subrange(from, i));
        assert(next.last() == s[i]);
        assert(next == digits.take(i + 1 - from));
        lemma_number_grows(digits, i + 1 - from);
        if chars::number(next) <= 65535 {
            lemma_digits_value(s, from, i + 1);
        }
    }
}

/// A text of decimal digits, after a plus sign or not, is the port of that
/// number, if it is one, and too large if it is not.
pub proof fn port_is_the_number(digits: Seq<char>)
    requires
        digits.len() > 0,
        all_digits(digits),
    ensures
        chars::number(digits) <= 65535 ==> port_value(digits) == Ok::<u16, PortError>(
            chars::number(digits) as u16,
        ) && port_value(seq!['+'] + digits) == Ok::<u16, PortError>(chars::number(digits) as u16),
        chars::number(digits) > 65535 ==> port_value(digits) == Err::<u16, PortError>(
            PortError::TooLarge,
        ) && port_value(seq!['+'] + digits) == Err::<u16, PortError>(PortError::TooLarge),
{
    let none = Seq::<char>::empty();
    let signed = seq!['+'] + digits;
    assert('0' <= digits[0]);
    assert(digits[0] != '+');
    assert(digits.skip(0) == digits);
    assert(digits.subrange(0, 0) == none);
    assert(chars::number(none) == 0);
    lemma_digits_value(digits, 0, 0);
    assert(signed.skip(1) == digits);
    assert(signed.subrange(1, 1) == none);
    lemma_digits_value(signed, 1, 1);
}

/// Every port number can be configured, in decimal notation.
pub proof fn every_port_is_accepted(port: u16)
    ensures
        port_value(chars::decimal(port as nat)) == Ok::<u16, PortError>(port),
{
    chars::decimal_reads_back(port as nat);
    port_is_the_number(chars::decimal(port as nat));
}

/// What is empty, or holds anything but digits behind its sign, is no port.
pub proof fn other_texts_are_no_port(s: Seq<char>, i: int)
    requires
        s.len() == 0 || (0 <= i < s.len() && !('0' <= s[i] <= '9') && (i > 0 || s[0] != '+'
            || s.len() == 1)),
    ensures
        port_value(s) is Err,
{
    if s.len() > 1 || (s.len() == 1 && s[0] != '+') {
        let from: int = if s[0] == '+' {
            1
        } else {
            0
        };
        lemma_not_digits(s, from, i, 0);
    }
}

proof fn lemma_not_digits(s: Seq<char>, at: int, i: int, sum: int)
    requires
        0 <= at <= i < s.len(),
        !('0' <= s[i] <= '9'),
    ensures
        digits_value(s, at, sum) is Err,
    decreases i - at,
{
    if at < i && '0' <= s[at] <= '9' {
        lemma_not_digits(s, at + 1, i, sum * 10 + (s[at] as int - '0' as int));
    }
}

/// The values of a list come one by one, in their order: each part between
/// commas, without the blanks around it, unless it is blank.
pub proof fn csv_values_come_one_by_one(
    front: Seq<char>,
    core: Seq<char>,
    back: Seq<char>,
    rest: Seq<char>,
)
    requires
        forall|i: int| 0 <= i < front.len() ==> chars::whitespace(#[trigger] front[i]),
        forall|i: int| 0 <= i < back.len() ==> chars::whitespace(#[trigger] back[i]),
        core.len() > 0 ==> !chars::whitespace(core[0]) && !chars::whitespace(core.last()),
        forall|i: int| 0 <= i < core.len() ==> #[trigger] core[i] != ',',
    ensures
        ({
            let part = front + core + back;
            let own = if core.len() > 0 {
                seq![core]
            } else {
                Seq::<Seq<char>>::empty()
            };
            &&& csv_values(part) == own
            &&& csv_values(part.push(',') + rest) == own + csv_values(rest)
        }),
{
    let part = front + core + back;
    assert forall|i: int| 0 <= i < part.len() implies #[trigger] part[i] != ',' by {
        if i < front.len() {
            assert(part[i] == front[i]);
        } else if i < front.len() + core.len() {
            assert(part[i] == core[i - front.len()]);
        } else {
            assert(part[i] == back[i - front.len() - core.len()]);
        }
    }
    chars::trimming_takes_off_blanks(front, core, back);
    chars::separators_split_text(part, ',', rest);
    let one = seq![part];
    let more = chars::split(rest, ',');
    let own = if core.len() > 0 {
        seq![core]
    } else {
        Seq::<Seq<char>>::empty()
    };
    assert(kept_parts(one, 0) == Seq::<Seq<char>>::empty());
    assert(kept_parts(one, 1) == own);
    lemma_kept_parts_add(one, more, more.len());
}

proof fn lemma_kept_parts_add(a: Seq<Seq<char>>, b: Seq<Seq<char>>, n: nat)
    requires
        n <= b.len(),
    ensures
        kept_parts(a + b, a.len() + n) == kept_parts(a, a.len()) + kept_parts(b, n),
    decreases n,
{
    if n == 0 {
        lemma_kept_parts_front(a, b, a.len());
        assert(kept_parts(a, a.len()) + kept_parts(b, 0) == kept_parts(a, a.len()));
    } else {
        lemma_kept_parts_add(a, b, (n - 1) as nat);
        assert((a + b)[a.len() + n - 1] == b[n - 1]);
    }
}

proof fn lemma_kept_parts_front(a: Seq<Seq<char>>, b: Seq<Seq<char>>, n: nat)
    requires
        n <= a.len(),
    ensures
        kept_parts(a + b, n) == kept_parts(a, n),
    decreases n,
{
    if n > 0 {
        lemma_kept_parts_front(a, b, (n - 1) as nat);
        assert((a + b)[n - 1] == a[n - 1]);
    }
}

/// The unit of a duration begins at its first ASCII letter.
pub proof fn unit_begins_at_the_first_letter(s: Seq<char>, n: int)
    requires
        0 <= n <= s.len(),
        forall|i: int|
            0 <= i < n ==> !('a' <= #[trigger] s[i] <= 'z') && !('A' <= s[i] <= 'Z'),
        n < s.len() ==> 'a' <= s[n] <= 'z' || 'A' <= s[n] <= 'Z',
    ensures
        unit_start(s, 0) == n,
{
    lemma_unit_start(s, 0, n);
}

proof fn lemma_unit_start(s: Seq<char>, i: int, n: int)
    requires
        0 <= i <= n <= s.len(),
        forall|k: int|
            0 <= k < n ==> !('a' <= #[trigger] s[k] <= 'z') && !('A' <= s[k] <= 'Z'),
        n < s.len() ==> 'a' <= s[n] <= 'z' || 'A' <= s[n] <= 'Z',
    ensures
        unit_start(s, i) == n,
    decreases n - i,
{
    if i < n {
        lemma_unit_start(s, i + 1, n);
    }
}

/// An hour has sixty minutes and a minute sixty seconds; seconds are meant
/// where there is no unit, and no other unit is known.
pub proof fn units_are_hours_minutes_and_seconds(unit: Seq<char>)
    ensures
        unit_seconds("s"@) == Some(1u64),
        unit_seconds(""@) == unit_seconds("s"@),
        unit_seconds("m"@) == Some(60u64),
        unit_seconds("h"@) == Some(3600u64),
        unit.len() > 1 ==> unit_seconds(unit) is None,
        unit.len() == 1 && unit[0] != 's' && unit[0] != 'm' && unit[0] != 'h' ==> unit_seconds(
            unit,
        ) is None,
{
    reveal_strlit("");
    reveal_strlit("s");
    reveal_strlit("m");
    reveal_strlit("h");
    assert("s"@[0] == 's' && "m"@[0] == 'm' && "h"@[0] == 'h');
    assert(""@.len() == 0 && "s"@.len() == 1 && "m"@.len() == 1 && "h"@.len() == 1);
    assert("m"@ != ""@ && "m"@ != "s"@);
    assert("h"@ != ""@ && "h"@ != "s"@ && "h"@ != "m"@);
}

/// What may stand behind the host of an origin: nothing, or a colon and a port.
pub open spec fn is_port_end(end: Seq<char>) -> bool {
    end.len() == 0 || (end.len() > 1 && end[0] == ':' && forall|i: int|
        1 <= i < end.len() ==> '0' <= #[trigger] end[i] <= '9')
}

proof fn lemma_on_host(host: Seq<char>, end: Seq<char>)
    requires
        is_port_end(end),
    ensures
        on_host(host + end, host),
{
    let rest = host + end;
    assert(rest.take(host.len() as int) == host);
    let port = rest.skip(host.len() as int);
    assert(port == end);
    if end.len() > 0 {
        let digits = port.skip(1);
        assert forall|i: int| 0 <= i < digits.len() implies '0' <= #[trigger] digits[i] <= '9' by {
            assert(digits[i] == end[i + 1]);
        }
    }
}

/// Without an allowlist every loopback origin passes: http or https, one of the
/// three loopback hosts, and any port or none.
pub proof fn loopback_origins_pass(scheme: Seq<char>, host: Seq<char>, end: Seq<char>)
    requires
        scheme == "http"@ || scheme == "https"@,
        host == "localhost"@ || host == "127.0.0.1"@ || host == "[::1]"@,
        is_port_end(end),
    ensures
        allows_origin(Seq::empty(), scheme + "://"@ + host + end),
{
    reveal_strlit("http");
    reveal_strlit("https");
    reveal_strlit("://");
    let origin = scheme + "://"@ + host + end;
    let n = scheme.len() as int;
    let mark = "://"@;
    assert(mark[0] == ':');
    assert(origin.subrange(n, n + 3) == mark);
    assert forall|i: int| 0 <= i < n implies !chars::matches_at(origin, mark, i) by {
        assert(origin[i] == scheme[i]);
        assert(scheme[i] != ':');
        if chars::matches_at(origin, mark, i) {
            assert(origin.subrange(i, i + 3)[0] == origin[i]);
        }
    }
    lemma_find_text(origin, mark, 0, n);
    assert(origin.take(n) == scheme);
    assert(origin.skip(n + 3) == host + end);
    lemma_on_host(host, end);
}

proof fn lemma_find_text(s: Seq<char>, needle: Seq<char>, from: int, at: int)
    requires
        0 <= from <= at,
        chars::matches_at(s, needle, at),
        forall|i: int| from <= i < at ==> !chars::matches_at(s, needle, i),
    ensures
        chars::find_text(s, needle, from) == Some(at),
    decreases at - from,
{
    if from < at {
        lemma_find_text(s, needle, from + 1, at);
    }
}

proof fn lemma_found_text(s: Seq<char>, needle: Seq<char>, from: int)
    requires
        0 <= from,
    ensures
        chars::find_text(s, needle, from) matches Some(at) ==> chars::matches_at(s, needle, at),
    decreases s.len() + 1 - from,
{
    if from + needle.len() <= s.len() && !chars::matches_at(s, needle, from) {
        lemma_found_text(s, needle, from + 1);
    }
}

/// Without an allowlist nothing but loopback origins passes.
pub proof fn only_loopback_origins_pass(origin: Seq<char>)
    requires
        allows_origin(Seq::empty(), origin),
    ensures
        exists|scheme: Seq<char>, host: Seq<char>, end: Seq<char>|
            (scheme == "http"@ || scheme == "https"@) && (host == "localhost"@ || host
                == "127.0.0.1"@ || host == "[::1]"@) && is_port_end(end) && origin
                == #[trigger] (scheme + "://"@ + host + end),
{
    reveal_strlit("://");
    lemma_found_text(origin, "://"@, 0);
    let at = chars::find_text(origin, "://"@, 0)->Some_0;
    let scheme = origin.take(at);
    let rest = origin.skip(at + 3);
    let host = if on_host(rest, "localhost"@) {
        "localhost"@
    } else if on_host(rest, "127.0.0.1"@) {
        "127.0.0.1"@
    } else {
        "[::1]"@
    };
    assert(on_host(rest, host));
    let end = rest.skip(host.len() as int);
    if end.len() > 0 {
        let digits = end.skip(1);
        assert forall|i: int| 1 <= i < end.len() implies '0' <= #[trigger] end[i] <= '9' by {
            assert(digits[i - 1] == end[i]);
        }
    }
    assert(is_port_end(end));
    assert(origin.subrange(at, at + 3) == "://"@);
    assert(rest == host + end);
    assert(origin == scheme + "://"@ + host + end);
}

/// An error carries its message and, where there is one, its cause.
pub proof fn error_carries_its_cause(e: ConfigError, message: Seq<char>, cause: Option<Seq<char>>)
    requires
        is_error(e, message, cause),
    ensures
        e.message@ == message,
        e.cause is Some <==> cause is Some,
        cause is Some ==> e.cause->Some_0@ == cause->Some_0,
{
}

} // verus!
