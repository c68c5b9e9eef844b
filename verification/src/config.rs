//! Layered configuration: CLI arguments over environment variables over the
//! TOML file over safe defaults. Secrets are never read from here; only
//! non-secret identifiers live in it.
use vstd::prelude::*;
use crate::error::AppError;
use crate::text::{
    concat, decimal, decimal_text, is_blank, is_blank_text, owned, parse_u64, parsed_u64, same_text,
};

verus! {

/// Non-secret application configuration.
#[derive(Debug, Clone, PartialEq, Eq)]
pub struct AppConfig {
    /// Entra public-client application (client) ID.
    pub client_id: Option<String>,
    /// Tenant ID, or `organizations` for multi-tenant work/school sign-in.
    pub tenant_id: String,
    /// Graph base URL (national clouds, test servers).
    pub graph_base_url: String,
    /// Poll interval for the active chat, in seconds.
    pub poll_interval_secs: u64,
}

/// A configuration as plain values.
pub struct ConfigView {
    pub client_id: Option<Seq<char>>,
    pub tenant_id: Seq<char>,
    pub graph_base_url: Seq<char>,
    pub poll_interval_secs: u64,
}

pub open spec fn opt_text(o: Option<String>) -> Option<Seq<char>> {
    match o {
        Some(s) => Some(s@),
        None => None,
    }
}

impl View for AppConfig {
    type V = ConfigView;

    open spec fn view(&self) -> ConfigView {
        ConfigView {
            client_id: opt_text(self.client_id),
            tenant_id: self.tenant_id@,
            graph_base_url: self.graph_base_url@,
            poll_interval_secs: self.poll_interval_secs,
        }
    }
}

/// The safe defaults: no client id, the multi-tenant authority, the public
/// Graph endpoint and a 15 second poll.
pub open spec fn default_config() -> ConfigView {
    ConfigView {
        client_id: None,
        tenant_id: "organizations"@,
        graph_base_url: "https://graph.microsoft.com/v1.0"@,
        poll_interval_secs: 15,
    }
}

impl Default for AppConfig {
    fn default() -> (c: AppConfig)
        ensures
            c@ == default_config(),
    {
        AppConfig {
            client_id: None,
            tenant_id: owned("organizations"),
            graph_base_url: owned("https://graph.microsoft.com/v1.0"),
            poll_interval_secs: 15,
        }
    }
}

/// A parsed TOML value, as far as configuration reads it.
#[derive(Debug, PartialEq, Eq)]
pub enum TomlValue {
    Str(String),
    Int(i64),
    Table(Vec<(String, TomlValue)>),
    /// Floats, booleans, dates and arrays: never read by configuration.
    Other,
}

/// What `toml` makes of a document: its root table, or the parser's error
/// message.
pub uninterp spec fn toml_document(text: Seq<char>) -> Result<TomlValue, Seq<char>>;

/// `toml::Value`, carried as an opaque value.
#[verifier::external_type_specification]
#[verifier::external_body]
pub struct ExTomlValue(toml::Value);

/// Converts a `toml::Value` into the library's tree, variant for variant
/// (tables recursively); the variants configuration never reads become
/// `Other`. Claims nothing by itself: the parse below names the whole result.
#[verifier::external_body]
fn toml_tree(v: toml::Value) -> TomlValue {
    match v {
        toml::Value::String(s) => TomlValue::Str(s),
        toml::Value::Integer(i) => TomlValue::Int(i),
        toml::Value::Table(t) => TomlValue::Table(t.into_iter().map(|(k, x)| (k, toml_tree(x))).collect()),
        toml::Value::Float(_) => TomlValue::Other,
        toml::Value::Boolean(_) => TomlValue::Other,
        toml::Value::Datetime(_) => TomlValue::Other,
        toml::Value::Array(_) => TomlValue::Other,
    }
}

/// Parses a TOML document with `str::parse::<toml::Value>` (`toml::from_str`).
/// Claims only that the outcome, the tree or the error's text, is a function
/// of the text.
#[verifier::external_body]
fn parse_toml(text: &str) -> (r: Result<TomlValue, String>)
    ensures
        match r {
            Ok(v) => toml_document(text@) == Ok::<TomlValue, Seq<char>>(v),
            Err(e) => toml_document(text@) == Err::<TomlValue, Seq<char>>(e@),
        },
{
    text.parse::<toml::Value>().map(toml_tree).map_err(|e| format!("{e}"))
}

/// Index of the first entry of `key` among `entries`, or -1.
pub open spec fn entry_index(entries: Seq<(String, TomlValue)>, key: Seq<char>, i: int) -> int
    decreases entries.len() - i,
{
    if i < 0 || i >= entries.len() {
        -1
    } else if entries[i].0@ == key {
        i
    } else {
        entry_index(entries, key, i + 1)
    }
}

/// The value of `key` when `v` is a table that has it.
pub open spec fn toml_get(v: TomlValue, key: Seq<char>) -> Option<TomlValue> {
    match v {
        TomlValue::Table(entries) => {
            let i = entry_index(entries@, key, 0);
            if 0 <= i < entries@.len() {
                Some(entries@[i].1)
            } else {
                None
            }
        },
        _ => None,
    }
}

/// The string under `key` of a table, if it is one.
pub open spec fn toml_str(t: TomlValue, key: Seq<char>) -> Option<Seq<char>> {
    match toml_get(t, key) {
        Some(TomlValue::Str(s)) => Some(s@),
        _ => None,
    }
}

/// The configuration a parsed document gives over the defaults: keys of the
/// `[rusteams]` table, or bare keys when there is no such table.
pub open spec fn file_config(doc: TomlValue) -> ConfigView {
    let t = match toml_get(doc, "rusteams"@) {
        Some(x) => x,
        None => doc,
    };
    let d = default_config();
    ConfigView {
        client_id: match toml_str(t, "client_id"@) {
            Some(c) => Some(c),
            None => d.client_id,
        },
        tenant_id: match toml_str(t, "tenant_id"@) {
            Some(s) => s,
            None => d.tenant_id,
        },
        graph_base_url: match toml_str(t, "graph_base_url"@) {
            Some(s) => s,
            None => d.graph_base_url,
        },
        poll_interval_secs: match toml_get(t, "poll_interval_secs"@) {
            Some(TomlValue::Int(p)) => if p < 1 {
                1
            } else {
                p as u64
            },
            _ => d.poll_interval_secs,
        },
    }
}

/// The value of `key` when `v` is a table that has it.
fn table_get<'a>(v: &'a TomlValue, key: &str) -> (r: Option<&'a TomlValue>)
    ensures
        match r {
            Some(x) => toml_get(*v, key@) == Some(*x),
            None => toml_get(*v, key@) is None,
        },
{
    match v {
        TomlValue::Table(entries) => {
            let mut i: usize = 0;
            while i < entries.len()
                invariant
                    i <= entries@.len(),
                    *v == TomlValue::Table(*entries),
                    entry_index(entries@, key@, 0) == entry_index(entries@, key@, i as int),
                decreases entries.len() - i,
            {
                if same_text(entries[i].0.as_str(), key) {
                    assert(entry_index(entries@, key@, i as int) == i as int);
                    return Some(&entries[i].1);
                }
                i = i + 1;
            }
            None
        },
        _ => None,
    }
}

/// The string under `key`, if `v` is a table holding one.
fn table_str(v: &TomlValue, key: &str) -> (r: Option<String>)
    ensures
        opt_text(r) == toml_str(*v, key@),
{
    match table_get(v, key) {
        Some(TomlValue::Str(s)) => Some(s.clone()),
        _ => None,
    }
}

impl AppConfig {
    /// The configuration a parsed TOML document gives over the defaults.
    pub fn from_document(doc: &TomlValue) -> (c: AppConfig)
        ensures
            c@ == file_config(*doc),
    {
        let mut cfg = AppConfig::default();
        let t = match table_get(doc, "rusteams") {
            Some(x) => x,
            None => doc,
        };
        if let Some(s) = table_str(t, "tenant_id") {
            cfg.tenant_id = s;
        }
        if let Some(s) = table_str(t, "client_id") {
            cfg.client_id = Some(s);
        }
        if let Some(s) = table_str(t, "graph_base_url") {
            cfg.graph_base_url = s;
        }
        if let Some(TomlValue::Int(p)) = table_get(t, "poll_interval_secs") {
            let p = *p;
            cfg.poll_interval_secs = if p < 1 {
                1
            } else {
                p as u64
            };
        }
        cfg
    }

    /// Parses a TOML fragment (a `[rusteams]` table or bare keys) over the
    /// defaults. Blank text gives the defaults; unparsable text is a
    /// configuration error carrying the parser's message.
    pub fn from_toml_str(s: &str) -> (r: Result<AppConfig, AppError>)
        ensures
            is_blank_text(s@) ==> (r matches Ok(c) && c@ == default_config()),
            !is_blank_text(s@) ==> match toml_document(s@) {
                Ok(doc) => r matches Ok(c) && c@ == file_config(doc),
                Err(e) => r matches Err(AppError::Config(m)) && m@ == "bad TOML: "@ + e,
            },
    {
        if is_blank(s) {
            return Ok(AppConfig::default());
        }
        match parse_toml(s) {
            Ok(doc) => Ok(AppConfig::from_document(&doc)),
            Err(e) => Err(AppError::Config(concat("bad TOML: ", e.as_str()))),
        }
    }
}

/// The `RUSTEAMS_*` environment variables that configuration reads, as the
/// process found them.
#[derive(Debug, Clone, PartialEq, Eq)]
pub struct EnvVars {
    /// `RUSTEAMS_CLIENT_ID`
    pub client_id: Option<String>,
    /// `RUSTEAMS_TENANT_ID`
    pub tenant_id: Option<String>,
    /// `RUSTEAMS_GRAPH_BASE_URL`
    pub graph_base_url: Option<String>,
    /// `RUSTEAMS_POLL_INTERVAL_SECS`
    pub poll_interval_secs: Option<String>,
}

/// Highest-precedence overrides, typically from CLI flags.
#[derive(Debug)]
pub struct CliOverrides {
    pub client_id: Option<String>,
    pub tenant_id: Option<String>,
    pub graph_base_url: Option<String>,
    pub poll_interval_secs: Option<u64>,
}

impl Default for CliOverrides {
    fn default() -> (o: CliOverrides)
        ensures
            o.client_id is None,
            o.tenant_id is None,
            o.graph_base_url is None,
            o.poll_interval_secs is None,
    {
        CliOverrides { client_id: None, tenant_id: None, graph_base_url: None, poll_interval_secs: None }
    }
}

impl Default for EnvVars {
    fn default() -> (e: EnvVars)
        ensures
            e.client_id is None,
            e.tenant_id is None,
            e.graph_base_url is None,
            e.poll_interval_secs is None,
    {
        EnvVars { client_id: None, tenant_id: None, graph_base_url: None, poll_interval_secs: None }
    }
}

/// `o`'s value when it has one, else `d`.
pub open spec fn or_text(o: Option<String>, d: Seq<char>) -> Seq<char> {
    match o {
        Some(s) => s@,
        None => d,
    }
}

/// A poll interval override, at least one second.
pub open spec fn clamp_interval(v: u64) -> u64 {
    if v < 1 {
        1
    } else {
        v
    }
}

/// `c` with the environment variables that are set laid over it; a poll
/// interval that does not parse as an unsigned number is ignored.
pub open spec fn env_config(c: ConfigView, e: EnvVars) -> ConfigView {
    ConfigView {
        client_id: match e.client_id {
            Some(s) => Some(s@),
            None => c.client_id,
        },
        tenant_id: or_text(e.tenant_id, c.tenant_id),
        graph_base_url: or_text(e.graph_base_url, c.graph_base_url),
        poll_interval_secs: match e.poll_interval_secs {
            Some(p) => match parsed_u64(p@) {
                Some(v) => clamp_interval(v),
                None => c.poll_interval_secs,
            },
            None => c.poll_interval_secs,
        },
    }
}

/// `c` with the CLI overrides that are given laid over it.
pub open spec fn cli_config(c: ConfigView, o: CliOverrides) -> ConfigView {
    ConfigView {
        client_id: match o.client_id {
            Some(s) => Some(s@),
            None => c.client_id,
        },
        tenant_id: or_text(o.tenant_id, c.tenant_id),
        graph_base_url: or_text(o.graph_base_url, c.graph_base_url),
        poll_interval_secs: match o.poll_interval_secs {
            Some(v) => clamp_interval(v),
            None => c.poll_interval_secs,
        },
    }
}

impl AppConfig {
    /// Lays the environment variables that are set over `self`.
    pub fn with_env(self, env: EnvVars) -> (c: AppConfig)
        ensures
            c@ == env_config(self@, env),
    {
        let mut cfg = self;
        if let Some(v) = env.client_id {
            cfg.client_id = Some(v);
        }
        if let Some(v) = env.tenant_id {
            cfg.tenant_id = v;
        }
        if let Some(v) = env.graph_base_url {
            cfg.graph_base_url = v;
        }
        if let Some(p) = env.poll_interval_secs {
            if let Some(v) = parse_u64(p.as_str()) {
                cfg.poll_interval_secs = if v < 1 {
                    1
                } else {
                    v
                };
            }
        }
        cfg
    }

    /// Lays explicit CLI arguments (highest precedence) over `self`.
    pub fn with_cli_overrides(self, o: CliOverrides) -> (c: AppConfig)
        ensures
            c@ == cli_config(self@, o),
    {
        let mut cfg = self;
        if let Some(v) = o.client_id {
            cfg.client_id = Some(v);
        }
        if let Some(v) = o.tenant_id {
            cfg.tenant_id = v;
        }
        if let Some(v) = o.graph_base_url {
            cfg.graph_base_url = v;
        }
        if let Some(v) = o.poll_interval_secs {
            cfg.poll_interval_secs = if v < 1 {
                1
            } else {
                v
            };
        }
        cfg
    }
}

/// Law: each setting comes from the highest layer that sets it: CLI over
/// environment over the file (or the defaults below it).
pub proof fn lemma_layer_precedence(file: ConfigView, env: EnvVars, cli: CliOverrides)
    ensures
        cli_config(env_config(file, env), cli).tenant_id == or_text(
            cli.tenant_id,
            or_text(env.tenant_id, file.tenant_id),
        ),
        cli_config(env_config(file, env), cli).graph_base_url == or_text(
            cli.graph_base_url,
            or_text(env.graph_base_url, file.graph_base_url),
        ),
        cli.client_id is Some ==> cli_config(env_config(file, env), cli).client_id == Some(
            cli.client_id->0@,
        ),
        cli.client_id is None && env.client_id is Some ==> cli_config(env_config(file, env), cli).client_id
            == Some(env.client_id->0@),
        cli.client_id is None && env.client_id is None ==> cli_config(env_config(file, env), cli).client_id
            == file.client_id,
        cli.poll_interval_secs is None && (env.poll_interval_secs is None || parsed_u64(
            env.poll_interval_secs->0@,
        ) is None) ==> cli_config(env_config(file, env), cli).poll_interval_secs
            == file.poll_interval_secs,
{
}

/// Law: a poll interval given on the command line wins, clamped to at least
/// one second, whatever the layers below said; one given in the
/// environment (and parsing as a number) wins over the file the same way.
pub proof fn lemma_poll_interval_precedence(c: ConfigView, env: EnvVars, cli: CliOverrides, v: u64)
    ensures
        cli.poll_interval_secs == Some(v) ==> cli_config(c, cli).poll_interval_secs == (if v == 0 {
            1u64
        } else {
            v
        }),
        cli.poll_interval_secs is None ==> cli_config(c, cli).poll_interval_secs
            == c.poll_interval_secs,
        env.poll_interval_secs is Some && parsed_u64(env.poll_interval_secs->0@) == Some(v)
            ==> env_config(c, env).poll_interval_secs == (if v == 0 {
            1u64
        } else {
            v
        }),
{
}

/// Law: the poll interval is never zero: the defaults, every parsed file,
/// and every overlay of a configuration that had at least one second.
pub proof fn lemma_poll_interval_positive(doc: TomlValue, c: ConfigView, env: EnvVars, cli: CliOverrides)
    ensures
        default_config().poll_interval_secs >= 1,
        file_config(doc).poll_interval_secs >= 1,
        c.poll_interval_secs >= 1 ==> env_config(c, env).poll_interval_secs >= 1,
        c.poll_interval_secs >= 1 ==> cli_config(c, cli).poll_interval_secs >= 1,
{
}

/// The lines that show a configuration: tenant, Graph base URL, poll
/// interval, and whether a client id is set (never the id itself).
pub open spec fn report_text(c: ConfigView) -> Seq<Seq<char>> {
    seq![
        "tenant_id: "@ + c.tenant_id,
        "graph_base_url: "@ + c.graph_base_url,
        "poll_interval_secs: "@ + decimal_text(c.poll_interval_secs as nat),
        "client_id: "@ + if c.client_id is Some {
            "<set>"@
        } else {
            "<unset>"@
        },
    ]
}

impl AppConfig {
    /// The resolved, non-secret configuration as printable lines.
    pub fn report(&self) -> (r: Vec<String>)
        ensures
            r@.map_values(|s: String| s@) == report_text(self@),
    {
        let mut out: Vec<String> = Vec::new();
        out.push(concat("tenant_id: ", self.tenant_id.as_str()));
        out.push(concat("graph_base_url: ", self.graph_base_url.as_str()));
        let n = decimal(self.poll_interval_secs);
        out.push(concat("poll_interval_secs: ", n.as_str()));
        let set = if self.client_id.is_some() {
            "<set>"
        } else {
            "<unset>"
        };
        out.push(concat("client_id: ", set));
        proof {
            assert(out@.map_values(|s: String| s@) =~= report_text(self@));
        }
        out
    }

    /// The client id sign-in needs; without one, a configuration error that
    /// says how to set it.
    pub fn require_client_id(&self) -> (r: Result<String, AppError>)
        ensures
            match self.client_id {
                Some(c) => r matches Ok(x) && x@ == c@,
                None => r matches Err(AppError::Config(m)) && m@ == "client-id is not set; register a public-client app in Entra ID, then set RUSTEAMS_CLIENT_ID or --client-id"@,
            },
    {
        match &self.client_id {
            Some(c) => Ok(c.clone()),
            None => Err(
                AppError::Config(
                    owned(
                        "client-id is not set; register a public-client app in Entra ID, then set RUSTEAMS_CLIENT_ID or --client-id",
                    ),
                ),
            ),
        }
    }
}

} // verus!
