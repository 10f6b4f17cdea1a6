//! The bus's settings: defaults, what a settings file says, and what the
//! environment overrides.

use crate::json::PLUS;
use crate::keys::{bounded_decimal, read_decimal};
use std::collections::HashMap;
use vstd::prelude::*;
use vstd::string::StringSliceAdditionalSpecFns;
use vstd::utf8::{encode_utf8, encode_utf8_decode_utf8};

verus! {

/// A YAML value, as `serde_yaml` holds it. The bus carries such values and
/// never looks inside.
#[verifier::external_type_specification]
#[verifier::external_body]
pub struct ExYamlValue(serde_yaml::Value);

/// The address that the bus listens on where nothing says otherwise.
pub const DEFAULT_HOST: &'static str = "127.0.0.1";

/// The port that the bus listens on where nothing says otherwise.
pub const DEFAULT_PORT: u16 = 8181;

/// The path that clients connect to where nothing says otherwise.
pub const DEFAULT_ROUTE: &'static str = "/core";

/// The largest frame, in units of 1024 bytes, where nothing says otherwise.
pub const DEFAULT_MAX_MSG_SIZE: u32 = 25;

/// The resolved settings of a bus.
#[derive(Debug, Clone)]
pub struct Config {
    pub host: String,
    pub port: u16,
    /// The path that clients connect to.
    pub route: String,
    pub ssl: bool,
    /// The largest frame that the bus accepts, in units of 1024 bytes.
    pub max_msg_size: u32,
    /// Options that the bus does not know, as the settings file gave them.
    pub extra: HashMap<String, serde_yaml::Value>,
}

/// The settings, with texts as sequences of characters.
pub struct ConfigView {
    pub host: Seq<char>,
    pub port: u16,
    pub route: Seq<char>,
    pub ssl: bool,
    pub max_msg_size: u32,
    pub extra: Map<String, serde_yaml::Value>,
}

impl View for Config {
    type V = ConfigView;

    open spec fn view(&self) -> ConfigView {
        ConfigView {
            host: self.host@,
            port: self.port,
            route: self.route@,
            ssl: self.ssl,
            max_msg_size: self.max_msg_size,
            extra: self.extra@,
        }
    }
}

/// A settings file, read.
#[derive(Debug, Clone)]
pub struct RootConfig {
    pub websocket: Option<WebSocketConfig>,
}

/// The `websocket` section of a settings file. What it leaves out stays as it
/// was; what it holds beyond the known options becomes `extra`.
#[derive(Debug, Clone)]
pub struct WebSocketConfig {
    pub host: Option<String>,
    pub port: Option<u16>,
    pub route: Option<String>,
    pub ssl: Option<bool>,
    pub max_msg_size: Option<u32>,
    pub extra: HashMap<String, serde_yaml::Value>,
}

/// What reading a settings file gave: `parsed` from the text as written,
/// `reparsed` from the text without its comment lines. Either is `None` where
/// the text was no settings file. `reparsed` counts only where `parsed` is
/// `None`.
#[derive(Debug, Clone)]
pub struct ConfigFile {
    pub parsed: Option<RootConfig>,
    pub reparsed: Option<RootConfig>,
}

/// The variable that names the settings file.
pub const CONFIG_FILE_VARIABLE: &'static str = "OVOS_BUS_CONFIG_FILE";

/// The variable that overrides the host.
pub const HOST_VARIABLE: &'static str = "OVOS_BUS_HOST";

/// The variable that overrides the port.
pub const PORT_VARIABLE: &'static str = "OVOS_BUS_PORT";

/// The variable that overrides the largest frame.
pub const MAX_MSG_SIZE_VARIABLE: &'static str = "OVOS_BUS_MAX_MSG_SIZE";

/// The variable that overrides the route.
pub const ROUTE_VARIABLE: &'static str = "OVOS_BUS_ROUTE";

/// The variable that switches TLS on.
pub const USE_SSL_VARIABLE: &'static str = "OVOS_BUS_USE_SSL";

/// The variables of the environment that override settings, each as it was
/// found: `OVOS_BUS_HOST`, `OVOS_BUS_PORT`, `OVOS_BUS_MAX_MSG_SIZE`,
/// `OVOS_BUS_ROUTE` and `OVOS_BUS_USE_SSL`.
#[derive(Debug, Clone)]
pub struct Environment {
    pub host: Option<String>,
    pub port: Option<String>,
    pub max_msg_size: Option<String>,
    pub route: Option<String>,
    pub use_ssl: Option<String>,
}

/// Whether a variable of that name overrides a setting.
pub open spec fn overrides(name: Seq<char>) -> bool {
    name == HOST_VARIABLE@ || name == PORT_VARIABLE@ || name == MAX_MSG_SIZE_VARIABLE@ || name
        == ROUTE_VARIABLE@ || name == USE_SSL_VARIABLE@
}

/// The environment `env` with the variable `name` set to `value`. A variable
/// that overrides nothing changes nothing.
pub open spec fn with_variable(env: Environment, name: Seq<char>, value: String) -> Environment {
    if name == HOST_VARIABLE@ {
        Environment {
            host: Some(value),
            port: env.port,
            max_msg_size: env.max_msg_size,
            route: env.route,
            use_ssl: env.use_ssl,
        }
    } else if name == PORT_VARIABLE@ {
        Environment {
            host: env.host,
            port: Some(value),
            max_msg_size: env.max_msg_size,
            route: env.route,
            use_ssl: env.use_ssl,
        }
    } else if name == MAX_MSG_SIZE_VARIABLE@ {
        Environment {
            host: env.host,
            port: env.port,
            max_msg_size: Some(value),
            route: env.route,
            use_ssl: env.use_ssl,
        }
    } else if name == ROUTE_VARIABLE@ {
        Environment {
            host: env.host,
            port: env.port,
            max_msg_size: env.max_msg_size,
            route: Some(value),
            use_ssl: env.use_ssl,
        }
    } else if name == USE_SSL_VARIABLE@ {
        Environment {
            host: env.host,
            port: env.port,
            max_msg_size: env.max_msg_size,
            route: env.route,
            use_ssl: Some(value),
        }
    } else {
        env
    }
}

/// Whether two texts are the same.
pub fn same_text(a: &str, b: &str) -> (r: bool)
    ensures
        r == (a@ == b@),
{
    let x: &[u8] = a.as_bytes();
    let y: &[u8] = b.as_bytes();
    proof {
        encode_utf8_decode_utf8(a@);
        encode_utf8_decode_utf8(b@);
    }
    if x.len() != y.len() {
        return false;
    }
    let mut k: usize = 0;
    while k < x.len()
        invariant
            k <= x.len(),
            x.len() == y.len(),
            x@ == encode_utf8(a@),
            y@ == encode_utf8(b@),
            forall|i: int| 0 <= i < k ==> x@[i] == y@[i],
        decreases x.len() - k,
    {
        if x[k] != y[k] {
            return false;
        }
        k = k + 1;
    }
    assert(x@ =~= y@);
    true
}

impl Environment {
    /// An environment in which no variable is set.
    pub fn new() -> (r: Environment)
        ensures
            r.host is None,
            r.port is None,
            r.max_msg_size is None,
            r.route is None,
            r.use_ssl is None,
    {
        Environment { host: None, port: None, max_msg_size: None, route: None, use_ssl: None }
    }

    /// Takes note that the variable `name` is set to `value`. Says whether
    /// the variable overrides a setting.
    pub fn set(&mut self, name: &str, value: String) -> (r: bool)
        ensures
            r == overrides(name@),
            *final(self) == with_variable(*old(self), name@, value),
    {
        if same_text(name, HOST_VARIABLE) {
            self.host = Some(value);
            true
        } else if same_text(name, PORT_VARIABLE) {
            self.port = Some(value);
            true
        } else if same_text(name, MAX_MSG_SIZE_VARIABLE) {
            self.max_msg_size = Some(value);
            true
        } else if same_text(name, ROUTE_VARIABLE) {
            self.route = Some(value);
            true
        } else if same_text(name, USE_SSL_VARIABLE) {
            self.use_ssl = Some(value);
            true
        } else {
            false
        }
    }
}

/// The number that a text spells: decimal digits, after a plus sign or
/// without, that give a number of at most `max`.
pub open spec fn number_in(text: Seq<u8>, max: nat) -> Option<nat> {
    if text.len() > 0 && text[0] == PLUS {
        bounded_decimal(text, 1, text.len() as int, max)
    } else {
        bounded_decimal(text, 0, text.len() as int, max)
    }
}

/// `fallback`, unless `text` is there and spells a number of at most `max`.
pub open spec fn number_or(text: Option<String>, max: nat, fallback: nat) -> nat {
    match text {
        Some(t) => match number_in(encode_utf8(t@), max) {
            Some(n) => n,
            None => fallback,
        },
        None => fallback,
    }
}

/// `fallback`, unless `text` is there.
pub open spec fn text_or(text: Option<String>, fallback: Seq<char>) -> Seq<char> {
    match text {
        Some(t) => t@,
        None => fallback,
    }
}

/// The settings of a bus that nothing configures.
pub open spec fn defaults() -> ConfigView {
    ConfigView {
        host: DEFAULT_HOST@,
        port: DEFAULT_PORT,
        route: DEFAULT_ROUTE@,
        ssl: false,
        max_msg_size: DEFAULT_MAX_MSG_SIZE,
        extra: Map::empty(),
    }
}

/// The settings `c` after a settings file was applied: each option that its
/// `websocket` section holds replaces the setting, and the section's unknown
/// options replace `extra`. A file without that section changes nothing.
pub open spec fn applied(root: RootConfig, c: ConfigView) -> ConfigView {
    match root.websocket {
        None => c,
        Some(w) => ConfigView {
            host: text_or(w.host, c.host),
            port: match w.port {
                Some(p) => p,
                None => c.port,
            },
            route: text_or(w.route, c.route),
            ssl: match w.ssl {
                Some(s) => s,
                None => c.ssl,
            },
            max_msg_size: match w.max_msg_size {
                Some(m) => m,
                None => c.max_msg_size,
            },
            extra: w.extra@,
        },
    }
}

/// The settings `c` after a settings file was read: applied as it was parsed,
/// else as it was parsed without its comment lines, else unchanged.
pub open spec fn parsed(file: ConfigFile, c: ConfigView) -> ConfigView {
    match file.parsed {
        Some(root) => applied(root, c),
        None => match file.reparsed {
            Some(root) => applied(root, c),
            None => c,
        },
    }
}

/// The settings `c` after the environment had its say. A port or a size that
/// spells no number of its range changes nothing. `OVOS_BUS_USE_SSL` switches
/// TLS on whatever it holds.
pub open spec fn overridden(env: Environment, c: ConfigView) -> ConfigView {
    ConfigView {
        host: text_or(env.host, c.host),
        port: number_or(env.port, u16::MAX as nat, c.port as nat) as u16,
        route: text_or(env.route, c.route),
        ssl: env.use_ssl is Some || c.ssl,
        max_msg_size: number_or(env.max_msg_size, u32::MAX as nat, c.max_msg_size as nat) as u32,
        extra: c.extra,
    }
}

/// The settings of a bus: the defaults, then the settings file if there is
/// one, then the environment.
pub open spec fn resolved(file: Option<ConfigFile>, env: Environment) -> ConfigView {
    overridden(
        env,
        match file {
            Some(f) => parsed(f, defaults()),
            None => defaults(),
        },
    )
}

/// Reads the number that a text spells.
pub fn parse_number(text: &str, max: u64) -> (r: Option<u64>)
    ensures
        match r {
            Some(n) => number_in(encode_utf8(text@), max as nat) == Some(n as nat),
            None => number_in(encode_utf8(text@), max as nat) is None,
        },
{
    let bytes: &[u8] = text.as_bytes();
    if bytes.len() > 0 && bytes[0] == PLUS {
        read_decimal(bytes, 1, bytes.len(), max)
    } else {
        read_decimal(bytes, 0, bytes.len(), max)
    }
}

impl Config {
    /// The settings of a bus that nothing configures.
    pub fn defaults() -> (r: Config)
        ensures
            r@ == defaults(),
    {
        Config {
            host: DEFAULT_HOST.to_owned(),
            port: DEFAULT_PORT,
            route: DEFAULT_ROUTE.to_owned(),
            ssl: false,
            max_msg_size: DEFAULT_MAX_MSG_SIZE,
            extra: HashMap::new(),
        }
    }

    /// Resolves the settings of a bus from what was read of the settings
    /// file, if there is one, and of the environment.
    pub fn new(file: Option<ConfigFile>, env: Environment) -> (r: Config)
        ensures
            r@ == resolved(file, env),
    {
        let mut config: Config = Config::defaults();
        match file {
            Some(f) => {
                config = Config::parse_config(f, config);
            },
            None => {},
        }
        match env.host {
            Some(host) => {
                config.host = host;
            },
            None => {},
        }
        match env.port {
            Some(port) => {
                match parse_number(port.as_str(), 65535) {
                    Some(n) => {
                        config.port = n as u16;
                    },
                    None => {},
                }
            },
            None => {},
        }
        match env.max_msg_size {
            Some(size) => {
                match parse_number(size.as_str(), 4294967295) {
                    Some(n) => {
                        config.max_msg_size = n as u32;
                    },
                    None => {},
                }
            },
            None => {},
        }
        match env.route {
            Some(route) => {
                config.route = route;
            },
            None => {},
        }
        if env.use_ssl.is_some() {
            config.ssl = true;
        }
        config
    }

    /// Applies what was read of a settings file.
    pub fn parse_config(file: ConfigFile, config: Config) -> (r: Config)
        ensures
            r@ == parsed(file, config@),
    {
        match file.parsed {
            Some(root) => Config::apply_config(root, config),
            None => match file.reparsed {
                Some(root) => Config::apply_config(root, config),
                None => config,
            },
        }
    }

    /// Applies the `websocket` section of a settings file.
    pub fn apply_config(root: RootConfig, config: Config) -> (r: Config)
        ensures
            r@ == applied(root, config@),
    {
        let mut config = config;
        match root.websocket {
            Some(w) => {
                config.host = w.host.unwrap_or(config.host);
                config.port = w.port.unwrap_or(config.port);
                config.route = w.route.unwrap_or(config.route);
                config.ssl = w.ssl.unwrap_or(config.ssl);
                config.max_msg_size = w.max_msg_size.unwrap_or(config.max_msg_size);
                config.extra = w.extra;
            },
            None => {},
        }
        config
    }
}

} // verus!
