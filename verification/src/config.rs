//! Server settings, taken from the values of environment variables.

use vstd::prelude::*;

verus! {

/// Settings of the server.
#[derive(Clone, Debug)]
pub struct AppConfig {
    pub supabase_url: String,
    pub supabase_anon_key: String,
    pub supabase_service_role_key: String,
    pub websocket_port: u16,
    pub grpc_host: String,
    pub grpc_port: u16,
}

/// An environment variable the settings come from.
#[derive(Clone, Copy, Debug, PartialEq, Eq, Structural)]
pub enum ConfigVar {
    SupabaseUrl,
    SupabaseAnonKey,
    SupabaseServiceRoleKey,
    WebsocketPort,
    GrpcPort,
}

/// Why the settings could not be made.
#[derive(Clone, Copy, Debug, PartialEq, Eq, Structural)]
pub enum ConfigError {
    /// A required variable is not set.
    Missing(ConfigVar),
    /// A port variable does not hold a port number.
    InvalidPort(ConfigVar),
}

/// Name of the environment variable.
pub open spec fn spec_var_name(v: ConfigVar) -> Seq<char> {
    match v {
        ConfigVar::SupabaseUrl => "SUPABASE_URL"@,
        ConfigVar::SupabaseAnonKey => "SUPABASE_ANON_KEY"@,
        ConfigVar::SupabaseServiceRoleKey => "SUPABASE_SERVICE_ROLE_KEY"@,
        ConfigVar::WebsocketPort => "WEBSOCKET_PORT"@,
        ConfigVar::GrpcPort => "GRPC_PORT"@,
    }
}

impl ConfigVar {
    /// Name of the environment variable.
    pub fn name(&self) -> (r: &'static str)
        ensures
            r@ == spec_var_name(*self),
    {
        match self {
            ConfigVar::SupabaseUrl => "SUPABASE_URL",
            ConfigVar::SupabaseAnonKey => "SUPABASE_ANON_KEY",
            ConfigVar::SupabaseServiceRoleKey => "SUPABASE_SERVICE_ROLE_KEY",
            ConfigVar::WebsocketPort => "WEBSOCKET_PORT",
            ConfigVar::GrpcPort => "GRPC_PORT",
        }
    }
}

impl ConfigError {
    /// Message describing the error.
    pub fn message(&self) -> (r: String)
        ensures
            match *self {
                ConfigError::Missing(v) => r@ == spec_var_name(v) + " must be set"@,
                ConfigError::InvalidPort(v) => r@ == spec_var_name(v) + " must be a valid port number"@,
            },
    {
        match self {
            ConfigError::Missing(v) => {
                let mut m = v.name().to_owned();
                m.append(" must be set");
                m
            },
            ConfigError::InvalidPort(v) => {
                let mut m = v.name().to_owned();
                m.append(" must be a valid port number");
                m
            },
        }
    }
}

/// Value of a run of ASCII decimal digits.
pub open spec fn digits_value(s: Seq<char>) -> int
    decreases s.len(),
{
    if s.len() == 0 {
        0
    } else {
        digits_value(s.drop_last()) * 10 + (s.last() as int - '0' as int)
    }
}

/// The text is one or more ASCII decimal digits.
pub open spec fn all_digits(s: Seq<char>) -> bool {
    s.len() > 0 && forall|i: int| 0 <= i < s.len() ==> '0' <= #[trigger] s[i] <= '9'
}

/// The `u16` that decimal text stands for: an optional `+` and then one or
/// more ASCII digits, of value at most 65535; anything else stands for none.
pub open spec fn spec_parse_u16(s: Seq<char>) -> Option<u16> {
    let body = if s.len() > 0 && s[0] == '+' { s.drop_first() } else { s };
    if all_digits(body) && digits_value(body) <= u16::MAX {
        Some(digits_value(body) as u16)
    } else {
        None
    }
}

/// Parses decimal text as a `u16` with std's `str::parse::<u16>`, whose
/// documentation admits an optional `+` followed by digits only and reports
/// values that do not fit as errors.
#[verifier::external_body]
fn parse_u16(s: &str) -> (r: Option<u16>)
    ensures
        r == spec_parse_u16(s@),
{
    match s.parse::<u16>() {
        Ok(v) => Some(v),
        Err(_) => None,
    }
}

/// Text of a setting: the variable's value, or the default when unset.
pub open spec fn or_default(value: Option<String>, default: Seq<char>) -> Seq<char> {
    match value {
        Some(v) => v@,
        None => default,
    }
}

fn text_or(value: Option<String>, default: &str) -> (r: String)
    ensures
        r@ == or_default(value, default@),
{
    match value {
        Some(v) => v,
        None => default.to_owned(),
    }
}

impl AppConfig {
    /// Makes the settings from the values of the variables `SUPABASE_URL`,
    /// `SUPABASE_ANON_KEY`, `SUPABASE_SERVICE_ROLE_KEY`, `WEBSOCKET_PORT`
    /// (default 8081), `GRPC_HOST` (default 127.0.0.1) and `GRPC_PORT`
    /// (default 50051), `None` standing for an unset variable.  The first
    /// problem in that order is reported.
    pub fn from_settings(
        supabase_url: Option<String>,
        supabase_anon_key: Option<String>,
        supabase_service_role_key: Option<String>,
        websocket_port: Option<String>,
        grpc_host: Option<String>,
        grpc_port: Option<String>,
    ) -> (r: Result<AppConfig, ConfigError>)
        ensures
            supabase_url is None ==> r == Err::<AppConfig, ConfigError>(ConfigError::Missing(ConfigVar::SupabaseUrl)),
            supabase_url is Some && supabase_anon_key is None ==> r == Err::<AppConfig, ConfigError>(
                ConfigError::Missing(ConfigVar::SupabaseAnonKey),
            ),
            supabase_url is Some && supabase_anon_key is Some && supabase_service_role_key is None ==> r == Err::<
                AppConfig,
                ConfigError,
            >(ConfigError::Missing(ConfigVar::SupabaseServiceRoleKey)),
            supabase_url is Some && supabase_anon_key is Some && supabase_service_role_key is Some && spec_parse_u16(
                or_default(websocket_port, "8081"@),
            ) is None ==> r == Err::<AppConfig, ConfigError>(ConfigError::InvalidPort(ConfigVar::WebsocketPort)),
            supabase_url is Some && supabase_anon_key is Some && supabase_service_role_key is Some && spec_parse_u16(
                or_default(websocket_port, "8081"@),
            ) is Some && spec_parse_u16(or_default(grpc_port, "50051"@)) is None ==> r == Err::<AppConfig, ConfigError>(
                ConfigError::InvalidPort(ConfigVar::GrpcPort),
            ),
            r is Ok <==> (supabase_url is Some && supabase_anon_key is Some && supabase_service_role_key is Some
                && spec_parse_u16(or_default(websocket_port, "8081"@)) is Some && spec_parse_u16(
                or_default(grpc_port, "50051"@),
            ) is Some),
            r matches Ok(c) ==> {
                &&& c.supabase_url@ == supabase_url.unwrap()@
                &&& c.supabase_anon_key@ == supabase_anon_key.unwrap()@
                &&& c.supabase_service_role_key@ == supabase_service_role_key.unwrap()@
                &&& Some(c.websocket_port) == spec_parse_u16(or_default(websocket_port, "8081"@))
                &&& c.grpc_host@ == or_default(grpc_host, "127.0.0.1"@)
                &&& Some(c.grpc_port) == spec_parse_u16(or_default(grpc_port, "50051"@))
            },
    {
        let supabase_url = match supabase_url {
            Some(v) => v,
            None => return Err(ConfigError::Missing(ConfigVar::SupabaseUrl)),
        };
        let supabase_anon_key = match supabase_anon_key {
            Some(v) => v,
            None => return Err(ConfigError::Missing(ConfigVar::SupabaseAnonKey)),
        };
        let supabase_service_role_key = match supabase_service_role_key {
            Some(v) => v,
            None => return Err(ConfigError::Missing(ConfigVar::SupabaseServiceRoleKey)),
        };
        let ws_text = text_or(websocket_port, "8081");
        let websocket_port = match parse_u16(ws_text.as_str()) {
            Some(p) => p,
            None => return Err(ConfigError::InvalidPort(ConfigVar::WebsocketPort)),
        };
        let grpc_host = text_or(grpc_host, "127.0.0.1");
        let grpc_text = text_or(grpc_port, "50051");
        let grpc_port = match parse_u16(grpc_text.as_str()) {
            Some(p) => p,
            None => return Err(ConfigError::InvalidPort(ConfigVar::GrpcPort)),
        };
        Ok(
            AppConfig {
                supabase_url,
                supabase_anon_key,
                supabase_service_role_key,
                websocket_port,
                grpc_host,
                grpc_port,
            },
        )
    }
}

} // verus!
