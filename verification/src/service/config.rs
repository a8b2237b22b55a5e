//! The service configuration, read from environment variables.
use vstd::prelude::*;
use crate::text::{chars_of, opt_text, range_eq};

verus! {

/// The service configuration.
pub struct Config {
    /// `ENVIRONMENT`, `local` by default.
    pub environment: String,
    pub http: Http,
    pub otel: Otel,
}

/// The HTTP server configuration.
pub struct Http {
    /// `HTTP_ADDRESS`, `0.0.0.0:3000` by default.
    pub address: String,
}

/// The OpenTelemetry configuration.
pub struct Otel {
    /// `OTEL_SDK_DISABLED`, `true` by default.
    pub sdk_disabled: bool,
    /// Instrumentation options for HTTP servers.
    pub http: OtelHttp,
}

/// Instrumentation options for HTTP servers.
pub struct OtelHttp {
    /// Full replacement of the HTTP methods the instrumentation reports verbatim,
    /// comma separated and case sensitive. Every other method is reported as
    /// `_OTHER`.
    pub known_methods: Option<String>,
    /// Captures the opt-in `server.address` and `server.port` metric attributes.
    /// They are derived from request headers, which clients control, so they are
    /// off by default.
    pub capture_server_attributes: bool,
    /// Records the opt-in `http.server.request.body.size` and
    /// `http.server.response.body.size` metrics.
    pub capture_body_size: bool,
}

/// The environment variables the configuration is read from.
#[derive(Debug, PartialEq, Eq, Structural, Clone, Copy)]
pub enum EnvVar {
    Environment,
    HttpAddress,
    OtelSdkDisabled,
    KnownMethods,
    CaptureServerAttributes,
    CaptureBodySize,
}

/// The name of the environment variable `var`.
pub open spec fn var_name(var: EnvVar) -> Seq<char> {
    match var {
        EnvVar::Environment => "ENVIRONMENT"@,
        EnvVar::HttpAddress => "HTTP_ADDRESS"@,
        EnvVar::OtelSdkDisabled => "OTEL_SDK_DISABLED"@,
        EnvVar::KnownMethods => "OTEL_INSTRUMENTATION_HTTP_KNOWN_METHODS"@,
        EnvVar::CaptureServerAttributes => "OTEL_INSTRUMENTATION_HTTP_SERVER_CAPTURE_SERVER_ATTRIBUTES"@,
        EnvVar::CaptureBodySize => "OTEL_INSTRUMENTATION_HTTP_SERVER_CAPTURE_BODY_SIZE"@,
    }
}

impl EnvVar {
    /// The name of the environment variable.
    pub fn name(&self) -> (res: &'static str)
        ensures
            res@ == var_name(*self),
    {
        match self {
            EnvVar::Environment => "ENVIRONMENT",
            EnvVar::HttpAddress => "HTTP_ADDRESS",
            EnvVar::OtelSdkDisabled => "OTEL_SDK_DISABLED",
            EnvVar::KnownMethods => "OTEL_INSTRUMENTATION_HTTP_KNOWN_METHODS",
            EnvVar::CaptureServerAttributes => "OTEL_INSTRUMENTATION_HTTP_SERVER_CAPTURE_SERVER_ATTRIBUTES",
            EnvVar::CaptureBodySize => "OTEL_INSTRUMENTATION_HTTP_SERVER_CAPTURE_BODY_SIZE",
        }
    }
}

/// The values of the configuration's environment variables: `None` where a
/// variable is not set (or does not hold Unicode).
pub struct EnvValues {
    pub environment: Option<String>,
    pub http_address: Option<String>,
    pub otel_sdk_disabled: Option<String>,
    pub known_methods: Option<String>,
    pub capture_server_attributes: Option<String>,
    pub capture_body_size: Option<String>,
}

/// A configuration that cannot be read.
#[derive(Debug, PartialEq, Eq, Structural, Clone, Copy)]
pub enum ConfigError {
    /// The variable holds a value that its setting cannot take.
    ParseError(EnvVar),
}

/// `s` read as a `bool` the way `str::parse::<bool>` reads it.
pub open spec fn parse_bool(s: Seq<char>) -> Option<bool> {
    if s == seq!['t', 'r', 'u', 'e'] {
        Some(true)
    } else if s == seq!['f', 'a', 'l', 's', 'e'] {
        Some(false)
    } else {
        None
    }
}

/// A boolean setting: the variable's value read as a `bool`, `default` when
/// the variable is not set.
pub open spec fn bool_setting(value: Option<Seq<char>>, default: bool) -> Option<bool> {
    match value {
        Some(s) => parse_bool(s),
        None => Some(default),
    }
}

/// A set boolean variable reads as the value it spells, whatever the setting's
/// default: `true` as true, `false` as false, anything else not at all; an
/// unset one reads as the default.
pub proof fn lemma_bool_setting(s: Seq<char>, d: bool, e: bool)
    ensures
        bool_setting(Some(s), d) == bool_setting(Some(s), e),
        bool_setting(Some(seq!['t', 'r', 'u', 'e']), d) == Some(true),
        bool_setting(Some(seq!['f', 'a', 'l', 's', 'e']), d) == Some(false),
        s != seq!['t', 'r', 'u', 'e'] && s != seq!['f', 'a', 'l', 's', 'e'] ==> bool_setting(Some(s), d)
            is None,
        bool_setting(None, d) == Some(d),
{
}

/// A text setting: the variable's value, `default` when the variable is not set.
pub open spec fn text_setting(value: Option<Seq<char>>, default: Seq<char>) -> Seq<char> {
    match value {
        Some(s) => s,
        None => default,
    }
}

/// The first variable, in the order the settings are read, whose value its
/// setting cannot take.
pub open spec fn config_error(values: EnvValues) -> Option<EnvVar> {
    if bool_setting(opt_text(values.otel_sdk_disabled), true) is None {
        Some(EnvVar::OtelSdkDisabled)
    } else if bool_setting(opt_text(values.capture_server_attributes), false) is None {
        Some(EnvVar::CaptureServerAttributes)
    } else if bool_setting(opt_text(values.capture_body_size), false) is None {
        Some(EnvVar::CaptureBodySize)
    } else {
        None
    }
}

/// Reads a boolean setting.
fn read_bool(value: &Option<String>, default: bool) -> (res: Option<bool>)
    ensures
        res == bool_setting(opt_text(*value), default),
{
    match value {
        None => Some(default),
        Some(s) => {
            let chars = chars_of(s.as_str());
            assert(chars@.subrange(0, chars@.len() as int) =~= chars@);
            let t: Vec<char> = vec!['t', 'r', 'u', 'e'];
            let f: Vec<char> = vec!['f', 'a', 'l', 's', 'e'];
            assert(t@ =~= seq!['t', 'r', 'u', 'e']);
            assert(f@ =~= seq!['f', 'a', 'l', 's', 'e']);
            if range_eq(&chars, 0, chars.len(), &t) {
                Some(true)
            } else if range_eq(&chars, 0, chars.len(), &f) {
                Some(false)
            } else {
                None
            }
        },
    }
}

/// Reads a text setting.
fn read_text(value: &Option<String>, default: &str) -> (res: String)
    ensures
        res@ == text_setting(opt_text(*value), default@),
{
    match value {
        Some(s) => s.clone(),
        None => default.to_owned(),
    }
}

/// Reads the configuration from the values of its environment variables.
///
/// Each setting takes its variable's value, or its default when the variable is
/// not set; a boolean setting whose value is neither `true` nor `false` makes
/// the configuration unreadable.
pub fn config(values: &EnvValues) -> (res: Result<Config, ConfigError>)
    ensures
        match res {
            Ok(c) => {
                &&& config_error(*values) is None
                &&& c.environment@ == text_setting(opt_text(values.environment), "local"@)
                &&& c.http.address@ == text_setting(opt_text(values.http_address), "0.0.0.0:3000"@)
                &&& bool_setting(opt_text(values.otel_sdk_disabled), true) == Some(c.otel.sdk_disabled)
                &&& opt_text(c.otel.http.known_methods) == opt_text(values.known_methods)
                &&& bool_setting(opt_text(values.capture_server_attributes), false) == Some(
                    c.otel.http.capture_server_attributes,
                )
                &&& bool_setting(opt_text(values.capture_body_size), false) == Some(
                    c.otel.http.capture_body_size,
                )
            },
            Err(ConfigError::ParseError(var)) => config_error(*values) == Some(var),
        },
{
    let environment = read_text(&values.environment, "local");
    let address = read_text(&values.http_address, "0.0.0.0:3000");
    let sdk_disabled = match read_bool(&values.otel_sdk_disabled, true) {
        Some(b) => b,
        None => return Err(ConfigError::ParseError(EnvVar::OtelSdkDisabled)),
    };
    let known_methods = match &values.known_methods {
        Some(s) => Some(s.clone()),
        None => None,
    };
    let capture_server_attributes = match read_bool(&values.capture_server_attributes, false) {
        Some(b) => b,
        None => return Err(ConfigError::ParseError(EnvVar::CaptureServerAttributes)),
    };
    let capture_body_size = match read_bool(&values.capture_body_size, false) {
        Some(b) => b,
        None => return Err(ConfigError::ParseError(EnvVar::CaptureBodySize)),
    };
    Ok(
        Config {
            environment,
            http: Http { address },
            otel: Otel {
                sdk_disabled,
                http: OtelHttp { known_methods, capture_server_attributes, capture_body_size },
            },
        },
    )
}

} // verus!
