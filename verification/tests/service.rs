use revo::http::server::HttpServer;
use revo::service::{cleanup, config, init, ConfigError, EnvValues, EnvVar};

fn unset() -> EnvValues {
    EnvValues {
        environment: None,
        http_address: None,
        otel_sdk_disabled: None,
        known_methods: None,
        capture_server_attributes: None,
        capture_body_size: None,
    }
}

fn parse_error_var(values: &EnvValues) -> EnvVar {
    match config(values) {
        Err(ConfigError::ParseError(var)) => var,
        Ok(_) => panic!("expected a parse error"),
    }
}

#[test]
fn config_defaults() {
    let c = match config(&unset()) {
        Ok(c) => c,
        Err(_) => panic!("defaults must be readable"),
    };
    assert_eq!(c.environment, "local");
    assert_eq!(c.http.address, "0.0.0.0:3000");
    assert!(c.otel.sdk_disabled);
    assert_eq!(c.otel.http.known_methods, None);
    assert!(!c.otel.http.capture_server_attributes);
    assert!(!c.otel.http.capture_body_size);
}

#[test]
fn config_from_values() {
    let values = EnvValues {
        environment: Some("production".to_string()),
        http_address: Some("127.0.0.1:8080".to_string()),
        otel_sdk_disabled: Some("false".to_string()),
        known_methods: Some("GET,POST".to_string()),
        capture_server_attributes: Some("true".to_string()),
        capture_body_size: Some("true".to_string()),
    };
    let c = match config(&values) {
        Ok(c) => c,
        Err(_) => panic!("values must be readable"),
    };
    assert_eq!(c.environment, "production");
    assert_eq!(c.http.address, "127.0.0.1:8080");
    assert!(!c.otel.sdk_disabled);
    assert_eq!(c.otel.http.known_methods, Some("GET,POST".to_string()));
    assert!(c.otel.http.capture_server_attributes);
    assert!(c.otel.http.capture_body_size);
}

#[test]
fn config_empty_text_is_kept() {
    let mut values = unset();
    values.environment = Some(String::new());
    let c = match config(&values) {
        Ok(c) => c,
        Err(_) => panic!("an empty environment is readable"),
    };
    assert_eq!(c.environment, "");
}

#[test]
fn config_rejects_non_bool_values() {
    let mut values = unset();
    values.otel_sdk_disabled = Some("TRUE".to_string());
    assert!(matches!(parse_error_var(&values), EnvVar::OtelSdkDisabled));

    let mut values = unset();
    values.capture_server_attributes = Some("1".to_string());
    assert!(matches!(parse_error_var(&values), EnvVar::CaptureServerAttributes));

    let mut values = unset();
    values.capture_body_size = Some("".to_string());
    assert!(matches!(parse_error_var(&values), EnvVar::CaptureBodySize));
}

#[test]
fn config_reports_first_unreadable_variable() {
    let mut values = unset();
    values.capture_body_size = Some("yes".to_string());
    values.otel_sdk_disabled = Some(" true".to_string());
    assert!(matches!(parse_error_var(&values), EnvVar::OtelSdkDisabled));
}

#[test]
fn env_var_names() {
    assert_eq!(EnvVar::Environment.name(), "ENVIRONMENT");
    assert_eq!(EnvVar::HttpAddress.name(), "HTTP_ADDRESS");
    assert_eq!(EnvVar::OtelSdkDisabled.name(), "OTEL_SDK_DISABLED");
    assert_eq!(EnvVar::KnownMethods.name(), "OTEL_INSTRUMENTATION_HTTP_KNOWN_METHODS");
    assert_eq!(
        EnvVar::CaptureServerAttributes.name(),
        "OTEL_INSTRUMENTATION_HTTP_SERVER_CAPTURE_SERVER_ATTRIBUTES"
    );
    assert_eq!(EnvVar::CaptureBodySize.name(), "OTEL_INSTRUMENTATION_HTTP_SERVER_CAPTURE_BODY_SIZE");
}

#[test]
fn init_and_cleanup_agree() {
    let disabled = match config(&unset()) {
        Ok(c) => c,
        Err(_) => panic!("defaults must be readable"),
    };
    assert!(!init(&disabled));
    assert!(!cleanup(&disabled));
    let mut values = unset();
    values.otel_sdk_disabled = Some("false".to_string());
    let enabled = match config(&values) {
        Ok(c) => c,
        Err(_) => panic!("values must be readable"),
    };
    assert!(init(&enabled));
    assert!(cleanup(&enabled));
}

#[test]
fn http_server_new() {
    let _server: HttpServer = HttpServer::new();
}
