use revo::http::server::middleware::telemetry::{
    body_sizes, completed_attributes, request_attributes, Attribute, AttributeKey, AttributeValue,
    BodySize, BodySizeMetric,
};
use revo::service::OtelHttp;
use revo::telemetry::semconv::{known_methods, RequestHeaders};

fn options(capture_server_attributes: bool) -> OtelHttp {
    OtelHttp { known_methods: None, capture_server_attributes, capture_body_size: false }
}

fn host_headers(host: &str) -> RequestHeaders {
    RequestHeaders {
        forwarded: Some(b"proto=https".to_vec()),
        x_forwarded_proto: None,
        x_forwarded_host: None,
        host: Some(host.as_bytes().to_vec()),
    }
}

fn describe(attrs: &[Attribute]) -> Vec<(AttributeKey, String)> {
    attrs
        .iter()
        .map(|a| {
            let v = match &a.value {
                AttributeValue::Text(s) => s.clone(),
                AttributeValue::Int(n) => format!("#{n}"),
            };
            (a.key, v)
        })
        .collect()
}

#[test]
fn request_attributes_without_server_capture() {
    let known = known_methods(None);
    let attrs = request_attributes(&options(false), &known, "GET", &host_headers("example.com"));
    assert!(describe(&attrs)
        == vec![
            (AttributeKey::HttpRequestMethod, "GET".to_string()),
            (AttributeKey::UrlScheme, "https".to_string()),
        ]);
}

#[test]
fn request_attributes_with_server_capture() {
    let known = known_methods(None);
    let attrs = request_attributes(&options(true), &known, "BREW", &host_headers("example.com"));
    assert!(describe(&attrs)
        == vec![
            (AttributeKey::HttpRequestMethod, "_OTHER".to_string()),
            (AttributeKey::UrlScheme, "https".to_string()),
            (AttributeKey::ServerAddress, "example.com".to_string()),
            (AttributeKey::ServerPort, "#443".to_string()),
        ]);
}

#[test]
fn request_attributes_capture_skips_bogus_host() {
    let known = known_methods(None);
    let attrs = request_attributes(&options(true), &known, "GET", &host_headers("bad host"));
    assert_eq!(attrs.len(), 2);
}

#[test]
fn completed_attributes_extend_request_attributes() {
    let known = known_methods(None);
    let request = request_attributes(&options(true), &known, "POST", &host_headers("example.com:8443"));
    let before = describe(&request);
    let done = completed_attributes(request, Some("/items/{id}".to_string()), Some("1.1"), 201);
    let after = describe(&done);
    assert_eq!(after.len(), before.len() + 3);
    assert!(after[..before.len()] == before[..]);
    assert!(after[before.len()..]
        == [
            (AttributeKey::HttpRoute, "/items/{id}".to_string()),
            (AttributeKey::NetworkProtocolVersion, "1.1".to_string()),
            (AttributeKey::HttpResponseStatusCode, "#201".to_string()),
        ]);
}

#[test]
fn completed_attributes_server_error() {
    let known = known_methods(None);
    let request = request_attributes(&options(false), &known, "GET", &host_headers("example.com"));
    let done = completed_attributes(request, None, None, 503);
    let after = describe(&done);
    assert!(after
        == vec![
            (AttributeKey::HttpRequestMethod, "GET".to_string()),
            (AttributeKey::UrlScheme, "https".to_string()),
            (AttributeKey::HttpResponseStatusCode, "#503".to_string()),
            (AttributeKey::ErrorType, "503".to_string()),
        ]);
}

#[test]
fn completed_attributes_client_error_has_no_error_type() {
    let known = known_methods(None);
    let request = request_attributes(&options(false), &known, "GET", &host_headers("example.com"));
    let done = completed_attributes(request, None, Some("2"), 404);
    assert!(done.iter().all(|a| a.key != AttributeKey::ErrorType));
    assert_eq!(done.len(), 4);
}

fn body_options(capture_body_size: bool) -> OtelHttp {
    OtelHttp { known_methods: None, capture_server_attributes: false, capture_body_size }
}

#[test]
fn body_sizes_off_by_default() {
    assert!(body_sizes(&body_options(false), Some(12), Some(34)).is_empty());
}

#[test]
fn body_sizes_recorded_once_each_when_captured() {
    assert_eq!(
        body_sizes(&body_options(true), Some(12), Some(34)),
        vec![
            BodySize { metric: BodySizeMetric::RequestBodySize, bytes: 12 },
            BodySize { metric: BodySizeMetric::ResponseBodySize, bytes: 34 },
        ]
    );
    assert_eq!(
        body_sizes(&body_options(true), Some(0), None),
        vec![BodySize { metric: BodySizeMetric::RequestBodySize, bytes: 0 }]
    );
    assert_eq!(
        body_sizes(&body_options(true), None, Some(7)),
        vec![BodySize { metric: BodySizeMetric::ResponseBodySize, bytes: 7 }]
    );
    assert!(body_sizes(&body_options(true), None, None).is_empty());
}
