//! The attribute sets the telemetry middleware records for a request: those
//! known while the request runs, and those recorded when it finishes.
use vstd::prelude::*;
use crate::service::OtelHttp;
use crate::text::opt_text;
use crate::telemetry::semconv::{
    error_type, error_value, header_text, request_method, method_value, scheme_value,
    server_address_port, server_value, texts, url_scheme, RequestHeaders, RequestHeadersView,
};

verus! {

/// The attributes of the HTTP server semantic conventions that the middleware
/// records.
#[derive(Debug, PartialEq, Eq, Structural, Clone, Copy)]
pub enum AttributeKey {
    /// `http.request.method`
    HttpRequestMethod,
    /// `url.scheme`
    UrlScheme,
    /// `server.address`
    ServerAddress,
    /// `server.port`
    ServerPort,
    /// `http.route`
    HttpRoute,
    /// `network.protocol.version`
    NetworkProtocolVersion,
    /// `http.response.status_code`
    HttpResponseStatusCode,
    /// `error.type`
    ErrorType,
}

/// The value of an attribute.
pub enum AttributeValue {
    Text(String),
    Int(i64),
}

/// One attribute of a recorded measurement.
pub struct Attribute {
    pub key: AttributeKey,
    pub value: AttributeValue,
}

/// The value of an attribute, as text or number.
pub enum ValueView {
    Text(Seq<char>),
    Int(int),
}

/// An attribute, its value as text or number.
pub struct AttributeView {
    pub key: AttributeKey,
    pub value: ValueView,
}

impl View for Attribute {
    type V = AttributeView;

    open spec fn view(&self) -> AttributeView {
        AttributeView {
            key: self.key,
            value: match self.value {
                AttributeValue::Text(s) => ValueView::Text(s@),
                AttributeValue::Int(n) => ValueView::Int(n as int),
            },
        }
    }
}

/// The views of a list of attributes.
pub open spec fn attribute_views(v: Seq<Attribute>) -> Seq<AttributeView> {
    v.map_values(|a: Attribute| a@)
}

/// A text attribute.
pub open spec fn text_attr(key: AttributeKey, value: Seq<char>) -> AttributeView {
    AttributeView { key, value: ValueView::Text(value) }
}

/// A number attribute.
pub open spec fn int_attr(key: AttributeKey, value: int) -> AttributeView {
    AttributeView { key, value: ValueView::Int(value) }
}

/// The attributes known while a request runs: its method and scheme, then its
/// server address and port when those are captured.
pub open spec fn request_attribute_views(
    method: Seq<char>,
    scheme: Seq<char>,
    server: Option<(Seq<char>, u16)>,
) -> Seq<AttributeView> {
    let base = seq![
        text_attr(AttributeKey::HttpRequestMethod, method),
        text_attr(AttributeKey::UrlScheme, scheme),
    ];
    match server {
        Some((address, port)) => base + seq![
            text_attr(AttributeKey::ServerAddress, address),
            int_attr(AttributeKey::ServerPort, port as int),
        ],
        None => base,
    }
}

/// The server address and port captured for a request, if capture is on.
pub open spec fn captured_server(
    options: OtelHttp,
    headers: RequestHeadersView,
) -> Option<(Seq<char>, u16)> {
    if options.capture_server_attributes {
        server_value(headers, scheme_value(headers))
    } else {
        None
    }
}

/// Computes the attributes known while a request runs.
///
/// They are the complete attribute set of `http.server.active_requests` and the
/// shared prefix of the attribute sets recorded when the request finishes. The
/// method is reported as the semantic conventions define it, against `known`;
/// the server address and port only when `options` captures them.
pub fn request_attributes(
    options: &OtelHttp,
    known: &[String],
    method: &str,
    headers: &RequestHeaders,
) -> (res: Vec<Attribute>)
    ensures
        attribute_views(res@) == request_attribute_views(
            method_value(texts(known@), method@),
            scheme_value(headers@),
            captured_server(*options, headers@),
        ),
{
    let method = request_method(known, method);
    let scheme = url_scheme(headers);
    let server = if options.capture_server_attributes {
        server_address_port(headers, scheme.as_str())
    } else {
        None
    };
    let ghost method_v = method@;
    let ghost scheme_v = scheme@;
    let mut res: Vec<Attribute> = Vec::new();
    res.push(Attribute { key: AttributeKey::HttpRequestMethod, value: AttributeValue::Text(method) });
    res.push(Attribute { key: AttributeKey::UrlScheme, value: AttributeValue::Text(scheme) });
    match server {
        Some((address, port)) => {
            let ghost address_v = address@;
            res.push(Attribute { key: AttributeKey::ServerAddress, value: AttributeValue::Text(address) });
            res.push(Attribute { key: AttributeKey::ServerPort, value: AttributeValue::Int(port as i64) });
            assert(attribute_views(res@) =~= request_attribute_views(method_v, scheme_v, Some((address_v, port))));
        },
        None => {
            assert(attribute_views(res@) =~= request_attribute_views(method_v, scheme_v, None));
        },
    }
    res
}

/// The attributes recorded when a request finishes: those known while it ran,
/// then its route and protocol version when known, its status code, and the
/// error type when the response is a server error.
pub open spec fn completed_attribute_views(
    request: Seq<AttributeView>,
    route: Option<Seq<char>>,
    version: Option<Seq<char>>,
    status: u16,
) -> Seq<AttributeView> {
    let with_route = match route {
        Some(r) => request.push(text_attr(AttributeKey::HttpRoute, r)),
        None => request,
    };
    let with_version = match version {
        Some(v) => with_route.push(text_attr(AttributeKey::NetworkProtocolVersion, v)),
        None => with_route,
    };
    let with_status = with_version.push(int_attr(AttributeKey::HttpResponseStatusCode, status as int));
    match error_value(status) {
        Some(e) => with_status.push(text_attr(AttributeKey::ErrorType, e)),
        None => with_status,
    }
}

/// Computes the attributes recorded when a request finishes, from those known
/// while it ran.
pub fn completed_attributes(
    request: Vec<Attribute>,
    route: Option<String>,
    protocol_version: Option<&str>,
    status: u16,
) -> (res: Vec<Attribute>)
    ensures
        attribute_views(res@) == completed_attribute_views(
            attribute_views(request@),
            opt_text(route),
            match protocol_version {
                Some(v) => Some(v@),
                None => None,
            },
            status,
        ),
{
    let ghost request_v = attribute_views(request@);
    let ghost route_v = opt_text(route);
    let ghost version_v = match protocol_version {
        Some(v) => Some(v@),
        None => None,
    };
    let mut res = request;
    let ghost step0 = attribute_views(res@);
    match route {
        Some(r) => {
            let ghost before = res@;
            res.push(Attribute { key: AttributeKey::HttpRoute, value: AttributeValue::Text(r) });
            assert(attribute_views(res@) =~= attribute_views(before).push(
                text_attr(AttributeKey::HttpRoute, route_v.unwrap()),
            ));
        },
        None => {},
    }
    let ghost step1 = attribute_views(res@);
    assert(step1 == match route_v {
        Some(r) => request_v.push(text_attr(AttributeKey::HttpRoute, r)),
        None => request_v,
    });
    match protocol_version {
        Some(v) => {
            let ghost before = res@;
            res.push(
                Attribute {
                    key: AttributeKey::NetworkProtocolVersion,
                    value: AttributeValue::Text(v.to_owned()),
                },
            );
            assert(attribute_views(res@) =~= attribute_views(before).push(
                text_attr(AttributeKey::NetworkProtocolVersion, v@),
            ));
        },
        None => {},
    }
    let ghost step2 = attribute_views(res@);
    let ghost before2 = res@;
    res.push(
        Attribute { key: AttributeKey::HttpResponseStatusCode, value: AttributeValue::Int(status as i64) },
    );
    assert(attribute_views(res@) =~= attribute_views(before2).push(
        int_attr(AttributeKey::HttpResponseStatusCode, status as int),
    ));
    match error_type(status) {
        Some(e) => {
            let ghost before = res@;
            let ghost e_v = e@;
            res.push(Attribute { key: AttributeKey::ErrorType, value: AttributeValue::Text(e) });
            assert(attribute_views(res@) =~= attribute_views(before).push(
                text_attr(AttributeKey::ErrorType, e_v),
            ));
        },
        None => {},
    }
    res
}

/// The attributes known while a request runs are the leading attributes of
/// those recorded when it finishes.
pub proof fn lemma_request_attributes_prefix(
    request: Seq<AttributeView>,
    route: Option<Seq<char>>,
    version: Option<Seq<char>>,
    status: u16,
)
    ensures
        completed_attribute_views(request, route, version, status).len() >= request.len(),
        completed_attribute_views(request, route, version, status).take(request.len() as int)
            == request,
{
    let c = completed_attribute_views(request, route, version, status);
    assert(c.take(request.len() as int) =~= request);
}

/// A finished request carries an `error.type` attribute exactly when its
/// response is a server error, and the attribute holds the status code.
pub proof fn lemma_error_type_attribute(
    request: Seq<AttributeView>,
    route: Option<Seq<char>>,
    version: Option<Seq<char>>,
    status: u16,
)
    requires
        forall|i: int| 0 <= i < request.len() ==> (#[trigger] request[i]).key != AttributeKey::ErrorType,
    ensures
        (exists|i: int|
            0 <= i < completed_attribute_views(request, route, version, status).len()
                && (#[trigger] completed_attribute_views(request, route, version, status)[i]).key
                == AttributeKey::ErrorType) <==> 500 <= status < 600,
        500 <= status < 600 ==> completed_attribute_views(request, route, version, status).last()
            == text_attr(AttributeKey::ErrorType, crate::text::decimal(status as nat)),
{
    let c = completed_attribute_views(request, route, version, status);
    if 500 <= status < 600 {
        assert(c[c.len() - 1].key == AttributeKey::ErrorType);
    } else {
        assert forall|i: int| 0 <= i < c.len() implies (#[trigger] c[i]).key != AttributeKey::ErrorType by {
            if i < request.len() {
                assert(c[i] == request[i]);
            }
        }
    }
}

/// While a request runs, the method and scheme come first; with capture on,
/// the server address and port recorded are exactly those the headers give,
/// the port named by the host included; with capture off, or without a
/// usable host, nothing else is recorded.
pub proof fn lemma_request_attributes_server(
    options: OtelHttp,
    known: Seq<Seq<char>>,
    method: Seq<char>,
    h: RequestHeadersView,
)
    ensures
        ({
            let v = request_attribute_views(
                method_value(known, method),
                scheme_value(h),
                captured_server(options, h),
            );
            &&& v.len() >= 2
            &&& v[0] == text_attr(AttributeKey::HttpRequestMethod, method_value(known, method))
            &&& v[1] == text_attr(AttributeKey::UrlScheme, scheme_value(h))
            &&& !options.capture_server_attributes ==> v.len() == 2
            &&& options.capture_server_attributes ==> match server_value(h, scheme_value(h)) {
                Some((address, port)) => {
                    &&& v.len() == 4
                    &&& v[2] == text_attr(AttributeKey::ServerAddress, address)
                    &&& v[3] == int_attr(AttributeKey::ServerPort, port as int)
                },
                None => v.len() == 2,
            }
        }),
{
}

/// With capture on, a request whose only host header is `Host: address:port`
/// records that address and that very port, whatever the scheme.
pub proof fn lemma_request_attributes_host_port(
    options: OtelHttp,
    known: Seq<Seq<char>>,
    method: Seq<char>,
    h: RequestHeadersView,
    address: Seq<char>,
    port: u16,
)
    requires
        options.capture_server_attributes,
        h.forwarded is None,
        h.x_forwarded_host is None,
        header_text(h.host) == Some(address + seq![':'] + crate::text::decimal(port as nat)),
        0 < address.len() <= crate::telemetry::semconv::MAX_SERVER_ADDRESS_LENGTH,
        address[0] != '[',
        forall|i: int| 0 <= i < address.len() ==> !crate::text::is_whitespace(#[trigger] address[i]),
    ensures
        ({
            let v = request_attribute_views(
                method_value(known, method),
                scheme_value(h),
                captured_server(options, h),
            );
            &&& v.len() == 4
            &&& v[2] == text_attr(AttributeKey::ServerAddress, address)
            &&& v[3] == int_attr(AttributeKey::ServerPort, port as int)
        }),
{
    crate::telemetry::semconv::lemma_server_value_host_with_port(h, scheme_value(h), address, port);
}

/// When a request finishes, its attributes are those known while it ran, then
/// `http.route` with the route whenever one is given, then
/// `network.protocol.version` with the version whenever one is given, then
/// `http.response.status_code` with the status, then, for a server error only,
/// `error.type`.
pub proof fn lemma_completed_attributes_layout(
    request: Seq<AttributeView>,
    route: Option<Seq<char>>,
    version: Option<Seq<char>>,
    status: u16,
)
    ensures
        ({
            let c = completed_attribute_views(request, route, version, status);
            let r = if route is Some {
                1int
            } else {
                0int
            };
            let n = if version is Some {
                1int
            } else {
                0int
            };
            let e = if 500 <= status < 600 {
                1int
            } else {
                0int
            };
            &&& c.len() == request.len() + r + n + 1 + e
            &&& c.take(request.len() as int) == request
            &&& (route matches Some(rt) ==> c[request.len() as int] == text_attr(
                AttributeKey::HttpRoute,
                rt,
            ))
            &&& (version matches Some(vs) ==> c[request.len() + r] == text_attr(
                AttributeKey::NetworkProtocolVersion,
                vs,
            ))
            &&& c[request.len() + r + n] == int_attr(AttributeKey::HttpResponseStatusCode, status as int)
            &&& (route is None ==> forall|i: int|
                request.len() <= i < c.len() ==> (#[trigger] c[i]).key != AttributeKey::HttpRoute)
        }),
{
    let c = completed_attribute_views(request, route, version, status);
    assert(c.take(request.len() as int) =~= request);
}

/// The body size metrics of the HTTP server semantic conventions.
#[derive(Debug, PartialEq, Eq, Structural, Clone, Copy)]
pub enum BodySizeMetric {
    /// `http.server.request.body.size`
    RequestBodySize,
    /// `http.server.response.body.size`
    ResponseBodySize,
}

/// One body size measurement, in bytes.
#[derive(Debug, PartialEq, Eq, Structural, Clone, Copy)]
pub struct BodySize {
    pub metric: BodySizeMetric,
    pub bytes: u64,
}

/// The body size measurements of a finished request: none unless `capture` is
/// on; otherwise the request body size, then the response body size, each
/// where its size is known.
pub open spec fn body_size_values(
    capture: bool,
    request_body_size: Option<u64>,
    response_body_size: Option<u64>,
) -> Seq<BodySize> {
    if !capture {
        Seq::<BodySize>::empty()
    } else {
        let request = match request_body_size {
            Some(n) => seq![BodySize { metric: BodySizeMetric::RequestBodySize, bytes: n }],
            None => Seq::<BodySize>::empty(),
        };
        let response = match response_body_size {
            Some(n) => seq![BodySize { metric: BodySizeMetric::ResponseBodySize, bytes: n }],
            None => Seq::<BodySize>::empty(),
        };
        request + response
    }
}

/// Decides the body size measurements recorded when a request finishes.
///
/// The `http.server.request.body.size` and `http.server.response.body.size`
/// metrics are opt-in: they are recorded only when `options` captures body
/// sizes, once each per request, with the size of the request body and of the
/// response body in bytes (a body whose size is not known has nothing to
/// record).
pub fn body_sizes(
    options: &OtelHttp,
    request_body_size: Option<u64>,
    response_body_size: Option<u64>,
) -> (res: Vec<BodySize>)
    ensures
        res@ == body_size_values(options.capture_body_size, request_body_size, response_body_size),
{
    let mut res: Vec<BodySize> = Vec::new();
    if options.capture_body_size {
        match request_body_size {
            Some(n) => res.push(BodySize { metric: BodySizeMetric::RequestBodySize, bytes: n }),
            None => {},
        }
        match response_body_size {
            Some(n) => res.push(BodySize { metric: BodySizeMetric::ResponseBodySize, bytes: n }),
            None => {},
        }
    }
    assert(res@ =~= body_size_values(options.capture_body_size, request_body_size, response_body_size));
    res
}

/// Body sizes are recorded only when captured, each metric at most once per
/// request, and each whose size is known when captured.
pub proof fn lemma_body_sizes(
    capture: bool,
    request_body_size: Option<u64>,
    response_body_size: Option<u64>,
)
    ensures
        !capture ==> body_size_values(capture, request_body_size, response_body_size).len() == 0,
        forall|i: int, j: int|
            0 <= i < j < body_size_values(capture, request_body_size, response_body_size).len()
                ==> (#[trigger] body_size_values(capture, request_body_size, response_body_size)[i]).metric
                != (#[trigger] body_size_values(capture, request_body_size, response_body_size)[j]).metric,
        capture ==> (request_body_size matches Some(n) ==> body_size_values(
            capture,
            request_body_size,
            response_body_size,
        ).contains((BodySize { metric: BodySizeMetric::RequestBodySize, bytes: n }))),
        capture ==> (response_body_size matches Some(n) ==> body_size_values(
            capture,
            request_body_size,
            response_body_size,
        ).contains((BodySize { metric: BodySizeMetric::ResponseBodySize, bytes: n }))),
{
    let v = body_size_values(capture, request_body_size, response_body_size);
    if capture {
        if let Some(n) = request_body_size {
            assert(v[0] == BodySize { metric: BodySizeMetric::RequestBodySize, bytes: n });
        }
        if let Some(n) = response_body_size {
            assert(v[v.len() - 1] == BodySize { metric: BodySizeMetric::ResponseBodySize, bytes: n });
        }
    }
}

} // verus!
