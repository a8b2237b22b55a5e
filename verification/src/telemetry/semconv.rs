//! Attribute values of the HTTP server semantic conventions, derived from what
//! a request and its response carry.
use vstd::prelude::*;
use crate::text::{
    lemma_join_with_last, lemma_trim_nonempty, lemma_trim_unchanged,
    all_whitespace, join_with, lemma_split_pieces_extend, lemma_split_pieces_nonempty,
    lemma_split_pieces_separator, lemma_trim_whitespace_prefix, lemma_trim_whitespace_suffix,
    ascii_lower, is_digit, is_first_index, is_last_index, lemma_decimal, lemma_parse_decimal,
    lemma_split_pieces_no_separator, lemma_trim, trim_end, trim_start,
    decimal, push_decimal,
    ascii_lowercase, is_whitespace, range_eq, range_has_whitespace, string_of, to_ascii_lowercase,
    chars_of, find_last, lemma_rsplit_once_at, parse_u16, parse_u16_range, rsplit_once, string_of_range,
    chars_range, eq_ignore_ascii_case, find_first, first_piece, lemma_split_once_at, range_eq_ignore_ascii_case,
    split_once, split_pieces, split_ranges, trim, trim_range,
};

verus! {

/// The request headers that the semantic conventions read: for each header,
/// the raw bytes of its first value, or `None` when the request does not
/// carry it.
pub struct RequestHeaders {
    /// `Forwarded`.
    pub forwarded: Option<Vec<u8>>,
    /// `X-Forwarded-Proto`.
    pub x_forwarded_proto: Option<Vec<u8>>,
    /// `X-Forwarded-Host`.
    pub x_forwarded_host: Option<Vec<u8>>,
    /// `Host`.
    pub host: Option<Vec<u8>>,
}

/// The raw bytes of a header value, if present.
pub open spec fn header_bytes(v: Option<Vec<u8>>) -> Option<Seq<u8>> {
    match v {
        Some(b) => Some(b@),
        None => None,
    }
}

/// The bytes of the four headers.
pub struct RequestHeadersView {
    pub forwarded: Option<Seq<u8>>,
    pub x_forwarded_proto: Option<Seq<u8>>,
    pub x_forwarded_host: Option<Seq<u8>>,
    pub host: Option<Seq<u8>>,
}

impl View for RequestHeaders {
    type V = RequestHeadersView;

    open spec fn view(&self) -> RequestHeadersView {
        RequestHeadersView {
            forwarded: header_bytes(self.forwarded),
            x_forwarded_proto: header_bytes(self.x_forwarded_proto),
            x_forwarded_host: header_bytes(self.x_forwarded_host),
            host: header_bytes(self.host),
        }
    }
}

/// A byte that a header value may hold and still be read as text: visible
/// ASCII or a tab.
pub open spec fn is_visible_ascii(b: u8) -> bool {
    (32 <= b && b < 127) || b == 9
}

/// A header value read as text: present, and made of visible ASCII only.
pub open spec fn header_text(v: Option<Seq<u8>>) -> Option<Seq<char>> {
    match v {
        Some(b) => if forall|i: int| 0 <= i < b.len() ==> is_visible_ascii(#[trigger] b[i]) {
            Some(b.map_values(|x: u8| x as char))
        } else {
            None
        },
        None => None,
    }
}

/// Reads a header value as text.
fn decode_header(v: &Option<Vec<u8>>) -> (res: Option<Vec<char>>)
    ensures
        match res {
            Some(t) => header_text(header_bytes(*v)) == Some(t@),
            None => header_text(header_bytes(*v)) is None,
        },
{
    match v {
        None => None,
        Some(b) => {
            assert(header_bytes(*v) == Some(b@));
            let mut out: Vec<char> = Vec::new();
            for i in 0..b.len()
                invariant
                    header_bytes(*v) == Some(b@),
                    out@ == b@.take(i as int).map_values(|x: u8| x as char),
                    forall|j: int| 0 <= j < i ==> is_visible_ascii(#[trigger] b@[j]),
            {
                let x = b[i];
                if !((32 <= x && x < 127) || x == 9) {
                    assert(!is_visible_ascii(b@[i as int]));
                    return None;
                }
                out.push(x as char);
                assert(out@ =~= b@.take(i + 1).map_values(|x: u8| x as char));
            }
            assert(b@.take(b@.len() as int) =~= b@);
            Some(out)
        },
    }
}

/// The separators between the elements and parameters of `Forwarded`.
pub open spec fn forwarded_separators() -> Seq<char> {
    seq![',', ';']
}

/// The value of a `key=value` parameter whose trimmed key is `name` up to
/// ASCII case.
pub open spec fn parameter_value(piece: Seq<char>, name: Seq<char>) -> Option<Seq<char>> {
    match split_once(piece, '=') {
        Some((key, value)) => if eq_ignore_ascii_case(trim(key), name) {
            Some(value)
        } else {
            None
        },
        None => None,
    }
}

/// The value of the first parameter named `name` among `pieces`.
pub open spec fn find_parameter(pieces: Seq<Seq<char>>, name: Seq<char>) -> Option<Seq<char>>
    decreases pieces.len(),
{
    if pieces.len() == 0 {
        None
    } else {
        match parameter_value(pieces[0], name) {
            Some(v) => Some(v),
            None => find_parameter(pieces.drop_first(), name),
        }
    }
}

/// The value of the first `name` parameter of a `Forwarded` header.
pub open spec fn forwarded_parameter(header: Option<Seq<char>>, name: Seq<char>) -> Option<Seq<char>> {
    match header {
        Some(h) => find_parameter(split_pieces(h, forwarded_separators()), name),
        None => None,
    }
}

/// Reads a parameter of the `Forwarded` header, such as the `proto` in
/// `Forwarded: for=192.0.2.60;proto=https;by=203.0.113.43`.
///
/// The first matching parameter wins, which is the element contributed by the
/// proxy closest to the client. Parameter names are matched case insensitively.
fn forwarded_value(headers: &RequestHeaders, name: &[char]) -> (res: Option<Vec<char>>)
    ensures
        match res {
            Some(v) => forwarded_parameter(header_text(headers@.forwarded), name@) == Some(v@),
            None => forwarded_parameter(header_text(headers@.forwarded), name@) is None,
        },
{
    let h = match decode_header(&headers.forwarded) {
        Some(h) => h,
        None => return None,
    };
    let seps: Vec<char> = vec![',', ';'];
    assert(seps@ =~= forwarded_separators());
    let ranges = split_ranges(&h, h.len(), &seps);
    assert(h@.take(h@.len() as int) =~= h@);
    let ghost pieces = ranges@.map_values(|r: (usize, usize)| h@.subrange(r.0 as int, r.1 as int));
    let mut k: usize = 0;
    assert(pieces.skip(0) =~= pieces);
    while k < ranges.len()
        invariant
            k <= ranges@.len(),
            header_text(headers@.forwarded) == Some(h@),
            pieces == ranges@.map_values(|r: (usize, usize)| h@.subrange(r.0 as int, r.1 as int)),
            pieces == split_pieces(h@, forwarded_separators()),
            forall|j: int| 0 <= j < ranges@.len() ==> ranges@[j].0 <= #[trigger] ranges@[j].1 <= h@.len(),
            find_parameter(pieces, name@) == find_parameter(pieces.skip(k as int), name@),
        decreases ranges.len() - k,
    {
        let (lo, hi) = ranges[k];
        let ghost piece = h@.subrange(lo as int, hi as int);
        assert(pieces[k as int] == piece);
        assert(pieces.skip(k as int)[0] == piece);
        assert(pieces.skip(k as int).drop_first() =~= pieces.skip(k + 1));
        match find_first(&h, lo, hi, '=') {
            Some(e) => {
                proof {
                    lemma_split_once_at(piece, '=', e - lo);
                    assert(piece.take(e - lo) =~= h@.subrange(lo as int, e as int));
                    assert(piece.skip(e - lo + 1) =~= h@.subrange(e + 1, hi as int));
                }
                let (a, b) = trim_range(&h, lo, e);
                if range_eq_ignore_ascii_case(&h, a, b, name) {
                    assert(parameter_value(piece, name@) == Some(h@.subrange(e + 1, hi as int)));
                    assert(find_parameter(pieces.skip(k as int), name@) == Some(h@.subrange(e + 1, hi as int)));
                    return Some(chars_range(&h, e + 1, hi));
                }
            },
            None => {},
        }
        k = k + 1;
    }
    None
}

/// Reads the first element of a comma separated request header, such as
/// `X-Forwarded-Proto: https, http`.
fn header_list_value(value: &Option<Vec<u8>>) -> (res: Option<Vec<char>>)
    ensures
        match res {
            Some(v) => match header_text(header_bytes(*value)) {
                Some(t) => v@ == first_piece(t, ','),
                None => false,
            },
            None => header_text(header_bytes(*value)) is None,
        },
{
    let h = match decode_header(value) {
        Some(h) => h,
        None => return None,
    };
    match find_first(&h, 0, h.len(), ',') {
        Some(i) => {
            proof {
                assert(h@.subrange(0, h@.len() as int) =~= h@);
                lemma_split_once_at(h@, ',', i as int);
                assert(h@.take(i as int) =~= h@.subrange(0, i as int));
            }
            Some(chars_range(&h, 0, i))
        },
        None => {
            assert(h@.subrange(0, h@.len() as int) =~= h@);
            Some(h)
        },
    }
}


/// `value` trimmed, without one pair of surrounding double quotes.
pub open spec fn unquoted(value: Seq<char>) -> Seq<char> {
    let v = trim(value);
    if v.len() >= 2 && v[0] == '"' && v.last() == '"' {
        v.subrange(1, v.len() - 1)
    } else {
        v
    }
}

/// The bounds of `s[lo..hi]` once unquoted.
fn unquote_range(s: &[char], lo: usize, hi: usize) -> (res: (usize, usize))
    requires
        lo <= hi <= s@.len(),
    ensures
        lo <= res.0 <= res.1 <= hi,
        s@.subrange(res.0 as int, res.1 as int) == unquoted(s@.subrange(lo as int, hi as int)),
{
    let (a, b) = trim_range(s, lo, hi);
    if b - a >= 2 && s[a] == '"' && s[b - 1] == '"' {
        assert(s@.subrange(a + 1, b - 1) =~= s@.subrange(a as int, b as int).subrange(1, b - a - 1));
        (a + 1, b - 1)
    } else {
        (a, b)
    }
}

/// Removes the optional quotes of a `Forwarded` parameter value and trims
/// surrounding whitespace.
pub fn unquote(value: &str) -> (res: &str)
    ensures
        res@ == unquoted(value@),
{
    let chars = chars_of(value);
    let (a, b) = unquote_range(&chars, 0, chars.len());
    assert(chars@.subrange(0, chars@.len() as int) =~= chars@);
    value.substring_char(a, b)
}

/// The address and the optional port of a `host[:port]` authority, handling
/// bracketed IPv6 literals; `None` when there is no address.
pub open spec fn host_and_port(host: Seq<char>) -> Option<(Seq<char>, Option<u16>)> {
    if host.len() > 0 && host[0] == '[' {
        match split_once(host.drop_first(), ']') {
            Some((address, rest)) => {
                let port = if rest.len() > 0 && rest[0] == ':' {
                    parse_u16(rest.drop_first())
                } else {
                    None
                };
                if address.len() > 0 {
                    Some((address, port))
                } else {
                    None
                }
            },
            None => None,
        }
    } else {
        match rsplit_once(host, ':') {
            Some((address, port)) => if address.len() > 0 {
                Some((address, parse_u16(port)))
            } else {
                Some((host, None))
            },
            None => if host.len() > 0 {
                Some((host, None))
            } else {
                None
            },
        }
    }
}

/// `host_and_port` of `s[lo..hi]`, the address given by its bounds.
fn split_host_port_range(s: &[char], lo: usize, hi: usize) -> (res: Option<(usize, usize, Option<u16>)>)
    requires
        lo <= hi <= s@.len(),
    ensures
        match res {
            Some((a, b, port)) => lo <= a <= b <= hi && host_and_port(s@.subrange(lo as int, hi as int))
                == Some((s@.subrange(a as int, b as int), port)),
            None => host_and_port(s@.subrange(lo as int, hi as int)) is None,
        },
{
    let ghost host = s@.subrange(lo as int, hi as int);
    if lo < hi && s[lo] == '[' {
        let ghost rest = host.drop_first();
        assert(rest =~= s@.subrange(lo + 1, hi as int));
        match find_first(s, lo + 1, hi, ']') {
            Some(e) => {
                proof {
                    lemma_split_once_at(rest, ']', e - lo - 1);
                    assert(rest.take(e - lo - 1) =~= s@.subrange(lo + 1, e as int));
                    assert(rest.skip(e - lo) =~= s@.subrange(e + 1, hi as int));
                }
                let mut port: Option<u16> = None;
                if e + 1 < hi && s[e + 1] == ':' {
                    port = parse_u16_range(s, e + 2, hi);
                    assert(s@.subrange(e + 1, hi as int).drop_first() =~= s@.subrange(e + 2, hi as int));
                }
                if e > lo + 1 {
                    Some((lo + 1, e, port))
                } else {
                    None
                }
            },
            None => None,
        }
    } else {
        match find_last(s, lo, hi, ':') {
            Some(c) => {
                proof {
                    lemma_rsplit_once_at(host, ':', c - lo);
                    assert(host.take(c - lo) =~= s@.subrange(lo as int, c as int));
                    assert(host.skip(c - lo + 1) =~= s@.subrange(c + 1, hi as int));
                }
                if c > lo {
                    Some((lo, c, parse_u16_range(s, c + 1, hi)))
                } else {
                    Some((lo, hi, None))
                }
            },
            None => if lo < hi {
                Some((lo, hi, None))
            } else {
                None
            },
        }
    }
}

/// Splits a `host[:port]` authority into its parts, handling bracketed IPv6
/// literals.
pub fn split_host_port(host: &str) -> (res: Option<(String, Option<u16>)>)
    ensures
        match res {
            Some((address, port)) => host_and_port(host@) == Some((address@, port)),
            None => host_and_port(host@) is None,
        },
{
    let chars = chars_of(host);
    assert(chars@.subrange(0, chars@.len() as int) =~= chars@);
    match split_host_port_range(&chars, 0, chars.len()) {
        Some((a, b, port)) => Some((string_of_range(&chars, a, b), port)),
        None => None,
    }
}


/// `proto`.
pub open spec fn proto_parameter() -> Seq<char> {
    seq!['p', 'r', 'o', 't', 'o']
}

/// `host`.
pub open spec fn host_parameter() -> Seq<char> {
    seq!['h', 'o', 's', 't']
}

/// `http`.
pub open spec fn http_scheme() -> Seq<char> {
    seq!['h', 't', 't', 'p']
}

/// `https`.
pub open spec fn https_scheme() -> Seq<char> {
    seq!['h', 't', 't', 'p', 's']
}

/// The first element of a comma separated header read as text.
pub open spec fn list_first(value: Option<Seq<char>>) -> Option<Seq<char>> {
    match value {
        Some(t) => Some(first_piece(t, ',')),
        None => None,
    }
}

/// The scheme of the original request as the proxy headers report it:
/// `Forwarded#proto`, else the first element of `X-Forwarded-Proto`, unquoted,
/// and `None` when neither is present or the value is empty.
pub open spec fn reported_scheme(h: RequestHeadersView) -> Option<Seq<char>> {
    let raw = match forwarded_parameter(header_text(h.forwarded), proto_parameter()) {
        Some(v) => Some(v),
        None => list_first(header_text(h.x_forwarded_proto)),
    };
    match raw {
        Some(v) => if unquoted(v).len() > 0 {
            Some(unquoted(v))
        } else {
            None
        },
        None => None,
    }
}

/// The `url.scheme` attribute value: the reported scheme in ASCII lower case,
/// `http` when none is reported.
pub open spec fn scheme_value(h: RequestHeadersView) -> Seq<char> {
    match reported_scheme(h) {
        Some(scheme) => ascii_lowercase(scheme),
        None => http_scheme(),
    }
}

/// Returns the `url.scheme` attribute value for a request.
///
/// The scheme of the original request is taken from the `Forwarded#proto` or
/// `X-Forwarded-Proto` header when a reverse proxy provides one, and from the
/// immediate peer connection otherwise. The server does not terminate TLS
/// itself, so the peer connection is always `http`; behind a TLS terminating
/// proxy the headers report `https`.
pub fn url_scheme(headers: &RequestHeaders) -> (res: String)
    ensures
        res@ == scheme_value(headers@),
{
    let name: Vec<char> = vec!['p', 'r', 'o', 't', 'o'];
    assert(name@ =~= proto_parameter());
    let raw = match forwarded_value(headers, &name) {
        Some(v) => Some(v),
        None => header_list_value(&headers.x_forwarded_proto),
    };
    match raw {
        Some(v) => {
            let (a, b) = unquote_range(&v, 0, v.len());
            assert(v@.subrange(0, v@.len() as int) =~= v@);
            if a < b {
                let scheme = chars_range(&v, a, b);
                string_of(&to_ascii_lowercase(&scheme))
            } else {
                let http: Vec<char> = vec!['h', 't', 't', 'p'];
                assert(http@ =~= http_scheme());
                string_of(&http)
            }
        },
        None => {
            let http: Vec<char> = vec!['h', 't', 't', 'p'];
            assert(http@ =~= http_scheme());
            string_of(&http)
        },
    }
}

/// Longest `server.address` value that is still recorded.
///
/// The attribute is derived from a request header and is therefore attacker
/// controlled, so obviously bogus values are rejected instead of being turned
/// into metric cardinality.
pub const MAX_SERVER_ADDRESS_LENGTH: usize = 253;

/// The original host as the headers report it: `Forwarded#host`, else the first
/// element of `X-Forwarded-Host`, else `Host`.
pub open spec fn reported_host(h: RequestHeadersView) -> Option<Seq<char>> {
    match forwarded_parameter(header_text(h.forwarded), host_parameter()) {
        Some(v) => Some(v),
        None => match list_first(header_text(h.x_forwarded_host)) {
            Some(v) => Some(v),
            None => header_text(h.host),
        },
    }
}

/// Whether some character of `s` is whitespace.
pub open spec fn has_whitespace(s: Seq<char>) -> bool {
    exists|i: int| 0 <= i < s.len() && is_whitespace(#[trigger] s[i])
}

/// The `server.address` and `server.port` attribute values: the reported host
/// unquoted and split, an address of at most `MAX_SERVER_ADDRESS_LENGTH`
/// characters without whitespace, and the port given or else the default port
/// of `scheme`.
pub open spec fn server_value(h: RequestHeadersView, scheme: Seq<char>) -> Option<(Seq<char>, u16)> {
    match reported_host(h) {
        None => None,
        Some(host) => match host_and_port(unquoted(host)) {
            None => None,
            Some((address, port)) => if address.len() > MAX_SERVER_ADDRESS_LENGTH || has_whitespace(
                address,
            ) {
                None
            } else {
                Some(
                    (
                        address,
                        match port {
                            Some(p) => p,
                            None => if scheme == https_scheme() {
                                443u16
                            } else {
                                80u16
                            },
                        },
                    ),
                )
            },
        },
    }
}

/// Returns the `server.address` and `server.port` attribute values for a request.
///
/// Both attributes are opt-in for metrics because they are derived from request
/// headers a client controls. The original host is read from `Forwarded#host` /
/// `X-Forwarded-Host` when present, and from `Host` otherwise; the port is read
/// from the same value and falls back to the default port of `scheme`.
pub fn server_address_port(headers: &RequestHeaders, scheme: &str) -> (res: Option<(String, u16)>)
    ensures
        match res {
            Some((address, port)) => server_value(headers@, scheme@) == Some((address@, port)),
            None => server_value(headers@, scheme@) is None,
        },
{
    let name: Vec<char> = vec!['h', 'o', 's', 't'];
    assert(name@ =~= host_parameter());
    let host = match forwarded_value(headers, &name) {
        Some(v) => v,
        None => match header_list_value(&headers.x_forwarded_host) {
            Some(v) => v,
            None => match decode_header(&headers.host) {
                Some(v) => v,
                None => return None,
            },
        },
    };
    assert(reported_host(headers@) == Some(host@));
    let (ua, ub) = unquote_range(&host, 0, host.len());
    assert(host@.subrange(0, host@.len() as int) =~= host@);
    let (a, b, port) = match split_host_port_range(&host, ua, ub) {
        Some(parts) => parts,
        None => return None,
    };
    let ghost address = host@.subrange(a as int, b as int);
    if b - a > MAX_SERVER_ADDRESS_LENGTH {
        return None;
    }
    if range_has_whitespace(&host, a, b) {
        assert(has_whitespace(address));
        return None;
    }
    let port = match port {
        Some(p) => p,
        None => {
            let sc = chars_of(scheme);
            let https: Vec<char> = vec!['h', 't', 't', 'p', 's'];
            assert(https@ =~= https_scheme());
            assert(sc@.subrange(0, sc@.len() as int) =~= sc@);
            if range_eq(&sc, 0, sc.len(), &https) {
                443
            } else {
                80
            }
        },
    };
    Some((string_of_range(&host, a, b), port))
}


/// The HTTP protocol versions a request can carry.
#[derive(Debug, PartialEq, Eq, Structural, Clone, Copy)]
pub enum HttpVersion {
    Http09,
    Http10,
    Http11,
    Http2,
    Http3,
}

/// The `network.protocol.version` value of `version`, if it is reported.
pub open spec fn version_value(version: HttpVersion) -> Option<Seq<char>> {
    match version {
        HttpVersion::Http09 => None,
        HttpVersion::Http10 => Some(seq!['1', '.', '0']),
        HttpVersion::Http11 => Some(seq!['1', '.', '1']),
        HttpVersion::Http2 => Some(seq!['2']),
        HttpVersion::Http3 => Some(seq!['3']),
    }
}

/// Returns the `network.protocol.version` attribute value for a request.
///
/// The version is only reported when it is known to the instrumentation. The
/// matching `network.protocol.name` attribute is deliberately never set: the
/// semantic conventions only require it when the application layer is *not*
/// HTTP.
pub fn protocol_version(version: HttpVersion) -> (res: Option<&'static str>)
    ensures
        match res {
            Some(v) => version_value(version) == Some(v@),
            None => version_value(version) is None,
        },
{
    match version {
        HttpVersion::Http10 => {
            proof {
                reveal_strlit("1.0");
            }
            Some("1.0")
        },
        HttpVersion::Http11 => {
            proof {
                reveal_strlit("1.1");
            }
            Some("1.1")
        },
        HttpVersion::Http2 => {
            proof {
                reveal_strlit("2");
            }
            Some("2")
        },
        HttpVersion::Http3 => {
            proof {
                reveal_strlit("3");
            }
            Some("3")
        },
        HttpVersion::Http09 => None,
    }
}

/// Whether `status` is a server error, a code in the 5xx range.
pub open spec fn is_server_error(status: u16) -> bool {
    500 <= status < 600
}

/// The `error.type` value of a response with `status`: its code in decimal
/// when the response is a server error.
pub open spec fn error_value(status: u16) -> Option<Seq<char>> {
    if is_server_error(status) {
        Some(decimal(status as nat))
    } else {
        None
    }
}

/// Returns the `error.type` attribute value for a response, if the response is
/// an error.
///
/// Per the HTTP span status definition a server request is only an error when
/// the status code is in the 5xx range; a 4xx response is a client side
/// problem. The value is the status code number, which keeps the attribute low
/// cardinality.
pub fn error_type(status: u16) -> (res: Option<String>)
    ensures
        match res {
            Some(v) => error_value(status) == Some(v@),
            None => error_value(status) is None,
        },
{
    if 500 <= status && status < 600 {
        let mut s = String::new();
        push_decimal(&mut s, status);
        assert(s@ =~= decimal(status as nat));
        Some(s)
    } else {
        None
    }
}

/// `http.request.method` value reported for methods the instrumentation does
/// not know about.
pub const HTTP_REQUEST_METHOD_OTHER: &'static str = "_OTHER";

/// `_OTHER`.
pub open spec fn other_method() -> Seq<char> {
    seq!['_', 'O', 'T', 'H', 'E', 'R']
}

/// The texts of a list of strings.
pub open spec fn texts(v: Seq<String>) -> Seq<Seq<char>> {
    v.map_values(|s: String| s@)
}

/// The `http.request.method` value of `method`: the method itself when it is
/// one of `known`, `_OTHER` otherwise.
pub open spec fn method_value(known: Seq<Seq<char>>, method: Seq<char>) -> Seq<char> {
    if known.contains(method) {
        method
    } else {
        other_method()
    }
}

/// Returns the `http.request.method` attribute value for `method`.
///
/// The semantic conventions require methods that are not known to the
/// instrumentation to be reported as `_OTHER`. The set of known methods is a
/// full replacement of the default known methods and can be configured with the
/// comma separated `OTEL_INSTRUMENTATION_HTTP_KNOWN_METHODS` environment
/// variable.
pub fn request_method(known: &[String], method: &str) -> (res: String)
    ensures
        res@ == method_value(texts(known@), method@),
{
    let m = chars_of(method);
    let mut i: usize = 0;
    while i < known.len()
        invariant
            i <= known@.len(),
            m@ == method@,
            forall|j: int| 0 <= j < i ==> known@[j]@ != method@,
        decreases known.len() - i,
    {
        let k = chars_of(known[i].as_str());
        assert(k@.subrange(0, k@.len() as int) =~= k@);
        if range_eq(&k, 0, k.len(), &m) {
            assert(texts(known@)[i as int] == method@);
            return known[i].clone();
        }
        i = i + 1;
    }
    assert(!texts(known@).contains(method@));
    proof {
        reveal_strlit("_OTHER");
    }
    let other = HTTP_REQUEST_METHOD_OTHER.to_owned();
    assert(other@ =~= other_method());
    other
}


/// The trimmed, non-empty entries among `pieces`, in order.
pub open spec fn trimmed_entries(pieces: Seq<Seq<char>>) -> Seq<Seq<char>>
    decreases pieces.len(),
{
    if pieces.len() == 0 {
        Seq::<Seq<char>>::empty()
    } else {
        let rest = trimmed_entries(pieces.drop_last());
        let entry = trim(pieces.last());
        if entry.len() > 0 {
            rest.push(entry)
        } else {
            rest
        }
    }
}

/// The methods listed in the comma separated `methods`: each entry trimmed,
/// empty entries dropped.
pub open spec fn method_list(methods: Seq<char>) -> Seq<Seq<char>> {
    trimmed_entries(split_pieces(methods, seq![',']))
}

/// Splits a comma separated list of case sensitive HTTP methods.
///
/// Unknown entries are kept as they are: an override that lists an invalid
/// method simply matches nothing.
pub fn parse_known_methods(methods: &str) -> (res: Vec<String>)
    ensures
        texts(res@) == method_list(methods@),
{
    let chars = chars_of(methods);
    let seps: Vec<char> = vec![','];
    let ranges = split_ranges(&chars, chars.len(), &seps);
    assert(chars@.take(chars@.len() as int) =~= chars@);
    let ghost pieces = ranges@.map_values(|r: (usize, usize)| chars@.subrange(r.0 as int, r.1 as int));
    assert(seps@ =~= seq![',']);
    let mut res: Vec<String> = Vec::new();
    let mut k: usize = 0;
    assert(pieces.take(0) =~= Seq::<Seq<char>>::empty());
    assert(texts(res@) =~= Seq::<Seq<char>>::empty());
    while k < ranges.len()
        invariant
            k <= ranges@.len(),
            chars@ == methods@,
            pieces == ranges@.map_values(|r: (usize, usize)| chars@.subrange(r.0 as int, r.1 as int)),
            pieces == split_pieces(methods@, seq![',']),
            forall|j: int| 0 <= j < ranges@.len() ==> ranges@[j].0 <= #[trigger] ranges@[j].1 <= chars@.len(),
            texts(res@) == trimmed_entries(pieces.take(k as int)),
        decreases ranges.len() - k,
    {
        let (lo, hi) = ranges[k];
        assert(pieces[k as int] == chars@.subrange(lo as int, hi as int));
        assert(pieces.take(k + 1).drop_last() =~= pieces.take(k as int));
        assert(pieces.take(k + 1).last() == pieces[k as int]);
        let (a, b) = trim_range(&chars, lo, hi);
        if a < b {
            let entry = string_of_range(&chars, a, b);
            let ghost before = res@;
            res.push(entry);
            assert(texts(res@) =~= texts(before).push(entry@));
        }
        k = k + 1;
    }
    assert(pieces.take(ranges@.len() as int) =~= pieces);
    res
}

/// The methods the semantic conventions consider known, in the order they are
/// listed there.
pub open spec fn default_methods() -> Seq<Seq<char>> {
    seq![
        "CONNECT"@,
        "DELETE"@,
        "GET"@,
        "HEAD"@,
        "OPTIONS"@,
        "PATCH"@,
        "POST"@,
        "PUT"@,
        "QUERY"@,
        "TRACE"@,
    ]
}

/// The HTTP methods considered "known" by the semantic conventions, in the
/// order they are listed there.
pub fn default_known_methods() -> (res: Vec<String>)
    ensures
        texts(res@) == default_methods(),
{
    let res: Vec<String> = vec![
        "CONNECT".to_owned(),
        "DELETE".to_owned(),
        "GET".to_owned(),
        "HEAD".to_owned(),
        "OPTIONS".to_owned(),
        "PATCH".to_owned(),
        "POST".to_owned(),
        "PUT".to_owned(),
        "QUERY".to_owned(),
        "TRACE".to_owned(),
    ];
    assert(texts(res@) =~= default_methods());
    res
}

/// The known methods for the configured list: the configured methods when the
/// list holds more than whitespace, the default known methods otherwise.
pub open spec fn configured_methods(configured: Option<Seq<char>>) -> Seq<Seq<char>> {
    match configured {
        Some(methods) => if trim(methods).len() > 0 {
            method_list(methods)
        } else {
            default_methods()
        },
        None => default_methods(),
    }
}

/// The methods configured through `OTEL_INSTRUMENTATION_HTTP_KNOWN_METHODS`,
/// or the default known methods when the variable is not set.
pub fn known_methods(configured: Option<&str>) -> (res: Vec<String>)
    ensures
        texts(res@) == configured_methods(
            match configured {
                Some(m) => Some(m@),
                None => None,
            },
        ),
{
    match configured {
        Some(methods) => {
            let chars = chars_of(methods);
            let (a, b) = trim_range(&chars, 0, chars.len());
            assert(chars@.subrange(0, chars@.len() as int) =~= chars@);
            if a < b {
                parse_known_methods(methods)
            } else {
                default_known_methods()
            }
        },
        None => default_known_methods(),
    }
}


/// Every entry of a configured method list is non-empty, carries no whitespace
/// at either end, and holds no comma.
pub proof fn lemma_method_list_entries(methods: Seq<char>)
    ensures
        forall|i: int|
            0 <= i < method_list(methods).len() ==> {
                let e = #[trigger] method_list(methods)[i];
                &&& e.len() > 0
                &&& !is_whitespace(e[0])
                &&& !is_whitespace(e.last())
                &&& trim(e) == e
                &&& !e.contains(',')
            },
{
    let pieces = split_pieces(methods, seq![',']);
    lemma_split_pieces_no_separator(methods, seq![',']);
    lemma_trimmed_entries(pieces);
    assert forall|i: int| 0 <= i < method_list(methods).len() implies {
        let e = #[trigger] method_list(methods)[i];
        &&& e.len() > 0
        &&& !is_whitespace(e[0])
        &&& !is_whitespace(e.last())
        &&& trim(e) == e
        &&& !e.contains(',')
    } by {
        let e = method_list(methods)[i];
        let k = choose|k: int| 0 <= k < pieces.len() && e == trim(pieces[k]);
        let r = lemma_trim(pieces[k]);
        if e.contains(',') {
            let j = choose|j: int| 0 <= j < e.len() && e[j] == ',';
            assert(e[j] == pieces[k][r.0 + j]);
            assert(seq![','].contains(pieces[k][r.0 + j])) by {
                assert(seq![','][0] == ',');
            }
        }
    }
}

/// A text without commas holds no separator of the method list.
proof fn lemma_no_comma_separator(t: Seq<char>)
    requires
        forall|i: int| 0 <= i < t.len() ==> #[trigger] t[i] != ',',
    ensures
        forall|i: int| 0 <= i < t.len() ==> !seq![','].contains(#[trigger] t[i]),
{
    assert forall|i: int| 0 <= i < t.len() implies !seq![','].contains(#[trigger] t[i]) by {
        if seq![','].contains(t[i]) {
            let k = choose|k: int| 0 <= k < 1 && seq![','][k] == t[i];
            assert(seq![','][k] == ',');
        }
    }
}

/// The entries depend on the last piece only through its trimmed text.
proof fn lemma_trimmed_entries_last(pieces: Seq<Seq<char>>, last: Seq<char>)
    requires
        pieces.len() >= 1,
        trim(last) == trim(pieces.last()),
    ensures
        trimmed_entries(pieces.update(pieces.len() - 1, last)) == trimmed_entries(pieces),
{
    let q = pieces.update(pieces.len() - 1, last);
    assert(q.drop_last() =~= pieces.drop_last());
    assert(q.last() == last);
}

/// The entries of the pieces of a joined list are the list.
proof fn lemma_join_entries(xs: Seq<Seq<char>>, before: Seq<char>, after: Seq<char>)
    requires
        forall|i: int|
            0 <= i < xs.len() ==> (#[trigger] xs[i]).len() > 0 && trim(xs[i]) == xs[i]
                && !xs[i].contains(','),
        all_whitespace(before),
        all_whitespace(after),
    ensures
        trimmed_entries(split_pieces(join_with(xs, before + seq![','] + after), seq![','])) == xs,
    decreases xs.len(),
{
    let seps = seq![','];
    let sep = before + seq![','] + after;
    let empty = Seq::<char>::empty();
    if xs.len() == 0 {
        assert(split_pieces(empty, seps) == seq![empty]);
        assert(seq![empty].drop_last() =~= Seq::<Seq<char>>::empty());
        assert(trim(empty) =~= empty);
        assert(trimmed_entries(seq![empty]) == trimmed_entries(Seq::<Seq<char>>::empty()));
        assert(xs =~= Seq::<Seq<char>>::empty());
        assert(join_with(xs, sep) == empty);
    } else if xs.len() == 1 {
        let x = xs[0];
        assert(forall|i: int| 0 <= i < x.len() ==> #[trigger] x[i] != ',') by {
            assert forall|i: int| 0 <= i < x.len() implies #[trigger] x[i] != ',' by {
                if x[i] == ',' {
                    assert(x.contains(','));
                }
            }
        }
        lemma_no_comma_separator(x);
        lemma_split_pieces_extend(empty, x, seps);
        assert(empty + x =~= x);
        assert(split_pieces(empty, seps) == seq![empty]);
        assert(empty + x =~= x);
        let q = seq![x];
        assert(seq![empty].update(0, empty + x) =~= q);
        assert(q.drop_last() =~= Seq::<Seq<char>>::empty());
        assert(trimmed_entries(Seq::<Seq<char>>::empty()) == Seq::<Seq<char>>::empty());
        assert(q.last() == x);
        assert(trimmed_entries(q) =~= seq![x]);
        assert(xs =~= q);
        assert(join_with(xs, sep) == x);
        assert(split_pieces(x, seps) == q);
    } else {
        let init = xs.drop_last();
        let x = xs.last();
        assert forall|i: int| 0 <= i < init.len() implies (#[trigger] init[i]).len() > 0 && trim(init[i])
            == init[i] && !init[i].contains(',') by {
            assert(init[i] == xs[i]);
        }
        lemma_join_entries(init, before, after);
        let j = join_with(init, sep);
        assert(join_with(xs, sep) == j + sep + x);
        assert(forall|i: int| 0 <= i < x.len() ==> #[trigger] x[i] != ',') by {
            assert forall|i: int| 0 <= i < x.len() implies #[trigger] x[i] != ',' by {
                if x[i] == ',' {
                    assert(x.contains(','));
                }
            }
        }
        let tail = after + x;
        assert forall|i: int| 0 <= i < tail.len() implies #[trigger] tail[i] != ',' by {
            if i < after.len() {
                assert(tail[i] == after[i]);
                assert(is_whitespace(after[i]));
            } else {
                assert(tail[i] == x[i - after.len()]);
            }
        }
        assert forall|i: int| 0 <= i < before.len() implies #[trigger] before[i] != ',' by {
            assert(is_whitespace(before[i]));
        }
        lemma_no_comma_separator(before);
        lemma_no_comma_separator(tail);
        lemma_split_pieces_nonempty(j, seps);
        let p = split_pieces(j, seps);
        lemma_split_pieces_extend(j, before, seps);
        let p1 = p.update(p.len() - 1, p.last() + before);
        assert(seps.contains(',')) by {
            assert(seps[0] == ',');
        }
        lemma_split_pieces_separator(j + before, ',', seps);
        assert((j + before).push(',') =~= j + before + seq![',']);
        let p2 = p1.push(empty);
        lemma_split_pieces_extend(j + before + seq![','], tail, seps);
        assert(j + before + seq![','] + tail =~= j + sep + x);
        assert(p2.update(p2.len() - 1, p2.last() + tail) =~= p1.push(tail));
        assert(split_pieces(join_with(xs, sep), seps) == p1.push(tail));
        lemma_trim_whitespace_prefix(after, x);
        assert(p1.push(tail).drop_last() =~= p1);
        lemma_trim_whitespace_suffix(p.last(), before);
        lemma_trimmed_entries_last(p, p.last() + before);
        assert(trimmed_entries(p1.push(tail)) == init.push(x));
        assert(init.push(x) =~= xs);
    }
}

/// Joining trimmed, non-empty, comma-free methods with a comma (with any
/// whitespace around it) and reading the list back gives the methods again,
/// in order, duplicates and case kept.
pub proof fn lemma_method_list_join(xs: Seq<Seq<char>>, before: Seq<char>, after: Seq<char>)
    requires
        forall|i: int|
            0 <= i < xs.len() ==> (#[trigger] xs[i]).len() > 0 && trim(xs[i]) == xs[i]
                && !xs[i].contains(','),
        all_whitespace(before),
        all_whitespace(after),
    ensures
        method_list(join_with(xs, before + seq![','] + after)) == xs,
{
    lemma_join_entries(xs, before, after);
}

/// Each entry of `trimmed_entries(pieces)` is a non-empty trimmed piece.
pub proof fn lemma_trimmed_entries(pieces: Seq<Seq<char>>)
    ensures
        forall|i: int|
            0 <= i < trimmed_entries(pieces).len() ==> (#[trigger] trimmed_entries(pieces)[i]).len() > 0
                && exists|k: int| 0 <= k < pieces.len() && trimmed_entries(pieces)[i] == trim(pieces[k]),
    decreases pieces.len(),
{
    if pieces.len() > 0 {
        let init = pieces.drop_last();
        lemma_trimmed_entries(init);
        let rest = trimmed_entries(init);
        let t = trimmed_entries(pieces);
        assert forall|i: int| 0 <= i < t.len() implies (#[trigger] t[i]).len() > 0 && exists|k: int|
            0 <= k < pieces.len() && t[i] == trim(pieces[k]) by {
            if i < rest.len() {
                assert(t[i] == rest[i]);
                let k = choose|k: int| 0 <= k < init.len() && rest[i] == trim(init[k]);
                assert(pieces[k] == init[k]);
            } else {
                assert(t[i] == trim(pieces[pieces.len() - 1]));
            }
        }
    }
}

/// The reported method is the method itself when it is known, and `_OTHER`
/// otherwise; so it is always one of the known methods or `_OTHER`.
pub proof fn lemma_method_value(known: Seq<Seq<char>>, method: Seq<char>)
    ensures
        known.contains(method_value(known, method)) || method_value(known, method) == other_method(),
        known.contains(method) ==> method_value(known, method) == method,
        !known.contains(method) ==> method_value(known, method) == other_method(),
{
}

/// The `url.scheme` value is never empty and holds no ASCII upper-case letter.
pub proof fn lemma_scheme_value_lowercase(h: RequestHeadersView)
    ensures
        scheme_value(h).len() > 0,
        forall|i: int| 0 <= i < scheme_value(h).len() ==> !('A' <= #[trigger] scheme_value(h)[i] <= 'Z'),
{
    match reported_scheme(h) {
        Some(s) => {
            assert forall|i: int| 0 <= i < scheme_value(h).len() implies !('A' <= #[trigger] scheme_value(
                h,
            )[i] <= 'Z') by {
                assert(scheme_value(h)[i] == ascii_lower(s[i]));
            }
        },
        None => {},
    }
}

/// Without proxy headers the scheme is that of the peer connection, `http`.
pub proof fn lemma_scheme_without_proxy_headers(h: RequestHeadersView)
    requires
        h.forwarded is None,
        h.x_forwarded_proto is None,
    ensures
        scheme_value(h) == http_scheme(),
{
}

/// A `proto` parameter of `Forwarded` takes precedence: `X-Forwarded-Proto` is
/// then not read.
pub proof fn lemma_forwarded_proto_precedence(h: RequestHeadersView, x_forwarded_proto: Option<Seq<u8>>)
    requires
        forwarded_parameter(header_text(h.forwarded), proto_parameter()) is Some,
    ensures
        scheme_value(h) == scheme_value(RequestHeadersView { x_forwarded_proto, ..h }),
{
}

/// A `host` parameter of `Forwarded` takes precedence: `X-Forwarded-Host` and
/// `Host` are then not read.
pub proof fn lemma_forwarded_host_precedence(
    h: RequestHeadersView,
    x_forwarded_host: Option<Seq<u8>>,
    host: Option<Seq<u8>>,
    scheme: Seq<char>,
)
    requires
        forwarded_parameter(header_text(h.forwarded), host_parameter()) is Some,
    ensures
        server_value(h, scheme) == server_value(RequestHeadersView { x_forwarded_host, host, ..h }, scheme),
{
}

/// `host_and_port` never gives an empty address.
pub proof fn lemma_host_and_port_address(host: Seq<char>)
    ensures
        host_and_port(host) matches Some((address, _)) ==> address.len() > 0,
{
    if !(host.len() > 0 && host[0] == '[') && host.contains(':') {
        let i = choose|i: int| 0 <= i < host.len() && host[i] == ':';
        assert(host.len() > 0);
    }
}

/// A recorded `server.address` is never empty, is at most
/// `MAX_SERVER_ADDRESS_LENGTH` characters long and holds no whitespace.
pub proof fn lemma_server_value_address(h: RequestHeadersView, scheme: Seq<char>)
    ensures
        server_value(h, scheme) matches Some((address, _)) ==> {
            &&& 0 < address.len() <= MAX_SERVER_ADDRESS_LENGTH
            &&& !has_whitespace(address)
        },
{
    match reported_host(h) {
        Some(host) => lemma_host_and_port_address(unquoted(host)),
        None => {},
    }
}

/// When the host names no port, the port is the default port of the scheme:
/// 443 for `https`, 80 otherwise.
pub proof fn lemma_server_value_default_port(h: RequestHeadersView, scheme: Seq<char>)
    requires
        reported_host(h) matches Some(host) && host_and_port(unquoted(host)) matches Some((_, None)),
        server_value(h, scheme) is Some,
    ensures
        server_value(h, scheme).unwrap().1 == (if scheme == https_scheme() {
            443u16
        } else {
            80u16
        }),
{
}

/// Whenever a host is reported and its unquoted text splits into an address
/// of acceptable length without whitespace, the server attributes are that
/// address and the port it names, else the default port of the scheme. They
/// are absent only when no host is reported, the host does not split, or the
/// address is too long or holds whitespace.
pub proof fn lemma_server_value_reported(h: RequestHeadersView, scheme: Seq<char>)
    ensures
        server_value(h, scheme) is None <==> match reported_host(h) {
            None => true,
            Some(host) => match host_and_port(unquoted(host)) {
                None => true,
                Some((address, _)) => address.len() > MAX_SERVER_ADDRESS_LENGTH || exists|i: int|
                    0 <= i < address.len() && is_whitespace(#[trigger] address[i]),
            },
        },
{
}

/// A reported host whose unquoted text splits into an address of acceptable
/// length without whitespace gives that address, with the port it names or
/// else the default port of the scheme.
pub proof fn lemma_server_value_accepts(
    h: RequestHeadersView,
    scheme: Seq<char>,
    host: Seq<char>,
    address: Seq<char>,
    port: Option<u16>,
)
    requires
        reported_host(h) == Some(host),
        host_and_port(unquoted(host)) == Some((address, port)),
        address.len() <= MAX_SERVER_ADDRESS_LENGTH,
        forall|i: int| 0 <= i < address.len() ==> !is_whitespace(#[trigger] address[i]),
    ensures
        server_value(h, scheme) == Some(
            (
                address,
                match port {
                    Some(p) => p,
                    None => if scheme == seq!['h', 't', 't', 'p', 's'] {
                        443u16
                    } else {
                        80u16
                    },
                },
            ),
        ),
{
}

/// Headers without `Forwarded` and `X-Forwarded-Host` report the `Host` text.
proof fn lemma_host_only(h: RequestHeadersView)
    requires
        h.forwarded is None,
        h.x_forwarded_host is None,
    ensures
        reported_host(h) == header_text(h.host),
{
}

/// A request whose only host header is `Host: address:port` records that
/// address and that port, for any address that does not start with `[`, holds
/// no whitespace and is at most `MAX_SERVER_ADDRESS_LENGTH` characters long
/// (IPv4 literals and host names alike).
pub proof fn lemma_server_value_host_with_port(
    h: RequestHeadersView,
    scheme: Seq<char>,
    address: Seq<char>,
    port: u16,
)
    requires
        h.forwarded is None,
        h.x_forwarded_host is None,
        header_text(h.host) == Some(address + seq![':'] + decimal(port as nat)),
        0 < address.len() <= MAX_SERVER_ADDRESS_LENGTH,
        address[0] != '[',
        forall|i: int| 0 <= i < address.len() ==> !is_whitespace(#[trigger] address[i]),
    ensures
        server_value(h, scheme) == Some((address, port)),
{
    let d = decimal(port as nat);
    let t = address + seq![':'] + d;
    lemma_host_only(h);
    lemma_decimal(port as nat);
    assert(t[0] == address[0]);
    assert(t.last() == d.last());
    assert(is_digit(d[d.len() - 1]));
    lemma_trim_unchanged(t);
    assert(unquoted(t) == t);
    lemma_split_host_port_roundtrip(address, port);
    assert(!has_whitespace(address));
}

/// A request whose only host header is `Host: address`, with no port, records
/// that address and the default port of the scheme.
pub proof fn lemma_server_value_host_without_port(h: RequestHeadersView, scheme: Seq<char>, address: Seq<char>)
    requires
        h.forwarded is None,
        h.x_forwarded_host is None,
        header_text(h.host) == Some(address),
        0 < address.len() <= MAX_SERVER_ADDRESS_LENGTH,
        address[0] != '[',
        address[0] != '"',
        !address.contains(':'),
        forall|i: int| 0 <= i < address.len() ==> !is_whitespace(#[trigger] address[i]),
    ensures
        server_value(h, scheme) == Some(
            (
                address,
                if scheme == seq!['h', 't', 't', 'p', 's'] {
                    443u16
                } else {
                    80u16
                },
            ),
        ),
{
    lemma_host_only(h);
    assert(!is_whitespace(address[address.len() - 1]));
    lemma_trim_unchanged(address);
    assert(unquoted(address) == address);
    lemma_split_host_without_port(address);
    assert(!has_whitespace(address));
}

/// Any non-empty list of trimmed, comma-free methods, configured joined by
/// commas (with any whitespace around them), becomes exactly the known
/// methods: a single configured method included.
pub proof fn lemma_configured_methods_join(xs: Seq<Seq<char>>, before: Seq<char>, after: Seq<char>)
    requires
        xs.len() > 0,
        forall|i: int|
            0 <= i < xs.len() ==> (#[trigger] xs[i]).len() > 0 && trim(xs[i]) == xs[i]
                && !xs[i].contains(','),
        all_whitespace(before),
        all_whitespace(after),
    ensures
        configured_methods(Some(join_with(xs, before + seq![','] + after))) == xs,
{
    let sep = before + seq![','] + after;
    let x = xs[xs.len() - 1];
    lemma_trim(x);
    assert(trim(x).len() > 0);
    lemma_join_with_last(xs, sep);
    lemma_trim_nonempty(join_with(xs, sep));
    lemma_method_list_join(xs, before, after);
}

/// A single configured method, trimmed and without commas, is the one known
/// method.
pub proof fn lemma_configured_single_method(m: Seq<char>)
    requires
        m.len() > 0,
        trim(m) == m,
        !m.contains(','),
    ensures
        configured_methods(Some(m)) == seq![m],
        method_value(configured_methods(Some(m)), m) == m,
        forall|other: Seq<char>| other != m ==> method_value(configured_methods(Some(m)), other)
            == other_method(),
{
    let xs = seq![m];
    lemma_configured_methods_join(xs, Seq::<char>::empty(), Seq::<char>::empty());
    assert(join_with(xs, Seq::<char>::empty() + seq![','] + Seq::<char>::empty()) == m);
    assert(seq![m].contains(m)) by {
        assert(seq![m][0] == m);
    }
    assert forall|other: Seq<char>| other != m implies method_value(configured_methods(Some(m)), other)
        == other_method() by {
        if seq![m].contains(other) {
            let k = choose|k: int| 0 <= k < 1 && seq![m][k] == other;
            assert(seq![m][k] == m);
        }
    }
}

/// A `host:port` authority splits back into its address and port.
pub proof fn lemma_split_host_port_roundtrip(address: Seq<char>, port: u16)
    requires
        address.len() > 0,
        address[0] != '[',
    ensures
        host_and_port(address + seq![':'] + decimal(port as nat)) == Some((address, Some(port))),
{
    let d = decimal(port as nat);
    let host = address + seq![':'] + d;
    lemma_decimal(port as nat);
    lemma_parse_decimal(port);
    let i = address.len() as int;
    assert forall|j: int| i < j < host.len() implies host[j] != ':' by {
        assert(host[j] == d[j - i - 1]);
        assert(is_digit(d[j - i - 1]));
    }
    assert(is_last_index(host, ':', i));
    lemma_rsplit_once_at(host, ':', i);
    assert(host.take(i) =~= address);
    assert(host.skip(i + 1) =~= d);
    assert(host[0] == address[0]);
}

/// A bracketed `[address]:port` authority splits back into its address and port.
pub proof fn lemma_split_host_port_bracketed_roundtrip(address: Seq<char>, port: u16)
    requires
        address.len() > 0,
        !address.contains(']'),
    ensures
        host_and_port(seq!['['] + address + seq![']', ':'] + decimal(port as nat)) == Some(
            (address, Some(port)),
        ),
{
    let d = decimal(port as nat);
    let host = seq!['['] + address + seq![']', ':'] + d;
    lemma_parse_decimal(port);
    let rest = host.drop_first();
    assert(rest =~= address + seq![']', ':'] + d);
    let i = address.len() as int;
    assert forall|j: int| 0 <= j < i implies rest[j] != ']' by {
        assert(rest[j] == address[j]);
    }
    assert(is_first_index(rest, ']', i));
    lemma_split_once_at(rest, ']', i);
    assert(rest.take(i) =~= address);
    assert(rest.skip(i + 1) =~= seq![':'] + d);
    assert((seq![':'] + d).drop_first() =~= d);
}

/// A host without a port is kept whole, with no port.
pub proof fn lemma_split_host_without_port(address: Seq<char>)
    requires
        address.len() > 0,
        address[0] != '[',
        !address.contains(':'),
    ensures
        host_and_port(address) == Some((address, None::<u16>)),
{
}

/// Unquoting removes exactly one pair of surrounding double quotes.
pub proof fn lemma_unquote_quoted(value: Seq<char>)
    ensures
        unquoted(seq!['"'] + value + seq!['"']) == value,
{
    let q = seq!['"'] + value + seq!['"'];
    assert(q[0] == '"');
    assert(q.last() == '"');
    assert(trim_start(q) == q);
    assert(trim_end(q) == q);
    assert(q.subrange(1, q.len() - 1) =~= value);
}

/// The `error.type` value reads back as the status code.
pub proof fn lemma_error_value_parses(status: u16)
    ensures
        error_value(status) matches Some(e) ==> parse_u16(e) == Some(status),
{
    lemma_parse_decimal(status);
}

/// `Forwarded` parameter names are matched without regard to ASCII case.
pub proof fn lemma_forwarded_parameter_case(header: Option<Seq<char>>, a: Seq<char>, b: Seq<char>)
    requires
        eq_ignore_ascii_case(a, b),
    ensures
        forwarded_parameter(header, a) == forwarded_parameter(header, b),
{
    match header {
        Some(h) => lemma_find_parameter_case(split_pieces(h, forwarded_separators()), a, b),
        None => {},
    }
}

/// `find_parameter` matches names without regard to ASCII case.
pub proof fn lemma_find_parameter_case(pieces: Seq<Seq<char>>, a: Seq<char>, b: Seq<char>)
    requires
        eq_ignore_ascii_case(a, b),
    ensures
        find_parameter(pieces, a) == find_parameter(pieces, b),
    decreases pieces.len(),
{
    if pieces.len() > 0 {
        lemma_find_parameter_case(pieces.drop_first(), a, b);
        match split_once(pieces[0], '=') {
            Some((key, _)) => {
                let k = trim(key);
                assert(eq_ignore_ascii_case(k, a) == eq_ignore_ascii_case(k, b));
            },
            None => {},
        }
    }
}

} // verus!
