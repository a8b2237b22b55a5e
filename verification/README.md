# revo

HTTP server telemetry following the OpenTelemetry semantic conventions.

- `src/` is the verified library:
  - `service`: the configuration read from environment variable values, and the
    start-up / shutdown decisions;
  - `telemetry::semconv`: the attribute values of the HTTP server semantic
    conventions (`http.request.method`, `url.scheme`, `server.address`,
    `server.port`, `network.protocol.version`, `error.type`), computed from the
    request's method, proxy headers, version and response status;
  - `http::server`: the server type, and what the request middleware records:
    the attribute sets and the opt-in body size measurements;
  - `text`: trimming, ASCII case folding, splitting and decimal numbers.
- `app/` holds what runs around it: environment and `.env` loading, the
  OpenTelemetry providers and instruments, the axum server and its async
  middleware, which hands the library plain values and turns its attributes
  into OpenTelemetry key-values.
- `tests/` exercises the library on concrete requests.
