use forall_toolkit::client::{
    endpoint_security, ensure_secure_endpoint, event_stream_data, json_rpc_error, payload_source,
    redact, reply_body, tool_failure, AuthError, BearerToken, BearerTokenProvider, EndpointError,
    PayloadSource, ReplyBody, StaticBearerTokenProvider, DEFAULT_HOSTED_MCP_ENDPOINT,
};

#[test]
fn a_plaintext_endpoint_is_refused_before_the_token_is_sent() {
    assert_eq!(
        ensure_secure_endpoint("http://mcp.example.com/mcp"),
        Err(EndpointError::Insecure("http".to_string()))
    );
    assert!(ensure_secure_endpoint("https://mcp.example.com/mcp").is_ok());
}

#[test]
fn loopback_endpoints_may_use_plain_http() {
    assert!(ensure_secure_endpoint("http://127.0.0.1:8080/mcp").is_ok());
    assert!(ensure_secure_endpoint("http://localhost:3000/mcp").is_ok());
    assert!(ensure_secure_endpoint("http://[::1]:3000/mcp").is_ok());
    assert!(ensure_secure_endpoint(DEFAULT_HOSTED_MCP_ENDPOINT).is_ok());
    assert_eq!(
        ensure_secure_endpoint("ftp://localhost/x"),
        Err(EndpointError::Insecure("ftp".to_string()))
    );
    assert!(matches!(
        ensure_secure_endpoint("not a url"),
        Err(EndpointError::Invalid(_))
    ));
}

#[test]
fn endpoint_decision_follows_scheme_and_host() {
    assert!(endpoint_security(Ok(("https".into(), None))).is_ok());
    assert!(endpoint_security(Ok(("http".into(), Some("::1".into())))).is_ok());
    assert_eq!(
        endpoint_security(Ok(("http".into(), Some("example.com".into())))),
        Err(EndpointError::Insecure("http".into()))
    );
    assert_eq!(
        endpoint_security(Err("relative URL without a base".into())),
        Err(EndpointError::Invalid("relative URL without a base".into()))
    );
}

#[test]
fn bearer_tokens_must_fit_in_a_header() {
    let token = BearerToken::new("secret-token".to_string()).unwrap();
    assert_eq!(token.expose(), "secret-token");
    assert!(matches!(
        BearerToken::new("bad\ntoken".to_string()),
        Err(AuthError::InvalidToken)
    ));
    assert!(matches!(
        StaticBearerTokenProvider::new("bad\u{7f}".to_string()),
        Err(AuthError::InvalidToken)
    ));
    let provider = StaticBearerTokenProvider::new("tab\tok".to_string()).unwrap();
    assert_eq!(provider.bearer_token().unwrap().expose(), "tab\tok");
    assert_eq!(provider.token().expose(), "tab\tok");
}

#[test]
fn bearer_token_is_redacted_from_errors() {
    assert_eq!(
        redact("bad token secret-token here secret-token", "secret-token"),
        "bad token [REDACTED] here [REDACTED]"
    );
    assert_eq!(redact("aaa", "aa"), "[REDACTED]a");
    assert_eq!(redact("ab", ""), "[REDACTED]a[REDACTED]b[REDACTED]");
    let (code, message) = json_rpc_error(None, Some("RPC error token"), "token");
    assert_eq!(code, 0);
    assert_eq!(message, "RPC error [REDACTED]");
    let (code, message) = json_rpc_error(Some(-32000), None, "token");
    assert_eq!(code, -32000);
    assert_eq!(message, "MCP request failed");
    let (code, message) = tool_failure(None, Some("leaked token"), "token");
    assert_eq!(code, "tool_failed");
    assert_eq!(message, "leaked [REDACTED]");
    let (_, message) = tool_failure(Some("x"), None, "token");
    assert_eq!(message, "hosted verification tool reported failure");
}

#[test]
fn event_streams_yield_the_first_data_event() {
    let body = b"event: message\ndata: {\"jsonrpc\":\"2.0\",\ndata:  \"id\":1}\n\ndata: {\"later\":true}\n\n";
    assert_eq!(
        event_stream_data(body),
        Some(b"{\"jsonrpc\":\"2.0\",\"id\":1}".to_vec())
    );
    let skip_empty = b": ping\n\ndata:\t{}\r\nid: 7\n\n";
    assert_eq!(event_stream_data(skip_empty), Some(b"{}".to_vec()));
    assert_eq!(event_stream_data(b"event: ping\n\n"), None);
    assert_eq!(event_stream_data(b""), None);
}

#[test]
fn replies_are_read_by_status_and_content_type() {
    assert_eq!(reply_body(500, "application/json"), Err(500));
    assert_eq!(reply_body(302, "text/event-stream"), Err(302));
    assert_eq!(reply_body(202, "text/event-stream"), Ok(ReplyBody::Empty));
    assert_eq!(reply_body(204, ""), Ok(ReplyBody::Empty));
    assert_eq!(
        reply_body(200, "text/event-stream; charset=utf-8"),
        Ok(ReplyBody::EventStream)
    );
    assert_eq!(reply_body(200, "application/json"), Ok(ReplyBody::Json));
    assert_eq!(reply_body(201, ""), Ok(ReplyBody::Json));
}

#[test]
fn tool_payloads_prefer_failure_then_structure_then_text() {
    assert_eq!(payload_source(Some(true), true, true), PayloadSource::Failure);
    assert_eq!(payload_source(Some(false), true, true), PayloadSource::Structured);
    assert_eq!(payload_source(None, false, true), PayloadSource::FirstText);
    assert_eq!(payload_source(None, false, false), PayloadSource::Whole);
}

#[test]
fn redaction_leaves_no_token_behind() {
    let token = "secret-token";
    for text in [
        "secret-tokensecret-token",
        "xsecret-secret-tokenx",
        "bad secret-token: denied",
        "",
    ] {
        assert!(!redact(text, token).contains(token), "{text}");
    }
    assert_eq!(
        redact("bad secret-token: denied", token),
        "bad [REDACTED]: denied"
    );
}
