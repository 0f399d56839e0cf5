//! The parts of the hosted-verification client that decide rather than
//! transport: which bearer tokens can be sent, which endpoints may receive
//! them, how a server-sent event stream yields its JSON-RPC payload, and how
//! the token is kept out of error messages.
use vstd::prelude::*;
use vstd::string::StringSliceAdditionalSpecFns;

use crate::bytes::{
    append_bytes, find_from, line_spans, lines, occurs_at, range_starts_with, slice_bytes,
    spans_match_lines, trim_start, trim_start_index,
};
use crate::text::{concat, copy_string, owned, same_text, text_at};

verus! {

broadcast use vstd::string::group_string_axioms;

/// The hosted endpoint used unless another is given.
pub const DEFAULT_HOSTED_MCP_ENDPOINT: &'static str = "https://mcp.forall.astrio.app/mcp";

/// Why a bearer token cannot be had.
#[derive(Clone, Debug, PartialEq, Eq)]
pub enum AuthError {
    InvalidToken,
    Provider(String),
}

/// A byte an HTTP header value may hold: visible ASCII, space, horizontal
/// tab, or any byte from 0x80 up.
pub open spec fn header_byte_ok(b: u8) -> bool {
    (b >= 32 && b != 127) || b == 9
}

/// Whether every byte of `value` may stand in an HTTP header value.
pub open spec fn header_value_ok(value: Seq<u8>) -> bool {
    forall|i: int| 0 <= i < value.len() ==> header_byte_ok(#[trigger] value[i])
}

/// Calls `reqwest::header::HeaderValue::from_str`. The contract claims, as
/// the `http` crate's source shows, that it accepts a value exactly when
/// each of its bytes is visible ASCII, a space, a tab, or 0x80 and up.
#[verifier::external_body]
fn header_value_accepts(value: &str) -> (r: bool)
    ensures
        r == header_value_ok(value.spec_bytes()),
{
    reqwest::header::HeaderValue::from_str(value).is_ok()
}

/// A bearer token that can be sent in an `Authorization` header.
pub struct BearerToken(String);

impl View for BearerToken {
    type V = Seq<char>;

    closed spec fn view(&self) -> Seq<char> {
        self.0@
    }
}

/// The `Authorization` header value for `token`.
pub open spec fn bearer_header(token: Seq<char>) -> Seq<char> {
    "Bearer "@ + token
}

impl BearerToken {
    /// A token, refused when `Bearer <token>` is not a valid header value.
    pub fn new(token: String) -> (r: Result<BearerToken, AuthError>)
        ensures
            header_value_ok(vstd::utf8::encode_utf8(bearer_header(token@))) ==> (r matches Ok(t)
                && t@ == token@),
            !header_value_ok(vstd::utf8::encode_utf8(bearer_header(token@))) ==> r
                == Err::<BearerToken, AuthError>(AuthError::InvalidToken),
    {
        let header = concat("Bearer ", token.as_str());
        if !header_value_accepts(header.as_str()) {
            return Err(AuthError::InvalidToken);
        }
        Ok(BearerToken(token))
    }

    /// The token itself, for the header that carries it.
    pub fn expose(&self) -> (r: &str)
        ensures
            r@ == self@,
    {
        self.0.as_str()
    }

    /// A copy of the token.
    pub fn copied(&self) -> (r: BearerToken)
        ensures
            r@ == self@,
    {
        BearerToken(copy_string(&self.0))
    }
}

/// Something that hands out the bearer token for each request.
pub trait BearerTokenProvider {
    fn bearer_token(&self) -> Result<BearerToken, AuthError>;
}

/// A provider that always hands out the same token.
pub struct StaticBearerTokenProvider(BearerToken);

impl View for StaticBearerTokenProvider {
    type V = Seq<char>;

    closed spec fn view(&self) -> Seq<char> {
        self.0@
    }
}

impl StaticBearerTokenProvider {
    /// A provider of `token`, refused as [`BearerToken::new`] refuses it.
    pub fn new(token: String) -> (r: Result<StaticBearerTokenProvider, AuthError>)
        ensures
            header_value_ok(vstd::utf8::encode_utf8(bearer_header(token@))) ==> (r matches Ok(p)
                && p@ == token@),
            !header_value_ok(vstd::utf8::encode_utf8(bearer_header(token@))) ==> r
                == Err::<StaticBearerTokenProvider, AuthError>(AuthError::InvalidToken),
    {
        match BearerToken::new(token) {
            Ok(t) => Ok(StaticBearerTokenProvider(t)),
            Err(e) => Err(e),
        }
    }

    /// The token this provider hands out.
    pub fn token(&self) -> (r: BearerToken)
        ensures
            r@ == self@,
    {
        self.0.copied()
    }
}

impl BearerTokenProvider for StaticBearerTokenProvider {
    /// Always succeeds, with the provider's token.
    fn bearer_token(&self) -> (r: Result<BearerToken, AuthError>)
        ensures
            r matches Ok(t) && t@ == self@,
    {
        Ok(self.0.copied())
    }
}

/// Why an endpoint may not receive the bearer token.
#[derive(Clone, Debug, PartialEq, Eq)]
pub enum EndpointError {
    /// The endpoint is not a URL; the parser's message.
    Invalid(String),
    /// The endpoint would send the token in cleartext; its scheme.
    Insecure(String),
}

/// The scheme and host `reqwest::Url::parse` reads from a text, or the
/// message of its parse error.
pub uninterp spec fn url_scheme_and_host(endpoint: Seq<char>) -> Result<
    (Seq<char>, Option<Seq<char>>),
    Seq<char>,
>;

/// Calls `reqwest::Url::parse`, then `Url::scheme` and `Url::host_str` on
/// the result, or renders the parse error. The contract claims only that
/// the outcome is the named reading of `endpoint`.
#[verifier::external_body]
fn parse_endpoint(endpoint: &str) -> (r: Result<(String, Option<String>), String>)
    ensures
        match r {
            Ok((scheme, host)) => url_scheme_and_host(endpoint@) == Ok::<
                (Seq<char>, Option<Seq<char>>),
                Seq<char>,
            >((scheme@, crate::schema::opt_view(host))),
            Err(message) => url_scheme_and_host(endpoint@) == Err::<
                (Seq<char>, Option<Seq<char>>),
                Seq<char>,
            >(message@),
        },
{
    match reqwest::Url::parse(endpoint) {
        Ok(url) => {
            let host = match url.host_str() {
                Some(h) => Some(h.to_string()),
                None => None,
            };
            Ok((url.scheme().to_string(), host))
        },
        Err(error) => Err(error.to_string()),
    }
}

/// A host that is this machine.
pub open spec fn loopback_host(host: Option<Seq<char>>) -> bool {
    match host {
        Some(h) => h == "localhost"@ || h == "127.0.0.1"@ || h == "[::1]"@ || h == "::1"@,
        None => false,
    }
}

/// Whether the bearer token may go to an endpoint with this scheme and
/// host: always over `https`, over `http` only to this machine.
pub open spec fn endpoint_decision(parsed: Result<(Seq<char>, Option<Seq<char>>), Seq<char>>) -> Result<
    (),
    EndpointErrorView,
> {
    match parsed {
        Err(message) => Err(EndpointErrorView::Invalid(message)),
        Ok((scheme, host)) => if scheme == "https"@ {
            Ok(())
        } else if scheme == "http"@ && loopback_host(host) {
            Ok(())
        } else {
            Err(EndpointErrorView::Insecure(scheme))
        },
    }
}

/// The mathematical model of an [`EndpointError`].
pub enum EndpointErrorView {
    Invalid(Seq<char>),
    Insecure(Seq<char>),
}

impl View for EndpointError {
    type V = EndpointErrorView;

    open spec fn view(&self) -> EndpointErrorView {
        match self {
            EndpointError::Invalid(m) => EndpointErrorView::Invalid(m@),
            EndpointError::Insecure(s) => EndpointErrorView::Insecure(s@),
        }
    }
}

/// Whether the bearer token may go to an endpoint, given its parsed scheme
/// and host (or the parse error): `https` always, `http` only to
/// `localhost`, `127.0.0.1` or `::1`, anything else refused by its scheme.
pub fn endpoint_security(parsed: Result<(String, Option<String>), String>) -> (r: Result<
    (),
    EndpointError,
>)
    ensures
        match endpoint_decision(
            match parsed {
                Ok((s, h)) => Ok((s@, crate::schema::opt_view(h))),
                Err(m) => Err(m@),
            },
        ) {
            Ok(()) => r is Ok,
            Err(e) => r matches Err(x) && x@ == e,
        },
{
    match parsed {
        Err(message) => Err(EndpointError::Invalid(message)),
        Ok((scheme, host)) => {
            if same_text(scheme.as_str(), "https") {
                return Ok(());
            }
            let loopback = match &host {
                Some(h) => same_text(h.as_str(), "localhost") || same_text(h.as_str(), "127.0.0.1")
                    || same_text(h.as_str(), "[::1]") || same_text(h.as_str(), "::1"),
                None => false,
            };
            if same_text(scheme.as_str(), "http") && loopback {
                return Ok(());
            }
            Err(EndpointError::Insecure(scheme))
        },
    }
}

/// Refuses to send the bearer token to an endpoint that would carry it in
/// cleartext: the endpoint is parsed as a URL and judged by
/// [`endpoint_security`].
pub fn ensure_secure_endpoint(endpoint: &str) -> (r: Result<(), EndpointError>)
    ensures
        match endpoint_decision(url_scheme_and_host(endpoint@)) {
            Ok(()) => r is Ok,
            Err(e) => r matches Err(x) && x@ == e,
        },
{
    let parsed = parse_endpoint(endpoint);
    endpoint_security(parsed)
}

/// `s` with every occurrence of `pattern`, left to right and without
/// overlap, replaced by `with`, as `str::replace` does; an empty pattern
/// matches before every character and at the end.
pub open spec fn replace_text(s: Seq<char>, pattern: Seq<char>, with: Seq<char>) -> Seq<char>
    decreases s.len(),
{
    if pattern.len() == 0 {
        if s.len() == 0 {
            with
        } else {
            with + seq![s[0]] + replace_text(s.drop_first(), pattern, with)
        }
    } else if s.len() < pattern.len() {
        s
    } else if s.take(pattern.len() as int) == pattern {
        with + replace_text(s.skip(pattern.len() as int), pattern, with)
    } else {
        seq![s[0]] + replace_text(s.drop_first(), pattern, with)
    }
}

/// What stands in a message for the bearer token.
pub open spec fn redaction() -> Seq<char> {
    "[REDACTED]"@
}

/// Whether `p` occurs in `s`.
pub open spec fn occurs_in(s: Seq<char>, p: Seq<char>) -> bool {
    exists|i: int| 0 <= i && i + p.len() <= s.len() && #[trigger] s.subrange(i, i + p.len()) == p
}

/// Whether no character of `p` is a character of `w`.
pub open spec fn shares_no_char(p: Seq<char>, w: Seq<char>) -> bool {
    forall|i: int| 0 <= i < p.len() ==> !w.contains(#[trigger] p[i])
}

/// Where the replaced text starts with characters that are not in the
/// replacement, it starts as the text itself does.
proof fn lemma_replace_keeps_prefix(s: Seq<char>, p: Seq<char>, w: Seq<char>, k: int)
    requires
        p.len() > 0,
        w.len() > 0,
        0 <= k <= replace_text(s, p, w).len(),
        forall|j: int| 0 <= j < k ==> !w.contains(#[trigger] replace_text(s, p, w)[j]),
    ensures
        k <= s.len(),
        replace_text(s, p, w).take(k) == s.take(k),
    decreases s.len(),
{
    let r = replace_text(s, p, w);
    if s.len() < p.len() {
        assert(r == s);
    } else if k > 0 {
        if s.take(p.len() as int) == p {
            assert(r[0] == w[0]);
            assert(w.contains(w[0]));
            assert(!w.contains(r[0]));
        } else {
            let rest = replace_text(s.drop_first(), p, w);
            assert(r == seq![s[0]] + rest);
            assert forall|j: int| 0 <= j < k - 1 implies !w.contains(#[trigger] rest[j]) by {
                assert(rest[j] == r[j + 1]);
            }
            lemma_replace_keeps_prefix(s.drop_first(), p, w, k - 1);
            assert(r.take(k) =~= seq![s[0]] + rest.take(k - 1));
            assert(s.take(k) =~= seq![s[0]] + s.drop_first().take(k - 1));
        }
    } else {
        assert(r.take(0) =~= s.take(0));
    }
}

/// A redacted text no longer holds the token, when the token is not empty
/// and has no character of `[REDACTED]`.
pub proof fn lemma_redaction_removes_token(text: Seq<char>, token: Seq<char>)
    requires
        token.len() > 0,
        shares_no_char(token, redaction()),
    ensures
        !occurs_in(replace_text(text, token, redaction()), token),
    decreases text.len(),
{
    reveal_strlit("[REDACTED]");
    let w = redaction();
    let r = replace_text(text, token, w);
    let n = token.len();
    assert(w.len() == 10);
    if text.len() < n {
        assert(r == text);
    } else if text.take(n as int) == token {
        let rest = replace_text(text.skip(n as int), token, w);
        lemma_redaction_removes_token(text.skip(n as int), token);
        assert(r == w + rest);
        assert forall|i: int| 0 <= i && i + n <= r.len() implies #[trigger] r.subrange(i, i + n) != token by {
            if i < w.len() {
                if r.subrange(i, i + n) == token {
                    assert(r.subrange(i, i + n)[0] == r[i]);
                    assert(r[i] == w[i]);
                    assert(w.contains(w[i]));
                    assert(!w.contains(token[0]));
                }
            } else {
                let j = i - w.len();
                assert(r.subrange(i, i + n) =~= rest.subrange(j, j + n));
            }
        }
    } else {
        let rest = replace_text(text.drop_first(), token, w);
        lemma_redaction_removes_token(text.drop_first(), token);
        assert(r == seq![text[0]] + rest);
        assert forall|i: int| 0 <= i && i + n <= r.len() implies #[trigger] r.subrange(i, i + n) != token by {
            if i == 0 {
                if r.subrange(0, n as int) == token {
                    assert forall|j: int| 0 <= j < n implies !w.contains(#[trigger] r[j]) by {
                        assert(r[j] == r.subrange(0, n as int)[j]);
                        assert(r[j] == token[j]);
                    }
                    lemma_replace_keeps_prefix(text, token, w, n as int);
                    assert(r.take(n as int) =~= r.subrange(0, n as int));
                }
            } else {
                assert(r.subrange(i, i + n) =~= rest.subrange(i - 1, i - 1 + n));
            }
        }
    }
}

/// `text` with each occurrence of `token` replaced by `[REDACTED]`, left to
/// right and without overlap, as `str::replace` does.
pub fn redact(text: &str, token: &str) -> (r: String)
    ensures
        r@ == replace_text(text@, token@, redaction()),
{
    let n = text.unicode_len();
    let m = token.unicode_len();
    let mut out = String::new();
    let mut i: usize = 0;
    assert(text@.skip(0) =~= text@);
    assert(out@ + replace_text(text@.skip(0), token@, redaction()) =~= replace_text(
        text@,
        token@,
        redaction(),
    ));
    while i < n
        invariant
            n == text@.len(),
            m == token@.len(),
            i <= n,
            out@ + replace_text(text@.skip(i as int), token@, redaction()) == replace_text(
                text@,
                token@,
                redaction(),
            ),
        decreases n - i,
    {
        let ghost rest = text@.skip(i as int);
        let ghost before = out@;
        if m == 0 {
            let c = text.substring_char(i, i + 1);
            assert(c@ =~= seq![rest[0]]);
            out = concat(out.as_str(), "[REDACTED]");
            out = concat(out.as_str(), c);
            assert(rest.drop_first() =~= text@.skip(i + 1));
            assert(out@ + replace_text(text@.skip(i + 1), token@, redaction()) =~= before + (
            redaction() + seq![rest[0]] + replace_text(rest.drop_first(), token@, redaction())));
            i = i + 1;
        } else if n - i >= m && crate::text::text_occurs_at(text, token, i) {
            assert(rest.take(m as int) =~= text@.subrange(i as int, i + m));
            out = concat(out.as_str(), "[REDACTED]");
            assert(rest.skip(m as int) =~= text@.skip(i + m));
            assert(out@ + replace_text(text@.skip(i + m), token@, redaction()) =~= before + (
            redaction() + replace_text(rest.skip(m as int), token@, redaction())));
            i = i + m;
        } else if n - i < m {
            assert(replace_text(rest, token@, redaction()) == rest);
            let tail = text.substring_char(i, n);
            out = concat(out.as_str(), tail);
            assert(tail@ =~= rest);
            assert(text@.skip(n as int) =~= Seq::<char>::empty());
            assert(out@ + replace_text(text@.skip(n as int), token@, redaction()) =~= before + rest);
            i = n;
        } else {
            assert(rest.take(m as int) != token@) by {
                assert(rest.take(m as int) =~= text@.subrange(i as int, i + m));
            }
            let c = text.substring_char(i, i + 1);
            assert(c@ =~= seq![rest[0]]);
            out = concat(out.as_str(), c);
            assert(rest.drop_first() =~= text@.skip(i + 1));
            assert(out@ + replace_text(text@.skip(i + 1), token@, redaction()) =~= before + (seq![
                rest[0],
            ] + replace_text(rest.drop_first(), token@, redaction())));
            i = i + 1;
        }
    }
    assert(text@.skip(n as int) =~= Seq::<char>::empty());
    if m == 0 {
        out = concat(out.as_str(), "[REDACTED]");
    }
    out
}

/// The pieces of `s` from `i` on between occurrences of `sep`, found left
/// to right without overlap, as `str::split` gives them.
pub open spec fn split_from(s: Seq<u8>, sep: Seq<u8>, i: int) -> Seq<Seq<u8>>
    decreases s.len() + 1 - i,
{
    if i < 0 || i > s.len() {
        Seq::empty()
    } else {
        match find_from(s, sep, i) {
            Some(p) => if i <= p && p + sep.len() <= s.len() && sep.len() > 0 {
                seq![s.subrange(i, p)] + split_from(s, sep, p + sep.len())
            } else {
                Seq::empty()
            },
            None => seq![s.subrange(i, s.len() as int)],
        }
    }
}

/// `data:` as bytes.
pub open spec fn data_field() -> Seq<u8> {
    seq![0x64u8, 0x61u8, 0x74u8, 0x61u8, 0x3au8]
}

/// What a line contributes to an event's data: the rest of a `data:` line
/// without its leading whitespace.
pub open spec fn line_data(line: Seq<u8>) -> Seq<u8> {
    if data_field().is_prefix_of(line) {
        trim_start(line.skip(5))
    } else {
        Seq::empty()
    }
}

/// The data of an event: what its lines contribute, concatenated.
pub open spec fn event_data(ls: Seq<Seq<u8>>) -> Seq<u8>
    decreases ls.len(),
{
    if ls.len() == 0 {
        Seq::empty()
    } else {
        event_data(ls.drop_last()) + line_data(ls.last())
    }
}

/// The data of the first event that has any.
pub open spec fn first_data(events: Seq<Seq<u8>>) -> Option<Seq<u8>>
    decreases events.len(),
{
    if events.len() == 0 {
        None
    } else {
        let d = event_data(lines(events[0]));
        if d.len() > 0 {
            Some(d)
        } else {
            first_data(events.drop_first())
        }
    }
}

/// The JSON-RPC payload of a server-sent event stream: the data of the
/// first event (events are separated by a blank line) that has any.
pub open spec fn stream_data(body: Seq<u8>) -> Option<Seq<u8>> {
    first_data(split_from(body, seq![0x0au8, 0x0au8], 0))
}

fn event_data_exec(event: &[u8]) -> (r: Vec<u8>)
    ensures
        r@ == event_data(lines(event@)),
{
    let spans = line_spans(event);
    let ghost ls = lines(event@);
    let mut out: Vec<u8> = Vec::new();
    let prefix: [u8; 5] = [0x64u8, 0x61u8, 0x74u8, 0x61u8, 0x3au8];
    assert(prefix@ =~= data_field());
    let mut k: usize = 0;
    assert(ls.take(0) =~= Seq::<Seq<u8>>::empty());
    while k < spans.len()
        invariant
            k <= spans@.len(),
            ls == lines(event@),
            prefix@ == data_field(),
            spans_match_lines(event@, spans@, ls),
            out@ == event_data(ls.take(k as int)),
        decreases spans.len() - k,
    {
        let a = spans[k].start;
        let b = spans[k].end;
        let ghost line = event@.subrange(a as int, b as int);
        assert(ls[k as int] == line);
        assert(ls.take(k + 1).drop_last() =~= ls.take(k as int));
        assert(ls.take(k + 1).last() == line);
        if range_starts_with(event, a, b, &prefix) {
            assert(data_field().is_prefix_of(line)) by {
                assert(line.take(5) =~= line.subrange(0, 5));
            }
            let t = trim_start_index(event, a + 5, b);
            assert(line.skip(5) =~= event@.subrange(a + 5, b as int));
            let piece = slice_bytes(event, t, b);
            append_bytes(&mut out, piece.as_slice());
        } else {
            assert(!data_field().is_prefix_of(line)) by {
                if data_field().is_prefix_of(line) {
                    assert(line.take(5) =~= line.subrange(0, 5));
                }
            }
            assert(event_data(ls.take(k + 1)) =~= event_data(ls.take(k as int)));
        }
        k = k + 1;
    }
    assert(ls.take(spans@.len() as int) =~= ls);
    out
}

/// The JSON-RPC payload of a server-sent event stream: the data of the
/// first event that has any, its `data:` lines joined with their leading
/// whitespace removed; `None` when no event carries data.
pub fn event_stream_data(body: &[u8]) -> (r: Option<Vec<u8>>)
    ensures
        match stream_data(body@) {
            Some(d) => r matches Some(x) && x@ == d,
            None => r is None,
        },
{
    let sep: [u8; 2] = [0x0au8, 0x0au8];
    let ghost sp = seq![0x0au8, 0x0au8];
    assert(sep@ =~= sp);
    let n = body.len();
    let mut start: usize = 0;
    loop
        invariant
            start <= n,
            n == body@.len(),
            sep@ == sp,
            sp == seq![0x0au8, 0x0au8],
            stream_data(body@) == first_data(split_from(body@, sp, start as int)),
        decreases n - start,
    {
        let found = find_sep(body, start);
        let end = match found {
            Some(p) => p,
            None => n,
        };
        let event = slice_bytes(body, start, end);
        let data = event_data_exec(event.as_slice());
        let ghost events = split_from(body@, sp, start as int);
        assert(events[0] == body@.subrange(start as int, end as int));
        if data.len() > 0 {
            return Some(data);
        }
        match found {
            None => {
                assert(events.drop_first() =~= Seq::<Seq<u8>>::empty());
                                assert(data@ == event_data(lines(events[0])));
                assert(first_data(events) == first_data(events.drop_first()));
                assert(first_data(Seq::<Seq<u8>>::empty()) is None);
                return None;
            },
            Some(p) => {
                assert(events.drop_first() =~= split_from(body@, sp, p + 2));
                start = p + 2;
            },
        }
    }
}

proof fn lemma_find_from_bounds_local(s: Seq<u8>, pat: Seq<u8>, i: int)
    ensures
        find_from(s, pat, i) matches Some(k) ==> i <= k && occurs_at(s, pat, k),
        find_from(s, pat, i) is None && 0 <= i ==> forall|k: int|
            i <= k && k + pat.len() <= s.len() ==> !occurs_at(s, pat, k),
    decreases s.len() + 1 - i,
{
    if !(i < 0 || i + pat.len() > s.len()) && !occurs_at(s, pat, i) {
        lemma_find_from_bounds_local(s, pat, i + 1);
    }
}

fn find_sep(body: &[u8], start: usize) -> (r: Option<usize>)
    requires
        start <= body@.len(),
    ensures
        match r {
            Some(p) => find_from(body@, seq![0x0au8, 0x0au8], start as int) == Some(p as int)
                && start <= p && p + 2 <= body@.len(),
            None => find_from(body@, seq![0x0au8, 0x0au8], start as int) is None,
        },
{
    let n = body.len();
    let mut i = start;
    let ghost sp = seq![0x0au8, 0x0au8];
    while i < n && n - i > 1
        invariant
            start <= i <= n,
            n == body@.len(),
            sp == seq![0x0au8, 0x0au8],
            find_from(body@, sp, start as int) == find_from(body@, sp, i as int),
        decreases n - i,
    {
        if body[i] == 0x0a && body[i + 1] == 0x0a {
            assert(occurs_at(body@, sp, i as int)) by {
                assert(body@.subrange(i as int, i + 2) =~= sp);
            }
            return Some(i);
        }
        assert(!occurs_at(body@, sp, i as int)) by {
            if occurs_at(body@, sp, i as int) {
                assert(body@.subrange(i as int, i + 2) =~= sp);
                assert(body@.subrange(i as int, i + 2)[0] == body@[i as int]);
                assert(body@.subrange(i as int, i + 2)[1] == body@[i + 1]);
            }
        }
        i = i + 1;
    }
    None
}

/// The code and message a JSON-RPC error reports: its integer `code` (0
/// when absent) and its `message` (a generic one when absent), with the
/// token redacted.
pub fn json_rpc_error(code: Option<i64>, message: Option<&str>, token: &str) -> (r: (i64, String))
    ensures
        r.0 == match code {
            Some(c) => c,
            None => 0,
        },
        r.1@ == replace_text(
            match message {
                Some(m) => m@,
                None => "MCP request failed"@,
            },
            token@,
            redaction(),
        ),
{
    let c = match code {
        Some(c) => c,
        None => 0,
    };
    let text = match message {
        Some(m) => m,
        None => "MCP request failed",
    };
    (c, redact(text, token))
}

/// The code and message of a tool that reports failure: its structured
/// `code` and `message` (generic ones when absent), with the token
/// redacted.
pub fn tool_failure(code: Option<&str>, message: Option<&str>, token: &str) -> (r: (String, String))
    ensures
        r.0@ == replace_text(
            match code {
                Some(c) => c@,
                None => "tool_failed"@,
            },
            token@,
            redaction(),
        ),
        r.1@ == replace_text(
            match message {
                Some(m) => m@,
                None => "hosted verification tool reported failure"@,
            },
            token@,
            redaction(),
        ),
{
    let c = match code {
        Some(c) => c,
        None => "tool_failed",
    };
    let m = match message {
        Some(m) => m,
        None => "hosted verification tool reported failure",
    };
    (redact(c, token), redact(m, token))
}

/// How the body of a hosted MCP reply is to be read.
#[derive(Clone, Copy, Debug, PartialEq, Eq, Structural)]
pub enum ReplyBody {
    /// Accepted with nothing to read: the body stands for JSON `null`.
    Empty,
    /// A server-sent event stream whose first data event holds the JSON.
    EventStream,
    /// The body is the JSON itself.
    Json,
}

/// How a reply with HTTP status `status` and content type `content_type` is
/// read: a status outside 200..=299 is the failure, 202 and 204 carry no
/// body, an event-stream content type is read as events, anything else as
/// JSON.
pub open spec fn reply_body_spec(status: u16, content_type: Seq<char>) -> Result<ReplyBody, u16> {
    if !(200 <= status && status <= 299) {
        Err(status)
    } else if status == 202 || status == 204 {
        Ok(ReplyBody::Empty)
    } else if "text/event-stream"@.is_prefix_of(content_type) {
        Ok(ReplyBody::EventStream)
    } else {
        Ok(ReplyBody::Json)
    }
}

/// How a reply with HTTP status `status` and content type `content_type`
/// is read, or the status it fails with.
pub fn reply_body(status: u16, content_type: &str) -> (r: Result<ReplyBody, u16>)
    ensures
        r == reply_body_spec(status, content_type@),
{
    if !(200 <= status && status <= 299) {
        return Err(status);
    }
    if status == 202 || status == 204 {
        return Ok(ReplyBody::Empty);
    }
    if crate::text::starts_with_text(content_type, "text/event-stream") {
        Ok(ReplyBody::EventStream)
    } else {
        Ok(ReplyBody::Json)
    }
}

/// Where the payload of a tool result comes from.
#[derive(Clone, Copy, Debug, PartialEq, Eq, Structural)]
pub enum PayloadSource {
    /// The tool reported failure (see [`tool_failure`]).
    Failure,
    /// The structured content is the payload.
    Structured,
    /// The text of the first content item, read as JSON, is the payload.
    FirstText,
    /// The whole result is the payload.
    Whole,
}

/// Where the payload of a tool result comes from, given its `isError`
/// flag (when it is a boolean), whether it has structured content, and
/// whether its first content item has text: a result flagged as an error
/// is a failure; otherwise structured content comes first, then the first
/// text, then the whole result.
pub open spec fn payload_source_spec(is_error: Option<bool>, has_structured: bool, has_first_text: bool) -> PayloadSource {
    if is_error == Some(true) {
        PayloadSource::Failure
    } else if has_structured {
        PayloadSource::Structured
    } else if has_first_text {
        PayloadSource::FirstText
    } else {
        PayloadSource::Whole
    }
}

/// Where the payload of a tool result comes from.
pub fn payload_source(is_error: Option<bool>, has_structured: bool, has_first_text: bool) -> (r: PayloadSource)
    ensures
        r == payload_source_spec(is_error, has_structured, has_first_text),
{
    if is_error == Some(true) {
        PayloadSource::Failure
    } else if has_structured {
        PayloadSource::Structured
    } else if has_first_text {
        PayloadSource::FirstText
    } else {
        PayloadSource::Whole
    }
}

} // verus!
