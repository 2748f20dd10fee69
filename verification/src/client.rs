//! The signaling client: what it sends, and what it makes of what it receives. Connecting, sending
//! and receiving is the callers' work; they are told what to do next.

use vstd::prelude::*;
use crate::codec;
use crate::error::SignalingError;
use crate::json;
use crate::number;
use crate::signaling_proto;
use crate::text;

verus! {

broadcast use vstd::string::group_string_axioms;

/// An error that the signaling server reports.
#[derive(Debug, Clone)]
pub enum SignallingServerError {
    PeerNotFound(String),
    Protocol(String),
}

/// How the client connects, and to whom.
#[derive(Debug, Clone)]
pub struct SignallingConfig {
    /// The address of the server.
    pub server: String,
    /// What this client registers as.
    pub id: u32,
    /// Whom this client calls.
    pub peer_id: u32,
    pub enable_https: bool,
    pub enable_basic_auth: bool,
    pub basic_auth_user: Option<String>,
    pub basic_auth_password: Option<String>,
}

/// What a message from the server amounts to.
#[derive(Debug)]
pub enum SignallingEvent {
    /// The registration was acknowledged.
    Connected,
    /// A session with the peer is established. The metadata are the bytes of a JSON text.
    Session { peer_id: u32, meta: Vec<u8> },
    /// The server reports an error, or the message is none that the client knows.
    Error(SignallingServerError),
    /// The peer sent an offer or an answer.
    Sdp { sdp_type: String, sdp: String },
    /// The peer sent a candidate.
    Ice { sdp_m_line_index: u32, candidate: String },
}

/// What an error of the server says.
pub enum ServerErrorView {
    PeerNotFound(Seq<char>),
    Protocol(Seq<char>),
}

/// What an event says.
pub enum SignallingEventView {
    Connected,
    Session { peer_id: u32, meta: Seq<u8> },
    Error(ServerErrorView),
    Sdp { sdp_type: Seq<char>, sdp: Seq<char> },
    Ice { sdp_m_line_index: u32, candidate: Seq<char> },
}

impl View for SignallingServerError {
    type V = ServerErrorView;

    open spec fn view(&self) -> ServerErrorView {
        match self {
            SignallingServerError::PeerNotFound(m) => ServerErrorView::PeerNotFound(m@),
            SignallingServerError::Protocol(m) => ServerErrorView::Protocol(m@),
        }
    }
}

impl View for SignallingEvent {
    type V = SignallingEventView;

    open spec fn view(&self) -> SignallingEventView {
        match self {
            SignallingEvent::Connected => SignallingEventView::Connected,
            SignallingEvent::Session { peer_id, meta } => SignallingEventView::Session {
                peer_id: *peer_id,
                meta: meta@,
            },
            SignallingEvent::Error(e) => SignallingEventView::Error(e@),
            SignallingEvent::Sdp { sdp_type, sdp } => SignallingEventView::Sdp {
                sdp_type: sdp_type@,
                sdp: sdp@,
            },
            SignallingEvent::Ice { sdp_m_line_index, candidate } => SignallingEventView::Ice {
                sdp_m_line_index: *sdp_m_line_index,
                candidate: candidate@,
            },
        }
    }
}

/// The bytes of an empty JSON object.
pub open spec fn empty_object() -> Seq<u8> {
    seq![123u8, 125u8]
}

/// The metadata of a session, from what follows its announcement: the first word in base64. What
/// cannot be decoded, or is not JSON, counts as an empty object.
pub open spec fn session_meta(rest: Seq<char>) -> Seq<u8> {
    if text::words(rest).len() == 0 {
        empty_object()
    } else {
        match codec::base64_decoded(text::words(rest)[0]) {
            Some(bytes) => if json::json_bytes(bytes) {
                bytes
            } else {
                empty_object()
            },
            None => empty_object(),
        }
    }
}

/// How the server says that a peer is unknown.
pub open spec fn no_peer(peer_id: u32) -> Seq<char> {
    "ERROR peer '"@ + number::decimal(peer_id as nat) + "' not found"@
}

/// An error of the protocol.
pub open spec fn protocol_error(msg: Seq<char>) -> SignallingEventView {
    SignallingEventView::Error(ServerErrorView::Protocol(msg))
}

/// A text, or the empty one.
pub open spec fn or_empty(t: Option<Seq<char>>) -> Seq<char> {
    match t {
        Some(s) => s,
        None => Seq::empty(),
    }
}

/// What a JSON message amounts to, given its members and its compact form.
pub open spec fn json_event(
    members: Seq<json::JsonMemberView>,
    compact: Seq<char>,
) -> SignallingEventView {
    match (json::member(members, "sdp"@), json::member(members, "ice"@)) {
        (Some(fields), _) => SignallingEventView::Sdp {
            sdp_type: or_empty(json::field_text(fields, "type"@)),
            sdp: or_empty(json::field_text(fields, "sdp"@)),
        },
        (None, Some(fields)) => SignallingEventView::Ice {
            sdp_m_line_index: match json::field_unsigned(fields, "sdpMLineIndex"@) {
                Some(n) => signaling_proto::line_index(n),
                None => 0,
            },
            candidate: or_empty(json::field_text(fields, "candidate"@)),
        },
        (None, None) => protocol_error("unhandled JSON message: "@ + compact),
    }
}

/// What a message from the server amounts to for the client that calls the given peer.
pub open spec fn event(peer_id: u32, message: Seq<char>) -> SignallingEventView {
    if message == "HELLO"@ {
        SignallingEventView::Connected
    } else if text::begins(message, "SESSION_OK"@) {
        SignallingEventView::Session {
            peer_id,
            meta: session_meta(message.skip("SESSION_OK"@.len() as int)),
        }
    } else if text::begins(message, "ERROR"@) {
        if message == no_peer(peer_id) {
            SignallingEventView::Error(
                ServerErrorView::PeerNotFound(
                    "'"@ + number::decimal(peer_id as nat) + "' not found"@,
                ),
            )
        } else {
            protocol_error("unhandled signalling message: "@ + message)
        }
    } else {
        match json::json_outline(message) {
            Ok(members) => json_event(members, or_empty(json::json_compact(message))),
            Err(e) => protocol_error(
                text::framed("error parsing message as JSON: "@, message, " ("@, e, ")"@),
            ),
        }
    }
}

fn empty_bytes() -> (r: Vec<u8>)
    ensures
        r@ == empty_object(),
{
    let mut out: Vec<u8> = Vec::new();
    out.push(123);
    out.push(125);
    assert(out@ =~= empty_object());
    out
}

/// Takes decoded metadata, if they are JSON; otherwise an empty object.
pub fn accept_meta(bytes: Option<Vec<u8>>) -> (r: Vec<u8>)
    ensures
        r@ == (match bytes {
            Some(b) => if json::json_bytes(b@) {
                b@
            } else {
                empty_object()
            },
            None => empty_object(),
        }),
{
    match bytes {
        Some(b) => if json::is_json(b.as_slice()) {
            b
        } else {
            empty_bytes()
        },
        None => empty_bytes(),
    }
}

fn read_meta(rest: &[char]) -> (r: Vec<u8>)
    ensures
        r@ == session_meta(rest@),
{
    let words = text::split_words(rest);
    assert(text::texts(words@).len() == words@.len());
    if words.len() == 0 {
        return empty_bytes();
    }
    accept_meta(codec::base64_decode(&text::to_text(words[0].as_slice())))
}

fn text_or_empty(t: Option<String>) -> (r: String)
    ensures
        r@ == or_empty(text::text_of(t)),
{
    match t {
        Some(s) => s,
        None => String::new(),
    }
}

/// Tells what a JSON message amounts to, given its members and its compact form.
pub fn handle_members(members: &Vec<json::JsonMember>, compact: &str) -> (r: SignallingEvent)
    ensures
        r@ == json_event(json::members(members@), compact@),
{
    match json::find_member(members, "sdp") {
        Some(fields) => SignallingEvent::Sdp {
            sdp_type: text_or_empty(json::find_text(fields, "type")),
            sdp: text_or_empty(json::find_text(fields, "sdp")),
        },
        None => match json::find_member(members, "ice") {
            Some(fields) => {
                let sdp_m_line_index: u32 = match json::find_unsigned(fields, "sdpMLineIndex") {
                    Some(n) => (n % 0x1_0000_0000) as u32,
                    None => 0,
                };
                let candidate = text_or_empty(json::find_text(fields, "candidate"));
                SignallingEvent::Ice { sdp_m_line_index, candidate }
            },
            None => SignallingEvent::Error(
                SignallingServerError::Protocol(text::cat("unhandled JSON message: ", compact)),
            ),
        },
    }
}

/// Tells what a message from the server amounts to for the client that calls the given peer.
pub fn handle_message(peer_id: u32, message: &str) -> (r: SignallingEvent)
    ensures
        r@ == event(peer_id, message@),
{
    let chars = text::to_chars(message);
    if text::is(chars.as_slice(), "HELLO") {
        return SignallingEvent::Connected;
    }
    match text::strip_prefix(chars.as_slice(), "SESSION_OK") {
        Some(rest) => {
            return SignallingEvent::Session { peer_id, meta: read_meta(rest.as_slice()) };
        },
        None => {},
    }
    if text::starts_with(chars.as_slice(), "ERROR") {
        let mut expected = text::to_chars("ERROR peer '");
        number::push_decimal(&mut expected, peer_id as u64);
        text::push_str(&mut expected, "' not found");
        if text::same(chars.as_slice(), expected.as_slice()) {
            let mut reason = text::to_chars("'");
            number::push_decimal(&mut reason, peer_id as u64);
            text::push_str(&mut reason, "' not found");
            return SignallingEvent::Error(
                SignallingServerError::PeerNotFound(text::to_text(reason.as_slice())),
            );
        }
        return SignallingEvent::Error(
            SignallingServerError::Protocol(text::cat("unhandled signalling message: ", message)),
        );
    }
    match json::read_outline(message) {
        Ok(members) => {
            let compact = text_or_empty(json::compact(message));
            handle_members(&members, &compact)
        },
        Err(e) => SignallingEvent::Error(
            SignallingServerError::Protocol(
                text::frame(
                    "error parsing message as JSON: ",
                    chars.as_slice(),
                    " (",
                    text::to_chars(&e).as_slice(),
                    ")",
                ),
            ),
        ),
    }
}

/// A braced text is none of the plain messages, and has no white space around it.
proof fn lemma_braced(s: Seq<char>)
    requires
        json::braced(s),
    ensures
        s != "HELLO"@,
        s != "SESSION_OK"@,
        !text::begins(s, "HELLO "@),
        !text::begins(s, "SESSION "@),
        !text::begins(s, "SESSION_OK"@),
        !text::begins(s, "SESSION_OK "@),
        !text::begins(s, "ERROR"@),
        !text::begins(s, "ERROR "@),
        text::begins(s, "{"@),
        text::trimmed(s) == s,
{
    reveal_strlit("HELLO");
    reveal_strlit("SESSION_OK");
    reveal_strlit("HELLO ");
    reveal_strlit("SESSION ");
    reveal_strlit("SESSION_OK ");
    reveal_strlit("ERROR");
    reveal_strlit("ERROR ");
    reveal_strlit("{");
    assert forall|p: Seq<char>| p.len() > 0 && #[trigger] text::begins(s, p) implies p[0] == '{' by {
        assert(s.subrange(0, p.len() as int)[0] == s[0]);
    }
    assert(s.subrange(0, 1) =~= "{"@);
}

/// The message that carries an offer or an answer to the peer. Read as a message from the server,
/// it carries the same description; so does it in the signaling protocol.
pub fn sdp_message(sdp_type: &str, sdp: &str) -> (r: String)
    ensures
        r@ == json::json_texts("sdp"@, "type"@, sdp_type@, "sdp"@, sdp@),
        forall|peer_id: u32| #[trigger]
            event(peer_id, r@) == (SignallingEventView::Sdp { sdp_type: sdp_type@, sdp: sdp@ }),
        signaling_proto::sdp_type_of(Some(sdp_type@)) is Some
            ==> signaling_proto::signaling_message(r@) == Ok::<
            signaling_proto::SignalingView,
            Seq<char>,
        >(
            (signaling_proto::SignalingView::Sdp {
                sdp_type: signaling_proto::sdp_type_of(Some(sdp_type@))->0,
                sdp: sdp@,
            }),
        ),
{
    proof {
        reveal_strlit("type");
        reveal_strlit("sdp");
        reveal_with_fuel(json::field, 3);
        assert("type"@.len() != "sdp"@.len());
    }
    let r = json::render_texts("sdp", "type", sdp_type, "sdp", sdp);
    proof {
        lemma_braced(r@);
        let x = json::text_field("type"@, sdp_type@);
        let y = json::text_field("sdp"@, sdp@);
        assert(seq![x, y].skip(1) =~= seq![y]);
        assert(seq![y, x].skip(1) =~= seq![x]);
        assert(seq![x, y][0] == x);
        assert(seq![y, x][0] == y);
    }
    r
}

/// The message that carries a candidate to the peer. Read as a message from the server, it carries
/// the same candidate; so does it in the signaling protocol.
pub fn ice_message(mlineindex: u32, candidate: &str) -> (r: String)
    ensures
        r@ == json::json_text_number(
            "ice"@,
            "candidate"@,
            candidate@,
            "sdpMLineIndex"@,
            mlineindex,
        ),
        forall|peer_id: u32| #[trigger]
            event(peer_id, r@) == (SignallingEventView::Ice {
                sdp_m_line_index: mlineindex,
                candidate: candidate@,
            }),
        signaling_proto::signaling_message(r@) == Ok::<
            signaling_proto::SignalingView,
            Seq<char>,
        >(
            (signaling_proto::SignalingView::Ice {
                candidate: candidate@,
                sdp_m_line_index: mlineindex,
            }),
        ),
{
    proof {
        reveal_strlit("candidate");
        reveal_strlit("sdpMLineIndex");
        reveal_strlit("sdp");
        reveal_strlit("ice");
        reveal_with_fuel(json::field, 3);
        reveal_with_fuel(json::member, 3);
        assert("ice"@[0] != "sdp"@[0]);
        assert("candidate"@.len() != "sdpMLineIndex"@.len());
    }
    let r = json::render_text_number("ice", "candidate", candidate, "sdpMLineIndex", mlineindex);
    proof {
        lemma_braced(r@);
        let x = json::text_field("candidate"@, candidate@);
        let y = json::number_field("sdpMLineIndex"@, mlineindex);
        assert(seq![x, y].skip(1) =~= seq![y]);
        assert(seq![y, x].skip(1) =~= seq![x]);
        assert(seq![x, y][0] == x);
        assert(seq![y, x][0] == y);
    }
    r
}

/// The text with which a client registers. In the signaling protocol it is the registration of
/// that client, without metadata.
pub fn hello_text(id: u32) -> (r: String)
    ensures
        r@ == "HELLO "@ + number::decimal(id as nat),
        signaling_proto::signaling_message(r@) == Ok::<
            signaling_proto::SignalingView,
            Seq<char>,
        >(
            (signaling_proto::SignalingView::Hello {
                uid: number::decimal(id as nat),
                meta: None,
            }),
        ),
{
    let mut out = text::to_chars("HELLO ");
    number::push_decimal(&mut out, id as u64);
    proof {
        let n = number::decimal(id as nat);
        let t = out@;
        reveal_strlit("HELLO ");
        reveal_strlit("HELLO");
        reveal_strlit(" ");
        lemma_decimal_end("HELLO "@, id as nat);
        number::law_decimal_reads_back(id as nat);
        assert(t.subrange(0, 6) =~= "HELLO "@);
        assert(t.skip(6) =~= n);
        assert(!n.contains(' ')) by {
            if n.contains(' ') {
                let i = choose|i: int| 0 <= i < n.len() && n[i] == ' ';
                assert(number::digit(n[i]));
            }
        }
        text::lemma_split_none(n, " "@, 2);
    }
    text::to_text(out.as_slice())
}

/// The text with which a client asks for a session. In the signaling protocol it is the request
/// for that peer.
pub fn session_text(peer_id: u32) -> (r: String)
    ensures
        r@ == "SESSION "@ + number::decimal(peer_id as nat),
        signaling_proto::signaling_message(r@) == Ok::<
            signaling_proto::SignalingView,
            Seq<char>,
        >((signaling_proto::SignalingView::Session { peer_id: number::decimal(peer_id as nat) })),
{
    let mut out = text::to_chars("SESSION ");
    number::push_decimal(&mut out, peer_id as u64);
    proof {
        let n = number::decimal(peer_id as nat);
        let t = out@;
        reveal_strlit("SESSION ");
        reveal_strlit("HELLO ");
        reveal_strlit("HELLO");
        lemma_decimal_end("SESSION "@, peer_id as nat);
        lemma_decimal_end(Seq::empty(), peer_id as nat);
        number::law_decimal_reads_back(peer_id as nat);
        assert(t.subrange(0, 8) =~= "SESSION "@);
        assert(t.skip(8) =~= n);
        assert(Seq::<char>::empty() + n =~= n);
        assert(t[0] == 'S');
        if text::begins(t, "HELLO "@) {
            assert(t.subrange(0, 6)[0] == 'H');
        }
    }
    text::to_text(out.as_slice())
}

/// A text that ends in a number and does not begin with white space is trimmed.
proof fn lemma_decimal_end(head: Seq<char>, n: nat)
    requires
        head.len() > 0 ==> !text::white(head[0]),
    ensures
        text::trimmed(head + number::decimal(n)) == head + number::decimal(n),
{
    number::law_decimal_reads_back(n);
    let d = number::decimal(n);
    let t = head + d;
    assert(number::digit(d[d.len() - 1]));
    assert(t.last() == d[d.len() - 1]);
    assert(number::digit(d[0]));
}

/// A header of the opening request.
#[derive(Debug)]
pub struct Header {
    pub name: String,
    pub value: String,
}

impl View for Header {
    type V = (Seq<char>, Seq<char>);

    open spec fn view(&self) -> (Seq<char>, Seq<char>) {
        (self.name@, self.value@)
    }
}

/// The names and values of headers.
pub open spec fn headers_of(v: Seq<Header>) -> Seq<(Seq<char>, Seq<char>)> {
    Seq::new(v.len(), |i: int| v[i]@)
}

/// The credentials of a client: without a name or a password, the empty one.
pub open spec fn credentials(config: SignallingConfig) -> Seq<char> {
    or_empty(text::text_of(config.basic_auth_user)) + ":"@ + or_empty(
        text::text_of(config.basic_auth_password),
    )
}

/// The value of the header that carries the credentials.
pub open spec fn authorization(config: SignallingConfig) -> Seq<char> {
    "Basic "@ + codec::base64_encoded(vstd::utf8::encode_utf8(credentials(config)))
}

/// The headers of an opening request with credentials.
pub open spec fn handshake(config: SignallingConfig, key: Seq<char>) -> Seq<
    (Seq<char>, Seq<char>),
> {
    seq![
        ("Authorization"@, authorization(config)),
        ("Host"@, config.server@),
        ("Connection"@, "Upgrade"@),
        ("Upgrade"@, "websocket"@),
        ("Sec-WebSocket-Version"@, "13"@),
        ("Sec-WebSocket-Key"@, key),
    ]
}

fn clone_or_empty(t: &Option<String>) -> (r: String)
    ensures
        r@ == or_empty(text::text_of(*t)),
{
    match t {
        Some(s) => s.clone(),
        None => String::new(),
    }
}

/// The value of the header that carries the credentials. What follows its scheme decodes to the
/// credentials.
pub fn authorization_value(config: &SignallingConfig) -> (r: String)
    ensures
        r@ == authorization(*config),
        codec::base64_decoded(r@.skip("Basic "@.len() as int)) == Some(
            vstd::utf8::encode_utf8(credentials(*config)),
        ),
{
    let user = clone_or_empty(&config.basic_auth_user);
    let pass = clone_or_empty(&config.basic_auth_password);
    let pair = text::cat(&text::cat(&user, ":"), &pass);
    let blob = codec::base64_encode(pair.as_str().as_bytes());
    let r = text::cat("Basic ", &blob);
    assert(r@.skip("Basic "@.len() as int) =~= blob@);
    r
}

fn header(name: &str, value: &str) -> (r: Header)
    ensures
        r@ == (name@, value@),
{
    Header { name: name.to_string(), value: value.to_string() }
}

/// The headers of an opening request with credentials, under the given key.
pub fn handshake_headers(config: &SignallingConfig, key: &str) -> (r: Vec<Header>)
    ensures
        headers_of(r@) == handshake(*config, key@),
{
    let mut out: Vec<Header> = Vec::new();
    out.push(header("Authorization", &authorization_value(config)));
    out.push(header("Host", &config.server));
    out.push(header("Connection", "Upgrade"));
    out.push(header("Upgrade", "websocket"));
    out.push(header("Sec-WebSocket-Version", "13"));
    out.push(header("Sec-WebSocket-Key", key));
    assert(headers_of(out@) =~= handshake(*config, key@));
    out
}

/// Why a text is not a URI.
pub uninterp spec fn uri_refusal(text: Seq<char>) -> Option<Seq<char>>;

/// Why a request to a URI cannot be built with the given headers.
pub uninterp spec fn request_refusal(
    uri: Seq<char>,
    headers: Seq<(Seq<char>, Seq<char>)>,
) -> Option<Seq<char>>;

/// `http::Uri`'s `FromStr`: whether it accepts the text, and the words of its error, depend on the
/// text alone.
#[verifier::external_body]
fn refuse_uri(text: &str) -> (r: Option<String>)
    ensures
        text::text_of(r) == uri_refusal(text@),
{
    text.parse::<http::Uri>().err().map(|e| e.to_string())
}

/// `http::request::Builder`: whether it builds a request with the URI and the headers, in their
/// order, and the words of its error, depend on these alone.
#[verifier::external_body]
fn refuse_request(uri: &str, headers: &Vec<Header>) -> (r: Option<String>)
    ensures
        text::text_of(r) == request_refusal(uri@, headers_of(headers@)),
{
    let mut builder = http::Request::builder().uri(uri);
    for h in headers {
        builder = builder.header(h.name.as_str(), h.value.as_str());
    }
    builder.body(()).err().map(|e| e.to_string())
}

/// An error of the connection with the given words.
pub open spec fn connection_failed(e: SignalingError, words: Seq<char>) -> bool {
    e matches SignalingError::ConnectionFailed(w) && w@ == words
}

/// What the opening request says: without credentials, no headers of its own.
pub open spec fn request_allowed(
    config: SignallingConfig,
    key: Seq<char>,
    uri: Option<Seq<char>>,
    request: Option<Seq<char>>,
    r: Result<Option<Vec<Header>>, SignalingError>,
) -> bool {
    if !config.enable_basic_auth {
        r matches Ok(None)
    } else {
        match (uri, request) {
            (Some(e), _) => r matches Err(x) && connection_failed(x, "Invalid URI: "@ + e),
            (None, Some(e)) => r matches Err(x) && connection_failed(
                x,
                "Request build error: "@ + e,
            ),
            (None, None) => r matches Ok(Some(h)) && headers_of(h@) == handshake(config, key),
        }
    }
}

/// Decides on the opening request, given why the address is no URI and why no request can be built,
/// if so.
pub fn allow_request(
    config: &SignallingConfig,
    key: &str,
    uri: Option<String>,
    request: Option<String>,
) -> (r: Result<Option<Vec<Header>>, SignalingError>)
    ensures
        request_allowed(*config, key@, text::text_of(uri), text::text_of(request), r),
{
    if !config.enable_basic_auth {
        return Ok(None);
    }
    match uri {
        Some(e) => {
            return Err(SignalingError::ConnectionFailed(text::cat("Invalid URI: ", &e)));
        },
        None => {},
    }
    match request {
        Some(e) => Err(SignalingError::ConnectionFailed(text::cat("Request build error: ", &e))),
        None => Ok(Some(handshake_headers(config, key))),
    }
}

/// Prepares the opening request under the given key: with credentials, the address must be a URI,
/// and the request must be one that can be built.
pub fn prepare_request(config: &SignallingConfig, key: &str) -> (r: Result<
    Option<Vec<Header>>,
    SignalingError,
>)
    ensures
        request_allowed(
            *config,
            key@,
            uri_refusal(config.server@),
            request_refusal(config.server@, handshake(*config, key@)),
            r,
        ),
{
    let uri = refuse_uri(&config.server);
    let request = refuse_request(&config.server, &handshake_headers(config, key));
    allow_request(config, key, uri, request)
}

/// How an attempt to connect ended.
#[derive(Debug)]
pub enum Attempt {
    Connected,
    Refused,
    Failed(String),
}

/// What to do after an attempt to connect.
#[derive(Debug)]
pub enum ConnectStep {
    /// Send the text.
    Register(String),
    /// Wait for so many seconds, then try again.
    Retry(u64),
    /// Report that the connection is gone, and give up.
    GiveUp(SignalingError),
}

/// Decides what to do after an attempt to connect.
pub fn connect_step(config: &SignallingConfig, attempt: Attempt) -> (r: ConnectStep)
    ensures
        match attempt {
            Attempt::Connected => r matches ConnectStep::Register(t) && t@ == "HELLO "@
                + number::decimal(config.id as nat),
            Attempt::Refused => r == ConnectStep::Retry(2),
            Attempt::Failed(e) => r matches ConnectStep::GiveUp(x) && connection_failed(x, e@),
        },
{
    match attempt {
        Attempt::Connected => ConnectStep::Register(hello_text(config.id)),
        Attempt::Refused => ConnectStep::Retry(2),
        Attempt::Failed(e) => ConnectStep::GiveUp(SignalingError::ConnectionFailed(e)),
    }
}

/// What came from the connection.
#[derive(Debug)]
pub enum Incoming {
    /// There is no connection.
    NotConnected,
    Text(String),
    /// The connection was closed, or has ended.
    Closed,
    /// A frame that is no text.
    Other,
    Failed(String),
}

/// What to do with what came from the connection.
#[derive(Debug)]
pub enum ReceiveStep {
    /// Report the event, then receive again.
    Handle(SignallingEvent),
    /// Receive again.
    Ignore,
    /// Report that the connection is gone, and end.
    Finish,
    /// Report that the connection is gone, and fail.
    Abort(SignalingError),
    /// Fail.
    Fail(SignalingError),
}

/// Decides what to do with what came from the connection.
pub fn receive_step(config: &SignallingConfig, incoming: Incoming) -> (r: ReceiveStep)
    ensures
        match incoming {
            Incoming::NotConnected => r matches ReceiveStep::Fail(x) && connection_failed(
                x,
                "Not connected"@,
            ),
            Incoming::Text(t) => r matches ReceiveStep::Handle(e) && e@ == event(
                config.peer_id,
                t@,
            ),
            Incoming::Closed => r == ReceiveStep::Finish,
            Incoming::Other => r == ReceiveStep::Ignore,
            Incoming::Failed(e) => r matches ReceiveStep::Abort(x) && connection_failed(x, e@),
        },
{
    match incoming {
        Incoming::NotConnected => ReceiveStep::Fail(
            SignalingError::ConnectionFailed("Not connected".to_string()),
        ),
        Incoming::Text(t) => ReceiveStep::Handle(handle_message(config.peer_id, &t)),
        Incoming::Closed => ReceiveStep::Finish,
        Incoming::Other => ReceiveStep::Ignore,
        Incoming::Failed(e) => ReceiveStep::Abort(SignalingError::ConnectionFailed(e)),
    }
}

/// The server's word that a peer is unknown is told as such to the client that calls this peer.
pub proof fn law_unknown_peer(peer_id: u32)
    ensures
        event(peer_id, no_peer(peer_id)) == SignallingEventView::Error(
            ServerErrorView::PeerNotFound("'"@ + number::decimal(peer_id as nat) + "' not found"@),
        ),
{
    reveal_strlit("HELLO");
    reveal_strlit("SESSION_OK");
    reveal_strlit("ERROR");
    reveal_strlit("ERROR peer '");
    let s = no_peer(peer_id);
    assert(s[0] == 'E');
    assert(s.subrange(0, 5) =~= "ERROR"@);
    if text::begins(s, "SESSION_OK"@) {
        assert(s.subrange(0, 10)[0] == 'S');
    }
}

} // verus!
