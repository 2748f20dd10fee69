//! The signaling protocol: the text frames that a server and its clients exchange.

use vstd::prelude::*;
use crate::codec;
use crate::json;
use crate::text;

verus! {

broadcast use vstd::string::group_string_axioms;

/// A message of the signaling protocol.
#[derive(Debug, Clone)]
pub enum SignalingMessage {
    /// A client registers: `HELLO <uid> [<meta>]`. The metadata are the decoded bytes,
    /// whatever they hold.
    Hello { uid: String, meta: Option<Vec<u8>> },
    /// The server acknowledges a registration: `HELLO`.
    HelloAck,
    /// A client asks for a session: `SESSION <peer_id>`.
    Session { peer_id: String },
    /// A session is established: `SESSION_OK [<meta>]`. The metadata are the decoded bytes,
    /// whatever they hold.
    SessionOk { meta: Option<Vec<u8>> },
    /// Something went wrong: `ERROR <msg>`.
    Error { msg: String },
    /// An offer or an answer.
    Sdp { sdp_type: SdpType, sdp: String },
    /// A candidate.
    Ice { candidate: String, sdp_m_line_index: u32 },
}

/// The two kinds of session descriptions.
#[derive(Debug, Clone, Copy, PartialEq, Eq, Structural)]
pub enum SdpType {
    Offer,
    Answer,
}

/// What a message of the signaling protocol says.
pub enum SignalingView {
    Hello { uid: Seq<char>, meta: Option<Seq<u8>> },
    HelloAck,
    Session { peer_id: Seq<char> },
    SessionOk { meta: Option<Seq<u8>> },
    Error { msg: Seq<char> },
    Sdp { sdp_type: SdpType, sdp: Seq<char> },
    Ice { candidate: Seq<char>, sdp_m_line_index: u32 },
}

impl View for SignalingMessage {
    type V = SignalingView;

    open spec fn view(&self) -> SignalingView {
        match self {
            SignalingMessage::Hello { uid, meta } => SignalingView::Hello {
                uid: uid@,
                meta: codec::bytes_of(*meta),
            },
            SignalingMessage::HelloAck => SignalingView::HelloAck,
            SignalingMessage::Session { peer_id } => SignalingView::Session { peer_id: peer_id@ },
            SignalingMessage::SessionOk { meta } => SignalingView::SessionOk {
                meta: codec::bytes_of(*meta),
            },
            SignalingMessage::Error { msg } => SignalingView::Error { msg: msg@ },
            SignalingMessage::Sdp { sdp_type, sdp } => SignalingView::Sdp {
                sdp_type: *sdp_type,
                sdp: sdp@,
            },
            SignalingMessage::Ice { candidate, sdp_m_line_index } => SignalingView::Ice {
                candidate: candidate@,
                sdp_m_line_index: *sdp_m_line_index,
            },
        }
    }
}

/// What a result says, message or error.
pub open spec fn outcome(r: Result<SignalingMessage, String>) -> Result<SignalingView, Seq<char>> {
    match r {
        Ok(m) => Ok(m@),
        Err(e) => Err(e@),
    }
}

/// An optional text as it is printed for inspection: escaped and in quotes.
pub uninterp spec fn inspected(t: Option<Seq<char>>) -> Seq<char>;

/// `Debug` of `Option<String>`: the result depends on the text alone; without a text it is `None`.
#[verifier::external_body]
fn inspect(t: &Option<String>) -> (r: String)
    ensures
        r@ == inspected(text::text_of(*t)),
        t is None ==> r@ == "None"@,
{
    format!("{:?}", t)
}

/// The line index in a candidate: the low 32 bits of what the message says.
pub open spec fn line_index(n: u64) -> u32 {
    (n % 0x1_0000_0000) as u32
}

/// The kind of session description that a name stands for.
pub open spec fn sdp_type_of(name: Option<Seq<char>>) -> Option<SdpType> {
    if name == Some("offer"@) {
        Some(SdpType::Offer)
    } else if name == Some("answer"@) {
        Some(SdpType::Answer)
    } else {
        None
    }
}

/// The session description in the fields of an object.
pub open spec fn read_sdp(fields: Seq<json::JsonFieldView>) -> Result<SignalingView, Seq<char>> {
    let name = json::field_text(fields, "type"@);
    match (sdp_type_of(name), json::field_text(fields, "sdp"@)) {
        (None, _) => Err("Unknown SDP type: "@ + inspected(name)),
        (Some(_), None) => Err("Missing sdp field"@),
        (Some(sdp_type), Some(sdp)) => Ok(SignalingView::Sdp { sdp_type, sdp }),
    }
}

/// The candidate in the fields of an object.
pub open spec fn read_ice(fields: Seq<json::JsonFieldView>) -> Result<SignalingView, Seq<char>> {
    match (
        json::field_text(fields, "candidate"@),
        json::field_unsigned(fields, "sdpMLineIndex"@),
    ) {
        (None, _) => Err("Missing candidate field"@),
        (Some(_), None) => Err("Missing sdpMLineIndex"@),
        (Some(candidate), Some(n)) => Ok(
            SignalingView::Ice { candidate, sdp_m_line_index: line_index(n) },
        ),
    }
}

/// The message in the members of an object, if it holds a session description or a candidate.
pub open spec fn read_members(members: Seq<json::JsonMemberView>) -> Option<
    Result<SignalingView, Seq<char>>,
> {
    match (json::member(members, "sdp"@), json::member(members, "ice"@)) {
        (Some(fields), _) => Some(read_sdp(fields)),
        (None, Some(fields)) => Some(read_ice(fields)),
        (None, None) => None,
    }
}

/// The message in the outline of a JSON text, if it holds a session description or a candidate.
pub open spec fn read_outline(outline: Result<Seq<json::JsonMemberView>, Seq<char>>) -> Option<
    Result<SignalingView, Seq<char>>,
> {
    match outline {
        Ok(members) => read_members(members),
        Err(_) => None,
    }
}

/// The registration of a client: an identifier and, behind a space, metadata in base64. Metadata
/// that cannot be decoded are left out.
pub open spec fn hello(rest: Seq<char>) -> SignalingView {
    let parts = text::split_n(rest, " "@, 2);
    SignalingView::Hello {
        uid: parts[0],
        meta: if parts.len() > 1 {
            codec::base64_decoded(parts[1])
        } else {
            None
        },
    }
}

/// The message that a trimmed text stands for.
pub open spec fn read_trimmed(t: Seq<char>) -> Result<SignalingView, Seq<char>> {
    if t == "HELLO"@ {
        Ok(SignalingView::HelloAck)
    } else if text::begins(t, "HELLO "@) {
        Ok(hello(t.skip("HELLO "@.len() as int)))
    } else if text::begins(t, "SESSION "@) {
        Ok(SignalingView::Session { peer_id: text::trimmed(t.skip("SESSION "@.len() as int)) })
    } else if t == "SESSION_OK"@ {
        Ok(SignalingView::SessionOk { meta: None })
    } else if text::begins(t, "SESSION_OK "@) {
        Ok(
            SignalingView::SessionOk {
                meta: codec::base64_decoded(text::trimmed(t.skip("SESSION_OK "@.len() as int))),
            },
        )
    } else if text::begins(t, "ERROR "@) {
        Ok(SignalingView::Error { msg: t.skip("ERROR "@.len() as int) })
    } else if text::begins(t, "{"@) && read_outline(json::json_outline(t)) is Some {
        read_outline(json::json_outline(t))->0
    } else {
        Err("Unknown signaling message: "@ + t)
    }
}

/// The message that a text stands for.
pub open spec fn signaling_message(text: Seq<char>) -> Result<SignalingView, Seq<char>> {
    read_trimmed(text::trimmed(text))
}

fn sdp_from_fields(fields: &Vec<json::JsonField>) -> (r: Result<SignalingMessage, String>)
    ensures
        outcome(r) == read_sdp(json::fields_of(fields@)),
{
    let name = json::find_text(fields, "type");
    let sdp_type = match &name {
        Some(t) => {
            let chars = text::to_chars(t);
            if text::is(chars.as_slice(), "offer") {
                SdpType::Offer
            } else if text::is(chars.as_slice(), "answer") {
                SdpType::Answer
            } else {
                return Err(text::cat("Unknown SDP type: ", &inspect(&name)));
            }
        },
        None => {
            return Err(text::cat("Unknown SDP type: ", &inspect(&name)));
        },
    };
    match json::find_text(fields, "sdp") {
        Some(sdp) => Ok(SignalingMessage::Sdp { sdp_type, sdp }),
        None => Err("Missing sdp field".to_string()),
    }
}

fn ice_from_fields(fields: &Vec<json::JsonField>) -> (r: Result<SignalingMessage, String>)
    ensures
        outcome(r) == read_ice(json::fields_of(fields@)),
{
    let candidate = match json::find_text(fields, "candidate") {
        Some(candidate) => candidate,
        None => {
            return Err("Missing candidate field".to_string());
        },
    };
    match json::find_unsigned(fields, "sdpMLineIndex") {
        Some(n) => Ok(
            SignalingMessage::Ice { candidate, sdp_m_line_index: (n % 0x1_0000_0000) as u32 },
        ),
        None => Err("Missing sdpMLineIndex".to_string()),
    }
}

impl SignalingMessage {
    /// Reads the message in the members of an object, if it holds a session description or a
    /// candidate.
    pub fn from_members(members: &Vec<json::JsonMember>) -> (r: Option<
        Result<SignalingMessage, String>,
    >)
        ensures
            match r {
                Some(m) => read_members(json::members(members@)) == Some(outcome(m)),
                None => read_members(json::members(members@)) is None,
            },
    {
        match json::find_member(members, "sdp") {
            Some(fields) => Some(sdp_from_fields(fields)),
            None => match json::find_member(members, "ice") {
                Some(fields) => Some(ice_from_fields(fields)),
                None => None,
            },
        }
    }

    /// Reads a text frame.
    pub fn parse_text(text: &str) -> (r: Result<SignalingMessage, String>)
        ensures
            outcome(r) == signaling_message(text@),
    {
        proof {
            reveal_strlit(" ");
        }
        let chars = text::to_chars(text);
        let t = text::trim(chars.as_slice());
        if text::is(t.as_slice(), "HELLO") {
            return Ok(SignalingMessage::HelloAck);
        }
        match text::strip_prefix(t.as_slice(), "HELLO ") {
            Some(rest) => {
                let space = text::to_chars(" ");
                let parts = text::split_limited(rest.as_slice(), space.as_slice(), Some(2));
                proof {
                    text::lemma_split_n_len(rest@, " "@, 2);
                    assert(text::texts(parts@).len() == parts@.len());
                }
                let uid = text::to_text(parts[0].as_slice());
                let meta = if parts.len() > 1 {
                    codec::base64_decode(&text::to_text(parts[1].as_slice()))
                } else {
                    None
                };
                return Ok(SignalingMessage::Hello { uid, meta });
            },
            None => {},
        }
        match text::strip_prefix(t.as_slice(), "SESSION ") {
            Some(rest) => {
                let peer_id = text::to_text(text::trim(rest.as_slice()).as_slice());
                return Ok(SignalingMessage::Session { peer_id });
            },
            None => {},
        }
        if text::is(t.as_slice(), "SESSION_OK") {
            return Ok(SignalingMessage::SessionOk { meta: None });
        }
        match text::strip_prefix(t.as_slice(), "SESSION_OK ") {
            Some(rest) => {
                let blob = text::to_text(text::trim(rest.as_slice()).as_slice());
                return Ok(SignalingMessage::SessionOk { meta: codec::base64_decode(&blob) });
            },
            None => {},
        }
        match text::strip_prefix(t.as_slice(), "ERROR ") {
            Some(rest) => {
                return Ok(SignalingMessage::Error { msg: text::to_text(rest.as_slice()) });
            },
            None => {},
        }
        let whole = text::to_text(t.as_slice());
        if text::starts_with(t.as_slice(), "{") {
            match json::read_outline(&whole) {
                Ok(members) => match SignalingMessage::from_members(&members) {
                    Some(message) => {
                        return message;
                    },
                    None => {},
                },
                Err(_) => {},
            }
        }
        Err(text::cat("Unknown signaling message: ", &whole))
    }
}

} // verus!
