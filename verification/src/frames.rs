//! What the text frames of the signaling protocol mean, form by form, and what the signaling client
//! makes of them.

use vstd::prelude::*;
use crate::client;
use crate::client::ServerErrorView;
use crate::client::SignallingConfig;
use crate::client::SignallingEventView;
use crate::codec;
use crate::error::SignalingError;
use crate::json;
use crate::number;
use crate::signaling_proto;
use crate::signaling_proto::SdpType;
use crate::signaling_proto::SignalingView;
use crate::spaces;
use crate::text;

verus! {

/// The outcome of reading a frame that is understood.
pub open spec fn read(m: SignalingView) -> Result<SignalingView, Seq<char>> {
    Ok(m)
}

/// The outcome of reading a frame that is not.
pub open spec fn refused(words: Seq<char>) -> Result<SignalingView, Seq<char>> {
    Err(words)
}

/// A text that is not empty and neither begins nor ends with white space.
pub open spec fn tidy(s: Seq<char>) -> bool {
    s.len() > 0 && !text::white(s[0]) && !text::white(s.last())
}

proof fn lemma_tidy(s: Seq<char>)
    requires
        tidy(s),
    ensures
        text::trimmed(s) == s,
{
}

proof fn lemma_headed(head: Seq<char>, s: Seq<char>)
    ensures
        text::begins(head + s, head),
        (head + s).skip(head.len() as int) == s,
{
    assert((head + s).subrange(0, head.len() as int) =~= head);
    assert((head + s).skip(head.len() as int) =~= s);
}

/// White space around a frame does not count.
pub proof fn law_space_around_frames(a: Seq<char>, t: Seq<char>, b: Seq<char>)
    requires
        spaces::all_white(a),
        spaces::all_white(b),
        tidy(t),
    ensures
        signaling_proto::signaling_message(a + t + b) == signaling_proto::signaling_message(t),
{
    spaces::law_trimmed(a, t, b);
    lemma_tidy(t);
}

/// A greeting without a name is the server's acknowledgement, and nothing else is.
pub proof fn law_acknowledgement(t: Seq<char>)
    requires
        !text::begins(text::trimmed(t), "{"@),
    ensures
        signaling_proto::signaling_message(t) == read(SignalingView::HelloAck) <==> text::trimmed(t)
            == "HELLO"@,
{
}

/// A greeting with a name registers a client of that name, without metadata; a second word is its
/// metadata in base64.
pub proof fn law_registration(uid: Seq<char>, blob: Seq<char>)
    requires
        tidy(uid),
        !uid.contains(' '),
        tidy(blob),
    ensures
        signaling_proto::signaling_message("HELLO "@ + uid) == read(
            SignalingView::Hello { uid, meta: None },
        ),
        signaling_proto::signaling_message("HELLO "@ + uid + " "@ + blob) == read(
            SignalingView::Hello { uid, meta: codec::base64_decoded(blob) },
        ),
{
    reveal_strlit("HELLO");
    reveal_strlit("HELLO ");
    reveal_strlit(" ");
    let t = "HELLO "@ + uid;
    assert(t.last() == uid.last());
    lemma_tidy(t);
    lemma_headed("HELLO "@, uid);
    text::lemma_split_none(uid, " "@, 2);
    let x = uid + " "@ + blob;
    let s = "HELLO "@ + x;
    assert("HELLO "@ + uid + " "@ + blob =~= s);
    assert(s.last() == blob.last());
    lemma_tidy(s);
    lemma_headed("HELLO "@, x);
    text::lemma_split_first(uid, " "@, blob, 2);
}

/// A request for a session names the peer; an established session may carry metadata in base64;
/// and an error carries its words.
pub proof fn law_session_frames(t: Seq<char>)
    requires
        tidy(t),
    ensures
        signaling_proto::signaling_message("SESSION "@ + t) == read(
            SignalingView::Session { peer_id: t },
        ),
        signaling_proto::signaling_message("SESSION_OK "@ + t) == read(
            SignalingView::SessionOk { meta: codec::base64_decoded(t) },
        ),
        signaling_proto::signaling_message("SESSION_OK"@) == read(
            SignalingView::SessionOk { meta: None },
        ),
        signaling_proto::signaling_message("ERROR "@ + t) == read(SignalingView::Error { msg: t }),
{
    reveal_strlit("HELLO");
    reveal_strlit("HELLO ");
    reveal_strlit("SESSION ");
    reveal_strlit("SESSION_OK");
    reveal_strlit("SESSION_OK ");
    reveal_strlit("ERROR ");
    lemma_headed("SESSION "@, t);
    lemma_headed("SESSION_OK "@, t);
    lemma_headed("ERROR "@, t);
    let a = "SESSION "@ + t;
    let b = "SESSION_OK "@ + t;
    let c = "ERROR "@ + t;
    let d = "SESSION_OK"@;
    lemma_tidy(a);
    lemma_tidy(b);
    lemma_tidy(c);
    lemma_tidy(d);
    lemma_tidy(t);
    lemma_not_headed(a, "HELLO "@, 0);
    lemma_not_headed(b, "HELLO "@, 0);
    lemma_not_headed(c, "HELLO "@, 0);
    lemma_not_headed(d, "HELLO "@, 0);
    lemma_not_headed(b, "SESSION "@, 7);
    lemma_not_headed(c, "SESSION "@, 0);
    lemma_not_headed(d, "SESSION "@, 7);
    lemma_not_headed(c, "SESSION_OK "@, 0);
}

proof fn lemma_not_headed(s: Seq<char>, p: Seq<char>, i: int)
    requires
        0 <= i < p.len(),
        i < s.len(),
        s[i] != p[i],
    ensures
        !text::begins(s, p),
        s != p,
{
    if text::begins(s, p) {
        assert(s.subrange(0, p.len() as int)[i] == s[i]);
    }
}

/// What is none of the known forms and no object is refused, and the reason holds the frame
/// without the white space around it.
pub proof fn law_unknown_frames(t: Seq<char>)
    requires
        tidy(t),
        t != "HELLO"@,
        t != "SESSION_OK"@,
        !text::begins(t, "HELLO "@),
        !text::begins(t, "SESSION "@),
        !text::begins(t, "SESSION_OK "@),
        !text::begins(t, "ERROR "@),
        !text::begins(t, "{"@) || json::json_outline(t) is Err,
    ensures
        signaling_proto::signaling_message(t) == refused("Unknown signaling message: "@ + t),
{
    lemma_tidy(t);
}

/// An object without a session description and without a candidate is refused like an unknown
/// frame.
pub proof fn law_unknown_objects(t: Seq<char>, members: Seq<json::JsonMemberView>)
    requires
        tidy(t),
        t[0] == '{',
        json::json_outline(t) == Ok::<Seq<json::JsonMemberView>, Seq<char>>(members),
        forall|i: int|
            0 <= i < members.len() ==> (#[trigger] members[i]).key != "sdp"@ && members[i].key
                != "ice"@,
    ensures
        signaling_proto::signaling_message(t) == refused("Unknown signaling message: "@ + t),
{
    lemma_object(t);
    law_no_member(members, "sdp"@);
    law_no_member(members, "ice"@);
}

proof fn lemma_object(t: Seq<char>)
    requires
        tidy(t),
        t[0] == '{',
    ensures
        text::trimmed(t) == t,
        t != "HELLO"@,
        t != "SESSION_OK"@,
        !text::begins(t, "HELLO "@),
        !text::begins(t, "SESSION "@),
        !text::begins(t, "SESSION_OK "@),
        !text::begins(t, "SESSION_OK"@),
        !text::begins(t, "ERROR "@),
        !text::begins(t, "ERROR"@),
        text::begins(t, "{"@),
{
    reveal_strlit("HELLO");
    reveal_strlit("SESSION_OK");
    reveal_strlit("HELLO ");
    reveal_strlit("SESSION ");
    reveal_strlit("SESSION_OK ");
    reveal_strlit("ERROR");
    reveal_strlit("ERROR ");
    reveal_strlit("{");
    lemma_tidy(t);
    lemma_not_headed(t, "HELLO "@, 0);
    lemma_not_headed(t, "SESSION "@, 0);
    lemma_not_headed(t, "SESSION_OK "@, 0);
    lemma_not_headed(t, "SESSION_OK"@, 0);
    lemma_not_headed(t, "ERROR "@, 0);
    lemma_not_headed(t, "ERROR"@, 0);
    assert(t.subrange(0, 1) =~= "{"@);
}

/// The first member with a key is found under it, with all its fields.
pub proof fn law_member_found(members: Seq<json::JsonMemberView>, i: int)
    requires
        0 <= i < members.len(),
        forall|j: int| 0 <= j < i ==> (#[trigger] members[j]).key != members[i].key,
    ensures
        json::member(members, members[i].key) == Some(members[i].fields),
    decreases i,
{
    if i > 0 {
        let rest = members.skip(1);
        assert(members[0].key != members[i].key);
        assert(forall|j: int| 0 <= j < rest.len() ==> #[trigger] rest[j] == members[j + 1]);
        law_member_found(rest, i - 1);
    }
}

/// Under a key that no member has, nothing is found.
pub proof fn law_no_member(members: Seq<json::JsonMemberView>, key: Seq<char>)
    requires
        forall|j: int| 0 <= j < members.len() ==> (#[trigger] members[j]).key != key,
    ensures
        json::member(members, key) is None,
    decreases members.len(),
{
    if members.len() > 0 {
        let rest = members.skip(1);
        assert(members[0].key != key);
        assert(forall|j: int| 0 <= j < rest.len() ==> #[trigger] rest[j] == members[j + 1]);
        law_no_member(rest, key);
    }
}

/// The first field with a key is found under it, with its string and its number.
pub proof fn law_field_found(fields: Seq<json::JsonFieldView>, i: int)
    requires
        0 <= i < fields.len(),
        forall|j: int| 0 <= j < i ==> (#[trigger] fields[j]).key != fields[i].key,
    ensures
        json::field_text(fields, fields[i].key) == fields[i].text,
        json::field_unsigned(fields, fields[i].key) == fields[i].unsigned,
    decreases i,
{
    if i > 0 {
        let rest = fields.skip(1);
        assert(fields[0].key != fields[i].key);
        assert(forall|j: int| 0 <= j < rest.len() ==> #[trigger] rest[j] == fields[j + 1]);
        law_field_found(rest, i - 1);
    }
}

/// Under a key that no field has, there is neither a string nor a number.
pub proof fn law_no_field(fields: Seq<json::JsonFieldView>, key: Seq<char>)
    requires
        forall|j: int| 0 <= j < fields.len() ==> (#[trigger] fields[j]).key != key,
    ensures
        json::field_text(fields, key) is None,
        json::field_unsigned(fields, key) is None,
    decreases fields.len(),
{
    if fields.len() > 0 {
        let rest = fields.skip(1);
        assert(fields[0].key != key);
        assert(forall|j: int| 0 <= j < rest.len() ==> #[trigger] rest[j] == fields[j + 1]);
        law_no_field(rest, key);
    }
}

/// A session description is an offer or an answer, as its type says, and holds its text; one of
/// another type is refused, and so is one without a text. It counts before a candidate.
pub proof fn law_descriptions_in_objects(
    t: Seq<char>,
    members: Seq<json::JsonMemberView>,
    fields: Seq<json::JsonFieldView>,
)
    requires
        tidy(t),
        t[0] == '{',
        json::json_outline(t) == Ok::<Seq<json::JsonMemberView>, Seq<char>>(members),
        json::member(members, "sdp"@) == Some(fields),
    ensures
        ({
            let m = signaling_proto::signaling_message(t);
            let name = json::field_text(fields, "type"@);
            let sdp = json::field_text(fields, "sdp"@);
            &&& name == Some("offer"@) && sdp is Some ==> m == read(
                SignalingView::Sdp { sdp_type: SdpType::Offer, sdp: sdp->0 },
            )
            &&& name == Some("answer"@) && sdp is Some ==> m == read(
                SignalingView::Sdp { sdp_type: SdpType::Answer, sdp: sdp->0 },
            )
            &&& (name == Some("offer"@) || name == Some("answer"@)) && sdp is None ==> m
                == refused("Missing sdp field"@)
            &&& name != Some("offer"@) && name != Some("answer"@) ==> m == refused(
                "Unknown SDP type: "@ + signaling_proto::inspected(name),
            )
        }),
{
    lemma_object(t);
    reveal_strlit("offer");
    reveal_strlit("answer");
    assert("offer"@.len() != "answer"@.len());
}

/// A candidate holds its text and the index of its line; without either it is refused.
pub proof fn law_candidates_in_objects(
    t: Seq<char>,
    members: Seq<json::JsonMemberView>,
    fields: Seq<json::JsonFieldView>,
)
    requires
        tidy(t),
        t[0] == '{',
        json::json_outline(t) == Ok::<Seq<json::JsonMemberView>, Seq<char>>(members),
        json::member(members, "sdp"@) is None,
        json::member(members, "ice"@) == Some(fields),
    ensures
        ({
            let m = signaling_proto::signaling_message(t);
            let candidate = json::field_text(fields, "candidate"@);
            let n = json::field_unsigned(fields, "sdpMLineIndex"@);
            &&& candidate is Some && n is Some && n->0 <= u32::MAX ==> m == read(
                SignalingView::Ice { candidate: candidate->0, sdp_m_line_index: n->0 as u32 },
            )
            &&& candidate is None ==> m == refused("Missing candidate field"@)
            &&& candidate is Some && n is None ==> m == refused("Missing sdpMLineIndex"@)
        }),
{
    lemma_object(t);
}

/// Line indices are cut to 32 bits: two that differ by a multiple of 4294967296 are the same one,
/// and one below that stays.
pub proof fn law_line_index(n: u64, k: u64)
    requires
        n + k * 0x1_0000_0000 <= u64::MAX,
    ensures
        signaling_proto::line_index((n + k * 0x1_0000_0000) as u64) == signaling_proto::line_index(n),
        n <= u32::MAX ==> signaling_proto::line_index(n) == n,
{
    vstd::arithmetic::div_mod::lemma_mod_multiples_vanish(k as int, n as int, 0x1_0000_0000);
}

/// Only the bare greeting means that the client is connected.
pub proof fn law_connected(peer_id: u32, message: Seq<char>)
    ensures
        client::event(peer_id, message) is Connected <==> message == "HELLO"@,
{
}

/// An established session is one with the peer that the client calls; its metadata are those of the
/// first word behind the announcement, if that is JSON in base64, and otherwise an empty object.
pub proof fn law_session_event(peer_id: u32, blob: Seq<char>, c: char, rest: Seq<char>)
    requires
        spaces::none_white(blob),
        blob.len() > 0,
        text::white(c),
    ensures
        client::event(peer_id, "SESSION_OK"@) == (SignallingEventView::Session {
            peer_id,
            meta: seq!['{' as u8, '}' as u8],
        }),
        forall|s: Seq<char>|
            s == "SESSION_OK"@ + seq![c] + blob || s == "SESSION_OK"@ + seq![c] + blob + seq![c]
                + rest ==> #[trigger] client::event(peer_id, s) == (SignallingEventView::Session {
                peer_id,
                meta: match codec::base64_decoded(blob) {
                    Some(bytes) => if json::json_bytes(bytes) {
                        bytes
                    } else {
                        seq!['{' as u8, '}' as u8]
                    },
                    None => seq!['{' as u8, '}' as u8],
                },
            }),
{
    reveal_strlit("SESSION_OK");
    reveal_strlit("HELLO");
    let head = "SESSION_OK"@;
    assert(client::empty_object() =~= seq!['{' as u8, '}' as u8]);
    lemma_headed(head, Seq::empty());
    assert(head + Seq::<char>::empty() =~= head);
    assert forall|s: Seq<char>|
        s == head + seq![c] + blob || s == head + seq![c] + blob + seq![c] + rest implies (
    #[trigger] client::event(peer_id, s)) == (SignallingEventView::Session {
        peer_id,
        meta: match codec::base64_decoded(blob) {
            Some(bytes) => if json::json_bytes(bytes) {
                bytes
            } else {
                seq!['{' as u8, '}' as u8]
            },
            None => seq!['{' as u8, '}' as u8],
        },
    }) by {
        let tail = if s == head + seq![c] + blob {
            blob
        } else {
            blob + seq![c] + rest
        };
        let more = seq![c] + tail;
        assert(s =~= head + more);
        lemma_headed(head, more);
        spaces::law_words(seq![c], blob, c, tail);
        spaces::law_words(seq![c], blob, c, rest);
        assert(text::words(more)[0] == blob);
    }
}

/// The server's word that the called peer is unknown is told as such; every other error, of
/// another peer too, is told as it came.
pub proof fn law_error_event(peer_id: u32, rest: Seq<char>)
    requires
        rest != " peer '"@ + number::decimal(peer_id as nat) + "' not found"@,
    ensures
        client::event(
            peer_id,
            "ERROR peer '"@ + number::decimal(peer_id as nat) + "' not found"@,
        ) == SignallingEventView::Error(
            ServerErrorView::PeerNotFound("'"@ + number::decimal(peer_id as nat) + "' not found"@),
        ),
        client::event(peer_id, "ERROR"@ + rest) == SignallingEventView::Error(
            ServerErrorView::Protocol("unhandled signalling message: "@ + ("ERROR"@ + rest)),
        ),
{
    reveal_strlit("HELLO");
    reveal_strlit("SESSION_OK");
    reveal_strlit("ERROR");
    reveal_strlit(" peer '");
    reveal_strlit("ERROR peer '");
    client::law_unknown_peer(peer_id);
    let s = "ERROR"@ + rest;
    lemma_headed("ERROR"@, rest);
    lemma_not_headed(s, "SESSION_OK"@, 0);
    assert(s[0] == 'E' && "HELLO"@[0] == 'H');
    assert("ERROR peer '"@ + number::decimal(peer_id as nat) + "' not found"@ =~= "ERROR"@ + (
    " peer '"@ + number::decimal(peer_id as nat) + "' not found"@));
    if s == client::no_peer(peer_id) {
        assert(rest =~= s.skip(5));
        assert((" peer '"@ + number::decimal(peer_id as nat) + "' not found"@) =~= s.skip(5));
    }
}

/// What an object from the server means: a session description with its type and text, or else a
/// candidate with its text and line, each empty or 0 where it is missing; any other object is
/// told in compact form.
pub proof fn law_object_events(
    peer_id: u32,
    t: Seq<char>,
    members: Seq<json::JsonMemberView>,
    compact: Seq<char>,
)
    requires
        tidy(t),
        t[0] == '{',
        json::json_outline(t) == Ok::<Seq<json::JsonMemberView>, Seq<char>>(members),
        json::json_compact(t) == Some(compact),
    ensures
        ({
            let e = client::event(peer_id, t);
            match (json::member(members, "sdp"@), json::member(members, "ice"@)) {
                (Some(fields), _) => {
                    &&& e is Sdp
                    &&& json::field_text(fields, "type"@) matches Some(x) ==> e->sdp_type == x
                    &&& json::field_text(fields, "type"@) is None ==> e->sdp_type.len() == 0
                    &&& json::field_text(fields, "sdp"@) matches Some(x) ==> e->sdp == x
                    &&& json::field_text(fields, "sdp"@) is None ==> e->sdp.len() == 0
                },
                (None, Some(fields)) => {
                    &&& e is Ice
                    &&& json::field_unsigned(fields, "sdpMLineIndex"@) matches Some(n) ==> n
                        <= u32::MAX ==> e->sdp_m_line_index == n
                    &&& json::field_unsigned(fields, "sdpMLineIndex"@) is None
                        ==> e->sdp_m_line_index == 0
                    &&& json::field_text(fields, "candidate"@) matches Some(x) ==> e->candidate == x
                    &&& json::field_text(fields, "candidate"@) is None ==> e->candidate.len() == 0
                },
                (None, None) => e == SignallingEventView::Error(
                    ServerErrorView::Protocol("unhandled JSON message: "@ + compact),
                ),
            }
        }),
{
    lemma_object(t);
}

/// A message that is neither a known word nor JSON is told with the reason why it is not.
pub proof fn law_garbage_event(peer_id: u32, message: Seq<char>, why: Seq<char>)
    requires
        message != "HELLO"@,
        !text::begins(message, "SESSION_OK"@),
        !text::begins(message, "ERROR"@),
        json::json_outline(message) == Err::<Seq<json::JsonMemberView>, Seq<char>>(why),
    ensures
        client::event(peer_id, message) == SignallingEventView::Error(
            ServerErrorView::Protocol(
                "error parsing message as JSON: "@ + message + " ("@ + why + ")"@,
            ),
        ),
{
}

/// The credentials of a client are its name and its password with a colon between them; either may
/// be empty.
pub proof fn law_credentials(config: SignallingConfig)
    ensures
        (config.basic_auth_user matches Some(u) && config.basic_auth_password matches Some(p)
            && client::credentials(config) == u@ + seq![':'] + p@) || config.basic_auth_user is None
            || config.basic_auth_password is None,
        config.basic_auth_user is None ==> (config.basic_auth_password matches Some(p)
            ==> client::credentials(config) == seq![':'] + p@),
        config.basic_auth_password is None ==> (config.basic_auth_user matches Some(u)
            ==> client::credentials(config) == u@ + seq![':']),
        config.basic_auth_user is None && config.basic_auth_password is None ==> client::credentials(
            config,
        ) == seq![':'],
        client::authorization(config) == "Basic "@ + codec::base64_encoded(
            vstd::utf8::encode_utf8(client::credentials(config)),
        ),
{
    reveal_strlit(":");
    assert(":"@ =~= seq![':']);
    let e = Seq::<char>::empty();
    let u = client::or_empty(text::text_of(config.basic_auth_user));
    let p = client::or_empty(text::text_of(config.basic_auth_password));
    assert(e + seq![':'] + p =~= seq![':'] + p);
    assert(u + seq![':'] + e =~= u + seq![':']);
    assert(e + seq![':'] + e =~= seq![':']);
}

/// What an opening request may come to: without credentials no headers, whatever else holds; with
/// them, the reason why the address or the request is refused, the address first, or else the
/// credentials, the host, the four headers of the protocol's upgrade, and no others.
pub proof fn law_opening_request(
    config: SignallingConfig,
    key: Seq<char>,
    uri: Option<Seq<char>>,
    request: Option<Seq<char>>,
    r: Result<Option<Vec<client::Header>>, SignalingError>,
)
    requires
        client::request_allowed(config, key, uri, request, r),
    ensures
        r matches Ok(None) <==> !config.enable_basic_auth,
        config.enable_basic_auth ==> {
            &&& uri matches Some(e) ==> (r matches Err(x) && (
            x matches SignalingError::ConnectionFailed(w) && w@ == "Invalid URI: "@ + e))
            &&& uri is None ==> (request matches Some(e) ==> (r matches Err(x) && (
            x matches SignalingError::ConnectionFailed(w) && w@ == "Request build error: "@ + e)))
            &&& uri is None && request is None ==> (r matches Ok(Some(h)) && h@.len() == 6
                && h@[0]@ == ("Authorization"@, client::authorization(config))
                && h@[1]@ == ("Host"@, config.server@)
                && h@[2]@ == ("Connection"@, "Upgrade"@)
                && h@[3]@ == ("Upgrade"@, "websocket"@)
                && h@[4]@ == ("Sec-WebSocket-Version"@, "13"@)
                && h@[5]@ == ("Sec-WebSocket-Key"@, key))
        },
{
    match r {
        Ok(Some(h)) => {
            if config.enable_basic_auth && uri is None && request is None {
                let all = client::headers_of(h@);
                let want = client::handshake(config, key);
                assert(all == want);
                assert(all.len() == 6);
                assert(all[0] == h@[0]@ && all[1] == h@[1]@ && all[2] == h@[2]@ && all[3] == h@[3]@
                    && all[4] == h@[4]@ && all[5] == h@[5]@);
            }
        },
        _ => {},
    }
}

} // verus!
