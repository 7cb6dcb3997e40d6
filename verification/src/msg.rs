//! Helpers over JSON-RPC messages.

use vstd::prelude::*;
use vstd::string::*;
use vstd::utf8::*;
use crate::json::{empty_object, int_json, json_read, json_text, Json, JsonView, MAX_DEPTH};
use crate::strings::{
    begins_with, cut, decimal, decimal_text, lemma_cut, lemma_decimal_round_trips, parse_unsigned,
    split_once, starts_with, unsigned_value,
};

verus! {

/// Carries an id and a method.
pub open spec fn request_shaped(v: JsonView) -> bool {
    v.get("id"@) is Some && v.get("method"@) is Some
}

/// Carries an id and no method.
pub open spec fn response_shaped(v: JsonView) -> bool {
    v.get("id"@) is Some && v.get("method"@) is None
}

/// The method, or nothing where there is none or it is not a string.
pub open spec fn method_of(v: JsonView) -> Seq<char> {
    match v.field("method"@) {
        JsonView::Str(s) => s,
        _ => Seq::empty(),
    }
}

pub fn is_request(v: &Json) -> (r: bool)
    ensures
        r == request_shaped(v@),
{
    v.get("id").is_some() && v.get("method").is_some()
}

pub fn is_response(v: &Json) -> (r: bool)
    ensures
        r == response_shaped(v@),
{
    v.get("id").is_some() && v.get("method").is_none()
}

pub fn method(v: &Json) -> (r: &str)
    ensures
        r@ == method_of(v@),
{
    proof {
        reveal_strlit("");
        assert(""@ =~= Seq::empty());
    }
    match v.get("method") {
        Some(m) => match m.as_str() {
            Some(s) => s,
            None => "",
        },
        None => "",
    }
}

// ---- ids ----------------------------------------------------------------

/// Client request ids live in a per-client namespace. They are rewritten into
/// one server-facing namespace by prefixing the client id, and that is undone on
/// the way back. The separator is a control character so it cannot collide with
/// a plausible string id.
pub const SEP: char = '\u{1}';

/// Prefix marking ids the proxy itself issued; responses to these are its own.
pub const INTERNAL: &'static str = "drey/";

/// The server-facing id of a client's request id.
pub open spec fn encoded_id(client: u64, original: JsonView) -> JsonView {
    JsonView::Str(decimal_text(client as nat).push(SEP) + json_text(original))
}

/// The client and the id that a server-facing id stands for.
pub open spec fn decoded_id(encoded: JsonView) -> Option<(u64, JsonView)> {
    match untagged(encoded) {
        None => None,
        Some((client, rest)) => match json_read(encode_utf8(rest)) {
            Some(v) => Some((client, v)),
            None => None,
        },
    }
}

/// Marked as issued by the proxy itself.
pub open spec fn internal_id(id: JsonView) -> bool {
    match id.as_str() {
        Some(s) => begins_with(s, INTERNAL@),
        None => false,
    }
}

/// The server-facing form of an id that is written `text`.
pub fn tag_id(client: u64, text: &str) -> (r: Json)
    ensures
        r@ == JsonView::Str(decimal_text(client as nat).push(SEP) + text@),
{
    let mut s = decimal(client);
    s.push(SEP);
    s.append(text);
    Json::Str(s)
}

/// The client of a server-facing id, and how its own id is written.
pub open spec fn untagged(encoded: JsonView) -> Option<(u64, Seq<char>)> {
    match encoded.as_str() {
        None => None,
        Some(s) => match cut(s, SEP) {
            None => None,
            Some((client, rest)) => match unsigned_value(client, u64::MAX as nat) {
                Some(n) => Some((n as u64, rest)),
                None => None,
            },
        },
    }
}

/// The client of a server-facing id, and how its own id is written.
pub fn untag_id(encoded: &Json) -> (r: Option<(u64, String)>)
    ensures
        match r {
            Some(p) => untagged(encoded@) == Some((p.0, p.1@)),
            None => untagged(encoded@) is None,
        },
{
    let s = match encoded.as_str() {
        Some(s) => s,
        None => return None,
    };
    let (client, rest) = match split_once(s, SEP) {
        Some(p) => p,
        None => return None,
    };
    match parse_unsigned(client.as_str(), u64::MAX) {
        None => None,
        Some(client) => Some((client, rest)),
    }
}

/// The server-facing form of `original`. Decoding it gives `client` and `original` back, for
/// every id that holds no fraction and nests no deeper than can be read.
pub fn encode_id(client: u64, original: &Json) -> (r: Json)
    ensures
        r@ == encoded_id(client, original@),
        original@.plain(MAX_DEPTH as nat) ==> decoded_id(r@) == Some((client, original@)),
{
    let text = original.text();
    proof {
        lemma_encoded_id_reads(client, original@);
    }
    tag_id(client, text.as_str())
}

pub fn decode_id(encoded: &Json) -> (r: Option<(u64, Json)>)
    ensures
        match r {
            Some(p) => decoded_id(encoded@) == Some((p.0, p.1@)),
            None => decoded_id(encoded@) is None,
        },
{
    match untag_id(encoded) {
        None => None,
        Some((client, rest)) => match Json::parse_text(rest.as_str()) {
            None => None,
            Some(id) => Some((client, id)),
        },
    }
}

pub fn is_internal_id(id: &Json) -> (r: bool)
    ensures
        r == internal_id(id@),
{
    match id.as_str() {
        Some(s) => starts_with(s, INTERNAL),
        None => false,
    }
}

/// A server-facing id names its client, and its rest is read as the id.
pub proof fn lemma_encoded_id_reads(client: u64, original: JsonView)
    ensures
        decoded_id(encoded_id(client, original)) == (match json_read(
            encode_utf8(json_text(original)),
        ) {
            Some(v) => Some((client, v)),
            None => None,
        }),
{
    let before = decimal_text(client as nat);
    lemma_decimal_round_trips(client as nat, u64::MAX as nat);
    assert forall|i: int| 0 <= i < before.len() implies #[trigger] before[i] != SEP by {}
    lemma_cut(before, SEP, json_text(original));
}

/// Ids from different clients never collide, whatever the ids are.
pub proof fn lemma_ids_of_clients_differ(a: u64, b: u64, x: JsonView, y: JsonView)
    requires
        a != b,
    ensures
        encoded_id(a, x) != encoded_id(b, y),
{
    let p = decimal_text(a as nat);
    let q = decimal_text(b as nat);
    lemma_decimal_round_trips(a as nat, u64::MAX as nat);
    lemma_decimal_round_trips(b as nat, u64::MAX as nat);
    assert forall|i: int| 0 <= i < p.len() implies #[trigger] p[i] != SEP by {}
    assert forall|i: int| 0 <= i < q.len() implies #[trigger] q[i] != SEP by {}
    lemma_cut(p, SEP, json_text(x));
    lemma_cut(q, SEP, json_text(y));
}

/// An id that the proxy issued is never taken for a client's.
pub proof fn lemma_internal_ids_do_not_decode(id: JsonView)
    requires
        internal_id(id),
    ensures
        decoded_id(id) is None,
{
    reveal_strlit("drey/");
    let s = id.as_str()->0;
    assert(s.take(INTERNAL@.len() as int)[0] == 'd');
    if cut(s, SEP) is Some {
        s.index_of_first_ensures(SEP);
        let at = s.index_of_first(SEP)->0;
        let client = s.take(at);
        assert(client[0] == 'd');
        lemma_digits_begin_with_a_digit(client);
    }
}

proof fn lemma_digits_begin_with_a_digit(s: Seq<char>)
    requires
        s.len() > 0,
        s[0] == 'd',
    ensures
        crate::strings::digits_value(s) is None,
    decreases s.len(),
{
    if s.len() > 1 {
        lemma_digits_begin_with_a_digit(s.drop_last());
    }
}

/// A client's id is never taken for one that the proxy issued.
pub proof fn lemma_encoded_ids_are_not_internal(client: u64, original: JsonView)
    ensures
        !internal_id(encoded_id(client, original)),
{
    reveal_strlit("drey/");
    lemma_decimal_round_trips(client as nat, u64::MAX as nat);
    let t = decimal_text(client as nat);
    let s = t.push(SEP) + json_text(original);
    assert(s[0] == t[0]);
    if begins_with(s, INTERNAL@) {
        assert(s.take(INTERNAL@.len() as int)[0] == 'd');
    }
}

// ---- building messages --------------------------------------------------

/// What every message starts from.
pub open spec fn jsonrpc() -> JsonView {
    empty_object().with("jsonrpc"@, JsonView::Str("2.0"@))
}

pub open spec fn response_json(id: JsonView, result: JsonView) -> JsonView {
    jsonrpc().with("id"@, id).with("result"@, result)
}

pub open spec fn error_response_json(id: JsonView, code: int, message: Seq<char>) -> JsonView {
    jsonrpc().with("id"@, id).with(
        "error"@,
        empty_object().with("code"@, int_json(code)).with("message"@, JsonView::Str(message)),
    )
}

pub open spec fn request_json(id: JsonView, method: Seq<char>, params: JsonView) -> JsonView {
    jsonrpc().with("id"@, id).with("method"@, JsonView::Str(method)).with("params"@, params)
}

pub open spec fn notification_json(method: Seq<char>, params: JsonView) -> JsonView {
    jsonrpc().with("method"@, JsonView::Str(method)).with("params"@, params)
}

pub fn response(id: Json, result: Json) -> (r: Json)
    ensures
        r@ == response_json(id@, result@),
{
    Json::object().with("jsonrpc", Json::string("2.0")).with("id", id).with("result", result)
}

pub fn error_response(id: Json, code: i64, message: &str) -> (r: Json)
    ensures
        r@ == error_response_json(id@, code as int, message@),
{
    let error = Json::object().with("code", Json::signed(code)).with(
        "message",
        Json::string(message),
    );
    Json::object().with("jsonrpc", Json::string("2.0")).with("id", id).with("error", error)
}

pub fn request(id: Json, method: &str, params: Json) -> (r: Json)
    ensures
        r@ == request_json(id@, method@, params@),
{
    Json::object().with("jsonrpc", Json::string("2.0")).with("id", id).with(
        "method",
        Json::string(method),
    ).with("params", params)
}

pub fn notification(method: &str, params: Json) -> (r: Json)
    ensures
        r@ == notification_json(method@, params@),
{
    Json::object().with("jsonrpc", Json::string("2.0")).with("method", Json::string(method)).with(
        "params",
        params,
    )
}

/// The message as it goes on the wire. Reading it gives `v` back, for every
/// message that holds no fraction and nests no deeper than can be read.
pub fn encode(v: &Json) -> (b: Vec<u8>)
    ensures
        b@ == encode_utf8(json_text(v@)),
        v@.plain(MAX_DEPTH as nat) ==> json_read(b@) == Some(v@),
{
    v.bytes()
}

/// The names of a message's members are all different.
pub proof fn lemma_names_differ()
    ensures
        "id"@ != "method"@,
        "id"@ != "jsonrpc"@,
        "id"@ != "params"@,
        "id"@ != "result"@,
        "id"@ != "error"@,
        "method"@ != "jsonrpc"@,
        "method"@ != "params"@,
        "method"@ != "result"@,
        "method"@ != "error"@,
        "jsonrpc"@ != "params"@,
        "jsonrpc"@ != "result"@,
        "jsonrpc"@ != "error"@,
        "result"@ != "error"@,
        "result"@ != "params"@,
{
    reveal_strlit("id");
    reveal_strlit("method");
    reveal_strlit("jsonrpc");
    reveal_strlit("params");
    reveal_strlit("result");
    reveal_strlit("error");
    assert("id"@.len() == 2 && "jsonrpc"@.len() == 7 && "error"@.len() == 5);
    assert("method"@[0] == 'm' && "params"@[0] == 'p' && "result"@[0] == 'r');
}

/// Requests, responses and notifications are told apart, and each is what it was
/// built as: a request keeps its id and method, a response its id and result, an
/// error its id and no result, a notification its method and no id.
pub proof fn lemma_message_shapes(
    id: JsonView,
    method: Seq<char>,
    params: JsonView,
    result: JsonView,
    code: int,
    message: Seq<char>,
)
    ensures
        ({
            let r = request_json(id, method, params);
            &&& request_shaped(r) && !response_shaped(r)
            &&& r.field("id"@) == id && method_of(r) == method && r.field("params"@) == params
            &&& r.field("jsonrpc"@) == JsonView::Str("2.0"@)
        }),
        ({
            let r = response_json(id, result);
            &&& response_shaped(r) && !request_shaped(r)
            &&& r.field("id"@) == id && r.get("result"@) == Some(result)
            &&& r.get("error"@) is None
            &&& r.field("jsonrpc"@) == JsonView::Str("2.0"@)
        }),
        ({
            let r = error_response_json(id, code, message);
            &&& response_shaped(r) && !request_shaped(r)
            &&& r.field("id"@) == id && r.get("result"@) is None
            &&& r.field("error"@).field("code"@) == int_json(code)
            &&& r.field("error"@).field("message"@) == JsonView::Str(message)
            &&& r.field("jsonrpc"@) == JsonView::Str("2.0"@)
        }),
        ({
            let r = notification_json(method, params);
            &&& !request_shaped(r) && !response_shaped(r)
            &&& r.get("id"@) is None
            &&& method_of(r) == method && r.field("params"@) == params
            &&& r.field("jsonrpc"@) == JsonView::Str("2.0"@)
        }),
{
    lemma_names_differ();
    reveal_strlit("code");
    reveal_strlit("message");
    assert("code"@.len() != "message"@.len());
}

/// Every message is one of three kinds or none, by whether it carries an id and a method: a
/// request has both, an answer an id alone, a notification a method alone.
pub proof fn lemma_kinds(v: JsonView)
    ensures
        request_shaped(v) <==> v.get("id"@) is Some && v.get("method"@) is Some,
        response_shaped(v) <==> v.get("id"@) is Some && v.get("method"@) is None,
        v.field("method"@) is Str ==> method_of(v) == v.field("method"@)->Str_0,
        !(v.field("method"@) is Str) ==> method_of(v).len() == 0,
{
}

} // verus!
