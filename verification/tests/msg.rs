use drey::json::Json;
use drey::msg::{
    decode_id, encode, encode_id, error_response, is_internal_id, is_request, is_response, method,
    notification, request, response, tag_id, untag_id, INTERNAL,
};

fn json(text: &str) -> Json {
    Json::parse_text(text).unwrap()
}

fn decoded(id: &Json) -> Option<(u64, String)> {
    decode_id(id).map(|(client, id)| (client, id.text()))
}

#[test]
fn id_round_trips_for_every_json_rpc_id_shape() {
    for original in ["1", "0", "\"abc\"", "\"has spaces\""] {
        let encoded = encode_id(42, &json(original));
        assert_eq!(decoded(&encoded), Some((42, original.to_string())));
    }
}

#[test]
fn decode_rejects_foreign_ids() {
    assert_eq!(decoded(&json("7")), None);
    assert_eq!(decoded(&json("\"drey/internal/3\"")), None);
}

#[test]
fn internal_ids_are_recognised() {
    assert!(is_internal_id(&json("\"drey/initialize\"")));
    assert!(!is_internal_id(&encode_id(1, &json("2"))));
}

#[test]
fn message_shapes_are_distinguished() {
    let req = request(json("1"), "m", Json::object());
    let resp = response(json("1"), Json::Null);
    let note = notification("m", Json::object());
    assert!(is_request(&req) && !is_response(&req));
    assert!(is_response(&resp) && !is_request(&resp));
    assert!(!is_request(&note) && !is_response(&note));
}

#[test]
fn ids_from_different_clients_never_collide() {
    assert_ne!(encode_id(1, &json("1")).text(), encode_id(2, &json("1")).text());
    // The separator is a control character, so a client id embedded in a string id cannot
    // forge another client's namespace.
    let id = Json::string("2\u{1}3");
    let sneaky = encode_id(1, &id);
    assert_eq!(decoded(&sneaky), Some((1, id.text())));
}

#[test]
fn decoding_recovers_the_id_type_not_just_its_text() {
    let numeric = decode_id(&encode_id(3, &json("7"))).unwrap().1;
    assert!(matches!(numeric, Json::Number(_)));
    let textual = decode_id(&encode_id(3, &json("\"7\""))).unwrap().1;
    assert!(matches!(textual, Json::Str(_)));
}

#[test]
fn decode_rejects_a_non_numeric_client_prefix() {
    assert_eq!(decoded(&Json::string("abc\u{1}1")), None);
    assert_eq!(decoded(&Json::string("\u{1}1")), None);
    assert_eq!(decoded(&Json::string("1\u{1}not json")), None);
    assert_eq!(decoded(&Json::Null), None);
}

#[test]
fn null_ids_round_trip_since_clients_may_send_them() {
    assert_eq!(decoded(&encode_id(5, &Json::Null)), Some((5, "null".to_string())));
}

#[test]
fn method_is_empty_for_messages_that_have_none() {
    assert_eq!(method(&json("{ \"id\": 1, \"result\": null }")), "");
    assert_eq!(method(&json("{ \"method\": 42 }")), "");
    assert_eq!(method(&notification("x/y", Json::object())), "x/y");
}

#[test]
fn a_notification_carries_no_id() {
    assert!(notification("m", Json::object()).get("id").is_none());
}

#[test]
fn an_error_response_carries_no_result() {
    let e = error_response(json("1"), -32603, "boom");
    assert_eq!(e.field("error").field("code").as_i64(), Some(-32603));
    assert_eq!(e.field("error").field("message").as_str(), Some("boom"));
    assert!(e.get("result").is_none());
    // An error is still a response as far as routing is concerned.
    assert!(is_response(&e));
}

#[test]
fn a_response_with_a_null_result_is_still_a_response() {
    let r = response(json("1"), Json::Null);
    assert!(is_response(&r) && !is_request(&r));
    assert!(r.get("result").is_some());
}

#[test]
fn every_message_declares_jsonrpc_two() {
    for v in [
        request(json("1"), "m", Json::object()),
        response(json("1"), json("1")),
        error_response(json("1"), 1, "e"),
        notification("m", Json::object()),
    ] {
        assert_eq!(v.field("jsonrpc").as_str(), Some("2.0"));
    }
}

#[test]
fn internal_ids_are_not_mistaken_for_client_ids() {
    let internal = Json::string(&format!("{INTERNAL}initialize"));
    assert!(is_internal_id(&internal));
    assert_eq!(decoded(&internal), None);
    assert!(!is_internal_id(&json("1")));
    assert!(!is_internal_id(&json("\"drey\"")));
}

#[test]
fn encode_produces_parseable_json() {
    let v = request(json("\"a\""), "m", json("{ \"k\": [1, 2] }"));
    assert_eq!(Json::parse(&encode(&v)).unwrap().text(), v.text());
    assert_eq!(
        encode(&v),
        b"{\"id\":\"a\",\"jsonrpc\":\"2.0\",\"method\":\"m\",\"params\":{\"k\":[1,2]}}".to_vec()
    );
}

#[test]
fn numeric_ids_round_trip_for_any_client() {
    for client in [0, 1, 9, 10, 4_294_967_296, u64::MAX] {
        for id in [0, -1, 7, i64::MIN, i64::MAX] {
            let original = Json::signed(id);
            assert_eq!(
                decoded(&encode_id(client, &original)),
                Some((client, id.to_string()))
            );
        }
    }
}

#[test]
fn string_ids_round_trip_whatever_they_contain() {
    for id in ["", "\"", "\\", "\u{0}", "\u{1}", "a\nb", "é🦀", "null", "12\u{1}3"] {
        let original = Json::string(id);
        let (client, back) = decode_id(&encode_id(6, &original)).unwrap();
        assert_eq!(client, 6);
        assert_eq!(back.as_str(), Some(id));
    }
}

#[test]
fn a_tag_is_the_client_a_control_character_and_the_id() {
    assert_eq!(tag_id(12, "\"x\"").as_str(), Some("12\u{1}\"x\""));
    assert_eq!(untag_id(&Json::string("12\u{1}\"x\"")), Some((12, "\"x\"".to_string())));
    assert_eq!(untag_id(&Json::string("+12\u{1}")), Some((12, String::new())));
    assert_eq!(untag_id(&Json::string("12")), None);
    assert_eq!(untag_id(&Json::string("18446744073709551616\u{1}1")), None);
    assert_eq!(untag_id(&Json::signed(12)), None);
}
