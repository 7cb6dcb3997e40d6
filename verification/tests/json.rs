use drey::json::Json;

#[test]
fn values_are_written_compactly_and_read_back() {
    let text = "{\"a\":[1,-2,true,null,\"x\\n\"],\"b\":{}}";
    let v = Json::parse_text(text).unwrap();
    assert_eq!(v.text(), text);
    assert_eq!(v.bytes(), text.as_bytes());
    assert_eq!(v.duplicate().text(), text);
    assert_eq!(v.clone().text(), text);
}

#[test]
fn what_is_no_document_is_not_read() {
    assert!(Json::parse_text("{").is_none());
    assert!(Json::parse(b"\"\xff\"").is_none());
    assert!(Json::parse_text("1 2").is_none());
}

#[test]
fn the_nesting_that_can_be_read_is_limited() {
    let nest = |n: usize| format!("{}{}", "[".repeat(n), "]".repeat(n));
    assert_eq!(Json::parse_text(&nest(127)).unwrap().text(), nest(127));
    assert!(Json::parse_text(&nest(128)).is_none());
}

#[test]
fn numbers_are_integers_where_they_fit() {
    assert_eq!(Json::parse_text("7").unwrap().as_u64(), Some(7));
    assert_eq!(Json::parse_text("7").unwrap().as_i64(), Some(7));
    assert_eq!(Json::parse_text("-7").unwrap().as_u64(), None);
    assert_eq!(Json::parse_text("-7").unwrap().as_i64(), Some(-7));
    assert_eq!(Json::parse_text("7.0").unwrap().as_u64(), None);
    assert_eq!(Json::parse_text("7.5").unwrap().text(), "7.5");
    assert_eq!(Json::unsigned(u64::MAX).as_i64(), None);
    assert_eq!(Json::unsigned(u64::MAX).as_u64(), Some(u64::MAX));
    assert_eq!(Json::signed(i64::MIN).text(), "-9223372036854775808");
    assert_eq!(Json::signed(-1).duplicate().as_i64(), Some(-1));
}

#[test]
fn the_member_put_last_counts() {
    let mut v = Json::object().with("k", Json::signed(1)).with("l", Json::Null);
    v.set("k", Json::string("two"));
    assert_eq!(v.field("k").as_str(), Some("two"));
    assert_eq!(v.text(), "{\"k\":\"two\",\"l\":null}");
    let twice = Json::Object(vec![
        ("k".to_string(), Json::signed(1)),
        ("k".to_string(), Json::signed(2)),
    ]);
    assert_eq!(twice.get("k").unwrap().as_u64(), Some(2));
    assert_eq!(twice.text(), "{\"k\":2}");
}

#[test]
fn members_are_only_found_in_objects() {
    assert!(Json::Null.get("k").is_none());
    assert!(Json::Array(vec![Json::Null]).get("0").is_none());
    assert!(Json::object().field("k").is_null());
    assert_eq!(Json::parse_text("[1,2]").unwrap().as_array().unwrap().len(), 2);
    assert!(Json::string("x").as_array().is_none());
}
