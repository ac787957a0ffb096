use diffo::json::{
    copy_json, document_bytes, find_field, get_field, parse_json, set_field, Field, Json, MAX_NESTING,
};

fn text(json: Option<&Json>) -> Option<&str> {
    match json {
        Some(Json::Text(s)) => Some(s),
        _ => None,
    }
}

#[test]
fn a_field_that_was_set_is_found_and_the_others_stay() {
    let mut fields = vec![
        Field { name: "a".into(), value: Json::Text("one".into()) },
        Field { name: "b".into(), value: Json::Bool(true) },
    ];
    set_field(&mut fields, "b", Json::Text("two".into()));
    set_field(&mut fields, "c", Json::Text("three".into()));
    assert_eq!(text(find_field(&fields, "a")), Some("one"));
    assert_eq!(text(find_field(&fields, "b")), Some("two"));
    assert_eq!(text(find_field(&fields, "c")), Some("three"));
    assert!(find_field(&fields, "d").is_none());
    let names: Vec<&str> = fields.iter().map(|f| f.name.as_str()).collect();
    assert_eq!(names, ["a", "b", "c"]);
    assert!(get_field(&Json::Null, "a").is_none());
}

#[test]
fn documents_keep_their_order_and_every_kind_of_value() {
    let source = "{\"z\": [null, true, -3, 18446744073709551615, 1.5, \"文\"], \"a\": {}}";
    let json = parse_json(source.as_bytes()).unwrap();
    let bytes = document_bytes(&copy_json(&json)).unwrap();
    let written = String::from_utf8(bytes).unwrap();
    assert_eq!(
        written,
        "{\n  \"z\": [\n    null,\n    true,\n    -3,\n    18446744073709551615,\n    1.5,\n    \"文\"\n  ],\n  \"a\": {}\n}\n"
    );
    assert!(parse_json(b"{\"a\":}").is_none());
    assert!(parse_json(b"\xff").is_none());
}

#[test]
fn values_read_back_as_deep_as_texts_may_nest() {
    let nested = |depth: usize| {
        let mut json = Json::Text("\u{0}\u{1b}\"\\\u{2028}😀".into());
        for level in 0..depth {
            json = if level % 2 == 0 {
                Json::List(vec![json, Json::Signed(i64::MIN), Json::Unsigned(u64::MAX)])
            } else {
                Json::Object(vec![
                    Field { name: "b".into(), value: json },
                    Field { name: "a".into(), value: Json::Null },
                ])
            };
        }
        json
    };
    let written = document_bytes(&nested(MAX_NESTING)).unwrap();
    let read = parse_json(&written).unwrap();
    assert_eq!(format!("{read:?}"), format!("{:?}", nested(MAX_NESTING)));
    let deeper = document_bytes(&nested(MAX_NESTING + 1)).unwrap();
    assert!(parse_json(&deeper).is_none());
}
