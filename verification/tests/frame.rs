use geeks_event_sourcing::{decode_body, encode_body, Decoded, Frame};

fn frame(aggregate_id: &str, version: u64, payload: &str) -> Frame {
    Frame {
        aggregate_id: aggregate_id.to_string(),
        version,
        payload: payload.to_string(),
    }
}

fn corrupt(aggregate_id: &str) -> Decoded {
    Decoded::Corrupt { aggregate_id: aggregate_id.to_string() }
}

#[test]
fn body_holds_identifier_version_and_data() {
    assert_eq!(
        encode_body("todo1", 1, "{\"TodoTitleUpdated\":{\"title\":\"Eat pizza\"}}"),
        "{\"aggregate_id\":\"todo1\",\"version\":1,\"event\":{\"TodoTitleUpdated\":{\"title\":\"Eat pizza\"}}}"
    );
    assert_eq!(encode_body("", 0, ""), "{\"aggregate_id\":\"\",\"version\":0,\"event\":}");
    assert_eq!(
        encode_body("a", 18446744073709551615, "null"),
        "{\"aggregate_id\":\"a\",\"version\":18446744073709551615,\"event\":null}"
    );
    assert_eq!(encode_body("a", 10, "1"), "{\"aggregate_id\":\"a\",\"version\":10,\"event\":1}");
    assert_eq!(encode_body("a", 907, "1"), "{\"aggregate_id\":\"a\",\"version\":907,\"event\":1}");
}

#[test]
fn identifier_is_escaped() {
    assert_eq!(
        encode_body("a\"b\\c", 2, "0"),
        "{\"aggregate_id\":\"a\\\"b\\\\c\",\"version\":2,\"event\":0}"
    );
    assert_eq!(
        encode_body("\u{8}\t\n\u{c}\r", 2, "0"),
        "{\"aggregate_id\":\"\\b\\t\\n\\f\\r\",\"version\":2,\"event\":0}"
    );
    assert_eq!(
        encode_body("\u{0}\u{1}\u{b}\u{e}\u{1f}", 2, "0"),
        "{\"aggregate_id\":\"\\u0000\\u0001\\u000b\\u000e\\u001f\",\"version\":2,\"event\":0}"
    );
    assert_eq!(
        encode_body("é ✓ \u{7f} /", 2, "0"),
        "{\"aggregate_id\":\"é ✓ \u{7f} /\",\"version\":2,\"event\":0}"
    );
}

#[test]
fn body_is_what_the_json_codec_writes_for_the_same_fields() {
    for id in ["todo1", "a\"b\\c", "\u{0}\u{1}\u{8}\t\n\u{b}\u{c}\r\u{1f} é✓\u{7f}", ""] {
        for version in [0u64, 1, 9, 10, 123456789, u64::MAX] {
            let payload = "{\"k\":[1,2,{\"x\":\"}\"}]}";
            let expected = format!(
                "{{\"aggregate_id\":{},\"version\":{},\"event\":{}}}",
                serde_json::to_string(id).unwrap(),
                serde_json::to_string(&version).unwrap(),
                payload
            );
            let body = encode_body(id, version, payload);
            assert_eq!(body, expected);

            let value: serde_json::Value = serde_json::from_str(&body).unwrap();
            assert_eq!(value["aggregate_id"].as_str(), Some(id));
            assert_eq!(value["version"].as_u64(), Some(version));
        }
    }
}

#[test]
fn body_reads_back_as_it_was_written() {
    let ids = ["todo1", "", "a\"b\\c", "\"", "\\", "\\\"", "\u{0}\u{1f}\n\r\t\u{8}\u{c}", "é✓", "u0041"];
    let payloads = ["{}", "", "}", "}}", "\"", "{\"a\":\"}\"}", ",\"event\":", "\n", "é"];
    for id in ids {
        for version in [0u64, 1, 10, 99, 100, u64::MAX] {
            for payload in payloads {
                let body = encode_body(id, version, payload);
                assert_eq!(decode_body(&body), Decoded::Event(frame(id, version, payload)));
            }
        }
    }
}

#[test]
fn body_that_does_not_begin_as_a_frame_is_no_event() {
    for body in [
        "",
        "{}",
        "[snapshot]",
        "fix typo",
        "{\"aggregate_id\":",
        "{\"aggregate_id\":\"todo1",
        " {\"aggregate_id\":\"todo1\",\"version\":1,\"event\":{}}",
        "{\"aggregate_id\": \"todo1\",\"version\":1,\"event\":{}}",
        "{\"version\":1,\"aggregate_id\":\"todo1\",\"event\":{}}",
        "{\"aggregate_id\":\"a\\",
        "{\"aggregate_id\":\"a\\x\",\"version\":1,\"event\":{}}",
        "{\"aggregate_id\":\"a\\/b\",\"version\":1,\"event\":{}}",
        "{\"aggregate_id\":\"\\u0041\",\"version\":1,\"event\":{}}",
        "{\"aggregate_id\":\"\\u000A\",\"version\":1,\"event\":{}}",
        "{\"aggregate_id\":\"\\u000a\",\"version\":1,\"event\":{}}",
        "{\"aggregate_id\":\"\\u00\",\"version\":1,\"event\":{}}",
        "{\"aggregate_id\":\"a\nb\",\"version\":1,\"event\":{}}",
    ] {
        assert_eq!(decode_body(body), Decoded::NotAnEvent, "{:?}", body);
    }
}

#[test]
fn body_that_begins_as_a_frame_and_goes_on_as_none_is_corrupt() {
    for rest in [
        "",
        "}",
        ",",
        ",\"version\":",
        ",\"version\":}",
        ",\"version\":1",
        ",\"version\":1}",
        ",\"version\":1,\"event\":",
        ",\"version\":01,\"event\":{}}",
        ",\"version\":00,\"event\":{}}",
        ",\"version\":-1,\"event\":{}}",
        ",\"version\":+1,\"event\":{}}",
        ",\"version\":1.0,\"event\":{}}",
        ",\"version\": 1,\"event\":{}}",
        ",\"version\":\"1\",\"event\":{}}",
        ",\"version\":18446744073709551616,\"event\":{}}",
        ",\"version\":99999999999999999999999999,\"event\":{}}",
        ",\"version\":1,\"event\":{}} ",
        ",\"version\":1,\"event\":{}}\n",
        ",\"event\":{},\"version\":1}",
        ",\"version\":1,\"payload\":{}}",
    ] {
        let body = format!("{{\"aggregate_id\":\"todo\\\"1\"{}", rest);
        assert_eq!(decode_body(&body), corrupt("todo\"1"), "{:?}", body);
    }
}

#[test]
fn data_is_not_looked_into() {
    assert_eq!(
        decode_body("{\"aggregate_id\":\"a\",\"version\":1,\"event\":{}"),
        Decoded::Event(frame("a", 1, "{"))
    );
    assert_eq!(
        decode_body("{\"aggregate_id\":\"a\",\"version\":1,\"event\":}"),
        Decoded::Event(frame("a", 1, ""))
    );
    assert_eq!(
        decode_body("{\"aggregate_id\":\"a\",\"version\":1,\"event\":not json}"),
        Decoded::Event(frame("a", 1, "not json"))
    );
}

#[test]
fn largest_version_is_read_and_the_next_number_is_not() {
    assert_eq!(
        decode_body("{\"aggregate_id\":\"a\",\"version\":18446744073709551615,\"event\":1}"),
        Decoded::Event(frame("a", u64::MAX, "1"))
    );
    assert_eq!(
        decode_body("{\"aggregate_id\":\"a\",\"version\":18446744073709551616,\"event\":1}"),
        corrupt("a")
    );
    assert_eq!(
        decode_body("{\"aggregate_id\":\"a\",\"version\":0,\"event\":1}"),
        Decoded::Event(frame("a", 0, "1"))
    );
}
