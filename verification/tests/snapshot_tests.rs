use swarmhive::digest::{hash, parse_hex};
use swarmhive::json::{
    canonical_json, canonical_value, is_well_formed, payload_hash, quoted, Json,
};
use swarmhive::snapshot::{
    check_payload_hash, envelope_hash, envelope_text, Envelope, Signing, SnapshotError,
};

fn text(s: &str) -> Json {
    Json::Text(s.to_string())
}

fn object(members: Vec<(&str, Json)>) -> Json {
    Json::Object(members.into_iter().map(|(k, v)| (k.to_string(), v)).collect())
}

fn numbers(ns: &[u64]) -> Json {
    Json::Array(ns.iter().map(|n| Json::Number(*n)).collect())
}

fn bare(kind: &str, id: &str, ts: u64) -> Envelope {
    Envelope {
        kind: kind.to_string(),
        version: String::new(),
        id: id.to_string(),
        ts,
        issuer: String::new(),
        pool: String::new(),
        body: object(vec![]),
        signing: None,
    }
}

fn claim_envelope(signature: Option<&str>) -> Envelope {
    Envelope {
        kind: "CLAIM".to_string(),
        version: "bee-23@1.0".to_string(),
        id: "claim-job-42-1000".to_string(),
        ts: 1000,
        issuer: "m1.eth".to_string(),
        pool: "swarmpool.eth".to_string(),
        body: object(vec![("job_id", text("job-42"))]),
        signing: Some(Signing {
            scheme: "eip191".to_string(),
            did: "ens:m1.eth".to_string(),
            payload_hash: String::new(),
            signature: signature.map(|s| s.to_string()),
        }),
    }
}

#[test]
fn test_payload_hash() {
    let snapshot = object(vec![
        ("type", text("TEST")),
        ("id", text("test-001")),
        ("ts", Json::Number(1735689600)),
    ]);
    let hash = payload_hash(&snapshot).unwrap();
    assert!(hash.starts_with("keccak256:"));
    assert_eq!(hash.len(), 10 + 64);
    assert_eq!(
        canonical_json(&snapshot).unwrap(),
        "{\"id\":\"test-001\",\"ts\":1735689600,\"type\":\"TEST\"}"
    );
}

#[test]
fn test_canonical_removes_signature() {
    let snapshot = object(vec![
        ("type", text("TEST")),
        (
            "signing",
            object(vec![
                ("scheme", text("eip191")),
                ("did", text("ens:test.eth")),
                ("payload_hash", text("keccak256:abc")),
                ("signature", text("eip191:0x123")),
            ]),
        ),
    ]);
    let canonical = canonical_json(&snapshot).unwrap();
    assert!(!canonical.contains("\"signature\""));
    assert!(canonical.contains("\"scheme\""));
    assert_eq!(
        canonical,
        "{\"signing\":{\"did\":\"ens:test.eth\",\"payload_hash\":\"keccak256:abc\",\"scheme\":\"eip191\"},\"type\":\"TEST\"}"
    );
}

#[test]
fn only_the_signature_of_the_signing_block_is_dropped() {
    let snapshot = object(vec![
        ("signing", object(vec![("signature", text("drop"))])),
        ("body", object(vec![("signature", text("keep"))])),
    ]);
    assert_eq!(
        canonical_json(&snapshot).unwrap(),
        "{\"body\":{\"signature\":\"keep\"},\"signing\":{}}"
    );
    let not_a_block = object(vec![("signing", text("signature"))]);
    assert_eq!(canonical_json(&not_a_block).unwrap(), "{\"signing\":\"signature\"}");
}

#[test]
fn arrays_keep_their_order_and_nested_keys_are_sorted() {
    let snapshot = object(vec![
        ("b", numbers(&[3, 1, 2])),
        (
            "a",
            Json::Array(vec![object(vec![("y", Json::Number(1)), ("x", Json::Number(2))])]),
        ),
    ]);
    assert_eq!(canonical_json(&snapshot).unwrap(), "{\"a\":[{\"x\":2,\"y\":1}],\"b\":[3,1,2]}");
}

#[test]
fn no_white_space_outside_strings() {
    let snapshot = object(vec![("k", text("a b")), ("n", numbers(&[1, 2]))]);
    assert_eq!(canonical_json(&snapshot).unwrap(), "{\"k\":\"a b\",\"n\":[1,2]}");
}

#[test]
fn keys_are_ordered_character_by_character() {
    let snapshot = object(vec![
        ("a", Json::Number(1)),
        ("B", Json::Number(2)),
        ("aa", Json::Number(3)),
        ("_", Json::Number(4)),
    ]);
    assert_eq!(canonical_json(&snapshot).unwrap(), "{\"B\":2,\"_\":4,\"a\":1,\"aa\":3}");
}

#[test]
fn key_order_does_not_change_text_or_hash() {
    let inner = |flip: bool| {
        let mut m = vec![("x", Json::Bool(true)), ("y", Json::Null), ("z", numbers(&[1]))];
        if flip {
            m.reverse();
        }
        object(m)
    };
    let s1 = object(vec![
        ("type", text("CLAIM")),
        ("body", inner(false)),
        ("signing", object(vec![("did", text("d")), ("signature", text("one"))])),
    ]);
    let s2 = object(vec![
        ("signing", object(vec![("signature", text("two")), ("did", text("d"))])),
        ("body", inner(true)),
        ("type", text("CLAIM")),
    ]);
    assert_eq!(canonical_json(&s1).unwrap(), canonical_json(&s2).unwrap());
    assert_eq!(
        canonical_json(&s1).unwrap(),
        "{\"body\":{\"x\":true,\"y\":null,\"z\":[1]},\"signing\":{\"did\":\"d\"},\"type\":\"CLAIM\"}"
    );
    assert_eq!(payload_hash(&s1).unwrap(), payload_hash(&s2).unwrap());
}

#[test]
fn a_key_twice_is_malformed() {
    let twice = object(vec![("a", Json::Null), ("a", Json::Null)]);
    assert!(!is_well_formed(&twice));
    assert_eq!(canonical_json(&twice), Err(SnapshotError::MalformedSnapshot));
    assert_eq!(payload_hash(&twice), Err(SnapshotError::MalformedSnapshot));
    let deep = object(vec![("a", Json::Array(vec![object(vec![("k", Json::Null), ("k", Json::Null)])]))]);
    assert_eq!(canonical_json(&deep), Err(SnapshotError::MalformedSnapshot));
    let in_signature = object(vec![(
        "signing",
        object(vec![("signature", text("a")), ("signature", text("b"))]),
    )]);
    assert_eq!(canonical_json(&in_signature), Err(SnapshotError::MalformedSnapshot));
    assert_eq!(canonical_value(&twice), "{\"a\":null,\"a\":null}");
}

#[test]
fn values_that_are_no_objects() {
    assert_eq!(canonical_json(&Json::Null).unwrap(), "null");
    assert_eq!(canonical_json(&Json::Bool(false)).unwrap(), "false");
    assert_eq!(canonical_json(&Json::Number(0)).unwrap(), "0");
    assert_eq!(canonical_json(&text("a\"b")).unwrap(), "\"a\\\"b\"");
    assert_eq!(canonical_json(&Json::Array(vec![])).unwrap(), "[]");
    assert_eq!(canonical_json(&object(vec![])).unwrap(), "{}");
}

#[test]
fn envelope_text_is_the_canonical_text_of_the_snapshot() {
    let envelope = claim_envelope(Some("eip191:0xabc"));
    let snapshot = object(vec![
        ("version", text("bee-23@1.0")),
        ("type", text("CLAIM")),
        ("ts", Json::Number(1000)),
        ("pool", text("swarmpool.eth")),
        ("issuer", text("m1.eth")),
        ("id", text("claim-job-42-1000")),
        ("body", object(vec![("job_id", text("job-42"))])),
        (
            "signing",
            object(vec![
                ("signature", text("eip191:0xabc")),
                ("scheme", text("eip191")),
                ("payload_hash", text("")),
                ("did", text("ens:m1.eth")),
            ]),
        ),
    ]);
    assert_eq!(envelope_text(&envelope).unwrap(), canonical_json(&snapshot).unwrap());
    assert_eq!(envelope_hash(&envelope).unwrap(), payload_hash(&snapshot).unwrap());
}

#[test]
fn canonical_form_is_exact() {
    let canonical = envelope_text(&claim_envelope(Some("eip191:0xabc"))).unwrap();
    assert_eq!(
        canonical,
        "{\"body\":{\"job_id\":\"job-42\"},\"id\":\"claim-job-42-1000\",\"issuer\":\"m1.eth\",\"pool\":\"swarmpool.eth\",\"signing\":{\"did\":\"ens:m1.eth\",\"payload_hash\":\"\",\"scheme\":\"eip191\"},\"ts\":1000,\"type\":\"CLAIM\",\"version\":\"bee-23@1.0\"}"
    );
}

#[test]
fn canonical_form_without_signing_block() {
    let canonical = envelope_text(&bare("TEST", "test-001", 1735689600)).unwrap();
    assert_eq!(
        canonical,
        "{\"body\":{},\"id\":\"test-001\",\"issuer\":\"\",\"pool\":\"\",\"ts\":1735689600,\"type\":\"TEST\",\"version\":\"\"}"
    );
}

#[test]
fn canonical_form_escapes_strings() {
    let canonical = envelope_text(&bare("T", "a\"b\\c\n", 7)).unwrap();
    assert!(canonical.contains("\"id\":\"a\\\"b\\\\c\\n\""));
}

#[test]
fn canonical_form_survives_a_json_round_trip() {
    let canonical = envelope_text(&claim_envelope(None)).unwrap();
    let value: serde_json::Value = serde_json::from_str(&canonical).unwrap();
    assert_eq!(value["ts"].as_u64(), Some(1000));
    assert_eq!(value["signing"]["scheme"].as_str(), Some("eip191"));
    assert_eq!(value["body"]["job_id"].as_str(), Some("job-42"));
}

#[test]
fn signature_does_not_change_canonical_form_or_hash() {
    let unsigned = claim_envelope(None);
    let empty = claim_envelope(Some(""));
    let signed = claim_envelope(Some("eip191:0x0102"));
    assert_eq!(envelope_text(&unsigned).unwrap(), envelope_text(&signed).unwrap());
    assert_eq!(envelope_text(&empty).unwrap(), envelope_text(&signed).unwrap());
    assert_eq!(envelope_hash(&unsigned).unwrap(), envelope_hash(&signed).unwrap());
}

#[test]
fn other_fields_change_the_hash() {
    let a = bare("TEST", "test-001", 1);
    let b = bare("TEST", "test-001", 2);
    assert_ne!(envelope_hash(&a).unwrap(), envelope_hash(&b).unwrap());
}

#[test]
fn hash_of_empty_input() {
    assert_eq!(
        hash(b""),
        "keccak256:c5d2460186f7233c927e7db2dcc703c0e500b653ca82273b7bfad8045d85a470"
    );
}

#[test]
fn hash_of_short_input() {
    assert_eq!(
        hash(b"abc"),
        "keccak256:4e03657aea45a94fc7d47ba826c8d667c0d1e6e33a64a036ec44f58fa12d6c45"
    );
}

#[test]
fn hex_is_parsed_in_either_case() {
    assert_eq!(parse_hex("0aFf10"), Some(vec![10u8, 255, 16]));
    assert_eq!(parse_hex(""), Some(vec![]));
}

#[test]
fn hex_of_odd_length_or_other_characters_is_refused() {
    assert_eq!(parse_hex("abc"), None);
    assert_eq!(parse_hex("zz"), None);
    assert_eq!(parse_hex("0x12"), None);
}

#[test]
fn stored_hash_is_checked() {
    let mut envelope = claim_envelope(None);
    assert_eq!(check_payload_hash(&envelope), Err(SnapshotError::AuthenticityFailure));
    let fresh = envelope_hash(&envelope).unwrap();
    envelope.signing.as_mut().unwrap().payload_hash = fresh;
    assert_eq!(check_payload_hash(&envelope), Ok(()));
    envelope.signing.as_mut().unwrap().signature = Some("eip191:0x00".to_string());
    assert_eq!(check_payload_hash(&envelope), Ok(()));
    envelope.ts = 1001;
    assert_eq!(check_payload_hash(&envelope), Err(SnapshotError::AuthenticityFailure));
    assert_eq!(
        check_payload_hash(&bare("TEST", "x", 1)),
        Err(SnapshotError::AuthenticityFailure)
    );
}

#[test]
fn every_envelope_has_a_canonical_form() {
    let mut odd = bare("\u{0}\u{1f}", "\u{e9}\u{1}\t\u{1F600}", u64::MAX);
    odd.issuer = "\"\\\"".to_string();
    odd.signing = Some(Signing {
        scheme: String::new(),
        did: "\r\n".to_string(),
        payload_hash: "\u{7f}".to_string(),
        signature: None,
    });
    assert_eq!(
        envelope_text(&odd),
        Ok("{\"body\":{},\"id\":\"\u{e9}\\u0001\\t\u{1F600}\",\"issuer\":\"\\\"\\\\\\\"\",\"pool\":\"\",\"signing\":{\"did\":\"\\r\\n\",\"payload_hash\":\"\u{7f}\",\"scheme\":\"\"},\"ts\":18446744073709551615,\"type\":\"\\u0000\\u001f\",\"version\":\"\"}".to_string())
    );
    assert!(envelope_hash(&odd).is_ok());
    assert_eq!(check_payload_hash(&odd), Err(SnapshotError::AuthenticityFailure));
}

#[test]
fn integers_below_zero_are_written_with_a_sign() {
    let snapshot = object(vec![
        ("low", Json::Negative(9223372036854775808)),
        ("minus", Json::Negative(42)),
        ("zero", Json::Negative(0)),
    ]);
    assert_eq!(
        canonical_json(&snapshot).unwrap(),
        "{\"low\":-9223372036854775808,\"minus\":-42,\"zero\":0}"
    );
}

#[test]
fn plain_text_is_quoted_as_it_is() {
    assert_eq!(quoted("job-42 \u{e9}"), "\"job-42 \u{e9}\"");
    assert_eq!(quoted(""), "\"\"");
    assert_eq!(quoted("a\"b"), "\"a\\\"b\"");
}
