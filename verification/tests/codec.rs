use clip_history::codec::decode;
use clip_history::codec::encode;

#[test]
fn encode_empty_is_bare_brackets() {
    assert_eq!(encode(&Vec::new()), "[]");
}

#[test]
fn encode_exact_format() {
    let entries = vec!["a".to_string(), "b".to_string()];
    assert_eq!(encode(&entries), "[\"a\",\"b\"]");
}

#[test]
fn encode_escapes_quotes_and_backslashes() {
    let entries = vec!["say \"hi\"".to_string(), "C:\\tmp".to_string()];
    assert_eq!(encode(&entries), "[\"say \\\"hi\\\"\",\"C:\\\\tmp\"]");
}

#[test]
fn round_trip_empty() {
    assert_eq!(decode(&encode(&Vec::new())), Vec::<String>::new());
}

#[test]
fn round_trip_plain_entries() {
    let entries = vec!["newest".to_string(), "older".to_string(), "oldest".to_string()];
    assert_eq!(decode(&encode(&entries)), entries);
}

#[test]
fn round_trip_empty_string_entry() {
    let entries = vec!["".to_string(), "x".to_string(), "".to_string()];
    assert_eq!(decode(&encode(&entries)), entries);
}

#[test]
fn round_trip_multibyte_entries() {
    let entries = vec![
        "espa\u{00f1}ol".to_string(),
        "\u{65e5}\u{672c}\u{8a9e}".to_string(),
        "snow \u{2603} and \u{1f4cb}".to_string(),
    ];
    assert_eq!(decode(&encode(&entries)), entries);
}

#[test]
fn round_trip_escapes() {
    let entries = vec![
        "a \"quoted\" word".to_string(),
        "back\\slash".to_string(),
        "\\\"".to_string(),
    ];
    assert_eq!(decode(&encode(&entries)), entries);
}

#[test]
fn decode_missing_or_empty_text_is_empty_history() {
    assert_eq!(decode(""), Vec::<String>::new());
}

#[test]
fn decode_malformed_is_empty_history() {
    assert_eq!(decode("garbage"), Vec::<String>::new());
    assert_eq!(decode("["), Vec::<String>::new());
    assert_eq!(decode("[\"a\""), Vec::<String>::new());
    assert_eq!(decode("[\"a\",]"), Vec::<String>::new());
    assert_eq!(decode("[\"a\"]extra"), Vec::<String>::new());
    assert_eq!(decode("{\"a\":1}"), Vec::<String>::new());
    assert_eq!(decode("[,]"), Vec::<String>::new());
    assert_eq!(decode("[]]"), Vec::<String>::new());
}

#[test]
fn decode_accepts_only_whole_text() {
    assert_eq!(decode(" []"), Vec::<String>::new());
    assert_eq!(decode("[] "), Vec::<String>::new());
}
