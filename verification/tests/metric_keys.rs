use prometheus_client_php_mmap::metric_key::{encode_labels, escape_label_value, StoredMetricKey};

#[test]
fn encode_labels_sorts_and_escapes() {
    let labels = encode_labels(&[("b", "2"), ("a", "1\n\"x")]);
    assert_eq!(labels, r#"{a="1\n\"x",b="2"}"#);
}

#[test]
fn no_labels_encode_to_nothing() {
    assert_eq!(encode_labels(&[]), "");
}

#[test]
fn label_order_does_not_matter() {
    let one = encode_labels(&[("method", "GET"), ("code", "200"), ("host", "a")]);
    let other = encode_labels(&[("host", "a"), ("method", "GET"), ("code", "200")]);
    assert_eq!(one, r#"{code="200",host="a",method="GET"}"#);
    assert_eq!(one, other);
}

#[test]
fn labels_of_one_name_keep_their_order() {
    let labels = encode_labels(&[("b", "2"), ("a", "first"), ("a", "second"), ("B", "0")]);
    assert_eq!(labels, r#"{B="0",a="first",a="second",b="2"}"#);
}

#[test]
fn labels_are_ordered_by_their_bytes() {
    let labels = encode_labels(&[("é", "1"), ("z", "2"), ("zz", "3"), ("", "4")]);
    assert_eq!(labels, "{=\"4\",z=\"2\",zz=\"3\",é=\"1\"}");
}

#[test]
fn escapes_what_a_quoted_value_cannot_hold() {
    assert_eq!(escape_label_value("plain / text"), "plain / text");
    assert_eq!(escape_label_value("a\nb"), "a\\nb");
    assert_eq!(escape_label_value("a\\b"), "a\\\\b");
    assert_eq!(escape_label_value("a\"b"), "a\\\"b");
    assert_eq!(escape_label_value("\\n"), "\\\\n");
    assert_eq!(escape_label_value("ü\n✓"), "ü\\n✓");
}

#[test]
fn a_key_holds_what_it_is_made_of() {
    let key = StoredMetricKey::new("family", "sample", "{a=\"1\"}");
    assert_eq!(key.family, "family");
    assert_eq!(key.sample, "sample");
    assert_eq!(key.labels, "{a=\"1\"}");
    assert_eq!(key.clone(), key);
}
