use gossip_lww::report::{disp_ord_key, parse_i64, split_key};

#[test]
fn disp_ord_key_numbers_regular_devices() {
    assert_eq!(disp_ord_key("disp7"), (0, 7, "disp7".to_string()));
    assert_eq!(disp_ord_key("disp10"), (0, 10, "disp10".to_string()));
    assert_eq!(disp_ord_key("disp007"), (0, 7, "disp007".to_string()));
}

#[test]
fn disp_ord_key_accepts_signed_numbers() {
    assert_eq!(disp_ord_key("disp-3"), (0, -3, "disp-3".to_string()));
    assert_eq!(disp_ord_key("disp+3"), (0, 3, "disp+3".to_string()));
}

#[test]
fn disp_ord_key_puts_other_names_last() {
    assert_eq!(disp_ord_key("sensor"), (1, i64::MAX, "sensor".to_string()));
    assert_eq!(disp_ord_key("disp"), (1, i64::MAX, "disp".to_string()));
    assert_eq!(disp_ord_key("dispx"), (1, i64::MAX, "dispx".to_string()));
    assert_eq!(disp_ord_key("disp1a"), (1, i64::MAX, "disp1a".to_string()));
    assert_eq!(disp_ord_key(""), (1, i64::MAX, "".to_string()));
}

#[test]
fn disp_ord_key_rejects_numbers_out_of_range() {
    assert_eq!(
        disp_ord_key("disp99999999999999999999"),
        (1, i64::MAX, "disp99999999999999999999".to_string())
    );
}

#[test]
fn parse_i64_reads_plain_numbers() {
    assert_eq!(parse_i64("0"), Some(0));
    assert_eq!(parse_i64("42"), Some(42));
    assert_eq!(parse_i64("-42"), Some(-42));
    assert_eq!(parse_i64("+42"), Some(42));
}

#[test]
fn parse_i64_covers_the_full_range() {
    assert_eq!(parse_i64("9223372036854775807"), Some(i64::MAX));
    assert_eq!(parse_i64("-9223372036854775808"), Some(i64::MIN));
    assert_eq!(parse_i64("9223372036854775808"), None);
    assert_eq!(parse_i64("-9223372036854775809"), None);
}

#[test]
fn parse_i64_rejects_malformed_input() {
    assert_eq!(parse_i64(""), None);
    assert_eq!(parse_i64("+"), None);
    assert_eq!(parse_i64("-"), None);
    assert_eq!(parse_i64("12a"), None);
    assert_eq!(parse_i64(" 1"), None);
    assert_eq!(parse_i64("1 "), None);
}

#[test]
fn parse_i64_matches_std() {
    for text in ["0", "-0", "007", "12345", "-12345", "+9", "", "x", "9999999999999999999"] {
        assert_eq!(parse_i64(text), text.parse::<i64>().ok(), "on {:?}", text);
    }
}

#[test]
fn split_key_splits_at_first_colon() {
    assert_eq!(
        split_key("disp1:temperatura"),
        ("disp1".to_string(), "temperatura".to_string())
    );
    assert_eq!(split_key("a:b:c"), ("a".to_string(), "b:c".to_string()));
    assert_eq!(split_key(":x"), ("".to_string(), "x".to_string()));
    assert_eq!(split_key("x:"), ("x".to_string(), "".to_string()));
}

#[test]
fn split_key_defaults_the_metric_name() {
    assert_eq!(split_key("devices"), ("devices".to_string(), "valor".to_string()));
    assert_eq!(split_key(""), ("".to_string(), "valor".to_string()));
}
