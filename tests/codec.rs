use kvs::codec::{CodecError, LogEncoder, LogItem};

#[test]
fn log_item_test_log_item_serde() {
    // decode valid
    let test_json1 = r#"
        {
            "cmd": "get",
            "key": "key1",
            "value": null
        }
        "#;
    let test_log1 = LogEncoder::decode(test_json1).unwrap();
    assert_eq!(test_log1.cmd, "get");
    assert_eq!(test_log1.key, "key1");
    assert!(test_log1.value.is_none());

    // decode invalid
    let test_json2 = r#"
        {
            "cmd": "get",
            "inv_key": "key1",
            "inv_value": null,
        }
        "#;
    let test_log2 = LogEncoder::decode(test_json2);
    assert!(test_log2.is_err());

    // encode
    let test_log3 = LogItem::new("set".to_owned(), "key2".to_owned(), Some("value2".to_owned()));
    let test_log4 = LogItem::new("get".to_owned(), "key3".to_owned(), None);
    let res3 = LogEncoder::encode(&test_log3);
    let res4 = LogEncoder::encode(&test_log4);
    assert!(res3.is_ok());
    assert!(res4.is_ok());
    let test_json3 = res3.unwrap();
    let test_json4 = res4.unwrap();
    assert!(test_json3.contains("set"));
    assert!(test_json3.contains("key2"));
    assert!(test_json3.contains("value2"));
    assert!(test_json4.contains("get"));
    assert!(test_json4.contains("key3"));
    assert!(test_json4.contains("null"));
}

#[test]
fn log_file_test_log_item_serde() {
    let test_json1 = r#"
        {
            "cmd": "get",
            "key": "key1",
            "value": null
        }
        "#;
    let test_log1 = LogEncoder::decode(test_json1).unwrap();
    assert_eq!(test_log1.cmd, "get");
    assert_eq!(test_log1.key, "key1");
    assert!(test_log1.value.is_none());

    let test_json2 = r#"
        {
            "cmd": "get",
            "inv_key": "key1",
            "inv_value": null,
        }
        "#;
    assert!(LogEncoder::decode(test_json2).is_err());

    let test_log3 = LogItem::new("set".to_owned(), "key2".to_owned(), Some("value2".to_owned()));
    let test_log4 = LogItem::new("get".to_owned(), "key3".to_owned(), None);
    let test_json3 = LogEncoder::encode(&test_log3).unwrap();
    let test_json4 = LogEncoder::encode(&test_log4).unwrap();
    assert!(test_json3.contains("set"));
    assert!(test_json3.contains("key2"));
    assert!(test_json3.contains("value2"));
    assert!(test_json4.contains("get"));
    assert!(test_json4.contains("key3"));
    assert!(test_json4.contains("null"));
}

#[test]
fn ptr_log_file_test_write_disk() {
    let test_log1 = LogItem::new("set".to_owned(), "key1".to_owned(), Some("value1".to_owned()));
    let test_log2 = LogItem::new("set".to_owned(), "key2".to_owned(), Some("value2".to_owned()));
    let mut file = String::new();
    file.push_str(&LogEncoder::encode(&test_log1).unwrap());
    file.push('\n');
    file.push_str(&LogEncoder::encode(&test_log2).unwrap());
    file.push('\n');
    let log_strs: Vec<LogItem> = file.lines().map(|l| LogEncoder::decode(l).unwrap()).collect();
    assert_eq!(log_strs[0], test_log1);
    assert_eq!(log_strs[1], test_log2);
}

#[test]
fn codec_encodes_exact_line() {
    let set = LogItem::new("set".to_owned(), "k".to_owned(), Some("v".to_owned()));
    assert_eq!(LogEncoder::encode(&set).unwrap(), r#"{"cmd":"set","key":"k","value":"v"}"#);
    let rm = LogItem::new("rm".to_owned(), "k".to_owned(), None);
    assert_eq!(LogEncoder::encode(&rm).unwrap(), r#"{"cmd":"rm","key":"k","value":null}"#);
}

#[test]
fn codec_escapes_quotes_and_line_ends() {
    let item = LogItem::new("set".to_owned(), "a\"b".to_owned(), Some("x\ny\\z".to_owned()));
    let text = LogEncoder::encode(&item).unwrap();
    assert_eq!(text, r#"{"cmd":"set","key":"a\"b","value":"x\ny\\z"}"#);
    assert!(!text.contains('\n'));
}

#[test]
fn codec_round_trip() {
    let items = vec![
        LogItem::new("set".to_owned(), "key1".to_owned(), Some("value1".to_owned())),
        LogItem::new("rm".to_owned(), "key1".to_owned(), None),
        LogItem::new("set".to_owned(), "".to_owned(), Some("".to_owned())),
        LogItem::new("set".to_owned(), "ключ\t".to_owned(), Some("值 \u{1F600} \"q\"".to_owned())),
    ];
    for item in items {
        let text = LogEncoder::encode(&item).unwrap();
        assert_eq!(LogEncoder::decode(&text).unwrap(), item);
        let line = format!("{}\n", text);
        assert_eq!(LogEncoder::decode(&line).unwrap(), item);
    }
}

#[test]
fn codec_rejects_trailing_comma() {
    let r = LogEncoder::decode(r#"{"cmd":"get","inv_key":"key1","inv_value":null,}"#);
    assert_eq!(r, Err(CodecError::DecodeLog));
}

#[test]
fn codec_null_tolerance() {
    let item = LogEncoder::decode(r#"{"cmd":"get","key":"key1","value":null}"#).unwrap();
    assert_eq!(item, LogItem::new("get".to_owned(), "key1".to_owned(), None));
}

#[test]
fn codec_missing_value_and_unknown_members() {
    let item = LogEncoder::decode(r#"{"extra":[1,{"a":2.5}],"key":"k","cmd":"rm"}"#).unwrap();
    assert_eq!(item, LogItem::new("rm".to_owned(), "k".to_owned(), None));
}

#[test]
fn codec_rejects_wrong_types() {
    assert_eq!(LogEncoder::decode(r#"{"cmd":"set","key":"k","value":3}"#), Err(CodecError::DecodeLog));
    assert_eq!(LogEncoder::decode(r#"{"cmd":1,"key":"k"}"#), Err(CodecError::DecodeLog));
    assert_eq!(LogEncoder::decode(r#"{"cmd":"set"}"#), Err(CodecError::DecodeLog));
    assert_eq!(LogEncoder::decode(r#"["set","k","v"]"#), Err(CodecError::DecodeLog));
    assert_eq!(LogEncoder::decode(""), Err(CodecError::DecodeLog));
}

#[test]
fn codec_escapes_controls_in_hex() {
    let item = LogItem::new("set".to_owned(), "k".to_owned(), Some("\u{1}\u{1f}\u{8}\u{c}\r\t".to_owned()));
    let text = LogEncoder::encode(&item).unwrap();
    assert_eq!(text, r#"{"cmd":"set","key":"k","value":"\u0001\u001f\b\f\r\t"}"#);
    assert_eq!(LogEncoder::decode(&text).unwrap(), item);
}
