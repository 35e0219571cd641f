use glm_coding_xcode_proxy::config_cmd::{
    display_value, format_row, is_sensitive, key_column_width, list_rows, marks_secret,
    mask_value, set_message, unset_message,
};

#[test]
fn sensitive_keys() {
    assert!(is_sensitive("KEY"));
    assert!(is_sensitive("api_key"));
    assert!(is_sensitive("my_token"));
    assert!(is_sensitive("Password1"));
    assert!(is_sensitive("oauth"));
    assert!(!is_sensitive("HOST"));
    assert!(!is_sensitive("PORT"));
    assert!(!is_sensitive("MAX_RETRIES"));
    assert!(marks_secret("X_SECRET"));
    assert!(!marks_secret("secret"));
}

#[test]
fn masking() {
    assert_eq!(mask_value("abcdefgh1234"), "abcd****1234");
    assert_eq!(mask_value("abcdefghi"), "abcd*fghi");
    assert_eq!(mask_value("abcdefgh"), "abcd****");
    assert_eq!(mask_value("abcde"), "abcd*");
    assert_eq!(mask_value("abcd"), "****");
    assert_eq!(mask_value("aé"), "***");
    assert_eq!(mask_value("ab"), "**");
    assert_eq!(mask_value(""), "");
    assert_eq!(mask_value("a中xyz"), "a中***");
    assert_eq!(mask_value("a中xyz文字bcd"), "a中xy****字bcd");
    assert_eq!(mask_value("中文中文中文中文中"), "中文中文***文中文中");
}

#[test]
fn display_of_values() {
    assert_eq!(display_value("KEY", "abcdefgh1234"), Some("abcd****1234".to_string()));
    assert_eq!(display_value("KEY", "abcdefgh"), Some("abcd****".to_string()));
    assert_eq!(display_value("HOST", "abcdefgh"), Some("abcdefgh".to_string()));
    // the fourth byte falls inside a character of a short value: masking is impossible
    assert_eq!(display_value("KEY", "ab中文"), None);
}

#[test]
fn messages() {
    assert_eq!(set_message("KEY", "abcdefgh1234"), Some("已设置 KEY=abcd****1234".to_string()));
    assert_eq!(set_message("PORT", "9090"), Some("已设置 PORT=9090".to_string()));
    assert_eq!(set_message("KEY", "ab中文"), None);
    assert_eq!(unset_message("PORT"), "已删除 PORT");
}

#[test]
fn listing() {
    assert_eq!(key_column_width(), 15);
    let values = vec![
        ("FOO".to_string(), "bar".to_string()),
        ("KEY".to_string(), "abcdefgh1234".to_string()),
        ("HOST".to_string(), "0.0.0.0".to_string()),
        ("KEY".to_string(), "zzzzzzzz".to_string()),
        ("MY_SECRET".to_string(), "xyz12345".to_string()),
    ];
    let rows = list_rows(&values);
    let lines: Vec<String> = rows.iter().map(|r| format_row(r, key_column_width()).unwrap()).collect();
    assert_eq!(
        lines,
        vec![
            "KEY             = abcd****1234  # 智谱 API Key（必需）".to_string(),
            "HOST            = 0.0.0.0  # 监听地址（默认 127.0.0.1）".to_string(),
            "PORT            = (未设置)  # 监听端口（默认 8890）".to_string(),
            "MAX_RETRIES     = (未设置)  # 最大重试次数（默认 3）".to_string(),
            "RETRY_DELAY     = (未设置)  # 重试延迟 ms（默认 1000）".to_string(),
            "REQUEST_TIMEOUT = (未设置)  # 请求超时 ms（默认 60000）".to_string(),
            "FOO             = bar".to_string(),
            "MY_SECRET       = xyz1****".to_string(),
        ]
    );
}

#[test]
fn law_listing_hides_secrets() {
    let a = vec![
        ("KEY".to_string(), "abcdSECRET1234".to_string()),
        ("HOST".to_string(), "h".to_string()),
        ("MY_TOKEN".to_string(), "short1".to_string()),
    ];
    let b = vec![
        ("KEY".to_string(), "abcdOTHERS1234".to_string()),
        ("HOST".to_string(), "h".to_string()),
        ("MY_TOKEN".to_string(), "short2".to_string()),
    ];
    let show = |v: &Vec<(String, String)>| -> Vec<Option<String>> {
        list_rows(v).iter().map(|r| format_row(r, key_column_width())).collect()
    };
    assert_eq!(show(&a), show(&b));
}

#[test]
fn long_keys_are_not_cut() {
    let values = vec![("A_VERY_LONG_SETTING_NAME".to_string(), "1".to_string())];
    let rows = list_rows(&values);
    assert_eq!(format_row(&rows[6], 15), Some("A_VERY_LONG_SETTING_NAME = 1".to_string()));
}

#[test]
fn listing_row_that_cannot_be_masked() {
    let values = vec![("KEY".to_string(), "ab中文".to_string())];
    let rows = list_rows(&values);
    assert_eq!(format_row(&rows[0], 15), None);
    assert!(format_row(&rows[1], 15).is_some());
}
