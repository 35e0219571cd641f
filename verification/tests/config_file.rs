use glm_coding_xcode_proxy::config::{
    config_dir, env_file_path, get_all_env_values, get_env_value, listen_endpoint, missing_key_message,
    parse_env_lines, serialize_env_lines, set_env_value, unset_env_value, Config, EnvLine,
};

fn kv(k: &str, v: &str) -> EnvLine {
    EnvLine::KeyValue { key: k.to_string(), value: v.to_string() }
}

#[test]
fn parse_lines_of_every_kind() {
    let lines = parse_env_lines("# note\n  KEY = abc  \n\n   \nno equals here\nA=b=c\r\n  # indented\n");
    assert_eq!(
        lines,
        vec![
            EnvLine::Comment("# note".to_string()),
            kv("KEY", "abc"),
            EnvLine::Blank,
            EnvLine::Blank,
            EnvLine::Comment("no equals here".to_string()),
            kv("A", "b=c"),
            EnvLine::Comment("  # indented".to_string()),
        ]
    );
}

#[test]
fn parse_empty_and_bare_equals() {
    assert_eq!(parse_env_lines(""), vec![]);
    assert_eq!(parse_env_lines("="), vec![kv("", "")]);
    assert_eq!(parse_env_lines("\n"), vec![EnvLine::Blank]);
    // a lone carriage return at the very end is kept in a comment line
    assert_eq!(parse_env_lines("abc\r"), vec![EnvLine::Comment("abc\r".to_string())]);
    // unicode whitespace is trimmed
    assert_eq!(parse_env_lines("\u{3000}K\u{a0}=\u{2003}v\u{3000}"), vec![kv("K", "v")]);
}

#[test]
fn serialize_joins_with_newlines() {
    let lines = vec![EnvLine::Comment("# c".to_string()), kv("A", "1"), EnvLine::Blank, kv("B", "2")];
    assert_eq!(serialize_env_lines(&lines), "# c\nA=1\n\nB=2");
    assert_eq!(serialize_env_lines(&[]), "");
    assert_eq!(serialize_env_lines(&[EnvLine::Blank, EnvLine::Blank]), "\n");
}

#[test]
fn get_takes_the_first_line() {
    let content = "A=1\nB = two\nA=3\n";
    assert_eq!(get_env_value(content, "A"), Some("1".to_string()));
    assert_eq!(get_env_value(content, "B"), Some("two".to_string()));
    assert_eq!(get_env_value(content, "C"), None);
    assert_eq!(get_env_value("# A=1\n", "A"), None);
}

#[test]
fn get_all_values_in_order() {
    let all = get_all_env_values("# x\nA=1\nnoise\nB=2\nA=3");
    assert_eq!(
        all,
        vec![
            ("A".to_string(), "1".to_string()),
            ("B".to_string(), "2".to_string()),
            ("A".to_string(), "3".to_string()),
        ]
    );
}

#[test]
fn set_updates_the_first_line() {
    assert_eq!(set_env_value("# c\nA=1\nB=2\nA=3\n", "A", "9"), "# c\nA=9\nB=2\nA=3\n");
}

#[test]
fn set_appends_after_a_blank_line() {
    assert_eq!(set_env_value("A=1\n", "B", "2"), "A=1\n\nB=2\n");
    assert_eq!(set_env_value("A=1", "B", "2"), "A=1\n\nB=2\n");
}

#[test]
fn set_appends_after_a_comment_directly() {
    assert_eq!(set_env_value("# only a comment\n", "B", "2"), "# only a comment\nB=2\n");
    assert_eq!(set_env_value("A=1\n\n", "B", "2"), "A=1\n\nB=2\n");
}

#[test]
fn set_on_empty_text() {
    assert_eq!(set_env_value("", "KEY", "abc"), "KEY=abc\n");
}

#[test]
fn set_rewrites_lines_in_normal_form() {
    assert_eq!(set_env_value("  A =  1 \r\nB=2\n", "B", "3"), "A=1\nB=3\n");
}

#[test]
fn law_get_after_set() {
    let contents = ["", "A=1\n", "# c\nX=1\nA=0\nA=2", "A=1\r\n  \n# A=5\n"];
    for c in contents {
        let out = set_env_value(c, "A", "new value");
        assert_eq!(get_env_value(&out, "A"), Some("new value".to_string()));
        assert_eq!(get_env_value(&out, "X"), get_env_value(c, "X"));
    }
}

#[test]
fn unset_removes_every_line_of_the_key() {
    assert_eq!(unset_env_value("A=1\nB=2\nA=3\n", "A"), Ok("B=2\n".to_string()));
    assert_eq!(unset_env_value("A=1\n", "A"), Ok("\n".to_string()));
}

#[test]
fn unset_of_a_missing_key() {
    assert_eq!(unset_env_value("A=1\n", "B"), Err("配置项 'B' 不存在".to_string()));
    assert_eq!(missing_key_message("X"), "配置项 'X' 不存在");
}

#[test]
fn law_get_after_unset() {
    let c = "A=1\nB=2\n# c\nA=3";
    let out = unset_env_value(c, "A").unwrap();
    assert_eq!(get_env_value(&out, "A"), None);
    assert_eq!(get_env_value(&out, "B"), Some("2".to_string()));
}

#[test]
fn law_rewrite_keeps_values() {
    let c = "  A = 1\r\n# c\n\nB=x=y\nnoise\r";
    let out = serialize_env_lines(&parse_env_lines(c)) + "\n";
    for k in ["A", "B", "C"] {
        assert_eq!(get_env_value(&out, k), get_env_value(c, k));
    }
}

#[test]
fn config_defaults() {
    let c = Config::from_config("KEY=abc\n");
    assert_eq!(c.zhipu_api_key, "abc");
    assert_eq!(c.host, "127.0.0.1");
    assert_eq!(c.port, 8890);
    assert_eq!(c.max_retries, 3);
    assert_eq!(c.retry_delay_ms, 1000);
    assert_eq!(c.request_timeout_ms, 60000);
}

#[test]
fn config_values_and_last_line_wins() {
    let c = Config::from_config(
        "KEY=first\nKEY=second\nHOST=0.0.0.0\nPORT=+9090\nMAX_RETRIES=5\nRETRY_DELAY=250\nREQUEST_TIMEOUT=007\n",
    );
    assert_eq!(c.zhipu_api_key, "second");
    assert_eq!(c.host, "0.0.0.0");
    assert_eq!(c.port, 9090);
    assert_eq!(c.max_retries, 5);
    assert_eq!(c.retry_delay_ms, 250);
    assert_eq!(c.request_timeout_ms, 7);
}

#[test]
fn config_numbers_that_do_not_parse() {
    let c = Config::from_config("KEY=k\nPORT=65536\nMAX_RETRIES=-1\nRETRY_DELAY=1e3\nREQUEST_TIMEOUT=\n");
    assert_eq!(c.port, 8890);
    assert_eq!(c.max_retries, 3);
    assert_eq!(c.retry_delay_ms, 1000);
    assert_eq!(c.request_timeout_ms, 60000);
    assert_eq!(Config::from_config("KEY=k\nPORT=65535").port, 65535);
}

#[test]
fn law_load_after_set() {
    let c = "KEY=old\nPORT=9000\n# note\n";
    let out = set_env_value(c, "KEY", "fresh");
    let loaded = Config::from_config(&out);
    assert_eq!(loaded.zhipu_api_key, "fresh");
    assert_eq!(loaded.port, 9000);
    let added = Config::from_config(&set_env_value("PORT=1\n", "KEY", "k2"));
    assert_eq!(added.zhipu_api_key, "k2");
    assert_eq!(added.port, 1);
}

#[test]
fn set_on_a_key_written_twice_keeps_the_last_line() {
    let out = set_env_value("KEY=1\nKEY=2\n", "KEY", "3");
    assert_eq!(out, "KEY=3\nKEY=2\n");
    assert_eq!(Config::from_config(&out).zhipu_api_key, "2");
}

#[test]
fn config_paths() {
    assert_eq!(config_dir("/home/u"), "/home/u/.glm-coding-xcode-proxy");
    assert_eq!(env_file_path("/home/u"), "/home/u/.glm-coding-xcode-proxy/config");
    assert_eq!(env_file_path("/home/u/"), "/home/u/.glm-coding-xcode-proxy/config");
    assert_eq!(env_file_path(""), ".glm-coding-xcode-proxy/config");
}

#[test]
fn law_load_agrees_with_get() {
    let c = "# c\nKEY=only\nHOST=h\n";
    assert_eq!(Some(Config::from_config(c).zhipu_api_key), get_env_value(c, "KEY"));
}

#[test]
fn law_set_port_then_load() {
    let c = "KEY=k\nPORT=1234\nHOST=0.0.0.0\n";
    for p in [0u16, 7, 8890, 65535] {
        let out = set_env_value(c, "PORT", &p.to_string());
        let before = Config::from_config(c);
        let after = Config::from_config(&out);
        assert_eq!(after.port, p);
        assert_eq!(after.host, before.host);
        assert_eq!(after.zhipu_api_key, before.zhipu_api_key);
        assert_eq!(after.max_retries, before.max_retries);
    }
}

#[test]
fn law_set_line_count() {
    let count = |text: &str| parse_env_lines(text).iter().filter(|l| matches!(l, EnvLine::KeyValue { key, .. } if key == "A")).count();
    for c in ["", "A=1\n", "A=1\nB=2\nA=3\n", "# x"] {
        let out = set_env_value(c, "A", "9");
        assert!(out.ends_with('\n'));
        assert_eq!(count(&out), std::cmp::max(count(c), 1));
    }
}

#[test]
fn law_set_then_unset() {
    for c in ["", "B=2\n", "# c\nB=2", "B=2\n\nC=3\r\n"] {
        let out = unset_env_value(&set_env_value(c, "A", "1"), "A").unwrap();
        assert_eq!(get_all_env_values(&out), get_all_env_values(c));
        assert_eq!(get_env_value(&out, "A"), None);
    }
}

#[test]
fn law_serialize_round_trip() {
    for c in ["A=1\n# note  \n\n  B = 2 \n   # indented", "x\ny=\n=z", "A=1"] {
        let lines = parse_env_lines(c);
        assert_eq!(parse_env_lines(&serialize_env_lines(&lines)), lines);
    }
}

#[test]
fn listen_endpoint_choices() {
    let c = "KEY=k\nHOST=0.0.0.0\nPORT=9090\n";
    assert_eq!(listen_endpoint(c, None, None), ("0.0.0.0".to_string(), 9090));
    assert_eq!(listen_endpoint(c, Some("::1"), Some(1)), ("::1".to_string(), 1));
    assert_eq!(listen_endpoint("PORT=x\n", None, None), ("127.0.0.1".to_string(), 8890));
    assert_eq!(listen_endpoint("", None, Some(7)), ("127.0.0.1".to_string(), 7));
}

#[test]
fn law_set_changes_only_first_line() {
    let c = "# c\nA=1\nB=2\nA=3\n  A = 4 \n";
    let out = set_env_value(c, "A", "new");
    let before = parse_env_lines(c);
    let after = parse_env_lines(&out);
    assert_eq!(after[1], kv("A", "new"));
    for j in [0usize, 2, 3, 4] {
        assert_eq!(after[j], before[j]);
    }
    assert_eq!(out, "# c\nA=new\nB=2\nA=3\nA=4\n");
}
