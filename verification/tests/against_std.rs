use glm_coding_xcode_proxy::config::{parse_env_lines, EnvLine};
use glm_coding_xcode_proxy::server::entered_key;
use glm_coding_xcode_proxy::text::{decimal_string, parse_unsigned};

#[test]
fn lines_agree_with_str_lines() {
    let texts = [
        "#a\n#b", "#a\n#b\n", "#a\r\n#b\r\n", "#a\r", "#a\r\r\n#b", "#\n\n#x", "#a\n\r\n#c\n\n",
        "#only", "#a\r\n", "#\r#\r\n#",
    ];
    for t in texts {
        let mine: Vec<String> = parse_env_lines(t)
            .into_iter()
            .filter_map(|l| match l {
                EnvLine::Comment(c) => Some(c),
                EnvLine::Blank => Some(String::new()),
                EnvLine::KeyValue { .. } => None,
            })
            .collect();
        let std_lines: Vec<String> = t.lines().map(|l| if l.trim().is_empty() { String::new() } else { l.to_string() }).collect();
        assert_eq!(mine, std_lines, "text {:?}", t);
    }
}

#[test]
fn whitespace_agrees_with_char_is_whitespace() {
    for n in 0u32..0x3100 {
        if let Some(c) = char::from_u32(n) {
            let s = format!("{c}x{c}");
            let expected = s.trim();
            assert_eq!(entered_key(&s), Some(expected.to_string()), "char {:#x}", n);
        }
    }
}

#[test]
fn numbers_agree_with_str_parse() {
    let inputs = [
        "0", "1", "+1", "+", "-", "-0", "", " 5", "5 ", "65535", "65536", "0065535", "4294967295",
        "4294967296", "18446744073709551615", "18446744073709551616", "1_000", "12a", "++1",
    ];
    for s in inputs {
        assert_eq!(parse_unsigned(s, u16::MAX as u64).map(|n| n as u16), s.parse::<u16>().ok(), "{s:?}");
        assert_eq!(parse_unsigned(s, u32::MAX as u64).map(|n| n as u32), s.parse::<u32>().ok(), "{s:?}");
        assert_eq!(parse_unsigned(s, u64::MAX), s.parse::<u64>().ok(), "{s:?}");
    }
    for n in [0u64, 9, 10, 99, 100, 8890, 65535, 1 << 40, u64::MAX] {
        assert_eq!(decimal_string(n), n.to_string());
    }
}
