use glm_coding_xcode_proxy::client::{bearer_token, chat_completions_url, models_url};
use glm_coding_xcode_proxy::error::{status_is_success, status_line, status_text, ApiError, TransportFailure};
use glm_coding_xcode_proxy::retry::{Retry, RetryAction};
use glm_coding_xcode_proxy::server::{entered_key, listen_address};
use glm_coding_xcode_proxy::text::{decimal_string, parse_unsigned};

fn failure(is_timeout: bool, is_connect: bool, is_status: bool, status: Option<u16>) -> TransportFailure {
    TransportFailure {
        is_timeout,
        is_connect,
        is_status,
        status,
        text: "boom".to_string(),
    }
}

#[test]
fn error_texts_and_responses() {
    let up = ApiError::UpstreamError("x".to_string());
    let net = ApiError::NetworkError("y".to_string());
    let int = ApiError::InternalError("z".to_string());
    assert_eq!(up.message(), "API 请求失败: x");
    assert_eq!(net.message(), "网络请求失败: y");
    assert_eq!(int.message(), "内部错误: z");
    assert_eq!((up.status_code(), up.error_type()), (502, "api_error"));
    assert_eq!((net.status_code(), net.error_type()), (500, "network_error"));
    assert_eq!((int.status_code(), int.error_type()), (500, "internal_error"));
    assert_eq!(up.response_message(), "API 请求失败: x");
    assert_eq!(net.response_message(), "网络请求失败: y");
    assert_eq!(int.response_message(), "z");
}

#[test]
fn transport_failures() {
    assert_eq!(ApiError::from_transport(&failure(true, true, true, None)), ApiError::NetworkError("请求超时: boom".to_string()));
    assert_eq!(ApiError::from_transport(&failure(false, true, true, None)), ApiError::NetworkError("连接失败: boom".to_string()));
    assert_eq!(
        ApiError::from_transport(&failure(false, false, true, Some(404))),
        ApiError::UpstreamError("HTTP 404 Not Found: boom".to_string())
    );
    assert_eq!(
        ApiError::from_transport(&failure(false, false, true, None)),
        ApiError::UpstreamError("HTTP unknown: boom".to_string())
    );
    assert_eq!(ApiError::from_transport(&failure(false, false, false, None)), ApiError::NetworkError("boom".to_string()));
    assert_eq!(
        ApiError::upstream_status("429 Too Many Requests", "slow down"),
        ApiError::UpstreamError("HTTP 429 Too Many Requests: slow down".to_string())
    );
}

#[test]
fn status_texts() {
    for code in [100u16, 200, 201, 204, 301, 404, 418, 429, 500, 502, 599, 999] {
        let std_text = reqwest::StatusCode::from_u16(code).unwrap().to_string();
        assert_eq!(status_text(code), std_text);
    }
    assert_eq!(status_text(502), "502 Bad Gateway");
    assert_eq!(status_line(299, None), "299 <unknown status code>");
    assert_eq!(
        ApiError::upstream_answer(429, "slow"),
        ApiError::UpstreamError("HTTP 429 Too Many Requests: slow".to_string())
    );
    assert!(status_is_success(200));
    assert!(status_is_success(299));
    assert!(!status_is_success(199));
    assert!(!status_is_success(300));
}

#[test]
fn request_addresses() {
    assert_eq!(models_url(), "https://open.bigmodel.cn/api/coding/paas/v4/models");
    assert_eq!(chat_completions_url(), "https://open.bigmodel.cn/api/coding/paas/v4/chat/completions");
    assert_eq!(bearer_token("abc"), "Bearer abc");
}

#[test]
fn retry_schedule() {
    let mut r = Retry::start(3, 1000);
    assert_eq!(r.on_failure(), RetryAction::Wait(1000));
    assert_eq!(r.on_failure(), RetryAction::Wait(2000));
    assert_eq!(r.on_failure(), RetryAction::Exhausted);
    assert_eq!(r.attempt, 3);
    let mut one = Retry::start(1, 500);
    assert_eq!(one.on_failure(), RetryAction::Exhausted);
}

#[test]
fn law_total_wait_of_a_failing_run() {
    let mut r = Retry::start(5, 100);
    let mut total = 0u64;
    let mut attempts = 1;
    while let RetryAction::Wait(d) = r.on_failure() {
        total += d;
        attempts += 1;
    }
    assert_eq!(attempts, 5);
    assert_eq!(total, 100 * 5 * 4 / 2);
}

#[test]
fn entered_keys() {
    assert_eq!(entered_key("  abc \n"), Some("abc".to_string()));
    assert_eq!(entered_key(" \t\n"), None);
    assert_eq!(entered_key(""), None);
}

#[test]
fn listen_addresses() {
    assert_eq!(listen_address("127.0.0.1", 8890), "127.0.0.1:8890");
    assert_eq!(listen_address("0.0.0.0", 0), "0.0.0.0:0");
}

#[test]
fn decimal_numbers() {
    assert_eq!(decimal_string(0), "0");
    assert_eq!(decimal_string(65535), "65535");
    assert_eq!(decimal_string(u64::MAX), u64::MAX.to_string());
    assert_eq!(parse_unsigned("+12", 65535), Some(12));
    assert_eq!(parse_unsigned("007", 65535), Some(7));
    assert_eq!(parse_unsigned("65535", 65535), Some(65535));
    assert_eq!(parse_unsigned("65536", 65535), None);
    assert_eq!(parse_unsigned("+", 65535), None);
    assert_eq!(parse_unsigned("-1", 65535), None);
    assert_eq!(parse_unsigned("", 65535), None);
    assert_eq!(parse_unsigned(" 1", 65535), None);
    assert_eq!(parse_unsigned("18446744073709551615", u64::MAX), Some(u64::MAX));
    assert_eq!(parse_unsigned("18446744073709551616", u64::MAX), None);
    assert_eq!(parse_unsigned("99999999999999999999x", u64::MAX), None);
}
