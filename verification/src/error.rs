//! Errors of the proxy: what they say and how they are answered.
use vstd::prelude::*;
use crate::text::{decimal, decimal_string, push_char};

verus! {

/// The reason phrase that the HTTP crate gives a status code, if it has one.
pub uninterp spec fn canonical_reason_of(code: u16) -> Option<Seq<char>>;

pub open spec fn opt_str_view(o: Option<&str>) -> Option<Seq<char>> {
    match o {
        Some(s) => Some(s@),
        None => None,
    }
}

/// `StatusCode::canonical_reason` of the status `code` (`reqwest::StatusCode`,
/// which is `http::StatusCode`). The contract names the phrase as a
/// function of the code; the table of phrases is not written out.
/// `StatusCode::from_u16` accepts codes from 100 to 999 only.
#[verifier::external_body]
fn canonical_reason(code: u16) -> (r: Option<&'static str>)
    requires
        100 <= code <= 999,
    ensures
        opt_str_view(r) == canonical_reason_of(code),
{
    match reqwest::StatusCode::from_u16(code) {
        Ok(status) => status.canonical_reason(),
        Err(_) => None,
    }
}

/// How a status is displayed: the code, a space and the reason phrase, or
/// `<unknown status code>` without one.
pub open spec fn status_line_spec(code: u16, reason: Option<Seq<char>>) -> Seq<char> {
    decimal(code as nat) + seq![' '] + match reason {
        Some(r) => r,
        None => "<unknown status code>"@,
    }
}

/// The displayed form of a status code with the given reason phrase.
pub fn status_line(code: u16, reason: Option<&str>) -> (r: String)
    ensures
        r@ == status_line_spec(code, opt_str_view(reason)),
{
    let mut r = decimal_string(code as u64);
    push_char(&mut r, ' ');
    match reason {
        Some(p) => r.append(p),
        None => r.append("<unknown status code>"),
    }
    r
}

/// The displayed form of a status code (`Display` of `StatusCode`).
pub fn status_text(code: u16) -> (r: String)
    requires
        100 <= code <= 999,
    ensures
        r@ == status_line_spec(code, canonical_reason_of(code)),
{
    status_line(code, canonical_reason(code))
}

/// A status from 200 to 299 (`StatusCode::is_success`).
pub fn status_is_success(code: u16) -> (b: bool)
    ensures
        b == (200 <= code < 300),
{
    200 <= code && code < 300
}

/// An error while relaying a request.
#[derive(Debug, Clone, PartialEq, Eq)]
pub enum ApiError {
    /// The Zhipu API answered with an error.
    UpstreamError(String),
    /// The request did not get through.
    NetworkError(String),
    /// Something failed inside the proxy.
    InternalError(String),
}

/// What an error holds.
pub enum ApiErrorView {
    Upstream(Seq<char>),
    Network(Seq<char>),
    Internal(Seq<char>),
}

impl View for ApiError {
    type V = ApiErrorView;

    open spec fn view(&self) -> ApiErrorView {
        match self {
            ApiError::UpstreamError(m) => ApiErrorView::Upstream(m@),
            ApiError::NetworkError(m) => ApiErrorView::Network(m@),
            ApiError::InternalError(m) => ApiErrorView::Internal(m@),
        }
    }
}

/// The error for a failed HTTP request.
pub open spec fn transport_error(f: TransportFailure) -> ApiErrorView {
    if f.is_timeout {
        ApiErrorView::Network("请求超时: "@ + f.text@)
    } else if f.is_connect {
        ApiErrorView::Network("连接失败: "@ + f.text@)
    } else if f.is_status {
        ApiErrorView::Upstream(
            "HTTP "@ + (match f.status {
                Some(c) => status_line_spec(c, canonical_reason_of(c)),
                None => "unknown"@,
            }) + ": "@ + f.text@,
        )
    } else {
        ApiErrorView::Network(f.text@)
    }
}

/// What the proxy knows of a failed HTTP request: its kind, the status code
/// it carries if any and the error's text.
#[derive(Debug, Clone)]
pub struct TransportFailure {
    pub is_timeout: bool,
    pub is_connect: bool,
    pub is_status: bool,
    pub status: Option<u16>,
    pub text: String,
}

impl ApiError {
    /// The text of the error (`Display`).
    pub open spec fn message_spec(&self) -> Seq<char> {
        match self {
            ApiError::UpstreamError(m) => "API 请求失败: "@ + m@,
            ApiError::NetworkError(m) => "网络请求失败: "@ + m@,
            ApiError::InternalError(m) => "内部错误: "@ + m@,
        }
    }

    /// The message of the error response: as the text, but an internal
    /// error gives its own message alone.
    pub open spec fn response_message_spec(&self) -> Seq<char> {
        match self {
            ApiError::UpstreamError(m) => "API 请求失败: "@ + m@,
            ApiError::NetworkError(m) => "网络请求失败: "@ + m@,
            ApiError::InternalError(m) => m@,
        }
    }

    /// The text of the error.
    pub fn message(&self) -> (r: String)
        ensures
            r@ == self.message_spec(),
    {
        let (head, m) = match self {
            ApiError::UpstreamError(m) => ("API 请求失败: ", m),
            ApiError::NetworkError(m) => ("网络请求失败: ", m),
            ApiError::InternalError(m) => ("内部错误: ", m),
        };
        let mut r = head.to_owned();
        r.append(m.as_str());
        r
    }

    /// The HTTP status of the error response: 502 for an upstream error,
    /// 500 otherwise.
    pub fn status_code(&self) -> (r: u16)
        ensures
            r == (if self is UpstreamError {
                502u16
            } else {
                500u16
            }),
    {
        match self {
            ApiError::UpstreamError(_) => 502,
            _ => 500,
        }
    }

    /// The `type` of the error response.
    pub fn error_type(&self) -> (r: &'static str)
        ensures
            r@ == (match self {
                ApiError::UpstreamError(_) => "api_error"@,
                ApiError::NetworkError(_) => "network_error"@,
                ApiError::InternalError(_) => "internal_error"@,
            }),
    {
        match self {
            ApiError::UpstreamError(_) => "api_error",
            ApiError::NetworkError(_) => "network_error",
            ApiError::InternalError(_) => "internal_error",
        }
    }

    /// The `message` of the error response.
    pub fn response_message(&self) -> (r: String)
        ensures
            r@ == self.response_message_spec(),
    {
        match self {
            ApiError::InternalError(m) => m.clone(),
            _ => self.message(),
        }
    }

    /// The error for a failed HTTP request: a timeout or a failed connection
    /// is a network error, an error status an upstream error, anything else a
    /// network error with the error's text.
    pub fn from_transport(f: &TransportFailure) -> (r: ApiError)
        requires
            f.status matches Some(c) ==> 100 <= c <= 999,
        ensures
            r@ == transport_error(*f),
    {
        if f.is_timeout {
            let mut m = "请求超时: ".to_owned();
            m.append(f.text.as_str());
            ApiError::NetworkError(m)
        } else if f.is_connect {
            let mut m = "连接失败: ".to_owned();
            m.append(f.text.as_str());
            ApiError::NetworkError(m)
        } else if f.is_status {
            let mut m = "HTTP ".to_owned();
            match f.status {
                Some(c) => {
                    let t = status_text(c);
                    m.append(t.as_str());
                },
                None => m.append("unknown"),
            }
            m.append(": ");
            m.append(f.text.as_str());
            ApiError::UpstreamError(m)
        } else {
            ApiError::NetworkError(f.text.clone())
        }
    }

    /// The error for an answer with status `code`: `HTTP <status>: <body>`.
    pub fn upstream_answer(code: u16, body: &str) -> (r: ApiError)
        requires
            100 <= code <= 999,
        ensures
            r@ == ApiErrorView::Upstream(
                "HTTP "@ + status_line_spec(code, canonical_reason_of(code)) + ": "@ + body@,
            ),
    {
        let t = status_text(code);
        ApiError::upstream_status(t.as_str(), body)
    }

    /// The error for an answer with an error status: `HTTP <status>: <body>`.
    pub fn upstream_status(status: &str, body: &str) -> (r: ApiError)
        ensures
            r@ == ApiErrorView::Upstream("HTTP "@ + status@ + ": "@ + body@),
    {
        let mut m = "HTTP ".to_owned();
        m.append(status);
        m.append(": ");
        m.append(body);
        ApiError::UpstreamError(m)
    }
}

} // verus!
