//! DNS over HTTPS: what is asked of the upstream, and what a response that
//! is not a success becomes.

use vstd::prelude::*;
use vstd::string::StringExecFns;

verus! {

/// The media type of a DNS message, which the request names both as what
/// it sends and as what it accepts.
pub const DNS_MESSAGE: &'static str = "application/dns-message";

/// The one status with which the upstream hands out a DNS message.
pub const STATUS_OK: u16 = 200;

/// Whether a response with `status` holds the DNS message that was asked
/// for. One with any other status is a failure.
pub fn status_ok(status: u16) -> (r: bool)
    ensures
        r == (status == STATUS_OK),
{
    status == STATUS_OK
}

/// A response of the upstream that was not a success.
#[derive(Debug, Clone, PartialEq, Eq)]
pub struct HttpError {
    pub uri: String,
    pub status: u16,
    pub headers: Vec<(String, String)>,
    pub body_string: String,
}

/// The text of one decimal digit.
pub open spec fn digit_text(d: int) -> Seq<char> {
    if d == 0 {
        "0"@
    } else if d == 1 {
        "1"@
    } else if d == 2 {
        "2"@
    } else if d == 3 {
        "3"@
    } else if d == 4 {
        "4"@
    } else if d == 5 {
        "5"@
    } else if d == 6 {
        "6"@
    } else if d == 7 {
        "7"@
    } else if d == 8 {
        "8"@
    } else {
        "9"@
    }
}

/// The decimal text of `n`, without leading zeros.
pub open spec fn decimal_text(n: nat) -> Seq<char>
    decreases n,
{
    if n < 10 {
        digit_text(n as int)
    } else {
        decimal_text(n / 10) + digit_text((n % 10) as int)
    }
}

/// The text of the first `n` of `headers`: each as its name, a colon and its
/// value, with commas between them.
pub open spec fn headers_text(headers: Seq<(String, String)>, n: int) -> Seq<char>
    decreases n,
{
    if n <= 0 {
        Seq::empty()
    } else {
        headers_text(headers, n - 1) + (if n == 1 {
            ""@
        } else {
            ", "@
        }) + headers[n - 1].0@ + ": "@ + headers[n - 1].1@
    }
}

/// The line of text that stands for `e` in logs: it names the URI, the
/// status, the headers and the body.
pub open spec fn error_text(e: HttpError) -> Seq<char> {
    e.uri@ + " proxy error response { status: "@ + decimal_text(e.status as nat)
        + ", headers: ["@ + headers_text(e.headers@, e.headers@.len() as int) + "], body: "@
        + e.body_string@ + " }"@
}

/// The text of one decimal digit.
fn digit(d: u16) -> (text: &'static str)
    requires
        d < 10,
    ensures
        text@ == digit_text(d as int),
{
    match d {
        0 => "0",
        1 => "1",
        2 => "2",
        3 => "3",
        4 => "4",
        5 => "5",
        6 => "6",
        7 => "7",
        8 => "8",
        _ => "9",
    }
}

/// Appends the decimal text of `n` to `out`.
fn push_decimal(out: &mut String, n: u16)
    ensures
        final(out)@ == old(out)@ + decimal_text(n as nat),
    decreases n,
{
    if n >= 10 {
        push_decimal(out, n / 10);
    }
    out.append(digit(n % 10));
    proof {
        if n >= 10 {
            assert(old(out)@ + decimal_text((n / 10) as nat) + digit_text((n % 10) as int)
                =~= old(out)@ + (decimal_text((n / 10) as nat) + digit_text((n % 10) as int)));
        }
    }
}

impl HttpError {
    /// The failure that a response with `status` is.
    pub fn new(uri: String, status: u16, headers: Vec<(String, String)>, body_string: String) -> (e:
        Self)
        ensures
            e.uri == uri,
            e.status == status,
            e.headers == headers,
            e.body_string == body_string,
    {
        Self { uri, status, headers, body_string }
    }

    /// A line of text for logs.
    pub fn message(&self) -> (text: String)
        ensures
            text@ == error_text(*self),
    {
        let mut out = String::new();
        out.append(self.uri.as_str());
        out.append(" proxy error response { status: ");
        push_decimal(&mut out, self.status);
        out.append(", headers: [");
        let ghost start = out@;
        let n = self.headers.len();
        let mut i: usize = 0;
        proof {
            assert(start + headers_text(self.headers@, 0) =~= start);
            assert(Seq::<char>::empty() + self.uri@ =~= self.uri@);
        }
        while i < n
            invariant
                i <= n,
                n == self.headers@.len(),
                out@ == start + headers_text(self.headers@, i as int),
            decreases n - i,
        {
            let ghost before = out@;
            if i > 0 {
                out.append(", ");
            } else {
                proof {
                    reveal_strlit("");
                    assert(before + ""@ =~= before);
                }
            }
            out.append(self.headers[i].0.as_str());
            out.append(": ");
            out.append(self.headers[i].1.as_str());
            proof {
                let sep = if i == 0 {
                    ""@
                } else {
                    ", "@
                };
                let name = self.headers@[i as int].0@;
                let value = self.headers@[i as int].1@;
                let done = headers_text(self.headers@, i as int);
                assert(out@ =~= start + (done + sep + name + ": "@ + value));
            }
            i += 1;
        }
        let ghost listed = out@;
        out.append("], body: ");
        out.append(self.body_string.as_str());
        out.append(" }");
        proof {
            let h = headers_text(self.headers@, n as int);
            assert(out@ =~= self.uri@ + " proxy error response { status: "@ + decimal_text(
                self.status as nat,
            ) + ", headers: ["@ + h + "], body: "@ + self.body_string@ + " }"@);
        }
        out
    }
}

} // verus!
