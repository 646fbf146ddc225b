//! How an upstream is named on the command line.

use vstd::prelude::*;

verus! {

/// The text that std's trimming gives for `text`: `text` without the white
/// space at its start and at its end.
pub uninterp spec fn trimmed(text: Seq<char>) -> Seq<char>;

/// `str::trim` of std.
#[verifier::external_body]
fn trim(text: &str) -> (r: &str)
    ensures
        r@ == trimmed(text@),
{
    text.trim()
}

/// Whether `text` starts with `prefix`.
pub open spec fn has_prefix(text: Seq<char>, prefix: Seq<char>) -> bool {
    text.len() >= prefix.len() && text.subrange(0, prefix.len() as int) == prefix
}

/// `str::starts_with` of std, with a string as the pattern: whether `text`
/// starts with `prefix`.
#[verifier::external_body]
fn starts_with(text: &str, prefix: &str) -> (r: bool)
    ensures
        r == has_prefix(text@, prefix@),
{
    text.starts_with(prefix)
}

/// An upstream resolver. Each variant holds the text that names it, without
/// white space around it: an address and a port for plain DNS over UDP, a
/// URI for DNS over TLS and for DNS over HTTPS.
#[derive(Debug, Clone, PartialEq, Eq)]
pub enum UpstreamVariant {
    Udp(String),
    Tls(String),
    Https(String),
}

/// What an [`UpstreamVariant`] holds.
pub enum UpstreamView {
    Udp(Seq<char>),
    Tls(Seq<char>),
    Https(Seq<char>),
}

impl View for UpstreamVariant {
    type V = UpstreamView;

    open spec fn view(&self) -> UpstreamView {
        match self {
            UpstreamVariant::Udp(text) => UpstreamView::Udp(text@),
            UpstreamVariant::Tls(text) => UpstreamView::Tls(text@),
            UpstreamVariant::Https(text) => UpstreamView::Https(text@),
        }
    }
}

/// The text that a URI for DNS over TLS starts with.
pub open spec fn tls_scheme() -> Seq<char> {
    seq!['t', 'l', 's', ':', '/', '/']
}

/// The text that a URI for DNS over HTTPS starts with.
pub open spec fn https_scheme() -> Seq<char> {
    seq!['h', 't', 't', 'p', 's', ':', '/', '/']
}

/// The upstream that `text` names: by its scheme one over TLS or over
/// HTTPS, and one over UDP where it has neither scheme.
pub open spec fn upstream_of(text: Seq<char>) -> UpstreamView {
    if has_prefix(text, tls_scheme()) {
        UpstreamView::Tls(text)
    } else if has_prefix(text, https_scheme()) {
        UpstreamView::Https(text)
    } else {
        UpstreamView::Udp(text)
    }
}

/// The upstream that `text` names, taken as it stands: by its scheme one
/// over TLS or over HTTPS, and one over UDP where it has neither scheme.
pub fn upstream_named(text: &str) -> (r: UpstreamVariant)
    ensures
        r@ == upstream_of(text@),
{
    proof {
        reveal_strlit("tls://");
        reveal_strlit("https://");
        assert("tls://"@ =~= tls_scheme());
        assert("https://"@ =~= https_scheme());
    }
    if starts_with(text, "tls://") {
        return UpstreamVariant::Tls(text.to_owned());
    }
    if starts_with(text, "https://") {
        return UpstreamVariant::Https(text.to_owned());
    }
    UpstreamVariant::Udp(text.to_owned())
}

impl UpstreamVariant {
    /// The upstream that `s` names. White space around it is dropped.
    pub fn from_str(s: &str) -> (r: Self)
        ensures
            r@ == upstream_of(trimmed(s@)),
    {
        upstream_named(trim(s))
    }
}

} // verus!
