//! Hosts and schemes of stream addresses, and the address family a stream's
//! host belongs to.
use vstd::prelude::*;
use crate::models::IpvType;
use crate::text::{
    chars_of, find, find_exec, lemma_find_from_bounds, split_char, split_char_exec,
    string_from_chars, subvec,
};

verus! {

broadcast use vstd::string::group_string_axioms;

/// The host that `url::Url::parse` finds in a text, when the text parses as
/// a URL that has a host.
pub uninterp spec fn url_host(s: Seq<char>) -> Option<Seq<char>>;

/// The scheme that `url::Url::parse` finds in a text, when the text parses
/// as a URL.
pub uninterp spec fn url_scheme(s: Seq<char>) -> Option<Seq<char>>;

/// Whether `core::net::Ipv6Addr` parses the text.
pub uninterp spec fn is_ipv6_address(s: Seq<char>) -> bool;

/// `url::Url::parse` followed by `Url::host_str`: the host of the parsed URL,
/// or nothing when the text does not parse or the URL has no host. The
/// result is a function of the text alone, named [`url_host`].
#[verifier::external_body]
fn parsed_url_host(s: &str) -> (r: Option<String>)
    ensures
        crate::models::opt_view(r) == url_host(s@),
{
    url::Url::parse(s).ok().and_then(|u| u.host_str().map(|h| h.to_string()))
}

/// `url::Url::parse` followed by `Url::scheme`: the scheme of the parsed URL,
/// or nothing when the text does not parse. Named [`url_scheme`].
#[verifier::external_body]
fn parsed_url_scheme(s: &str) -> (r: Option<String>)
    ensures
        crate::models::opt_view(r) == url_scheme(s@),
{
    url::Url::parse(s).ok().map(|u| u.scheme().to_string())
}

/// `str::parse::<core::net::Ipv6Addr>` succeeding. Named [`is_ipv6_address`].
#[verifier::external_body]
fn parses_as_ipv6(s: &str) -> (b: bool)
    ensures
        b == is_ipv6_address(s@),
{
    s.parse::<core::net::Ipv6Addr>().is_ok()
}

/// A bracket of an IPv6 host literal.
pub open spec fn is_bracket(c: char) -> bool {
    c == '[' || c == ']'
}

/// The text without leading brackets.
pub open spec fn trim_start_brackets(s: Seq<char>) -> Seq<char>
    decreases s.len(),
{
    if s.len() > 0 && is_bracket(s[0]) {
        trim_start_brackets(s.drop_first())
    } else {
        s
    }
}

/// The text without trailing brackets.
pub open spec fn trim_end_brackets(s: Seq<char>) -> Seq<char>
    decreases s.len(),
{
    if s.len() > 0 && is_bracket(s.last()) {
        trim_end_brackets(s.drop_last())
    } else {
        s
    }
}

/// `str::trim_matches(['[', ']'])`.
pub open spec fn trim_brackets(s: Seq<char>) -> Seq<char> {
    trim_end_brackets(trim_start_brackets(s))
}

/// The host read by hand when the text does not parse as a URL with a host:
/// what follows `://` up to the first `/`, without brackets.
pub open spec fn fallback_host(url: Seq<char>) -> Option<Seq<char>> {
    match find(url, "://"@) {
        Some(i) => Some(trim_brackets(split_char(url.skip(i + 3), '/')[0])),
        None => None,
    }
}

/// The host of a stream address.
pub open spec fn stream_host(url: Seq<char>) -> Option<Seq<char>> {
    match url_host(url) {
        Some(h) => Some(h),
        None => fallback_host(url),
    }
}

/// The address family of a stream: IPv6 when the host, without brackets, is
/// an IPv6 address; IPv4 for any other host; unknown without a host.
pub open spec fn spec_infer_ipv_type(url: Seq<char>) -> IpvType {
    match stream_host(url) {
        Some(h) => if is_ipv6_address(trim_brackets(h)) {
            IpvType::Ipv6
        } else {
            IpvType::Ipv4
        },
        None => IpvType::Unknown,
    }
}

/// An address that is fetched over HTTP: it parses as a URL whose scheme is
/// `http` or `https`.
pub open spec fn spec_is_remote(url: Seq<char>) -> bool {
    match url_scheme(url) {
        Some(s) => s == "http"@ || s == "https"@,
        None => false,
    }
}

fn trim_brackets_exec(s: &[char]) -> (r: Vec<char>)
    ensures
        r@ == trim_brackets(s@),
{
    let n = s.len();
    let mut a: usize = 0;
    assert(s@.skip(0) =~= s@);
    while a < n && (s[a] == '[' || s[a] == ']')
        invariant
            a <= n == s@.len(),
            trim_start_brackets(s@) == trim_start_brackets(s@.skip(a as int)),
        decreases n - a,
    {
        assert(s@.skip(a as int).drop_first() =~= s@.skip(a + 1));
        a = a + 1;
    }
    let t = subvec(s, a, n);
    assert(t@ =~= s@.skip(a as int));
    let m = t.len();
    let mut b: usize = m;
    assert(t@.take(m as int) =~= t@);
    while b > 0 && (t[b - 1] == '[' || t[b - 1] == ']')
        invariant
            b <= m == t@.len(),
            trim_end_brackets(t@) == trim_end_brackets(t@.take(b as int)),
        decreases b,
    {
        assert(t@.take(b as int).drop_last() =~= t@.take(b - 1));
        b = b - 1;
    }
    let r = subvec(t.as_slice(), 0, b);
    assert(r@ =~= t@.take(b as int));
    r
}

fn fallback_host_exec(url: &[char]) -> (r: Option<Vec<char>>)
    ensures
        r matches Some(h) ==> fallback_host(url@) == Some(h@),
        r is None ==> fallback_host(url@) is None,
{
    let sep = chars_of("://");
    proof {
        reveal_strlit("://");
        lemma_find_from_bounds(url@, sep@, 0);
    }
    match find_exec(url, sep.as_slice()) {
        Some(i) => {
            let n = url.len();
            assert(crate::text::matches_at(url@, sep@, i as int));
            assert(i + 3 <= n);
            let rest = subvec(url, i + 3, n);
            assert(rest@ =~= url@.skip(i + 3));
            let pieces = split_char_exec(rest.as_slice(), '/');
            assert(crate::text::views(pieces@)[0] == pieces@[0]@);
            Some(trim_brackets_exec(pieces[0].as_slice()))
        },
        None => None,
    }
}

/// The address family of a stream's host.
pub fn infer_ipv_type(url: &[char]) -> (t: IpvType)
    ensures
        t == spec_infer_ipv_type(url@),
{
    let text = string_from_chars(url);
    let host: Option<Vec<char>> = match parsed_url_host(text.as_str()) {
        Some(h) => Some(chars_of(h.as_str())),
        None => fallback_host_exec(url),
    };
    match host {
        Some(h) => {
            let bare = trim_brackets_exec(h.as_slice());
            let bare_text = string_from_chars(bare.as_slice());
            if parses_as_ipv6(bare_text.as_str()) {
                IpvType::Ipv6
            } else {
                IpvType::Ipv4
            }
        },
        None => IpvType::Unknown,
    }
}

/// An address that is fetched over HTTP.
pub fn is_remote(value: &str) -> (b: bool)
    ensures
        b == spec_is_remote(value@),
{
    match parsed_url_scheme(value) {
        Some(s) => {
            let c = chars_of(s.as_str());
            let h = chars_of("http");
            let hs = chars_of("https");
            crate::text::eq_chars(c.as_slice(), h.as_slice()) || crate::text::eq_chars(
                c.as_slice(),
                hs.as_slice(),
            )
        },
        None => false,
    }
}

} // verus!
