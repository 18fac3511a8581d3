//! Fetching sources: where the bytes of a source list entry come from, and
//! gzip payloads unpacked.
use vstd::prelude::*;
use crate::hosts::{is_remote, spec_is_remote};
use crate::source_list::{SourceEntry, SpecSourceEntry};
use crate::text::{chars_of, starts_with, starts_with_exec, string_from_chars, subvec};

verus! {

broadcast use vstd::string::group_string_axioms;

/// Why fetched bytes could not be used.
#[derive(Debug, Clone, Copy, PartialEq, Eq, Structural)]
pub enum FetchError {
    /// The payload starts like gzip but does not decompress.
    Gzip,
}

/// Where the bytes of a source come from.
#[derive(Debug, Clone)]
pub enum FetchPlan {
    /// An HTTP request with this user agent.
    Http { url: String, user_agent: String },
    /// A local file.
    File(String),
}

/// The mathematical value of a [`FetchPlan`].
pub enum SpecFetchPlan {
    Http { url: Seq<char>, user_agent: Seq<char> },
    File(Seq<char>),
}

impl View for FetchPlan {
    type V = SpecFetchPlan;

    open spec fn view(&self) -> SpecFetchPlan {
        match self {
            FetchPlan::Http { url, user_agent } => SpecFetchPlan::Http {
                url: url@,
                user_agent: user_agent@,
            },
            FetchPlan::File(p) => SpecFetchPlan::File(p@),
        }
    }
}

/// Where a source's bytes come from: HTTP addresses are requested with the
/// entry's user agent or the default one, `file://` addresses and other
/// paths are read from disk.
pub open spec fn spec_fetch_plan(e: SpecSourceEntry, default_user_agent: Seq<char>) -> SpecFetchPlan {
    if spec_is_remote(e.url) {
        SpecFetchPlan::Http {
            url: e.url,
            user_agent: match e.user_agent {
                Some(ua) => ua,
                None => default_user_agent,
            },
        }
    } else if starts_with(e.url, "file://"@) {
        SpecFetchPlan::File(e.url.skip(7))
    } else {
        SpecFetchPlan::File(e.url)
    }
}

/// Where a source's bytes come from.
pub fn fetch_plan(source: &SourceEntry, default_user_agent: &str) -> (r: FetchPlan)
    ensures
        r@ == spec_fetch_plan(source@, default_user_agent@),
{
    if is_remote(source.url.as_str()) {
        let ua = match &source.user_agent {
            Some(ua) => ua.clone(),
            None => default_user_agent.to_owned(),
        };
        return FetchPlan::Http { url: source.url.clone(), user_agent: ua };
    }
    let u = chars_of(source.url.as_str());
    let scheme = chars_of("file://");
    proof {
        reveal_strlit("file://");
    }
    if starts_with_exec(u.as_slice(), scheme.as_slice()) {
        let rest = subvec(u.as_slice(), 7, u.len());
        assert(rest@ =~= source.url@.skip(7));
        FetchPlan::File(string_from_chars(rest.as_slice()))
    } else {
        FetchPlan::File(source.url.clone())
    }
}

/// What `flate2::read::GzDecoder` reads to the end from some bytes, or
/// nothing when it fails.
pub uninterp spec fn gzip_decoded(bytes: Seq<u8>) -> Option<Seq<u8>>;

/// `flate2::read::GzDecoder` over the bytes, read to the end: the data of
/// the first gzip member, or `None` when decoding fails. The result is a
/// function of the bytes, named [`gzip_decoded`]; the decompression itself
/// is not stated.
#[verifier::external_body]
fn gunzip(bytes: &[u8]) -> (r: Option<Vec<u8>>)
    ensures
        r matches Some(v) ==> gzip_decoded(bytes@) == Some(v@),
        r is None ==> gzip_decoded(bytes@) is None,
{
    let mut decoder = flate2::read::GzDecoder::new(bytes);
    let mut out: Vec<u8> = Vec::new();
    match std::io::Read::read_to_end(&mut decoder, &mut out) {
        Ok(_) => Some(out),
        Err(_) => None,
    }
}

/// The payload starts with the gzip magic bytes.
pub open spec fn is_gzip(bytes: Seq<u8>) -> bool {
    bytes.len() >= 2 && bytes[0] == 0x1fu8 && bytes[1] == 0x8bu8
}

/// A fetched payload, unpacked when it is gzip.
pub open spec fn spec_maybe_decompress(bytes: Seq<u8>) -> Result<Seq<u8>, FetchError> {
    if is_gzip(bytes) {
        match gzip_decoded(bytes) {
            Some(v) => Ok(v),
            None => Err(FetchError::Gzip),
        }
    } else {
        Ok(bytes)
    }
}

/// A fetched payload, unpacked when it is gzip.
pub fn maybe_decompress_gzip(bytes: &[u8]) -> (r: Result<Vec<u8>, FetchError>)
    ensures
        r matches Ok(v) ==> spec_maybe_decompress(bytes@) == Ok::<Seq<u8>, FetchError>(v@),
        r matches Err(e) ==> spec_maybe_decompress(bytes@) == Err::<Seq<u8>, FetchError>(e),
{
    if bytes.len() >= 2 && bytes[0] == 0x1f && bytes[1] == 0x8b {
        match gunzip(bytes) {
            Some(v) => Ok(v),
            None => Err(FetchError::Gzip),
        }
    } else {
        let mut out: Vec<u8> = Vec::new();
        let mut i: usize = 0;
        while i < bytes.len()
            invariant
                i <= bytes@.len(),
                out@ == bytes@.take(i as int),
            decreases bytes@.len() - i,
        {
            out.push(bytes[i]);
            i = i + 1;
            assert(out@ =~= bytes@.take(i as int));
        }
        assert(bytes@.take(bytes@.len() as int) =~= bytes@);
        Ok(out)
    }
}

} // verus!
