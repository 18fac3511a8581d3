//! The decisions of an update run: which sources to fetch, what to do with
//! a source whose fetch failed or gave nothing, and where the entries of a
//! subscription come from.
use vstd::prelude::*;
use crate::aggregate::{source_iptv_allowed, spec_iptv_label_allowed};
use crate::config::Settings;
use crate::models::Origin;
use crate::source_list::{SourceEntry, SourceSection, SpecSourceEntry};
use crate::text::{chars_of, string_views, trim, trim_chars};

verus! {

broadcast use vstd::string::group_string_axioms;

/// What becomes of a fetched source.
#[derive(Debug, Clone, Copy, PartialEq, Eq, Structural)]
pub enum SourceAction {
    /// Passed over.
    Skip,
    /// Commented out in its list, then passed over.
    Disable,
    /// Its payload is used.
    Use,
}

/// A subscription is fetched when it is enabled, has an address and passes
/// the IPTV source filter.
pub open spec fn spec_subscription_wanted(e: SpecSourceEntry, st: Settings) -> bool {
    &&& e.enabled
    &&& trim(e.url).len() > 0
    &&& spec_iptv_label_allowed(e.iptv_source, e.iptv_restricted, string_views(st.iptv_source_filter@))
}

/// Whether a subscription is fetched.
pub fn subscription_wanted(source: &SourceEntry, settings: &Settings) -> (b: bool)
    ensures
        b == spec_subscription_wanted(source@, *settings),
{
    source.enabled && trim_chars(chars_of(source.url.as_str()).as_slice()).len() > 0
        && source_iptv_allowed(source, settings)
}

/// Whether a guide source is fetched: it is enabled and has an address.
pub fn guide_source_wanted(source: &SourceEntry) -> (b: bool)
    ensures
        b == (source.enabled && trim(source.url@).len() > 0),
{
    source.enabled && trim_chars(chars_of(source.url.as_str()).as_slice()).len() > 0
}

/// A source whose fetch failed or gave nothing is disabled when automatic
/// disabling is on, else passed over; any other payload is used.
pub open spec fn spec_fetched_action(st: Settings, failed_or_empty: bool) -> SourceAction {
    if !failed_or_empty {
        SourceAction::Use
    } else if st.open_auto_disable_source {
        SourceAction::Disable
    } else {
        SourceAction::Skip
    }
}

/// What becomes of a subscription after its fetch: `None` when the fetch
/// failed, else its text; a blank text counts as nothing.
pub fn subscription_action(settings: &Settings, body: Option<&str>) -> (a: SourceAction)
    ensures
        a == spec_fetched_action(
            *settings,
            match body {
                Some(b) => trim(b@).len() == 0,
                None => true,
            },
        ),
{
    let empty = match body {
        Some(b) => trim_chars(chars_of(b).as_slice()).len() == 0,
        None => true,
    };
    if !empty {
        SourceAction::Use
    } else if settings.open_auto_disable_source {
        SourceAction::Disable
    } else {
        SourceAction::Skip
    }
}

/// What becomes of a guide source after its fetch: `None` when the fetch
/// failed, else its bytes.
pub fn guide_action(settings: &Settings, bytes: Option<&[u8]>) -> (a: SourceAction)
    ensures
        a == spec_fetched_action(
            *settings,
            match bytes {
                Some(b) => b@.len() == 0,
                None => true,
            },
        ),
{
    let empty = match bytes {
        Some(b) => b.len() == 0,
        None => true,
    };
    if !empty {
        SourceAction::Use
    } else if settings.open_auto_disable_source {
        SourceAction::Disable
    } else {
        SourceAction::Skip
    }
}

/// The origin of a subscription's entries: whitelisted subscriptions give
/// whitelisted entries.
pub fn subscription_origin(source: &SourceEntry) -> (o: Origin)
    ensures
        o == (match source.section {
            SourceSection::Whitelist => Origin::SubscribeWhitelist,
            SourceSection::Default => Origin::Subscribe,
        }),
{
    match source.section {
        SourceSection::Whitelist => Origin::SubscribeWhitelist,
        SourceSection::Default => Origin::Subscribe,
    }
}

/// A subscription whose playlist gave no entries is disabled when automatic
/// disabling is on.
pub fn disable_after_parse(settings: &Settings, parsed: usize) -> (b: bool)
    ensures
        b == (parsed == 0 && settings.open_auto_disable_source),
{
    parsed == 0 && settings.open_auto_disable_source
}

} // verus!
