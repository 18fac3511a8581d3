//! Choosing and ordering the streams of channels: the IPTV source filter,
//! the preferred sources, origins and address families, and the limit on
//! streams per channel.
use vstd::prelude::*;
use crate::config::Settings;
use crate::hosts::{infer_ipv_type, spec_infer_ipv_type};
use crate::models::{
    channel_views, has_url, ipv_name, urls_unique, opt_view, parsed_views, spec_channel_new, spec_merge,
    stream_views, Channel, IpvType, Origin, ParsedChannel, SpecChannel, SpecParsedChannel,
    SpecStream, Stream,
};
use crate::rules::{
    spec_is_blacklisted, spec_is_whitelisted, spec_primary_name, spec_whitelist_urls_for,
    AliasMatcher, FilterRules, SpecAliasMatcher, SpecFilterRules,
};
use crate::sorting::{
    compare_keys, compare_part, is_perm, key_list_view, key_view, keys_in_order, lemma_stable_sort_map, stable_sort,
    stable_sort_of, KeyPart, SpecKeyPart,
};
use crate::source_list::SourceEntry;
use crate::text::{
    append_chars, ascii_lower_exec, ascii_lower_seq, char_lowercase, char_to_lowercase, chars_of,
    eq_chars, is_ws, is_ws_char, string_views, views,
};

verus! {

broadcast use vstd::string::group_string_axioms;

// ---------------------------------------------------------------------------
// Positions in preference lists
// ---------------------------------------------------------------------------

/// The first position of `x` in `list`.
pub open spec fn first_index(list: Seq<Seq<char>>, x: Seq<char>) -> Option<int>
    decreases list.len(),
{
    if list.len() == 0 {
        None
    } else if list[0] == x {
        Some(0)
    } else {
        match first_index(list.drop_first(), x) {
            Some(i) => Some(i + 1),
            None => None,
        }
    }
}

/// A position found is that of the first occurrence.
pub proof fn lemma_first_index_bounds(list: Seq<Seq<char>>, x: Seq<char>)
    ensures
        first_index(list, x) matches Some(i) ==> 0 <= i < list.len() && list[i] == x && forall|
            j: int,
        |
            0 <= j < i ==> #[trigger] list[j] != x,
        first_index(list, x) is None ==> forall|j: int| 0 <= j < list.len() ==> #[trigger] list[j]
            != x,
    decreases list.len(),
{
    if list.len() > 0 && list[0] != x {
        lemma_first_index_bounds(list.drop_first(), x);
        assert forall|j: int| 1 <= j < list.len() implies list[j] == list.drop_first()[j - 1] by {}
    }
}

proof fn lemma_first_index(list: Seq<Seq<char>>, x: Seq<char>, i: int)
    requires
        0 <= i <= list.len(),
        forall|j: int| 0 <= j < i ==> #[trigger] list[j] != x,
    ensures
        i < list.len() && list[i] == x ==> first_index(list, x) == Some(i),
        i == list.len() ==> first_index(list, x) is None,
    decreases i,
{
    if i > 0 {
        assert(list[0] != x);
        let rest = list.drop_first();
        assert forall|j: int| 0 <= j < i - 1 implies #[trigger] rest[j] != x by {
            assert(rest[j] == list[j + 1]);
        }
        lemma_first_index(rest, x, i - 1);
        if i < list.len() {
            assert(rest[i - 1] == list[i]);
        }
    }
}

/// The first position of a text in a list of strings.
fn position_of(list: &Vec<String>, x: &[char]) -> (r: Option<usize>)
    ensures
        r matches Some(i) ==> first_index(string_views(list@), x@) == Some(i as int),
        r is None ==> first_index(string_views(list@), x@) is None,
{
    let ghost sv = string_views(list@);
    let mut i: usize = 0;
    while i < list.len()
        invariant
            i <= list@.len(),
            sv == string_views(list@),
            forall|j: int| 0 <= j < i ==> #[trigger] sv[j] != x@,
        decreases list@.len() - i,
    {
        let c = chars_of(list[i].as_str());
        if eq_chars(c.as_slice(), x) {
            proof {
                lemma_first_index(sv, x@, i as int);
            }
            return Some(i);
        }
        i = i + 1;
    }
    proof {
        lemma_first_index(sv, x@, i as int);
    }
    None
}

// ---------------------------------------------------------------------------
// Ranks and sort keys of streams
// ---------------------------------------------------------------------------

/// The preference lists are short enough that a rank past their end fits
/// in a `usize`.
pub open spec fn settings_fit(st: Settings) -> bool {
    st.origin_type_prefer@.len() + 4 <= usize::MAX
}

/// The rank of a stream's IPTV source: its position among the preferred
/// sources (compared in lower case), else past them all.
pub open spec fn spec_iptv_source_rank(s: SpecStream, prefer: Seq<Seq<char>>) -> nat {
    match s.iptv_source {
        None => prefer.len(),
        Some(src) => match first_index(prefer, ascii_lower_seq(src)) {
            Some(i) => i as nat,
            None => prefer.len(),
        },
    }
}

/// The kind of origin named in the origin preference.
pub open spec fn origin_type_name(o: Origin) -> Seq<char> {
    match o {
        Origin::Template | Origin::Local => "local"@,
        Origin::Subscribe | Origin::SubscribeWhitelist => "subscribe"@,
    }
}

/// The rank of an origin: its kind's position among the preferred kinds,
/// else past them by the origin's priority.
pub open spec fn spec_origin_rank(o: Origin, prefer: Seq<Seq<char>>) -> nat {
    match first_index(prefer, origin_type_name(o)) {
        Some(i) => i as nat,
        None => o.spec_priority() + prefer.len(),
    }
}

/// The rank of an address family: its position among the preferred ones,
/// else past them all.
pub open spec fn spec_ipv_rank(t: IpvType, prefer: Seq<Seq<char>>) -> nat {
    match first_index(prefer, ipv_name(t)) {
        Some(i) => i as nat,
        None => prefer.len(),
    }
}

/// The key by which the streams of a channel are ordered: IPTV source rank,
/// whitelisted first, origin rank, address family rank, the position of the
/// source, then the address.
pub open spec fn spec_stream_key(s: SpecStream, st: Settings) -> Seq<SpecKeyPart> {
    seq![
        SpecKeyPart::Num(spec_iptv_source_rank(s, string_views(st.iptv_source_prefer@))),
        SpecKeyPart::Num(if s.whitelist { 0 } else { 1 }),
        SpecKeyPart::Num(spec_origin_rank(s.origin, string_views(st.origin_type_prefer@))),
        SpecKeyPart::Num(spec_ipv_rank(s.ipv_type, string_views(st.ipv_type_prefer@))),
        SpecKeyPart::Num(s.source_order as nat),
        SpecKeyPart::Text(s.url),
    ]
}

/// The sort keys of streams.
pub open spec fn stream_keys(ss: Seq<SpecStream>, st: Settings) -> Seq<Seq<SpecKeyPart>> {
    ss.map_values(|s: SpecStream| spec_stream_key(s, st))
}

/// `out` is `inp` with its streams in order: sorted by their keys, streams
/// with equal keys in their first order.
pub open spec fn streams_sorted_from(out: SpecChannel, inp: SpecChannel, st: Settings) -> bool {
    &&& out.name == inp.name
    &&& out.group == inp.group
    &&& out.tvg_id == inp.tvg_id
    &&& out.logo == inp.logo
    &&& out.order == inp.order
    &&& stable_sort_of(out.streams, inp.streams, stream_keys(inp.streams, st))
}

fn iptv_source_rank(stream: &Stream, settings: &Settings) -> (r: usize)
    ensures
        r == spec_iptv_source_rank(stream@, string_views(settings.iptv_source_prefer@)),
{
    match &stream.iptv_source {
        None => settings.iptv_source_prefer.len(),
        Some(src) => {
            let s = ascii_lower_exec(chars_of(src.as_str()).as_slice());
            proof {
                lemma_first_index_bounds(string_views(settings.iptv_source_prefer@), s@);
            }
            match position_of(&settings.iptv_source_prefer, s.as_slice()) {
                Some(i) => i,
                None => settings.iptv_source_prefer.len(),
            }
        },
    }
}

fn origin_rank(origin: Origin, settings: &Settings) -> (r: usize)
    requires
        settings_fit(*settings),
    ensures
        r == spec_origin_rank(origin, string_views(settings.origin_type_prefer@)),
{
    let name = match origin {
        Origin::Template | Origin::Local => chars_of("local"),
        Origin::Subscribe | Origin::SubscribeWhitelist => chars_of("subscribe"),
    };
    proof {
        lemma_first_index_bounds(string_views(settings.origin_type_prefer@), name@);
    }
    match position_of(&settings.origin_type_prefer, name.as_slice()) {
        Some(i) => i,
        None => origin.priority() + settings.origin_type_prefer.len(),
    }
}

fn ipv_rank(ipv_type: IpvType, settings: &Settings) -> (r: usize)
    ensures
        r == spec_ipv_rank(ipv_type, string_views(settings.ipv_type_prefer@)),
{
    let name = chars_of(ipv_type.as_str());
    proof {
        lemma_first_index_bounds(string_views(settings.ipv_type_prefer@), name@);
    }
    match position_of(&settings.ipv_type_prefer, name.as_slice()) {
        Some(i) => i,
        None => settings.ipv_type_prefer.len(),
    }
}

fn stream_sort_key(stream: &Stream, settings: &Settings) -> (k: Vec<KeyPart>)
    requires
        settings_fit(*settings),
    ensures
        key_view(k@) == spec_stream_key(stream@, *settings),
{
    let mut k: Vec<KeyPart> = Vec::new();
    k.push(KeyPart::Num(iptv_source_rank(stream, settings)));
    k.push(
        KeyPart::Num(
            if stream.whitelist {
                0
            } else {
                1
            },
        ),
    );
    k.push(KeyPart::Num(origin_rank(stream.origin, settings)));
    k.push(KeyPart::Num(ipv_rank(stream.ipv_type, settings)));
    k.push(KeyPart::Num(stream.source_order));
    k.push(KeyPart::Text(chars_of(stream.url.as_str())));
    assert(key_view(k@) =~= spec_stream_key(stream@, *settings));
    k
}

/// Orders the streams of a channel by IPTV source preference, whitelist,
/// origin preference, address family preference, source position and
/// address.
pub fn sort_channel_streams(channel: &mut Channel, settings: &Settings)
    requires
        settings_fit(*settings),
    ensures
        streams_sorted_from(final(channel)@, old(channel)@, *settings),
{
    let mut streams: Vec<Stream> = Vec::new();
    std::mem::swap(&mut streams, &mut channel.streams);
    let ghost orig = streams@;
    let mut keys: Vec<Vec<KeyPart>> = Vec::new();
    let mut i: usize = 0;
    while i < streams.len()
        invariant
            i <= streams@.len(),
            streams@ == orig,
            settings_fit(*settings),
            keys@.len() == i,
            forall|j: int| 0 <= j < i ==> key_view(#[trigger] keys@[j]@) == spec_stream_key(
                orig[j]@,
                *settings,
            ),
        decreases streams@.len() - i,
    {
        let k = stream_sort_key(&streams[i], settings);
        keys.push(k);
        i = i + 1;
    }
    let sorted = stable_sort(streams, keys);
    proof {
        assert(key_list_view(keys@) =~= stream_keys(stream_views(orig), *settings));
        lemma_stable_sort_map(sorted@, orig, key_list_view(keys@), |x: Stream| x@);
        assert(stream_views(sorted@) =~= sorted@.map_values(|x: Stream| x@));
        assert(stream_views(orig) =~= orig.map_values(|x: Stream| x@));
    }
    channel.streams = sorted;
}

proof fn lemma_first_index_absent(list: Seq<Seq<char>>, x: Seq<char>)
    requires
        !list.contains(x),
    ensures
        first_index(list, x) is None,
{
    lemma_first_index_bounds(list, x);
    if let Some(i) = first_index(list, x) {
        assert(list[i] == x);
    }
}

/// Law: an origin whose kind (`local` or `subscribe`) the preference does
/// not name ranks after every preferred kind, by its priority: templates
/// first, then whitelisted subscriptions, local sources, and other
/// subscriptions.
pub proof fn law_unpreferred_origin_ranks(prefer: Seq<Seq<char>>)
    requires
        !prefer.contains("local"@),
        !prefer.contains("subscribe"@),
    ensures
        spec_origin_rank(Origin::Template, prefer) == prefer.len(),
        spec_origin_rank(Origin::SubscribeWhitelist, prefer) == prefer.len() + 1,
        spec_origin_rank(Origin::Local, prefer) == prefer.len() + 2,
        spec_origin_rank(Origin::Subscribe, prefer) == prefer.len() + 3,
{
    lemma_first_index_absent(prefer, "local"@);
    lemma_first_index_absent(prefer, "subscribe"@);
}

/// Law: an origin whose kind the preference names ranks at the first
/// place where it is named: templates and local sources by `local`,
/// subscriptions (whitelisted or not) by `subscribe`.
pub proof fn law_preferred_origin_ranks(prefer: Seq<Seq<char>>, i: int)
    requires
        0 <= i < prefer.len(),
        forall|j: int| 0 <= j < i ==> #[trigger] prefer[j] != prefer[i],
    ensures
        prefer[i] == "local"@ ==> spec_origin_rank(Origin::Template, prefer) == i
            && spec_origin_rank(Origin::Local, prefer) == i,
        prefer[i] == "subscribe"@ ==> spec_origin_rank(Origin::Subscribe, prefer) == i
            && spec_origin_rank(Origin::SubscribeWhitelist, prefer) == i,
{
    lemma_first_index_bounds(prefer, prefer[i]);
    if let Some(k) = first_index(prefer, prefer[i]) {
        if k < i {
            assert(prefer[k] == prefer[i]);
        }
        if k > i {
            assert(prefer[i] != prefer[i]);
        }
    } else {
        assert(prefer[i] != prefer[i]);
    }
}

/// Law: when the origin preference names neither `local` nor `subscribe`,
/// a channel's sorted streams never list a subscribed stream before a local
/// one with the same IPTV source and whitelist flag.
pub proof fn law_local_streams_before_subscribed(
    out: SpecChannel,
    inp: SpecChannel,
    st: Settings,
    i: int,
    j: int,
)
    requires
        streams_sorted_from(out, inp, st),
        !string_views(st.origin_type_prefer@).contains("local"@),
        !string_views(st.origin_type_prefer@).contains("subscribe"@),
        0 <= i < j < out.streams.len(),
        out.streams[i].iptv_source == out.streams[j].iptv_source,
        out.streams[i].whitelist == out.streams[j].whitelist,
    ensures
        !(out.streams[i].origin == Origin::Subscribe && out.streams[j].origin == Origin::Local),
{
    let ks = stream_keys(inp.streams, st);
    let p = choose|p: Seq<int>|
        is_perm(p, inp.streams.len()) && keys_in_order(ks, p) && out.streams.len()
            == inp.streams.len() && forall|k: int|
            0 <= k < out.streams.len() ==> #[trigger] out.streams[k] == inp.streams[p[k]];
    let a = out.streams[i];
    let b = out.streams[j];
    assert(a == inp.streams[p[i]]);
    assert(b == inp.streams[p[j]]);
    assert(0 <= p[i] < inp.streams.len());
    assert(0 <= p[j] < inp.streams.len());
    assert(ks[p[i]] == spec_stream_key(a, st));
    assert(ks[p[j]] == spec_stream_key(b, st));
    assert(compare_keys(ks[p[i]], ks[p[j]]) <= 0);
    if a.origin == Origin::Subscribe && b.origin == Origin::Local {
        law_unpreferred_origin_ranks(string_views(st.origin_type_prefer@));
        let ka = spec_stream_key(a, st);
        let kb = spec_stream_key(b, st);
        assert(ka[0] == kb[0]);
        assert(ka[1] == kb[1]);
        assert(compare_part(ka[2], kb[2]) == 1);
        assert(compare_keys(ka.drop_first().drop_first(), kb.drop_first().drop_first()) == 1);
        assert(compare_keys(ka.drop_first(), kb.drop_first()) == 1);
        assert(compare_keys(ka, kb) == 1);
    }
}

// ---------------------------------------------------------------------------
// The IPTV source filter
// ---------------------------------------------------------------------------

/// A source or stream labelled with an IPTV source may be used: it is not
/// restricted, no filter is set, or its label (in lower case) is one that
/// the filter names.
pub open spec fn spec_iptv_label_allowed(
    source: Option<Seq<char>>,
    restricted: bool,
    filter: Seq<Seq<char>>,
) -> bool {
    ||| !restricted
    ||| filter.len() == 0
    ||| match source {
        Some(s) => filter.contains(ascii_lower_seq(s)),
        None => false,
    }
}

/// A stream passes the IPTV source filter of the settings.
pub open spec fn spec_stream_allowed(s: SpecStream, st: Settings) -> bool {
    spec_iptv_label_allowed(s.iptv_source, s.iptv_restricted, string_views(st.iptv_source_filter@))
}

fn iptv_label_allowed(source: &Option<String>, restricted: bool, settings: &Settings) -> (b: bool)
    ensures
        b == spec_iptv_label_allowed(
            opt_view(*source),
            restricted,
            string_views(settings.iptv_source_filter@),
        ),
{
    if !restricted || settings.iptv_source_filter.len() == 0 {
        return true;
    }
    match source {
        None => false,
        Some(s) => {
            let l = ascii_lower_exec(chars_of(s.as_str()).as_slice());
            let ghost fv = string_views(settings.iptv_source_filter@);
            proof {
                lemma_first_index_bounds(fv, l@);
            }
            match position_of(&settings.iptv_source_filter, l.as_slice()) {
                Some(i) => {
                    assert(fv[i as int] == l@);
                    true
                },
                None => false,
            }
        },
    }
}

/// Whether the entries of a source list entry may be used under the IPTV
/// source filter.
pub fn source_iptv_allowed(source: &SourceEntry, settings: &Settings) -> (b: bool)
    ensures
        b == spec_iptv_label_allowed(
            source@.iptv_source,
            source.iptv_restricted,
            string_views(settings.iptv_source_filter@),
        ),
{
    iptv_label_allowed(&source.iptv_source, source.iptv_restricted, settings)
}

fn stream_allowed_by_iptv_filter(stream: &Stream, settings: &Settings) -> (b: bool)
    ensures
        b == spec_stream_allowed(stream@, *settings),
{
    iptv_label_allowed(&stream.iptv_source, stream.iptv_restricted, settings)
}

// ---------------------------------------------------------------------------
// Output preferences and limits
// ---------------------------------------------------------------------------

/// The streams that pass the IPTV source filter, in their order.
pub open spec fn allowed_streams(ss: Seq<SpecStream>, st: Settings) -> Seq<SpecStream>
    decreases ss.len(),
{
    if ss.len() == 0 {
        seq![]
    } else {
        let prev = allowed_streams(ss.drop_last(), st);
        if spec_stream_allowed(ss.last(), st) {
            prev.push(ss.last())
        } else {
            prev
        }
    }
}

/// A channel kept in the output: one with streams, or any channel when
/// empty categories are shown.
pub open spec fn keep_channel(c: SpecChannel, st: Settings) -> bool {
    st.open_empty_category || c.streams.len() > 0
}

/// A channel with only the streams that pass the IPTV source filter.
pub open spec fn with_allowed_streams(c: SpecChannel, st: Settings) -> SpecChannel {
    SpecChannel { streams: allowed_streams(c.streams, st), ..c }
}

/// The channels after the IPTV source filter, without the channels that it
/// leaves empty unless empty categories are shown.
pub open spec fn preferred_channels(cs: Seq<SpecChannel>, st: Settings) -> Seq<SpecChannel>
    decreases cs.len(),
{
    if cs.len() == 0 {
        seq![]
    } else {
        let prev = preferred_channels(cs.drop_last(), st);
        let c = with_allowed_streams(cs.last(), st);
        if keep_channel(c, st) {
            prev.push(c)
        } else {
            prev
        }
    }
}

fn retain_allowed_streams(channel: &mut Channel, settings: &Settings)
    ensures
        final(channel)@ == with_allowed_streams(old(channel)@, *settings),
{
    let mut streams: Vec<Stream> = Vec::new();
    std::mem::swap(&mut streams, &mut channel.streams);
    let ghost orig = stream_views(streams@);
    let mut kept: Vec<Stream> = Vec::new();
    let mut k: usize = 0;
    let n = streams.len();
    assert(orig.take(0) =~= Seq::<SpecStream>::empty());
    while streams.len() > 0
        invariant
            k + streams@.len() == n,
            orig.len() == n,
            stream_views(streams@) == orig.skip(k as int),
            stream_views(kept@) == allowed_streams(orig.take(k as int), *settings),
        decreases streams@.len(),
    {
        let ghost pre = streams@;
        let s = streams.remove(0);
        proof {
            assert(orig.take(k + 1).drop_last() =~= orig.take(k as int));
            assert(orig.take(k + 1).last() == orig[k as int]);
            assert(stream_views(pre)[0] == orig.skip(k as int)[0]);
            assert forall|j: int| 0 <= j < streams@.len() implies #[trigger] stream_views(
                streams@,
            )[j] == orig.skip(k + 1)[j] by {
                assert(streams@[j] == pre[j + 1]);
                assert(stream_views(pre)[j + 1] == orig.skip(k as int)[j + 1]);
            }
            assert(stream_views(streams@) =~= orig.skip(k + 1));
        }
        if stream_allowed_by_iptv_filter(&s, settings) {
            let ghost before = stream_views(kept@);
            kept.push(s);
            assert(stream_views(kept@) =~= before.push(orig[k as int]));
        }
        k = k + 1;
    }
    assert(orig.take(n as int) =~= orig);
    channel.streams = kept;
}

/// Applies the IPTV source filter to every channel's streams and orders
/// them; channels left without streams are dropped unless empty categories
/// are shown.
pub fn apply_output_preferences(channels: &mut Vec<Channel>, settings: &Settings)
    requires
        settings_fit(*settings),
    ensures
        final(channels)@.len() == preferred_channels(channel_views(old(channels)@), *settings).len(),
        forall|i: int|
            0 <= i < final(channels)@.len() ==> streams_sorted_from(
                #[trigger] final(channels)@[i]@,
                preferred_channels(channel_views(old(channels)@), *settings)[i],
                *settings,
            ),
{
    let mut rest: Vec<Channel> = Vec::new();
    std::mem::swap(&mut rest, channels);
    let ghost orig = channel_views(rest@);
    let n = rest.len();
    let mut k: usize = 0;
    assert(orig.take(0) =~= Seq::<SpecChannel>::empty());
    while rest.len() > 0
        invariant
            k + rest@.len() == n,
            orig.len() == n,
            settings_fit(*settings),
            channel_views(rest@) == orig.skip(k as int),
            channels@.len() == preferred_channels(orig.take(k as int), *settings).len(),
            forall|i: int|
                0 <= i < channels@.len() ==> streams_sorted_from(
                    #[trigger] channels@[i]@,
                    preferred_channels(orig.take(k as int), *settings)[i],
                    *settings,
                ),
        decreases rest@.len(),
    {
        let ghost pre = rest@;
        let mut c = rest.remove(0);
        proof {
            assert(orig.take(k + 1).drop_last() =~= orig.take(k as int));
            assert(orig.take(k + 1).last() == orig[k as int]);
            assert(channel_views(pre)[0] == orig.skip(k as int)[0]);
            assert forall|j: int| 0 <= j < rest@.len() implies #[trigger] channel_views(rest@)[j]
                == orig.skip(k + 1)[j] by {
                assert(rest@[j] == pre[j + 1]);
                assert(channel_views(pre)[j + 1] == orig.skip(k as int)[j + 1]);
            }
            assert(channel_views(rest@) =~= orig.skip(k + 1));
        }
        retain_allowed_streams(&mut c, settings);
        let ghost filtered = c@;
        sort_channel_streams(&mut c, settings);
        let keep = settings.open_empty_category || c.streams.len() > 0;
        proof {
            // sorting keeps the number of streams
            let p = choose|p: Seq<int>|
                crate::sorting::is_perm(p, filtered.streams.len()) && crate::sorting::keys_in_order(
                    stream_keys(filtered.streams, *settings),
                    p,
                ) && c@.streams.len() == filtered.streams.len() && forall|i: int|
                    0 <= i < c@.streams.len() ==> #[trigger] c@.streams[i] == filtered.streams[p[i]];
            assert(c@.streams.len() == filtered.streams.len());
            assert(stream_views(c.streams@).len() == c.streams@.len());
        }
        if keep {
            let ghost before = channels@;
            channels.push(c);
            proof {
                assert forall|i: int| 0 <= i < channels@.len() implies streams_sorted_from(
                    #[trigger] channels@[i]@,
                    preferred_channels(orig.take(k + 1), *settings)[i],
                    *settings,
                ) by {
                    if i < before.len() {
                        assert(channels@[i] == before[i]);
                    }
                }
            }
        }
        k = k + 1;
    }
    assert(orig.take(n as int) =~= orig);
}

/// A channel with at most `limit` streams, the first ones.
pub open spec fn limited(c: SpecChannel, limit: nat) -> SpecChannel {
    SpecChannel {
        streams: if c.streams.len() <= limit {
            c.streams
        } else {
            c.streams.take(limit as int)
        },
        ..c
    }
}

/// Keeps at most the configured number of streams in every channel.
pub fn limit_channel_streams(channels: &mut Vec<Channel>, settings: &Settings)
    ensures
        final(channels)@.len() == old(channels)@.len(),
        forall|i: int|
            0 <= i < final(channels)@.len() ==> #[trigger] final(channels)@[i]@ == limited(
                old(channels)@[i]@,
                settings.urls_limit as nat,
            ),
{
    let mut rest: Vec<Channel> = Vec::new();
    std::mem::swap(&mut rest, channels);
    let ghost orig = rest@;
    let n = rest.len();
    let mut k: usize = 0;
    while rest.len() > 0
        invariant
            k + rest@.len() == n,
            orig.len() == n,
            rest@ == orig.skip(k as int),
            channels@.len() == k,
            forall|i: int|
                0 <= i < k ==> #[trigger] channels@[i]@ == limited(
                    orig[i]@,
                    settings.urls_limit as nat,
                ),
        decreases rest@.len(),
    {
        let mut c = rest.remove(0);
        assert(orig.skip(k as int)[0] == orig[k as int]);
        assert(rest@ =~= orig.skip(k + 1));
        let ghost before = c@;
        c.streams.truncate(settings.urls_limit);
        proof {
            if before.streams.len() > settings.urls_limit {
                assert(stream_views(c.streams@) =~= before.streams.take(settings.urls_limit as int));
            } else {
                assert(stream_views(c.streams@) =~= before.streams);
            }
            assert(c@ == limited(orig[k as int]@, settings.urls_limit as nat));
        }
        let ghost prev = channels@;
        channels.push(c);
        assert forall|i: int| 0 <= i < k + 1 implies #[trigger] channels@[i]@ == limited(
            orig[i]@,
            settings.urls_limit as nat,
        ) by {
            if i < k {
                assert(channels@[i] == prev[i]);
            }
        }
        k = k + 1;
    }
}


// ---------------------------------------------------------------------------
// Merging entries into channels
// ---------------------------------------------------------------------------

/// The address family setting lets streams of family `t` through: `all`
/// or an empty setting lets every stream through, `ipv4` also lets through
/// streams whose family is unknown.
pub open spec fn spec_matches_ipv_type(st: Settings, t: IpvType) -> bool {
    ||| st.ipv_type@ == "all"@
    ||| st.ipv_type@.len() == 0
    ||| st.ipv_type@ == ipv_name(t)
    ||| (t == IpvType::Unknown && st.ipv_type@ == "ipv4"@)
}

fn matches_ipv_type(settings: &Settings, ipv_type: IpvType) -> (b: bool)
    ensures
        b == spec_matches_ipv_type(*settings, ipv_type),
{
    let v = chars_of(settings.ipv_type.as_str());
    let all = chars_of("all");
    let name = chars_of(ipv_type.as_str());
    let v4 = chars_of("ipv4");
    eq_chars(v.as_slice(), all.as_slice()) || v.len() == 0 || eq_chars(
        v.as_slice(),
        name.as_slice(),
    ) || (ipv_type == IpvType::Unknown && eq_chars(v.as_slice(), v4.as_slice()))
}

/// The key under which entries of one channel are merged: the name without
/// whitespace, in lower case.
pub open spec fn spec_normalize_key(s: Seq<char>) -> Seq<char>
    decreases s.len(),
{
    if s.len() == 0 {
        seq![]
    } else {
        let prev = spec_normalize_key(s.drop_last());
        if is_ws(s.last()) {
            prev
        } else {
            prev + char_lowercase(s.last())
        }
    }
}

pub(crate) fn normalize_channel_key(name: &[char]) -> (r: Vec<char>)
    ensures
        r@ == spec_normalize_key(name@),
{
    let mut out: Vec<char> = Vec::new();
    let mut i: usize = 0;
    assert(name@.take(0) =~= Seq::<char>::empty());
    while i < name.len()
        invariant
            i <= name@.len(),
            out@ == spec_normalize_key(name@.take(i as int)),
        decreases name@.len() - i,
    {
        assert(name@.take(i + 1).drop_last() =~= name@.take(i as int));
        assert(name@.take(i + 1).last() == name@[i as int]);
        let c = name[i];
        if !is_ws_char(c) {
            let l = char_to_lowercase(c);
            append_chars(&mut out, l.as_slice());
        }
        i = i + 1;
    }
    assert(name@.take(name@.len() as int) =~= name@);
    out
}

/// The keys of the channels that templates list.
pub open spec fn template_keys(items: Seq<SpecParsedChannel>, al: SpecAliasMatcher) -> Seq<
    Seq<char>,
>
    decreases items.len(),
{
    if items.len() == 0 {
        seq![]
    } else {
        let prev = template_keys(items.drop_last(), al);
        if items.last().order < 1_000_000 {
            prev.push(spec_normalize_key(spec_primary_name(al, items.last().name)))
        } else {
            prev
        }
    }
}

fn collect_template_keys(items: &Vec<ParsedChannel>, aliases: &AliasMatcher) -> (r: Vec<
    Vec<char>,
>)
    requires
        aliases.wf(),
    ensures
        views(r@) == template_keys(parsed_views(items@), aliases@),
{
    let ghost pv = parsed_views(items@);
    let mut r: Vec<Vec<char>> = Vec::new();
    let mut i: usize = 0;
    assert(pv.take(0) =~= Seq::<SpecParsedChannel>::empty());
    assert(views(r@) =~= Seq::<Seq<char>>::empty());
    while i < items.len()
        invariant
            i <= items@.len(),
            pv == parsed_views(items@),
            aliases.wf(),
            views(r@) == template_keys(pv.take(i as int), aliases@),
        decreases items@.len() - i,
    {
        assert(pv.take(i + 1).drop_last() =~= pv.take(i as int));
        assert(pv.take(i + 1).last() == items@[i as int]@);
        if items[i].order < 1_000_000 {
            let primary = aliases.primary_name(items[i].name.as_str());
            let key = normalize_channel_key(chars_of(primary.as_str()).as_slice());
            let ghost before = views(r@);
            r.push(key);
            assert(views(r@) =~= before.push(key@));
        }
        i = i + 1;
    }
    assert(pv.take(pv.len() as int) =~= pv);
    r
}

pub(crate) fn contains_key(keys: &Vec<Vec<char>>, key: &[char]) -> (b: bool)
    ensures
        b == views(keys@).contains(key@),
{
    let mut i: usize = 0;
    while i < keys.len()
        invariant
            i <= keys@.len(),
            forall|j: int| 0 <= j < i ==> #[trigger] views(keys@)[j] != key@,
        decreases keys@.len() - i,
    {
        if eq_chars(keys[i].as_slice(), key) {
            assert(views(keys@)[i as int] == key@);
            return true;
        }
        i = i + 1;
    }
    false
}

/// The group given to channels that no template lists.
pub open spec fn unmatched_group() -> Seq<char> {
    "未匹配频道"@
}

/// An entry as it joins its channel, or nothing when it is left out. The
/// name becomes the primary name. Entries of channels that no template
/// lists are left out, or put in the unmatched group when unmatched
/// channels are kept. A stream gets the address family of its host and is
/// whitelisted when the whitelist names it; an entry whose stream is
/// blacklisted and not whitelisted, or of a family the settings exclude, is
/// left out.
pub open spec fn admitted_entry(
    item: SpecParsedChannel,
    st: Settings,
    al: SpecAliasMatcher,
    rules: SpecFilterRules,
    tk: Seq<Seq<char>>,
) -> Option<SpecParsedChannel> {
    let primary = spec_primary_name(al, item.name);
    let is_template_match = tk.contains(spec_normalize_key(primary));
    let is_template = item.order < 1_000_000;
    let group = if !is_template && !is_template_match {
        Some(unmatched_group())
    } else {
        item.group
    };
    if !is_template && !is_template_match && !st.open_unmatch_category {
        None
    } else {
        match item.stream {
            None => Some(
                SpecParsedChannel {
                    name: primary,
                    group,
                    tvg_id: item.tvg_id,
                    logo: item.logo,
                    stream: None,
                    order: item.order,
                },
            ),
            Some(s) => {
                let t = spec_infer_ipv_type(s.url);
                let wl = s.whitelist || spec_is_whitelisted(rules, s.url, primary);
                if !wl && spec_is_blacklisted(rules, s.url) {
                    None
                } else if !spec_matches_ipv_type(st, t) {
                    None
                } else {
                    Some(
                        SpecParsedChannel {
                            name: primary,
                            group,
                            tvg_id: item.tvg_id,
                            logo: item.logo,
                            stream: Some(
                                SpecStream {
                                    url: s.url,
                                    origin: s.origin,
                                    whitelist: wl,
                                    source_order: s.source_order,
                                    iptv_source: s.iptv_source,
                                    iptv_restricted: s.iptv_restricted,
                                    ipv_type: t,
                                },
                            ),
                            order: item.order,
                        },
                    )
                }
            },
        }
    }
}

fn admit_entry(
    item: ParsedChannel,
    settings: &Settings,
    aliases: &AliasMatcher,
    rules: &FilterRules,
    tk: &Vec<Vec<char>>,
) -> (r: Option<(Vec<char>, ParsedChannel)>)
    requires
        aliases.wf(),
        rules.wf(),
    ensures
        r matches Some(e) ==> admitted_entry(item@, *settings, aliases@, rules@, views(tk@)) == Some(
            e.1@,
        ) && e.0@ == spec_normalize_key(e.1@.name),
        r is None ==> admitted_entry(item@, *settings, aliases@, rules@, views(tk@)) is None,
{
    let primary = aliases.primary_name(item.name.as_str());
    let key = normalize_channel_key(chars_of(primary.as_str()).as_slice());
    let is_template_match = contains_key(tk, key.as_slice());
    let is_template = item.order < 1_000_000;
    if !is_template && !is_template_match && !settings.open_unmatch_category {
        return None;
    }
    let group = if !is_template && !is_template_match {
        Some("未匹配频道".to_owned())
    } else {
        item.group
    };
    let stream = match item.stream {
        None => None,
        Some(s) => {
            let url_chars = chars_of(s.url.as_str());
            let t = infer_ipv_type(url_chars.as_slice());
            let wl = s.whitelist || rules.is_whitelisted(s.url.as_str(), primary.as_str());
            if !wl && rules.is_blacklisted(s.url.as_str()) {
                return None;
            }
            if !matches_ipv_type(settings, t) {
                return None;
            }
            Some(
                Stream {
                    url: s.url,
                    origin: s.origin,
                    whitelist: wl,
                    source_order: s.source_order,
                    iptv_source: s.iptv_source,
                    iptv_restricted: s.iptv_restricted,
                    ipv_type: t,
                },
            )
        },
    };
    Some(
        (
            key,
            ParsedChannel {
                name: primary,
                group,
                tvg_id: item.tvg_id,
                logo: item.logo,
                stream,
                order: item.order,
            },
        ),
    )
}

/// The keyed channels of exec entries.
pub open spec fn keyed_views(e: Seq<(Vec<char>, Channel)>) -> Seq<(Seq<char>, SpecChannel)> {
    e.map_values(|x: (Vec<char>, Channel)| (x.0@, x.1@))
}

/// The keys of keyed channels.
pub open spec fn entry_keys(e: Seq<(Seq<char>, SpecChannel)>) -> Seq<Seq<char>> {
    e.map_values(|x: (Seq<char>, SpecChannel)| x.0)
}

/// An entry merged into the channel with its key, or starting a new channel
/// after the others.
pub open spec fn upsert(e: Seq<(Seq<char>, SpecChannel)>, key: Seq<char>, item: SpecParsedChannel) -> Seq<
    (Seq<char>, SpecChannel),
> {
    match first_index(entry_keys(e), key) {
        Some(i) => e.update(i, (key, spec_merge(e[i].1, item))),
        None => e.push((key, spec_channel_new(item))),
    }
}

/// The channels that the admitted entries form, keyed, in the order in
/// which their first entries came.
pub open spec fn group_entries(
    items: Seq<SpecParsedChannel>,
    st: Settings,
    al: SpecAliasMatcher,
    rules: SpecFilterRules,
    tk: Seq<Seq<char>>,
) -> Seq<(Seq<char>, SpecChannel)>
    decreases items.len(),
{
    if items.len() == 0 {
        seq![]
    } else {
        let prev = group_entries(items.drop_last(), st, al, rules, tk);
        match admitted_entry(items.last(), st, al, rules, tk) {
            Some(it) => upsert(prev, spec_normalize_key(it.name), it),
            None => prev,
        }
    }
}

fn upsert_entry(entries: &mut Vec<(Vec<char>, Channel)>, key: Vec<char>, item: ParsedChannel)
    ensures
        keyed_views(final(entries)@) == upsert(keyed_views(old(entries)@), key@, item@),
{
    let ghost e0 = keyed_views(entries@);
    let ghost ek = entry_keys(e0);
    let mut i: usize = 0;
    while i < entries.len()
        invariant
            i <= entries@.len(),
            e0 == keyed_views(entries@),
            e0 == keyed_views(old(entries)@),
            ek == entry_keys(e0),
            forall|j: int| 0 <= j < i ==> #[trigger] ek[j] != key@,
        decreases entries@.len() - i,
    {
        assert(ek[i as int] == entries@[i as int].0@);
        if eq_chars(entries[i].0.as_slice(), key.as_slice()) {
            proof {
                lemma_first_index(ek, key@, i as int);
                assert(first_index(ek, key@) == Some(i as int));
            }
            let ghost before = entries@;
            let (k, mut c) = entries.remove(i);
            assert(c@ == e0[i as int].1);
            c.merge(item);
            entries.insert(i, (k, c));
            assert(keyed_views(entries@) =~= e0.update(
                i as int,
                (key@, spec_merge(e0[i as int].1, item@)),
            ));
            return;
        }
        i = i + 1;
    }
    proof {
        lemma_first_index(ek, key@, i as int);
    }
    let c = Channel::new(item);
    entries.push((key, c));
    assert(keyed_views(entries@) =~= e0.push((key@, spec_channel_new(item@))));
}

fn group_items(
    items: Vec<ParsedChannel>,
    settings: &Settings,
    aliases: &AliasMatcher,
    rules: &FilterRules,
    tk: &Vec<Vec<char>>,
) -> (entries: Vec<(Vec<char>, Channel)>)
    requires
        aliases.wf(),
        rules.wf(),
    ensures
        keyed_views(entries@) == group_entries(
            parsed_views(items@),
            *settings,
            aliases@,
            rules@,
            views(tk@),
        ),
{
    let ghost pv = parsed_views(items@);
    let mut rest = items;
    let n = rest.len();
    let mut k: usize = 0;
    let mut entries: Vec<(Vec<char>, Channel)> = Vec::new();
    assert(pv.take(0) =~= Seq::<SpecParsedChannel>::empty());
    assert(keyed_views(entries@) =~= Seq::<(Seq<char>, SpecChannel)>::empty());
    while rest.len() > 0
        invariant
            k + rest@.len() == n,
            pv.len() == n,
            aliases.wf(),
            rules.wf(),
            parsed_views(rest@) == pv.skip(k as int),
            keyed_views(entries@) == group_entries(
                pv.take(k as int),
                *settings,
                aliases@,
                rules@,
                views(tk@),
            ),
        decreases rest@.len(),
    {
        let ghost pre = rest@;
        let item = rest.remove(0);
        proof {
            assert(pv.take(k + 1).drop_last() =~= pv.take(k as int));
            assert(parsed_views(pre)[0] == pv.skip(k as int)[0]);
            assert(pv.take(k + 1).last() == item@);
            assert forall|j: int| 0 <= j < rest@.len() implies #[trigger] parsed_views(rest@)[j]
                == pv.skip(k + 1)[j] by {
                assert(rest@[j] == pre[j + 1]);
                assert(parsed_views(pre)[j + 1] == pv.skip(k as int)[j + 1]);
            }
            assert(parsed_views(rest@) =~= pv.skip(k + 1));
        }
        match admit_entry(item, settings, aliases, rules, tk) {
            Some((key, it)) => {
                upsert_entry(&mut entries, key, it);
            },
            None => {},
        }
        k = k + 1;
    }
    assert(pv.take(n as int) =~= pv);
    entries
}

/// A stream that the whitelist adds to a channel.
pub open spec fn whitelist_stream(url: Seq<char>) -> SpecStream {
    SpecStream {
        url,
        origin: Origin::SubscribeWhitelist,
        whitelist: true,
        source_order: 0,
        iptv_source: None,
        iptv_restricted: false,
        ipv_type: spec_infer_ipv_type(url),
    }
}

/// The streams with each whitelisted address that none of them has added.
pub open spec fn add_whitelist_urls(ss: Seq<SpecStream>, urls: Seq<Seq<char>>) -> Seq<SpecStream>
    decreases urls.len(),
{
    if urls.len() == 0 {
        ss
    } else {
        let prev = add_whitelist_urls(ss, urls.drop_last());
        if has_url(prev, urls.last()) {
            prev
        } else {
            prev.push(whitelist_stream(urls.last()))
        }
    }
}

/// A channel with the addresses that the whitelist lists for it.
pub open spec fn with_whitelist_urls(c: SpecChannel, rules: SpecFilterRules) -> SpecChannel {
    SpecChannel { streams: add_whitelist_urls(c.streams, spec_whitelist_urls_for(rules, c.name)), ..c }
}

fn has_stream_url(streams: &Vec<Stream>, url: &String) -> (b: bool)
    ensures
        b == has_url(stream_views(streams@), url@),
{
    let mut i: usize = 0;
    while i < streams.len()
        invariant
            i <= streams@.len(),
            forall|j: int| 0 <= j < i ==> #[trigger] stream_views(streams@)[j].url != url@,
        decreases streams@.len() - i,
    {
        assert(stream_views(streams@)[i as int] == streams@[i as int]@);
        if streams[i].url == *url {
            assert(stream_views(streams@)[i as int].url == url@);
            return true;
        }
        i = i + 1;
    }
    false
}

fn inject_whitelist_urls(channel: &mut Channel, rules: &FilterRules)
    requires
        rules.wf(),
    ensures
        final(channel)@ == with_whitelist_urls(old(channel)@, rules@),
{
    let ghost c0 = channel@;
    let urls = rules.whitelist_urls_for(channel.name.as_str());
    let ghost uv = string_views(urls@);
    let mut i: usize = 0;
    assert(uv.take(0) =~= Seq::<Seq<char>>::empty());
    while i < urls.len()
        invariant
            i <= urls@.len(),
            uv == string_views(urls@),
            channel@ == (SpecChannel { streams: add_whitelist_urls(c0.streams, uv.take(i as int)), ..c0 }),
        decreases urls@.len() - i,
    {
        assert(uv.take(i + 1).drop_last() =~= uv.take(i as int));
        assert(uv.take(i + 1).last() == urls@[i as int]@);
        if !has_stream_url(&channel.streams, &urls[i]) {
            let url_chars = chars_of(urls[i].as_str());
            let t = infer_ipv_type(url_chars.as_slice());
            let s = Stream {
                url: urls[i].clone(),
                origin: Origin::SubscribeWhitelist,
                whitelist: true,
                source_order: 0,
                iptv_source: None,
                iptv_restricted: false,
                ipv_type: t,
            };
            let ghost before = stream_views(channel.streams@);
            channel.streams.push(s);
            assert(stream_views(channel.streams@) =~= before.push(whitelist_stream(urls@[i as int]@)));
        }
        i = i + 1;
    }
    assert(uv.take(uv.len() as int) =~= uv);
}

/// The key by which channels are ordered: their order, then their group
/// (none first), then their name.
pub open spec fn spec_channel_key(c: SpecChannel) -> Seq<SpecKeyPart> {
    seq![
        SpecKeyPart::Num(c.order as nat),
        SpecKeyPart::Num(if c.group is Some { 1 } else { 0 }),
        SpecKeyPart::Text(
            match c.group {
                Some(g) => g,
                None => seq![],
            },
        ),
        SpecKeyPart::Text(c.name),
    ]
}

/// The sort keys of channels.
pub open spec fn channel_keys(cs: Seq<SpecChannel>) -> Seq<Seq<SpecKeyPart>> {
    cs.map_values(|c: SpecChannel| spec_channel_key(c))
}

fn channel_sort_key(c: &Channel) -> (k: Vec<KeyPart>)
    ensures
        key_view(k@) == spec_channel_key(c@),
{
    let mut k: Vec<KeyPart> = Vec::new();
    k.push(KeyPart::Num(c.order));
    match &c.group {
        Some(g) => {
            k.push(KeyPart::Num(1));
            k.push(KeyPart::Text(chars_of(g.as_str())));
        },
        None => {
            k.push(KeyPart::Num(0));
            k.push(KeyPart::Text(Vec::new()));
        },
    }
    k.push(KeyPart::Text(chars_of(c.name.as_str())));
    assert(key_view(k@) =~= spec_channel_key(c@));
    k
}

/// The channels that are kept in the output.
pub open spec fn kept_channels(cs: Seq<SpecChannel>, st: Settings) -> Seq<SpecChannel>
    decreases cs.len(),
{
    if cs.len() == 0 {
        seq![]
    } else {
        let prev = kept_channels(cs.drop_last(), st);
        if keep_channel(cs.last(), st) {
            prev.push(cs.last())
        } else {
            prev
        }
    }
}

/// The channels that a list of entries gives before they are ordered: the
/// admitted entries merged by channel key, each channel with the addresses
/// that the whitelist adds, without empty channels unless empty categories
/// are shown.
pub open spec fn gathered_channels(
    items: Seq<SpecParsedChannel>,
    st: Settings,
    al: SpecAliasMatcher,
    rules: SpecFilterRules,
) -> Seq<SpecChannel> {
    let entries = group_entries(items, st, al, rules, template_keys(items, al));
    kept_channels(
        entries.map_values(|e: (Seq<char>, SpecChannel)| with_whitelist_urls(e.1, rules)),
        st,
    )
}

/// `r` holds the channels of `pre` ordered by their keys, each with its
/// streams in order.
pub open spec fn arranged_channels(r: Seq<SpecChannel>, pre: Seq<SpecChannel>, st: Settings) -> bool {
    exists|p: Seq<int>|
        is_perm(p, pre.len()) && keys_in_order(channel_keys(pre), p) && r.len() == pre.len()
            && forall|i: int|
            0 <= i < r.len() ==> streams_sorted_from(#[trigger] r[i], pre[p[i]], st)
}

fn finish_channels(
    entries: Vec<(Vec<char>, Channel)>,
    settings: &Settings,
    rules: &FilterRules,
) -> (r: (Vec<Channel>, Vec<Vec<KeyPart>>))
    requires
        settings_fit(*settings),
        rules.wf(),
    ensures
        ({
            let pre = kept_channels(
                keyed_views(entries@).map_values(
                    |e: (Seq<char>, SpecChannel)| with_whitelist_urls(e.1, rules@),
                ),
                *settings,
            );
            &&& r.0@.len() == pre.len()
            &&& key_list_view(r.1@) == channel_keys(pre)
            &&& forall|i: int|
                0 <= i < r.0@.len() ==> streams_sorted_from(#[trigger] r.0@[i]@, pre[i], *settings)
        }),
{
    let ghost inj = keyed_views(entries@).map_values(
        |e: (Seq<char>, SpecChannel)| with_whitelist_urls(e.1, rules@),
    );
    let mut rest = entries;
    let ghost orig = rest@;
    let n = rest.len();
    let mut k: usize = 0;
    let mut out: Vec<Channel> = Vec::new();
    let mut keys: Vec<Vec<KeyPart>> = Vec::new();
    assert(inj.take(0) =~= Seq::<SpecChannel>::empty());
    while rest.len() > 0
        invariant
            k + rest@.len() == n,
            orig.len() == n,
            inj.len() == n,
            settings_fit(*settings),
            rules.wf(),
            rest@ == orig.skip(k as int),
            inj == keyed_views(orig).map_values(
                |e: (Seq<char>, SpecChannel)| with_whitelist_urls(e.1, rules@),
            ),
            out@.len() == kept_channels(inj.take(k as int), *settings).len(),
            key_list_view(keys@) == channel_keys(kept_channels(inj.take(k as int), *settings)),
            forall|i: int|
                0 <= i < out@.len() ==> streams_sorted_from(
                    #[trigger] out@[i]@,
                    kept_channels(inj.take(k as int), *settings)[i],
                    *settings,
                ),
        decreases rest@.len(),
    {
        let (_key, mut c) = rest.remove(0);
        proof {
            assert(orig.skip(k as int)[0] == orig[k as int]);
            assert(rest@ =~= orig.skip(k + 1));
            assert(inj.take(k + 1).drop_last() =~= inj.take(k as int));
            assert(inj.take(k + 1).last() == inj[k as int]);
            assert(keyed_views(orig)[k as int] == (orig[k as int].0@, orig[k as int].1@));
        }
        inject_whitelist_urls(&mut c, rules);
        let ghost injected = c@;
        assert(injected == inj[k as int]);
        sort_channel_streams(&mut c, settings);
        proof {
            let p = choose|p: Seq<int>|
                is_perm(p, injected.streams.len()) && keys_in_order(
                    stream_keys(injected.streams, *settings),
                    p,
                ) && c@.streams.len() == injected.streams.len() && forall|i: int|
                    0 <= i < c@.streams.len() ==> #[trigger] c@.streams[i] == injected.streams[p[i]];
            assert(stream_views(c.streams@).len() == c.streams@.len());
        }
        if settings.open_empty_category || c.streams.len() > 0 {
            let key = channel_sort_key(&c);
            let ghost before_out = out@;
            let ghost before_keys = key_list_view(keys@);
            out.push(c);
            keys.push(key);
            proof {
                let pre = kept_channels(inj.take(k + 1), *settings);
                assert(pre == kept_channels(inj.take(k as int), *settings).push(injected));
                assert(key_list_view(keys@) =~= before_keys.push(spec_channel_key(injected)));
                assert(channel_keys(pre) =~= channel_keys(kept_channels(inj.take(k as int), *settings)).push(
                    spec_channel_key(injected),
                ));
                assert forall|i: int| 0 <= i < out@.len() implies streams_sorted_from(
                    #[trigger] out@[i]@,
                    pre[i],
                    *settings,
                ) by {
                    if i < before_out.len() {
                        assert(out@[i] == before_out[i]);
                    }
                }
            }
        }
        k = k + 1;
    }
    assert(inj.take(n as int) =~= inj);
    (out, keys)
}

/// Merges parsed entries into channels. Entries are matched to channels by
/// the primary name of their channel, without whitespace and in lower case;
/// entries of channels that no template lists are dropped or, when the
/// settings keep them, put in an unmatched group. Streams are checked
/// against the whitelist, blacklist and address family setting, whitelisted
/// addresses are added, each channel's streams are ordered, and the channels
/// are ordered by their order, group and name.
pub fn aggregate_channels(
    items: Vec<ParsedChannel>,
    settings: &Settings,
    aliases: &AliasMatcher,
    rules: &FilterRules,
) -> (channels: Vec<Channel>)
    requires
        settings_fit(*settings),
        aliases.wf(),
        rules.wf(),
    ensures
        arranged_channels(
            channel_views(channels@),
            gathered_channels(parsed_views(items@), *settings, aliases@, rules@),
            *settings,
        ),
{
    let ghost pv = parsed_views(items@);
    let tk = collect_template_keys(&items, aliases);
    let entries = group_items(items, settings, aliases, rules, &tk);
    let (mid, keys) = finish_channels(entries, settings, rules);
    let ghost pre = gathered_channels(pv, *settings, aliases@, rules@);
    assert(key_list_view(keys@).len() == keys@.len());
    let sorted = stable_sort(mid, keys);
    proof {
        let ks = key_list_view(keys@);
        assert(ks == channel_keys(pre));
        let p = choose|p: Seq<int>|
            is_perm(p, mid@.len()) && keys_in_order(ks, p) && sorted@.len() == mid@.len() && forall|
                i: int,
            |
                0 <= i < sorted@.len() ==> #[trigger] sorted@[i] == mid@[p[i]];
        let cv = channel_views(sorted@);
        assert forall|i: int| 0 <= i < cv.len() implies streams_sorted_from(
            #[trigger] cv[i],
            pre[p[i]],
            *settings,
        ) by {
            assert(sorted@[i] == mid@[p[i]]);
        }
        assert(is_perm(p, pre.len()) && keys_in_order(channel_keys(pre), p) && cv.len() == pre.len());
    }
    sorted
}


// ---------------------------------------------------------------------------
// Laws
// ---------------------------------------------------------------------------

proof fn lemma_allowed_streams_pass(ss: Seq<SpecStream>, st: Settings)
    ensures
        forall|j: int|
            0 <= j < allowed_streams(ss, st).len() ==> spec_stream_allowed(
                #[trigger] allowed_streams(ss, st)[j],
                st,
            ),
    decreases ss.len(),
{
    if ss.len() > 0 {
        lemma_allowed_streams_pass(ss.drop_last(), st);
        let prev = allowed_streams(ss.drop_last(), st);
        assert forall|j: int| 0 <= j < allowed_streams(ss, st).len() implies spec_stream_allowed(
            #[trigger] allowed_streams(ss, st)[j],
            st,
        ) by {
            if j < prev.len() {
                assert(allowed_streams(ss, st)[j] == prev[j]);
            }
        }
    }
}

proof fn lemma_preferred_channels_pass(cs: Seq<SpecChannel>, st: Settings)
    ensures
        forall|i: int|
            0 <= i < preferred_channels(cs, st).len() ==> (#[trigger] preferred_channels(cs, st)[i]).streams
                == allowed_streams(preferred_channels(cs, st)[i].streams, st),
        forall|i: int, j: int|
            0 <= i < preferred_channels(cs, st).len() && 0 <= j
                < preferred_channels(cs, st)[i].streams.len() ==> spec_stream_allowed(
                #[trigger] preferred_channels(cs, st)[i].streams[j],
                st,
            ),
    decreases cs.len(),
{
    if cs.len() > 0 {
        lemma_preferred_channels_pass(cs.drop_last(), st);
        lemma_allowed_streams_pass(cs.last().streams, st);
        lemma_allowed_streams_idempotent(cs.last().streams, st);
    }
}

proof fn lemma_allowed_streams_idempotent(ss: Seq<SpecStream>, st: Settings)
    ensures
        allowed_streams(allowed_streams(ss, st), st) == allowed_streams(ss, st),
    decreases ss.len(),
{
    if ss.len() > 0 {
        lemma_allowed_streams_idempotent(ss.drop_last(), st);
        let prev = allowed_streams(ss.drop_last(), st);
        if spec_stream_allowed(ss.last(), st) {
            assert(prev.push(ss.last()).drop_last() =~= prev);
        }
    }
}

/// After the output preferences, every stream of every channel passes the
/// IPTV source filter: a stream labelled as an operator IPTV source stays
/// only when its label is one that the filter names.
pub proof fn law_output_streams_pass_iptv_filter(
    out: Seq<SpecChannel>,
    cs: Seq<SpecChannel>,
    st: Settings,
)
    requires
        out.len() == preferred_channels(cs, st).len(),
        forall|i: int|
            0 <= i < out.len() ==> streams_sorted_from(
                #[trigger] out[i],
                preferred_channels(cs, st)[i],
                st,
            ),
    ensures
        forall|i: int, j: int|
            0 <= i < out.len() && 0 <= j < out[i].streams.len() ==> spec_stream_allowed(
                #[trigger] out[i].streams[j],
                st,
            ),
{
    lemma_preferred_channels_pass(cs, st);
    assert forall|i: int, j: int|
        0 <= i < out.len() && 0 <= j < out[i].streams.len() implies spec_stream_allowed(
        #[trigger] out[i].streams[j],
        st,
    ) by {
        let inp = preferred_channels(cs, st)[i];
        assert(streams_sorted_from(out[i], inp, st));
        let p = choose|p: Seq<int>|
            is_perm(p, inp.streams.len()) && keys_in_order(stream_keys(inp.streams, st), p)
                && out[i].streams.len() == inp.streams.len() && forall|k: int|
                0 <= k < out[i].streams.len() ==> #[trigger] out[i].streams[k] == inp.streams[p[k]];
        assert(out[i].streams[j] == inp.streams[p[j]]);
    }
}

/// Ordinary streams, not labelled as operator IPTV sources, are never
/// removed by the IPTV source filter.
pub proof fn law_unlabelled_streams_are_kept(c: SpecChannel, st: Settings, s: SpecStream)
    requires
        c.streams.contains(s),
        !s.iptv_restricted,
    ensures
        with_allowed_streams(c, st).streams.contains(s),
{
    lemma_allowed_contains(c.streams, st, s);
}

proof fn lemma_allowed_contains(ss: Seq<SpecStream>, st: Settings, s: SpecStream)
    requires
        ss.contains(s),
        spec_stream_allowed(s, st),
    ensures
        allowed_streams(ss, st).contains(s),
    decreases ss.len(),
{
    broadcast use vstd::seq_lib::lemma_seq_contains_after_push;
    if ss.last() != s {
        let j = choose|j: int| 0 <= j < ss.len() && ss[j] == s;
        assert(ss.drop_last()[j] == s);
        lemma_allowed_contains(ss.drop_last(), st, s);
    }
}

/// In a channel whose streams are in order, the IPTV source ranks never
/// decrease: streams from preferred IPTV sources come first, in the order
/// of preference, before all other streams.
pub proof fn law_streams_ordered_by_iptv_preference(
    out: SpecChannel,
    inp: SpecChannel,
    st: Settings,
    i: int,
    j: int,
)
    requires
        streams_sorted_from(out, inp, st),
        0 <= i < j < out.streams.len(),
    ensures
        spec_iptv_source_rank(out.streams[i], string_views(st.iptv_source_prefer@))
            <= spec_iptv_source_rank(out.streams[j], string_views(st.iptv_source_prefer@)),
{
    let ks = stream_keys(inp.streams, st);
    let p = choose|p: Seq<int>|
        is_perm(p, inp.streams.len()) && keys_in_order(ks, p) && out.streams.len()
            == inp.streams.len() && forall|k: int|
            0 <= k < out.streams.len() ==> #[trigger] out.streams[k] == inp.streams[p[k]];
    assert(out.streams[i] == inp.streams[p[i]]);
    assert(out.streams[j] == inp.streams[p[j]]);
    let a = ks[p[i]];
    let b = ks[p[j]];
    assert(a == spec_stream_key(out.streams[i], st));
    assert(b == spec_stream_key(out.streams[j], st));
    crate::sorting::lemma_compare_keys_basic(a, b);
    crate::sorting::lemma_compare_part_basic(a[0], b[0]);
}

/// After the limit, a channel has at most `limit` streams, the first ones
/// it had.
pub proof fn law_limit_keeps_a_prefix(c: SpecChannel, limit: nat)
    ensures
        limited(c, limit).streams.len() <= limit,
        limited(c, limit).streams.len() <= c.streams.len(),
        limited(c, limit).streams == c.streams.take(limited(c, limit).streams.len() as int),
{
    if c.streams.len() <= limit {
        assert(c.streams.take(c.streams.len() as int) =~= c.streams);
    }
}


proof fn lemma_merge_keeps_urls_unique(c: SpecChannel, item: SpecParsedChannel)
    requires
        urls_unique(c.streams),
    ensures
        urls_unique(spec_merge(c, item).streams),
        spec_merge(c, item).name == c.name,
{
    match item.stream {
        Some(s) => {
            if !has_url(c.streams, s.url) {
                let ns = c.streams.push(s);
                assert forall|i: int, j: int| 0 <= i < j < ns.len() implies #[trigger] ns[i].url
                    != #[trigger] ns[j].url by {
                    if j == ns.len() - 1 {
                        assert(ns[i] == c.streams[i]);
                        if ns[i].url == s.url {
                            assert(has_url(c.streams, s.url));
                        }
                    } else {
                        assert(ns[i] == c.streams[i] && ns[j] == c.streams[j]);
                    }
                }
            }
        },
        None => {},
    }
}

/// Keyed channels with distinct keys, each key that of its channel's name,
/// and each channel's addresses distinct.
pub open spec fn entries_wf(e: Seq<(Seq<char>, SpecChannel)>) -> bool {
    &&& forall|i: int, j: int| 0 <= i < j < e.len() ==> #[trigger] e[i].0 != #[trigger] e[j].0
    &&& forall|i: int| 0 <= i < e.len() ==> #[trigger] e[i].0 == spec_normalize_key(e[i].1.name)
    &&& forall|i: int| 0 <= i < e.len() ==> urls_unique(#[trigger] e[i].1.streams)
}

proof fn lemma_upsert_wf(e: Seq<(Seq<char>, SpecChannel)>, item: SpecParsedChannel)
    requires
        entries_wf(e),
    ensures
        entries_wf(upsert(e, spec_normalize_key(item.name), item)),
{
    let key = spec_normalize_key(item.name);
    let ek = entry_keys(e);
    lemma_first_index_bounds(ek, key);
    match first_index(ek, key) {
        Some(i) => {
            let ne = e.update(i, (key, spec_merge(e[i].1, item)));
            lemma_merge_keeps_urls_unique(e[i].1, item);
            assert(ek[i] == e[i].0);
            assert forall|a: int, b: int| 0 <= a < b < ne.len() implies #[trigger] ne[a].0
                != #[trigger] ne[b].0 by {
                assert(ne[a].0 == e[a].0 && ne[b].0 == e[b].0);
            }
            assert forall|a: int| 0 <= a < ne.len() implies #[trigger] ne[a].0 == spec_normalize_key(
                ne[a].1.name,
            ) by {
                if a == i {
                    assert(ne[a].1.name == e[i].1.name);
                    assert(e[i].0 == spec_normalize_key(e[i].1.name));
                } else {
                    assert(ne[a] == e[a]);
                }
            }
            assert forall|a: int| 0 <= a < ne.len() implies urls_unique(#[trigger] ne[a].1.streams) by {
                if a != i {
                    assert(ne[a] == e[a]);
                }
            }
        },
        None => {
            let c = spec_channel_new(item);
            let ne = e.push((key, c));
            assert(urls_unique(c.streams));
            assert forall|a: int, b: int| 0 <= a < b < ne.len() implies #[trigger] ne[a].0
                != #[trigger] ne[b].0 by {
                if b == ne.len() - 1 {
                    assert(ne[a].0 == ek[a]);
                } else {
                    assert(ne[a] == e[a] && ne[b] == e[b]);
                }
            }
            assert forall|a: int| 0 <= a < ne.len() implies #[trigger] ne[a].0 == spec_normalize_key(
                ne[a].1.name,
            ) by {
                if a < e.len() {
                    assert(ne[a] == e[a]);
                }
            }
            assert forall|a: int| 0 <= a < ne.len() implies urls_unique(#[trigger] ne[a].1.streams) by {
                if a < e.len() {
                    assert(ne[a] == e[a]);
                }
            }
        },
    }
}

proof fn lemma_group_entries_wf(
    items: Seq<SpecParsedChannel>,
    st: Settings,
    al: SpecAliasMatcher,
    rules: SpecFilterRules,
    tk: Seq<Seq<char>>,
)
    ensures
        entries_wf(group_entries(items, st, al, rules, tk)),
    decreases items.len(),
{
    if items.len() > 0 {
        lemma_group_entries_wf(items.drop_last(), st, al, rules, tk);
        match admitted_entry(items.last(), st, al, rules, tk) {
            Some(it) => lemma_upsert_wf(group_entries(items.drop_last(), st, al, rules, tk), it),
            None => {},
        }
    }
}

proof fn lemma_add_whitelist_urls_unique(ss: Seq<SpecStream>, urls: Seq<Seq<char>>)
    requires
        urls_unique(ss),
    ensures
        urls_unique(add_whitelist_urls(ss, urls)),
    decreases urls.len(),
{
    if urls.len() > 0 {
        lemma_add_whitelist_urls_unique(ss, urls.drop_last());
        let prev = add_whitelist_urls(ss, urls.drop_last());
        let u = urls.last();
        if !has_url(prev, u) {
            let ns = prev.push(whitelist_stream(u));
            assert forall|i: int, j: int| 0 <= i < j < ns.len() implies #[trigger] ns[i].url
                != #[trigger] ns[j].url by {
                assert(ns[i] == prev[i]);
                if j == ns.len() - 1 {
                    if ns[i].url == u {
                        assert(has_url(prev, u));
                    }
                } else {
                    assert(ns[j] == prev[j]);
                }
            }
        }
    }
}

/// Channels with distinct names.
pub open spec fn names_distinct(cs: Seq<SpecChannel>) -> bool {
    forall|i: int, j: int| 0 <= i < j < cs.len() ==> #[trigger] cs[i].name != #[trigger] cs[j].name
}

proof fn lemma_kept_channels(cs: Seq<SpecChannel>, st: Settings)
    ensures
        forall|i: int|
            0 <= i < kept_channels(cs, st).len() ==> cs.contains(#[trigger] kept_channels(cs, st)[i]),
        names_distinct(cs) ==> names_distinct(kept_channels(cs, st)),
    decreases cs.len(),
{
    if cs.len() > 0 {
        let init = cs.drop_last();
        lemma_kept_channels(init, st);
        let prev = kept_channels(init, st);
        let k = kept_channels(cs, st);
        assert forall|i: int| 0 <= i < k.len() implies cs.contains(#[trigger] k[i]) by {
            if i < prev.len() {
                assert(k[i] == prev[i]);
                assert(init.contains(prev[i]));
                let j = choose|j: int| 0 <= j < init.len() && init[j] == prev[i];
                assert(cs[j] == init[j]);
            } else {
                assert(cs[cs.len() - 1] == k[i]);
            }
        }
        if names_distinct(cs) {
            assert(names_distinct(init)) by {
                assert forall|a: int, b: int| 0 <= a < b < init.len() implies #[trigger] init[a].name
                    != #[trigger] init[b].name by {
                    assert(init[a] == cs[a] && init[b] == cs[b]);
                }
            }
            assert forall|a: int, b: int| 0 <= a < b < k.len() implies #[trigger] k[a].name
                != #[trigger] k[b].name by {
                if b < prev.len() {
                    assert(k[a] == prev[a] && k[b] == prev[b]);
                } else {
                    assert(k[a] == prev[a]);
                    assert(init.contains(prev[a]));
                    let j = choose|j: int| 0 <= j < init.len() && init[j] == prev[a];
                    assert(cs[j] == init[j]);
                    assert(k[b] == cs[cs.len() - 1]);
                }
            }
        }
    }
}

/// The channels that aggregation gathers have distinct names and each of
/// them has every stream address once.
proof fn lemma_gathered_wf(
    items: Seq<SpecParsedChannel>,
    st: Settings,
    al: SpecAliasMatcher,
    rules: SpecFilterRules,
)
    ensures
        names_distinct(gathered_channels(items, st, al, rules)),
        forall|i: int|
            0 <= i < gathered_channels(items, st, al, rules).len() ==> urls_unique(
                #[trigger] gathered_channels(items, st, al, rules)[i].streams,
            ),
{
    let tk = template_keys(items, al);
    let e = group_entries(items, st, al, rules, tk);
    lemma_group_entries_wf(items, st, al, rules, tk);
    let inj = e.map_values(|x: (Seq<char>, SpecChannel)| with_whitelist_urls(x.1, rules));
    assert forall|a: int, b: int| 0 <= a < b < inj.len() implies #[trigger] inj[a].name
        != #[trigger] inj[b].name by {
        assert(inj[a].name == e[a].1.name && inj[b].name == e[b].1.name);
        assert(e[a].0 != e[b].0);
    }
    lemma_kept_channels(inj, st);
    let g = kept_channels(inj, st);
    assert forall|i: int| 0 <= i < g.len() implies urls_unique(#[trigger] g[i].streams) by {
        assert(inj.contains(g[i]));
        let j = choose|j: int| 0 <= j < inj.len() && inj[j] == g[i];
        assert(urls_unique(e[j].1.streams));
        lemma_add_whitelist_urls_unique(
            e[j].1.streams,
            spec_whitelist_urls_for(rules, e[j].1.name),
        );
    }
}

/// Channels from aggregation have distinct names, and each channel lists
/// every stream address once.
pub proof fn law_aggregated_channels_are_distinct(
    r: Seq<SpecChannel>,
    items: Seq<SpecParsedChannel>,
    st: Settings,
    al: SpecAliasMatcher,
    rules: SpecFilterRules,
)
    requires
        arranged_channels(r, gathered_channels(items, st, al, rules), st),
    ensures
        names_distinct(r),
        forall|i: int| 0 <= i < r.len() ==> urls_unique(#[trigger] r[i].streams),
{
    let pre = gathered_channels(items, st, al, rules);
    lemma_gathered_wf(items, st, al, rules);
    let p = choose|p: Seq<int>|
        is_perm(p, pre.len()) && keys_in_order(channel_keys(pre), p) && r.len() == pre.len()
            && forall|i: int| 0 <= i < r.len() ==> streams_sorted_from(#[trigger] r[i], pre[p[i]], st);
    assert forall|a: int, b: int| 0 <= a < b < r.len() implies #[trigger] r[a].name
        != #[trigger] r[b].name by {
        assert(streams_sorted_from(r[a], pre[p[a]], st));
        assert(streams_sorted_from(r[b], pre[p[b]], st));
        assert(p[a] != p[b]);
        if p[a] < p[b] {
            assert(pre[p[a]].name != pre[p[b]].name);
        } else {
            assert(pre[p[b]].name != pre[p[a]].name);
        }
    }
    assert forall|i: int| 0 <= i < r.len() implies urls_unique(#[trigger] r[i].streams) by {
        let inp = pre[p[i]];
        assert(streams_sorted_from(r[i], inp, st));
        assert(urls_unique(inp.streams));
        let q = choose|q: Seq<int>|
            is_perm(q, inp.streams.len()) && keys_in_order(stream_keys(inp.streams, st), q)
                && r[i].streams.len() == inp.streams.len() && forall|k: int|
                0 <= k < r[i].streams.len() ==> #[trigger] r[i].streams[k] == inp.streams[q[k]];
        assert forall|a: int, b: int| 0 <= a < b < r[i].streams.len() implies #[trigger] r[i].streams[a].url
            != #[trigger] r[i].streams[b].url by {
            assert(r[i].streams[a] == inp.streams[q[a]]);
            assert(r[i].streams[b] == inp.streams[q[b]]);
            assert(q[a] != q[b]);
            if q[a] < q[b] {
                assert(inp.streams[q[a]].url != inp.streams[q[b]].url);
            } else {
                assert(inp.streams[q[b]].url != inp.streams[q[a]].url);
            }
        }
    }
}

} // verus!
