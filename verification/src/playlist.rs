//! Reading playlists: M3U files with `#EXTINF` entries, and the plain
//! `name,url` text format with `group,#genre#` headings.
use vstd::prelude::*;
use crate::aggregate::{source_iptv_allowed, spec_iptv_label_allowed};
use crate::config::{spec_join, Settings};
use crate::hosts::{infer_ipv_type, spec_infer_ipv_type};
use crate::source_list::{entry_views, SourceEntry, SpecSourceEntry};
use crate::models::{
    opt_view, parsed_views, Origin, ParsedChannel, SpecParsedChannel, SpecStream, Stream,
};
use crate::text::{
    ascii_lower, ascii_lower_seq, is_ws, lemma_lines_single, lemma_not_contains,
    lemma_split_once_at, lemma_trim_unchanged, chars_of, contains, contains_exec, eq_chars, eq_ignore_ascii_case,
    eq_ignore_ascii_case_exec, find, find_exec, index_of_char, index_of_char_exec,
    last_index_of_char, last_index_of_char_exec, lemma_find_from_bounds,
    lemma_index_of_char_bounds, lemma_last_index_of_char_bounds, lemma_lines_len, lines,
    lines_exec, split_once, split_once_exec, starts_with, starts_with_exec, string_from_chars,
    subvec, trim, trim_chars, views, matches_at,
};

verus! {

broadcast use vstd::string::group_string_axioms;

/// Why a playlist could not be used.
#[derive(Debug, Clone, Copy, PartialEq, Eq, Structural)]
pub enum PlaylistError {
    /// A local source list entry names a remote address.
    RemoteLocalSource,
}

/// Where the entries of one playlist come from.
pub struct SpecSource {
    pub origin: Origin,
    pub whitelist: bool,
    pub source_order: usize,
    pub iptv_source: Option<Seq<char>>,
    pub iptv_restricted: bool,
}

/// The view of an optional string slice.
pub open spec fn opt_str_view(o: Option<&str>) -> Option<Seq<char>> {
    match o {
        Some(s) => Some(s@),
        None => None,
    }
}

/// The number added to an entry's position in its playlist, so that entries
/// of templates come first, then local, whitelisted and subscribed ones.
pub open spec fn origin_offset(origin: Origin) -> nat {
    match origin {
        Origin::Template => 0,
        Origin::Local => 1_000_000,
        Origin::SubscribeWhitelist => 2_000_000,
        Origin::Subscribe => 3_000_000,
    }
}

/// The order of the `n`-th entry of a playlist.
pub open spec fn spec_order_for_origin(origin: Origin, n: nat) -> nat {
    origin_offset(origin) + n
}

/// A text that is a stream address: after trimming, it starts with one of
/// the stream schemes.
pub open spec fn spec_looks_like_stream_url(v: Seq<char>) -> bool {
    let t = trim(v);
    ||| starts_with(t, "http://"@)
    ||| starts_with(t, "https://"@)
    ||| starts_with(t, "rtmp://"@)
    ||| starts_with(t, "rtsp://"@)
    ||| starts_with(t, "udp://"@)
    ||| starts_with(t, "rtp://"@)
    ||| starts_with(t, "file://"@)
}

/// A stream of a playlist entry.
pub open spec fn make_stream(url: Seq<char>, src: SpecSource) -> SpecStream {
    SpecStream {
        url,
        origin: src.origin,
        whitelist: src.whitelist,
        source_order: src.source_order,
        iptv_source: src.iptv_source,
        iptv_restricted: src.iptv_restricted,
        ipv_type: spec_infer_ipv_type(url),
    }
}

// ---------------------------------------------------------------------------
// The text format
// ---------------------------------------------------------------------------

/// A `name,url` line: a non-empty name and a stream address, both trimmed.
pub open spec fn spec_txt_channel_line(
    line: Seq<char>,
    group: Option<Seq<char>>,
    src: SpecSource,
    n: nat,
) -> Option<SpecParsedChannel> {
    match split_once(line, ',') {
        None => None,
        Some((name_raw, rest_raw)) => {
            let name = trim(name_raw);
            let rest = trim(rest_raw);
            if name.len() == 0 || !spec_looks_like_stream_url(rest) {
                None
            } else {
                Some(
                    SpecParsedChannel {
                        name,
                        group,
                        tvg_id: None,
                        logo: None,
                        stream: Some(make_stream(rest, src)),
                        order: spec_order_for_origin(src.origin, n) as usize,
                    },
                )
            }
        },
    }
}

/// The group that a `group,#genre#` line starts.
pub open spec fn genre_heading(line: Seq<char>) -> Option<Seq<char>> {
    match split_once(line, ',') {
        Some((g, marker)) => if eq_ignore_ascii_case(trim(marker), "#genre#"@) {
            Some(trim(g))
        } else {
            None
        },
        None => None,
    }
}

/// The state of reading a text playlist: the current group, the number of
/// entries so far, and the entries.
pub type TxtState = (Option<Seq<char>>, nat, Seq<SpecParsedChannel>);

/// One line of a text playlist: blank lines and `#` comments are skipped,
/// `group,#genre#` starts a group, `name,url` adds a stream entry, and a
/// line that is only a name (no comma, not an address) adds an entry without
/// a stream.
pub open spec fn txt_step(st: TxtState, raw: Seq<char>, src: SpecSource) -> TxtState {
    let line = trim(raw);
    if line.len() == 0 || starts_with(line, "#"@) {
        st
    } else if genre_heading(line) is Some {
        (genre_heading(line), st.1, st.2)
    } else {
        match spec_txt_channel_line(line, st.0, src, st.1) {
            Some(item) => (st.0, st.1 + 1, st.2.push(item)),
            None => if !contains(line, ","@) && !spec_looks_like_stream_url(line) {
                (
                    st.0,
                    st.1 + 1,
                    st.2.push(
                        SpecParsedChannel {
                            name: line,
                            group: st.0,
                            tvg_id: None,
                            logo: None,
                            stream: None,
                            order: spec_order_for_origin(src.origin, st.1) as usize,
                        },
                    ),
                )
            } else {
                st
            },
        }
    }
}

/// The lines of a text playlist read in order.
pub open spec fn txt_fold(ls: Seq<Seq<char>>, src: SpecSource) -> TxtState
    decreases ls.len(),
{
    if ls.len() == 0 {
        (None, 0, seq![])
    } else {
        txt_step(txt_fold(ls.drop_last(), src), ls.last(), src)
    }
}

/// The entries of a text playlist.
pub open spec fn spec_parse_txt(text: Seq<char>, src: SpecSource) -> Seq<SpecParsedChannel> {
    txt_fold(lines(text), src).2
}

// ---------------------------------------------------------------------------
// The M3U format
// ---------------------------------------------------------------------------

/// What an `#EXTINF` line says of the entry that follows it.
pub struct SpecM3uInfo {
    pub name: Option<Seq<char>>,
    pub group: Option<Seq<char>>,
    pub tvg_id: Option<Seq<char>>,
    pub logo: Option<Seq<char>>,
}

/// The trimmed, non-empty value of the attribute `name="value"` first found
/// in the line.
pub open spec fn spec_attr_value(line: Seq<char>, name: Seq<char>) -> Option<Seq<char>> {
    let needle = name + seq!['=', '"'];
    match find(line, needle) {
        None => None,
        Some(i) => {
            let start = i + needle.len();
            match index_of_char(line.skip(start), '"') {
                None => None,
                Some(e) => {
                    let v = trim(line.subrange(start, start + e));
                    if v.len() > 0 {
                        Some(v)
                    } else {
                        None
                    }
                },
            }
        },
    }
}

/// The display name after the last comma of an `#EXTINF` line.
pub open spec fn extinf_title(line: Seq<char>) -> Option<Seq<char>> {
    match last_index_of_char(line, ',') {
        Some(i) => {
            let n = trim(line.skip(i + 1));
            if n.len() > 0 {
                Some(n)
            } else {
                None
            }
        },
        None => None,
    }
}

/// An `#EXTINF` line read: the title (or else `tvg-name`), `group-title`,
/// `tvg-id` (or else `tvg-name`) and `tvg-logo`.
pub open spec fn spec_parse_extinf(line: Seq<char>) -> SpecM3uInfo {
    let title = extinf_title(line);
    let tvg_name = spec_attr_value(line, "tvg-name"@);
    SpecM3uInfo {
        name: if title is Some {
            title
        } else {
            tvg_name
        },
        group: spec_attr_value(line, "group-title"@),
        tvg_id: if spec_attr_value(line, "tvg-id"@) is Some {
            spec_attr_value(line, "tvg-id"@)
        } else {
            tvg_name
        },
        logo: spec_attr_value(line, "tvg-logo"@),
    }
}

/// The state of reading an M3U playlist: the `#EXTINF` information waiting
/// for its address, the number of entries, and the entries.
pub type M3uState = (Option<SpecM3uInfo>, nat, Seq<SpecParsedChannel>);

/// One line of an M3U playlist: `#EXTINF` lines are kept for the next
/// address, other `#` lines skipped; an address takes the waiting
/// information and becomes an entry if it has a non-blank name.
pub open spec fn m3u_step(st: M3uState, raw: Seq<char>, src: SpecSource) -> M3uState {
    let line = trim(raw);
    if line.len() == 0 {
        st
    } else if starts_with(line, "#EXTINF"@) {
        (Some(spec_parse_extinf(line)), st.1, st.2)
    } else if starts_with(line, "#"@) {
        st
    } else if spec_looks_like_stream_url(line) {
        let info = match st.0 {
            Some(i) => i,
            None => SpecM3uInfo { name: None, group: None, tvg_id: None, logo: None },
        };
        match info.name {
            Some(name) => if trim(name).len() > 0 {
                (
                    None,
                    st.1 + 1,
                    st.2.push(
                        SpecParsedChannel {
                            name,
                            group: info.group,
                            tvg_id: info.tvg_id,
                            logo: info.logo,
                            stream: Some(make_stream(line, src)),
                            order: spec_order_for_origin(src.origin, st.1) as usize,
                        },
                    ),
                )
            } else {
                (None, st.1, st.2)
            },
            None => (None, st.1, st.2),
        }
    } else {
        st
    }
}

/// The lines of an M3U playlist read in order.
pub open spec fn m3u_fold(ls: Seq<Seq<char>>, src: SpecSource) -> M3uState
    decreases ls.len(),
{
    if ls.len() == 0 {
        (None, 0, seq![])
    } else {
        m3u_step(m3u_fold(ls.drop_last(), src), ls.last(), src)
    }
}

/// The entries of an M3U playlist.
pub open spec fn spec_parse_m3u(text: Seq<char>, src: SpecSource) -> Seq<SpecParsedChannel> {
    m3u_fold(lines(text), src).2
}

/// The entries of a playlist: M3U when the text holds `#EXTM3U` or
/// `#EXTINF`, the text format otherwise.
pub open spec fn spec_parse_playlist(text: Seq<char>, src: SpecSource) -> Seq<SpecParsedChannel> {
    if contains(text, "#EXTM3U"@) || contains(text, "#EXTINF"@) {
        spec_parse_m3u(text, src)
    } else {
        spec_parse_txt(text, src)
    }
}

/// The largest playlist text whose entry orders fit.
pub open spec fn playlist_fits(text: Seq<char>) -> bool {
    text.len() + 3_000_000 <= usize::MAX
}

// ---------------------------------------------------------------------------
// Executable code
// ---------------------------------------------------------------------------

fn starts_with_lit(a: &[char], lit: &str) -> (r: bool)
    ensures
        r == starts_with(a@, lit@),
{
    let l = chars_of(lit);
    starts_with_exec(a, l.as_slice())
}

fn looks_like_stream_url(value: &[char]) -> (b: bool)
    ensures
        b == spec_looks_like_stream_url(value@),
{
    let t = trim_chars(value);
    let v = t.as_slice();
    starts_with_lit(v, "http://") || starts_with_lit(v, "https://") || starts_with_lit(
        v,
        "rtmp://",
    ) || starts_with_lit(v, "rtsp://") || starts_with_lit(v, "udp://") || starts_with_lit(
        v,
        "rtp://",
    ) || starts_with_lit(v, "file://")
}

pub fn order_for_origin(origin: Origin, order: usize) -> (r: usize)
    requires
        order + 3_000_000 <= usize::MAX,
    ensures
        r == spec_order_for_origin(origin, order as nat),
{
    let offset: usize = match origin {
        Origin::Template => 0,
        Origin::Local => 1_000_000,
        Origin::SubscribeWhitelist => 2_000_000,
        Origin::Subscribe => 3_000_000,
    };
    offset + order
}

fn copy_opt_str(o: Option<&str>) -> (r: Option<String>)
    ensures
        opt_view(r) == opt_str_view(o),
{
    match o {
        Some(s) => Some(s.to_owned()),
        None => None,
    }
}

fn new_stream(
    url: &[char],
    origin: Origin,
    whitelist: bool,
    source_order: usize,
    iptv_source: Option<&str>,
    iptv_restricted: bool,
) -> (s: Stream)
    ensures
        s@ == make_stream(
            url@,
            SpecSource {
                origin,
                whitelist,
                source_order,
                iptv_source: opt_str_view(iptv_source),
                iptv_restricted,
            },
        ),
{
    Stream {
        url: string_from_chars(url),
        origin,
        whitelist,
        source_order,
        iptv_source: copy_opt_str(iptv_source),
        iptv_restricted,
        ipv_type: infer_ipv_type(url),
    }
}

fn copy_opt_chars(o: &Option<Vec<char>>) -> (r: Option<String>)
    ensures
        opt_view(r) == (match o {
            Some(v) => Some(v@),
            None => None::<Seq<char>>,
        }),
{
    match o {
        Some(v) => Some(string_from_chars(v.as_slice())),
        None => None,
    }
}

fn parse_txt_channel_line(
    line: &[char],
    group: &Option<Vec<char>>,
    origin: Origin,
    whitelist: bool,
    order: usize,
    source_order: usize,
    iptv_source: Option<&str>,
    iptv_restricted: bool,
) -> (r: Option<ParsedChannel>)
    requires
        order + 3_000_000 <= usize::MAX,
    ensures
        (match r {
            Some(p) => Some(p@),
            None => None,
        }) == spec_txt_channel_line(
            line@,
            match group {
                Some(v) => Some(v@),
                None => None,
            },
            SpecSource {
                origin,
                whitelist,
                source_order,
                iptv_source: opt_str_view(iptv_source),
                iptv_restricted,
            },
            order as nat,
        ),
{
    let (name_raw, rest_raw) = match split_once_exec(line, ',') {
        Some(p) => p,
        None => {
            return None;
        },
    };
    let name = trim_chars(name_raw.as_slice());
    let rest = trim_chars(rest_raw.as_slice());
    if name.len() == 0 || !looks_like_stream_url(rest.as_slice()) {
        return None;
    }
    Some(
        ParsedChannel {
            name: string_from_chars(name.as_slice()),
            group: copy_opt_chars(group),
            tvg_id: None,
            logo: None,
            stream: Some(
                new_stream(
                    rest.as_slice(),
                    origin,
                    whitelist,
                    source_order,
                    iptv_source,
                    iptv_restricted,
                ),
            ),
            order: order_for_origin(origin, order),
        },
    )
}

spec fn opt_chars(o: Option<Vec<char>>) -> Option<Seq<char>> {
    match o {
        Some(v) => Some(v@),
        None => None,
    }
}

/// The entries of a text playlist.
pub fn parse_txt(
    text: &str,
    source_name: &str,
    origin: Origin,
    whitelist: bool,
    source_order: usize,
    iptv_source: Option<&str>,
    iptv_restricted: bool,
) -> (items: Vec<ParsedChannel>)
    requires
        playlist_fits(text@),
    ensures
        parsed_views(items@) == spec_parse_txt(
            text@,
            SpecSource {
                origin,
                whitelist,
                source_order,
                iptv_source: opt_str_view(iptv_source),
                iptv_restricted,
            },
        ),
{
    let ghost src = SpecSource {
        origin,
        whitelist,
        source_order,
        iptv_source: opt_str_view(iptv_source),
        iptv_restricted,
    };
    let chars = chars_of(text);
    let ls = lines_exec(chars.as_slice());
    proof {
        lemma_lines_len(chars@);
    }
    let ghost lv = views(ls@);
    let mut group: Option<Vec<char>> = None;
    let mut order: usize = 0;
    let mut items: Vec<ParsedChannel> = Vec::new();
    let mut i: usize = 0;
    assert(lv.take(0) =~= Seq::<Seq<char>>::empty());
    assert(parsed_views(items@) =~= Seq::<SpecParsedChannel>::empty());
    let genre = chars_of("#genre#");
    while i < ls.len()
        invariant
            i <= ls@.len(),
            ls@.len() <= text@.len(),
            playlist_fits(text@),
            order <= i,
            lv == views(ls@),
            genre@ == "#genre#"@,
            src == (SpecSource {
                origin,
                whitelist,
                source_order,
                iptv_source: opt_str_view(iptv_source),
                iptv_restricted,
            }),
            txt_fold(lv.take(i as int), src) == (opt_chars(group), order as nat, parsed_views(
                items@,
            )),
        decreases ls@.len() - i,
    {
        proof {
            assert(lv.take(i + 1).drop_last() =~= lv.take(i as int));
            assert(lv.take(i + 1).last() == ls@[i as int]@);
        }
        let line = trim_chars(ls[i].as_slice());
        let ghost st0 = (opt_chars(group), order as nat, parsed_views(items@));
        let ghost raw = ls@[i as int]@;
        i = i + 1;
        if line.len() == 0 || starts_with_lit(line.as_slice(), "#") {
            continue;
        }
        match split_once_exec(line.as_slice(), ',') {
            Some((g, marker)) => {
                let m = trim_chars(marker.as_slice());
                if eq_ignore_ascii_case_exec(m.as_slice(), genre.as_slice()) {
                    group = Some(trim_chars(g.as_slice()));
                    continue;
                }
            },
            None => {},
        }
        assert(genre_heading(line@) is None);
        let parsed = parse_txt_channel_line(
            line.as_slice(),
            &group,
            origin,
            whitelist,
            order,
            source_order,
            iptv_source,
            iptv_restricted,
        );
        match parsed {
            Some(item) => {
                assert(spec_txt_channel_line(line@, st0.0, src, st0.1) == Some(item@));
                let ghost old_items = parsed_views(items@);
                items.push(item);
                assert(parsed_views(items@) =~= old_items.push(item@));
                order = order + 1;
                assert(txt_step(st0, raw, src) == (opt_chars(group), order as nat, parsed_views(
                    items@,
                )));
                continue;
            },
            None => {},
        }
        let comma = chars_of(",");
        if !contains_exec(line.as_slice(), comma.as_slice()) && !looks_like_stream_url(
            line.as_slice(),
        ) {
            let item = ParsedChannel {
                name: string_from_chars(line.as_slice()),
                group: copy_opt_chars(&group),
                tvg_id: None,
                logo: None,
                stream: None,
                order: order_for_origin(origin, order),
            };
            let ghost old_items = parsed_views(items@);
            items.push(item);
            assert(parsed_views(items@) =~= old_items.push(item@));
            order = order + 1;
        }
    }
    assert(lv.take(lv.len() as int) =~= lv);
    items
}

/// What an `#EXTINF` line says of the entry that follows it.
struct M3uInfo {
    name: Option<Vec<char>>,
    group: Option<Vec<char>>,
    tvg_id: Option<Vec<char>>,
    logo: Option<Vec<char>>,
}

spec fn info_view(i: M3uInfo) -> SpecM3uInfo {
    SpecM3uInfo {
        name: opt_chars(i.name),
        group: opt_chars(i.group),
        tvg_id: opt_chars(i.tvg_id),
        logo: opt_chars(i.logo),
    }
}

spec fn opt_info_view(o: Option<M3uInfo>) -> Option<SpecM3uInfo> {
    match o {
        Some(i) => Some(info_view(i)),
        None => None,
    }
}

/// The trimmed, non-empty value of the attribute `name="value"`.
fn attr_value(line: &[char], name: &str) -> (r: Option<Vec<char>>)
    ensures
        opt_chars(r) == spec_attr_value(line@, name@),
{
    let mut needle = chars_of(name);
    needle.push('=');
    needle.push('"');
    assert(needle@ =~= name@ + seq!['=', '"']);
    proof {
        lemma_find_from_bounds(line@, needle@, 0);
    }
    let i = match find_exec(line, needle.as_slice()) {
        Some(i) => i,
        None => {
            return None;
        },
    };
    let n = line.len();
    assert(matches_at(line@, needle@, i as int));
    let start = i + needle.len();
    let tail = subvec(line, start, n);
    assert(tail@ =~= line@.skip(start as int));
    proof {
        lemma_index_of_char_bounds(tail@, '"');
    }
    let e = match index_of_char_exec(tail.as_slice(), '"') {
        Some(e) => e,
        None => {
            return None;
        },
    };
    let raw = subvec(line, start, start + e);
    let v = trim_chars(raw.as_slice());
    if v.len() > 0 {
        Some(v)
    } else {
        None
    }
}

fn extinf_title_exec(line: &[char]) -> (r: Option<Vec<char>>)
    ensures
        opt_chars(r) == extinf_title(line@),
{
    proof {
        lemma_last_index_of_char_bounds(line@, ',');
    }
    match last_index_of_char_exec(line, ',') {
        Some(i) => {
            let n = line.len();
            assert(i < n);
            let rest = subvec(line, i + 1, n);
            assert(rest@ =~= line@.skip(i + 1));
            let n = trim_chars(rest.as_slice());
            if n.len() > 0 {
                Some(n)
            } else {
                None
            }
        },
        None => None,
    }
}

/// An `#EXTINF` line read.
fn parse_extinf(line: &[char]) -> (info: M3uInfo)
    ensures
        info_view(info) == spec_parse_extinf(line@),
{
    let title = extinf_title_exec(line);
    let group = attr_value(line, "group-title");
    let tvg_id = match attr_value(line, "tvg-id") {
        Some(v) => Some(v),
        None => attr_value(line, "tvg-name"),
    };
    let logo = attr_value(line, "tvg-logo");
    let name = match title {
        Some(t) => Some(t),
        None => attr_value(line, "tvg-name"),
    };
    M3uInfo { name, group, tvg_id, logo }
}

/// The entries of an M3U playlist.
pub fn parse_m3u(
    text: &str,
    origin: Origin,
    whitelist: bool,
    source_order: usize,
    iptv_source: Option<&str>,
    iptv_restricted: bool,
) -> (items: Vec<ParsedChannel>)
    requires
        playlist_fits(text@),
    ensures
        parsed_views(items@) == spec_parse_m3u(
            text@,
            SpecSource {
                origin,
                whitelist,
                source_order,
                iptv_source: opt_str_view(iptv_source),
                iptv_restricted,
            },
        ),
{
    let ghost src = SpecSource {
        origin,
        whitelist,
        source_order,
        iptv_source: opt_str_view(iptv_source),
        iptv_restricted,
    };
    let chars = chars_of(text);
    let ls = lines_exec(chars.as_slice());
    proof {
        lemma_lines_len(chars@);
    }
    let ghost lv = views(ls@);
    let mut pending: Option<M3uInfo> = None;
    let mut order: usize = 0;
    let mut items: Vec<ParsedChannel> = Vec::new();
    let mut i: usize = 0;
    assert(lv.take(0) =~= Seq::<Seq<char>>::empty());
    assert(parsed_views(items@) =~= Seq::<SpecParsedChannel>::empty());
    while i < ls.len()
        invariant
            i <= ls@.len(),
            ls@.len() <= text@.len(),
            playlist_fits(text@),
            order <= i,
            lv == views(ls@),
            src == (SpecSource {
                origin,
                whitelist,
                source_order,
                iptv_source: opt_str_view(iptv_source),
                iptv_restricted,
            }),
            m3u_fold(lv.take(i as int), src) == (opt_info_view(pending), order as nat, parsed_views(
                items@,
            )),
        decreases ls@.len() - i,
    {
        proof {
            assert(lv.take(i + 1).drop_last() =~= lv.take(i as int));
            assert(lv.take(i + 1).last() == ls@[i as int]@);
        }
        let line = trim_chars(ls[i].as_slice());
        i = i + 1;
        if line.len() == 0 {
            continue;
        }
        if starts_with_lit(line.as_slice(), "#EXTINF") {
            pending = Some(parse_extinf(line.as_slice()));
            continue;
        }
        if starts_with_lit(line.as_slice(), "#") {
            continue;
        }
        if looks_like_stream_url(line.as_slice()) {
            let info = match pending {
                Some(info) => info,
                None => M3uInfo { name: None, group: None, tvg_id: None, logo: None },
            };
            pending = None;
            let name = match info.name {
                Some(n) => {
                    let t = trim_chars(n.as_slice());
                    if t.len() > 0 {
                        n
                    } else {
                        continue;
                    }
                },
                None => {
                    continue;
                },
            };
            let item = ParsedChannel {
                name: string_from_chars(name.as_slice()),
                group: copy_opt_chars(&info.group),
                tvg_id: copy_opt_chars(&info.tvg_id),
                logo: copy_opt_chars(&info.logo),
                stream: Some(
                    new_stream(
                        line.as_slice(),
                        origin,
                        whitelist,
                        source_order,
                        iptv_source,
                        iptv_restricted,
                    ),
                ),
                order: order_for_origin(origin, order),
            };
            let ghost old_items = parsed_views(items@);
            items.push(item);
            assert(parsed_views(items@) =~= old_items.push(item@));
            order = order + 1;
        }
    }
    assert(lv.take(lv.len() as int) =~= lv);
    items
}

/// The entries of a playlist, in the format its text shows.
pub fn parse_playlist(
    text: &str,
    source_name: &str,
    origin: Origin,
    whitelist: bool,
    source_order: usize,
    iptv_source: Option<&str>,
    iptv_restricted: bool,
) -> (r: Result<Vec<ParsedChannel>, PlaylistError>)
    requires
        playlist_fits(text@),
    ensures
        r matches Ok(items) && parsed_views(items@) == spec_parse_playlist(
            text@,
            SpecSource {
                origin,
                whitelist,
                source_order,
                iptv_source: opt_str_view(iptv_source),
                iptv_restricted,
            },
        ),
{
    let chars = chars_of(text);
    let m3u = chars_of("#EXTM3U");
    let extinf = chars_of("#EXTINF");
    if contains_exec(chars.as_slice(), m3u.as_slice()) || contains_exec(
        chars.as_slice(),
        extinf.as_slice(),
    ) {
        Ok(parse_m3u(text, origin, whitelist, source_order, iptv_source, iptv_restricted))
    } else {
        Ok(
            parse_txt(
                text,
                source_name,
                origin,
                whitelist,
                source_order,
                iptv_source,
                iptv_restricted,
            ),
        )
    }
}


/// The stream schemes that a playlist line may carry.
pub open spec fn stream_scheme(scheme: Seq<char>) -> bool {
    ||| scheme == "http"@
    ||| scheme == "https"@
    ||| scheme == "rtmp"@
    ||| scheme == "rtsp"@
    ||| scheme == "udp"@
    ||| scheme == "rtp"@
    ||| scheme == "file"@
}

proof fn lemma_stream_scheme_letters(scheme: Seq<char>)
    requires
        stream_scheme(scheme),
    ensures
        scheme.len() > 0,
        forall|j: int| 0 <= j < scheme.len() ==> 97 <= #[trigger] (scheme[j] as u32) <= 122,
{
    reveal_strlit("http");
    reveal_strlit("https");
    reveal_strlit("rtmp");
    reveal_strlit("rtsp");
    reveal_strlit("udp");
    reveal_strlit("rtp");
    reveal_strlit("file");
}

/// The address `scheme://host` starts with one of the stream prefixes.
proof fn lemma_scheme_url_looks_like_stream(scheme: Seq<char>, host: Seq<char>)
    requires
        stream_scheme(scheme),
    ensures
        ({
            let url = scheme + "://"@ + host;
            ||| starts_with(url, "http://"@)
            ||| starts_with(url, "https://"@)
            ||| starts_with(url, "rtmp://"@)
            ||| starts_with(url, "rtsp://"@)
            ||| starts_with(url, "udp://"@)
            ||| starts_with(url, "rtp://"@)
            ||| starts_with(url, "file://"@)
        }),
{
    let url = scheme + "://"@ + host;
    reveal_strlit("://");
    reveal_strlit("http");
    reveal_strlit("https");
    reveal_strlit("rtmp");
    reveal_strlit("rtsp");
    reveal_strlit("udp");
    reveal_strlit("rtp");
    reveal_strlit("file");
    reveal_strlit("http://");
    reveal_strlit("https://");
    reveal_strlit("rtmp://");
    reveal_strlit("rtsp://");
    reveal_strlit("udp://");
    reveal_strlit("rtp://");
    reveal_strlit("file://");
    if scheme == "http"@ {
        assert(url.take(7) =~= "http://"@);
    } else if scheme == "https"@ {
        assert(url.take(8) =~= "https://"@);
    } else if scheme == "rtmp"@ {
        assert(url.take(7) =~= "rtmp://"@);
    } else if scheme == "rtsp"@ {
        assert(url.take(7) =~= "rtsp://"@);
    } else if scheme == "udp"@ {
        assert(url.take(6) =~= "udp://"@);
    } else if scheme == "rtp"@ {
        assert(url.take(6) =~= "rtp://"@);
    } else {
        assert(url.take(7) =~= "file://"@);
    }
}

/// Law: a text is taken for a stream address exactly when, trimmed, it
/// starts with `scheme://` for one of the stream schemes `http`, `https`,
/// `rtmp`, `rtsp`, `udp`, `rtp` and `file`.
pub proof fn law_stream_address_schemes(v: Seq<char>)
    ensures
        spec_looks_like_stream_url(v) <==> exists|scheme: Seq<char>|
            stream_scheme(scheme) && #[trigger] starts_with(trim(v), scheme + "://"@),
{
    reveal_strlit("://");
    reveal_strlit("http");
    reveal_strlit("https");
    reveal_strlit("rtmp");
    reveal_strlit("rtsp");
    reveal_strlit("udp");
    reveal_strlit("rtp");
    reveal_strlit("file");
    reveal_strlit("http://");
    reveal_strlit("https://");
    reveal_strlit("rtmp://");
    reveal_strlit("rtsp://");
    reveal_strlit("udp://");
    reveal_strlit("rtp://");
    reveal_strlit("file://");
    let t = trim(v);
    assert("http"@ + "://"@ =~= "http://"@);
    assert("https"@ + "://"@ =~= "https://"@);
    assert("rtmp"@ + "://"@ =~= "rtmp://"@);
    assert("rtsp"@ + "://"@ =~= "rtsp://"@);
    assert("udp"@ + "://"@ =~= "udp://"@);
    assert("rtp"@ + "://"@ =~= "rtp://"@);
    assert("file"@ + "://"@ =~= "file://"@);
    if spec_looks_like_stream_url(v) {
        if starts_with(t, "http://"@) {
            assert(stream_scheme("http"@) && starts_with(t, "http"@ + "://"@));
        } else if starts_with(t, "https://"@) {
            assert(stream_scheme("https"@) && starts_with(t, "https"@ + "://"@));
        } else if starts_with(t, "rtmp://"@) {
            assert(stream_scheme("rtmp"@) && starts_with(t, "rtmp"@ + "://"@));
        } else if starts_with(t, "rtsp://"@) {
            assert(stream_scheme("rtsp"@) && starts_with(t, "rtsp"@ + "://"@));
        } else if starts_with(t, "udp://"@) {
            assert(stream_scheme("udp"@) && starts_with(t, "udp"@ + "://"@));
        } else if starts_with(t, "rtp://"@) {
            assert(stream_scheme("rtp"@) && starts_with(t, "rtp"@ + "://"@));
        } else {
            assert(stream_scheme("file"@) && starts_with(t, "file"@ + "://"@));
        }
    }
    if exists|scheme: Seq<char>| stream_scheme(scheme) && #[trigger] starts_with(t, scheme + "://"@) {
        let scheme = choose|scheme: Seq<char>|
            stream_scheme(scheme) && #[trigger] starts_with(t, scheme + "://"@);
        assert(spec_looks_like_stream_url(v));
    }
}

/// Law: a one-line playlist `name,scheme://host`, for each stream scheme
/// (`http`, `https`, `rtmp`, `rtsp`, `udp`, `rtp`, `file`), gives exactly
/// one entry: the channel `name` with the stream `scheme://host`. The name
/// neither begins nor ends with whitespace, and neither part holds a comma,
/// a line break or `#`.
pub proof fn law_stream_schemes_give_entries(
    name: Seq<char>,
    scheme: Seq<char>,
    host: Seq<char>,
    src: SpecSource,
)
    requires
        stream_scheme(scheme),
        name.len() > 0,
        !is_ws(name[0]),
        !is_ws(name.last()),
        forall|j: int|
            0 <= j < name.len() ==> #[trigger] name[j] != ',' && name[j] != '\n' && name[j] != '#',
        forall|j: int|
            0 <= j < host.len() ==> !is_ws(#[trigger] host[j]) && host[j] != ',' && host[j] != '#',
    ensures
        ({
            let url = scheme + "://"@ + host;
            let r = spec_parse_playlist(name + ","@ + url, src);
            &&& r.len() == 1
            &&& r[0].name == name
            &&& r[0].group is None
            &&& r[0].stream == Some(make_stream(url, src))
        }),
{
    reveal_strlit(",");
    reveal_strlit("://");
    reveal_strlit("#");
    reveal_strlit("#EXTM3U");
    reveal_strlit("#EXTINF");
    reveal_strlit("#genre#");
    lemma_stream_scheme_letters(scheme);
    let url = scheme + "://"@ + host;
    let text = name + ","@ + url;
    assert(","@ =~= seq![',']);
    assert(text =~= name + seq![','] + url);
    assert forall|j: int| 0 <= j < url.len() implies #[trigger] url[j] != ',' && url[j] != '\n'
        && url[j] != '#' && !is_ws(url[j]) by {
        if j < scheme.len() {
            assert(url[j] == scheme[j]);
            assert(97 <= scheme[j] as u32 <= 122);
        } else if j < scheme.len() + 3 {
            assert(url[j] == "://"@[j - scheme.len()]);
            assert(url[j] == ':' || url[j] == '/');
        } else {
            assert(url[j] == host[j - scheme.len() - 3]);
        }
    }
    assert(url[0] == scheme[0]);
    assert forall|j: int| 0 <= j < text.len() implies #[trigger] text[j] != '\n' && text[j] != '#' by {
        if j < name.len() {
            assert(text[j] == name[j]);
        } else if j > name.len() {
            assert(text[j] == url[j - name.len() - 1]);
        }
    }
    lemma_not_contains(text, "#EXTM3U"@);
    lemma_not_contains(text, "#EXTINF"@);
    lemma_lines_single(text);
    assert(seq![text].drop_last() =~= Seq::<Seq<char>>::empty());
    assert(seq![text].last() == text);
    assert(text[0] == name[0]);
    assert(text.last() == url.last());
    lemma_trim_unchanged(text);
    lemma_trim_unchanged(name);
    lemma_trim_unchanged(url);
    assert(!starts_with(text, "#"@)) by {
        if starts_with(text, "#"@) {
            assert(text.take(1)[0] == text[0]);
        }
    }
    lemma_split_once_at(name, ',', url);
    assert(!eq_ignore_ascii_case(url, "#genre#"@)) by {
        assert(ascii_lower_seq(url)[0] == ascii_lower(url[0]));
        assert(ascii_lower_seq("#genre#"@)[0] == ascii_lower('#'));
    }
    assert(genre_heading(text) is None);
    lemma_scheme_url_looks_like_stream(scheme, host);
    assert(spec_looks_like_stream_url(url));
    let st0: TxtState = (None, 0, seq![]);
    assert(txt_fold(Seq::<Seq<char>>::empty(), src) == st0);
    assert(txt_fold(seq![text], src) == txt_step(st0, text, src));
}

// ---------------------------------------------------------------------------
// Local sources
// ---------------------------------------------------------------------------

/// The file of a local source list entry: a `file://` address names the
/// path after the scheme, other paths are taken from the root; HTTP
/// addresses are refused.
pub open spec fn spec_local_source_path(root: Seq<char>, url: Seq<char>) -> Result<
    Seq<char>,
    PlaylistError,
> {
    if starts_with(url, "http://"@) || starts_with(url, "https://"@) {
        Err(PlaylistError::RemoteLocalSource)
    } else if starts_with(url, "file://"@) {
        Ok(url.skip(7))
    } else {
        Ok(spec_join(root, url))
    }
}

/// The file of a local source list entry.
pub fn resolve_local_source_path(settings: &Settings, source: &SourceEntry) -> (r: Result<
    String,
    PlaylistError,
>)
    ensures
        r matches Ok(p) ==> spec_local_source_path(settings.root@, source.url@) == Ok::<
            Seq<char>,
            PlaylistError,
        >(p@),
        r matches Err(e) ==> spec_local_source_path(settings.root@, source.url@) == Err::<
            Seq<char>,
            PlaylistError,
        >(e),
{
    let u = chars_of(source.url.as_str());
    if starts_with_lit(u.as_slice(), "http://") || starts_with_lit(u.as_slice(), "https://") {
        return Err(PlaylistError::RemoteLocalSource);
    }
    proof {
        reveal_strlit("file://");
    }
    if starts_with_lit(u.as_slice(), "file://") {
        let rest = subvec(u.as_slice(), 7, u.len());
        assert(rest@ =~= source.url@.skip(7));
        return Ok(string_from_chars(rest.as_slice()));
    }
    Ok(settings.resolve(source.url.as_str()))
}

/// A local source file to read.
#[derive(Debug, Clone)]
pub struct LocalSource {
    pub path: String,
    pub source_order: usize,
    pub iptv_source: Option<String>,
    pub iptv_restricted: bool,
}

/// The mathematical value of a [`LocalSource`].
pub struct SpecLocalSource {
    pub path: Seq<char>,
    pub source_order: nat,
    pub iptv_source: Option<Seq<char>>,
    pub iptv_restricted: bool,
}

/// The values of local sources.
pub open spec fn local_views(v: Seq<LocalSource>) -> Seq<SpecLocalSource> {
    v.map_values(
        |l: LocalSource|
            SpecLocalSource {
                path: l.path@,
                source_order: l.source_order as nat,
                iptv_source: opt_view(l.iptv_source),
                iptv_restricted: l.iptv_restricted,
            },
    )
}

/// The local sources of the entries read so far, the refusal that stopped
/// the list if any, and how many entries were enabled. Each enabled entry
/// takes the next number; those that the IPTV source filter refuses are
/// passed over, and the first refused path stops the list.
pub open spec fn local_plan_fold(es: Seq<SpecSourceEntry>, st: Settings) -> (
    Seq<SpecLocalSource>,
    Option<PlaylistError>,
    nat,
)
    decreases es.len(),
{
    if es.len() == 0 {
        (seq![], None, 0)
    } else {
        let prev = local_plan_fold(es.drop_last(), st);
        let e = es.last();
        let n = prev.2;
        if !e.enabled || prev.1 is Some {
            prev
        } else if !spec_iptv_label_allowed(
            e.iptv_source,
            e.iptv_restricted,
            crate::text::string_views(st.iptv_source_filter@),
        ) {
            (prev.0, None, n + 1)
        } else {
            match spec_local_source_path(st.root@, e.url) {
                Err(x) => (prev.0, Some(x), n + 1),
                Ok(p) => (
                    prev.0.push(
                        SpecLocalSource {
                            path: p,
                            source_order: n,
                            iptv_source: e.iptv_source,
                            iptv_restricted: e.iptv_restricted,
                        },
                    ),
                    None,
                    n + 1,
                ),
            }
        }
    }
}

/// The local source files to read, in order, for the entries of the local
/// source list, up to the first entry whose path is refused, and that
/// refusal.
pub fn plan_local_sources(settings: &Settings, sources: &Vec<SourceEntry>) -> (r: (
    Vec<LocalSource>,
    Option<PlaylistError>,
))
    ensures
        local_views(r.0@) == local_plan_fold(entry_views(sources@), *settings).0,
        r.1 == local_plan_fold(entry_views(sources@), *settings).1,
{
    let ghost ev = entry_views(sources@);
    let mut out: Vec<LocalSource> = Vec::new();
    let mut refusal: Option<PlaylistError> = None;
    let mut n: usize = 0;
    let mut i: usize = 0;
    assert(ev.take(0) =~= Seq::<SpecSourceEntry>::empty());
    assert(local_views(out@) =~= Seq::<SpecLocalSource>::empty());
    while i < sources.len()
        invariant
            i <= sources@.len(),
            ev == entry_views(sources@),
            n <= i,
            local_plan_fold(ev.take(i as int), *settings) == (local_views(out@), refusal, n as nat),
        decreases sources@.len() - i,
    {
        assert(ev.take(i + 1).drop_last() =~= ev.take(i as int));
        assert(ev.take(i + 1).last() == sources@[i as int]@);
        let e = &sources[i];
        if e.enabled && refusal.is_none() {
            if source_iptv_allowed(e, settings) {
                match resolve_local_source_path(settings, e) {
                    Err(x) => {
                        refusal = Some(x);
                    },
                    Ok(p) => {
                        let ghost before = local_views(out@);
                        out.push(
                            LocalSource {
                                path: p,
                                source_order: n,
                                iptv_source: crate::models::copy_opt_string(&e.iptv_source),
                                iptv_restricted: e.iptv_restricted,
                            },
                        );
                        assert(local_views(out@) =~= before.push(
                            SpecLocalSource {
                                path: local_views(out@).last().path,
                                source_order: n as nat,
                                iptv_source: e@.iptv_source,
                                iptv_restricted: e.iptv_restricted,
                            },
                        ));
                    },
                }
            }
            n = n + 1;
        }
        i = i + 1;
    }
    assert(ev.take(ev.len() as int) =~= ev);
    (out, refusal)
}

} // verus!
