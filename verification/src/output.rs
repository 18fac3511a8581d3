//! The result playlists: the text format with `group,#genre#` headings and
//! `name,url` lines, and M3U with `#EXTINF` lines.
use vstd::prelude::*;
use crate::config::Settings;
use crate::models::{channel_views, Channel, SpecChannel, SpecStream};
use crate::text::{append_chars, chars_of, replace_all, replace_all_exec, string_from_chars};

verus! {

broadcast use vstd::string::group_string_axioms;

/// The group a channel is listed under.
pub open spec fn group_label(c: SpecChannel) -> Seq<char> {
    match c.group {
        Some(g) => g,
        None => "未分组"@,
    }
}

/// `name,url` lines for the streams.
pub open spec fn txt_stream_lines(name: Seq<char>, ss: Seq<SpecStream>) -> Seq<char>
    decreases ss.len(),
{
    if ss.len() == 0 {
        seq![]
    } else {
        txt_stream_lines(name, ss.drop_last()) + name + seq![','] + ss.last().url + seq!['\n']
    }
}

/// The text playlist of the channels and the group of the last heading.
/// Channels without streams are left out; a heading is written whenever
/// the group changes.
pub open spec fn txt_fold(cs: Seq<SpecChannel>) -> (Seq<char>, Option<Seq<char>>)
    decreases cs.len(),
{
    if cs.len() == 0 {
        (seq![], None)
    } else {
        let prev = txt_fold(cs.drop_last());
        let c = cs.last();
        if c.streams.len() == 0 {
            prev
        } else {
            let g = group_label(c);
            let head = if prev.1 == Some(g) {
                seq![]
            } else {
                g + ",#genre#\n"@
            };
            (prev.0 + head + txt_stream_lines(c.name, c.streams), Some(g))
        }
    }
}

/// The comment row that records when the playlist was written; readers of
/// the text format skip lines that start with `#`.
pub open spec fn update_time_row(time: Seq<char>) -> Seq<char> {
    "# 更新时间: "@ + time + seq!['\n']
}

/// The text playlist of the channels: with `open_update_time` set, the
/// update-time row stands first when `update_time_position` is `top` and
/// last otherwise; with it unset there is no such row.
pub open spec fn spec_render_txt(
    cs: Seq<SpecChannel>,
    open_update_time: bool,
    position: Seq<char>,
    time: Seq<char>,
) -> Seq<char> {
    let body = txt_fold(cs).0;
    if !open_update_time {
        body
    } else if position == "top"@ {
        update_time_row(time) + body
    } else {
        body + update_time_row(time)
    }
}

/// An attribute value with `&`, `"`, `<` and `>` escaped.
pub open spec fn spec_escape_attr(v: Seq<char>) -> Seq<char> {
    replace_all(
        replace_all(replace_all(replace_all(v, "&"@, "&amp;"@), "\""@, "&quot;"@), "<"@, "&lt;"@),
        ">"@,
        "&gt;"@,
    )
}

/// The `#EXTINF` line of a channel.
pub open spec fn extinf_line(c: SpecChannel) -> Seq<char> {
    let tvg_id = match c.tvg_id {
        Some(id) => id,
        None => c.name,
    };
    let logo = match c.logo {
        Some(l) => l,
        None => seq![],
    };
    "#EXTINF:-1 tvg-id=\""@ + spec_escape_attr(tvg_id) + "\" tvg-name=\""@ + spec_escape_attr(c.name)
        + "\" tvg-logo=\""@ + spec_escape_attr(logo) + "\" group-title=\""@ + spec_escape_attr(
        group_label(c),
    ) + "\","@ + c.name + seq!['\n']
}

/// The `#EXTINF` line and the address of each stream.
pub open spec fn m3u_stream_lines(info: Seq<char>, ss: Seq<SpecStream>) -> Seq<char>
    decreases ss.len(),
{
    if ss.len() == 0 {
        seq![]
    } else {
        m3u_stream_lines(info, ss.drop_last()) + info + ss.last().url + seq!['\n']
    }
}

/// The entries of the channels in an M3U playlist.
pub open spec fn m3u_body(cs: Seq<SpecChannel>) -> Seq<char>
    decreases cs.len(),
{
    if cs.len() == 0 {
        seq![]
    } else {
        m3u_body(cs.drop_last()) + m3u_stream_lines(extinf_line(cs.last()), cs.last().streams)
    }
}

/// The M3U playlist of the channels.
pub open spec fn spec_render_m3u(cs: Seq<SpecChannel>) -> Seq<char> {
    "#EXTM3U\n"@ + m3u_body(cs)
}

fn escape_lit(s: Vec<char>, from: &str, to: &str) -> (r: Vec<char>)
    ensures
        r@ == replace_all(s@, from@, to@),
{
    let f = chars_of(from);
    let t = chars_of(to);
    replace_all_exec(s.as_slice(), f.as_slice(), t.as_slice())
}

/// `value` with `&`, `"`, `<` and `>` escaped for an attribute.
pub fn escape_attr(value: &str) -> (r: String)
    ensures
        r@ == spec_escape_attr(value@),
{
    let a = escape_lit(chars_of(value), "&", "&amp;");
    let b = escape_lit(a, "\"", "&quot;");
    let c = escape_lit(b, "<", "&lt;");
    let d = escape_lit(c, ">", "&gt;");
    string_from_chars(d.as_slice())
}

fn group_label_exec(c: &Channel) -> (r: Vec<char>)
    ensures
        r@ == group_label(c@),
{
    match &c.group {
        Some(g) => chars_of(g.as_str()),
        None => chars_of("未分组"),
    }
}

fn update_time_row_exec(time: &str) -> (r: Vec<char>)
    ensures
        r@ == update_time_row(time@),
{
    let mut r = chars_of("# 更新时间: ");
    append_chars(&mut r, chars_of(time).as_slice());
    r.push('\n');
    r
}

/// The text playlist of the channels, with the update-time row for `time`
/// where the settings ask for it.
pub fn render_txt(channels: &[Channel], settings: &Settings, update_time: &str) -> (text: String)
    ensures
        text@ == spec_render_txt(
            channel_views(channels@),
            settings.open_update_time,
            settings.update_time_position@,
            update_time@,
        ),
{
    let body = txt_body(channels);
    if !settings.open_update_time {
        return string_from_chars(body.as_slice());
    }
    let row = update_time_row_exec(update_time);
    let top = crate::text::eq_chars(
        chars_of(settings.update_time_position.as_str()).as_slice(),
        chars_of("top").as_slice(),
    );
    if top {
        let mut out = row;
        append_chars(&mut out, body.as_slice());
        string_from_chars(out.as_slice())
    } else {
        let mut out = body;
        append_chars(&mut out, row.as_slice());
        string_from_chars(out.as_slice())
    }
}

fn txt_body(channels: &[Channel]) -> (out: Vec<char>)
    ensures
        out@ == txt_fold(channel_views(channels@)).0,
{
    let ghost cv = channel_views(channels@);
    let mut out: Vec<char> = Vec::new();
    let mut last_group: Option<Vec<char>> = None;
    let mut i: usize = 0;
    assert(cv.take(0) =~= Seq::<SpecChannel>::empty());
    while i < channels.len()
        invariant
            i <= channels@.len(),
            cv == channel_views(channels@),
            (out@, match last_group {
                Some(g) => Some(g@),
                None => None,
            }) == txt_fold(cv.take(i as int)),
        decreases channels@.len() - i,
    {
        assert(cv.take(i + 1).drop_last() =~= cv.take(i as int));
        assert(cv.take(i + 1).last() == channels@[i as int]@);
        let c = &channels[i];
        if c.streams.len() > 0 {
            let g = group_label_exec(c);
            let same = match &last_group {
                Some(l) => crate::text::eq_chars(l.as_slice(), g.as_slice()),
                None => false,
            };
            if !same {
                append_chars(&mut out, g.as_slice());
                append_chars(&mut out, chars_of(",#genre#\n").as_slice());
            }
            let name = chars_of(c.name.as_str());
            let ghost base = out@;
            let mut j: usize = 0;
            assert(c@.streams.take(0) =~= Seq::<SpecStream>::empty());
            assert(base + txt_stream_lines(name@, c@.streams.take(0)) =~= base);
            while j < c.streams.len()
                invariant
                    j <= c.streams@.len(),
                    c@ == channels@[i as int]@,
                    name@ == c@.name,
                    out@ == base + txt_stream_lines(name@, c@.streams.take(j as int)),
                decreases c.streams@.len() - j,
            {
                assert(c@.streams.take(j + 1).drop_last() =~= c@.streams.take(j as int));
                assert(c@.streams.take(j + 1).last() == c.streams@[j as int]@);
                append_chars(&mut out, name.as_slice());
                out.push(',');
                append_chars(&mut out, chars_of(c.streams[j].url.as_str()).as_slice());
                out.push('\n');
                assert(out@ =~= base + txt_stream_lines(name@, c@.streams.take(j + 1)));
                j = j + 1;
            }
            assert(c@.streams.take(c@.streams.len() as int) =~= c@.streams);
            last_group = Some(g);
        }
        i = i + 1;
    }
    assert(cv.take(cv.len() as int) =~= cv);
    out
}

fn extinf_line_exec(c: &Channel) -> (r: Vec<char>)
    ensures
        r@ == extinf_line(c@),
{
    let tvg_id = match &c.tvg_id {
        Some(id) => escape_attr(id.as_str()),
        None => escape_attr(c.name.as_str()),
    };
    let logo = match &c.logo {
        Some(l) => escape_attr(l.as_str()),
        None => escape_attr(""),
    };
    proof {
        reveal_strlit("");
    }
    let group = string_from_chars(group_label_exec(c).as_slice());
    let mut out = chars_of("#EXTINF:-1 tvg-id=\"");
    append_chars(&mut out, chars_of(tvg_id.as_str()).as_slice());
    append_chars(&mut out, chars_of("\" tvg-name=\"").as_slice());
    append_chars(&mut out, chars_of(escape_attr(c.name.as_str()).as_str()).as_slice());
    append_chars(&mut out, chars_of("\" tvg-logo=\"").as_slice());
    append_chars(&mut out, chars_of(logo.as_str()).as_slice());
    append_chars(&mut out, chars_of("\" group-title=\"").as_slice());
    append_chars(&mut out, chars_of(escape_attr(group.as_str()).as_str()).as_slice());
    append_chars(&mut out, chars_of("\",").as_slice());
    append_chars(&mut out, chars_of(c.name.as_str()).as_slice());
    out.push('\n');
    assert(out@ =~= extinf_line(c@));
    out
}

/// The M3U playlist of the channels.
pub fn render_m3u(channels: &[Channel]) -> (text: String)
    ensures
        text@ == spec_render_m3u(channel_views(channels@)),
{
    let ghost cv = channel_views(channels@);
    let mut out = chars_of("#EXTM3U\n");
    let ghost head = out@;
    let mut i: usize = 0;
    assert(cv.take(0) =~= Seq::<SpecChannel>::empty());
    assert(head + m3u_body(cv.take(0)) =~= head);
    while i < channels.len()
        invariant
            i <= channels@.len(),
            cv == channel_views(channels@),
            head == "#EXTM3U\n"@,
            out@ == head + m3u_body(cv.take(i as int)),
        decreases channels@.len() - i,
    {
        assert(cv.take(i + 1).drop_last() =~= cv.take(i as int));
        assert(cv.take(i + 1).last() == channels@[i as int]@);
        let c = &channels[i];
        let info = extinf_line_exec(c);
        let ghost base = out@;
        let mut j: usize = 0;
        assert(c@.streams.take(0) =~= Seq::<SpecStream>::empty());
        assert(base + m3u_stream_lines(info@, c@.streams.take(0)) =~= base);
        while j < c.streams.len()
            invariant
                j <= c.streams@.len(),
                c@ == channels@[i as int]@,
                info@ == extinf_line(c@),
                out@ == base + m3u_stream_lines(info@, c@.streams.take(j as int)),
            decreases c.streams@.len() - j,
        {
            assert(c@.streams.take(j + 1).drop_last() =~= c@.streams.take(j as int));
            assert(c@.streams.take(j + 1).last() == c.streams@[j as int]@);
            append_chars(&mut out, info.as_slice());
            append_chars(&mut out, chars_of(c.streams[j].url.as_str()).as_slice());
            out.push('\n');
            assert(out@ =~= base + m3u_stream_lines(info@, c@.streams.take(j + 1)));
            j = j + 1;
        }
        assert(c@.streams.take(c@.streams.len() as int) =~= c@.streams);
        assert(out@ =~= head + m3u_body(cv.take(i + 1)));
        i = i + 1;
    }
    assert(cv.take(cv.len() as int) =~= cv);
    string_from_chars(out.as_slice())
}

} // verus!
