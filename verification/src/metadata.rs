//! The tab-separated metadata file that keeps every channel and stream of an
//! update, so that filtered outputs can be generated again later.
//!
//! The text starts with a header line; each channel is a `C` row followed by
//! one `S` row per stream. Text fields escape `%`, tab, newline and carriage
//! return as `%XX`; an absent optional field is empty.
use vstd::prelude::*;
use vstd::utf8::*;
use crate::models::{
    channel_views, ipv_name, opt_view, stream_views, Channel, IpvType, Origin, SpecChannel,
    SpecStream, Stream,
};
use crate::numbers::{
    all_digits, is_digit, lemma_dec, lemma_parse_dec, bool_text, dec, fmt_bool, fmt_usize, parse_bool, parse_bool_chars, parse_u64_chars,
    parse_unsigned,
};
use crate::text::{
    index_of_char, is_ws, lemma_index_of_char, lemma_index_of_char_bounds, trim_start, trim_end,
    append_chars, chars_of, eq_chars, lines, lines_exec, split_char, split_char_exec,
    string_from_chars, subvec, trim, trim_chars, views,
};

verus! {

broadcast use vstd::string::group_string_axioms;

/// Why a metadata file could not be read.
#[derive(Debug, Clone, Copy, PartialEq, Eq, Structural)]
pub enum MetadataError {
    NotUtf8,
    UnsupportedHeader,
    StreamBeforeChannel,
    UnknownRow,
    ChannelFieldCount,
    StreamFieldCount,
    InvalidOrder,
    InvalidWhitelistFlag,
    InvalidSourceOrder,
    InvalidRestrictedFlag,
    UnknownOrigin,
    TruncatedEscape,
    InvalidHexDigit,
    FieldNotUtf8,
}

// ---------------------------------------------------------------------------
// Writing
// ---------------------------------------------------------------------------

/// The header that is written.
pub open spec fn header_v2() -> Seq<char> {
    "iptv-rs-metadata-v2"@
}

/// The older header, still read.
pub open spec fn header_v1() -> Seq<char> {
    "iptv-rs-metadata-v1"@
}

/// Characters that a text field escapes.
pub open spec fn needs_escape(c: char) -> bool {
    c == '%' || c == '\t' || c == '\n' || c == '\r'
}

/// The escaped form of one character: `%` and the two upper-case hex digits
/// of its byte for the four escaped characters, the character itself
/// otherwise.
pub open spec fn escape_char(c: char) -> Seq<char> {
    if c == '%' {
        seq!['%', '2', '5']
    } else if c == '\t' {
        seq!['%', '0', '9']
    } else if c == '\n' {
        seq!['%', '0', 'A']
    } else if c == '\r' {
        seq!['%', '0', 'D']
    } else {
        seq![c]
    }
}

/// The escaped form of a text field.
pub open spec fn encode_field(s: Seq<char>) -> Seq<char>
    decreases s.len(),
{
    if s.len() == 0 {
        seq![]
    } else {
        escape_char(s[0]) + encode_field(s.drop_first())
    }
}

/// An optional text field: escaped when present, empty when absent.
pub open spec fn encode_opt(o: Option<Seq<char>>) -> Seq<char> {
    match o {
        Some(s) => encode_field(s),
        None => seq![],
    }
}

/// The name under which an origin is written.
pub open spec fn origin_text(o: Origin) -> Seq<char> {
    match o {
        Origin::Template => "template"@,
        Origin::Local => "local"@,
        Origin::Subscribe => "subscribe"@,
        Origin::SubscribeWhitelist => "subscribe_whitelist"@,
    }
}

/// The fields of a channel row.
pub open spec fn channel_fields(c: SpecChannel) -> Seq<Seq<char>> {
    seq![
        "C"@,
        encode_field(c.name),
        encode_opt(c.group),
        encode_opt(c.tvg_id),
        encode_opt(c.logo),
        dec(c.order as nat),
    ]
}

/// The fields of a stream row.
pub open spec fn stream_fields(s: SpecStream) -> Seq<Seq<char>> {
    seq![
        "S"@,
        encode_field(s.url),
        origin_text(s.origin),
        bool_text(s.whitelist),
        dec(s.source_order as nat),
        encode_opt(s.iptv_source),
        bool_text(s.iptv_restricted),
        ipv_name(s.ipv_type),
    ]
}

/// The stream rows of a channel.
pub open spec fn stream_rows(ss: Seq<SpecStream>) -> Seq<Seq<Seq<char>>> {
    ss.map_values(|s: SpecStream| stream_fields(s))
}

/// All rows, in order: each channel row followed by its stream rows.
pub open spec fn all_rows(cs: Seq<SpecChannel>) -> Seq<Seq<Seq<char>>>
    decreases cs.len(),
{
    if cs.len() == 0 {
        seq![]
    } else {
        all_rows(cs.drop_last()) + seq![channel_fields(cs.last())] + stream_rows(cs.last().streams)
    }
}

/// Fields joined by tabs.
pub open spec fn join_tab(f: Seq<Seq<char>>) -> Seq<char>
    decreases f.len(),
{
    if f.len() == 0 {
        seq![]
    } else if f.len() == 1 {
        f[0]
    } else {
        join_tab(f.drop_last()) + seq!['\t'] + f.last()
    }
}

/// Rows, each ended by a newline.
pub open spec fn rows_text(rs: Seq<Seq<Seq<char>>>) -> Seq<char>
    decreases rs.len(),
{
    if rs.len() == 0 {
        seq![]
    } else {
        rows_text(rs.drop_last()) + join_tab(rs.last()) + seq!['\n']
    }
}

/// The whole metadata text of a list of channels.
pub open spec fn metadata_text(cs: Seq<SpecChannel>) -> Seq<char> {
    header_v2() + seq!['\n'] + rows_text(all_rows(cs))
}

// ---------------------------------------------------------------------------
// Reading
// ---------------------------------------------------------------------------

/// The value of an ASCII hex digit.
pub open spec fn hex_val(b: u8) -> Option<u8> {
    if 48 <= b <= 57 {
        Some((b - 48) as u8)
    } else if 97 <= b <= 102 {
        Some((b - 97 + 10) as u8)
    } else if 65 <= b <= 70 {
        Some((b - 65 + 10) as u8)
    } else {
        None
    }
}

/// Percent-decoding of the bytes of a field.
pub open spec fn pct_decode(b: Seq<u8>) -> Result<Seq<u8>, MetadataError>
    decreases b.len(),
{
    if b.len() == 0 {
        Ok(seq![])
    } else if b[0] == 37 {
        if b.len() < 3 {
            Err(MetadataError::TruncatedEscape)
        } else {
            match hex_val(b[1]) {
                None => Err(MetadataError::InvalidHexDigit),
                Some(h) => match hex_val(b[2]) {
                    None => Err(MetadataError::InvalidHexDigit),
                    Some(l) => match pct_decode(b.skip(3)) {
                        Ok(r) => Ok(seq![(h * 16 + l) as u8] + r),
                        Err(e) => Err(e),
                    },
                },
            }
        }
    } else {
        match pct_decode(b.skip(1)) {
            Ok(r) => Ok(seq![b[0]] + r),
            Err(e) => Err(e),
        }
    }
}

/// A text field read back: its UTF-8 bytes percent-decoded, which must again
/// be UTF-8.
pub open spec fn decode_field(f: Seq<char>) -> Result<Seq<char>, MetadataError> {
    match pct_decode(encode_utf8(f)) {
        Err(e) => Err(e),
        Ok(d) => if valid_utf8(d) {
            Ok(decode_utf8(d))
        } else {
            Err(MetadataError::FieldNotUtf8)
        },
    }
}

/// An optional text field read back; empty means absent.
pub open spec fn decode_opt(f: Seq<char>) -> Result<Option<Seq<char>>, MetadataError> {
    if f.len() == 0 {
        Ok(None)
    } else {
        match decode_field(f) {
            Ok(s) => Ok(Some(s)),
            Err(e) => Err(e),
        }
    }
}

/// An origin read back.
pub open spec fn parse_origin(f: Seq<char>) -> Result<Origin, MetadataError> {
    if f == "template"@ {
        Ok(Origin::Template)
    } else if f == "local"@ {
        Ok(Origin::Local)
    } else if f == "subscribe"@ {
        Ok(Origin::Subscribe)
    } else if f == "subscribe_whitelist"@ {
        Ok(Origin::SubscribeWhitelist)
    } else {
        Err(MetadataError::UnknownOrigin)
    }
}

/// An address family read back; anything unknown is `Unknown`.
pub open spec fn parse_ipv(f: Seq<char>) -> IpvType {
    if f == "ipv4"@ {
        IpvType::Ipv4
    } else if f == "ipv6"@ {
        IpvType::Ipv6
    } else {
        IpvType::Unknown
    }
}

/// A channel row read back, its fields checked in order.
pub open spec fn parse_channel(f: Seq<Seq<char>>) -> Result<SpecChannel, MetadataError> {
    if f.len() != 6 {
        Err(MetadataError::ChannelFieldCount)
    } else {
        match decode_field(f[1]) {
            Err(e) => Err(e),
            Ok(name) => match decode_opt(f[2]) {
                Err(e) => Err(e),
                Ok(group) => match decode_opt(f[3]) {
                    Err(e) => Err(e),
                    Ok(tvg_id) => match decode_opt(f[4]) {
                        Err(e) => Err(e),
                        Ok(logo) => match parse_unsigned(f[5], usize::MAX as nat) {
                            None => Err(MetadataError::InvalidOrder),
                            Some(order) => Ok(
                                SpecChannel {
                                    name,
                                    group,
                                    tvg_id,
                                    logo,
                                    streams: seq![],
                                    order: order as usize,
                                },
                            ),
                        },
                    },
                },
            },
        }
    }
}

/// The restricted flag and address family of a stream row: an old row of
/// seven fields has no restricted flag.
pub open spec fn parse_stream_tail(f: Seq<Seq<char>>) -> Result<(bool, IpvType), MetadataError> {
    if f.len() == 8 {
        match parse_bool(f[6]) {
            None => Err(MetadataError::InvalidRestrictedFlag),
            Some(b) => Ok((b, parse_ipv(f[7]))),
        }
    } else {
        Ok((false, parse_ipv(f[6])))
    }
}

/// A stream row read back, its fields checked in order.
pub open spec fn parse_stream(f: Seq<Seq<char>>) -> Result<SpecStream, MetadataError> {
    if f.len() != 7 && f.len() != 8 {
        Err(MetadataError::StreamFieldCount)
    } else {
        match parse_stream_tail(f) {
            Err(e) => Err(e),
            Ok((restricted, ipv)) => match decode_field(f[1]) {
                Err(e) => Err(e),
                Ok(url) => match parse_origin(f[2]) {
                    Err(e) => Err(e),
                    Ok(origin) => match parse_bool(f[3]) {
                        None => Err(MetadataError::InvalidWhitelistFlag),
                        Some(whitelist) => match parse_unsigned(f[4], usize::MAX as nat) {
                            None => Err(MetadataError::InvalidSourceOrder),
                            Some(so) => match decode_opt(f[5]) {
                                Err(e) => Err(e),
                                Ok(src) => Ok(
                                    SpecStream {
                                        url,
                                        origin,
                                        whitelist,
                                        source_order: so as usize,
                                        iptv_source: src,
                                        iptv_restricted: restricted,
                                        ipv_type: ipv,
                                    },
                                ),
                            },
                        },
                    },
                },
            },
        }
    }
}

/// A channel with one more stream.
pub open spec fn with_stream(c: SpecChannel, s: SpecStream) -> SpecChannel {
    SpecChannel { streams: c.streams.push(s), ..c }
}

/// One row applied to the channels read so far.
pub open spec fn row_step(acc: Seq<SpecChannel>, line: Seq<char>) -> Result<
    Seq<SpecChannel>,
    MetadataError,
> {
    if trim(line).len() == 0 {
        Ok(acc)
    } else {
        let f = split_char(line, '\t');
        if f[0] == "C"@ {
            match parse_channel(f) {
                Ok(c) => Ok(acc.push(c)),
                Err(e) => Err(e),
            }
        } else if f[0] == "S"@ {
            match parse_stream(f) {
                Err(e) => Err(e),
                Ok(s) => if acc.len() == 0 {
                    Err(MetadataError::StreamBeforeChannel)
                } else {
                    Ok(acc.update(acc.len() - 1, with_stream(acc.last(), s)))
                },
            }
        } else {
            Err(MetadataError::UnknownRow)
        }
    }
}

/// All rows applied in order; the first failing row decides the error.
pub open spec fn rows_fold(rows: Seq<Seq<char>>) -> Result<Seq<SpecChannel>, MetadataError>
    decreases rows.len(),
{
    if rows.len() == 0 {
        Ok(seq![])
    } else {
        match rows_fold(rows.drop_last()) {
            Err(e) => Err(e),
            Ok(acc) => row_step(acc, rows.last()),
        }
    }
}

/// The channels of a metadata text.
pub open spec fn parse_metadata_text(t: Seq<char>) -> Result<Seq<SpecChannel>, MetadataError> {
    let ls = lines(t);
    let header = if ls.len() > 0 {
        ls[0]
    } else {
        seq![]
    };
    if header != header_v2() && header != header_v1() {
        Err(MetadataError::UnsupportedHeader)
    } else {
        rows_fold(ls.skip(1))
    }
}

/// The channels of a metadata file.
pub open spec fn parse_metadata(b: Seq<u8>) -> Result<Seq<SpecChannel>, MetadataError> {
    if !valid_utf8(b) {
        Err(MetadataError::NotUtf8)
    } else {
        parse_metadata_text(decode_utf8(b))
    }
}

// ---------------------------------------------------------------------------
// Trusted: UTF-8 validation
// ---------------------------------------------------------------------------

/// `std::str::from_utf8`: succeeds exactly on valid UTF-8, and then the
/// string holds the decoded characters.
#[verifier::external_body]
pub(crate) fn utf8_str(b: &[u8]) -> (r: Option<&str>)
    ensures
        r is Some <==> valid_utf8(b@),
        r matches Some(s) ==> s@ == decode_utf8(b@),
{
    std::str::from_utf8(b).ok()
}

// ---------------------------------------------------------------------------
// Executable code
// ---------------------------------------------------------------------------

fn hex_char(value: u8) -> (c: char)
    requires
        value < 16,
    ensures
        value < 10 ==> c as u32 == 48 + value,
        value >= 10 ==> c as u32 == 65 + value - 10,
{
    if value < 10 {
        (48u8 + value) as char
    } else {
        (65u8 + value - 10) as char
    }
}

fn hex_value(value: u8) -> (r: Result<u8, MetadataError>)
    ensures
        r matches Ok(v) ==> hex_val(value) == Some(v),
        r is Err ==> hex_val(value) is None && r == Err::<u8, MetadataError>(
            MetadataError::InvalidHexDigit,
        ),
{
    if 48 <= value && value <= 57 {
        Ok(value - 48)
    } else if 97 <= value && value <= 102 {
        Ok(value - 97 + 10)
    } else if 65 <= value && value <= 70 {
        Ok(value - 65 + 10)
    } else {
        Err(MetadataError::InvalidHexDigit)
    }
}

/// Escapes one character onto `out`.
fn push_escaped(out: &mut Vec<char>, c: char)
    ensures
        final(out)@ == old(out)@ + escape_char(c),
{
    if c == '%' || c == '\t' || c == '\n' || c == '\r' {
        let byte = c as u32 as u8;
        let hi = byte >> 4;
        let lo = byte & 0x0f;
        assert(byte == 37 ==> hi == 2 && lo == 5) by (bit_vector)
            requires
                hi == byte >> 4,
                lo == byte & 0x0f,
        ;
        assert(byte == 9 ==> hi == 0 && lo == 9) by (bit_vector)
            requires
                hi == byte >> 4,
                lo == byte & 0x0f,
        ;
        assert(byte == 10 ==> hi == 0 && lo == 10) by (bit_vector)
            requires
                hi == byte >> 4,
                lo == byte & 0x0f,
        ;
        assert(byte == 13 ==> hi == 0 && lo == 13) by (bit_vector)
            requires
                hi == byte >> 4,
                lo == byte & 0x0f,
        ;
        out.push('%');
        out.push(hex_char(hi));
        out.push(hex_char(lo));
        assert(out@ =~= old(out)@ + escape_char(c));
    } else {
        out.push(c);
        assert(out@ =~= old(out)@ + escape_char(c));
    }
}

pub proof fn lemma_encode_field_push(s: Seq<char>, c: char)
    ensures
        encode_field(s.push(c)) == encode_field(s) + escape_char(c),
    decreases s.len(),
{
    if s.len() == 0 {
        assert(s.push(c).drop_first() =~= Seq::<char>::empty());
        assert(encode_field(Seq::<char>::empty()) =~= Seq::<char>::empty());
        assert(encode_field(s.push(c)) =~= escape_char(c));
        assert(encode_field(s) + escape_char(c) =~= escape_char(c));
    } else {
        lemma_encode_field_push(s.drop_first(), c);
        assert(s.push(c).drop_first() =~= s.drop_first().push(c));
        assert(encode_field(s.push(c)) =~= escape_char(s[0]) + encode_field(s.drop_first().push(c)));
        assert(encode_field(s.push(c)) =~= encode_field(s) + escape_char(c));
    }
}

/// The escaped form of a text field.
fn encode(value: &[char]) -> (r: Vec<char>)
    ensures
        r@ == encode_field(value@),
{
    let mut out: Vec<char> = Vec::new();
    let mut i: usize = 0;
    while i < value.len()
        invariant
            i <= value@.len(),
            out@ == encode_field(value@.take(i as int)),
        decreases value@.len() - i,
    {
        proof {
            lemma_encode_field_push(value@.take(i as int), value@[i as int]);
            assert(value@.take(i as int).push(value@[i as int]) =~= value@.take(i + 1));
        }
        push_escaped(&mut out, value[i]);
        i = i + 1;
    }
    assert(value@.take(value@.len() as int) =~= value@);
    out
}

fn encode_option(value: &Option<String>) -> (r: Vec<char>)
    ensures
        r@ == encode_opt(opt_view(*value)),
{
    match value {
        Some(s) => {
            let cs = chars_of(s.as_str());
            encode(cs.as_slice())
        },
        None => Vec::new(),
    }
}

fn origin_name(origin: Origin) -> (s: &'static str)
    ensures
        s@ == origin_text(origin),
{
    match origin {
        Origin::Template => "template",
        Origin::Local => "local",
        Origin::Subscribe => "subscribe",
        Origin::SubscribeWhitelist => "subscribe_whitelist",
    }
}

/// Appends one row: the fields joined by tabs, then a newline.
fn push_fields(output: &mut Vec<char>, fields: &Vec<Vec<char>>)
    requires
        fields@.len() > 0,
    ensures
        final(output)@ == old(output)@ + join_tab(views(fields@)) + seq!['\n'],
{
    let ghost start = output@;
    append_chars(output, fields[0].as_slice());
    let mut i: usize = 1;
    assert(views(fields@).take(1) =~= seq![fields@[0]@]);
    while i < fields.len()
        invariant
            1 <= i <= fields@.len(),
            output@ == start + join_tab(views(fields@).take(i as int)),
        decreases fields@.len() - i,
    {
        output.push('\t');
        append_chars(output, fields[i].as_slice());
        proof {
            let t = views(fields@).take(i + 1);
            assert(t.drop_last() =~= views(fields@).take(i as int));
            assert(t.last() == fields@[i as int]@);
        }
        i = i + 1;
        assert(output@ =~= start + join_tab(views(fields@).take(i as int)));
    }
    assert(views(fields@).take(fields@.len() as int) =~= views(fields@));
    output.push('\n');
    assert(output@ =~= start + join_tab(views(fields@)) + seq!['\n']);
}

/// The rows of a channel: its own row, then one per stream.
fn push_channel(output: &mut Vec<char>, channel: &Channel)
    ensures
        final(output)@ == old(output)@ + rows_text(
            seq![channel_fields(channel@)] + stream_rows(channel@.streams),
        ),
{
    let ghost start = output@;
    let mut fields: Vec<Vec<char>> = Vec::new();
    fields.push(chars_of("C"));
    fields.push(encode(chars_of(channel.name.as_str()).as_slice()));
    fields.push(encode_option(&channel.group));
    fields.push(encode_option(&channel.tvg_id));
    fields.push(encode_option(&channel.logo));
    fields.push(fmt_usize(channel.order));
    assert(views(fields@) =~= channel_fields(channel@));
    push_fields(output, &fields);
    let ghost rows0 = seq![channel_fields(channel@)];
    assert(rows0.drop_last() =~= Seq::<Seq<Seq<char>>>::empty());
    assert(rows_text(Seq::<Seq<Seq<char>>>::empty()) =~= Seq::<char>::empty());
    assert(rows0.last() == channel_fields(channel@));
    assert(rows_text(rows0) =~= join_tab(channel_fields(channel@)) + seq!['\n']);
    assert(output@ =~= start + rows_text(rows0));
    let mut i: usize = 0;
    while i < channel.streams.len()
        invariant
            i <= channel.streams@.len(),
            output@ == start + rows_text(
                rows0 + stream_rows(stream_views(channel.streams@).take(i as int)),
            ),
        decreases channel.streams@.len() - i,
    {
        let s = &channel.streams[i];
        let mut f: Vec<Vec<char>> = Vec::new();
        f.push(chars_of("S"));
        f.push(encode(chars_of(s.url.as_str()).as_slice()));
        f.push(chars_of(origin_name(s.origin)));
        f.push(chars_of(fmt_bool(s.whitelist)));
        f.push(fmt_usize(s.source_order));
        f.push(encode_option(&s.iptv_source));
        f.push(chars_of(fmt_bool(s.iptv_restricted)));
        f.push(chars_of(s.ipv_type.as_str()));
        assert(views(f@) =~= stream_fields(s@));
        push_fields(output, &f);
        proof {
            let pre = rows0 + stream_rows(stream_views(channel.streams@).take(i as int));
            let post = rows0 + stream_rows(stream_views(channel.streams@).take(i + 1));
            assert(stream_views(channel.streams@)[i as int] == s@);
            assert(post.drop_last() =~= pre);
            assert(post.last() == stream_fields(s@));
        }
        i = i + 1;
    }
    assert(stream_views(channel.streams@).take(channel.streams@.len() as int) =~= channel@.streams);
}

pub proof fn lemma_rows_text_concat(a: Seq<Seq<Seq<char>>>, b: Seq<Seq<Seq<char>>>)
    ensures
        rows_text(a + b) == rows_text(a) + rows_text(b),
    decreases b.len(),
{
    if b.len() == 0 {
        assert(a + b =~= a);
        assert(rows_text(a) + rows_text(b) =~= rows_text(a));
    } else {
        lemma_rows_text_concat(a, b.drop_last());
        assert((a + b).drop_last() =~= a + b.drop_last());
        assert((a + b).last() == b.last());
        assert(rows_text(a + b) =~= rows_text(a) + rows_text(b));
    }
}

/// The metadata file of a list of channels.
pub fn channels_to_metadata_bytes(channels: &[Channel]) -> (bytes: Vec<u8>)
    ensures
        bytes@ == encode_utf8(metadata_text(channel_views(channels@))),
{
    let mut output: Vec<char> = chars_of("iptv-rs-metadata-v2");
    output.push('\n');
    let mut i: usize = 0;
    while i < channels.len()
        invariant
            i <= channels@.len(),
            output@ == header_v2() + seq!['\n'] + rows_text(
                all_rows(channel_views(channels@).take(i as int)),
            ),
        decreases channels@.len() - i,
    {
        let ghost before = output@;
        push_channel(&mut output, &channels[i]);
        proof {
            let cs = channel_views(channels@).take(i + 1);
            assert(cs.drop_last() =~= channel_views(channels@).take(i as int));
            assert(cs.last() == channels@[i as int]@);
            lemma_rows_text_concat(
                all_rows(cs.drop_last()),
                seq![channel_fields(cs.last())] + stream_rows(cs.last().streams),
            );
            assert(all_rows(cs) =~= all_rows(cs.drop_last()) + (seq![channel_fields(cs.last())]
                + stream_rows(cs.last().streams)));
        }
        i = i + 1;
    }
    assert(channel_views(channels@).take(channels@.len() as int) =~= channel_views(channels@));
    let text = string_from_chars(output.as_slice());
    vstd::slice::slice_to_vec(text.as_str().as_bytes())
}


/// `out` put in front of a decoding result.
pub open spec fn prepend_ok(out: Seq<u8>, r: Result<Seq<u8>, MetadataError>) -> Result<
    Seq<u8>,
    MetadataError,
> {
    match r {
        Ok(x) => Ok(out + x),
        Err(e) => Err(e),
    }
}

/// Percent-decoding of bytes.
fn pct_decode_exec(b: &[u8]) -> (r: Result<Vec<u8>, MetadataError>)
    ensures
        r matches Ok(v) ==> pct_decode(b@) == Ok::<Seq<u8>, MetadataError>(v@),
        r matches Err(e) ==> pct_decode(b@) == Err::<Seq<u8>, MetadataError>(e),
{
    let mut out: Vec<u8> = Vec::new();
    let mut index: usize = 0;
    let n = b.len();
    assert(b@.skip(0) =~= b@);
    assert(prepend_ok(out@, pct_decode(b@)) =~= pct_decode(b@)) by {
        match pct_decode(b@) {
            Ok(x) => {
                assert(out@ + x =~= x);
            },
            Err(e) => {},
        }
    }
    while index < n
        invariant
            index <= n == b@.len(),
            pct_decode(b@) == prepend_ok(out@, pct_decode(b@.skip(index as int))),
        decreases n - index,
    {
        let ghost rest = b@.skip(index as int);
        if b[index] == 37 {
            if n - index < 3 {
                return Err(MetadataError::TruncatedEscape);
            }
            let high = match hex_value(b[index + 1]) {
                Ok(v) => v,
                Err(e) => {
                    return Err(e);
                },
            };
            let low = match hex_value(b[index + 2]) {
                Ok(v) => v,
                Err(e) => {
                    return Err(e);
                },
            };
            let v = (high << 4) | low;
            assert(v == (high * 16 + low) as u8) by (bit_vector)
                requires
                    v == (high << 4) | low,
                    high < 16,
                    low < 16,
            ;
            let ghost old_out = out@;
            out.push(v);
            proof {
                assert(rest.skip(3) =~= b@.skip(index + 3));
                match pct_decode(rest.skip(3)) {
                    Ok(x) => {
                        assert(old_out + (seq![v] + x) =~= out@ + x);
                    },
                    Err(e) => {},
                }
            }
            index = index + 3;
        } else {
            let ghost old_out = out@;
            out.push(b[index]);
            proof {
                assert(rest.skip(1) =~= b@.skip(index + 1));
                match pct_decode(rest.skip(1)) {
                    Ok(x) => {
                        assert(old_out + (seq![b@[index as int]] + x) =~= out@ + x);
                    },
                    Err(e) => {},
                }
            }
            index = index + 1;
        }
    }
    assert(b@.skip(n as int) =~= Seq::<u8>::empty());
    assert(out@ + Seq::<u8>::empty() =~= out@);
    Ok(out)
}

/// A text field read back.
fn decode(value: &[char]) -> (r: Result<String, MetadataError>)
    ensures
        r matches Ok(s) ==> decode_field(value@) == Ok::<Seq<char>, MetadataError>(s@),
        r matches Err(e) ==> decode_field(value@) == Err::<Seq<char>, MetadataError>(e),
{
    let text = string_from_chars(value);
    let bytes = text.as_str().as_bytes();
    let decoded = match pct_decode_exec(bytes) {
        Ok(d) => d,
        Err(e) => {
            return Err(e);
        },
    };
    match utf8_str(decoded.as_slice()) {
        Some(s) => Ok(s.to_owned()),
        None => Err(MetadataError::FieldNotUtf8),
    }
}

/// An optional text field read back.
fn decode_option(value: &[char]) -> (r: Result<Option<String>, MetadataError>)
    ensures
        r matches Ok(o) ==> decode_opt(value@) == Ok::<Option<Seq<char>>, MetadataError>(
            opt_view(o),
        ),
        r matches Err(e) ==> decode_opt(value@) == Err::<Option<Seq<char>>, MetadataError>(e),
{
    if value.len() == 0 {
        Ok(None)
    } else {
        match decode(value) {
            Ok(s) => Ok(Some(s)),
            Err(e) => Err(e),
        }
    }
}

fn eq_lit(a: &[char], lit: &str) -> (r: bool)
    ensures
        r == (a@ == lit@),
{
    let l = chars_of(lit);
    eq_chars(a, l.as_slice())
}

fn read_origin(value: &[char]) -> (r: Result<Origin, MetadataError>)
    ensures
        r == parse_origin(value@),
{
    if eq_lit(value, "template") {
        Ok(Origin::Template)
    } else if eq_lit(value, "local") {
        Ok(Origin::Local)
    } else if eq_lit(value, "subscribe") {
        Ok(Origin::Subscribe)
    } else if eq_lit(value, "subscribe_whitelist") {
        Ok(Origin::SubscribeWhitelist)
    } else {
        Err(MetadataError::UnknownOrigin)
    }
}

fn read_ipv_type(value: &[char]) -> (r: IpvType)
    ensures
        r == parse_ipv(value@),
{
    if eq_lit(value, "ipv4") {
        IpvType::Ipv4
    } else if eq_lit(value, "ipv6") {
        IpvType::Ipv6
    } else {
        IpvType::Unknown
    }
}

fn read_usize(value: &[char]) -> (r: Option<usize>)
    ensures
        r matches Some(v) ==> parse_unsigned(value@, usize::MAX as nat) == Some(v as nat),
        r is None ==> parse_unsigned(value@, usize::MAX as nat) is None,
{
    match parse_u64_chars(value, usize::MAX as u64) {
        Some(v) => Some(v as usize),
        None => None,
    }
}

fn read_channel(fields: &Vec<Vec<char>>) -> (r: Result<Channel, MetadataError>)
    ensures
        r matches Ok(c) ==> parse_channel(views(fields@)) == Ok::<SpecChannel, MetadataError>(c@),
        r matches Err(e) ==> parse_channel(views(fields@)) == Err::<SpecChannel, MetadataError>(e),
{
    if fields.len() != 6 {
        return Err(MetadataError::ChannelFieldCount);
    }
    let ghost f = views(fields@);
    assert(f[1] == fields@[1]@ && f[2] == fields@[2]@ && f[3] == fields@[3]@ && f[4]
        == fields@[4]@ && f[5] == fields@[5]@);
    let name = match decode(fields[1].as_slice()) {
        Ok(v) => v,
        Err(e) => {
            return Err(e);
        },
    };
    let group = match decode_option(fields[2].as_slice()) {
        Ok(v) => v,
        Err(e) => {
            return Err(e);
        },
    };
    let tvg_id = match decode_option(fields[3].as_slice()) {
        Ok(v) => v,
        Err(e) => {
            return Err(e);
        },
    };
    let logo = match decode_option(fields[4].as_slice()) {
        Ok(v) => v,
        Err(e) => {
            return Err(e);
        },
    };
    let order = match read_usize(fields[5].as_slice()) {
        Some(v) => v,
        None => {
            return Err(MetadataError::InvalidOrder);
        },
    };
    let c = Channel { name, group, tvg_id, logo, streams: Vec::new(), order };
    assert(c@.streams =~= Seq::<SpecStream>::empty());
    Ok(c)
}

fn read_stream(fields: &Vec<Vec<char>>) -> (r: Result<Stream, MetadataError>)
    ensures
        r matches Ok(s) ==> parse_stream(views(fields@)) == Ok::<SpecStream, MetadataError>(s@),
        r matches Err(e) ==> parse_stream(views(fields@)) == Err::<SpecStream, MetadataError>(e),
{
    if fields.len() != 7 && fields.len() != 8 {
        return Err(MetadataError::StreamFieldCount);
    }
    let ghost f = views(fields@);
    assert(f[1] == fields@[1]@ && f[2] == fields@[2]@ && f[3] == fields@[3]@ && f[4]
        == fields@[4]@ && f[5] == fields@[5]@ && f[6] == fields@[6]@);
    let (iptv_restricted, ipv_type) = if fields.len() == 8 {
        assert(f[7] == fields@[7]@);
        match parse_bool_chars(fields[6].as_slice()) {
            Some(b) => (b, read_ipv_type(fields[7].as_slice())),
            None => {
                return Err(MetadataError::InvalidRestrictedFlag);
            },
        }
    } else {
        (false, read_ipv_type(fields[6].as_slice()))
    };
    let url = match decode(fields[1].as_slice()) {
        Ok(v) => v,
        Err(e) => {
            return Err(e);
        },
    };
    let origin = match read_origin(fields[2].as_slice()) {
        Ok(v) => v,
        Err(e) => {
            return Err(e);
        },
    };
    let whitelist = match parse_bool_chars(fields[3].as_slice()) {
        Some(v) => v,
        None => {
            return Err(MetadataError::InvalidWhitelistFlag);
        },
    };
    let source_order = match read_usize(fields[4].as_slice()) {
        Some(v) => v,
        None => {
            return Err(MetadataError::InvalidSourceOrder);
        },
    };
    let iptv_source = match decode_option(fields[5].as_slice()) {
        Ok(v) => v,
        Err(e) => {
            return Err(e);
        },
    };
    Ok(Stream { url, origin, whitelist, source_order, iptv_source, iptv_restricted, ipv_type })
}

/// Once a prefix of the rows fails, the whole fails with the same error.
pub proof fn lemma_rows_fold_err(rows: Seq<Seq<char>>, k: int, e: MetadataError)
    requires
        0 <= k <= rows.len(),
        rows_fold(rows.take(k)) == Err::<Seq<SpecChannel>, MetadataError>(e),
    ensures
        rows_fold(rows) == Err::<Seq<SpecChannel>, MetadataError>(e),
    decreases rows.len() - k,
{
    if k == rows.len() {
        assert(rows.take(k) =~= rows);
    } else {
        assert(rows.take(k + 1).drop_last() =~= rows.take(k));
        lemma_rows_fold_err(rows, k + 1, e);
    }
}

/// Applies one row to the channels read so far.
fn apply_row(channels: &mut Vec<Channel>, line: &Vec<char>) -> (r: Result<(), MetadataError>)
    ensures
        r is Ok ==> row_step(channel_views(old(channels)@), line@) == Ok::<
            Seq<SpecChannel>,
            MetadataError,
        >(channel_views(final(channels)@)),
        r matches Err(e) ==> row_step(channel_views(old(channels)@), line@) == Err::<
            Seq<SpecChannel>,
            MetadataError,
        >(e),
{
    let trimmed = trim_chars(line.as_slice());
    if trimmed.len() == 0 {
        return Ok(());
    }
    let fields = split_char_exec(line.as_slice(), '\t');
    assert(views(fields@)[0] == fields@[0]@);
    if eq_lit(fields[0].as_slice(), "C") {
        let c = read_channel(&fields)?;
        let ghost old_cs = channel_views(channels@);
        channels.push(c);
        assert(channel_views(channels@) =~= old_cs.push(c@));
        Ok(())
    } else if eq_lit(fields[0].as_slice(), "S") {
        let stream = read_stream(&fields)?;
        let ghost old_cs = channel_views(channels@);
        match channels.pop() {
            Some(mut c) => {
                let ghost old_c = c@;
                assert(old_cs.last() == old_c);
                c.streams.push(stream);
                assert(stream_views(c.streams@) =~= old_c.streams.push(stream@));
                assert(c@ == with_stream(old_c, stream@));
                channels.push(c);
                assert(channel_views(channels@) =~= old_cs.update(
                    old_cs.len() - 1,
                    with_stream(old_cs.last(), stream@),
                ));
                Ok(())
            },
            None => Err(MetadataError::StreamBeforeChannel),
        }
    } else {
        Err(MetadataError::UnknownRow)
    }
}

/// Applies every line after the header.
fn read_rows(ls: &Vec<Vec<char>>) -> (r: Result<Vec<Channel>, MetadataError>)
    requires
        ls@.len() > 0,
    ensures
        r matches Ok(cs) ==> rows_fold(views(ls@).skip(1)) == Ok::<
            Seq<SpecChannel>,
            MetadataError,
        >(channel_views(cs@)),
        r matches Err(e) ==> rows_fold(views(ls@).skip(1)) == Err::<Seq<SpecChannel>, MetadataError>(
            e,
        ),
{
    let ghost lv = views(ls@);
    let mut channels: Vec<Channel> = Vec::new();
    let mut i: usize = 1;
    assert(lv.skip(1).take(0) =~= Seq::<Seq<char>>::empty());
    assert(channel_views(channels@) =~= Seq::<SpecChannel>::empty());
    while i < ls.len()
        invariant
            1 <= i <= ls@.len(),
            lv == views(ls@),
            rows_fold(lv.skip(1).take(i - 1)) == Ok::<Seq<SpecChannel>, MetadataError>(
                channel_views(channels@),
            ),
        decreases ls@.len() - i,
    {
        let ghost rows = lv.skip(1).take(i as int);
        proof {
            assert(rows.drop_last() =~= lv.skip(1).take(i - 1));
            assert(rows.last() == ls@[i as int]@);
        }
        match apply_row(&mut channels, &ls[i]) {
            Ok(()) => {},
            Err(e) => {
                proof {
                    lemma_rows_fold_err(lv.skip(1), i as int, e);
                }
                return Err(e);
            },
        }
        i = i + 1;
    }
    assert(lv.skip(1).take(i - 1) =~= lv.skip(1));
    Ok(channels)
}

/// The channels of a metadata file.
pub fn channels_from_metadata_bytes(bytes: &[u8]) -> (r: Result<Vec<Channel>, MetadataError>)
    ensures
        r matches Ok(cs) ==> parse_metadata(bytes@) == Ok::<Seq<SpecChannel>, MetadataError>(
            channel_views(cs@),
        ),
        r matches Err(e) ==> parse_metadata(bytes@) == Err::<Seq<SpecChannel>, MetadataError>(e),
{
    let text = match utf8_str(bytes) {
        Some(t) => t,
        None => {
            return Err(MetadataError::NotUtf8);
        },
    };
    let chars = chars_of(text);
    let ls = lines_exec(chars.as_slice());
    let ghost lv = views(ls@);
    assert(lv == lines(decode_utf8(bytes@)));
    if ls.len() == 0 {
        assert(header_v2().len() > 0) by {
            reveal_strlit("iptv-rs-metadata-v2");
        }
        assert(header_v1().len() > 0) by {
            reveal_strlit("iptv-rs-metadata-v1");
        }
        return Err(MetadataError::UnsupportedHeader);
    }
    assert(lv[0] == ls@[0]@);
    if !eq_lit(ls[0].as_slice(), "iptv-rs-metadata-v2") && !eq_lit(
        ls[0].as_slice(),
        "iptv-rs-metadata-v1",
    ) {
        return Err(MetadataError::UnsupportedHeader);
    }
    read_rows(&ls)
}

// ---------------------------------------------------------------------------
// Reading back what was written
// ---------------------------------------------------------------------------

/// UTF-8 encoding distributes over concatenation.
pub proof fn lemma_encode_utf8_concat(a: Seq<char>, b: Seq<char>)
    ensures
        encode_utf8(a + b) == encode_utf8(a) + encode_utf8(b),
    decreases a.len(),
{
    if a.len() == 0 {
        assert(a + b =~= b);
        assert(encode_utf8(a) + encode_utf8(b) =~= encode_utf8(b));
    } else {
        lemma_encode_utf8_concat(a.drop_first(), b);
        assert((a + b).drop_first() =~= a.drop_first() + b);
        assert((a + b)[0] == a[0]);
        assert(encode_utf8(a + b) =~= encode_utf8(a) + encode_utf8(b));
    }
}

proof fn lemma_encode_utf8_single(c: char)
    ensures
        encode_utf8(seq![c]) == encode_scalar(c as u32),
{
    assert(seq![c].drop_first() =~= Seq::<char>::empty());
    assert(encode_utf8(Seq::<char>::empty()) =~= Seq::<u8>::empty());
    assert(encode_scalar(c as u32) + Seq::<u8>::empty() =~= encode_scalar(c as u32));
}

/// Only `%` itself has a `%` byte in its UTF-8 encoding.
proof fn lemma_scalar_no_percent(c: char)
    requires
        c != '%',
    ensures
        forall|k: int| 0 <= k < encode_scalar(c as u32).len() ==> #[trigger] encode_scalar(
            c as u32,
        )[k] != 37,
{
    let v = c as u32;
    if has_width_1_encoding(v) {
        assert(v != 37);
        assert((v & 0x7F) as u8 != 37u8) by (bit_vector)
            requires
                v <= 0x7F,
                v != 37,
        ;
    } else if has_width_2_encoding(v) {
        assert(0xC0 | ((v >> 6) & 0x1F) as u8 != 37u8 && 0x80 | (v & 0x3F) as u8 != 37u8)
            by (bit_vector);
    } else if has_width_3_encoding(v) {
        assert(0xE0 | ((v >> 12) & 0x0F) as u8 != 37u8 && 0x80 | ((v >> 6) & 0x3F) as u8 != 37u8
            && 0x80 | (v & 0x3F) as u8 != 37u8) by (bit_vector);
    } else {
        assert(0xF0 | ((v >> 18) & 0x7) as u8 != 37u8 && 0x80 | ((v >> 12) & 0x3F) as u8 != 37u8
            && 0x80 | ((v >> 6) & 0x3F) as u8 != 37u8 && 0x80 | (v & 0x3F) as u8 != 37u8)
            by (bit_vector);
    }
}

/// Bytes without `%` decode to themselves.
proof fn lemma_pct_plain(x: Seq<u8>, rest: Seq<u8>)
    requires
        forall|k: int| 0 <= k < x.len() ==> #[trigger] x[k] != 37,
    ensures
        pct_decode(x + rest) == prepend_ok(x, pct_decode(rest)),
    decreases x.len(),
{
    if x.len() == 0 {
        assert(x + rest =~= rest);
        match pct_decode(rest) {
            Ok(r) => {
                assert(x + r =~= r);
            },
            Err(e) => {},
        }
    } else {
        lemma_pct_plain(x.drop_first(), rest);
        assert((x + rest).skip(1) =~= x.drop_first() + rest);
        assert((x + rest)[0] == x[0]);
        match pct_decode(rest) {
            Ok(r) => {
                assert(seq![x[0]] + (x.drop_first() + r) =~= x + r);
            },
            Err(e) => {},
        }
    }
}

proof fn lemma_ascii_scalar(c: char, b: u8)
    requires
        c as u32 == b as u32,
        b < 128,
    ensures
        encode_scalar(c as u32) == seq![b],
{
    let v = c as u32;
    assert((v & 0x7F) as u8 == b) by (bit_vector)
        requires
            v == b as u32,
            b < 128,
    ;
}

/// The escaped bytes of one character decode to the character's bytes.
proof fn lemma_escape_decodes(c: char, rest: Seq<u8>)
    ensures
        pct_decode(encode_utf8(escape_char(c)) + rest) == prepend_ok(
            encode_scalar(c as u32),
            pct_decode(rest),
        ),
{
    if needs_escape(c) {
        let e = escape_char(c);
        assert(e.len() == 3);
        assert(e.drop_first().drop_first().drop_first() =~= Seq::<char>::empty());
        assert(encode_utf8(e.drop_first().drop_first().drop_first()) =~= Seq::<u8>::empty());
        lemma_ascii_scalar('%', 37);
        lemma_ascii_scalar(e[1], e[1] as u32 as u8);
        lemma_ascii_scalar(e[2], e[2] as u32 as u8);
        assert(encode_utf8(e.drop_first().drop_first()) =~= seq![e[2] as u32 as u8]);
        assert(encode_utf8(e.drop_first()) =~= seq![e[1] as u32 as u8, e[2] as u32 as u8]);
        assert(encode_utf8(e) =~= seq![37u8, e[1] as u32 as u8, e[2] as u32 as u8]);
        let b = encode_utf8(e) + rest;
        assert(b.skip(3) =~= rest);
        let cb = c as u32 as u8;
        lemma_ascii_scalar(c, cb);
        if c == '%' {
            assert(hex_val(b[1]) == Some(2u8) && hex_val(b[2]) == Some(5u8));
        } else if c == '\t' {
            assert(hex_val(b[1]) == Some(0u8) && hex_val(b[2]) == Some(9u8));
        } else if c == '\n' {
            assert(hex_val(b[1]) == Some(0u8) && hex_val(b[2]) == Some(10u8));
        } else {
            assert(hex_val(b[1]) == Some(0u8) && hex_val(b[2]) == Some(13u8));
        }
        match pct_decode(rest) {
            Ok(r) => {
                assert(seq![cb] + r =~= encode_scalar(c as u32) + r);
            },
            Err(x) => {},
        }
    } else {
        lemma_encode_utf8_single(c);
        lemma_scalar_no_percent(c);
        lemma_pct_plain(encode_scalar(c as u32), rest);
    }
}

/// The escaped bytes of a field decode to the field's bytes.
pub proof fn lemma_pct_decode_encode(s: Seq<char>)
    ensures
        pct_decode(encode_utf8(encode_field(s))) == Ok::<Seq<u8>, MetadataError>(encode_utf8(s)),
    decreases s.len(),
{
    if s.len() == 0 {
        assert(encode_field(s) =~= Seq::<char>::empty());
    } else {
        lemma_pct_decode_encode(s.drop_first());
        lemma_encode_utf8_concat(escape_char(s[0]), encode_field(s.drop_first()));
        lemma_escape_decodes(s[0], encode_utf8(encode_field(s.drop_first())));
        assert(encode_utf8(s) == encode_scalar(s[0] as u32) + encode_utf8(s.drop_first()));
    }
}

/// A text field reads back as itself.
pub proof fn lemma_decode_encode_field(s: Seq<char>)
    ensures
        decode_field(encode_field(s)) == Ok::<Seq<char>, MetadataError>(s),
{
    lemma_pct_decode_encode(s);
    encode_utf8_valid_utf8(s);
    encode_utf8_decode_utf8(s);
}

/// An escaped field has no tab, newline or carriage return, and is at least
/// as long as the field.
pub proof fn lemma_encode_field_chars(s: Seq<char>)
    ensures
        !encode_field(s).contains('\t'),
        !encode_field(s).contains('\n'),
        !encode_field(s).contains('\r'),
        encode_field(s).len() >= s.len(),
    decreases s.len(),
{
    if s.len() > 0 {
        lemma_encode_field_chars(s.drop_first());
        let e = escape_char(s[0]);
        let r = encode_field(s.drop_first());
        assert(!e.contains('\t') && !e.contains('\n') && !e.contains('\r'));
        assert forall|c: char| c == '\t' || c == '\n' || c == '\r' implies !(e + r).contains(c) by {
            if (e + r).contains(c) {
                let k = choose|k: int| 0 <= k < (e + r).len() && (e + r)[k] == c;
                if k < e.len() {
                    assert(e[k] == c);
                } else {
                    assert(r[k - e.len()] == c);
                }
            }
        }
    }
}

/// An optional field reads back as itself unless it is present but empty.
pub proof fn lemma_decode_encode_opt(o: Option<Seq<char>>)
    requires
        o != Some(Seq::<char>::empty()),
    ensures
        decode_opt(encode_opt(o)) == Ok::<Option<Seq<char>>, MetadataError>(o),
{
    match o {
        Some(s) => {
            if s.len() == 0 {
                assert(s =~= Seq::<char>::empty());
            }
            lemma_encode_field_chars(s);
            lemma_decode_encode_field(s);
        },
        None => {},
    }
}

/// A row is safe to end with a newline: it has no newline and does not end in
/// a carriage return.
pub open spec fn line_safe(a: Seq<char>) -> bool {
    !a.contains('\n') && !(a.len() > 0 && a.last() == '\r')
}

proof fn lemma_lines_cons(a: Seq<char>, rest: Seq<char>)
    requires
        line_safe(a),
    ensures
        lines(a + seq!['\n'] + rest) == seq![a] + lines(rest),
{
    let s = a + seq!['\n'] + rest;
    assert forall|j: int| 0 <= j < a.len() implies #[trigger] s[j] != '\n' by {
        assert(s[j] == a[j]);
        if a[j] == '\n' {
            assert(a.contains('\n'));
        }
    }
    lemma_index_of_char(s, '\n', a.len() as int);
    assert(s.take(a.len() as int) =~= a);
    assert(s.skip(a.len() as int + 1) =~= rest);
}

proof fn lemma_lines_snoc(x: Seq<char>, a: Seq<char>)
    requires
        x.len() == 0 || x.last() == '\n',
        line_safe(a),
    ensures
        lines(x + a + seq!['\n']) == lines(x) + seq![a],
    decreases x.len(),
{
    if x.len() == 0 {
        assert(x + a + seq!['\n'] =~= a + seq!['\n'] + Seq::<char>::empty());
        lemma_lines_cons(a, Seq::<char>::empty());
        assert(lines(x) =~= Seq::<Seq<char>>::empty());
        assert(seq![a] + lines(Seq::<char>::empty()) =~= lines(x) + seq![a]);
    } else {
        lemma_index_of_char_bounds(x, '\n');
        assert(x[x.len() - 1] == '\n');
        let i = index_of_char(x, '\n')->0;
        let y = x + a + seq!['\n'];
        assert forall|j: int| 0 <= j < i implies #[trigger] y[j] != '\n' by {
            assert(y[j] == x[j]);
        }
        assert(y[i] == x[i]);
        lemma_index_of_char(y, '\n', i);
        let xr = x.skip(i + 1);
        assert(y.take(i) =~= x.take(i));
        assert(y.skip(i + 1) =~= xr + a + seq!['\n']);
        if xr.len() > 0 {
            assert(xr.last() == x.last());
        }
        lemma_lines_snoc(xr, a);
        assert(lines(y) =~= lines(x) + seq![a]);
    }
}

/// The lines of the rows are the rows' texts.
proof fn lemma_lines_rows(rs: Seq<Seq<Seq<char>>>)
    requires
        forall|i: int| 0 <= i < rs.len() ==> line_safe(#[trigger] join_tab(rs[i])),
    ensures
        lines(rows_text(rs)) == rs.map_values(|f: Seq<Seq<char>>| join_tab(f)),
        rows_text(rs).len() == 0 || rows_text(rs).last() == '\n',
    decreases rs.len(),
{
    if rs.len() == 0 {
        assert(rs.map_values(|f: Seq<Seq<char>>| join_tab(f)) =~= Seq::<Seq<char>>::empty());
    } else {
        let init = rs.drop_last();
        assert forall|i: int| 0 <= i < init.len() implies line_safe(#[trigger] join_tab(init[i])) by {
            assert(init[i] == rs[i]);
        }
        lemma_lines_rows(init);
        assert(line_safe(join_tab(rs[rs.len() - 1])));
        lemma_lines_snoc(rows_text(init), join_tab(rs.last()));
        assert(rs.map_values(|f: Seq<Seq<char>>| join_tab(f)) =~= init.map_values(
            |f: Seq<Seq<char>>| join_tab(f),
        ).push(join_tab(rs.last())));
    }
}

proof fn lemma_split_no_tab(b: Seq<char>)
    requires
        !b.contains('\t'),
    ensures
        split_char(b, '\t') == seq![b],
{
    lemma_index_of_char_bounds(b, '\t');
    if index_of_char(b, '\t') is Some {
        let i = index_of_char(b, '\t')->0;
        assert(b[i] == '\t');
    }
}

proof fn lemma_split_snoc(x: Seq<char>, b: Seq<char>)
    requires
        !b.contains('\t'),
    ensures
        split_char(x + seq!['\t'] + b, '\t') == split_char(x, '\t') + seq![b],
    decreases x.len(),
{
    let y = x + seq!['\t'] + b;
    lemma_index_of_char_bounds(x, '\t');
    match index_of_char(x, '\t') {
        None => {
            assert forall|j: int| 0 <= j < x.len() implies #[trigger] y[j] != '\t' by {
                assert(y[j] == x[j]);
            }
            lemma_index_of_char(y, '\t', x.len() as int);
            assert(y.take(x.len() as int) =~= x);
            assert(y.skip(x.len() as int + 1) =~= b);
            lemma_split_no_tab(b);
        },
        Some(i) => {
            assert forall|j: int| 0 <= j < i implies #[trigger] y[j] != '\t' by {
                assert(y[j] == x[j]);
            }
            assert(y[i] == x[i]);
            lemma_index_of_char(y, '\t', i);
            assert(y.take(i) =~= x.take(i));
            assert(y.skip(i + 1) =~= x.skip(i + 1) + seq!['\t'] + b);
            lemma_split_snoc(x.skip(i + 1), b);
            assert(split_char(y, '\t') =~= split_char(x, '\t') + seq![b]);
        },
    }
}

/// Fields without tabs are split back out of their tab-joined row, and the
/// row begins with the first field and ends with the last.
proof fn lemma_split_join(f: Seq<Seq<char>>)
    requires
        f.len() >= 1,
        forall|i: int| 0 <= i < f.len() ==> !(#[trigger] f[i]).contains('\t'),
    ensures
        split_char(join_tab(f), '\t') == f,
        join_tab(f).len() >= f[0].len(),
        join_tab(f).take(f[0].len() as int) == f[0],
        join_tab(f).len() >= f.last().len(),
        join_tab(f).skip(join_tab(f).len() - f.last().len()) == f.last(),
    decreases f.len(),
{
    if f.len() == 1 {
        lemma_split_no_tab(f[0]);
        assert(seq![f[0]] =~= f);
        assert(join_tab(f).take(f[0].len() as int) =~= f[0]);
        assert(join_tab(f).skip(0) =~= f[0]);
    } else {
        let init = f.drop_last();
        assert forall|i: int| 0 <= i < init.len() implies !(#[trigger] init[i]).contains('\t') by {
            assert(init[i] == f[i]);
        }
        lemma_split_join(init);
        assert(!f[f.len() - 1].contains('\t'));
        lemma_split_snoc(join_tab(init), f.last());
        assert(init.push(f.last()) =~= f);
        let j = join_tab(f);
        assert(j == join_tab(init) + seq!['\t'] + f.last());
        assert(init[0] == f[0]);
        assert(j.take(f[0].len() as int) =~= join_tab(init).take(f[0].len() as int));
        assert(j.skip(j.len() - f.last().len()) =~= f.last());
    }
}

/// A character that no field holds, other than tab, is not in the row.
proof fn lemma_join_not_contains(f: Seq<Seq<char>>, c: char)
    requires
        c != '\t',
        forall|i: int| 0 <= i < f.len() ==> !(#[trigger] f[i]).contains(c),
    ensures
        !join_tab(f).contains(c),
    decreases f.len(),
{
    if f.len() == 1 {
        assert(!f[0].contains(c));
    } else if f.len() > 1 {
        let init = f.drop_last();
        assert forall|i: int| 0 <= i < init.len() implies !(#[trigger] init[i]).contains(c) by {
            assert(init[i] == f[i]);
        }
        lemma_join_not_contains(init, c);
        assert(!f[f.len() - 1].contains(c));
        let a = join_tab(init);
        let b = f.last();
        let j = a + seq!['\t'] + b;
        if j.contains(c) {
            let k = choose|k: int| 0 <= k < j.len() && j[k] == c;
            if k < a.len() {
                assert(a[k] == c);
                assert(a.contains(c));
            } else if k == a.len() {
            } else {
                assert(b[k - a.len() - 1] == c);
                assert(b.contains(c));
            }
        }
    }
}

proof fn lemma_digits_plain(s: Seq<char>)
    requires
        all_digits(s),
    ensures
        !s.contains('\t'),
        !s.contains('\n'),
        !s.contains('\r'),
{
    assert forall|c: char| c == '\t' || c == '\n' || c == '\r' implies !s.contains(c) by {
        if s.contains(c) {
            let k = choose|k: int| 0 <= k < s.len() && s[k] == c;
            assert(is_digit(s[k]));
        }
    }
}

/// A sequence whose first character is not whitespace does not trim to
/// nothing.
proof fn lemma_trim_nonempty(s: Seq<char>)
    requires
        s.len() > 0,
        !is_ws(s[0]),
    ensures
        trim(s).len() > 0,
    decreases s.len(),
{
    assert(trim_start(s) == s);
    lemma_trim_end_keeps_first(s);
}

proof fn lemma_trim_end_keeps_first(s: Seq<char>)
    requires
        s.len() > 0,
        !is_ws(s[0]),
    ensures
        trim_end(s).len() > 0,
    decreases s.len(),
{
    if is_ws(s.last()) {
        assert(s.len() > 1);
        lemma_trim_end_keeps_first(s.drop_last());
    }
}

proof fn lemma_plain_literals()
    ensures
        "C"@ == seq!['C'],
        "S"@ == seq!['S'],
        "template"@ == seq!['t', 'e', 'm', 'p', 'l', 'a', 't', 'e'],
        "local"@ == seq!['l', 'o', 'c', 'a', 'l'],
        "subscribe"@ == seq!['s', 'u', 'b', 's', 'c', 'r', 'i', 'b', 'e'],
        "subscribe_whitelist"@ == seq![
            's', 'u', 'b', 's', 'c', 'r', 'i', 'b', 'e', '_', 'w', 'h', 'i', 't', 'e', 'l', 'i', 's', 't',
        ],
        "true"@ == seq!['t', 'r', 'u', 'e'],
        "false"@ == seq!['f', 'a', 'l', 's', 'e'],
        "ipv4"@ == seq!['i', 'p', 'v', '4'],
        "ipv6"@ == seq!['i', 'p', 'v', '6'],
        "unknown"@ == seq!['u', 'n', 'k', 'n', 'o', 'w', 'n'],
        "iptv-rs-metadata-v2"@.len() == 19,
        "iptv-rs-metadata-v1"@.len() == 19,
        "iptv-rs-metadata-v2"@ != "iptv-rs-metadata-v1"@,
{
    reveal_strlit("C");
    reveal_strlit("S");
    reveal_strlit("template");
    reveal_strlit("local");
    reveal_strlit("subscribe");
    reveal_strlit("subscribe_whitelist");
    reveal_strlit("true");
    reveal_strlit("false");
    reveal_strlit("ipv4");
    reveal_strlit("ipv6");
    reveal_strlit("unknown");
    reveal_strlit("iptv-rs-metadata-v2");
    reveal_strlit("iptv-rs-metadata-v1");
    assert("iptv-rs-metadata-v2"@[18] != "iptv-rs-metadata-v1"@[18]);
}

/// No optional text field of the channel or of its streams is present but
/// empty; such a field is written as an empty field and read back as absent.
pub open spec fn metadata_ready(c: SpecChannel) -> bool {
    &&& c.group != Some(Seq::<char>::empty())
    &&& c.tvg_id != Some(Seq::<char>::empty())
    &&& c.logo != Some(Seq::<char>::empty())
    &&& forall|i: int|
        0 <= i < c.streams.len() ==> (#[trigger] c.streams[i]).iptv_source != Some(
            Seq::<char>::empty(),
        )
}

proof fn lemma_literal_plain(s: Seq<char>)
    requires
        forall|k: int| 0 <= k < s.len() ==> (#[trigger] s[k] != '\t' && s[k] != '\n' && s[k]
            != '\r'),
    ensures
        !s.contains('\t'),
        !s.contains('\n'),
        !s.contains('\r'),
{
}

proof fn lemma_opt_plain(o: Option<Seq<char>>)
    ensures
        !encode_opt(o).contains('\t'),
        !encode_opt(o).contains('\n'),
        !encode_opt(o).contains('\r'),
{
    match o {
        Some(x) => lemma_encode_field_chars(x),
        None => {},
    }
}

/// The row of a channel is a safe line that reads back as the channel
/// without streams.
proof fn lemma_channel_row(c: SpecChannel, acc: Seq<SpecChannel>)
    requires
        metadata_ready(c),
    ensures
        line_safe(join_tab(channel_fields(c))),
        row_step(acc, join_tab(channel_fields(c))) == Ok::<Seq<SpecChannel>, MetadataError>(
            acc.push(SpecChannel { streams: seq![], ..c }),
        ),
{
    lemma_plain_literals();
    let f = channel_fields(c);
    lemma_encode_field_chars(c.name);
    lemma_opt_plain(c.group);
    lemma_opt_plain(c.tvg_id);
    lemma_opt_plain(c.logo);
    lemma_dec(c.order as nat);
    lemma_digits_plain(dec(c.order as nat));
    lemma_literal_plain(f[0]);
    assert forall|i: int| 0 <= i < f.len() implies !(#[trigger] f[i]).contains('\t') && !f[i].contains(
        '\n',
    ) && !f[i].contains('\r') by {
        if i == 0 {
        } else if i == 1 {
        } else if i == 2 {
        } else if i == 3 {
        } else if i == 4 {
        } else {
        }
    }
    lemma_split_join(f);
    lemma_join_not_contains(f, '\n');
    let j = join_tab(f);
    let last = f.last();
    assert(last.len() > 0);
    assert(j.last() == last.last()) by {
        assert(j.skip(j.len() - last.len())[last.len() - 1] == j[j.len() - 1]);
    }
    assert(last.last() != '\r') by {
        assert(is_digit(last[last.len() - 1]));
    }
    assert(j[0] == 'C') by {
        assert(j.take(1)[0] == j[0]);
    }
    lemma_trim_nonempty(j);
    lemma_decode_encode_field(c.name);
    lemma_decode_encode_opt(c.group);
    lemma_decode_encode_opt(c.tvg_id);
    lemma_decode_encode_opt(c.logo);
    lemma_parse_dec(c.order as nat, usize::MAX as nat);
    assert(parse_channel(f) == Ok::<SpecChannel, MetadataError>(
        SpecChannel { streams: seq![], ..c },
    ));
}

/// The row of a stream is a safe line that adds the stream to the last
/// channel read.
proof fn lemma_stream_row(s: SpecStream, acc: Seq<SpecChannel>)
    requires
        s.iptv_source != Some(Seq::<char>::empty()),
        acc.len() > 0,
    ensures
        line_safe(join_tab(stream_fields(s))),
        row_step(acc, join_tab(stream_fields(s))) == Ok::<Seq<SpecChannel>, MetadataError>(
            acc.update(acc.len() - 1, with_stream(acc.last(), s)),
        ),
{
    lemma_plain_literals();
    let f = stream_fields(s);
    lemma_encode_field_chars(s.url);
    lemma_opt_plain(s.iptv_source);
    lemma_dec(s.source_order as nat);
    lemma_digits_plain(dec(s.source_order as nat));
    lemma_literal_plain(f[0]);
    lemma_literal_plain(f[2]);
    lemma_literal_plain(f[3]);
    lemma_literal_plain(f[6]);
    lemma_literal_plain(f[7]);
    assert forall|i: int| 0 <= i < f.len() implies !(#[trigger] f[i]).contains('\t') && !f[i].contains(
        '\n',
    ) && !f[i].contains('\r') by {
        if i == 0 {
        } else if i == 1 {
        } else if i == 2 {
        } else if i == 3 {
        } else if i == 4 {
        } else if i == 5 {
        } else if i == 6 {
        } else {
        }
    }
    lemma_split_join(f);
    lemma_join_not_contains(f, '\n');
    let j = join_tab(f);
    let last = f.last();
    assert(last.len() > 0);
    assert(j.last() == last.last()) by {
        assert(j.skip(j.len() - last.len())[last.len() - 1] == j[j.len() - 1]);
    }
    assert(j[0] == 'S') by {
        assert(j.take(1)[0] == j[0]);
    }
    lemma_trim_nonempty(j);
    assert("S"@[0] != "C"@[0]);
    assert(f[0] != "C"@);
    lemma_decode_encode_field(s.url);
    lemma_decode_encode_opt(s.iptv_source);
    lemma_parse_dec(s.source_order as nat, usize::MAX as nat);
    assert(parse_origin(origin_text(s.origin)) == Ok::<Origin, MetadataError>(s.origin));
    assert(parse_ipv(ipv_name(s.ipv_type)) == s.ipv_type);
    assert(parse_bool(bool_text(s.whitelist)) == Some(s.whitelist));
    assert(parse_bool(bool_text(s.iptv_restricted)) == Some(s.iptv_restricted));
    assert(parse_stream(f) == Ok::<SpecStream, MetadataError>(s));
}

/// The texts of rows.
pub open spec fn row_lines(rs: Seq<Seq<Seq<char>>>) -> Seq<Seq<char>> {
    rs.map_values(|f: Seq<Seq<char>>| join_tab(f))
}

proof fn lemma_row_lines_push(rs: Seq<Seq<Seq<char>>>, f: Seq<Seq<char>>)
    ensures
        row_lines(rs.push(f)) == row_lines(rs).push(join_tab(f)),
{
    assert(row_lines(rs.push(f)) =~= row_lines(rs).push(join_tab(f)));
}

proof fn lemma_rows_fold_push(rows: Seq<Seq<char>>, line: Seq<char>)
    ensures
        rows_fold(rows.push(line)) == (match rows_fold(rows) {
            Err(e) => Err(e),
            Ok(acc) => row_step(acc, line),
        }),
{
    assert(rows.push(line).drop_last() =~= rows);
}

/// Reading back a channel row and its first `k` stream rows.
proof fn lemma_channel_streams(init: Seq<SpecChannel>, c: SpecChannel, k: int)
    requires
        metadata_ready(c),
        0 <= k <= c.streams.len(),
        rows_fold(row_lines(all_rows(init))) == Ok::<Seq<SpecChannel>, MetadataError>(init),
    ensures
        rows_fold(
            row_lines(all_rows(init).push(channel_fields(c)) + stream_rows(c.streams.take(k))),
        ) == Ok::<Seq<SpecChannel>, MetadataError>(
            init.push(SpecChannel { streams: c.streams.take(k), ..c }),
        ),
    decreases k,
{
    let base = all_rows(init).push(channel_fields(c));
    if k == 0 {
        lemma_channel_row(c, init);
        assert(c.streams.take(0) =~= Seq::<SpecStream>::empty());
        assert(base + stream_rows(c.streams.take(0)) =~= base);
        lemma_row_lines_push(all_rows(init), channel_fields(c));
        lemma_rows_fold_push(row_lines(all_rows(init)), join_tab(channel_fields(c)));
    } else {
        lemma_channel_streams(init, c, k - 1);
        let s = c.streams[k - 1];
        assert(s.iptv_source != Some(Seq::<char>::empty()));
        let acc = init.push(SpecChannel { streams: c.streams.take(k - 1), ..c });
        lemma_stream_row(s, acc);
        let prev = base + stream_rows(c.streams.take(k - 1));
        let next = base + stream_rows(c.streams.take(k));
        assert(c.streams.take(k) =~= c.streams.take(k - 1).push(s));
        assert(stream_rows(c.streams.take(k)) =~= stream_rows(c.streams.take(k - 1)).push(
            stream_fields(s),
        ));
        assert(next =~= prev.push(stream_fields(s)));
        lemma_row_lines_push(prev, stream_fields(s));
        lemma_rows_fold_push(row_lines(prev), join_tab(stream_fields(s)));
        assert(acc.update(acc.len() - 1, with_stream(acc.last(), s)) =~= init.push(
            SpecChannel { streams: c.streams.take(k), ..c },
        ));
    }
}

/// Every row of well-formed channels is a safe line.
proof fn lemma_all_rows_safe(cs: Seq<SpecChannel>)
    requires
        forall|i: int| 0 <= i < cs.len() ==> metadata_ready(#[trigger] cs[i]),
    ensures
        forall|i: int|
            0 <= i < all_rows(cs).len() ==> line_safe(#[trigger] join_tab(all_rows(cs)[i])),
    decreases cs.len(),
{
    if cs.len() > 0 {
        let init = cs.drop_last();
        let c = cs.last();
        assert forall|i: int| 0 <= i < init.len() implies metadata_ready(#[trigger] init[i]) by {
            assert(init[i] == cs[i]);
        }
        assert(metadata_ready(cs[cs.len() - 1]));
        lemma_all_rows_safe(init);
        lemma_channel_row(c, init);
        let rs = all_rows(cs);
        let n0 = all_rows(init).len();
        assert forall|i: int| 0 <= i < rs.len() implies line_safe(#[trigger] join_tab(rs[i])) by {
            if i < n0 {
                assert(rs[i] == all_rows(init)[i]);
            } else if i == n0 {
                assert(rs[i] == channel_fields(c));
            } else {
                let k = i - n0 - 1;
                assert(rs[i] == stream_fields(c.streams[k]));
                assert(c.streams[k].iptv_source != Some(Seq::<char>::empty()));
                lemma_stream_row(c.streams[k], seq![c]);
            }
        }
    }
}

/// Reading back the rows of channels gives the channels.
proof fn lemma_rows_fold_all(cs: Seq<SpecChannel>)
    requires
        forall|i: int| 0 <= i < cs.len() ==> metadata_ready(#[trigger] cs[i]),
    ensures
        rows_fold(row_lines(all_rows(cs))) == Ok::<Seq<SpecChannel>, MetadataError>(cs),
    decreases cs.len(),
{
    if cs.len() == 0 {
        assert(row_lines(all_rows(cs)) =~= Seq::<Seq<char>>::empty());
        assert(cs =~= Seq::<SpecChannel>::empty());
    } else {
        let init = cs.drop_last();
        let c = cs.last();
        assert forall|i: int| 0 <= i < init.len() implies metadata_ready(#[trigger] init[i]) by {
            assert(init[i] == cs[i]);
        }
        assert(metadata_ready(cs[cs.len() - 1]));
        lemma_rows_fold_all(init);
        lemma_channel_streams(init, c, c.streams.len() as int);
        assert(c.streams.take(c.streams.len() as int) =~= c.streams);
        assert(all_rows(cs) =~= all_rows(init).push(channel_fields(c)) + stream_rows(c.streams));
        assert(row_lines(all_rows(cs)) == row_lines(
            all_rows(init).push(channel_fields(c)) + stream_rows(c.streams.take(c.streams.len() as int)),
        ));
        let full = SpecChannel { streams: c.streams.take(c.streams.len() as int), ..c };
        assert(full == c);
        assert(init.push(full) =~= cs);
    }
}

/// What the metadata file holds is read back unchanged: writing channels and
/// reading the bytes gives the same channels, provided no optional text field
/// is present but empty.
pub proof fn law_metadata_round_trip(cs: Seq<SpecChannel>)
    requires
        forall|i: int| 0 <= i < cs.len() ==> metadata_ready(#[trigger] cs[i]),
    ensures
        parse_metadata(encode_utf8(metadata_text(cs))) == Ok::<Seq<SpecChannel>, MetadataError>(
            cs,
        ),
{
    let t = metadata_text(cs);
    encode_utf8_valid_utf8(t);
    encode_utf8_decode_utf8(t);
    lemma_plain_literals();
    reveal_strlit("iptv-rs-metadata-v2");
    assert(line_safe(header_v2())) by {
        assert forall|k: int| 0 <= k < header_v2().len() implies header_v2()[k] != '\n' by {}
        if header_v2().contains('\n') {
            let k = choose|k: int| 0 <= k < header_v2().len() && header_v2()[k] == '\n';
        }
    }
    lemma_rows_fold_all(cs);
    lemma_all_rows_safe(cs);
    lemma_lines_rows(all_rows(cs));
    lemma_lines_cons(header_v2(), rows_text(all_rows(cs)));
    let ls = lines(t);
    assert(ls.skip(1) =~= row_lines(all_rows(cs)));
}

} // verus!
