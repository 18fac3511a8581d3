//! Programme guides: `<channel>` and `<programme>` elements read from XMLTV
//! documents, merged across documents, narrowed to the channels in use and
//! written out as one document.
use vstd::prelude::*;
use vstd::utf8::*;
use crate::aggregate::{contains_key, normalize_channel_key, spec_normalize_key};
use crate::assoc::AssocList;
use crate::models::{channel_views, spec_epg_keys, Channel, SpecChannel};
use crate::sorting::{
    compare_keys, compare_part, compare_text, is_perm, key_list_view, key_view, keys_in_order,
    lemma_compare_text_basic, stable_sort, KeyPart, SpecKeyPart,
};
use crate::text::{
    append_chars, chars_of, ends_with, ends_with_exec, find, find_exec, find_from,
    find_from_exec, index_of_char, index_of_char_exec, index_of_char_from_exec, is_ws,
    is_ws_char, lemma_find_from_bounds, lemma_index_of_char_bounds, matches_at, replace_all,
    replace_all_exec, string_from_chars, string_views, subvec, trim, trim_chars, trim_end,
    trim_end_chars, views,
};

verus! {

broadcast use vstd::string::group_string_axioms;

// ---------------------------------------------------------------------------
// Decoding
// ---------------------------------------------------------------------------

/// The text that `String::from_utf8_lossy` makes of some bytes.
pub uninterp spec fn utf8_lossy(bytes: Seq<u8>) -> Seq<char>;

/// `String::from_utf8_lossy`: the bytes decoded as UTF-8 with every invalid
/// sequence replaced by U+FFFD. The result is a function of the bytes,
/// named [`utf8_lossy`]; valid UTF-8 is decoded as it is. Where the
/// replacement characters go is not stated.
#[verifier::external_body]
fn decode_lossy(bytes: &[u8]) -> (s: String)
    ensures
        s@ == utf8_lossy(bytes@),
        valid_utf8(bytes@) ==> s@ == decode_utf8(bytes@),
{
    String::from_utf8_lossy(bytes).into_owned()
}

// ---------------------------------------------------------------------------
// Elements
// ---------------------------------------------------------------------------

/// `<tag`, the start of an element's start tag.
pub open spec fn open_prefix(tag: Seq<char>) -> Seq<char> {
    seq!['<'] + tag
}

/// `</tag>`, an element's end tag.
pub open spec fn close_tag(tag: Seq<char>) -> Seq<char> {
    seq!['<', '/'] + tag + seq!['>']
}

/// The character at `i` ends a tag name: whitespace, `>` or `/`.
pub open spec fn is_tag_boundary(text: Seq<char>, i: int) -> bool {
    0 <= i < text.len() && (is_ws(text[i]) || text[i] == '>' || text[i] == '/')
}

/// The end of the start tag that begins at `start`: just past its `>`.
pub open spec fn start_tag_end(text: Seq<char>, start: int) -> Option<int> {
    match index_of_char(text.skip(start), '>') {
        Some(j) => Some(start + j + 1),
        None => None,
    }
}

/// The end of the element whose start tag spans `start..ste`: the tag
/// itself when it closes with `/>`, else just past the next end tag.
pub open spec fn element_end(text: Seq<char>, tag: Seq<char>, start: int, ste: int) -> Option<int> {
    if ends_with(trim_end(text.subrange(start, ste)), "/>"@) {
        Some(ste)
    } else {
        match find_from(text, close_tag(tag), ste) {
            Some(c) => Some(c + close_tag(tag).len()),
            None => None,
        }
    }
}

/// The elements named `tag` from position `from` on, each as its start tag
/// and its whole text, trimmed. An element without the end of its start
/// tag, or without its end tag, ends the scan.
pub open spec fn extract_from(text: Seq<char>, tag: Seq<char>, from: int) -> Seq<
    (Seq<char>, Seq<char>),
>
    decreases text.len() + 1 - from,
{
    if from < 0 || from > text.len() {
        seq![]
    } else {
        match find_from(text, open_prefix(tag), from) {
            None => seq![],
            Some(start) => {
                proof {
                    lemma_find_from_bounds(text, open_prefix(tag), from);
                }
                if !is_tag_boundary(text, start + open_prefix(tag).len()) {
                    extract_from(text, tag, start + open_prefix(tag).len())
                } else {
                    match start_tag_end(text, start) {
                        None => seq![],
                        Some(ste) => {
                            proof {
                                lemma_index_of_char_bounds(text.skip(start), '>');
                            }
                            match element_end(text, tag, start, ste) {
                                None => seq![],
                                Some(end) => {
                                    proof {
                                        lemma_find_from_bounds(text, close_tag(tag), ste);
                                    }
                                    seq![(text.subrange(start, ste), trim(text.subrange(start, end)))]
                                        + extract_from(text, tag, end)
                                }
                            }
                        },
                    }
                }
            },
        }
    }
}

/// The elements named `tag` in a text.
pub open spec fn spec_extract_elements(text: Seq<char>, tag: Seq<char>) -> Seq<
    (Seq<char>, Seq<char>),
> {
    extract_from(text, tag, 0)
}

/// The values of elements held as character vectors.
pub open spec fn element_views(v: Seq<(Vec<char>, Vec<char>)>) -> Seq<(Seq<char>, Seq<char>)> {
    v.map_values(|e: (Vec<char>, Vec<char>)| (e.0@, e.1@))
}

fn is_tag_boundary_exec(text: &[char], i: usize) -> (b: bool)
    ensures
        b == is_tag_boundary(text@, i as int),
{
    i < text.len() && (is_ws_char(text[i]) || text[i] == '>' || text[i] == '/')
}

fn tag_chars(prefix: &str, tag: &str, suffix: &str) -> (r: Vec<char>)
    ensures
        r@ == prefix@ + tag@ + suffix@,
{
    let mut r = chars_of(prefix);
    append_chars(&mut r, chars_of(tag).as_slice());
    append_chars(&mut r, chars_of(suffix).as_slice());
    r
}

fn extract_elements(text: &[char], tag: &str) -> (r: Vec<(Vec<char>, Vec<char>)>)
    ensures
        element_views(r@) == spec_extract_elements(text@, tag@),
{
    let open = tag_chars("<", tag, "");
    let close = tag_chars("</", tag, ">");
    proof {
        reveal_strlit("<");
        reveal_strlit("");
        reveal_strlit("</");
        reveal_strlit(">");
        assert(open@ =~= open_prefix(tag@));
        assert(close@ =~= close_tag(tag@));
    }
    let slash = chars_of("/>");
    let n = text.len();
    let mut out: Vec<(Vec<char>, Vec<char>)> = Vec::new();
    let mut from: usize = 0;
    assert(element_views(out@) =~= Seq::<(Seq<char>, Seq<char>)>::empty());
    loop
        invariant
            from <= n == text@.len(),
            open@ == open_prefix(tag@),
            close@ == close_tag(tag@),
            slash@ == "/>"@,
            element_views(out@) + extract_from(text@, tag@, from as int) == extract_from(
                text@,
                tag@,
                0,
            ),
        decreases n + 1 - from,
    {
        proof {
            lemma_find_from_bounds(text@, open@, from as int);
        }
        let start = match find_from_exec(text, open.as_slice(), from) {
            None => {
                assert(element_views(out@) =~= element_views(out@) + Seq::<
                    (Seq<char>, Seq<char>),
                >::empty());
                return out;
            },
            Some(s) => s,
        };
        assert(matches_at(text@, open@, start as int));
        let after = start + open.len();
        if !is_tag_boundary_exec(text, after) {
            from = after;
            continue;
        }
        proof {
            lemma_index_of_char_bounds(text@.skip(start as int), '>');
        }
        let ste = match index_of_char_from_exec(text, '>', start) {
            None => {
                assert(element_views(out@) =~= element_views(out@) + Seq::<
                    (Seq<char>, Seq<char>),
                >::empty());
                return out;
            },
            Some(gt) => gt + 1,
        };
        let start_tag = subvec(text, start, ste);
        let trimmed_tag = trim_end_chars(start_tag.as_slice());
        let end = if ends_with_exec(trimmed_tag.as_slice(), slash.as_slice()) {
            ste
        } else {
            proof {
                lemma_find_from_bounds(text@, close@, ste as int);
            }
            match find_from_exec(text, close.as_slice(), ste) {
                None => {
                    assert(element_views(out@) =~= element_views(out@) + Seq::<
                        (Seq<char>, Seq<char>),
                    >::empty());
                    return out;
                },
                Some(c) => {
                    assert(matches_at(text@, close@, c as int));
                    c + close.len()
                },
            }
        };
        let whole = subvec(text, start, end);
        let xml = trim_chars(whole.as_slice());
        let ghost before = element_views(out@);
        out.push((start_tag, xml));
        proof {
            assert(element_views(out@) =~= before.push(
                (text@.subrange(start as int, ste as int), trim(text@.subrange(start as int, end as int))),
            ));
            assert(element_views(out@) + extract_from(text@, tag@, end as int) =~= before + (seq![
                (text@.subrange(start as int, ste as int), trim(text@.subrange(start as int, end as int))),
            ] + extract_from(text@, tag@, end as int)));
        }
        from = end;
    }
}

// ---------------------------------------------------------------------------
// Attributes
// ---------------------------------------------------------------------------

/// The five predefined XML entities replaced by their characters, `&amp;`
/// last.
pub open spec fn xml_unescape(v: Seq<char>) -> Seq<char> {
    replace_all(
        replace_all(
            replace_all(replace_all(replace_all(v, "&quot;"@, "\""@), "&apos;"@, "'"@), "&lt;"@, "<"@),
            "&gt;"@,
            ">"@,
        ),
        "&amp;"@,
        "&"@,
    )
}

/// The value of attribute `attr` in a start tag: after the first `attr=`,
/// between a pair of `"` or `'`, unescaped.
pub open spec fn spec_xml_attr(start_tag: Seq<char>, attr: Seq<char>) -> Option<Seq<char>> {
    let needle = attr + seq!['='];
    match find(start_tag, needle) {
        None => None,
        Some(i) => {
            let idx = i + needle.len();
            if idx >= start_tag.len() {
                None
            } else {
                let q = start_tag[idx];
                if q != '"' && q != '\'' {
                    None
                } else {
                    match index_of_char(start_tag.skip(idx + 1), q) {
                        Some(j) => Some(xml_unescape(start_tag.subrange(idx + 1, idx + 1 + j))),
                        None => None,
                    }
                }
            }
        },
    }
}

fn replace_lit(s: Vec<char>, from: &str, to: &str) -> (r: Vec<char>)
    ensures
        r@ == replace_all(s@, from@, to@),
{
    let f = chars_of(from);
    let t = chars_of(to);
    replace_all_exec(s.as_slice(), f.as_slice(), t.as_slice())
}

fn xml_unescape_exec(v: &[char]) -> (r: Vec<char>)
    ensures
        r@ == xml_unescape(v@),
{
    let whole = subvec(v, 0, v.len());
    assert(whole@ =~= v@);
    let a = replace_lit(whole, "&quot;", "\"");
    let b = replace_lit(a, "&apos;", "'");
    let c = replace_lit(b, "&lt;", "<");
    let d = replace_lit(c, "&gt;", ">");
    replace_lit(d, "&amp;", "&")
}

fn attr_value(start_tag: &[char], attr: &str) -> (r: Option<Vec<char>>)
    ensures
        r matches Some(v) ==> spec_xml_attr(start_tag@, attr@) == Some(v@),
        r is None ==> spec_xml_attr(start_tag@, attr@) is None,
{
    let needle = tag_chars("", attr, "=");
    proof {
        reveal_strlit("");
        reveal_strlit("=");
        assert(needle@ =~= attr@ + seq!['=']);
        lemma_find_from_bounds(start_tag@, needle@, 0);
    }
    let i = match find_exec(start_tag, needle.as_slice()) {
        None => {
            return None;
        },
        Some(i) => i,
    };
    assert(matches_at(start_tag@, needle@, i as int));
    let nl = needle.len();
    let tl = start_tag.len();
    assert(i + nl <= tl);
    let idx = i + nl;
    if idx >= start_tag.len() {
        return None;
    }
    let q = start_tag[idx];
    if q != '"' && q != '\'' {
        return None;
    }
    let vs = idx + 1;
    match index_of_char_from_exec(start_tag, q, vs) {
        None => None,
        Some(ve) => {
            proof {
                lemma_index_of_char_bounds(start_tag@.skip(vs as int), q);
            }
            let raw = subvec(start_tag, vs, ve);
            Some(xml_unescape_exec(raw.as_slice()))
        },
    }
}

// ---------------------------------------------------------------------------
// The aggregator
// ---------------------------------------------------------------------------

/// The key by which a programme is recognised as already taken: its source,
/// its channel and its text.
pub open spec fn programme_key(source: Seq<char>, id: Seq<char>, xml: Seq<char>) -> Seq<char> {
    source + seq!['\n'] + id + seq!['\n'] + xml
}

/// Programme guides merged from several documents.
pub struct EpgAggregator {
    channels: AssocList<Vec<char>>,
    programmes: Vec<(Vec<char>, Vec<char>)>,
    programme_keys: Vec<Vec<char>>,
}

/// The mathematical value of an [`EpgAggregator`]: the text of each channel
/// by its id, the programmes with their channel ids in the order taken, and
/// the keys of the programmes taken.
pub struct SpecEpg {
    pub channels: Map<Seq<char>, Seq<char>>,
    pub programmes: Seq<(Seq<char>, Seq<char>)>,
    pub keys: Seq<Seq<char>>,
}

impl View for EpgAggregator {
    type V = SpecEpg;

    closed spec fn view(&self) -> SpecEpg {
        SpecEpg {
            channels: self.channels@,
            programmes: element_views(self.programmes@),
            keys: views(self.programme_keys@),
        }
    }
}

/// Channel elements added: each element with an `id` attribute whose id is
/// not there yet.
pub open spec fn add_channels(m: Map<Seq<char>, Seq<char>>, els: Seq<(Seq<char>, Seq<char>)>) -> Map<
    Seq<char>,
    Seq<char>,
>
    decreases els.len(),
{
    if els.len() == 0 {
        m
    } else {
        let prev = add_channels(m, els.drop_last());
        match spec_xml_attr(els.last().0, "id"@) {
            Some(id) => if prev.dom().contains(id) {
                prev
            } else {
                prev.insert(id, els.last().1)
            },
            None => prev,
        }
    }
}

/// Programme elements added: each element with a `channel` attribute whose
/// key from this source was not taken yet.
pub open spec fn add_programmes(
    ps: Seq<(Seq<char>, Seq<char>)>,
    keys: Seq<Seq<char>>,
    source: Seq<char>,
    els: Seq<(Seq<char>, Seq<char>)>,
) -> (Seq<(Seq<char>, Seq<char>)>, Seq<Seq<char>>)
    decreases els.len(),
{
    if els.len() == 0 {
        (ps, keys)
    } else {
        let prev = add_programmes(ps, keys, source, els.drop_last());
        match spec_xml_attr(els.last().0, "channel"@) {
            Some(id) => {
                let k = programme_key(source, id, els.last().1);
                if prev.1.contains(k) {
                    prev
                } else {
                    (prev.0.push((id, els.last().1)), prev.1.push(k))
                }
            },
            None => prev,
        }
    }
}

/// The guide after a document from `source` with text `text` is added.
pub open spec fn spec_add_document(e: SpecEpg, source: Seq<char>, text: Seq<char>) -> SpecEpg {
    let ps = add_programmes(
        e.programmes,
        e.keys,
        source,
        spec_extract_elements(text, "programme"@),
    );
    SpecEpg {
        channels: add_channels(e.channels, spec_extract_elements(text, "channel"@)),
        programmes: ps.0,
        keys: ps.1,
    }
}

/// The keys under which channels take programme guides, normalised.
pub open spec fn wanted_keys(cs: Seq<SpecChannel>) -> Seq<Seq<char>>
    decreases cs.len(),
{
    if cs.len() == 0 {
        seq![]
    } else {
        wanted_keys(cs.drop_last()) + spec_epg_keys(cs.last()).map_values(
            |k: Seq<char>| spec_normalize_key(k),
        )
    }
}

/// The programmes whose normalised channel id is wanted, in their order.
pub open spec fn kept_programmes(ps: Seq<(Seq<char>, Seq<char>)>, wanted: Seq<Seq<char>>) -> Seq<
    (Seq<char>, Seq<char>),
>
    decreases ps.len(),
{
    if ps.len() == 0 {
        seq![]
    } else {
        let prev = kept_programmes(ps.drop_last(), wanted);
        if wanted.contains(spec_normalize_key(ps.last().0)) {
            prev.push(ps.last())
        } else {
            prev
        }
    }
}

/// The guide narrowed to the channels: channels and programmes whose
/// normalised id is one of the channels' normalised keys; with no channels
/// nothing is removed.
pub open spec fn spec_retain(e: SpecEpg, cs: Seq<SpecChannel>) -> SpecEpg {
    let w = wanted_keys(cs);
    if w.len() == 0 {
        e
    } else {
        SpecEpg {
            channels: Map::new(
                |id: Seq<char>| e.channels.dom().contains(id) && w.contains(spec_normalize_key(id)),
                |id: Seq<char>| e.channels[id],
            ),
            programmes: kept_programmes(e.programmes, w),
            keys: e.keys,
        }
    }
}

/// The lines of a text, each followed by a line break.
pub open spec fn join_lines(ls: Seq<Seq<char>>) -> Seq<char>
    decreases ls.len(),
{
    if ls.len() == 0 {
        seq![]
    } else {
        join_lines(ls.drop_last()) + ls.last() + seq!['\n']
    }
}

/// The first lines of a guide document, with its date.
pub open spec fn epg_header(date: Seq<char>) -> Seq<char> {
    "<?xml version=\"1.0\" encoding=\"UTF-8\"?>\n"@
        + "<tv generator-info-name=\"iptv-rs\" generator-info-url=\"https://github.com/Guovin/iptv-api\" date=\""@
        + date + "\">\n"@
}

/// `ids` lists the channel ids once each, in increasing order.
pub open spec fn ids_in_order(ids: Seq<Seq<char>>, dom: Set<Seq<char>>) -> bool {
    &&& ids.len() == dom.len()
    &&& forall|i: int| 0 <= i < ids.len() ==> dom.contains(#[trigger] ids[i])
    &&& forall|i: int, j: int|
        0 <= i < j < ids.len() ==> compare_text(#[trigger] ids[i], #[trigger] ids[j]) < 0
}

/// The guide document: the header, the channels in the order of `ids`, the
/// programmes in their order, and the closing tag.
pub open spec fn epg_document(e: SpecEpg, date: Seq<char>, ids: Seq<Seq<char>>) -> Seq<char> {
    epg_header(date) + join_lines(ids.map_values(|id: Seq<char>| e.channels[id])) + join_lines(
        e.programmes.map_values(|p: (Seq<char>, Seq<char>)| p.1),
    ) + "</tv>\n"@
}

fn element_key(source: &[char], id: &[char], xml: &[char]) -> (r: Vec<char>)
    ensures
        r@ == programme_key(source@, id@, xml@),
{
    let mut r = subvec(source, 0, source.len());
    r.push('\n');
    append_chars(&mut r, id);
    r.push('\n');
    append_chars(&mut r, xml);
    assert(r@ =~= programme_key(source@, id@, xml@));
    r
}

impl EpgAggregator {
    /// The channel map is well formed.
    pub closed spec fn wf(&self) -> bool {
        self.channels.wf()
    }

    /// An empty guide.
    pub fn new() -> (e: Self)
        ensures
            e.wf(),
            e@.channels == Map::<Seq<char>, Seq<char>>::empty(),
            e@.programmes == Seq::<(Seq<char>, Seq<char>)>::empty(),
            e@.keys == Seq::<Seq<char>>::empty(),
    {
        let e = EpgAggregator {
            channels: AssocList::new(),
            programmes: Vec::new(),
            programme_keys: Vec::new(),
        };
        assert(element_views(e.programmes@) =~= Seq::<(Seq<char>, Seq<char>)>::empty());
        assert(views(e.programme_keys@) =~= Seq::<Seq<char>>::empty());
        e
    }

    /// Adds the channels and programmes of a guide document read from
    /// `source_name`. The first text of a channel id is kept; a programme
    /// is taken once per source, channel and text.
    pub fn add_document(&mut self, source_name: &str, bytes: &[u8]) -> (r: Result<(), String>)
        requires
            old(self).wf(),
        ensures
            r is Ok,
            final(self).wf(),
            final(self)@ == spec_add_document(old(self)@, source_name@, utf8_lossy(bytes@)),
            valid_utf8(bytes@) ==> final(self)@ == spec_add_document(
                old(self)@,
                source_name@,
                decode_utf8(bytes@),
            ),
    {
        let text = decode_lossy(bytes);
        let chars = chars_of(text.as_str());
        let source = chars_of(source_name);
        let channels = extract_elements(chars.as_slice(), "channel");
        let ghost cv = element_views(channels@);
        let ghost m0 = self.channels@;
        let ghost p_init = self.programmes@;
        let ghost k_init = self.programme_keys@;
        let mut i: usize = 0;
        assert(cv.take(0) =~= Seq::<(Seq<char>, Seq<char>)>::empty());
        while i < channels.len()
            invariant
                i <= channels@.len(),
                cv == element_views(channels@),
                self.channels.wf(),
                self.channels@ == add_channels(m0, cv.take(i as int)),
                self.programmes@ == p_init,
                self.programme_keys@ == k_init,
            decreases channels@.len() - i,
        {
            assert(cv.take(i + 1).drop_last() =~= cv.take(i as int));
            assert(cv.take(i + 1).last() == (channels@[i as int].0@, channels@[i as int].1@));
            match attr_value(channels[i].0.as_slice(), "id") {
                Some(id) => {
                    if self.channels.get(id.as_slice()).is_none() {
                        let xml = subvec(channels[i].1.as_slice(), 0, channels[i].1.len());
                        assert(xml@ =~= channels@[i as int].1@);
                        proof {
                            crate::text::lemma_chars_deep_view(xml);
                        }
                        self.channels.insert(id, xml);
                    }
                },
                None => {},
            }
            i = i + 1;
        }
        assert(cv.take(cv.len() as int) =~= cv);
        let programmes = extract_elements(chars.as_slice(), "programme");
        let ghost pv = element_views(programmes@);
        let ghost p0 = element_views(self.programmes@);
        let ghost k0 = views(self.programme_keys@);
        let mut j: usize = 0;
        assert(pv.take(0) =~= Seq::<(Seq<char>, Seq<char>)>::empty());
        while j < programmes.len()
            invariant
                j <= programmes@.len(),
                pv == element_views(programmes@),
                (element_views(self.programmes@), views(self.programme_keys@)) == add_programmes(
                    p0,
                    k0,
                    source_name@,
                    pv.take(j as int),
                ),
                source@ == source_name@,
                self.channels.wf(),
                self.channels@ == add_channels(m0, cv),
            decreases programmes@.len() - j,
        {
            assert(pv.take(j + 1).drop_last() =~= pv.take(j as int));
            assert(pv.take(j + 1).last() == (programmes@[j as int].0@, programmes@[j as int].1@));
            match attr_value(programmes[j].0.as_slice(), "channel") {
                Some(id) => {
                    let key = element_key(
                        source.as_slice(),
                        id.as_slice(),
                        programmes[j].1.as_slice(),
                    );
                    if !contains_key(&self.programme_keys, key.as_slice()) {
                        let xml = subvec(programmes[j].1.as_slice(), 0, programmes[j].1.len());
                        assert(xml@ =~= programmes@[j as int].1@);
                        let ghost before_p = element_views(self.programmes@);
                        let ghost before_k = views(self.programme_keys@);
                        let ghost idv = id@;
                        let ghost kv = key@;
                        self.programmes.push((id, xml));
                        self.programme_keys.push(key);
                        assert(element_views(self.programmes@) =~= before_p.push(
                            (idv, programmes@[j as int].1@),
                        ));
                        assert(views(self.programme_keys@) =~= before_k.push(kv));
                    }
                },
                None => {},
            }
            j = j + 1;
        }
        assert(pv.take(pv.len() as int) =~= pv);
        Ok(())
    }

    /// Keeps only the channels and programmes of the given channels: those
    /// whose id, without whitespace and in lower case, equals a channel's
    /// guide id or name treated the same way. With no channels nothing is
    /// removed.
    pub fn retain_for_channels(&mut self, channels: &[Channel])
        requires
            old(self).wf(),
        ensures
            final(self).wf(),
            final(self)@ == spec_retain(old(self)@, channel_views(channels@)),
    {
        let ghost cv = channel_views(channels@);
        let ghost e0 = self@;
        let mut wanted: Vec<Vec<char>> = Vec::new();
        let mut i: usize = 0;
        assert(cv.take(0) =~= Seq::<SpecChannel>::empty());
        assert(views(wanted@) =~= Seq::<Seq<char>>::empty());
        while i < channels.len()
            invariant
                i <= channels@.len(),
                cv == channel_views(channels@),
                views(wanted@) == wanted_keys(cv.take(i as int)),
                self@ == e0,
                self.wf(),
            decreases channels@.len() - i,
        {
            assert(cv.take(i + 1).drop_last() =~= cv.take(i as int));
            assert(cv.take(i + 1).last() == channels@[i as int]@);
            let ks = channels[i].epg_keys();
            let ghost ek = spec_epg_keys(channels@[i as int]@);
            let ghost before = views(wanted@);
            let mut j: usize = 0;
            assert(ek.take(0).map_values(|k: Seq<char>| spec_normalize_key(k)) =~= Seq::<
                Seq<char>,
            >::empty());
            assert(before + Seq::<Seq<char>>::empty() =~= before);
            while j < ks.len()
                invariant
                    j <= ks@.len(),
                    string_views(ks@) == ek,
                    views(wanted@) == before + ek.take(j as int).map_values(
                        |k: Seq<char>| spec_normalize_key(k),
                    ),
                decreases ks@.len() - j,
            {
                let nk = normalize_channel_key(chars_of(ks[j].as_str()).as_slice());
                let ghost prev = views(wanted@);
                wanted.push(nk);
                assert(ek[j as int] == ks@[j as int]@);
                assert(ek.take(j + 1).map_values(|k: Seq<char>| spec_normalize_key(k)) =~= ek.take(
                    j as int,
                ).map_values(|k: Seq<char>| spec_normalize_key(k)).push(spec_normalize_key(ek[j as int])));
                assert(views(wanted@) =~= prev.push(nk@));
                j = j + 1;
            }
            assert(ek.take(ek.len() as int) =~= ek);
            i = i + 1;
        }
        assert(cv.take(cv.len() as int) =~= cv);
        if wanted.len() == 0 {
            return;
        }
        let ghost w = views(wanted@);
        let ghost m0 = self.channels@;
        let ghost progs0 = self.programmes@;
        let ghost keys0 = self.programme_keys@;
        let ids = self.channels.keys();
        let ghost idv = views(ids@);
        let mut k: usize = 0;
        assert(self.channels@ =~= Map::new(
            |id: Seq<char>| m0.dom().contains(id) && (w.contains(spec_normalize_key(id))
                || !idv.take(0).contains(id)),
            |id: Seq<char>| m0[id],
        ));
        while k < ids.len()
            invariant
                k <= ids@.len(),
                idv == views(ids@),
                w == views(wanted@),
                self.channels.wf(),
                self.programmes@ == progs0,
                self.programme_keys@ == keys0,
                forall|id: Seq<char>| #[trigger] m0.dom().contains(id) <==> idv.contains(id),
                self.channels@ == Map::new(
                    |id: Seq<char>| m0.dom().contains(id) && (w.contains(spec_normalize_key(id))
                        || !idv.take(k as int).contains(id)),
                    |id: Seq<char>| m0[id],
                ),
            decreases ids@.len() - k,
        {
            let nk = normalize_channel_key(ids[k].as_slice());
            let ghost before = self.channels@;
            assert(idv.take(k + 1) =~= idv.take(k as int).push(idv[k as int]));
            proof {
                broadcast use vstd::seq_lib::lemma_seq_contains_after_push;
                assert forall|id: Seq<char>| #![auto]
                    idv.take(k + 1).contains(id) <==> (idv.take(k as int).contains(id) || id
                        == idv[k as int]) by {}
            }
            if !contains_key(&wanted, nk.as_slice()) {
                let _ = self.channels.take(ids[k].as_slice());
                assert(self.channels@ =~= Map::new(
                    |id: Seq<char>| m0.dom().contains(id) && (w.contains(spec_normalize_key(id))
                        || !idv.take(k + 1).contains(id)),
                    |id: Seq<char>| m0[id],
                ));
            } else {
                assert(self.channels@ =~= Map::new(
                    |id: Seq<char>| m0.dom().contains(id) && (w.contains(spec_normalize_key(id))
                        || !idv.take(k + 1).contains(id)),
                    |id: Seq<char>| m0[id],
                ));
            }
            k = k + 1;
        }
        assert(idv.take(idv.len() as int) =~= idv);
        assert(self.channels@ =~= Map::new(
            |id: Seq<char>| m0.dom().contains(id) && w.contains(spec_normalize_key(id)),
            |id: Seq<char>| m0[id],
        ));
        let ghost m1 = self.channels@;
        let mut rest: Vec<(Vec<char>, Vec<char>)> = Vec::new();
        std::mem::swap(&mut rest, &mut self.programmes);
        let ghost pv = element_views(rest@);
        let n = rest.len();
        let mut q: usize = 0;
        assert(pv.take(0) =~= Seq::<(Seq<char>, Seq<char>)>::empty());
        assert(element_views(self.programmes@) =~= Seq::<(Seq<char>, Seq<char>)>::empty());
        while rest.len() > 0
            invariant
                q + rest@.len() == n,
                pv.len() == n,
                w == views(wanted@),
                element_views(rest@) == pv.skip(q as int),
                element_views(self.programmes@) == kept_programmes(pv.take(q as int), w),
                self.channels.wf(),
                self.channels@ == m1,
                self.programme_keys@ == keys0,
            decreases rest@.len(),
        {
            let ghost pre = rest@;
            let (id, xml) = rest.remove(0);
            proof {
                assert(pv.take(q + 1).drop_last() =~= pv.take(q as int));
                assert(element_views(pre)[0] == pv.skip(q as int)[0]);
                assert(pv.take(q + 1).last() == (id@, xml@));
                assert forall|j: int| 0 <= j < rest@.len() implies #[trigger] element_views(rest@)[j]
                    == pv.skip(q + 1)[j] by {
                    assert(rest@[j] == pre[j + 1]);
                    assert(element_views(pre)[j + 1] == pv.skip(q as int)[j + 1]);
                }
                assert(element_views(rest@) =~= pv.skip(q + 1));
            }
            let nk = normalize_channel_key(id.as_slice());
            if contains_key(&wanted, nk.as_slice()) {
                let ghost before = element_views(self.programmes@);
                let ghost e = (id@, xml@);
                self.programmes.push((id, xml));
                assert(element_views(self.programmes@) =~= before.push(e));
            }
            q = q + 1;
        }
        assert(pv.take(n as int) =~= pv);
    }

    /// Whether the guide has a channel with this id.
    pub fn has_channel(&self, id: &str) -> (b: bool)
        requires
            self.wf(),
        ensures
            b == self@.channels.dom().contains(id@),
    {
        let k = chars_of(id);
        self.channels.get(k.as_slice()).is_some()
    }

    /// The number of channels.
    pub fn channel_count(&self) -> (n: usize)
        requires
            self.wf(),
        ensures
            n == self@.channels.dom().len(),
    {
        self.channels.len()
    }

    /// The number of programmes.
    pub fn programme_count(&self) -> (n: usize)
        ensures
            n == self@.programmes.len(),
    {
        self.programmes.len()
    }

    /// The guide as one XMLTV document dated `date`: the channels by
    /// increasing id, then the programmes in the order they were taken.
    pub fn render_document(&self, date: &str) -> (s: String)
        requires
            self.wf(),
        ensures
            exists|ids: Seq<Seq<char>>|
                ids_in_order(ids, self@.channels.dom()) && s@ == epg_document(self@, date@, ids),
    {
        let ids = self.channels.keys();
        let ghost idv = views(ids@);
        let mut sort_keys: Vec<Vec<KeyPart>> = Vec::new();
        let mut i: usize = 0;
        while i < ids.len()
            invariant
                i <= ids@.len(),
                sort_keys@.len() == i,
                forall|j: int|
                    0 <= j < i ==> key_view(#[trigger] sort_keys@[j]@) == seq![
                        SpecKeyPart::Text(ids@[j]@),
                    ],
            decreases ids@.len() - i,
        {
            let mut k: Vec<KeyPart> = Vec::new();
            let t = subvec(ids[i].as_slice(), 0, ids[i].len());
            assert(t@ =~= ids@[i as int]@);
            k.push(KeyPart::Text(t));
            assert(key_view(k@) =~= seq![SpecKeyPart::Text(ids@[i as int]@)]);
            sort_keys.push(k);
            i = i + 1;
        }
        let ghost ks = key_list_view(sort_keys@);
        assert(ks =~= idv.map_values(|k: Seq<char>| seq![SpecKeyPart::Text(k)]));
        let ghost ids_exec = ids@;
        let sorted = stable_sort(ids, sort_keys);
        proof {
            crate::sorting::lemma_stable_sort_map(sorted@, ids_exec, ks, |v: Vec<char>| v@);
            assert(views(sorted@) =~= sorted@.map_values(|v: Vec<char>| v@));
            assert(idv =~= ids_exec.map_values(|v: Vec<char>| v@));
            lemma_sorted_ids(idv, views(sorted@), self@.channels.dom());
        }
        let ghost sv = views(sorted@);
        let ghost m = self@.channels;
        let mut out = chars_of("<?xml version=\"1.0\" encoding=\"UTF-8\"?>\n");
        append_chars(
            &mut out,
            chars_of(
                "<tv generator-info-name=\"iptv-rs\" generator-info-url=\"https://github.com/Guovin/iptv-api\" date=\"",
            ).as_slice(),
        );
        append_chars(&mut out, chars_of(date).as_slice());
        append_chars(&mut out, chars_of("\">\n").as_slice());
        let ghost head = out@;
        assert(head =~= epg_header(date@));
        let mut j: usize = 0;
        assert(sv.take(0).map_values(|id: Seq<char>| m[id]) =~= Seq::<Seq<char>>::empty());
        assert(head + join_lines(Seq::<Seq<char>>::empty()) =~= head);
        while j < sorted.len()
            invariant
                j <= sorted@.len(),
                sv == views(sorted@),
                m == self@.channels,
                self.wf(),
                ids_in_order(sv, m.dom()),
                out@ == head + join_lines(sv.take(j as int).map_values(|id: Seq<char>| m[id])),
            decreases sorted@.len() - j,
        {
            assert(m.dom().contains(sv[j as int]));
            match self.channels.get(sorted[j].as_slice()) {
                Some(xml) => {
                    proof {
                        crate::text::lemma_chars_deep_view(*xml);
                    }
                    let ghost before = out@;
                    append_chars(&mut out, xml.as_slice());
                    out.push('\n');
                    let ghost ls = sv.take(j as int).map_values(|id: Seq<char>| m[id]);
                    assert(sv.take(j + 1).map_values(|id: Seq<char>| m[id]) =~= ls.push(
                        m[sv[j as int]],
                    ));
                    assert(ls.push(m[sv[j as int]]).drop_last() =~= ls);
                    assert(out@ =~= head + join_lines(ls.push(m[sv[j as int]])));
                },
                None => {},
            }
            j = j + 1;
        }
        assert(sv.take(sv.len() as int) =~= sv);
        let ghost mid = out@;
        let ghost pv = self@.programmes;
        let mut q: usize = 0;
        assert(pv.take(0).map_values(|p: (Seq<char>, Seq<char>)| p.1) =~= Seq::<Seq<char>>::empty());
        assert(mid + join_lines(Seq::<Seq<char>>::empty()) =~= mid);
        while q < self.programmes.len()
            invariant
                q <= self.programmes@.len(),
                pv == self@.programmes,
                out@ == mid + join_lines(pv.take(q as int).map_values(|p: (Seq<char>, Seq<char>)| p.1)),
            decreases self.programmes@.len() - q,
        {
            assert(pv[q as int] == (self.programmes@[q as int].0@, self.programmes@[q as int].1@));
            append_chars(&mut out, self.programmes[q].1.as_slice());
            out.push('\n');
            let ghost ls = pv.take(q as int).map_values(|p: (Seq<char>, Seq<char>)| p.1);
            assert(pv.take(q + 1).map_values(|p: (Seq<char>, Seq<char>)| p.1) =~= ls.push(
                pv[q as int].1,
            ));
            assert(ls.push(pv[q as int].1).drop_last() =~= ls);
            assert(out@ =~= mid + join_lines(ls.push(pv[q as int].1)));
            q = q + 1;
        }
        assert(pv.take(pv.len() as int) =~= pv);
        append_chars(&mut out, chars_of("</tv>\n").as_slice());
        assert(out@ =~= epg_document(self@, date@, sv));
        string_from_chars(out.as_slice())
    }
}

impl Default for EpgAggregator {
    fn default() -> (e: Self)
        ensures
            e.wf(),
            e@.channels == Map::<Seq<char>, Seq<char>>::empty(),
            e@.programmes == Seq::<(Seq<char>, Seq<char>)>::empty(),
            e@.keys == Seq::<Seq<char>>::empty(),
    {
        Self::new()
    }
}

/// Channel ids sorted by a stable sort on their text are in increasing
/// order and are the ids of the map.
proof fn lemma_sorted_ids(ids: Seq<Seq<char>>, sorted: Seq<Seq<char>>, dom: Set<Seq<char>>)
    requires
        ids.len() == dom.len(),
        ids.no_duplicates(),
        forall|k: Seq<char>| #[trigger] dom.contains(k) <==> ids.contains(k),
        crate::sorting::stable_sort_of(
            sorted,
            ids,
            ids.map_values(|k: Seq<char>| seq![SpecKeyPart::Text(k)]),
        ),
    ensures
        ids_in_order(sorted, dom),
{
    let ks = ids.map_values(|k: Seq<char>| seq![SpecKeyPart::Text(k)]);
    let p = choose|p: Seq<int>|
        is_perm(p, ids.len()) && keys_in_order(ks, p) && sorted.len() == ids.len() && forall|i: int|
            0 <= i < sorted.len() ==> #[trigger] sorted[i] == ids[p[i]];
    assert forall|i: int| 0 <= i < sorted.len() implies dom.contains(#[trigger] sorted[i]) by {
        assert(sorted[i] == ids[p[i]]);
        assert(ids.contains(ids[p[i]]));
    }
    assert forall|i: int, j: int| 0 <= i < j < sorted.len() implies compare_text(
        #[trigger] sorted[i],
        #[trigger] sorted[j],
    ) < 0 by {
        let a = ids[p[i]];
        let b = ids[p[j]];
        assert(sorted[i] == a && sorted[j] == b);
        assert(ks[p[i]] == seq![SpecKeyPart::Text(a)]);
        assert(ks[p[j]] == seq![SpecKeyPart::Text(b)]);
        assert(ks[p[i]].drop_first() =~= Seq::<SpecKeyPart>::empty());
        assert(ks[p[j]].drop_first() =~= Seq::<SpecKeyPart>::empty());
        assert(compare_keys(Seq::<SpecKeyPart>::empty(), Seq::<SpecKeyPart>::empty()) == 0);
        assert(compare_part(SpecKeyPart::Text(a), SpecKeyPart::Text(b)) == compare_text(a, b));
        assert(compare_keys(ks[p[i]], ks[p[j]]) == compare_text(a, b));
        lemma_compare_text_basic(a, b);
        if compare_text(a, b) == 0 {
            assert(p[i] != p[j]);
        }
    }
}


// ---------------------------------------------------------------------------
// Laws
// ---------------------------------------------------------------------------

proof fn lemma_add_channels_grows(m: Map<Seq<char>, Seq<char>>, els: Seq<(Seq<char>, Seq<char>)>)
    ensures
        forall|id: Seq<char>|
            #[trigger] m.dom().contains(id) ==> add_channels(m, els).dom().contains(id)
                && add_channels(m, els)[id] == m[id],
        forall|k: int|
            0 <= k < els.len() && (#[trigger] spec_xml_attr(els[k].0, "id"@)) is Some
                ==> add_channels(m, els).dom().contains(spec_xml_attr(els[k].0, "id"@)->0),
    decreases els.len(),
{
    if els.len() > 0 {
        let init = els.drop_last();
        lemma_add_channels_grows(m, init);
        assert forall|k: int|
            0 <= k < els.len() && (#[trigger] spec_xml_attr(els[k].0, "id"@)) is Some implies add_channels(
            m,
            els,
        ).dom().contains(spec_xml_attr(els[k].0, "id"@)->0) by {
            if k < els.len() - 1 {
                assert(els[k] == init[k]);
            }
        }
    }
}

proof fn lemma_add_channels_noop(m: Map<Seq<char>, Seq<char>>, els: Seq<(Seq<char>, Seq<char>)>)
    requires
        forall|k: int|
            0 <= k < els.len() && (#[trigger] spec_xml_attr(els[k].0, "id"@)) is Some
                ==> m.dom().contains(spec_xml_attr(els[k].0, "id"@)->0),
    ensures
        add_channels(m, els) == m,
    decreases els.len(),
{
    if els.len() > 0 {
        let init = els.drop_last();
        assert forall|k: int|
            0 <= k < init.len() && (#[trigger] spec_xml_attr(init[k].0, "id"@)) is Some implies m.dom().contains(
            spec_xml_attr(init[k].0, "id"@)->0,
        ) by {
            assert(init[k] == els[k]);
        }
        lemma_add_channels_noop(m, init);
        let k = els.len() - 1;
        if spec_xml_attr(els[k].0, "id"@) is Some {
            assert(m.dom().contains(spec_xml_attr(els[k].0, "id"@)->0));
        }
    }
}

proof fn lemma_add_programmes_grows(
    ps: Seq<(Seq<char>, Seq<char>)>,
    keys: Seq<Seq<char>>,
    source: Seq<char>,
    els: Seq<(Seq<char>, Seq<char>)>,
)
    ensures
        forall|x: Seq<char>| #[trigger] keys.contains(x) ==> add_programmes(ps, keys, source, els).1.contains(x),
        forall|k: int|
            0 <= k < els.len() && (#[trigger] spec_xml_attr(els[k].0, "channel"@)) is Some
                ==> add_programmes(ps, keys, source, els).1.contains(
                programme_key(source, spec_xml_attr(els[k].0, "channel"@)->0, els[k].1),
            ),
    decreases els.len(),
{
    broadcast use vstd::seq_lib::lemma_seq_contains_after_push;
    if els.len() > 0 {
        let init = els.drop_last();
        lemma_add_programmes_grows(ps, keys, source, init);
        assert forall|k: int|
            0 <= k < els.len() && (#[trigger] spec_xml_attr(els[k].0, "channel"@)) is Some implies add_programmes(
            ps,
            keys,
            source,
            els,
        ).1.contains(programme_key(source, spec_xml_attr(els[k].0, "channel"@)->0, els[k].1)) by {
            if k < els.len() - 1 {
                assert(els[k] == init[k]);
            }
        }
    }
}

proof fn lemma_add_programmes_noop(
    ps: Seq<(Seq<char>, Seq<char>)>,
    keys: Seq<Seq<char>>,
    source: Seq<char>,
    els: Seq<(Seq<char>, Seq<char>)>,
)
    requires
        forall|k: int|
            0 <= k < els.len() && (#[trigger] spec_xml_attr(els[k].0, "channel"@)) is Some
                ==> keys.contains(
                programme_key(source, spec_xml_attr(els[k].0, "channel"@)->0, els[k].1),
            ),
    ensures
        add_programmes(ps, keys, source, els) == (ps, keys),
    decreases els.len(),
{
    if els.len() > 0 {
        let init = els.drop_last();
        assert forall|k: int|
            0 <= k < init.len() && (#[trigger] spec_xml_attr(init[k].0, "channel"@)) is Some implies keys.contains(
            programme_key(source, spec_xml_attr(init[k].0, "channel"@)->0, init[k].1),
        ) by {
            assert(init[k] == els[k]);
        }
        lemma_add_programmes_noop(ps, keys, source, init);
        let k = els.len() - 1;
        if spec_xml_attr(els[k].0, "channel"@) is Some {
            assert(keys.contains(
                programme_key(source, spec_xml_attr(els[k].0, "channel"@)->0, els[k].1),
            ));
        }
    }
}

/// Adding a guide document keeps every channel already known, with its
/// text.
pub proof fn law_add_document_keeps_known_channels(e: SpecEpg, source: Seq<char>, text: Seq<char>)
    ensures
        forall|id: Seq<char>|
            #[trigger] e.channels.dom().contains(id) ==> spec_add_document(e, source, text).channels.dom().contains(id)
                && spec_add_document(e, source, text).channels[id] == e.channels[id],
{
    lemma_add_channels_grows(e.channels, spec_extract_elements(text, "channel"@));
}

/// Adding the same guide document from the same source a second time
/// changes nothing: no channel is replaced and no programme is repeated.
pub proof fn law_add_document_twice(e: SpecEpg, source: Seq<char>, text: Seq<char>)
    ensures
        spec_add_document(spec_add_document(e, source, text), source, text) == spec_add_document(
            e,
            source,
            text,
        ),
{
    let chs = spec_extract_elements(text, "channel"@);
    let prs = spec_extract_elements(text, "programme"@);
    let once = spec_add_document(e, source, text);
    lemma_add_channels_grows(e.channels, chs);
    lemma_add_channels_noop(once.channels, chs);
    lemma_add_programmes_grows(e.programmes, e.keys, source, prs);
    lemma_add_programmes_noop(once.programmes, once.keys, source, prs);
}

} // verus!

