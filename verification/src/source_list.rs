//! Source list files: one live-source or guide address per line, with
//! optional `KEY=value` options, a `[WHITELIST]` section, and `#` to disable
//! an entry.
use vstd::prelude::*;
use crate::models::opt_view;
use crate::text::{
    ascii_lower_exec, ascii_lower_seq, chars_of, eq_chars, eq_ignore_ascii_case,
    eq_ignore_ascii_case_exec, index_of_char, index_of_char_exec, is_ws, is_ws_char,
    last_index_of_char, last_index_of_char_exec, lemma_index_of_char_bounds,
    lemma_last_index_of_char_bounds, lines, lines_exec, split_char, split_char_exec,
    split_once, split_once_exec, starts_with, starts_with_exec, string_from_chars, subvec, trim,
    trim_chars, trim_start, trim_start_chars, views, ends_with, ends_with_exec, append_chars,
    ascii_lower, lemma_last_index_of_char, lemma_lines_single_terminated, lemma_split_char_last,
    lemma_split_char_none, lemma_trim_start_skip, lemma_trim_unchanged,
};

verus! {

broadcast use vstd::string::group_string_axioms;

/// The section of a source list that an entry stands in.
#[derive(Debug, Clone, Copy, PartialEq, Eq, Structural)]
pub enum SourceSection {
    Default,
    Whitelist,
}

/// One entry of a source list.
#[derive(Debug, Clone, PartialEq, Eq)]
pub struct SourceEntry {
    pub url: String,
    pub user_agent: Option<String>,
    pub iptv_source: Option<String>,
    pub iptv_restricted: bool,
    pub section: SourceSection,
    pub enabled: bool,
}

/// The mathematical value of a [`SourceEntry`].
pub struct SpecSourceEntry {
    pub url: Seq<char>,
    pub user_agent: Option<Seq<char>>,
    pub iptv_source: Option<Seq<char>>,
    pub iptv_restricted: bool,
    pub section: SourceSection,
    pub enabled: bool,
}

impl View for SourceEntry {
    type V = SpecSourceEntry;

    open spec fn view(&self) -> SpecSourceEntry {
        SpecSourceEntry {
            url: self.url@,
            user_agent: opt_view(self.user_agent),
            iptv_source: opt_view(self.iptv_source),
            iptv_restricted: self.iptv_restricted,
            section: self.section,
            enabled: self.enabled,
        }
    }
}

/// The views of a sequence of entries.
pub open spec fn entry_views(s: Seq<SourceEntry>) -> Seq<SpecSourceEntry> {
    s.map_values(|e: SourceEntry| e@)
}

impl SourceEntry {
    pub fn is_whitelist(&self) -> (b: bool)
        ensures
            b == (self.section == SourceSection::Whitelist),
    {
        self.section == SourceSection::Whitelist
    }
}

// ---------------------------------------------------------------------------
// Specification
// ---------------------------------------------------------------------------

/// `u8::is_ascii_whitespace` on a character.
pub open spec fn is_ascii_ws(c: char) -> bool {
    c == ' ' || c == '\t' || c == '\n' || c == '\u{0C}' || c == '\r'
}

/// First index of a whitespace character.
pub open spec fn index_of_ws(s: Seq<char>) -> Option<int>
    decreases s.len(),
{
    if s.len() == 0 {
        None
    } else if is_ws(s[0]) {
        Some(0)
    } else {
        match index_of_ws(s.drop_first()) {
            Some(i) => Some(i + 1),
            None => None,
        }
    }
}

/// The first whitespace-separated word, empty if there is none.
pub open spec fn first_word(s: Seq<char>) -> Seq<char> {
    let t = trim_start(s);
    match index_of_ws(t) {
        Some(i) => t.take(i),
        None => t,
    }
}

/// The last non-empty, non-`.` piece between slashes.
pub open spec fn last_component(ps: Seq<Seq<char>>) -> Option<Seq<char>>
    decreases ps.len(),
{
    if ps.len() == 0 {
        None
    } else if ps.last().len() == 0 || ps.last() == "."@ {
        last_component(ps.drop_last())
    } else {
        Some(ps.last())
    }
}

/// `Path::file_name` of a path written with `/`.
pub open spec fn file_name(p: Seq<char>) -> Option<Seq<char>> {
    match last_component(split_char(p, '/')) {
        Some(x) => if x == ".."@ {
            None
        } else {
            Some(x)
        },
        None => None,
    }
}

/// `Path::extension`: what follows the last `.` of the file name, unless that
/// dot begins the name.
pub open spec fn extension(p: Seq<char>) -> Option<Seq<char>> {
    match file_name(p) {
        Some(f) => match last_index_of_char(f, '.') {
            Some(i) => if i == 0 {
                None
            } else {
                Some(f.skip(i + 1))
            },
            None => None,
        },
        None => None,
    }
}

/// The extensions of source files.
pub open spec fn known_extension(e: Seq<char>) -> bool {
    let l = ascii_lower_seq(e);
    l == "txt"@ || l == "m3u"@ || l == "m3u8"@ || l == "xml"@ || l == "gz"@
}

/// A line names a source: its first word is a URL, an absolute or explicitly
/// relative path, or a file with a known source extension.
pub open spec fn spec_looks_like_source_line(line: Seq<char>) -> bool {
    let p = first_word(line);
    ||| starts_with(p, "http://"@)
    ||| starts_with(p, "https://"@)
    ||| starts_with(p, "file://"@)
    ||| starts_with(p, "/"@)
    ||| starts_with(p, "./"@)
    ||| starts_with(p, "../"@)
    ||| (extension(p) matches Some(e) && known_extension(e))
}

/// A character allowed in an option key.
pub open spec fn is_key_char(c: char) -> bool {
    let u = c as u32;
    (48 <= u <= 57) || (65 <= u <= 90) || (97 <= u <= 122) || c == '_' || c == '-'
}

/// `rest` begins with `KEY=`, the key made of key characters.
pub open spec fn option_key_ok(rest: Seq<char>) -> bool {
    match split_once(rest, '=') {
        Some((k, _)) => forall|j: int| 0 <= j < k.len() ==> is_key_char(#[trigger] k[j]),
        None => false,
    }
}

/// The split of a line at the first ASCII whitespace after which options
/// begin, searching from index `i`.
pub open spec fn split_url_opts_from(line: Seq<char>, i: int) -> Option<(Seq<char>, Seq<char>)>
    decreases line.len() - i,
{
    if i < 0 || i >= line.len() {
        None
    } else if is_ascii_ws(line[i]) && option_key_ok(trim_start(line.skip(i))) {
        Some((trim(line.take(i)), trim_start(line.skip(i))))
    } else {
        split_url_opts_from(line, i + 1)
    }
}

/// The address part and the options part of a source line.
pub open spec fn split_url_opts(line: Seq<char>) -> Option<(Seq<char>, Seq<char>)> {
    split_url_opts_from(line, 0)
}

/// The value at the start of `vs`, and what follows it: a quoted value runs
/// to the matching quote (or the end), an unquoted one to the next
/// whitespace.
pub open spec fn option_value(vs: Seq<char>) -> (Seq<char>, Seq<char>) {
    if vs.len() > 0 && (vs[0] == '"' || vs[0] == '\'') {
        let inner = vs.drop_first();
        match index_of_char(inner, vs[0]) {
            Some(e) => (inner.take(e), inner.skip(e + 1)),
            None => (inner, seq![]),
        }
    } else {
        match index_of_ws(vs) {
            Some(e) => (vs.take(e), vs.skip(e)),
            None => (vs, seq![]),
        }
    }
}

/// The `KEY=value` pairs of an options text, from its start; pairs with an
/// empty value are dropped, and reading stops at a missing `=` or an empty
/// key.
pub open spec fn options_from(rest: Seq<char>) -> Seq<(Seq<char>, Seq<char>)>
    decreases rest.len(),
{
    if rest.len() == 0 {
        seq![]
    } else {
        match index_of_char(rest, '=') {
            None => seq![],
            Some(eq) => {
                let key = trim(rest.take(eq));
                if key.len() == 0 || !(0 <= eq < rest.len()) {
                    seq![]
                } else {
                    let vs = trim_start(rest.skip(eq + 1));
                    let (value, after) = option_value(vs);
                    proof {
                        lemma_option_value_shrinks(rest.skip(eq + 1));
                        lemma_trim_start_suffix(after);
                    }
                    let tail = options_from(trim_start(after));
                    if value.len() > 0 {
                        seq![(key, value)] + tail
                    } else {
                        tail
                    }
                }
            },
        }
    }
}

/// The options of an options text.
pub open spec fn parse_options(options: Seq<char>) -> Seq<(Seq<char>, Seq<char>)> {
    options_from(trim(options))
}

/// What a source line says, before it becomes an entry.
pub struct SpecSourceLine {
    pub url: Seq<char>,
    pub user_agent: Option<Seq<char>>,
    pub iptv_source: Option<Seq<char>>,
    pub iptv_restricted: bool,
}

/// One option applied to a source line: `UA`, `UserAgent` and `User-Agent`
/// set the user agent; `IPTV`, `IPTV_SOURCE` and `IPTV-SOURCE` set an
/// operator label that restricts the source; `SOURCE` sets a label without
/// restricting. Keys are case-insensitive; other keys are ignored.
pub open spec fn apply_option(p: SpecSourceLine, kv: (Seq<char>, Seq<char>)) -> SpecSourceLine {
    let k = ascii_lower_seq(kv.0);
    if k == "ua"@ || k == "useragent"@ || k == "user-agent"@ {
        SpecSourceLine { user_agent: Some(kv.1), ..p }
    } else if k == "iptv"@ || k == "iptv_source"@ || k == "iptv-source"@ {
        SpecSourceLine { iptv_source: Some(kv.1), iptv_restricted: true, ..p }
    } else if k == "source"@ {
        SpecSourceLine { iptv_source: Some(kv.1), ..p }
    } else {
        p
    }
}

/// Options applied in order.
pub open spec fn apply_options(p: SpecSourceLine, kvs: Seq<(Seq<char>, Seq<char>)>) -> SpecSourceLine
    decreases kvs.len(),
{
    if kvs.len() == 0 {
        p
    } else {
        apply_option(apply_options(p, kvs.drop_last()), kvs.last())
    }
}

/// A source line read: its address and options.
pub open spec fn spec_parse_source_line(line: Seq<char>) -> SpecSourceLine {
    let l = trim(line);
    match split_url_opts(l) {
        None => SpecSourceLine { url: l, user_agent: None, iptv_source: None, iptv_restricted: false },
        Some((url, opts)) => apply_options(
            SpecSourceLine { url, user_agent: None, iptv_source: None, iptv_restricted: false },
            parse_options(opts),
        ),
    }
}

/// The line without its leading `#` characters.
pub open spec fn trim_start_hashes(s: Seq<char>) -> Seq<char>
    decreases s.len(),
{
    if s.len() > 0 && s[0] == '#' {
        trim_start_hashes(s.drop_first())
    } else {
        s
    }
}

/// The state of reading a source list: the current section and the entries
/// so far.
pub open spec fn source_step(
    st: (SourceSection, Seq<SpecSourceEntry>),
    raw: Seq<char>,
) -> (SourceSection, Seq<SpecSourceEntry>) {
    let line = trim(raw);
    if line.len() == 0 {
        st
    } else if eq_ignore_ascii_case(line, "[WHITELIST]"@) {
        (SourceSection::Whitelist, st.1)
    } else {
        let enabled = !starts_with(line, "#"@);
        let l = if enabled {
            line
        } else {
            trim(trim_start_hashes(line))
        };
        if !enabled && (l.len() == 0 || !spec_looks_like_source_line(l)) {
            st
        } else if starts_with(l, "#"@) || !spec_looks_like_source_line(l) {
            st
        } else {
            let p = spec_parse_source_line(l);
            if p.url.len() == 0 {
                st
            } else {
                (
                    st.0,
                    st.1.push(
                        SpecSourceEntry {
                            url: p.url,
                            user_agent: p.user_agent,
                            iptv_source: p.iptv_source,
                            iptv_restricted: p.iptv_restricted,
                            section: st.0,
                            enabled,
                        },
                    ),
                )
            }
        }
    }
}

/// The lines of a source list read in order.
pub open spec fn source_fold(ls: Seq<Seq<char>>) -> (SourceSection, Seq<SpecSourceEntry>)
    decreases ls.len(),
{
    if ls.len() == 0 {
        (SourceSection::Default, seq![])
    } else {
        source_step(source_fold(ls.drop_last()), ls.last())
    }
}

/// The entries of a source list.
pub open spec fn spec_parse_source_list(text: Seq<char>) -> Seq<SpecSourceEntry> {
    source_fold(lines(text)).1
}

// ---------------------------------------------------------------------------
// Lemmas
// ---------------------------------------------------------------------------

pub proof fn lemma_trim_start_suffix(s: Seq<char>)
    ensures
        trim_start(s).len() <= s.len(),
        trim_start(s) == s.skip(s.len() - trim_start(s).len()),
    decreases s.len(),
{
    if s.len() > 0 && is_ws(s[0]) {
        lemma_trim_start_suffix(s.drop_first());
        assert(s.drop_first().skip(s.drop_first().len() - trim_start(s).len()) =~= s.skip(
            s.len() - trim_start(s).len(),
        ));
    } else {
        assert(s.skip(0) =~= s);
    }
}

pub proof fn lemma_index_of_ws(s: Seq<char>, k: int)
    requires
        0 <= k <= s.len(),
        forall|j: int| 0 <= j < k ==> !is_ws(#[trigger] s[j]),
    ensures
        k < s.len() && is_ws(s[k]) ==> index_of_ws(s) == Some(k),
        k == s.len() ==> index_of_ws(s) is None,
    decreases k,
{
    if k > 0 {
        lemma_index_of_ws(s.drop_first(), k - 1);
    }
}

pub proof fn lemma_index_of_ws_bounds(s: Seq<char>)
    ensures
        index_of_ws(s) matches Some(i) ==> 0 <= i < s.len(),
    decreases s.len(),
{
    if s.len() > 0 {
        lemma_index_of_ws_bounds(s.drop_first());
    }
}

/// What follows an option value is shorter than the text after the `=`.
pub proof fn lemma_option_value_shrinks(r: Seq<char>)
    ensures
        option_value(trim_start(r)).1.len() <= r.len(),
{
    lemma_trim_start_suffix(r);
    let vs = trim_start(r);
    if vs.len() > 0 && (vs[0] == '"' || vs[0] == '\'') {
        lemma_index_of_char_bounds(vs.drop_first(), vs[0]);
    } else {
        lemma_index_of_ws_bounds(vs);
    }
}

// ---------------------------------------------------------------------------
// Executable code
// ---------------------------------------------------------------------------

fn index_of_ws_exec(s: &[char]) -> (r: Option<usize>)
    ensures
        r matches Some(k) ==> index_of_ws(s@) == Some(k as int),
        r is None ==> index_of_ws(s@) is None,
{
    let mut i: usize = 0;
    while i < s.len()
        invariant
            i <= s@.len(),
            forall|j: int| 0 <= j < i ==> !is_ws(#[trigger] s@[j]),
        decreases s@.len() - i,
    {
        if is_ws_char(s[i]) {
            proof {
                lemma_index_of_ws(s@, i as int);
            }
            return Some(i);
        }
        i = i + 1;
    }
    proof {
        lemma_index_of_ws(s@, i as int);
    }
    None
}

fn first_word_exec(s: &[char]) -> (r: Vec<char>)
    ensures
        r@ == first_word(s@),
{
    let t = trim_start_chars(s);
    proof {
        lemma_index_of_ws_bounds(t@);
    }
    match index_of_ws_exec(t.as_slice()) {
        Some(i) => {
            let r = subvec(t.as_slice(), 0, i);
            assert(r@ =~= t@.take(i as int));
            r
        },
        None => t,
    }
}

fn eq_lit(a: &[char], lit: &str) -> (r: bool)
    ensures
        r == (a@ == lit@),
{
    let l = chars_of(lit);
    eq_chars(a, l.as_slice())
}

fn starts_with_lit(a: &[char], lit: &str) -> (r: bool)
    ensures
        r == starts_with(a@, lit@),
{
    let l = chars_of(lit);
    starts_with_exec(a, l.as_slice())
}

/// `Path::file_name` of a path written with `/`.
pub fn file_name_exec(p: &[char]) -> (r: Option<Vec<char>>)
    ensures
        r matches Some(v) ==> file_name(p@) == Some(v@),
        r is None ==> file_name(p@) is None,
{
    let pieces = split_char_exec(p, '/');
    let ghost pv = views(pieces@);
    let mut i: usize = pieces.len();
    assert(pv.take(pv.len() as int) =~= pv);
    while i > 0
        invariant
            i <= pieces@.len(),
            pv == views(pieces@),
            pv == split_char(p@, '/'),
            last_component(pv) == last_component(pv.take(i as int)),
        decreases i,
    {
        let piece = &pieces[i - 1];
        proof {
            assert(pv.take(i as int).drop_last() =~= pv.take(i - 1));
            assert(pv.take(i as int).last() == piece@);
        }
        if piece.len() > 0 && !eq_lit(piece.as_slice(), ".") {
            assert(last_component(pv.take(i as int)) == Some(piece@));
            if eq_lit(piece.as_slice(), "..") {
                return None;
            }
            let r = subvec(piece.as_slice(), 0, piece.len());
            assert(r@ =~= piece@);
            return Some(r);
        }
        i = i - 1;
    }
    assert(pv.take(0) =~= Seq::<Seq<char>>::empty());
    assert(pv.take(pv.len() as int) =~= pv);
    None
}

/// `Path::extension` of a path written with `/`.
pub fn extension_exec(p: &[char]) -> (r: Option<Vec<char>>)
    ensures
        r matches Some(v) ==> extension(p@) == Some(v@),
        r is None ==> extension(p@) is None,
{
    match file_name_exec(p) {
        Some(f) => {
            proof {
                lemma_last_index_of_char_bounds(f@, '.');
            }
            match last_index_of_char_exec(f.as_slice(), '.') {
                Some(i) => {
                    if i == 0 {
                        None
                    } else {
                        let e = subvec(f.as_slice(), i + 1, f.len());
                        assert(e@ =~= f@.skip(i + 1));
                        Some(e)
                    }
                },
                None => None,
            }
        },
        None => None,
    }
}

fn has_known_source_extension(path: &[char]) -> (b: bool)
    ensures
        b == (extension(path@) matches Some(e) && known_extension(e)),
{
    match extension_exec(path) {
        Some(e) => {
            let l = ascii_lower_exec(e.as_slice());
            let ls = l.as_slice();
            eq_lit(ls, "txt") || eq_lit(ls, "m3u") || eq_lit(ls, "m3u8") || eq_lit(ls, "xml")
                || eq_lit(ls, "gz")
        },
        None => false,
    }
}

fn looks_like_source_line(line: &[char]) -> (b: bool)
    ensures
        b == spec_looks_like_source_line(line@),
{
    let w = first_word_exec(line);
    let p = w.as_slice();
    starts_with_lit(p, "http://") || starts_with_lit(p, "https://") || starts_with_lit(
        p,
        "file://",
    ) || starts_with_lit(p, "/") || starts_with_lit(p, "./") || starts_with_lit(p, "../")
        || has_known_source_extension(p)
}

fn is_ascii_ws_char(c: char) -> (b: bool)
    ensures
        b == is_ascii_ws(c),
{
    c == ' ' || c == '\t' || c == '\n' || c == '\u{0C}' || c == '\r'
}

fn option_key_ok_exec(rest: &[char]) -> (b: bool)
    ensures
        b == option_key_ok(rest@),
{
    match split_once_exec(rest, '=') {
        Some(pair) => {
            let k = pair.0;
            let mut i: usize = 0;
            while i < k.len()
                invariant
                    i <= k@.len(),
                    split_once(rest@, '=') matches Some(q) && q.0 == k@,
                    forall|j: int| 0 <= j < i ==> is_key_char(#[trigger] k@[j]),
                decreases k@.len() - i,
            {
                let c = k[i];
                let u = c as u32;
                if !((48 <= u && u <= 57) || (65 <= u && u <= 90) || (97 <= u && u <= 122) || c
                    == '_' || c == '-') {
                    assert(!is_key_char(k@[i as int]));
                    return false;
                }
                i = i + 1;
            }
            true
        },
        None => false,
    }
}

/// The address part and the options part of a source line.
fn split_url_and_options(line: &[char]) -> (r: Option<(Vec<char>, Vec<char>)>)
    ensures
        r matches Some(p) ==> split_url_opts(line@) == Some((p.0@, p.1@)),
        r is None ==> split_url_opts(line@) is None,
{
    let mut index: usize = 0;
    while index < line.len()
        invariant
            index <= line@.len(),
            split_url_opts(line@) == split_url_opts_from(line@, index as int),
        decreases line@.len() - index,
    {
        if is_ascii_ws_char(line[index]) {
            let tail = subvec(line, index, line.len());
            assert(tail@ =~= line@.skip(index as int));
            let rest = trim_start_chars(tail.as_slice());
            if option_key_ok_exec(rest.as_slice()) {
                let head = subvec(line, 0, index);
                assert(head@ =~= line@.take(index as int));
                let url = trim_chars(head.as_slice());
                return Some((url, rest));
            }
        }
        index = index + 1;
    }
    None
}

fn option_value_exec(vs: &[char]) -> (r: (Vec<char>, Vec<char>))
    ensures
        (r.0@, r.1@) == option_value(vs@),
{
    if vs.len() > 0 && (vs[0] == '"' || vs[0] == '\'') {
        let quote = vs[0];
        let inner = subvec(vs, 1, vs.len());
        assert(inner@ =~= vs@.drop_first());
        proof {
            lemma_index_of_char_bounds(inner@, quote);
        }
        match index_of_char_exec(inner.as_slice(), quote) {
            Some(e) => {
                let v = subvec(inner.as_slice(), 0, e);
                let a = subvec(inner.as_slice(), e + 1, inner.len());
                assert(v@ =~= inner@.take(e as int));
                assert(a@ =~= inner@.skip(e + 1));
                (v, a)
            },
            None => (inner, Vec::new()),
        }
    } else {
        proof {
            lemma_index_of_ws_bounds(vs@);
        }
        match index_of_ws_exec(vs) {
            Some(e) => {
                let v = subvec(vs, 0, e);
                let a = subvec(vs, e, vs.len());
                assert(v@ =~= vs@.take(e as int));
                assert(a@ =~= vs@.skip(e as int));
                (v, a)
            },
            None => (subvec(vs, 0, vs.len()), Vec::new()),
        }
    }
}

/// The views of option pairs.
pub open spec fn pair_views(v: Seq<(Vec<char>, Vec<char>)>) -> Seq<(Seq<char>, Seq<char>)> {
    v.map_values(|p: (Vec<char>, Vec<char>)| (p.0@, p.1@))
}

/// The `KEY=value` pairs of an options text.
fn parse_options_exec(options: &[char]) -> (r: Vec<(Vec<char>, Vec<char>)>)
    ensures
        pair_views(r@) == parse_options(options@),
{
    let mut pairs: Vec<(Vec<char>, Vec<char>)> = Vec::new();
    let mut rest = trim_chars(options);
    loop
        invariant
            parse_options(options@) == pair_views(pairs@) + options_from(rest@),
        ensures
            parse_options(options@) == pair_views(pairs@) + options_from(rest@),
            options_from(rest@) == Seq::<(Seq<char>, Seq<char>)>::empty(),
        decreases rest@.len(),
    {
        if rest.len() == 0 {
            assert(options_from(rest@) =~= Seq::<(Seq<char>, Seq<char>)>::empty());
            break ;
        }
        proof {
            lemma_index_of_char_bounds(rest@, '=');
        }
        let eq_index = match index_of_char_exec(rest.as_slice(), '=') {
            Some(i) => i,
            None => {
                assert(options_from(rest@) =~= Seq::<(Seq<char>, Seq<char>)>::empty());
                break ;
            },
        };
        let kraw = subvec(rest.as_slice(), 0, eq_index);
        assert(kraw@ =~= rest@.take(eq_index as int));
        let key = trim_chars(kraw.as_slice());
        if key.len() == 0 {
            assert(options_from(rest@) =~= Seq::<(Seq<char>, Seq<char>)>::empty());
            break ;
        }
        let after_eq = subvec(rest.as_slice(), eq_index + 1, rest.len());
        assert(after_eq@ =~= rest@.skip(eq_index + 1));
        let vs = trim_start_chars(after_eq.as_slice());
        let (value, after) = option_value_exec(vs.as_slice());
        proof {
            lemma_option_value_shrinks(rest@.skip(eq_index + 1));
            lemma_trim_start_suffix(after@);
        }
        let next = trim_start_chars(after.as_slice());
        let ghost old_pairs = pair_views(pairs@);
        if value.len() > 0 {
            pairs.push((key, value));
            assert(pair_views(pairs@) =~= old_pairs.push((key@, value@)));
            assert(old_pairs + (seq![(key@, value@)] + options_from(next@)) =~= pair_views(pairs@)
                + options_from(next@));
        }
        rest = next;
    }
    assert(pair_views(pairs@) + Seq::<(Seq<char>, Seq<char>)>::empty() =~= pair_views(pairs@));
    pairs
}

/// What a source line says.
struct ParsedSourceLine {
    url: Vec<char>,
    user_agent: Option<Vec<char>>,
    iptv_source: Option<Vec<char>>,
    iptv_restricted: bool,
}

spec fn opt_chars(o: Option<Vec<char>>) -> Option<Seq<char>> {
    match o {
        Some(v) => Some(v@),
        None => None,
    }
}

spec fn parsed_line_view(p: ParsedSourceLine) -> SpecSourceLine {
    SpecSourceLine {
        url: p.url@,
        user_agent: opt_chars(p.user_agent),
        iptv_source: opt_chars(p.iptv_source),
        iptv_restricted: p.iptv_restricted,
    }
}

fn copy_chars(v: &Vec<char>) -> (r: Vec<char>)
    ensures
        r@ == v@,
{
    subvec(v.as_slice(), 0, v.len())
}

fn parse_source_line(line: &[char]) -> (r: ParsedSourceLine)
    ensures
        parsed_line_view(r) == spec_parse_source_line(line@),
{
    let l = trim_chars(line);
    match split_url_and_options(l.as_slice()) {
        None => ParsedSourceLine { url: l, user_agent: None, iptv_source: None, iptv_restricted: false },
        Some((url, options)) => {
            let ghost init = SpecSourceLine {
                url: url@,
                user_agent: None,
                iptv_source: None,
                iptv_restricted: false,
            };
            let mut parsed = ParsedSourceLine {
                url,
                user_agent: None,
                iptv_source: None,
                iptv_restricted: false,
            };
            let pairs = parse_options_exec(options.as_slice());
            let ghost pv = pair_views(pairs@);
            let mut i: usize = 0;
            assert(pv.take(0) =~= Seq::<(Seq<char>, Seq<char>)>::empty());
            while i < pairs.len()
                invariant
                    i <= pairs@.len(),
                    pv == pair_views(pairs@),
                    parsed_line_view(parsed) == apply_options(init, pv.take(i as int)),
                decreases pairs@.len() - i,
            {
                let key = ascii_lower_exec(pairs[i].0.as_slice());
                let value = copy_chars(&pairs[i].1);
                let k = key.as_slice();
                proof {
                    assert(pv.take(i + 1).drop_last() =~= pv.take(i as int));
                    assert(pv.take(i + 1).last() == (pairs@[i as int].0@, pairs@[i as int].1@));
                }
                if eq_lit(k, "ua") || eq_lit(k, "useragent") || eq_lit(k, "user-agent") {
                    parsed.user_agent = Some(value);
                } else if eq_lit(k, "iptv") || eq_lit(k, "iptv_source") || eq_lit(
                    k,
                    "iptv-source",
                ) {
                    parsed.iptv_source = Some(value);
                    parsed.iptv_restricted = true;
                } else if eq_lit(k, "source") {
                    parsed.iptv_source = Some(value);
                }
                i = i + 1;
            }
            assert(pv.take(pv.len() as int) =~= pv);
            parsed
        },
    }
}

fn strip_hashes(s: &[char]) -> (r: Vec<char>)
    ensures
        r@ == trim_start_hashes(s@),
{
    let mut a: usize = 0;
    assert(s@.skip(0) =~= s@);
    while a < s.len() && s[a] == '#'
        invariant
            a <= s@.len(),
            trim_start_hashes(s@) == trim_start_hashes(s@.skip(a as int)),
        decreases s@.len() - a,
    {
        assert(s@.skip(a as int).drop_first() =~= s@.skip(a + 1));
        a = a + 1;
    }
    let r = subvec(s, a, s.len());
    assert(r@ =~= s@.skip(a as int));
    r
}

fn to_string_opt(o: Option<Vec<char>>) -> (r: Option<String>)
    ensures
        opt_view(r) == opt_chars(o),
{
    match o {
        Some(v) => Some(string_from_chars(v.as_slice())),
        None => None,
    }
}

/// The entries of a source list.
pub fn parse_source_list(text: &str) -> (entries: Vec<SourceEntry>)
    ensures
        entry_views(entries@) == spec_parse_source_list(text@),
{
    let chars = chars_of(text);
    let ls = lines_exec(chars.as_slice());
    let ghost lv = views(ls@);
    let mut section = SourceSection::Default;
    let mut entries: Vec<SourceEntry> = Vec::new();
    let mut i: usize = 0;
    assert(lv.take(0) =~= Seq::<Seq<char>>::empty());
    assert(entry_views(entries@) =~= Seq::<SpecSourceEntry>::empty());
    while i < ls.len()
        invariant
            i <= ls@.len(),
            lv == views(ls@),
            source_fold(lv.take(i as int)) == (section, entry_views(entries@)),
        decreases ls@.len() - i,
    {
        proof {
            assert(lv.take(i + 1).drop_last() =~= lv.take(i as int));
            assert(lv.take(i + 1).last() == ls@[i as int]@);
        }
        let line = trim_chars(ls[i].as_slice());
        i = i + 1;
        if line.len() == 0 {
            continue;
        }
        let wl = chars_of("[WHITELIST]");
        if eq_ignore_ascii_case_exec(line.as_slice(), wl.as_slice()) {
            section = SourceSection::Whitelist;
            continue;
        }
        let enabled = !starts_with_lit(line.as_slice(), "#");
        let l = if enabled {
            line
        } else {
            let h = strip_hashes(line.as_slice());
            trim_chars(h.as_slice())
        };
        if !enabled && (l.len() == 0 || !looks_like_source_line(l.as_slice())) {
            continue;
        }
        if starts_with_lit(l.as_slice(), "#") || !looks_like_source_line(l.as_slice()) {
            continue;
        }
        let parsed = parse_source_line(l.as_slice());
        if parsed.url.len() > 0 {
            let e = SourceEntry {
                url: string_from_chars(parsed.url.as_slice()),
                user_agent: to_string_opt(parsed.user_agent),
                iptv_source: to_string_opt(parsed.iptv_source),
                iptv_restricted: parsed.iptv_restricted,
                section,
                enabled,
            };
            let ghost old_e = entry_views(entries@);
            entries.push(e);
            assert(entry_views(entries@) =~= old_e.push(e@));
        }
    }
    assert(lv.take(lv.len() as int) =~= lv);
    entries
}

/// The file extensions that mark a source file, in any case: `txt`, `m3u`,
/// `m3u8`, `xml` and `gz`.
pub open spec fn source_file_extension(e: Seq<char>) -> bool {
    let lower = ascii_lower_seq(e);
    ||| lower == "txt"@
    ||| lower == "m3u"@
    ||| lower == "m3u8"@
    ||| lower == "xml"@
    ||| lower == "gz"@
}

proof fn lemma_source_extension_chars(e: Seq<char>)
    requires
        source_file_extension(e),
    ensures
        e.len() > 0,
        forall|j: int| 0 <= j < e.len() ==> #[trigger] e[j] != '.' && e[j] != '/',
        ascii_lower(e.last()) != ']',
{
    reveal_strlit("txt");
    reveal_strlit("m3u");
    reveal_strlit("m3u8");
    reveal_strlit("xml");
    reveal_strlit("gz");
    let lower = ascii_lower_seq(e);
    assert(lower.len() == e.len());
    assert forall|j: int| 0 <= j < e.len() implies #[trigger] e[j] != '.' && e[j] != '/' by {
        assert(lower[j] == ascii_lower(e[j]));
    }
    assert(lower[e.len() - 1] == ascii_lower(e.last()));
}

proof fn lemma_no_ascii_ws_split(line: Seq<char>, i: int)
    requires
        0 <= i,
        forall|j: int| 0 <= j < line.len() ==> !is_ws(#[trigger] line[j]),
    ensures
        split_url_opts_from(line, i) is None,
    decreases line.len() - i,
{
    if i < line.len() {
        assert(!is_ws(line[i]));
        lemma_no_ascii_ws_split(line, i + 1);
    }
}

/// Law: a line that is just a path to a file with a source extension
/// (`txt`, `m3u`, `m3u8`, `xml` or `gz`, in any case) is read as one
/// enabled source with that path. The path is `dir` (empty, or ending in
/// `/`) followed by a non-empty file stem without `/`, a dot and the
/// extension, and holds no whitespace and no `#`.
pub proof fn law_source_extension_paths_are_sources(dir: Seq<char>, stem: Seq<char>, e: Seq<char>)
    requires
        source_file_extension(e),
        dir.len() == 0 || dir.last() == '/',
        stem.len() > 0,
        forall|j: int| 0 <= j < stem.len() ==> #[trigger] stem[j] != '/',
        forall|j: int|
            0 <= j < (dir + stem + "."@ + e).len() ==> !is_ws(#[trigger] (dir + stem + "."@ + e)[j])
                && (dir + stem + "."@ + e)[j] != '#',
    ensures
        ({
            let p = dir + stem + "."@ + e;
            let r = spec_parse_source_list(p + seq!['\n']);
            &&& r.len() == 1
            &&& r[0].url == p
            &&& r[0].enabled
            &&& r[0].section == SourceSection::Default
            &&& r[0].iptv_source is None
        }),
{
    reveal_strlit(".");
    reveal_strlit("..");
    reveal_strlit("#");
    reveal_strlit("[WHITELIST]");
    lemma_source_extension_chars(e);
    let f = stem + "."@ + e;
    let p = dir + stem + "."@ + e;
    assert(p =~= dir + f);
    assert(p.len() > 0);
    assert(p.last() == e.last());
    assert(!is_ws(p[0]));
    assert(!is_ws(p[p.len() - 1]));
    // One line.
    assert forall|j: int| 0 <= j < p.len() implies #[trigger] p[j] != '\n' by {
        assert(!is_ws(p[j]));
    }
    lemma_lines_single_terminated(p);
    assert(seq![p].drop_last() =~= Seq::<Seq<char>>::empty());
    let st0: (SourceSection, Seq<SpecSourceEntry>) = (SourceSection::Default, seq![]);
    assert(source_fold(Seq::<Seq<char>>::empty()) == st0);
    assert(source_fold(seq![p]) == source_step(st0, p));
    lemma_trim_unchanged(p);
    // Not the whitelist heading: the last characters differ.
    assert(!eq_ignore_ascii_case(p, "[WHITELIST]"@)) by {
        let w = "[WHITELIST]"@;
        assert(w.len() == 11);
        assert(w[10] == ']');
        assert(ascii_lower(']') == ']');
        if ascii_lower_seq(p) == ascii_lower_seq(w) {
            assert(ascii_lower_seq(p).len() == p.len());
            assert(ascii_lower_seq(w).len() == w.len());
            assert(p.len() == 11);
            assert(ascii_lower_seq(p)[10] == ascii_lower(p[10]));
            assert(ascii_lower_seq(w)[10] == ascii_lower(w[10]));
            assert(p[10] == e.last());
        }
    }
    assert(!starts_with(p, "#"@)) by {
        if starts_with(p, "#"@) {
            assert(p.take(1)[0] == p[0]);
        }
    }
    // The first word is the whole path.
    lemma_trim_start_skip(p, 0);
    assert(p.skip(0) =~= p);
    lemma_index_of_ws(p, p.len() as int);
    assert(first_word(p) == p);
    // Its file name is `stem.e`, and its extension `e`.
    assert forall|j: int| 0 <= j < f.len() implies #[trigger] f[j] != '/' by {
        if j < stem.len() {
            assert(f[j] == stem[j]);
        } else if j > stem.len() {
            assert(f[j] == e[j - stem.len() - 1]);
        } else {
            assert(f[j] == '.');
        }
    }
    if dir.len() == 0 {
        assert(p =~= f);
        lemma_split_char_none(f, '/');
    } else {
        assert(p =~= dir.drop_last() + seq!['/'] + f);
        lemma_split_char_last(dir.drop_last(), '/', f);
    }
    let ps = split_char(p, '/');
    assert(ps.len() > 0 && ps.last() == f);
    assert(f.len() >= 3);
    assert(last_component(ps) == Some(f));
    assert(file_name(p) == Some(f));
    let k = stem.len() as int;
    assert(f[k] == '.');
    assert forall|j: int| k + 1 <= j < f.len() implies #[trigger] f[j] != '.' by {
        assert(f[j] == e[j - k - 1]);
    }
    lemma_last_index_of_char(f, '.', k + 1);
    assert(f.skip(k + 1) =~= e);
    assert(extension(p) == Some(e));
    assert(known_extension(e));
    assert(spec_looks_like_source_line(p));
    // No options follow the address.
    lemma_no_ascii_ws_split(p, 0);
    assert(spec_parse_source_line(p).url == p);
}


// ---------------------------------------------------------------------------
// Disabling an entry
// ---------------------------------------------------------------------------

/// One line read while disabling the entry with address `url`: the first
/// line not commented out whose entry has that address gets a `#` in front.
pub open spec fn disable_step(st: (Seq<Seq<char>>, bool), raw: Seq<char>, url: Seq<char>) -> (
    Seq<Seq<char>>,
    bool,
) {
    let trimmed = trim(raw);
    if !st.1 && !starts_with(trimmed, "#"@) && spec_parse_source_line(trimmed).url == url {
        (st.0.push(seq!['#'] + raw), true)
    } else {
        (st.0.push(raw), st.1)
    }
}

/// The lines read in order while disabling the entry with address `url`,
/// and whether one was disabled.
pub open spec fn disable_fold(ls: Seq<Seq<char>>, url: Seq<char>) -> (Seq<Seq<char>>, bool)
    decreases ls.len(),
{
    if ls.len() == 0 {
        (seq![], false)
    } else {
        disable_step(disable_fold(ls.drop_last(), url), ls.last(), url)
    }
}

/// Lines joined with `\n` between them.
pub open spec fn join_lines_nl(ls: Seq<Seq<char>>) -> Seq<char>
    decreases ls.len(),
{
    if ls.len() == 0 {
        seq![]
    } else if ls.len() == 1 {
        ls[0]
    } else {
        join_lines_nl(ls.drop_last()) + seq!['\n'] + ls.last()
    }
}

/// The text of a source list with the entry of address `url` commented
/// out, or `None` when no entry has that address. The lines are joined with
/// `\n`, with a final line break when the text had one.
pub open spec fn spec_disable_source_text(text: Seq<char>, url: Seq<char>) -> Option<Seq<char>> {
    let r = disable_fold(lines(text), url);
    if !r.1 {
        None
    } else {
        Some(
            join_lines_nl(r.0) + if ends_with(text, "\n"@) {
                seq!['\n']
            } else {
                seq![]
            },
        )
    }
}

/// The text of a source list with the entry of address `url` commented
/// out; `None` when no entry has that address.
pub fn disable_source_text(text: &str, url: &str) -> (r: Option<String>)
    ensures
        r matches Some(t) ==> spec_disable_source_text(text@, url@) == Some(t@),
        r is None ==> spec_disable_source_text(text@, url@) is None,
{
    let chars = chars_of(text);
    let u = chars_of(url);
    let ls = lines_exec(chars.as_slice());
    let ghost lv = views(ls@);
    let mut out: Vec<char> = Vec::new();
    let mut changed = false;
    let ghost mut acc: Seq<Seq<char>> = seq![];
    let mut i: usize = 0;
    assert(lv.take(0) =~= Seq::<Seq<char>>::empty());
    while i < ls.len()
        invariant
            i <= ls@.len(),
            lv == views(ls@),
            (acc, changed) == disable_fold(lv.take(i as int), u@),
            acc.len() == i,
            out@ == join_lines_nl(acc),
            u@ == url@,
        decreases ls@.len() - i,
    {
        assert(lv.take(i + 1).drop_last() =~= lv.take(i as int));
        assert(lv.take(i + 1).last() == ls@[i as int]@);
        let raw = &ls[i];
        let trimmed = trim_chars(raw.as_slice());
        let mut line: Vec<char> = Vec::new();
        if !changed && !starts_with_lit(trimmed.as_slice(), "#") && eq_chars(
            parse_source_line(trimmed.as_slice()).url.as_slice(),
            u.as_slice(),
        ) {
            line.push('#');
            changed = true;
        }
        append_chars(&mut line, raw.as_slice());
        let ghost prev = acc;
        if i > 0 {
            out.push('\n');
        }
        append_chars(&mut out, line.as_slice());
        proof {
            acc = acc.push(line@);
            assert(acc.drop_last() =~= prev);
            if i == 0 {
                assert(out@ =~= acc[0]);
            } else {
                assert(out@ =~= join_lines_nl(prev) + seq!['\n'] + line@);
            }
        }
        i = i + 1;
    }
    assert(lv.take(lv.len() as int) =~= lv);
    if !changed {
        return None;
    }
    let nl = chars_of("\n");
    if ends_with_exec(chars.as_slice(), nl.as_slice()) {
        out.push('\n');
    }
    Some(string_from_chars(out.as_slice()))
}

} // verus!
