//! The HTTP service's decisions: which file or generated playlist a request
//! path names, how the request line and its `iptv` query are read, the
//! settings for a generated playlist, and the text of responses.
use vstd::prelude::*;
use crate::aggregate::{apply_output_preferences, limit_channel_streams, settings_fit};
use crate::config::{join_path, spec_join, Settings};
use crate::models::{channel_views, Channel};
use crate::numbers::{dec, fmt_u64, fmt_usize};
use crate::source_list::{extension, extension_exec};
use crate::text::{
    append_chars, ascii_lower_exec, ascii_lower_seq, chars_of, eq_chars, is_ws, is_ws_char,
    index_of_char, last_index_of_char, last_index_of_char_exec, lemma_index_of_char_bounds,
    lemma_last_index_of_char_bounds, lines,
    lines_exec, split_char, split_char_exec, split_once, split_once_exec, starts_with,
    starts_with_exec, string_from_chars, string_views, subvec, trim, trim_chars, trim_start,
    views,
};

verus! {

broadcast use vstd::string::group_string_axioms;

// ---------------------------------------------------------------------------
// Paths
// ---------------------------------------------------------------------------

/// The path without trailing separators and trailing `.` components.
pub open spec fn trailing_trim(p: Seq<char>) -> Seq<char>
    decreases p.len(),
{
    if p.len() > 0 && p.last() == '/' {
        trailing_trim(p.drop_last())
    } else if p.len() >= 2 && p.last() == '.' && p[p.len() - 2] == '/' {
        trailing_trim(p.drop_last())
    } else {
        p
    }
}

/// Where the last component of a path begins.
pub open spec fn last_piece_start(q: Seq<char>) -> int {
    match last_index_of_char(q, '/') {
        Some(i) => i + 1,
        None => 0,
    }
}

/// Where the stem of a file name ends: at its last `.`, unless that dot
/// begins the name.
pub open spec fn stem_end(f: Seq<char>) -> int {
    match last_index_of_char(f, '.') {
        Some(i) => if i == 0 {
            f.len() as int
        } else {
            i
        },
        None => f.len() as int,
    }
}

/// `Path::with_extension` for a path written with `/`: the file name's
/// extension replaced by `ext` (or removed when `ext` is empty); a path
/// without a file name is left as it is.
pub open spec fn spec_with_extension(p: Seq<char>, ext: Seq<char>) -> Seq<char> {
    let q = trailing_trim(p);
    let s = last_piece_start(q);
    let f = q.skip(s);
    if f.len() == 0 || f == "."@ || f == ".."@ {
        p
    } else {
        q.take(s + stem_end(f)) + if ext.len() == 0 {
            seq![]
        } else {
            seq!['.'] + ext
        }
    }
}

fn trailing_trim_exec(p: &[char]) -> (r: Vec<char>)
    ensures
        r@ == trailing_trim(p@),
{
    let n = p.len();
    let mut b: usize = n;
    assert(p@.take(n as int) =~= p@);
    while b > 0 && (p[b - 1] == '/' || (b >= 2 && p[b - 1] == '.' && p[b - 2] == '/'))
        invariant
            b <= n == p@.len(),
            trailing_trim(p@) == trailing_trim(p@.take(b as int)),
        decreases b,
    {
        assert(p@.take(b as int).drop_last() =~= p@.take(b - 1));
        b = b - 1;
    }
    let r = subvec(p, 0, b);
    assert(r@ =~= p@.take(b as int));
    r
}

/// `Path::with_extension` for a path written with `/`.
pub fn with_extension(path: &str, ext: &str) -> (r: String)
    ensures
        r@ == spec_with_extension(path@, ext@),
{
    let p = chars_of(path);
    let q = trailing_trim_exec(p.as_slice());
    proof {
        lemma_last_index_of_char_bounds(q@, '/');
    }
    let ql = q.len();
    let s = match last_index_of_char_exec(q.as_slice(), '/') {
        Some(i) => {
            assert(i < ql);
            i + 1
        },
        None => 0,
    };
    let f = subvec(q.as_slice(), s, q.len());
    assert(f@ =~= q@.skip(s as int));
    let dot = chars_of(".");
    let dotdot = chars_of("..");
    if f.len() == 0 || eq_chars(f.as_slice(), dot.as_slice()) || eq_chars(
        f.as_slice(),
        dotdot.as_slice(),
    ) {
        return path.to_owned();
    }
    proof {
        lemma_last_index_of_char_bounds(f@, '.');
    }
    let se = match last_index_of_char_exec(f.as_slice(), '.') {
        Some(i) => if i == 0 {
            f.len()
        } else {
            i
        },
        None => f.len(),
    };
    let mut out = subvec(q.as_slice(), 0, s + se);
    let e = chars_of(ext);
    if e.len() > 0 {
        out.push('.');
        append_chars(&mut out, e.as_slice());
    }
    assert(out@ =~= spec_with_extension(path@, ext@));
    string_from_chars(out.as_slice())
}

/// The components of a relative path added to `base` one by one: empty and
/// `.` components are skipped, and `..` refuses the whole path.
pub open spec fn safe_join_fold(base: Option<Seq<char>>, parts: Seq<Seq<char>>) -> Option<Seq<char>>
    decreases parts.len(),
{
    if parts.len() == 0 {
        base
    } else {
        match safe_join_fold(base, parts.drop_last()) {
            None => None,
            Some(b) => {
                let p = parts.last();
                if p.len() == 0 || p == "."@ {
                    Some(b)
                } else if p == ".."@ {
                    None
                } else {
                    Some(spec_join(b, p))
                }
            },
        }
    }
}

/// A request's relative path under `base`, refused when it is absolute or
/// climbs out with `..`.
pub open spec fn spec_safe_join(base: Seq<char>, relative: Seq<char>) -> Option<Seq<char>> {
    if starts_with(relative, "/"@) {
        None
    } else {
        safe_join_fold(Some(base), split_char(relative, '/'))
    }
}

/// A relative path under `base`; `None` when it is absolute or climbs out
/// with `..`.
pub fn safe_join(base: &str, relative: &str) -> (r: Option<String>)
    ensures
        r matches Some(p) ==> spec_safe_join(base@, relative@) == Some(p@),
        r is None ==> spec_safe_join(base@, relative@) is None,
{
    let rel = chars_of(relative);
    let slash = chars_of("/");
    if starts_with_exec(rel.as_slice(), slash.as_slice()) {
        return None;
    }
    let parts = split_char_exec(rel.as_slice(), '/');
    let ghost pv = views(parts@);
    let mut path = base.to_owned();
    let dot = chars_of(".");
    let dotdot = chars_of("..");
    let mut i: usize = 0;
    assert(pv.take(0) =~= Seq::<Seq<char>>::empty());
    while i < parts.len()
        invariant
            i <= parts@.len(),
            pv == views(parts@),
            pv == split_char(rel@, '/'),
            rel@ == relative@,
            !starts_with(relative@, "/"@),
            dot@ == "."@,
            dotdot@ == ".."@,
            safe_join_fold(Some(base@), pv.take(i as int)) == Some(path@),
        decreases parts@.len() - i,
    {
        assert(pv.take(i + 1).drop_last() =~= pv.take(i as int));
        assert(pv.take(i + 1).last() == parts@[i as int]@);
        let part = &parts[i];
        if part.len() == 0 || eq_chars(part.as_slice(), dot.as_slice()) {
        } else if eq_chars(part.as_slice(), dotdot.as_slice()) {
            proof {
                lemma_fold_none(Some(base@), pv, (i + 1) as int);
            }
            return None;
        } else {
            let ps = string_from_chars(part.as_slice());
            path = join_path(path.as_str(), ps.as_str());
        }
        i = i + 1;
    }
    assert(pv.take(pv.len() as int) =~= pv);
    Some(path)
}

/// Once refused, a path stays refused.
proof fn lemma_fold_none(base: Option<Seq<char>>, parts: Seq<Seq<char>>, k: int)
    requires
        0 <= k <= parts.len(),
        safe_join_fold(base, parts.take(k)) is None,
    ensures
        safe_join_fold(base, parts) is None,
    decreases parts.len() - k,
{
    if k < parts.len() {
        assert(parts.take(k + 1).drop_last() =~= parts.take(k));
        lemma_fold_none(base, parts, k + 1);
    } else {
        assert(parts.take(k) =~= parts);
    }
}

// ---------------------------------------------------------------------------
// Routes
// ---------------------------------------------------------------------------

/// The playlist formats generated on request.
#[derive(Debug, Clone, Copy, PartialEq, Eq, Structural)]
pub enum GeneratedFormat {
    Txt,
    M3u,
}

/// What a request path is answered with.
#[derive(Debug)]
pub enum Route {
    Health,
    Info,
    File(String),
    Generated(GeneratedFormat, Vec<String>),
    NotFound,
}

/// The mathematical value of a [`Route`].
pub enum SpecRoute {
    Health,
    Info,
    File(Seq<char>),
    Generated(GeneratedFormat, Seq<Seq<char>>),
    NotFound,
}

impl View for Route {
    type V = SpecRoute;

    open spec fn view(&self) -> SpecRoute {
        match self {
            Route::Health => SpecRoute::Health,
            Route::Info => SpecRoute::Info,
            Route::File(p) => SpecRoute::File(p@),
            Route::Generated(f, s) => SpecRoute::Generated(*f, string_views(s@)),
            Route::NotFound => SpecRoute::NotFound,
        }
    }
}

/// A file route when the path was accepted.
pub open spec fn file_or_not_found(p: Option<Seq<char>>) -> SpecRoute {
    match p {
        Some(p) => SpecRoute::File(p),
        None => SpecRoute::NotFound,
    }
}

/// The paths of the text playlist.
pub open spec fn is_txt_path(path: Seq<char>) -> bool {
    path == "/"@ || path == "/txt"@ || path == "/content"@
}

/// The route of a request path. With preferred IPTV sources the playlist
/// paths are generated for them; otherwise they name the result files. The
/// guide has its own paths, and `/output/`, `/config/logo/` and `/logo/`
/// name files under the output and logo directories.
pub open spec fn spec_resolve_route(path: Seq<char>, st: Settings, preferred: Seq<Seq<char>>) -> SpecRoute {
    let final_path = spec_join(st.root@, st.final_file@);
    let logo_dir = spec_join(st.root@, st.logo_dir@);
    if preferred.len() > 0 && is_txt_path(path) {
        SpecRoute::Generated(GeneratedFormat::Txt, preferred)
    } else if preferred.len() > 0 && path == "/m3u"@ {
        SpecRoute::Generated(GeneratedFormat::M3u, preferred)
    } else if path == "/health"@ {
        SpecRoute::Health
    } else if path == "/info"@ {
        SpecRoute::Info
    } else if is_txt_path(path) {
        SpecRoute::File(final_path)
    } else if path == "/m3u"@ {
        SpecRoute::File(spec_with_extension(final_path, "m3u"@))
    } else if path == "/epg"@ || path == "/epg/"@ || path == "/epg/epg.xml"@ {
        SpecRoute::File(spec_join(st.root@, st.epg_output_file@))
    } else if starts_with(path, "/output/"@) {
        file_or_not_found(spec_safe_join(spec_join(st.root@, "output"@), path.skip(8)))
    } else if starts_with(path, "/config/logo/"@) {
        file_or_not_found(spec_safe_join(logo_dir, path.skip(13)))
    } else if starts_with(path, "/logo/"@) {
        file_or_not_found(spec_safe_join(logo_dir, path.skip(6)))
    } else {
        SpecRoute::NotFound
    }
}

fn is_lit(a: &[char], lit: &str) -> (b: bool)
    ensures
        b == (a@ == lit@),
{
    let l = chars_of(lit);
    eq_chars(a, l.as_slice())
}

fn copy_strings(v: &Vec<String>) -> (r: Vec<String>)
    ensures
        string_views(r@) == string_views(v@),
{
    let mut r: Vec<String> = Vec::new();
    let mut i: usize = 0;
    while i < v.len()
        invariant
            i <= v@.len(),
            string_views(r@) == string_views(v@).take(i as int),
        decreases v@.len() - i,
    {
        let ghost before = string_views(r@);
        r.push(v[i].clone());
        assert(string_views(r@) =~= before.push(v@[i as int]@));
        i = i + 1;
        assert(string_views(v@).take(i as int) =~= string_views(v@).take(i - 1).push(v@[i - 1]@));
    }
    assert(string_views(v@).take(v@.len() as int) =~= string_views(v@));
    r
}

fn file_route(p: Option<String>) -> (r: Route)
    ensures
        r@ == file_or_not_found(crate::models::opt_view(p)),
{
    match p {
        Some(p) => Route::File(p),
        None => Route::NotFound,
    }
}

fn under_prefix(path: &[char], prefix: &str) -> (r: Option<String>)
    ensures
        r matches Some(s) ==> starts_with(path@, prefix@) && s@ == path@.skip(prefix@.len() as int),
        r is None ==> !starts_with(path@, prefix@),
{
    let p = chars_of(prefix);
    if starts_with_exec(path, p.as_slice()) {
        let rest = subvec(path, p.len(), path.len());
        assert(rest@ =~= path@.skip(prefix@.len() as int));
        Some(string_from_chars(rest.as_slice()))
    } else {
        None
    }
}

/// The route of a request path.
pub fn resolve_route(path: &str, settings: &Settings, preferred_sources: &Vec<String>) -> (r: Route)
    ensures
        r@ == spec_resolve_route(path@, *settings, string_views(preferred_sources@)),
{
    let p = chars_of(path);
    let ps = p.as_slice();
    let txt = is_lit(ps, "/") || is_lit(ps, "/txt") || is_lit(ps, "/content");
    if preferred_sources.len() > 0 {
        if txt {
            return Route::Generated(GeneratedFormat::Txt, copy_strings(preferred_sources));
        }
        if is_lit(ps, "/m3u") {
            return Route::Generated(GeneratedFormat::M3u, copy_strings(preferred_sources));
        }
    }
    if is_lit(ps, "/health") {
        return Route::Health;
    }
    if is_lit(ps, "/info") {
        return Route::Info;
    }
    if txt {
        return Route::File(settings.resolve(settings.final_file.as_str()));
    }
    if is_lit(ps, "/m3u") {
        let f = settings.resolve(settings.final_file.as_str());
        return Route::File(with_extension(f.as_str(), "m3u"));
    }
    if is_lit(ps, "/epg") || is_lit(ps, "/epg/") || is_lit(ps, "/epg/epg.xml") {
        return Route::File(settings.resolve(settings.epg_output_file.as_str()));
    }
    proof {
        reveal_strlit("/output/");
        reveal_strlit("/config/logo/");
        reveal_strlit("/logo/");
    }
    match under_prefix(ps, "/output/") {
        Some(rel) => {
            let base = settings.resolve("output");
            return file_route(safe_join(base.as_str(), rel.as_str()));
        },
        None => {},
    }
    match under_prefix(ps, "/config/logo/") {
        Some(rel) => {
            let base = settings.resolve(settings.logo_dir.as_str());
            return file_route(safe_join(base.as_str(), rel.as_str()));
        },
        None => {},
    }
    match under_prefix(ps, "/logo/") {
        Some(rel) => {
            let base = settings.resolve(settings.logo_dir.as_str());
            return file_route(safe_join(base.as_str(), rel.as_str()));
        },
        None => {},
    }
    Route::NotFound
}

// ---------------------------------------------------------------------------
// Requests
// ---------------------------------------------------------------------------

/// The position of the first whitespace character, or the length.
pub open spec fn first_ws(s: Seq<char>) -> int
    decreases s.len(),
{
    if s.len() == 0 {
        0
    } else if is_ws(s[0]) {
        0
    } else {
        1 + first_ws(s.drop_first())
    }
}

proof fn lemma_first_ws_at(t: Seq<char>, k: int)
    requires
        0 <= k <= t.len(),
        forall|j: int| 0 <= j < k ==> !is_ws(#[trigger] t[j]),
        k == t.len() || is_ws(t[k]),
    ensures
        first_ws(t) == k,
    decreases k,
{
    if k > 0 {
        assert forall|j: int| 0 <= j < k - 1 implies !is_ws(#[trigger] t.drop_first()[j]) by {
            assert(t.drop_first()[j] == t[j + 1]);
        }
        if k < t.len() {
            assert(t.drop_first()[k - 1] == t[k]);
        }
        lemma_first_ws_at(t.drop_first(), k - 1);
    }
}

pub proof fn lemma_first_ws_bounds(t: Seq<char>)
    ensures
        0 <= first_ws(t) <= t.len(),
        t.len() > 0 && !is_ws(t[0]) ==> first_ws(t) >= 1,
    decreases t.len(),
{
    if t.len() > 0 && !is_ws(t[0]) {
        lemma_first_ws_bounds(t.drop_first());
    }
}

pub proof fn lemma_trim_start_shape(s: Seq<char>)
    ensures
        trim_start(s).len() <= s.len(),
        trim_start(s).len() > 0 ==> !is_ws(trim_start(s)[0]),
    decreases s.len(),
{
    if s.len() > 0 && is_ws(s[0]) {
        lemma_trim_start_shape(s.drop_first());
    }
}

/// The whitespace-separated words of a text (`str::split_whitespace`).
pub open spec fn words(s: Seq<char>) -> Seq<Seq<char>>
    decreases s.len(),
{
    let t = trim_start(s);
    if t.len() == 0 {
        seq![]
    } else {
        proof {
            lemma_trim_start_shape(s);
            lemma_first_ws_bounds(t);
        }
        seq![t.take(first_ws(t))] + words(t.skip(first_ws(t)))
    }
}

fn words_exec(s: &[char]) -> (r: Vec<Vec<char>>)
    ensures
        views(r@) == words(s@),
{
    let n = s.len();
    let mut out: Vec<Vec<char>> = Vec::new();
    let mut i: usize = 0;
    assert(s@.skip(0) =~= s@);
    assert(views(out@) + words(s@) =~= words(s@));
    loop
        invariant
            i <= n == s@.len(),
            views(out@) + words(s@.skip(i as int)) == words(s@),
        decreases n - i,
    {
        let mut a: usize = i;
        while a < n && is_ws_char(s[a])
            invariant
                i <= a <= n == s@.len(),
                forall|j: int| i <= j < a ==> is_ws(#[trigger] s@[j]),
            decreases n - a,
        {
            a = a + 1;
        }
        let ghost t = s@.skip(i as int);
        proof {
            assert forall|j: int| 0 <= j < a - i implies is_ws(#[trigger] t[j]) by {
                assert(t[j] == s@[i + j]);
            }
            if a < n {
                assert(t[a - i] == s@[a as int]);
            }
            crate::text::lemma_trim_start_skip(t, a - i);
            assert(t.skip(a - i) =~= s@.skip(a as int));
        }
        if a == n {
            assert(views(out@) + Seq::<Seq<char>>::empty() =~= views(out@));
            return out;
        }
        let mut b: usize = a;
        while b < n && !is_ws_char(s[b])
            invariant
                a <= b <= n == s@.len(),
                forall|j: int| a <= j < b ==> !is_ws(#[trigger] s@[j]),
            decreases n - b,
        {
            b = b + 1;
        }
        let ghost u = s@.skip(a as int);
        proof {
            assert forall|j: int| 0 <= j < b - a implies !is_ws(#[trigger] u[j]) by {
                assert(u[j] == s@[a + j]);
            }
            if b < n {
                assert(u[b - a] == s@[b as int]);
            }
            lemma_first_ws_at(u, b - a);
            assert(u.skip(b - a) =~= s@.skip(b as int));
            assert(u.take(b - a) =~= s@.subrange(a as int, b as int));
        }
        let w = subvec(s, a, b);
        let ghost before = views(out@);
        out.push(w);
        assert(views(out@) =~= before.push(w@));
        assert(views(out@) + words(s@.skip(b as int)) =~= before + (seq![w@] + words(
            s@.skip(b as int),
        )));
        i = b;
    }
}

/// The text that `form_urlencoded::parse` reads as name and value pairs.
pub uninterp spec fn form_urlencoded_pairs(query: Seq<char>) -> Seq<(Seq<char>, Seq<char>)>;

/// The values of string pairs.
pub open spec fn pair_views(v: Seq<(String, String)>) -> Seq<(Seq<char>, Seq<char>)> {
    v.map_values(|p: (String, String)| (p.0@, p.1@))
}

/// `url::form_urlencoded::parse` on the query's bytes, with the pairs made
/// owned: the names and values of the `&`-separated pairs, percent-decoded.
/// The pairs are a function of the query, named [`form_urlencoded_pairs`];
/// how they are split and decoded is not stated.
#[verifier::external_body]
fn form_pairs(query: &str) -> (r: Vec<(String, String)>)
    ensures
        pair_views(r@) == form_urlencoded_pairs(query@),
{
    url::form_urlencoded::parse(query.as_bytes()).into_owned().collect()
}

/// A query name that selects IPTV sources.
pub open spec fn is_source_key(k: Seq<char>) -> bool {
    k == "iptv"@ || k == "source"@ || k == "iptv_source"@
}

/// The items of a comma-separated value: trimmed, in lower case, without
/// empty ones.
pub open spec fn value_items(ps: Seq<Seq<char>>) -> Seq<Seq<char>>
    decreases ps.len(),
{
    if ps.len() == 0 {
        seq![]
    } else {
        let prev = value_items(ps.drop_last());
        let p = ascii_lower_seq(trim(ps.last()));
        if p.len() > 0 {
            prev.push(p)
        } else {
            prev
        }
    }
}

/// The IPTV sources named by query pairs, in order.
pub open spec fn iptv_sources(pairs: Seq<(Seq<char>, Seq<char>)>) -> Seq<Seq<char>>
    decreases pairs.len(),
{
    if pairs.len() == 0 {
        seq![]
    } else {
        let prev = iptv_sources(pairs.drop_last());
        if is_source_key(pairs.last().0) {
            prev + value_items(split_char(pairs.last().1, ','))
        } else {
            prev
        }
    }
}

/// The IPTV sources named by decoded query pairs: the values of `iptv`,
/// `source` and `iptv_source`, split at commas.
pub fn iptv_sources_from_pairs(pairs: &Vec<(String, String)>) -> (r: Vec<String>)
    ensures
        string_views(r@) == iptv_sources(pair_views(pairs@)),
{
    let ghost pv = pair_views(pairs@);
    let mut out: Vec<String> = Vec::new();
    let mut i: usize = 0;
    assert(pv.take(0) =~= Seq::<(Seq<char>, Seq<char>)>::empty());
    assert(string_views(out@) =~= Seq::<Seq<char>>::empty());
    while i < pairs.len()
        invariant
            i <= pairs@.len(),
            pv == pair_views(pairs@),
            string_views(out@) == iptv_sources(pv.take(i as int)),
        decreases pairs@.len() - i,
    {
        assert(pv.take(i + 1).drop_last() =~= pv.take(i as int));
        assert(pv.take(i + 1).last() == (pairs@[i as int].0@, pairs@[i as int].1@));
        let key = chars_of(pairs[i].0.as_str());
        let k = key.as_slice();
        if is_lit(k, "iptv") || is_lit(k, "source") || is_lit(k, "iptv_source") {
            let parts = split_char_exec(chars_of(pairs[i].1.as_str()).as_slice(), ',');
            let ghost partv = views(parts@);
            let ghost base = string_views(out@);
            let mut j: usize = 0;
            assert(partv.take(0) =~= Seq::<Seq<char>>::empty());
            assert(base + value_items(partv.take(0)) =~= base);
            while j < parts.len()
                invariant
                    j <= parts@.len(),
                    partv == views(parts@),
                    string_views(out@) == base + value_items(partv.take(j as int)),
                decreases parts@.len() - j,
            {
                assert(partv.take(j + 1).drop_last() =~= partv.take(j as int));
                assert(partv.take(j + 1).last() == parts@[j as int]@);
                let item = ascii_lower_exec(trim_chars(parts[j].as_slice()).as_slice());
                if item.len() > 0 {
                    let ghost prev = string_views(out@);
                    out.push(string_from_chars(item.as_slice()));
                    assert(string_views(out@) =~= prev.push(item@));
                }
                j = j + 1;
            }
            assert(partv.take(partv.len() as int) =~= partv);
        }
        i = i + 1;
    }
    assert(pv.take(pv.len() as int) =~= pv);
    out
}

/// The IPTV sources named in a query string.
pub fn parse_iptv_source_prefer(query: &str) -> (r: Vec<String>)
    ensures
        string_views(r@) == iptv_sources(form_urlencoded_pairs(query@)),
{
    let pairs = form_pairs(query);
    iptv_sources_from_pairs(&pairs)
}

/// The path and the preferred IPTV sources of a request.
#[derive(Debug, Clone)]
pub struct RequestTarget {
    pub path: String,
    pub iptv_source_prefer: Vec<String>,
}

/// The target of a request: its first line must start with `GET` or `HEAD`
/// and a path; the path's query names the preferred IPTV sources.
pub open spec fn spec_parse_request_target(request: Seq<char>) -> Option<(Seq<char>, Seq<Seq<char>>)> {
    let ls = lines(request);
    if ls.len() == 0 {
        None
    } else {
        let ws = words(ls[0]);
        if ws.len() < 2 || (ws[0] != "GET"@ && ws[0] != "HEAD"@) {
            None
        } else {
            match split_once(ws[1], '?') {
                Some((path, query)) => Some((path, iptv_sources(form_urlencoded_pairs(query)))),
                None => Some((ws[1], iptv_sources(form_urlencoded_pairs(seq![])))),
            }
        }
    }
}

/// The target of a request.
pub fn parse_request_target(request: &str) -> (r: Option<RequestTarget>)
    ensures
        r matches Some(t) ==> spec_parse_request_target(request@) == Some(
            (t.path@, string_views(t.iptv_source_prefer@)),
        ),
        r is None ==> spec_parse_request_target(request@) is None,
{
    let text = chars_of(request);
    let ls = lines_exec(text.as_slice());
    if ls.len() == 0 {
        return None;
    }
    assert(views(ls@)[0] == ls@[0]@);
    let ws = words_exec(ls[0].as_slice());
    if ws.len() < 2 {
        return None;
    }
    assert(views(ws@)[0] == ws@[0]@);
    assert(views(ws@)[1] == ws@[1]@);
    if !is_lit(ws[0].as_slice(), "GET") && !is_lit(ws[0].as_slice(), "HEAD") {
        return None;
    }
    match split_once_exec(ws[1].as_slice(), '?') {
        Some((path, query)) => {
            let q = string_from_chars(query.as_slice());
            Some(
                RequestTarget {
                    path: string_from_chars(path.as_slice()),
                    iptv_source_prefer: parse_iptv_source_prefer(q.as_str()),
                },
            )
        },
        None => {
            let empty: Vec<char> = Vec::new();
            let q = string_from_chars(empty.as_slice());
            Some(
                RequestTarget {
                    path: string_from_chars(ws[1].as_slice()),
                    iptv_source_prefer: parse_iptv_source_prefer(q.as_str()),
                },
            )
        },
    }
}

// ---------------------------------------------------------------------------
// Generated playlists
// ---------------------------------------------------------------------------

/// `g` is `s` with the IPTV source filter and preference both set to
/// `preferred`.
pub open spec fn generated_from(g: Settings, s: Settings, preferred: Seq<Seq<char>>) -> bool {
    &&& g.root@ == s.root@
    &&& g.open_update == s.open_update
    &&& g.open_service == s.open_service
    &&& g.open_local == s.open_local
    &&& g.open_subscribe == s.open_subscribe
    &&& g.open_auto_disable_source == s.open_auto_disable_source
    &&& g.open_history == s.open_history
    &&& g.open_unmatch_category == s.open_unmatch_category
    &&& g.open_empty_category == s.open_empty_category
    &&& g.open_update_time == s.open_update_time
    &&& g.open_url_info == s.open_url_info
    &&& g.open_epg == s.open_epg
    &&& g.open_m3u_result == s.open_m3u_result
    &&& g.update_startup == s.update_startup
    &&& g.update_interval == s.update_interval
    &&& g.update_time_position@ == s.update_time_position@
    &&& g.nginx_http_port == s.nginx_http_port
    &&& g.public_scheme@ == s.public_scheme@
    &&& g.public_domain@ == s.public_domain@
    &&& g.public_port == s.public_port
    &&& g.source_file@ == s.source_file@
    &&& g.local_source_list_file@ == s.local_source_list_file@
    &&& g.subscribe_file@ == s.subscribe_file@
    &&& g.epg_file@ == s.epg_file@
    &&& g.alias_file@ == s.alias_file@
    &&& g.blacklist_file@ == s.blacklist_file@
    &&& g.whitelist_file@ == s.whitelist_file@
    &&& g.final_file@ == s.final_file@
    &&& g.epg_output_file@ == s.epg_output_file@
    &&& g.urls_limit == s.urls_limit
    &&& g.request_timeout == s.request_timeout
    &&& g.ipv_type@ == s.ipv_type@
    &&& string_views(g.ipv_type_prefer@) == string_views(s.ipv_type_prefer@)
    &&& string_views(g.origin_type_prefer@) == string_views(s.origin_type_prefer@)
    &&& string_views(g.iptv_source_prefer@) == preferred
    &&& string_views(g.iptv_source_filter@) == preferred
    &&& g.default_user_agent@ == s.default_user_agent@
    &&& crate::models::opt_view(g.http_proxy) == crate::models::opt_view(s.http_proxy)
    &&& g.logo_dir@ == s.logo_dir@
    &&& crate::models::opt_view(g.local_logo_base_url) == crate::models::opt_view(
        s.local_logo_base_url,
    )
    &&& crate::models::opt_view(g.logo_url) == crate::models::opt_view(s.logo_url)
    &&& g.logo_type@ == s.logo_type@
}

/// The settings of a playlist generated for preferred IPTV sources: only
/// those sources pass the filter, in that order of preference.
pub fn generated_settings(settings: &Settings, preferred_sources: &Vec<String>) -> (g: Settings)
    ensures
        generated_from(g, *settings, string_views(preferred_sources@)),
{
    Settings {
        root: settings.root.clone(),
        open_update: settings.open_update,
        open_service: settings.open_service,
        open_local: settings.open_local,
        open_subscribe: settings.open_subscribe,
        open_auto_disable_source: settings.open_auto_disable_source,
        open_history: settings.open_history,
        open_unmatch_category: settings.open_unmatch_category,
        open_empty_category: settings.open_empty_category,
        open_update_time: settings.open_update_time,
        open_url_info: settings.open_url_info,
        open_epg: settings.open_epg,
        open_m3u_result: settings.open_m3u_result,
        update_startup: settings.update_startup,
        update_interval: settings.update_interval,
        update_time_position: settings.update_time_position.clone(),
        nginx_http_port: settings.nginx_http_port,
        public_scheme: settings.public_scheme.clone(),
        public_domain: settings.public_domain.clone(),
        public_port: settings.public_port,
        source_file: settings.source_file.clone(),
        local_source_list_file: settings.local_source_list_file.clone(),
        subscribe_file: settings.subscribe_file.clone(),
        epg_file: settings.epg_file.clone(),
        alias_file: settings.alias_file.clone(),
        blacklist_file: settings.blacklist_file.clone(),
        whitelist_file: settings.whitelist_file.clone(),
        final_file: settings.final_file.clone(),
        epg_output_file: settings.epg_output_file.clone(),
        urls_limit: settings.urls_limit,
        request_timeout: settings.request_timeout,
        ipv_type: settings.ipv_type.clone(),
        ipv_type_prefer: copy_strings(&settings.ipv_type_prefer),
        origin_type_prefer: copy_strings(&settings.origin_type_prefer),
        iptv_source_prefer: copy_strings(preferred_sources),
        iptv_source_filter: copy_strings(preferred_sources),
        default_user_agent: settings.default_user_agent.clone(),
        http_proxy: crate::models::copy_opt_string(&settings.http_proxy),
        logo_dir: settings.logo_dir.clone(),
        local_logo_base_url: crate::models::copy_opt_string(&settings.local_logo_base_url),
        logo_url: crate::models::copy_opt_string(&settings.logo_url),
        logo_type: settings.logo_type.clone(),
    }
}

/// Prepares stored channels for a generated playlist: the IPTV source
/// filter and stream order of the settings, then the limit on streams.
pub fn prepare_generated_channels(channels: &mut Vec<Channel>, settings: &Settings)
    requires
        settings_fit(*settings),
    ensures
        final(channels)@.len() == crate::aggregate::preferred_channels(
            channel_views(old(channels)@),
            *settings,
        ).len(),
        forall|i: int|
            0 <= i < final(channels)@.len() ==> exists|c: crate::models::SpecChannel|
                crate::aggregate::streams_sorted_from(
                    c,
                    crate::aggregate::preferred_channels(channel_views(old(channels)@), *settings)[i],
                    *settings,
                ) && #[trigger] final(channels)@[i]@ == crate::aggregate::limited(
                    c,
                    settings.urls_limit as nat,
                ),
{
    apply_output_preferences(channels, settings);
    let ghost mid = channels@;
    limit_channel_streams(channels, settings);
    assert forall|i: int| 0 <= i < channels@.len() implies exists|c: crate::models::SpecChannel|
        crate::aggregate::streams_sorted_from(
            c,
            crate::aggregate::preferred_channels(channel_views(old(channels)@), *settings)[i],
            *settings,
        ) && #[trigger] channels@[i]@ == crate::aggregate::limited(c, settings.urls_limit as nat) by {
        assert(channels@[i]@ == crate::aggregate::limited(mid[i]@, settings.urls_limit as nat));
    }
}

// ---------------------------------------------------------------------------
// Responses
// ---------------------------------------------------------------------------

/// The content type of a file by its extension.
pub open spec fn spec_content_type(path: Seq<char>) -> Seq<char> {
    let e = match extension(path) {
        Some(e) => e,
        None => seq![],
    };
    if e == "m3u"@ || e == "m3u8"@ {
        "audio/x-mpegurl; charset=utf-8"@
    } else if e == "xml"@ {
        "application/xml; charset=utf-8"@
    } else if e == "png"@ {
        "image/png"@
    } else if e == "jpg"@ || e == "jpeg"@ {
        "image/jpeg"@
    } else if e == "webp"@ {
        "image/webp"@
    } else if e == "svg"@ {
        "image/svg+xml"@
    } else if e == "json"@ {
        "application/json; charset=utf-8"@
    } else {
        "text/plain; charset=utf-8"@
    }
}

/// The content type of a file by its extension.
pub fn content_type(path: &str) -> (r: &'static str)
    ensures
        r@ == spec_content_type(path@),
{
    let p = chars_of(path);
    let e = match extension_exec(p.as_slice()) {
        Some(e) => e,
        None => Vec::new(),
    };
    let es = e.as_slice();
    if is_lit(es, "m3u") || is_lit(es, "m3u8") {
        "audio/x-mpegurl; charset=utf-8"
    } else if is_lit(es, "xml") {
        "application/xml; charset=utf-8"
    } else if is_lit(es, "png") {
        "image/png"
    } else if is_lit(es, "jpg") || is_lit(es, "jpeg") {
        "image/jpeg"
    } else if is_lit(es, "webp") {
        "image/webp"
    } else if is_lit(es, "svg") {
        "image/svg+xml"
    } else if is_lit(es, "json") {
        "application/json; charset=utf-8"
    } else {
        "text/plain; charset=utf-8"
    }
}

/// The public address of the service; the port is left out when it is the
/// scheme's default.
pub open spec fn spec_public_base_url(st: Settings) -> Seq<char> {
    let default_port: nat = if st.public_scheme@ == "https"@ {
        443
    } else {
        80
    };
    if st.public_port as nat == default_port {
        st.public_scheme@ + "://"@ + st.public_domain@
    } else {
        st.public_scheme@ + "://"@ + st.public_domain@ + ":"@ + dec(st.public_port as nat)
    }
}

/// The public address of the service.
pub fn public_base_url(settings: &Settings) -> (r: String)
    ensures
        r@ == spec_public_base_url(*settings),
{
    let scheme = chars_of(settings.public_scheme.as_str());
    let default_port: u16 = if is_lit(scheme.as_slice(), "https") {
        443
    } else {
        80
    };
    let mut out = scheme;
    append_chars(&mut out, chars_of("://").as_slice());
    append_chars(&mut out, chars_of(settings.public_domain.as_str()).as_slice());
    if settings.public_port != default_port {
        append_chars(&mut out, chars_of(":").as_slice());
        append_chars(&mut out, fmt_u64(settings.public_port as u64).as_slice());
    }
    string_from_chars(out.as_slice())
}

/// The listing of public playlist addresses.
pub open spec fn spec_public_url_listing(st: Settings) -> Seq<char> {
    let base = spec_public_base_url(st);
    "iptv-rs\n\n/txt  "@ + base + "/txt\n/m3u  "@ + base + "/m3u\n/epg  "@ + base
        + "/epg\n/content  "@ + base + "/content\n"@
}

/// The listing of public playlist addresses.
pub fn public_url_listing(settings: &Settings) -> (r: String)
    ensures
        r@ == spec_public_url_listing(*settings),
{
    let base = chars_of(public_base_url(settings).as_str());
    let mut out = chars_of("iptv-rs\n\n/txt  ");
    append_chars(&mut out, base.as_slice());
    append_chars(&mut out, chars_of("/txt\n/m3u  ").as_slice());
    append_chars(&mut out, base.as_slice());
    append_chars(&mut out, chars_of("/m3u\n/epg  ").as_slice());
    append_chars(&mut out, base.as_slice());
    append_chars(&mut out, chars_of("/epg\n/content  ").as_slice());
    append_chars(&mut out, base.as_slice());
    append_chars(&mut out, chars_of("/content\n").as_slice());
    assert(out@ =~= spec_public_url_listing(*settings));
    string_from_chars(out.as_slice())
}

/// The reason phrase of a status code.
pub open spec fn spec_status_reason(status: u16) -> Seq<char> {
    if status == 200 {
        "OK"@
    } else if status == 400 {
        "Bad Request"@
    } else if status == 404 {
        "Not Found"@
    } else {
        "Internal Server Error"@
    }
}

/// The reason phrase of a status code.
pub fn status_reason(status: u16) -> (r: &'static str)
    ensures
        r@ == spec_status_reason(status),
{
    if status == 200 {
        "OK"
    } else if status == 400 {
        "Bad Request"
    } else if status == 404 {
        "Not Found"
    } else {
        "Internal Server Error"
    }
}

/// The status line and headers of a response with a body of `body_len`
/// bytes.
pub open spec fn spec_response_head(status: u16, content_type: Seq<char>, body_len: nat) -> Seq<char> {
    "HTTP/1.1 "@ + dec(status as nat) + " "@ + spec_status_reason(status) + "\r\nContent-Type: "@
        + content_type + "\r\nContent-Length: "@ + dec(body_len)
        + "\r\nAccess-Control-Allow-Origin: *\r\nConnection: close\r\n\r\n"@
}

/// The status line and headers of a response.
pub fn response_head(status: u16, content_type: &str, body_len: usize) -> (r: String)
    ensures
        r@ == spec_response_head(status, content_type@, body_len as nat),
{
    let mut out = chars_of("HTTP/1.1 ");
    append_chars(&mut out, fmt_u64(status as u64).as_slice());
    append_chars(&mut out, chars_of(" ").as_slice());
    append_chars(&mut out, chars_of(status_reason(status)).as_slice());
    append_chars(&mut out, chars_of("\r\nContent-Type: ").as_slice());
    append_chars(&mut out, chars_of(content_type).as_slice());
    append_chars(&mut out, chars_of("\r\nContent-Length: ").as_slice());
    append_chars(&mut out, fmt_usize(body_len).as_slice());
    append_chars(
        &mut out,
        chars_of("\r\nAccess-Control-Allow-Origin: *\r\nConnection: close\r\n\r\n").as_slice(),
    );
    assert(out@ =~= spec_response_head(status, content_type@, body_len as nat));
    string_from_chars(out.as_slice())
}


// ---------------------------------------------------------------------------
// Laws
// ---------------------------------------------------------------------------

proof fn lemma_split_pieces_free_of(s: Seq<char>, c: char)
    ensures
        forall|k: int, j: int|
            0 <= k < split_char(s, c).len() && 0 <= j < split_char(s, c)[k].len() ==> #[trigger] split_char(
                s,
                c,
            )[k][j] != c,
    decreases s.len(),
{
    lemma_index_of_char_bounds(s, c);
    match index_of_char(s, c) {
        Some(i) => {
            lemma_split_pieces_free_of(s.skip(i + 1), c);
            let rest = split_char(s.skip(i + 1), c);
            assert forall|k: int, j: int|
                0 <= k < split_char(s, c).len() && 0 <= j < split_char(s, c)[k].len() implies #[trigger] split_char(
                s,
                c,
            )[k][j] != c by {
                if k == 0 {
                    assert(split_char(s, c)[0] == s.take(i));
                    assert(s.take(i)[j] == s[j]);
                } else {
                    assert(split_char(s, c)[k] == rest[k - 1]);
                }
            }
        },
        None => {},
    }
}

proof fn lemma_starts_with_trans(x: Seq<char>, b: Seq<char>, base: Seq<char>)
    requires
        starts_with(x, b),
        starts_with(b, base),
    ensures
        starts_with(x, base),
{
    assert forall|k: int| 0 <= k < base.len() implies x[k] == base[k] by {
        assert(x.take(b.len() as int)[k] == b[k]);
        assert(b.take(base.len() as int)[k] == base[k]);
    }
    assert(x.take(base.len() as int) =~= base);
}

proof fn lemma_fold_under(base: Seq<char>, parts: Seq<Seq<char>>)
    requires
        forall|k: int, j: int|
            0 <= k < parts.len() && 0 <= j < parts[k].len() ==> #[trigger] parts[k][j] != '/',
    ensures
        safe_join_fold(Some(base), parts) matches Some(p) ==> starts_with(p, base),
    decreases parts.len(),
{
    if parts.len() == 0 {
        assert(base.take(base.len() as int) =~= base);
    } else {
        let init = parts.drop_last();
        assert forall|k: int, j: int| 0 <= k < init.len() && 0 <= j < init[k].len() implies #[trigger] init[k][j]
            != '/' by {
            assert(init[k] == parts[k]);
        }
        lemma_fold_under(base, init);
        match safe_join_fold(Some(base), init) {
            Some(b) => {
                let part = parts.last();
                if part.len() > 0 {
                    assert(part[0] == parts[parts.len() - 1][0]);
                    assert(!starts_with(part, "/"@)) by {
                        reveal_strlit("/");
                        if starts_with(part, "/"@) {
                            assert(part.take(1)[0] == part[0]);
                        }
                    }
                }
                let joined = spec_join(b, part);
                if part.len() > 0 && part != "."@ && part != ".."@ {
                    if b.len() == 0 || b.last() == '/' {
                        assert(joined.take(b.len() as int) =~= b);
                    } else {
                        assert(joined.take(b.len() as int) =~= b);
                    }
                    lemma_starts_with_trans(joined, b, base);
                }
            },
            None => {},
        }
    }
}

/// A path that `safe_join` accepts lies under its base: it starts with the
/// base path, so a request cannot name a file outside the served
/// directory by `..` or an absolute path.
pub proof fn law_safe_join_stays_under_base(base: Seq<char>, relative: Seq<char>)
    ensures
        spec_safe_join(base, relative) matches Some(p) ==> starts_with(p, base),
{
    if !starts_with(relative, "/"@) {
        lemma_split_pieces_free_of(relative, '/');
        lemma_fold_under(base, split_char(relative, '/'));
    }
}


/// A playlist generated for the IPTV sources named in a request holds only
/// streams that those sources let through: operator IPTV streams labelled
/// with one of them, and ordinary streams.
pub proof fn law_generated_playlist_passes_requested_sources(
    out: Seq<crate::models::SpecChannel>,
    cs: Seq<crate::models::SpecChannel>,
    g: Settings,
    s: Settings,
    preferred: Seq<Seq<char>>,
)
    requires
        generated_from(g, s, preferred),
        out.len() == crate::aggregate::preferred_channels(cs, g).len(),
        forall|i: int|
            0 <= i < out.len() ==> exists|c: crate::models::SpecChannel|
                crate::aggregate::streams_sorted_from(
                    c,
                    crate::aggregate::preferred_channels(cs, g)[i],
                    g,
                ) && #[trigger] out[i] == crate::aggregate::limited(c, g.urls_limit as nat),
    ensures
        forall|i: int, j: int|
            0 <= i < out.len() && 0 <= j < out[i].streams.len() ==> crate::aggregate::spec_iptv_label_allowed(
                #[trigger] out[i].streams[j].iptv_source,
                out[i].streams[j].iptv_restricted,
                preferred,
            ),
{
    let pre = crate::aggregate::preferred_channels(cs, g);
    let full = Seq::new(
        out.len(),
        |i: int|
            choose|c: crate::models::SpecChannel|
                crate::aggregate::streams_sorted_from(c, pre[i], g) && out[i]
                    == crate::aggregate::limited(c, g.urls_limit as nat),
    );
    assert forall|i: int| 0 <= i < full.len() implies crate::aggregate::streams_sorted_from(
        #[trigger] full[i],
        pre[i],
        g,
    ) by {
        assert(out[i] == out[i]);
    }
    crate::aggregate::law_output_streams_pass_iptv_filter(full, cs, g);
    assert forall|i: int, j: int|
        0 <= i < out.len() && 0 <= j < out[i].streams.len() implies crate::aggregate::spec_iptv_label_allowed(
        #[trigger] out[i].streams[j].iptv_source,
        out[i].streams[j].iptv_restricted,
        preferred,
    ) by {
        assert(out[i] == out[i]);
        let c = full[i];
        crate::aggregate::law_limit_keeps_a_prefix(c, g.urls_limit as nat);
        assert(out[i].streams[j] == c.streams[j]);
        assert(crate::aggregate::spec_stream_allowed(c.streams[j], g));
    }
}

} // verus!
