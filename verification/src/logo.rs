//! Channel logos: the local files that may hold a channel's logo, how a
//! found file is referred to, and the remote fallback address.
use vstd::prelude::*;
use crate::config::{join_path, spec_join, Settings};
use crate::models::{opt_view, Channel, SpecChannel};
use crate::source_list::{file_name, file_name_exec};
use crate::sorting::{compare_text, lemma_compare_text_basic, lemma_compare_text_trans, sort_texts};
use crate::text::{
    append_chars, char_alphanumeric, char_is_alphanumeric, chars_of, eq_chars, replace_all,
    replace_all_exec, starts_with, starts_with_exec, string_from_chars, string_views, subvec,
    trim, trim_chars, views,
};

verus! {

broadcast use vstd::string::group_string_axioms;

// ---------------------------------------------------------------------------
// File stems
// ---------------------------------------------------------------------------

/// A character kept in a file stem as it is.
pub open spec fn stem_char_kept(c: char) -> bool {
    char_alphanumeric(c) || c == '-' || c == '_' || c == '+' || c == '.'
}

/// The stem built so far, and whether it ends with a dash put in for other
/// characters.
pub open spec fn sanitize_fold(s: Seq<char>) -> (Seq<char>, bool)
    decreases s.len(),
{
    if s.len() == 0 {
        (seq![], false)
    } else {
        let prev = sanitize_fold(s.drop_last());
        let c = s.last();
        if stem_char_kept(c) {
            (prev.0.push(c), false)
        } else if !prev.1 {
            (prev.0.push('-'), true)
        } else {
            prev
        }
    }
}

/// The text without leading dashes.
pub open spec fn trim_start_dashes(s: Seq<char>) -> Seq<char>
    decreases s.len(),
{
    if s.len() > 0 && s[0] == '-' {
        trim_start_dashes(s.drop_first())
    } else {
        s
    }
}

/// The text without trailing dashes.
pub open spec fn trim_end_dashes(s: Seq<char>) -> Seq<char>
    decreases s.len(),
{
    if s.len() > 0 && s.last() == '-' {
        trim_end_dashes(s.drop_last())
    } else {
        s
    }
}

/// A name made fit for a file stem: trimmed, each run of characters other
/// than letters, digits, `-`, `_`, `+` and `.` replaced by one dash, and
/// without dashes at either end.
pub open spec fn spec_sanitize_file_stem(v: Seq<char>) -> Seq<char> {
    trim_end_dashes(trim_start_dashes(sanitize_fold(trim(v)).0))
}

fn trim_dashes(s: &[char]) -> (r: Vec<char>)
    ensures
        r@ == trim_end_dashes(trim_start_dashes(s@)),
{
    let n = s.len();
    let mut a: usize = 0;
    assert(s@.skip(0) =~= s@);
    while a < n && s[a] == '-'
        invariant
            a <= n == s@.len(),
            trim_start_dashes(s@) == trim_start_dashes(s@.skip(a as int)),
        decreases n - a,
    {
        assert(s@.skip(a as int).drop_first() =~= s@.skip(a + 1));
        a = a + 1;
    }
    let t = subvec(s, a, n);
    assert(t@ =~= s@.skip(a as int));
    let m = t.len();
    let mut b: usize = m;
    assert(t@.take(m as int) =~= t@);
    while b > 0 && t[b - 1] == '-'
        invariant
            b <= m == t@.len(),
            trim_end_dashes(t@) == trim_end_dashes(t@.take(b as int)),
        decreases b,
    {
        assert(t@.take(b as int).drop_last() =~= t@.take(b - 1));
        b = b - 1;
    }
    let r = subvec(t.as_slice(), 0, b);
    assert(r@ =~= t@.take(b as int));
    r
}

fn sanitize_chars(value: &[char]) -> (r: Vec<char>)
    ensures
        r@ == spec_sanitize_file_stem(value@),
{
    let t = trim_chars(value);
    let mut out: Vec<char> = Vec::new();
    let mut last_was_dash = false;
    let mut i: usize = 0;
    assert(t@.take(0) =~= Seq::<char>::empty());
    while i < t.len()
        invariant
            i <= t@.len(),
            (out@, last_was_dash) == sanitize_fold(t@.take(i as int)),
        decreases t@.len() - i,
    {
        assert(t@.take(i + 1).drop_last() =~= t@.take(i as int));
        assert(t@.take(i + 1).last() == t@[i as int]);
        let ch = t[i];
        if char_is_alphanumeric(ch) || ch == '-' || ch == '_' || ch == '+' || ch == '.' {
            out.push(ch);
            last_was_dash = false;
        } else if !last_was_dash {
            out.push('-');
            last_was_dash = true;
        }
        i = i + 1;
    }
    assert(t@.take(t@.len() as int) =~= t@);
    trim_dashes(out.as_slice())
}

/// A name made fit for a file stem.
pub fn sanitize_file_stem(value: &str) -> (r: String)
    ensures
        r@ == spec_sanitize_file_stem(value@),
{
    let c = chars_of(value);
    string_from_chars(sanitize_chars(c.as_slice()).as_slice())
}

// ---------------------------------------------------------------------------
// Candidate files
// ---------------------------------------------------------------------------

/// `stem.ext`.
pub open spec fn with_ext(stem: Seq<char>, ext: Seq<char>) -> Seq<char> {
    stem + seq!['.'] + ext
}

/// The file names tried for one stem: with the configured logo type and
/// with each image extension, each for the stem as it is and sanitized.
pub open spec fn stem_candidates(stem: Seq<char>, logo_type: Seq<char>) -> Seq<Seq<char>> {
    let s = spec_sanitize_file_stem(stem);
    seq![
        with_ext(stem, logo_type),
        with_ext(s, logo_type),
        with_ext(stem, "png"@),
        with_ext(s, "png"@),
        with_ext(stem, "jpg"@),
        with_ext(s, "jpg"@),
        with_ext(stem, "jpeg"@),
        with_ext(s, "jpeg"@),
        with_ext(stem, "webp"@),
        with_ext(s, "webp"@),
        with_ext(stem, "svg"@),
        with_ext(s, "svg"@),
    ]
}

/// The file names tried for a channel: for its name, then for its guide id.
pub open spec fn raw_logo_candidates(c: SpecChannel, logo_type: Seq<char>) -> Seq<Seq<char>> {
    match c.tvg_id {
        Some(id) => stem_candidates(c.name, logo_type) + stem_candidates(id, logo_type),
        None => stem_candidates(c.name, logo_type),
    }
}

/// `names` holds the texts of `raw`, each once, in increasing order.
pub open spec fn sorted_names_of(names: Seq<Seq<char>>, raw: Seq<Seq<char>>) -> bool {
    &&& forall|i: int, j: int|
        0 <= i < j < names.len() ==> compare_text(#[trigger] names[i], #[trigger] names[j]) < 0
    &&& forall|x: Seq<char>| #[trigger] names.contains(x) <==> raw.contains(x)
}

/// The settings of a [`LogoResolver`].
pub struct SpecLogoResolver {
    pub root: Seq<char>,
    pub logo_dir: Seq<char>,
    pub local_base_url: Option<Seq<char>>,
    pub remote_base_url: Option<Seq<char>>,
    pub logo_type: Seq<char>,
}

/// Finds and names channel logos.
pub struct LogoResolver {
    root: String,
    logo_dir: String,
    local_base_url: Option<String>,
    remote_base_url: Option<String>,
    logo_type: String,
}

impl View for LogoResolver {
    type V = SpecLogoResolver;

    closed spec fn view(&self) -> SpecLogoResolver {
        SpecLogoResolver {
            root: self.root@,
            logo_dir: self.logo_dir@,
            local_base_url: opt_view(self.local_base_url),
            remote_base_url: opt_view(self.remote_base_url),
            logo_type: self.logo_type@,
        }
    }
}

/// The text without trailing slashes.
pub open spec fn trim_end_slashes(s: Seq<char>) -> Seq<char>
    decreases s.len(),
{
    if s.len() > 0 && s.last() == '/' {
        trim_end_slashes(s.drop_last())
    } else {
        s
    }
}

/// The text without leading slashes.
pub open spec fn trim_start_slashes(s: Seq<char>) -> Seq<char>
    decreases s.len(),
{
    if s.len() > 0 && s[0] == '/' {
        trim_start_slashes(s.drop_first())
    } else {
        s
    }
}

/// A path relative to `root` when it lies under it: `root` is not empty,
/// the path begins with it, and the root ends there at a separator.
pub open spec fn strip_root(path: Seq<char>, root: Seq<char>) -> Option<Seq<char>> {
    if root.len() > 0 && starts_with(path, root) && (path.len() == root.len() || root.last() == '/'
        || path[root.len() as int] == '/') {
        Some(trim_start_slashes(path.skip(root.len() as int)))
    } else {
        None
    }
}

/// How a local logo file is referred to: under the local base address when
/// one is set, else by its path relative to the root (or as it is), with
/// `/` as separator.
pub open spec fn spec_logo_reference(r: SpecLogoResolver, path: Seq<char>) -> Seq<char> {
    match r.local_base_url {
        Some(base) => trim_end_slashes(base) + seq!['/'] + match file_name(path) {
            Some(f) => f,
            None => seq![],
        },
        None => replace_all(
            match strip_root(path, r.root) {
                Some(rel) => rel,
                None => path,
            },
            "\\"@,
            "/"@,
        ),
    }
}

/// The remote logo address of a channel name.
pub open spec fn remote_logo(base: Seq<char>, name: Seq<char>, logo_type: Seq<char>) -> Seq<char> {
    trim_end_slashes(base) + seq!['/'] + with_ext(spec_sanitize_file_stem(name), logo_type)
}

/// A channel with its logo set: the local file found for it, else the logo
/// it has, else the remote logo when a remote base address is set.
pub open spec fn spec_apply_logo(r: SpecLogoResolver, c: SpecChannel, found: Option<Seq<char>>) -> SpecChannel {
    match found {
        Some(p) => SpecChannel { logo: Some(spec_logo_reference(r, p)), ..c },
        None => if c.logo is Some {
            c
        } else {
            match r.remote_base_url {
                Some(b) => SpecChannel { logo: Some(remote_logo(b, c.name, r.logo_type)), ..c },
                None => c,
            }
        },
    }
}

fn ext_name(stem: &[char], ext: &[char]) -> (r: Vec<char>)
    ensures
        r@ == with_ext(stem@, ext@),
{
    let mut r = subvec(stem, 0, stem.len());
    r.push('.');
    append_chars(&mut r, ext);
    assert(r@ =~= with_ext(stem@, ext@));
    r
}

fn push_stem_candidates(out: &mut Vec<Vec<char>>, stem: &[char], logo_type: &[char])
    ensures
        views(final(out)@) == views(old(out)@) + stem_candidates(stem@, logo_type@),
{
    let s = sanitize_chars(stem);
    let ghost before = views(out@);
    out.push(ext_name(stem, logo_type));
    out.push(ext_name(s.as_slice(), logo_type));
    let exts = ["png", "jpg", "jpeg", "webp", "svg"];
    let mut i: usize = 0;
    while i < 5
        invariant
            i <= 5,
            s@ == spec_sanitize_file_stem(stem@),
            exts@[0]@ == "png"@,
            exts@[1]@ == "jpg"@,
            exts@[2]@ == "jpeg"@,
            exts@[3]@ == "webp"@,
            exts@[4]@ == "svg"@,
            views(out@) == before + stem_candidates(stem@, logo_type@).take(2 + 2 * i),
        decreases 5 - i,
    {
        let e = chars_of(exts[i]);
        let ghost prev = views(out@);
        out.push(ext_name(stem, e.as_slice()));
        out.push(ext_name(s.as_slice(), e.as_slice()));
        assert(stem_candidates(stem@, logo_type@).take(2 + 2 * (i + 1)) =~= stem_candidates(
            stem@,
            logo_type@,
        ).take(2 + 2 * i).push(with_ext(stem@, e@)).push(with_ext(s@, e@)));
        assert(views(out@) =~= prev.push(with_ext(stem@, e@)).push(with_ext(s@, e@)));
        i = i + 1;
    }
    assert(stem_candidates(stem@, logo_type@).take(12) =~= stem_candidates(stem@, logo_type@));
}

fn dedup_sorted(v: &Vec<Vec<char>>) -> (r: Vec<Vec<char>>)
    requires
        forall|i: int, j: int|
            0 <= i < j < v@.len() ==> compare_text(#[trigger] views(v@)[i], #[trigger] views(v@)[j])
                <= 0,
    ensures
        sorted_names_of(views(r@), views(v@)),
{
    let ghost vv = views(v@);
    let mut r: Vec<Vec<char>> = Vec::new();
    let mut i: usize = 0;
    while i < v.len()
        invariant
            i <= v@.len(),
            vv == views(v@),
            forall|a: int, b: int|
                0 <= a < b < vv.len() ==> compare_text(#[trigger] vv[a], #[trigger] vv[b]) <= 0,
            forall|a: int, b: int|
                0 <= a < b < r@.len() ==> compare_text(#[trigger] views(r@)[a], #[trigger] views(
                    r@,
                )[b]) < 0,
            i > 0 ==> r@.len() > 0 && views(r@)[r@.len() - 1] == vv[i - 1],
            i == 0 ==> r@.len() == 0,
            forall|x: Seq<char>| #[trigger] views(r@).contains(x) <==> vv.take(i as int).contains(x),
        decreases v@.len() - i,
    {
        let ghost rv = views(r@);
        let x = subvec(v[i].as_slice(), 0, v[i].len());
        assert(x@ =~= vv[i as int]);
        let same = r.len() > 0 && eq_chars(r[r.len() - 1].as_slice(), x.as_slice());
        proof {
            broadcast use vstd::seq_lib::lemma_seq_contains_after_push;
            assert(vv.take(i + 1) =~= vv.take(i as int).push(vv[i as int]));
        }
        if !same {
            proof {
                if i > 0 {
                    let last = rv[rv.len() - 1];
                    assert(compare_text(vv[i - 1], vv[i as int]) <= 0);
                    lemma_compare_text_basic(last, x@);
                    assert(compare_text(last, x@) < 0);
                    assert forall|a: int| 0 <= a < rv.len() implies compare_text(
                        #[trigger] rv[a],
                        x@,
                    ) < 0 by {
                        if a < rv.len() - 1 {
                            assert(compare_text(rv[a], last) < 0);
                            lemma_compare_text_trans(rv[a], last, x@);
                            lemma_compare_text_basic(rv[a], x@);
                            lemma_compare_text_basic(rv[a], last);
                            if rv[a] == x@ {
                                lemma_compare_text_basic(last, rv[a]);
                            }
                        }
                    }
                }
            }
            r.push(x);
            proof {
                assert(views(r@) =~= rv.push(vv[i as int]));
            }
        } else {
            proof {
                assert(rv.contains(vv[i as int])) by {
                    assert(rv[rv.len() - 1] == vv[i as int]);
                }
            }
        }
        i = i + 1;
    }
    assert(vv.take(vv.len() as int) =~= vv);
    r
}

impl LogoResolver {
    /// The logo settings.
    pub fn new(settings: &Settings) -> (r: Self)
        ensures
            r@.root == settings.root@,
            r@.logo_dir == spec_join(settings.root@, settings.logo_dir@),
            r@.local_base_url == opt_view(settings.local_logo_base_url),
            r@.remote_base_url == opt_view(settings.logo_url),
            r@.logo_type == settings.logo_type@,
    {
        LogoResolver {
            root: settings.root.clone(),
            logo_dir: settings.resolve(settings.logo_dir.as_str()),
            local_base_url: crate::models::copy_opt_string(&settings.local_logo_base_url),
            remote_base_url: crate::models::copy_opt_string(&settings.logo_url),
            logo_type: settings.logo_type.clone(),
        }
    }

    /// The files that may hold a channel's logo, in the order they are
    /// tried: each candidate name once, by increasing name, under the logo
    /// directory.
    pub fn local_logo_candidates(&self, channel: &Channel) -> (paths: Vec<String>)
        ensures
            exists|names: Seq<Seq<char>>|
                sorted_names_of(names, raw_logo_candidates(channel@, self@.logo_type)) && string_views(
                    paths@,
                ) == names.map_values(|n: Seq<char>| spec_join(self@.logo_dir, n)),
    {
        let lt = chars_of(self.logo_type.as_str());
        let mut raw: Vec<Vec<char>> = Vec::new();
        assert(views(raw@) =~= Seq::<Seq<char>>::empty());
        let name = chars_of(channel.name.as_str());
        push_stem_candidates(&mut raw, name.as_slice(), lt.as_slice());
        match &channel.tvg_id {
            Some(id) => {
                let idc = chars_of(id.as_str());
                push_stem_candidates(&mut raw, idc.as_slice(), lt.as_slice());
            },
            None => {},
        }
        assert(views(raw@) =~= raw_logo_candidates(channel@, self@.logo_type));
        let ghost rawv = views(raw@);
        let sorted = sort_texts(raw);
        let names = dedup_sorted(&sorted);
        let ghost nv = views(names@);
        proof {
            assert forall|x: Seq<char>| #[trigger] nv.contains(x) <==> rawv.contains(x) by {
                assert(nv.contains(x) <==> views(sorted@).contains(x));
            }
        }
        let mut paths: Vec<String> = Vec::new();
        let mut i: usize = 0;
        while i < names.len()
            invariant
                i <= names@.len(),
                nv == views(names@),
                string_views(paths@) == nv.take(i as int).map_values(
                    |n: Seq<char>| spec_join(self@.logo_dir, n),
                ),
            decreases names@.len() - i,
        {
            let n = string_from_chars(names[i].as_slice());
            let p = join_path(self.logo_dir.as_str(), n.as_str());
            let ghost before = string_views(paths@);
            paths.push(p);
            assert(string_views(paths@) =~= before.push(spec_join(self@.logo_dir, nv[i as int])));
            assert(nv.take(i + 1).map_values(|n: Seq<char>| spec_join(self@.logo_dir, n)) =~= nv.take(
                i as int,
            ).map_values(|n: Seq<char>| spec_join(self@.logo_dir, n)).push(
                spec_join(self@.logo_dir, nv[i as int]),
            ));
            i = i + 1;
        }
        assert(nv.take(nv.len() as int) =~= nv);
        assert(sorted_names_of(nv, raw_logo_candidates(channel@, self@.logo_type)));
        assert(string_views(paths@) == nv.map_values(|n: Seq<char>| spec_join(self@.logo_dir, n)));
        paths
    }

    /// How a local logo file is referred to in the playlist.
    pub fn local_logo_reference(&self, path: &str) -> (r: String)
        ensures
            r@ == spec_logo_reference(self@, path@),
    {
        let p = chars_of(path);
        match &self.local_base_url {
            Some(base) => {
                let mut out = trim_end_slashes_exec(chars_of(base.as_str()).as_slice());
                out.push('/');
                match file_name_exec(p.as_slice()) {
                    Some(f) => append_chars(&mut out, f.as_slice()),
                    None => {},
                }
                string_from_chars(out.as_slice())
            },
            None => {
                let root = chars_of(self.root.as_str());
                let rel = match strip_root_exec(p.as_slice(), root.as_slice()) {
                    Some(rel) => rel,
                    None => p,
                };
                let back = chars_of("\\");
                let fwd = chars_of("/");
                let out = replace_all_exec(rel.as_slice(), back.as_slice(), fwd.as_slice());
                string_from_chars(out.as_slice())
            },
        }
    }

    /// Sets the logos of the channels; `found[i]` is the first candidate
    /// file of channel `i` that exists, if any.
    pub fn apply(&self, channels: &mut Vec<Channel>, found: &Vec<Option<String>>)
        requires
            found@.len() == old(channels)@.len(),
        ensures
            final(channels)@.len() == old(channels)@.len(),
            forall|i: int|
                0 <= i < final(channels)@.len() ==> #[trigger] final(channels)@[i]@
                    == spec_apply_logo(self@, old(channels)@[i]@, opt_view(found@[i])),
    {
        let mut rest: Vec<Channel> = Vec::new();
        std::mem::swap(&mut rest, channels);
        let ghost orig = rest@;
        let n = rest.len();
        let mut k: usize = 0;
        while rest.len() > 0
            invariant
                k + rest@.len() == n,
                orig.len() == n,
                found@.len() == n,
                rest@ == orig.skip(k as int),
                channels@.len() == k,
                forall|i: int|
                    0 <= i < k ==> #[trigger] channels@[i]@ == spec_apply_logo(
                        self@,
                        orig[i]@,
                        opt_view(found@[i]),
                    ),
            decreases rest@.len(),
        {
            let mut c = rest.remove(0);
            assert(orig.skip(k as int)[0] == orig[k as int]);
            assert(rest@ =~= orig.skip(k + 1));
            let ghost before = c@;
            match &found[k] {
                Some(p) => {
                    c.logo = Some(self.local_logo_reference(p.as_str()));
                },
                None => {
                    if c.logo.is_none() {
                        match &self.remote_base_url {
                            Some(base) => {
                                let mut out = trim_end_slashes_exec(
                                    chars_of(base.as_str()).as_slice(),
                                );
                                out.push('/');
                                let stem = sanitize_chars(chars_of(c.name.as_str()).as_slice());
                                let lt = chars_of(self.logo_type.as_str());
                                let fname = ext_name(stem.as_slice(), lt.as_slice());
                                append_chars(&mut out, fname.as_slice());
                                assert(out@ =~= remote_logo(base@, before.name, self@.logo_type));
                                c.logo = Some(string_from_chars(out.as_slice()));
                            },
                            None => {},
                        }
                    }
                },
            }
            assert(c@ == spec_apply_logo(self@, orig[k as int]@, opt_view(found@[k as int])));
            let ghost prev = channels@;
            channels.push(c);
            assert forall|i: int| 0 <= i < k + 1 implies #[trigger] channels@[i]@ == spec_apply_logo(
                self@,
                orig[i]@,
                opt_view(found@[i]),
            ) by {
                if i < k {
                    assert(channels@[i] == prev[i]);
                }
            }
            k = k + 1;
        }
    }
}

fn trim_end_slashes_exec(s: &[char]) -> (r: Vec<char>)
    ensures
        r@ == trim_end_slashes(s@),
{
    let n = s.len();
    let mut b: usize = n;
    assert(s@.take(n as int) =~= s@);
    while b > 0 && s[b - 1] == '/'
        invariant
            b <= n == s@.len(),
            trim_end_slashes(s@) == trim_end_slashes(s@.take(b as int)),
        decreases b,
    {
        assert(s@.take(b as int).drop_last() =~= s@.take(b - 1));
        b = b - 1;
    }
    let r = subvec(s, 0, b);
    assert(r@ =~= s@.take(b as int));
    r
}

fn trim_start_slashes_exec(s: &[char]) -> (r: Vec<char>)
    ensures
        r@ == trim_start_slashes(s@),
{
    let n = s.len();
    let mut a: usize = 0;
    assert(s@.skip(0) =~= s@);
    while a < n && s[a] == '/'
        invariant
            a <= n == s@.len(),
            trim_start_slashes(s@) == trim_start_slashes(s@.skip(a as int)),
        decreases n - a,
    {
        assert(s@.skip(a as int).drop_first() =~= s@.skip(a + 1));
        a = a + 1;
    }
    let r = subvec(s, a, n);
    assert(r@ =~= s@.skip(a as int));
    r
}

fn strip_root_exec(path: &[char], root: &[char]) -> (r: Option<Vec<char>>)
    ensures
        r matches Some(v) ==> strip_root(path@, root@) == Some(v@),
        r is None ==> strip_root(path@, root@) is None,
{
    let rl = root.len();
    let pl = path.len();
    if rl > 0 && starts_with_exec(path, root) && (pl == rl || root[rl - 1] == '/' || path[rl]
        == '/') {
        let rest = subvec(path, rl, pl);
        assert(rest@ =~= path@.skip(rl as int));
        Some(trim_start_slashes_exec(rest.as_slice()))
    } else {
        None
    }
}

} // verus!
