//! Runtime settings: read from `key = value` lines, overridden by
//! environment variables of the same names, with defaults for the rest.
use vstd::prelude::*;
use crate::assoc::AssocList;
use crate::numbers::{parse_u64_chars, parse_unsigned};
use crate::text::{
    ascii_lower, is_ws, lemma_lines_single, lemma_split_once_at, lemma_trim_end_take,
    lemma_trim_start_skip, lemma_trim_unchanged, ascii_lower_exec, ascii_lower_seq, chars_of, eq_chars, lemma_chars_deep_view, lines,
    lines_exec, split_char, split_char_exec, split_once, split_once_exec, starts_with,
    starts_with_exec, string_from_chars, string_views, subvec, trim, trim_chars, views,
};

verus! {

broadcast use vstd::string::group_string_axioms;

/// Runtime settings. Paths are written with `/`.
#[derive(Debug, Clone)]
pub struct Settings {
    pub root: String,
    pub open_update: bool,
    pub open_service: bool,
    pub open_local: bool,
    pub open_subscribe: bool,
    pub open_auto_disable_source: bool,
    pub open_history: bool,
    pub open_unmatch_category: bool,
    pub open_empty_category: bool,
    pub open_update_time: bool,
    pub open_url_info: bool,
    pub open_epg: bool,
    pub open_m3u_result: bool,
    pub update_startup: bool,
    pub update_interval: u64,
    pub update_time_position: String,
    pub nginx_http_port: u16,
    pub public_scheme: String,
    pub public_domain: String,
    pub public_port: u16,
    pub source_file: String,
    pub local_source_list_file: String,
    pub subscribe_file: String,
    pub epg_file: String,
    pub alias_file: String,
    pub blacklist_file: String,
    pub whitelist_file: String,
    pub final_file: String,
    pub epg_output_file: String,
    pub urls_limit: usize,
    pub request_timeout: u64,
    pub ipv_type: String,
    pub ipv_type_prefer: Vec<String>,
    pub origin_type_prefer: Vec<String>,
    pub iptv_source_prefer: Vec<String>,
    pub iptv_source_filter: Vec<String>,
    pub default_user_agent: String,
    pub http_proxy: Option<String>,
    pub logo_dir: String,
    pub local_logo_base_url: Option<String>,
    pub logo_url: Option<String>,
    pub logo_type: String,
}

// ---------------------------------------------------------------------------
// Paths
// ---------------------------------------------------------------------------

/// `Path::join` for paths written with `/`: an absolute path replaces the
/// base, a relative one is appended after a separator.
pub open spec fn spec_join(base: Seq<char>, path: Seq<char>) -> Seq<char> {
    if starts_with(path, "/"@) {
        path
    } else if base.len() == 0 || base.last() == '/' {
        base + path
    } else {
        base + seq!['/'] + path
    }
}

/// `Path::join` for paths written with `/`.
pub fn join_path(base: &str, path: &str) -> (r: String)
    ensures
        r@ == spec_join(base@, path@),
{
    let b = chars_of(base);
    let p = chars_of(path);
    let slash = chars_of("/");
    proof {
        reveal_strlit("/");
    }
    if starts_with_exec(p.as_slice(), slash.as_slice()) {
        return path.to_owned();
    }
    let mut out = b;
    if out.len() > 0 && out[out.len() - 1] != '/' {
        out.push('/');
    }
    crate::text::append_chars(&mut out, p.as_slice());
    string_from_chars(out.as_slice())
}

impl Settings {
    /// A path of the settings, relative ones taken from the root.
    pub fn resolve(&self, path: &str) -> (r: String)
        ensures
            r@ == spec_join(self.root@, path@),
    {
        join_path(self.root.as_str(), path)
    }
}

// ---------------------------------------------------------------------------
// Reading values
// ---------------------------------------------------------------------------

/// One line of a settings file: `key = value`, the key in lower case; blank
/// lines, `#` and `;` comments and `[section]` lines are skipped.
pub open spec fn ini_step(m: Map<Seq<char>, Seq<char>>, raw: Seq<char>) -> Map<Seq<char>, Seq<char>> {
    let line = trim(raw);
    if line.len() == 0 || starts_with(line, "#"@) || starts_with(line, ";"@) || starts_with(
        line,
        "["@,
    ) {
        m
    } else {
        match split_once(line, '=') {
            Some((k, v)) => m.insert(ascii_lower_seq(trim(k)), trim(v)),
            None => m,
        }
    }
}

/// The lines of a settings file read in order; a later line wins.
pub open spec fn ini_fold(ls: Seq<Seq<char>>) -> Map<Seq<char>, Seq<char>>
    decreases ls.len(),
{
    if ls.len() == 0 {
        Map::empty()
    } else {
        ini_step(ini_fold(ls.drop_last()), ls.last())
    }
}

/// The values of a settings file.
pub open spec fn spec_parse_ini(text: Seq<char>) -> Map<Seq<char>, Seq<char>> {
    ini_fold(lines(text))
}

/// The settings that environment variables may set.
pub open spec fn setting_names() -> Seq<Seq<char>> {
    seq![
        "open_service"@,
        "open_update"@,
        "open_local"@,
        "open_subscribe"@,
        "open_auto_disable_source"@,
        "open_history"@,
        "open_unmatch_category"@,
        "open_empty_category"@,
        "open_update_time"@,
        "open_url_info"@,
        "open_epg"@,
        "open_m3u_result"@,
        "update_startup"@,
        "update_interval"@,
        "update_time_position"@,
        "nginx_http_port"@,
        "public_scheme"@,
        "public_domain"@,
        "public_port"@,
        "source_file"@,
        "local_source_list_file"@,
        "subscribe_file"@,
        "epg_file"@,
        "alias_file"@,
        "blacklist_file"@,
        "whitelist_file"@,
        "final_file"@,
        "epg_output_file"@,
        "urls_limit"@,
        "request_timeout"@,
        "ipv_type"@,
        "ipv_type_prefer"@,
        "origin_type_prefer"@,
        "iptv_source_prefer"@,
        "iptv_source_filter"@,
        "default_user_agent"@,
        "http_proxy"@,
        "logo_dir"@,
        "local_logo_base_url"@,
        "logo_url"@,
        "logo_type"@,
    ]
}

/// Environment variables applied in order: a variable whose lower-cased name
/// is a setting's name sets it.
pub open spec fn env_fold(m: Map<Seq<char>, Seq<char>>, vars: Seq<(Seq<char>, Seq<char>)>) -> Map<
    Seq<char>,
    Seq<char>,
>
    decreases vars.len(),
{
    if vars.len() == 0 {
        m
    } else {
        let prev = env_fold(m, vars.drop_last());
        let key = ascii_lower_seq(vars.last().0);
        if setting_names().contains(key) {
            prev.insert(key, vars.last().1)
        } else {
            prev
        }
    }
}

/// The value of a setting, if given.
pub open spec fn lookup(m: Map<Seq<char>, Seq<char>>, key: Seq<char>) -> Option<Seq<char>> {
    if m.dom().contains(key) {
        Some(m[key])
    } else {
        None
    }
}

/// A switch: `true`, `1`, `yes` or `on` (any case, trimmed) turn it on, any
/// other value off.
pub open spec fn spec_get_bool(m: Map<Seq<char>, Seq<char>>, key: Seq<char>, default: bool) -> bool {
    match lookup(m, key) {
        None => default,
        Some(v) => {
            let l = ascii_lower_seq(trim(v));
            l == "true"@ || l == "1"@ || l == "yes"@ || l == "on"@
        },
    }
}

/// A number no larger than `max`; the default when missing or unreadable.
pub open spec fn spec_get_uint(m: Map<Seq<char>, Seq<char>>, key: Seq<char>, max: nat, default: nat) -> nat {
    match lookup(m, key) {
        None => default,
        Some(v) => match parse_unsigned(v, max) {
            Some(n) => n,
            None => default,
        },
    }
}

/// A text setting with a default.
pub open spec fn spec_get_string(m: Map<Seq<char>, Seq<char>>, key: Seq<char>, default: Seq<char>) -> Seq<char> {
    match lookup(m, key) {
        None => default,
        Some(v) => v,
    }
}

/// A path setting: the default when missing or blank.
pub open spec fn spec_get_path(m: Map<Seq<char>, Seq<char>>, key: Seq<char>, default: Seq<char>) -> Seq<char> {
    match lookup(m, key) {
        Some(v) => if trim(v).len() > 0 {
            v
        } else {
            default
        },
        None => default,
    }
}

/// An optional setting: present when given and not blank, trimmed.
pub open spec fn spec_get_non_empty(m: Map<Seq<char>, Seq<char>>, key: Seq<char>) -> Option<Seq<char>> {
    match lookup(m, key) {
        Some(v) => if trim(v).len() > 0 {
            Some(trim(v))
        } else {
            None
        },
        None => None,
    }
}

/// The items of a comma-separated list: trimmed, in lower case, without
/// empty items and without `auto`.
pub open spec fn list_items(ps: Seq<Seq<char>>) -> Seq<Seq<char>>
    decreases ps.len(),
{
    if ps.len() == 0 {
        seq![]
    } else {
        let prev = list_items(ps.drop_last());
        let p = ascii_lower_seq(trim(ps.last()));
        if p.len() > 0 && p != "auto"@ {
            prev.push(p)
        } else {
            prev
        }
    }
}

/// A list setting; empty when missing.
pub open spec fn spec_get_list(m: Map<Seq<char>, Seq<char>>, key: Seq<char>) -> Seq<Seq<char>> {
    match lookup(m, key) {
        Some(v) => list_items(split_char(v, ',')),
        None => seq![],
    }
}

/// `a` when positive, else 1.
pub open spec fn at_least_one(a: nat) -> nat {
    if a >= 1 {
        a
    } else {
        1
    }
}

/// The settings that a set of values gives.
pub open spec fn settings_match(s: Settings, root: Seq<char>, m: Map<Seq<char>, Seq<char>>) -> bool {
    let filter = spec_get_list(m, "iptv_source_filter"@);
    let prefer = spec_get_list(m, "iptv_source_prefer"@);
    &&& s.root@ == root
    &&& s.open_update == spec_get_bool(m, "open_update"@, true)
    &&& s.open_service == spec_get_bool(m, "open_service"@, true)
    &&& s.open_local == spec_get_bool(m, "open_local"@, true)
    &&& s.open_subscribe == spec_get_bool(m, "open_subscribe"@, true)
    &&& s.open_auto_disable_source == spec_get_bool(m, "open_auto_disable_source"@, true)
    &&& s.open_history == spec_get_bool(m, "open_history"@, true)
    &&& s.open_unmatch_category == spec_get_bool(m, "open_unmatch_category"@, false)
    &&& s.open_empty_category == spec_get_bool(m, "open_empty_category"@, false)
    &&& s.open_update_time == spec_get_bool(m, "open_update_time"@, true)
    &&& s.open_url_info == spec_get_bool(m, "open_url_info"@, false)
    &&& s.open_epg == spec_get_bool(m, "open_epg"@, true)
    &&& s.open_m3u_result == spec_get_bool(m, "open_m3u_result"@, true)
    &&& s.update_startup == spec_get_bool(m, "update_startup"@, true)
    &&& s.update_interval == spec_get_uint(m, "update_interval"@, u64::MAX as nat, 12)
    &&& s.update_time_position@ == spec_get_string(m, "update_time_position"@, "top"@)
    &&& s.nginx_http_port == spec_get_uint(m, "nginx_http_port"@, u16::MAX as nat, 8080)
    &&& s.public_scheme@ == spec_get_string(m, "public_scheme"@, "http"@)
    &&& s.public_domain@ == spec_get_string(m, "public_domain"@, "127.0.0.1"@)
    &&& s.public_port == spec_get_uint(m, "public_port"@, u16::MAX as nat, 80)
    &&& s.source_file@ == spec_get_path(m, "source_file"@, "config/demo.txt"@)
    &&& s.local_source_list_file@ == spec_get_path(
        m,
        "local_source_list_file"@,
        "config/local_sources.txt"@,
    )
    &&& s.subscribe_file@ == spec_get_path(m, "subscribe_file"@, "config/subscribe.txt"@)
    &&& s.epg_file@ == spec_get_path(m, "epg_file"@, "config/epg.txt"@)
    &&& s.alias_file@ == spec_get_path(m, "alias_file"@, "config/alias.txt"@)
    &&& s.blacklist_file@ == spec_get_path(m, "blacklist_file"@, "config/blacklist.txt"@)
    &&& s.whitelist_file@ == spec_get_path(m, "whitelist_file"@, "config/whitelist.txt"@)
    &&& s.final_file@ == spec_get_path(m, "final_file"@, "output/result.txt"@)
    &&& s.epg_output_file@ == spec_get_path(m, "epg_output_file"@, "output/epg/epg.xml"@)
    &&& s.urls_limit == at_least_one(spec_get_uint(m, "urls_limit"@, usize::MAX as nat, 5))
    &&& s.request_timeout == at_least_one(
        spec_get_uint(m, "request_timeout"@, u64::MAX as nat, 10),
    )
    &&& s.ipv_type@ == (match lookup(m, "ipv_type"@) {
        Some(v) => ascii_lower_seq(v),
        None => "all"@,
    })
    &&& string_views(s.ipv_type_prefer@) == spec_get_list(m, "ipv_type_prefer"@)
    &&& string_views(s.origin_type_prefer@) == spec_get_list(m, "origin_type_prefer"@)
    &&& string_views(s.iptv_source_filter@) == filter
    &&& string_views(s.iptv_source_prefer@) == (if prefer.len() == 0 {
        filter
    } else {
        prefer
    })
    &&& s.default_user_agent@ == spec_get_string(m, "default_user_agent"@, "iptv-rs/0.1"@)
    &&& crate::models::opt_view(s.http_proxy) == spec_get_non_empty(m, "http_proxy"@)
    &&& s.logo_dir@ == spec_get_path(m, "logo_dir"@, "config/logo"@)
    &&& crate::models::opt_view(s.local_logo_base_url) == spec_get_non_empty(
        m,
        "local_logo_base_url"@,
    )
    &&& crate::models::opt_view(s.logo_url) == spec_get_non_empty(m, "logo_url"@)
    &&& s.logo_type@ == spec_get_string(m, "logo_type"@, "png"@)
}

// ---------------------------------------------------------------------------
// Executable code
// ---------------------------------------------------------------------------

/// The values of a settings file.
pub type SettingValues = AssocList<Vec<char>>;

fn starts_with_lit(a: &[char], lit: &str) -> (r: bool)
    ensures
        r == starts_with(a@, lit@),
{
    let l = chars_of(lit);
    starts_with_exec(a, l.as_slice())
}

fn eq_lit(a: &[char], lit: &str) -> (r: bool)
    ensures
        r == (a@ == lit@),
{
    let l = chars_of(lit);
    eq_chars(a, l.as_slice())
}

/// The values of a settings file.
pub fn parse_ini_settings(text: &str) -> (values: SettingValues)
    ensures
        values.wf(),
        values@ == spec_parse_ini(text@),
{
    let chars = chars_of(text);
    let ls = lines_exec(chars.as_slice());
    let ghost lv = views(ls@);
    let mut values: SettingValues = AssocList::new();
    let mut i: usize = 0;
    assert(lv.take(0) =~= Seq::<Seq<char>>::empty());
    while i < ls.len()
        invariant
            i <= ls@.len(),
            lv == views(ls@),
            values.wf(),
            values@ == ini_fold(lv.take(i as int)),
        decreases ls@.len() - i,
    {
        proof {
            assert(lv.take(i + 1).drop_last() =~= lv.take(i as int));
            assert(lv.take(i + 1).last() == ls@[i as int]@);
        }
        let line = trim_chars(ls[i].as_slice());
        i = i + 1;
        let l = line.as_slice();
        if line.len() == 0 || starts_with_lit(l, "#") || starts_with_lit(l, ";") || starts_with_lit(
            l,
            "[",
        ) {
            continue;
        }
        match split_once_exec(l, '=') {
            Some((k, v)) => {
                let key = ascii_lower_exec(trim_chars(k.as_slice()).as_slice());
                let value = trim_chars(v.as_slice());
                proof {
                    lemma_chars_deep_view(value);
                }
                values.insert(key, value);
            },
            None => {},
        }
    }
    assert(lv.take(lv.len() as int) =~= lv);
    values
}

fn is_setting_name(key: &[char]) -> (b: bool)
    ensures
        b == setting_names().contains(key@),
{
    let names: [&str; 41] = [
        "open_service",
        "open_update",
        "open_local",
        "open_subscribe",
        "open_auto_disable_source",
        "open_history",
        "open_unmatch_category",
        "open_empty_category",
        "open_update_time",
        "open_url_info",
        "open_epg",
        "open_m3u_result",
        "update_startup",
        "update_interval",
        "update_time_position",
        "nginx_http_port",
        "public_scheme",
        "public_domain",
        "public_port",
        "source_file",
        "local_source_list_file",
        "subscribe_file",
        "epg_file",
        "alias_file",
        "blacklist_file",
        "whitelist_file",
        "final_file",
        "epg_output_file",
        "urls_limit",
        "request_timeout",
        "ipv_type",
        "ipv_type_prefer",
        "origin_type_prefer",
        "iptv_source_prefer",
        "iptv_source_filter",
        "default_user_agent",
        "http_proxy",
        "logo_dir",
        "local_logo_base_url",
        "logo_url",
        "logo_type",
    ];
    let ghost sn = setting_names();
    assert forall|j: int| 0 <= j < 41 implies #[trigger] names@[j]@ == sn[j] by {}
    let mut i: usize = 0;
    while i < 41
        invariant
            i <= 41,
            sn == setting_names(),
            sn.len() == 41,
            forall|j: int| 0 <= j < 41 ==> #[trigger] names@[j]@ == sn[j],
            forall|j: int| 0 <= j < i ==> sn[j] != key@,
        decreases 41 - i,
    {
        if eq_lit(key, names[i]) {
            assert(sn[i as int] == key@);
            return true;
        }
        i = i + 1;
    }
    false
}

/// Environment variables applied over the values of a settings file.
pub fn apply_env_overrides(values: &mut SettingValues, vars: &Vec<(String, String)>)
    requires
        old(values).wf(),
    ensures
        final(values).wf(),
        final(values)@ == env_fold(
            old(values)@,
            vars@.map_values(|p: (String, String)| (p.0@, p.1@)),
        ),
{
    let ghost m0 = values@;
    let ghost vv = vars@.map_values(|p: (String, String)| (p.0@, p.1@));
    let mut i: usize = 0;
    assert(vv.take(0) =~= Seq::<(Seq<char>, Seq<char>)>::empty());
    while i < vars.len()
        invariant
            i <= vars@.len(),
            vv == vars@.map_values(|p: (String, String)| (p.0@, p.1@)),
            values.wf(),
            values@ == env_fold(m0, vv.take(i as int)),
        decreases vars@.len() - i,
    {
        proof {
            assert(vv.take(i + 1).drop_last() =~= vv.take(i as int));
            assert(vv.take(i + 1).last() == (vars@[i as int].0@, vars@[i as int].1@));
        }
        let key = ascii_lower_exec(chars_of(vars[i].0.as_str()).as_slice());
        if is_setting_name(key.as_slice()) {
            let value = chars_of(vars[i].1.as_str());
            proof {
                lemma_chars_deep_view(value);
            }
            values.insert(key, value);
        }
        i = i + 1;
    }
    assert(vv.take(vv.len() as int) =~= vv);
}

fn get_value<'a>(values: &'a SettingValues, key: &str) -> (r: Option<&'a Vec<char>>)
    requires
        values.wf(),
    ensures
        (match r {
            Some(v) => Some(v@),
            None => None,
        }) == lookup(values@, key@),
{
    let k = chars_of(key);
    match values.get(k.as_slice()) {
        Some(v) => {
            proof {
                lemma_chars_deep_view(*v);
            }
            Some(v)
        },
        None => None,
    }
}

fn get_bool(values: &SettingValues, key: &str, default: bool) -> (b: bool)
    requires
        values.wf(),
    ensures
        b == spec_get_bool(values@, key@, default),
{
    match get_value(values, key) {
        None => default,
        Some(v) => {
            let l = ascii_lower_exec(trim_chars(v.as_slice()).as_slice());
            let s = l.as_slice();
            eq_lit(s, "true") || eq_lit(s, "1") || eq_lit(s, "yes") || eq_lit(s, "on")
        },
    }
}

fn get_u64(values: &SettingValues, key: &str, default: u64) -> (n: u64)
    requires
        values.wf(),
    ensures
        n == spec_get_uint(values@, key@, u64::MAX as nat, default as nat),
{
    match get_value(values, key) {
        None => default,
        Some(v) => match parse_u64_chars(v.as_slice(), u64::MAX) {
            Some(n) => n,
            None => default,
        },
    }
}

fn get_usize(values: &SettingValues, key: &str, default: usize) -> (n: usize)
    requires
        values.wf(),
    ensures
        n == spec_get_uint(values@, key@, usize::MAX as nat, default as nat),
{
    match get_value(values, key) {
        None => default,
        Some(v) => match parse_u64_chars(v.as_slice(), usize::MAX as u64) {
            Some(n) => n as usize,
            None => default,
        },
    }
}

fn get_u16(values: &SettingValues, key: &str, default: u16) -> (n: u16)
    requires
        values.wf(),
    ensures
        n == spec_get_uint(values@, key@, u16::MAX as nat, default as nat),
{
    match get_value(values, key) {
        None => default,
        Some(v) => match parse_u64_chars(v.as_slice(), u16::MAX as u64) {
            Some(n) => n as u16,
            None => default,
        },
    }
}

fn get_string(values: &SettingValues, key: &str, default: &str) -> (s: String)
    requires
        values.wf(),
    ensures
        s@ == spec_get_string(values@, key@, default@),
{
    match get_value(values, key) {
        None => default.to_owned(),
        Some(v) => string_from_chars(v.as_slice()),
    }
}

fn get_path(values: &SettingValues, key: &str, default: &str) -> (s: String)
    requires
        values.wf(),
    ensures
        s@ == spec_get_path(values@, key@, default@),
{
    match get_value(values, key) {
        Some(v) => {
            if trim_chars(v.as_slice()).len() > 0 {
                string_from_chars(v.as_slice())
            } else {
                default.to_owned()
            }
        },
        None => default.to_owned(),
    }
}

fn get_non_empty(values: &SettingValues, key: &str) -> (s: Option<String>)
    requires
        values.wf(),
    ensures
        crate::models::opt_view(s) == spec_get_non_empty(values@, key@),
{
    match get_value(values, key) {
        Some(v) => {
            let t = trim_chars(v.as_slice());
            if t.len() > 0 {
                Some(string_from_chars(t.as_slice()))
            } else {
                None
            }
        },
        None => None,
    }
}

fn get_list(values: &SettingValues, key: &str) -> (items: Vec<String>)
    requires
        values.wf(),
    ensures
        string_views(items@) == spec_get_list(values@, key@),
{
    let mut items: Vec<String> = Vec::new();
    match get_value(values, key) {
        Some(v) => {
            let parts = split_char_exec(v.as_slice(), ',');
            let ghost pv = views(parts@);
            let mut i: usize = 0;
            assert(pv.take(0) =~= Seq::<Seq<char>>::empty());
            assert(string_views(items@) =~= Seq::<Seq<char>>::empty());
            while i < parts.len()
                invariant
                    i <= parts@.len(),
                    pv == views(parts@),
                    string_views(items@) == list_items(pv.take(i as int)),
                decreases parts@.len() - i,
            {
                proof {
                    assert(pv.take(i + 1).drop_last() =~= pv.take(i as int));
                    assert(pv.take(i + 1).last() == parts@[i as int]@);
                }
                let p = ascii_lower_exec(trim_chars(parts[i].as_slice()).as_slice());
                if p.len() > 0 && !eq_lit(p.as_slice(), "auto") {
                    let ghost before = string_views(items@);
                    items.push(string_from_chars(p.as_slice()));
                    assert(string_views(items@) =~= before.push(p@));
                }
                i = i + 1;
            }
            assert(pv.take(pv.len() as int) =~= pv);
        },
        None => {
            assert(string_views(items@) =~= Seq::<Seq<char>>::empty());
        },
    }
    items
}

fn copy_strings(v: &Vec<String>) -> (r: Vec<String>)
    ensures
        string_views(r@) == string_views(v@),
{
    let mut r: Vec<String> = Vec::new();
    let mut i: usize = 0;
    while i < v.len()
        invariant
            i <= v@.len(),
            string_views(r@) == string_views(v@).take(i as int),
        decreases v@.len() - i,
    {
        let ghost before = string_views(r@);
        r.push(v[i].clone());
        assert(string_views(r@) =~= before.push(v@[i as int]@));
        i = i + 1;
        assert(string_views(v@).take(i as int) =~= string_views(v@).take(i - 1).push(
            v@[i - 1]@,
        ));
    }
    assert(string_views(v@).take(v@.len() as int) =~= string_views(v@));
    r
}

impl Settings {
    /// The settings given by a set of values, with `root` as the directory
    /// that relative paths start from.
    pub fn from_values(root: String, values: &SettingValues) -> (s: Settings)
        requires
            values.wf(),
        ensures
            settings_match(s, root@, values@),
    {
        let iptv_source_filter = get_list(values, "iptv_source_filter");
        let mut iptv_source_prefer = get_list(values, "iptv_source_prefer");
        if iptv_source_prefer.len() == 0 {
            iptv_source_prefer = copy_strings(&iptv_source_filter);
        }
        let urls_limit = get_usize(values, "urls_limit", 5);
        let request_timeout = get_u64(values, "request_timeout", 10);
        let ipv_type = match get_value(values, "ipv_type") {
            Some(v) => string_from_chars(ascii_lower_exec(v.as_slice()).as_slice()),
            None => "all".to_owned(),
        };
        Settings {
            root,
            open_update: get_bool(values, "open_update", true),
            open_service: get_bool(values, "open_service", true),
            open_local: get_bool(values, "open_local", true),
            open_subscribe: get_bool(values, "open_subscribe", true),
            open_auto_disable_source: get_bool(values, "open_auto_disable_source", true),
            open_history: get_bool(values, "open_history", true),
            open_unmatch_category: get_bool(values, "open_unmatch_category", false),
            open_empty_category: get_bool(values, "open_empty_category", false),
            open_update_time: get_bool(values, "open_update_time", true),
            open_url_info: get_bool(values, "open_url_info", false),
            open_epg: get_bool(values, "open_epg", true),
            open_m3u_result: get_bool(values, "open_m3u_result", true),
            update_startup: get_bool(values, "update_startup", true),
            update_interval: get_u64(values, "update_interval", 12),
            update_time_position: get_string(values, "update_time_position", "top"),
            nginx_http_port: get_u16(values, "nginx_http_port", 8080),
            public_scheme: get_string(values, "public_scheme", "http"),
            public_domain: get_string(values, "public_domain", "127.0.0.1"),
            public_port: get_u16(values, "public_port", 80),
            source_file: get_path(values, "source_file", "config/demo.txt"),
            local_source_list_file: get_path(
                values,
                "local_source_list_file",
                "config/local_sources.txt",
            ),
            subscribe_file: get_path(values, "subscribe_file", "config/subscribe.txt"),
            epg_file: get_path(values, "epg_file", "config/epg.txt"),
            alias_file: get_path(values, "alias_file", "config/alias.txt"),
            blacklist_file: get_path(values, "blacklist_file", "config/blacklist.txt"),
            whitelist_file: get_path(values, "whitelist_file", "config/whitelist.txt"),
            final_file: get_path(values, "final_file", "output/result.txt"),
            epg_output_file: get_path(values, "epg_output_file", "output/epg/epg.xml"),
            urls_limit: if urls_limit >= 1 {
                urls_limit
            } else {
                1
            },
            request_timeout: if request_timeout >= 1 {
                request_timeout
            } else {
                1
            },
            ipv_type,
            ipv_type_prefer: get_list(values, "ipv_type_prefer"),
            origin_type_prefer: get_list(values, "origin_type_prefer"),
            iptv_source_prefer,
            iptv_source_filter,
            default_user_agent: get_string(values, "default_user_agent", "iptv-rs/0.1"),
            http_proxy: get_non_empty(values, "http_proxy"),
            logo_dir: get_path(values, "logo_dir", "config/logo"),
            local_logo_base_url: get_non_empty(values, "local_logo_base_url"),
            logo_url: get_non_empty(values, "logo_url"),
            logo_type: get_string(values, "logo_type", "png"),
        }
    }
}


/// The words that turn a switch on, in any case: `true`, `1`, `yes`, `on`.
pub open spec fn switch_on_word(v: Seq<char>) -> bool {
    let lower = ascii_lower_seq(v);
    ||| lower == "true"@
    ||| lower == "1"@
    ||| lower == "yes"@
    ||| lower == "on"@
}

proof fn lemma_switch_word_chars(v: Seq<char>)
    requires
        switch_on_word(v),
    ensures
        v.len() > 0,
        forall|j: int| 0 <= j < v.len() ==> !is_ws(#[trigger] v[j]) && v[j] != '=' && v[j] != '\n',
{
    reveal_strlit("true");
    reveal_strlit("1");
    reveal_strlit("yes");
    reveal_strlit("on");
    let lower = ascii_lower_seq(v);
    assert(lower.len() == v.len());
    assert forall|j: int| 0 <= j < v.len() implies !is_ws(#[trigger] v[j]) && v[j] != '='
        && v[j] != '\n' by {
        assert(lower[j] == ascii_lower(v[j]));
    }
}

/// Law: a switch that is given is on exactly when its value, trimmed, is
/// `true`, `1`, `yes` or `on` in any case, whatever its default; a switch
/// that is not given keeps its default.
pub proof fn law_switch_words_are_on(m: Map<Seq<char>, Seq<char>>, key: Seq<char>, default: bool)
    ensures
        m.dom().contains(key) ==> spec_get_bool(m, key, default) == switch_on_word(trim(m[key])),
        !m.dom().contains(key) ==> spec_get_bool(m, key, default) == default,
{
    reveal_strlit("true");
    reveal_strlit("1");
    reveal_strlit("yes");
    reveal_strlit("on");
}

/// Law: the settings line `key = value`, with a value that is `true`, `1`,
/// `yes` or `on` in any case, turns the switch `key` (read in lower case)
/// on. The key neither begins nor ends with whitespace, holds no `=` or
/// line break, and does not begin a comment or a section.
pub proof fn law_switch_line_turns_on(key: Seq<char>, value: Seq<char>, default: bool)
    requires
        switch_on_word(value),
        key.len() > 0,
        !is_ws(key[0]),
        !is_ws(key.last()),
        key[0] != '#' && key[0] != ';' && key[0] != '[',
        forall|j: int| 0 <= j < key.len() ==> #[trigger] key[j] != '=' && key[j] != '\n',
    ensures
        spec_get_bool(spec_parse_ini(key + " = "@ + value), ascii_lower_seq(key), default),
{
    reveal_strlit(" = ");
    reveal_strlit("#");
    reveal_strlit(";");
    reveal_strlit("[");
    lemma_switch_word_chars(value);
    let text = key + " = "@ + value;
    let left = key + seq![' '];
    let right = seq![' '] + value;
    assert(text =~= left + seq!['='] + right);
    assert forall|j: int| 0 <= j < text.len() implies #[trigger] text[j] != '\n' by {
        if j < key.len() {
            assert(text[j] == key[j]);
        } else if j >= key.len() + 3 {
            assert(text[j] == value[j - key.len() - 3]);
        }
    }
    lemma_lines_single(text);
    assert(seq![text].drop_last() =~= Seq::<Seq<char>>::empty());
    assert(ini_fold(Seq::<Seq<char>>::empty()) == Map::<Seq<char>, Seq<char>>::empty());
    assert(seq![text].last() == text);
    assert(ini_fold(seq![text]) == ini_step(Map::empty(), text));
    assert(text[0] == key[0]);
    assert(text.last() == value.last());
    lemma_trim_unchanged(text);
    assert(!starts_with(text, "#"@) && !starts_with(text, ";"@) && !starts_with(text, "["@)) by {
        assert(text.take(1)[0] == text[0]);
    }
    assert forall|j: int| 0 <= j < left.len() implies #[trigger] left[j] != '=' by {
        if j < key.len() {
            assert(left[j] == key[j]);
        }
    }
    lemma_split_once_at(left, '=', right);
    lemma_trim_start_skip(left, 0);
    assert(left.skip(0) =~= left);
    lemma_trim_end_take(left, key.len() as int);
    assert(left.take(key.len() as int) =~= key);
    assert(trim(left) == key);
    lemma_trim_start_skip(right, 1);
    assert(right.skip(1) =~= value);
    lemma_trim_end_take(value, value.len() as int);
    assert(value.take(value.len() as int) =~= value);
    assert(trim(right) == value);
    let m = spec_parse_ini(text);
    assert(m == Map::<Seq<char>, Seq<char>>::empty().insert(ascii_lower_seq(key), value));
    law_switch_words_are_on(m, ascii_lower_seq(key), default);
}

} // verus!
