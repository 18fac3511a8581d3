//! Channel aliases and the URL black- and whitelists.
use vstd::prelude::*;
use crate::assoc::AssocList;
use crate::pattern::{compile_pattern, pattern_is_match, regex_matches, regex_valid, CompiledPattern};
use crate::text::{
    append_chars, chars_of, contains, contains_exec, eq_chars, eq_ignore_ascii_case,
    eq_ignore_ascii_case_exec, ends_with, ends_with_exec, lines, lines_exec, replace_all,
    replace_all_exec, find, lemma_replace_all_split, split_char, split_char_exec, split_once, split_once_exec, starts_with, lemma_lists_deep_view, lemma_chars_deep_view,
    starts_with_exec, str_lowercase, str_to_lowercase, string_from_chars, string_views, subvec,
    trim, trim_chars, views,
};

verus! {

broadcast use vstd::string::group_string_axioms;

// ---------------------------------------------------------------------------
// Channel names
// ---------------------------------------------------------------------------

/// Opening brackets whose contents a name loses.
pub open spec fn is_open_bracket(c: char) -> bool {
    c == '(' || c == '（' || c == '[' || c == '「'
}

/// Closing brackets.
pub open spec fn is_close_bracket(c: char) -> bool {
    c == ')' || c == '）' || c == ']' || c == '」'
}

/// Separators that a name loses.
pub open spec fn is_name_separator(c: char) -> bool {
    c == '-' || c == '_' || c == ' ' || c == '｜'
}

/// The characters of a name outside brackets, without separators, with the
/// bracket depth left at the end. A closing bracket never takes the depth
/// below zero.
pub open spec fn strip_brackets(s: Seq<char>) -> (nat, Seq<char>)
    decreases s.len(),
{
    if s.len() == 0 {
        (0, seq![])
    } else {
        let (d, o) = strip_brackets(s.drop_last());
        let c = s.last();
        if is_open_bracket(c) {
            (d + 1, o)
        } else if is_close_bracket(c) {
            (if d > 0 {
                (d - 1) as nat
            } else {
                0
            }, o)
        } else if d > 0 || is_name_separator(c) {
            (d, o)
        } else {
            (d, o.push(c))
        }
    }
}

/// The words that a name loses, removed in this order.
pub open spec fn name_noise_words() -> Seq<Seq<char>> {
    seq![
        "频道"@,
        "普清"@,
        "标清"@,
        "高清"@,
        "HD"@,
        "hd"@,
        "超清"@,
        "超高"@,
        "超高清"@,
        "4K"@,
        "4k"@,
        "中央"@,
        "央视"@,
        "电视台"@,
        "台"@,
        "电信"@,
        "联通"@,
        "移动"@,
    ]
}

/// Every word of `words` removed in turn.
pub open spec fn remove_words(s: Seq<char>, words: Seq<Seq<char>>) -> Seq<char>
    decreases words.len(),
{
    if words.len() == 0 {
        s
    } else {
        replace_all(remove_words(s, words.drop_last()), words.last(), seq![])
    }
}

/// A name with `plus`, `PLUS` and the full-width plus written as `+`.
pub open spec fn plus_normalized(s: Seq<char>) -> Seq<char> {
    replace_all(replace_all(replace_all(s, "plus"@, "+"@), "PLUS"@, "+"@), "＋"@, "+"@)
}

/// The form of a channel name under which aliases are compared: pluses
/// normalized, bracketed parts and separators dropped, quality, network and
/// broadcaster words removed, and the rest in lower case.
pub open spec fn spec_format_name(s: Seq<char>) -> Seq<char> {
    str_lowercase(remove_words(strip_brackets(plus_normalized(s)).1, name_noise_words()))
}

fn replace_lit(s: &[char], from: &str, to: &str) -> (r: Vec<char>)
    ensures
        r@ == replace_all(s@, from@, to@),
{
    let f = chars_of(from);
    let t = chars_of(to);
    replace_all_exec(s, f.as_slice(), t.as_slice())
}

fn remove_lit(s: Vec<char>, word: &str) -> (r: Vec<char>)
    ensures
        r@ == replace_all(s@, word@, seq![]),
{
    let f = chars_of(word);
    let t: Vec<char> = Vec::new();
    replace_all_exec(s.as_slice(), f.as_slice(), t.as_slice())
}

fn remove_noise_word(o: Vec<char>, word: &str, Ghost(base): Ghost<Seq<char>>, Ghost(k): Ghost<int>) -> (r: Vec<char>)
    requires
        0 <= k < name_noise_words().len(),
        o@ == remove_words(base, name_noise_words().take(k)),
        word@ == name_noise_words()[k],
    ensures
        r@ == remove_words(base, name_noise_words().take(k + 1)),
{
    assert(name_noise_words().take(k + 1).drop_last() =~= name_noise_words().take(k));
    remove_lit(o, word)
}

/// The form of a channel name under which aliases are compared.
pub fn format_name(name: &[char]) -> (r: Vec<char>)
    ensures
        r@ == spec_format_name(name@),
{
    let v1 = replace_lit(name, "plus", "+");
    let v2 = replace_lit(v1.as_slice(), "PLUS", "+");
    let value = replace_lit(v2.as_slice(), "＋", "+");
    let mut out: Vec<char> = Vec::new();
    let mut skip_depth: usize = 0;
    let mut i: usize = 0;
    assert(value@.take(0) =~= Seq::<char>::empty());
    while i < value.len()
        invariant
            i <= value@.len(),
            skip_depth <= i,
            strip_brackets(value@.take(i as int)) == (skip_depth as nat, out@),
        decreases value@.len() - i,
    {
        let ch = value[i];
        proof {
            assert(value@.take(i + 1).drop_last() =~= value@.take(i as int));
            assert(value@.take(i + 1).last() == ch);
        }
        i = i + 1;
        if ch == '(' || ch == '（' || ch == '[' || ch == '「' {
            skip_depth = skip_depth + 1;
        } else if ch == ')' || ch == '）' || ch == ']' || ch == '」' {
            if skip_depth > 0 {
                skip_depth = skip_depth - 1;
            }
        } else if skip_depth > 0 {
        } else if ch == '-' || ch == '_' || ch == ' ' || ch == '｜' {
        } else {
            out.push(ch);
        }
    }
    assert(value@.take(value@.len() as int) =~= value@);
    let ghost base = out@;
    assert(name_noise_words().take(0) =~= Seq::<Seq<char>>::empty());
    let mut o = out;
    o = remove_noise_word(o, "频道", Ghost(base), Ghost(0));
    o = remove_noise_word(o, "普清", Ghost(base), Ghost(1));
    o = remove_noise_word(o, "标清", Ghost(base), Ghost(2));
    o = remove_noise_word(o, "高清", Ghost(base), Ghost(3));
    o = remove_noise_word(o, "HD", Ghost(base), Ghost(4));
    o = remove_noise_word(o, "hd", Ghost(base), Ghost(5));
    o = remove_noise_word(o, "超清", Ghost(base), Ghost(6));
    o = remove_noise_word(o, "超高", Ghost(base), Ghost(7));
    o = remove_noise_word(o, "超高清", Ghost(base), Ghost(8));
    o = remove_noise_word(o, "4K", Ghost(base), Ghost(9));
    o = remove_noise_word(o, "4k", Ghost(base), Ghost(10));
    o = remove_noise_word(o, "中央", Ghost(base), Ghost(11));
    o = remove_noise_word(o, "央视", Ghost(base), Ghost(12));
    o = remove_noise_word(o, "电视台", Ghost(base), Ghost(13));
    o = remove_noise_word(o, "台", Ghost(base), Ghost(14));
    o = remove_noise_word(o, "电信", Ghost(base), Ghost(15));
    o = remove_noise_word(o, "联通", Ghost(base), Ghost(16));
    o = remove_noise_word(o, "移动", Ghost(base), Ghost(17));
    assert(name_noise_words().take(18) =~= name_noise_words());
    let text = string_from_chars(o.as_slice());
    let lower = str_to_lowercase(text.as_str());
    chars_of(lower.as_str())
}

/// The pairs of brackets around a part of a name that the name loses.
pub open spec fn name_bracket_pair(open: char, close: char) -> bool {
    ||| (open == '(' && close == ')')
    ||| (open == '（' && close == '）')
    ||| (open == '[' && close == ']')
    ||| (open == '「' && close == '」')
}

/// A text without any of the brackets `(` `（` `[` `「` `)` `）` `]` `」`.
pub open spec fn free_of_name_brackets(x: Seq<char>) -> bool {
    forall|j: int|
        0 <= j < x.len() ==> {
            let c = #[trigger] x[j];
            c != '(' && c != '（' && c != '[' && c != '「' && c != ')' && c != '）' && c != ']'
                && c != '」'
        }
}

spec fn no_bracket(s: Seq<char>) -> bool {
    forall|j: int| 0 <= j < s.len() ==> !is_open_bracket(#[trigger] s[j]) && !is_close_bracket(s[j])
}

proof fn lemma_replace_keeps_no_bracket(s: Seq<char>, from: Seq<char>, to: Seq<char>)
    requires
        no_bracket(s),
        no_bracket(to),
    ensures
        no_bracket(replace_all(s, from, to)),
    decreases s.len(),
{
    if from.len() > 0 {
        match find(s, from) {
            Some(i) => if 0 <= i && i + from.len() <= s.len() {
                let rest = s.skip(i + from.len());
                assert forall|j: int| 0 <= j < rest.len() implies !is_open_bracket(#[trigger] rest[j])
                    && !is_close_bracket(rest[j]) by {
                    assert(rest[j] == s[j + i + from.len()]);
                }
                lemma_replace_keeps_no_bracket(rest, from, to);
                let r = s.take(i) + to + replace_all(rest, from, to);
                assert forall|j: int| 0 <= j < r.len() implies !is_open_bracket(#[trigger] r[j])
                    && !is_close_bracket(r[j]) by {
                    if j < i {
                        assert(r[j] == s[j]);
                    } else if j < i + to.len() {
                        assert(r[j] == to[j - i]);
                    } else {
                        assert(r[j] == replace_all(rest, from, to)[j - i - to.len()]);
                    }
                }
            },
            None => {},
        }
    }
}

/// Replacing a pattern free of the two characters around `x`.
proof fn lemma_replace_around(
    n: Seq<char>,
    o: char,
    x: Seq<char>,
    c: char,
    from: Seq<char>,
    to: Seq<char>,
)
    requires
        from.len() > 0,
        forall|j: int| 0 <= j < from.len() ==> #[trigger] from[j] != o && from[j] != c,
    ensures
        replace_all(n + seq![o] + x + seq![c], from, to) == replace_all(n, from, to) + seq![o]
            + replace_all(x, from, to) + seq![c],
{
    assert(n + seq![o] + x + seq![c] =~= n + seq![o] + (x + seq![c]));
    lemma_replace_all_split(n, o, x + seq![c], from, to);
    assert(x + seq![c] =~= x + seq![c] + Seq::<char>::empty());
    lemma_replace_all_split(x, c, Seq::<char>::empty(), from, to);
    assert(replace_all(Seq::<char>::empty(), from, to) == Seq::<char>::empty());
    assert(replace_all(x, from, to) + seq![c] + Seq::<char>::empty() =~= replace_all(x, from, to)
        + seq![c]);
    assert(replace_all(n, from, to) + seq![o] + (replace_all(x, from, to) + seq![c])
        =~= replace_all(n, from, to) + seq![o] + replace_all(x, from, to) + seq![c]);
}

/// An opening bracket and text without brackets only deepen the nesting.
proof fn lemma_strip_open_part(a: Seq<char>, o: char, x: Seq<char>)
    requires
        is_open_bracket(o),
        no_bracket(x),
    ensures
        strip_brackets(a + seq![o] + x) == (strip_brackets(a).0 + 1, strip_brackets(a).1),
    decreases x.len(),
{
    if x.len() == 0 {
        assert(a + seq![o] + x =~= a + seq![o]);
        assert((a + seq![o]).drop_last() =~= a);
    } else {
        let x2 = x.drop_last();
        assert forall|j: int| 0 <= j < x2.len() implies !is_open_bracket(#[trigger] x2[j])
            && !is_close_bracket(x2[j]) by {
            assert(x2[j] == x[j]);
        }
        lemma_strip_open_part(a, o, x2);
        assert((a + seq![o] + x).drop_last() =~= a + seq![o] + x2);
        assert((a + seq![o] + x).last() == x.last());
        assert(!is_open_bracket(x[x.len() - 1]) && !is_close_bracket(x[x.len() - 1]));
    }
}

/// Law: a bracketed part at the end of a name, in any of the pairs `()`,
/// `（）`, `[]` and `「」`, is dropped from the name's compared form, so an
/// alias of `n` also matches `n(x)`, `n（x）`, `n[x]` and `n「x」`.
pub proof fn law_bracketed_part_is_dropped(n: Seq<char>, open: char, x: Seq<char>, close: char)
    requires
        name_bracket_pair(open, close),
        free_of_name_brackets(x),
    ensures
        spec_format_name(n + seq![open] + x + seq![close]) == spec_format_name(n),
{
    reveal_strlit("plus");
    reveal_strlit("PLUS");
    reveal_strlit("＋");
    reveal_strlit("+");
    let s = n + seq![open] + x + seq![close];
    lemma_replace_around(n, open, x, close, "plus"@, "+"@);
    let n1 = replace_all(n, "plus"@, "+"@);
    let x1 = replace_all(x, "plus"@, "+"@);
    lemma_replace_around(n1, open, x1, close, "PLUS"@, "+"@);
    let n2 = replace_all(n1, "PLUS"@, "+"@);
    let x2 = replace_all(x1, "PLUS"@, "+"@);
    lemma_replace_around(n2, open, x2, close, "＋"@, "+"@);
    let n3 = replace_all(n2, "＋"@, "+"@);
    let x3 = replace_all(x2, "＋"@, "+"@);
    assert(plus_normalized(s) == n3 + seq![open] + x3 + seq![close]);
    assert(plus_normalized(n) == n3);
    assert(no_bracket(x));
    assert(no_bracket("+"@));
    lemma_replace_keeps_no_bracket(x, "plus"@, "+"@);
    lemma_replace_keeps_no_bracket(x1, "PLUS"@, "+"@);
    lemma_replace_keeps_no_bracket(x2, "＋"@, "+"@);
    lemma_strip_open_part(n3, open, x3);
    let t = n3 + seq![open] + x3 + seq![close];
    assert(t.drop_last() =~= n3 + seq![open] + x3);
    assert(t.last() == close);
    assert(strip_brackets(t) == strip_brackets(n3));
}

// ---------------------------------------------------------------------------
// Black- and whitelists
// ---------------------------------------------------------------------------

/// The values kept under a key, with `value` added unless it is already
/// there.
pub open spec fn add_value(
    m: Map<Seq<char>, Seq<Seq<char>>>,
    key: Seq<char>,
    value: Seq<char>,
) -> Map<Seq<char>, Seq<Seq<char>>> {
    if m.dom().contains(key) {
        if m[key].contains(value) {
            m
        } else {
            m.insert(key, m[key].push(value))
        }
    } else {
        m.insert(key, seq![value])
    }
}

/// The lines of a plain list: trimmed, without blank lines and `#` comments.
pub open spec fn plain_list_fold(ls: Seq<Seq<char>>) -> Seq<Seq<char>>
    decreases ls.len(),
{
    if ls.len() == 0 {
        seq![]
    } else {
        let prev = plain_list_fold(ls.drop_last());
        let line = trim(ls.last());
        if line.len() == 0 || starts_with(line, "#"@) {
            prev
        } else {
            prev.push(line)
        }
    }
}

/// The entries of a plain list file.
pub open spec fn spec_load_plain_list(text: Seq<char>) -> Seq<Seq<char>> {
    plain_list_fold(lines(text))
}

/// One line of a whitelist read into the exact (`keyword_section` false) or
/// keyword (`keyword_section` true) part: `[...]` lines switch sections
/// (`[KEYWORDS]` the keyword one), and `channel,value` or a bare `value`
/// (for every channel) adds the value.
pub open spec fn whitelist_step(
    st: (bool, Map<Seq<char>, Seq<Seq<char>>>),
    raw: Seq<char>,
    keyword_section: bool,
) -> (bool, Map<Seq<char>, Seq<Seq<char>>>) {
    let line = trim(raw);
    if line.len() == 0 || starts_with(line, "#"@) {
        st
    } else if starts_with(line, "["@) && ends_with(line, "]"@) {
        (eq_ignore_ascii_case(line, "[KEYWORDS]"@), st.1)
    } else if st.0 != keyword_section {
        st
    } else {
        let (key, value) = match split_once(line, ',') {
            Some((k, v)) => (trim(k), trim(v)),
            None => (seq![], line),
        };
        if value.len() == 0 {
            st
        } else {
            (st.0, add_value(st.1, key, value))
        }
    }
}

/// The lines of a whitelist read in order.
pub open spec fn whitelist_fold(ls: Seq<Seq<char>>, keyword_section: bool) -> (
    bool,
    Map<Seq<char>, Seq<Seq<char>>>,
)
    decreases ls.len(),
{
    if ls.len() == 0 {
        (false, Map::empty())
    } else {
        whitelist_step(whitelist_fold(ls.drop_last(), keyword_section), ls.last(), keyword_section)
    }
}

/// One part of a whitelist file.
pub open spec fn spec_load_whitelist(text: Seq<char>, keyword_section: bool) -> Map<
    Seq<char>,
    Seq<Seq<char>>,
> {
    whitelist_fold(lines(text), keyword_section).1
}

/// The values in order, without empty ones and without repeats.
pub open spec fn spec_dedupe(v: Seq<Seq<char>>) -> Seq<Seq<char>>
    decreases v.len(),
{
    if v.len() == 0 {
        seq![]
    } else {
        let d = spec_dedupe(v.drop_last());
        let x = v.last();
        if x.len() > 0 && !d.contains(x) {
            d.push(x)
        } else {
            d
        }
    }
}

/// The values under `k`, none when there are none.
pub open spec fn values_or_empty(m: Map<Seq<char>, Seq<Seq<char>>>, k: Seq<char>) -> Seq<
    Seq<char>,
> {
    if m.dom().contains(k) {
        m[k]
    } else {
        seq![]
    }
}

/// The URL is listed for the channel (`""` standing for every channel).
pub open spec fn exact_listed(m: Map<Seq<char>, Seq<Seq<char>>>, name: Seq<char>, url: Seq<char>) -> bool {
    m.dom().contains(name) && m[name].contains(url)
}

/// The URL holds a keyword listed for the channel.
pub open spec fn keyword_listed(
    m: Map<Seq<char>, Seq<Seq<char>>>,
    name: Seq<char>,
    url: Seq<char>,
) -> bool {
    m.dom().contains(name) && exists|i: int|
        0 <= i < m[name].len() && contains(url, #[trigger] m[name][i])
}

/// Black- and whitelist rules.
pub struct FilterRules {
    blacklist: Vec<Vec<char>>,
    whitelist_exact: AssocList<Vec<Vec<char>>>,
    whitelist_keywords: AssocList<Vec<Vec<char>>>,
}

/// The mathematical value of [`FilterRules`].
pub struct SpecFilterRules {
    pub blacklist: Seq<Seq<char>>,
    pub exact: Map<Seq<char>, Seq<Seq<char>>>,
    pub keywords: Map<Seq<char>, Seq<Seq<char>>>,
}

impl View for FilterRules {
    type V = SpecFilterRules;

    closed spec fn view(&self) -> SpecFilterRules {
        SpecFilterRules {
            blacklist: views(self.blacklist@),
            exact: self.whitelist_exact@,
            keywords: self.whitelist_keywords@,
        }
    }
}

/// The URL holds a blacklisted keyword.
pub open spec fn spec_is_blacklisted(r: SpecFilterRules, url: Seq<char>) -> bool {
    exists|i: int| 0 <= i < r.blacklist.len() && contains(url, #[trigger] r.blacklist[i])
}

/// The URL is whitelisted for the channel: listed exactly, or holding a
/// listed keyword, for every channel or for this one.
pub open spec fn spec_is_whitelisted(r: SpecFilterRules, url: Seq<char>, name: Seq<char>) -> bool {
    ||| exact_listed(r.exact, seq![], url)
    ||| exact_listed(r.exact, name, url)
    ||| keyword_listed(r.keywords, seq![], url)
    ||| keyword_listed(r.keywords, name, url)
}

/// The whitelisted URLs of a channel: those for every channel, then its own,
/// without repeats.
pub open spec fn spec_whitelist_urls_for(r: SpecFilterRules, name: Seq<char>) -> Seq<Seq<char>> {
    spec_dedupe(values_or_empty(r.exact, seq![]) + values_or_empty(r.exact, name))
}

fn copy_chars(v: &Vec<char>) -> (r: Vec<char>)
    ensures
        r@ == v@,
{
    subvec(v.as_slice(), 0, v.len())
}

fn contains_value(v: &Vec<Vec<char>>, x: &[char]) -> (b: bool)
    ensures
        b == views(v@).contains(x@),
{
    let mut i: usize = 0;
    while i < v.len()
        invariant
            i <= v@.len(),
            forall|j: int| 0 <= j < i ==> #[trigger] views(v@)[j] != x@,
        decreases v@.len() - i,
    {
        if eq_chars(v[i].as_slice(), x) {
            assert(views(v@)[i as int] == x@);
            return true;
        }
        i = i + 1;
    }
    false
}

fn add_to(m: &mut AssocList<Vec<Vec<char>>>, key: Vec<char>, value: Vec<char>)
    requires
        old(m).wf(),
    ensures
        final(m).wf(),
        final(m)@ == add_value(old(m)@, key@, value@),
{
    let ghost m0 = m@;
    let mut vals = match m.take(key.as_slice()) {
        Some(v) => v,
        None => Vec::new(),
    };
    proof {
        lemma_lists_deep_view(vals);
    }
    let ghost start = views(vals@);
    assert(start == values_or_empty(m0, key@));
    let present = contains_value(&vals, value.as_slice());
    if !present {
        vals.push(value);
        assert(views(vals@) =~= start.push(value@));
    }
    proof {
        lemma_lists_deep_view(vals);
    }
    let ghost vv = vals.deep_view();
    m.insert(key, vals);
    proof {
        if m0.dom().contains(key@) {
            if m0[key@].contains(value@) {
                assert(m@ =~= m0);
            } else {
                assert(m@ =~= m0.insert(key@, m0[key@].push(value@)));
            }
        } else {
            assert(vv =~= seq![value@]);
            assert(m@ =~= m0.insert(key@, seq![value@]));
        }
    }
}

fn starts_with_lit(a: &[char], lit: &str) -> (r: bool)
    ensures
        r == starts_with(a@, lit@),
{
    let l = chars_of(lit);
    starts_with_exec(a, l.as_slice())
}

fn load_plain_list(text: &str) -> (r: Vec<Vec<char>>)
    ensures
        views(r@) == spec_load_plain_list(text@),
{
    let chars = chars_of(text);
    let ls = lines_exec(chars.as_slice());
    let ghost lv = views(ls@);
    let mut out: Vec<Vec<char>> = Vec::new();
    let mut i: usize = 0;
    assert(lv.take(0) =~= Seq::<Seq<char>>::empty());
    assert(views(out@) =~= Seq::<Seq<char>>::empty());
    while i < ls.len()
        invariant
            i <= ls@.len(),
            lv == views(ls@),
            plain_list_fold(lv.take(i as int)) == views(out@),
        decreases ls@.len() - i,
    {
        proof {
            assert(lv.take(i + 1).drop_last() =~= lv.take(i as int));
            assert(lv.take(i + 1).last() == ls@[i as int]@);
        }
        let line = trim_chars(ls[i].as_slice());
        i = i + 1;
        if line.len() > 0 && !starts_with_lit(line.as_slice(), "#") {
            let ghost before = views(out@);
            out.push(line);
            assert(views(out@) =~= before.push(line@));
        }
    }
    assert(lv.take(lv.len() as int) =~= lv);
    out
}

fn load_whitelist(text: &str, keyword_section: bool) -> (r: AssocList<Vec<Vec<char>>>)
    ensures
        r.wf(),
        r@ == spec_load_whitelist(text@, keyword_section),
{
    let chars = chars_of(text);
    let ls = lines_exec(chars.as_slice());
    let ghost lv = views(ls@);
    let mut map: AssocList<Vec<Vec<char>>> = AssocList::new();
    let mut in_keywords = false;
    let mut i: usize = 0;
    let kw = chars_of("[KEYWORDS]");
    assert(lv.take(0) =~= Seq::<Seq<char>>::empty());
    while i < ls.len()
        invariant
            i <= ls@.len(),
            lv == views(ls@),
            map.wf(),
            kw@ == "[KEYWORDS]"@,
            whitelist_fold(lv.take(i as int), keyword_section) == (in_keywords, map@),
        decreases ls@.len() - i,
    {
        proof {
            assert(lv.take(i + 1).drop_last() =~= lv.take(i as int));
            assert(lv.take(i + 1).last() == ls@[i as int]@);
        }
        let line = trim_chars(ls[i].as_slice());
        i = i + 1;
        if line.len() == 0 || starts_with_lit(line.as_slice(), "#") {
            continue;
        }
        let close = chars_of("]");
        if starts_with_lit(line.as_slice(), "[") && ends_with_exec(
            line.as_slice(),
            close.as_slice(),
        ) {
            in_keywords = eq_ignore_ascii_case_exec(line.as_slice(), kw.as_slice());
            continue;
        }
        if in_keywords != keyword_section {
            continue;
        }
        let (key, value) = match split_once_exec(line.as_slice(), ',') {
            Some((k, v)) => (trim_chars(k.as_slice()), trim_chars(v.as_slice())),
            None => (Vec::new(), copy_chars(&line)),
        };
        if value.len() == 0 {
            continue;
        }
        add_to(&mut map, key, value);
    }
    assert(lv.take(lv.len() as int) =~= lv);
    map
}

fn dedupe(values: Vec<Vec<char>>) -> (r: Vec<Vec<char>>)
    ensures
        views(r@) == spec_dedupe(views(values@)),
{
    let ghost vv = views(values@);
    let mut out: Vec<Vec<char>> = Vec::new();
    let mut i: usize = 0;
    assert(vv.take(0) =~= Seq::<Seq<char>>::empty());
    assert(views(out@) =~= Seq::<Seq<char>>::empty());
    while i < values.len()
        invariant
            i <= values@.len(),
            vv == views(values@),
            spec_dedupe(vv.take(i as int)) == views(out@),
        decreases values@.len() - i,
    {
        proof {
            assert(vv.take(i + 1).drop_last() =~= vv.take(i as int));
            assert(vv.take(i + 1).last() == values@[i as int]@);
        }
        let v = &values[i];
        if v.len() > 0 && !contains_value(&out, v.as_slice()) {
            let ghost before = views(out@);
            out.push(copy_chars(v));
            assert(views(out@) =~= before.push(v@));
        }
        i = i + 1;
    }
    assert(vv.take(vv.len() as int) =~= vv);
    out
}

impl FilterRules {
    /// Whether the rules' maps are well formed.
    pub closed spec fn wf(&self) -> bool {
        self.whitelist_exact.wf() && self.whitelist_keywords.wf()
    }

    /// No rules at all.
    pub fn empty() -> (r: Self)
        ensures
            r.wf(),
            r@.blacklist == Seq::<Seq<char>>::empty(),
            r@.exact == Map::<Seq<char>, Seq<Seq<char>>>::empty(),
            r@.keywords == Map::<Seq<char>, Seq<Seq<char>>>::empty(),
    {
        let r = FilterRules {
            blacklist: Vec::new(),
            whitelist_exact: AssocList::new(),
            whitelist_keywords: AssocList::new(),
        };
        assert(views(r.blacklist@) =~= Seq::<Seq<char>>::empty());
        r
    }

    /// The rules of a blacklist file and a whitelist file; a missing file
    /// gives no rules.
    pub fn from_files(blacklist_text: Option<&str>, whitelist_text: Option<&str>) -> (r: Self)
        ensures
            r.wf(),
            r@.blacklist == (match blacklist_text {
                Some(t) => spec_load_plain_list(t@),
                None => Seq::<Seq<char>>::empty(),
            }),
            r@.exact == (match whitelist_text {
                Some(t) => spec_load_whitelist(t@, false),
                None => Map::<Seq<char>, Seq<Seq<char>>>::empty(),
            }),
            r@.keywords == (match whitelist_text {
                Some(t) => spec_load_whitelist(t@, true),
                None => Map::<Seq<char>, Seq<Seq<char>>>::empty(),
            }),
    {
        let blacklist = match blacklist_text {
            Some(t) => load_plain_list(t),
            None => Vec::new(),
        };
        let (whitelist_exact, whitelist_keywords) = match whitelist_text {
            Some(t) => (load_whitelist(t, false), load_whitelist(t, true)),
            None => (AssocList::new(), AssocList::new()),
        };
        let r = FilterRules { blacklist, whitelist_exact, whitelist_keywords };
        assert(blacklist_text is None ==> views(r.blacklist@) =~= Seq::<Seq<char>>::empty());
        r
    }

    /// Sets the exact whitelist of a channel (`""` for every channel).
    pub fn insert_whitelist_exact(&mut self, channel_name: &str, urls: Vec<String>)
        requires
            old(self).wf(),
        ensures
            final(self).wf(),
            final(self)@.blacklist == old(self)@.blacklist,
            final(self)@.exact == old(self)@.exact.insert(channel_name@, string_views(urls@)),
            final(self)@.keywords == old(self)@.keywords,
    {
        let vals = chars_list(&urls);
        self.whitelist_exact.insert(chars_of(channel_name), vals);
    }

    /// Sets the whitelist keywords of a channel (`""` for every channel).
    pub fn insert_whitelist_keywords(&mut self, channel_name: &str, keywords: Vec<String>)
        requires
            old(self).wf(),
        ensures
            final(self).wf(),
            final(self)@.blacklist == old(self)@.blacklist,
            final(self)@.exact == old(self)@.exact,
            final(self)@.keywords == old(self)@.keywords.insert(
                channel_name@,
                string_views(keywords@),
            ),
    {
        let vals = chars_list(&keywords);
        self.whitelist_keywords.insert(chars_of(channel_name), vals);
    }

    /// Whether the URL holds a blacklisted keyword.
    pub fn is_blacklisted(&self, url: &str) -> (b: bool)
        ensures
            b == spec_is_blacklisted(self@, url@),
    {
        let u = chars_of(url);
        let mut i: usize = 0;
        while i < self.blacklist.len()
            invariant
                i <= self.blacklist@.len(),
                u@ == url@,
                forall|j: int| 0 <= j < i ==> !contains(url@, #[trigger] views(self.blacklist@)[j]),
            decreases self.blacklist@.len() - i,
        {
            if contains_exec(u.as_slice(), self.blacklist[i].as_slice()) {
                assert(views(self.blacklist@)[i as int] == self.blacklist@[i as int]@);
                assert(contains(url@, self@.blacklist[i as int]));
                return true;
            }
            i = i + 1;
        }
        false
    }

    fn exact_matches(&self, channel_name: &[char], url: &[char]) -> (b: bool)
        requires
            self.wf(),
        ensures
            b == exact_listed(self@.exact, channel_name@, url@),
    {
        match self.whitelist_exact.get(channel_name) {
            Some(urls) => {
                proof {
                    lemma_lists_deep_view(*urls);
                }
                contains_value(urls, url)
            },
            None => false,
        }
    }

    fn keyword_matches(&self, channel_name: &[char], url: &[char]) -> (b: bool)
        requires
            self.wf(),
        ensures
            b == keyword_listed(self@.keywords, channel_name@, url@),
    {
        match self.whitelist_keywords.get(channel_name) {
            Some(keywords) => {
                proof {
                    lemma_lists_deep_view(*keywords);
                }
                let mut i: usize = 0;
                while i < keywords.len()
                    invariant
                        i <= keywords@.len(),
                        self@.keywords.dom().contains(channel_name@),
                        views(keywords@) == self@.keywords[channel_name@],
                        forall|j: int|
                            0 <= j < i ==> !contains(url@, #[trigger] views(keywords@)[j]),
                    decreases keywords@.len() - i,
                {
                    if contains_exec(url, keywords[i].as_slice()) {
                        assert(views(keywords@)[i as int] == keywords@[i as int]@);
                        assert(contains(url@, self@.keywords[channel_name@][i as int]));
                        return true;
                    }
                    i = i + 1;
                }
                false
            },
            None => false,
        }
    }

    /// Whether the URL is whitelisted for the channel.
    pub fn is_whitelisted(&self, url: &str, channel_name: &str) -> (b: bool)
        requires
            self.wf(),
        ensures
            b == spec_is_whitelisted(self@, url@, channel_name@),
    {
        let u = chars_of(url);
        let n = chars_of(channel_name);
        let all: Vec<char> = Vec::new();
        self.exact_matches(all.as_slice(), u.as_slice()) || self.exact_matches(
            n.as_slice(),
            u.as_slice(),
        ) || self.keyword_matches(all.as_slice(), u.as_slice()) || self.keyword_matches(
            n.as_slice(),
            u.as_slice(),
        )
    }

    /// The URLs whitelisted for the channel.
    pub fn whitelist_urls_for(&self, channel_name: &str) -> (urls: Vec<String>)
        requires
            self.wf(),
        ensures
            string_views(urls@) == spec_whitelist_urls_for(self@, channel_name@),
    {
        let mut values: Vec<Vec<char>> = Vec::new();
        let all: Vec<char> = Vec::new();
        let n = chars_of(channel_name);
        match self.whitelist_exact.get(all.as_slice()) {
            Some(v) => {
                proof {
                    lemma_lists_deep_view(*v);
                }
                append_lists(&mut values, v);
            },
            None => {},
        }
        let ghost first = views(values@);
        match self.whitelist_exact.get(n.as_slice()) {
            Some(v) => {
                proof {
                    lemma_lists_deep_view(*v);
                }
                append_lists(&mut values, v);
            },
            None => {},
        }
        assert(views(values@) =~= values_or_empty(self@.exact, seq![]) + values_or_empty(
            self@.exact,
            channel_name@,
        ));
        let d = dedupe(values);
        to_strings(&d)
    }
}

fn append_lists(a: &mut Vec<Vec<char>>, b: &Vec<Vec<char>>)
    ensures
        views(final(a)@) == views(old(a)@) + views(b@),
{
    let ghost a0 = views(a@);
    let mut i: usize = 0;
    while i < b.len()
        invariant
            i <= b@.len(),
            views(a@) == a0 + views(b@).take(i as int),
        decreases b@.len() - i,
    {
        let ghost before = views(a@);
        a.push(copy_chars(&b[i]));
        assert(views(a@) =~= before.push(b@[i as int]@));
        i = i + 1;
        assert(views(b@).take(i as int) =~= views(b@).take(i - 1).push(b@[i - 1]@));
    }
    assert(views(b@).take(b@.len() as int) =~= views(b@));
}

fn chars_list(v: &Vec<String>) -> (r: Vec<Vec<char>>)
    ensures
        r.deep_view() == string_views(v@),
        views(r@) == string_views(v@),
{
    let mut r: Vec<Vec<char>> = Vec::new();
    let mut i: usize = 0;
    while i < v.len()
        invariant
            i <= v@.len(),
            views(r@) == string_views(v@).take(i as int),
        decreases v@.len() - i,
    {
        let ghost before = views(r@);
        r.push(chars_of(v[i].as_str()));
        assert(views(r@) =~= before.push(v@[i as int]@));
        i = i + 1;
        assert(string_views(v@).take(i as int) =~= string_views(v@).take(i - 1).push(v@[i - 1]@));
    }
    assert(string_views(v@).take(v@.len() as int) =~= string_views(v@));
    proof {
        lemma_lists_deep_view(r);
    }
    r
}

fn to_strings(v: &Vec<Vec<char>>) -> (r: Vec<String>)
    ensures
        string_views(r@) == views(v@),
{
    let mut r: Vec<String> = Vec::new();
    let mut i: usize = 0;
    while i < v.len()
        invariant
            i <= v@.len(),
            string_views(r@) == views(v@).take(i as int),
        decreases v@.len() - i,
    {
        let ghost before = string_views(r@);
        r.push(string_from_chars(v[i].as_slice()));
        assert(string_views(r@) =~= before.push(v@[i as int]@));
        i = i + 1;
        assert(views(v@).take(i as int) =~= views(v@).take(i - 1).push(v@[i - 1]@));
    }
    assert(views(v@).take(v@.len() as int) =~= views(v@));
    r
}

// ---------------------------------------------------------------------------
// Aliases
// ---------------------------------------------------------------------------

/// The trimmed pieces that are not empty.
pub open spec fn keep_nonempty_trimmed(ps: Seq<Seq<char>>) -> Seq<Seq<char>>
    decreases ps.len(),
{
    if ps.len() == 0 {
        seq![]
    } else {
        let p = keep_nonempty_trimmed(ps.drop_last());
        let t = trim(ps.last());
        if t.len() > 0 {
            p.push(t)
        } else {
            p
        }
    }
}

/// The aliases of a primary name: its formatted form when that differs,
/// then the names listed after it.
pub open spec fn alias_list(primary: Seq<char>, rest: Seq<Seq<char>>) -> Seq<Seq<char>> {
    let f = spec_format_name(primary);
    if f != primary {
        seq![f] + rest
    } else {
        rest
    }
}

/// Every alias mapped to the primary name, in order.
pub open spec fn insert_aliases(
    m: Map<Seq<char>, Seq<char>>,
    aliases: Seq<Seq<char>>,
    primary: Seq<char>,
) -> Map<Seq<char>, Seq<char>>
    decreases aliases.len(),
{
    if aliases.len() == 0 {
        m
    } else {
        insert_aliases(m, aliases.drop_last(), primary).insert(aliases.last(), primary)
    }
}

/// The patterns among the aliases: those written `re:<pattern>` whose
/// pattern compiles, each with the primary name.
pub open spec fn alias_patterns(aliases: Seq<Seq<char>>, primary: Seq<char>) -> Seq<
    (Seq<char>, Seq<char>),
>
    decreases aliases.len(),
{
    if aliases.len() == 0 {
        seq![]
    } else {
        let p = alias_patterns(aliases.drop_last(), primary);
        let a = aliases.last();
        if starts_with(a, "re:"@) && regex_valid(a.skip(3)) {
            p.push((a.skip(3), primary))
        } else {
            p
        }
    }
}

/// The mathematical value of an [`AliasMatcher`].
pub struct SpecAliasMatcher {
    pub primary_to_aliases: Map<Seq<char>, Seq<Seq<char>>>,
    pub alias_to_primary: Map<Seq<char>, Seq<char>>,
    pub patterns: Seq<(Seq<char>, Seq<char>)>,
}

/// One line of an alias file: `primary,alias,...`; blank lines, comments
/// and lines without a comma are skipped.
pub open spec fn alias_step(st: SpecAliasMatcher, raw: Seq<char>) -> SpecAliasMatcher {
    let line = trim(raw);
    if line.len() == 0 || starts_with(line, "#"@) || !contains(line, ","@) {
        st
    } else {
        let parts = keep_nonempty_trimmed(split_char(line, ','));
        if parts.len() == 0 {
            st
        } else {
            let primary = parts[0];
            let aliases = alias_list(primary, parts.skip(1));
            SpecAliasMatcher {
                primary_to_aliases: st.primary_to_aliases.insert(primary, aliases),
                alias_to_primary: insert_aliases(
                    st.alias_to_primary.insert(primary, primary),
                    aliases,
                    primary,
                ),
                patterns: st.patterns + alias_patterns(aliases, primary),
            }
        }
    }
}

/// A matcher with nothing in it.
pub open spec fn empty_aliases() -> SpecAliasMatcher {
    SpecAliasMatcher {
        primary_to_aliases: Map::empty(),
        alias_to_primary: Map::empty(),
        patterns: seq![],
    }
}

/// The lines of an alias file read in order.
pub open spec fn alias_fold(ls: Seq<Seq<char>>) -> SpecAliasMatcher
    decreases ls.len(),
{
    if ls.len() == 0 {
        empty_aliases()
    } else {
        alias_step(alias_fold(ls.drop_last()), ls.last())
    }
}

/// The primary name of the first pattern that matches.
pub open spec fn first_pattern_match(ps: Seq<(Seq<char>, Seq<char>)>, name: Seq<char>) -> Option<
    Seq<char>,
>
    decreases ps.len(),
{
    if ps.len() == 0 {
        None
    } else if regex_matches(ps[0].0, name) {
        Some(ps[0].1)
    } else {
        first_pattern_match(ps.drop_first(), name)
    }
}

/// The primary name of a channel: by its exact alias, else by the first
/// matching pattern, else by the alias of its formatted form, else the name
/// itself.
pub open spec fn spec_primary_name(m: SpecAliasMatcher, name: Seq<char>) -> Seq<char> {
    if m.alias_to_primary.dom().contains(name) {
        m.alias_to_primary[name]
    } else {
        match first_pattern_match(m.patterns, name) {
            Some(p) => p,
            None => {
                let f = spec_format_name(name);
                if m.alias_to_primary.dom().contains(f) {
                    m.alias_to_primary[f]
                } else {
                    name
                }
            },
        }
    }
}

/// Channel aliases.
pub struct AliasMatcher {
    primary_to_aliases: AssocList<Vec<Vec<char>>>,
    alias_to_primary: AssocList<Vec<char>>,
    patterns: Vec<(CompiledPattern, Vec<char>)>,
}

/// The views of compiled patterns with their primary names.
pub open spec fn pattern_views(p: Seq<(CompiledPattern, Vec<char>)>) -> Seq<(Seq<char>, Seq<char>)> {
    p.map_values(|x: (CompiledPattern, Vec<char>)| (x.0.pattern(), x.1@))
}

impl View for AliasMatcher {
    type V = SpecAliasMatcher;

    closed spec fn view(&self) -> SpecAliasMatcher {
        SpecAliasMatcher {
            primary_to_aliases: self.primary_to_aliases@,
            alias_to_primary: self.alias_to_primary@,
            patterns: pattern_views(self.patterns@),
        }
    }
}

fn keep_parts(ps: &Vec<Vec<char>>) -> (r: Vec<Vec<char>>)
    ensures
        views(r@) == keep_nonempty_trimmed(views(ps@)),
{
    let ghost pv = views(ps@);
    let mut r: Vec<Vec<char>> = Vec::new();
    let mut i: usize = 0;
    assert(pv.take(0) =~= Seq::<Seq<char>>::empty());
    assert(views(r@) =~= Seq::<Seq<char>>::empty());
    while i < ps.len()
        invariant
            i <= ps@.len(),
            pv == views(ps@),
            keep_nonempty_trimmed(pv.take(i as int)) == views(r@),
        decreases ps@.len() - i,
    {
        proof {
            assert(pv.take(i + 1).drop_last() =~= pv.take(i as int));
            assert(pv.take(i + 1).last() == ps@[i as int]@);
        }
        let t = trim_chars(ps[i].as_slice());
        if t.len() > 0 {
            let ghost before = views(r@);
            r.push(t);
            assert(views(r@) =~= before.push(t@));
        }
        i = i + 1;
    }
    assert(pv.take(pv.len() as int) =~= pv);
    r
}

impl AliasMatcher {
    /// Whether the matcher's maps are well formed.
    pub closed spec fn wf(&self) -> bool {
        self.primary_to_aliases.wf() && self.alias_to_primary.wf()
    }

    /// A matcher with no aliases.
    pub fn empty() -> (m: Self)
        ensures
            m.wf(),
            m@ == empty_aliases(),
    {
        let m = AliasMatcher {
            primary_to_aliases: AssocList::new(),
            alias_to_primary: AssocList::new(),
            patterns: Vec::new(),
        };
        assert(pattern_views(m.patterns@) =~= Seq::<(Seq<char>, Seq<char>)>::empty());
        m
    }

    /// Adds a pattern that maps every matching name to `primary`; returns
    /// whether the pattern compiled.
    pub fn add_pattern(&mut self, pattern: &str, primary: &str) -> (added: bool)
        ensures
            added == regex_valid(pattern@),
            final(self)@.primary_to_aliases == old(self)@.primary_to_aliases,
            final(self)@.alias_to_primary == old(self)@.alias_to_primary,
            final(self)@.patterns == (if added {
                old(self)@.patterns.push((pattern@, primary@))
            } else {
                old(self)@.patterns
            }),
            final(self).wf() == old(self).wf(),
    {
        match compile_pattern(pattern) {
            Some(p) => {
                let ghost before = pattern_views(self.patterns@);
                let ghost pv = p.pattern();
                self.patterns.push((p, chars_of(primary)));
                assert(pattern_views(self.patterns@) =~= before.push((pv, primary@)));
                true
            },
            None => false,
        }
    }

    fn add_line_aliases(&mut self, parts: Vec<Vec<char>>)
        requires
            old(self).wf(),
            parts@.len() > 0,
        ensures
            final(self).wf(),
            final(self)@ == ({
                let pv = views(parts@);
                let primary = pv[0];
                let aliases = alias_list(primary, pv.skip(1));
                SpecAliasMatcher {
                    primary_to_aliases: old(self)@.primary_to_aliases.insert(primary, aliases),
                    alias_to_primary: insert_aliases(
                        old(self)@.alias_to_primary.insert(primary, primary),
                        aliases,
                        primary,
                    ),
                    patterns: old(self)@.patterns + alias_patterns(aliases, primary),
                }
            }),
    {
        let ghost pv = views(parts@);
        let primary = copy_chars(&parts[0]);
        assert(primary@ == pv[0]);
        let ghost p0 = self@.patterns;
        self.alias_to_primary.insert(copy_chars(&primary), copy_chars(&primary));
        proof {
            lemma_chars_deep_view(primary);
        }
        let ghost a0 = self@.alias_to_primary;
        let mut aliases: Vec<Vec<char>> = Vec::new();
        let formatted = format_name(primary.as_slice());
        if !eq_chars(formatted.as_slice(), primary.as_slice()) {
            aliases.push(formatted);
        }
        let mut j: usize = 1;
        assert(pv.skip(1).take(0) =~= Seq::<Seq<char>>::empty());
        assert(views(aliases@) =~= alias_list(primary@, pv.skip(1).take(0)));
        while j < parts.len()
            invariant
                1 <= j <= parts@.len(),
                pv == views(parts@),
                views(aliases@) == alias_list(primary@, pv.skip(1).take(j - 1)),
            decreases parts@.len() - j,
        {
            let ghost before = views(aliases@);
            aliases.push(copy_chars(&parts[j]));
            assert(views(aliases@) =~= before.push(parts@[j as int]@));
            assert(pv.skip(1).take(j as int) =~= pv.skip(1).take(j - 1).push(pv[j as int]));
            j = j + 1;
        }
        assert(pv.skip(1).take(j - 1) =~= pv.skip(1));
        let ghost av = views(aliases@);
        let mut k: usize = 0;
        assert(av.take(0) =~= Seq::<Seq<char>>::empty());
        assert(p0 + alias_patterns(av.take(0), primary@) =~= p0);
        while k < aliases.len()
            invariant
                k <= aliases@.len(),
                av == views(aliases@),
                self.alias_to_primary.wf(),
                self.primary_to_aliases.wf(),
                self@.primary_to_aliases == old(self)@.primary_to_aliases,
                self@.alias_to_primary == insert_aliases(a0, av.take(k as int), primary@),
                self@.patterns == p0 + alias_patterns(av.take(k as int), primary@),
            decreases aliases@.len() - k,
        {
            let alias = &aliases[k];
            proof {
                assert(av.take(k + 1).drop_last() =~= av.take(k as int));
                assert(av.take(k + 1).last() == alias@);
                lemma_chars_deep_view(primary);
            }
            self.alias_to_primary.insert(copy_chars(alias), copy_chars(&primary));
            let re = chars_of("re:");
            if starts_with_exec(alias.as_slice(), re.as_slice()) {
                proof {
                    reveal_strlit("re:");
                }
                let pat = subvec(alias.as_slice(), 3, alias.len());
                assert(pat@ =~= alias@.skip(3));
                let pat_text = string_from_chars(pat.as_slice());
                match compile_pattern(pat_text.as_str()) {
                    Some(p) => {
                        let ghost before = pattern_views(self.patterns@);
                        let ghost pp = p.pattern();
                        self.patterns.push((p, copy_chars(&primary)));
                        assert(pattern_views(self.patterns@) =~= before.push((pp, primary@)));
                    },
                    None => {},
                }
            }
            k = k + 1;
        }
        assert(av.take(av.len() as int) =~= av);
        proof {
            lemma_lists_deep_view(aliases);
        }
        self.primary_to_aliases.insert(primary, aliases);
    }

    /// The aliases of an alias file.
    pub fn from_text(text: &str) -> (m: Self)
        ensures
            m.wf(),
            m@ == alias_fold(lines(text@)),
    {
        let mut m = AliasMatcher::empty();
        let chars = chars_of(text);
        let ls = lines_exec(chars.as_slice());
        let ghost lv = views(ls@);
        let mut i: usize = 0;
        assert(lv.take(0) =~= Seq::<Seq<char>>::empty());
        while i < ls.len()
            invariant
                i <= ls@.len(),
                lv == views(ls@),
                m.wf(),
                m@ == alias_fold(lv.take(i as int)),
            decreases ls@.len() - i,
        {
            proof {
                assert(lv.take(i + 1).drop_last() =~= lv.take(i as int));
                assert(lv.take(i + 1).last() == ls@[i as int]@);
            }
            let line = trim_chars(ls[i].as_slice());
            i = i + 1;
            let comma = chars_of(",");
            if line.len() == 0 || starts_with_lit(line.as_slice(), "#") || !contains_exec(
                line.as_slice(),
                comma.as_slice(),
            ) {
                continue;
            }
            let pieces = split_char_exec(line.as_slice(), ',');
            let parts = keep_parts(&pieces);
            if parts.len() == 0 {
                continue;
            }
            m.add_line_aliases(parts);
        }
        assert(lv.take(lv.len() as int) =~= lv);
        m
    }

    /// The primary name of a channel.
    pub fn primary_name(&self, name: &str) -> (r: String)
        requires
            self.wf(),
        ensures
            r@ == spec_primary_name(self@, name@),
    {
        let n = chars_of(name);
        match self.alias_to_primary.get(n.as_slice()) {
            Some(p) => {
                proof {
                    lemma_chars_deep_view(*p);
                }
                return string_from_chars(p.as_slice());
            },
            None => {},
        }
        let ghost pv = pattern_views(self.patterns@);
        let mut i: usize = 0;
        assert(pv.skip(0) =~= pv);
        while i < self.patterns.len()
            invariant
                i <= self.patterns@.len(),
                pv == pattern_views(self.patterns@),
                !self@.alias_to_primary.dom().contains(name@),
                first_pattern_match(pv, name@) == first_pattern_match(pv.skip(i as int), name@),
            decreases self.patterns@.len() - i,
        {
            let ghost rest = pv.skip(i as int);
            assert(rest[0] == (self.patterns@[i as int].0.pattern(), self.patterns@[i as int].1@));
            if pattern_is_match(&self.patterns[i].0, name) {
                return string_from_chars(self.patterns[i].1.as_slice());
            }
            assert(rest.drop_first() =~= pv.skip(i + 1));
            i = i + 1;
        }
        assert(pv.skip(i as int) =~= Seq::<(Seq<char>, Seq<char>)>::empty());
        let formatted = format_name(n.as_slice());
        match self.alias_to_primary.get(formatted.as_slice()) {
            Some(p) => {
                proof {
                    lemma_chars_deep_view(*p);
                }
                string_from_chars(p.as_slice())
            },
            None => name.to_owned(),
        }
    }
}


impl Default for AliasMatcher {
    fn default() -> (m: Self)
        ensures
            m.wf(),
            m@ == empty_aliases(),
    {
        AliasMatcher::empty()
    }
}

impl Default for FilterRules {
    fn default() -> (r: Self)
        ensures
            r.wf(),
            r@.blacklist == Seq::<Seq<char>>::empty(),
            r@.exact == Map::<Seq<char>, Seq<Seq<char>>>::empty(),
            r@.keywords == Map::<Seq<char>, Seq<Seq<char>>>::empty(),
    {
        FilterRules::empty()
    }
}

} // verus!
