//! Character-level text model shared by the parsers: whitespace, trimming,
//! line splitting, searching and case folding, each with a spec function over
//! `Seq<char>` and an executable counterpart over `Vec<char>`.
use vstd::prelude::*;

verus! {

broadcast use vstd::string::group_string_axioms;

// ---------------------------------------------------------------------------
// Specifications
// ---------------------------------------------------------------------------

/// Unicode `White_Space`, the set that `char::is_whitespace` tests.
pub open spec fn is_ws(c: char) -> bool {
    let u = c as u32;
    ||| 9 <= u <= 13
    ||| u == 32
    ||| u == 0x85
    ||| u == 0xA0
    ||| u == 0x1680
    ||| 0x2000 <= u <= 0x200A
    ||| u == 0x2028
    ||| u == 0x2029
    ||| u == 0x202F
    ||| u == 0x205F
    ||| u == 0x3000
}

/// The sequence without its leading whitespace.
pub open spec fn trim_start(s: Seq<char>) -> Seq<char>
    decreases s.len(),
{
    if s.len() > 0 && is_ws(s[0]) {
        trim_start(s.drop_first())
    } else {
        s
    }
}

/// The sequence without its trailing whitespace.
pub open spec fn trim_end(s: Seq<char>) -> Seq<char>
    decreases s.len(),
{
    if s.len() > 0 && is_ws(s.last()) {
        trim_end(s.drop_last())
    } else {
        s
    }
}

/// The sequence without leading and trailing whitespace (`str::trim`).
pub open spec fn trim(s: Seq<char>) -> Seq<char> {
    trim_end(trim_start(s))
}

/// First index at which `c` occurs.
pub open spec fn index_of_char(s: Seq<char>, c: char) -> Option<int>
    decreases s.len(),
{
    if s.len() == 0 {
        None
    } else if s[0] == c {
        Some(0)
    } else {
        match index_of_char(s.drop_first(), c) {
            Some(i) => Some(i + 1),
            None => None,
        }
    }
}

/// Last index at which `c` occurs.
pub open spec fn last_index_of_char(s: Seq<char>, c: char) -> Option<int>
    decreases s.len(),
{
    if s.len() == 0 {
        None
    } else if s.last() == c {
        Some(s.len() - 1)
    } else {
        last_index_of_char(s.drop_last(), c)
    }
}

/// `pat` occurs in `s` starting at index `i`.
pub open spec fn matches_at(s: Seq<char>, pat: Seq<char>, i: int) -> bool {
    0 <= i && i + pat.len() <= s.len() && s.subrange(i, i + pat.len()) == pat
}

/// First index `>= i` at which `pat` occurs.
pub open spec fn find_from(s: Seq<char>, pat: Seq<char>, i: int) -> Option<int>
    decreases s.len() + 1 - i,
{
    if i < 0 || i + pat.len() > s.len() {
        None
    } else if matches_at(s, pat, i) {
        Some(i)
    } else {
        find_from(s, pat, i + 1)
    }
}

/// First index at which `pat` occurs (`str::find`).
pub open spec fn find(s: Seq<char>, pat: Seq<char>) -> Option<int> {
    find_from(s, pat, 0)
}

/// `pat` occurs somewhere in `s` (`str::contains`).
pub open spec fn contains(s: Seq<char>, pat: Seq<char>) -> bool {
    find(s, pat) is Some
}

/// `s` begins with `p`.
pub open spec fn starts_with(s: Seq<char>, p: Seq<char>) -> bool {
    p.len() <= s.len() && s.take(p.len() as int) == p
}

/// `s` ends with `p`.
pub open spec fn ends_with(s: Seq<char>, p: Seq<char>) -> bool {
    p.len() <= s.len() && s.skip(s.len() - p.len()) == p
}

/// A line without the carriage return that ends it.
pub open spec fn strip_cr(l: Seq<char>) -> Seq<char> {
    if l.len() > 0 && l.last() == '\r' {
        l.drop_last()
    } else {
        l
    }
}

/// The lines of a text as `str::lines` yields them: split at `\n`, a `\r`
/// before the `\n` dropped, and no empty line after a final `\n`.
pub open spec fn lines(s: Seq<char>) -> Seq<Seq<char>>
    decreases s.len(),
{
    if s.len() == 0 {
        seq![]
    } else {
        match index_of_char(s, '\n') {
            Some(i) => {
                proof {
                    lemma_index_of_char_bounds(s, '\n');
                }
                seq![strip_cr(s.take(i))] + lines(s.skip(i + 1))
            },
            None => seq![s],
        }
    }
}

/// The pieces of `s` between occurrences of `c` (`str::split` with a char).
pub open spec fn split_char(s: Seq<char>, c: char) -> Seq<Seq<char>>
    decreases s.len(),
{
    match index_of_char(s, c) {
        Some(i) => {
            proof {
                lemma_index_of_char_bounds(s, c);
            }
            seq![s.take(i)] + split_char(s.skip(i + 1), c)
        },
        None => seq![s],
    }
}

/// `str::split_once` with a char.
pub open spec fn split_once(s: Seq<char>, c: char) -> Option<(Seq<char>, Seq<char>)> {
    match index_of_char(s, c) {
        Some(i) => Some((s.take(i), s.skip(i + 1))),
        None => None,
    }
}

/// `char::to_ascii_lowercase`.
pub open spec fn ascii_lower(c: char) -> char {
    if 65 <= (c as u32) <= 90 {
        ((c as u32) + 32) as char
    } else {
        c
    }
}

/// `str::to_ascii_lowercase`.
pub open spec fn ascii_lower_seq(s: Seq<char>) -> Seq<char> {
    s.map_values(|c: char| ascii_lower(c))
}

/// `str::eq_ignore_ascii_case`.
pub open spec fn eq_ignore_ascii_case(a: Seq<char>, b: Seq<char>) -> bool {
    ascii_lower_seq(a) == ascii_lower_seq(b)
}

/// `str::replace` with a non-empty pattern: every non-overlapping occurrence,
/// found from the left, replaced.
pub open spec fn replace_all(s: Seq<char>, from: Seq<char>, to: Seq<char>) -> Seq<char>
    decreases s.len(),
{
    if from.len() == 0 {
        s
    } else {
        match find(s, from) {
            Some(i) => if 0 <= i && i + from.len() <= s.len() {
                s.take(i) + to + replace_all(s.skip(i + from.len()), from, to)
            } else {
                s
            },
            None => s,
        }
    }
}

/// The views of a sequence of character vectors.
pub open spec fn views(v: Seq<Vec<char>>) -> Seq<Seq<char>> {
    v.map_values(|l: Vec<char>| l@)
}

/// The views of a sequence of strings.
pub open spec fn string_views(v: Seq<String>) -> Seq<Seq<char>> {
    v.map_values(|l: String| l@)
}

// ---------------------------------------------------------------------------
// Lemmas
// ---------------------------------------------------------------------------

pub proof fn lemma_trim_start_skip(s: Seq<char>, k: int)
    requires
        0 <= k <= s.len(),
        forall|j: int| 0 <= j < k ==> is_ws(#[trigger] s[j]),
        k == s.len() || !is_ws(s[k]),
    ensures
        trim_start(s) == s.skip(k),
    decreases k,
{
    if k == 0 {
        assert(s.skip(0) =~= s);
    } else {
        lemma_trim_start_skip(s.drop_first(), k - 1);
        assert(s.drop_first().skip(k - 1) =~= s.skip(k));
    }
}

pub proof fn lemma_trim_end_take(s: Seq<char>, k: int)
    requires
        0 <= k <= s.len(),
        forall|j: int| k <= j < s.len() ==> is_ws(#[trigger] s[j]),
        k == 0 || !is_ws(s[k - 1]),
    ensures
        trim_end(s) == s.take(k),
    decreases s.len() - k,
{
    if k == s.len() {
        assert(s.take(k) =~= s);
    } else {
        lemma_trim_end_take(s.drop_last(), k);
        assert(s.drop_last().take(k) =~= s.take(k));
    }
}

pub proof fn lemma_index_of_char(s: Seq<char>, c: char, k: int)
    requires
        0 <= k <= s.len(),
        forall|j: int| 0 <= j < k ==> #[trigger] s[j] != c,
    ensures
        k < s.len() && s[k] == c ==> index_of_char(s, c) == Some(k),
        k == s.len() ==> index_of_char(s, c) is None,
    decreases k,
{
    if k > 0 {
        lemma_index_of_char(s.drop_first(), c, k - 1);
    }
}

pub proof fn lemma_index_of_char_bounds(s: Seq<char>, c: char)
    ensures
        index_of_char(s, c) matches Some(i) ==> 0 <= i < s.len() && s[i] == c && forall|j: int|
            0 <= j < i ==> #[trigger] s[j] != c,
        index_of_char(s, c) is None ==> forall|j: int| 0 <= j < s.len() ==> #[trigger] s[j] != c,
    decreases s.len(),
{
    if s.len() > 0 {
        lemma_index_of_char_bounds(s.drop_first(), c);
        if s[0] != c {
            assert forall|j: int| 1 <= j < s.len() implies s[j] == s.drop_first()[j - 1] by {}
        }
    }
}

pub proof fn lemma_last_index_of_char(s: Seq<char>, c: char, k: int)
    requires
        0 <= k <= s.len(),
        forall|j: int| k <= j < s.len() ==> #[trigger] s[j] != c,
    ensures
        k > 0 && s[k - 1] == c ==> last_index_of_char(s, c) == Some(k - 1),
        k == 0 ==> last_index_of_char(s, c) is None,
    decreases s.len() - k,
{
    if k < s.len() {
        lemma_last_index_of_char(s.drop_last(), c, k);
    }
}

pub proof fn lemma_last_index_of_char_bounds(s: Seq<char>, c: char)
    ensures
        last_index_of_char(s, c) matches Some(i) ==> 0 <= i < s.len() && s[i] == c && forall|
            j: int,
        | i < j < s.len() ==> #[trigger] s[j] != c,
        last_index_of_char(s, c) is None ==> forall|j: int|
            0 <= j < s.len() ==> #[trigger] s[j] != c,
    decreases s.len(),
{
    if s.len() > 0 {
        lemma_last_index_of_char_bounds(s.drop_last(), c);
        assert forall|j: int| 0 <= j < s.len() - 1 implies s[j] == s.drop_last()[j] by {}
    }
}

pub proof fn lemma_find_from(s: Seq<char>, pat: Seq<char>, i: int, k: int)
    requires
        0 <= i <= k,
        forall|j: int| i <= j < k ==> !#[trigger] matches_at(s, pat, j),
    ensures
        matches_at(s, pat, k) ==> find_from(s, pat, i) == Some(k),
        k + pat.len() > s.len() ==> find_from(s, pat, i) is None,
    decreases k - i,
{
    if i < k {
        lemma_find_from(s, pat, i + 1, k);
    }
}

pub proof fn lemma_find_from_bounds(s: Seq<char>, pat: Seq<char>, i: int)
    requires
        0 <= i,
    ensures
        find_from(s, pat, i) matches Some(k) ==> i <= k && matches_at(s, pat, k) && forall|j: int|
            i <= j < k ==> !#[trigger] matches_at(s, pat, j),
        find_from(s, pat, i) is None ==> forall|j: int|
            i <= j ==> !#[trigger] matches_at(s, pat, j),
    decreases s.len() + 1 - i,
{
    if i + pat.len() <= s.len() {
        lemma_find_from_bounds(s, pat, i + 1);
    }
}

/// A text has no more lines than characters.
pub proof fn lemma_lines_len(s: Seq<char>)
    ensures
        lines(s).len() <= s.len(),
    decreases s.len(),
{
    if s.len() > 0 {
        lemma_index_of_char_bounds(s, '\n');
        match index_of_char(s, '\n') {
            Some(i) => {
                lemma_lines_len(s.skip(i + 1));
            },
            None => {},
        }
    }
}

/// A character vector's deep view is its view.
pub proof fn lemma_chars_deep_view(w: Vec<char>)
    ensures
        w.deep_view() == w@,
{
    assert(w.deep_view() =~= w@);
}

/// The deep view of a vector of character vectors is the views of its
/// elements.
pub proof fn lemma_lists_deep_view(v: Vec<Vec<char>>)
    ensures
        v.deep_view() == views(v@),
{
    assert forall|i: int| 0 <= i < v@.len() implies #[trigger] v@[i].deep_view() == v@[i]@ by {
        lemma_chars_deep_view(v@[i]);
    }
    assert(v.deep_view() =~= views(v@));
}

/// A sequence that neither begins nor ends with whitespace is its own trim.
pub proof fn lemma_trim_unchanged(s: Seq<char>)
    requires
        s.len() > 0,
        !is_ws(s[0]),
        !is_ws(s.last()),
    ensures
        trim(s) == s,
{
    lemma_trim_start_skip(s, 0);
    assert(s.skip(0) =~= s);
    lemma_trim_end_take(s, s.len() as int);
    assert(s.take(s.len() as int) =~= s);
}

/// A non-empty text without a line break is one line.
pub proof fn lemma_lines_single(s: Seq<char>)
    requires
        s.len() > 0,
        forall|j: int| 0 <= j < s.len() ==> #[trigger] s[j] != '\n',
    ensures
        lines(s) == seq![s],
{
    lemma_index_of_char(s, '\n', s.len() as int);
}

/// A non-empty line without a line break or a final carriage return,
/// followed by `\n`, is one line.
pub proof fn lemma_lines_single_terminated(s: Seq<char>)
    requires
        s.len() > 0,
        forall|j: int| 0 <= j < s.len() ==> #[trigger] s[j] != '\n',
        s.last() != '\r',
    ensures
        lines(s + seq!['\n']) == seq![s],
{
    let t = s + seq!['\n'];
    assert forall|j: int| 0 <= j < s.len() implies #[trigger] t[j] != '\n' by {
        assert(t[j] == s[j]);
    }
    lemma_index_of_char(t, '\n', s.len() as int);
    assert(t.take(s.len() as int) =~= s);
    assert(t.skip(s.len() as int + 1) =~= Seq::<char>::empty());
    assert(lines(Seq::<char>::empty()) == Seq::<Seq<char>>::empty());
    assert(seq![s] + Seq::<Seq<char>>::empty() =~= seq![s]);
}

/// A pattern whose first character does not occur in a text does not
/// occur in it.
pub proof fn lemma_not_contains(s: Seq<char>, pat: Seq<char>)
    requires
        pat.len() > 0,
        forall|j: int| 0 <= j < s.len() ==> #[trigger] s[j] != pat[0],
    ensures
        !contains(s, pat),
{
    lemma_find_from_bounds(s, pat, 0);
    if let Some(k) = find(s, pat) {
        assert(s.subrange(k, k + pat.len())[0] == s[k]);
    }
}

/// Splitting at the first `c` of `a + c + b`, where `a` has no `c`.
pub proof fn lemma_split_once_at(a: Seq<char>, c: char, b: Seq<char>)
    requires
        forall|j: int| 0 <= j < a.len() ==> #[trigger] a[j] != c,
    ensures
        split_once(a + seq![c] + b, c) == Some((a, b)),
{
    let t = a + seq![c] + b;
    assert forall|j: int| 0 <= j < a.len() implies #[trigger] t[j] != c by {
        assert(t[j] == a[j]);
    }
    lemma_index_of_char(t, c, a.len() as int);
    assert(t.take(a.len() as int) =~= a);
    assert(t.skip(a.len() as int + 1) =~= b);
}

/// The last piece of `a + c + b` split at `c`, where `b` has no `c`, is `b`.
pub proof fn lemma_split_char_last(a: Seq<char>, c: char, b: Seq<char>)
    requires
        forall|j: int| 0 <= j < b.len() ==> #[trigger] b[j] != c,
    ensures
        split_char(a + seq![c] + b, c).len() > 0,
        split_char(a + seq![c] + b, c).last() == b,
    decreases a.len(),
{
    let s = a + seq![c] + b;
    lemma_index_of_char_bounds(s, c);
    assert(s[a.len() as int] == c);
    let i = index_of_char(s, c)->0;
    assert(i <= a.len());
    if i == a.len() {
        assert(s.skip(i + 1) =~= b);
        lemma_index_of_char(b, c, b.len() as int);
        assert(split_char(b, c) == seq![b]);
    } else {
        let a2 = a.skip(i + 1);
        assert(s.skip(i + 1) =~= a2 + seq![c] + b);
        lemma_split_char_last(a2, c, b);
    }
}

/// A text without `c` is one piece.
pub proof fn lemma_split_char_none(s: Seq<char>, c: char)
    requires
        forall|j: int| 0 <= j < s.len() ==> #[trigger] s[j] != c,
    ensures
        split_char(s, c) == seq![s],
{
    lemma_index_of_char(s, c, s.len() as int);
}

/// A text in which a non-empty pattern does not occur is left as it is.
pub proof fn lemma_replace_all_absent(s: Seq<char>, from: Seq<char>, to: Seq<char>)
    requires
        from.len() > 0,
        !contains(s, from),
    ensures
        replace_all(s, from, to) == s,
{
}

/// Replacing a pattern that does not hold `c` works on each side of a `c`
/// separately: no occurrence spans it.
pub proof fn lemma_replace_all_split(
    a: Seq<char>,
    c: char,
    b: Seq<char>,
    from: Seq<char>,
    to: Seq<char>,
)
    requires
        from.len() > 0,
        forall|j: int| 0 <= j < from.len() ==> #[trigger] from[j] != c,
    ensures
        replace_all(a + seq![c] + b, from, to) == replace_all(a, from, to) + seq![c]
            + replace_all(b, from, to),
    decreases a.len(),
{
    let s = a + seq![c] + b;
    let n = from.len();
    let al = a.len() as int;
    // A window of `s` that covers the separator is no match.
    assert forall|j: int| 0 <= j <= al && al < j + n implies !#[trigger] matches_at(s, from, j) by {
        if matches_at(s, from, j) {
            assert(s.subrange(j, j + n)[al - j] == s[al]);
        }
    }
    // Windows inside `a` match as they do in `a`.
    assert forall|j: int| 0 <= j && j + n <= al implies #[trigger] matches_at(s, from, j)
        == matches_at(a, from, j) by {
        assert(s.subrange(j, j + n) =~= a.subrange(j, j + n));
    }
    // Windows inside `b` match as they do in `b`.
    assert forall|j: int| al < j implies #[trigger] matches_at(s, from, j) == matches_at(
        b,
        from,
        j - al - 1,
    ) by {
        if j + n <= s.len() {
            assert(s.subrange(j, j + n) =~= b.subrange(j - al - 1, j - al - 1 + n));
        }
    }
    lemma_find_from_bounds(a, from, 0);
    match find(a, from) {
        Some(i) => {
            assert forall|j: int| 0 <= j < i implies !#[trigger] matches_at(s, from, j) by {
                assert(!matches_at(a, from, j));
            }
            assert(matches_at(s, from, i));
            lemma_find_from(s, from, 0, i);
            assert(s.take(i) =~= a.take(i));
            let a2 = a.skip(i + n);
            assert(s.skip(i + n) =~= a2 + seq![c] + b);
            lemma_replace_all_split(a2, c, b, from, to);
            assert(replace_all(s, from, to) == s.take(i) + to + replace_all(s.skip(i + n), from, to));
            assert(replace_all(a, from, to) == a.take(i) + to + replace_all(a2, from, to));
            assert(replace_all(s, from, to) =~= replace_all(a, from, to) + seq![c] + replace_all(
                b,
                from,
                to,
            ));
        },
        None => {
            assert(replace_all(a, from, to) == a);
            assert forall|j: int| 0 <= j <= al implies !#[trigger] matches_at(s, from, j) by {
                if j + n <= al {
                    assert(!matches_at(a, from, j));
                }
            }
            lemma_find_from_bounds(b, from, 0);
            match find(b, from) {
                Some(k) => {
                    let ks = al + 1 + k;
                    assert forall|j: int| 0 <= j < ks implies !#[trigger] matches_at(s, from, j) by {
                        if j > al {
                            assert(!matches_at(b, from, j - al - 1));
                        }
                    }
                    assert(matches_at(s, from, ks));
                    lemma_find_from(s, from, 0, ks);
                    assert(s.take(ks) =~= a + seq![c] + b.take(k));
                    assert(s.skip(ks + n) =~= b.skip(k + n));
                    assert(replace_all(s, from, to) =~= replace_all(a, from, to) + seq![c]
                        + replace_all(b, from, to));
                },
                None => {
                    assert forall|j: int| 0 <= j implies !#[trigger] matches_at(s, from, j) by {
                        if j > al {
                            assert(!matches_at(b, from, j - al - 1));
                        }
                    }
                    lemma_find_from(s, from, 0, s.len() as int);
                    assert(replace_all(b, from, to) == b);
                },
            }
        },
    }
}

// ---------------------------------------------------------------------------
// Conversions
// ---------------------------------------------------------------------------

/// Collects the characters of a string slice.
pub fn chars_of(s: &str) -> (v: Vec<char>)
    ensures
        v@ == s@,
{
    let mut v: Vec<char> = Vec::new();
    for c in it: s.chars()
        invariant
            v@ == it.seq().take(it.index() as int),
            it.seq() == s@,
    {
        v.push(c);
    }
    v
}

/// Builds an owned string from a sequence of characters
/// (`FromIterator<char> for String`).
#[verifier::external_body]
pub(crate) fn string_from_chars(v: &[char]) -> (s: String)
    ensures
        s@ == v@,
{
    v.iter().collect()
}

/// The lower-case form of a character (`char::to_lowercase`), which may be
/// several characters.
pub uninterp spec fn char_lowercase(c: char) -> Seq<char>;

/// `char::to_lowercase`, collected. Named [`char_lowercase`].
#[verifier::external_body]
pub(crate) fn char_to_lowercase(c: char) -> (r: Vec<char>)
    ensures
        r@ == char_lowercase(c),
{
    c.to_lowercase().collect()
}

/// The lower-case form of a text (`str::to_lowercase`).
pub uninterp spec fn str_lowercase(s: Seq<char>) -> Seq<char>;

/// `str::to_lowercase`. Named [`str_lowercase`].
#[verifier::external_body]
pub(crate) fn str_to_lowercase(s: &str) -> (r: String)
    ensures
        r@ == str_lowercase(s@),
{
    s.to_lowercase()
}

/// Whether a character is alphabetic or numeric (`char::is_alphanumeric`).
pub uninterp spec fn char_alphanumeric(c: char) -> bool;

/// `char::is_alphanumeric`. Named [`char_alphanumeric`].
#[verifier::external_body]
pub(crate) fn char_is_alphanumeric(c: char) -> (b: bool)
    ensures
        b == char_alphanumeric(c),
{
    c.is_alphanumeric()
}

/// A copy of the characters `a..b` of `s`.
pub fn subvec(s: &[char], a: usize, b: usize) -> (r: Vec<char>)
    requires
        a <= b <= s@.len(),
    ensures
        r@ == s@.subrange(a as int, b as int),
{
    let mut r: Vec<char> = Vec::new();
    let mut i = a;
    while i < b
        invariant
            a <= i <= b <= s@.len(),
            r@ == s@.subrange(a as int, i as int),
        decreases b - i,
    {
        r.push(s[i]);
        i = i + 1;
        assert(r@ =~= s@.subrange(a as int, i as int));
    }
    r
}

/// Appends all of `b` to `a`.
pub fn append_chars(a: &mut Vec<char>, b: &[char])
    ensures
        final(a)@ == old(a)@ + b@,
{
    let ghost a0 = a@;
    let mut i: usize = 0;
    while i < b.len()
        invariant
            i <= b@.len(),
            a@ == a0 + b@.take(i as int),
        decreases b@.len() - i,
    {
        a.push(b[i]);
        i = i + 1;
        assert(a@ =~= a0 + b@.take(i as int));
    }
    assert(b@.take(b@.len() as int) =~= b@);
}

// ---------------------------------------------------------------------------
// Executable counterparts
// ---------------------------------------------------------------------------

/// `char::is_whitespace`.
pub fn is_ws_char(c: char) -> (b: bool)
    ensures
        b == is_ws(c),
{
    let u = c as u32;
    (9 <= u && u <= 13) || u == 32 || u == 0x85 || u == 0xA0 || u == 0x1680 || (0x2000 <= u && u
        <= 0x200A) || u == 0x2028 || u == 0x2029 || u == 0x202F || u == 0x205F || u == 0x3000
}

/// `char::to_ascii_lowercase`.
pub fn ascii_lower_char(c: char) -> (r: char)
    ensures
        r == ascii_lower(c),
{
    let u = c as u32;
    if 65 <= u && u <= 90 {
        let b = (u + 32) as u8;
        let r = b as char;
        assert(b == u + 32);
        assert(r == ((c as u32) + 32) as char);
        r
    } else {
        c
    }
}

/// `str::trim_start`.
pub fn trim_start_chars(s: &[char]) -> (r: Vec<char>)
    ensures
        r@ == trim_start(s@),
{
    let n = s.len();
    let mut a: usize = 0;
    while a < n && is_ws_char(s[a])
        invariant
            a <= n == s@.len(),
            forall|j: int| 0 <= j < a ==> is_ws(#[trigger] s@[j]),
        decreases n - a,
    {
        a = a + 1;
    }
    proof {
        lemma_trim_start_skip(s@, a as int);
    }
    let r = subvec(s, a, n);
    assert(r@ =~= s@.skip(a as int));
    r
}

/// `str::trim`.
pub fn trim_chars(s: &[char]) -> (r: Vec<char>)
    ensures
        r@ == trim(s@),
{
    let n = s.len();
    let mut a: usize = 0;
    while a < n && is_ws_char(s[a])
        invariant
            a <= n == s@.len(),
            forall|j: int| 0 <= j < a ==> is_ws(#[trigger] s@[j]),
        decreases n - a,
    {
        a = a + 1;
    }
    proof {
        lemma_trim_start_skip(s@, a as int);
    }
    let mut b: usize = n;
    while b > a && is_ws_char(s[b - 1])
        invariant
            a <= b <= n == s@.len(),
            forall|j: int| b <= j < n ==> is_ws(#[trigger] s@[j]),
        decreases b,
    {
        b = b - 1;
    }
    proof {
        let t = s@.skip(a as int);
        assert forall|j: int| (b - a) <= j < t.len() implies is_ws(#[trigger] t[j]) by {
            assert(t[j] == s@[j + a]);
        }
        lemma_trim_end_take(t, (b - a) as int);
        assert(t.take((b - a) as int) =~= s@.subrange(a as int, b as int));
    }
    subvec(s, a, b)
}

/// Equality of character slices.
pub fn eq_chars(a: &[char], b: &[char]) -> (r: bool)
    ensures
        r == (a@ == b@),
{
    if a.len() != b.len() {
        return false;
    }
    let mut i: usize = 0;
    while i < a.len()
        invariant
            a@.len() == b@.len(),
            i <= a@.len(),
            forall|j: int| 0 <= j < i ==> a@[j] == b@[j],
        decreases a@.len() - i,
    {
        if a[i] != b[i] {
            return false;
        }
        i = i + 1;
    }
    assert(a@ =~= b@);
    true
}

/// `pat` occurs in `s` at `i`.
pub fn matches_at_exec(s: &[char], pat: &[char], i: usize) -> (r: bool)
    ensures
        r == matches_at(s@, pat@, i as int),
{
    if i > s.len() || pat.len() > s.len() - i {
        return false;
    }
    let mut j: usize = 0;
    while j < pat.len()
        invariant
            i + pat@.len() <= s@.len(),
            s@.len() == s.len(),
            j <= pat@.len(),
            forall|k: int| 0 <= k < j ==> s@[i + k] == pat@[k],
        decreases pat@.len() - j,
    {
        if s[i + j] != pat[j] {
            assert(s@.subrange(i as int, i + pat@.len())[j as int] != pat@[j as int]);
            return false;
        }
        j = j + 1;
    }
    assert(s@.subrange(i as int, i + pat@.len()) =~= pat@);
    true
}

/// `str::starts_with`.
pub fn starts_with_exec(s: &[char], p: &[char]) -> (r: bool)
    ensures
        r == starts_with(s@, p@),
{
    let r = matches_at_exec(s, p, 0);
    assert(s@.subrange(0, p@.len() as int) == s@.take(p@.len() as int));
    r
}

/// `str::ends_with`.
pub fn ends_with_exec(s: &[char], p: &[char]) -> (r: bool)
    ensures
        r == ends_with(s@, p@),
{
    if p.len() > s.len() {
        return false;
    }
    let r = matches_at_exec(s, p, s.len() - p.len());
    assert(s@.subrange(s@.len() - p@.len(), s@.len() as int) == s@.skip(s@.len() - p@.len()));
    r
}

/// First index at which `pat` occurs at or after `from`.
pub fn find_from_exec(s: &[char], pat: &[char], from: usize) -> (r: Option<usize>)
    ensures
        r matches Some(k) ==> find_from(s@, pat@, from as int) == Some(k as int),
        r is None ==> find_from(s@, pat@, from as int) is None,
{
    if pat.len() > s.len() || from > s.len() - pat.len() {
        proof {
            lemma_find_from(s@, pat@, from as int, from as int);
        }
        return None;
    }
    let last = s.len() - pat.len();
    let mut i = from;
    loop
        invariant
            from <= i <= last,
            last + pat@.len() == s@.len(),
            forall|j: int| from <= j < i ==> !#[trigger] matches_at(s@, pat@, j),
        decreases last - i,
    {
        if matches_at_exec(s, pat, i) {
            proof {
                lemma_find_from(s@, pat@, from as int, i as int);
            }
            return Some(i);
        }
        if i == last {
            proof {
                lemma_find_from(s@, pat@, from as int, i + 1);
            }
            return None;
        }
        i = i + 1;
    }
}

/// `str::find`.
pub fn find_exec(s: &[char], pat: &[char]) -> (r: Option<usize>)
    ensures
        r matches Some(k) ==> find(s@, pat@) == Some(k as int),
        r is None ==> find(s@, pat@) is None,
{
    find_from_exec(s, pat, 0)
}

/// `str::contains`.
pub fn contains_exec(s: &[char], pat: &[char]) -> (r: bool)
    ensures
        r == contains(s@, pat@),
{
    find_exec(s, pat).is_some()
}

/// First index of `c`.
pub fn index_of_char_exec(s: &[char], c: char) -> (r: Option<usize>)
    ensures
        r matches Some(k) ==> index_of_char(s@, c) == Some(k as int),
        r is None ==> index_of_char(s@, c) is None,
{
    let mut i: usize = 0;
    while i < s.len()
        invariant
            i <= s@.len(),
            forall|j: int| 0 <= j < i ==> #[trigger] s@[j] != c,
        decreases s@.len() - i,
    {
        if s[i] == c {
            proof {
                lemma_index_of_char(s@, c, i as int);
            }
            return Some(i);
        }
        i = i + 1;
    }
    proof {
        lemma_index_of_char(s@, c, i as int);
    }
    None
}

/// First index of `c` at or after `from`.
pub fn index_of_char_from_exec(s: &[char], c: char, from: usize) -> (r: Option<usize>)
    requires
        from <= s@.len(),
    ensures
        r matches Some(k) ==> from <= k && index_of_char(s@.skip(from as int), c) == Some(k - from),
        r is None ==> index_of_char(s@.skip(from as int), c) is None,
{
    let ghost t = s@.skip(from as int);
    let mut i: usize = from;
    while i < s.len()
        invariant
            from <= i <= s@.len(),
            t == s@.skip(from as int),
            forall|j: int| 0 <= j < i - from ==> #[trigger] t[j] != c,
        decreases s@.len() - i,
    {
        assert(t[i - from] == s@[i as int]);
        if s[i] == c {
            proof {
                lemma_index_of_char(t, c, i - from);
            }
            return Some(i);
        }
        i = i + 1;
    }
    proof {
        lemma_index_of_char(t, c, i - from);
    }
    None
}

/// `str::trim_end`.
pub fn trim_end_chars(s: &[char]) -> (r: Vec<char>)
    ensures
        r@ == trim_end(s@),
{
    let n = s.len();
    let mut b: usize = n;
    while b > 0 && is_ws_char(s[b - 1])
        invariant
            b <= n == s@.len(),
            forall|j: int| b <= j < n ==> is_ws(#[trigger] s@[j]),
        decreases b,
    {
        b = b - 1;
    }
    proof {
        lemma_trim_end_take(s@, b as int);
    }
    let r = subvec(s, 0, b);
    assert(r@ =~= s@.take(b as int));
    r
}

/// Last index of `c`.
pub fn last_index_of_char_exec(s: &[char], c: char) -> (r: Option<usize>)
    ensures
        r matches Some(k) ==> last_index_of_char(s@, c) == Some(k as int),
        r is None ==> last_index_of_char(s@, c) is None,
{
    let mut i: usize = s.len();
    while i > 0
        invariant
            i <= s@.len(),
            forall|j: int| i <= j < s@.len() ==> #[trigger] s@[j] != c,
        decreases i,
    {
        if s[i - 1] == c {
            proof {
                lemma_last_index_of_char(s@, c, i as int);
            }
            return Some(i - 1);
        }
        i = i - 1;
    }
    proof {
        lemma_last_index_of_char(s@, c, 0);
    }
    None
}

/// `str::split_once` with a char.
pub fn split_once_exec(s: &[char], c: char) -> (r: Option<(Vec<char>, Vec<char>)>)
    ensures
        r matches Some(p) ==> split_once(s@, c) == Some((p.0@, p.1@)),
        r is None ==> split_once(s@, c) is None,
{
    proof {
        lemma_index_of_char_bounds(s@, c);
    }
    match index_of_char_exec(s, c) {
        Some(i) => {
            let n = s.len();
            assert(i < n);
            let a = subvec(s, 0, i);
            let b = subvec(s, i + 1, n);
            assert(a@ =~= s@.take(i as int));
            assert(b@ =~= s@.skip(i + 1));
            Some((a, b))
        },
        None => None,
    }
}

/// `str::lines`.
pub fn lines_exec(s: &[char]) -> (r: Vec<Vec<char>>)
    ensures
        views(r@) == lines(s@),
{
    let mut r: Vec<Vec<char>> = Vec::new();
    let mut pos: usize = 0;
    let n = s.len();
    assert(s@.skip(0) =~= s@);
    assert(views(r@) + lines(s@) =~= lines(s@));
    while pos < n
        invariant
            pos <= n == s@.len(),
            lines(s@) == views(r@) + lines(s@.skip(pos as int)),
        decreases n - pos,
    {
        let rest = subvec(s, pos, n);
        assert(rest@ =~= s@.skip(pos as int));
        proof {
            lemma_index_of_char_bounds(rest@, '\n');
        }
        match index_of_char_exec(rest.as_slice(), '\n') {
            Some(i) => {
                let mut line = subvec(rest.as_slice(), 0, i);
                assert(line@ =~= rest@.take(i as int));
                if line.len() > 0 && line[line.len() - 1] == '\r' {
                    line.pop();
                }
                assert(line@ =~= strip_cr(rest@.take(i as int)));
                let ghost old_r = r@;
                r.push(line);
                assert(views(r@) =~= views(old_r).push(line@));
                assert(rest@.skip(i + 1) =~= s@.skip(pos + i + 1));
                pos = pos + i + 1;
            },
            None => {
                let ghost old_r = r@;
                r.push(rest);
                assert(views(r@) =~= views(old_r).push(rest@));
                assert(s@.skip(n as int) =~= Seq::<char>::empty());
                pos = n;
            },
        }
    }
    assert(s@.skip(n as int) =~= Seq::<char>::empty());
    assert(views(r@) + seq![] =~= views(r@));
    r
}

/// `str::split` with a char.
pub fn split_char_exec(s: &[char], c: char) -> (r: Vec<Vec<char>>)
    ensures
        views(r@) == split_char(s@, c),
        r@.len() >= 1,
{
    let mut r: Vec<Vec<char>> = Vec::new();
    let mut rest = subvec(s, 0, s.len());
    assert(rest@ =~= s@);
    loop
        invariant
            split_char(s@, c) == views(r@) + split_char(rest@, c),
        decreases rest@.len(),
    {
        proof {
            lemma_index_of_char_bounds(rest@, c);
        }
        match index_of_char_exec(rest.as_slice(), c) {
            Some(i) => {
                let rn = rest.len();
                assert(i < rn);
                let piece = subvec(rest.as_slice(), 0, i);
                let next = subvec(rest.as_slice(), i + 1, rn);
                assert(piece@ =~= rest@.take(i as int));
                assert(next@ =~= rest@.skip(i + 1));
                let ghost old_r = r@;
                r.push(piece);
                assert(views(r@) =~= views(old_r).push(piece@));
                rest = next;
            },
            None => {
                let ghost old_r = r@;
                let ghost rv = rest@;
                r.push(rest);
                assert(views(r@) =~= views(old_r).push(rv));
                assert(views(old_r) + seq![rv] =~= views(old_r).push(rv));
                return r;
            },
        }
    }
}

/// `str::to_ascii_lowercase`.
pub fn ascii_lower_exec(s: &[char]) -> (r: Vec<char>)
    ensures
        r@ == ascii_lower_seq(s@),
{
    let mut r: Vec<char> = Vec::new();
    let mut i: usize = 0;
    while i < s.len()
        invariant
            i <= s@.len(),
            r@ == ascii_lower_seq(s@.take(i as int)),
        decreases s@.len() - i,
    {
        let c = ascii_lower_char(s[i]);
        r.push(c);
        i = i + 1;
        assert(r@ =~= ascii_lower_seq(s@.take(i as int)));
    }
    assert(s@.take(s@.len() as int) =~= s@);
    r
}

/// `str::eq_ignore_ascii_case`.
pub fn eq_ignore_ascii_case_exec(a: &[char], b: &[char]) -> (r: bool)
    ensures
        r == eq_ignore_ascii_case(a@, b@),
{
    let la = ascii_lower_exec(a);
    let lb = ascii_lower_exec(b);
    eq_chars(la.as_slice(), lb.as_slice())
}

/// `str::replace` with a non-empty pattern; an empty pattern leaves the text
/// unchanged.
pub fn replace_all_exec(s: &[char], from: &[char], to: &[char]) -> (r: Vec<char>)
    ensures
        r@ == replace_all(s@, from@, to@),
{
    if from.len() == 0 {
        return subvec(s, 0, s.len());
    }
    let mut out: Vec<char> = Vec::new();
    let mut rest = subvec(s, 0, s.len());
    assert(rest@ =~= s@);
    loop
        invariant
            from@.len() > 0,
            replace_all(s@, from@, to@) == out@ + replace_all(rest@, from@, to@),
        decreases rest@.len(),
    {
        proof {
            lemma_find_from_bounds(rest@, from@, 0);
        }
        match find_exec(rest.as_slice(), from) {
            Some(i) => {
                assert(matches_at(rest@, from@, i as int));
                let rn = rest.len();
                let fln = from.len();
                assert(i + fln <= rn);
                let head = subvec(rest.as_slice(), 0, i);
                let tail = subvec(rest.as_slice(), i + fln, rn);
                assert(head@ =~= rest@.take(i as int));
                assert(tail@ =~= rest@.skip(i + from@.len()));
                let ghost old_out = out@;
                append_chars(&mut out, head.as_slice());
                append_chars(&mut out, to);
                assert(out@ =~= old_out + (rest@.take(i as int) + to@));
                rest = tail;
            },
            None => {
                append_chars(&mut out, rest.as_slice());
                return out;
            },
        }
    }
}

} // verus!
