//! Sort keys made of numbers and texts, compared part by part, and a stable
//! sort by such keys. Texts compare character by character by code point,
//! which is the order of their UTF-8 bytes, a prefix before longer texts.
use vstd::prelude::*;
use crate::text::{subvec, views};

verus! {

/// One part of a sort key.
#[derive(Debug, Clone)]
pub enum KeyPart {
    Num(usize),
    Text(Vec<char>),
}

/// The mathematical value of a [`KeyPart`].
pub enum SpecKeyPart {
    Num(nat),
    Text(Seq<char>),
}

impl View for KeyPart {
    type V = SpecKeyPart;

    open spec fn view(&self) -> SpecKeyPart {
        match self {
            KeyPart::Num(n) => SpecKeyPart::Num(*n as nat),
            KeyPart::Text(t) => SpecKeyPart::Text(t@),
        }
    }
}

/// The value of a key.
pub open spec fn key_view(k: Seq<KeyPart>) -> Seq<SpecKeyPart> {
    k.map_values(|p: KeyPart| p@)
}

/// The values of a list of keys.
pub open spec fn key_list_view(ks: Seq<Vec<KeyPart>>) -> Seq<Seq<SpecKeyPart>> {
    ks.map_values(|k: Vec<KeyPart>| key_view(k@))
}

/// -1, 0 or 1 as `a` comes before, equals or comes after `b`.
pub open spec fn compare_nat(a: nat, b: nat) -> int {
    if a < b {
        -1
    } else if a == b {
        0
    } else {
        1
    }
}

/// Texts compared character by character by code point; a proper prefix
/// comes first.
pub open spec fn compare_text(a: Seq<char>, b: Seq<char>) -> int
    decreases a.len(),
{
    if a.len() == 0 {
        if b.len() == 0 {
            0
        } else {
            -1
        }
    } else if b.len() == 0 {
        1
    } else if a[0] != b[0] {
        compare_nat(a[0] as u32 as nat, b[0] as u32 as nat)
    } else {
        compare_text(a.drop_first(), b.drop_first())
    }
}

/// Two key parts compared; numbers come before texts.
pub open spec fn compare_part(a: SpecKeyPart, b: SpecKeyPart) -> int {
    match (a, b) {
        (SpecKeyPart::Num(x), SpecKeyPart::Num(y)) => compare_nat(x, y),
        (SpecKeyPart::Text(x), SpecKeyPart::Text(y)) => compare_text(x, y),
        (SpecKeyPart::Num(_), SpecKeyPart::Text(_)) => -1,
        (SpecKeyPart::Text(_), SpecKeyPart::Num(_)) => 1,
    }
}

/// Keys compared part by part; a proper prefix comes first.
pub open spec fn compare_keys(a: Seq<SpecKeyPart>, b: Seq<SpecKeyPart>) -> int
    decreases a.len(),
{
    if a.len() == 0 {
        if b.len() == 0 {
            0
        } else {
            -1
        }
    } else if b.len() == 0 {
        1
    } else if compare_part(a[0], b[0]) != 0 {
        compare_part(a[0], b[0])
    } else {
        compare_keys(a.drop_first(), b.drop_first())
    }
}

// ---------------------------------------------------------------------------
// The comparison is a total order
// ---------------------------------------------------------------------------

proof fn lemma_char_code_eq(a: char, b: char)
    ensures
        (a as u32 == b as u32) <==> a == b,
{
}

/// Text comparison is antisymmetric and is 0 exactly on equal texts.
pub proof fn lemma_compare_text_basic(a: Seq<char>, b: Seq<char>)
    ensures
        -1 <= compare_text(a, b) <= 1,
        compare_text(b, a) == -compare_text(a, b),
        compare_text(a, b) == 0 <==> a == b,
    decreases a.len(),
{
    if a.len() > 0 && b.len() > 0 {
        lemma_char_code_eq(a[0], b[0]);
        if a[0] == b[0] {
            lemma_compare_text_basic(a.drop_first(), b.drop_first());
            if a.drop_first() == b.drop_first() {
                assert(a =~= seq![a[0]] + a.drop_first());
                assert(b =~= seq![b[0]] + b.drop_first());
            }
        } else {
            assert(a != b);
        }
    } else if a.len() == 0 && b.len() == 0 {
        assert(a =~= b);
    }
}

/// Text comparison is transitive.
pub proof fn lemma_compare_text_trans(a: Seq<char>, b: Seq<char>, c: Seq<char>)
    requires
        compare_text(a, b) <= 0,
        compare_text(b, c) <= 0,
    ensures
        compare_text(a, c) <= 0,
    decreases a.len(),
{
    if a.len() > 0 && b.len() > 0 && c.len() > 0 {
        lemma_char_code_eq(a[0], b[0]);
        lemma_char_code_eq(b[0], c[0]);
        lemma_char_code_eq(a[0], c[0]);
        if a[0] == b[0] && b[0] == c[0] {
            lemma_compare_text_trans(a.drop_first(), b.drop_first(), c.drop_first());
        }
    }
}

/// Part comparison is antisymmetric and is 0 exactly on equal parts.
pub proof fn lemma_compare_part_basic(a: SpecKeyPart, b: SpecKeyPart)
    ensures
        -1 <= compare_part(a, b) <= 1,
        compare_part(b, a) == -compare_part(a, b),
        compare_part(a, b) == 0 <==> a == b,
{
    match (a, b) {
        (SpecKeyPart::Text(x), SpecKeyPart::Text(y)) => lemma_compare_text_basic(x, y),
        _ => {},
    }
}

/// Part comparison is transitive.
pub proof fn lemma_compare_part_trans(a: SpecKeyPart, b: SpecKeyPart, c: SpecKeyPart)
    requires
        compare_part(a, b) <= 0,
        compare_part(b, c) <= 0,
    ensures
        compare_part(a, c) <= 0,
{
    match (a, b, c) {
        (SpecKeyPart::Text(x), SpecKeyPart::Text(y), SpecKeyPart::Text(z)) => {
            lemma_compare_text_trans(x, y, z);
        },
        _ => {},
    }
}

/// Key comparison is antisymmetric and is 0 exactly on equal keys.
pub proof fn lemma_compare_keys_basic(a: Seq<SpecKeyPart>, b: Seq<SpecKeyPart>)
    ensures
        -1 <= compare_keys(a, b) <= 1,
        compare_keys(b, a) == -compare_keys(a, b),
        compare_keys(a, b) == 0 <==> a == b,
    decreases a.len(),
{
    if a.len() > 0 && b.len() > 0 {
        lemma_compare_part_basic(a[0], b[0]);
        if compare_part(a[0], b[0]) == 0 {
            lemma_compare_keys_basic(a.drop_first(), b.drop_first());
            if a.drop_first() == b.drop_first() {
                assert(a =~= seq![a[0]] + a.drop_first());
                assert(b =~= seq![b[0]] + b.drop_first());
            }
        } else {
            assert(a[0] != b[0]);
        }
    } else if a.len() == 0 && b.len() == 0 {
        assert(a =~= b);
    }
}

/// Key comparison is transitive.
pub proof fn lemma_compare_keys_trans(a: Seq<SpecKeyPart>, b: Seq<SpecKeyPart>, c: Seq<SpecKeyPart>)
    requires
        compare_keys(a, b) <= 0,
        compare_keys(b, c) <= 0,
    ensures
        compare_keys(a, c) <= 0,
    decreases a.len(),
{
    if a.len() > 0 && b.len() > 0 && c.len() > 0 {
        lemma_compare_part_basic(a[0], b[0]);
        lemma_compare_part_basic(b[0], c[0]);
        lemma_compare_part_basic(a[0], c[0]);
        lemma_compare_part_trans(a[0], b[0], c[0]);
        if compare_part(a[0], b[0]) == 0 && compare_part(b[0], c[0]) == 0 {
            lemma_compare_keys_trans(a.drop_first(), b.drop_first(), c.drop_first());
        } else if compare_part(a[0], c[0]) == 0 {
            // a[0] == c[0], so a[0] <= b[0] <= a[0] forces both equal
            lemma_compare_part_trans(b[0], c[0], a[0]);
        }
    }
}

/// A strict step followed by a weak one, or the reverse, is strict.
pub proof fn lemma_compare_keys_strict(a: Seq<SpecKeyPart>, b: Seq<SpecKeyPart>, c: Seq<SpecKeyPart>)
    requires
        compare_keys(a, b) <= 0,
        compare_keys(b, c) <= 0,
        compare_keys(a, b) < 0 || compare_keys(b, c) < 0,
    ensures
        compare_keys(a, c) < 0,
{
    lemma_compare_keys_trans(a, b, c);
    lemma_compare_keys_basic(a, b);
    lemma_compare_keys_basic(b, c);
    lemma_compare_keys_basic(a, c);
}

// ---------------------------------------------------------------------------
// Stable sorting
// ---------------------------------------------------------------------------

/// `j` occurs in `p`.
pub open spec fn listed(p: Seq<int>, j: int) -> bool {
    exists|i: int| 0 <= i < p.len() && #[trigger] p[i] == j
}

/// `p` lists each of `0..n` once.
pub open spec fn is_perm(p: Seq<int>, n: nat) -> bool {
    &&& p.len() == n
    &&& forall|i: int| 0 <= i < n ==> 0 <= #[trigger] p[i] < n
    &&& forall|i: int, j: int| 0 <= i < j < n ==> #[trigger] p[i] != #[trigger] p[j]
    &&& forall|j: int| 0 <= j < n ==> #[trigger] listed(p, j)
}

spec fn covered(p: Seq<int>, rem: Seq<int>, j: int) -> bool {
    listed(p, j) || listed(rem, j)
}

/// Taking the items at `p` in turn gives keys in order, items with equal
/// keys in their first order.
pub open spec fn keys_in_order(ks: Seq<Seq<SpecKeyPart>>, p: Seq<int>) -> bool {
    forall|i: int, j: int|
        #![trigger p[i], p[j]]
        0 <= i < j < p.len() ==> compare_keys(ks[p[i]], ks[p[j]]) < 0 || (compare_keys(
            ks[p[i]],
            ks[p[j]],
        ) == 0 && p[i] < p[j])
}

/// `r` is `items` sorted by their keys `ks`, items with equal keys keeping
/// their order: `r[i]` is `items[p[i]]` for such an arrangement `p`.
pub open spec fn stable_sort_of<T>(r: Seq<T>, items: Seq<T>, ks: Seq<Seq<SpecKeyPart>>) -> bool {
    exists|p: Seq<int>|
        is_perm(p, items.len()) && keys_in_order(ks, p) && r.len() == items.len() && forall|
            i: int,
        |
            0 <= i < r.len() ==> #[trigger] r[i] == items[p[i]]
}

/// Sorting commutes with taking a value of each item.
pub proof fn lemma_stable_sort_map<T, U>(
    r: Seq<T>,
    items: Seq<T>,
    ks: Seq<Seq<SpecKeyPart>>,
    f: spec_fn(T) -> U,
)
    requires
        stable_sort_of(r, items, ks),
    ensures
        stable_sort_of(r.map_values(f), items.map_values(f), ks),
{
    let p = choose|p: Seq<int>|
        is_perm(p, items.len()) && keys_in_order(ks, p) && r.len() == items.len() && forall|
            i: int,
        |
            0 <= i < r.len() ==> #[trigger] r[i] == items[p[i]];
    let rm = r.map_values(f);
    let im = items.map_values(f);
    assert forall|i: int| 0 <= i < rm.len() implies #[trigger] rm[i] == im[p[i]] by {
        assert(r[i] == items[p[i]]);
    }
}

/// Texts compared as [`compare_text`].
pub fn compare_text_exec(a: &[char], b: &[char]) -> (c: i8)
    ensures
        c == compare_text(a@, b@),
{
    let n = a.len();
    let m = b.len();
    let mut i: usize = 0;
    assert(a@.skip(0) =~= a@);
    assert(b@.skip(0) =~= b@);
    while i < n && i < m
        invariant
            i <= n == a@.len(),
            m == b@.len(),
            i <= m,
            compare_text(a@, b@) == compare_text(a@.skip(i as int), b@.skip(i as int)),
        decreases n - i,
    {
        assert(a@.skip(i as int)[0] == a@[i as int]);
        assert(b@.skip(i as int)[0] == b@[i as int]);
        if a[i] != b[i] {
            proof {
                lemma_char_code_eq(a[i as int], b[i as int]);
            }
            if (a[i] as u32) < (b[i] as u32) {
                return -1;
            } else {
                return 1;
            }
        }
        assert(a@.skip(i as int).drop_first() =~= a@.skip(i + 1));
        assert(b@.skip(i as int).drop_first() =~= b@.skip(i + 1));
        i = i + 1;
    }
    if i == n {
        if i == m {
            0
        } else {
            -1
        }
    } else {
        1
    }
}

fn compare_part_exec(a: &KeyPart, b: &KeyPart) -> (c: i8)
    ensures
        c == compare_part(a@, b@),
{
    match (a, b) {
        (KeyPart::Num(x), KeyPart::Num(y)) => {
            if *x < *y {
                -1
            } else if *x == *y {
                0
            } else {
                1
            }
        },
        (KeyPart::Text(x), KeyPart::Text(y)) => compare_text_exec(x.as_slice(), y.as_slice()),
        (KeyPart::Num(_), KeyPart::Text(_)) => -1,
        (KeyPart::Text(_), KeyPart::Num(_)) => 1,
    }
}

/// Keys compared as [`compare_keys`].
pub fn compare_keys_exec(a: &Vec<KeyPart>, b: &Vec<KeyPart>) -> (c: i8)
    ensures
        c == compare_keys(key_view(a@), key_view(b@)),
{
    let ghost av = key_view(a@);
    let ghost bv = key_view(b@);
    let n = a.len();
    let m = b.len();
    let mut i: usize = 0;
    assert(av.skip(0) =~= av);
    assert(bv.skip(0) =~= bv);
    while i < n && i < m
        invariant
            i <= n == a@.len() == av.len(),
            m == b@.len() == bv.len(),
            i <= m,
            av == key_view(a@),
            bv == key_view(b@),
            compare_keys(av, bv) == compare_keys(av.skip(i as int), bv.skip(i as int)),
        decreases n - i,
    {
        assert(av.skip(i as int)[0] == a@[i as int]@);
        assert(bv.skip(i as int)[0] == b@[i as int]@);
        let c = compare_part_exec(&a[i], &b[i]);
        if c != 0 {
            return c;
        }
        assert(av.skip(i as int).drop_first() =~= av.skip(i + 1));
        assert(bv.skip(i as int).drop_first() =~= bv.skip(i + 1));
        i = i + 1;
    }
    if i == n {
        if i == m {
            0
        } else {
            -1
        }
    } else {
        1
    }
}

/// The items sorted by their keys, items with equal keys keeping their
/// order.
pub fn stable_sort<T>(items: Vec<T>, keys: Vec<Vec<KeyPart>>) -> (r: Vec<T>)
    requires
        items@.len() == keys@.len(),
    ensures
        stable_sort_of(r@, items@, key_list_view(keys@)),
{
    let ghost orig = items@;
    let ghost ks = key_list_view(keys@);
    let ghost n = items@.len();
    let mut rem_items = items;
    let mut rem_keys = keys;
    let ghost mut rem: Seq<int> = Seq::new(n, |i: int| i);
    let ghost mut p: Seq<int> = Seq::empty();
    let mut out: Vec<T> = Vec::new();
    assert forall|j: int| 0 <= j < n implies #[trigger] covered(p, rem, j) by {
        assert(rem[j] == j);
    }
    while rem_items.len() > 0
        invariant
            ks.len() == n == orig.len(),
            rem_items@.len() == rem_keys@.len() == rem.len(),
            out@.len() == p.len(),
            p.len() + rem.len() == n,
            forall|k: int| 0 <= k < rem.len() ==> 0 <= #[trigger] rem[k] < n,
            forall|k: int| 0 <= k < rem.len() ==> rem_items@[k] == orig[#[trigger] rem[k]],
            forall|k: int| 0 <= k < rem.len() ==> key_view(rem_keys@[k]@) == ks[#[trigger] rem[k]],
            forall|a: int, b: int| 0 <= a < b < rem.len() ==> #[trigger] rem[a] < #[trigger] rem[b],
            forall|i: int| 0 <= i < p.len() ==> 0 <= #[trigger] p[i] < n,
            forall|i: int| 0 <= i < p.len() ==> #[trigger] out@[i] == orig[p[i]],
            forall|i: int, j: int| 0 <= i < j < p.len() ==> #[trigger] p[i] != #[trigger] p[j],
            forall|i: int, k: int|
                0 <= i < p.len() && 0 <= k < rem.len() ==> #[trigger] p[i] != #[trigger] rem[k],
            forall|j: int| 0 <= j < n ==> #[trigger] covered(p, rem, j),
            keys_in_order(ks, p),
            forall|i: int, k: int|
                #![trigger p[i], rem[k]]
                0 <= i < p.len() && 0 <= k < rem.len() ==> compare_keys(ks[p[i]], ks[rem[k]]) < 0
                    || (compare_keys(ks[p[i]], ks[rem[k]]) == 0 && p[i] < rem[k]),
        decreases rem_items@.len(),
    {
        let len = rem_keys.len();
        let mut m: usize = 0;
        let mut k: usize = 1;
        proof {
            lemma_compare_keys_basic(ks[rem[0]], ks[rem[0]]);
        }
        while k < len
            invariant
                len == rem_keys@.len() == rem.len(),
                ks.len() == n,
                forall|k2: int| 0 <= k2 < rem.len() ==> 0 <= #[trigger] rem[k2] < n,
                1 <= k <= len,
                m < k,
                forall|k2: int| 0 <= k2 < rem.len() ==> key_view(rem_keys@[k2]@) == ks[#[trigger] rem[k2]],
                forall|j: int|
                    0 <= j < k ==> compare_keys(ks[rem[m as int]], ks[#[trigger] rem[j]]) <= 0,
                forall|j: int|
                    0 <= j < m ==> compare_keys(ks[rem[m as int]], ks[#[trigger] rem[j]]) < 0,
            decreases len - k,
        {
            let c = compare_keys_exec(&rem_keys[k], &rem_keys[m]);
            if c < 0 {
                proof {
                    assert forall|j: int| 0 <= j < k implies compare_keys(
                        ks[rem[k as int]],
                        ks[#[trigger] rem[j]],
                    ) < 0 by {
                        lemma_compare_keys_strict(ks[rem[k as int]], ks[rem[m as int]], ks[rem[j]]);
                    }
                    lemma_compare_keys_basic(ks[rem[k as int]], ks[rem[k as int]]);
                }
                m = k;
            } else {
                proof {
                    lemma_compare_keys_basic(ks[rem[k as int]], ks[rem[m as int]]);
                }
            }
            k = k + 1;
        }
        let ghost x = rem[m as int];
        proof {
            lemma_compare_keys_basic(ks[x], ks[x]);
            // every item left behind comes after the chosen one
            assert forall|j: int| 0 <= j < rem.len() && j != m implies compare_keys(
                ks[x],
                ks[#[trigger] rem[j]],
            ) < 0 || (compare_keys(ks[x], ks[rem[j]]) == 0 && x < rem[j]) by {
                if j > m {
                    assert(rem[m as int] < rem[j]);
                }
            }
        }
        let item = rem_items.remove(m);
        let _key = rem_keys.remove(m);
        let ghost old_out = out@;
        out.push(item);
        let ghost old_rem = rem;
        let ghost old_p = p;
        proof {
            p = p.push(x);
            rem = rem.remove(m as int);
            assert forall|k2: int| 0 <= k2 < rem.len() implies #[trigger] rem[k2] == old_rem[if k2
                < m {
                k2
            } else {
                k2 + 1
            }] by {}
            assert forall|i: int, j: int| 0 <= i < j < p.len() implies #[trigger] p[i]
                != #[trigger] p[j] by {
                if j == p.len() - 1 {
                    assert(old_p[i] != old_rem[m as int]);
                } else {
                    assert(old_p[i] != old_p[j]);
                }
            }
            assert forall|i: int, j: int|
                #![trigger p[i], p[j]]
                0 <= i < j < p.len() implies compare_keys(ks[p[i]], ks[p[j]]) < 0 || (
                compare_keys(ks[p[i]], ks[p[j]]) == 0 && p[i] < p[j]) by {
                if j == p.len() - 1 {
                    assert(p[j] == old_rem[m as int]);
                    assert(p[i] == old_p[i]);
                } else {
                    assert(p[i] == old_p[i] && p[j] == old_p[j]);
                }
            }
            assert forall|i: int, k2: int|
                #![trigger p[i], rem[k2]]
                0 <= i < p.len() && 0 <= k2 < rem.len() implies compare_keys(ks[p[i]], ks[rem[k2]])
                < 0 || (compare_keys(ks[p[i]], ks[rem[k2]]) == 0 && p[i] < rem[k2]) by {
                let ok = if k2 < m {
                    k2
                } else {
                    k2 + 1
                };
                assert(rem[k2] == old_rem[ok]);
                if i == p.len() - 1 {
                    assert(p[i] == x);
                } else {
                    assert(p[i] == old_p[i]);
                }
            }
            assert forall|i: int, k2: int|
                0 <= i < p.len() && 0 <= k2 < rem.len() implies #[trigger] p[i]
                != #[trigger] rem[k2] by {
                let ok = if k2 < m {
                    k2
                } else {
                    k2 + 1
                };
                assert(rem[k2] == old_rem[ok]);
                if i == p.len() - 1 {
                    assert(old_rem[m as int] != old_rem[ok]) by {
                        if ok < m {
                            assert(old_rem[ok] < old_rem[m as int]);
                        } else {
                            assert(old_rem[m as int] < old_rem[ok]);
                        }
                    }
                } else {
                    assert(p[i] == old_p[i]);
                }
            }
            assert forall|k2: int| 0 <= k2 < rem.len() implies rem_items@[k2] == orig[
                #[trigger] rem[k2]] by {
                let ok = if k2 < m {
                    k2
                } else {
                    k2 + 1
                };
                assert(rem[k2] == old_rem[ok]);
            }
            assert forall|k2: int| 0 <= k2 < rem.len() implies key_view(rem_keys@[k2]@) == ks[
                #[trigger] rem[k2]] by {
                let ok = if k2 < m {
                    k2
                } else {
                    k2 + 1
                };
                assert(rem[k2] == old_rem[ok]);
            }
            assert forall|a: int, b: int| 0 <= a < b < rem.len() implies #[trigger] rem[a]
                < #[trigger] rem[b] by {
                let oa = if a < m {
                    a
                } else {
                    a + 1
                };
                let ob = if b < m {
                    b
                } else {
                    b + 1
                };
                assert(rem[a] == old_rem[oa] && rem[b] == old_rem[ob]);
            }
            assert forall|j: int| 0 <= j < n implies #[trigger] covered(p, rem, j) by {
                assert(covered(old_p, old_rem, j));
                if listed(old_p, j) {
                    let i = choose|i: int| 0 <= i < old_p.len() && #[trigger] old_p[i] == j;
                    assert(p[i] == j);
                } else {
                    let k2 = choose|k2: int| 0 <= k2 < old_rem.len() && #[trigger] old_rem[k2] == j;
                    if k2 == m {
                        assert(p[p.len() - 1] == j);
                    } else if k2 < m {
                        assert(rem[k2] == j);
                    } else {
                        assert(rem[k2 - 1] == j);
                    }
                }
            }
            assert forall|i: int| 0 <= i < p.len() implies #[trigger] out@[i] == orig[p[i]] by {
                if i < p.len() - 1 {
                    assert(out@[i] == old_out[i]);
                    assert(p[i] == old_p[i]);
                }
            }
        }
    }
    proof {
        assert(rem.len() == 0);
        assert forall|j: int| 0 <= j < n implies #[trigger] listed(p, j) by {
            assert(covered(p, rem, j));
        }
        assert(is_perm(p, n));
        assert forall|i: int| 0 <= i < out@.len() implies #[trigger] out@[i] == orig[p[i]] by {}
    }
    out
}

/// A key of one text compares as the text.
pub proof fn lemma_compare_single_text(a: Seq<char>, b: Seq<char>)
    ensures
        compare_keys(seq![SpecKeyPart::Text(a)], seq![SpecKeyPart::Text(b)]) == compare_text(a, b),
{
    assert(seq![SpecKeyPart::Text(a)].drop_first() =~= Seq::<SpecKeyPart>::empty());
    assert(seq![SpecKeyPart::Text(b)].drop_first() =~= Seq::<SpecKeyPart>::empty());
    assert(compare_keys(Seq::<SpecKeyPart>::empty(), Seq::<SpecKeyPart>::empty()) == 0);
}

/// Texts sorted in increasing order.
pub fn sort_texts(v: Vec<Vec<char>>) -> (r: Vec<Vec<char>>)
    ensures
        r@.len() == v@.len(),
        forall|i: int, j: int|
            0 <= i < j < r@.len() ==> compare_text(#[trigger] views(r@)[i], #[trigger] views(r@)[j])
                <= 0,
        forall|x: Seq<char>| #[trigger] views(r@).contains(x) <==> views(v@).contains(x),
{
    let mut keys: Vec<Vec<KeyPart>> = Vec::new();
    let mut i: usize = 0;
    while i < v.len()
        invariant
            i <= v@.len(),
            keys@.len() == i,
            forall|j: int|
                0 <= j < i ==> key_view(#[trigger] keys@[j]@) == seq![SpecKeyPart::Text(v@[j]@)],
        decreases v@.len() - i,
    {
        let t = subvec(v[i].as_slice(), 0, v[i].len());
        assert(t@ =~= v@[i as int]@);
        let mut k: Vec<KeyPart> = Vec::new();
        k.push(KeyPart::Text(t));
        assert(key_view(k@) =~= seq![SpecKeyPart::Text(v@[i as int]@)]);
        keys.push(k);
        i = i + 1;
    }
    let ghost vv = views(v@);
    let ghost ks = key_list_view(keys@);
    assert(ks =~= vv.map_values(|t: Seq<char>| seq![SpecKeyPart::Text(t)]));
    let ghost items = v@;
    let r = stable_sort(v, keys);
    proof {
        lemma_stable_sort_map(r@, items, ks, |x: Vec<char>| x@);
        assert(views(r@) =~= r@.map_values(|x: Vec<char>| x@));
        assert(vv =~= items.map_values(|x: Vec<char>| x@));
        let rv = views(r@);
        let p = choose|p: Seq<int>|
            is_perm(p, vv.len()) && keys_in_order(ks, p) && rv.len() == vv.len() && forall|i: int|
                0 <= i < rv.len() ==> #[trigger] rv[i] == vv[p[i]];
        assert forall|i: int, j: int| 0 <= i < j < rv.len() implies compare_text(
            #[trigger] rv[i],
            #[trigger] rv[j],
        ) <= 0 by {
            assert(rv[i] == vv[p[i]] && rv[j] == vv[p[j]]);
            lemma_compare_single_text(vv[p[i]], vv[p[j]]);
        }
        assert forall|x: Seq<char>| #[trigger] rv.contains(x) <==> vv.contains(x) by {
            if rv.contains(x) {
                let i = choose|i: int| 0 <= i < rv.len() && rv[i] == x;
                assert(rv[i] == vv[p[i]]);
            }
            if vv.contains(x) {
                let j = choose|j: int| 0 <= j < vv.len() && vv[j] == x;
                assert(listed(p, j));
                let i = choose|i: int| 0 <= i < p.len() && #[trigger] p[i] == j;
                assert(rv[i] == x);
            }
        }
    }
    r
}

} // verus!
