//! Canonically ordered collections of values keyed by sequences of identity texts.

use vstd::prelude::*;

use crate::order::{
    compare_text, lemma_text_lt_irreflexive, lemma_text_lt_total, lemma_text_lt_transitive,
    text_lt, KeyOrder,
};

verus! {

/// A key: a tuple of identity texts compared field by field.
pub type Key = Seq<Seq<char>>;

/// Strict lexicographic order on keys, comparing fields in canonical text order.
pub open spec fn key_lt(a: Key, b: Key) -> bool
    decreases a.len(),
{
    if a.len() == 0 {
        b.len() > 0
    } else if b.len() == 0 {
        false
    } else if text_lt(a[0], b[0]) {
        true
    } else if a[0] != b[0] {
        false
    } else {
        key_lt(a.drop_first(), b.drop_first())
    }
}

/// The order of two keys as `KeyOrder`.
pub open spec fn key_order(a: Key, b: Key) -> KeyOrder {
    if a == b {
        KeyOrder::Equal
    } else if key_lt(a, b) {
        KeyOrder::Less
    } else {
        KeyOrder::Greater
    }
}

pub proof fn lemma_key_lt_irreflexive(a: Key)
    ensures
        !key_lt(a, a),
    decreases a.len(),
{
    if a.len() > 0 {
        lemma_text_lt_irreflexive(a[0]);
        lemma_key_lt_irreflexive(a.drop_first());
    }
}

pub proof fn lemma_key_lt_total(a: Key, b: Key)
    ensures
        a == b || key_lt(a, b) || key_lt(b, a),
        !(key_lt(a, b) && key_lt(b, a)),
    decreases a.len(),
{
    if a.len() > 0 && b.len() > 0 {
        lemma_text_lt_total(a[0], b[0]);
        if a[0] == b[0] {
            lemma_text_lt_irreflexive(a[0]);
            lemma_key_lt_total(a.drop_first(), b.drop_first());
            if a.drop_first() =~= b.drop_first() {
                assert(a =~= seq![a[0]] + a.drop_first());
                assert(b =~= seq![b[0]] + b.drop_first());
            }
        }
    } else if a.len() == 0 && b.len() == 0 {
        assert(a =~= b);
    }
}

pub proof fn lemma_key_lt_transitive(a: Key, b: Key, c: Key)
    requires
        key_lt(a, b),
        key_lt(b, c),
    ensures
        key_lt(a, c),
    decreases a.len(),
{
    if a.len() > 0 && b.len() > 0 && c.len() > 0 {
        lemma_text_lt_total(a[0], b[0]);
        lemma_text_lt_total(b[0], c[0]);
        lemma_text_lt_total(a[0], c[0]);
        if text_lt(a[0], b[0]) && text_lt(b[0], c[0]) {
            lemma_text_lt_transitive(a[0], b[0], c[0]);
        }
        if a[0] == b[0] && b[0] == c[0] {
            lemma_key_lt_transitive(a.drop_first(), b.drop_first(), c.drop_first());
        }
    }
}

/// The order of a one-field key is the order of its field.
pub proof fn lemma_key_order_1(a: Seq<char>, b: Seq<char>)
    ensures
        key_order(seq![a], seq![b]) == (if a == b {
            KeyOrder::Equal
        } else if text_lt(a, b) {
            KeyOrder::Less
        } else {
            KeyOrder::Greater
        }),
{
    lemma_text_lt_total(a, b);
    assert(seq![a].drop_first() =~= Seq::<Seq<char>>::empty());
    assert(seq![b].drop_first() =~= Seq::<Seq<char>>::empty());
    if seq![a] == seq![b] {
        assert(seq![a][0] == seq![b][0]);
    }
}

/// A key of several fields orders by its first field, then by the rest.
pub proof fn lemma_key_order_cons(a: Seq<char>, ra: Key, b: Seq<char>, rb: Key)
    ensures
        key_order(seq![a] + ra, seq![b] + rb) == (if a == b {
            key_order(ra, rb)
        } else if text_lt(a, b) {
            KeyOrder::Less
        } else {
            KeyOrder::Greater
        }),
{
    let x = seq![a] + ra;
    let y = seq![b] + rb;
    lemma_text_lt_total(a, b);
    assert(x[0] == a);
    assert(y[0] == b);
    assert(x.drop_first() =~= ra);
    assert(y.drop_first() =~= rb);
    if x == y {
        assert(x[0] == y[0]);
        assert(ra == rb);
    }
    if a == b && ra == rb {
        assert(x =~= y);
    }
}

/// Two strictly sorted key sequences with the same members are identical.
pub proof fn lemma_keys_sorted_unique(a: Seq<Key>, b: Seq<Key>)
    requires
        keys_sorted(a),
        keys_sorted(b),
        a.to_set() == b.to_set(),
    ensures
        a == b,
    decreases a.len(),
{
    if a.len() == 0 {
        if b.len() > 0 {
            assert(b.to_set().contains(b[0]));
        }
        assert(a =~= b);
    } else if b.len() == 0 {
        assert(a.to_set().contains(a[0]));
    } else {
        assert(a.to_set().contains(a[0]));
        assert(b.to_set().contains(b[0]));
        let i = choose|i: int| 0 <= i < b.len() && b[i] == a[0];
        let k = choose|k: int| 0 <= k < a.len() && a[k] == b[0];
        if i > 0 {
            assert(key_lt(b[0], b[i]));
            if k > 0 {
                assert(key_lt(a[0], a[k]));
                lemma_key_lt_total(a[0], b[0]);
            }
        }
        if k > 0 && i == 0 {
            assert(key_lt(a[0], a[k]));
            lemma_key_lt_irreflexive(a[0]);
        }
        assert(a[0] == b[0]);
        let ta = a.drop_first();
        let tb = b.drop_first();
        assert forall|x: Key| ta.to_set().contains(x) implies tb.to_set().contains(x) by {
            let p = choose|p: int| 0 <= p < ta.len() && ta[p] == x;
            assert(a.to_set().contains(a[p + 1]));
            let q = choose|q: int| 0 <= q < b.len() && b[q] == x;
            assert(key_lt(a[0], a[p + 1]));
            if q == 0 {
                lemma_key_lt_irreflexive(x);
            }
            assert(tb[q - 1] == x);
        }
        assert forall|x: Key| tb.to_set().contains(x) implies ta.to_set().contains(x) by {
            let p = choose|p: int| 0 <= p < tb.len() && tb[p] == x;
            assert(b.to_set().contains(b[p + 1]));
            let q = choose|q: int| 0 <= q < a.len() && a[q] == x;
            assert(key_lt(b[0], b[p + 1]));
            if q == 0 {
                lemma_key_lt_irreflexive(x);
            }
            assert(ta[q - 1] == x);
        }
        assert(ta.to_set() =~= tb.to_set());
        lemma_keys_sorted_unique(ta, tb);
        assert(a =~= seq![a[0]] + ta);
        assert(b =~= seq![b[0]] + tb);
    }
}

/// The canonical (strictly increasing) arrangement of the keys in `ks`.
pub open spec fn canonical_keys(ks: Seq<Key>) -> Seq<Key> {
    choose|s: Seq<Key>| keys_sorted(s) && s.to_set() == ks.to_set()
}

/// A strictly sorted sequence with the members of `ks` is its canonical arrangement.
pub proof fn lemma_canonical_keys(s: Seq<Key>, ks: Seq<Key>)
    requires
        keys_sorted(s),
        s.to_set() == ks.to_set(),
    ensures
        canonical_keys(ks) == s,
{
    let c = canonical_keys(ks);
    assert(keys_sorted(c) && c.to_set() == ks.to_set());
    lemma_keys_sorted_unique(c, s);
}

/// Compares two two-field keys.
pub fn compare_pair(a0: &str, a1: &str, b0: &str, b1: &str) -> (r: KeyOrder)
    ensures
        r == key_order(seq![a0@, a1@], seq![b0@, b1@]),
{
    proof {
        lemma_key_order_cons(a0@, seq![a1@], b0@, seq![b1@]);
        lemma_key_order_1(a1@, b1@);
        assert(seq![a0@] + seq![a1@] =~= seq![a0@, a1@]);
        assert(seq![b0@] + seq![b1@] =~= seq![b0@, b1@]);
    }
    match compare_text(a0, b0) {
        KeyOrder::Equal => compare_text(a1, b1),
        o => o,
    }
}

/// Compares two three-field keys.
pub fn compare_triple(a0: &str, a1: &str, a2: &str, b0: &str, b1: &str, b2: &str) -> (r: KeyOrder)
    ensures
        r == key_order(seq![a0@, a1@, a2@], seq![b0@, b1@, b2@]),
{
    proof {
        lemma_key_order_cons(a0@, seq![a1@, a2@], b0@, seq![b1@, b2@]);
        lemma_key_order_cons(a1@, seq![a2@], b1@, seq![b2@]);
        lemma_key_order_1(a2@, b2@);
        assert(seq![a0@] + seq![a1@, a2@] =~= seq![a0@, a1@, a2@]);
        assert(seq![b0@] + seq![b1@, b2@] =~= seq![b0@, b1@, b2@]);
        assert(seq![a1@] + seq![a2@] =~= seq![a1@, a2@]);
        assert(seq![b1@] + seq![b2@] =~= seq![b1@, b2@]);
    }
    match compare_text(a0, b0) {
        KeyOrder::Equal => match compare_text(a1, b1) {
            KeyOrder::Equal => compare_text(a2, b2),
            o => o,
        },
        o => o,
    }
}

/// A value with a canonical key and an executable comparison on it.
pub trait Keyed: Sized {
    spec fn key(&self) -> Key;

    fn compare_keys(&self, other: &Self) -> (r: KeyOrder)
        ensures
            r == key_order(self.key(), other.key()),
    ;
}

/// The keys of a sequence of values.
pub open spec fn keys_of<T: Keyed>(s: Seq<T>) -> Seq<Key> {
    s.map_values(|x: T| x.key())
}

/// Strictly increasing keys (hence no key occurs twice).
pub open spec fn keys_sorted(s: Seq<Key>) -> bool {
    forall|i: int, j: int| 0 <= i < j < s.len() ==> key_lt(#[trigger] s[i], #[trigger] s[j])
}

/// No key occurs twice.
pub open spec fn keys_distinct(s: Seq<Key>) -> bool {
    forall|i: int, j: int| 0 <= i < j < s.len() ==> #[trigger] s[i] != #[trigger] s[j]
}

/// Position `j` holds the first repetition of an earlier key.
pub open spec fn first_key_repeat_at(s: Seq<Key>, j: int) -> bool {
    &&& 0 <= j < s.len()
    &&& exists|i: int| 0 <= i < j && #[trigger] s[i] == s[j]
    &&& keys_distinct(s.take(j))
}

pub proof fn lemma_sorted_distinct(s: Seq<Key>)
    requires
        keys_sorted(s),
    ensures
        keys_distinct(s),
{
    assert forall|i: int, j: int| 0 <= i < j < s.len() implies #[trigger] s[i] != #[trigger] s[j] by {
        lemma_key_lt_irreflexive(s[i]);
    }
}

/// `k` occurs at two distinct positions of `ks`.
pub open spec fn key_repeated(ks: Seq<Key>, k: Key) -> bool {
    exists|i: int, j: int| 0 <= i < j < ks.len() && ks[i] == k && ks[j] == k
}

/// `k` is the least key that occurs twice in `ks`.
pub open spec fn least_repeated_key(ks: Seq<Key>, k: Key) -> bool {
    key_repeated(ks, k) && forall|x: Key| key_repeated(ks, x) ==> !key_lt(x, k)
}

/// Finds the position of an occurrence of the least key that occurs twice, if any key does.
pub fn find_least_repeated<T: Keyed>(items: &Vec<T>) -> (r: Option<usize>)
    ensures
        r is None <==> keys_distinct(keys_of(items@)),
        r matches Some(b) ==> b < items@.len() && least_repeated_key(keys_of(items@), keys_of(items@)[b as int]),
{
    let ghost ks = keys_of(items@);
    let mut best: Option<usize> = None;
    let mut i: usize = 0;
    while i < items.len()
        invariant
            ks == keys_of(items@),
            i <= items.len(),
            best matches Some(b) ==> b < i && key_repeated(ks, ks[b as int]) && forall|x: int|
                0 <= x < i && key_repeated(ks, ks[x]) ==> !key_lt(#[trigger] ks[x], ks[b as int]),
            best is None ==> forall|x: int| 0 <= x < i ==> !key_repeated(ks, #[trigger] ks[x]),
        decreases items.len() - i,
    {
        let mut j: usize = 0;
        let mut repeated = false;
        while j < items.len() && !repeated
            invariant
                ks == keys_of(items@),
                i < items.len(),
                j <= items.len(),
                repeated ==> key_repeated(ks, ks[i as int]),
                !repeated ==> forall|y: int| 0 <= y < j && y != i ==> #[trigger] ks[y] != ks[i as int],
            decreases items.len() - j, if repeated { 0int } else { 1int },
        {
            if j != i && items[j].compare_keys(&items[i]) == KeyOrder::Equal {
                proof {
                    if j < i {
                        assert(ks[j as int] == ks[i as int]);
                    } else {
                        assert(ks[i as int] == ks[j as int]);
                    }
                }
                repeated = true;
            } else {
                j = j + 1;
            }
        }
        proof {
            if !repeated {
                assert forall|a: int, b: int| 0 <= a < b < ks.len() && ks[a] == ks[i as int] && ks[b] == ks[i as int] implies false by {
                    if a != i {
                        assert(ks[a] != ks[i as int]);
                    } else {
                        assert(ks[b] != ks[i as int]);
                    }
                }
            }
        }
        if repeated {
            match best {
                None => {
                    proof {
                        lemma_key_lt_irreflexive(ks[i as int]);
                    }
                    best = Some(i);
                },
                Some(b) => {
                    if items[i].compare_keys(&items[b]) == KeyOrder::Less {
                        proof {
                            assert forall|x: int| 0 <= x < i + 1 && key_repeated(ks, ks[x]) implies !key_lt(#[trigger] ks[x], ks[i as int]) by {
                                if x < i {
                                    assert(!key_lt(ks[x], ks[b as int]));
                                    lemma_key_lt_total(ks[x], ks[b as int]);
                                    if key_lt(ks[x], ks[i as int]) {
                                        lemma_key_lt_transitive(ks[x], ks[i as int], ks[b as int]);
                                    }
                                } else {
                                    lemma_key_lt_irreflexive(ks[i as int]);
                                }
                            }
                        }
                        best = Some(i);
                    } else {
                        proof {
                            lemma_key_lt_total(ks[i as int], ks[b as int]);
                            lemma_key_lt_irreflexive(ks[i as int]);
                        }
                    }
                },
            }
        }
        i = i + 1;
    }
    match best {
        Some(b) => {
            proof {
                assert forall|x: Key| key_repeated(ks, x) implies !key_lt(x, ks[b as int]) by {
                    let (p, q) = choose|p: int, q: int| 0 <= p < q < ks.len() && ks[p] == x && ks[q] == x;
                    assert(key_repeated(ks, ks[p]));
                }
                assert(!keys_distinct(ks)) by {
                    let (p, q) = choose|p: int, q: int| 0 <= p < q < ks.len() && ks[p] == ks[b as int] && ks[q] == ks[b as int];
                    assert(ks[p] == ks[q]);
                }
            }
            Some(b)
        },
        None => {
            proof {
                assert forall|a: int, b: int| 0 <= a < b < ks.len() implies #[trigger] ks[a] != #[trigger] ks[b] by {
                    if ks[a] == ks[b] {
                        assert(key_repeated(ks, ks[a]));
                    }
                }
            }
            None
        },
    }
}

/// `x` is a member of `s` satisfying `p` whose key is least among the members satisfying `p`.
pub open spec fn least_where<T: Keyed>(s: Seq<T>, p: spec_fn(T) -> bool, x: T) -> bool {
    &&& s.contains(x)
    &&& p(x)
    &&& forall|j: int| 0 <= j < s.len() && p(s[j]) ==> !key_lt(#[trigger] s[j].key(), x.key())
}

/// Two sequences with the same multiset of members have the same members.
pub proof fn lemma_permutation_contains<T>(a: Seq<T>, b: Seq<T>)
    requires
        a.to_multiset() == b.to_multiset(),
    ensures
        forall|x: T| a.contains(x) <==> b.contains(x),
{
    assert forall|x: T| a.contains(x) <==> b.contains(x) by {
        a.to_multiset_ensures();
        b.to_multiset_ensures();
        assert(a.contains(x) <==> a.to_multiset().count(x) > 0);
        assert(b.contains(x) <==> b.to_multiset().count(x) > 0);
    }
}

/// In a key-sorted arrangement of `orig`, the first member satisfying `p` is the member of `orig`
/// with the least key among those satisfying `p`.
pub proof fn lemma_first_in_sorted_is_least<T: Keyed>(
    sorted: Seq<T>,
    orig: Seq<T>,
    p: spec_fn(T) -> bool,
    k: int,
)
    requires
        keys_sorted(keys_of(sorted)),
        sorted.to_multiset() == orig.to_multiset(),
        0 <= k < sorted.len(),
        p(sorted[k]),
        forall|j: int| 0 <= j < k ==> !p(#[trigger] sorted[j]),
    ensures
        least_where(orig, p, sorted[k]),
{
    lemma_permutation_contains(sorted, orig);
    assert(sorted.contains(sorted[k]));
    assert forall|j: int| 0 <= j < orig.len() && p(orig[j]) implies !key_lt(
        #[trigger] orig[j].key(),
        sorted[k].key(),
    ) by {
        assert(orig.contains(orig[j]));
        let q = choose|q: int| 0 <= q < sorted.len() && sorted[q] == orig[j];
        assert(keys_of(sorted)[q] == sorted[q].key());
        assert(keys_of(sorted)[k] == sorted[k].key());
        if q == k {
            lemma_key_lt_irreflexive(sorted[k].key());
        } else {
            assert(q > k);
            assert(key_lt(keys_of(sorted)[k], keys_of(sorted)[q]));
            lemma_key_lt_total(sorted[k].key(), sorted[q].key());
        }
    }
}

/// When no member of an arrangement of `orig` satisfies `p`, no member of `orig` does.
pub proof fn lemma_none_in_permutation<T>(a: Seq<T>, orig: Seq<T>, p: spec_fn(T) -> bool)
    requires
        a.to_multiset() == orig.to_multiset(),
        forall|j: int| 0 <= j < a.len() ==> !p(#[trigger] a[j]),
    ensures
        forall|j: int| 0 <= j < orig.len() ==> !p(#[trigger] orig[j]),
{
    lemma_permutation_contains(a, orig);
    assert forall|j: int| 0 <= j < orig.len() implies !p(#[trigger] orig[j]) by {
        assert(orig.contains(orig[j]));
        let q = choose|q: int| 0 <= q < a.len() && a[q] == orig[j];
        assert(!p(a[q]));
    }
}

/// `x` is a member of `s` with key `k`.
pub open spec fn member_keyed<T: Keyed>(s: Seq<T>, k: Key, x: T) -> bool {
    s.contains(x) && x.key() == k
}

/// The member of `s` whose key is `k`, if there is one.
pub open spec fn member_with_key<T: Keyed>(s: Seq<T>, k: Key) -> Option<T> {
    if exists|x: T| member_keyed(s, k, x) {
        Some(choose|x: T| member_keyed(s, k, x))
    } else {
        None
    }
}

/// With distinct keys, the member found at position `j` is the member with its key.
pub proof fn lemma_member_with_key_at<T: Keyed>(s: Seq<T>, j: int)
    requires
        keys_distinct(keys_of(s)),
        0 <= j < s.len(),
    ensures
        member_with_key(s, s[j].key()) == Some(s[j]),
{
    let k = s[j].key();
    assert(s.contains(s[j]));
    assert(member_keyed(s, k, s[j]));
    let m = member_with_key(s, k);
    assert(m is Some);
    let x = m->0;
    assert(member_keyed(s, k, x));
    let i = choose|i: int| 0 <= i < s.len() && s[i] == x;
    assert(keys_of(s)[i] == s[i].key());
    assert(keys_of(s)[j] == s[j].key());
    if i != j {
        if i < j {
            assert(keys_of(s)[i] != keys_of(s)[j]);
        } else {
            assert(keys_of(s)[j] != keys_of(s)[i]);
        }
    }
}

/// A key carried by no member has no member.
pub proof fn lemma_member_with_key_none<T: Keyed>(s: Seq<T>, k: Key)
    requires
        forall|j: int| 0 <= j < s.len() ==> (#[trigger] s[j]).key() != k,
    ensures
        member_with_key(s, k) is None,
{
    if exists|x: T| member_keyed(s, k, x) {
        let x = choose|x: T| member_keyed(s, k, x);
        let i = choose|i: int| 0 <= i < s.len() && s[i] == x;
        assert(s[i].key() != k);
    }
}

/// Arrangements of the same members with distinct keys agree on the member with each key.
pub proof fn lemma_member_with_key_permutation<T: Keyed>(a: Seq<T>, b: Seq<T>, k: Key)
    requires
        a.to_multiset() == b.to_multiset(),
        keys_distinct(keys_of(a)),
        keys_distinct(keys_of(b)),
    ensures
        member_with_key(a, k) == member_with_key(b, k),
{
    lemma_permutation_contains(a, b);
    if exists|x: T| member_keyed(a, k, x) {
        let x = choose|x: T| member_keyed(a, k, x);
        let i = choose|i: int| 0 <= i < a.len() && a[i] == x;
        assert(b.contains(x));
        let q = choose|q: int| 0 <= q < b.len() && b[q] == x;
        lemma_member_with_key_at(a, i);
        lemma_member_with_key_at(b, q);
    } else {
        assert forall|j: int| 0 <= j < b.len() implies (#[trigger] b[j]).key() != k by {
            assert(b.contains(b[j]));
            assert(a.contains(b[j]));
            if b[j].key() == k {
                assert(member_keyed(a, k, b[j]));
            }
        }
        lemma_member_with_key_none(b, k);
    }
}

/// Inserts `x` at its canonical position unless its key is already present, in which case `x`
/// is handed back and `v` is left unchanged.
pub fn insert_sorted<T: Keyed>(v: &mut Vec<T>, x: T) -> (r: Option<T>)
    requires
        keys_sorted(keys_of(old(v)@)),
    ensures
        keys_sorted(keys_of(final(v)@)),
        r is Some <==> keys_of(old(v)@).contains(x.key()),
        r matches Some(y) ==> y == x && final(v)@ == old(v)@,
        r is None ==> (exists|p: int|
            0 <= p <= old(v)@.len() && final(v)@ == old(v)@.insert(p, x)),
        r is None ==> keys_of(final(v)@).to_set() == keys_of(old(v)@).to_set().insert(x.key()),
{
    let ghost before = keys_of(v@);
    let ghost xk = x.key();
    let mut p: usize = 0;
    while p < v.len() && v[p].compare_keys(&x) == KeyOrder::Less
        invariant
            p <= v.len(),
            before == keys_of(v@),
            xk == x.key(),
            forall|q: int| 0 <= q < p ==> key_lt(#[trigger] before[q], xk),
        decreases v.len() - p,
    {
        p = p + 1;
    }
    if p < v.len() && v[p].compare_keys(&x) == KeyOrder::Equal {
        proof {
            assert(before[p as int] == xk);
        }
        return Some(x);
    }
    proof {
        if p < v.len() {
            lemma_key_lt_total(before[p as int], xk);
        }
        assert forall|q: int| p <= q < before.len() implies key_lt(xk, #[trigger] before[q]) by {
            if q > p {
                lemma_key_lt_transitive(xk, before[p as int], before[q]);
            }
        }
        if before.contains(xk) {
            let q = choose|q: int| 0 <= q < before.len() && before[q] == xk;
            lemma_key_lt_irreflexive(xk);
            if q < p {
                assert(key_lt(before[q], xk));
            } else {
                assert(key_lt(xk, before[q]));
            }
        }
    }
    let ghost old_v = v@;
    v.insert(p, x);
    proof {
        let after = keys_of(v@);
        assert(v@ == old_v.insert(p as int, x));
        assert(after =~= before.insert(p as int, xk));
        assert forall|i: int, j: int| 0 <= i < j < after.len() implies key_lt(
            #[trigger] after[i],
            #[trigger] after[j],
        ) by {
            if j < p {
            } else if j == p {
            } else if i < p {
                lemma_key_lt_transitive(after[i], xk, after[j]);
            } else if i == p {
            } else {
            }
        }
        assert forall|y: Key| after.to_set().contains(y) <==> before.to_set().insert(
            xk,
        ).contains(y) by {
            if after.to_set().contains(y) {
                let q = choose|q: int| 0 <= q < after.len() && after[q] == y;
                if q < p {
                    assert(before[q] == y);
                } else if q > p {
                    assert(before[q - 1] == y);
                }
            }
            if before.to_set().contains(y) {
                let q = choose|q: int| 0 <= q < before.len() && before[q] == y;
                if q < p {
                    assert(after[q] == y);
                } else {
                    assert(after[q + 1] == y);
                }
            }
            if y == xk {
                assert(after[p as int] == y);
            }
        }
        assert(after.to_set() =~= before.to_set().insert(xk));
    }
    None
}

/// Builds the canonical ordering of `items`, or reports the position of the first value whose key
/// repeats an earlier one.
pub fn sort_unique<T: Keyed>(items: Vec<T>) -> (r: Result<Vec<T>, (Ghost<int>, T)>)
    ensures
        r is Ok <==> keys_distinct(keys_of(items@)),
        r matches Ok(v) ==> keys_sorted(keys_of(v@)) && keys_of(v@).to_set() == keys_of(
            items@,
        ).to_set() && v@.len() == items@.len() && v@.to_multiset() == items@.to_multiset(),
        r matches Err(e) ==> first_key_repeat_at(keys_of(items@), e.0@) && e.1 == items@[e.0@],
{
    let ghost input = keys_of(items@);
    let ghost all = items@;
    let mut sorted: Vec<T> = Vec::new();
    let mut rest = items;
    let total: usize = rest.len();
    assert(all.len() == total);
    assert(all.take(0) =~= Seq::<T>::empty());
    assert(sorted@ =~= Seq::<T>::empty());
    let mut k: usize = 0;
    while rest.len() > 0
        invariant
            all == items@,
            all.len() <= usize::MAX,
            input == keys_of(all),
            k + rest@.len() == all.len(),
            rest@ == all.skip(k as int),
            keys_sorted(keys_of(sorted@)),
            keys_of(sorted@).to_set() == input.take(k as int).to_set(),
            sorted@.len() == k,
            sorted@.to_multiset() == all.take(k as int).to_multiset(),
            keys_distinct(input.take(k as int)),
        decreases rest.len(),
    {
        let x = rest.remove(0);
        assert(x == all[k as int]);
        assert(x.key() == input[k as int]);
        assert(input.take(k + 1) =~= input.take(k as int).push(input[k as int]));
        let ghost prev = sorted@;
        match insert_sorted(&mut sorted, x) {
            Some(y) => {
                proof {
                    assert(keys_of(sorted@).to_set().contains(input[k as int]));
                    assert(input.take(k as int).to_set().contains(input[k as int]));
                    let i = choose|i: int|
                        0 <= i < k && #[trigger] input.take(k as int)[i] == input[k as int];
                    assert(input[i] == input[k as int]);
                    assert(first_key_repeat_at(input, k as int));
                    assert(!keys_distinct(input));
                    assert(y == all[k as int]);
                }
                return Err((Ghost(k as int), y));
            },
            None => {
                proof {
                    assert forall|i: int, j: int| 0 <= i < j < k + 1 implies #[trigger] input.take(
                        k + 1,
                    )[i] != #[trigger] input.take(k + 1)[j] by {
                        if j == k {
                            assert(input.take(k as int)[i] == input[i]);
                            assert(input.take(k as int).to_set().contains(input[i]));
                        } else {
                            assert(input.take(k as int)[i] != input.take(k as int)[j]);
                        }
                    }
                    input.take(k as int).lemma_push_to_set_commute(input[k as int]);
                    let p = choose|p: int| 0 <= p <= prev.len() && sorted@ == prev.insert(p, all[k as int]);
                    vstd::seq_lib::to_multiset_insert(prev, p, all[k as int]);
                    assert(all.take(k + 1) =~= all.take(k as int).push(all[k as int]));
                    vstd::seq_lib::to_multiset_build(all.take(k as int), all[k as int]);
                    assert(keys_of(sorted@).to_set() =~= input.take(k + 1).to_set());
                }
            },
        }
        k = k + 1;
    }
    assert(input.take(k as int) =~= input);
    assert(all.take(k as int) =~= all);
    Ok(sorted)
}

} // verus!
