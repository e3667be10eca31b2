//! Entry lists: the executable form of the hash maps that witnesses carry.
//!
//! A map is held as a `Vec` of `(key, value)` pairs whose keys are fixed-width
//! byte strings. The map an entry list denotes is `entries_map`, where a later
//! pair overrides an earlier one with the same key, exactly as collecting an
//! iterator of pairs into a hash map does.

use vstd::prelude::*;
use crate::bytes::{bytes_eq, bytes_lt, lex_lt, lemma_lex_lt_asymmetric, lemma_lex_lt_total, lemma_lex_lt_transitive};

verus! {

broadcast use vstd::array::group_array_axioms;

/// The map an entry list denotes; a later pair overrides an earlier one with the same key.
pub open spec fn entries_map<K, V>(s: Seq<(K, V)>) -> Map<K, V>
    decreases s.len(),
{
    if s.len() == 0 {
        Map::empty()
    } else {
        entries_map(s.drop_last()).insert(s.last().0, s.last().1)
    }
}

/// No key occurs twice in the entry list.
pub open spec fn distinct_keys<K, V>(s: Seq<(K, V)>) -> bool {
    forall|i: int, j: int| #![trigger s[i], s[j]] 0 <= i < j < s.len() ==> s[i].0 != s[j].0
}

/// The keys of the entry list are in strictly increasing byte order.
pub open spec fn sorted_keys<V, const N: usize>(s: Seq<([u8; N], V)>) -> bool {
    forall|i: int, j: int| #![trigger s[i], s[j]] 0 <= i < j < s.len() ==> lex_lt(s[i].0@, s[j].0@)
}

/// `s` lists exactly the pairs of `m`, in strictly increasing key order.
pub open spec fn lists_map<V, const N: usize>(s: Seq<([u8; N], V)>, m: Map<[u8; N], V>) -> bool {
    &&& sorted_keys(s)
    &&& forall|i: int| #![trigger s[i]] 0 <= i < s.len() ==> m.contains_key(s[i].0) && m[s[i].0] == s[i].1
    &&& forall|k: [u8; N]| #[trigger] m.contains_key(k) ==> exists|i: int| 0 <= i < s.len() && #[trigger] s[i].0 == k
}

/// A key is in the denoted map exactly when some pair carries it.
pub proof fn lemma_entries_map_dom<K, V>(s: Seq<(K, V)>)
    ensures
        forall|k: K| #[trigger] entries_map(s).contains_key(k) <==> exists|i: int| 0 <= i < s.len() && #[trigger] s[i].0 == k,
    decreases s.len(),
{
    if s.len() > 0 {
        lemma_entries_map_dom(s.drop_last());
        assert forall|k: K| #[trigger] entries_map(s).contains_key(k) <==> exists|i: int| 0 <= i < s.len() && #[trigger] s[i].0 == k by {
            if entries_map(s).contains_key(k) {
                if k == s.last().0 {
                    assert(s[s.len() - 1].0 == k);
                } else {
                    let t = s.drop_last();
                    assert(entries_map(t).contains_key(k));
                    let i = choose|i: int| 0 <= i < t.len() && #[trigger] t[i].0 == k;
                    assert(t[i] == s[i]);
                }
            }
            if exists|i: int| 0 <= i < s.len() && #[trigger] s[i].0 == k {
                let i = choose|i: int| 0 <= i < s.len() && #[trigger] s[i].0 == k;
                if i < s.len() - 1 {
                    let t = s.drop_last();
                    assert(t[i].0 == k);
                    assert(entries_map(t).contains_key(k));
                }
            }
        }
    }
}

/// With distinct keys, every pair is in the denoted map.
pub proof fn lemma_entries_map_distinct<K, V>(s: Seq<(K, V)>)
    requires
        distinct_keys(s),
    ensures
        forall|i: int| #![trigger s[i]] 0 <= i < s.len() ==> entries_map(s).contains_key(s[i].0) && entries_map(s)[s[i].0] == s[i].1,
    decreases s.len(),
{
    if s.len() > 0 {
        let t = s.drop_last();
        assert(distinct_keys(t)) by {
            assert forall|i: int, j: int| #![trigger t[i], t[j]] 0 <= i < j < t.len() implies t[i].0 != t[j].0 by {
                assert(s[i] == t[i] && s[j] == t[j]);
            }
        }
        lemma_entries_map_distinct(t);
        assert forall|i: int| #![trigger s[i]] 0 <= i < s.len() implies entries_map(s).contains_key(s[i].0) && entries_map(s)[s[i].0] == s[i].1 by {
            if i < s.len() - 1 {
                assert(t[i] == s[i]);
                assert(s[i].0 != s[s.len() - 1].0);
            }
        }
    }
}

/// The map of a concatenation: the right part overrides the left part.
pub proof fn lemma_entries_map_concat<K, V>(a: Seq<(K, V)>, b: Seq<(K, V)>)
    ensures
        entries_map(a + b) == entries_map(a).union_prefer_right(entries_map(b)),
    decreases b.len(),
{
    if b.len() == 0 {
        assert(a + b =~= a);
        assert(entries_map(a).union_prefer_right(entries_map(b)) =~= entries_map(a));
    } else {
        assert((a + b).drop_last() =~= a + b.drop_last());
        lemma_entries_map_concat(a, b.drop_last());
        assert(entries_map(a + b) =~= entries_map(a).union_prefer_right(entries_map(b)));
    }
}

/// Strictly sorted keys are distinct.
pub proof fn lemma_sorted_distinct<V, const N: usize>(s: Seq<([u8; N], V)>)
    requires
        sorted_keys(s),
    ensures
        distinct_keys(s),
{
    assert forall|i: int, j: int| #![trigger s[i], s[j]] 0 <= i < j < s.len() implies s[i].0 != s[j].0 by {
        lemma_lex_lt_asymmetric(s[i].0@, s[j].0@);
    }
}

/// A strictly sorted entry list lists the map it denotes.
pub proof fn lemma_sorted_lists_own_map<V, const N: usize>(s: Seq<([u8; N], V)>)
    requires
        sorted_keys(s),
    ensures
        lists_map(s, entries_map(s)),
{
    lemma_sorted_distinct(s);
    lemma_entries_map_distinct(s);
    lemma_entries_map_dom(s);
}

/// The sorted listing of a map is unique.
pub proof fn lemma_listing_unique<V, const N: usize>(s1: Seq<([u8; N], V)>, s2: Seq<([u8; N], V)>, m: Map<[u8; N], V>)
    requires
        lists_map(s1, m),
        lists_map(s2, m),
    ensures
        s1 == s2,
    decreases s1.len(),
{
    if s1.len() == 0 {
        if s2.len() > 0 {
            assert(m.contains_key(s2[0].0));
        }
        assert(s1 =~= s2);
    } else {
        let k = s1[0].0;
        assert(m.contains_key(k));
        let p = choose|i: int| 0 <= i < s2.len() && #[trigger] s2[i].0 == k;
        assert(m.contains_key(s2[0].0));
        let q = choose|i: int| 0 <= i < s1.len() && #[trigger] s1[i].0 == s2[0].0;
        if p > 0 {
            assert(lex_lt(s2[0].0@, s2[p].0@));
            if q > 0 {
                assert(lex_lt(s1[0].0@, s1[q].0@));
                lemma_lex_lt_asymmetric(s1[0].0@, s1[q].0@);
            } else {
                lemma_lex_lt_asymmetric(s2[0].0@, s2[0].0@);
            }
        }
        assert(s2[0].0 == k);
        assert(s1[0] == s2[0]);
        let m2 = m.remove(k);
        let t1 = s1.drop_first();
        let t2 = s2.drop_first();
        assert(lists_map(t1, m2)) by {
            assert forall|i: int| #![trigger t1[i]] 0 <= i < t1.len() implies m2.contains_key(t1[i].0) && m2[t1[i].0] == t1[i].1 by {
                assert(s1[i + 1] == t1[i]);
                assert(lex_lt(s1[0].0@, s1[i + 1].0@));
                lemma_lex_lt_asymmetric(k@, k@);
            }
            assert forall|kk: [u8; N]| #[trigger] m2.contains_key(kk) implies exists|i: int| 0 <= i < t1.len() && #[trigger] t1[i].0 == kk by {
                let i = choose|i: int| 0 <= i < s1.len() && #[trigger] s1[i].0 == kk;
                assert(t1[i - 1] == s1[i]);
            }
            assert forall|i: int, j: int| #![trigger t1[i], t1[j]] 0 <= i < j < t1.len() implies lex_lt(t1[i].0@, t1[j].0@) by {
                assert(s1[i + 1] == t1[i] && s1[j + 1] == t1[j]);
            }
        }
        assert(lists_map(t2, m2)) by {
            assert forall|i: int| #![trigger t2[i]] 0 <= i < t2.len() implies m2.contains_key(t2[i].0) && m2[t2[i].0] == t2[i].1 by {
                assert(s2[i + 1] == t2[i]);
                assert(lex_lt(s2[0].0@, s2[i + 1].0@));
                lemma_lex_lt_asymmetric(k@, k@);
            }
            assert forall|kk: [u8; N]| #[trigger] m2.contains_key(kk) implies exists|i: int| 0 <= i < t2.len() && #[trigger] t2[i].0 == kk by {
                let i = choose|i: int| 0 <= i < s2.len() && #[trigger] s2[i].0 == kk;
                assert(t2[i - 1] == s2[i]);
            }
            assert forall|i: int, j: int| #![trigger t2[i], t2[j]] 0 <= i < j < t2.len() implies lex_lt(t2[i].0@, t2[j].0@) by {
                assert(s2[i + 1] == t2[i] && s2[j + 1] == t2[j]);
            }
        }
        lemma_listing_unique(t1, t2, m2);
        assert(s1 =~= seq![s1[0]] + t1);
        assert(s2 =~= seq![s2[0]] + t2);
    }
}

/// Finds the position of `key` in an entry list.
pub fn find_key<V, const N: usize>(s: &Vec<([u8; N], V)>, key: &[u8; N]) -> (r: Option<usize>)
    ensures
        match r {
            Some(i) => i < s@.len() && s@[i as int].0 == *key,
            None => forall|i: int| 0 <= i < s@.len() ==> #[trigger] s@[i].0 != *key,
        },
{
    let mut i: usize = 0;
    while i < s.len()
        invariant
            i <= s@.len(),
            forall|j: int| 0 <= j < i ==> #[trigger] s@[j].0 != *key,
        decreases s@.len() - i,
    {
        if bytes_eq(s[i].0.as_slice(), key.as_slice()) {
            assert(s@[i as int].0 =~= *key);
            return Some(i);
        }
        i = i + 1;
    }
    None
}

/// Looks up the value of `key` in an entry list with distinct keys.
pub fn lookup<'a, V, const N: usize>(s: &'a Vec<([u8; N], V)>, key: &[u8; N]) -> (r: Option<&'a V>)
    requires
        distinct_keys(s@),
    ensures
        match r {
            Some(v) => entries_map(s@).contains_key(*key) && entries_map(s@)[*key] == *v,
            None => !entries_map(s@).contains_key(*key),
        },
{
    proof {
        lemma_entries_map_dom(s@);
        lemma_entries_map_distinct(s@);
    }
    match find_key(s, key) {
        Some(i) => Some(&s[i].1),
        None => None,
    }
}

/// Inserting a pair at the position where its key fits keeps the keys sorted.
proof fn lemma_insert_keeps_sorted<V, const N: usize>(r0: Seq<([u8; N], V)>, p: int, x: ([u8; N], V))
    requires
        sorted_keys(r0),
        0 <= p <= r0.len(),
        forall|q: int| 0 <= q < p ==> lex_lt(#[trigger] r0[q].0@, x.0@),
        p < r0.len() ==> lex_lt(x.0@, r0[p].0@),
    ensures
        sorted_keys(r0.insert(p, x)),
{
    let r1 = r0.insert(p, x);
    assert forall|i: int, j: int| #![trigger r1[i], r1[j]] 0 <= i < j < r1.len() implies lex_lt(r1[i].0@, r1[j].0@) by {
        if j < p {
            assert(r1[i] == r0[i] && r1[j] == r0[j]);
        } else if j == p {
            assert(r1[i] == r0[i]);
        } else if i < p {
            assert(r1[i] == r0[i] && r1[j] == r0[j - 1]);
            assert(lex_lt(r0[i].0@, x.0@));
            if j - 1 == p {
                lemma_lex_lt_transitive(r0[i].0@, x.0@, r0[j - 1].0@);
            } else {
                assert(lex_lt(r0[p].0@, r0[j - 1].0@));
                lemma_lex_lt_transitive(x.0@, r0[p].0@, r0[j - 1].0@);
                lemma_lex_lt_transitive(r0[i].0@, x.0@, r0[j - 1].0@);
            }
        } else if i == p {
            assert(r1[j] == r0[j - 1]);
            if j - 1 > p {
                assert(lex_lt(r0[p].0@, r0[j - 1].0@));
                lemma_lex_lt_transitive(x.0@, r0[p].0@, r0[j - 1].0@);
            }
        } else {
            assert(r1[i] == r0[i - 1] && r1[j] == r0[j - 1]);
        }
    }
}

/// Some position of `orig` at or after `lo` holds `x`.
#[verifier::opaque]
spec fn taken_from<T>(orig: Seq<T>, lo: int, x: T) -> bool {
    exists|j: int| lo <= j < orig.len() && #[trigger] orig[j] == x
}

/// Some position of `r` holds `x`.
#[verifier::opaque]
spec fn placed<T>(r: Seq<T>, x: T) -> bool {
    exists|i: int| 0 <= i < r.len() && #[trigger] r[i] == x
}

/// Inserting `orig[k]` into a listing of the pairs `orig[k + 1..]` gives a listing of `orig[k..]`.
proof fn lemma_insert_keeps_members<V, const N: usize>(
    orig: Seq<([u8; N], V)>,
    k: int,
    r0: Seq<([u8; N], V)>,
    p: int,
    x: ([u8; N], V),
)
    requires
        0 <= k < orig.len(),
        x == orig[k],
        0 <= p <= r0.len(),
        forall|i: int| 0 <= i < r0.len() ==> taken_from(orig, k + 1, #[trigger] r0[i]),
        forall|j: int| k + 1 <= j < orig.len() ==> placed(r0, #[trigger] orig[j]),
    ensures
        forall|i: int| 0 <= i < r0.insert(p, x).len() ==> taken_from(orig, k, #[trigger] r0.insert(p, x)[i]),
        forall|j: int| k <= j < orig.len() ==> placed(r0.insert(p, x), #[trigger] orig[j]),
{
    let r1 = r0.insert(p, x);
    assert forall|i: int| 0 <= i < r1.len() implies taken_from(orig, k, #[trigger] r1[i]) by {
        reveal(taken_from);
        if i < p {
            assert(taken_from(orig, k + 1, r0[i]));
            let j = choose|j: int| k + 1 <= j < orig.len() && #[trigger] orig[j] == r0[i];
            assert(r1[i] == r0[i]);
        } else if i == p {
            assert(orig[k] == r1[i]);
        } else {
            assert(r1[i] == r0[i - 1]);
            assert(taken_from(orig, k + 1, r0[i - 1]));
            let j = choose|j: int| k + 1 <= j < orig.len() && #[trigger] orig[j] == r0[i - 1];
        }
    }
    assert forall|j: int| k <= j < orig.len() implies placed(r1, #[trigger] orig[j]) by {
        reveal(placed);
        if j == k {
            assert(orig[j] == r1[p]);
        } else {
            assert(placed(r0, orig[j]));
            let i = choose|i: int| 0 <= i < r0.len() && #[trigger] r0[i] == orig[j];
            if i < p {
                assert(r1[i] == r0[i]);
            } else {
                assert(r1[i + 1] == r0[i]);
            }
        }
    }
}

/// The pairs placed so far all come after `orig[k]`, so their keys differ from its key.
proof fn lemma_placed_keys_differ<V, const N: usize>(orig: Seq<([u8; N], V)>, k: int, r0: Seq<([u8; N], V)>)
    requires
        0 <= k < orig.len(),
        distinct_keys(orig),
        forall|i: int| 0 <= i < r0.len() ==> taken_from(orig, k + 1, #[trigger] r0[i]),
    ensures
        forall|i: int| 0 <= i < r0.len() ==> #[trigger] r0[i].0 != orig[k].0,
{
    assert forall|i: int| 0 <= i < r0.len() implies #[trigger] r0[i].0 != orig[k].0 by {
        assert(taken_from(orig, k + 1, r0[i]));
        reveal(taken_from);
        let j = choose|j: int| k + 1 <= j < orig.len() && #[trigger] orig[j] == r0[i];
        assert(orig[k].0 != orig[j].0);
    }
}

/// The map of a single pair.
proof fn lemma_entries_map_single<V, const N: usize>(x: ([u8; N], V))
    ensures
        entries_map(seq![x]) == Map::<[u8; N], V>::empty().insert(x.0, x.1),
{
    reveal_with_fuel(entries_map, 2);
    assert(seq![x].drop_last() =~= Seq::<([u8; N], V)>::empty());
    assert(seq![x].last() == x);
}

/// Inserts a pair into a key-sorted entry list at the position where its key fits.
fn insert_sorted<V, const N: usize>(r: &mut Vec<([u8; N], V)>, x: ([u8; N], V)) -> (p: usize)
    requires
        sorted_keys(old(r)@),
        forall|i: int| 0 <= i < old(r)@.len() ==> #[trigger] old(r)@[i].0 != x.0,
    ensures
        p <= old(r)@.len(),
        final(r)@ == old(r)@.insert(p as int, x),
        sorted_keys(final(r)@),
{
    let ghost r0 = r@;
    let mut p: usize = 0;
    while p < r.len()
        invariant
            r@ == r0,
            p <= r0.len(),
            sorted_keys(r0),
            forall|i: int| 0 <= i < r0.len() ==> #[trigger] r0[i].0 != x.0,
            forall|q: int| 0 <= q < p ==> lex_lt(#[trigger] r0[q].0@, x.0@),
        ensures
            p <= r0.len(),
            forall|q: int| 0 <= q < p ==> lex_lt(#[trigger] r0[q].0@, x.0@),
            p < r0.len() ==> lex_lt(x.0@, r0[p as int].0@),
        decreases r0.len() - p,
    {
        if bytes_lt(x.0.as_slice(), r[p].0.as_slice()) {
            break;
        }
        proof {
            if r0[p as int].0@ == x.0@ {
                assert(r0[p as int].0 =~= x.0);
            }
            lemma_lex_lt_total(r0[p as int].0@, x.0@);
        }
        p = p + 1;
    }
    proof {
        lemma_insert_keeps_sorted(r0, p as int, x);
    }
    r.insert(p, x);
    p
}

/// Sorts the pairs of a map by key, giving its unique sorted listing.
pub fn sort_entries<V, const N: usize>(v: Vec<([u8; N], V)>) -> (r: Vec<([u8; N], V)>)
    requires
        distinct_keys(v@),
    ensures
        lists_map(r@, entries_map(v@)),
        r@.len() == v@.len(),
{
    let ghost orig = v@;
    let mut v = v;
    let mut r: Vec<([u8; N], V)> = Vec::new();
    while v.len() > 0
        invariant
            v@ == orig.take(v@.len() as int),
            v@.len() <= orig.len(),
            distinct_keys(orig),
            sorted_keys(r@),
            r@.len() + v@.len() == orig.len(),
            forall|i: int| 0 <= i < r@.len() ==> taken_from(orig, v@.len() as int, #[trigger] r@[i]),
            forall|j: int| v@.len() <= j < orig.len() ==> placed(r@, #[trigger] orig[j]),
        decreases v@.len(),
    {
        let ghost k = (v@.len() - 1) as int;
        let ghost r0 = r@;
        proof {
            lemma_placed_keys_differ(orig, k, r0);
        }
        let x = v.pop().unwrap();
        assert(x == orig[k]);
        assert(v@ =~= orig.take(k));
        let ghost x_ = x;
        let p = insert_sorted(&mut r, x);
        proof {
            lemma_insert_keeps_members(orig, k, r0, p as int, x_);
        }
    }
    proof {
        lemma_entries_map_distinct(orig);
        lemma_entries_map_dom(orig);
        let m = entries_map(orig);
        let rs = r@;
        assert forall|i: int| #![trigger rs[i]] 0 <= i < rs.len() implies m.contains_key(rs[i].0) && m[rs[i].0] == rs[i].1 by {
            assert(taken_from(orig, 0, rs[i]));
            reveal(taken_from);
            let j = choose|j: int| 0 <= j < orig.len() && #[trigger] orig[j] == rs[i];
            assert(m.contains_key(orig[j].0));
        }
        assert forall|kk: [u8; N]| #[trigger] m.contains_key(kk) implies exists|i: int| 0 <= i < rs.len() && #[trigger] rs[i].0 == kk by {
            let j = choose|j: int| 0 <= j < orig.len() && #[trigger] orig[j].0 == kk;
            assert(placed(rs, orig[j]));
            reveal(placed);
            let i = choose|i: int| 0 <= i < rs.len() && #[trigger] rs[i] == orig[j];
            assert(rs[i].0 == kk);
        }
    }
    r
}

/// Collects pairs into a map: a later pair overrides an earlier one with the same key.
pub fn collect_entries<V, const N: usize>(v: Vec<([u8; N], V)>) -> (r: Vec<([u8; N], V)>)
    ensures
        distinct_keys(r@),
        entries_map(r@) == entries_map(v@),
{
    let ghost orig = v@;
    let mut v = v;
    let mut r: Vec<([u8; N], V)> = Vec::new();
    proof {
        assert(orig.subrange(orig.len() as int, orig.len() as int) =~= Seq::<([u8; N], V)>::empty());
        assert(entries_map(r@) =~= entries_map(Seq::<([u8; N], V)>::empty()));
    }
    while v.len() > 0
        invariant
            v@ == orig.take(v@.len() as int),
            v@.len() <= orig.len(),
            distinct_keys(r@),
            entries_map(r@) == entries_map(orig.subrange(v@.len() as int, orig.len() as int)),
        decreases v@.len(),
    {
        let ghost k = (v@.len() - 1) as int;
        let x = v.pop().unwrap();
        assert(x == orig[k]);
        assert(v@ =~= orig.take(k));
        let ghost rest = orig.subrange(k + 1, orig.len() as int);
        let ghost r0 = r@;
        proof {
            assert(orig.subrange(k, orig.len() as int) =~= seq![x] + rest);
            lemma_entries_map_concat(seq![x], rest);
            assert(seq![x].drop_last() =~= Seq::<([u8; N], V)>::empty());
            lemma_entries_map_dom(r0);
            assert(entries_map(r0) == entries_map(rest));
            lemma_entries_map_single(x);
        }
        match find_key(&r, &x.0) {
            Some(i) => {
                proof {
                    assert(entries_map(r0).contains_key(x.0)) by {
                        assert(r0[i as int].0 == x.0);
                    }
                    assert(entries_map(seq![x]).union_prefer_right(entries_map(rest)) =~= entries_map(rest));
                }
            },
            None => {
                proof {
                    assert(!entries_map(r0).contains_key(x.0));
                }
                r.push(x);
                proof {
                    assert(r@.drop_last() =~= r0);
                    assert(entries_map(seq![x]).union_prefer_right(entries_map(rest)) =~= entries_map(r@));
                    assert forall|a: int, b: int| #![trigger r@[a], r@[b]] 0 <= a < b < r@.len() implies r@[a].0 != r@[b].0 by {
                        if b == r@.len() - 1 {
                            assert(r@[a] == r0[a]);
                        } else {
                            assert(r@[a] == r0[a] && r@[b] == r0[b]);
                        }
                    }
                }
            },
        }
    }
    assert(orig.subrange(0, orig.len() as int) =~= orig);
    r
}

/// Applies `f` to the value of every pair.
pub open spec fn map_entry_values<K, V, W>(s: Seq<(K, V)>, f: spec_fn(V) -> W) -> Seq<(K, W)> {
    s.map_values(|e: (K, V)| (e.0, f(e.1)))
}

/// Mapping the values of the pairs maps the values of the denoted map.
pub proof fn lemma_entries_map_values<K, V, W>(t: Seq<(K, V)>, f: spec_fn(V) -> W)
    ensures
        entries_map(map_entry_values(t, f)) == entries_map(t).map_values(f),
    decreases t.len(),
{
    if t.len() > 0 {
        assert(map_entry_values(t, f).drop_last() =~= map_entry_values(t.drop_last(), f));
        lemma_entries_map_values(t.drop_last(), f);
        assert(entries_map(map_entry_values(t, f)) =~= entries_map(t).map_values(f));
    } else {
        assert(entries_map(map_entry_values(t, f)) =~= entries_map(t).map_values(f));
    }
}

/// Mapping the values of a listing gives a listing of the mapped map.
pub proof fn lemma_lists_map_values<V, W, const N: usize>(s: Seq<([u8; N], V)>, m: Map<[u8; N], V>, f: spec_fn(V) -> W)
    requires
        lists_map(s, m),
    ensures
        lists_map(map_entry_values(s, f), m.map_values(f)),
{
    let t = map_entry_values(s, f);
    assert forall|i: int, j: int| #![trigger t[i], t[j]] 0 <= i < j < t.len() implies lex_lt(t[i].0@, t[j].0@) by {
        assert(s[i].0 == t[i].0 && s[j].0 == t[j].0);
    }
    assert forall|k: [u8; N]| #[trigger] m.map_values(f).contains_key(k) implies exists|i: int| 0 <= i < t.len() && #[trigger] t[i].0 == k by {
        assert(m.contains_key(k));
        let i = choose|i: int| 0 <= i < s.len() && #[trigger] s[i].0 == k;
        assert(t[i].0 == k);
    }
    assert forall|i: int| #![trigger t[i]] 0 <= i < t.len() implies m.map_values(f).contains_key(t[i].0) && m.map_values(f)[t[i].0] == t[i].1 by {
        assert(m.contains_key(s[i].0));
    }
}

/// Turns any list of pairs into the sorted listing of the map it denotes.
pub fn canonical_entries<V, const N: usize>(v: Vec<([u8; N], V)>) -> (r: Vec<([u8; N], V)>)
    ensures
        lists_map(r@, entries_map(v@)),
{
    let d = collect_entries(v);
    sort_entries(d)
}

/// A property that every value of the pairs has, every value of the denoted map has.
pub proof fn lemma_entries_map_values_hold<K, V>(t: Seq<(K, V)>, p: spec_fn(V) -> bool)
    requires
        forall|i: int| 0 <= i < t.len() ==> p(#[trigger] t[i].1),
    ensures
        forall|k: K| #[trigger] entries_map(t).contains_key(k) ==> p(entries_map(t)[k]),
    decreases t.len(),
{
    if t.len() > 0 {
        let u = t.drop_last();
        assert forall|i: int| 0 <= i < u.len() implies p(#[trigger] u[i].1) by {
            assert(u[i] == t[i]);
        }
        lemma_entries_map_values_hold(u, p);
        let last = t[t.len() - 1];
        assert(p(last.1));
        assert forall|k: K| #[trigger] entries_map(t).contains_key(k) implies p(entries_map(t)[k]) by {
            if k != last.0 {
                assert(entries_map(u).contains_key(k));
                assert(entries_map(t)[k] == entries_map(u)[k]);
            }
        }
    }
}

/// A sorted listing of `m` denotes `m`: reading the listing back gives the map.
pub proof fn lemma_listing_denotes<V, const N: usize>(s: Seq<([u8; N], V)>, m: Map<[u8; N], V>)
    requires
        lists_map(s, m),
    ensures
        entries_map(s) == m,
{
    lemma_sorted_lists_own_map(s);
    assert forall|k: [u8; N]| m.contains_key(k) <==> #[trigger] entries_map(s).contains_key(k) by {
        if m.contains_key(k) {
            let i = choose|i: int| 0 <= i < s.len() && #[trigger] s[i].0 == k;
        }
        if entries_map(s).contains_key(k) {
            let i = choose|i: int| 0 <= i < s.len() && #[trigger] s[i].0 == k;
        }
    }
    assert(entries_map(s) =~= m);
}

/// The pairs with each key taken by its bytes.
pub open spec fn view_keys<V, const N: usize>(s: Seq<([u8; N], V)>) -> Seq<(Seq<u8>, V)> {
    s.map_values(|e: ([u8; N], V)| (e.0@, e.1))
}

/// Keys that are distinct arrays have distinct bytes.
pub proof fn lemma_view_keys_distinct<V, const N: usize>(s: Seq<([u8; N], V)>)
    requires
        distinct_keys(s),
    ensures
        distinct_keys(view_keys(s)),
{
    let t = view_keys(s);
    assert forall|i: int, j: int| #![trigger t[i], t[j]] 0 <= i < j < t.len() implies t[i].0 != t[j].0 by {
        if t[i].0 == t[j].0 {
            assert(s[i].0 =~= s[j].0);
        }
    }
}

/// Replacing the value of the pair at `idx` replaces the value of its key in the denoted map.
pub proof fn lemma_entries_map_update<K, V>(s: Seq<(K, V)>, idx: int, v: V)
    requires
        distinct_keys(s),
        0 <= idx < s.len(),
    ensures
        distinct_keys(s.update(idx, (s[idx].0, v))),
        entries_map(s.update(idx, (s[idx].0, v))) == entries_map(s).insert(s[idx].0, v),
{
    let t = s.update(idx, (s[idx].0, v));
    assert forall|i: int, j: int| #![trigger t[i], t[j]] 0 <= i < j < t.len() implies t[i].0 != t[j].0 by {
        assert(s[i].0 == t[i].0 && s[j].0 == t[j].0);
    }
    lemma_entries_map_dom(s);
    lemma_entries_map_dom(t);
    lemma_entries_map_distinct(s);
    lemma_entries_map_distinct(t);
    let m1 = entries_map(t);
    let m2 = entries_map(s).insert(s[idx].0, v);
    assert forall|k: K| #[trigger] m1.contains_key(k) <==> m2.contains_key(k) by {
        if m1.contains_key(k) {
            let i = choose|i: int| 0 <= i < t.len() && #[trigger] t[i].0 == k;
            assert(s[i].0 == k);
        }
        if entries_map(s).contains_key(k) {
            let i = choose|i: int| 0 <= i < s.len() && #[trigger] s[i].0 == k;
            assert(t[i].0 == k);
        }
        if k == s[idx].0 {
            assert(t[idx].0 == k);
        }
    }
    assert forall|k: K| #[trigger] m1.contains_key(k) implies m1[k] == m2[k] by {
        let i = choose|i: int| 0 <= i < t.len() && #[trigger] t[i].0 == k;
        assert(m1[t[i].0] == t[i].1);
        if i != idx {
            assert(s[i] == t[i]);
        }
    }
    assert(m1 =~= m2);
}

/// Inserting a pair with a new key anywhere in a list with distinct keys adds it to the map.
pub proof fn lemma_entries_map_insert_at<K, V>(s: Seq<(K, V)>, p: int, x: (K, V))
    requires
        0 <= p <= s.len(),
        distinct_keys(s.insert(p, x)),
    ensures
        entries_map(s.insert(p, x)) == entries_map(s).insert(x.0, x.1),
{
    let t = s.insert(p, x);
    assert(distinct_keys(s)) by {
        assert forall|i: int, j: int| #![trigger s[i], s[j]] 0 <= i < j < s.len() implies s[i].0 != s[j].0 by {
            let a = if i < p { i } else { i + 1 };
            let b = if j < p { j } else { j + 1 };
            assert(t[a] == s[i] && t[b] == s[j]);
        }
    }
    lemma_entries_map_dom(t);
    lemma_entries_map_dom(s);
    lemma_entries_map_distinct(t);
    lemma_entries_map_distinct(s);
    let m = entries_map(s).insert(x.0, x.1);
    assert forall|k: K| #[trigger] entries_map(t).contains_key(k) <==> m.contains_key(k) by {
        if entries_map(t).contains_key(k) && k != x.0 {
            let i = choose|i: int| 0 <= i < t.len() && #[trigger] t[i].0 == k;
            if i < p {
                assert(s[i] == t[i]);
            } else if i > p {
                assert(s[i - 1] == t[i]);
            }
        }
        if k == x.0 {
            assert(t[p] == x);
        } else if entries_map(s).contains_key(k) {
            let j = choose|j: int| 0 <= j < s.len() && #[trigger] s[j].0 == k;
            let i = if j < p { j } else { j + 1 };
            assert(t[i] == s[j]);
        }
    }
    assert forall|k: K| #[trigger] entries_map(t).contains_key(k) implies entries_map(t)[k] == m[k] by {
        if k == x.0 {
            assert(t[p] == x);
        } else {
            let j = choose|j: int| 0 <= j < s.len() && #[trigger] s[j].0 == k;
            let i = if j < p { j } else { j + 1 };
            assert(t[i] == s[j]);
        }
    }
    assert(entries_map(t) =~= m);
}

/// Sets the value of `key` in an entry list with distinct keys: replaces the pair that
/// carries the key, or appends one.
pub fn entries_insert<V, const N: usize>(v: &mut Vec<([u8; N], V)>, key: [u8; N], val: V)
    requires
        distinct_keys(old(v)@),
    ensures
        distinct_keys(final(v)@),
        entries_map(final(v)@) == entries_map(old(v)@).insert(key, val),
        forall|i: int| 0 <= i < final(v)@.len() ==> #[trigger] final(v)@[i] == (key, val) || old(v)@.contains(final(v)@[i]),
        entries_map(view_keys(final(v)@)) == entries_map(view_keys(old(v)@)).insert(key@, val),
{
    let ghost s0 = v@;
    proof {
        lemma_entries_map_dom(s0);
    }
    match find_key(v, &key) {
        Some(idx) => {
            let ghost kk = v@[idx as int].0;
            v.remove(idx);
            v.insert(idx, (key, val));
            proof {
                assert(v@ =~= s0.update(idx as int, (s0[idx as int].0, val)));
                assert forall|i: int| 0 <= i < v@.len() implies #[trigger] v@[i] == (key, val) || s0.contains(v@[i]) by {
                    if i != idx {
                        assert(v@[i] == s0[i]);
                    }
                }
                lemma_entries_map_update(s0, idx as int, val);
                lemma_view_keys_distinct(s0);
                assert(view_keys(v@) =~= view_keys(s0).update(idx as int, (view_keys(s0)[idx as int].0, val)));
                lemma_entries_map_update(view_keys(s0), idx as int, val);
            }
        },
        None => {
            v.push((key, val));
            proof {
                assert(v@.drop_last() =~= s0);
                assert forall|i: int, j: int| #![trigger v@[i], v@[j]] 0 <= i < j < v@.len() implies v@[i].0 != v@[j].0 by {
                    if j == v@.len() - 1 {
                        assert(v@[i] == s0[i]);
                    } else {
                        assert(v@[i] == s0[i] && v@[j] == s0[j]);
                    }
                }
                assert(view_keys(v@).drop_last() =~= view_keys(s0));
                assert forall|i: int| 0 <= i < v@.len() implies #[trigger] v@[i] == (key, val) || s0.contains(v@[i]) by {
                    if i < s0.len() {
                        assert(v@[i] == s0[i]);
                    }
                }
            }
        },
    }
}

/// Mapping the values keeps the keys distinct.
pub proof fn lemma_map_values_distinct<K, V, W>(s: Seq<(K, V)>, f: spec_fn(V) -> W)
    requires
        distinct_keys(s),
    ensures
        distinct_keys(map_entry_values(s, f)),
{
    let t = map_entry_values(s, f);
    assert forall|i: int, j: int| #![trigger t[i], t[j]] 0 <= i < j < t.len() implies t[i].0 != t[j].0 by {
        assert(t[i].0 == s[i].0 && t[j].0 == s[j].0);
    }
}

/// The map of a list keyed by arrays and the map of the same list keyed by the arrays'
/// bytes hold the same pairs.
pub open spec fn rekeyed<V, const N: usize>(mv: Map<Seq<u8>, V>, m: Map<[u8; N], V>) -> bool {
    &&& forall|k: [u8; N]| #[trigger] m.contains_key(k) <==> mv.contains_key(k@)
    &&& forall|k: [u8; N]| #[trigger] m.contains_key(k) ==> mv[k@] == m[k]
    &&& forall|kv: Seq<u8>| #[trigger] mv.contains_key(kv) ==> exists|k: [u8; N]| k@ == kv && #[trigger] m.contains_key(k)
}

/// Taking keys by their bytes re-keys the denoted map.
pub proof fn lemma_view_keys_rekeyed<V, const N: usize>(s: Seq<([u8; N], V)>)
    ensures
        rekeyed(entries_map(view_keys(s)), entries_map(s)),
    decreases s.len(),
{
    if s.len() > 0 {
        let t = s.drop_last();
        lemma_view_keys_rekeyed(t);
        assert(view_keys(s).drop_last() =~= view_keys(t));
        let last = s.last();
        let mv = entries_map(view_keys(s));
        let m = entries_map(s);
        assert forall|k: [u8; N]| #[trigger] m.contains_key(k) <==> mv.contains_key(k@) by {
            if k@ == last.0@ {
                assert(k =~= last.0);
            }
        }
        assert forall|k: [u8; N]| #[trigger] m.contains_key(k) implies mv[k@] == m[k] by {
            if k@ == last.0@ {
                assert(k =~= last.0);
            }
        }
        assert forall|kv: Seq<u8>| #[trigger] mv.contains_key(kv) implies exists|k: [u8; N]| k@ == kv && #[trigger] m.contains_key(k) by {
            if kv == last.0@ {
                assert(m.contains_key(last.0));
            } else {
                assert(entries_map(view_keys(t)).contains_key(kv));
                let k = choose|k: [u8; N]| k@ == kv && #[trigger] entries_map(t).contains_key(k);
                assert(m.contains_key(k));
            }
        }
    } else {
        assert(entries_map(view_keys(s)) =~= Map::<Seq<u8>, V>::empty());
    }
}

/// Lists that denote the same map still do when their keys are taken by their bytes.
pub proof fn lemma_view_keys_same_map<V, const N: usize>(s1: Seq<([u8; N], V)>, s2: Seq<([u8; N], V)>)
    requires
        entries_map(s1) == entries_map(s2),
    ensures
        entries_map(view_keys(s1)) == entries_map(view_keys(s2)),
{
    lemma_view_keys_rekeyed(s1);
    lemma_view_keys_rekeyed(s2);
    let m1 = entries_map(view_keys(s1));
    let m2 = entries_map(view_keys(s2));
    assert forall|kv: Seq<u8>| #[trigger] m1.contains_key(kv) <==> m2.contains_key(kv) by {
        if m1.contains_key(kv) {
            let k = choose|k: [u8; N]| k@ == kv && #[trigger] entries_map(s1).contains_key(k);
        }
        if m2.contains_key(kv) {
            let k = choose|k: [u8; N]| k@ == kv && #[trigger] entries_map(s2).contains_key(k);
        }
    }
    assert forall|kv: Seq<u8>| #[trigger] m1.contains_key(kv) implies m1[kv] == m2[kv] by {
        let k = choose|k: [u8; N]| k@ == kv && #[trigger] entries_map(s1).contains_key(k);
    }
    assert(m1 =~= m2);
}

} // verus!
