//! The canonical participant order: ascending lexicographic order over
//! 32-byte public-key encodings, and sorting of key lists and balance-change
//! lists into that order.

use vstd::prelude::*;

verus! {

use vstd::relations::{sorted_by, total_ordering};
use vstd::seq_lib::{lemma_sorted_unique, to_multiset_build};
use crate::crypto::PublicKey;

/// Strict lexicographic order on byte strings: a proper prefix comes first,
/// otherwise the first differing byte decides.
pub open spec fn lex_lt(a: Seq<u8>, b: Seq<u8>) -> bool
    decreases a.len(),
{
    if b.len() == 0 {
        false
    } else if a.len() == 0 {
        true
    } else if a[0] < b[0] {
        true
    } else if a[0] > b[0] {
        false
    } else {
        lex_lt(a.drop_first(), b.drop_first())
    }
}

/// Non-strict lexicographic order.
pub open spec fn lex_le(a: Seq<u8>, b: Seq<u8>) -> bool {
    lex_lt(a, b) || a == b
}

pub proof fn lemma_lex_lt_irreflexive(a: Seq<u8>)
    ensures
        !lex_lt(a, a),
    decreases a.len(),
{
    if a.len() > 0 {
        lemma_lex_lt_irreflexive(a.drop_first());
    }
}

pub proof fn lemma_lex_lt_transitive(a: Seq<u8>, b: Seq<u8>, c: Seq<u8>)
    requires
        lex_lt(a, b),
        lex_lt(b, c),
    ensures
        lex_lt(a, c),
    decreases a.len(),
{
    if a.len() > 0 && b.len() > 0 && c.len() > 0 && a[0] == b[0] && b[0] == c[0] {
        lemma_lex_lt_transitive(a.drop_first(), b.drop_first(), c.drop_first());
    }
}

/// Any two byte strings are ordered or equal.
pub proof fn lemma_lex_lt_total(a: Seq<u8>, b: Seq<u8>)
    ensures
        lex_lt(a, b) || lex_lt(b, a) || a == b,
    decreases a.len(),
{
    if a.len() == 0 && b.len() == 0 {
        assert(a =~= b);
    } else if a.len() > 0 && b.len() > 0 && a[0] == b[0] {
        lemma_lex_lt_total(a.drop_first(), b.drop_first());
        if a.drop_first() == b.drop_first() {
            assert(a =~= seq![a[0]] + a.drop_first());
            assert(b =~= seq![b[0]] + b.drop_first());
        }
    }
}

/// If the first `i` bytes agree, the order is decided by the rest.
proof fn lemma_lex_lt_common_prefix(a: Seq<u8>, b: Seq<u8>, i: int)
    requires
        0 <= i <= a.len(),
        i <= b.len(),
        a.subrange(0, i) == b.subrange(0, i),
    ensures
        lex_lt(a, b) == lex_lt(a.skip(i), b.skip(i)),
    decreases i,
{
    if i > 0 {
        assert(a.subrange(0, i)[0] == b.subrange(0, i)[0]);
        assert(a.subrange(0, i)[0] == a[0]);
        assert(b.subrange(0, i)[0] == b[0]);
        assert(a[0] == b[0]);
        assert(a.len() > 0 && b.len() > 0);
        assert(a.drop_first().subrange(0, i - 1) =~= a.subrange(0, i).drop_first());
        assert(b.drop_first().subrange(0, i - 1) =~= b.subrange(0, i).drop_first());
        lemma_lex_lt_common_prefix(a.drop_first(), b.drop_first(), i - 1);
        assert(a.drop_first().skip(i - 1) =~= a.skip(i));
        assert(b.drop_first().skip(i - 1) =~= b.skip(i));
    } else {
        assert(a.skip(0) =~= a);
        assert(b.skip(0) =~= b);
    }
}

/// Whether `a`'s key encoding comes strictly before `b`'s in canonical order.
pub fn key_lt(a: &PublicKey, b: &PublicKey) -> (r: bool)
    ensures
        r == lex_lt(a@, b@),
{
    let mut i: usize = 0;
    while i < 32
        invariant
            i <= 32,
            a@.subrange(0, i as int) =~= b@.subrange(0, i as int),
        decreases 32 - i,
    {
        let x = a.bytes[i];
        let y = b.bytes[i];
        if x < y {
            proof {
                lemma_lex_lt_common_prefix(a@, b@, i as int);
                assert(a@.skip(i as int)[0] == a@[i as int]);
                assert(b@.skip(i as int)[0] == b@[i as int]);
            }
            return true;
        }
        if x > y {
            proof {
                lemma_lex_lt_common_prefix(a@, b@, i as int);
                assert(a@.skip(i as int)[0] == a@[i as int]);
                assert(b@.skip(i as int)[0] == b@[i as int]);
            }
            return false;
        }
        assert(a@.subrange(0, i + 1) =~= b@.subrange(0, i + 1));
        i += 1;
    }
    proof {
        assert(a@ =~= a@.subrange(0, 32));
        assert(b@ =~= b@.subrange(0, 32));
        lemma_lex_lt_irreflexive(a@);
    }
    false
}

/// The canonical (non-strict) order on keys.
pub open spec fn key_le() -> spec_fn(PublicKey, PublicKey) -> bool {
    |a: PublicKey, b: PublicKey| lex_le(a@, b@)
}

/// The canonical order on balance-change entries: by key, ties broken by the
/// signed value so that the relation is a total order on entries.
pub open spec fn change_le() -> spec_fn((PublicKey, i64), (PublicKey, i64)) -> bool {
    |a: (PublicKey, i64), b: (PublicKey, i64)|
        lex_lt(a.0@, b.0@) || (a.0@ == b.0@ && a.1 <= b.1)
}

/// Equal key encodings make equal keys.
pub proof fn lemma_key_view_injective(a: PublicKey, b: PublicKey)
    requires
        a@ == b@,
    ensures
        a == b,
{
    broadcast use vstd::array::group_array_axioms;

    assert(forall|i: int| 0 <= i < 32 ==> a.bytes[i] == b.bytes[i]);
    assert(a.bytes =~= b.bytes);
}

pub proof fn lemma_key_le_total_ordering()
    ensures
        total_ordering(key_le()),
{
    let le = key_le();
    assert forall|a: PublicKey| #[trigger] le(a, a) by {}
    assert forall|a: PublicKey, b: PublicKey| #[trigger] le(a, b) && #[trigger] le(b, a) implies a
        == b by {
        if lex_lt(a@, b@) && lex_lt(b@, a@) {
            lemma_lex_lt_transitive(a@, b@, a@);
            lemma_lex_lt_irreflexive(a@);
        }
        lemma_key_view_injective(a, b);
    }
    assert forall|a: PublicKey, b: PublicKey, c: PublicKey|
        #[trigger] le(a, b) && #[trigger] le(b, c) implies le(a, c) by {
        if lex_lt(a@, b@) && lex_lt(b@, c@) {
            lemma_lex_lt_transitive(a@, b@, c@);
        }
    }
    assert forall|a: PublicKey, b: PublicKey| #[trigger] le(a, b) || #[trigger] le(b, a) by {
        lemma_lex_lt_total(a@, b@);
    }
}

pub proof fn lemma_change_le_total_ordering()
    ensures
        total_ordering(change_le()),
{
    let le = change_le();
    assert forall|a: (PublicKey, i64)| #[trigger] le(a, a) by {}
    assert forall|a: (PublicKey, i64), b: (PublicKey, i64)|
        #[trigger] le(a, b) && #[trigger] le(b, a) implies a == b by {
        if lex_lt(a.0@, b.0@) && lex_lt(b.0@, a.0@) {
            lemma_lex_lt_transitive(a.0@, b.0@, a.0@);
            lemma_lex_lt_irreflexive(a.0@);
        }
        if lex_lt(a.0@, b.0@) && b.0@ == a.0@ {
            lemma_lex_lt_irreflexive(a.0@);
        }
        if lex_lt(b.0@, a.0@) && a.0@ == b.0@ {
            lemma_lex_lt_irreflexive(a.0@);
        }
        lemma_key_view_injective(a.0, b.0);
    }
    assert forall|a: (PublicKey, i64), b: (PublicKey, i64), c: (PublicKey, i64)|
        #[trigger] le(a, b) && #[trigger] le(b, c) implies le(a, c) by {
        if lex_lt(a.0@, b.0@) && lex_lt(b.0@, c.0@) {
            lemma_lex_lt_transitive(a.0@, b.0@, c.0@);
        }
    }
    assert forall|a: (PublicKey, i64), b: (PublicKey, i64)|
        #[trigger] le(a, b) || #[trigger] le(b, a) by {
        lemma_lex_lt_total(a.0@, b.0@);
    }
}

/// Inserting an element into a sequence inserts it into the multiset.
proof fn lemma_insert_to_multiset<A>(s: Seq<A>, p: int, x: A)
    requires
        0 <= p <= s.len(),
    ensures
        s.insert(p, x).to_multiset() == s.to_multiset().insert(x),
{
    broadcast use vstd::seq_lib::group_to_multiset_ensures;
    broadcast use vstd::multiset::group_multiset_axioms;

    let t = s.insert(p, x);
    assert(t.remove(p) =~= s);
    assert(t[p] == x);
    assert(t.remove(p).to_multiset() =~= t.to_multiset().remove(x));
    assert(t.contains(x));
    assert(t.to_multiset().count(x) > 0);
    assert(t.to_multiset() =~= s.to_multiset().insert(x));
}

/// Inserting at the found position keeps the sequence sorted.
proof fn lemma_sorted_insert<A>(s: Seq<A>, p: int, x: A, le: spec_fn(A, A) -> bool)
    requires
        total_ordering(le),
        sorted_by(s, le),
        0 <= p <= s.len(),
        forall|k: int| 0 <= k < p ==> le(#[trigger] s[k], x),
        p < s.len() ==> le(x, s[p]),
    ensures
        sorted_by(s.insert(p, x), le),
{
    let t = s.insert(p, x);
    assert forall|i: int, j: int| 0 <= i < j < t.len() implies #[trigger] le(t[i], t[j]) by {
        if i < p && j == p {
            assert(t[i] == s[i]);
        } else if i == p {
            assert(t[j] == s[j - 1]);
            if j - 1 > p {
                assert(le(s[p], s[j - 1]));
            }
        } else if i < p && j > p {
            assert(t[i] == s[i] && t[j] == s[j - 1]);
            if i < j - 1 {
                assert(le(s[i], s[j - 1]));
            }
        } else if i > p {
            assert(t[i] == s[i - 1] && t[j] == s[j - 1]);
        } else {
            assert(t[i] == s[i] && t[j] == s[j]);
        }
    }
}

/// The canonical sort of a key list.
pub open spec fn sort_keys_spec(s: Seq<PublicKey>) -> Seq<PublicKey> {
    s.sort_by(key_le())
}

/// The canonical sort of a balance-change list.
pub open spec fn sort_changes_spec(s: Seq<(PublicKey, i64)>) -> Seq<(PublicKey, i64)> {
    s.sort_by(change_le())
}

/// Sort keys into canonical order.
pub fn sort_keys(v: &Vec<PublicKey>) -> (r: Vec<PublicKey>)
    ensures
        r@ == sort_keys_spec(v@),
        sorted_by(r@, key_le()),
        r@.to_multiset() == v@.to_multiset(),
        r@.len() == v@.len(),
{
    proof {
        lemma_key_le_total_ordering();
    }
    let mut out: Vec<PublicKey> = Vec::new();
    let n = v.len();
    assert(v@.subrange(0, 0) =~= Seq::<PublicKey>::empty());
    let mut i: usize = 0;
    while i < n
        invariant
            i <= n,
            n == v@.len(),
            total_ordering(key_le()),
            sorted_by(out@, key_le()),
            out@.to_multiset() == v@.subrange(0, i as int).to_multiset(),
            out@.len() == i,
        decreases n - i,
    {
        let x = v[i];
        let mut p: usize = 0;
        while p < out.len() && !key_lt(&x, &out[p])
            invariant
                p <= out@.len(),
                forall|k: int| 0 <= k < p ==> !lex_lt(x@, #[trigger] out@[k]@),
            decreases out@.len() - p,
        {
            p += 1;
        }
        proof {
            assert forall|k: int| 0 <= k < p implies key_le()(#[trigger] out@[k], x) by {
                lemma_lex_lt_total(out@[k]@, x@);
            }
            if p < out@.len() {
                assert(key_le()(x, out@[p as int]));
            }
            lemma_sorted_insert(out@, p as int, x, key_le());
            lemma_insert_to_multiset(out@, p as int, x);
            broadcast use to_multiset_build;

            assert(v@.subrange(0, i + 1) =~= v@.subrange(0, i as int).push(v@[i as int]));
        }
        out.insert(p, x);
        i += 1;
    }
    proof {
        assert(v@.subrange(0, n as int) =~= v@);
        v@.lemma_sort_by_ensures(key_le());
        lemma_sorted_unique(out@, v@.sort_by(key_le()), key_le());
    }
    out
}

/// Sort balance changes into canonical order of their keys.
pub fn sort_changes(v: &Vec<(PublicKey, i64)>) -> (r: Vec<(PublicKey, i64)>)
    ensures
        r@ == sort_changes_spec(v@),
        sorted_by(r@, change_le()),
        r@.to_multiset() == v@.to_multiset(),
        r@.len() == v@.len(),
{
    proof {
        lemma_change_le_total_ordering();
    }
    let mut out: Vec<(PublicKey, i64)> = Vec::new();
    let n = v.len();
    assert(v@.subrange(0, 0) =~= Seq::<(PublicKey, i64)>::empty());
    let mut i: usize = 0;
    while i < n
        invariant
            i <= n,
            n == v@.len(),
            total_ordering(change_le()),
            sorted_by(out@, change_le()),
            out@.to_multiset() == v@.subrange(0, i as int).to_multiset(),
            out@.len() == i,
        decreases n - i,
    {
        let x = v[i];
        let mut p: usize = 0;
        while p < out.len() && !change_lt_exec(&x, &out[p])
            invariant
                p <= out@.len(),
                forall|k: int| 0 <= k < p ==> change_le()(#[trigger] out@[k], x),
            decreases out@.len() - p,
        {
            proof {
                lemma_lex_lt_total(x.0@, out@[p as int].0@);
            }
            p += 1;
        }
        proof {
            if p < out@.len() {
                assert(change_le()(x, out@[p as int]));
            }
            lemma_sorted_insert(out@, p as int, x, change_le());
            lemma_insert_to_multiset(out@, p as int, x);
            broadcast use to_multiset_build;

            assert(v@.subrange(0, i + 1) =~= v@.subrange(0, i as int).push(v@[i as int]));
        }
        out.insert(p, x);
        i += 1;
    }
    proof {
        assert(v@.subrange(0, n as int) =~= v@);
        v@.lemma_sort_by_ensures(change_le());
        lemma_sorted_unique(out@, v@.sort_by(change_le()), change_le());
    }
    out
}

/// Whether entry `a` comes strictly before entry `b` in canonical order.
fn change_lt_exec(a: &(PublicKey, i64), b: &(PublicKey, i64)) -> (r: bool)
    ensures
        r == (change_le()(*a, *b) && *a != *b),
{
    if key_lt(&a.0, &b.0) {
        proof {
            lemma_lex_lt_irreflexive(a.0@);
            if a.0@ == b.0@ {
                assert(false);
            }
        }
        return true;
    }
    if key_lt(&b.0, &a.0) {
        proof {
            if a.0@ == b.0@ {
                lemma_lex_lt_irreflexive(a.0@);
            }
            if lex_lt(a.0@, b.0@) {
                lemma_lex_lt_transitive(a.0@, b.0@, a.0@);
                lemma_lex_lt_irreflexive(a.0@);
            }
        }
        return false;
    }
    proof {
        lemma_lex_lt_total(a.0@, b.0@);
        lemma_key_view_injective(a.0, b.0);
    }
    if a.1 < b.1 {
        return true;
    }
    false
}

/// Chained comparisons along a list whose adjacent elements are ordered.
proof fn lemma_lex_le_chain(s: Seq<PublicKey>, i: int, j: int)
    requires
        forall|k: int| 1 <= k < s.len() ==> lex_le(s[k - 1]@, (#[trigger] s[k])@),
        0 <= i <= j < s.len(),
    ensures
        lex_le(s[i]@, s[j]@),
    decreases j - i,
{
    if i < j {
        lemma_lex_le_chain(s, i, j - 1);
        if lex_lt(s[i]@, s[j - 1]@) && lex_lt(s[j - 1]@, s[j]@) {
            lemma_lex_lt_transitive(s[i]@, s[j - 1]@, s[j]@);
        }
    }
}

/// A list whose adjacent elements are ordered is sorted.
pub proof fn lemma_adjacent_implies_sorted(s: Seq<PublicKey>)
    requires
        forall|k: int| 1 <= k < s.len() ==> lex_le(s[k - 1]@, (#[trigger] s[k])@),
    ensures
        sorted_by(s, key_le()),
{
    assert forall|i: int, j: int| 0 <= i < j < s.len() implies #[trigger] key_le()(s[i], s[j]) by {
        lemma_lex_le_chain(s, i, j);
    }
}

/// Two key lists with the same keys have the same canonical sort: the
/// order keys arrive in cannot change the canonical form.
pub proof fn lemma_canonical_key_sort_unique(k1: Seq<PublicKey>, k2: Seq<PublicKey>)
    requires
        k1.to_multiset() == k2.to_multiset(),
    ensures
        sort_keys_spec(k1) == sort_keys_spec(k2),
{
    lemma_key_le_total_ordering();
    k1.lemma_sort_by_ensures(key_le());
    k2.lemma_sort_by_ensures(key_le());
    lemma_sorted_unique(k1.sort_by(key_le()), k2.sort_by(key_le()), key_le());
}

/// Two lists with the same entries have the same canonical sort: the order
/// entries arrive in cannot change the canonical form.
pub proof fn lemma_canonical_sort_unique(c1: Seq<(PublicKey, i64)>, c2: Seq<(PublicKey, i64)>)
    requires
        c1.to_multiset() == c2.to_multiset(),
    ensures
        sort_changes_spec(c1) == sort_changes_spec(c2),
{
    lemma_change_le_total_ordering();
    c1.lemma_sort_by_ensures(change_le());
    c2.lemma_sort_by_ensures(change_le());
    lemma_sorted_unique(c1.sort_by(change_le()), c2.sort_by(change_le()), change_le());
}

} // verus!
