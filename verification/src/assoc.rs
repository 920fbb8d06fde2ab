//! Association sequences: the mathematical model of the crate's tables.
//!
//! A table is a sequence of `(key, amount)` pairs in which no key occurs
//! twice. The functions here read such a sequence as a map and add its
//! amounts up; the lemmas say how both change when a pair is appended or an
//! amount is replaced.

use vstd::prelude::*;

verus! {

/// Some pair of `s` is filed under `k`.
pub open spec fn has_key<K>(s: Seq<(K, u64)>, k: K) -> bool {
    exists|i: int| 0 <= i < s.len() && (#[trigger] s[i]).0 == k
}

/// Where `k` is filed in `s`; meaningful only if `has_key(s, k)`.
pub open spec fn position<K>(s: Seq<(K, u64)>, k: K) -> int {
    choose|i: int| 0 <= i < s.len() && (#[trigger] s[i]).0 == k
}

/// No key is filed twice.
pub open spec fn distinct_keys<K>(s: Seq<(K, u64)>) -> bool {
    forall|i: int, j: int|
        0 <= i < s.len() && 0 <= j < s.len() && i != j ==> (#[trigger] s[i]).0 != (#[trigger] s[j]).0
}

/// The amount filed under `k`, zero where there is none.
pub open spec fn amount_of<K>(s: Seq<(K, u64)>, k: K) -> u64 {
    if has_key(s, k) {
        s[position(s, k)].1
    } else {
        0
    }
}

/// The sequence read as a map from its keys to their amounts.
pub open spec fn as_map<K>(s: Seq<(K, u64)>) -> Map<K, u64> {
    Map::new(|k: K| has_key(s, k), |k: K| s[position(s, k)].1)
}

/// The sum of `f(key, amount)` over all pairs of `s`.
pub open spec fn weighted<K>(s: Seq<(K, u64)>, f: spec_fn(K, u64) -> nat) -> nat
    decreases s.len(),
{
    if s.len() == 0 {
        0
    } else {
        weighted(s.drop_last(), f) + f(s.last().0, s.last().1)
    }
}

/// The weight that counts every amount as it is.
pub open spec fn face_value<K>() -> spec_fn(K, u64) -> nat {
    |k: K, v: u64| v as nat
}

/// The sum of all amounts of `s`.
pub open spec fn total<K>(s: Seq<(K, u64)>) -> nat {
    weighted(s, face_value::<K>())
}

/// In a sequence without repeated keys, a key is found where it stands.
pub proof fn lemma_position<K>(s: Seq<(K, u64)>, i: int)
    requires
        distinct_keys(s),
        0 <= i < s.len(),
    ensures
        has_key(s, s[i].0),
        position(s, s[i].0) == i,
        amount_of(s, s[i].0) == s[i].1,
{
    let k = s[i].0;
    assert(0 <= i < s.len() && s[i].0 == k);
    let p = position(s, k);
    assert(0 <= p < s.len() && s[p].0 == k);
}

/// The empty sequence is a table, holds nothing and sums to zero.
pub proof fn lemma_empty<K>()
    ensures
        distinct_keys(Seq::<(K, u64)>::empty()),
        as_map(Seq::<(K, u64)>::empty()) == Map::<K, u64>::empty(),
        forall|f: spec_fn(K, u64) -> nat| #[trigger] weighted(Seq::<(K, u64)>::empty(), f) == 0,
        forall|k: K| !#[trigger] has_key(Seq::<(K, u64)>::empty(), k),
{
    assert(as_map(Seq::<(K, u64)>::empty()) =~= Map::<K, u64>::empty());
}

/// Appending a pair under a new key inserts it into the map.
pub proof fn lemma_push<K>(s: Seq<(K, u64)>, k: K, v: u64)
    requires
        distinct_keys(s),
        !has_key(s, k),
    ensures
        distinct_keys(s.push((k, v))),
        as_map(s.push((k, v))) == as_map(s).insert(k, v),
        has_key(s.push((k, v)), k),
        amount_of(s.push((k, v)), k) == v,
        forall|q: K| q != k ==> has_key(s.push((k, v)), q) == has_key(s, q),
        forall|q: K| q != k ==> amount_of(s.push((k, v)), q) == amount_of(s, q),
{
    let t = s.push((k, v));
    let n = s.len() as int;
    assert(t[n].0 == k);
    assert forall|i: int, j: int| 0 <= i < t.len() && 0 <= j < t.len() && i != j implies (#[trigger] t[i]).0
        != (#[trigger] t[j]).0 by {
        if i < n && j < n {
            assert(s[i].0 != s[j].0);
        } else if i < n {
            assert(s[i].0 != k);
        } else {
            assert(s[j].0 != k);
        }
    }
    lemma_position(t, n);
    assert forall|q: K| q != k implies has_key(t, q) == has_key(s, q) && amount_of(t, q) == amount_of(
        s,
        q,
    ) by {
        if has_key(s, q) {
            let p = position(s, q);
            assert(t[p].0 == q);
            lemma_position(t, p);
        }
        if has_key(t, q) {
            let p = position(t, q);
            assert(p < n);
            assert(s[p].0 == q);
            lemma_position(s, p);
        }
    }
    assert(as_map(t) =~= as_map(s).insert(k, v)) by {
        assert forall|q: K| as_map(t).contains_key(q) implies #[trigger] as_map(t)[q] == as_map(s).insert(
            k,
            v,
        )[q] by {
            if q != k {
                assert(amount_of(t, q) == amount_of(s, q));
            }
        }
    }
}

/// Replacing the amount at one place replaces it in the map.
pub proof fn lemma_update<K>(s: Seq<(K, u64)>, i: int, v: u64)
    requires
        distinct_keys(s),
        0 <= i < s.len(),
    ensures
        distinct_keys(s.update(i, (s[i].0, v))),
        as_map(s.update(i, (s[i].0, v))) == as_map(s).insert(s[i].0, v),
        has_key(s.update(i, (s[i].0, v)), s[i].0),
        amount_of(s.update(i, (s[i].0, v)), s[i].0) == v,
        forall|q: K| has_key(s.update(i, (s[i].0, v)), q) == has_key(s, q),
        forall|q: K| q != s[i].0 ==> amount_of(s.update(i, (s[i].0, v)), q) == amount_of(s, q),
{
    let k = s[i].0;
    let t = s.update(i, (k, v));
    assert forall|a: int, b: int| 0 <= a < t.len() && 0 <= b < t.len() && a != b implies (#[trigger] t[a]).0
        != (#[trigger] t[b]).0 by {
        assert(t[a].0 == s[a].0);
        assert(t[b].0 == s[b].0);
    }
    lemma_position(s, i);
    lemma_position(t, i);
    assert forall|q: K| has_key(t, q) == has_key(s, q) && (q != k ==> amount_of(t, q) == amount_of(s, q)) by {
        if has_key(s, q) {
            let p = position(s, q);
            assert(t[p].0 == q);
            lemma_position(t, p);
            lemma_position(s, p);
        }
        if has_key(t, q) {
            let p = position(t, q);
            assert(s[p].0 == q);
            lemma_position(s, p);
            lemma_position(t, p);
        }
    }
    assert(as_map(t) =~= as_map(s).insert(k, v)) by {
        assert forall|q: K| as_map(t).contains_key(q) implies #[trigger] as_map(t)[q] == as_map(s).insert(
            k,
            v,
        )[q] by {
            if q != k {
                assert(amount_of(t, q) == amount_of(s, q));
            }
        }
    }
}

/// Appending a pair adds its weight to the sum.
pub proof fn lemma_weighted_push<K>(s: Seq<(K, u64)>, e: (K, u64), f: spec_fn(K, u64) -> nat)
    ensures
        weighted(s.push(e), f) == weighted(s, f) + f(e.0, e.1),
{
    assert(s.push(e).drop_last() =~= s);
}

/// Replacing a pair exchanges its weight in the sum.
pub proof fn lemma_weighted_update<K>(s: Seq<(K, u64)>, i: int, e: (K, u64), f: spec_fn(K, u64) -> nat)
    requires
        0 <= i < s.len(),
    ensures
        weighted(s.update(i, e), f) + f(s[i].0, s[i].1) == weighted(s, f) + f(e.0, e.1),
    decreases s.len(),
{
    let t = s.update(i, e);
    if i == s.len() - 1 {
        assert(t.drop_last() =~= s.drop_last());
    } else {
        assert(t.drop_last() =~= s.drop_last().update(i, e));
        lemma_weighted_update(s.drop_last(), i, e, f);
    }
}

/// The sum over the first `n + 1` pairs is the sum over the first `n` and
/// the weight of the pair at `n`.
pub proof fn lemma_weighted_step<K>(s: Seq<(K, u64)>, n: int, f: spec_fn(K, u64) -> nat)
    requires
        0 <= n < s.len(),
    ensures
        weighted(s.take(n + 1), f) == weighted(s.take(n), f) + f(s[n].0, s[n].1),
{
    assert(s.take(n + 1).drop_last() =~= s.take(n));
}

/// The sum over a prefix never exceeds the sum over the whole.
pub proof fn lemma_weighted_prefix<K>(s: Seq<(K, u64)>, n: int, f: spec_fn(K, u64) -> nat)
    requires
        0 <= n <= s.len(),
    ensures
        weighted(s.take(n), f) <= weighted(s, f),
    decreases s.len() - n,
{
    if n == s.len() {
        assert(s.take(n) =~= s);
    } else {
        lemma_weighted_step(s, n, f);
        lemma_weighted_prefix(s, n + 1, f);
    }
}

/// No single weight exceeds the sum.
pub proof fn lemma_weighted_member<K>(s: Seq<(K, u64)>, i: int, f: spec_fn(K, u64) -> nat)
    requires
        0 <= i < s.len(),
    ensures
        f(s[i].0, s[i].1) <= weighted(s, f),
{
    lemma_weighted_step(s, i, f);
    lemma_weighted_prefix(s, i + 1, f);
}

/// Two weights that agree on every pair of `s` give the same sum.
pub proof fn lemma_weighted_agree<K>(
    s: Seq<(K, u64)>,
    f: spec_fn(K, u64) -> nat,
    g: spec_fn(K, u64) -> nat,
)
    requires
        forall|i: int| 0 <= i < s.len() ==> f((#[trigger] s[i]).0, s[i].1) == g(s[i].0, s[i].1),
    ensures
        weighted(s, f) == weighted(s, g),
    decreases s.len(),
{
    if s.len() > 0 {
        let r = s.drop_last();
        assert forall|i: int| 0 <= i < r.len() implies f((#[trigger] r[i]).0, r[i].1) == g(r[i].0, r[i].1) by {
            assert(r[i] == s[i]);
        }
        lemma_weighted_agree(r, f, g);
        assert(s.last() == s[s.len() - 1]);
    }
}

/// A weight that is nowhere above another gives no larger a sum.
pub proof fn lemma_weighted_le<K>(
    s: Seq<(K, u64)>,
    f: spec_fn(K, u64) -> nat,
    g: spec_fn(K, u64) -> nat,
)
    requires
        forall|i: int| 0 <= i < s.len() ==> f((#[trigger] s[i]).0, s[i].1) <= g(s[i].0, s[i].1),
    ensures
        weighted(s, f) <= weighted(s, g),
    decreases s.len(),
{
    if s.len() > 0 {
        let r = s.drop_last();
        assert forall|i: int| 0 <= i < r.len() implies f((#[trigger] r[i]).0, r[i].1) <= g(r[i].0, r[i].1) by {
            assert(r[i] == s[i]);
        }
        lemma_weighted_le(r, f, g);
        assert(s.last() == s[s.len() - 1]);
    }
}

/// A weight that is zero on every pair of `s` gives the sum zero.
pub proof fn lemma_weighted_zero<K>(s: Seq<(K, u64)>, f: spec_fn(K, u64) -> nat)
    requires
        forall|i: int| 0 <= i < s.len() ==> f((#[trigger] s[i]).0, s[i].1) == 0,
    ensures
        weighted(s, f) == 0,
    decreases s.len(),
{
    if s.len() > 0 {
        let r = s.drop_last();
        assert forall|i: int| 0 <= i < r.len() implies f((#[trigger] r[i]).0, r[i].1) == 0 by {
            assert(r[i] == s[i]);
        }
        lemma_weighted_zero(r, f);
        assert(s.last() == s[s.len() - 1]);
    }
}

/// A prefix of a table is a table, and appending the next pair to it gives
/// the next prefix.
pub proof fn lemma_prefix<K>(s: Seq<(K, u64)>, n: int)
    requires
        distinct_keys(s),
        0 <= n < s.len(),
    ensures
        distinct_keys(s.take(n)),
        !has_key(s.take(n), s[n].0),
        s.take(n + 1) == s.take(n).push(s[n]),
{
    let t = s.take(n);
    assert forall|i: int, j: int| 0 <= i < t.len() && 0 <= j < t.len() && i != j implies (#[trigger] t[i]).0
        != (#[trigger] t[j]).0 by {
        assert(t[i] == s[i] && t[j] == s[j]);
    }
    if has_key(t, s[n].0) {
        let p = position(t, s[n].0);
        assert(t[p] == s[p]);
        assert(s[p].0 != s[n].0);
    }
    assert(s.take(n + 1) =~= t.push(s[n]));
}

/// Where one weight is the sum of two others on every pair of `s`, so are
/// the sums.
pub proof fn lemma_weighted_add<K>(
    s: Seq<(K, u64)>,
    f: spec_fn(K, u64) -> nat,
    g: spec_fn(K, u64) -> nat,
    h: spec_fn(K, u64) -> nat,
)
    requires
        forall|i: int|
            0 <= i < s.len() ==> f((#[trigger] s[i]).0, s[i].1) + g(s[i].0, s[i].1) == h(s[i].0, s[i].1),
    ensures
        weighted(s, f) + weighted(s, g) == weighted(s, h),
    decreases s.len(),
{
    if s.len() > 0 {
        let r = s.drop_last();
        assert forall|i: int| 0 <= i < r.len() implies f((#[trigger] r[i]).0, r[i].1) + g(r[i].0, r[i].1)
            == h(r[i].0, r[i].1) by {
            assert(r[i] == s[i]);
        }
        lemma_weighted_add(r, f, g, h);
        assert(s.last() == s[s.len() - 1]);
    }
}

} // verus!
