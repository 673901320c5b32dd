//! Spec-level view of a vector of key/value pairs used as a map with unique
//! keys. The world stores its rooms and entities this way, so lookups and
//! updates are plain verified code instead of trusted hash-map behaviour.
use vstd::prelude::*;

verus! {

/// No two entries share a key.
pub open spec fn kunique<K, V>(s: Seq<(K, V)>) -> bool {
    forall|i: int, j: int|
        0 <= i < j < s.len() ==> (#[trigger] s[i]).0 != (#[trigger] s[j]).0
}

/// Some entry has key `k`.
pub open spec fn khas<K, V>(s: Seq<(K, V)>, k: K) -> bool {
    exists|i: int| 0 <= i < s.len() && (#[trigger] s[i]).0 == k
}

/// The index of the entry with key `k`.
pub open spec fn kidx<K, V>(s: Seq<(K, V)>, k: K) -> int {
    choose|i: int| 0 <= i < s.len() && (#[trigger] s[i]).0 == k
}

/// The value stored under key `k`.
pub open spec fn kat<K, V>(s: Seq<(K, V)>, k: K) -> V {
    s[kidx(s, k)].1
}

/// Under unique keys, the entry at index `i` is the one its key looks up.
pub proof fn lemma_kidx_of<K, V>(s: Seq<(K, V)>, i: int)
    requires
        kunique(s),
        0 <= i < s.len(),
    ensures
        khas(s, s[i].0),
        kidx(s, s[i].0) == i,
        kat(s, s[i].0) == s[i].1,
{
    assert(khas(s, s[i].0));
    let j = kidx(s, s[i].0);
    if i < j {
        assert(s[i].0 != s[j].0);
    } else if j < i {
        assert(s[j].0 != s[i].0);
    }
}

/// Appending a fresh key keeps the keys unique and leaves every other
/// lookup unchanged.
pub proof fn lemma_kpush<K, V>(s: Seq<(K, V)>, k: K, v: V)
    requires
        kunique(s),
        !khas(s, k),
    ensures
        kunique(s.push((k, v))),
        khas(s.push((k, v)), k),
        kat(s.push((k, v)), k) == v,
        forall|k2: K| #[trigger] khas(s.push((k, v)), k2) <==> (khas(s, k2) || k2 == k),
        forall|k2: K| k2 != k && khas(s, k2) ==> #[trigger] kat(s.push((k, v)), k2) == kat(s, k2)
            && kidx(s.push((k, v)), k2) == kidx(s, k2),
{
    let t = s.push((k, v));
    assert forall|i: int, j: int| 0 <= i < j < t.len() implies (#[trigger] t[i]).0 != (
    #[trigger] t[j]).0 by {
        if j < s.len() {
        } else {
            assert(t[j].0 == k);
            lemma_kidx_of(s, i);
        }
    }
    lemma_kidx_of(t, s.len() as int);
    assert forall|k2: K| #[trigger] khas(t, k2) implies (khas(s, k2) || k2 == k) by {
        let i = kidx(t, k2);
        if i < s.len() {
            lemma_kidx_of(s, i);
        }
    }
    assert forall|k2: K| khas(s, k2) implies khas(t, k2) by {
        let i = kidx(s, k2);
        assert(t[i].0 == k2);
    }
    assert forall|k2: K| k2 != k && khas(s, k2) implies #[trigger] kat(t, k2) == kat(s, k2)
        && kidx(t, k2) == kidx(s, k2) by {
        let i = kidx(s, k2);
        assert(s[i].0 == k2);
        assert(t[i].0 == k2);
        lemma_kidx_of(t, i);
        lemma_kidx_of(s, i);
    }
}

/// Replacing the value at one index keeps the keys unique and leaves every
/// other lookup unchanged.
pub proof fn lemma_kupdate<K, V>(s: Seq<(K, V)>, i: int, v: V)
    requires
        kunique(s),
        0 <= i < s.len(),
    ensures
        kunique(s.update(i, (s[i].0, v))),
        khas(s.update(i, (s[i].0, v)), s[i].0),
        kat(s.update(i, (s[i].0, v)), s[i].0) == v,
        forall|k2: K| #[trigger] khas(s.update(i, (s[i].0, v)), k2) <==> khas(s, k2),
        forall|k2: K| k2 != s[i].0 && khas(s, k2) ==> #[trigger] kat(s.update(i, (s[i].0, v)), k2)
            == kat(s, k2),
{
    let t = s.update(i, (s[i].0, v));
    assert(forall|j: int| 0 <= j < s.len() ==> (#[trigger] t[j]).0 == s[j].0);
    assert forall|p: int, q: int| 0 <= p < q < t.len() implies (#[trigger] t[p]).0 != (
    #[trigger] t[q]).0 by {
        assert(s[p].0 != s[q].0);
    }
    lemma_kidx_of(t, i);
    assert forall|k2: K| #[trigger] khas(t, k2) implies khas(s, k2) by {
        let j = kidx(t, k2);
        assert(s[j].0 == k2);
    }
    assert forall|k2: K| #[trigger] khas(s, k2) implies khas(t, k2) by {
        let j = kidx(s, k2);
        assert(t[j].0 == k2);
    }
    assert forall|k2: K| k2 != s[i].0 && khas(s, k2) implies #[trigger] kat(t, k2) == kat(s, k2) by {
        let j = kidx(s, k2);
        assert(s[j].0 == k2);
        assert(t[j].0 == k2);
        lemma_kidx_of(s, j);
        lemma_kidx_of(t, j);
    }
}

/// Concatenating two association lists with disjoint unique keys keeps the
/// keys unique and serves both sides' lookups unchanged.
pub proof fn lemma_kappend<K, V>(s: Seq<(K, V)>, t: Seq<(K, V)>)
    requires
        kunique(s),
        kunique(t),
        forall|i: int, j: int|
            #![trigger s[i], t[j]]
            0 <= i < s.len() && 0 <= j < t.len() ==> s[i].0 != t[j].0,
    ensures
        kunique(s + t),
        forall|k2: K| #[trigger] khas(s + t, k2) <==> (khas(s, k2) || khas(t, k2)),
        forall|k2: K| khas(s, k2) ==> #[trigger] kat(s + t, k2) == kat(s, k2),
        forall|k2: K| khas(t, k2) ==> #[trigger] kat(s + t, k2) == kat(t, k2),
{
    let u = s + t;
    assert(forall|i: int| 0 <= i < s.len() ==> (#[trigger] u[i]) == s[i]);
    assert(forall|j: int| 0 <= j < t.len() ==> (#[trigger] u[s.len() + j]) == t[j]);
    assert forall|p: int, q: int| 0 <= p < q < u.len() implies (#[trigger] u[p]).0 != (
    #[trigger] u[q]).0 by {
        if q < s.len() {
            assert(u[p] == s[p] && u[q] == s[q]);
        } else if p >= s.len() {
            assert(u[p] == t[p - s.len()] && u[q] == t[q - s.len()]);
        } else {
            assert(u[p] == s[p] && u[q] == t[q - s.len()]);
        }
    }
    assert forall|k2: K| #[trigger] khas(u, k2) <==> (khas(s, k2) || khas(t, k2)) by {
        if khas(u, k2) {
            let i = kidx(u, k2);
            if i < s.len() {
                assert(s[i].0 == k2);
            } else {
                assert(t[i - s.len()].0 == k2);
            }
        }
        if khas(s, k2) {
            let i = kidx(s, k2);
            assert(u[i].0 == k2);
        }
        if khas(t, k2) {
            let j = kidx(t, k2);
            assert(u[s.len() + j].0 == k2);
        }
    }
    assert forall|k2: K| khas(s, k2) implies #[trigger] kat(u, k2) == kat(s, k2) && khas(
        u,
        k2,
    ) by {
        let i = kidx(s, k2);
        assert(s[i].0 == k2);
        assert(u[i].0 == k2);
        lemma_kidx_of(u, i);
        lemma_kidx_of(s, i);
    }
    assert forall|k2: K| khas(t, k2) implies #[trigger] kat(u, k2) == kat(t, k2) && khas(
        u,
        k2,
    ) by {
        let j = kidx(t, k2);
        assert(t[j].0 == k2);
        assert(u[s.len() + j].0 == k2);
        lemma_kidx_of(u, s.len() as int + j);
        lemma_kidx_of(t, j);
    }
}

/// Removing the entry at one index keeps the keys unique, drops that key,
/// and leaves every other lookup's value unchanged.
pub proof fn lemma_kremove<K, V>(s: Seq<(K, V)>, i: int)
    requires
        kunique(s),
        0 <= i < s.len(),
    ensures
        kunique(s.remove(i)),
        !khas(s.remove(i), s[i].0),
        forall|k2: K| #[trigger] khas(s.remove(i), k2) <==> (khas(s, k2) && k2 != s[i].0),
        forall|k2: K| k2 != s[i].0 && khas(s, k2) ==> #[trigger] kat(s.remove(i), k2) == kat(
            s,
            k2,
        ),
{
    let t = s.remove(i);
    assert(forall|j: int| 0 <= j < i ==> (#[trigger] t[j]) == s[j]);
    assert(forall|j: int| i <= j < t.len() ==> (#[trigger] t[j]) == s[j + 1]);
    assert forall|p: int, q: int| 0 <= p < q < t.len() implies (#[trigger] t[p]).0 != (
    #[trigger] t[q]).0 by {
        let sp = if p < i { p } else { p + 1 };
        let sq = if q < i { q } else { q + 1 };
        assert(s[sp].0 != s[sq].0);
    }
    assert forall|k2: K| #[trigger] khas(t, k2) implies (khas(s, k2) && k2 != s[i].0) by {
        let j = kidx(t, k2);
        let sj = if j < i { j } else { j + 1 };
        assert(s[sj].0 == k2);
        lemma_kidx_of(s, sj);
        lemma_kidx_of(s, i);
    }
    assert forall|k2: K| khas(s, k2) && k2 != s[i].0 implies #[trigger] khas(t, k2) by {
        let j = kidx(s, k2);
        lemma_kidx_of(s, j);
        let tj = if j < i { j } else { j - 1 };
        assert(t[tj].0 == k2);
    }
    assert forall|k2: K| k2 != s[i].0 && khas(s, k2) implies #[trigger] kat(t, k2) == kat(
        s,
        k2,
    ) by {
        let j = kidx(s, k2);
        lemma_kidx_of(s, j);
        let tj = if j < i { j } else { j - 1 };
        assert(t[tj].0 == k2);
        lemma_kidx_of(t, tj);
    }
}

} // verus!
