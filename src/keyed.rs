//! Sequences of records keyed by a 64-bit checksum, read as maps in which a
//! later record replaces an earlier one with the same key.

use vstd::prelude::*;

verus! {

/// A record that carries a checksum key.
pub trait Keyed {
    spec fn key(&self) -> u64;
}

/// The map from each key to the last record in `s` that carries it.
pub open spec fn latest<T: Keyed>(s: Seq<T>) -> Map<u64, T>
    decreases s.len(),
{
    if s.len() == 0 {
        Map::empty()
    } else {
        latest(s.drop_last()).insert(s.last().key(), s.last())
    }
}

/// No two records of `s` carry the same key.
pub open spec fn unique_keys<T: Keyed>(s: Seq<T>) -> bool {
    forall|i: int, j: int| 0 <= i < j < s.len() ==> #[trigger] s[i].key() != #[trigger] s[j].key()
}

/// Some record of `s` carries key `k`.
pub open spec fn has_key<T: Keyed>(s: Seq<T>, k: u64) -> bool {
    exists|i: int| 0 <= i < s.len() && #[trigger] s[i].key() == k
}

/// A key has an entry exactly when some record carries it.
pub proof fn lemma_latest_dom<T: Keyed>(s: Seq<T>, k: u64)
    ensures
        latest(s).contains_key(k) <==> has_key(s, k),
    decreases s.len(),
{
    if s.len() > 0 {
        let p = s.drop_last();
        lemma_latest_dom(p, k);
        if has_key(p, k) {
            let i = choose|i: int| 0 <= i < p.len() && #[trigger] p[i].key() == k;
            assert(s[i].key() == k);
        }
        if has_key(s, k) && s.last().key() != k {
            let i = choose|i: int| 0 <= i < s.len() && #[trigger] s[i].key() == k;
            assert(p[i].key() == k);
        }
    }
}

/// Where keys are unique, the entry of each record's key is that record.
pub proof fn lemma_latest_at<T: Keyed>(s: Seq<T>, i: int)
    requires
        unique_keys(s),
        0 <= i < s.len(),
    ensures
        latest(s).contains_key(s[i].key()),
        latest(s)[s[i].key()] == s[i],
    decreases s.len(),
{
    let p = s.drop_last();
    if i < s.len() - 1 {
        assert(s[i].key() != s[s.len() - 1].key());
        assert(p[i] == s[i]);
        lemma_latest_at(p, i);
    }
}

/// Replacing a record by one with the same key replaces the entry of that
/// key and keeps the keys unique.
pub proof fn lemma_latest_update<T: Keyed>(s: Seq<T>, i: int, x: T)
    requires
        unique_keys(s),
        0 <= i < s.len(),
        x.key() == s[i].key(),
    ensures
        unique_keys(s.update(i, x)),
        latest(s.update(i, x)) == latest(s).insert(x.key(), x),
{
    let t = s.update(i, x);
    assert forall|a: int, b: int| 0 <= a < b < t.len() implies #[trigger] t[a].key() != #[trigger] t[b].key() by {
        assert(t[a].key() == s[a].key());
        assert(t[b].key() == s[b].key());
    }
    let l = latest(s).insert(x.key(), x);
    assert forall|k: u64| latest(t).contains_key(k) <==> l.contains_key(k) by {
        lemma_latest_dom(t, k);
        lemma_latest_dom(s, k);
        if has_key(s, k) {
            let j = choose|j: int| 0 <= j < s.len() && #[trigger] s[j].key() == k;
            assert(t[j].key() == k);
        }
        if has_key(t, k) {
            let j = choose|j: int| 0 <= j < t.len() && #[trigger] t[j].key() == k;
            assert(s[j].key() == k);
        }
    }
    assert forall|k: u64| #[trigger] latest(t).contains_key(k) implies latest(t)[k] == l[k] by {
        lemma_latest_dom(t, k);
        let j = choose|j: int| 0 <= j < t.len() && #[trigger] t[j].key() == k;
        lemma_latest_at(t, j);
        lemma_latest_at(s, j);
    }
    assert(latest(t) =~= l);
}

/// A record pushed under a key that `s` does not hold keeps the keys unique.
pub proof fn lemma_push_fresh<T: Keyed>(s: Seq<T>, x: T)
    requires
        unique_keys(s),
        !has_key(s, x.key()),
    ensures
        unique_keys(s.push(x)),
        latest(s.push(x)) == latest(s).insert(x.key(), x),
{
    let t = s.push(x);
    assert(t.drop_last() =~= s);
    assert forall|a: int, b: int| 0 <= a < b < t.len() implies #[trigger] t[a].key() != #[trigger] t[b].key() by {
        if b == s.len() {
            assert(s[a].key() == t[a].key());
        } else {
            assert(s[a].key() == t[a].key() && s[b].key() == t[b].key());
        }
    }
}

/// Where keys are unique, a key of the map stands at exactly one place.
pub proof fn lemma_one_entry_per_key<T: Keyed>(s: Seq<T>, k: u64)
    requires
        unique_keys(s),
        latest(s).contains_key(k),
    ensures
        exists|i: int|
            0 <= i < s.len() && #[trigger] s[i].key() == k && forall|j: int|
                0 <= j < s.len() && j != i ==> #[trigger] s[j].key() != k,
{
    lemma_latest_dom(s, k);
    let i = choose|i: int| 0 <= i < s.len() && #[trigger] s[i].key() == k;
    assert forall|j: int| 0 <= j < s.len() && j != i implies #[trigger] s[j].key() != k by {
        if j < i {
            assert(s[j].key() != s[i].key());
        } else {
            assert(s[i].key() != s[j].key());
        }
    }
}

/// Records appended under other keys leave the entry of `k` as it was.
pub proof fn lemma_latest_append_absent<T: Keyed>(a: Seq<T>, b: Seq<T>, k: u64)
    requires
        !has_key(b, k),
    ensures
        latest(a + b).contains_key(k) == latest(a).contains_key(k),
        latest(a).contains_key(k) ==> latest(a + b)[k] == latest(a)[k],
    decreases b.len(),
{
    if b.len() == 0 {
        assert(a + b =~= a);
    } else {
        let p = b.drop_last();
        assert((a + b).drop_last() =~= a + p);
        assert(b[b.len() - 1].key() != k);
        if has_key(p, k) {
            let i = choose|i: int| 0 <= i < p.len() && #[trigger] p[i].key() == k;
            assert(b[i].key() == k);
        }
        lemma_latest_append_absent(a, p, k);
    }
}

} // verus!
