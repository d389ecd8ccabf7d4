//! Sequences of key/value entries with distinct keys: the mathematical
//! model of an insertion-ordered map.

use vstd::prelude::*;

verus! {

/// Whether some entry of `s` has key `k`.
pub open spec fn has_key<K, V>(s: Seq<(K, V)>, k: K) -> bool {
    exists|i: int| 0 <= i < s.len() && #[trigger] s[i].0 == k
}

/// The position of the entry with key `k` in `s`, or -1 when there is none.
pub open spec fn key_pos<K, V>(s: Seq<(K, V)>, k: K) -> int {
    if has_key(s, k) {
        choose|i: int| 0 <= i < s.len() && #[trigger] s[i].0 == k
    } else {
        -1
    }
}

/// No key occurs twice in `s`.
pub open spec fn keys_unique<K, V>(s: Seq<(K, V)>) -> bool {
    forall|i: int, j: int|
        0 <= i < s.len() && 0 <= j < s.len() && i != j ==> #[trigger] s[i].0 != #[trigger] s[j].0
}

/// The value under key `k`, if any.
pub open spec fn lookup<K, V>(s: Seq<(K, V)>, k: K) -> Option<V> {
    if has_key(s, k) {
        Some(s[key_pos(s, k)].1)
    } else {
        None
    }
}

/// Insertion as an insertion-ordered map does it: an existing key keeps its
/// place and takes the new value; a new key goes last.
pub open spec fn keyed_insert<K, V>(s: Seq<(K, V)>, k: K, v: V) -> Seq<(K, V)> {
    if has_key(s, k) {
        s.update(key_pos(s, k), (k, v))
    } else {
        s.push((k, v))
    }
}

/// Removal that shifts the later entries down, keeping their order.
pub open spec fn keyed_remove<K, V>(s: Seq<(K, V)>, k: K) -> Seq<(K, V)> {
    if has_key(s, k) {
        s.remove(key_pos(s, k))
    } else {
        s
    }
}

/// The keys of `s`, in order.
pub open spec fn keys_of<K, V>(s: Seq<(K, V)>) -> Seq<K> {
    s.map_values(|e: (K, V)| e.0)
}

/// With distinct keys, the position of a key is the one entry that holds it.
pub proof fn lemma_key_pos<K, V>(s: Seq<(K, V)>, i: int)
    requires
        keys_unique(s),
        0 <= i < s.len(),
    ensures
        has_key(s, s[i].0),
        key_pos(s, s[i].0) == i,
        lookup(s, s[i].0) == Some(s[i].1),
{
    assert(has_key(s, s[i].0));
}

/// Insertion keeps keys distinct, and a lookup of the key gives the value.
pub proof fn lemma_keyed_insert<K, V>(s: Seq<(K, V)>, k: K, v: V)
    requires
        keys_unique(s),
    ensures
        keys_unique(keyed_insert(s, k, v)),
        lookup(keyed_insert(s, k, v), k) == Some(v),
        forall|k2: K| k2 != k ==> lookup(#[trigger] keyed_insert(s, k, v), k2) == lookup(s, k2),
{
    let t = keyed_insert(s, k, v);
    if has_key(s, k) {
        let p = key_pos(s, k);
        assert(t[p].0 == k);
    } else {
        assert(t[s.len() as int].0 == k);
    }
    assert(keys_unique(t));
    assert(has_key(t, k));
    let q = key_pos(t, k);
    assert(t[q].0 == k);
    assert forall|k2: K| k2 != k implies lookup(#[trigger] keyed_insert(s, k, v), k2) == lookup(s, k2) by {
        if has_key(s, k2) {
            let p2 = key_pos(s, k2);
            assert(t[p2].0 == k2);
            assert(has_key(t, k2));
        }
        if has_key(t, k2) {
            let q2 = key_pos(t, k2);
            assert(t[q2].0 == k2);
            assert(s[q2].0 == k2);
            assert(has_key(s, k2));
        }
    }
}

/// Removal keeps keys distinct and leaves no entry under the key.
pub proof fn lemma_keyed_remove<K, V>(s: Seq<(K, V)>, k: K)
    requires
        keys_unique(s),
    ensures
        keys_unique(keyed_remove(s, k)),
        !has_key(keyed_remove(s, k), k),
        forall|k2: K| k2 != k ==> lookup(#[trigger] keyed_remove(s, k), k2) == lookup(s, k2),
{
    let t = keyed_remove(s, k);
    if has_key(s, k) {
        let p = key_pos(s, k);
        assert(s[p].0 == k);
        assert(keys_unique(t)) by {
            assert forall|i: int, j: int|
                0 <= i < t.len() && 0 <= j < t.len() && i != j implies #[trigger] t[i].0 != #[trigger] t[j].0 by {
                let i2 = if i < p { i } else { i + 1 };
                let j2 = if j < p { j } else { j + 1 };
                assert(t[i] == s[i2]);
                assert(t[j] == s[j2]);
            }
        }
        if has_key(t, k) {
            let q = choose|i: int| 0 <= i < t.len() && #[trigger] t[i].0 == k;
            let q2 = if q < p { q } else { q + 1 };
            assert(t[q] == s[q2]);
        }
        assert forall|k2: K| k2 != k implies lookup(#[trigger] keyed_remove(s, k), k2) == lookup(s, k2) by {
            if has_key(s, k2) {
                let p2 = key_pos(s, k2);
                assert(s[p2].0 == k2);
                let p3 = if p2 < p { p2 } else { p2 - 1 };
                assert(t[p3] == s[p2]);
                assert(has_key(t, k2));
            }
            if has_key(t, k2) {
                let q2 = key_pos(t, k2);
                assert(t[q2].0 == k2);
                let q3 = if q2 < p { q2 } else { q2 + 1 };
                assert(t[q2] == s[q3]);
                assert(has_key(s, k2));
            }
        }
    }
}

} // verus!

verus! {

/// The sequence without the element `v`, later elements shifted down.
pub open spec fn seq_without<A>(s: Seq<A>, v: A) -> Seq<A> {
    if s.contains(v) {
        s.remove(s.index_of(v))
    } else {
        s
    }
}

/// The sequence with `v` added last unless it is already there.
pub open spec fn seq_with<A>(s: Seq<A>, v: A) -> Seq<A> {
    if s.contains(v) {
        s
    } else {
        s.push(v)
    }
}

} // verus!

verus! {

/// Distinct keys in the key sequence are distinct keys of the entries.
pub proof fn lemma_keys_of_unique<K, V>(s: Seq<(K, V)>)
    requires
        keys_of(s).no_duplicates(),
    ensures
        keys_unique(s),
{
    assert forall|i: int, j: int| 0 <= i < s.len() && 0 <= j < s.len() && i != j implies #[trigger] s[i].0 != #[trigger] s[j].0 by {
        assert(keys_of(s)[i] == s[i].0);
        assert(keys_of(s)[j] == s[j].0);
    }
}

/// The keys after a removal are the keys without the removed one.
pub proof fn lemma_keys_of_remove<K, V>(s: Seq<(K, V)>, k: K)
    requires
        keys_unique(s),
    ensures
        keys_of(keyed_remove(s, k)) == seq_without(keys_of(s), k),
        keys_of(keyed_remove(s, k)).len() == keys_of(s).len() - (if has_key(s, k) { 1int } else { 0 }),
{
    let ks = keys_of(s);
    if has_key(s, k) {
        let p = key_pos(s, k);
        assert(s[p].0 == k);
        assert(ks[p] == k);
        assert(ks.contains(k));
        let q = ks.index_of(k);
        assert(ks[q] == k);
        assert(s[q].0 == k);
        assert(p == q);
        assert(keys_of(s.remove(p)) =~= ks.remove(p));
    } else {
        if ks.contains(k) {
            let q = ks.index_of(k);
            assert(s[q].0 == k);
        }
    }
}

/// The keys after an insertion are the keys with the inserted one.
pub proof fn lemma_keys_of_insert<K, V>(s: Seq<(K, V)>, k: K, v: V)
    requires
        keys_unique(s),
    ensures
        keys_of(keyed_insert(s, k, v)) == seq_with(keys_of(s), k),
{
    let ks = keys_of(s);
    if has_key(s, k) {
        let p = key_pos(s, k);
        assert(s[p].0 == k);
        assert(ks[p] == k);
        assert(keys_of(s.update(p, (k, v))) =~= ks);
    } else {
        if ks.contains(k) {
            let q = ks.index_of(k);
            assert(s[q].0 == k);
        }
        assert(keys_of(s.push((k, v))) =~= ks.push(k));
    }
}

/// A key is a key of the entries exactly when it is in the key sequence.
pub proof fn lemma_has_key_keys_of<K, V>(s: Seq<(K, V)>, k: K)
    ensures
        has_key(s, k) == keys_of(s).contains(k),
{
    if has_key(s, k) {
        let p = choose|i: int| 0 <= i < s.len() && #[trigger] s[i].0 == k;
        assert(keys_of(s)[p] == k);
    }
    if keys_of(s).contains(k) {
        let q = choose|i: int| 0 <= i < keys_of(s).len() && keys_of(s)[i] == k;
        assert(s[q].0 == k);
    }
}

} // verus!

verus! {

/// Removing an element keeps the others, and keeps them distinct.
pub proof fn lemma_seq_without<A>(s: Seq<A>, v: A)
    requires
        s.no_duplicates(),
    ensures
        seq_without(s, v).no_duplicates(),
        !seq_without(s, v).contains(v),
        forall|x: A| #[trigger] seq_without(s, v).contains(x) == (s.contains(x) && x != v),
        seq_without(s, v).len() == s.len() - (if s.contains(v) { 1int } else { 0 }),
{
    let t = seq_without(s, v);
    if s.contains(v) {
        let p = s.index_of(v);
        assert(s[p] == v);
        assert forall|a: int, b: int| 0 <= a < t.len() && 0 <= b < t.len() && a != b implies t[a] != t[b] by {
            let a2 = if a < p { a } else { a + 1 };
            let b2 = if b < p { b } else { b + 1 };
            assert(t[a] == s[a2]);
            assert(t[b] == s[b2]);
        }
        assert forall|x: A| #[trigger] t.contains(x) == (s.contains(x) && x != v) by {
            if t.contains(x) {
                let a = choose|a: int| 0 <= a < t.len() && t[a] == x;
                let a2 = if a < p { a } else { a + 1 };
                assert(t[a] == s[a2]);
                assert(a2 != p);
            }
            if s.contains(x) && x != v {
                let a = choose|a: int| 0 <= a < s.len() && s[a] == x;
                assert(a != p);
                let a2 = if a < p { a } else { a - 1 };
                assert(t[a2] == s[a]);
            }
        }
    }
}

} // verus!

verus! {

/// Inserting twice under one key is inserting the second value.
pub proof fn lemma_keyed_insert_twice<K, V>(s: Seq<(K, V)>, k: K, v1: V, v2: V)
    requires
        keys_unique(s),
    ensures
        keyed_insert(keyed_insert(s, k, v1), k, v2) == keyed_insert(s, k, v2),
{
    let t = keyed_insert(s, k, v1);
    lemma_keyed_insert(s, k, v1);
    if has_key(s, k) {
        let p = key_pos(s, k);
        assert(s[p].0 == k);
        assert(t[p].0 == k);
        assert(has_key(t, k));
        let q = key_pos(t, k);
        assert(t[q].0 == k);
        assert(q == p);
        assert(t.update(q, (k, v2)) =~= s.update(p, (k, v2)));
    } else {
        let n = s.len() as int;
        assert(t[n].0 == k);
        assert(has_key(t, k));
        let q = key_pos(t, k);
        assert(t[q].0 == k);
        assert(q == n);
        assert(t.update(q, (k, v2)) =~= s.push((k, v2)));
    }
}

/// A key is a key after inserting it, and the other keys stay as they were.
/// A lookup in entries with one more at the end finds that entry under its
/// key, and otherwise what it found before.
pub proof fn lemma_lookup_push<K, V>(s: Seq<(K, V)>, e: (K, V), k: K)
    requires
        keys_unique(s.push(e)),
    ensures
        keys_unique(s),
        lookup(s.push(e), k) == (if e.0 == k { Some(e.1) } else { lookup(s, k) }),
{
    let t = s.push(e);
    assert forall|i: int, j: int| 0 <= i < s.len() && 0 <= j < s.len() && i != j implies #[trigger] s[i].0 != #[trigger] s[j].0 by {
        assert(t[i] == s[i]);
        assert(t[j] == s[j]);
    }
    if e.0 == k {
        lemma_key_pos(t, s.len() as int);
    } else if has_key(s, k) {
        let i = choose|i: int| 0 <= i < s.len() && #[trigger] s[i].0 == k;
        assert(t[i] == s[i]);
        lemma_key_pos(t, i);
        lemma_key_pos(s, i);
    } else {
        assert(!has_key(t, k)) by {
            if has_key(t, k) {
                let i = choose|i: int| 0 <= i < t.len() && #[trigger] t[i].0 == k;
                assert(i < s.len());
                assert(s[i] == t[i]);
            }
        }
    }
}

/// Entries with distinct keys keep them distinct when one with a new key
/// is added at the end.
pub proof fn lemma_push_keys_unique<K, V>(s: Seq<(K, V)>, e: (K, V))
    requires
        keys_unique(s),
        !has_key(s, e.0),
    ensures
        keys_unique(s.push(e)),
{
    let t = s.push(e);
    assert forall|i: int, j: int| 0 <= i < t.len() && 0 <= j < t.len() && i != j implies #[trigger] t[i].0 != #[trigger] t[j].0 by {
        if i < s.len() {
            assert(t[i] == s[i]);
        }
        if j < s.len() {
            assert(t[j] == s[j]);
        }
    }
}

pub proof fn lemma_keyed_insert_has_key<K, V>(s: Seq<(K, V)>, k: K, v: V, k2: K)
    requires
        keys_unique(s),
    ensures
        has_key(keyed_insert(s, k, v), k2) == (has_key(s, k2) || k2 == k),
{
    lemma_keyed_insert(s, k, v);
    if k2 != k {
        assert(lookup(keyed_insert(s, k, v), k2) == lookup(s, k2));
    }
}

} // verus!

verus! {

/// The elements of `s` that `keep` holds of, in order.
pub open spec fn filter_keep<A>(s: Seq<A>, keep: spec_fn(A) -> bool) -> Seq<A>
    decreases s.len(),
{
    if s.len() == 0 {
        s
    } else {
        let r = filter_keep(s.drop_last(), keep);
        if keep(s.last()) {
            r.push(s.last())
        } else {
            r
        }
    }
}

/// The filtered sequence holds the kept elements of `s`, no more of them
/// than `s` has, each once when `s` has each once.
pub proof fn lemma_filter_keep<A>(s: Seq<A>, keep: spec_fn(A) -> bool)
    ensures
        forall|x: A| #[trigger] filter_keep(s, keep).contains(x) == (s.contains(x) && keep(x)),
        s.no_duplicates() ==> filter_keep(s, keep).no_duplicates(),
        filter_keep(s, keep).len() <= s.len(),
    decreases s.len(),
{
    if s.len() > 0 {
        let s0 = s.drop_last();
        lemma_filter_keep(s0, keep);
        let r0 = filter_keep(s0, keep);
        let r = filter_keep(s, keep);
        assert forall|x: A| #[trigger] r.contains(x) == (s.contains(x) && keep(x)) by {
            if s0.contains(x) {
                let i = choose|i: int| 0 <= i < s0.len() && s0[i] == x;
                assert(s[i] == x);
            }
            if s.contains(x) {
                let i = choose|i: int| 0 <= i < s.len() && s[i] == x;
                if i < s0.len() {
                    assert(s0[i] == x);
                }
            }
            if keep(s.last()) {
                assert(r == r0.push(s.last()));
                assert(r[r0.len() as int] == s.last());
                if r.contains(x) {
                    let i = choose|i: int| 0 <= i < r.len() && r[i] == x;
                    if i < r0.len() {
                        assert(r0[i] == x);
                    }
                }
                if r0.contains(x) {
                    let i = choose|i: int| 0 <= i < r0.len() && r0[i] == x;
                    assert(r[i] == x);
                }
            }
        }
        if s.no_duplicates() {
            assert(s0.no_duplicates()) by {
                assert forall|a: int, b: int| 0 <= a < s0.len() && 0 <= b < s0.len() && a != b implies s0[a] != s0[b] by {
                    assert(s0[a] == s[a]);
                    assert(s0[b] == s[b]);
                }
            }
            if keep(s.last()) {
                assert(!s0.contains(s.last())) by {
                    if s0.contains(s.last()) {
                        let i = choose|i: int| 0 <= i < s0.len() && s0[i] == s.last();
                        assert(s[i] == s[s.len() - 1]);
                    }
                }
                assert forall|a: int, b: int| 0 <= a < r.len() && 0 <= b < r.len() && a != b implies r[a] != r[b] by {
                    if a == r0.len() {
                        assert(r0.contains(r[b]));
                    } else if b == r0.len() {
                        assert(r0.contains(r[a]));
                    } else {
                        assert(r[a] == r0[a]);
                        assert(r[b] == r0[b]);
                    }
                }
            }
        }
    }
}

/// Filters that agree on the elements give the same result.
pub proof fn lemma_filter_keep_ext<A>(s: Seq<A>, f: spec_fn(A) -> bool, g: spec_fn(A) -> bool)
    requires
        forall|x: A| #[trigger] s.contains(x) ==> f(x) == g(x),
    ensures
        filter_keep(s, f) == filter_keep(s, g),
    decreases s.len(),
{
    if s.len() > 0 {
        let s0 = s.drop_last();
        assert forall|x: A| #[trigger] s0.contains(x) implies f(x) == g(x) by {
            let i = choose|i: int| 0 <= i < s0.len() && s0[i] == x;
            assert(s[i] == x);
            assert(s.contains(x));
        }
        lemma_filter_keep_ext(s0, f, g);
        assert(s.contains(s.last())) by {
            assert(s[s.len() - 1] == s.last());
        }
    }
}

/// Removing a kept element from the filtered sequence is filtering it out.
pub proof fn lemma_filter_keep_without<A>(s: Seq<A>, f: spec_fn(A) -> bool, g: spec_fn(A) -> bool, x: A)
    requires
        s.no_duplicates(),
        forall|y: A| #[trigger] g(y) == (f(y) && y != x),
    ensures
        seq_without(filter_keep(s, f), x) == filter_keep(s, g),
{
    lemma_filter_keep_without_pointwise(s, f, x);
    lemma_filter_keep_ext(s, |y: A| f(y) && y != x, g);
}

proof fn lemma_filter_keep_without_pointwise<A>(s: Seq<A>, f: spec_fn(A) -> bool, x: A)
    requires
        s.no_duplicates(),
    ensures
        seq_without(filter_keep(s, f), x) == filter_keep(s, |y: A| f(y) && y != x),
    decreases s.len(),
{
    let g = |y: A| f(y) && y != x;
    lemma_filter_keep(s, f);
    let r = filter_keep(s, f);
    if s.len() > 0 {
        let s0 = s.drop_last();
        assert(s0.no_duplicates()) by {
            assert forall|a: int, b: int| 0 <= a < s0.len() && 0 <= b < s0.len() && a != b implies s0[a] != s0[b] by {
                assert(s0[a] == s[a]);
                assert(s0[b] == s[b]);
            }
        }
        lemma_filter_keep_without_pointwise(s0, f, x);
        lemma_filter_keep(s0, f);
        lemma_filter_keep(s0, g);
        let r0 = filter_keep(s0, f);
        let last = s.last();
        if f(last) {
            assert(r == r0.push(last));
            if last == x {
                assert(!s0.contains(x)) by {
                    if s0.contains(x) {
                        let i = choose|i: int| 0 <= i < s0.len() && s0[i] == x;
                        assert(s[i] == s[s.len() - 1]);
                    }
                }
                assert(!r0.contains(x));
                assert(r.contains(x)) by {
                    assert(r[r0.len() as int] == x);
                }
                assert(r.no_duplicates());
                let q = r.index_of(x);
                assert(r[q] == x);
                assert(q == r0.len()) by {
                    if q < r0.len() {
                        assert(r0[q] == x);
                    }
                }
                assert(r.remove(q) =~= r0);
                assert(seq_without(r0, x) == r0);
                lemma_filter_keep_ext(s0, f, g);
            } else {
                if r0.contains(x) {
                    let q0 = r0.index_of(x);
                    assert(r0[q0] == x);
                    assert(r[q0] == x);
                    assert(r.contains(x));
                    let q = r.index_of(x);
                    assert(r[q] == x);
                    assert(r.no_duplicates());
                    assert(q == q0);
                    assert(r.remove(q) =~= r0.remove(q0).push(last));
                } else {
                    assert(!r.contains(x)) by {
                        if r.contains(x) {
                            let i = choose|i: int| 0 <= i < r.len() && r[i] == x;
                            if i < r0.len() {
                                assert(r0[i] == x);
                            }
                        }
                    }
                }
            }
        } else {
            assert(r == r0);
        }
    }
}

} // verus!
