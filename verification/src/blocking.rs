//! The mathematical model of the dependency tracker's blocking relation:
//! for each pending node, the nodes it blocks and on which sockets.

use vstd::prelude::*;

use crate::keyed::{
    filter_keep, has_key, key_pos, keyed_remove, keys_of, keys_unique, lemma_filter_keep, lemma_filter_keep_ext,
    lemma_filter_keep_without, lemma_keys_of_remove, lemma_keys_of_unique, lemma_seq_without, lookup, seq_without,
};

verus! {

/// Sockets of a link, each with its strength flag.
pub type Sockets = Seq<(u32, bool)>;

/// The nodes one node blocks, each with the sockets it is waited on.
pub type Blocked = Seq<(Seq<char>, Sockets)>;

/// For each pending node, in order, the nodes it blocks.
pub type Blocking = Seq<(Seq<char>, Blocked)>;

/// 1 for true, 0 for false.
pub open spec fn flag(b: bool) -> nat {
    if b { 1 } else { 0 }
}

/// What `from` blocks; nothing when `from` has no entry.
pub open spec fn blocked_of(bl: Blocking, from: Seq<char>) -> Blocked {
    match lookup(bl, from) {
        Some(b) => b,
        None => Seq::empty(),
    }
}

/// `from` blocks `to`.
pub open spec fn blocks(bl: Blocking, from: Seq<char>, to: Seq<char>) -> bool {
    has_key(blocked_of(bl, from), to)
}

/// The number of entries of `bl` that block `to`.
pub open spec fn blocker_count(bl: Blocking, to: Seq<char>) -> nat
    decreases bl.len(),
{
    if bl.len() == 0 {
        0
    } else {
        blocker_count(bl.drop_last(), to) + flag(has_key(bl.last().1, to))
    }
}

/// Entries that block `to` at the same places count the same.
pub proof fn lemma_blocker_count_same(b1: Blocking, b2: Blocking, to: Seq<char>)
    requires
        b1.len() == b2.len(),
        forall|i: int| 0 <= i < b1.len() ==> has_key(#[trigger] b1[i].1, to) == has_key(b2[i].1, to),
    ensures
        blocker_count(b1, to) == blocker_count(b2, to),
    decreases b1.len(),
{
    if b1.len() > 0 {
        let d1 = b1.drop_last();
        let d2 = b2.drop_last();
        assert forall|i: int| 0 <= i < d1.len() implies has_key(#[trigger] d1[i].1, to) == has_key(d2[i].1, to) by {
            assert(d1[i] == b1[i]);
            assert(d2[i] == b2[i]);
        }
        lemma_blocker_count_same(d1, d2, to);
        assert(b1.last() == b1[b1.len() - 1]);
        assert(b2.last() == b2[b2.len() - 1]);
    }
}

/// Entries past the first `n` that do not block `to` add nothing.
pub proof fn lemma_blocker_count_take(bl: Blocking, n: int, to: Seq<char>)
    requires
        0 <= n <= bl.len(),
        forall|i: int| n <= i < bl.len() ==> !has_key(#[trigger] bl[i].1, to),
    ensures
        blocker_count(bl, to) == blocker_count(bl.take(n), to),
    decreases bl.len(),
{
    if bl.len() == n {
        assert(bl.take(n) =~= bl);
    } else {
        let d = bl.drop_last();
        assert forall|i: int| n <= i < d.len() implies !has_key(#[trigger] d[i].1, to) by {
            assert(d[i] == bl[i]);
        }
        lemma_blocker_count_take(d, n, to);
        assert(d.take(n) =~= bl.take(n));
        assert(!has_key(bl[bl.len() - 1].1, to));
    }
}

/// When the entries of `b2` extend those of `b1` and block `to` exactly
/// where `b1` did or where the key is `x`, one more entry blocks `to`
/// unless `x` already did.
pub proof fn lemma_blocker_count_add(b1: Blocking, b2: Blocking, to: Seq<char>, x: Seq<char>)
    requires
        b1.len() <= b2.len(),
        keys_unique(b2),
        forall|i: int| 0 <= i < b1.len() ==> #[trigger] b2[i].0 == b1[i].0,
        forall|i: int| 0 <= i < b2.len() ==> has_key(#[trigger] b2[i].1, to) == (blocks(b1, b2[i].0, to) || b2[i].0 == x),
        has_key(b2, x),
    ensures
        blocker_count(b2, to) == blocker_count(b1, to) + flag(!blocks(b1, x, to)),
{
    let n = b1.len() as int;
    assert(keys_unique(b1)) by {
        assert forall|i: int, j: int| 0 <= i < b1.len() && 0 <= j < b1.len() && i != j implies #[trigger] b1[i].0 != #[trigger] b1[j].0 by {
            assert(b2[i].0 == b1[i].0);
            assert(b2[j].0 == b1[j].0);
        }
    }
    let q = choose|i: int| 0 <= i < b2.len() && #[trigger] b2[i].0 == x;
    let e_old: (Seq<char>, Blocked) = if q < n { b1[q] } else { (x, Seq::empty()) };
    let b3 = b2.update(q, e_old);
    assert(has_key(b2[q].1, to));
    lemma_blocker_count_update(b2, q, e_old, to);
    // the replaced entry blocks `to` exactly when `x` did in `b1`
    if q < n {
        assert(b1[q].0 == x);
        lemma_blocks_at(b1, q, to);
    } else {
        assert(!has_key(b1, x)) by {
            if has_key(b1, x) {
                let j = choose|j: int| 0 <= j < b1.len() && #[trigger] b1[j].0 == x;
                assert(b2[j].0 == b1[j].0);
            }
        }
        assert(!has_key(e_old.1, to));
    }
    assert(flag(has_key(e_old.1, to)) == flag(blocks(b1, x, to)));
    // past `n`, the entries of `b3` block nothing
    assert forall|i: int| n <= i < b3.len() implies !has_key(#[trigger] b3[i].1, to) by {
        if i != q {
            assert(b3[i] == b2[i]);
            assert(!has_key(b1, b2[i].0)) by {
                if has_key(b1, b2[i].0) {
                    let j = choose|j: int| 0 <= j < b1.len() && #[trigger] b1[j].0 == b2[i].0;
                    assert(b2[j].0 == b1[j].0);
                }
            }
        }
    }
    lemma_blocker_count_take(b3, n, to);
    let t = b3.take(n);
    assert forall|i: int| 0 <= i < b1.len() implies has_key(#[trigger] b1[i].1, to) == has_key(t[i].1, to) by {
        lemma_blocks_at(b1, i, to);
        if i != q {
            assert(t[i] == b2[i]);
        } else {
            assert(t[i] == b1[i]);
        }
    }
    lemma_blocker_count_same(b1, t, to);
}

/// One more entry counts once more when it blocks `to`.
pub proof fn lemma_blocker_count_push(bl: Blocking, e: (Seq<char>, Blocked), to: Seq<char>)
    ensures
        blocker_count(bl.push(e), to) == blocker_count(bl, to) + flag(has_key(e.1, to)),
{
    assert(bl.push(e).drop_last() =~= bl);
}

/// Removing an entry counts once less when it blocks `to`.
pub proof fn lemma_blocker_count_remove(bl: Blocking, i: int, to: Seq<char>)
    requires
        0 <= i < bl.len(),
    ensures
        blocker_count(bl, to) == blocker_count(bl.remove(i), to) + flag(has_key(bl[i].1, to)),
    decreases bl.len(),
{
    if i == bl.len() - 1 {
        assert(bl.remove(i) =~= bl.drop_last());
    } else {
        lemma_blocker_count_remove(bl.drop_last(), i, to);
        assert(bl.remove(i).drop_last() =~= bl.drop_last().remove(i));
        assert(bl.remove(i).last() == bl.last());
    }
}

/// Replacing an entry changes the count by what the two entries block.
pub proof fn lemma_blocker_count_update(bl: Blocking, i: int, e: (Seq<char>, Blocked), to: Seq<char>)
    requires
        0 <= i < bl.len(),
    ensures
        blocker_count(bl.update(i, e), to) + flag(has_key(bl[i].1, to)) == blocker_count(bl, to) + flag(has_key(e.1, to)),
{
    lemma_blocker_count_remove(bl, i, to);
    lemma_blocker_count_remove(bl.update(i, e), i, to);
    assert(bl.update(i, e).remove(i) =~= bl.remove(i));
}

/// No more entries block `to` than there are entries.
pub proof fn lemma_blocker_count_le(bl: Blocking, to: Seq<char>)
    ensures
        blocker_count(bl, to) <= bl.len(),
    decreases bl.len(),
{
    if bl.len() > 0 {
        lemma_blocker_count_le(bl.drop_last(), to);
    }
}

/// The count is zero when no entry blocks `to`.
pub proof fn lemma_blocker_count_zero(bl: Blocking, to: Seq<char>)
    requires
        forall|i: int| 0 <= i < bl.len() ==> !has_key(#[trigger] bl[i].1, to),
    ensures
        blocker_count(bl, to) == 0,
    decreases bl.len(),
{
    if bl.len() > 0 {
        assert forall|i: int| 0 <= i < bl.drop_last().len() implies !has_key(#[trigger] bl.drop_last()[i].1, to) by {
            assert(bl.drop_last()[i] == bl[i]);
        }
        lemma_blocker_count_zero(bl.drop_last(), to);
        assert(!has_key(bl[bl.len() - 1].1, to));
    }
}

/// The entry of a key gives what `blocks` reads.
pub proof fn lemma_blocks_at(bl: Blocking, i: int, to: Seq<char>)
    requires
        0 <= i < bl.len(),
        forall|a: int, b: int| 0 <= a < bl.len() && 0 <= b < bl.len() && a != b ==> #[trigger] bl[a].0 != #[trigger] bl[b].0,
    ensures
        blocks(bl, bl[i].0, to) == has_key(bl[i].1, to),
        blocked_of(bl, bl[i].0) == bl[i].1,
{
    let k = bl[i].0;
    assert(has_key(bl, k));
    let p = key_pos(bl, k);
    assert(bl[p].0 == k);
}

} // verus!

verus! {

/// Some socket of the link is flagged strong.
pub open spec fn any_strong(sk: Sockets) -> bool {
    exists|i: int| 0 <= i < sk.len() && #[trigger] sk[i].1
}

/// Every link recorded in `bl` has a socket flagged strong.
pub open spec fn all_strong(bl: Blocking) -> bool {
    forall|i: int, j: int| 0 <= i < bl.len() && 0 <= j < bl[i].1.len() ==> any_strong(#[trigger] bl[i].1[j].1)
}

/// `from` blocks `to` on a socket flagged strong.
pub open spec fn strongly_blocks(bl: Blocking, from: Seq<char>, to: Seq<char>) -> bool {
    match lookup(blocked_of(bl, from), to) {
        Some(sk) => any_strong(sk),
        None => false,
    }
}

/// `n` dissolves within `k` rounds: in each round every node that no
/// remaining pending node (of `p`) strongly blocks is removed.
pub open spec fn dissolves(p: Seq<Seq<char>>, bl: Blocking, n: Seq<char>, k: nat) -> bool
    decreases k,
{
    k > 0 && forall|b: Seq<char>|
        p.contains(b) && #[trigger] strongly_blocks(bl, b, n) ==> dissolves(p, bl, b, (k - 1) as nat)
}

/// `n` never dissolves: a chain of strong blockers from it reaches a cycle.
pub open spec fn in_cycle(p: Seq<Seq<char>>, bl: Blocking, n: Seq<char>) -> bool {
    !exists|k: nat| #[trigger] dissolves(p, bl, n, k)
}

/// A node that dissolves within `k` rounds dissolves within `k + 1`.
pub proof fn lemma_dissolves_mono(p: Seq<Seq<char>>, bl: Blocking, k: nat)
    ensures
        forall|n: Seq<char>| #[trigger] dissolves(p, bl, n, k) ==> dissolves(p, bl, n, k + 1),
    decreases k,
{
    if k > 0 {
        lemma_dissolves_mono(p, bl, (k - 1) as nat);
        assert forall|n: Seq<char>| #[trigger] dissolves(p, bl, n, k) implies dissolves(p, bl, n, k + 1) by {
            assert forall|b: Seq<char>| p.contains(b) && #[trigger] strongly_blocks(bl, b, n)
                implies dissolves(p, bl, b, k) by {
                assert(dissolves(p, bl, b, (k - 1) as nat));
            }
        }
    }
}

/// Dissolving is monotone in the number of rounds.
pub proof fn lemma_dissolves_le(p: Seq<Seq<char>>, bl: Blocking, n: Seq<char>, k: nat, m: nat)
    requires
        dissolves(p, bl, n, k),
        k <= m,
    ensures
        dissolves(p, bl, n, m),
    decreases m - k,
{
    if k < m {
        lemma_dissolves_mono(p, bl, k);
        lemma_dissolves_le(p, bl, n, k + 1, m);
    }
}

/// When one more round dissolves no further pending node, no number of
/// rounds does.
pub proof fn lemma_dissolves_fixpoint(p: Seq<Seq<char>>, bl: Blocking, r: nat, k: nat)
    requires
        forall|n: Seq<char>| p.contains(n) && #[trigger] dissolves(p, bl, n, r + 1) ==> dissolves(p, bl, n, r),
    ensures
        forall|n: Seq<char>| p.contains(n) && #[trigger] dissolves(p, bl, n, k) ==> dissolves(p, bl, n, r),
    decreases k,
{
    if k > r {
        lemma_dissolves_fixpoint(p, bl, r, (k - 1) as nat);
        assert forall|n: Seq<char>| p.contains(n) && #[trigger] dissolves(p, bl, n, k) implies dissolves(p, bl, n, r) by {
            assert forall|b: Seq<char>| p.contains(b) && #[trigger] strongly_blocks(bl, b, n)
                implies dissolves(p, bl, b, r) by {
                assert(dissolves(p, bl, b, (k - 1) as nat));
            }
            assert(dissolves(p, bl, n, r + 1));
        }
    } else {
        assert forall|n: Seq<char>| p.contains(n) && #[trigger] dissolves(p, bl, n, k) implies dissolves(p, bl, n, r) by {
            lemma_dissolves_le(p, bl, n, k, r);
        }
    }
}

} // verus!

verus! {

/// The pending nodes that never dissolve, in pending order.
pub open spec fn cycle_nodes(p: Seq<Seq<char>>, bl: Blocking) -> Seq<Seq<char>> {
    filter_keep(p, |n: Seq<char>| in_cycle(p, bl, n))
}

/// A state of the round-by-round removal: the entries are the pending
/// nodes not dissolved within `r` rounds and not yet in `gone`, each with
/// the set of such nodes that strongly block it.
pub open spec fn removal_state(
    p: Seq<Seq<char>>,
    bl: Blocking,
    e: Seq<(Seq<char>, Seq<Seq<char>>)>,
    r: nat,
    gone: Seq<Seq<char>>,
) -> bool {
    &&& keys_of(e) == filter_keep(p, |n: Seq<char>| !dissolves(p, bl, n, r) && !gone.contains(n))
    &&& forall|t: int| 0 <= t < e.len() ==> (#[trigger] e[t]).1.no_duplicates()
    &&& forall|t: int, x: Seq<char>| 0 <= t < e.len() ==> (#[trigger] e[t].1.contains(x)) == (p.contains(x)
        && strongly_blocks(bl, x, e[t].0) && !dissolves(p, bl, x, r) && !gone.contains(x))
}

/// Keeping every element keeps the sequence.
pub proof fn lemma_filter_keep_all<A>(s: Seq<A>, keep: spec_fn(A) -> bool)
    requires
        forall|x: A| #[trigger] s.contains(x) ==> keep(x),
    ensures
        filter_keep(s, keep) == s,
    decreases s.len(),
{
    if s.len() > 0 {
        let s0 = s.drop_last();
        assert forall|x: A| #[trigger] s0.contains(x) implies keep(x) by {
            let i = choose|i: int| 0 <= i < s0.len() && s0[i] == x;
            assert(s[i] == x);
            assert(s.contains(x));
        }
        lemma_filter_keep_all(s0, keep);
        assert(s.contains(s.last())) by {
            assert(s[s.len() - 1] == s.last());
        }
        assert(s0.push(s.last()) =~= s);
    }
}

/// The keys of a removal state are distinct.
pub proof fn lemma_removal_keys_unique(
    p: Seq<Seq<char>>,
    bl: Blocking,
    e: Seq<(Seq<char>, Seq<Seq<char>>)>,
    r: nat,
    gone: Seq<Seq<char>>,
)
    requires
        p.no_duplicates(),
        removal_state(p, bl, e, r, gone),
    ensures
        keys_unique(e),
{
    lemma_filter_keep(p, |n: Seq<char>| !dissolves(p, bl, n, r) && !gone.contains(n));
    lemma_keys_of_unique(e);
}

/// The blocker sets of the pending nodes are a removal state before any round.
pub proof fn lemma_removal_start(p: Seq<Seq<char>>, bl: Blocking, e: Seq<(Seq<char>, Seq<Seq<char>>)>)
    requires
        keys_of(e) == p,
        forall|t: int| 0 <= t < e.len() ==> (#[trigger] e[t]).1.no_duplicates(),
        forall|t: int, x: Seq<char>| 0 <= t < e.len() ==> (#[trigger] e[t].1.contains(x)) == (p.contains(x)
            && strongly_blocks(bl, x, e[t].0)),
    ensures
        removal_state(p, bl, e, 0, Seq::empty()),
{
    let f = |n: Seq<char>| !dissolves(p, bl, n, 0) && !Seq::<Seq<char>>::empty().contains(n);
    lemma_filter_keep_all(p, f);
}

/// An entry has an empty set exactly when its node dissolves in the next
/// round but not before.
pub proof fn lemma_removal_ready(
    p: Seq<Seq<char>>,
    bl: Blocking,
    e: Seq<(Seq<char>, Seq<Seq<char>>)>,
    r: nat,
    k: Seq<char>,
)
    requires
        removal_state(p, bl, e, r, Seq::empty()),
    ensures
        (exists|i: int| 0 <= i < e.len() && #[trigger] e[i].0 == k && e[i].1.len() == 0)
            == (p.contains(k) && !dissolves(p, bl, k, r) && dissolves(p, bl, k, r + 1)),
{
    let f = |n: Seq<char>| !dissolves(p, bl, n, r) && !Seq::<Seq<char>>::empty().contains(n);
    lemma_filter_keep(p, f);
    if exists|i: int| 0 <= i < e.len() && #[trigger] e[i].0 == k && e[i].1.len() == 0 {
        let i = choose|i: int| 0 <= i < e.len() && #[trigger] e[i].0 == k && e[i].1.len() == 0;
        assert(keys_of(e)[i] == k);
        assert(keys_of(e).contains(k));
        assert forall|b: Seq<char>| p.contains(b) && #[trigger] strongly_blocks(bl, b, k)
            implies dissolves(p, bl, b, r) by {
            if !dissolves(p, bl, b, r) {
                assert(e[i].1.contains(b));
            }
        }
    }
    if p.contains(k) && !dissolves(p, bl, k, r) && dissolves(p, bl, k, r + 1) {
        assert(keys_of(e).contains(k));
        let i = choose|i: int| 0 <= i < keys_of(e).len() && keys_of(e)[i] == k;
        assert(e[i].0 == k);
        if e[i].1.len() > 0 {
            let b = e[i].1[0];
            assert(e[i].1.contains(b));
            assert(p.contains(b) && strongly_blocks(bl, b, k));
        }
    }
}

/// Removing `x` from every set and then its entry takes one more node out.
pub proof fn lemma_removal_step(
    p: Seq<Seq<char>>,
    bl: Blocking,
    r: nat,
    gone: Seq<Seq<char>>,
    x: Seq<char>,
    e: Seq<(Seq<char>, Seq<Seq<char>>)>,
    e1: Seq<(Seq<char>, Seq<Seq<char>>)>,
)
    requires
        p.no_duplicates(),
        removal_state(p, bl, e, r, gone),
        e1.len() == e.len(),
        forall|i: int| 0 <= i < e.len() ==> {
            &&& (#[trigger] e1[i]).0 == e[i].0
            &&& e1[i].1 == seq_without(e[i].1, x)
        },
    ensures
        removal_state(p, bl, keyed_remove(e1, x), r, gone.push(x)),
        keys_unique(e1),
        keyed_remove(e1, x).len() <= e.len(),
        has_key(e, x) ==> keyed_remove(e1, x).len() < e.len(),
{
    let f = |n: Seq<char>| !dissolves(p, bl, n, r) && !gone.contains(n);
    let g = |n: Seq<char>| !dissolves(p, bl, n, r) && !gone.push(x).contains(n);
    let h = |y: Seq<char>| f(y) && y != x;
    lemma_removal_keys_unique(p, bl, e, r, gone);
    assert(keys_of(e1) =~= keys_of(e));
    lemma_filter_keep(p, f);
    lemma_keys_of_unique(e1);
    lemma_keys_of_remove(e1, x);
    lemma_filter_keep_without(p, f, h, x);
    assert forall|n: Seq<char>| #[trigger] p.contains(n) implies h(n) == g(n) by {
        if gone.push(x).contains(n) && n != x {
            let i = choose|i: int| 0 <= i < gone.push(x).len() && gone.push(x)[i] == n;
            assert(gone[i] == n);
        }
        if gone.contains(n) {
            let i = choose|i: int| 0 <= i < gone.len() && gone[i] == n;
            assert(gone.push(x)[i] == n);
        }
        if n == x {
            assert(gone.push(x)[gone.len() as int] == x);
        }
    }
    lemma_filter_keep_ext(p, h, g);
    let e2 = keyed_remove(e1, x);
    assert(keys_of(e) == filter_keep(p, f));
    assert(keys_of(e2) == seq_without(keys_of(e1), x));
    assert(seq_without(filter_keep(p, f), x) == filter_keep(p, h));
    assert(keys_of(e2) == filter_keep(p, g));
    assert(keys_of(e2).len() == e2.len());
    assert(keys_of(e1).len() == e1.len());
    if has_key(e, x) {
        let i = choose|i: int| 0 <= i < e.len() && #[trigger] e[i].0 == x;
        assert(e1[i].0 == x);
    }
    assert forall|n: Seq<char>| #[trigger] gone.push(x).contains(n) == (gone.contains(n) || n == x) by {
        if gone.push(x).contains(n) && n != x {
            let i = choose|i: int| 0 <= i < gone.push(x).len() && gone.push(x)[i] == n;
            assert(gone[i] == n);
        }
        if gone.contains(n) {
            let i = choose|i: int| 0 <= i < gone.len() && gone[i] == n;
            assert(gone.push(x)[i] == n);
        }
        if n == x {
            assert(gone.push(x)[gone.len() as int] == x);
        }
    }
    assert forall|t: int| 0 <= t < e2.len() implies {
        &&& (#[trigger] e2[t]).1.no_duplicates()
        &&& forall|y: Seq<char>| #[trigger] e2[t].1.contains(y) == (p.contains(y)
            && strongly_blocks(bl, y, e2[t].0) && !dissolves(p, bl, y, r) && !gone.push(x).contains(y))
    } by {
        let t2 = if has_key(e1, x) && t >= key_pos(e1, x) { t + 1 } else { t };
        assert(e2[t] == e1[t2]);
        lemma_seq_without(e[t2].1, x);
        assert forall|y: Seq<char>| #[trigger] e2[t].1.contains(y) == (p.contains(y)
            && strongly_blocks(bl, y, e2[t].0) && !dissolves(p, bl, y, r) && !gone.push(x).contains(y)) by {
            assert(e[t2].1.contains(y) == (p.contains(y)
                && strongly_blocks(bl, y, e[t2].0) && !dissolves(p, bl, y, r) && !gone.contains(y)));
        }
    }
}

/// After a whole round, the state is that of the next round with nothing gone.
pub proof fn lemma_removal_round(
    p: Seq<Seq<char>>,
    bl: Blocking,
    e: Seq<(Seq<char>, Seq<Seq<char>>)>,
    r: nat,
    gone: Seq<Seq<char>>,
)
    requires
        removal_state(p, bl, e, r, gone),
        forall|k: Seq<char>| #[trigger] gone.contains(k) == (p.contains(k) && !dissolves(p, bl, k, r)
            && dissolves(p, bl, k, r + 1)),
    ensures
        removal_state(p, bl, e, r + 1, Seq::empty()),
{
    let f = |n: Seq<char>| !dissolves(p, bl, n, r) && !gone.contains(n);
    let g = |n: Seq<char>| !dissolves(p, bl, n, (r + 1) as nat) && !Seq::<Seq<char>>::empty().contains(n);
    lemma_dissolves_mono(p, bl, r);
    assert forall|n: Seq<char>| #[trigger] p.contains(n) implies f(n) == g(n) by {
        assert(dissolves(p, bl, n, r) ==> dissolves(p, bl, n, r + 1));
    }
    lemma_filter_keep_ext(p, f, g);
    assert forall|t: int, y: Seq<char>| 0 <= t < e.len() implies (#[trigger] e[t].1.contains(y)) == (p.contains(y)
        && strongly_blocks(bl, y, e[t].0) && !dissolves(p, bl, y, r + 1) && !Seq::<Seq<char>>::empty().contains(y)) by {
        assert(dissolves(p, bl, y, r) ==> dissolves(p, bl, y, r + 1));
    }
}

/// When no node dissolves in the next round, the remaining nodes are the
/// nodes on or behind a cycle.
pub proof fn lemma_removal_done(
    p: Seq<Seq<char>>,
    bl: Blocking,
    e: Seq<(Seq<char>, Seq<Seq<char>>)>,
    r: nat,
)
    requires
        removal_state(p, bl, e, r, Seq::empty()),
        forall|k: Seq<char>| !(p.contains(k) && !dissolves(p, bl, k, r) && #[trigger] dissolves(p, bl, k, r + 1)),
    ensures
        keys_of(e) == cycle_nodes(p, bl),
{
    let f = |n: Seq<char>| !dissolves(p, bl, n, r) && !Seq::<Seq<char>>::empty().contains(n);
    let g = |n: Seq<char>| in_cycle(p, bl, n);
    assert forall|n: Seq<char>| p.contains(n) && #[trigger] dissolves(p, bl, n, r + 1) implies dissolves(p, bl, n, r) by {
        assert(!(p.contains(n) && !dissolves(p, bl, n, r) && dissolves(p, bl, n, r + 1)));
    }
    assert forall|n: Seq<char>| #[trigger] p.contains(n) implies f(n) == g(n) by {
        if exists|k: nat| #[trigger] dissolves(p, bl, n, k) {
            let k = choose|k: nat| #[trigger] dissolves(p, bl, n, k);
            lemma_dissolves_fixpoint(p, bl, r, k);
        }
    }
    lemma_filter_keep_ext(p, f, g);
}

} // verus!

verus! {

/// Some pending node strongly blocks `x`.
pub open spec fn has_pending_blocker(p: Seq<Seq<char>>, bl: Blocking, x: Seq<char>) -> bool {
    exists|b: Seq<char>| p.contains(b) && #[trigger] strongly_blocks(bl, b, x)
}

/// When every pending node has a pending strong blocker, no pending node
/// ever dissolves: all of them are on or behind a cycle.
pub proof fn lemma_all_blocked_all_in_cycle(p: Seq<Seq<char>>, bl: Blocking)
    requires
        forall|x: Seq<char>| p.contains(x) ==> #[trigger] has_pending_blocker(p, bl, x),
    ensures
        cycle_nodes(p, bl) == p,
{
    assert forall|x: Seq<char>| #[trigger] p.contains(x) implies in_cycle(p, bl, x) by {
        if exists|k: nat| #[trigger] dissolves(p, bl, x, k) {
            let k = choose|k: nat| #[trigger] dissolves(p, bl, x, k);
            lemma_none_dissolve(p, bl, k);
        }
    }
    lemma_filter_keep_all(p, |n: Seq<char>| in_cycle(p, bl, n));
}

proof fn lemma_none_dissolve(p: Seq<Seq<char>>, bl: Blocking, k: nat)
    requires
        forall|x: Seq<char>| p.contains(x) ==> #[trigger] has_pending_blocker(p, bl, x),
    ensures
        forall|x: Seq<char>| #[trigger] p.contains(x) ==> !dissolves(p, bl, x, k),
{
    lemma_stuck_none_dissolve(p, bl, p, bl, k);
}

/// Nodes of `q` that each have a strong blocker in `q`, where `q` is part
/// of the pending nodes `p` and blocks as in `bl`, never dissolve in `p`.
proof fn lemma_stuck_none_dissolve(p: Seq<Seq<char>>, bl: Blocking, q: Seq<Seq<char>>, blq: Blocking, k: nat)
    requires
        forall|x: Seq<char>| #[trigger] q.contains(x) ==> p.contains(x),
        forall|a: Seq<char>| #[trigger] q.contains(a) ==> blocked_of(blq, a) == blocked_of(bl, a),
        forall|x: Seq<char>| q.contains(x) ==> #[trigger] has_pending_blocker(q, blq, x),
    ensures
        forall|x: Seq<char>| #[trigger] q.contains(x) ==> !dissolves(p, bl, x, k),
    decreases k,
{
    if k > 0 {
        lemma_stuck_none_dissolve(p, bl, q, blq, (k - 1) as nat);
        assert forall|x: Seq<char>| #[trigger] q.contains(x) implies !dissolves(p, bl, x, k) by {
            assert(has_pending_blocker(q, blq, x));
            let b = choose|b: Seq<char>| q.contains(b) && #[trigger] strongly_blocks(blq, b, x);
            assert(blocked_of(blq, b) == blocked_of(bl, b));
            assert(strongly_blocks(bl, b, x));
            assert(p.contains(b));
            assert(!dissolves(p, bl, b, (k - 1) as nat));
        }
    }
}

/// Nodes of `q` that each have a strong blocker in `q`, where `q` is part
/// of the pending nodes `p` and blocks as in `bl`, are on or behind a
/// cycle of `p`.
pub proof fn lemma_stuck_in_cycle(p: Seq<Seq<char>>, bl: Blocking, q: Seq<Seq<char>>, blq: Blocking)
    requires
        forall|x: Seq<char>| #[trigger] q.contains(x) ==> p.contains(x),
        forall|a: Seq<char>| #[trigger] q.contains(a) ==> blocked_of(blq, a) == blocked_of(bl, a),
        forall|x: Seq<char>| q.contains(x) ==> #[trigger] has_pending_blocker(q, blq, x),
    ensures
        forall|x: Seq<char>| #[trigger] q.contains(x) ==> cycle_nodes(p, bl).contains(x),
{
    lemma_filter_keep(p, |n: Seq<char>| in_cycle(p, bl, n));
    assert forall|x: Seq<char>| #[trigger] q.contains(x) implies cycle_nodes(p, bl).contains(x) by {
        if exists|k: nat| #[trigger] dissolves(p, bl, x, k) {
            let k = choose|k: nat| #[trigger] dissolves(p, bl, x, k);
            lemma_stuck_none_dissolve(p, bl, q, blq, k);
        }
        assert(in_cycle(p, bl, x));
    }
}

/// The node at position `i` of an order in which every node comes after
/// the nodes that block it dissolves within `i + 1` rounds.
proof fn lemma_ordered_prefix_dissolves(p: Seq<Seq<char>>, bl: Blocking, order: Seq<Seq<char>>, n: int)
    requires
        forall|x: Seq<char>| #[trigger] order.contains(x) == p.contains(x),
        forall|i: int, j: int| 0 <= i < order.len() && 0 <= j < order.len()
            && blocks(bl, #[trigger] order[i], #[trigger] order[j]) ==> i < j,
        0 <= n <= order.len(),
    ensures
        forall|i: int| 0 <= i < n ==> dissolves(p, bl, #[trigger] order[i], (i + 1) as nat),
    decreases n,
{
    if n > 0 {
        lemma_ordered_prefix_dissolves(p, bl, order, n - 1);
        let i = n - 1;
        let x = order[i];
        assert forall|b: Seq<char>| p.contains(b) && #[trigger] strongly_blocks(bl, b, x)
            implies dissolves(p, bl, b, i as nat) by {
            assert(order.contains(b));
            let j = choose|j: int| 0 <= j < order.len() && order[j] == b;
            assert(blocks(bl, order[j], order[i]));
            assert(j < i);
            assert(dissolves(p, bl, order[j], (j + 1) as nat));
            lemma_dissolves_le(p, bl, b, (j + 1) as nat, i as nat);
        }
        assert(dissolves(p, bl, x, (i + 1) as nat));
    }
}

/// When the nodes can be ordered so that each comes after the nodes that
/// block it, no node is on or behind a cycle.
pub proof fn lemma_ordered_no_cycle(p: Seq<Seq<char>>, bl: Blocking, order: Seq<Seq<char>>)
    requires
        forall|x: Seq<char>| #[trigger] order.contains(x) == p.contains(x),
        forall|i: int, j: int| 0 <= i < order.len() && 0 <= j < order.len()
            && blocks(bl, #[trigger] order[i], #[trigger] order[j]) ==> i < j,
    ensures
        cycle_nodes(p, bl).len() == 0,
{
    lemma_ordered_prefix_dissolves(p, bl, order, order.len() as int);
    lemma_filter_keep(p, |n: Seq<char>| in_cycle(p, bl, n));
    let c = cycle_nodes(p, bl);
    if c.len() > 0 {
        let x = c[0];
        assert(c.contains(x));
        assert(order.contains(x));
        let i = choose|i: int| 0 <= i < order.len() && order[i] == x;
        assert(dissolves(p, bl, order[i], (i + 1) as nat));
    }
}

} // verus!

verus! {

/// `x` dissolves in round `k`, counting from zero: within `k + 1` rounds
/// but not within `k`.
pub open spec fn in_round(p: Seq<Seq<char>>, bl: Blocking, x: Seq<char>, k: nat) -> bool {
    dissolves(p, bl, x, k + 1) && !dissolves(p, bl, x, k)
}

/// The round in which `x` dissolves.
pub open spec fn round_of(p: Seq<Seq<char>>, bl: Blocking, x: Seq<char>) -> nat {
    choose|k: nat| in_round(p, bl, x, k)
}

/// A node dissolves in one round at most.
pub proof fn lemma_round_unique(p: Seq<Seq<char>>, bl: Blocking, x: Seq<char>, k1: nat, k2: nat)
    requires
        in_round(p, bl, x, k1),
        in_round(p, bl, x, k2),
    ensures
        k1 == k2,
{
    if k1 < k2 {
        lemma_dissolves_le(p, bl, x, k1 + 1, k2);
    } else if k2 < k1 {
        lemma_dissolves_le(p, bl, x, k2 + 1, k1);
    }
}

/// The round of a node is the round it dissolves in.
pub proof fn lemma_round_of(p: Seq<Seq<char>>, bl: Blocking, x: Seq<char>, k: nat)
    requires
        in_round(p, bl, x, k),
    ensures
        round_of(p, bl, x) == k,
        in_round(p, bl, x, round_of(p, bl, x)),
{
    lemma_round_unique(p, bl, x, k, round_of(p, bl, x));
}

/// A node that dissolves within `r` rounds dissolves in a round before `r`.
pub proof fn lemma_round_before(p: Seq<Seq<char>>, bl: Blocking, x: Seq<char>, r: nat, k: nat)
    requires
        dissolves(p, bl, x, r),
        in_round(p, bl, x, k),
    ensures
        k < r,
{
    if k >= r {
        lemma_dissolves_le(p, bl, x, r, k);
    }
}

} // verus!

verus! {

/// `x` runs before `y`: it dissolves in an earlier round, or in the same
/// round and comes earlier in `p`.
pub open spec fn runs_before(p: Seq<Seq<char>>, bl: Blocking, x: Seq<char>, y: Seq<char>) -> bool {
    ||| round_of(p, bl, x) < round_of(p, bl, y)
    ||| round_of(p, bl, x) == round_of(p, bl, y) && p.index_of(x) < p.index_of(y)
}

} // verus!
