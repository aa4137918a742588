use vstd::prelude::*;

use crate::collection::all_present;
use crate::factory::Resolved;
use crate::key::KeyView;
use crate::lookup::{
    has_key, last_match, lemma_has_key_positions, lemma_positions_from_props, positions,
};
use crate::ordering::{listed, stably_sorted};
use crate::provider::ServiceProvider;

verus! {

/// A registration just made under `k` is the last registration of `k`,
/// however many came before it.
pub proof fn lemma_last_registration_wins(keys: Seq<KeyView>, k: KeyView)
    ensures
        last_match(keys.push(k), k) == Some(keys.len()),
{
    let s = keys.push(k);
    lemma_positions_from_props(s, k, 0);
    let m = positions(s, k);
    assert(s[keys.len() as int] == k);
    assert(m.contains(keys.len()));
    let w = choose|w: int| 0 <= w < m.len() && m[w] == keys.len();
    if w < m.len() - 1 {
        assert(m[w] < m[m.len() - 1]);
    }
}

/// The positions listed for a key are exactly those holding it, each once,
/// in increasing order; so counting them counts the registrations.
pub proof fn lemma_positions_are_registrations(keys: Seq<KeyView>, k: KeyView)
    ensures
        forall|p: nat| positions(keys, k).contains(p) <==> p < keys.len() && keys[p as int] == k,
        forall|a: int, b: int|
            0 <= a < b < positions(keys, k).len() ==> positions(keys, k)[a] < positions(
                keys,
                k,
            )[b],
{
    lemma_positions_from_props(keys, k, 0);
}

/// Resolving a key that nothing was registered under gives nothing.
pub proof fn lemma_unregistered_is_absent(keys: Seq<KeyView>, k: KeyView)
    requires
        !has_key(keys, k),
    ensures
        last_match(keys, k) is None,
{
    lemma_has_key_positions(keys, k);
}

/// A dependency that has a registration keeps one when more registrations
/// are added, whatever they are.
pub proof fn lemma_more_registrations_keep_dependencies(
    keys: Seq<KeyView>,
    checks: Seq<KeyView>,
    extra: KeyView,
)
    requires
        all_present(keys, checks),
    ensures
        all_present(keys.push(extra), checks),
{
    assert forall|t: int| 0 <= t < checks.len() implies has_key(
        keys.push(extra),
        #[trigger] checks[t],
    ) by {
        let i = choose|i: int| 0 <= i < keys.len() && keys[i] == checks[t];
        assert(keys.push(extra)[i] == checks[t]);
    }
}

/// What `get` returns for a required dependency's key fits that dependency
/// as a value the dependent factory may receive for it.
pub proof fn lemma_dependency_matches_get<V>(
    p: &ServiceProvider<V>,
    i: int,
    t: int,
    r: Resolved<V>,
)
    requires
        0 <= i < p.dependency_views().len(),
        0 <= t < p.dependency_views()[i].len(),
        p.dependency_views()[i][t].0,
        last_match(p.key_views(), p.dependency_views()[i][t].1) is Some,
        p.produced_at(last_match(p.key_views(), p.dependency_views()[i][t].1)->0 as int, r),
    ensures
        p.dependency_value(p.dependency_views()[i][t], r),
{
}

/// Two increasing sequences with the same members are equal.
proof fn lemma_increasing_same_members(a: Seq<int>, b: Seq<int>)
    requires
        forall|i: int, j: int| 0 <= i < j < a.len() ==> a[i] < a[j],
        forall|i: int, j: int| 0 <= i < j < b.len() ==> b[i] < b[j],
        forall|x: int| a.contains(x) <==> b.contains(x),
    ensures
        a == b,
    decreases a.len(),
{
    if a.len() == 0 {
        if b.len() > 0 {
            assert(b.contains(b[0]));
        }
        assert(a =~= b);
    } else {
        assert(a.contains(a[0]));
        assert(b.len() > 0);
        assert(b.contains(b[0]));
        let w = choose|w: int| 0 <= w < b.len() && b[w] == a[0];
        let v = choose|v: int| 0 <= v < a.len() && a[v] == b[0];
        if w > 0 {
            assert(b[0] < b[w]);
        }
        if v > 0 {
            assert(a[0] < a[v]);
        }
        let ra = a.drop_first();
        let rb = b.drop_first();
        assert forall|x: int| ra.contains(x) <==> rb.contains(x) by {
            if ra.contains(x) {
                let u = choose|u: int| 0 <= u < ra.len() && ra[u] == x;
                assert(a[u + 1] == x && a[0] < a[u + 1]);
                assert(b.contains(x));
                let u2 = choose|u2: int| 0 <= u2 < b.len() && b[u2] == x;
                assert(u2 != 0);
                assert(rb[u2 - 1] == x);
            }
            if rb.contains(x) {
                let u = choose|u: int| 0 <= u < rb.len() && rb[u] == x;
                assert(b[u + 1] == x && b[0] < b[u + 1]);
                assert(a.contains(x));
                let u2 = choose|u2: int| 0 <= u2 < a.len() && a[u2] == x;
                assert(u2 != 0);
                assert(ra[u2 - 1] == x);
            }
        }
        lemma_increasing_same_members(ra, rb);
        assert(a[0] == b[0]);
        assert(a.len() == b.len());
        assert forall|i: int| 0 <= i < a.len() implies a[i] == b[i] by {
            if i > 0 {
                assert(a[i] == ra[i - 1]);
                assert(b[i] == rb[i - 1]);
            }
        }
        assert(a =~= b);
    }
}

/// The registrations of a key, met in the provider's sorted order and
/// mapped back to the positions they were registered at, come in
/// registration order and are all the registrations of that key.
pub proof fn lemma_sorted_keeps_registration_order(
    keys: Seq<KeyView>,
    skeys: Seq<KeyView>,
    origin: Seq<int>,
    k: KeyView,
)
    requires
        stably_sorted(keys, skeys, origin),
    ensures
        positions(skeys, k).map_values(|t: nat| origin[t as int]) == positions(keys, k).map_values(
            |i: nat| i as int,
        ),
{
    let p = positions(skeys, k);
    let q = positions(keys, k);
    lemma_positions_from_props(skeys, k, 0);
    lemma_positions_from_props(keys, k, 0);
    let a = p.map_values(|t: nat| origin[t as int]);
    let b = q.map_values(|i: nat| i as int);
    assert forall|i: int, j: int| 0 <= i < j < a.len() implies a[i] < a[j] by {
        assert(p[i] < p[j]);
        assert(skeys[p[i] as int] == k && skeys[p[j] as int] == k);
    }
    assert forall|i: int, j: int| 0 <= i < j < b.len() implies b[i] < b[j] by {
        assert(q[i] < q[j]);
    }
    assert forall|x: int| a.contains(x) <==> b.contains(x) by {
        if a.contains(x) {
            let u = choose|u: int| 0 <= u < a.len() && a[u] == x;
            let t = p[u] as int;
            assert(skeys[t] == k);
            assert(0 <= origin[t] < keys.len() && skeys[t] == keys[origin[t]]);
            assert(q.contains(x as nat));
            let w = choose|w: int| 0 <= w < q.len() && q[w] == x as nat;
            assert(b[w] == x);
        }
        if b.contains(x) {
            let u = choose|u: int| 0 <= u < b.len() && b[u] == x;
            assert(keys[x] == k);
            assert(listed(origin, x));
            let t = choose|t: int| 0 <= t < origin.len() && origin[t] == x;
            assert(skeys[t] == keys[x]);
            assert(p.contains(t as nat));
            let w = choose|w: int| 0 <= w < p.len() && p[w] == t as nat;
            assert(a[w] == x);
        }
    }
    lemma_increasing_same_members(a, b);
}

/// Single-value resolution in the sorted provider picks the registration
/// that was made last under the key.
pub proof fn lemma_sorted_last_is_last_registered(
    keys: Seq<KeyView>,
    skeys: Seq<KeyView>,
    origin: Seq<int>,
    k: KeyView,
)
    requires
        stably_sorted(keys, skeys, origin),
    ensures
        last_match(skeys, k) is Some <==> last_match(keys, k) is Some,
        last_match(skeys, k) is Some ==> origin[last_match(skeys, k)->0 as int] == last_match(
            keys,
            k,
        )->0,
{
    lemma_sorted_keeps_registration_order(keys, skeys, origin, k);
    let p = positions(skeys, k);
    let q = positions(keys, k);
    let a = p.map_values(|t: nat| origin[t as int]);
    let b = q.map_values(|i: nat| i as int);
    assert(a.len() == b.len());
    if p.len() > 0 {
        assert(a[a.len() - 1] == b[b.len() - 1]);
    }
}

/// What an iteration over the positions `r` has left after `k` calls of
/// `next`.
pub open spec fn advanced(r: Seq<nat>, k: nat) -> Seq<nat> {
    if k >= r.len() {
        Seq::empty()
    } else {
        r.subrange(k as int, r.len() as int)
    }
}

/// Iterating step by step: a fresh iteration has everything left; each call
/// of `next` drops the first remaining position, which is the `k`-th one, or
/// leaves an exhausted iteration as it is; after `k` calls, `count` is
/// `N - min(k, N)` and `last` is the final position while any is left.
pub proof fn lemma_iteration_steps(r: Seq<nat>, k: nat)
    ensures
        advanced(r, 0) == r,
        advanced(r, k).len() == 0 ==> advanced(r, k + 1) == advanced(r, k),
        advanced(r, k).len() > 0 ==> advanced(r, k + 1) == advanced(r, k).drop_first()
            && advanced(r, k)[0] == r[k as int],
        advanced(r, k).len() == if k >= r.len() {
            0
        } else {
            r.len() - k
        },
        advanced(r, k).len() > 0 ==> advanced(r, k).last() == r.last(),
{
    assert(r.subrange(0, r.len() as int) =~= r);
    if k < r.len() {
        if k + 1 < r.len() {
            assert(advanced(r, k + 1) =~= advanced(r, k).drop_first());
        } else {
            assert(advanced(r, k).drop_first() =~= Seq::<nat>::empty());
        }
    }
}

} // verus!
