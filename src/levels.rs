use vstd::prelude::*;

use crate::key::{keys_view, KeyView, ServiceKey};
use crate::ordering::listed;
use crate::provider::levels_order;
use crate::resolvable::{dependency_lists_view, Dependency, DependencyView};

verus! {

/// `lv` ranks the registrations: each one ranks strictly above every
/// registration of every key it depends on.
pub open spec fn ranked(keys: Seq<KeyView>, deps: Seq<Seq<DependencyView>>, lv: Seq<int>) -> bool {
    forall|i: int, t: int, j: int|
        0 <= i < deps.len() && 0 <= t < deps[i].len() && 0 <= j < keys.len() && keys[j]
            == (#[trigger] deps[i][t]).1 ==> #[trigger] lv[j] < lv[i]
}

/// No registration depends on itself, directly or through others: some
/// ranking of the registrations exists.
pub open spec fn acyclic(keys: Seq<KeyView>, deps: Seq<Seq<DependencyView>>) -> bool {
    exists|lv: Seq<int>| lv.len() == keys.len() && ranked(keys, deps, lv)
}

/// Listing the registrations in another order keeps the graph acyclic or
/// cyclic.
pub proof fn lemma_acyclic_reordered(
    keys: Seq<KeyView>,
    deps: Seq<Seq<DependencyView>>,
    skeys: Seq<KeyView>,
    sdeps: Seq<Seq<DependencyView>>,
    origin: Seq<int>,
)
    requires
        deps.len() == keys.len(),
        origin.len() == keys.len(),
        skeys.len() == keys.len(),
        sdeps.len() == keys.len(),
        forall|t: int|
            0 <= t < origin.len() ==> 0 <= #[trigger] origin[t] < keys.len() && skeys[t]
                == keys[origin[t]] && sdeps[t] == deps[origin[t]],
        forall|i: int| 0 <= i < keys.len() ==> #[trigger] listed(origin, i),
    ensures
        acyclic(skeys, sdeps) == acyclic(keys, deps),
{
    if acyclic(keys, deps) {
        let lv = choose|lv: Seq<int>| lv.len() == keys.len() && ranked(keys, deps, lv);
        let slv = Seq::new(keys.len(), |t: int| lv[origin[t]]);
        assert forall|a: int, u: int, b: int|
            0 <= a < sdeps.len() && 0 <= u < sdeps[a].len() && 0 <= b < skeys.len() && skeys[b]
                == (#[trigger] sdeps[a][u]).1 implies #[trigger] slv[b] < slv[a] by {
            assert(deps[origin[a]][u] == sdeps[a][u]);
            assert(keys[origin[b]] == skeys[b]);
            assert(lv[origin[b]] < lv[origin[a]]);
        }
        assert(slv.len() == skeys.len() && ranked(skeys, sdeps, slv));
    }
    if acyclic(skeys, sdeps) {
        let slv = choose|lv: Seq<int>| lv.len() == skeys.len() && ranked(skeys, sdeps, lv);
        let pos = Seq::new(
            keys.len(),
            |i: int| choose|t: int| 0 <= t < origin.len() && origin[t] == i,
        );
        assert forall|i: int| 0 <= i < keys.len() implies 0 <= #[trigger] pos[i] < origin.len()
            && origin[pos[i]] == i by {
            assert(listed(origin, i));
        }
        let lv = Seq::new(keys.len(), |i: int| slv[pos[i]]);
        assert forall|a: int, u: int, b: int|
            0 <= a < deps.len() && 0 <= u < deps[a].len() && 0 <= b < keys.len() && keys[b] == (
            #[trigger] deps[a][u]).1 implies #[trigger] lv[b] < lv[a] by {
            assert(0 <= pos[a] < origin.len() && origin[pos[a]] == a);
            assert(0 <= pos[b] < origin.len() && origin[pos[b]] == b);
            assert(sdeps[pos[a]][u] == deps[a][u]);
            assert(skeys[pos[b]] == keys[b]);
        }
        assert(lv.len() == keys.len() && ranked(keys, deps, lv));
    }
}

/// Registration `u` depends on a key that some registration without a level
/// in `lv` has.
pub open spec fn blocked(
    keys: Seq<KeyView>,
    deps: Seq<Seq<DependencyView>>,
    lv: Seq<usize>,
    u: int,
) -> bool {
    exists|t: int, j: int|
        0 <= t < deps[u].len() && 0 <= j < keys.len() && keys[j] == deps[u][t].1 && lv[j] == 0
}

/// Every registration without a level is blocked by another one.
pub open spec fn stuck(keys: Seq<KeyView>, deps: Seq<Seq<DependencyView>>, lv: Seq<usize>) -> bool {
    forall|u: int| 0 <= u < keys.len() && lv[u] == 0 ==> #[trigger] blocked(keys, deps, lv, u)
}

/// `u` is in `c`.
pub open spec fn member(c: Set<int>, u: int) -> bool {
    c.contains(u)
}

/// Each registration in `c` depends on a key that a registration in `c` has:
/// none of them can be resolved before the others.
pub open spec fn cyclic_set(keys: Seq<KeyView>, deps: Seq<Seq<DependencyView>>, c: Set<int>) -> bool {
    forall|u: int|
        #[trigger] member(c, u) ==> 0 <= u < keys.len() && exists|t: int, j: int|
            0 <= t < deps[u].len() && 0 <= j < keys.len() && keys[j] == deps[u][t].1
                && c.contains(j)
}

/// The registrations left without a level when every one of them is blocked
/// form a cyclic set.
proof fn lemma_stuck_witness(
    keys: Seq<KeyView>,
    deps: Seq<Seq<DependencyView>>,
    lv: Seq<usize>,
    b: int,
)
    requires
        lv.len() == keys.len(),
        0 <= b < keys.len(),
        lv[b] == 0,
        stuck(keys, deps, lv),
    ensures
        exists|c: Set<int>| c.contains(b) && cyclic_set(keys, deps, c),
{
    let n = keys.len();
    let c = Set::new(|u: int| 0 <= u < n && lv[u] == 0);
    assert forall|u: int| #[trigger] member(c, u) implies 0 <= u < keys.len() && exists|
        t: int,
        j: int,
    | 0 <= t < deps[u].len() && 0 <= j < keys.len() && keys[j] == deps[u][t].1 && c.contains(j) by {
        assert(blocked(keys, deps, lv, u));
        let (t, j) = choose|t: int, j: int|
            0 <= t < deps[u].len() && 0 <= j < keys.len() && keys[j] == deps[u][t].1 && lv[j] == 0;
        assert(c.contains(j));
    }
    assert(c.contains(b));
    assert(cyclic_set(keys, deps, c));
}

/// A cyclic set among reordered registrations is one among the originals.
pub proof fn lemma_cyclic_reordered(
    keys: Seq<KeyView>,
    deps: Seq<Seq<DependencyView>>,
    skeys: Seq<KeyView>,
    sdeps: Seq<Seq<DependencyView>>,
    origin: Seq<int>,
    i: int,
)
    requires
        deps.len() == keys.len(),
        origin.len() == keys.len(),
        skeys.len() == keys.len(),
        sdeps.len() == keys.len(),
        forall|t: int|
            0 <= t < origin.len() ==> 0 <= #[trigger] origin[t] < keys.len() && skeys[t]
                == keys[origin[t]] && sdeps[t] == deps[origin[t]],
        0 <= i < keys.len(),
        exists|c: Set<int>| c.contains(i) && cyclic_set(skeys, sdeps, c),
    ensures
        exists|c2: Set<int>| c2.contains(origin[i]) && cyclic_set(keys, deps, c2),
{
    let c = choose|c: Set<int>| c.contains(i) && cyclic_set(skeys, sdeps, c);
    let c2 = c.map(|u: int| origin[u]);
    assert forall|o: int| #[trigger] member(c2, o) implies 0 <= o < keys.len() && exists|
        t: int,
        j: int,
    | 0 <= t < deps[o].len() && 0 <= j < keys.len() && keys[j] == deps[o][t].1 && c2.contains(j) by {
        let u = choose|u: int| c.contains(u) && origin[u] == o;
        assert(member(c, u));
        assert(0 <= u < skeys.len());
        let (t, j) = choose|t: int, j: int|
            0 <= t < sdeps[u].len() && 0 <= j < skeys.len() && skeys[j] == sdeps[u][t].1
                && c.contains(j);
        assert(sdeps[u] == deps[o]);
        assert(keys[origin[j]] == skeys[j]);
        assert(c2.contains(origin[j]));
    }
    assert(c2.contains(origin[i]));
    assert(cyclic_set(keys, deps, c2));
}

/// How many entries have a level already.
pub open spec fn count_set(s: Seq<usize>) -> nat
    decreases s.len(),
{
    if s.len() == 0 {
        0
    } else {
        count_set(s.drop_last()) + if s.last() != 0 {
            1nat
        } else {
            0nat
        }
    }
}

/// Among the entries below `k` that have no level yet, one with the least
/// rank; -1 when there is none.
pub open spec fn argmin_unset(lv: Seq<int>, s: Seq<usize>, k: nat) -> int
    decreases k,
{
    if k == 0 {
        -1
    } else {
        let m = argmin_unset(lv, s, (k - 1) as nat);
        if s[k - 1] != 0 {
            m
        } else if m == -1 || lv[k - 1] < lv[m] {
            k - 1
        } else {
            m
        }
    }
}

proof fn lemma_argmin_unset(lv: Seq<int>, s: Seq<usize>, k: nat)
    requires
        k <= s.len(),
    ensures
        argmin_unset(lv, s, k) == -1 ==> forall|c: int| 0 <= c < k ==> s[c] != 0,
        argmin_unset(lv, s, k) != -1 ==> {
            let m = argmin_unset(lv, s, k);
            &&& 0 <= m < k
            &&& s[m] == 0
            &&& forall|c: int| 0 <= c < k && s[c] == 0 ==> lv[m] <= lv[c]
        },
    decreases k,
{
    if k > 0 {
        lemma_argmin_unset(lv, s, (k - 1) as nat);
    }
}

proof fn lemma_count_set_bound(s: Seq<usize>)
    ensures
        count_set(s) <= s.len(),
        count_set(s) == s.len() ==> forall|c: int| 0 <= c < s.len() ==> s[c] != 0,
    decreases s.len(),
{
    if s.len() > 0 {
        lemma_count_set_bound(s.drop_last());
        assert forall|c: int| 0 <= c < s.len() - 1 implies s[c] == s.drop_last()[c] by {}
    }
}

proof fn lemma_count_set_update(s: Seq<usize>, i: int, v: usize)
    requires
        0 <= i < s.len(),
        s[i] == 0,
        v != 0,
    ensures
        count_set(s.update(i, v)) == count_set(s) + 1,
    decreases s.len(),
{
    let u = s.update(i, v);
    if i == s.len() - 1 {
        assert(u.drop_last() =~= s.drop_last());
    } else {
        lemma_count_set_update(s.drop_last(), i, v);
        assert(u.drop_last() =~= s.drop_last().update(i, v));
    }
}

/// Whether every registration of every key in `deps` already has a level
/// in `1 .. round`.
fn below(keys: &Vec<ServiceKey>, deps: &Vec<Dependency>, levels: &Vec<usize>, round: usize) -> (r:
    bool)
    requires
        levels@.len() == keys@.len(),
    ensures
        r <==> forall|t: int, j: int|
            0 <= t < deps@.len() && 0 <= j < keys@.len() && keys_view(keys@)[j]
                == (#[trigger] deps@[t]).key_view() ==> 0 < #[trigger] levels@[j] < round,
{
    let mut t: usize = 0;
    while t < deps.len()
        invariant
            levels@.len() == keys@.len(),
            t <= deps@.len(),
            forall|u: int, j: int|
                0 <= u < t && 0 <= j < keys@.len() && keys_view(keys@)[j]
                    == (#[trigger] deps@[u]).key_view() ==> 0 < #[trigger] levels@[j] < round,
        decreases deps.len() - t,
    {
        let k = deps[t].key();
        let mut j: usize = 0;
        while j < keys.len()
            invariant
                levels@.len() == keys@.len(),
                t < deps@.len(),
                k@ == deps@[t as int].key_view(),
                j <= keys@.len(),
                forall|u: int, i: int|
                    0 <= u < t && 0 <= i < keys@.len() && keys_view(keys@)[i]
                        == (#[trigger] deps@[u]).key_view() ==> 0 < #[trigger] levels@[i] < round,
                forall|i: int|
                    0 <= i < j && keys_view(keys@)[i] == k@ ==> 0 < #[trigger] levels@[i] < round,
            decreases keys.len() - j,
        {
            if keys[j].same(k) && !(0 < levels[j] && levels[j] < round) {
                assert(keys_view(keys@)[j as int] == deps@[t as int].key_view());
                return false;
            }
            j = j + 1;
        }
        t = t + 1;
    }
    true
}

/// Gives every registration a level above those of its dependencies, or
/// reports a registration for which none exists: in each round every
/// registration whose dependencies all have a level from an earlier round
/// gets the round's number, and as many rounds run as there are registrations.
pub fn compute_levels(keys: &Vec<ServiceKey>, deps: &Vec<Vec<Dependency>>) -> (r: Result<
    Vec<usize>,
    usize,
>)
    requires
        deps@.len() == keys@.len(),
    ensures
        r matches Ok(lv) ==> lv@.len() == keys@.len() && levels_order(
            keys_view(keys@),
            dependency_lists_view(deps@),
            lv@,
        ),
        r is Ok <==> acyclic(keys_view(keys@), dependency_lists_view(deps@)),
        r matches Err(i) ==> i < keys@.len() && exists|c: Set<int>|
            c.contains(i as int) && cyclic_set(
                keys_view(keys@),
                dependency_lists_view(deps@),
                c,
            ),
{
    let n = keys.len();
    let ghost kv = keys_view(keys@);
    let ghost dv = dependency_lists_view(deps@);
    let ghost ideal: Seq<int> = if acyclic(kv, dv) {
        choose|lv: Seq<int>| lv.len() == kv.len() && ranked(kv, dv, lv)
    } else {
        Seq::empty()
    };
    let mut levels: Vec<usize> = Vec::new();
    let mut i: usize = 0;
    while i < n
        invariant
            levels@.len() == i,
            i <= n,
            forall|u: int| 0 <= u < i ==> #[trigger] levels@[u] == 0,
        decreases n - i,
    {
        levels.push(0);
        i = i + 1;
    }
    let mut done: usize = 0;
    while done < n
        invariant
            n == keys@.len(),
            deps@.len() == n,
            kv == keys_view(keys@),
            dv == dependency_lists_view(deps@),
            acyclic(kv, dv) ==> ideal.len() == n && ranked(kv, dv, ideal),
            levels@.len() == n,
            done <= n,
            forall|a: int| 0 <= a < n ==> #[trigger] levels@[a] <= done,
            forall|a: int, t: int, j: int|
                0 <= a < n && 0 <= t < dv[a].len() && 0 <= j < n && levels@[a] != 0 && kv[j]
                    == (#[trigger] dv[a][t]).1 ==> 0 < #[trigger] levels@[j] < levels@[a],
            acyclic(kv, dv) ==> (forall|c: int| 0 <= c < n ==> #[trigger] levels@[c] != 0)
                || count_set(levels@) >= done,
            (forall|c: int| 0 <= c < n ==> #[trigger] levels@[c] != 0) || count_set(levels@)
                >= done || stuck(kv, dv, levels@),
        decreases n - done,
    {
        let round = done + 1;
        let ghost start = levels@;
        let ghost target: int = if acyclic(kv, dv) {
            argmin_unset(ideal, start, n as nat)
        } else {
            -1
        };
        proof {
            lemma_argmin_unset(ideal, start, n as nat);
        }
        let ghost mut changed = false;
        let mut a: usize = 0;
        while a < n
            invariant
                n == keys@.len(),
                deps@.len() == n,
                kv == keys_view(keys@),
                dv == dependency_lists_view(deps@),
                acyclic(kv, dv) ==> ideal.len() == n && ranked(kv, dv, ideal),
                start.len() == n,
                forall|b: int| 0 <= b < n ==> #[trigger] start[b] <= done,
                target != -1 ==> {
                    &&& 0 <= target < n
                    &&& start[target] == 0
                    &&& forall|c: int| 0 <= c < n && start[c] == 0 ==> ideal[target] <= ideal[c]
                    &&& acyclic(kv, dv)
                },
                levels@.len() == n,
                round == done + 1,
                round <= n,
                a <= n,
                forall|b: int| 0 <= b < n ==> #[trigger] levels@[b] <= round,
                forall|b: int| a <= b < n ==> #[trigger] levels@[b] == start[b],
                forall|b: int| 0 <= b < n && start[b] != 0 ==> #[trigger] levels@[b] == start[b],
                count_set(levels@) >= count_set(start),
                target != -1 && a > target ==> count_set(levels@) >= count_set(start) + 1,
                changed ==> count_set(levels@) >= count_set(start) + 1,
                !changed ==> levels@ == start,
                !changed ==> forall|u: int|
                    0 <= u < a && start[u] == 0 ==> #[trigger] blocked(kv, dv, start, u),
                stuck(kv, dv, start) ==> !changed,
                forall|b: int, t: int, j: int|
                    0 <= b < n && 0 <= t < dv[b].len() && 0 <= j < n && levels@[b] != 0 && kv[j]
                        == (#[trigger] dv[b][t]).1 ==> 0 < #[trigger] levels@[j] < levels@[b],
            decreases n - a,
        {
            proof {
                if a as int == target {
                    assert(dv[a as int] == deps@[a as int]@.map_values(|d: Dependency| d@));
                    assert forall|t: int, j: int|
                        0 <= t < deps@[a as int]@.len() && 0 <= j < keys@.len() && keys_view(
                            keys@,
                        )[j] == (#[trigger] deps@[a as int]@[t]).key_view() implies 0
                        < #[trigger] levels@[j] < round by {
                        assert(dv[a as int][t] == deps@[a as int]@[t]@);
                        assert(ideal[j] < ideal[a as int]);
                        if start[j] == 0 {
                            assert(ideal[target] <= ideal[j]);
                        }
                    }
                }
            }
            proof {
                assert(dv[a as int] == deps@[a as int]@.map_values(|d: Dependency| d@));
                if !changed && start[a as int] == 0 && blocked(kv, dv, start, a as int) {
                    let (t, j) = choose|t: int, j: int|
                        0 <= t < dv[a as int].len() && 0 <= j < kv.len() && kv[j] == dv[a as int][t].1
                            && start[j] == 0;
                    assert(dv[a as int][t] == deps@[a as int]@[t]@);
                    assert(!(0 < levels@[j] < round));
                }
            }
            let is_zero = levels[a] == 0;
            let ready = is_zero && below(keys, &deps[a], &levels, round);
            proof {
                if !changed && is_zero && !ready {
                    let (t, j) = choose|t: int, j: int|
                        !(0 <= t < deps@[a as int]@.len() && 0 <= j < keys@.len() && keys_view(
                            keys@,
                        )[j] == deps@[a as int]@[t].key_view() ==> 0 < levels@[j] < round);
                    assert(dv[a as int][t] == deps@[a as int]@[t]@);
                    assert(levels@[j] == start[j]);
                    assert(start[j] == 0);
                    assert(blocked(kv, dv, start, a as int));
                }
            }
            if ready {
                let ghost before = levels@;
                proof {
                    lemma_count_set_update(before, a as int, round);
                    changed = true;
                }
                levels.set(a, round);
                proof {
                    assert forall|b: int, t: int, j: int|
                        0 <= b < n && 0 <= t < dv[b].len() && 0 <= j < n && levels@[b] != 0
                            && kv[j] == (#[trigger] dv[b][t]).1 implies 0 < #[trigger] levels@[j]
                        < levels@[b] by {
                        if b == a {
                            assert(dv[b][t] == deps@[b]@[t]@);
                            assert(0 < before[j] < round);
                        } else {
                            assert(before[b] != 0);
                            assert(0 < before[j] < before[b]);
                        }
                    }
                }
            }
            a = a + 1;
        }
        proof {
            if !changed {
                assert forall|u: int| 0 <= u < kv.len() && levels@[u] == 0 implies #[trigger] blocked(
                    kv,
                    dv,
                    levels@,
                    u,
                ) by {
                    assert(blocked(kv, dv, start, u));
                }
            }
            if (forall|c: int| 0 <= c < n ==> #[trigger] start[c] != 0) {
                assert forall|c: int| 0 <= c < n implies #[trigger] levels@[c] != 0 by {
                    assert(start[c] != 0);
                }
            }
            if acyclic(kv, dv) && !(forall|c: int| 0 <= c < n ==> #[trigger] levels@[c] != 0) {
                if forall|c: int| 0 <= c < n ==> #[trigger] start[c] != 0 {
                    let c = choose|c: int| 0 <= c < n && levels@[c] == 0;
                    assert(start[c] != 0);
                }
                assert(target != -1);
            }
        }
        done = done + 1;
    }
    let mut b: usize = 0;
    while b < n
        invariant
            levels@.len() == n,
            n == keys@.len(),
            b <= n,
            forall|c: int| 0 <= c < b ==> #[trigger] levels@[c] != 0,
            kv == keys_view(keys@),
            dv == dependency_lists_view(deps@),
            acyclic(kv, dv) ==> (forall|c: int| 0 <= c < n ==> #[trigger] levels@[c] != 0)
                || count_set(levels@) >= n,
            (forall|c: int| 0 <= c < n ==> #[trigger] levels@[c] != 0) || count_set(levels@) >= n
                || stuck(kv, dv, levels@),
        decreases n - b,
    {
        if levels[b] == 0 {
            proof {
                lemma_count_set_bound(levels@);
                assert(stuck(kv, dv, levels@));
                lemma_stuck_witness(kv, dv, levels@, b as int);
            }
            return Err(b);
        }
        b = b + 1;
    }
    assert forall|a: int, t: int, j: int|
        0 <= a < dv.len() && 0 <= t < dv[a].len() && 0 <= j < kv.len() && kv[j]
            == (#[trigger] dv[a][t]).1 implies #[trigger] levels@[j] < levels@[a] by {
        assert(levels@[a] != 0);
    }
    let ghost lv = levels@.map_values(|x: usize| x as int);
    assert forall|a: int, t: int, j: int|
        0 <= a < dv.len() && 0 <= t < dv[a].len() && 0 <= j < kv.len() && kv[j]
            == (#[trigger] dv[a][t]).1 implies #[trigger] lv[j] < lv[a] by {
        assert(levels@[j] < levels@[a]);
    }
    assert(lv.len() == kv.len() && ranked(kv, dv, lv));
    Ok(levels)
}

} // verus!
