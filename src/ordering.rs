use vstd::prelude::*;

use crate::key::{keys_view, KeyView, Lifetime, ServiceKey};

verus! {

/// Sort key of a registration: the position of the first registration of
/// its service, then its lifetime.
pub type Rank = (usize, usize);

pub open spec fn rank_lt(a: Rank, b: Rank) -> bool {
    a.0 < b.0 || (a.0 == b.0 && a.1 < b.1)
}

pub open spec fn rank_le(a: Rank, b: Rank) -> bool {
    rank_lt(a, b) || a == b
}

/// Ranks that never decrease.
pub open spec fn sorted_ranks(r: Seq<Rank>) -> bool {
    forall|a: int, b: int| 0 <= a < b < r.len() ==> rank_le(#[trigger] r[a], #[trigger] r[b])
}

pub open spec fn lifetime_index(l: Lifetime) -> usize {
    match l {
        Lifetime::Transient => 0,
        Lifetime::Shared => 1,
        Lifetime::Singleton => 2,
    }
}

/// The position of the first registration whose service is `name`, or the
/// number of registrations when there is none.
pub open spec fn first_service(keys: Seq<KeyView>, name: Seq<char>) -> int
    decreases keys.len(),
{
    if keys.len() == 0 {
        0
    } else {
        let f = first_service(keys.drop_last(), name);
        if f < keys.len() - 1 {
            f
        } else if keys.last().0 == name {
            keys.len() - 1
        } else {
            keys.len() as int
        }
    }
}

pub proof fn lemma_first_service(keys: Seq<KeyView>, name: Seq<char>)
    ensures
        0 <= first_service(keys, name) <= keys.len(),
        forall|j: int| 0 <= j < first_service(keys, name) ==> keys[j].0 != name,
        first_service(keys, name) < keys.len() ==> keys[first_service(keys, name)].0 == name,
    decreases keys.len(),
{
    if keys.len() > 0 {
        lemma_first_service(keys.drop_last(), name);
        assert forall|j: int| 0 <= j < keys.len() - 1 implies keys[j] == keys.drop_last()[j] by {}
    }
}

/// The rank of a key among registrations `keys`.
pub open spec fn rank_of(keys: Seq<KeyView>, k: KeyView) -> Rank {
    (first_service(keys, k.0) as usize, lifetime_index(k.1))
}

/// `a` is ordered before `b` by rank, then by registration position.
pub open spec fn entry_lt(ranks: Seq<Rank>, a: int, b: int) -> bool {
    rank_lt(ranks[a], ranks[b]) || (ranks[a] == ranks[b] && a < b)
}

pub fn lifetime_rank(l: Lifetime) -> (r: usize)
    ensures
        r == lifetime_index(l),
{
    match l {
        Lifetime::Transient => 0,
        Lifetime::Shared => 1,
        Lifetime::Singleton => 2,
    }
}

fn rank_less(a: Rank, b: Rank) -> (r: bool)
    ensures
        r == rank_lt(a, b),
{
    a.0 < b.0 || (a.0 == b.0 && a.1 < b.1)
}

/// The rank of every registration, in registration order.
pub fn ranks_of(keys: &Vec<ServiceKey>) -> (r: Vec<Rank>)
    ensures
        r@.len() == keys@.len(),
        forall|i: int|
            0 <= i < keys@.len() ==> #[trigger] r@[i] == rank_of(keys_view(keys@), keys@[i]@),
{
    let ghost kv = keys_view(keys@);
    let mut r: Vec<Rank> = Vec::new();
    let mut i: usize = 0;
    while i < keys.len()
        invariant
            kv == keys_view(keys@),
            i <= keys@.len(),
            r@.len() == i,
            forall|u: int| 0 <= u < i ==> #[trigger] r@[u] == rank_of(kv, keys@[u]@),
        decreases keys.len() - i,
    {
        let mut j: usize = 0;
        while j < i && keys[j].service != keys[i].service
            invariant
                kv == keys_view(keys@),
                i < keys@.len(),
                j <= i,
                forall|u: int| 0 <= u < j ==> kv[u].0 != kv[i as int].0,
            decreases i - j,
        {
            j = j + 1;
        }
        proof {
            lemma_first_service(kv, kv[i as int].0);
            let f = first_service(kv, kv[i as int].0);
            if f < j {
                assert(kv[f].0 == kv[i as int].0);
            }
            if f > j {
                assert(kv[j as int].0 == kv[i as int].0);
            }
        }
        r.push((j, lifetime_rank(keys[i].lifetime)));
        i = i + 1;
    }
    r
}

/// Registration positions ordered by rank and, among equal ranks, by
/// position: a stable sort of the registrations.
pub fn stable_order(ranks: &Vec<Rank>) -> (order: Vec<usize>)
    ensures
        order@.len() == ranks@.len(),
        forall|t: int| 0 <= t < order@.len() ==> #[trigger] order@[t] < ranks@.len(),
        forall|o: usize| o < ranks@.len() ==> #[trigger] order@.contains(o),
        forall|a: int, b: int|
            0 <= a < b < order@.len() ==> entry_lt(
                ranks@,
                #[trigger] order@[a] as int,
                #[trigger] order@[b] as int,
            ),
{
    let n = ranks.len();
    let mut order: Vec<usize> = Vec::new();
    let mut t: usize = 0;
    while t < n
        invariant
            n == ranks@.len(),
            t <= n,
            order@.len() == t,
            forall|u: int| 0 <= u < order@.len() ==> #[trigger] order@[u] < t,
            forall|o: usize| o < t ==> #[trigger] order@.contains(o),
            forall|a: int, b: int|
                0 <= a < b < order@.len() ==> entry_lt(
                    ranks@,
                    #[trigger] order@[a] as int,
                    #[trigger] order@[b] as int,
                ),
        decreases n - t,
    {
        let rt = ranks[t];
        let mut p: usize = 0;
        while p < order.len() && !rank_less(rt, ranks[order[p]])
            invariant
                n == ranks@.len(),
                t < n,
                rt == ranks@[t as int],
                order@.len() == t,
                p <= order@.len(),
                forall|u: int| 0 <= u < order@.len() ==> #[trigger] order@[u] < t,
                forall|u: int| 0 <= u < p ==> !rank_lt(rt, ranks@[#[trigger] order@[u] as int]),
            decreases order.len() - p,
        {
            p = p + 1;
        }
        let ghost before = order@;
        order.insert(p, t);
        proof {
            assert forall|u: int| 0 <= u < order@.len() implies #[trigger] order@[u] < t + 1 by {
                if u < p {
                    assert(order@[u] == before[u]);
                } else if u > p {
                    assert(order@[u] == before[u - 1]);
                }
            }
            assert forall|o: usize| o < t + 1 implies #[trigger] order@.contains(o) by {
                if o == t {
                    assert(order@[p as int] == t);
                } else {
                    assert(before.contains(o));
                    let w = choose|w: int| 0 <= w < before.len() && before[w] == o;
                    if w < p {
                        assert(order@[w] == before[w]);
                    } else {
                        assert(order@[w + 1] == before[w]);
                    }
                }
            }
            assert forall|a: int, b: int| 0 <= a < b < order@.len() implies entry_lt(
                ranks@,
                #[trigger] order@[a] as int,
                #[trigger] order@[b] as int,
            ) by {
                let ea = if a < p { before[a] } else if a == p { t } else { before[a - 1] };
                let eb = if b < p { before[b] } else if b == p { t } else { before[b - 1] };
                assert(order@[a] == ea);
                assert(order@[b] == eb);
                if a == p {
                    if p < before.len() && b > p + 1 {
                        assert(entry_lt(ranks@, before[p as int] as int, before[b - 1] as int));
                    }
                    if p < before.len() {
                        assert(rank_lt(rt, ranks@[before[p as int] as int]));
                    }
                } else if b == p {
                    assert(!rank_lt(rt, ranks@[before[a] as int]));
                }
            }
        }
        t = t + 1;
    }
    order
}

/// The last position at or after `from` whose rank is `q`.
pub fn search_last(ranks: &Vec<Rank>, q: Rank, from: usize) -> (r: Option<usize>)
    requires
        sorted_ranks(ranks@),
    ensures
        r is None ==> forall|j: int| from <= j < ranks@.len() ==> ranks@[j] != q,
        r matches Some(j) ==> {
            &&& from <= j < ranks@.len()
            &&& ranks@[j as int] == q
            &&& forall|i: int| j < i < ranks@.len() ==> ranks@[i] != q
        },
{
    let n = ranks.len();
    if from >= n {
        return None;
    }
    let mut lo: usize = from;
    let mut hi: usize = n;
    while lo < hi
        invariant
            n == ranks@.len(),
            sorted_ranks(ranks@),
            from <= lo <= hi <= n,
            forall|j: int| from <= j < lo ==> rank_le(#[trigger] ranks@[j], q),
            forall|j: int| hi <= j < n ==> rank_lt(q, #[trigger] ranks@[j]),
        decreases hi - lo,
    {
        let mid = lo + (hi - lo) / 2;
        if rank_less(q, ranks[mid]) {
            proof {
                assert forall|j: int| mid <= j < n implies rank_lt(q, #[trigger] ranks@[j]) by {
                    if j > mid {
                        assert(rank_le(ranks@[mid as int], ranks@[j]));
                    }
                }
            }
            hi = mid;
        } else {
            proof {
                assert forall|j: int| from <= j < mid + 1 implies rank_le(#[trigger] ranks@[j], q) by {
                    if j < mid {
                        assert(rank_le(ranks@[j], ranks@[mid as int]));
                    }
                }
            }
            lo = mid + 1;
        }
    }
    if lo > from && ranks[lo - 1].0 == q.0 && ranks[lo - 1].1 == q.1 {
        Some(lo - 1)
    } else {
        proof {
            assert forall|j: int| from <= j < ranks@.len() implies ranks@[j] != q by {
                if j < lo {
                    assert(rank_le(ranks@[j], ranks@[lo - 1]));
                }
            }
        }
        None
    }
}

/// The first position whose rank is `q`.
pub fn search_first(ranks: &Vec<Rank>, q: Rank) -> (r: Option<usize>)
    requires
        sorted_ranks(ranks@),
    ensures
        r is None ==> forall|j: int| 0 <= j < ranks@.len() ==> ranks@[j] != q,
        r matches Some(j) ==> {
            &&& j < ranks@.len()
            &&& ranks@[j as int] == q
            &&& forall|i: int| 0 <= i < j ==> ranks@[i] != q
        },
{
    let n = ranks.len();
    let mut lo: usize = 0;
    let mut hi: usize = n;
    while lo < hi
        invariant
            n == ranks@.len(),
            sorted_ranks(ranks@),
            lo <= hi <= n,
            forall|j: int| 0 <= j < lo ==> rank_lt(#[trigger] ranks@[j], q),
            forall|j: int| hi <= j < n ==> rank_le(q, #[trigger] ranks@[j]),
        decreases hi - lo,
    {
        let mid = lo + (hi - lo) / 2;
        if rank_less(ranks[mid], q) {
            proof {
                assert forall|j: int| 0 <= j < mid + 1 implies rank_lt(#[trigger] ranks@[j], q) by {
                    if j < mid {
                        assert(rank_le(ranks@[j], ranks@[mid as int]));
                    }
                }
            }
            lo = mid + 1;
        } else {
            proof {
                assert forall|j: int| mid <= j < n implies rank_le(q, #[trigger] ranks@[j]) by {
                    if j > mid {
                        assert(rank_le(ranks@[mid as int], ranks@[j]));
                    }
                }
            }
            hi = mid;
        }
    }
    if lo < n && ranks[lo].0 == q.0 && ranks[lo].1 == q.1 {
        Some(lo)
    } else {
        proof {
            assert forall|j: int| 0 <= j < ranks@.len() implies ranks@[j] != q by {
                if j > lo {
                    assert(rank_le(ranks@[lo as int], ranks@[j]));
                }
            }
        }
        None
    }
}

/// Some entry of `origin` is `i`.
pub open spec fn listed(origin: Seq<int>, i: int) -> bool {
    exists|t: int| 0 <= t < origin.len() && origin[t] == i
}

/// `sorted` lists the registrations `orig` in the order `origin` gives:
/// entry `t` is registration `origin[t]`, every registration appears, and
/// equal keys keep their registration order.
pub open spec fn stably_sorted(orig: Seq<KeyView>, sorted: Seq<KeyView>, origin: Seq<int>) -> bool {
    &&& origin.len() == orig.len()
    &&& sorted.len() == orig.len()
    &&& forall|t: int|
        0 <= t < origin.len() ==> 0 <= #[trigger] origin[t] < orig.len() && sorted[t]
            == orig[origin[t]]
    &&& forall|i: int| 0 <= i < orig.len() ==> #[trigger] listed(origin, i)
    &&& forall|a: int, b: int|
        0 <= a < b < sorted.len() && sorted[a] == sorted[b] ==> #[trigger] origin[a] < #[trigger] origin[b]
}

/// Equal ranks mean equal keys.
pub proof fn lemma_rank_of_injective(keys: Seq<KeyView>, a: int, b: int)
    requires
        keys.len() <= usize::MAX,
        0 <= a < keys.len(),
        0 <= b < keys.len(),
        rank_of(keys, keys[a]) == rank_of(keys, keys[b]),
    ensures
        keys[a] == keys[b],
{
    lemma_first_service(keys, keys[a].0);
    lemma_first_service(keys, keys[b].0);
    let fa = first_service(keys, keys[a].0);
    let fb = first_service(keys, keys[b].0);
    if fa > a {
        assert(keys[a].0 != keys[a].0);
    }
    if fb > b {
        assert(keys[b].0 != keys[b].0);
    }
    assert(fa == fb);
}

/// The ranks of stably sorted registrations, with a table of the first
/// registration of each service, satisfy the provider's rank invariant.
pub proof fn lemma_sorted_rank_table(
    keys: Seq<KeyView>,
    ranks: Seq<Rank>,
    order: Seq<usize>,
    skeys: Seq<KeyView>,
    sranks: Seq<Rank>,
    services: Seq<Seq<char>>,
    firsts: Seq<usize>,
)
    requires
        keys.len() <= usize::MAX,
        ranks.len() == keys.len(),
        forall|i: int| 0 <= i < keys.len() ==> #[trigger] ranks[i] == rank_of(keys, keys[i]),
        order.len() == keys.len(),
        forall|t: int| 0 <= t < order.len() ==> #[trigger] order[t] < keys.len(),
        forall|a: int, b: int|
            0 <= a < b < order.len() ==> entry_lt(
                ranks,
                #[trigger] order[a] as int,
                #[trigger] order[b] as int,
            ),
        skeys.len() == keys.len(),
        sranks.len() == keys.len(),
        forall|t: int|
            0 <= t < order.len() ==> #[trigger] skeys[t] == keys[order[t] as int] && sranks[t]
                == ranks[order[t] as int],
        services.len() == firsts.len(),
        forall|m: int|
            0 <= m < firsts.len() ==> {
                let i = #[trigger] firsts[m] as int;
                &&& 0 <= i < keys.len()
                &&& ranks[i].0 == i
                &&& services[m] == keys[i].0
            },
        forall|i: int|
            0 <= i < keys.len() && ranks[i].0 == i ==> exists|m: int|
                0 <= m < firsts.len() && #[trigger] firsts[m] == i,
    ensures
        crate::provider::rank_table(skeys, sranks, services, firsts),
{
    assert forall|a: int, b: int| 0 <= a < b < sranks.len() implies rank_le(
        #[trigger] sranks[a],
        #[trigger] sranks[b],
    ) by {
        assert(entry_lt(ranks, order[a] as int, order[b] as int));
        assert(skeys[a] == keys[order[a] as int]);
        assert(skeys[b] == keys[order[b] as int]);
    }
    assert forall|j: int| 0 <= j < skeys.len() implies (#[trigger] sranks[j]).1 == lifetime_index(
        skeys[j].1,
    ) by {
        assert(skeys[j] == keys[order[j] as int]);
    }
    assert forall|a: int, b: int|
        0 <= a < skeys.len() && 0 <= b < skeys.len() implies (skeys[a] == skeys[b]
        <==> #[trigger] sranks[a] == #[trigger] sranks[b]) by {
        assert(skeys[a] == keys[order[a] as int]);
        assert(skeys[b] == keys[order[b] as int]);
        if sranks[a] == sranks[b] {
            lemma_rank_of_injective(keys, order[a] as int, order[b] as int);
        }
    }
    assert forall|m: int, j: int|
        0 <= m < services.len() && 0 <= j < skeys.len() implies (#[trigger] services[m]
        == #[trigger] skeys[j].0 <==> firsts[m] == sranks[j].0) by {
        let i = firsts[m] as int;
        let o = order[j] as int;
        assert(skeys[j] == keys[o]);
        lemma_first_service(keys, keys[o].0);
        lemma_first_service(keys, keys[i].0);
        if first_service(keys, keys[o].0) > o {
            assert(keys[o].0 != keys[o].0);
        }
        if first_service(keys, keys[i].0) > i {
            assert(keys[i].0 != keys[i].0);
        }
        assert(ranks[i] == rank_of(keys, keys[i]));
        assert(ranks[o] == rank_of(keys, keys[o]));
    }
    assert forall|j: int| 0 <= j < skeys.len() implies crate::provider::named(
        services,
        (#[trigger] skeys[j]).0,
    ) by {
        let o = order[j] as int;
        assert(skeys[j] == keys[o]);
        lemma_first_service(keys, keys[o].0);
        let f = first_service(keys, keys[o].0);
        if f > o {
            assert(keys[o].0 != keys[o].0);
        }
        assert(keys[f].0 == keys[o].0);
        assert(ranks[f] == rank_of(keys, keys[f]));
        assert(ranks[f].0 == f);
        let m = choose|m: int| 0 <= m < firsts.len() && #[trigger] firsts[m] == f;
        assert(services[m] == keys[f].0);
    }
    assert(forall|j: int| 0 <= j < skeys.len() ==> (#[trigger] sranks[j]).1 == lifetime_index(skeys[j].1));
    assert(forall|a: int, b: int|
        0 <= a < skeys.len() && 0 <= b < skeys.len() ==> (skeys[a] == skeys[b] <==> #[trigger] sranks[a]
            == #[trigger] sranks[b]));
    assert(forall|m: int, j: int|
        0 <= m < services.len() && 0 <= j < skeys.len() ==> (#[trigger] services[m]
            == #[trigger] skeys[j].0 <==> firsts[m] == sranks[j].0));

}

} // verus!
