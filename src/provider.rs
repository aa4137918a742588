use vstd::prelude::*;

use std::sync::Arc;

use crate::factory::{cache_get, cache_insert, shared_ref, Cache, Producer, Resolved};
use crate::key::{keys_view, KeyView, Lifetime, ServiceKey};
use crate::lookup::{
    has_key, last_from, last_match, lemma_has_key_positions, lemma_positions_from_props,
    lemma_positions_run, lemma_positions_skip, positions, positions_from,
};
use crate::ordering::{
    lifetime_index, lifetime_rank, rank_le, search_first, search_last, sorted_ranks, Rank,
};
use crate::resolvable::{dependency_lists_view, Dependency, DependencyView};

verus! {

/// Every declared dependency that `build` must find has a registration.
pub open spec fn required_present(keys: Seq<KeyView>, deps: Seq<Seq<DependencyView>>) -> bool {
    forall|i: int, t: int|
        0 <= i < deps.len() && 0 <= t < deps[i].len() && (#[trigger] deps[i][t]).0 ==> has_key(
            keys,
            deps[i][t].1,
        )
}

/// Levels order the registrations: each one lies strictly above every
/// registration of every key it depends on. Such levels exist exactly when the
/// dependency graph has no cycle.
pub open spec fn levels_order(
    keys: Seq<KeyView>,
    deps: Seq<Seq<DependencyView>>,
    levels: Seq<usize>,
) -> bool {
    forall|i: int, t: int, j: int|
        0 <= i < deps.len() && 0 <= t < deps[i].len() && 0 <= j < keys.len() && keys[j]
            == (#[trigger] deps[i][t]).1 ==> #[trigger] levels[j] < levels[i]
}

/// The provider's registrations are sorted by rank; equal keys have equal
/// ranks and only they; `services` holds every service name, each beside the
/// first component of its ranks.
pub open spec fn rank_table(
    keys: Seq<KeyView>,
    ranks: Seq<Rank>,
    services: Seq<Seq<char>>,
    service_ranks: Seq<usize>,
) -> bool {
    &&& ranks.len() == keys.len()
    &&& sorted_ranks(ranks)
    &&& forall|j: int| 0 <= j < keys.len() ==> (#[trigger] ranks[j]).1 == lifetime_index(keys[j].1)
    &&& forall|a: int, b: int|
        0 <= a < keys.len() && 0 <= b < keys.len() ==> (keys[a] == keys[b] <==> #[trigger] ranks[a]
            == #[trigger] ranks[b])
    &&& services.len() == service_ranks.len()
    &&& forall|m: int, j: int|
        0 <= m < services.len() && 0 <= j < keys.len() ==> (#[trigger] services[m]
            == #[trigger] keys[j].0 <==> service_ranks[m] == ranks[j].0)
    &&& forall|j: int| 0 <= j < keys.len() ==> named(services, (#[trigger] keys[j]).0)
}

/// Some entry of `services` is `name`.
pub open spec fn named(services: Seq<Seq<char>>, name: Seq<char>) -> bool {
    exists|m: int| 0 <= m < services.len() && services[m] == name
}

/// The value inside a resolution of registration `i`: the owned value of a
/// transient one, the shared value of the others.
pub open spec fn resolved_value<V>(keys: Seq<KeyView>, i: int, r: Resolved<V>) -> V {
    if keys[i].1 == Lifetime::Transient {
        r->Owned_0
    } else {
        r->Shared_0@
    }
}

/// `r` has the form resolving registration `i` gives.
pub open spec fn resolved_shape<V>(keys: Seq<KeyView>, i: int, r: Resolved<V>) -> bool {
    if keys[i].1 == Lifetime::Transient {
        r is Owned
    } else {
        r is Shared
    }
}

/// `r` has the form resolving registration `i` gives and holds a value that
/// its factory returns on some arguments.
pub open spec fn resolved_in<V>(
    keys: Seq<KeyView>,
    facts: Seq<Producer<V>>,
    i: int,
    r: Resolved<V>,
) -> bool {
    &&& resolved_shape(keys, i, r)
    &&& exists|args: Seq<Resolved<V>>| facts[i].factory.produces(args, resolved_value(keys, i, r))
}

/// `a` fits the dependency `d`: for a required key, a value of the form its
/// last registration gives, made by that registration's factory; for an
/// "every registration" key, one such value per registration, in order.
pub open spec fn dependency_value_in<V>(
    keys: Seq<KeyView>,
    facts: Seq<Producer<V>>,
    d: DependencyView,
    a: Resolved<V>,
) -> bool {
    if d.0 {
        &&& last_match(keys, d.1) is Some
        &&& resolved_in(keys, facts, last_match(keys, d.1)->0 as int, a)
    } else {
        &&& a is Many
        &&& a->Many_0@.len() == positions(keys, d.1).len()
        &&& forall|u: int|
            0 <= u < a->Many_0@.len() ==> resolved_in(
                keys,
                facts,
                positions(keys, d.1)[u] as int,
                #[trigger] a->Many_0@[u],
            )
    }
}

/// `args` fit the dependencies of registration `i`, in declaration order.
pub open spec fn dependency_values_in<V>(
    keys: Seq<KeyView>,
    deps: Seq<Seq<DependencyView>>,
    facts: Seq<Producer<V>>,
    i: int,
    args: Seq<Resolved<V>>,
) -> bool {
    &&& args.len() == deps[i].len()
    &&& forall|t: int|
        0 <= t < args.len() ==> dependency_value_in(keys, facts, deps[i][t], #[trigger] args[t])
}

/// `v` is what the factory of registration `i` returns on arguments that fit
/// its dependencies.
pub open spec fn made_in<V>(
    keys: Seq<KeyView>,
    deps: Seq<Seq<DependencyView>>,
    facts: Seq<Producer<V>>,
    i: int,
    v: V,
) -> bool {
    exists|args: Seq<Resolved<V>>|
        dependency_values_in(keys, deps, facts, i, args) && facts[i].factory.produces(args, v)
}

/// The resolved, immutable container: the registrations sorted by key, and
/// for each a factory, its dependencies, a cache cell and a level that lies
/// above the levels of everything it depends on.
#[verifier::reject_recursive_types(V)]
pub struct ServiceProvider<V> {
    keys: Vec<ServiceKey>,
    deps: Vec<Vec<Dependency>>,
    factories: Vec<Producer<V>>,
    cells: Vec<Cache<V>>,
    levels: Vec<usize>,
    ranks: Vec<Rank>,
    services: Vec<String>,
    service_ranks: Vec<usize>,
    origin: Ghost<Seq<int>>,
}

impl<V> ServiceProvider<V> {
    /// Keys of the registrations, sorted by rank; those of one key stay in
    /// registration order.
    pub closed spec fn key_views(&self) -> Seq<KeyView> {
        keys_view(self.keys@)
    }

    /// Declared dependencies of each registration.
    pub closed spec fn dependency_views(&self) -> Seq<Seq<DependencyView>> {
        dependency_lists_view(self.deps@)
    }

    /// The stored factories, one per registration.
    pub closed spec fn factories(&self) -> Seq<Producer<V>> {
        self.factories@
    }

    pub closed spec fn wf(&self) -> bool {
        let n = self.keys@.len();
        &&& self.deps@.len() == n
        &&& self.factories@.len() == n
        &&& self.cells@.len() == n
        &&& forall|i: int, v: V|
            #![trigger (self.cells@[i].holds())(v)]
            0 <= i < n ==> (self.cells@[i].holds())(v) == self.made(i, v)
        &&& self.levels@.len() == n
        &&& forall|i: int| 0 <= i < n ==> (#[trigger] self.factories@[i]).factory.ready()
        &&& required_present(self.key_views(), self.dependency_views())
        &&& levels_order(self.key_views(), self.dependency_views(), self.levels@)
        &&& rank_table(
            self.key_views(),
            self.ranks@,
            self.services@.map_values(|s: String| s@),
            self.service_ranks@,
        )
    }

    /// For each registration, the position of the registration it was
    /// registered as.
    pub closed spec fn origin(&self) -> Seq<int> {
        self.origin@
    }

    /// `a` fits the dependency `d`.
    pub open spec fn dependency_value(&self, d: DependencyView, a: Resolved<V>) -> bool {
        dependency_value_in(self.key_views(), self.factories(), d, a)
    }

    /// `args` fit the dependencies of registration `i`, in declaration order.
    pub open spec fn dependency_values(&self, i: int, args: Seq<Resolved<V>>) -> bool {
        dependency_values_in(self.key_views(), self.dependency_views(), self.factories(), i, args)
    }

    /// `v` is what the factory of registration `i` returns on arguments that
    /// fit its dependencies.
    pub open spec fn made(&self, i: int, v: V) -> bool {
        made_in(self.key_views(), self.dependency_views(), self.factories(), i, v)
    }

    /// `r` is what resolving registration `i` gives: a transient registration
    /// runs its factory on its resolved dependencies; a shared or singleton
    /// one hands out a handle to a value its factory made the same way.
    pub open spec fn produced_at(&self, i: int, r: Resolved<V>) -> bool {
        resolved_shape(self.key_views(), i, r) && self.made(
            i,
            resolved_value(self.key_views(), i, r),
        )
    }

    pub(crate) fn assemble(
        keys: Vec<ServiceKey>,
        deps: Vec<Vec<Dependency>>,
        factories: Vec<Producer<V>>,
        cells: Vec<Cache<V>>,
        levels: Vec<usize>,
        ranks: Vec<Rank>,
        services: Vec<String>,
        service_ranks: Vec<usize>,
        origin: Ghost<Seq<int>>,
    ) -> (r: ServiceProvider<V>)
        requires
            deps@.len() == keys@.len(),
            factories@.len() == keys@.len(),
            cells@.len() == keys@.len(),
            forall|i: int, v: V|
                #![trigger (cells@[i].holds())(v)]
                0 <= i < keys@.len() ==> (cells@[i].holds())(v) == made_in(
                    keys_view(keys@),
                    dependency_lists_view(deps@),
                    factories@,
                    i,
                    v,
                ),
            levels@.len() == keys@.len(),
            forall|i: int| 0 <= i < keys@.len() ==> (#[trigger] factories@[i]).factory.ready(),
            required_present(keys_view(keys@), dependency_lists_view(deps@)),
            levels_order(keys_view(keys@), dependency_lists_view(deps@), levels@),
            rank_table(
                keys_view(keys@),
                ranks@,
                services@.map_values(|s: String| s@),
                service_ranks@,
            ),
        ensures
            r.wf(),
            r.origin() == origin@,
            r.key_views() == keys_view(keys@),
            r.dependency_views() == dependency_lists_view(deps@),
            r.factories() == factories@,
    {
        ServiceProvider {
            keys,
            deps,
            factories,
            cells,
            levels,
            ranks,
            services,
            service_ranks,
            origin,
        }
    }

    /// Past the end of a run of equal keys, a key never comes back.
    proof fn lemma_rank_run_ends(&self, p: int, e: int)
        requires
            self.wf(),
            0 <= p < e < self.key_views().len(),
            self.key_views()[e] != self.key_views()[p],
            forall|j: int| p <= j < e ==> self.key_views()[j] == self.key_views()[p],
        ensures
            forall|j: int|
                e <= j < self.key_views().len() ==> self.key_views()[j] != self.key_views()[p],
    {
        let kv = self.key_views();
        let r = self.ranks@;
        assert(r[e] != r[p]);
        assert(rank_le(r[p], r[e]));
        assert forall|j: int| e <= j < kv.len() implies kv[j] != kv[p] by {
            if j > e {
                assert(rank_le(r[e], r[j]));
            }
            assert(r[j] != r[p]);
        }
    }

    /// The last position of the run of equal keys that starts at `p`.
    fn run_end(&self, p: usize) -> (hi: usize)
        requires
            self.wf(),
            p < self.key_views().len(),
        ensures
            p <= hi < self.key_views().len(),
            positions_from(self.key_views(), self.key_views()[p as int], p as nat).len() == hi - p
                + 1,
            positions_from(self.key_views(), self.key_views()[p as int], p as nat).last() == hi,
    {
        let ghost kv = self.key_views();
        let q = self.ranks[p];
        let q = (q.0, q.1);
        match search_last(&self.ranks, q, p) {
            Some(hi) => {
                proof {
                    let r = self.ranks@;
                    assert forall|j: int| p <= j <= hi implies kv[j] == kv[p as int] by {
                        if p < j {
                            assert(rank_le(r[p as int], r[j]));
                        }
                        if j < hi {
                            assert(rank_le(r[j], r[hi as int]));
                        }
                        assert(r[j] == r[p as int]);
                    }
                    assert forall|j: int| hi < j < kv.len() implies kv[j] != kv[p as int] by {
                        assert(r[j] != r[p as int]);
                    }
                    lemma_positions_run(kv, kv[p as int], p as nat, hi as nat);
                }
                hi
            },
            None => {
                assert(self.ranks@[p as int] == q);
                p
            },
        }
    }

    /// The rank that the registrations of `key` carry.
    fn rank_query(&self, key: &ServiceKey) -> (r: Option<Rank>)
        requires
            self.wf(),
        ensures
            r is None ==> forall|j: int|
                0 <= j < self.key_views().len() ==> self.key_views()[j] != key@,
            r matches Some(q) ==> forall|j: int|
                0 <= j < self.key_views().len() ==> (self.key_views()[j] == key@ <==> self.ranks@[j]
                    == q),
    {
        let ghost kv = self.key_views();
        let ghost sv = self.services@.map_values(|s: String| s@);
        let mut m: usize = 0;
        while m < self.services.len()
            invariant
                self.wf(),
                kv == self.key_views(),
                sv == self.services@.map_values(|s: String| s@),
                m <= sv.len(),
                forall|u: int| 0 <= u < m ==> sv[u] != key@.0,
            decreases self.services.len() - m,
        {
            if self.services[m] == key.service {
                let q = (self.service_ranks[m], lifetime_rank(key.lifetime));
                proof {
                    assert(sv[m as int] == key@.0);
                    assert forall|j: int| 0 <= j < kv.len() implies (kv[j] == key@
                        <==> self.ranks@[j] == q) by {
                        assert(sv[m as int] == kv[j].0 <==> self.service_ranks@[m as int]
                            == self.ranks@[j].0);
                        assert(self.ranks@[j].1 == lifetime_index(kv[j].1));
                    }
                }
                return Some(q);
            }
            m = m + 1;
        }
        proof {
            assert forall|j: int| 0 <= j < kv.len() implies kv[j] != key@ by {
                assert(named(sv, kv[j].0));
            }
        }
        None
    }

    /// The last position at or after `from` that holds `key`.
    fn last_position(&self, key: &ServiceKey, from: usize) -> (r: Option<usize>)
        requires
            self.wf(),
        ensures
            r == match last_from(self.key_views(), key@, from as nat) {
                None => None::<usize>,
                Some(p) => Some(p as usize),
            },
            r is Some ==> r->0 < self.key_views().len(),
    {
        let ghost kv = self.key_views();
        let n = self.keys.len();
        match self.rank_query(key) {
            None => {
                proof {
                    if from <= n {
                        lemma_positions_skip(kv, key@, from as nat, n as nat);
                    }
                }
                None
            },
            Some(q) => match search_last(&self.ranks, q, from) {
                None => {
                    proof {
                        if from <= n {
                            lemma_positions_skip(kv, key@, from as nat, n as nat);
                        }
                    }
                    None
                },
                Some(j) => {
                    proof {
                        let m = positions_from(kv, key@, from as nat);
                        lemma_positions_from_props(kv, key@, from as nat);
                        assert(kv[j as int] == key@);
                        assert(m.contains(j as nat));
                        let w = choose|w: int| 0 <= w < m.len() && m[w] == j as nat;
                        if w < m.len() - 1 {
                            assert(m[w] < m[m.len() - 1]);
                            assert(kv[m[m.len() - 1] as int] == key@);
                        }
                        assert(m[m.len() - 1] < n);
                    }
                    Some(j)
                },
            },
        }
    }

    /// The first position that holds `key`.
    fn first_position(&self, key: &ServiceKey) -> (r: Option<usize>)
        requires
            self.wf(),
        ensures
            match r {
                None => positions(self.key_views(), key@).len() == 0,
                Some(i) => {
                    &&& i < self.key_views().len()
                    &&& self.key_views()[i as int] == key@
                    &&& positions(self.key_views(), key@) == seq![i as nat] + positions_from(
                        self.key_views(),
                        key@,
                        (i + 1) as nat,
                    )
                },
            },
    {
        let ghost kv = self.key_views();
        let n = self.keys.len();
        match self.rank_query(key) {
            None => {
                proof {
                    lemma_positions_skip(kv, key@, 0, n as nat);
                }
                None
            },
            Some(q) => match search_first(&self.ranks, q) {
                None => {
                    proof {
                        lemma_positions_skip(kv, key@, 0, n as nat);
                    }
                    None
                },
                Some(i) => {
                    proof {
                        lemma_positions_skip(kv, key@, 0, i as nat);
                    }
                    Some(i)
                },
            },
        }
    }

    /// Runs the factory of registration `i` on its resolved dependencies.
    fn make(&self, i: usize) -> (v: V)
        requires
            self.wf(),
            i < self.key_views().len(),
        ensures
            self.made(i as int, v),
        decreases self.levels@[i as int], 2int,
    {
        let args = self.resolve_dependencies(i);
        let ghost a = args@;
        let v = self.factories[i].factory.create(args);
        assert(self.dependency_values(i as int, a) && self.factories()[i as int].factory.produces(
            a,
            v,
        ));
        v
    }

    /// Resolves registration `i`: a transient one is made anew; a shared or
    /// singleton one is made when its cell is still empty, and the cell keeps
    /// the first value stored in it.
    fn produce_at(&self, i: usize) -> (r: Resolved<V>)
        requires
            self.wf(),
            i < self.key_views().len(),
        ensures
            self.produced_at(i as int, r),
        decreases self.levels@[i as int], 3int,
    {
        let lifetime = self.keys[i].lifetime;
        match lifetime {
            Lifetime::Transient => Resolved::Owned(self.make(i)),
            _ => {
                let cell = &self.cells[i];
                match cache_get(cell) {
                    Some(a) => Resolved::Shared(shared_ref(a)),
                    None => {
                        let v = Arc::new(self.make(i));
                        let a = cache_insert(cell, v);
                        Resolved::Shared(shared_ref(a))
                    },
                }
            },
        }
    }

    /// Resolves the declared dependencies of registration `i`.
    fn resolve_dependencies(&self, i: usize) -> (r: Vec<Resolved<V>>)
        requires
            self.wf(),
            i < self.key_views().len(),
        ensures
            self.dependency_values(i as int, r@),
        decreases self.levels@[i as int], 1int,
    {
        let deps = &self.deps[i];
        let ghost dv = self.dependency_views()[i as int];
        assert(dv == deps@.map_values(|x: Dependency| x@));
        let mut out: Vec<Resolved<V>> = Vec::new();
        let mut t: usize = 0;
        while t < deps.len()
            invariant
                self.wf(),
                i < self.key_views().len(),
                deps == &self.deps@[i as int],
                dv == self.dependency_views()[i as int],
                dv == deps@.map_values(|x: Dependency| x@),
                t <= deps@.len(),
                out@.len() == t,
                forall|u: int| 0 <= u < t ==> self.dependency_value(dv[u], #[trigger] out@[u]),
            decreases deps.len() - t,
        {
            let d = &deps[t];
            assert(dv[t as int] == d@);
            match d {
                Dependency::One(k) => {
                    assert(required_present(self.key_views(), self.dependency_views()));
                    assert(self.dependency_views()[i as int][t as int].0);
                    proof {
                        lemma_has_key_positions(self.key_views(), k@);
                    }
                    match self.last_position(k, 0) {
                        Some(j) => {
                            let n = self.keys.len();
                            proof {
                                assert(self.key_views().len() == n);
                                lemma_positions_from_props(self.key_views(), k@, 0);
                                let m = positions(self.key_views(), k@);
                                assert(m[m.len() - 1] < self.key_views().len());
                                assert(m[m.len() - 1] == j);
                                assert(self.key_views()[j as int] == dv[t as int].1);
                            }
                            let v = self.produce_at(j);
                            out.push(v);
                        },
                        None => {
                            assert(false);
                        },
                    }
                },
                Dependency::All(k) => {
                    let bound = self.levels[i];
                    let vs = self.resolve_all(k, bound);
                    out.push(Resolved::Many(vs));
                },
            }
            t = t + 1;
        }
        out
    }

    /// Resolves every registration of `k`, in registration order. Every such
    /// registration lies below `bound`.
    fn resolve_all(&self, k: &ServiceKey, bound: usize) -> (r: Vec<Resolved<V>>)
        requires
            self.wf(),
            forall|j: int|
                0 <= j < self.key_views().len() && self.key_views()[j] == k@
                    ==> #[trigger] self.levels@[j] < bound,
        ensures
            r@.len() == positions(self.key_views(), k@).len(),
            forall|u: int|
                0 <= u < r@.len() ==> self.produced_at(
                    positions(self.key_views(), k@)[u] as int,
                    #[trigger] r@[u],
                ),
        decreases bound, 0int,
    {
        let ghost kv = self.key_views();
        let ghost mut seen: Seq<nat> = Seq::empty();
        let mut out: Vec<Resolved<V>> = Vec::new();
        let mut i: usize = 0;
        while i < self.keys.len()
            invariant
                self.wf(),
                kv == self.key_views(),
                kv.len() == self.keys@.len(),
                forall|j: int|
                    0 <= j < kv.len() && kv[j] == k@ ==> #[trigger] self.levels@[j] < bound,
                i <= kv.len(),
                positions(kv, k@) == seen + positions_from(kv, k@, i as nat),
                out@.len() == seen.len(),
                forall|u: int| 0 <= u < out@.len() ==> self.produced_at(seen[u] as int, #[trigger] out@[u]),
            decreases self.keys.len() - i,
        {
            if self.keys[i].same(k) {
                let v = self.produce_at(i);
                proof {
                    assert(seen + positions_from(kv, k@, i as nat) =~= (seen + seq![i as nat])
                        + positions_from(kv, k@, (i + 1) as nat));
                    seen = seen + seq![i as nat];
                }
                out.push(v);
            }
            i = i + 1;
        }
        assert(seen + positions_from(kv, k@, i as nat) =~= seen);
        out
    }
}

impl<V> ServiceProvider<V> {
    /// The last registration of `key`, resolved; `None` when nothing is
    /// registered under it.
    pub fn get(&self, key: &ServiceKey) -> (r: Option<Resolved<V>>)
        requires
            self.wf(),
        ensures
            r is None <==> last_match(self.key_views(), key@) is None,
            r is Some ==> self.produced_at(last_match(self.key_views(), key@)->0 as int, r->0),
    {
        let n = self.keys.len();
        match self.last_position(key, 0) {
            Some(j) => {
                proof {
                    let m = positions(self.key_views(), key@);
                    lemma_positions_from_props(self.key_views(), key@, 0);
                    assert(m[m.len() - 1] < n);
                }
                Some(self.produce_at(j))
            },
            None => None,
        }
    }

    /// Resolves several keys against this provider, each as `get` does, in
    /// the order given: the composite form of a query.
    pub fn get_many(&self, keys: &Vec<ServiceKey>) -> (r: Vec<Option<Resolved<V>>>)
        requires
            self.wf(),
        ensures
            r@.len() == keys@.len(),
            forall|u: int|
                0 <= u < keys@.len() ==> {
                    &&& ((#[trigger] r@[u]) is None <==> last_match(self.key_views(), keys@[u]@)
                        is None)
                    &&& r@[u] is Some ==> self.produced_at(
                        last_match(self.key_views(), keys@[u]@)->0 as int,
                        r@[u]->0,
                    )
                },
    {
        let mut r: Vec<Option<Resolved<V>>> = Vec::new();
        let mut u: usize = 0;
        while u < keys.len()
            invariant
                self.wf(),
                u <= keys@.len(),
                r@.len() == u,
                forall|w: int|
                    0 <= w < u ==> {
                        &&& ((#[trigger] r@[w]) is None <==> last_match(
                            self.key_views(),
                            keys@[w]@,
                        ) is None)
                        &&& r@[w] is Some ==> self.produced_at(
                            last_match(self.key_views(), keys@[w]@)->0 as int,
                            r@[w]->0,
                        )
                    },
            decreases keys.len() - u,
        {
            let v = self.get(&keys[u]);
            r.push(v);
            u = u + 1;
        }
        r
    }

    /// Every registration of `key`, resolved lazily in registration order.
    pub fn get_all(&self, key: &ServiceKey) -> (r: ServiceIterator<'_, V>)
        requires
            self.wf(),
        ensures
            r.inv(),
            r.provider() == self,
            r.key_view() == key@,
            r.remaining() == positions(self.key_views(), key@),
    {
        let next_pos = self.first_position(key);
        let r = ServiceIterator { provider: self, key: key.duplicate(), next_pos };
        assert(r.remaining() =~= positions(self.key_views(), key@));
        r
    }
}

/// The registrations of one key inside a provider, visited in registration order.
#[verifier::reject_recursive_types(V)]
pub struct ServiceIterator<'a, V> {
    provider: &'a ServiceProvider<V>,
    key: ServiceKey,
    next_pos: Option<usize>,
}

impl<'a, V> ServiceIterator<'a, V> {
    pub closed spec fn provider(&self) -> &'a ServiceProvider<V> {
        self.provider
    }

    pub closed spec fn key_view(&self) -> KeyView {
        self.key@
    }

    /// Positions of the registrations not visited yet.
    pub closed spec fn remaining(&self) -> Seq<nat> {
        match self.next_pos {
            None => Seq::empty(),
            Some(p) => positions_from(self.provider.key_views(), self.key@, p as nat),
        }
    }

    pub closed spec fn inv(&self) -> bool {
        &&& self.provider.wf()
        &&& match self.next_pos {
            None => true,
            Some(p) => {
                let m = positions_from(self.provider.key_views(), self.key@, p as nat);
                m.len() > 0 && m[0] == p && p < self.provider.key_views().len()
            },
        }
    }

    /// Resolves the next registration and moves past it.
    pub fn next(&mut self) -> (r: Option<Resolved<V>>)
        requires
            old(self).inv(),
        ensures
            final(self).inv(),
            final(self).provider() == old(self).provider(),
            final(self).key_view() == old(self).key_view(),
            r is None <==> old(self).remaining().len() == 0,
            r is None ==> final(self).remaining() == old(self).remaining(),
            r is Some ==> final(self).remaining() == old(self).remaining().drop_first(),
            r is Some ==> old(self).provider().produced_at(old(self).remaining()[0] as int, r->0),
    {
        match self.next_pos {
            None => None,
            Some(p) => {
                let v = self.provider.produce_at(p);
                let ghost kv = self.provider.key_views();
                let n = self.provider.keys.len();
                assert(p < n);
                let next = if p + 1 < n && self.provider.keys[p + 1].same(&self.key) {
                    Some(p + 1)
                } else {
                    None
                };
                proof {
                    lemma_positions_from_props(kv, self.key@, p as nat);
                    assert(kv[p as int] == self.key@);
                    if next is None && p + 1 < n {
                        self.provider.lemma_rank_run_ends(p as int, (p + 1) as int);
                        lemma_positions_skip(kv, self.key@, (p + 1) as nat, n as nat);
                    }
                }
                self.next_pos = next;
                proof {
                    let old_m = positions_from(kv, self.key@, p as nat);
                    assert(self.remaining() =~= old_m.drop_first());
                }
                Some(v)
            },
        }
    }

    /// How many registrations are left.
    pub fn count(&self) -> (r: usize)
        requires
            self.inv(),
        ensures
            r == self.remaining().len(),
    {
        match self.next_pos {
            None => 0,
            Some(p) => {
                let n = self.provider.keys.len();
                let hi = self.provider.run_end(p);
                proof {
                    lemma_positions_from_props(self.provider.key_views(), self.key@, p as nat);
                }
                hi - p + 1
            },
        }
    }

    /// The last remaining registration, resolved; `None` when none is left.
    pub fn last(&self) -> (r: Option<Resolved<V>>)
        requires
            self.inv(),
        ensures
            r is None <==> self.remaining().len() == 0,
            r is Some ==> self.provider().produced_at(self.remaining().last() as int, r->0),
    {
        match self.next_pos {
            None => None,
            Some(p) => {
                let n = self.provider.keys.len();
                match self.provider.last_position(&self.key, p) {
                    Some(j) => {
                        proof {
                            let m = positions_from(self.provider.key_views(), self.key@, p as nat);
                            lemma_positions_from_props(self.provider.key_views(), self.key@, p as nat);
                            assert(m[m.len() - 1] < n);
                        }
                        Some(self.provider.produce_at(j))
                    },
                    None => None,
                }
            },
        }
    }
}

} // verus!



