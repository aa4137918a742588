use vstd::prelude::*;


use crate::factory::{dependent_producer, plain_producer, Cache, Producer, Resolved};
use crate::key::{describe_key, keys_view, KeyView, Lifetime, ServiceKey};
use crate::lookup::{find_last, has_key, lemma_has_key_positions};
use crate::levels::{
    acyclic, compute_levels, cyclic_set, lemma_acyclic_reordered, lemma_cyclic_reordered,
};
use crate::ordering::{
    entry_lt, lemma_rank_of_injective, lemma_sorted_rank_table, listed, rank_le, rank_of, ranks_of,
    stable_order, stably_sorted, Rank,
};
use crate::provider::{made_in, ServiceProvider};
use crate::resolvable::{dependency_lists_view, Dependency, DependencyView, Resolvable};

verus! {

/// Every checked key has a registration.
pub open spec fn all_present(keys: Seq<KeyView>, checks: Seq<KeyView>) -> bool {
    forall|t: int| 0 <= t < checks.len() ==> has_key(keys, #[trigger] checks[t])
}

/// `t` is the first checked key without a registration.
pub open spec fn first_missing(keys: Seq<KeyView>, checks: Seq<KeyView>, t: int) -> bool {
    &&& 0 <= t < checks.len()
    &&& !has_key(keys, checks[t])
    &&& forall|u: int| 0 <= u < t ==> has_key(keys, #[trigger] checks[u])
}

/// Detail of a dependency that `build` could not find.
#[derive(Debug, PartialEq, Eq)]
pub struct MissingDependencyInfos {
    missing: String,
}

impl View for MissingDependencyInfos {
    type V = Seq<char>;

    closed spec fn view(&self) -> Seq<char> {
        self.missing@
    }
}

impl MissingDependencyInfos {
    /// The missing key, written as `Lifetime<service>`.
    pub fn missing(&self) -> (r: &String)
        ensures
            r@ == self@,
    {
        &self.missing
    }
}

/// Why `build` refused a collection.
#[derive(Debug, PartialEq, Eq)]
pub enum BuildError {
    /// A declared dependency has no registration.
    MissingDependency(MissingDependencyInfos),
    /// A registration depends, directly or through others, on itself; holds
    /// the key of one registration that cannot be resolved for that reason.
    CyclicDependency(String),
}

/// Registrations gathered before `build`. No factory runs in this state.
#[verifier::reject_recursive_types(V)]
pub struct ServiceCollection<V> {
    keys: Vec<ServiceKey>,
    deps: Vec<Vec<Dependency>>,
    factories: Vec<Producer<V>>,
    checkers: Vec<ServiceKey>,
}

impl<V> ServiceCollection<V> {
    /// Keys of the registrations, in registration order.
    pub closed spec fn key_views(&self) -> Seq<KeyView> {
        keys_view(self.keys@)
    }

    /// Declared dependencies of each registration.
    pub closed spec fn dependency_views(&self) -> Seq<Seq<DependencyView>> {
        dependency_lists_view(self.deps@)
    }

    pub closed spec fn factories(&self) -> Seq<Producer<V>> {
        self.factories@
    }

    /// Keys that `build` must find, in the order they were declared.
    pub closed spec fn checker_views(&self) -> Seq<KeyView> {
        keys_view(self.checkers@)
    }

    pub closed spec fn wf(&self) -> bool {
        let n = self.keys@.len();
        &&& self.deps@.len() == n
        &&& self.factories@.len() == n
        &&& forall|i: int| 0 <= i < n ==> (#[trigger] self.factories@[i]).factory.ready()
        &&& forall|i: int, t: int|
            0 <= i < n && 0 <= t < self.dependency_views()[i].len() && (
            #[trigger] self.dependency_views()[i][t]).0 ==> self.checker_views().contains(
                self.dependency_views()[i][t].1,
            )
    }

    /// An empty collection.
    pub fn new() -> (r: ServiceCollection<V>)
        ensures
            r.wf(),
            r.key_views() == Seq::<KeyView>::empty(),
            r.dependency_views() == Seq::<Seq<DependencyView>>::empty(),
            r.factories().len() == 0,
            r.checker_views() == Seq::<KeyView>::empty(),
    {
        let r = ServiceCollection {
            keys: Vec::new(),
            deps: Vec::new(),
            factories: Vec::new(),
            checkers: Vec::new(),
        };
        assert(r.key_views() =~= Seq::<KeyView>::empty());
        assert(r.checker_views() =~= Seq::<KeyView>::empty());
        assert(r.dependency_views() =~= Seq::<Seq<DependencyView>>::empty());
        r
    }
}

/// The required keys among `ds`, in order.
pub open spec fn required_keys(ds: Seq<DependencyView>) -> Seq<KeyView>
    decreases ds.len(),
{
    if ds.len() == 0 {
        Seq::empty()
    } else if ds.last().0 {
        required_keys(ds.drop_last()).push(ds.last().1)
    } else {
        required_keys(ds.drop_last())
    }
}

pub proof fn lemma_required_keys_contains(ds: Seq<DependencyView>, t: int)
    requires
        0 <= t < ds.len(),
        ds[t].0,
    ensures
        required_keys(ds).contains(ds[t].1),
    decreases ds.len(),
{
    if t == ds.len() - 1 {
        assert(required_keys(ds).last() == ds[t].1);
    } else {
        lemma_required_keys_contains(ds.drop_last(), t);
        let r = required_keys(ds.drop_last());
        let j = choose|j: int| 0 <= j < r.len() && r[j] == ds[t].1;
        if ds.last().0 {
            assert(required_keys(ds)[j] == ds[t].1);
        }
    }
}

impl<V: 'static> ServiceCollection<V> {
    /// Appends the keys of the required dependencies among `deps` to the checks.
    fn add_checkers(&mut self, deps: &Vec<Dependency>)
        requires
            old(self).wf(),
        ensures
            final(self).wf(),
            final(self).key_views() == old(self).key_views(),
            final(self).dependency_views() == old(self).dependency_views(),
            final(self).factories() == old(self).factories(),
            final(self).checker_views() == old(self).checker_views() + required_keys(
                deps@.map_values(|d: Dependency| d@),
            ),
    {
        let ghost dv = deps@.map_values(|d: Dependency| d@);
        let ghost start = self.checker_views();
        let mut t: usize = 0;
        while t < deps.len()
            invariant
                self.wf(),
                self.key_views() == old(self).key_views(),
                self.dependency_views() == old(self).dependency_views(),
                self.factories() == old(self).factories(),
                start == old(self).checker_views(),
                dv == deps@.map_values(|d: Dependency| d@),
                t <= deps@.len(),
                self.checker_views() == start + required_keys(dv.take(t as int)),
            decreases deps.len() - t,
        {
            let d = &deps[t];
            assert(dv.take(t + 1).drop_last() =~= dv.take(t as int));
            assert(dv.take(t + 1).last() == d@);
            match d {
                Dependency::One(k) => {
                    let ghost before = self.checker_views();
                    self.checkers.push(k.duplicate());
                    assert(self.checker_views() =~= before.push(k@));
                    assert(self.checker_views() =~= start + required_keys(dv.take(t + 1)));
                    assert forall|i: int, u: int|
                        0 <= i < self.keys@.len() && 0 <= u < self.dependency_views()[i].len() && (
                        #[trigger] self.dependency_views()[i][u]).0 implies self.checker_views().contains(
                        self.dependency_views()[i][u].1,
                    ) by {
                        let w = choose|w: int|
                            0 <= w < before.len() && before[w] == self.dependency_views()[i][u].1;
                        assert(self.checker_views()[w] == before[w]);
                    }
                },
                Dependency::All(_) => {},
            }
            t = t + 1;
        }
        assert(dv.take(deps@.len() as int) =~= dv);
    }

    /// Appends one registration; its required dependencies are already checked.
    fn push_registration(
        &mut self,
        key: ServiceKey,
        deps: Vec<Dependency>,
        factory: Producer<V>,
    )
        requires
            old(self).wf(),
            factory.factory.ready(),
            forall|t: int|
                0 <= t < deps@.len() && (#[trigger] deps@[t]).is_required()
                    ==> old(self).checker_views().contains(deps@[t].key_view()),
        ensures
            final(self).wf(),
            final(self).key_views() == old(self).key_views().push(key@),
            final(self).dependency_views() == old(self).dependency_views().push(
                deps@.map_values(|d: Dependency| d@),
            ),
            final(self).factories() == old(self).factories().push(factory),
            final(self).checker_views() == old(self).checker_views(),
    {
        let ghost old_dv = self.dependency_views();
        self.keys.push(key);
        self.deps.push(deps);
        self.factories.push(factory);
        assert(self.key_views() =~= old(self).key_views().push(key@));
        assert(self.dependency_views() =~= old_dv.push(deps@.map_values(|d: Dependency| d@)));
        assert(self.checker_views() =~= old(self).checker_views());
        assert(self.factories() =~= old(self).factories().push(factory));
        let ghost n = self.keys@.len();
        assert(old(self).factories@.len() == n - 1);

        assert forall|i: int| 0 <= i < n implies (#[trigger] self.factories@[i]).factory.ready() by {
            if i < n - 1 {
                assert(self.factories@[i] == old(self).factories@[i]);
            }
        }
        assert forall|i: int, u: int|
            0 <= i < n && 0 <= u < self.dependency_views()[i].len() && (
            #[trigger] self.dependency_views()[i][u]).0 implies self.checker_views().contains(
            self.dependency_views()[i][u].1,
        ) by {
            if i == n - 1 {
                assert(self.dependency_views()[i][u] == deps@[u]@);
                assert(deps@[u].is_required());
            } else {
                assert(self.dependency_views()[i] == old_dv[i]);
            }
        }
    }
}

impl<V: 'static> ServiceCollection<V> {
    /// Appends a registration without dependencies.
    fn register_plain<F: Fn() -> V + 'static>(&mut self, key: ServiceKey, creator: F)
        requires
            old(self).wf(),
            call_requires(creator, ()),
        ensures
            final(self).wf(),
            final(self).key_views() == old(self).key_views().push(key@),
            final(self).dependency_views() == old(self).dependency_views().push(Seq::empty()),
            final(self).checker_views() == old(self).checker_views(),
            final(self).factories().len() == old(self).factories().len() + 1,
            final(self).factories().drop_last() == old(self).factories(),
            forall|args: Seq<Resolved<V>>, v: V|
                final(self).factories().last().factory.produces(args, v) <==> call_ensures(
                    creator,
                    (),
                    v,
                ),
    {
        let p = plain_producer(creator);
        let deps: Vec<Dependency> = Vec::new();
        assert(deps@.map_values(|d: Dependency| d@) =~= Seq::empty());
        self.push_registration(key, deps, p);
        assert(self.factories().drop_last() =~= old(self).factories());
    }

    /// Registers a transient `service` without dependencies: every resolution
    /// runs `creator` again.
    pub fn register_transient<F: Fn() -> V + 'static>(&mut self, service: &str, creator: F)
        requires
            old(self).wf(),
            call_requires(creator, ()),
        ensures
            final(self).wf(),
            final(self).key_views() == old(self).key_views().push((service@, Lifetime::Transient)),
            final(self).dependency_views() == old(self).dependency_views().push(Seq::empty()),
            final(self).checker_views() == old(self).checker_views(),
            final(self).factories().len() == old(self).factories().len() + 1,
            final(self).factories().drop_last() == old(self).factories(),
            forall|args: Seq<Resolved<V>>, v: V|
                final(self).factories().last().factory.produces(args, v) <==> call_ensures(
                    creator,
                    (),
                    v,
                ),
    {
        self.register_plain(ServiceKey::new(service, Lifetime::Transient), creator);
    }

    /// Registers a shared `service` without dependencies. Its value is cached
    /// in a one-shot cell and shared by later resolutions; the contracts state
    /// only that every value handed out was made by `creator`, not that it is
    /// made once or that two handles share it.
    pub fn register_shared<F: Fn() -> V + 'static>(&mut self, service: &str, creator: F)
        requires
            old(self).wf(),
            call_requires(creator, ()),
        ensures
            final(self).wf(),
            final(self).key_views() == old(self).key_views().push((service@, Lifetime::Shared)),
            final(self).dependency_views() == old(self).dependency_views().push(Seq::empty()),
            final(self).checker_views() == old(self).checker_views(),
            final(self).factories().len() == old(self).factories().len() + 1,
            final(self).factories().drop_last() == old(self).factories(),
            forall|args: Seq<Resolved<V>>, v: V|
                final(self).factories().last().factory.produces(args, v) <==> call_ensures(
                    creator,
                    (),
                    v,
                ),
    {
        self.register_plain(ServiceKey::new(service, Lifetime::Shared), creator);
    }

    /// Registers a singleton `service` without dependencies; it is cached like
    /// a shared one, under its own key, with the same caveat.
    pub fn register_singleton<F: Fn() -> V + 'static>(&mut self, service: &str, creator: F)
        requires
            old(self).wf(),
            call_requires(creator, ()),
        ensures
            final(self).wf(),
            final(self).key_views() == old(self).key_views().push(
                (service@, Lifetime::Singleton),
            ),
            final(self).dependency_views() == old(self).dependency_views().push(Seq::empty()),
            final(self).checker_views() == old(self).checker_views(),
            final(self).factories().len() == old(self).factories().len() + 1,
            final(self).factories().drop_last() == old(self).factories(),
            forall|args: Seq<Resolved<V>>, v: V|
                final(self).factories().last().factory.produces(args, v) <==> call_ensures(
                    creator,
                    (),
                    v,
                ),
    {
        self.register_plain(ServiceKey::new(service, Lifetime::Singleton), creator);
    }

    /// Appends a registration whose factory receives the values of `deps`,
    /// and the checks for the required ones.
    fn register_dependent<F: Fn(Vec<Resolved<V>>) -> V + 'static>(
        &mut self,
        key: ServiceKey,
        deps: &Vec<Dependency>,
        creator: F,
    )
        requires
            old(self).wf(),
            forall|a: Vec<Resolved<V>>| call_requires(creator, (a,)),
        ensures
            final(self).wf(),
            final(self).key_views() == old(self).key_views().push(key@),
            final(self).dependency_views() == old(self).dependency_views().push(
                deps@.map_values(|d: Dependency| d@),
            ),
            final(self).checker_views() == old(self).checker_views() + required_keys(
                deps@.map_values(|d: Dependency| d@),
            ),
            final(self).factories().len() == old(self).factories().len() + 1,
            final(self).factories().drop_last() == old(self).factories(),
            forall|args: Seq<Resolved<V>>, v: V|
                final(self).factories().last().factory.produces(args, v) <==> exists|
                    a: Vec<Resolved<V>>,
                | a@ == args && call_ensures(creator, (a,), v),
    {
        let ghost dv = deps@.map_values(|d: Dependency| d@);
        self.add_checkers(deps);
        let copy = duplicate_all(deps);
        let p = dependent_producer(creator);
        proof {
            assert forall|t: int|
                0 <= t < copy@.len() && (#[trigger] copy@[t]).is_required()
                    implies self.checker_views().contains(copy@[t].key_view()) by {
                assert(dv[t] == copy@[t]@);
                lemma_required_keys_contains(dv, t);
                let r = required_keys(dv);
                let j = choose|j: int| 0 <= j < r.len() && r[j] == dv[t].1;
                assert(self.checker_views()[old(self).checker_views().len() + j] == r[j]);
            }
        }
        self.push_registration(key, copy, p);
        assert(self.factories().drop_last() =~= old(self).factories());
    }

    /// Starts a registration whose factory receives the values of `dependencies`.
    pub fn with<R: Resolvable>(&mut self, dependencies: R) -> (r: ServiceBuilder<'_, V>)
        ensures
            *r.collection == *old(self),
            *final(self) == *final(r.collection),
            r.dependencies@.map_values(|d: Dependency| d@) == dependencies.dependency_view(),
    {
        let d = dependencies.dependencies();
        ServiceBuilder { collection: self, dependencies: d }
    }
}

/// A registration in progress, with its dependencies declared.
#[verifier::reject_recursive_types(V)]
pub struct ServiceBuilder<'a, V> {
    pub collection: &'a mut ServiceCollection<V>,
    pub dependencies: Vec<Dependency>,
}

/// A copy of a list of dependencies.
fn duplicate_all(deps: &Vec<Dependency>) -> (r: Vec<Dependency>)
    ensures
        r@.map_values(|d: Dependency| d@) == deps@.map_values(|d: Dependency| d@),
{
    let mut r: Vec<Dependency> = Vec::new();
    let mut t: usize = 0;
    while t < deps.len()
        invariant
            t <= deps@.len(),
            r@.len() == t,
            forall|u: int| 0 <= u < t ==> (#[trigger] r@[u])@ == deps@[u]@,
        decreases deps.len() - t,
    {
        r.push(deps[t].duplicate());
        t = t + 1;
    }
    assert(r@.map_values(|d: Dependency| d@) =~= deps@.map_values(|d: Dependency| d@));
    r
}

impl<V: 'static> ServiceCollection<V> {
    /// Registers a transient `service` whose factory receives the values of
    /// `dependencies`, in declaration order; the required ones are checked by
    /// `build`.
    pub fn register_transient_with<R: Resolvable, F: Fn(Vec<Resolved<V>>) -> V + 'static>(
        &mut self,
        dependencies: R,
        service: &str,
        creator: F,
    )
        requires
            old(self).wf(),
            forall|a: Vec<Resolved<V>>| call_requires(creator, (a,)),
        ensures
            final(self).wf(),
            final(self).key_views() == old(self).key_views().push((service@, Lifetime::Transient)),
            final(self).dependency_views() == old(self).dependency_views().push(
                dependencies.dependency_view(),
            ),
            final(self).checker_views() == old(self).checker_views() + required_keys(
                dependencies.dependency_view(),
            ),
            final(self).factories().len() == old(self).factories().len() + 1,
            final(self).factories().drop_last() == old(self).factories(),
            forall|args: Seq<Resolved<V>>, v: V|
                final(self).factories().last().factory.produces(args, v) <==> exists|
                    a: Vec<Resolved<V>>,
                | a@ == args && call_ensures(creator, (a,), v),
    {
        let deps = dependencies.dependencies();
        self.register_dependent(ServiceKey::new(service, Lifetime::Transient), &deps, creator);
    }

    /// Registers a shared `service` whose factory receives the values of
    /// `dependencies`.
    /// Its value is cached in a one-shot cell and shared by later resolutions;
    /// the contracts state only that every value handed out was made by this
    /// factory, not that it is made once or that two handles share it.
    pub fn register_shared_with<R: Resolvable, F: Fn(Vec<Resolved<V>>) -> V + 'static>(
        &mut self,
        dependencies: R,
        service: &str,
        creator: F,
    )
        requires
            old(self).wf(),
            forall|a: Vec<Resolved<V>>| call_requires(creator, (a,)),
        ensures
            final(self).wf(),
            final(self).key_views() == old(self).key_views().push((service@, Lifetime::Shared)),
            final(self).dependency_views() == old(self).dependency_views().push(
                dependencies.dependency_view(),
            ),
            final(self).checker_views() == old(self).checker_views() + required_keys(
                dependencies.dependency_view(),
            ),
            final(self).factories().len() == old(self).factories().len() + 1,
            final(self).factories().drop_last() == old(self).factories(),
            forall|args: Seq<Resolved<V>>, v: V|
                final(self).factories().last().factory.produces(args, v) <==> exists|
                    a: Vec<Resolved<V>>,
                | a@ == args && call_ensures(creator, (a,), v),
    {
        let deps = dependencies.dependencies();
        self.register_dependent(ServiceKey::new(service, Lifetime::Shared), &deps, creator);
    }

    /// Registers a singleton `service` whose factory receives the values of
    /// `dependencies`; it is cached like a shared one, with the same caveat.
    pub fn register_singleton_with<R: Resolvable, F: Fn(Vec<Resolved<V>>) -> V + 'static>(
        &mut self,
        dependencies: R,
        service: &str,
        creator: F,
    )
        requires
            old(self).wf(),
            forall|a: Vec<Resolved<V>>| call_requires(creator, (a,)),
        ensures
            final(self).wf(),
            final(self).key_views() == old(self).key_views().push((service@, Lifetime::Singleton)),
            final(self).dependency_views() == old(self).dependency_views().push(
                dependencies.dependency_view(),
            ),
            final(self).checker_views() == old(self).checker_views() + required_keys(
                dependencies.dependency_view(),
            ),
            final(self).factories().len() == old(self).factories().len() + 1,
            final(self).factories().drop_last() == old(self).factories(),
            forall|args: Seq<Resolved<V>>, v: V|
                final(self).factories().last().factory.produces(args, v) <==> exists|
                    a: Vec<Resolved<V>>,
                | a@ == args && call_ensures(creator, (a,), v),
    {
        let deps = dependencies.dependencies();
        self.register_dependent(ServiceKey::new(service, Lifetime::Singleton), &deps, creator);
    }
}

impl<'a, V: 'static> ServiceBuilder<'a, V> {
    /// Registers a transient `service` whose factory receives the declared
    /// dependencies' values, in declaration order.
    pub fn register_transient<F: Fn(Vec<Resolved<V>>) -> V + 'static>(
        &mut self,
        service: &str,
        creator: F,
    )
        requires
            old(self).collection.wf(),
            forall|a: Vec<Resolved<V>>| call_requires(creator, (a,)),
        ensures
            final(self).collection.wf(),
            final(self).dependencies == old(self).dependencies,
            final(self).collection.key_views() == old(self).collection.key_views().push(
                (service@, Lifetime::Transient),
            ),
            final(self).collection.dependency_views() == old(
                self,
            ).collection.dependency_views().push(
                old(self).dependencies@.map_values(|d: Dependency| d@),
            ),
            final(self).collection.checker_views() == old(self).collection.checker_views()
                + required_keys(old(self).dependencies@.map_values(|d: Dependency| d@)),
            final(self).collection.factories().len() == old(self).collection.factories().len()
                + 1,
            final(self).collection.factories().drop_last() == old(self).collection.factories(),
            forall|args: Seq<Resolved<V>>, v: V|
                final(self).collection.factories().last().factory.produces(args, v) <==> exists|
                    a: Vec<Resolved<V>>,
                | a@ == args && call_ensures(creator, (a,), v),
    {
        let key = ServiceKey::new(service, Lifetime::Transient);
        self.collection.register_dependent(key, &self.dependencies, creator);
    }

    /// Registers a shared `service` whose factory receives the declared
    /// dependencies' values.
    /// Its value is cached in a one-shot cell and shared by later resolutions;
    /// the contracts state only that every value handed out was made by this
    /// factory, not that it is made once or that two handles share it.
    pub fn register_shared<F: Fn(Vec<Resolved<V>>) -> V + 'static>(
        &mut self,
        service: &str,
        creator: F,
    )
        requires
            old(self).collection.wf(),
            forall|a: Vec<Resolved<V>>| call_requires(creator, (a,)),
        ensures
            final(self).collection.wf(),
            final(self).dependencies == old(self).dependencies,
            final(self).collection.key_views() == old(self).collection.key_views().push(
                (service@, Lifetime::Shared),
            ),
            final(self).collection.dependency_views() == old(
                self,
            ).collection.dependency_views().push(
                old(self).dependencies@.map_values(|d: Dependency| d@),
            ),
            final(self).collection.checker_views() == old(self).collection.checker_views()
                + required_keys(old(self).dependencies@.map_values(|d: Dependency| d@)),
            final(self).collection.factories().len() == old(self).collection.factories().len()
                + 1,
            final(self).collection.factories().drop_last() == old(self).collection.factories(),
            forall|args: Seq<Resolved<V>>, v: V|
                final(self).collection.factories().last().factory.produces(args, v) <==> exists|
                    a: Vec<Resolved<V>>,
                | a@ == args && call_ensures(creator, (a,), v),
    {
        let key = ServiceKey::new(service, Lifetime::Shared);
        self.collection.register_dependent(key, &self.dependencies, creator);
    }

    /// Registers a singleton `service` whose factory receives the declared
    /// dependencies' values; it is cached like a shared one, with the same
    /// caveat.
    pub fn register_singleton<F: Fn(Vec<Resolved<V>>) -> V + 'static>(
        &mut self,
        service: &str,
        creator: F,
    )
        requires
            old(self).collection.wf(),
            forall|a: Vec<Resolved<V>>| call_requires(creator, (a,)),
        ensures
            final(self).collection.wf(),
            final(self).dependencies == old(self).dependencies,
            final(self).collection.key_views() == old(self).collection.key_views().push(
                (service@, Lifetime::Singleton),
            ),
            final(self).collection.dependency_views() == old(
                self,
            ).collection.dependency_views().push(
                old(self).dependencies@.map_values(|d: Dependency| d@),
            ),
            final(self).collection.checker_views() == old(self).collection.checker_views()
                + required_keys(old(self).dependencies@.map_values(|d: Dependency| d@)),
            final(self).collection.factories().len() == old(self).collection.factories().len()
                + 1,
            final(self).collection.factories().drop_last() == old(self).collection.factories(),
            forall|args: Seq<Resolved<V>>, v: V|
                final(self).collection.factories().last().factory.produces(args, v) <==> exists|
                    a: Vec<Resolved<V>>,
                | a@ == args && call_ensures(creator, (a,), v),
    {
        let key = ServiceKey::new(service, Lifetime::Singleton);
        self.collection.register_dependent(key, &self.dependencies, creator);
    }
}

impl<V> ServiceCollection<V> {
    /// Checks every declared dependency, in declaration order, and orders the
    /// registrations by their dependencies. Consumes the collection either way.
    pub fn build(self) -> (r: Result<ServiceProvider<V>, BuildError>)
        requires
            self.wf(),
        ensures
            r matches Err(BuildError::MissingDependency(_)) <==> !all_present(
                self.key_views(),
                self.checker_views(),
            ),
            r matches Err(BuildError::MissingDependency(info)) ==> exists|t: int|
                first_missing(self.key_views(), self.checker_views(), t) && info@ == describe_key(
                    self.checker_views()[t],
                ),
            r matches Err(BuildError::CyclicDependency(_)) <==> all_present(
                self.key_views(),
                self.checker_views(),
            ) && !acyclic(self.key_views(), self.dependency_views()),
            r matches Err(BuildError::CyclicDependency(s)) ==> exists|i: int, c: Set<int>|
                0 <= i < self.key_views().len() && c.contains(i) && cyclic_set(
                    self.key_views(),
                    self.dependency_views(),
                    c,
                ) && s@ == describe_key(self.key_views()[i]),
            r is Ok <==> all_present(self.key_views(), self.checker_views()) && acyclic(
                self.key_views(),
                self.dependency_views(),
            ),
            r matches Ok(p) ==> {
                &&& p.wf()
                &&& stably_sorted(self.key_views(), p.key_views(), p.origin())
                &&& forall|a: int, b: int|
                    0 <= a < b < p.key_views().len() ==> rank_le(
                        rank_of(self.key_views(), #[trigger] p.key_views()[a]),
                        rank_of(self.key_views(), #[trigger] p.key_views()[b]),
                    )
                &&& forall|a: int, b: int, c: int|
                    #![trigger p.key_views()[a], p.key_views()[b], p.key_views()[c]]
                    0 <= a < b < c < p.key_views().len() && p.key_views()[a] == p.key_views()[c]
                        ==> p.key_views()[b] == p.key_views()[a]
                &&& forall|t: int|
                    0 <= t < p.origin().len() ==> p.dependency_views()[t]
                        == self.dependency_views()[#[trigger] p.origin()[t]] && p.factories()[t]
                        == self.factories()[p.origin()[t]]
            },
    {
        let ghost kv = self.key_views();
        let ghost cv = self.checker_views();
        let mut t: usize = 0;
        while t < self.checkers.len()
            invariant
                self.wf(),
                kv == self.key_views(),
                cv == self.checker_views(),
                t <= cv.len(),
                forall|u: int| 0 <= u < t ==> has_key(kv, #[trigger] cv[u]),
            decreases self.checkers.len() - t,
        {
            let k = &self.checkers[t];
            proof {
                lemma_has_key_positions(kv, k@);
            }
            if find_last(&self.keys, k, 0).is_none() {
                let info = MissingDependencyInfos { missing: k.describe() };
                assert(first_missing(kv, cv, t as int));
                return Err(BuildError::MissingDependency(info));
            }
            t = t + 1;
        }
        proof {
            let dv = self.dependency_views();
            assert forall|i: int, u: int|
                0 <= i < dv.len() && 0 <= u < dv[i].len() && (#[trigger] dv[i][u]).0 implies has_key(
                kv,
                dv[i][u].1,
            ) by {
                let w = choose|w: int| 0 <= w < cv.len() && cv[w] == dv[i][u].1;
                assert(has_key(kv, cv[w]));
            }
        }
        let n = self.keys.len();
        let ghost cd = self.dependency_views();
        let ghost cf = self.factories();
        let ServiceCollection { keys, deps, factories, checkers } = self;
        let ranks = ranks_of(&keys);
        let order = stable_order(&ranks);
        let ghost origin = order@.map_values(|o: usize| o as int);
        let skeys = arrange_keys(&keys, &order);
        let sdeps = arrange_deps(&deps, &order);
        let sranks = arrange_ranks(&ranks, &order);
        let (services, service_ranks) = service_table(&keys, &ranks);
        proof {
            assert forall|a: int, b: int| 0 <= a < b < order@.len() implies order@[a] != order@[b] by {
                assert(entry_lt(ranks@, order@[a] as int, order@[b] as int));
            }
        }
        let sfactories = arrange_producers(into_slots(factories), &order);
        let ghost skv = keys_view(skeys@);
        let ghost sdv = dependency_lists_view(sdeps@);
        let ghost sf = sfactories@;
        proof {
            assert forall|t: int| 0 <= t < origin.len() implies 0 <= #[trigger] origin[t] < kv.len()
                && skv[t] == kv[origin[t]] && sdv[t] == cd[origin[t]] by {}
            assert forall|i: int| 0 <= i < kv.len() implies #[trigger] listed(origin, i) by {
                assert(order@.contains(i as usize));
                let t = choose|t: int| 0 <= t < order@.len() && order@[t] == i as usize;
                assert(origin[t] == i);
            }
            lemma_acyclic_reordered(kv, cd, skv, sdv, origin);
            assert forall|a: int, b: int|
                0 <= a < b < skv.len() && skv[a] == skv[b] implies #[trigger] origin[a]
                < #[trigger] origin[b] by {
                assert(entry_lt(ranks@, order@[a] as int, order@[b] as int));
                assert(ranks@[order@[a] as int] == rank_of(kv, kv[origin[a]]));
                assert(ranks@[order@[b] as int] == rank_of(kv, kv[origin[b]]));
            }
            assert(stably_sorted(kv, skv, origin));
            assert forall|a: int, b: int| 0 <= a < b < skv.len() implies rank_le(
                rank_of(kv, #[trigger] skv[a]),
                rank_of(kv, #[trigger] skv[b]),
            ) by {
                assert(entry_lt(ranks@, order@[a] as int, order@[b] as int));
                assert(ranks@[order@[a] as int] == rank_of(kv, kv[origin[a]]));
                assert(ranks@[order@[b] as int] == rank_of(kv, kv[origin[b]]));
            }
            assert forall|a: int, b: int, c: int|
                #![trigger skv[a], skv[b], skv[c]]
                0 <= a < b < c < skv.len() && skv[a] == skv[c] implies skv[b] == skv[a] by {
                let ra = rank_of(kv, skv[a]);
                let rb = rank_of(kv, skv[b]);
                assert(rank_le(ra, rb));
                assert(rank_le(rb, rank_of(kv, skv[c])));
                assert(ra == rb);
                assert(skv[a] == kv[origin[a]] && skv[b] == kv[origin[b]]);
                assert(n == kv.len());
                lemma_rank_of_injective(kv, origin[a], origin[b]);
            }
            lemma_sorted_rank_table(kv, ranks@, order@, skv, sranks@, services@.map_values(|s: String| s@), service_ranks@);
            assert forall|i: int, u: int|
                0 <= i < sdv.len() && 0 <= u < sdv[i].len() && (#[trigger] sdv[i][u]).0 implies has_key(
                skv,
                sdv[i][u].1,
            ) by {
                assert(sdv[i][u] == cd[origin[i]][u]);
                let w = choose|w: int| 0 <= w < kv.len() && kv[w] == sdv[i][u].1;
                assert(listed(origin, w));
                let t = choose|t: int| 0 <= t < origin.len() && origin[t] == w;
                assert(skv[t] == kv[w]);
            }
            assert forall|i: int| 0 <= i < n implies (#[trigger] sfactories@[i]).factory.ready() by {
                assert(sfactories@[i] == cf[origin[i]]);
            }
        }
        match compute_levels(&skeys, &sdeps) {
            Err(i) => {
                let s = skeys[i].describe();
                assert(skv[i as int] == kv[origin[i as int]]);
                proof {
                    lemma_cyclic_reordered(kv, cd, skv, sdv, origin, i as int);
                    let c2 = choose|c2: Set<int>| c2.contains(origin[i as int]) && cyclic_set(kv, cd, c2);
                    assert(0 <= origin[i as int] < kv.len() && c2.contains(origin[i as int])
                        && cyclic_set(kv, cd, c2) && s@ == describe_key(kv[origin[i as int]]));
                }
                Err(BuildError::CyclicDependency(s))
            },
            Ok(levels) => {
                let mut cells: Vec<Cache<V>> = Vec::new();
                let mut t: usize = 0;
                while t < n
                    invariant
                        cells@.len() == t,
                        t <= n,
                        forall|i: int, v: V|
                            #![trigger (cells@[i].holds())(v)]
                            0 <= i < t ==> (cells@[i].holds())(v) == made_in(skv, sdv, sf, i, v),
                    decreases n - t,
                {
                    let ghost ti = t as int;
                    cells.push(Cache::new(Ghost(|v: V| made_in(skv, sdv, sf, ti, v))));
                    t = t + 1;
                }
                Ok(
                    ServiceProvider::assemble(
                        skeys,
                        sdeps,
                        sfactories,
                        cells,
                        levels,
                        sranks,
                        services,
                        service_ranks,
                        Ghost(origin),
                    ),
                )
            },
        }
    }
}

/// The producers as slots that can be emptied one at a time.
fn into_slots<V>(factories: Vec<Producer<V>>) -> (r: Vec<Option<Producer<V>>>)
    ensures
        r@.len() == factories@.len(),
        forall|u: int| 0 <= u < r@.len() ==> #[trigger] r@[u] == Some(factories@[u]),
{
    let ghost orig = factories@;
    let mut rest = factories;
    let mut r: Vec<Option<Producer<V>>> = Vec::new();
    while rest.len() > 0
        invariant
            r@.len() + rest@.len() == orig.len(),
            rest@ == orig.subrange(r@.len() as int, orig.len() as int),
            forall|u: int| 0 <= u < r@.len() ==> #[trigger] r@[u] == Some(orig[u]),
        decreases rest@.len(),
    {
        let f = rest.remove(0);
        r.push(Some(f));
    }
    r
}

/// Takes the producers out of `slots` in the order `order` gives.
fn arrange_producers<V>(slots: Vec<Option<Producer<V>>>, order: &Vec<usize>) -> (r: Vec<Producer<V>>)
    requires
        order@.len() == slots@.len(),
        forall|t: int| 0 <= t < order@.len() ==> #[trigger] order@[t] < slots@.len(),
        forall|a: int, b: int| 0 <= a < b < order@.len() ==> order@[a] != order@[b],
        forall|u: int| 0 <= u < slots@.len() ==> (#[trigger] slots@[u]) is Some,
    ensures
        r@.len() == order@.len(),
        forall|t: int| 0 <= t < r@.len() ==> #[trigger] r@[t] == slots@[order@[t] as int]->0,
{
    let ghost init = slots@;
    let mut slots = slots;
    let mut r: Vec<Producer<V>> = Vec::new();
    let mut t: usize = 0;
    while t < order.len()
        invariant
            slots@.len() == init.len(),
            order@.len() == init.len(),
            forall|u: int| 0 <= u < order@.len() ==> #[trigger] order@[u] < init.len(),
            forall|a: int, b: int| 0 <= a < b < order@.len() ==> order@[a] != order@[b],
            forall|u: int| 0 <= u < init.len() ==> (#[trigger] init[u]) is Some,
            t <= order@.len(),
            r@.len() == t,
            forall|u: int| 0 <= u < t ==> #[trigger] r@[u] == init[order@[u] as int]->0,
            forall|o: int|
                0 <= o < init.len() && (forall|u: int| 0 <= u < t ==> order@[u] != o)
                    ==> #[trigger] slots@[o] == init[o],
        decreases order.len() - t,
    {
        let o = order[t];
        let ghost before = slots@;
        assert(forall|u: int| 0 <= u < t ==> order@[u] != o);
        let slot = slots.remove(o);
        slots.insert(o, None);
        assert(slots@ =~= before.update(o as int, None));
        match slot {
            Some(p) => {
                r.push(p);
            },
            None => {
                assert(init[o as int] is Some);
            },
        }
        t = t + 1;
    }
    r
}

/// `keys` in the order `order` gives.
fn arrange_keys(keys: &Vec<ServiceKey>, order: &Vec<usize>) -> (r: Vec<ServiceKey>)
    requires
        forall|t: int| 0 <= t < order@.len() ==> #[trigger] order@[t] < keys@.len(),
    ensures
        r@.len() == order@.len(),
        forall|t: int|
            0 <= t < r@.len() ==> #[trigger] keys_view(r@)[t] == keys_view(keys@)[order@[t] as int],
{
    let mut r: Vec<ServiceKey> = Vec::new();
    let mut t: usize = 0;
    while t < order.len()
        invariant
            forall|u: int| 0 <= u < order@.len() ==> #[trigger] order@[u] < keys@.len(),
            t <= order@.len(),
            r@.len() == t,
            forall|u: int| 0 <= u < t ==> (#[trigger] r@[u])@ == keys@[order@[u] as int]@,
        decreases order.len() - t,
    {
        r.push(keys[order[t]].duplicate());
        t = t + 1;
    }
    r
}

/// `deps` in the order `order` gives.
fn arrange_deps(deps: &Vec<Vec<Dependency>>, order: &Vec<usize>) -> (r: Vec<Vec<Dependency>>)
    requires
        forall|t: int| 0 <= t < order@.len() ==> #[trigger] order@[t] < deps@.len(),
    ensures
        r@.len() == order@.len(),
        forall|t: int|
            0 <= t < r@.len() ==> #[trigger] dependency_lists_view(r@)[t] == dependency_lists_view(
                deps@,
            )[order@[t] as int],
{
    let mut r: Vec<Vec<Dependency>> = Vec::new();
    let mut t: usize = 0;
    while t < order.len()
        invariant
            forall|u: int| 0 <= u < order@.len() ==> #[trigger] order@[u] < deps@.len(),
            t <= order@.len(),
            r@.len() == t,
            forall|u: int|
                0 <= u < t ==> (#[trigger] r@[u])@.map_values(|d: Dependency| d@) == deps@[order@[u] as int]@.map_values(
                    |d: Dependency| d@,
                ),
        decreases order.len() - t,
    {
        r.push(duplicate_all(&deps[order[t]]));
        t = t + 1;
    }
    r
}

/// `ranks` in the order `order` gives.
fn arrange_ranks(ranks: &Vec<Rank>, order: &Vec<usize>) -> (r: Vec<Rank>)
    requires
        forall|t: int| 0 <= t < order@.len() ==> #[trigger] order@[t] < ranks@.len(),
    ensures
        r@.len() == order@.len(),
        forall|t: int| 0 <= t < r@.len() ==> #[trigger] r@[t] == ranks@[order@[t] as int],
{
    let mut r: Vec<Rank> = Vec::new();
    let mut t: usize = 0;
    while t < order.len()
        invariant
            forall|u: int| 0 <= u < order@.len() ==> #[trigger] order@[u] < ranks@.len(),
            t <= order@.len(),
            r@.len() == t,
            forall|u: int| 0 <= u < t ==> #[trigger] r@[u] == ranks@[order@[u] as int],
        decreases order.len() - t,
    {
        r.push(ranks[order[t]]);
        t = t + 1;
    }
    r
}

/// Each service name once, with the position of its first registration.
fn service_table(keys: &Vec<ServiceKey>, ranks: &Vec<Rank>) -> (r: (Vec<String>, Vec<usize>))
    requires
        ranks@.len() == keys@.len(),
    ensures
        r.0@.len() == r.1@.len(),
        forall|m: int|
            0 <= m < r.1@.len() ==> {
                let i = #[trigger] r.1@[m] as int;
                &&& 0 <= i < keys@.len()
                &&& ranks@[i].0 == i
                &&& r.0@[m]@ == keys@[i].service@
            },
        forall|i: int|
            0 <= i < keys@.len() && ranks@[i].0 == i ==> exists|m: int|
                0 <= m < r.1@.len() && #[trigger] r.1@[m] == i,
{
    let mut names: Vec<String> = Vec::new();
    let mut firsts: Vec<usize> = Vec::new();
    let mut i: usize = 0;
    while i < keys.len()
        invariant
            ranks@.len() == keys@.len(),
            i <= keys@.len(),
            names@.len() == firsts@.len(),
            forall|m: int|
                0 <= m < firsts@.len() ==> {
                    let j = #[trigger] firsts@[m] as int;
                    &&& 0 <= j < i
                    &&& ranks@[j].0 == j
                    &&& names@[m]@ == keys@[j].service@
                },
            forall|j: int|
                0 <= j < i && ranks@[j].0 == j ==> exists|m: int|
                    0 <= m < firsts@.len() && #[trigger] firsts@[m] == j,
        decreases keys.len() - i,
    {
        if ranks[i].0 == i {
            let ghost before = firsts@;
            names.push(keys[i].service.clone());
            firsts.push(i);
            proof {
                assert(firsts@[firsts@.len() - 1] == i);
                assert forall|j: int|
                    0 <= j < i + 1 && ranks@[j].0 == j implies exists|m: int|
                        0 <= m < firsts@.len() && #[trigger] firsts@[m] == j by {
                    if j < i {
                        let m = choose|m: int| 0 <= m < before.len() && #[trigger] before[m] == j;
                        assert(firsts@[m] == before[m]);
                    } else {
                        assert(firsts@[firsts@.len() - 1] == j);
                    }
                }
            }
        }
        i = i + 1;
    }
    (names, firsts)
}

} // verus!
