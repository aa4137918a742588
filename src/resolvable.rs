use vstd::prelude::*;

use crate::key::{KeyView, Lifetime, ServiceKey};

verus! {

/// A declared dependency of a registration.
#[derive(Clone, Debug)]
pub enum Dependency {
    /// The last registration of the key; its presence is checked at build.
    One(ServiceKey),
    /// Every registration of the key, possibly none.
    All(ServiceKey),
}

/// A dependency as data: whether it is required, and its key.
pub type DependencyView = (bool, KeyView);

impl View for Dependency {
    type V = DependencyView;

    open spec fn view(&self) -> DependencyView {
        (self.is_required(), self.key_view())
    }
}

impl Dependency {
    pub open spec fn key_view(self) -> KeyView {
        match self {
            Dependency::One(k) => k@,
            Dependency::All(k) => k@,
        }
    }

    /// Whether `build` must find a registration of this dependency's key.
    pub open spec fn is_required(self) -> bool {
        self is One
    }

    pub fn key(&self) -> (r: &ServiceKey)
        ensures
            r@ == self.key_view(),
    {
        match self {
            Dependency::One(k) => k,
            Dependency::All(k) => k,
        }
    }

    pub fn duplicate(&self) -> (r: Dependency)
        ensures
            r@ == self@,
    {
        match self {
            Dependency::One(k) => Dependency::One(k.duplicate()),
            Dependency::All(k) => Dependency::All(k.duplicate()),
        }
    }
}

/// The dependency lists of a sequence of registrations.
pub open spec fn dependency_lists_view(d: Seq<Vec<Dependency>>) -> Seq<Seq<DependencyView>> {
    d.map_values(|v: Vec<Dependency>| v@.map_values(|x: Dependency| x@))
}

/// Anything that can be declared as the dependencies of a registration.
pub trait Resolvable {
    spec fn dependency_view(&self) -> Seq<DependencyView>;

    /// The dependencies, in the order their values reach the factory.
    fn dependencies(&self) -> (r: Vec<Dependency>)
        ensures
            r@.map_values(|d: Dependency| d@) == self.dependency_view(),
    ;
}

/// A query for every registration of one lifetime.
pub trait GenericServices {
    spec fn spec_lifetime() -> Lifetime;

    /// The lifetime whose registrations the query gathers.
    fn lifetime() -> (r: Lifetime)
        ensures
            r == Self::spec_lifetime(),
    ;
}

/// Query for the last registered transient `service`.
pub struct Transient;

/// Query for the last registered shared `service`.
pub struct Shared;

/// Query for the last registered singleton `service`.
pub struct Singleton;

/// Query for every transient registration of a service.
pub struct TransientServices;

/// Query for every shared registration of a service.
pub struct SharedServices;

/// Query for every singleton registration of a service.
pub struct SingletonServices;

impl Transient {
    pub fn of(service: &str) -> (r: ServiceKey)
        ensures
            r@ == (service@, Lifetime::Transient),
    {
        ServiceKey::new(service, Lifetime::Transient)
    }
}

impl Shared {
    pub fn of(service: &str) -> (r: ServiceKey)
        ensures
            r@ == (service@, Lifetime::Shared),
    {
        ServiceKey::new(service, Lifetime::Shared)
    }
}

impl Singleton {
    pub fn of(service: &str) -> (r: ServiceKey)
        ensures
            r@ == (service@, Lifetime::Singleton),
    {
        ServiceKey::new(service, Lifetime::Singleton)
    }
}

impl GenericServices for TransientServices {
    open spec fn spec_lifetime() -> Lifetime {
        Lifetime::Transient
    }

    fn lifetime() -> (r: Lifetime) {
        Lifetime::Transient
    }
}

impl TransientServices {
    pub fn of(service: &str) -> (r: Dependency)
        ensures
            r is All,
            r.key_view() == (service@, Lifetime::Transient),
    {
        Dependency::All(ServiceKey::new(service, Self::lifetime()))
    }
}

impl GenericServices for SharedServices {
    open spec fn spec_lifetime() -> Lifetime {
        Lifetime::Shared
    }

    fn lifetime() -> (r: Lifetime) {
        Lifetime::Shared
    }
}

impl SharedServices {
    pub fn of(service: &str) -> (r: Dependency)
        ensures
            r is All,
            r.key_view() == (service@, Lifetime::Shared),
    {
        Dependency::All(ServiceKey::new(service, Self::lifetime()))
    }
}

impl GenericServices for SingletonServices {
    open spec fn spec_lifetime() -> Lifetime {
        Lifetime::Singleton
    }

    fn lifetime() -> (r: Lifetime) {
        Lifetime::Singleton
    }
}

impl SingletonServices {
    pub fn of(service: &str) -> (r: Dependency)
        ensures
            r is All,
            r.key_view() == (service@, Lifetime::Singleton),
    {
        Dependency::All(ServiceKey::new(service, Self::lifetime()))
    }
}

impl Resolvable for ServiceKey {
    open spec fn dependency_view(&self) -> Seq<DependencyView> {
        seq![(true, self@)]
    }

    fn dependencies(&self) -> (r: Vec<Dependency>) {
        let r = vec![Dependency::One(self.duplicate())];
        assert(r@.map_values(|d: Dependency| d@) =~= self.dependency_view());
        r
    }
}

impl Resolvable for Dependency {
    open spec fn dependency_view(&self) -> Seq<DependencyView> {
        seq![self@]
    }

    fn dependencies(&self) -> (r: Vec<Dependency>) {
        let r = vec![self.duplicate()];
        assert(r@.map_values(|d: Dependency| d@) =~= self.dependency_view());
        r
    }
}

impl Resolvable for () {
    open spec fn dependency_view(&self) -> Seq<DependencyView> {
        Seq::empty()
    }

    fn dependencies(&self) -> (r: Vec<Dependency>) {
        let r = Vec::new();
        assert(r@.map_values(|d: Dependency| d@) =~= self.dependency_view());
        r
    }
}

impl<A: Resolvable, B: Resolvable> Resolvable for (A, B) {
    open spec fn dependency_view(&self) -> Seq<DependencyView> {
        self.0.dependency_view() + self.1.dependency_view()
    }

    fn dependencies(&self) -> (r: Vec<Dependency>) {
        let mut r = self.0.dependencies();
        let mut b = self.1.dependencies();
        r.append(&mut b);
        assert(r@.map_values(|d: Dependency| d@) =~= self.dependency_view());
        r
    }
}

impl<A: Resolvable, B: Resolvable, C: Resolvable> Resolvable for (A, B, C) {
    open spec fn dependency_view(&self) -> Seq<DependencyView> {
        self.0.dependency_view() + self.1.dependency_view() + self.2.dependency_view()
    }

    fn dependencies(&self) -> (r: Vec<Dependency>) {
        let mut r = self.0.dependencies();
        let mut b = self.1.dependencies();
        let mut c = self.2.dependencies();
        r.append(&mut b);
        r.append(&mut c);
        assert(r@.map_values(|d: Dependency| d@) =~= self.dependency_view());
        r
    }
}

impl<A: Resolvable, B: Resolvable, C: Resolvable, D: Resolvable> Resolvable for (A, B, C, D) {
    open spec fn dependency_view(&self) -> Seq<DependencyView> {
        self.0.dependency_view() + self.1.dependency_view() + self.2.dependency_view()
            + self.3.dependency_view()
    }

    fn dependencies(&self) -> (r: Vec<Dependency>) {
        let mut r = self.0.dependencies();
        let mut b = self.1.dependencies();
        let mut c = self.2.dependencies();
        let mut d = self.3.dependencies();
        r.append(&mut b);
        r.append(&mut c);
        r.append(&mut d);
        assert(r@.map_values(|x: Dependency| x@) =~= self.dependency_view());
        r
    }
}

} // verus!
