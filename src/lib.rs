//! A dependency-injection container: factories are registered in a
//! `ServiceCollection` under a (service, lifetime) key, `build` checks every
//! declared dependency and rejects cycles, and the resulting `ServiceProvider`
//! resolves keys to values on demand.
//!
//! A factory receives the resolved values of the keys it declared, never the
//! provider itself: a factory that could resolve anything at run time would
//! escape the dependency levels that make resolution terminate.
use vstd::prelude::*;

pub mod collection;
pub mod factory;
pub mod key;
pub mod laws;
pub mod levels;
pub mod lookup;
pub mod ordering;
pub mod provider;
pub mod resolvable;

pub use collection::{BuildError, MissingDependencyInfos, ServiceBuilder, ServiceCollection};
pub use factory::{Resolved, SharedServiceRef};
pub use key::{Lifetime, ServiceKey};
pub use provider::{ServiceIterator, ServiceProvider};
pub use resolvable::{
    Dependency, GenericServices, Resolvable, Shared, SharedServices, Singleton, SingletonServices, Transient,
    TransientServices,
};

verus! {

} // verus!
