use vstd::prelude::*;

use once_cell::sync::OnceCell;
use std::sync::Arc;

verus! {

/// Handle to a value shared by every resolution of one registration.
pub struct SharedServiceRef<V> {
    store: Arc<V>,
}

impl<V> View for SharedServiceRef<V> {
    type V = V;

    closed spec fn view(&self) -> V {
        *self.store
    }
}

impl<V> SharedServiceRef<V> {
    /// The shared value.
    pub fn value(&self) -> (r: &V)
        ensures
            *r == self@,
    {
        &*self.store
    }
}

/// What a resolution hands out.
pub enum Resolved<V> {
    /// A value produced for this resolution alone.
    Owned(V),
    /// A handle to the value cached by a shared registration.
    Shared(SharedServiceRef<V>),
    /// Every registration of a key, in registration order.
    Many(Vec<Resolved<V>>),
}

/// A stored factory. `produces` relates the resolved dependencies handed to
/// it to the values it may return.
pub trait Factory<V> {
    spec fn ready(&self) -> bool;

    spec fn produces(&self, args: Seq<Resolved<V>>, out: V) -> bool;

    fn create(&self, args: Vec<Resolved<V>>) -> (r: V)
        requires
            self.ready(),
        ensures
            self.produces(args@, r),
    ;
}

/// A stored factory behind one registration.
#[verifier::reject_recursive_types(V)]
pub struct Producer<V> {
    pub factory: Box<dyn Factory<V>>,
}

/// A factory that takes no dependencies.
pub struct Plain<F> {
    pub f: F,
}

impl<V, F: Fn() -> V> Factory<V> for Plain<F> {
    open spec fn ready(&self) -> bool {
        call_requires(self.f, ())
    }

    open spec fn produces(&self, args: Seq<Resolved<V>>, out: V) -> bool {
        call_ensures(self.f, (), out)
    }

    fn create(&self, args: Vec<Resolved<V>>) -> (r: V) {
        (self.f)()
    }
}

/// A factory that receives its resolved dependencies.
pub struct Dependent<F> {
    pub f: F,
}

impl<V, F: Fn(Vec<Resolved<V>>) -> V> Factory<V> for Dependent<F> {
    open spec fn ready(&self) -> bool {
        forall|a: Vec<Resolved<V>>| call_requires(self.f, (a,))
    }

    open spec fn produces(&self, args: Seq<Resolved<V>>, out: V) -> bool {
        exists|a: Vec<Resolved<V>>| a@ == args && call_ensures(self.f, (a,), out)
    }

    fn create(&self, args: Vec<Resolved<V>>) -> (r: V) {
        let ghost a = args;
        let r = (self.f)(args);
        assert(call_ensures(self.f, (a,), r));
        r
    }
}

/// Relies on once_cell::sync::OnceCell::new: a cell with nothing in it yet.
#[verifier::external_body]
pub(crate) fn empty_cell<T>() -> OnceCell<T> {
    OnceCell::new()
}

/// A one-shot cache cell. `holds` is a property that every value it may
/// ever hold has: the cell starts empty and is filled only by
/// `cache_insert`, which takes only such values.
#[verifier::reject_recursive_types(V)]
pub struct Cache<V> {
    cell: OnceCell<Arc<V>>,
    holds: Ghost<spec_fn(V) -> bool>,
}

impl<V> Cache<V> {
    pub closed spec fn holds(&self) -> spec_fn(V) -> bool {
        self.holds@
    }

    /// An empty cell whose values will all satisfy `holds`.
    pub(crate) fn new(holds: Ghost<spec_fn(V) -> bool>) -> (r: Cache<V>)
        ensures
            r.holds() == holds@,
    {
        Cache { cell: empty_cell(), holds }
    }
}

/// Relies on once_cell::sync::OnceCell::get: it returns a value only after an
/// initialisation has finished, and that value is what the initialiser
/// returned; every initialiser of the cell satisfies `holds`.
#[verifier::external_body]
pub(crate) fn cache_get<V>(c: &Cache<V>) -> (r: Option<&Arc<V>>)
    ensures
        r matches Some(a) ==> (c.holds())(**a),
{
    c.cell.get()
}

/// Relies on once_cell::sync::OnceCell::get_or_init with an initialiser
/// that only hands over `a`: the stored value, which is `a` if the cell was
/// empty and otherwise what an earlier insertion stored; it never re-enters
/// the cell.
#[verifier::external_body]
pub(crate) fn cache_insert<V>(c: &Cache<V>, a: Arc<V>) -> (r: &Arc<V>)
    requires
        (c.holds())(*a),
    ensures
        (c.holds())(**r),
{
    c.cell.get_or_init(move || a)
}

/// Relies on std's Arc::clone: another handle to the same allocation.
#[verifier::external_body]
pub(crate) fn share<V>(a: &Arc<V>) -> (r: Arc<V>)
    ensures
        *r == **a,
{
    Arc::clone(a)
}

/// A new handle to the value behind `a`.
pub(crate) fn shared_ref<V>(a: &Arc<V>) -> (r: SharedServiceRef<V>)
    ensures
        r@ == **a,
{
    SharedServiceRef { store: share(a) }
}

/// once_cell's thread-safe one-shot cell, carried as an opaque value.
#[verifier::external_type_specification]
#[verifier::external_body]
#[verifier::reject_recursive_types(T)]
pub struct ExOnceCell<T>(OnceCell<T>);

/// Stores a factory without dependencies.
pub(crate) fn plain_producer<V: 'static, F: Fn() -> V + 'static>(creator: F) -> (r: Producer<V>)
    requires
        call_requires(creator, ()),
    ensures
        r.factory.ready(),
        forall|args: Seq<Resolved<V>>, v: V| r.factory.produces(args, v) <==> call_ensures(creator, (), v),
{
    Producer { factory: Box::new(Plain { f: creator }) }
}

/// Stores a factory that receives its resolved dependencies.
pub(crate) fn dependent_producer<V: 'static, F: Fn(Vec<Resolved<V>>) -> V + 'static>(
    creator: F,
) -> (r: Producer<V>)
    requires
        forall|a: Vec<Resolved<V>>| call_requires(creator, (a,)),
    ensures
        r.factory.ready(),
        forall|args: Seq<Resolved<V>>, v: V|
            r.factory.produces(args, v) <==> exists|a: Vec<Resolved<V>>|
                a@ == args && call_ensures(creator, (a,), v),
{
    Producer { factory: Box::new(Dependent { f: creator }) }
}

} // verus!
