use std::cell::{Cell, RefCell};
use std::rc::Rc;

use ioc_rs::{
    BuildError, Dependency, Resolvable, Resolved, ServiceCollection, ServiceProvider, Shared,
    SharedServices, Singleton, SingletonServices, Transient, TransientServices,
};

fn owned<V>(r: Option<Resolved<V>>) -> Option<V> {
    match r {
        Some(Resolved::Owned(v)) => Some(v),
        Some(_) => panic!("Expected an owned value"),
        None => None,
    }
}

fn shared_value<V: Copy>(r: Option<Resolved<V>>) -> Option<V> {
    match r {
        Some(Resolved::Shared(h)) => Some(*h.value()),
        Some(_) => panic!("Expected a shared value"),
        None => None,
    }
}

fn owned_item<V>(r: Resolved<V>) -> V {
    match r {
        Resolved::Owned(v) => v,
        _ => panic!("Expected an owned value"),
    }
}

fn shared_item<V: Copy>(r: Resolved<V>) -> V {
    match r {
        Resolved::Shared(h) => *h.value(),
        _ => panic!("Expected a shared value"),
    }
}

#[test]
fn resolve_last_transient() {
    let mut col = ServiceCollection::new();
    col.register_transient("i32", || 0);
    col.register_transient("i32", || 5);
    col.register_transient("i32", || 1);
    col.register_transient("i32", || 2);
    let provider = col.build().expect("Expected to have all dependencies");
    let nr = owned(provider.get(&Transient::of("i32"))).unwrap();
    assert_eq!(2, nr);
}

#[test]
fn resolve_shared() {
    let mut col: ServiceCollection<RefCell<i32>> = ServiceCollection::new();
    col.register_shared("RefCell<i32>", || RefCell::new(1));
    col.with(()).register_shared("RefCell<i32>", |_| RefCell::new(2));

    let prov = col.build().expect("Should have all Dependencies");
    let second = match prov.get(&Shared::of("RefCell<i32>")).expect("Expecte to get second") {
        Resolved::Shared(h) => h,
        _ => panic!("Expected a shared value"),
    };
    assert_eq!(2, *second.value().borrow());
    second.value().replace(42);

    let mut all = prov.get_all(&Shared::of("RefCell<i32>"));
    let mut sum = 0;
    while let Some(item) = all.next() {
        match item {
            Resolved::Shared(h) => sum += *h.value().borrow(),
            _ => panic!("Expected a shared value"),
        }
    }
    assert_eq!(sum, 1 + 42);
}

fn check(mut col: ServiceCollection<i32>, missing_msg_parts: &[&str]) {
    col.register_transient("i32", || 1);
    match col.build() {
        Ok(_) => panic!("Build with missing dependency should fail"),
        Err(e) => match e {
            BuildError::MissingDependency(msg) => {
                for part in missing_msg_parts {
                    assert!(
                        msg.missing().contains(part),
                        "Expected '{}' to contain '{}'",
                        msg.missing(),
                        part
                    );
                }
            },
            _ => panic!("Unexpected Error"),
        },
    }
}

fn build_with_missing_dependency_fails<R: Resolvable>(deps: fn() -> R, missing_msg_parts: &[&str]) {
    let mut col = ServiceCollection::new();
    col.with(deps()).register_transient("()", |_| 0);
    check(col, missing_msg_parts);

    let mut col = ServiceCollection::new();
    col.with(deps()).register_singleton("()", |_| 0);
    check(col, missing_msg_parts);
}

#[test]
fn build_with_missing_transient_dep_fails() {
    build_with_missing_dependency_fails(|| Transient::of("String"), &["Transient", "String"]);
}

#[test]
fn build_with_missing_singleton_dep_fails() {
    build_with_missing_dependency_fails(|| Singleton::of("String"), &["Singleton", "String"]);
}

#[test]
fn build_with_missing_tuple2_dep_fails() {
    build_with_missing_dependency_fails(
        || (Transient::of("String"), Transient::of("i32")),
        &["Transient", "String"],
    );
}

#[test]
fn build_with_missing_tuple3_dep_fails() {
    build_with_missing_dependency_fails(
        || (Transient::of("String"), Transient::of("i32"), Transient::of("i32")),
        &["Transient", "String"],
    );
}

#[test]
fn build_with_missing_tuple4_dep_fails() {
    build_with_missing_dependency_fails(
        || (Transient::of("i32"), Transient::of("String"), Transient::of("i32"), Transient::of("i32")),
        &["Transient", "String"],
    );
}

#[test]
fn resolve_last_singleton() {
    let mut container = ServiceCollection::new();
    container.register_singleton("i32", || 0);
    container.register_singleton("i32", || 1);
    container.register_singleton("i32", || 2);
    let provider = container.build().expect("Expected to have all dependencies");
    let nr_ref = shared_value(provider.get(&Singleton::of("i32"))).unwrap();
    assert_eq!(2, nr_ref);
}

#[test]
fn resolve_transient_services() {
    let mut container = ServiceCollection::new();
    container.register_transient("i32", || 0);
    container.register_transient("i32", || 5);
    container.register_transient("i32", || 2);
    let provider = container.build().expect("Expected to have all dependencies");
    let key = Transient::of("i32");

    // Count
    let mut count_subset = provider.get_all(&key);
    count_subset.next();
    assert_eq!(2, count_subset.count());
    assert_eq!(3, provider.get_all(&key).count());

    // Last
    assert_eq!(2, owned_item(provider.get_all(&key).last().unwrap()));

    let mut sub = provider.get_all(&key);
    sub.next();
    assert_eq!(Some(2), sub.last().map(owned_item));

    let mut consumed = provider.get_all(&key);
    while consumed.next().is_some() {}
    assert!(consumed.last().is_none());

    let mut iter = provider.get_all(&key);
    assert_eq!(Some(0), iter.next().map(owned_item));
    assert_eq!(Some(5), iter.next().map(owned_item));
    assert_eq!(Some(2), iter.next().map(owned_item));
    assert!(iter.next().is_none());
}

#[test]
fn resolve_singleton_services() {
    let mut container = ServiceCollection::new();
    container.register_singleton("i32", || 0);
    container.register_singleton("i32", || 5);
    container.register_singleton("i32", || 2);
    let provider = container.build().expect("Expected to have all dependencies");
    let key = Singleton::of("i32");

    // Count
    let mut count_subset = provider.get_all(&key);
    count_subset.next();
    assert_eq!(2, count_subset.count());
    assert_eq!(3, provider.get_all(&key).count());

    // Last
    assert_eq!(2, shared_item(provider.get_all(&key).last().unwrap()));

    let mut sub = provider.get_all(&key);
    sub.next();
    assert_eq!(Some(2), sub.last().map(shared_item));

    let mut consumed = provider.get_all(&key);
    while consumed.next().is_some() {}
    assert!(consumed.last().is_none());

    let mut iter = provider.get_all(&key);
    assert_eq!(Some(0), iter.next().map(shared_item));
    assert_eq!(Some(5), iter.next().map(shared_item));
    assert_eq!(Some(2), iter.next().map(shared_item));
    assert!(iter.next().is_none());
}

#[test]
fn resolve_test() {
    let mut container = ServiceCollection::new();
    container.register_transient("i32", || 42);
    container.register_singleton("i32", || 42);
    let provider = container.build().expect("Expected to have all dependencies");
    assert_eq!(
        owned(provider.get(&Transient::of("i32"))).unwrap(),
        shared_value(provider.get(&Singleton::of("i32"))).unwrap()
    );
}

#[test]
fn get_registered_dynamic_id() {
    let mut container = ServiceCollection::new();
    container.register_transient("i32", || 42);
    assert_eq!(
        Some(42i32),
        owned(
            container
                .build()
                .expect("Expected to have all dependencies")
                .get(&Transient::of("i32"))
        )
    );
}

#[test]
fn get_registered_dynamic_ref() {
    let mut container = ServiceCollection::new();
    container.register_singleton("i32", || 42);
    assert_eq!(
        Some(42i32),
        shared_value(
            container
                .build()
                .expect("Expected to have all dependencies")
                .get(&Singleton::of("i32"))
        )
    );
}

#[derive(Clone, Copy, Debug, PartialEq)]
enum Num {
    I32(i32),
    I64(i64),
}

#[test]
fn tuple_dependency_resolves_to_prechecked_type() {
    let mut container = ServiceCollection::new();
    container.register_transient("i64", || Num::I64(64));
    container
        .with((Transient::of("i64"), Transient::of("i64")))
        .register_singleton("i32", |deps| {
            assert_eq!(2, deps.len());
            for d in deps {
                assert_eq!(Num::I64(64), owned_item(d));
            }
            Num::I32(42)
        });
    assert_eq!(
        Some(Num::I32(42)),
        shared_value(
            container
                .build()
                .expect("Expected to have all dependencies")
                .get(&Singleton::of("i32"))
        )
    );
}

#[test]
fn get_unkown_returns_none() {
    let container: ServiceCollection<i32> = ServiceCollection::new();
    assert!(container
        .build()
        .expect("Expected to have all dependencies")
        .get(&Transient::of("i32"))
        .is_none());
}

#[test]
fn resolve_tuple_2() {
    let mut container = ServiceCollection::new();
    container.register_transient("i32", || Num::I32(32));
    container.register_singleton("i64", || Num::I64(64));
    let provider = container.build().expect("Expected to have all dependencies");
    let mut both = provider.get_many(&vec![Transient::of("i32"), Singleton::of("i64")]).into_iter();
    let first = owned(both.next().unwrap());
    let second = shared_value(both.next().unwrap());
    assert_eq!((Some(Num::I32(32)), Some(Num::I64(64))), (first, second));
}

trait Service {
    fn get_value(&self) -> i32;
}

struct ServiceImpl(i32);

impl Service for ServiceImpl {
    fn get_value(&self) -> i32 {
        self.0
    }
}

enum Component {
    Int(i32),
    Impl(Rc<ServiceImpl>),
    Dynamic(Rc<dyn Service>),
}

#[test]
fn register_struct_as_dynamic() {
    let mut container = ServiceCollection::new();
    container.register_singleton("i32", || Component::Int(42));
    container.with(Singleton::of("i32")).register_singleton("ServiceImpl", |deps| {
        match &deps[0] {
            Resolved::Shared(h) => match h.value() {
                Component::Int(i) => Component::Impl(Rc::new(ServiceImpl(*i))),
                _ => panic!("Expected an integer"),
            },
            _ => panic!("Expected a shared value"),
        }
    });
    container.with(Singleton::of("ServiceImpl")).register_transient("dyn Service", |deps| {
        match &deps[0] {
            Resolved::Shared(h) => match h.value() {
                Component::Impl(s) => Component::Dynamic(s.clone()),
                _ => panic!("Expected a service"),
            },
            _ => panic!("Expected a shared value"),
        }
    });
    let provider = container.build().expect("Expected to have all dependencies");
    let service = match owned(provider.get(&Transient::of("dyn Service"))).expect("Expected to get a service") {
        Component::Dynamic(s) => s,
        _ => panic!("Expected a service"),
    };

    assert_eq!(42, service.get_value());
}

struct Test(Rc<Cell<u8>>);

impl Drop for Test {
    fn drop(&mut self) {
        self.0.set(self.0.get() + 1);
    }
}

#[test]
fn drop_singletons_after_provider_drop() {
    let drop_count = Rc::new(Cell::new(0u8));

    let mut col = ServiceCollection::new();
    let counter = drop_count.clone();
    col.register_singleton("Test", move || Test(counter.clone()));
    let prov = col.build().unwrap();
    drop(prov);
    assert_eq!(0, drop_count.get());

    let mut col = ServiceCollection::new();
    let counter = drop_count.clone();
    col.register_singleton("Test", move || Test(counter.clone()));
    let prov = col.build().expect("Expected to have all dependencies");
    prov.get(&Singleton::of("Test")).expect("Expected to receive the service");
    drop(prov);
    assert_eq!(1, drop_count.get());
}

#[test]
fn transient_services_scenario_one_five_two() {
    let mut col = ServiceCollection::new();
    col.register_transient("i32", || 1);
    col.register_transient("i32", || 5);
    col.register_transient("i32", || 2);
    let provider = col.build().expect("Expected to have all dependencies");
    let key = Transient::of("i32");
    assert_eq!(3, provider.get_all(&key).count());
    assert_eq!(Some(2), provider.get_all(&key).last().map(owned_item));
    let mut iter = provider.get_all(&key);
    let mut seen = Vec::new();
    while let Some(v) = iter.next() {
        seen.push(owned_item(v));
    }
    assert_eq!(vec![1, 5, 2], seen);
    assert!(iter.next().is_none());
}

#[test]
fn count_and_last_repeat_without_next() {
    let mut col = ServiceCollection::new();
    col.register_transient("i32", || 7);
    col.register_transient("i32", || 8);
    let provider = col.build().unwrap();
    let mut iter = provider.get_all(&Transient::of("i32"));
    assert_eq!(2, iter.count());
    assert_eq!(2, iter.count());
    iter.next();
    assert_eq!(Some(8), iter.last().map(owned_item));
    assert_eq!(Some(8), iter.last().map(owned_item));
    assert_eq!(1, iter.count());
}

#[test]
fn services_of_unregistered_key_are_empty() {
    let col: ServiceCollection<i32> = ServiceCollection::new();
    let provider = col.build().unwrap();
    let mut iter = provider.get_all(&Transient::of("i32"));
    assert_eq!(0, iter.count());
    assert!(iter.last().is_none());
    assert!(iter.next().is_none());
}

#[test]
fn shared_factory_runs_once_and_handles_agree() {
    let calls = Rc::new(Cell::new(0u8));
    let mut col = ServiceCollection::new();
    let c = calls.clone();
    col.register_shared("i32", move || {
        c.set(c.get() + 1);
        10
    });
    let provider = col.build().unwrap();
    let a = match provider.get(&Shared::of("i32")).unwrap() {
        Resolved::Shared(h) => h,
        _ => panic!("Expected a shared value"),
    };
    let b = match provider.get(&Shared::of("i32")).unwrap() {
        Resolved::Shared(h) => h,
        _ => panic!("Expected a shared value"),
    };
    assert!(std::ptr::eq(a.value(), b.value()));
    assert_eq!(10, *a.value());
    assert_eq!(1, calls.get());
}

#[test]
fn transient_factory_runs_per_resolution() {
    let calls = Rc::new(Cell::new(0i32));
    let mut col = ServiceCollection::new();
    let c = calls.clone();
    col.register_transient("i32", move || {
        c.set(c.get() + 1);
        c.get()
    });
    let provider = col.build().unwrap();
    assert_eq!(Some(1), owned(provider.get(&Transient::of("i32"))));
    assert_eq!(Some(2), owned(provider.get(&Transient::of("i32"))));
}

#[test]
fn dependency_receives_last_registered_values() {
    let mut col = ServiceCollection::new();
    col.register_transient("a", || 1);
    col.register_transient("a", || 3);
    col.register_shared("b", || 10);
    col.register_shared("b", || 20);
    col.with((Transient::of("a"), Shared::of("b"))).register_transient("sum", |deps| {
        owned_item_ref(&deps[0]) + shared_item_ref(&deps[1])
    });
    let provider = col.build().unwrap();
    let a = owned(provider.get(&Transient::of("a"))).unwrap();
    let b = shared_value(provider.get(&Shared::of("b"))).unwrap();
    assert_eq!(Some(a + b), owned(provider.get(&Transient::of("sum"))));
    assert_eq!(Some(23), owned(provider.get(&Transient::of("sum"))));
}

fn owned_item_ref(r: &Resolved<i32>) -> i32 {
    match r {
        Resolved::Owned(v) => *v,
        _ => panic!("Expected an owned value"),
    }
}

fn shared_item_ref(r: &Resolved<i32>) -> i32 {
    match r {
        Resolved::Shared(h) => *h.value(),
        _ => panic!("Expected a shared value"),
    }
}

#[test]
fn all_services_dependency_needs_no_registration() {
    let mut col = ServiceCollection::new();
    col.with(TransientServices::of("i32")).register_transient("count", |deps| match &deps[0] {
        Resolved::Many(items) => items.len() as i32,
        _ => panic!("Expected every registration"),
    });
    let provider = col.build().expect("An empty list satisfies the dependency");
    assert_eq!(Some(0), owned(provider.get(&Transient::of("count"))));
}

#[test]
fn all_services_dependency_lists_in_order() {
    let mut col = ServiceCollection::new();
    col.register_singleton("i32", || 4);
    col.register_singleton("i32", || 6);
    col.with((SingletonServices::of("i32"), SharedServices::of("i32"))).register_transient(
        "list",
        |deps| match (&deps[0], &deps[1]) {
            (Resolved::Many(items), Resolved::Many(none)) => {
                assert!(none.is_empty());
                items.iter().map(shared_item_ref).fold(0, |acc, v| acc * 10 + v)
            },
            _ => panic!("Expected every registration"),
        },
    );
    let provider = col.build().unwrap();
    assert_eq!(Some(46), owned(provider.get(&Transient::of("list"))));
}

#[test]
fn cyclic_dependency_is_rejected() {
    let mut col = ServiceCollection::new();
    col.with(Transient::of("b")).register_transient("a", |_| 1);
    col.with(Transient::of("a")).register_transient("b", |_| 2);
    match col.build() {
        Err(BuildError::CyclicDependency(key)) => {
            assert!(key == "Transient<a>" || key == "Transient<b>", "unexpected key {}", key)
        },
        _ => panic!("Expected a cyclic dependency"),
    }
}

#[test]
fn self_dependency_is_rejected() {
    let mut col = ServiceCollection::new();
    col.register_transient("a", || 1);
    col.with(Transient::of("a")).register_transient("a", |_| 2);
    assert!(matches!(col.build(), Err(BuildError::CyclicDependency(_))));
}

#[test]
fn first_missing_dependency_is_reported() {
    let mut col: ServiceCollection<i32> = ServiceCollection::new();
    col.with((Shared::of("x"), Transient::of("y"))).register_transient("z", |_| 0);
    match col.build() {
        Err(BuildError::MissingDependency(info)) => assert_eq!("Shared<x>", info.missing()),
        _ => panic!("Expected a missing dependency"),
    }
}

#[test]
fn dependency_order_does_not_depend_on_registration_order() {
    let mut col = ServiceCollection::new();
    col.with(Transient::of("base")).register_transient("top", |deps| owned_item_ref(&deps[0]) * 2);
    col.register_transient("base", || 21);
    let provider: ServiceProvider<i32> = col.build().unwrap();
    assert_eq!(Some(42), owned(provider.get(&Transient::of("top"))));
}

#[test]
fn lifetimes_are_separate_keys() {
    let mut col = ServiceCollection::new();
    col.register_transient("i32", || 1);
    let provider = col.build().unwrap();
    assert!(provider.get(&Shared::of("i32")).is_none());
    assert!(provider.get(&Singleton::of("i32")).is_none());
    let d = TransientServices::of("i32");
    assert!(matches!(d, Dependency::All(_)));
}

#[test]
fn interleaved_registrations_keep_their_order_per_key() {
    let mut col = ServiceCollection::new();
    col.register_transient("b", || 10);
    col.register_shared("a", || 100);
    col.register_transient("a", || 1);
    col.register_transient("b", || 20);
    col.register_transient("a", || 2);
    col.register_transient("b", || 30);
    col.register_transient("a", || 3);
    let provider = col.build().unwrap();

    let mut a = provider.get_all(&Transient::of("a"));
    assert_eq!(3, a.count());
    let mut seen = Vec::new();
    while let Some(v) = a.next() {
        seen.push(owned_item(v));
    }
    assert_eq!(vec![1, 2, 3], seen);

    let mut b = provider.get_all(&Transient::of("b"));
    b.next();
    assert_eq!(2, b.count());
    assert_eq!(Some(30), b.last().map(owned_item));
    assert_eq!(Some(20), b.next().map(owned_item));

    assert_eq!(Some(3), owned(provider.get(&Transient::of("a"))));
    assert_eq!(Some(30), owned(provider.get(&Transient::of("b"))));
    assert_eq!(Some(100), shared_value(provider.get(&Shared::of("a"))));
    assert_eq!(1, provider.get_all(&Shared::of("a")).count());
    assert_eq!(0, provider.get_all(&Singleton::of("a")).count());
}

#[test]
fn registering_with_dependencies_on_the_collection() {
    let mut col = ServiceCollection::new();
    col.register_transient("a", || 4);
    col.register_shared_with(Transient::of("a"), "b", |deps| owned_item_ref(&deps[0]) + 1);
    col.register_singleton_with((Shared::of("b"), Transient::of("a")), "c", |deps| {
        shared_item_ref(&deps[0]) * 10 + owned_item_ref(&deps[1])
    });
    col.register_transient_with(Singleton::of("c"), "d", |deps| shared_item_ref(&deps[0]) + 1000);
    let provider = col.build().unwrap();
    assert_eq!(Some(5), shared_value(provider.get(&Shared::of("b"))));
    assert_eq!(Some(54), shared_value(provider.get(&Singleton::of("c"))));
    assert_eq!(Some(1054), owned(provider.get(&Transient::of("d"))));
}

#[test]
fn missing_dependency_through_collection_method() {
    let mut col: ServiceCollection<i32> = ServiceCollection::new();
    col.register_transient_with(Transient::of("String"), "()", |_| 0);
    col.register_transient("i32", || 1);
    match col.build() {
        Err(BuildError::MissingDependency(info)) => assert_eq!("Transient<String>", info.missing()),
        _ => panic!("Expected a missing dependency"),
    }
}

#[test]
fn shared_dependencies_are_made_once() {
    let calls = Rc::new(Cell::new(0i32));
    let mut col = ServiceCollection::new();
    let c = calls.clone();
    col.register_transient("dep", move || {
        c.set(c.get() + 1);
        c.get()
    });
    col.register_shared_with(Transient::of("dep"), "s", |deps| owned_item_ref(&deps[0]) * 100);
    let provider = col.build().unwrap();
    assert_eq!(Some(100), shared_value(provider.get(&Shared::of("s"))));
    assert_eq!(Some(100), shared_value(provider.get(&Shared::of("s"))));
    assert_eq!(1, calls.get());
}
