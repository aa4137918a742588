use vstd::prelude::*;

verus! {

/// How long a produced service lives and who owns it.
#[derive(Clone, Copy, Debug, PartialEq, Eq, Structural)]
pub enum Lifetime {
    /// A fresh value for every resolution, owned by the caller.
    Transient,
    /// One value per provider, handed out as a shared handle.
    Shared,
    /// One value per provider, handed out as a shared handle; kept for
    /// registrations that were written against the singleton policy.
    Singleton,
}

/// The abstract identity of a registration: the service's name and its lifetime.
pub type KeyView = (Seq<char>, Lifetime);

/// Identity of a (service, lifetime) pair, the sole lookup key of the registry.
#[derive(Clone, Debug)]
pub struct ServiceKey {
    pub service: String,
    pub lifetime: Lifetime,
}

pub open spec fn lifetime_name(l: Lifetime) -> Seq<char> {
    match l {
        Lifetime::Transient => "Transient"@,
        Lifetime::Shared => "Shared"@,
        Lifetime::Singleton => "Singleton"@,
    }
}

/// Human-readable form of a key, such as `Transient<String>`.
pub open spec fn describe_key(k: KeyView) -> Seq<char> {
    lifetime_name(k.1) + "<"@ + k.0 + ">"@
}

/// The keys of a sequence of registrations.
pub open spec fn keys_view(keys: Seq<ServiceKey>) -> Seq<KeyView> {
    keys.map_values(|k: ServiceKey| k@)
}

impl View for ServiceKey {
    type V = KeyView;

    open spec fn view(&self) -> KeyView {
        (self.service@, self.lifetime)
    }
}

impl ServiceKey {
    pub fn new(service: &str, lifetime: Lifetime) -> (r: ServiceKey)
        ensures
            r@ == (service@, lifetime),
    {
        ServiceKey { service: service.to_string(), lifetime }
    }

    /// Whether two keys name the same registration slot.
    pub fn same(&self, other: &ServiceKey) -> (r: bool)
        ensures
            r == (self@ == other@),
    {
        self.service == other.service && self.lifetime == other.lifetime
    }

    pub fn duplicate(&self) -> (r: ServiceKey)
        ensures
            r@ == self@,
    {
        ServiceKey { service: self.service.clone(), lifetime: self.lifetime }
    }

    /// Renders the key as `Lifetime<service>`.
    pub fn describe(&self) -> (r: String)
        ensures
            r@ == describe_key(self@),
    {
        let mut r = match self.lifetime {
            Lifetime::Transient => "Transient".to_string(),
            Lifetime::Shared => "Shared".to_string(),
            Lifetime::Singleton => "Singleton".to_string(),
        };
        proof {
            reveal_strlit("Transient");
            reveal_strlit("Shared");
            reveal_strlit("Singleton");
            reveal_strlit("<");
            reveal_strlit(">");
        }
        r.append("<");
        r.append(self.service.as_str());
        r.append(">");
        r
    }
}

} // verus!
