//! Watched cluster resources, modelled by the fields the desired-state
//! computation reads: hostnames, addresses and annotations as plain values.

use vstd::prelude::*;
use crate::strutil::str_eq;

verus! {

/// Identity of a watched resource: the unique key into the cache.
#[derive(Debug, PartialEq, Eq)]
pub struct ResourceKey {
    pub kind: String,
    pub namespace: String,
    pub name: String,
}

/// Mathematical view of a [`ResourceKey`].
#[verifier::ext_equal]
pub ghost struct ResourceKeyV {
    pub kind: Seq<char>,
    pub namespace: Seq<char>,
    pub name: Seq<char>,
}

impl View for ResourceKey {
    type V = ResourceKeyV;

    open spec fn view(&self) -> ResourceKeyV {
        ResourceKeyV { kind: self.kind@, namespace: self.namespace@, name: self.name@ }
    }
}

impl ResourceKey {
    /// Equality of two keys, field for field.
    pub fn key_eq(&self, other: &ResourceKey) -> (r: bool)
        ensures
            r == (self@ == other@),
    {
        let r = str_eq(self.kind.as_str(), other.kind.as_str())
            && str_eq(self.namespace.as_str(), other.namespace.as_str())
            && str_eq(self.name.as_str(), other.name.as_str());
        proof {
            if r {
                assert(self@ =~= other@);
            }
        }
        r
    }

    /// A fresh key equal to this one.
    pub fn duplicate(&self) -> (r: ResourceKey)
        ensures
            r == *self,
    {
        ResourceKey {
            kind: self.kind.clone(),
            namespace: self.namespace.clone(),
            name: self.name.clone(),
        }
    }
}

/// A watched resource, carrying what record computation needs: for a
/// routing rule its declared hosts and resolved load-balancer addresses;
/// for a service its annotations and both candidate address lists.
#[derive(Debug, PartialEq, Eq)]
pub enum WatchedResource {
    Ingress { hosts: Vec<String>, addresses: Vec<String> },
    Service {
        annotations: Vec<(String, String)>,
        load_balancer_addresses: Option<Vec<String>>,
        cluster_addresses: Option<Vec<String>>,
    },
}

/// Mathematical view of a [`WatchedResource`].
#[verifier::ext_equal]
pub ghost enum ResourceV {
    Ingress { hosts: Seq<Seq<char>>, addresses: Seq<Seq<char>> },
    Service {
        annotations: Seq<(Seq<char>, Seq<char>)>,
        load_balancer_addresses: Option<Seq<Seq<char>>>,
        cluster_addresses: Option<Seq<Seq<char>>>,
    },
}

/// The views of a sequence of strings.
pub open spec fn string_views(ss: Seq<String>) -> Seq<Seq<char>> {
    ss.map_values(|s: String| s@)
}

/// The views of an option of a vector of strings.
pub open spec fn opt_string_views(o: Option<Vec<String>>) -> Option<Seq<Seq<char>>> {
    match o {
        Option::Some(v) => Option::Some(string_views(v@)),
        Option::None => Option::None,
    }
}

impl View for WatchedResource {
    type V = ResourceV;

    open spec fn view(&self) -> ResourceV {
        match self {
            WatchedResource::Ingress { hosts, addresses } => ResourceV::Ingress {
                hosts: string_views(hosts@),
                addresses: string_views(addresses@),
            },
            WatchedResource::Service {
                annotations,
                load_balancer_addresses,
                cluster_addresses,
            } => ResourceV::Service {
                annotations: annotations@.map_values(|p: (String, String)| (p.0@, p.1@)),
                load_balancer_addresses: opt_string_views(*load_balancer_addresses),
                cluster_addresses: opt_string_views(*cluster_addresses),
            },
        }
    }
}

impl WatchedResource {
    /// A fresh resource with the same view.
    pub fn duplicate(&self) -> (r: WatchedResource)
        ensures
            r@ == self@,
    {
        match self {
            WatchedResource::Ingress { hosts, addresses } => {
                let r = WatchedResource::Ingress {
                    hosts: clone_strings(hosts),
                    addresses: clone_strings(addresses),
                };
                proof {
                    assert(r@ =~= self@);
                }
                r
            },
            WatchedResource::Service {
                annotations,
                load_balancer_addresses,
                cluster_addresses,
            } => {
                let mut ann: Vec<(String, String)> = Vec::new();
                let mut i: usize = 0;
                while i < annotations.len()
                    invariant
                        0 <= i <= annotations@.len(),
                        ann@.len() == i,
                        forall|j: int| 0 <= j < i ==> #[trigger] ann@[j] == annotations@[j],
                    decreases annotations@.len() - i,
                {
                    ann.push((annotations[i].0.clone(), annotations[i].1.clone()));
                    i += 1;
                }
                let lb: Option<Vec<String>> = match load_balancer_addresses {
                    Some(v) => Some(clone_strings(v)),
                    None => None,
                };
                let cl: Option<Vec<String>> = match cluster_addresses {
                    Some(v) => Some(clone_strings(v)),
                    None => None,
                };
                let r = WatchedResource::Service {
                    annotations: ann,
                    load_balancer_addresses: lb,
                    cluster_addresses: cl,
                };
                proof {
                    assert(ann@ =~= annotations@);
                    assert(r@ =~= self@);
                }
                r
            },
        }
    }
}

/// Clone a vector of strings, element for element.
pub fn clone_strings(v: &Vec<String>) -> (r: Vec<String>)
    ensures
        r@ == v@,
{
    let mut r: Vec<String> = Vec::new();
    let mut i: usize = 0;
    while i < v.len()
        invariant
            0 <= i <= v@.len(),
            r@.len() == i,
            forall|j: int| 0 <= j < i ==> r@[j] == v@[j],
        decreases v@.len() - i,
    {
        r.push(v[i].clone());
        i += 1;
    }
    proof {
        assert(r@ =~= v@);
    }
    r
}

} // verus!
