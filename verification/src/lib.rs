//! A DNS reconciliation engine: it derives the desired set of DNS records
//! from watched cluster resources, diffs that set against the records a
//! provider reports, and plans the minimal ownership-safe set of mutations.

use vstd::prelude::*;

pub mod addr;
pub mod cache;
pub mod laws;
pub mod plan;
pub mod reconcile;
pub mod record;
pub mod resource;
pub mod strutil;


verus! {

/// Identity string of this controller; the content of every ownership
/// marker record it creates.
pub const APP_NAME: &'static str = "kube-cloudflare-dns";

/// Annotation key that selects which service resources participate and
/// names the hostname they are published under.
pub const HOSTNAME_LABEL: &'static str = "kube-cloudflare-dns.github.com/hostname";

} // verus!
