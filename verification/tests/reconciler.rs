use kube_cloudflare_dns::addr::classify_address;
use kube_cloudflare_dns::cache::ResourceCache;
use kube_cloudflare_dns::plan::{compute_records, dedupe_records, plan, records_for_hostname, PlanAction};
use kube_cloudflare_dns::reconcile::{envelope_result, filter_zone_records, find_zone, CfError, SyncTracker};
use kube_cloudflare_dns::record::{Record, Zone};
use kube_cloudflare_dns::resource::{ResourceKey, WatchedResource};
use kube_cloudflare_dns::{APP_NAME, HOSTNAME_LABEL};

fn rec(t: &str, name: &str, content: &str, id: &str) -> Record {
    Record {
        id: id.to_string(),
        _type: t.to_string(),
        name: name.to_string(),
        content: content.to_string(),
    }
}

#[test]
fn classify_ipv4() {
    assert_eq!(classify_address("10.0.0.1"), Some("A".to_string()));
    assert_eq!(classify_address("255.255.255.255"), Some("A".to_string()));
    assert_eq!(classify_address("0.0.0.0"), Some("A".to_string()));
}

#[test]
fn classify_ipv4_rejects() {
    assert_eq!(classify_address("256.1.1.1"), None);
    assert_eq!(classify_address("01.2.3.4"), None);
    assert_eq!(classify_address("1.2.3"), None);
    assert_eq!(classify_address("1.2.3.4.5"), None);
    assert_eq!(classify_address("1.2.3."), None);
    assert_eq!(classify_address("not-an-ip"), None);
    assert_eq!(classify_address(""), None);
}

#[test]
fn classify_ipv6() {
    assert_eq!(classify_address("2001:db8::1"), Some("AAAA".to_string()));
    assert_eq!(classify_address("::1"), Some("AAAA".to_string()));
    assert_eq!(classify_address("::"), Some("AAAA".to_string()));
    assert_eq!(classify_address("1:2:3:4:5:6:7:8"), Some("AAAA".to_string()));
    assert_eq!(classify_address("fe80::"), Some("AAAA".to_string()));
}

#[test]
fn classify_ipv6_embedded_ipv4() {
    assert_eq!(classify_address("::ffff:10.0.0.1"), Some("AAAA".to_string()));
    assert_eq!(classify_address("::10.0.0.1"), Some("AAAA".to_string()));
    assert_eq!(classify_address("1:2:3:4:5:6:1.2.3.4"), Some("AAAA".to_string()));
    assert_eq!(classify_address("1:2:3:4:5::1.2.3.4"), Some("AAAA".to_string()));
    assert_eq!(classify_address("1:2:3:4:5:6:7:1.2.3.4"), None);
    assert_eq!(classify_address("1:2:3:4:5:6::1.2.3.4"), None);
    assert_eq!(classify_address("::1.2.3.4.5"), None);
    assert_eq!(classify_address("::ffff:1.2.3.400"), None);
    assert_eq!(classify_address("1.2.3.4::"), None);
}

#[test]
fn classify_ipv6_rejects() {
    assert_eq!(classify_address("1:2:3:4:5:6:7:8:9"), None);
    assert_eq!(classify_address("1::2::3"), None);
    assert_eq!(classify_address(":::"), None);
    assert_eq!(classify_address("12345::"), None);
    assert_eq!(classify_address("1:2:3:4:5:6:7::8"), None);
    assert_eq!(classify_address("g::1"), None);
}

#[test]
fn hostname_records_classify_and_mark() {
    let addrs = vec![
        "10.0.0.5".to_string(),
        "not-an-ip".to_string(),
        "2001:db8::1".to_string(),
    ];
    let out = records_for_hostname("foo.example.com", &addrs);
    assert_eq!(out.len(), 3);
    assert_eq!(out[0], rec("A", "foo.example.com", "10.0.0.5", ""));
    assert_eq!(out[1], rec("AAAA", "foo.example.com", "2001:db8::1", ""));
    assert_eq!(out[2], rec("TXT", "foo.example.com", APP_NAME, ""));
}

#[test]
fn hostname_records_no_valid_address_no_marker() {
    let addrs = vec!["nope".to_string()];
    assert_eq!(records_for_hostname("foo.example.com", &addrs).len(), 0);
    let empty: Vec<String> = Vec::new();
    assert_eq!(records_for_hostname("foo.example.com", &empty).len(), 0);
}

#[test]
fn dedupe_keeps_first_occurrences() {
    let rs = vec![
        rec("A", "a", "1.1.1.1", ""),
        rec("A", "b", "1.1.1.1", ""),
        rec("A", "a", "1.1.1.1", ""),
    ];
    let out = dedupe_records(rs);
    assert_eq!(out.len(), 2);
    assert_eq!(out[0], rec("A", "a", "1.1.1.1", ""));
    assert_eq!(out[1], rec("A", "b", "1.1.1.1", ""));
}

#[test]
fn compute_deduplicates_across_resources() {
    let a = WatchedResource::Ingress {
        hosts: vec!["foo.example.com".to_string()],
        addresses: vec!["10.0.0.5".to_string()],
    };
    let b = WatchedResource::Ingress {
        hosts: vec!["foo.example.com".to_string()],
        addresses: vec!["10.0.0.5".to_string()],
    };
    let out = compute_records(vec![&a, &b]);
    assert_eq!(out.len(), 2);
    assert_eq!(out[0], rec("A", "foo.example.com", "10.0.0.5", ""));
    assert_eq!(out[1], rec("TXT", "foo.example.com", APP_NAME, ""));
}

#[test]
fn compute_service_prefers_reported_lb_addresses() {
    let s = WatchedResource::Service {
        annotations: vec![(HOSTNAME_LABEL.to_string(), "svc.example.com".to_string())],
        load_balancer_addresses: Some(vec!["10.1.2.3".to_string()]),
        cluster_addresses: Some(vec!["172.16.0.1".to_string()]),
    };
    let out = compute_records(vec![&s]);
    assert_eq!(out.len(), 2);
    assert_eq!(out[0], rec("A", "svc.example.com", "10.1.2.3", ""));
}

#[test]
fn compute_service_falls_back_to_cluster_addresses() {
    let s = WatchedResource::Service {
        annotations: vec![(HOSTNAME_LABEL.to_string(), "svc.example.com".to_string())],
        load_balancer_addresses: None,
        cluster_addresses: Some(vec!["172.16.0.1".to_string()]),
    };
    let out = compute_records(vec![&s]);
    assert_eq!(out.len(), 2);
    assert_eq!(out[0], rec("A", "svc.example.com", "172.16.0.1", ""));
}

#[test]
fn compute_service_without_annotation_yields_nothing() {
    let s = WatchedResource::Service {
        annotations: vec![("other".to_string(), "svc.example.com".to_string())],
        load_balancer_addresses: None,
        cluster_addresses: Some(vec!["172.16.0.1".to_string()]),
    };
    assert_eq!(compute_records(vec![&s]).len(), 0);
}

#[test]
fn scenario_add_then_empty_then_update() {
    let r = WatchedResource::Ingress {
        hosts: vec!["foo.example.com".to_string()],
        addresses: vec!["10.0.0.5".to_string()],
    };
    let expected = compute_records(vec![&r]);
    assert_eq!(expected.len(), 2);
    assert_eq!(expected[0], rec("A", "foo.example.com", "10.0.0.5", ""));
    assert_eq!(expected[1], rec("TXT", "foo.example.com", APP_NAME, ""));

    // Empty actual state: both records are added.
    let p = plan(&expected, &[]);
    assert_eq!(p.len(), 2);
    assert_eq!(p[0], PlanAction::Add(rec("A", "foo.example.com", "10.0.0.5", "")));
    assert_eq!(p[1], PlanAction::Add(rec("TXT", "foo.example.com", APP_NAME, "")));

    // Actual state already converged: empty plan.
    let actual = vec![
        rec("A", "foo.example.com", "10.0.0.5", "id-a"),
        rec("TXT", "foo.example.com", APP_NAME, "id-t"),
    ];
    assert_eq!(plan(&expected, &actual).len(), 0);

    // Only the address drifted: one update echoing the existing id.
    let drifted = vec![
        rec("A", "foo.example.com", "10.0.0.9", "id-a"),
        rec("TXT", "foo.example.com", APP_NAME, "id-t"),
    ];
    let p = plan(&expected, &drifted);
    assert_eq!(p.len(), 1);
    assert_eq!(p[0], PlanAction::Update(rec("A", "foo.example.com", "10.0.0.5", "id-a")));
}

#[test]
fn plan_never_touches_foreign_names() {
    // A foreign record occupies the name with no marker: no add, no update.
    let expected = vec![
        rec("A", "foo.example.com", "10.0.0.5", ""),
        rec("TXT", "foo.example.com", APP_NAME, ""),
    ];
    let actual = vec![rec("A", "foo.example.com", "9.9.9.9", "id-x")];
    assert_eq!(plan(&expected, &actual).len(), 0);

    // A foreign record of another type also blocks creation.
    let actual = vec![rec("CNAME", "foo.example.com", "elsewhere.", "id-x")];
    assert_eq!(plan(&expected, &actual).len(), 0);
}

#[test]
fn plan_deletes_only_managed_leftovers() {
    let expected: Vec<Record> = Vec::new();
    let actual = vec![
        rec("A", "gone.example.com", "10.0.0.5", "id-a"),
        rec("TXT", "gone.example.com", APP_NAME, "id-t"),
        rec("A", "foreign.example.com", "9.9.9.9", "id-f"),
    ];
    let p = plan(&expected, &actual);
    assert_eq!(p.len(), 2);
    assert_eq!(p[0], PlanAction::Delete(rec("A", "gone.example.com", "10.0.0.5", "id-a")));
    assert_eq!(p[1], PlanAction::Delete(rec("TXT", "gone.example.com", APP_NAME, "id-t")));
}

#[test]
fn convergence_after_applying_plan() {
    // Apply a computed plan to a simulated store, then re-diff: empty.
    let expected = vec![
        rec("A", "foo.example.com", "10.0.0.5", ""),
        rec("TXT", "foo.example.com", APP_NAME, ""),
    ];
    let actual = vec![
        rec("A", "foo.example.com", "10.0.0.9", "id-a"),
        rec("TXT", "foo.example.com", APP_NAME, "id-t"),
        rec("A", "old.example.com", "10.0.0.1", "id-o"),
        rec("TXT", "old.example.com", APP_NAME, "id-ot"),
    ];
    let p = plan(&expected, &actual);
    let mut store: Vec<Record> = actual.iter().map(|r| r.duplicate()).collect();
    for action in p {
        match action {
            PlanAction::Add(mut r) => {
                r.id = format!("fresh-{}", store.len());
                store.push(r);
            }
            PlanAction::Update(r) => {
                for s in store.iter_mut() {
                    if s.id == r.id {
                        *s = r.duplicate();
                    }
                }
            }
            PlanAction::Delete(r) => {
                store.retain(|s| s.id != r.id);
            }
        }
    }
    assert_eq!(plan(&expected, &store).len(), 0);
}

#[test]
fn zone_filter_keeps_suffix_matches() {
    let rs = vec![
        rec("A", "foo.example.com", "10.0.0.5", ""),
        rec("A", "bar.other.net", "10.0.0.6", ""),
    ];
    let out = filter_zone_records(rs, "example.com");
    assert_eq!(out.len(), 1);
    assert_eq!(out[0], rec("A", "foo.example.com", "10.0.0.5", ""));
}

#[test]
fn zone_lookup_finds_first_by_name() {
    let zones = vec![
        Zone { id: "z1".to_string(), name: "other.net".to_string() },
        Zone { id: "z2".to_string(), name: "example.com".to_string() },
    ];
    assert_eq!(find_zone(&zones, "example.com"), Some(1));
    assert_eq!(find_zone(&zones, "missing.org"), None);
}

#[test]
fn envelope_carries_any_payload() {
    let zones = vec![Zone { id: "z1".to_string(), name: "example.com".to_string() }];
    let ok = envelope_result(true, Some(zones), String::new());
    assert_eq!(ok.unwrap()[0].name, "example.com");
}

#[test]
fn envelope_success_and_failure() {
    let ok = envelope_result(true, Some(rec("A", "a", "1.1.1.1", "i")), String::new());
    assert_eq!(ok, Ok(rec("A", "a", "1.1.1.1", "i")));
    let err = envelope_result::<Record>(false, None, "quota exceeded".to_string());
    assert_eq!(err, Err(CfError::Api("quota exceeded".to_string())));
}

#[test]
fn sync_tracker_waits_for_both_kinds() {
    let mut t = SyncTracker::new();
    assert!(!t.ready());
    t.note_ingress();
    assert!(!t.ready());
    t.note_service();
    assert!(t.ready());
}

#[test]
fn cache_replace_all_swaps_one_kind_only() {
    let key = |kind: &str, name: &str| ResourceKey {
        kind: kind.to_string(),
        namespace: "default".to_string(),
        name: name.to_string(),
    };
    let res = |addr: &str| WatchedResource::Ingress {
        hosts: vec!["foo.example.com".to_string()],
        addresses: vec![addr.to_string()],
    };
    let mut cache = ResourceCache::new();
    cache.upsert(key("Ingress", "one"), res("10.0.0.1"));
    cache.upsert(key("Ingress", "two"), res("10.0.0.2"));
    cache.upsert(key("Service", "svc"), res("10.0.0.3"));
    cache.replace_all(
        "Ingress",
        vec![(key("Ingress", "three"), res("10.0.0.4"))],
    );
    let snap = cache.snapshot();
    assert_eq!(snap.len(), 2);
    assert!(snap.contains(&res("10.0.0.3")));
    assert!(snap.contains(&res("10.0.0.4")));
    assert!(!snap.contains(&res("10.0.0.1")));
    assert!(!snap.contains(&res("10.0.0.2")));
}

#[test]
fn cache_upsert_remove_snapshot() {
    let key = |name: &str| ResourceKey {
        kind: "Ingress".to_string(),
        namespace: "default".to_string(),
        name: name.to_string(),
    };
    let res = |addr: &str| WatchedResource::Ingress {
        hosts: vec!["foo.example.com".to_string()],
        addresses: vec![addr.to_string()],
    };
    let mut cache = ResourceCache::new();
    cache.upsert(key("one"), res("10.0.0.1"));
    cache.upsert(key("two"), res("10.0.0.2"));
    cache.upsert(key("one"), res("10.0.0.3"));
    let snap = cache.snapshot();
    assert_eq!(snap.len(), 2);
    assert!(snap.contains(&res("10.0.0.2")));
    assert!(snap.contains(&res("10.0.0.3")));
    cache.remove(&key("two"));
    cache.remove(&key("missing"));
    let snap = cache.snapshot();
    assert_eq!(snap.len(), 1);
    assert!(snap.contains(&res("10.0.0.3")));
}
