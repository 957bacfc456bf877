//! Desired-state diffing: the ownership-aware plan of provider mutations
//! that converges the actual record set toward the expected one.

use vstd::prelude::*;
use vstd::string::StringExecFns;
use crate::{APP_NAME, HOSTNAME_LABEL};
use crate::addr::{addr_record_type, classify_address};
use crate::record::{Record, RecordV, record_views};
use crate::resource::{
    clone_strings, string_views, ResourceV, WatchedResource,
};
use crate::strutil::str_eq;

verus! {

/// One provider mutation.
#[derive(Debug, PartialEq, Eq)]
pub enum PlanAction {
    Add(Record),
    Delete(Record),
    Update(Record),
}

/// Mathematical view of a [`PlanAction`].
#[verifier::ext_equal]
pub ghost enum ActionV {
    Add(RecordV),
    Delete(RecordV),
    Update(RecordV),
}

impl View for PlanAction {
    type V = ActionV;

    open spec fn view(&self) -> ActionV {
        match self {
            PlanAction::Add(r) => ActionV::Add(r@),
            PlanAction::Delete(r) => ActionV::Delete(r@),
            PlanAction::Update(r) => ActionV::Update(r@),
        }
    }
}

/// The views of a sequence of plan actions.
pub open spec fn action_views(ps: Seq<PlanAction>) -> Seq<ActionV> {
    ps.map_values(|p: PlanAction| p@)
}

/// The content every ownership marker record carries.
pub open spec fn marker_content() -> Seq<char> {
    APP_NAME@
}

/// An ownership marker: a TXT record whose content is the controller's
/// identity string.
pub open spec fn is_marker(r: RecordV) -> bool {
    r._type == "TXT"@ && r.content == marker_content()
}

/// Names the controller owns: those with a marker record in `actual`.
pub open spec fn managed_names(actual: Seq<RecordV>) -> Set<Seq<char>> {
    Set::new(
        |n: Seq<char>|
            exists|i: int|
                0 <= i < actual.len() && is_marker(#[trigger] actual[i]) && actual[i].name == n,
    )
}

/// Names that carry any record at all in `actual`.
pub open spec fn occupied_names(actual: Seq<RecordV>) -> Set<Seq<char>> {
    Set::new(
        |n: Seq<char>| exists|i: int| 0 <= i < actual.len() && (#[trigger] actual[i]).name == n,
    )
}

/// Whether `r` matches the diff identity `(t, n)`.
pub open spec fn key_match(r: RecordV, t: Seq<char>, n: Seq<char>) -> bool {
    r._type == t && r.name == n
}

/// The first record in `rs` matching `(t, n)`, if any.
pub open spec fn find_match(rs: Seq<RecordV>, t: Seq<char>, n: Seq<char>) -> Option<RecordV>
    decreases rs.len(),
{
    if rs.len() == 0 {
        Option::None
    } else if key_match(rs[0], t, n) {
        Option::Some(rs[0])
    } else {
        find_match(rs.drop_first(), t, n)
    }
}

/// What the differ emits for one expected record: nothing when the
/// record is already right or its name is foreign, an update carrying
/// the existing provider id when only the content differs, an add when
/// the name is free or owned.
pub open spec fn action_for(e: RecordV, actual: Seq<RecordV>) -> Seq<ActionV> {
    match find_match(actual, e._type, e.name) {
        Option::Some(ex) => if !managed_names(actual).contains(e.name) {
            Seq::empty()
        } else if e.content != ex.content {
            seq![
                ActionV::Update(
                    RecordV { id: ex.id, _type: e._type, name: e.name, content: e.content },
                ),
            ]
        } else {
            Seq::empty()
        },
        Option::None => if occupied_names(actual).contains(e.name) && !managed_names(
            actual,
        ).contains(e.name) {
            Seq::empty()
        } else {
            seq![ActionV::Add(e)]
        },
    }
}

/// Adds and updates for the first `k` expected records, in order.
pub open spec fn update_plan(expected: Seq<RecordV>, actual: Seq<RecordV>, k: int) -> Seq<ActionV>
    decreases k,
{
    if k <= 0 {
        Seq::empty()
    } else {
        update_plan(expected, actual, k - 1) + action_for(expected[k - 1], actual)
    }
}

/// What the differ emits for one actual record: a delete when the
/// controller owns its name and no expected record matches it.
pub open spec fn delete_for(a: RecordV, expected: Seq<RecordV>, actual: Seq<RecordV>) -> Seq<
    ActionV,
> {
    if managed_names(actual).contains(a.name) && find_match(expected, a._type, a.name) is None {
        seq![ActionV::Delete(a)]
    } else {
        Seq::empty()
    }
}

/// Deletes for the first `k` actual records, in order.
pub open spec fn delete_plan(expected: Seq<RecordV>, actual: Seq<RecordV>, k: int) -> Seq<ActionV>
    decreases k,
{
    if k <= 0 {
        Seq::empty()
    } else {
        delete_plan(expected, actual, k - 1) + delete_for(actual[k - 1], expected, actual)
    }
}

/// The whole plan: adds and updates first, then deletes.
pub open spec fn spec_plan(expected: Seq<RecordV>, actual: Seq<RecordV>) -> Seq<ActionV> {
    update_plan(expected, actual, expected.len() as int) + delete_plan(
        expected,
        actual,
        actual.len() as int,
    )
}

/// The ownership marker record for a host.
pub open spec fn marker_record(host: Seq<char>) -> RecordV {
    RecordV { id: Seq::empty(), _type: "TXT"@, name: host, content: marker_content() }
}

/// The address records one host yields: one `A` or `AAAA` record per
/// classifiable address, in order; unclassifiable addresses are dropped.
pub open spec fn address_records(host: Seq<char>, addrs: Seq<Seq<char>>) -> Seq<RecordV>
    decreases addrs.len(),
{
    if addrs.len() == 0 {
        Seq::empty()
    } else {
        address_records(host, addrs.drop_last()) + match addr_record_type(addrs.last()) {
            Option::Some(t) => seq![
                RecordV { id: Seq::empty(), _type: t, name: host, content: addrs.last() },
            ],
            Option::None => Seq::empty(),
        }
    }
}

/// All records one host yields: its address records plus one marker, or
/// nothing at all when no address is valid.
pub open spec fn host_records(host: Seq<char>, addrs: Seq<Seq<char>>) -> Seq<RecordV> {
    let rs = address_records(host, addrs);
    if rs.len() == 0 {
        Seq::empty()
    } else {
        rs + seq![marker_record(host)]
    }
}

/// The first value bound to `key` in an annotation list.
pub open spec fn lookup(entries: Seq<(Seq<char>, Seq<char>)>, key: Seq<char>) -> Option<Seq<char>>
    decreases entries.len(),
{
    if entries.len() == 0 {
        Option::None
    } else if entries[0].0 == key {
        Option::Some(entries[0].1)
    } else {
        lookup(entries.drop_first(), key)
    }
}

/// The addresses a service resource publishes: the load-balancer-assigned
/// list whenever the service reports one, else the cluster-assigned
/// list, else nothing.
pub open spec fn service_addrs(lb: Option<Seq<Seq<char>>>, cluster: Option<Seq<Seq<char>>>) -> Seq<
    Seq<char>,
> {
    if lb is Some {
        lb.unwrap()
    } else if cluster is Some {
        cluster.unwrap()
    } else {
        Seq::empty()
    }
}

/// The records one resource yields.
pub open spec fn resource_records(r: ResourceV) -> Seq<RecordV> {
    match r {
        ResourceV::Ingress { hosts, addresses } => ingress_records(hosts, addresses),
        ResourceV::Service { annotations, load_balancer_addresses, cluster_addresses } => match lookup(
            annotations,
            HOSTNAME_LABEL@,
        ) {
            Option::Some(h) => host_records(
                h,
                service_addrs(load_balancer_addresses, cluster_addresses),
            ),
            Option::None => Seq::empty(),
        },
    }
}

/// The records a routing-rule resource yields: every declared host paired
/// with the resource's resolved addresses.
pub open spec fn ingress_records(hosts: Seq<Seq<char>>, addresses: Seq<Seq<char>>) -> Seq<RecordV>
    decreases hosts.len(),
{
    if hosts.len() == 0 {
        Seq::empty()
    } else {
        ingress_records(hosts.drop_last(), addresses) + host_records(hosts.last(), addresses)
    }
}

/// The raw record sequence a snapshot of resources yields, before
/// deduplication.
pub open spec fn all_records(rs: Seq<ResourceV>) -> Seq<RecordV>
    decreases rs.len(),
{
    if rs.len() == 0 {
        Seq::empty()
    } else {
        all_records(rs.drop_last()) + resource_records(rs.last())
    }
}

/// First-occurrence deduplication over full record equality.
pub open spec fn spec_dedupe(rs: Seq<RecordV>) -> Seq<RecordV>
    decreases rs.len(),
{
    if rs.len() == 0 {
        Seq::empty()
    } else {
        let pre = spec_dedupe(rs.drop_last());
        if rs.drop_last().contains(rs.last()) {
            pre
        } else {
            pre + seq![rs.last()]
        }
    }
}

/// Deduplication keeps exactly the members of its input.
pub proof fn lemma_dedupe_members(rs: Seq<RecordV>)
    ensures
        forall|r: RecordV| spec_dedupe(rs).contains(r) <==> rs.contains(r),
    decreases rs.len(),
{
    if rs.len() > 0 {
        lemma_dedupe_members(rs.drop_last());
        assert forall|r: RecordV| rs.contains(r) implies spec_dedupe(rs).contains(r) by {
            let i = choose|i: int| 0 <= i < rs.len() && rs[i] == r;
            if i < rs.len() - 1 {
                assert(rs.drop_last()[i] == r);
                assert(rs.drop_last().contains(r));
                let j = choose|j: int|
                    0 <= j < spec_dedupe(rs.drop_last()).len() && spec_dedupe(rs.drop_last())[j]
                        == r;
                assert(spec_dedupe(rs)[j] == r);
            } else {
                if rs.drop_last().contains(r) {
                    let j = choose|j: int|
                        0 <= j < spec_dedupe(rs.drop_last()).len() && spec_dedupe(
                            rs.drop_last(),
                        )[j] == r;
                    assert(spec_dedupe(rs)[j] == r);
                } else {
                    assert(spec_dedupe(rs).last() == r);
                }
            }
        }
        assert forall|r: RecordV| spec_dedupe(rs).contains(r) implies rs.contains(r) by {
            let j = choose|j: int|
                0 <= j < spec_dedupe(rs).len() && spec_dedupe(rs)[j] == r;
            if j < spec_dedupe(rs.drop_last()).len() {
                assert(spec_dedupe(rs.drop_last())[j] == r);
                assert(rs.drop_last().contains(r));
                let i = choose|i: int|
                    0 <= i < rs.drop_last().len() && rs.drop_last()[i] == r;
                assert(rs[i] == r);
            } else {
                assert(r == rs.last());
                assert(rs[rs.len() - 1] == r);
            }
        }
    }
}

/// Deduplication leaves no two equal records behind.
pub proof fn lemma_dedupe_distinct(rs: Seq<RecordV>)
    ensures
        forall|i: int, j: int|
            0 <= i < j < spec_dedupe(rs).len() ==> spec_dedupe(rs)[i] != spec_dedupe(rs)[j],
    decreases rs.len(),
{
    if rs.len() > 0 {
        lemma_dedupe_distinct(rs.drop_last());
        lemma_dedupe_members(rs.drop_last());
        let pre = spec_dedupe(rs.drop_last());
        if !rs.drop_last().contains(rs.last()) {
            assert forall|i: int, j: int|
                0 <= i < j < spec_dedupe(rs).len() implies spec_dedupe(rs)[i] != spec_dedupe(
                rs,
            )[j] by {
                if j < pre.len() {
                } else {
                    assert(spec_dedupe(rs)[j] == rs.last());
                    assert(spec_dedupe(rs)[i] == pre[i]);
                    assert(pre.contains(pre[i]));
                }
            }
        }
    }
}

/// Whether an equal record is already in `v`.
fn contains_record(v: &Vec<Record>, r: &Record) -> (b: bool)
    ensures
        b == record_views(v@).contains(r@),
{
    let ghost vv = record_views(v@);
    let mut i: usize = 0;
    while i < v.len()
        invariant
            vv == record_views(v@),
            0 <= i <= v@.len(),
            forall|j: int| 0 <= j < i ==> vv[j] != r@,
        decreases v@.len() - i,
    {
        if v[i].same_record(r) {
            proof {
                assert(vv[i as int] == r@);
            }
            return true;
        }
        i += 1;
    }
    proof {
        if vv.contains(r@) {
            let j = choose|j: int| 0 <= j < vv.len() && vv[j] == r@;
            assert(false);
        }
    }
    false
}

/// Drop every record equal to an earlier one, keeping first occurrences
/// in order.
pub fn dedupe_records(records: Vec<Record>) -> (out: Vec<Record>)
    ensures
        record_views(out@) == spec_dedupe(record_views(records@)),
{
    let ghost rv = record_views(records@);
    let mut out: Vec<Record> = Vec::new();
    let mut i: usize = 0;
    while i < records.len()
        invariant
            rv == record_views(records@),
            0 <= i <= records@.len(),
            record_views(out@) == spec_dedupe(rv.take(i as int)),
        decreases records@.len() - i,
    {
        let ghost prefix = rv.take(i as int);
        proof {
            assert(rv.take(i + 1).drop_last() =~= prefix);
            assert(rv.take(i + 1).last() == rv[i as int]);
            lemma_dedupe_members(prefix);
        }
        if !contains_record(&out, &records[i]) {
            out.push(records[i].duplicate());
            proof {
                assert(record_views(out@) =~= spec_dedupe(prefix) + seq![rv[i as int]]);
            }
        }
        i += 1;
    }
    proof {
        assert(rv.take(rv.len() as int) =~= rv);
    }
    out
}

/// The records one hostname yields: an address record per valid address
/// and one ownership marker, or nothing when no address is valid.
pub fn records_for_hostname(hostname: &str, addresses: &[String]) -> (out: Vec<Record>)
    ensures
        record_views(out@) == host_records(hostname@, string_views(addresses@)),
{
    let ghost av = string_views(addresses@);
    let mut out: Vec<Record> = Vec::new();
    let mut i: usize = 0;
    while i < addresses.len()
        invariant
            av == string_views(addresses@),
            0 <= i <= addresses@.len(),
            record_views(out@) == address_records(hostname@, av.take(i as int)),
        decreases addresses@.len() - i,
    {
        let ghost prefix = av.take(i as int);
        proof {
            assert(av.take(i + 1).drop_last() =~= prefix);
            assert(av.take(i + 1).last() == av[i as int]);
        }
        match classify_address(addresses[i].as_str()) {
            Some(t) => {
                let rec = Record {
                    id: String::new(),
                    _type: t,
                    name: hostname.to_owned(),
                    content: addresses[i].clone(),
                };
                proof {
                    assert(rec@ =~= RecordV {
                        id: Seq::empty(),
                        _type: addr_record_type(av[i as int]).unwrap(),
                        name: hostname@,
                        content: av[i as int],
                    });
                }
                out.push(rec);
                proof {
                    assert(record_views(out@) =~= address_records(hostname@, av.take(i + 1)));
                }
            },
            None => {},
        }
        i += 1;
    }
    proof {
        assert(av.take(av.len() as int) =~= av);
    }
    if out.len() > 0 {
        let marker = Record {
            id: String::new(),
            _type: "TXT".to_owned(),
            name: hostname.to_owned(),
            content: String::from_str(APP_NAME),
        };
        proof {
            assert(marker@ =~= marker_record(hostname@));
        }
        out.push(marker);
        proof {
            assert(record_views(out@) =~= address_records(hostname@, av) + seq![
                marker_record(hostname@),
            ]);
        }
    }
    out
}

/// First value bound to `key` among the annotation entries.
fn lookup_annotation(entries: &[(String, String)], key: &str) -> (r: Option<String>)
    ensures
        match r {
            Option::Some(v) => lookup(
                entries@.map_values(|p: (String, String)| (p.0@, p.1@)),
                key@,
            ) == Option::Some(v@),
            Option::None => lookup(
                entries@.map_values(|p: (String, String)| (p.0@, p.1@)),
                key@,
            ) is None,
        },
{
    let ghost ev = entries@.map_values(|p: (String, String)| (p.0@, p.1@));
    let mut i: usize = 0;
    while i < entries.len()
        invariant
            ev == entries@.map_values(|p: (String, String)| (p.0@, p.1@)),
            0 <= i <= entries@.len(),
            forall|j: int| 0 <= j < i ==> (#[trigger] ev[j]).0 != key@,
        decreases entries@.len() - i,
    {
        if str_eq(entries[i].0.as_str(), key) {
            proof {
                lemma_lookup_skip(ev, key@, i as int);
            }
            return Some(entries[i].1.clone());
        }
        i += 1;
    }
    proof {
        lemma_lookup_skip(ev, key@, ev.len() as int);
        assert(ev.skip(ev.len() as int) =~= Seq::<(Seq<char>, Seq<char>)>::empty());
    }
    None
}

/// Skipping a prefix without the key leaves `lookup` unchanged.
proof fn lemma_lookup_skip(entries: Seq<(Seq<char>, Seq<char>)>, key: Seq<char>, i: int)
    requires
        0 <= i <= entries.len(),
        forall|j: int| 0 <= j < i ==> (#[trigger] entries[j]).0 != key,
    ensures
        lookup(entries, key) == lookup(entries.skip(i), key),
    decreases i,
{
    if i > 0 {
        lemma_lookup_skip(entries, key, i - 1);
        assert(entries.skip(i - 1)[0] == entries[i - 1]);
        assert(entries.skip(i - 1).drop_first() =~= entries.skip(i));
    } else {
        assert(entries.skip(0) =~= entries);
    }
}

/// Pick the address list a service publishes, per the fallback policy.
fn service_addresses(
    load_balancer_addresses: &Option<Vec<String>>,
    cluster_addresses: &Option<Vec<String>>,
) -> (out: Vec<String>)
    ensures
        string_views(out@) == service_addrs(
            crate::resource::opt_string_views(*load_balancer_addresses),
            crate::resource::opt_string_views(*cluster_addresses),
        ),
{
    if let Some(lb) = load_balancer_addresses {
        return clone_strings(lb);
    }
    match cluster_addresses {
        Some(c) => clone_strings(c),
        None => Vec::new(),
    }
}

/// Compute the desired record set for a snapshot of resources:
/// classified address records and markers for every published host,
/// deduplicated by full record equality.
pub fn compute_records(resources: Vec<&WatchedResource>) -> (out: Vec<Record>)
    ensures
        record_views(out@) == spec_dedupe(
            all_records(resources@.map_values(|r: &WatchedResource| r@)),
        ),
{
    let ghost rsv = resources@.map_values(|r: &WatchedResource| r@);
    let mut raw: Vec<Record> = Vec::new();
    let mut i: usize = 0;
    while i < resources.len()
        invariant
            rsv == resources@.map_values(|r: &WatchedResource| r@),
            0 <= i <= resources@.len(),
            record_views(raw@) == all_records(rsv.take(i as int)),
        decreases resources@.len() - i,
    {
        let ghost prefix = rsv.take(i as int);
        proof {
            assert(rsv.take(i + 1).drop_last() =~= prefix);
            assert(rsv.take(i + 1).last() == rsv[i as int]);
        }
        let resource = resources[i];
        match resource {
            WatchedResource::Ingress { hosts, addresses } => {
                let ghost hv = string_views(hosts@);
                let mut h: usize = 0;
                while h < hosts.len()
                    invariant
                        rsv == resources@.map_values(|r: &WatchedResource| r@),
                        hv == string_views(hosts@),
                        0 <= h <= hosts@.len(),
                        record_views(raw@) == all_records(rsv.take(i as int)) + ingress_records(
                            hv.take(h as int),
                            string_views(addresses@),
                        ),
                    decreases hosts@.len() - h,
                {
                    proof {
                        assert(hv.take(h + 1).drop_last() =~= hv.take(h as int));
                        assert(hv.take(h + 1).last() == hv[h as int]);
                    }
                    let recs = records_for_hostname(hosts[h].as_str(), addresses.as_slice());
                    let mut q: usize = 0;
                    let ghost rawq = raw@;
                    proof {
                        assert(rawq + recs@.take(0) =~= raw@);
                    }
                    while q < recs.len()
                        invariant
                            0 <= q <= recs@.len(),
                            raw@ == rawq + recs@.take(q as int),
                        decreases recs@.len() - q,
                    {
                        raw.push(recs[q].duplicate());
                        proof {
                            assert(raw@ =~= rawq + recs@.take(q + 1));
                        }
                        q += 1;
                    }
                    proof {
                        assert(recs@.take(recs@.len() as int) =~= recs@);
                        assert(record_views(raw@) =~= record_views(rawq) + record_views(recs@));
                        assert(record_views(raw@) =~= all_records(rsv.take(i as int))
                            + ingress_records(hv.take(h + 1), string_views(addresses@)));
                    }
                    h += 1;
                }
                proof {
                    assert(hv.take(hv.len() as int) =~= hv);
                    assert(rsv[i as int] == resources@[i as int]@);
                    assert(record_views(raw@) =~= all_records(rsv.take(i + 1)));
                }
            },
            WatchedResource::Service { annotations, load_balancer_addresses, cluster_addresses } => {
                match lookup_annotation(annotations.as_slice(), HOSTNAME_LABEL) {
                    Some(hostname) => {
                        let addrs = service_addresses(
                            load_balancer_addresses,
                            cluster_addresses,
                        );
                        let recs = records_for_hostname(hostname.as_str(), addrs.as_slice());
                        let mut q: usize = 0;
                        let ghost rawq = raw@;
                        proof {
                            assert(rawq + recs@.take(0) =~= raw@);
                        }
                        while q < recs.len()
                            invariant
                                0 <= q <= recs@.len(),
                                raw@ == rawq + recs@.take(q as int),
                            decreases recs@.len() - q,
                        {
                            raw.push(recs[q].duplicate());
                            proof {
                                assert(raw@ =~= rawq + recs@.take(q + 1));
                            }
                            q += 1;
                        }
                        proof {
                            assert(recs@.take(recs@.len() as int) =~= recs@);
                            assert(record_views(raw@) =~= record_views(rawq) + record_views(
                                recs@,
                            ));
                            assert(rsv[i as int] == resources@[i as int]@);
                            assert(record_views(raw@) =~= all_records(rsv.take(i + 1)));
                        }
                    },
                    None => {
                        proof {
                            assert(rsv[i as int] == resources@[i as int]@);
                            assert(record_views(raw@) =~= all_records(rsv.take(i + 1)));
                        }
                    },
                }
            },
        }
        i += 1;
    }
    proof {
        assert(rsv.take(rsv.len() as int) =~= rsv);
    }
    dedupe_records(raw)
}

/// Marker test on a record.
fn is_marker_exec(r: &Record) -> (b: bool)
    ensures
        b == is_marker(r@),
{
    str_eq(r._type.as_str(), "TXT") && str_eq(r.content.as_str(), APP_NAME)
}

/// Whether the controller owns `name`: a marker record for it stands in
/// `actual`. A conflict skip is visible to a caller as an expected name
/// that is occupied but not managed.
pub fn name_managed(actual: &[Record], name: &String) -> (b: bool)
    ensures
        b == managed_names(record_views(actual@)).contains(name@),
{
    let ghost av = record_views(actual@);
    let mut i: usize = 0;
    while i < actual.len()
        invariant
            av == record_views(actual@),
            0 <= i <= actual@.len(),
            forall|j: int| 0 <= j < i ==> !(is_marker(#[trigger] av[j]) && av[j].name == name@),
        decreases actual@.len() - i,
    {
        if is_marker_exec(&actual[i]) && str_eq(actual[i].name.as_str(), name.as_str()) {
            proof {
                assert(is_marker(av[i as int]) && av[i as int].name == name@);
            }
            return true;
        }
        i += 1;
    }
    false
}

/// Whether `name` carries any record in `actual`.
pub fn name_occupied(actual: &[Record], name: &String) -> (b: bool)
    ensures
        b == occupied_names(record_views(actual@)).contains(name@),
{
    let ghost av = record_views(actual@);
    let mut i: usize = 0;
    while i < actual.len()
        invariant
            av == record_views(actual@),
            0 <= i <= actual@.len(),
            forall|j: int| 0 <= j < i ==> (#[trigger] av[j]).name != name@,
        decreases actual@.len() - i,
    {
        if str_eq(actual[i].name.as_str(), name.as_str()) {
            proof {
                assert(av[i as int].name == name@);
            }
            return true;
        }
        i += 1;
    }
    false
}

/// Skipping a prefix without key matches leaves `find_match` unchanged.
proof fn lemma_find_match_skip(rs: Seq<RecordV>, t: Seq<char>, n: Seq<char>, i: int)
    requires
        0 <= i <= rs.len(),
        forall|j: int| 0 <= j < i ==> !key_match(#[trigger] rs[j], t, n),
    ensures
        find_match(rs, t, n) == find_match(rs.skip(i), t, n),
    decreases i,
{
    if i == 0 {
        assert(rs.skip(0) =~= rs);
    } else {
        lemma_find_match_skip(rs, t, n, i - 1);
        assert(rs.skip(i - 1).len() > 0);
        assert(rs.skip(i - 1)[0] == rs[i - 1]);
        assert(rs.skip(i - 1).drop_first() =~= rs.skip(i));
    }
}

/// Index of the first record in `rs` matching the key of `rec`, related
/// to the spec-level `find_match`.
fn find_matching(rs: &[Record], rec: &Record) -> (r: Option<usize>)
    ensures
        match r {
            Option::Some(i) => 0 <= i < rs@.len() && key_match(
                record_views(rs@)[i as int],
                rec@._type,
                rec@.name,
            ) && find_match(record_views(rs@), rec@._type, rec@.name) == Option::Some(
                record_views(rs@)[i as int],
            ),
            Option::None => find_match(record_views(rs@), rec@._type, rec@.name) is None,
        },
{
    let ghost rv = record_views(rs@);
    let mut i: usize = 0;
    while i < rs.len()
        invariant
            rv == record_views(rs@),
            0 <= i <= rs@.len(),
            forall|j: int| 0 <= j < i ==> !key_match(#[trigger] rv[j], rec@._type, rec@.name),
        decreases rs@.len() - i,
    {
        if rs[i].same_key(rec) {
            proof {
                lemma_find_match_skip(rv, rec@._type, rec@.name, i as int);
                assert(rv.skip(i as int)[0] == rv[i as int]);
            }
            return Some(i);
        }
        i += 1;
    }
    proof {
        lemma_find_match_skip(rv, rec@._type, rec@.name, rs@.len() as int);
        assert(rv.skip(rv.len() as int) =~= Seq::<RecordV>::empty());
    }
    None
}

/// Compute the mutation plan that converges `actual` toward `expected`
/// without ever touching a record the controller does not own.
pub fn plan(expected: &[Record], actual: &[Record]) -> (p: Vec<PlanAction>)
    ensures
        action_views(p@) == spec_plan(record_views(expected@), record_views(actual@)),
{
    let ghost ev = record_views(expected@);
    let ghost av = record_views(actual@);
    let mut p: Vec<PlanAction> = Vec::new();

    let mut i: usize = 0;
    while i < expected.len()
        invariant
            ev == record_views(expected@),
            av == record_views(actual@),
            0 <= i <= expected@.len(),
            action_views(p@) == update_plan(ev, av, i as int),
        decreases expected@.len() - i,
    {
        let e = &expected[i];
        proof {
            assert(ev[i as int] == expected@[i as int]@);
        }
        match find_matching(actual, e) {
            Some(idx) => {
                if name_managed(actual, &e.name) {
                    if !str_eq(e.content.as_str(), actual[idx].content.as_str()) {
                        let upd = Record {
                            id: actual[idx].id.clone(),
                            _type: e._type.clone(),
                            name: e.name.clone(),
                            content: e.content.clone(),
                        };
                        proof {
                            assert(upd@ =~= RecordV {
                                id: av[idx as int].id,
                                _type: ev[i as int]._type,
                                name: ev[i as int].name,
                                content: ev[i as int].content,
                            });
                        }
                        p.push(PlanAction::Update(upd));
                    }
                }
            },
            None => {
                let occupied = name_occupied(actual, &e.name);
                let managed = name_managed(actual, &e.name);
                if !(occupied && !managed) {
                    p.push(PlanAction::Add(e.duplicate()));
                }
            },
        }
        proof {
            assert(action_views(p@) =~= update_plan(ev, av, i as int) + action_for(
                ev[i as int],
                av,
            ));
        }
        i += 1;
    }

    let mut k: usize = 0;
    while k < actual.len()
        invariant
            ev == record_views(expected@),
            av == record_views(actual@),
            0 <= k <= actual@.len(),
            action_views(p@) == update_plan(ev, av, ev.len() as int) + delete_plan(
                ev,
                av,
                k as int,
            ),
        decreases actual@.len() - k,
    {
        let a = &actual[k];
        proof {
            assert(av[k as int] == actual@[k as int]@);
        }
        let managed = name_managed(actual, &a.name);
        let gone = match find_matching(expected, a) {
            Some(_) => false,
            None => true,
        };
        if managed && gone {
            p.push(PlanAction::Delete(a.duplicate()));
        }
        proof {
            assert(action_views(p@) =~= update_plan(ev, av, ev.len() as int) + delete_plan(
                ev,
                av,
                k as int,
            ) + delete_for(av[k as int], ev, av));
            assert(delete_plan(ev, av, k + 1) =~= delete_plan(ev, av, k as int) + delete_for(
                av[k as int],
                ev,
                av,
            ));
            assert(update_plan(ev, av, ev.len() as int) + delete_plan(ev, av, k as int)
                + delete_for(av[k as int], ev, av) =~= update_plan(ev, av, ev.len() as int) + (
            delete_plan(ev, av, k as int) + delete_for(av[k as int], ev, av)));
        }
        k += 1;
    }
    p
}

} // verus!
