//! The resource cache: one entry per resource identity, replaced wholesale
//! on update events, snapshotted by the reconciler. Viewed as a map from
//! key views to resource views.

use vstd::prelude::*;
use vstd::map::*;
use crate::resource::{ResourceKey, ResourceKeyV, ResourceV, WatchedResource};
use crate::strutil::str_eq;

verus! {

/// The map a sequence of cache entries denotes, later entries winning.
pub open spec fn entries_map(es: Seq<(ResourceKey, WatchedResource)>) -> Map<
    ResourceKeyV,
    ResourceV,
>
    decreases es.len(),
{
    if es.len() == 0 {
        Map::empty()
    } else {
        entries_map(es.drop_last()).insert(es.last().0@, es.last().1@)
    }
}

/// No two entries share a key.
pub open spec fn keys_distinct(es: Seq<(ResourceKey, WatchedResource)>) -> bool {
    forall|i: int, j: int| 0 <= i < j < es.len() ==> (#[trigger] es[i]).0@ != (#[trigger] es[j]).0@
}

/// What `entries_map` holds: exactly the entries' keys, each bound to its
/// entry's resource when keys are distinct.
pub proof fn lemma_entries_map_chars(es: Seq<(ResourceKey, WatchedResource)>)
    requires
        keys_distinct(es),
    ensures
        forall|k: ResourceKeyV|
            entries_map(es).contains_key(k) <==> exists|i: int|
                0 <= i < es.len() && (#[trigger] es[i]).0@ == k,
        forall|i: int|
            0 <= i < es.len() ==> entries_map(es)[(#[trigger] es[i]).0@] == es[i].1@,
    decreases es.len(),
{
    if es.len() > 0 {
        let pre = es.drop_last();
        lemma_entries_map_chars(pre);
        assert(forall|i: int| 0 <= i < pre.len() ==> #[trigger] pre[i] == es[i]);
        assert forall|k: ResourceKeyV| entries_map(es).contains_key(k) implies exists|i: int|
            0 <= i < es.len() && (#[trigger] es[i]).0@ == k by {
            if k == es.last().0@ {
                assert(es[es.len() - 1].0@ == k);
            } else {
                assert(entries_map(pre).contains_key(k));
                let i = choose|i: int| 0 <= i < pre.len() && (#[trigger] pre[i]).0@ == k;
                assert(es[i].0@ == k);
            }
        }
        assert forall|k: ResourceKeyV|
            exists|i: int| 0 <= i < es.len() && (#[trigger] es[i]).0@ == k implies entries_map(
            es,
        ).contains_key(k) by {
            let i = choose|i: int| 0 <= i < es.len() && (#[trigger] es[i]).0@ == k;
            if i < es.len() - 1 {
                assert(pre[i].0@ == k);
                assert(entries_map(pre).contains_key(k));
            }
        }
        assert forall|i: int| 0 <= i < es.len() implies entries_map(es)[(#[trigger] es[i]).0@]
            == es[i].1@ by {
            if i < es.len() - 1 {
                assert(es[i].0@ != es[es.len() - 1].0@);
                assert(pre[i] == es[i]);
            }
        }
    }
}

/// A cache map holds exactly one binding per entry.
pub proof fn lemma_entries_map_len(es: Seq<(ResourceKey, WatchedResource)>)
    requires
        keys_distinct(es),
    ensures
        entries_map(es).dom().finite(),
        entries_map(es).dom().len() == es.len(),
    decreases es.len(),
{
    if es.len() == 0 {
        assert(entries_map(es).dom() =~= Set::<ResourceKeyV>::empty());
    } else {
        let pre = es.drop_last();
        assert(forall|i: int| 0 <= i < pre.len() ==> #[trigger] pre[i] == es[i]);
        lemma_entries_map_len(pre);
        lemma_entries_map_chars(pre);
        assert(!entries_map(pre).contains_key(es.last().0@)) by {
            if entries_map(pre).contains_key(es.last().0@) {
                let i = choose|i: int|
                    0 <= i < pre.len() && (#[trigger] pre[i]).0@ == es.last().0@;
                assert(es[i].0@ == es[es.len() - 1].0@);
                assert(false);
            }
        }
        assert(entries_map(es).dom() =~= entries_map(pre).dom().insert(es.last().0@));
        assert(entries_map(es).dom().len() == es.len());
    }
}

/// The entries whose key is not of `kind`, in reverse order.
pub open spec fn rev_keep(es: Seq<(ResourceKey, WatchedResource)>, kind: Seq<char>) -> Seq<
    (ResourceKey, WatchedResource),
>
    decreases es.len(),
{
    if es.len() == 0 {
        Seq::empty()
    } else {
        (if es.last().0@.kind != kind {
            seq![es.last()]
        } else {
            Seq::empty()
        }) + rev_keep(es.drop_last(), kind)
    }
}

/// Prepending an entry appends it to the reversed filter result.
proof fn lemma_rev_keep_prepend(
    x: (ResourceKey, WatchedResource),
    t: Seq<(ResourceKey, WatchedResource)>,
    kind: Seq<char>,
)
    ensures
        rev_keep(seq![x] + t, kind) == rev_keep(t, kind) + (if x.0@.kind != kind {
            seq![x]
        } else {
            Seq::empty()
        }),
    decreases t.len(),
{
    let u = seq![x] + t;
    if t.len() == 0 {
        assert(u.last() == x);
        assert(u.drop_last() =~= Seq::<(ResourceKey, WatchedResource)>::empty());
        assert(rev_keep(Seq::<(ResourceKey, WatchedResource)>::empty(), kind)
            == Seq::<(ResourceKey, WatchedResource)>::empty());
        assert(rev_keep(u, kind) =~= rev_keep(t, kind) + (if x.0@.kind != kind {
            seq![x]
        } else {
            Seq::<(ResourceKey, WatchedResource)>::empty()
        }));
    } else {
        assert(u.last() == t.last());
        assert(u.drop_last() =~= seq![x] + t.drop_last());
        lemma_rev_keep_prepend(x, t.drop_last(), kind);
        assert(rev_keep(u, kind) == (if u.last().0@.kind != kind {
            seq![u.last()]
        } else {
            Seq::<(ResourceKey, WatchedResource)>::empty()
        }) + rev_keep(u.drop_last(), kind));
        assert(rev_keep(u.drop_last(), kind) == rev_keep(seq![x] + t.drop_last(), kind));
        assert(rev_keep(t, kind) == (if t.last().0@.kind != kind {
            seq![t.last()]
        } else {
            Seq::<(ResourceKey, WatchedResource)>::empty()
        }) + rev_keep(t.drop_last(), kind));
        assert(rev_keep(u, kind) =~= rev_keep(t, kind) + (if x.0@.kind != kind {
            seq![x]
        } else {
            Seq::<(ResourceKey, WatchedResource)>::empty()
        }));
    }
}

/// What the reversed filter keeps: exactly the entries of the other
/// kinds, with distinct keys kept distinct.
#[verifier::rlimit(100)]
proof fn lemma_rev_keep_props(es: Seq<(ResourceKey, WatchedResource)>, kind: Seq<char>)
    requires
        keys_distinct(es),
    ensures
        forall|x: int|
            0 <= x < rev_keep(es, kind).len() ==> (#[trigger] rev_keep(es, kind)[x]).0@.kind
                != kind,
        forall|x: int|
            0 <= x < rev_keep(es, kind).len() ==> exists|y: int|
                0 <= y < es.len() && #[trigger] rev_keep(es, kind)[x] == es[y],
        forall|y: int|
            0 <= y < es.len() && (#[trigger] es[y]).0@.kind != kind ==> exists|x: int|
                0 <= x < rev_keep(es, kind).len() && #[trigger] rev_keep(es, kind)[x] == es[y],
        keys_distinct(rev_keep(es, kind)),
    decreases es.len(),
{
    let rk = rev_keep(es, kind);
    if es.len() > 0 {
        let pre = es.drop_last();
        lemma_rev_keep_props(pre, kind);
        let tail = rev_keep(pre, kind);
        assert(forall|i: int| 0 <= i < pre.len() ==> #[trigger] pre[i] == es[i]);
        let head: Seq<(ResourceKey, WatchedResource)> = if es.last().0@.kind != kind {
            seq![es.last()]
        } else {
            Seq::empty()
        };
        assert(rk == head + tail);
        assert forall|x: int| 0 <= x < rk.len() implies exists|y: int|
            0 <= y < es.len() && #[trigger] rk[x] == es[y] by {
            if x < head.len() {
                assert(rk[x] == es[es.len() - 1]);
            } else {
                let y = choose|y: int| 0 <= y < pre.len() && #[trigger] tail[x - head.len()] == pre[y];
                assert(rk[x] == es[y]);
            }
        }
        assert forall|y: int|
            0 <= y < es.len() && (#[trigger] es[y]).0@.kind != kind implies exists|x: int|
            0 <= x < rk.len() && #[trigger] rk[x] == es[y] by {
            if y == es.len() - 1 {
                assert(rk[0] == es[y]);
            } else {
                let x = choose|x: int| 0 <= x < tail.len() && #[trigger] tail[x] == pre[y];
                assert(rk[head.len() + x] == es[y]);
            }
        }
        assert forall|i: int, j: int| 0 <= i < j < rk.len() implies (#[trigger] rk[i]).0@ != (
        #[trigger] rk[j]).0@ by {
            if i < head.len() {
                assert(rk[i] == es[es.len() - 1]);
                let y = choose|y: int| 0 <= y < pre.len() && #[trigger] tail[j - head.len()] == pre[y];
                assert(es[y].0@ != es[es.len() - 1].0@);
            } else {
                assert(rk[i] == tail[i - head.len()]);
                assert(rk[j] == tail[j - head.len()]);
            }
        }
    }
}

/// What replacing one kind's entries does to the cache map: keys of the
/// other kinds keep their bindings, and the given kind's keys are bound
/// exactly as the replacement entries say.
#[verifier::rlimit(100)]
proof fn lemma_replaced_entries(
    old_es: Seq<(ResourceKey, WatchedResource)>,
    filtered: Seq<(ResourceKey, WatchedResource)>,
    resv: Seq<(ResourceKey, WatchedResource)>,
    es: Seq<(ResourceKey, WatchedResource)>,
    kind: Seq<char>,
)
    requires
        es == filtered + resv,
        keys_distinct(old_es),
        keys_distinct(filtered),
        forall|x: int| 0 <= x < filtered.len() ==> (#[trigger] filtered[x]).0@.kind != kind,
        forall|x: int|
            0 <= x < filtered.len() ==> exists|y: int|
                0 <= y < old_es.len() && #[trigger] filtered[x] == old_es[y],
        forall|y: int|
            0 <= y < old_es.len() && (#[trigger] old_es[y]).0@.kind != kind ==> exists|x: int|
                0 <= x < filtered.len() && #[trigger] filtered[x] == old_es[y],
        forall|i: int| 0 <= i < resv.len() ==> (#[trigger] resv[i]).0@.kind == kind,
        forall|i: int, j: int|
            0 <= i < j < resv.len() ==> (#[trigger] resv[i]).0@ != (#[trigger] resv[j]).0@,
    ensures
        keys_distinct(es),
        forall|k: ResourceKeyV|
            k.kind != kind ==> (entries_map(es).contains_key(k) <==> entries_map(
                old_es,
            ).contains_key(k)),
        forall|k: ResourceKeyV|
            k.kind != kind && entries_map(old_es).contains_key(k) ==> entries_map(es)[k]
                == entries_map(old_es)[k],
        forall|k: ResourceKeyV|
            k.kind == kind ==> (entries_map(es).contains_key(k) <==> exists|i: int|
                0 <= i < resv.len() && (#[trigger] resv[i]).0@ == k),
        forall|i: int|
            0 <= i < resv.len() ==> entries_map(es)[(#[trigger] resv[i]).0@] == resv[i].1@,
{
    lemma_entries_map_chars(old_es);
    assert(forall|x: int| 0 <= x < filtered.len() ==> #[trigger] es[x] == filtered[x]);
    assert(forall|y: int| 0 <= y < resv.len() ==> es[filtered.len() + y] == #[trigger] resv[y]);
    assert forall|x: int, y: int| 0 <= x < y < es.len() implies (#[trigger] es[x]).0@ != (
    #[trigger] es[y]).0@ by {
        if y >= filtered.len() {
            assert(es[y] == resv[y - filtered.len()]);
            assert(es[y].0@.kind == kind);
            if x < filtered.len() {
                assert(es[x].0@.kind != kind);
            } else {
                assert(es[x] == resv[x - filtered.len()]);
            }
        }
    }
    lemma_entries_map_chars(es);
    assert forall|k: ResourceKeyV| k.kind != kind implies (entries_map(es).contains_key(k)
        <==> entries_map(old_es).contains_key(k)) by {
        if entries_map(es).contains_key(k) {
            let x = choose|x: int| 0 <= x < es.len() && (#[trigger] es[x]).0@ == k;
            if x >= filtered.len() {
                assert(es[x] == resv[x - filtered.len()]);
                assert(false);
            }
            let y = choose|y: int|
                0 <= y < old_es.len() && #[trigger] filtered[x] == old_es[y];
            assert(old_es[y].0@ == k);
            assert(entries_map(old_es).contains_key(k));
        }
        if entries_map(old_es).contains_key(k) {
            let y = choose|y: int| 0 <= y < old_es.len() && (#[trigger] old_es[y]).0@ == k;
            assert(old_es[y].0@.kind != kind);
            let x = choose|x: int|
                0 <= x < filtered.len() && #[trigger] filtered[x] == old_es[y];
            assert(es[x].0@ == k);
            assert(entries_map(es).contains_key(k));
        }
    }
    assert forall|k: ResourceKeyV|
        k.kind != kind && entries_map(old_es).contains_key(k) implies entries_map(es)[k]
        == entries_map(old_es)[k] by {
        let y = choose|y: int| 0 <= y < old_es.len() && (#[trigger] old_es[y]).0@ == k;
        let x = choose|x: int|
            0 <= x < filtered.len() && #[trigger] filtered[x] == old_es[y];
        assert(entries_map(es)[es[x].0@] == es[x].1@);
        assert(entries_map(old_es)[old_es[y].0@] == old_es[y].1@);
    }
    assert forall|k: ResourceKeyV| k.kind == kind implies (entries_map(es).contains_key(k)
        <==> exists|i: int| 0 <= i < resv.len() && (#[trigger] resv[i]).0@ == k) by {
        if entries_map(es).contains_key(k) {
            let x = choose|x: int| 0 <= x < es.len() && (#[trigger] es[x]).0@ == k;
            if x < filtered.len() {
                assert(filtered[x].0@.kind != kind);
                assert(false);
            }
            assert(es[x] == resv[x - filtered.len()]);
            assert(resv[x - filtered.len()].0@ == k);
        }
        if exists|i: int| 0 <= i < resv.len() && (#[trigger] resv[i]).0@ == k {
            let y = choose|y: int| 0 <= y < resv.len() && (#[trigger] resv[y]).0@ == k;
            assert(es[filtered.len() + y].0@ == k);
            assert(entries_map(es).contains_key(k));
        }
    }
    assert forall|i: int| 0 <= i < resv.len() implies entries_map(es)[(#[trigger] resv[i]).0@]
        == resv[i].1@ by {
        assert(es[filtered.len() + i] == resv[i]);
        assert(entries_map(es)[es[filtered.len() + i].0@] == es[filtered.len() + i].1@);
    }
}

/// The concurrency-safe store of watched resources (the mutual exclusion
/// itself lives with the embedding program; the cache provides the
/// verified entry discipline).
pub struct ResourceCache {
    entries: Vec<(ResourceKey, WatchedResource)>,
}

impl View for ResourceCache {
    type V = Map<ResourceKeyV, ResourceV>;

    closed spec fn view(&self) -> Map<ResourceKeyV, ResourceV> {
        entries_map(self.entries@)
    }
}

impl ResourceCache {
    /// Entries have pairwise distinct keys.
    pub closed spec fn wf(&self) -> bool {
        keys_distinct(self.entries@)
    }

    /// An empty cache.
    pub fn new() -> (c: ResourceCache)
        ensures
            c.wf(),
            c@ == Map::<ResourceKeyV, ResourceV>::empty(),
    {
        ResourceCache { entries: Vec::new() }
    }

    /// Index of the entry holding `key`, if any.
    fn find_index(&self, key: &ResourceKey) -> (r: Option<usize>)
        ensures
            match r {
                Option::Some(i) => 0 <= i < self.entries@.len() && self.entries@[i as int].0@
                    == key@,
                Option::None => forall|i: int|
                    0 <= i < self.entries@.len() ==> (#[trigger] self.entries@[i]).0@ != key@,
            },
    {
        let mut i: usize = 0;
        while i < self.entries.len()
            invariant
                0 <= i <= self.entries@.len(),
                forall|j: int| 0 <= j < i ==> (#[trigger] self.entries@[j]).0@ != key@,
            decreases self.entries@.len() - i,
        {
            if self.entries[i].0.key_eq(key) {
                return Some(i);
            }
            i += 1;
        }
        None
    }

    /// Insert the resource under `key`, replacing any entry the key held.
    pub fn upsert(&mut self, key: ResourceKey, resource: WatchedResource)
        requires
            old(self).wf(),
        ensures
            final(self).wf(),
            final(self)@ == old(self)@.insert(key@, resource@),
    {
        proof {
            lemma_entries_map_chars(self.entries@);
        }
        let ghost old_es = self.entries@;
        match self.find_index(&key) {
            Some(i) => {
                self.entries.remove(i);
                proof {
                    assert(forall|x: int|
                        0 <= x < self.entries@.len() ==> #[trigger] self.entries@[x] == (
                        if x < i { old_es[x] } else { old_es[x + 1] }));
                    assert(keys_distinct(self.entries@));
                    lemma_entries_map_chars(self.entries@);
                }
                let ghost mid_es = self.entries@;
                self.entries.push((key, resource));
                proof {
                    assert(forall|x: int|
                        0 <= x < mid_es.len() ==> #[trigger] self.entries@[x] == mid_es[x]);
                    assert(keys_distinct(self.entries@));
                    lemma_entries_map_chars(self.entries@);
                    assert_maps_equal!(entries_map(self.entries@), entries_map(old_es).insert(self.entries@.last().0@, self.entries@.last().1@), k => {
                        if entries_map(self.entries@).contains_key(k) {
                            let x = choose|x: int| 0 <= x < self.entries@.len() && self.entries@[x].0@ == k;
                            if x < self.entries@.len() - 1 {
                                if x < i { assert(old_es[x].0@ == k); } else { assert(old_es[x + 1].0@ == k); }
                            }
                        }
                        if entries_map(old_es).insert(self.entries@.last().0@, self.entries@.last().1@).contains_key(k) {
                            if k == self.entries@.last().0@ {
                            } else {
                                let x = choose|x: int| 0 <= x < old_es.len() && old_es[x].0@ == k;
                                if x < i { assert(self.entries@[x].0@ == k); } else {
                                    assert(x != i);
                                    assert(self.entries@[x - 1].0@ == k);
                                }
                            }
                        }
                    });
                }
            },
            None => {
                self.entries.push((key, resource));
                proof {
                    assert(forall|x: int|
                        0 <= x < old_es.len() ==> #[trigger] self.entries@[x] == old_es[x]);
                    assert(keys_distinct(self.entries@));
                    assert(self.entries@.drop_last() =~= old_es);
                }
            },
        }
    }

    /// Drop the entry under `key`, if it is there.
    pub fn remove(&mut self, key: &ResourceKey)
        requires
            old(self).wf(),
        ensures
            final(self).wf(),
            final(self)@ == old(self)@.remove(key@),
    {
        proof {
            lemma_entries_map_chars(self.entries@);
        }
        let ghost old_es = self.entries@;
        match self.find_index(key) {
            Some(i) => {
                self.entries.remove(i);
                proof {
                    assert(forall|x: int|
                        0 <= x < self.entries@.len() ==> #[trigger] self.entries@[x] == (
                        if x < i { old_es[x] } else { old_es[x + 1] }));
                    assert(keys_distinct(self.entries@));
                    lemma_entries_map_chars(self.entries@);
                    assert_maps_equal!(entries_map(self.entries@), entries_map(old_es).remove(key@), k => {
                        if entries_map(self.entries@).contains_key(k) {
                            let x = choose|x: int| 0 <= x < self.entries@.len() && self.entries@[x].0@ == k;
                            if x < i { assert(old_es[x].0@ == k); } else { assert(old_es[x + 1].0@ == k); }
                        }
                        if entries_map(old_es).remove(key@).contains_key(k) {
                            let x = choose|x: int| 0 <= x < old_es.len() && old_es[x].0@ == k;
                            assert(x != i);
                            if x < i { assert(self.entries@[x].0@ == k); } else { assert(self.entries@[x - 1].0@ == k); }
                        }
                    });
                }
            },
            None => {
                proof {
                    assert_maps_equal!(entries_map(old_es), entries_map(old_es).remove(key@), k => {});
                }
            },
        }
    }

    /// Replace every entry of `kind` with the supplied set atomically,
    /// leaving entries of other kinds untouched.
    #[verifier::rlimit(100)]
    pub fn replace_all(&mut self, kind: &str, resources: Vec<(ResourceKey, WatchedResource)>)
        requires
            old(self).wf(),
            forall|i: int|
                0 <= i < resources@.len() ==> (#[trigger] resources@[i]).0@.kind == kind@,
            forall|i: int, j: int|
                0 <= i < j < resources@.len() ==> (#[trigger] resources@[i]).0@ != (
                #[trigger] resources@[j]).0@,
        ensures
            final(self).wf(),
            forall|k: ResourceKeyV|
                k.kind != kind@ ==> (final(self)@.contains_key(k) <==> old(
                    self,
                )@.contains_key(k)),
            forall|k: ResourceKeyV|
                k.kind != kind@ && old(self)@.contains_key(k) ==> final(self)@[k] == old(
                    self,
                )@[k],
            forall|k: ResourceKeyV|
                k.kind == kind@ ==> (final(self)@.contains_key(k) <==> exists|i: int|
                    0 <= i < resources@.len() && (#[trigger] resources@[i]).0@ == k),
            forall|i: int|
                0 <= i < resources@.len() ==> final(self)@[(#[trigger] resources@[i]).0@]
                    == resources@[i].1@,
    {
        let ghost old_es = self.entries@;
        let ghost resv = resources@;
        let mut rest: Vec<(ResourceKey, WatchedResource)> = Vec::new();
        core::mem::swap(&mut self.entries, &mut rest);
        let mut kept: Vec<(ResourceKey, WatchedResource)> = Vec::new();
        proof {
            assert(rest@ =~= old_es.take(rest@.len() as int));
            assert(old_es.skip(rest@.len() as int) =~= Seq::<
                (ResourceKey, WatchedResource),
            >::empty());
        }
        while rest.len() > 0
            invariant
                rest@ == old_es.take(rest@.len() as int),
                rest@.len() <= old_es.len(),
                kept@ == rev_keep(old_es.skip(rest@.len() as int), kind@),
            decreases rest@.len(),
        {
            let ghost m = rest@.len() as int;
            let e = rest.pop().unwrap();
            let keep = !str_eq(e.0.kind.as_str(), kind);
            proof {
                assert(e == old_es[m - 1]);
                assert(rest@ =~= old_es.take(m - 1));
                assert(old_es.skip(m - 1) =~= seq![old_es[m - 1]] + old_es.skip(m));
                lemma_rev_keep_prepend(e, old_es.skip(m), kind@);
            }
            if keep {
                kept.push(e);
                proof {
                    assert(kept@ =~= rev_keep(old_es.skip(m), kind@) + seq![e]);
                    assert(kept@ =~= rev_keep(old_es.skip(m - 1), kind@));
                }
            } else {
                proof {
                    assert(e.0@.kind == kind@);
                    assert(kept@ =~= rev_keep(old_es.skip(m - 1), kind@));
                }
            }
        }
        proof {
            assert(old_es.skip(0) =~= old_es);
            lemma_rev_keep_props(old_es, kind@);
        }
        let mut res = resources;
        kept.append(&mut res);
        self.entries = kept;
        proof {
            lemma_replaced_entries(old_es, rev_keep(old_es, kind@), resv, self.entries@, kind@);
        }
    }

    /// A point-in-time copy of every cached resource.
    #[verifier::rlimit(100)]
    pub fn snapshot(&self) -> (out: Vec<WatchedResource>)
        requires
            self.wf(),
        ensures
            out@.len() == self@.dom().len(),
            forall|i: int|
                0 <= i < out@.len() ==> exists|k: ResourceKeyV|
                    self@.contains_key(k) && self@[k] == (#[trigger] out@[i])@,
            forall|k: ResourceKeyV|
                self@.contains_key(k) ==> exists|i: int|
                    0 <= i < out@.len() && (#[trigger] out@[i])@ == self@[k],
    {
        proof {
            lemma_entries_map_chars(self.entries@);
            lemma_entries_map_len(self.entries@);
        }
        let mut out: Vec<WatchedResource> = Vec::new();
        let mut i: usize = 0;
        while i < self.entries.len()
            invariant
                self.wf(),
                0 <= i <= self.entries@.len(),
                out@.len() == i,
                forall|j: int|
                    0 <= j < i ==> (#[trigger] out@[j])@ == self.entries@[j].1@,
            decreases self.entries@.len() - i,
        {
            out.push(self.entries[i].1.duplicate());
            i += 1;
        }
        proof {
            lemma_entries_map_chars(self.entries@);
            assert forall|j: int| 0 <= j < out@.len() implies exists|k: ResourceKeyV|
                self@.contains_key(k) && self@[k] == (#[trigger] out@[j])@ by {
                assert(self@.contains_key(self.entries@[j].0@));
                assert(self@[self.entries@[j].0@] == out@[j]@);
            }
            assert forall|k: ResourceKeyV| self@.contains_key(k) implies exists|i: int|
                0 <= i < out@.len() && (#[trigger] out@[i])@ == self@[k] by {
                let j = choose|j: int| 0 <= j < self.entries@.len() && self.entries@[j].0@ == k;
                assert(out@[j]@ == self@[k]);
            }
        }
        out
    }
}

} // verus!
