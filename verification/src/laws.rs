//! Proved laws of the differ: ownership safety, conflict avoidance and
//! idempotence.

use vstd::prelude::*;
use crate::plan::{
    action_for, delete_for, delete_plan, find_match, is_marker, key_match, managed_names,
    marker_content, marker_record, occupied_names, spec_plan, update_plan, ActionV,
};
use crate::record::RecordV;

verus! {

/// `find_match` returns a record exactly when a key match exists, and
/// what it returns is a matching member of the sequence.
pub proof fn lemma_find_match_props(rs: Seq<RecordV>, t: Seq<char>, n: Seq<char>)
    ensures
        (find_match(rs, t, n) is Some) <==> exists|x: int|
            0 <= x < rs.len() && key_match(#[trigger] rs[x], t, n),
        find_match(rs, t, n) is Some ==> exists|x: int|
            0 <= x < rs.len() && #[trigger] rs[x] == find_match(rs, t, n).unwrap() && key_match(
                rs[x],
                t,
                n,
            ),
    decreases rs.len(),
{
    if rs.len() == 0 {
    } else if key_match(rs[0], t, n) {
        assert(rs[0] == find_match(rs, t, n).unwrap());
    } else {
        let rest = rs.drop_first();
        lemma_find_match_props(rest, t, n);
        assert(forall|x: int| 0 <= x < rest.len() ==> #[trigger] rest[x] == rs[x + 1]);
        if exists|x: int| 0 <= x < rs.len() && key_match(#[trigger] rs[x], t, n) {
            let x = choose|x: int| 0 <= x < rs.len() && key_match(#[trigger] rs[x], t, n);
            assert(x != 0);
            assert(rest[x - 1] == rs[x]);
            assert(key_match(rest[x - 1], t, n));
        }
        if find_match(rs, t, n) is Some {
            let x = choose|x: int|
                0 <= x < rest.len() && #[trigger] rest[x] == find_match(rest, t, n).unwrap()
                    && key_match(rest[x], t, n);
            assert(rs[x + 1] == rest[x]);
        }
    }
}

/// Every add or update in the update half of the plan respects
/// ownership: updates only touch managed names, adds only free or
/// managed names, and it contains no delete.
pub proof fn lemma_update_plan_elems(e: Seq<RecordV>, a: Seq<RecordV>, k: int)
    requires
        0 <= k <= e.len(),
    ensures
        forall|x: int|
            0 <= x < update_plan(e, a, k).len() ==> match #[trigger] update_plan(e, a, k)[x] {
                ActionV::Update(r) => managed_names(a).contains(r.name),
                ActionV::Add(r) => !occupied_names(a).contains(r.name) || managed_names(
                    a,
                ).contains(r.name),
                ActionV::Delete(r) => false,
            },
    decreases k,
{
    if k > 0 {
        lemma_update_plan_elems(e, a, k - 1);
        let pre = update_plan(e, a, k - 1);
        let step = action_for(e[k - 1], a);
        assert forall|x: int|
            0 <= x < update_plan(e, a, k).len() implies match #[trigger] update_plan(e, a, k)[x] {
            ActionV::Update(r) => managed_names(a).contains(r.name),
            ActionV::Add(r) => !occupied_names(a).contains(r.name) || managed_names(a).contains(
                r.name,
            ),
            ActionV::Delete(r) => false,
        } by {
            if x < pre.len() {
                assert(update_plan(e, a, k)[x] == pre[x]);
            } else {
                assert(update_plan(e, a, k)[x] == step[x - pre.len()]);
            }
        }
    }
}

/// Every action in the delete half of the plan deletes a managed actual
/// record that no expected record matches.
pub proof fn lemma_delete_plan_elems(e: Seq<RecordV>, a: Seq<RecordV>, k: int)
    requires
        0 <= k <= a.len(),
    ensures
        forall|x: int|
            0 <= x < delete_plan(e, a, k).len() ==> match #[trigger] delete_plan(e, a, k)[x] {
                ActionV::Delete(r) => managed_names(a).contains(r.name) && a.contains(r)
                    && find_match(e, r._type, r.name) is None,
                _ => false,
            },
    decreases k,
{
    if k > 0 {
        lemma_delete_plan_elems(e, a, k - 1);
        let pre = delete_plan(e, a, k - 1);
        let step = delete_for(a[k - 1], e, a);
        assert forall|x: int|
            0 <= x < delete_plan(e, a, k).len() implies match #[trigger] delete_plan(e, a, k)[x] {
            ActionV::Delete(r) => managed_names(a).contains(r.name) && a.contains(r) && find_match(
                e,
                r._type,
                r.name,
            ) is None,
            _ => false,
        } by {
            if x < pre.len() {
                assert(delete_plan(e, a, k)[x] == pre[x]);
            } else {
                assert(delete_plan(e, a, k)[x] == step[x - pre.len()]);
                if step.len() > 0 {
                    assert(a[k - 1] == step[0]->Delete_0);
                    assert(a.contains(a[k - 1]));
                }
            }
        }
    }
}

/// Ownership safety: no update or delete in any plan ever targets a name
/// without a marker record in the actual set.
pub proof fn lemma_plan_ownership_safety(e: Seq<RecordV>, a: Seq<RecordV>)
    ensures
        forall|x: int|
            0 <= x < spec_plan(e, a).len() ==> match #[trigger] spec_plan(e, a)[x] {
                ActionV::Update(r) => managed_names(a).contains(r.name),
                ActionV::Delete(r) => managed_names(a).contains(r.name),
                ActionV::Add(r) => true,
            },
{
    lemma_update_plan_elems(e, a, e.len() as int);
    lemma_delete_plan_elems(e, a, a.len() as int);
    let up = update_plan(e, a, e.len() as int);
    let del = delete_plan(e, a, a.len() as int);
    assert forall|x: int|
        0 <= x < spec_plan(e, a).len() implies match #[trigger] spec_plan(e, a)[x] {
        ActionV::Update(r) => managed_names(a).contains(r.name),
        ActionV::Delete(r) => managed_names(a).contains(r.name),
        ActionV::Add(r) => true,
    } by {
        if x < up.len() {
            assert(spec_plan(e, a)[x] == up[x]);
        } else {
            assert(spec_plan(e, a)[x] == del[x - up.len()]);
        }
    }
}

/// Conflict avoidance: when a name is occupied in the actual set but not
/// managed, no plan ever adds or updates a record at that name.
pub proof fn lemma_plan_conflict_avoidance(e: Seq<RecordV>, a: Seq<RecordV>, n: Seq<char>)
    requires
        occupied_names(a).contains(n),
        !managed_names(a).contains(n),
    ensures
        forall|x: int|
            0 <= x < spec_plan(e, a).len() ==> match #[trigger] spec_plan(e, a)[x] {
                ActionV::Add(r) => r.name != n,
                ActionV::Update(r) => r.name != n,
                ActionV::Delete(r) => true,
            },
{
    lemma_update_plan_elems(e, a, e.len() as int);
    lemma_delete_plan_elems(e, a, a.len() as int);
    let up = update_plan(e, a, e.len() as int);
    let del = delete_plan(e, a, a.len() as int);
    assert forall|x: int|
        0 <= x < spec_plan(e, a).len() implies match #[trigger] spec_plan(e, a)[x] {
        ActionV::Add(r) => r.name != n,
        ActionV::Update(r) => r.name != n,
        ActionV::Delete(r) => true,
    } by {
        if x < up.len() {
            assert(spec_plan(e, a)[x] == up[x]);
        } else {
            assert(spec_plan(e, a)[x] == del[x - up.len()]);
        }
    }
}

/// One marker record per expected record's name.
pub open spec fn markers_of(e: Seq<RecordV>) -> Seq<RecordV> {
    e.map_values(|r: RecordV| marker_record(r.name))
}

/// The actual state the expected set itself calls for: the expected
/// records plus the marker record for every expected name.
pub open spec fn desired_actual(e: Seq<RecordV>) -> Seq<RecordV> {
    e + markers_of(e)
}

/// At most one expected record per diff identity `(type, name)`.
pub open spec fn unique_keys(e: Seq<RecordV>) -> bool {
    forall|i: int, j: int|
        0 <= i < j < e.len() ==> !((#[trigger] e[i])._type == (#[trigger] e[j])._type && e[i].name
            == e[j].name)
}

/// Every expected TXT record is an ownership marker.
pub open spec fn txt_are_markers(e: Seq<RecordV>) -> bool {
    forall|i: int| 0 <= i < e.len() && (#[trigger] e[i])._type == "TXT"@ ==> e[i].content
        == marker_content()
}

/// Every expected name carries its marker record within the expected set.
pub open spec fn marker_closed(e: Seq<RecordV>) -> bool {
    forall|i: int|
        0 <= i < e.len() ==> exists|j: int|
            0 <= j < e.len() && is_marker(#[trigger] e[j]) && e[j].name == (#[trigger] e[i]).name
}

/// Idempotence: when the actual state already equals the expected set
/// plus its markers, the plan is empty. Holds for expected sets with at
/// most one record per `(type, name)` whose TXT records are exactly the
/// markers of their own names.
#[verifier::rlimit(80)]
pub proof fn lemma_plan_idempotent(e: Seq<RecordV>)
    requires
        unique_keys(e),
        txt_are_markers(e),
        marker_closed(e),
    ensures
        spec_plan(e, desired_actual(e)) == Seq::<ActionV>::empty(),
{
    let a = desired_actual(e);
    assert(forall|i: int| 0 <= i < e.len() ==> a[i] == e[i]);
    assert(forall|i: int|
        0 <= i < e.len() ==> a[e.len() + i] == marker_record(#[trigger] e[i].name));

    assert forall|i: int| 0 <= i < e.len() implies action_for(#[trigger] e[i], a)
        == Seq::<ActionV>::empty() by {
        let t = e[i]._type;
        let n = e[i].name;
        lemma_find_match_props(a, t, n);
        assert(key_match(a[i], t, n));
        let ex = find_match(a, t, n).unwrap();
        let x = choose|x: int|
            0 <= x < a.len() && #[trigger] a[x] == find_match(a, t, n).unwrap() && key_match(
                a[x],
                t,
                n,
            );
        // The marker for this name makes it managed.
        assert(is_marker(a[e.len() + i]));
        assert(managed_names(a).contains(n));
        // Whatever record matched has the expected content already.
        if t == "TXT"@ {
            assert(e[i].content == marker_content());
            if x < e.len() {
                assert(ex.content == marker_content());
            } else {
                assert(ex == marker_record(e[x - e.len()].name));
            }
            assert(ex.content == e[i].content);
        } else {
            if x >= e.len() {
                assert(ex == marker_record(e[x - e.len()].name));
                assert(ex._type == "TXT"@);
                assert(false);
            }
            assert(a[x] == e[x]);
            if x != i {
                assert(!(e[i]._type == e[x]._type && e[i].name == e[x].name));
                assert(false);
            }
            assert(ex.content == e[i].content);
        }
    }

    assert forall|k: int| 0 <= k <= e.len() implies update_plan(e, a, k)
        == Seq::<ActionV>::empty() by {
        lemma_update_plan_empty(e, a, k);
    }

    assert forall|k: int| 0 <= k < a.len() implies delete_for(#[trigger] a[k], e, a)
        == Seq::<ActionV>::empty() by {
        let rec = a[k];
        lemma_find_match_props(e, rec._type, rec.name);
        if k < e.len() {
            assert(key_match(e[k], rec._type, rec.name));
        } else {
            assert(rec == marker_record(e[k - e.len()].name));
            let j = choose|j: int|
                0 <= j < e.len() && is_marker(#[trigger] e[j]) && e[j].name == e[k - e.len()].name;
            assert(key_match(e[j], rec._type, rec.name));
        }
        assert(find_match(e, rec._type, rec.name) is Some);
    }

    lemma_delete_plan_empty(e, a, a.len() as int);
    assert(spec_plan(e, a) =~= Seq::<ActionV>::empty());
}

/// When every step is empty, the update half of the plan is empty.
proof fn lemma_update_plan_empty(e: Seq<RecordV>, a: Seq<RecordV>, k: int)
    requires
        0 <= k <= e.len(),
        forall|i: int| 0 <= i < k ==> action_for(#[trigger] e[i], a) == Seq::<ActionV>::empty(),
    ensures
        update_plan(e, a, k) == Seq::<ActionV>::empty(),
    decreases k,
{
    if k > 0 {
        lemma_update_plan_empty(e, a, k - 1);
        assert(update_plan(e, a, k) =~= Seq::<ActionV>::empty());
    }
}

/// When every step is empty, the delete half of the plan is empty.
proof fn lemma_delete_plan_empty(e: Seq<RecordV>, a: Seq<RecordV>, k: int)
    requires
        0 <= k <= a.len(),
        forall|i: int| 0 <= i < k ==> delete_for(#[trigger] a[i], e, a) == Seq::<ActionV>::empty(),
    ensures
        delete_plan(e, a, k) == Seq::<ActionV>::empty(),
    decreases k,
{
    if k > 0 {
        lemma_delete_plan_empty(e, a, k - 1);
        assert(delete_plan(e, a, k) =~= Seq::<ActionV>::empty());
    }
}

} // verus!
