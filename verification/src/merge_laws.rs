//! Laws of the deep merge.
//!
//! Over well-formed documents the merge is idempotent (merging the same
//! overlay twice changes nothing), the overlay wins for keys both sides
//! hold when its value is not an object, keys only one side holds keep
//! that side's value, and every key of either side appears in the result.

use vstd::prelude::*;

use crate::json::JsonModel;
use crate::json::ModelEntries;
use crate::json::entries_of;
use crate::json::has_key;
use crate::json::index_of_key;
use crate::json::lemma_index_of_key;
use crate::json::lemma_index_of_key_unique;
use crate::json::unique_keys;
use crate::json::value_of_key;
use crate::json::wf_model;
use crate::merge::apply_entry;
use crate::merge::merge_entries;
use crate::merge::merge_spec;

verus! {

broadcast use vstd::seq::group_seq_axioms;

/// What the merge gives a base member: the overlay's value for its key
/// (merged into it when both are objects), or the base value when the
/// overlay does not hold the key.
pub open spec fn merged_member_value(b: ModelEntries, o: ModelEntries, i: int) -> JsonModel {
    if has_key(o, b[i].0) {
        if b[i].1 is Object && value_of_key(o, b[i].0) is Object {
            merge_spec(b[i].1, value_of_key(o, b[i].0))
        } else {
            value_of_key(o, b[i].0)
        }
    } else {
        b[i].1
    }
}

/// Dropping a head whose key is not `k` changes neither membership of `k`
/// nor its value.
proof fn lemma_key_cons(o: ModelEntries, k: Seq<char>)
    requires
        o.len() > 0,
        o[0].0 != k,
    ensures
        has_key(o, k) == has_key(o.drop_first(), k),
        has_key(o, k) ==> value_of_key(o, k) == value_of_key(o.drop_first(), k),
{
    let o1 = o.drop_first();
    lemma_index_of_key(o, k);
    lemma_index_of_key(o1, k);
    assert(forall|j: int| 0 <= j < o1.len() ==> o1[j] == o[j + 1]);
    if has_key(o1, k) {
        let r = index_of_key(o1, k);
        assert(index_of_key(o, k) == r + 1);
    }
    if has_key(o, k) {
        let r = index_of_key(o, k);
        assert(o[r].0 == k);
        assert(r >= 1);
        assert(o1[r - 1].0 == k);
        assert(has_key(o1, k));
    }
}

/// The full shape of `merge_entries`: base members keep their keys and take
/// their merged values in place; overlay-only members are appended; a key is
/// in the result exactly when one of the sides holds it.
proof fn lemma_merge_entries_char(b: ModelEntries, o: ModelEntries)
    requires
        unique_keys(b),
        unique_keys(o),
    ensures
        merge_entries(b, o).len() >= b.len(),
        unique_keys(merge_entries(b, o)),
        forall|i: int| 0 <= i < b.len() ==> (#[trigger] merge_entries(b, o)[i]).0 == b[i].0,
        forall|i: int|
            0 <= i < b.len() ==> (#[trigger] merge_entries(b, o)[i]).1 == merged_member_value(
                b,
                o,
                i,
            ),
        forall|i: int|
            b.len() <= i < merge_entries(b, o).len() ==> !has_key(
                b,
                (#[trigger] merge_entries(b, o)[i]).0,
            ) && has_key(o, merge_entries(b, o)[i].0) && merge_entries(b, o)[i].1 == value_of_key(
                o,
                merge_entries(b, o)[i].0,
            ),
        forall|k: Seq<char>|
            #![trigger has_key(merge_entries(b, o), k)]
            #![trigger has_key(b, k)]
            #![trigger has_key(o, k)]
            has_key(merge_entries(b, o), k) == (has_key(b, k) || has_key(o, k)),
    decreases o.len(),
{
    if o.len() == 0 {
        assert(merge_entries(b, o) == b);
    } else {
        let e = o[0];
        let o1 = o.drop_first();
        let b1 = apply_entry(b, e);
        let m = merge_entries(b, o);
        assert(m == merge_entries(b1, o1));
        assert(forall|j: int| 0 <= j < o1.len() ==> o1[j] == o[j + 1]);
        assert(unique_keys(o1));
        lemma_index_of_key(b, e.0);
        let idx = index_of_key(b, e.0);

        // The head's key is nowhere else in the overlay.
        assert forall|k: Seq<char>| has_key(o1, k) implies has_key(o, k) && (k == e.0 ==> false) by {
            let w = choose|j: int| 0 <= j < o1.len() && o1[j].0 == k;
            assert(o[w + 1].0 == k);
        }
        assert(!has_key(o1, e.0));

        if idx >= 0 {
            // b1 is b with the member at idx replaced; keys are unchanged.
            assert(b1.len() == b.len());
            assert(forall|i: int| 0 <= i < b.len() && i != idx ==> b1[i] == b[i]);
            assert(b1[idx].0 == e.0);
            assert(forall|i: int| 0 <= i < b.len() ==> b1[i].0 == b[i].0);
            assert(unique_keys(b1));
            assert forall|k: Seq<char>| #![trigger has_key(b1, k)] #![trigger has_key(b, k)]
                has_key(b1, k) == has_key(b, k) by {
                if has_key(b1, k) {
                    let w = choose|j: int| 0 <= j < b1.len() && b1[j].0 == k;
                    assert(b[w].0 == k);
                }
                if has_key(b, k) {
                    let w = choose|j: int| 0 <= j < b.len() && b[j].0 == k;
                    assert(b1[w].0 == k);
                }
            }
        } else {
            assert(b1 == b.push(e));
            assert(forall|i: int| 0 <= i < b.len() ==> b1[i] == b[i]);
            assert(b1[b.len() as int] == e);
            assert(forall|j: int| 0 <= j < b.len() ==> b[j].0 != e.0);
            assert(unique_keys(b1));
            assert forall|k: Seq<char>| #![trigger has_key(b1, k)] #![trigger has_key(b, k)]
                has_key(b1, k) == (has_key(b, k) || k == e.0) by {
                if has_key(b1, k) {
                    let w = choose|j: int| 0 <= j < b1.len() && b1[j].0 == k;
                    if w < b.len() {
                        assert(b[w].0 == k);
                    }
                }
                if has_key(b, k) {
                    let w = choose|j: int| 0 <= j < b.len() && b[j].0 == k;
                    assert(b1[w].0 == k);
                }
            }
        }

        lemma_merge_entries_char(b1, o1);

        // Values of members that were already in b.
        assert forall|i: int| 0 <= i < b.len() implies (#[trigger] m[i]).1 == merged_member_value(
            b,
            o,
            i,
        ) by {
            if idx >= 0 && i == idx {
                lemma_index_of_key_unique(o, e.0, 0);
                assert(value_of_key(o, e.0) == e.1);
                assert(!has_key(o1, b1[i].0));
                assert(m[i].1 == b1[i].1);
            } else {
                assert(b1[i] == b[i]);
                assert(b[i].0 != e.0);
                lemma_key_cons(o, b[i].0);
                assert(m[i].1 == merged_member_value(b1, o1, i));
            }
        }

        // Appended members come from the overlay alone.
        assert forall|i: int| b.len() <= i < m.len() implies !has_key(b, (#[trigger] m[i]).0)
            && has_key(o, m[i].0) && m[i].1 == value_of_key(o, m[i].0) by {
            if idx >= 0 {
                assert(!has_key(b1, m[i].0));
                assert(has_key(o1, m[i].0));
                assert(m[i].0 != e.0);
                lemma_key_cons(o, m[i].0);
            } else {
                if i == b.len() {
                    assert(m[i].0 == b1[i].0);
                    assert(m[i].0 == e.0);
                    assert(m[i].1 == merged_member_value(b1, o1, i));
                    assert(!has_key(o1, e.0));
                    assert(m[i].1 == b1[i].1);
                    lemma_index_of_key_unique(o, e.0, 0);
                    assert(value_of_key(o, e.0) == e.1);
                } else {
                    assert(!has_key(b1, m[i].0));
                    assert(has_key(o1, m[i].0));
                    assert(m[i].0 != e.0);
                    assert(!has_key(b, m[i].0));
                    lemma_key_cons(o, m[i].0);
                }
            }
        }

        // Membership in the result.
        assert forall|k: Seq<char>|
            #![trigger has_key(m, k)]
            #![trigger has_key(b, k)]
            #![trigger has_key(o, k)]
            has_key(m, k) == (has_key(b, k) || has_key(o, k)) by {
            assert(has_key(m, k) == (has_key(b1, k) || has_key(o1, k)));
            if k == e.0 {
                assert(has_key(o, k));
                assert(has_key(b1, k));
            } else {
                lemma_key_cons(o, k);
            }
        }
    }
}

/// Merging a well-formed document into itself changes nothing.
pub proof fn lemma_merge_self(x: JsonModel)
    requires
        wf_model(x),
    ensures
        merge_spec(x, x) == x,
    decreases x,
{
    if x is Object {
        let es = entries_of(x);
        assert(x == JsonModel::Object(es));
        lemma_merge_entries_char(es, es);
        let m = merge_entries(es, es);
        if m.len() > es.len() {
            let i0 = es.len() as int;
            assert(!has_key(es, (merge_entries(es, es)[i0]).0));
            assert(has_key(es, (merge_entries(es, es)[i0]).0));
        }
        assert forall|i: int| 0 <= i < es.len() implies m[i] == es[i] by {
            assert(m[i].0 == es[i].0);
            assert(has_key(es, es[i].0));
            lemma_index_of_key_unique(es, es[i].0, i);
            assert(value_of_key(es, es[i].0) == es[i].1);
            if es[i].1 is Object {
                assert(wf_model(es[i].1));
                lemma_merge_self(es[i].1);
            }
            assert(m[i].1 == es[i].1);
        }
        assert(m =~= es);
    }
}

/// Merge idempotence: merging an overlay into its own prior merge result
/// gives that result again.
pub proof fn lemma_merge_idempotent(a: JsonModel, b: JsonModel)
    requires
        wf_model(a),
        wf_model(b),
    ensures
        merge_spec(merge_spec(a, b), b) == merge_spec(a, b),
    decreases b,
{
    if !(a is Object && b is Object) {
        assert(merge_spec(a, b) == b);
        lemma_merge_self(b);
    } else {
        let ae = entries_of(a);
        let oe = entries_of(b);
        assert(a == JsonModel::Object(ae));
        assert(b == JsonModel::Object(oe));
        lemma_merge_entries_char(ae, oe);
        let m = merge_entries(ae, oe);
        lemma_merge_entries_char(m, oe);
        let m2 = merge_entries(m, oe);
        if m2.len() > m.len() {
            let i0 = m.len() as int;
            assert(!has_key(m, (merge_entries(m, oe)[i0]).0));
            assert(has_key(oe, (merge_entries(m, oe)[i0]).0));
            assert(has_key(m, (merge_entries(m, oe)[i0]).0));
        }
        assert forall|i: int| 0 <= i < m.len() implies m2[i] == m[i] by {
            assert(m2[i].0 == m[i].0);
            let k = m[i].0;
            assert(m2[i].1 == merged_member_value(m, oe, i));
            if has_key(oe, k) {
                let ov = value_of_key(oe, k);
                lemma_index_of_key(oe, k);
                assert(oe[index_of_key(oe, k)].1 == ov);
                assert(wf_model(ov));
                if i < ae.len() && ae[i].1 is Object && ov is Object {
                    assert(ae[i].0 == k);
                    assert(m[i].1 == merged_member_value(ae, oe, i));
                    assert(m[i].1 == merge_spec(ae[i].1, ov));
                    assert(m[i].1 is Object);
                    assert(wf_model(ae[i].1));
                    lemma_merge_idempotent(ae[i].1, ov);
                } else {
                    if i < ae.len() {
                        assert(ae[i].0 == k);
                        assert(m[i].1 == merged_member_value(ae, oe, i));
                        assert(m[i].1 == ov);
                    } else {
                        assert(m[i].1 == value_of_key(oe, k));
                    }
                    if ov is Object {
                        lemma_merge_self(ov);
                    }
                }
            } else {
                assert(m2[i].1 == m[i].1);
            }
        }
        assert(m2 =~= m);
    }
}

/// Merge precedence: for a key both objects hold, where the overlay's
/// value is not an object, the merged document holds the overlay's value.
pub proof fn lemma_merge_precedence(a: JsonModel, b: JsonModel, k: Seq<char>)
    requires
        wf_model(a),
        wf_model(b),
        a is Object,
        b is Object,
        has_key(entries_of(a), k),
        has_key(entries_of(b), k),
        !(value_of_key(entries_of(b), k) is Object),
    ensures
        merge_spec(a, b) is Object,
        has_key(entries_of(merge_spec(a, b)), k),
        value_of_key(entries_of(merge_spec(a, b)), k) == value_of_key(entries_of(b), k),
{
    let ae = entries_of(a);
    let oe = entries_of(b);
    assert(a == JsonModel::Object(ae));
    assert(b == JsonModel::Object(oe));
    lemma_merge_entries_char(ae, oe);
    let m = merge_entries(ae, oe);
    lemma_index_of_key(ae, k);
    let i = index_of_key(ae, k);
    assert(m[i].0 == k);
    lemma_index_of_key_unique(m, k, i);
    assert(value_of_key(m, k) == m[i].1);
    assert(m[i].1 == merged_member_value(ae, oe, i));
}

/// Merge additivity: a key held by only one of the two objects keeps that
/// side's value in the merged document.
pub proof fn lemma_merge_additivity(a: JsonModel, b: JsonModel, k: Seq<char>)
    requires
        wf_model(a),
        wf_model(b),
        a is Object,
        b is Object,
    ensures
        merge_spec(a, b) is Object,
        has_key(entries_of(a), k) && !has_key(entries_of(b), k) ==> has_key(
            entries_of(merge_spec(a, b)),
            k,
        ) && value_of_key(entries_of(merge_spec(a, b)), k) == value_of_key(entries_of(a), k),
        !has_key(entries_of(a), k) && has_key(entries_of(b), k) ==> has_key(
            entries_of(merge_spec(a, b)),
            k,
        ) && value_of_key(entries_of(merge_spec(a, b)), k) == value_of_key(entries_of(b), k),
{
    let ae = entries_of(a);
    let oe = entries_of(b);
    assert(a == JsonModel::Object(ae));
    assert(b == JsonModel::Object(oe));
    lemma_merge_entries_char(ae, oe);
    let m = merge_entries(ae, oe);
    if has_key(ae, k) && !has_key(oe, k) {
        lemma_index_of_key(ae, k);
        let i = index_of_key(ae, k);
        assert(m[i].0 == k);
        lemma_index_of_key_unique(m, k, i);
        assert(value_of_key(m, k) == m[i].1);
        assert(m[i].1 == merged_member_value(ae, oe, i));
        assert(value_of_key(ae, k) == ae[i].1);
    }
    if !has_key(ae, k) && has_key(oe, k) {
        assert(has_key(m, k));
        lemma_index_of_key(m, k);
        let i = index_of_key(m, k);
        assert(m[i].0 == k);
        if i < ae.len() {
            assert(m[i].0 == ae[i].0);
            assert(has_key(ae, k));
        }
        assert(value_of_key(m, k) == value_of_key(oe, k));
    }
}

} // verus!
