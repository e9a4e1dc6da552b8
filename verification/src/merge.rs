//! The non-destructive deep merge of two JSON documents.
//!
//! The overlay wins wherever both sides hold a value for the same key and
//! the two values are not both objects; where both are objects the merge
//! recurses.  Keys only in the base are retained, keys only in the overlay
//! are appended in overlay order, and arrays are replaced wholesale, never
//! merged elementwise.

use vstd::prelude::*;

use crate::json::JsonModel;
use crate::json::JsonValue;
use crate::json::ModelEntries;
use crate::json::clone_entries;
use crate::json::entries_view;
use crate::json::find_key;
use crate::json::index_of_key;

verus! {

broadcast use vstd::std_specs::vec::group_vec_axioms, vstd::seq::group_seq_axioms;

/// Merging one overlay member into a base object: an existing member is
/// replaced (or, object into object, merged); a new key is appended.
pub open spec fn apply_entry(b: ModelEntries, e: (Seq<char>, JsonModel)) -> ModelEntries
    decreases e, 0int,
{
    let i = index_of_key(b, e.0);
    if i >= 0 {
        if b[i].1 is Object && e.1 is Object {
            b.update(i, (e.0, merge_spec(b[i].1, e.1)))
        } else {
            b.update(i, e)
        }
    } else {
        b.push(e)
    }
}

/// Folding every overlay member into the base object, in overlay order.
pub open spec fn merge_entries(b: ModelEntries, o: ModelEntries) -> ModelEntries
    decreases o, 1int,
{
    if o.len() == 0 {
        b
    } else {
        merge_entries(apply_entry(b, o[0]), o.drop_first())
    }
}

/// The merge of `overlay` into `base`: two objects merge member by member;
/// any other pair is replaced by the overlay.
pub open spec fn merge_spec(base: JsonModel, overlay: JsonModel) -> JsonModel
    decreases overlay, 2int,
{
    match (base, overlay) {
        (JsonModel::Object(b), JsonModel::Object(o)) => JsonModel::Object(merge_entries(b, o)),
        _ => overlay,
    }
}

/// The empty JSON object, the base used when no document exists yet.
pub open spec fn empty_object_model() -> JsonModel {
    JsonModel::Object(Seq::empty())
}

/// Folding one more member equals applying it to the folded prefix.
pub proof fn lemma_merge_entries_push(b: ModelEntries, o: ModelEntries, e: (Seq<char>, JsonModel))
    ensures
        merge_entries(b, o.push(e)) == apply_entry(merge_entries(b, o), e),
    decreases o.len(),
{
    if o.len() == 0 {
        assert(o.push(e).len() == 1);
        assert(o.push(e)[0] == e);
        assert(o.push(e).drop_first() =~= Seq::<(Seq<char>, JsonModel)>::empty());
        assert(merge_entries(b, o.push(e)) == merge_entries(
            apply_entry(b, e),
            o.push(e).drop_first(),
        ));
        assert(merge_entries(apply_entry(b, e), o.push(e).drop_first()) == apply_entry(b, e));
        assert(merge_entries(b, o) == b);
    } else {
        assert(o.push(e)[0] == o[0]);
        assert(o.push(e).drop_first() =~= o.drop_first().push(e));
        assert(merge_entries(b, o.push(e)) == merge_entries(
            apply_entry(b, o[0]),
            o.drop_first().push(e),
        ));
        lemma_merge_entries_push(apply_entry(b, o[0]), o.drop_first(), e);
        assert(merge_entries(b, o) == merge_entries(apply_entry(b, o[0]), o.drop_first()));
    }
}

/// The merge of `overlay` into `base`, as a new document.
#[verifier::loop_isolation(false)]
pub fn merged(base: &JsonValue, overlay: &JsonValue) -> (r: JsonValue)
    ensures
        r@ == merge_spec(base@, overlay@),
    decreases overlay,
{
    match (base, overlay) {
        (JsonValue::Object(b), JsonValue::Object(o)) => {
            let ghost bes = entries_view(b@);
            let ghost oes = entries_view(o@);
            let mut res = clone_entries(b);
            let mut j: usize = 0;
            while j < o.len()
                invariant
                    j <= o@.len(),
                    entries_view(res@) == merge_entries(bes, oes.take(j as int)),
                decreases o@.len() - j,
            {
                let ghost prev = entries_view(res@);
                match find_key(&res, o[j].0.as_str()) {
                    Some(i) => {
                        let ghost res0 = res@;
                        let both = res[i].1.is_object() && o[j].1.is_object();
                        if both {
                            let m = merged(&res[i].1, &o[j].1);
                            let pair = (o[j].0.clone(), m);
                            res[i] = pair;
                            proof {
                                let e = oes[j as int];
                                assert(e.0 == o@[j as int].0@);
                                assert(index_of_key(prev, e.0) == i as int);
                                assert(prev[i as int].1 is Object && e.1 is Object);
                                assert(res@ == res0.update(i as int, pair));
                                assert(pair.0@ == e.0);
                                assert(pair.1@ == merge_spec(prev[i as int].1, e.1));
                                assert(apply_entry(prev, e) == prev.update(
                                    i as int,
                                    (e.0, merge_spec(prev[i as int].1, e.1)),
                                ));
                                assert(entries_view(res@) =~= apply_entry(prev, e));
                            }
                        } else {
                            let pair = (o[j].0.clone(), o[j].1.clone());
                            res[i] = pair;
                            proof {
                                let e = oes[j as int];
                                assert(index_of_key(prev, e.0) == i as int);
                                assert(!(prev[i as int].1 is Object && e.1 is Object));
                                assert(res@ == res0.update(i as int, pair));
                                assert(pair.0@ == e.0 && pair.1@ == e.1);
                                assert(apply_entry(prev, e) == prev.update(i as int, e));
                                assert(entries_view(res@) =~= apply_entry(prev, e));
                            }
                        }
                    },
                    None => {
                        res.push((o[j].0.clone(), o[j].1.clone()));
                        proof {
                            crate::json::lemma_index_of_key(prev, oes[j as int].0);
                            assert(entries_view(res@) =~= apply_entry(prev, oes[j as int]));
                        }
                    },
                }
                proof {
                    assert(oes.take(j + 1) =~= oes.take(j as int).push(oes[j as int]));
                    lemma_merge_entries_push(bes, oes.take(j as int), oes[j as int]);
                }
                j += 1;
            }
            proof {
                assert(oes.take(o@.len() as int) =~= oes);
            }
            JsonValue::Object(res)
        },
        _ => overlay.clone(),
    }
}

/// Merges `overlay` into `base` in place.
pub fn merge_json(base: &mut JsonValue, overlay: &JsonValue)
    ensures
        final(base)@ == merge_spec(old(base)@, overlay@),
{
    let m = merged(base, overlay);
    *base = m;
}

/// The document written back for a merge target: the overlay merged into
/// the existing document, or into the empty object where none exists.
pub fn merged_file_content(existing: Option<&JsonValue>, overlay: &JsonValue) -> (r: JsonValue)
    ensures
        match existing {
            Some(e) => r@ == merge_spec(e@, overlay@),
            None => r@ == merge_spec(empty_object_model(), overlay@),
        },
{
    match existing {
        Some(e) => merged(e, overlay),
        None => {
            let empty = JsonValue::Object(Vec::new());
            proof {
                assert(entries_view(Seq::<(String, JsonValue)>::empty()) =~= Seq::<(
                    Seq<char>,
                    JsonModel,
                )>::empty());
            }
            merged(&empty, overlay)
        },
    }
}

} // verus!
