//! The JSON document model.
//!
//! A document is a tree of values; object members keep their insertion
//! order, and numbers are carried as their literal text, which none of the
//! engine's logic inspects.  `JsonModel` is the same tree over `Seq`, used
//! as the mathematical view of a `JsonValue` in every contract.

use vstd::prelude::*;

verus! {

broadcast use vstd::std_specs::vec::group_vec_axioms, vstd::seq::group_seq_axioms;

/// A JSON document tree.
pub enum JsonValue {
    Null,
    Bool(bool),
    Number(String),
    Str(String),
    Array(Vec<JsonValue>),
    Object(Vec<(String, JsonValue)>),
}

/// The mathematical shape of a JSON document.
pub enum JsonModel {
    Null,
    Bool(bool),
    Number(Seq<char>),
    Str(Seq<char>),
    Array(Seq<JsonModel>),
    Object(Seq<(Seq<char>, JsonModel)>),
}

/// The members of a JSON object, in order.
pub type ModelEntries = Seq<(Seq<char>, JsonModel)>;

/// The views of a sequence of values, elementwise.
pub open spec fn list_view(items: Seq<JsonValue>) -> Seq<JsonModel>
    decreases items,
{
    Seq::new(
        items.len(),
        |i: int|
            if 0 <= i < items.len() {
                items[i]@
            } else {
                JsonModel::Null
            },
    )
}

/// The views of a sequence of members, elementwise.
pub open spec fn entries_view(entries: Seq<(String, JsonValue)>) -> ModelEntries
    decreases entries,
{
    Seq::new(
        entries.len(),
        |i: int|
            if 0 <= i < entries.len() {
                (entries[i].0@, entries[i].1@)
            } else {
                (Seq::<char>::empty(), JsonModel::Null)
            },
    )
}

impl View for JsonValue {
    type V = JsonModel;

    open spec fn view(&self) -> JsonModel
        decreases self,
    {
        match self {
            JsonValue::Null => JsonModel::Null,
            JsonValue::Bool(b) => JsonModel::Bool(*b),
            JsonValue::Number(s) => JsonModel::Number(s@),
            JsonValue::Str(s) => JsonModel::Str(s@),
            JsonValue::Array(items) => JsonModel::Array(list_view(items@)),
            JsonValue::Object(entries) => JsonModel::Object(entries_view(entries@)),
        }
    }
}

/// No two members of an object share a key.
pub open spec fn unique_keys(es: ModelEntries) -> bool {
    forall|i: int, j: int| 0 <= i < j < es.len() ==> es[i].0 != es[j].0
}

/// Well-formed documents: every object's keys are distinct, recursively.
pub open spec fn wf_model(m: JsonModel) -> bool
    decreases m,
{
    match m {
        JsonModel::Array(items) => forall|i: int|
            0 <= i < items.len() ==> wf_model(#[trigger] items[i]),
        JsonModel::Object(es) => {
            &&& unique_keys(es)
            &&& forall|i: int| 0 <= i < es.len() ==> wf_model(#[trigger] es[i].1)
        },
        _ => true,
    }
}

/// The members of an object; the empty sequence for any other value.
pub open spec fn entries_of(m: JsonModel) -> ModelEntries {
    match m {
        JsonModel::Object(es) => es,
        _ => Seq::empty(),
    }
}

/// The index of the first member with key `k`, or `-1` if there is none.
pub open spec fn index_of_key(es: ModelEntries, k: Seq<char>) -> int
    decreases es.len(),
{
    if es.len() == 0 {
        -1
    } else if es[0].0 == k {
        0
    } else {
        let r = index_of_key(es.drop_first(), k);
        if r == -1 {
            -1
        } else {
            r + 1
        }
    }
}

/// An object has a member with key `k`.
pub open spec fn has_key(es: ModelEntries, k: Seq<char>) -> bool {
    exists|i: int| 0 <= i < es.len() && es[i].0 == k
}

/// The value of the first member with key `k`.
pub open spec fn value_of_key(es: ModelEntries, k: Seq<char>) -> JsonModel {
    es[index_of_key(es, k)].1
}

/// What `index_of_key` computes: the first position holding `k`.
pub proof fn lemma_index_of_key(es: ModelEntries, k: Seq<char>)
    ensures
        -1 <= index_of_key(es, k) < es.len(),
        index_of_key(es, k) >= 0 ==> es[index_of_key(es, k)].0 == k,
        forall|j: int| 0 <= j < index_of_key(es, k) ==> es[j].0 != k,
        index_of_key(es, k) == -1 ==> forall|j: int| 0 <= j < es.len() ==> es[j].0 != k,
        (index_of_key(es, k) >= 0) == has_key(es, k),
    decreases es.len(),
{
    if es.len() > 0 && es[0].0 != k {
        lemma_index_of_key(es.drop_first(), k);
        assert(forall|j: int| 1 <= j < es.len() ==> es[j] == es.drop_first()[j - 1]);
    }
    if index_of_key(es, k) >= 0 {
        assert(has_key(es, k));
    }
}

/// `index_of_key` is determined by the first-position facts.
pub proof fn lemma_index_of_key_unique(es: ModelEntries, k: Seq<char>, i: int)
    requires
        0 <= i < es.len(),
        es[i].0 == k,
        forall|j: int| 0 <= j < i ==> es[j].0 != k,
    ensures
        index_of_key(es, k) == i,
{
    lemma_index_of_key(es, k);
    let r = index_of_key(es, k);
    if r < i {
        assert(es[r].0 == k);
    } else if r > i {
        assert(es[i].0 != k);
    }
}

impl JsonValue {
    /// Whether this value is a JSON object.
    pub fn is_object(&self) -> (r: bool)
        ensures
            r == (self@ is Object),
    {
        match self {
            JsonValue::Object(_) => true,
            _ => false,
        }
    }
}

impl Clone for JsonValue {
    /// A deep copy with the same view.
    #[verifier::loop_isolation(false)]
    fn clone(&self) -> (res: Self)
        ensures
            res@ == self@,
        decreases self,
    {
        match self {
            JsonValue::Null => JsonValue::Null,
            JsonValue::Bool(b) => JsonValue::Bool(*b),
            JsonValue::Number(s) => JsonValue::Number(s.clone()),
            JsonValue::Str(s) => JsonValue::Str(s.clone()),
            JsonValue::Array(items) => {
                let mut out: Vec<JsonValue> = Vec::new();
                let mut i: usize = 0;
                while i < items.len()
                    invariant
                        i <= items.len(),
                        out@.len() == i,
                        forall|k: int| 0 <= k < i ==> out@[k]@ == items@[k]@,
                    decreases items.len() - i,
                {
                    out.push(items[i].clone());
                    i += 1;
                }
                let res = JsonValue::Array(out);
                proof {
                    assert(list_view(out@) =~= list_view(items@));
                }
                res
            },
            JsonValue::Object(entries) => {
                let mut out: Vec<(String, JsonValue)> = Vec::new();
                let mut i: usize = 0;
                while i < entries.len()
                    invariant
                        i <= entries.len(),
                        out@.len() == i,
                        forall|k: int|
                            0 <= k < i ==> out@[k].0@ == entries@[k].0@ && out@[k].1@
                                == entries@[k].1@,
                    decreases entries.len() - i,
                {
                    let pair = (entries[i].0.clone(), entries[i].1.clone());
                    out.push(pair);
                    i += 1;
                }
                let res = JsonValue::Object(out);
                proof {
                    assert(entries_view(out@) =~= entries_view(entries@));
                }
                res
            },
        }
    }
}

/// Deep structural equality of two documents.
#[verifier::loop_isolation(false)]
pub fn json_eq(a: &JsonValue, b: &JsonValue) -> (r: bool)
    ensures
        r == (a@ == b@),
    decreases a,
{
    match (a, b) {
        (JsonValue::Null, JsonValue::Null) => true,
        (JsonValue::Bool(x), JsonValue::Bool(y)) => x == y,
        (JsonValue::Number(x), JsonValue::Number(y)) => crate::strings::str_equal(
            x.as_str(),
            y.as_str(),
        ),
        (JsonValue::Str(x), JsonValue::Str(y)) => crate::strings::str_equal(x.as_str(), y.as_str()),
        (JsonValue::Array(xs), JsonValue::Array(ys)) => {
            if xs.len() != ys.len() {
                proof {
                    assert(a@ == JsonModel::Array(list_view(xs@)));
                    assert(b@ == JsonModel::Array(list_view(ys@)));
                    assert(list_view(xs@).len() != list_view(ys@).len());
                }
                return false;
            }
            let mut i: usize = 0;
            while i < xs.len()
                invariant
                    i <= xs@.len(),
                    xs@.len() == ys@.len(),
                    forall|k: int| 0 <= k < i ==> list_view(xs@)[k] == list_view(ys@)[k],
                decreases xs@.len() - i,
            {
                if !json_eq(&xs[i], &ys[i]) {
                    assert(list_view(xs@)[i as int] != list_view(ys@)[i as int]);
                    return false;
                }
                i += 1;
            }
            proof {
                assert(list_view(xs@) =~= list_view(ys@));
            }
            true
        },
        (JsonValue::Object(xs), JsonValue::Object(ys)) => {
            if xs.len() != ys.len() {
                proof {
                    assert(a@ == JsonModel::Object(entries_view(xs@)));
                    assert(b@ == JsonModel::Object(entries_view(ys@)));
                    assert(entries_view(xs@).len() != entries_view(ys@).len());
                }
                return false;
            }
            let mut i: usize = 0;
            while i < xs.len()
                invariant
                    i <= xs@.len(),
                    xs@.len() == ys@.len(),
                    forall|k: int| 0 <= k < i ==> entries_view(xs@)[k] == entries_view(ys@)[k],
                decreases xs@.len() - i,
            {
                let keys_eq = crate::strings::str_equal(xs[i].0.as_str(), ys[i].0.as_str());
                if !keys_eq {
                    assert(entries_view(xs@)[i as int].0 != entries_view(ys@)[i as int].0);
                    return false;
                }
                if !json_eq(&xs[i].1, &ys[i].1) {
                    assert(entries_view(xs@)[i as int].1 != entries_view(ys@)[i as int].1);
                    return false;
                }
                i += 1;
            }
            proof {
                assert(entries_view(xs@) =~= entries_view(ys@));
            }
            true
        },
        _ => {
            proof {
                assert(a@ != b@);
            }
            false
        },
    }
}

/// A deep copy of an object's members, preserving the view.
pub fn clone_entries(entries: &Vec<(String, JsonValue)>) -> (r: Vec<(String, JsonValue)>)
    ensures
        entries_view(r@) == entries_view(entries@),
{
    let mut out: Vec<(String, JsonValue)> = Vec::new();
    let mut i: usize = 0;
    while i < entries.len()
        invariant
            i <= entries.len(),
            out@.len() == i,
            forall|k: int|
                0 <= k < i ==> out@[k].0@ == entries@[k].0@ && out@[k].1@ == entries@[k].1@,
        decreases entries.len() - i,
    {
        let pair = (entries[i].0.clone(), entries[i].1.clone());
        out.push(pair);
        i += 1;
    }
    proof {
        assert(entries_view(out@) =~= entries_view(entries@));
    }
    out
}

/// Finds the first member of `entries` whose key is `key`.
pub fn find_key(entries: &Vec<(String, JsonValue)>, key: &str) -> (r: Option<usize>)
    ensures
        ({
            let es = entries_view(entries@);
            match r {
                Some(i) => i < entries@.len() && index_of_key(es, key@) == i,
                None => !has_key(es, key@),
            }
        }),
{
    let ghost es = entries_view(entries@);
    let mut i: usize = 0;
    while i < entries.len()
        invariant
            i <= entries@.len(),
            es == entries_view(entries@),
            forall|j: int| 0 <= j < i ==> es[j].0 != key@,
        decreases entries@.len() - i,
    {
        let hit = crate::strings::str_equal(entries[i].0.as_str(), key);
        if hit {
            proof {
                lemma_index_of_key_unique(es, key@, i as int);
            }
            return Some(i);
        }
        i += 1;
    }
    proof {
        lemma_index_of_key(es, key@);
    }
    None
}

} // verus!
