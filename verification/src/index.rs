//! Reading what the server reports about the indexes of a collection.

use vstd::prelude::*;
use crate::json::JsonValue;
use crate::text::same_text;

verus! {

/// The objects among `items`, in order.
pub open spec fn objects_of(items: Seq<JsonValue>) -> Seq<JsonValue> {
    items.filter(|v: JsonValue| v is Object)
}

/// The usage statistics in the reply to an index-statistics command: the
/// documents of the array `firstBatch` inside the document `cursor`.
/// A reply of another shape holds none.
pub open spec fn usage_entries(stats: JsonValue) -> Seq<JsonValue> {
    match stats.field("cursor"@) {
        Some(JsonValue::Object(cursor)) => match cursor.field("firstBatch"@) {
            Some(JsonValue::Array(batch)) => objects_of(batch@),
            _ => Seq::empty(),
        },
        _ => Seq::empty(),
    }
}

pub fn analyze_index_usage(stats: &JsonValue) -> (r: Vec<&JsonValue>)
    ensures
        r@.map_values(|v: &JsonValue| *v) == usage_entries(*stats),
{
    let mut out: Vec<&JsonValue> = Vec::new();
    proof {
        assert(out@.map_values(|v: &JsonValue| *v) =~= Seq::empty());
    }
    match stats.get("cursor") {
        Some(JsonValue::Object(cursor)) => match cursor.get("firstBatch") {
            Some(JsonValue::Array(batch)) => {
                let mut i: usize = 0;
                proof {
                    assert(batch@.take(0) =~= Seq::empty());
                }
                while i < batch.len()
                    invariant
                        i <= batch@.len(),
                        out@.map_values(|v: &JsonValue| *v) == objects_of(batch@.take(i as int)),
                    decreases batch@.len() - i,
                {
                    proof {
                        let k = i as int;
                        assert(batch@.take(k + 1).drop_last() =~= batch@.take(k));
                        assert(batch@.take(k + 1).last() == batch@[k]);
                        reveal(Seq::filter);
                    }
                    let ghost before = out@;
                    match &batch[i] {
                        JsonValue::Object(_) => {
                            out.push(&batch[i]);
                            assert(out@.map_values(|v: &JsonValue| *v) =~= before.map_values(
                                |v: &JsonValue| *v,
                            ).push(batch@[i as int]));
                        },
                        _ => {},
                    }
                    i += 1;
                }
                proof {
                    assert(batch@.take(batch@.len() as int) =~= batch@);
                }
            },
            _ => {},
        },
        _ => {},
    }
    out
}

/// The name an index description carries: its string field `name`, or the
/// empty name where it has none.
pub open spec fn index_name(index: JsonValue) -> Seq<char> {
    match index.field("name"@) {
        Some(JsonValue::Text(name)) => name@,
        _ => Seq::empty(),
    }
}

/// Whether one of `indexes` is named `name`.
pub open spec fn has_index(indexes: Seq<JsonValue>, name: Seq<char>) -> bool {
    exists|i: int| 0 <= i < indexes.len() && index_name(#[trigger] indexes[i]) == name
}

/// A piece of advice about the indexes of a collection.
pub struct IndexRecommendation {
    pub kind: &'static str,
    pub field: &'static str,
    pub recommendation: &'static str,
}

/// The advice for a collection with the given indexes: where the index on
/// `_id`, named `_id_`, is missing, to see to it; else none.
pub fn get_index_recommendations(indexes: &Vec<JsonValue>) -> (r: Vec<IndexRecommendation>)
    ensures
        has_index(indexes@, "_id_"@) ==> r@.len() == 0,
        !has_index(indexes@, "_id_"@) ==> {
            &&& r@.len() == 1
            &&& r@[0].kind@ == "missing"@
            &&& r@[0].field@ == "_id"@
            &&& r@[0].recommendation@ == "Ensure _id index exists (should be automatic)"@
        },
{
    let mut i: usize = 0;
    let mut found = false;
    while i < indexes.len() && !found
        invariant
            i <= indexes@.len(),
            found ==> has_index(indexes@, "_id_"@),
            !found ==> forall|j: int| 0 <= j < i ==> index_name(#[trigger] indexes@[j]) != "_id_"@,
        decreases indexes@.len() - i,
    {
        match indexes[i].get("name") {
            Some(JsonValue::Text(name)) => {
                if same_text(name.as_str(), "_id_") {
                    found = true;
                }
            },
            _ => {
                proof {
                    reveal_strlit("_id_");
                    assert("_id_"@.len() == 4);
                }
            },
        }
        i += 1;
    }
    let mut out: Vec<IndexRecommendation> = Vec::new();
    if !found {
        out.push(
            IndexRecommendation {
                kind: "missing",
                field: "_id",
                recommendation: "Ensure _id index exists (should be automatic)",
            },
        );
    }
    out
}

} // verus!
