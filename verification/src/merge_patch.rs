use vstd::prelude::*;
use crate::members::{lemma_sorted_found, lemma_with_member, lemma_without_member};
use crate::value::{
    JsonModel, JsonObject, JsonValue, group_view, key_index, keys_sorted, lemma_key_index_found,
    lemma_view_entries, member, with_member, without_member,
};

verus! {

/// The document that merging `patch` into `target` gives: a patch that is
/// not an object replaces the target; an object patch is applied member by
/// member to the target's members, or to no members where the target is not
/// an object.
pub open spec fn merge_spec(target: JsonModel, patch: JsonModel) -> JsonModel
    decreases patch,
{
    match patch {
        JsonModel::Object(pe) => JsonModel::Object(merge_members(object_members(target), pe)),
        _ => patch,
    }
}

/// The members of an object, and none for any other value.
pub open spec fn object_members(v: JsonModel) -> Seq<(Seq<char>, JsonModel)> {
    match v {
        JsonModel::Object(e) => e,
        _ => Seq::empty(),
    }
}

/// What `e` holds under `k`, or `null` where it lacks the key.
pub open spec fn member_or_null(e: Seq<(Seq<char>, JsonModel)>, k: Seq<char>) -> JsonModel {
    match member(e, k) {
        Some(c) => c,
        None => JsonModel::Null,
    }
}

/// The members `te` after applying the patch members `pe` in order: a
/// `null` removes the key; any other value is merged into what the key held,
/// or into `null` where the key was absent (so that the `null` members of a
/// new object are dropped too).
pub open spec fn merge_members(
    te: Seq<(Seq<char>, JsonModel)>,
    pe: Seq<(Seq<char>, JsonModel)>,
) -> Seq<(Seq<char>, JsonModel)>
    decreases pe,
{
    if pe.len() == 0 {
        te
    } else {
        let acc = merge_members(te, pe.subrange(0, pe.len() - 1));
        let k = pe[pe.len() - 1].0;
        match pe[pe.len() - 1].1 {
            JsonModel::Null => without_member(acc, k),
            _ => with_member(acc, k, merge_spec(member_or_null(acc, k), pe[pe.len() - 1].1)),
        }
    }
}

/// Merges `patch` into `target` as a JSON Merge Patch: members of an object
/// patch set, merge into or (for `null`) remove the target's members, and
/// any other patch replaces the target.
pub fn merge_patch(target: &mut JsonValue, patch: &JsonValue)
    ensures
        final(target)@ == merge_spec(old(target)@, patch@),
    decreases patch,
{
    broadcast use group_view;
    match patch {
        JsonValue::Object(pm) => {
            let is_object = match target {
                JsonValue::Object(_) => true,
                _ => false,
            };
            if !is_object {
                *target = JsonValue::Object(JsonObject::new());
            }
            assert(target@ == JsonModel::Object(object_members(old(target)@)));
            match target {
                JsonValue::Object(tm) => {
                    let ghost te = tm@;
                    let ghost pe = pm@;
                    proof {
                        lemma_view_entries(pm.entries@);
                    }
                    assert(pe.subrange(0, 0) =~= Seq::<(Seq<char>, JsonModel)>::empty());
                    let mut i: usize = 0;
                    while i < pm.entries.len()
                        invariant
                            i <= pm.entries@.len(),
                            *patch == JsonValue::Object(*pm),
                            pe == pm@,
                            pe.len() == pm.entries@.len(),
                            forall|j: int| 0 <= j < pm.entries@.len() ==> #[trigger] pe[j] == (pm.entries@[j].0@, pm.entries@[j].1@),
                            tm@ == merge_members(te, pe.subrange(0, i as int)),
                        decreases pm.entries@.len() - i,
                    {
                        let key = &pm.entries[i].0;
                        let pv = &pm.entries[i].1;
                        assert(pe.subrange(0, i + 1).subrange(0, i as int) =~= pe.subrange(0, i as int));
                        assert(pe.subrange(0, i + 1)[i as int] == pe[i as int]);
                        assert(decreases_to!(*patch => (*patch)->Object_0));
                        assert((*patch)->Object_0 == *pm);
                        assert(decreases_to!(*pm => pm.entries));
                        assert(decreases_to!(pm.entries => pm.entries@));
                        assert(decreases_to!(pm.entries@ => pm.entries@[i as int]));
                        assert(decreases_to!(pm.entries@[i as int] => pm.entries@[i as int].1));
                        match pv {
                            JsonValue::Null => {
                                tm.remove(key.as_str());
                            },
                            _ => {
                                let ghost acc = tm@;
                                proof {
                                    crate::value::lemma_key_index_found(acc, key@);
                                }
                                match tm.get_mut(key.as_str()) {
                                    Some(child) => {
                                        merge_patch(child, pv);
                                    },
                                    None => {
                                        let mut child = JsonValue::Null;
                                        merge_patch(&mut child, pv);
                                        tm.insert(key.clone(), child);
                                    },
                                }
                            },
                        }
                        i = i + 1;
                    }
                    assert(pe.subrange(0, i as int) =~= pe);
                },
                _ => {},
            }
        },
        _ => {
            *target = patch.deep_copy();
        },
    }
}

// ----- what a merge does to each key -----

/// What a key holds after the patch value `pv` was merged into what it held
/// (`old`): nothing for `null`, else the merge of `pv` into the old value,
/// or into `null` where there was none.
pub open spec fn merged_member(old: Option<JsonModel>, pv: JsonModel) -> Option<JsonModel> {
    match pv {
        JsonModel::Null => None,
        _ => Some(
            merge_spec(
                match old {
                    Some(c) => c,
                    None => JsonModel::Null,
                },
                pv,
            ),
        ),
    }
}

proof fn lemma_merge_prefix(
    te: Seq<(Seq<char>, JsonModel)>,
    pe: Seq<(Seq<char>, JsonModel)>,
    n: int,
    k: Seq<char>,
)
    requires
        keys_sorted(te),
        keys_sorted(pe),
        0 <= n <= pe.len(),
    ensures
        keys_sorted(merge_members(te, pe.subrange(0, n))),
        member(merge_members(te, pe.subrange(0, n)), k) == if 0 <= key_index(pe, k) < n {
            merged_member(member(te, k), pe[key_index(pe, k)].1)
        } else {
            member(te, k)
        },
    decreases n,
{
    lemma_key_index_found(pe, k);
    if n == 0 {
        assert(pe.subrange(0, 0) =~= Seq::<(Seq<char>, JsonModel)>::empty());
    } else {
        let pre = pe.subrange(0, n);
        assert(pre.subrange(0, n - 1) =~= pe.subrange(0, n - 1));
        assert(pre[n - 1] == pe[n - 1]);
        lemma_merge_prefix(te, pe, n - 1, k);
        let kk = pe[n - 1].0;
        let pv = pe[n - 1].1;
        lemma_merge_prefix(te, pe, n - 1, kk);
        lemma_sorted_found(pe, kk, n - 1);
        let acc = merge_members(te, pe.subrange(0, n - 1));
        match pv {
            JsonModel::Null => {
                lemma_without_member(acc, kk, k);
            },
            _ => {
                lemma_with_member(acc, kk, merge_spec(member_or_null(acc, kk), pv), k);
            },
        }
    }
}

/// Merging an object patch into an object target: each key that the patch
/// names is removed (for `null`) or set to the patch value merged into what
/// it held (or into `null` where it was absent); every key that the patch
/// does not name keeps what it held. The keys stay sorted.
pub proof fn law_merge_members(
    te: Seq<(Seq<char>, JsonModel)>,
    pe: Seq<(Seq<char>, JsonModel)>,
    k: Seq<char>,
)
    requires
        keys_sorted(te),
        keys_sorted(pe),
    ensures
        merge_spec(JsonModel::Object(te), JsonModel::Object(pe)) == JsonModel::Object(
            merge_members(te, pe),
        ),
        keys_sorted(merge_members(te, pe)),
        member(merge_members(te, pe), k) == match member(pe, k) {
            None => member(te, k),
            Some(pv) => merged_member(member(te, k), pv),
        },
{
    assert(pe.subrange(0, pe.len() as int) =~= pe);
    lemma_merge_prefix(te, pe, pe.len() as int, k);
    lemma_key_index_found(pe, k);
}

/// A patch that is not an object replaces the whole target.
pub proof fn law_merge_replaces(target: JsonModel, patch: JsonModel)
    requires
        !(patch is Object),
    ensures
        merge_spec(target, patch) == patch,
{
}

/// An object patch merged into a target that is not an object is merged into
/// an empty object: its `null` members are dropped at every depth.
pub proof fn law_merge_into_non_object(target: JsonModel, pe: Seq<(Seq<char>, JsonModel)>)
    requires
        !(target is Object),
    ensures
        merge_spec(target, JsonModel::Object(pe)) == merge_spec(
            JsonModel::Object(Seq::empty()),
            JsonModel::Object(pe),
        ),
{
}

} // verus!
