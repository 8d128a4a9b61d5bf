use vstd::prelude::*;
use crate::members::{lemma_sorted_ext, lemma_sorted_found, lemma_with_member, lemma_without_member};
use crate::patch::{
    PatchModel, PatchOperation, apply_all, apply_spec, child_of, parent_of, remove_spec, add_spec,
};
use crate::pointer::{
    escape_key, join_spec, lemma_decode_escape, lemma_escape_key_push, lemma_escape_no_slash,
    lemma_last_slash_join, lemma_put_join, lemma_put_put, lemma_put_same, lemma_resolve_join,
    law_read_after_write, put, put_step, resolve, step,
};
use crate::text::chars_of;
use crate::value::{
    JsonModel, JsonValue, group_view, key_index, keys_sorted, lemma_key_index_found,
    lemma_view_entries, member, model_wf, view_entries, with_member, without_member,
};

verus! {

/// The models of a list of operations.
pub open spec fn view_ops(s: Seq<PatchOperation>) -> Seq<PatchModel> {
    Seq::new(s.len(), |i: int| s[i]@)
}

/// A replacement of the value at `path` when it changed.
pub open spec fn replace_if_changed(old: JsonModel, new: JsonModel, path: Seq<char>) -> Seq<PatchModel> {
    if old == new {
        Seq::empty()
    } else {
        seq![PatchModel::Replace { path, value: new }]
    }
}

/// The operations that turn `old` into `new`, for the value at `path`:
/// between two objects, a removal for each key that `new` lacks and the
/// operations for each shared key (in the order of `old`), then an addition
/// for each key that `old` lacks (in the order of `new`); otherwise one
/// replacement when the values differ.
pub open spec fn diff_spec(old: JsonModel, new: JsonModel, path: Seq<char>) -> Seq<PatchModel>
    decreases old,
{
    match old {
        JsonModel::Object(oe) => match new {
            JsonModel::Object(ne) => diff_members(oe, ne, path) + diff_added(oe, ne, path),
            _ => replace_if_changed(old, new, path),
        },
        _ => replace_if_changed(old, new, path),
    }
}

/// For each member of `oe` in order: its removal when `ne` lacks the key,
/// else the operations between the two values.
pub open spec fn diff_members(
    oe: Seq<(Seq<char>, JsonModel)>,
    ne: Seq<(Seq<char>, JsonModel)>,
    path: Seq<char>,
) -> Seq<PatchModel>
    decreases oe,
{
    if oe.len() == 0 {
        Seq::empty()
    } else {
        let init = oe.subrange(0, oe.len() - 1);
        let k = oe[oe.len() - 1].0;
        diff_members(init, ne, path) + match member(ne, k) {
            None => seq![PatchModel::Remove { path: join_spec(path, escape_key(k)) }],
            Some(nv) => diff_spec(oe[oe.len() - 1].1, nv, join_spec(path, escape_key(k))),
        }
    }
}

/// For each member of `ne` in order whose key `oe` lacks: its addition.
pub open spec fn diff_added(
    oe: Seq<(Seq<char>, JsonModel)>,
    ne: Seq<(Seq<char>, JsonModel)>,
    path: Seq<char>,
) -> Seq<PatchModel>
    decreases ne.len(),
{
    if ne.len() == 0 {
        Seq::empty()
    } else {
        let k = ne[ne.len() - 1].0;
        diff_added(oe, ne.subrange(0, ne.len() - 1), path) + if key_index(oe, k) < 0 {
            seq![PatchModel::Add { path: join_spec(path, escape_key(k)), value: ne[ne.len() - 1].1 }]
        } else {
            Seq::empty()
        }
    }
}

/// The pointer `base` extended by the reference token that names the key
/// `segment`: each `~` written `~0` and each `/` written `~1`.
pub fn join_path(base: &str, segment: &str) -> (r: String)
    ensures
        r@ == join_spec(base@, escape_key(segment@)),
{
    let mut path = String::new();
    path.append(base);
    path.push('/');
    let cs = chars_of(segment);
    assert(escape_key(cs@.subrange(0, 0)) =~= Seq::<char>::empty());
    assert(path@ =~= base@ + seq!['/'] + escape_key(cs@.subrange(0, 0)));
    let mut i: usize = 0;
    while i < cs.len()
        invariant
            i <= cs@.len(),
            cs@ == segment@,
            path@ == base@ + seq!['/'] + escape_key(cs@.subrange(0, i as int)),
        decreases cs@.len() - i,
    {
        let c = cs[i];
        proof {
            lemma_escape_key_push(cs@.subrange(0, i as int), c);
            assert(cs@.subrange(0, i + 1) =~= cs@.subrange(0, i as int).push(c));
        }
        if c == '~' {
            path.push('~');
            path.push('0');
        } else if c == '/' {
            path.push('~');
            path.push('1');
        } else {
            path.push(c);
        }
        assert(path@ =~= base@ + seq!['/'] + escape_key(cs@.subrange(0, i + 1)));
        i = i + 1;
    }
    assert(cs@.subrange(0, i as int) =~= cs@);
    path
}

/// Appends `op` to `patches`.
fn push_op(patches: &mut Vec<PatchOperation>, op: PatchOperation)
    ensures
        view_ops(final(patches)@) == view_ops(old(patches)@).push(op@),
{
    let ghost before = patches@;
    patches.push(op);
    assert(view_ops(patches@) =~= view_ops(before).push(op@));
}

/// Appends to `patches` the operations that turn `prev` into `next` at `path`.
fn diff_inner(prev: &JsonValue, next: &JsonValue, path: &str, patches: &mut Vec<PatchOperation>)
    ensures
        view_ops(final(patches)@) == view_ops(old(patches)@) + diff_spec(prev@, next@, path@),
    decreases prev,
{
    broadcast use group_view;
    match (prev, next) {
        (JsonValue::Object(om), JsonValue::Object(nm)) => {
            let ghost start = view_ops(patches@);
            let ghost oe = om@;
            let ghost ne = nm@;
            proof {
                lemma_view_entries(om.entries@);
            }
            assert(oe.subrange(0, 0) =~= Seq::<(Seq<char>, JsonModel)>::empty());
            assert(start + Seq::<PatchModel>::empty() =~= start);
            let mut i: usize = 0;
            while i < om.entries.len()
                invariant
                    i <= om.entries@.len(),
                    *prev == JsonValue::Object(*om),
                    oe == om@,
                    ne == nm@,
                    oe.len() == om.entries@.len(),
                    forall|j: int| 0 <= j < om.entries@.len() ==> #[trigger] oe[j] == (om.entries@[j].0@, om.entries@[j].1@),
                    view_ops(patches@) == start + diff_members(oe.subrange(0, i as int), ne, path@),
                decreases om.entries@.len() - i,
            {
                let ghost before = view_ops(patches@);
                let key = &om.entries[i].0;
                let kp = join_path(path, key.as_str());
                assert(oe.subrange(0, i + 1).subrange(0, i as int) =~= oe.subrange(0, i as int));
                assert(oe.subrange(0, i + 1)[i as int] == oe[i as int]);
                match nm.get(key.as_str()) {
                    None => {
                        push_op(patches, PatchOperation::Remove { path: kp });
                    },
                    Some(nv) => {
                        assert(decreases_to!(*prev => (*prev)->Object_0));
                        assert((*prev)->Object_0 == *om);
                        assert(decreases_to!(*om => om.entries));
                        assert(decreases_to!(om.entries => om.entries@));
                        assert(decreases_to!(om.entries@ => om.entries@[i as int]));
                        assert(decreases_to!(om.entries@[i as int] => om.entries@[i as int].1));
                        assert(decreases_to!(prev => om.entries@[i as int].1));
                        diff_inner(&om.entries[i].1, nv, kp.as_str(), patches);
                    },
                }
                assert(view_ops(patches@) =~= start + diff_members(oe.subrange(0, i + 1), ne, path@));
                i = i + 1;
            }
            assert(oe.subrange(0, i as int) =~= oe);
            let ghost mid = view_ops(patches@);
            proof {
                lemma_view_entries(nm.entries@);
            }
            assert(ne.subrange(0, 0) =~= Seq::<(Seq<char>, JsonModel)>::empty());
            assert(mid + Seq::<PatchModel>::empty() =~= mid);
            let mut i: usize = 0;
            while i < nm.entries.len()
                invariant
                    i <= nm.entries@.len(),
                    oe == om@,
                    ne == nm@,
                    ne.len() == nm.entries@.len(),
                    forall|j: int| 0 <= j < nm.entries@.len() ==> #[trigger] ne[j] == (nm.entries@[j].0@, nm.entries@[j].1@),
                    view_ops(patches@) == mid + diff_added(oe, ne.subrange(0, i as int), path@),
                decreases nm.entries@.len() - i,
            {
                let key = &nm.entries[i].0;
                assert(ne.subrange(0, i + 1).subrange(0, i as int) =~= ne.subrange(0, i as int));
                assert(ne.subrange(0, i + 1)[i as int] == ne[i as int]);
                if !om.contains_key(key.as_str()) {
                    let kp = join_path(path, key.as_str());
                    let value = nm.entries[i].1.deep_copy();
                    push_op(patches, PatchOperation::Add { path: kp, value });
                }
                assert(view_ops(patches@) =~= mid + diff_added(oe, ne.subrange(0, i + 1), path@));
                i = i + 1;
            }
            assert(ne.subrange(0, i as int) =~= ne);
            assert(view_ops(patches@) =~= start + diff_spec(prev@, next@, path@));
        },
        _ => {
            let ghost before = view_ops(patches@);
            if !prev.same_as(next) {
                push_op(
                    patches,
                    PatchOperation::Replace { path: path.to_owned(), value: next.deep_copy() },
                );
            }
            assert(view_ops(patches@) =~= before + diff_spec(prev@, next@, path@));
        },
    }
}

/// The JSON Patch operations that turn `old` into `new`.
pub fn diff(old: &JsonValue, new: &JsonValue) -> (r: Vec<PatchOperation>)
    ensures
        view_ops(r@) == diff_spec(old@, new@, Seq::empty()),
{
    let mut patches: Vec<PatchOperation> = Vec::new();
    assert(view_ops(patches@) =~= Seq::<PatchModel>::empty());
    let root = "";
    proof {
        reveal_strlit("");
    }
    assert(root@ =~= Seq::<char>::empty());
    diff_inner(old, new, root, &mut patches);
    assert(view_ops(patches@) =~= diff_spec(old@, new@, Seq::empty()));
    patches
}

// ----- applying a diff gives the new document -----

/// A pointer that is empty or starts with `/`.
pub open spec fn rooted(p: Seq<char>) -> bool {
    p.len() == 0 || p[0] == '/'
}

/// The members of `oe` once the operations for its first `n` members ran:
/// those that `ne` lacks are gone, the others hold the value in `ne`.
pub open spec fn diff_mid(
    oe: Seq<(Seq<char>, JsonModel)>,
    ne: Seq<(Seq<char>, JsonModel)>,
    n: nat,
) -> Seq<(Seq<char>, JsonModel)>
    decreases n,
{
    if n == 0 {
        oe
    } else {
        let prev = diff_mid(oe, ne, (n - 1) as nat);
        let k = oe[n - 1].0;
        match member(ne, k) {
            None => without_member(prev, k),
            Some(nv) => with_member(prev, k, nv),
        }
    }
}

/// The members `m` once the additions for the first `n` members of `ne`
/// ran.
pub open spec fn diff_after(
    m: Seq<(Seq<char>, JsonModel)>,
    oe: Seq<(Seq<char>, JsonModel)>,
    ne: Seq<(Seq<char>, JsonModel)>,
    n: nat,
) -> Seq<(Seq<char>, JsonModel)>
    decreases n,
{
    if n == 0 {
        m
    } else {
        let prev = diff_after(m, oe, ne, (n - 1) as nat);
        let k = ne[n - 1].0;
        if key_index(oe, k) < 0 {
            with_member(prev, k, ne[n - 1].1)
        } else {
            prev
        }
    }
}

/// Applying two lists of operations one after the other.
pub proof fn lemma_apply_all_concat(v: JsonModel, a: Seq<PatchModel>, b: Seq<PatchModel>)
    requires
        apply_all(v, a).1 is Ok,
    ensures
        apply_all(v, a + b) == apply_all(apply_all(v, a).0, b),
    decreases a.len(),
{
    if a.len() > 0 {
        assert((a + b).drop_first() =~= a.drop_first() + b);
        assert((a + b)[0] == a[0]);
        let (d, r) = apply_spec(v, a[0]);
        lemma_apply_all_concat(d, a.drop_first(), b);
    } else {
        assert(a + b =~= b);
    }
}

proof fn lemma_diff_mid(oe: Seq<(Seq<char>, JsonModel)>, ne: Seq<(Seq<char>, JsonModel)>, n: nat, k: Seq<char>)
    requires
        keys_sorted(oe),
        n <= oe.len(),
    ensures
        keys_sorted(diff_mid(oe, ne, n)),
        member(diff_mid(oe, ne, n), k) == if 0 <= key_index(oe, k) < n {
            member(ne, k)
        } else {
            member(oe, k)
        },
    decreases n,
{
    if n > 0 {
        let kk = oe[n - 1].0;
        lemma_diff_mid(oe, ne, (n - 1) as nat, k);
        lemma_sorted_found(oe, kk, n - 1);
        let prev = diff_mid(oe, ne, (n - 1) as nat);
        match member(ne, kk) {
            None => lemma_without_member(prev, kk, k),
            Some(nv) => lemma_with_member(prev, kk, nv, k),
        }
        lemma_key_index_found(oe, k);
    }
}

proof fn lemma_diff_after(
    m: Seq<(Seq<char>, JsonModel)>,
    oe: Seq<(Seq<char>, JsonModel)>,
    ne: Seq<(Seq<char>, JsonModel)>,
    n: nat,
    k: Seq<char>,
)
    requires
        keys_sorted(m),
        keys_sorted(ne),
        n <= ne.len(),
    ensures
        keys_sorted(diff_after(m, oe, ne, n)),
        member(diff_after(m, oe, ne, n), k) == if 0 <= key_index(ne, k) < n && key_index(oe, k) < 0 {
            member(ne, k)
        } else {
            member(m, k)
        },
    decreases n,
{
    if n > 0 {
        let kk = ne[n - 1].0;
        lemma_diff_after(m, oe, ne, (n - 1) as nat, k);
        lemma_sorted_found(ne, kk, n - 1);
        let prev = diff_after(m, oe, ne, (n - 1) as nat);
        if key_index(oe, kk) < 0 {
            lemma_with_member(prev, kk, ne[n - 1].1, k);
        }
        lemma_key_index_found(ne, k);
    }
}

/// After both phases the members are those of `ne`.
#[verifier::spinoff_prover]
proof fn lemma_diff_members_final(oe: Seq<(Seq<char>, JsonModel)>, ne: Seq<(Seq<char>, JsonModel)>)
    requires
        keys_sorted(oe),
        keys_sorted(ne),
    ensures
        diff_after(diff_mid(oe, ne, oe.len()), oe, ne, ne.len()) == ne,
{
    let m = diff_mid(oe, ne, oe.len());
    let f = diff_after(m, oe, ne, ne.len());
    assert forall|k: Seq<char>| #[trigger] member(f, k) == member(ne, k) by {
        lemma_diff_mid(oe, ne, oe.len(), k);
        lemma_diff_after(m, oe, ne, ne.len(), k);
        lemma_key_index_found(oe, k);
        lemma_key_index_found(ne, k);
        if key_index(oe, k) < 0 && key_index(ne, k) < 0 {
            crate::members::lemma_absent(oe, k);
            crate::members::lemma_absent(ne, k);
        }
    }
    lemma_diff_mid(oe, ne, oe.len(), Seq::empty());
    lemma_diff_after(m, oe, ne, ne.len(), Seq::empty());
    lemma_sorted_ext(f, ne);
}

/// A member value of a well-formed object is well formed.
proof fn lemma_member_value(es: Seq<(Seq<char>, JsonModel)>, k: Seq<char>)
    requires
        model_wf(JsonModel::Object(es)),
        member(es, k) is Some,
    ensures
        model_wf(member(es, k)->0),
{
    lemma_key_index_found(es, k);
    let i = key_index(es, k);
    assert(model_wf(es[i].1));
}

/// The operations for the first `n` members of `oe`, applied where the
/// object stands, leave `diff_mid` there.
#[verifier::spinoff_prover]
proof fn lemma_members_apply(
    d: JsonModel,
    p: Seq<char>,
    oe: Seq<(Seq<char>, JsonModel)>,
    ne: Seq<(Seq<char>, JsonModel)>,
    n: nat,
)
    requires
        rooted(p),
        resolve(d, p) == Some(JsonModel::Object(oe)),
        model_wf(JsonModel::Object(oe)),
        model_wf(JsonModel::Object(ne)),
        n <= oe.len(),
    ensures
        apply_all(d, diff_members(oe.subrange(0, n as int), ne, p)) == (
            put(d, p, JsonModel::Object(diff_mid(oe, ne, n))),
            Ok::<(), crate::patch::PatchError>(()),
        ),
    decreases oe, n,
{
    if n == 0 {
        assert(oe.subrange(0, 0) =~= Seq::<(Seq<char>, JsonModel)>::empty());
        lemma_put_same(d, p);
    } else {
        let pre = oe.subrange(0, n - 1);
        assert(oe.subrange(0, n as int).subrange(0, n - 1) =~= pre);
        assert(oe.subrange(0, n as int)[n - 1] == oe[n - 1]);
        lemma_members_apply(d, p, oe, ne, (n - 1) as nat);
        let mid = diff_mid(oe, ne, (n - 1) as nat);
        let d1 = put(d, p, JsonModel::Object(mid));
        let k = oe[n - 1].0;
        assert(model_wf(oe[n - 1].1));
        let e = escape_key(k);
        let q = join_spec(p, e);
        let a = diff_members(pre, ne, p);
        let b = match member(ne, k) {
            None => seq![PatchModel::Remove { path: q }],
            Some(nv) => diff_spec(oe[n - 1].1, nv, q),
        };
        assert(diff_members(oe.subrange(0, n as int), ne, p) == a + b);
        lemma_apply_all_concat(d, a, b);
        law_read_after_write(d, p, JsonModel::Object(mid));
        lemma_diff_mid(oe, ne, (n - 1) as nat, k);
        lemma_sorted_found(oe, k, n - 1);
        lemma_decode_escape(k);
        lemma_escape_no_slash(k);
        lemma_last_slash_join(p, e);
        assert(parent_of(q) == p);
        assert(child_of(q) == e);
        match member(ne, k) {
            None => {
                lemma_put_put(d, p, JsonModel::Object(mid), JsonModel::Object(without_member(mid, k)));
                let d2 = put(d, p, JsonModel::Object(diff_mid(oe, ne, n)));
                assert(apply_spec(d1, b[0]) == (d2, Ok::<(), crate::patch::PatchError>(())));
                assert(b.drop_first() =~= Seq::<PatchModel>::empty());
                assert(apply_all(d2, b.drop_first()) == (d2, Ok::<(), crate::patch::PatchError>(())));
            },
            Some(nv) => {
                lemma_resolve_join(d1, p, e);
                lemma_member_value(ne, k);
                assert(decreases_to!(oe => oe[n - 1]));
                assert(decreases_to!(oe[n - 1] => oe[n - 1].1));
                lemma_diff_apply(d1, q, oe[n - 1].1, nv);
                lemma_put_join(d1, p, e, nv);
                lemma_key_index_found(mid, k);
                lemma_put_put(d, p, JsonModel::Object(mid), put_step(JsonModel::Object(mid), e, nv));
            },
        }
    }
}

/// The additions for the first `n` members of `ne`, applied where the object
/// stands, leave `diff_after` there.
#[verifier::spinoff_prover]
proof fn lemma_added_apply(
    d: JsonModel,
    p: Seq<char>,
    m: Seq<(Seq<char>, JsonModel)>,
    oe: Seq<(Seq<char>, JsonModel)>,
    ne: Seq<(Seq<char>, JsonModel)>,
    n: nat,
)
    requires
        rooted(p),
        resolve(d, p) == Some(JsonModel::Object(m)),
        keys_sorted(m),
        keys_sorted(ne),
        n <= ne.len(),
    ensures
        apply_all(d, diff_added(oe, ne.subrange(0, n as int), p)) == (
            put(d, p, JsonModel::Object(diff_after(m, oe, ne, n))),
            Ok::<(), crate::patch::PatchError>(()),
        ),
    decreases n,
{
    if n == 0 {
        assert(ne.subrange(0, 0) =~= Seq::<(Seq<char>, JsonModel)>::empty());
        lemma_put_same(d, p);
    } else {
        let pre = ne.subrange(0, n - 1);
        assert(ne.subrange(0, n as int).subrange(0, n - 1) =~= pre);
        assert(ne.subrange(0, n as int)[n - 1] == ne[n - 1]);
        lemma_added_apply(d, p, m, oe, ne, (n - 1) as nat);
        let cur = diff_after(m, oe, ne, (n - 1) as nat);
        let d1 = put(d, p, JsonModel::Object(cur));
        let k = ne[n - 1].0;
        let e = escape_key(k);
        let q = join_spec(p, e);
        let a = diff_added(oe, pre, p);
        let b = if key_index(oe, k) < 0 {
            seq![PatchModel::Add { path: q, value: ne[n - 1].1 }]
        } else {
            Seq::empty()
        };
        assert(diff_added(oe, ne.subrange(0, n as int), p) == a + b);
        lemma_apply_all_concat(d, a, b);
        law_read_after_write(d, p, JsonModel::Object(cur));
        if key_index(oe, k) < 0 {
            lemma_decode_escape(k);
            lemma_escape_no_slash(k);
            lemma_last_slash_join(p, e);
            assert(parent_of(q) == p);
            assert(child_of(q) == e);
            lemma_put_put(d, p, JsonModel::Object(cur), JsonModel::Object(with_member(cur, k, ne[n - 1].1)));
            let d2 = put(d, p, JsonModel::Object(diff_after(m, oe, ne, n)));
            assert(apply_spec(d1, b[0]) == (d2, Ok::<(), crate::patch::PatchError>(())));
            assert(b.drop_first() =~= Seq::<PatchModel>::empty());
            assert(apply_all(d2, b.drop_first()) == (d2, Ok::<(), crate::patch::PatchError>(())));
        }
    }
}

/// The operations that turn `old` into `new`, applied where `old` stands in
/// `d`, succeed and leave `new` there.
#[verifier::spinoff_prover]
proof fn lemma_diff_apply(d: JsonModel, p: Seq<char>, old: JsonModel, new: JsonModel)
    requires
        rooted(p),
        resolve(d, p) == Some(old),
        model_wf(old),
        model_wf(new),
    ensures
        apply_all(d, diff_spec(old, new, p)) == (put(d, p, new), Ok::<(), crate::patch::PatchError>(())),
    decreases old, 0nat,
{
    match (old, new) {
        (JsonModel::Object(oe), JsonModel::Object(ne)) => {
            let a = diff_members(oe, ne, p);
            let b = diff_added(oe, ne, p);
            assert(oe.subrange(0, oe.len() as int) =~= oe);
            assert(ne.subrange(0, ne.len() as int) =~= ne);
            lemma_members_apply(d, p, oe, ne, oe.len());
            lemma_apply_all_concat(d, a, b);
            let mid = diff_mid(oe, ne, oe.len());
            let d1 = put(d, p, JsonModel::Object(mid));
            law_read_after_write(d, p, JsonModel::Object(mid));
            lemma_diff_mid(oe, ne, oe.len(), Seq::empty());
            lemma_added_apply(d1, p, mid, oe, ne, ne.len());
            lemma_diff_members_final(oe, ne);
            lemma_put_put(d, p, JsonModel::Object(mid), new);
        },
        _ => {
            if old == new {
                lemma_put_same(d, p);
            } else {
                let ops = seq![PatchModel::Replace { path: p, value: new }];
                assert(ops.drop_first() =~= Seq::<PatchModel>::empty());
                assert(apply_all(put(d, p, new), ops.drop_first()) == (put(d, p, new), Ok::<(), crate::patch::PatchError>(())));
            }
        },
    }
}

/// Applying, in order, the operations that `diff(old, new)` gives to `old`
/// succeeds and yields `new`, for all well-formed documents.
pub proof fn law_diff_apply(old: JsonModel, new: JsonModel)
    requires
        model_wf(old),
        model_wf(new),
    ensures
        apply_all(old, diff_spec(old, new, Seq::empty())) == (new, Ok::<(), crate::patch::PatchError>(())),
{
    lemma_diff_apply(old, Seq::empty(), old, new);
}

// ----- a document differs from itself in nothing -----

proof fn lemma_diff_members_same(oe: Seq<(Seq<char>, JsonModel)>, p: Seq<char>, n: int)
    requires
        model_wf(JsonModel::Object(oe)),
        0 <= n <= oe.len(),
    ensures
        diff_members(oe.subrange(0, n), oe, p) == Seq::<PatchModel>::empty(),
    decreases oe, n,
{
    if n == 0 {
        assert(oe.subrange(0, 0) =~= Seq::<(Seq<char>, JsonModel)>::empty());
    } else {
        let pre = oe.subrange(0, n);
        assert(pre.subrange(0, n - 1) =~= oe.subrange(0, n - 1));
        assert(pre[n - 1] == oe[n - 1]);
        lemma_diff_members_same(oe, p, n - 1);
        lemma_sorted_found(oe, oe[n - 1].0, n - 1);
        assert(model_wf(oe[n - 1].1));
        assert(decreases_to!(oe => oe[n - 1]));
        assert(decreases_to!(oe[n - 1] => oe[n - 1].1));
        lemma_diff_same(oe[n - 1].1, join_spec(p, escape_key(oe[n - 1].0)));
        assert(diff_members(pre, oe, p) =~= Seq::<PatchModel>::empty());
    }
}

proof fn lemma_diff_added_same(oe: Seq<(Seq<char>, JsonModel)>, p: Seq<char>, n: int)
    requires
        keys_sorted(oe),
        0 <= n <= oe.len(),
    ensures
        diff_added(oe, oe.subrange(0, n), p) == Seq::<PatchModel>::empty(),
    decreases n,
{
    if n == 0 {
        assert(oe.subrange(0, 0) =~= Seq::<(Seq<char>, JsonModel)>::empty());
    } else {
        let pre = oe.subrange(0, n);
        assert(pre.subrange(0, n - 1) =~= oe.subrange(0, n - 1));
        assert(pre[n - 1] == oe[n - 1]);
        lemma_diff_added_same(oe, p, n - 1);
        lemma_sorted_found(oe, oe[n - 1].0, n - 1);
        assert(diff_added(oe, pre, p) =~= Seq::<PatchModel>::empty());
    }
}

/// The operations between a well-formed document and itself: none.
pub proof fn lemma_diff_same(v: JsonModel, p: Seq<char>)
    requires
        model_wf(v),
    ensures
        diff_spec(v, v, p) == Seq::<PatchModel>::empty(),
    decreases v, 0nat,
{
    match v {
        JsonModel::Object(oe) => {
            assert(oe.subrange(0, oe.len() as int) =~= oe);
            lemma_diff_members_same(oe, p, oe.len() as int);
            lemma_diff_added_same(oe, p, oe.len() as int);
            assert(diff_spec(v, v, p) =~= Seq::<PatchModel>::empty());
        },
        _ => {},
    }
}

/// A well-formed document differs from itself by no operation.
pub proof fn law_diff_same(v: JsonModel)
    requires
        model_wf(v),
    ensures
        diff_spec(v, v, Seq::empty()) == Seq::<PatchModel>::empty(),
{
    lemma_diff_same(v, Seq::empty());
}

/// Two well-formed documents differ by no operation exactly when they are
/// equal: different documents give at least one operation.
pub proof fn law_diff_empty_iff_equal(old: JsonModel, new: JsonModel)
    requires
        model_wf(old),
        model_wf(new),
    ensures
        diff_spec(old, new, Seq::empty()).len() == 0 <==> old == new,
{
    if old == new {
        lemma_diff_same(old, Seq::empty());
    }
    if diff_spec(old, new, Seq::empty()).len() == 0 {
        law_diff_apply(old, new);
        assert(diff_spec(old, new, Seq::empty()) =~= Seq::<PatchModel>::empty());
    }
}

} // verus!
