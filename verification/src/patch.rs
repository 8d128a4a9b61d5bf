use vstd::prelude::*;
use crate::pointer::{
    decode_segment, join_spec, last_slash, law_read_after_write, lemma_put_same,
    lemma_put_put, lemma_resolve_join, no_slash, parse_index, parse_index_in, put, resolve, step, walk,
};
use crate::members::{lemma_sorted_ext, lemma_with_member, lemma_without_member};
use crate::text::chars_of;
use crate::value::{
    JsonModel, JsonValue, group_view, key_index, keys_sorted, lemma_key_index_found, lemma_view_values,
    member, model_wf, view_values, with_member, without_member,
};

verus! {

/// One operation of a JSON Patch document.
#[derive(Debug)]
pub enum PatchOperation {
    Replace { path: String, value: JsonValue },
    Remove { path: String },
    Add { path: String, value: JsonValue },
    Move { from: String, path: String },
    Copy { from: String, path: String },
    Test { path: String, value: JsonValue },
}

/// The content of a patch operation: pointers as text, values as models.
pub enum PatchModel {
    Replace { path: Seq<char>, value: JsonModel },
    Remove { path: Seq<char> },
    Add { path: Seq<char>, value: JsonModel },
    Move { from: Seq<char>, path: Seq<char> },
    Copy { from: Seq<char>, path: Seq<char> },
    Test { path: Seq<char>, value: JsonModel },
}

impl PatchOperation {
    pub open spec fn view(&self) -> PatchModel {
        match self {
            PatchOperation::Replace { path, value } => PatchModel::Replace { path: path@, value: value@ },
            PatchOperation::Remove { path } => PatchModel::Remove { path: path@ },
            PatchOperation::Add { path, value } => PatchModel::Add { path: path@, value: value@ },
            PatchOperation::Move { from, path } => PatchModel::Move { from: from@, path: path@ },
            PatchOperation::Copy { from, path } => PatchModel::Copy { from: from@, path: path@ },
            PatchOperation::Test { path, value } => PatchModel::Test { path: path@, value: value@ },
        }
    }
}

/// Why a patch operation could not be applied.
#[derive(Debug, Clone, Copy, PartialEq, Eq, Structural)]
pub enum PatchError {
    InvalidPath,
    MissingValue,
    InvalidArrayIndex,
    IndexOutOfBounds,
    TestFailed,
}

// ----- what each operation does to a document -----

/// The pointer before the last `/` of `p`.
pub open spec fn parent_of(p: Seq<char>) -> Seq<char> {
    p.subrange(0, last_slash(p))
}

/// The reference token after the last `/` of `p`, as written; as an object
/// key it is read through `decode_segment`.
pub open spec fn child_of(p: Seq<char>) -> Seq<char> {
    p.subrange(last_slash(p) + 1, p.len() as int)
}

/// Removing the value at `p`: the new document and the value removed.
pub open spec fn remove_spec(v: JsonModel, p: Seq<char>) -> Result<(JsonModel, JsonModel), PatchError> {
    if last_slash(p) < 0 {
        Err(PatchError::InvalidPath)
    } else {
        let pp = parent_of(p);
        let child = child_of(p);
        match resolve(v, pp) {
            None => Err(PatchError::InvalidPath),
            Some(parent) => match parent {
                JsonModel::Array(items) => match parse_index(child) {
                    None => Err(PatchError::InvalidArrayIndex),
                    Some(n) => if n >= items.len() {
                        Err(PatchError::IndexOutOfBounds)
                    } else {
                        Ok((put(v, pp, JsonModel::Array(items.remove(n as int))), items[n as int]))
                    },
                },
                JsonModel::Object(es) => match member(es, decode_segment(child)) {
                    Some(x) => Ok((put(v, pp, JsonModel::Object(without_member(es, decode_segment(child)))), x)),
                    None => Err(PatchError::MissingValue),
                },
                _ => Err(PatchError::InvalidPath),
            },
        }
    }
}

/// Adding `new` at `p`: the new document.
pub open spec fn add_spec(v: JsonModel, p: Seq<char>, new: JsonModel) -> Result<JsonModel, PatchError> {
    if last_slash(p) < 0 {
        Err(PatchError::InvalidPath)
    } else {
        let pp = parent_of(p);
        let child = child_of(p);
        match resolve(v, pp) {
            None => Err(PatchError::InvalidPath),
            Some(parent) => match parent {
                JsonModel::Object(es) => Ok(put(v, pp, JsonModel::Object(with_member(es, decode_segment(child), new)))),
                JsonModel::Array(items) => if child == seq!['-'] {
                    Ok(put(v, pp, JsonModel::Array(items.push(new))))
                } else {
                    match parse_index(child) {
                        None => Err(PatchError::InvalidArrayIndex),
                        Some(n) => if n > items.len() {
                            Err(PatchError::IndexOutOfBounds)
                        } else {
                            Ok(put(v, pp, JsonModel::Array(items.insert(n as int, new))))
                        },
                    }
                },
                _ => Err(PatchError::InvalidPath),
            },
        }
    }
}

/// Moving the value at `from` to `p`: the document afterwards and the
/// outcome. A move that fails, at the removal or at the addition, leaves
/// the document as it was.
pub open spec fn move_spec(v: JsonModel, from: Seq<char>, p: Seq<char>) -> (JsonModel, Result<(), PatchError>) {
    match remove_spec(v, from) {
        Err(e) => (v, Err(e)),
        Ok((d, x)) => match add_spec(d, p, x) {
            Ok(d2) => (d2, Ok(())),
            Err(e) => (v, Err(e)),
        },
    }
}

/// Copying the value at `from` to `p`: the document afterwards and the outcome.
pub open spec fn copy_spec(v: JsonModel, from: Seq<char>, p: Seq<char>) -> (JsonModel, Result<(), PatchError>) {
    match resolve(v, from) {
        None => (v, Err(PatchError::InvalidPath)),
        Some(x) => match add_spec(v, p, x) {
            Ok(d) => (d, Ok(())),
            Err(e) => (v, Err(e)),
        },
    }
}

/// Testing that the value at `p` equals `expected`.
pub open spec fn test_spec(v: JsonModel, p: Seq<char>, expected: JsonModel) -> Result<(), PatchError> {
    match resolve(v, p) {
        None => Err(PatchError::InvalidPath),
        Some(x) => if x == expected {
            Ok(())
        } else {
            Err(PatchError::TestFailed)
        },
    }
}

/// Applying one operation: the document afterwards and the outcome.
pub open spec fn apply_spec(v: JsonModel, op: PatchModel) -> (JsonModel, Result<(), PatchError>) {
    match op {
        PatchModel::Replace { path, value } => match resolve(v, path) {
            Some(_) => (put(v, path, value), Ok(())),
            None => (v, Err(PatchError::InvalidPath)),
        },
        PatchModel::Remove { path } => match remove_spec(v, path) {
            Ok((d, _)) => (d, Ok(())),
            Err(e) => (v, Err(e)),
        },
        PatchModel::Add { path, value } => match add_spec(v, path, value) {
            Ok(d) => (d, Ok(())),
            Err(e) => (v, Err(e)),
        },
        PatchModel::Move { from, path } => move_spec(v, from, path),
        PatchModel::Copy { from, path } => copy_spec(v, from, path),
        PatchModel::Test { path, value } => (v, test_spec(v, path, value)),
    }
}

/// Applying operations in order while each succeeds: the document reached
/// and the first error, if any.
pub open spec fn apply_all(v: JsonModel, ops: Seq<PatchModel>) -> (JsonModel, Result<(), PatchError>)
    decreases ops.len(),
{
    if ops.len() == 0 {
        (v, Ok(()))
    } else {
        let (d, r) = apply_spec(v, ops[0]);
        match r {
            Ok(_) => apply_all(d, ops.drop_first()),
            Err(e) => (d, Err(e)),
        }
    }
}

/// Applying a list of operations: the first, then the rest if it succeeded.
proof fn lemma_apply_all_first(v: JsonModel, ops: Seq<PatchModel>)
    requires
        ops.len() > 0,
    ensures
        apply_all(v, ops) == match apply_spec(v, ops[0]).1 {
            Ok(_) => apply_all(apply_spec(v, ops[0]).0, ops.drop_first()),
            Err(e) => (apply_spec(v, ops[0]).0, Err::<(), PatchError>(e)),
        },
{
}

impl JsonValue {
    /// Sets the value that `path` names to `value`; `false` (and no change)
    /// when `path` names nothing.
    pub fn replace(&mut self, path: &str, value: JsonValue) -> (r: bool)
        ensures
            r == resolve(old(self)@, path@) is Some,
            final(self)@ == if r {
                put(old(self)@, path@, value@)
            } else {
                old(self)@
            },
    {
        match self.pointer_mut(path) {
            Some(target) => {
                *target = value;
                true
            },
            None => false,
        }
    }

    /// Removes the value that `path` names from its parent array or object
    /// and gives it back. The last reference token is an index for an
    /// array, and a key (with its `~1` and `~0` escapes undone) for an object.
    pub fn remove(&mut self, path: &str) -> (r: Result<JsonValue, PatchError>)
        ensures
            match remove_spec(old(self)@, path@) {
                Ok((d, x)) => {
                    &&& final(self)@ == d
                    &&& r matches Ok(y) && y@ == x
                },
                Err(e) => final(self)@ == old(self)@ && r == Err::<JsonValue, PatchError>(e),
            },
    {
        broadcast use group_view;
        let (parent_path, child) = match crate::pointer::split_parent(path) {
            Some(parts) => parts,
            None => {
                return Err(PatchError::InvalidPath);
            },
        };
        let ghost pp = parent_path@;
        assert(pp == parent_of(path@));
        assert(child@ == child_of(path@));
        proof {
            if resolve(self@, pp) is Some {
                lemma_put_same(self@, pp);
            }
        }
        let parent = match self.pointer_mut(parent_path.as_str()) {
            Some(value) => value,
            None => {
                return Err(PatchError::InvalidPath);
            },
        };
        match parent {
            JsonValue::Array(arr) => {
                let cs = chars_of(child.as_str());
                let index = match parse_index_in(&cs) {
                    Some(i) => i,
                    None => {
                        return Err(PatchError::InvalidArrayIndex);
                    },
                };
                proof {
                    lemma_view_values(arr@);
                }
                if index >= arr.len() {
                    return Err(PatchError::IndexOutOfBounds);
                }
                let ghost before = arr@;
                let removed = arr.remove(index);
                proof {
                    lemma_view_values(before);
                    lemma_view_values(arr@);
                    assert(view_values(arr@) =~= view_values(before).remove(index as int));
                }
                Ok(removed)
            },
            JsonValue::Object(map) => match map.remove(crate::pointer::decode_pointer_segment(child.as_str()).as_str()) {
                Some(value) => Ok(value),
                None => Err(PatchError::MissingValue),
            },
            _ => Err(PatchError::InvalidPath),
        }
    }

    /// Adds `value` at `path`: under the last reference token, unescaped, as
    /// a key of an object (replacing a member with that key), or at that index of an
    /// array (shifting later elements), or at its end for `-`.
    pub fn add(&mut self, path: &str, value: JsonValue) -> (r: Result<(), PatchError>)
        ensures
            match add_spec(old(self)@, path@, value@) {
                Ok(d) => final(self)@ == d && r == Ok::<(), PatchError>(()),
                Err(e) => final(self)@ == old(self)@ && r == Err::<(), PatchError>(e),
            },
    {
        broadcast use group_view;
        let (parent_path, child) = match crate::pointer::split_parent(path) {
            Some(parts) => parts,
            None => {
                return Err(PatchError::InvalidPath);
            },
        };
        let ghost pp = parent_path@;
        assert(pp == parent_of(path@));
        assert(child@ == child_of(path@));
        proof {
            if resolve(self@, pp) is Some {
                lemma_put_same(self@, pp);
            }
        }
        let parent = match self.pointer_mut(parent_path.as_str()) {
            Some(v) => v,
            None => {
                return Err(PatchError::InvalidPath);
            },
        };
        match parent {
            JsonValue::Object(obj) => {
                obj.insert(crate::pointer::decode_pointer_segment(child.as_str()), value);
                Ok(())
            },
            JsonValue::Array(arr) => {
                let cs = chars_of(child.as_str());
                if cs.len() == 1 && cs[0] == '-' {
                    assert(child@ =~= seq!['-']);
                    let ghost before = arr@;
                    arr.push(value);
                    proof {
                        lemma_view_values(before);
                        lemma_view_values(arr@);
                        assert(view_values(arr@) =~= view_values(before).push(arr@.last()@));
                    }
                    Ok(())
                } else {
                    assert(child@ != seq!['-']);
                    let index = match parse_index_in(&cs) {
                        Some(i) => i,
                        None => {
                            return Err(PatchError::InvalidArrayIndex);
                        },
                    };
                    proof {
                        lemma_view_values(arr@);
                    }
                    if index > arr.len() {
                        return Err(PatchError::IndexOutOfBounds);
                    }
                    let ghost before = arr@;
                    arr.insert(index, value);
                    proof {
                        lemma_view_values(before);
                        lemma_view_values(arr@);
                        assert(view_values(arr@) =~= view_values(before).insert(
                            index as int,
                            arr@[index as int]@,
                        ));
                    }
                    Ok(())
                }
            },
            _ => Err(PatchError::InvalidPath),
        }
    }

    /// Moves the value at `from` to `path` (a removal, then an addition);
    /// where either fails the document is left as it was.
    pub fn move_value(&mut self, from: &str, path: &str) -> (r: Result<(), PatchError>)
        ensures
            (final(self)@, r) == move_spec(old(self)@, from@, path@),
    {
        let mut moved = self.deep_copy();
        let value = match moved.remove(from) {
            Ok(v) => v,
            Err(e) => {
                return Err(e);
            },
        };
        match moved.add(path, value) {
            Ok(()) => {
                *self = moved;
                Ok(())
            },
            Err(e) => Err(e),
        }
    }

    /// Adds a copy of the value at `from` at `path`.
    pub fn copy(&mut self, from: &str, path: &str) -> (r: Result<(), PatchError>)
        ensures
            (final(self)@, r) == copy_spec(old(self)@, from@, path@),
    {
        let value = match self.pointer(from) {
            Some(v) => v.deep_copy(),
            None => {
                return Err(PatchError::InvalidPath);
            },
        };
        self.add(path, value)
    }

    /// Checks that the value at `path` equals `expected_value`.
    pub fn test(&mut self, path: &str, expected_value: JsonValue) -> (r: Result<(), PatchError>)
        ensures
            final(self)@ == old(self)@,
            r == test_spec(old(self)@, path@, expected_value@),
    {
        let actual = match self.pointer(path) {
            Some(value) => value,
            None => {
                return Err(PatchError::InvalidPath);
            },
        };
        if actual.same_as(&expected_value) {
            Ok(())
        } else {
            Err(PatchError::TestFailed)
        }
    }

    /// Applies the operations of a JSON Patch document in order, stopping at
    /// the first that fails (the changes made before it stay).
    #[verifier::loop_isolation(false)]
    pub fn apply_all(&mut self, ops: Vec<PatchOperation>) -> (r: Result<(), PatchError>)
        ensures
            (final(self)@, r) == apply_all(old(self)@, crate::diff::view_ops(ops@)),
    {
        let ghost all = crate::diff::view_ops(ops@);
        let mut ops = ops;
        while ops.len() > 0
            invariant
                apply_all(self@, crate::diff::view_ops(ops@)) == apply_all(old(self)@, all),
        decreases ops.len(),
        {
            let ghost rest = crate::diff::view_ops(ops@);
            let ghost before = self@;
            let op = ops.remove(0);
            assert(crate::diff::view_ops(ops@) =~= rest.drop_first());
            assert(rest[0] == op@);
            let r = self.apply(op);
            proof {
                lemma_apply_all_first(before, rest);
            }
            match r {
                Ok(()) => {},
                Err(e) => {
                    return Err(e);
                },
            }
        }
        assert(crate::diff::view_ops(ops@) =~= Seq::<PatchModel>::empty());
        Ok(())
    }

    /// Applies one JSON Patch operation to this document.
    pub fn apply(&mut self, operation: PatchOperation) -> (r: Result<(), PatchError>)
        ensures
            (final(self)@, r) == apply_spec(old(self)@, operation@),
    {
        match operation {
            PatchOperation::Replace { path, value } => {
                if self.replace(path.as_str(), value) {
                    Ok(())
                } else {
                    Err(PatchError::InvalidPath)
                }
            },
            PatchOperation::Remove { path } => match self.remove(path.as_str()) {
                Ok(_) => Ok(()),
                Err(e) => Err(e),
            },
            PatchOperation::Add { path, value } => self.add(path.as_str(), value),
            PatchOperation::Move { from, path } => self.move_value(from.as_str(), path.as_str()),
            PatchOperation::Copy { from, path } => self.copy(from.as_str(), path.as_str()),
            PatchOperation::Test { path, value } => self.test(path.as_str(), value),
        }
    }
}

// ----- what a read gives back after an operation -----

/// Where the last `/` of a pointer is.
proof fn lemma_last_slash_char(p: Seq<char>)
    ensures
        -1 <= last_slash(p) < p.len(),
        last_slash(p) >= 0 ==> p[last_slash(p)] == '/',
        forall|t: int| last_slash(p) < t < p.len() ==> p[t] != '/',
    decreases p.len(),
{
    if p.len() > 0 && p.last() != '/' {
        lemma_last_slash_char(p.drop_last());
        assert forall|t: int| last_slash(p) < t < p.len() implies p[t] != '/' by {
            if t < p.len() - 1 {
                assert(p[t] == p.drop_last()[t]);
            }
        }
    }
}

/// The last `/` of a pointer splits it into its parent and its last token.
pub proof fn lemma_split_at_last_slash(p: Seq<char>)
    requires
        last_slash(p) >= 0,
    ensures
        p == join_spec(parent_of(p), child_of(p)),
        forall|t: int| last_slash(p) < t < p.len() ==> p[t] != '/',
        no_slash(child_of(p)),
{
    lemma_last_slash_char(p);
    assert(p =~= join_spec(parent_of(p), child_of(p)));
    assert forall|i: int| 0 <= i < child_of(p).len() implies child_of(p)[i] != '/' by {
        assert(child_of(p)[i] == p[last_slash(p) + 1 + i]);
    }
}

/// A pointer that names something is empty or starts with `/`.
proof fn lemma_resolve_rooted(v: JsonModel, p: Seq<char>)
    requires
        resolve(v, p) is Some,
    ensures
        p.len() == 0 || p[0] == '/',
{
}

/// What a pointer names in a well-formed document is well formed.
proof fn lemma_walk_wf(v: JsonModel, p: Seq<char>, i: int)
    requires
        model_wf(v),
        walk(v, p, i) is Some,
    ensures
        model_wf(walk(v, p, i)->0),
    decreases p.len() - i,
{
    let j = crate::pointer::next_slash(p, i);
    crate::pointer::lemma_next_slash(p, i);
    let seg = p.subrange(i, j);
    match v {
        JsonModel::Object(es) => {
            lemma_key_index_found(es, decode_segment(seg));
            let x = key_index(es, decode_segment(seg));
            assert(model_wf(es[x].1));
        },
        JsonModel::Array(items) => {
            let n = parse_index(seg)->0;
            assert(model_wf(items[n as int]));
        },
        _ => {},
    }
    if j < p.len() {
        lemma_walk_wf(step(v, seg)->0, p, j + 1);
    }
}

/// What a pointer names in a well-formed document is well formed.
pub proof fn lemma_resolve_wf(v: JsonModel, p: Seq<char>)
    requires
        model_wf(v),
        resolve(v, p) is Some,
    ensures
        model_wf(resolve(v, p)->0),
{
    if p.len() > 0 {
        lemma_walk_wf(v, p, 1);
    }
}

/// After a successful addition, the pointer it was given reads the value
/// added; except for `-` under an array (the value is appended, at the
/// array's end).
pub proof fn law_add_then_read(v: JsonModel, p: Seq<char>, new: JsonModel)
    requires
        model_wf(v),
        add_spec(v, p, new) is Ok,
        !(resolve(v, parent_of(p)) matches Some(JsonModel::Array(_)) && child_of(p) == seq!['-']),
    ensures
        match add_spec(v, p, new) {
            Ok(d) => resolve(d, p) == Some(new),
            Err(_) => true,
        },
{
    let pp = parent_of(p);
    let k = child_of(p);
    lemma_split_at_last_slash(p);
    lemma_resolve_rooted(v, pp);
    lemma_resolve_wf(v, pp);
    let key = decode_segment(k);
    let parent = resolve(v, pp)->0;
    let d = match add_spec(v, p, new) {
        Ok(d) => d,
        Err(_) => v,
    };
    match parent {
        JsonModel::Object(es) => {
            let changed = JsonModel::Object(with_member(es, key, new));
            law_read_after_write(v, pp, changed);
            lemma_with_member(es, key, new, key);
            lemma_resolve_join(d, pp, k);
        },
        JsonModel::Array(items) => {
            let n = parse_index(k)->0;
            let changed = JsonModel::Array(items.insert(n as int, new));
            law_read_after_write(v, pp, changed);
            lemma_resolve_join(d, pp, k);
        },
        _ => {},
    }
}

/// A successful removal gives back the value the pointer named; under an
/// object the pointer then names nothing.
pub proof fn law_remove_then_read(v: JsonModel, p: Seq<char>)
    requires
        model_wf(v),
        remove_spec(v, p) is Ok,
    ensures
        match remove_spec(v, p) {
            Ok((d, x)) => {
                &&& resolve(v, p) == Some(x)
                &&& resolve(v, parent_of(p)) is Some && resolve(v, parent_of(p))->0 is Object ==> resolve(d, p) is None
            },
            Err(_) => true,
        },
{
    let pp = parent_of(p);
    let k = child_of(p);
    lemma_split_at_last_slash(p);
    lemma_resolve_rooted(v, pp);
    lemma_resolve_wf(v, pp);
    let key = decode_segment(k);
    let parent = resolve(v, pp)->0;
    lemma_resolve_join(v, pp, k);
    let d = match remove_spec(v, p) {
        Ok((d, _)) => d,
        Err(_) => v,
    };
    match parent {
        JsonModel::Object(es) => {
            let changed = JsonModel::Object(without_member(es, key));
            law_read_after_write(v, pp, changed);
            lemma_without_member(es, key, key);
            lemma_resolve_join(d, pp, k);
        },
        _ => {},
    }
}

/// Removing what an addition added gives the document and the value back:
/// for an addition under an object that lacked the key, or into an array at
/// an index (not at its end with `-`).
pub proof fn law_remove_undoes_add(v: JsonModel, p: Seq<char>, x: JsonModel)
    requires
        model_wf(v),
        add_spec(v, p, x) is Ok,
        match resolve(v, parent_of(p)) {
            Some(JsonModel::Object(es)) => member(es, decode_segment(child_of(p))) is None,
            Some(JsonModel::Array(_)) => child_of(p) != seq!['-'],
            _ => true,
        },
    ensures
        match add_spec(v, p, x) {
            Ok(d) => remove_spec(d, p) == Ok::<(JsonModel, JsonModel), PatchError>((v, x)),
            Err(_) => true,
        },
{
    let pp = parent_of(p);
    let k = child_of(p);
    lemma_resolve_wf(v, pp);
    let parent = resolve(v, pp)->0;
    match parent {
        JsonModel::Object(es) => {
            let key = decode_segment(k);
            let added = with_member(es, key, x);
            let changed = JsonModel::Object(added);
            law_read_after_write(v, pp, changed);
            lemma_with_member(es, key, x, key);
            let back = without_member(added, key);
            assert forall|k2: Seq<char>| #[trigger] member(back, k2) == member(es, k2) by {
                lemma_with_member(es, key, x, k2);
                lemma_without_member(added, key, k2);
            }
            lemma_without_member(added, key, key);
            lemma_sorted_ext(back, es);
            lemma_put_put(v, pp, changed, JsonModel::Object(es));
            lemma_put_same(v, pp);
        },
        JsonModel::Array(items) => {
            let n = parse_index(k)->0;
            let changed = JsonModel::Array(items.insert(n as int, x));
            law_read_after_write(v, pp, changed);
            assert(items.insert(n as int, x).remove(n as int) =~= items);
            assert(items.insert(n as int, x)[n as int] == x);
            lemma_put_put(v, pp, changed, JsonModel::Array(items));
            lemma_put_same(v, pp);
        },
        _ => {},
    }
}

/// An operation that fails leaves the document as it was; in particular a
/// move whose addition fails keeps the value where it was.
pub proof fn law_failed_operation_changes_nothing(v: JsonModel, op: PatchModel)
    requires
        apply_spec(v, op).1 is Err,
    ensures
        apply_spec(v, op).0 == v,
{
}

/// A test succeeds exactly when the pointer names a value equal to the
/// expected one; it fails with `TestFailed` exactly when the pointer names a
/// different value, and with `InvalidPath` when it names nothing.
pub proof fn law_test_compares(v: JsonModel, p: Seq<char>, expected: JsonModel)
    ensures
        test_spec(v, p, expected) is Ok <==> resolve(v, p) == Some(expected),
        test_spec(v, p, expected) == Err::<(), PatchError>(PatchError::TestFailed) <==> (resolve(v, p) is Some
            && resolve(v, p) != Some(expected)),
        test_spec(v, p, expected) == Err::<(), PatchError>(PatchError::InvalidPath) <==> resolve(v, p) is None,
        apply_spec(v, PatchModel::Test { path: p, value: expected }).0 == v,
{
}

/// After a successful copy, the destination reads what the source named
/// (with the same exceptions as for an addition).
pub proof fn law_copy_then_read(v: JsonModel, from: Seq<char>, p: Seq<char>)
    requires
        model_wf(v),
        copy_spec(v, from, p).1 is Ok,
        !(resolve(v, parent_of(p)) matches Some(JsonModel::Array(_)) && child_of(p) == seq!['-']),
    ensures
        resolve(copy_spec(v, from, p).0, p) == resolve(v, from),
{
    law_add_then_read(v, p, resolve(v, from)->0);
}

// ----- operations keep documents well formed -----

proof fn lemma_put_step_wf(v: JsonModel, seg: Seq<char>, w: JsonModel)
    requires
        model_wf(v),
        model_wf(w),
        step(v, seg) is Some,
    ensures
        model_wf(crate::pointer::put_step(v, seg, w)),
{
    match v {
        JsonModel::Object(es) => {
            let key = decode_segment(seg);
            lemma_key_index_found(es, key);
            let k = key_index(es, key);
            let es2 = es.update(k, (key, w));
            assert forall|i: int, j: int| 0 <= i < j < es2.len() implies crate::value::key_less(
                #[trigger] es2[i].0,
                #[trigger] es2[j].0,
            ) by {
                assert(es2[i].0 == es[i].0 && es2[j].0 == es[j].0);
            }
            assert forall|i: int| 0 <= i < es2.len() implies model_wf(#[trigger] es2[i].1) by {
                if i != k {
                    assert(es2[i] == es[i]);
                }
            }
        },
        JsonModel::Array(items) => {
            let n = parse_index(seg)->0;
            let items2 = items.update(n as int, w);
            assert forall|i: int| 0 <= i < items2.len() implies model_wf(#[trigger] items2[i]) by {
                if i != n {
                    assert(items2[i] == items[i]);
                }
            }
        },
        _ => {},
    }
}

proof fn lemma_put_walk_wf(v: JsonModel, p: Seq<char>, i: int, w: JsonModel)
    requires
        model_wf(v),
        model_wf(w),
        walk(v, p, i) is Some,
    ensures
        model_wf(crate::pointer::put_walk(v, p, i, w)),
    decreases p.len() - i,
{
    let j = crate::pointer::next_slash(p, i);
    crate::pointer::lemma_next_slash(p, i);
    let seg = p.subrange(i, j);
    let c = step(v, seg)->0;
    if j < p.len() {
        lemma_walk_wf(v, p, i);
        assert(model_wf(c)) by {
            match v {
                JsonModel::Object(es) => {
                    lemma_key_index_found(es, decode_segment(seg));
                    assert(model_wf(es[key_index(es, decode_segment(seg))].1));
                },
                JsonModel::Array(items) => {
                    assert(model_wf(items[parse_index(seg)->0 as int]));
                },
                _ => {},
            }
        }
        lemma_put_walk_wf(c, p, j + 1, w);
        lemma_put_step_wf(v, seg, crate::pointer::put_walk(c, p, j + 1, w));
    } else {
        lemma_put_step_wf(v, seg, w);
    }
}

/// Writing a well-formed value where a pointer names something keeps a
/// well-formed document well formed.
pub proof fn lemma_put_wf(v: JsonModel, p: Seq<char>, w: JsonModel)
    requires
        model_wf(v),
        model_wf(w),
        resolve(v, p) is Some,
    ensures
        model_wf(put(v, p, w)),
{
    if p.len() > 0 {
        lemma_put_walk_wf(v, p, 1, w);
    }
}

/// A successful removal keeps a well-formed document well formed.
pub proof fn lemma_remove_wf(v: JsonModel, p: Seq<char>)
    requires
        model_wf(v),
        remove_spec(v, p) is Ok,
    ensures
        match remove_spec(v, p) {
            Ok((d, x)) => model_wf(d) && model_wf(x),
            Err(_) => true,
        },
{
    let pp = parent_of(p);
    let k = child_of(p);
    lemma_resolve_wf(v, pp);
    match resolve(v, pp)->0 {
        JsonModel::Array(items) => {
            let n = parse_index(k)->0;
            let items2 = items.remove(n as int);
            assert forall|i: int| 0 <= i < items2.len() implies model_wf(#[trigger] items2[i]) by {
                if i < n {
                    assert(items2[i] == items[i]);
                } else {
                    assert(items2[i] == items[i + 1]);
                }
            }
            assert(model_wf(items[n as int]));
            lemma_put_wf(v, pp, JsonModel::Array(items2));
        },
        JsonModel::Object(es) => {
            let key = decode_segment(k);
            lemma_without_member(es, key, key);
            let es2 = without_member(es, key);
            lemma_key_index_found(es, key);
            let x = key_index(es, key);
            assert forall|i: int| 0 <= i < es2.len() implies model_wf(#[trigger] es2[i].1) by {
                if i < x {
                    assert(es2[i] == es[i]);
                } else {
                    assert(es2[i] == es[i + 1]);
                }
            }
            assert(model_wf(es[x].1));
            lemma_put_wf(v, pp, JsonModel::Object(es2));
        },
        _ => {},
    }
}

/// After a successful move, the destination reads what the source named
/// (except for `-` under an array).
pub proof fn law_move_then_read(v: JsonModel, from: Seq<char>, p: Seq<char>)
    requires
        model_wf(v),
        move_spec(v, from, p).1 is Ok,
        match remove_spec(v, from) {
            Ok((d, _)) => !(resolve(d, parent_of(p)) matches Some(JsonModel::Array(_)) && child_of(p) == seq!['-']),
            Err(_) => true,
        },
    ensures
        resolve(move_spec(v, from, p).0, p) == resolve(v, from),
{
    law_remove_then_read(v, from);
    lemma_remove_wf(v, from);
    match remove_spec(v, from) {
        Ok((d, x)) => {
            law_add_then_read(d, p, x);
        },
        Err(_) => {},
    }
}

} // verus!
