use vstd::prelude::*;
use crate::patch::{PatchModel, PatchOperation};
use crate::serializer::{compact, quoted};
use crate::text::chars_of;
use crate::value::{JsonModel, JsonObject, JsonValue, group_view, lemma_view_values, member, same_key, view_values};
use crate::diff::view_ops;

verus! {

// ----- writing patch documents -----

/// A JSON string literal for `value`.
pub fn json_string(value: &str) -> (r: String)
    ensures
        r@ == quoted(value@),
{
    let v = JsonValue::String(value.to_owned());
    crate::serializer::to_json_string(&v)
}

/// The compact JSON text of one operation.
pub open spec fn op_text(op: PatchModel) -> Seq<char> {
    match op {
        PatchModel::Add { path, value } => "{\"op\":\"add\",\"path\":"@ + quoted(path) + ",\"value\":"@
            + compact(value) + "}"@,
        PatchModel::Remove { path } => "{\"op\":\"remove\",\"path\":"@ + quoted(path) + "}"@,
        PatchModel::Replace { path, value } => "{\"op\":\"replace\",\"path\":"@ + quoted(path)
            + ",\"value\":"@ + compact(value) + "}"@,
        PatchModel::Move { from, path } => "{\"op\":\"move\",\"from\":"@ + quoted(from)
            + ",\"path\":"@ + quoted(path) + "}"@,
        PatchModel::Copy { from, path } => "{\"op\":\"copy\",\"from\":"@ + quoted(from)
            + ",\"path\":"@ + quoted(path) + "}"@,
        PatchModel::Test { path, value } => "{\"op\":\"test\",\"path\":"@ + quoted(path)
            + ",\"value\":"@ + compact(value) + "}"@,
    }
}

/// Each operation on a line of its own, indented by two spaces, the lines
/// separated by commas.
pub open spec fn ops_lines(ops: Seq<PatchModel>) -> Seq<char>
    decreases ops.len(),
{
    if ops.len() == 0 {
        Seq::empty()
    } else if ops.len() == 1 {
        "  "@ + op_text(ops[0])
    } else {
        ops_lines(ops.drop_last()) + ",\n"@ + "  "@ + op_text(ops.last())
    }
}

/// The text of a list of operations: `[]` when empty, else one operation per line.
pub open spec fn ops_text(ops: Seq<PatchModel>) -> Seq<char> {
    if ops.len() == 0 {
        "[]"@
    } else {
        "[\n"@ + ops_lines(ops) + "\n]"@
    }
}

/// The compact JSON text of one operation.
pub fn patch_operation_to_json(patch: &PatchOperation) -> (r: String)
    ensures
        r@ == op_text(patch@),
{
    let mut out = String::new();
    match patch {
        PatchOperation::Add { path, value } => {
            out.append("{\"op\":\"add\",\"path\":");
            out.append(json_string(path.as_str()).as_str());
            out.append(",\"value\":");
            out.append(crate::serializer::to_json_string(value).as_str());
            out.append("}");
        },
        PatchOperation::Remove { path } => {
            out.append("{\"op\":\"remove\",\"path\":");
            out.append(json_string(path.as_str()).as_str());
            out.append("}");
        },
        PatchOperation::Replace { path, value } => {
            out.append("{\"op\":\"replace\",\"path\":");
            out.append(json_string(path.as_str()).as_str());
            out.append(",\"value\":");
            out.append(crate::serializer::to_json_string(value).as_str());
            out.append("}");
        },
        PatchOperation::Move { from, path } => {
            out.append("{\"op\":\"move\",\"from\":");
            out.append(json_string(from.as_str()).as_str());
            out.append(",\"path\":");
            out.append(json_string(path.as_str()).as_str());
            out.append("}");
        },
        PatchOperation::Copy { from, path } => {
            out.append("{\"op\":\"copy\",\"from\":");
            out.append(json_string(from.as_str()).as_str());
            out.append(",\"path\":");
            out.append(json_string(path.as_str()).as_str());
            out.append("}");
        },
        PatchOperation::Test { path, value } => {
            out.append("{\"op\":\"test\",\"path\":");
            out.append(json_string(path.as_str()).as_str());
            out.append(",\"value\":");
            out.append(crate::serializer::to_json_string(value).as_str());
            out.append("}");
        },
    }
    assert(out@ =~= op_text(patch@));
    out
}

/// The text of a list of operations: `[]` when empty, else a bracketed
/// list with one operation per line.
pub fn patch_operations_to_json(patches: &[PatchOperation]) -> (r: String)
    ensures
        r@ == ops_text(view_ops(patches@)),
{
    let ghost ops = view_ops(patches@);
    if patches.len() == 0 {
        return "[]".to_owned();
    }
    let mut out = String::new();
    out.append("[\n");
    let mut i: usize = 0;
    while i < patches.len()
        invariant
            i <= patches@.len(),
            patches@.len() > 0,
            ops == view_ops(patches@),
            out@ == "[\n"@ + ops_lines(ops.subrange(0, i as int)),
        decreases patches@.len() - i,
    {
        let ghost before = out@;
        let line = patch_operation_to_json(&patches[i]);
        let ghost pre = ops.subrange(0, i as int);
        let ghost next = ops.subrange(0, i + 1);
        assert(next.drop_last() =~= pre);
        assert(next.last() == patches@[i as int]@);
        if i > 0 {
            out.append(",\n");
        }
        out.append("  ");
        out.append(line.as_str());
        proof {
            if i == 0 {
                assert(pre =~= Seq::<PatchModel>::empty());
                assert(next[0] == next.last());
            }
        }
        assert(out@ =~= "[\n"@ + ops_lines(next));
        i = i + 1;
    }
    out.append("\n]");
    assert(ops.subrange(0, i as int) =~= ops);
    out
}

// ----- reading patch documents -----

/// Why a JSON document is not a list of patch operations.
#[derive(Debug)]
pub enum PatchDecodeError {
    /// The document is not an array.
    NotAnArray,
    /// The operation at this index is not an object.
    NotAnObject(usize),
    /// The operation at this index lacks the named field.
    MissingField(usize, String),
    /// The named field of the operation at this index is not a string.
    NotAString(usize, String),
    /// The operation at this index names an operation that does not exist.
    UnsupportedOp(usize, String),
}

/// The content of a [`PatchDecodeError`].
pub enum DecodeErrorModel {
    NotAnArray,
    NotAnObject(nat),
    MissingField(nat, Seq<char>),
    NotAString(nat, Seq<char>),
    UnsupportedOp(nat, Seq<char>),
}

impl PatchDecodeError {
    pub open spec fn view(&self) -> DecodeErrorModel {
        match self {
            PatchDecodeError::NotAnArray => DecodeErrorModel::NotAnArray,
            PatchDecodeError::NotAnObject(i) => DecodeErrorModel::NotAnObject(*i as nat),
            PatchDecodeError::MissingField(i, k) => DecodeErrorModel::MissingField(*i as nat, k@),
            PatchDecodeError::NotAString(i, k) => DecodeErrorModel::NotAString(*i as nat, k@),
            PatchDecodeError::UnsupportedOp(i, o) => DecodeErrorModel::UnsupportedOp(*i as nat, o@),
        }
    }
}

/// The string under `key` of the operation at `index`.
pub open spec fn field_string(es: Seq<(Seq<char>, JsonModel)>, key: Seq<char>, index: nat) -> Result<Seq<char>, DecodeErrorModel> {
    match member(es, key) {
        Some(JsonModel::String(s)) => Ok(s),
        Some(_) => Err(DecodeErrorModel::NotAString(index, key)),
        None => Err(DecodeErrorModel::MissingField(index, key)),
    }
}

/// The value under `key` of the operation at `index`.
pub open spec fn field_value(es: Seq<(Seq<char>, JsonModel)>, key: Seq<char>, index: nat) -> Result<JsonModel, DecodeErrorModel> {
    match member(es, key) {
        Some(x) => Ok(x),
        None => Err(DecodeErrorModel::MissingField(index, key)),
    }
}

/// An operation with a value under `"value"`.
pub open spec fn with_value(es: Seq<(Seq<char>, JsonModel)>, index: nat, path: Seq<char>, kind: Seq<char>) -> Result<PatchModel, DecodeErrorModel> {
    match field_value(es, "value"@, index) {
        Err(e) => Err(e),
        Ok(x) => if kind == "add"@ {
            Ok(PatchModel::Add { path, value: x })
        } else if kind == "replace"@ {
            Ok(PatchModel::Replace { path, value: x })
        } else {
            Ok(PatchModel::Test { path, value: x })
        },
    }
}

/// An operation with a pointer under `"from"`.
pub open spec fn with_from(es: Seq<(Seq<char>, JsonModel)>, index: nat, path: Seq<char>, kind: Seq<char>) -> Result<PatchModel, DecodeErrorModel> {
    match field_string(es, "from"@, index) {
        Err(e) => Err(e),
        Ok(from) => if kind == "move"@ {
            Ok(PatchModel::Move { from, path })
        } else {
            Ok(PatchModel::Copy { from, path })
        },
    }
}

/// The operation that the JSON value `v`, at `index` of a patch document,
/// describes: an object with a string `"op"` and a string `"path"`, and a
/// `"value"` (add, replace, test) or a string `"from"` (move, copy).
pub open spec fn decode_op(v: JsonModel, index: nat) -> Result<PatchModel, DecodeErrorModel> {
    match v {
        JsonModel::Object(es) => match field_string(es, "op"@, index) {
            Err(e) => Err(e),
            Ok(op) => match field_string(es, "path"@, index) {
                Err(e) => Err(e),
                Ok(path) => if op == "add"@ || op == "replace"@ || op == "test"@ {
                    with_value(es, index, path, op)
                } else if op == "remove"@ {
                    Ok(PatchModel::Remove { path })
                } else if op == "move"@ || op == "copy"@ {
                    with_from(es, index, path, op)
                } else {
                    Err(DecodeErrorModel::UnsupportedOp(index, op))
                },
            },
        },
        _ => Err(DecodeErrorModel::NotAnObject(index)),
    }
}

/// The operations that the elements of `items` from `i` on describe, or the
/// first error.
pub open spec fn decode_ops_from(items: Seq<JsonModel>, i: nat) -> Result<Seq<PatchModel>, DecodeErrorModel>
    decreases items.len() - i,
{
    if i >= items.len() {
        Ok(Seq::empty())
    } else {
        match decode_op(items[i as int], i) {
            Err(e) => Err(e),
            Ok(op) => match decode_ops_from(items, i + 1) {
                Err(e) => Err(e),
                Ok(rest) => Ok(seq![op] + rest),
            },
        }
    }
}

/// The operations that a patch document describes: an array of operations.
pub open spec fn decode_ops(v: JsonModel) -> Result<Seq<PatchModel>, DecodeErrorModel> {
    match v {
        JsonModel::Array(items) => decode_ops_from(items, 0),
        _ => Err(DecodeErrorModel::NotAnArray),
    }
}

/// Whether two texts are the same.
fn same_text(a: &str, b: &str) -> (r: bool)
    ensures
        r == (a@ == b@),
{
    let x = chars_of(a);
    let y = chars_of(b);
    same_key(&x, &y)
}

/// The string under `key` of the operation at `index`.
pub fn take_string(object: &JsonObject, key: &str, index: usize) -> (r: Result<String, PatchDecodeError>)
    ensures
        match field_string(object@, key@, index as nat) {
            Ok(s) => r matches Ok(x) && x@ == s,
            Err(e) => r matches Err(x) && x@ == e,
        },
{
    match object.get(key) {
        Some(JsonValue::String(value)) => Ok(value.clone()),
        Some(_) => Err(PatchDecodeError::NotAString(index, key.to_owned())),
        None => Err(PatchDecodeError::MissingField(index, key.to_owned())),
    }
}

/// The value under `key` of the operation at `index`.
pub fn take_value(object: &JsonObject, key: &str, index: usize) -> (r: Result<JsonValue, PatchDecodeError>)
    ensures
        match field_value(object@, key@, index as nat) {
            Ok(v) => r matches Ok(x) && x@ == v,
            Err(e) => r matches Err(x) && x@ == e,
        },
{
    match object.get(key) {
        Some(value) => Ok(value.deep_copy()),
        None => Err(PatchDecodeError::MissingField(index, key.to_owned())),
    }
}

/// The operation that `value`, at `index` of a patch document, describes.
pub fn json_to_patch_operation(value: &JsonValue, index: usize) -> (r: Result<PatchOperation, PatchDecodeError>)
    ensures
        match decode_op(value@, index as nat) {
            Ok(op) => r matches Ok(x) && x@ == op,
            Err(e) => r matches Err(x) && x@ == e,
        },
{
    let object = match value {
        JsonValue::Object(object) => object,
        _ => {
            return Err(PatchDecodeError::NotAnObject(index));
        },
    };
    let op = match take_string(object, "op", index) {
        Ok(s) => s,
        Err(e) => {
            return Err(e);
        },
    };
    let path = match take_string(object, "path", index) {
        Ok(s) => s,
        Err(e) => {
            return Err(e);
        },
    };
    if same_text(op.as_str(), "add") || same_text(op.as_str(), "replace") || same_text(op.as_str(), "test") {
        let v = match take_value(object, "value", index) {
            Ok(v) => v,
            Err(e) => {
                return Err(e);
            },
        };
        if same_text(op.as_str(), "add") {
            Ok(PatchOperation::Add { path, value: v })
        } else if same_text(op.as_str(), "replace") {
            Ok(PatchOperation::Replace { path, value: v })
        } else {
            Ok(PatchOperation::Test { path, value: v })
        }
    } else if same_text(op.as_str(), "remove") {
        Ok(PatchOperation::Remove { path })
    } else if same_text(op.as_str(), "move") || same_text(op.as_str(), "copy") {
        let from = match take_string(object, "from", index) {
            Ok(s) => s,
            Err(e) => {
                return Err(e);
            },
        };
        if same_text(op.as_str(), "move") {
            Ok(PatchOperation::Move { from, path })
        } else {
            Ok(PatchOperation::Copy { from, path })
        }
    } else {
        Err(PatchDecodeError::UnsupportedOp(index, op))
    }
}

/// The operations that a patch document describes, or the first error.
pub fn json_to_patch_operations(value: &JsonValue) -> (r: Result<Vec<PatchOperation>, PatchDecodeError>)
    ensures
        match decode_ops(value@) {
            Ok(ops) => r matches Ok(x) && view_ops(x@) == ops,
            Err(e) => r matches Err(x) && x@ == e,
        },
{
    broadcast use group_view;
    let items = match value {
        JsonValue::Array(items) => items,
        _ => {
            return Err(PatchDecodeError::NotAnArray);
        },
    };
    let ghost ms = view_values(items@);
    proof {
        lemma_view_values(items@);
    }
    let mut out: Vec<PatchOperation> = Vec::new();
    let mut i: usize = 0;
    while i < items.len()
        invariant
            i <= items@.len(),
            *value == JsonValue::Array(*items),
            ms == view_values(items@),
            ms.len() == items@.len(),
            forall|j: int| 0 <= j < items@.len() ==> #[trigger] ms[j] == items@[j]@,
            decode_ops_from(ms, 0) == match decode_ops_from(ms, i as nat) {
                Ok(rest) => Ok(view_ops(out@) + rest),
                Err(e) => Err(e),
            },
        decreases items@.len() - i,
    {
        let ghost before = view_ops(out@);
        assert(ms[i as int] == items@[i as int]@);
        match json_to_patch_operation(&items[i], i) {
            Ok(op) => {
                out.push(op);
                assert(view_ops(out@) =~= before.push(op@));
                proof {
                    match decode_ops_from(ms, (i + 1) as nat) {
                        Ok(rest) => {
                            assert(before + (seq![op@] + rest) =~= view_ops(out@) + rest);
                        },
                        Err(e) => {},
                    }
                }
            },
            Err(e) => {
                assert(ms[i as int] == items@[i as int]@);
                assert(decode_ops_from(ms, i as nat) == Err::<Seq<PatchModel>, DecodeErrorModel>(e@));
                return Err(e);
            },
        }
        i = i + 1;
    }
    assert(view_ops(out@) + Seq::<PatchModel>::empty() =~= view_ops(out@));
    Ok(out)
}

// ----- what decoding keeps -----

/// The name that a JSON Patch document gives each kind of operation under
/// `"op"`.
pub open spec fn op_name(op: PatchModel) -> Seq<char> {
    match op {
        PatchModel::Add { .. } => "add"@,
        PatchModel::Remove { .. } => "remove"@,
        PatchModel::Replace { .. } => "replace"@,
        PatchModel::Move { .. } => "move"@,
        PatchModel::Copy { .. } => "copy"@,
        PatchModel::Test { .. } => "test"@,
    }
}

/// Whether the members `es` of an operation object carry what `op` holds:
/// its name under `"op"`, its pointer under `"path"`, and its source pointer
/// under `"from"` or its value under `"value"`.
pub open spec fn carries(es: Seq<(Seq<char>, JsonModel)>, op: PatchModel) -> bool {
    &&& member(es, "op"@) == Some(JsonModel::String(op_name(op)))
    &&& match op {
        PatchModel::Add { path, value } => member(es, "path"@) == Some(JsonModel::String(path))
            && member(es, "value"@) == Some(value),
        PatchModel::Remove { path } => member(es, "path"@) == Some(JsonModel::String(path)),
        PatchModel::Replace { path, value } => member(es, "path"@) == Some(JsonModel::String(path))
            && member(es, "value"@) == Some(value),
        PatchModel::Move { from, path } => member(es, "path"@) == Some(JsonModel::String(path))
            && member(es, "from"@) == Some(JsonModel::String(from)),
        PatchModel::Copy { from, path } => member(es, "path"@) == Some(JsonModel::String(path))
            && member(es, "from"@) == Some(JsonModel::String(from)),
        PatchModel::Test { path, value } => member(es, "path"@) == Some(JsonModel::String(path))
            && member(es, "value"@) == Some(value),
    }
}

/// An operation read from a patch document is the one its `"op"` names,
/// with the pointers and value that the object holds.
pub proof fn law_decode_keeps_fields(v: JsonModel, index: nat)
    requires
        decode_op(v, index) is Ok,
    ensures
        match decode_op(v, index) {
            Ok(op) => v matches JsonModel::Object(es) && carries(es, op),
            Err(_) => true,
        },
{
    reveal_strlit("add");
    reveal_strlit("remove");
    reveal_strlit("replace");
    reveal_strlit("move");
    reveal_strlit("copy");
    reveal_strlit("test");
}

/// Text whose characters need no escape is written as it is.
proof fn lemma_escaped_plain(s: Seq<char>)
    requires
        forall|i: int| 0 <= i < s.len() ==> 'a' <= #[trigger] s[i] <= 'z',
    ensures
        crate::serializer::escaped(s) == s,
    decreases s.len(),
{
    if s.len() > 0 {
        lemma_escaped_plain(s.drop_last());
        let c = s.last();
        assert('a' <= c <= 'z');
        assert(c as u32 >= 0x20);
        assert(crate::serializer::escape_char(c) == seq![c]);
        assert(crate::serializer::escaped(s) =~= s);
    }
}

/// The text written for an operation starts with `{"op":` and the quoted
/// name of its kind, the name that reading it back looks for.
pub proof fn law_written_op_name(op: PatchModel)
    ensures
        op_text(op).take(("{\"op\":"@ + quoted(op_name(op))).len() as int) == "{\"op\":"@ + quoted(
            op_name(op),
        ),
{
    reveal_strlit("{\"op\":");
    reveal_strlit("add");
    reveal_strlit("remove");
    reveal_strlit("replace");
    reveal_strlit("move");
    reveal_strlit("copy");
    reveal_strlit("test");
    reveal_strlit("{\"op\":\"add\",\"path\":");
    reveal_strlit("{\"op\":\"remove\",\"path\":");
    reveal_strlit("{\"op\":\"replace\",\"path\":");
    reveal_strlit("{\"op\":\"move\",\"from\":");
    reveal_strlit("{\"op\":\"copy\",\"from\":");
    reveal_strlit("{\"op\":\"test\",\"path\":");
    let name = op_name(op);
    lemma_escaped_plain(name);
    let head = "{\"op\":"@ + quoted(name);
    assert(op_text(op).take(head.len() as int) =~= head);
}

} // verus!
