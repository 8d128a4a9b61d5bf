use vstd::prelude::*;
use crate::lexer::{
    LexStep, SpannedModel, TokenModel, digit_run_end, digit_value, digit_values, is_digit,
    lemma_digit_run_bounds, lemma_lex_all_step, lex_all, lex_token, scan_fraction, scan_int_part,
    scan_number, skip_ws, lemma_skip_ws_bounds,
};
use crate::members::{lemma_with_member, lemma_without_member};
use crate::merge_patch::{member_or_null, merge_members, merge_spec, object_members};
use crate::patch::{
    PatchModel, add_spec, apply_all, apply_spec, child_of, copy_spec, lemma_put_wf, lemma_resolve_wf,
    move_spec, parent_of, remove_spec,
};
use crate::pointer::{parse_index, resolve};
use crate::number::{all_digits, leading_zeros, normalize, trailing_zeros};
use crate::parser::{
    Stream, p_array, p_items, p_key, p_members, p_object, p_value, parse_stream, parse_text, pull,
    stream_of,
};
use crate::value::{
    JsonModel, insert_index, key_index, keys_sorted, lemma_key_index_found, member, model_wf,
    with_member, without_member,
};

verus! {

// ----- numbers read from text are canonical -----

proof fn lemma_leading_zeros_props(ds: Seq<u8>)
    ensures
        leading_zeros(ds) <= ds.len(),
        forall|j: int| 0 <= j < leading_zeros(ds) ==> ds[j] == 0,
        leading_zeros(ds) < ds.len() ==> ds[leading_zeros(ds) as int] != 0,
    decreases ds.len(),
{
    if ds.len() > 0 && ds[0] == 0 {
        let rest = ds.drop_first();
        lemma_leading_zeros_props(rest);
        assert forall|j: int| 0 <= j < leading_zeros(ds) implies ds[j] == 0 by {
            if j > 0 {
                assert(ds[j] == rest[j - 1]);
            }
        }
        if leading_zeros(ds) < ds.len() {
            assert(ds[leading_zeros(ds) as int] == rest[leading_zeros(rest) as int]);
        }
    }
}

proof fn lemma_trailing_zeros_props(ds: Seq<u8>)
    ensures
        trailing_zeros(ds) <= ds.len(),
        forall|j: int| ds.len() - trailing_zeros(ds) <= j < ds.len() ==> ds[j] == 0,
        trailing_zeros(ds) < ds.len() ==> ds[ds.len() - 1 - trailing_zeros(ds)] != 0,
    decreases ds.len(),
{
    if ds.len() > 0 && ds.last() == 0 {
        let rest = ds.drop_last();
        lemma_trailing_zeros_props(rest);
        assert forall|j: int| ds.len() - trailing_zeros(ds) <= j < ds.len() implies ds[j] == 0 by {
            if j < ds.len() - 1 {
                assert(ds[j] == rest[j]);
            }
        }
        if trailing_zeros(ds) < ds.len() {
            assert(ds[ds.len() - 1 - trailing_zeros(ds)] == rest[rest.len() - 1 - trailing_zeros(rest)]);
        }
    }
}

/// The normal form of decimal digits is canonical.
pub proof fn lemma_normalize_wf(neg: bool, all: Seq<u8>, e: int)
    requires
        all_digits(all),
    ensures
        normalize(neg, all, e).wf(),
{
    let lz = leading_zeros(all);
    lemma_leading_zeros_props(all);
    let body = all.skip(lz as int);
    if body.len() > 0 {
        let tz = trailing_zeros(body);
        lemma_trailing_zeros_props(body);
        assert(body[0] == all[lz as int]);
        if tz >= body.len() {
            assert(body[0] == 0);
        }
        let ds = body.take(body.len() - tz);
        assert(ds[0] == body[0]);
        assert(ds.last() == body[body.len() - 1 - tz]);
        assert forall|i: int| 0 <= i < ds.len() implies #[trigger] ds[i] < 10 by {
            assert(ds[i] == all[lz + i]);
        }
    }
}

/// The digits of a run of digit characters.
proof fn lemma_digit_values_run(s: Seq<char>, a: int, b: int)
    requires
        0 <= a <= b <= s.len(),
        forall|t: int| a <= t < b ==> is_digit(#[trigger] s[t]),
    ensures
        all_digits(digit_values(s.subrange(a, b))),
{
    assert forall|i: int| 0 <= i < b - a implies #[trigger] digit_values(s.subrange(a, b))[i] < 10 by {
        let c = s[a + i];
        assert(s.subrange(a, b)[i] == c);
        assert(48 <= c as int <= 57);
    }
}

/// A number read from text is canonical.
proof fn lemma_scan_number_wf(s: Seq<char>, j: int)
    requires
        0 <= j <= s.len(),
    ensures
        scan_number(s, j) matches Ok((n, _)) ==> n.wf(),
{
    let negative = j < s.len() && s[j] == '-';
    let k = if negative { j + 1 } else { j };
    lemma_digit_run_bounds(s, k);
    if let Ok(int_end) = scan_int_part(s, k) {
        assert forall|t: int| k <= t < int_end implies is_digit(#[trigger] s[t]) by {}
        lemma_digit_values_run(s, k, int_end);
        if int_end < s.len() {
            lemma_digit_run_bounds(s, int_end + 1);
        }
        if let Ok((fs, fe)) = scan_fraction(s, int_end) {
            lemma_digit_values_run(s, fs, fe);
            let all = digit_values(s.subrange(k, int_end) + s.subrange(fs, fe));
            assert(all =~= digit_values(s.subrange(k, int_end)) + digit_values(s.subrange(fs, fe)));
            assert forall|i: int| 0 <= i < all.len() implies #[trigger] all[i] < 10 by {
                if i < int_end - k {
                    assert(all[i] == digit_values(s.subrange(k, int_end))[i]);
                } else {
                    assert(all[i] == digit_values(s.subrange(fs, fe))[i - (int_end - k)]);
                }
            }
            if let Ok((exp, end)) = crate::lexer::scan_exponent(s, fe) {
                lemma_normalize_wf(negative, all, exp - (fe - fs));
            }
        }
    }
}

/// The content of a number token is canonical.
pub open spec fn token_wf(t: TokenModel) -> bool {
    match t {
        TokenModel::Num(n) => n.wf(),
        _ => true,
    }
}

/// Every token of a stream has canonical content.
pub open spec fn tokens_wf(ts: Seq<SpannedModel>) -> bool {
    forall|t: int| 0 <= t < ts.len() ==> token_wf(#[trigger] ts[t].token)
}

proof fn lemma_lex_all_wf(s: Seq<char>, i: int)
    requires
        0 <= i <= s.len(),
    ensures
        tokens_wf(lex_all(s, i).0),
    decreases s.len() - i,
{
    lemma_lex_all_step(s, i);
    match lex_token(s, i) {
        LexStep::Token(t, k) => {
            lemma_lex_all_wf(s, k);
            lemma_skip_ws_bounds(s, i);
            lemma_scan_number_wf(s, skip_ws(s, i));
            let all = lex_all(s, i).0;
            assert forall|x: int| 0 <= x < all.len() implies token_wf(#[trigger] all[x].token) by {
                if x > 0 {
                    assert(all[x] == lex_all(s, k).0[x - 1]);
                }
            }
        },
        _ => {},
    }
}

// ----- documents read from tokens are well formed -----

proof fn lemma_p_value_wf(st: Stream, k: int)
    requires
        tokens_wf(st.toks),
    ensures
        p_value(st, k) matches Ok((v, _)) ==> model_wf(v),
    decreases st.toks.len() - k, 0int,
{
    if 0 <= k < st.toks.len() {
        let t = st.toks[k];
        assert(token_wf(t.token));
        match t.token {
            TokenModel::LeftBracket => lemma_p_array_wf(st, k + 1),
            TokenModel::LeftBrace => lemma_p_object_wf(st, k + 1),
            _ => {},
        }
    }
}

proof fn lemma_p_array_wf(st: Stream, k: int)
    requires
        tokens_wf(st.toks),
    ensures
        p_array(st, k) matches Ok((v, _)) ==> model_wf(v),
    decreases st.toks.len() - k, 2int,
{
    lemma_p_items_wf(st, k, Seq::empty());
}

proof fn lemma_p_items_wf(st: Stream, k: int, acc: Seq<JsonModel>)
    requires
        tokens_wf(st.toks),
        forall|i: int| 0 <= i < acc.len() ==> model_wf(#[trigger] acc[i]),
    ensures
        p_items(st, k, acc) matches Ok((v, _)) ==> model_wf(v),
    decreases st.toks.len() - k, 1int,
{
    if 0 <= k <= st.toks.len() {
        lemma_p_value_wf(st, k);
        match p_value(st, k) {
            Ok((v, k1)) => {
                if k < k1 <= st.toks.len() {
                    let acc2 = acc.push(v);
                    assert forall|i: int| 0 <= i < acc2.len() implies model_wf(#[trigger] acc2[i]) by {
                        if i < acc.len() {
                            assert(acc2[i] == acc[i]);
                        }
                    }
                    if k1 < st.toks.len() {
                        lemma_p_items_wf(st, k1 + 1, acc2);
                    }
                }
            },
            Err(_) => {},
        }
    }
}

proof fn lemma_p_object_wf(st: Stream, k: int)
    requires
        tokens_wf(st.toks),
    ensures
        p_object(st, k) matches Ok((v, _)) ==> model_wf(v),
    decreases st.toks.len() - k, 2int,
{
    lemma_p_members_wf(st, k, Seq::empty());
}

/// Setting a member keeps member values well formed.
pub proof fn lemma_with_member_values(es: Seq<(Seq<char>, JsonModel)>, key: Seq<char>, v: JsonModel)
    requires
        forall|i: int| 0 <= i < es.len() ==> model_wf(#[trigger] es[i].1),
        model_wf(v),
    ensures
        forall|i: int| 0 <= i < with_member(es, key, v).len() ==> model_wf(#[trigger] with_member(es, key, v)[i].1),
{
    let r = with_member(es, key, v);
    let x = key_index(es, key);
    lemma_key_index_found(es, key);
    if x < 0 {
        let q = insert_index(es, key);
        crate::value::lemma_insert_index_bounds(es, key);
        assert forall|i: int| 0 <= i < r.len() implies model_wf(#[trigger] r[i].1) by {
            if i < q {
                assert(r[i] == es[i]);
            } else if i > q {
                assert(r[i] == es[i - 1]);
            }
        }
    } else {
        assert forall|i: int| 0 <= i < r.len() implies model_wf(#[trigger] r[i].1) by {
            if i != x {
                assert(r[i] == es[i]);
            }
        }
    }
}

proof fn lemma_p_members_wf(st: Stream, k: int, acc: Seq<(Seq<char>, JsonModel)>)
    requires
        tokens_wf(st.toks),
        keys_sorted(acc),
        forall|i: int| 0 <= i < acc.len() ==> model_wf(#[trigger] acc[i].1),
    ensures
        p_members(st, k, acc) matches Ok((v, _)) ==> model_wf(v),
    decreases st.toks.len() - k, 1int,
{
    match p_key(st, k) {
        Ok(key) => {
            if 0 <= k && k + 2 <= st.toks.len() {
                lemma_p_value_wf(st, k + 2);
                match p_value(st, k + 2) {
                    Ok((v, k3)) => {
                        if k + 2 < k3 <= st.toks.len() {
                            let acc2 = with_member(acc, key, v);
                            lemma_with_member(acc, key, v, key);
                            lemma_with_member_values(acc, key, v);
                            if k3 < st.toks.len() {
                                lemma_p_members_wf(st, k3 + 1, acc2);
                            }
                        }
                    },
                    Err(_) => {},
                }
            }
        },
        Err(_) => {},
    }
}

/// Every document read from text is well formed: its objects have sorted,
/// distinct keys and its numbers are canonical.
pub proof fn law_parse_wf(s: Seq<char>)
    ensures
        parse_text(s) matches Ok(v) ==> model_wf(v),
{
    lemma_lex_all_wf(s, 0);
    lemma_p_value_wf(stream_of(s), 0);
}

// ----- operations keep documents well formed -----

/// Removing a member keeps member values well formed.
pub proof fn lemma_without_member_values(es: Seq<(Seq<char>, JsonModel)>, key: Seq<char>)
    requires
        forall|i: int| 0 <= i < es.len() ==> model_wf(#[trigger] es[i].1),
    ensures
        forall|i: int| 0 <= i < without_member(es, key).len() ==> model_wf(#[trigger] without_member(es, key)[i].1),
{
    let r = without_member(es, key);
    let x = key_index(es, key);
    lemma_key_index_found(es, key);
    if x >= 0 {
        assert forall|i: int| 0 <= i < r.len() implies model_wf(#[trigger] r[i].1) by {
            if i < x {
                assert(r[i] == es[i]);
            } else {
                assert(r[i] == es[i + 1]);
            }
        }
    }
}

/// The value that a patch operation carries is well formed.
pub open spec fn op_wf(op: PatchModel) -> bool {
    match op {
        PatchModel::Replace { value, .. } => model_wf(value),
        PatchModel::Add { value, .. } => model_wf(value),
        PatchModel::Test { value, .. } => model_wf(value),
        _ => true,
    }
}

proof fn lemma_add_wf(v: JsonModel, p: Seq<char>, new: JsonModel)
    requires
        model_wf(v),
        model_wf(new),
    ensures
        add_spec(v, p, new) matches Ok(d) ==> model_wf(d),
{
    if add_spec(v, p, new) is Ok {
        let pp = parent_of(p);
        let k = child_of(p);
        lemma_resolve_wf(v, pp);
        match resolve(v, pp)->0 {
            JsonModel::Object(es) => {
                let key = crate::pointer::decode_segment(k);
                lemma_with_member(es, key, new, key);
                lemma_with_member_values(es, key, new);
                lemma_put_wf(v, pp, JsonModel::Object(with_member(es, key, new)));
            },
            JsonModel::Array(items) => {
                if k == seq!['-'] {
                    let items2 = items.push(new);
                    assert forall|i: int| 0 <= i < items2.len() implies model_wf(#[trigger] items2[i]) by {
                        if i < items.len() {
                            assert(items2[i] == items[i]);
                        }
                    }
                    lemma_put_wf(v, pp, JsonModel::Array(items2));
                } else {
                    let n = parse_index(k)->0 as int;
                    let items2 = items.insert(n, new);
                    assert forall|i: int| 0 <= i < items2.len() implies model_wf(#[trigger] items2[i]) by {
                        if i < n {
                            assert(items2[i] == items[i]);
                        } else if i > n {
                            assert(items2[i] == items[i - 1]);
                        }
                    }
                    lemma_put_wf(v, pp, JsonModel::Array(items2));
                }
            },
            _ => {},
        }
    }
}

/// Each patch operation, successful or not, leaves a well-formed document
/// well formed, when the value it carries is well formed.
pub proof fn law_apply_wf(v: JsonModel, op: PatchModel)
    requires
        model_wf(v),
        op_wf(op),
    ensures
        model_wf(apply_spec(v, op).0),
{
    match op {
        PatchModel::Replace { path, value } => {
            if resolve(v, path) is Some {
                lemma_put_wf(v, path, value);
            }
        },
        PatchModel::Remove { path } => {
            if remove_spec(v, path) is Ok {
                crate::patch::lemma_remove_wf(v, path);
            }
        },
        PatchModel::Add { path, value } => {
            lemma_add_wf(v, path, value);
        },
        PatchModel::Move { from, path } => {
            if remove_spec(v, from) is Ok {
                crate::patch::lemma_remove_wf(v, from);
                match remove_spec(v, from) {
                    Ok((d, x)) => lemma_add_wf(d, path, x),
                    Err(_) => {},
                }
            }
        },
        PatchModel::Copy { from, path } => {
            if resolve(v, from) is Some {
                lemma_resolve_wf(v, from);
                lemma_add_wf(v, path, resolve(v, from)->0);
            }
        },
        PatchModel::Test { .. } => {},
    }
}

/// Applying a list of operations keeps a well-formed document well formed.
pub proof fn law_apply_all_wf(v: JsonModel, ops: Seq<PatchModel>)
    requires
        model_wf(v),
        forall|i: int| 0 <= i < ops.len() ==> op_wf(#[trigger] ops[i]),
    ensures
        model_wf(apply_all(v, ops).0),
    decreases ops.len(),
{
    if ops.len() > 0 {
        law_apply_wf(v, ops[0]);
        let rest = ops.drop_first();
        assert forall|i: int| 0 <= i < rest.len() implies op_wf(#[trigger] rest[i]) by {
            assert(rest[i] == ops[i + 1]);
        }
        law_apply_all_wf(apply_spec(v, ops[0]).0, rest);
    }
}

proof fn lemma_merge_members_wf(te: Seq<(Seq<char>, JsonModel)>, pe: Seq<(Seq<char>, JsonModel)>)
    requires
        keys_sorted(te),
        forall|i: int| 0 <= i < te.len() ==> model_wf(#[trigger] te[i].1),
        forall|i: int| 0 <= i < pe.len() ==> model_wf(#[trigger] pe[i].1),
    ensures
        keys_sorted(merge_members(te, pe)),
        forall|i: int| 0 <= i < merge_members(te, pe).len() ==> model_wf(#[trigger] merge_members(te, pe)[i].1),
    decreases pe, 1int,
{
    if pe.len() > 0 {
        let init = pe.subrange(0, pe.len() - 1);
        assert forall|i: int| 0 <= i < init.len() implies model_wf(#[trigger] init[i].1) by {
            assert(init[i] == pe[i]);
        }
        lemma_merge_members_wf(te, init);
        let acc = merge_members(te, init);
        let k = pe[pe.len() - 1].0;
        let pv = pe[pe.len() - 1].1;
        assert(model_wf(pv));
        match pv {
            JsonModel::Null => {
                lemma_without_member(acc, k, k);
                lemma_without_member_values(acc, k);
            },
            _ => {
                lemma_key_index_found(acc, k);
                let c = member_or_null(acc, k);
                if member(acc, k) is Some {
                    assert(model_wf(acc[key_index(acc, k)].1));
                }
                assert(model_wf(c));
                assert(decreases_to!(pe => pe[pe.len() - 1]));
                assert(decreases_to!(pe[pe.len() - 1] => pe[pe.len() - 1].1));
                lemma_merge_wf(c, pv);
                lemma_with_member(acc, k, merge_spec(c, pv), k);
                lemma_with_member_values(acc, k, merge_spec(c, pv));
            },
        }
    }
}

proof fn lemma_merge_wf(target: JsonModel, patch: JsonModel)
    requires
        model_wf(target),
        model_wf(patch),
    ensures
        model_wf(merge_spec(target, patch)),
    decreases patch, 0int,
{
    match patch {
        JsonModel::Object(pe) => {
            lemma_merge_members_wf(object_members(target), pe);
        },
        _ => {},
    }
}

/// Merging a well-formed patch into a well-formed document gives a
/// well-formed document.
pub proof fn law_merge_wf(target: JsonModel, patch: JsonModel)
    requires
        model_wf(target),
        model_wf(patch),
    ensures
        model_wf(merge_spec(target, patch)),
{
    lemma_merge_wf(target, patch);
}

} // verus!
