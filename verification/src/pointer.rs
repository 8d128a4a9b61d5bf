use vstd::prelude::*;
use crate::lexer::is_digit;
use crate::text::{chars_of, string_of};
use crate::value::{
    JsonModel, JsonObject, JsonValue, group_view, key_index, lemma_view_entries, lemma_view_values,
    lemma_view_values_update, member, view_entries, view_values,
};

verus! {

// ----- reference tokens -----

/// `s` with each `a b` pair, found left to right without overlap, replaced by `r`.
pub open spec fn replace_pair(s: Seq<char>, a: char, b: char, r: char) -> Seq<char>
    decreases s.len(),
{
    if s.len() == 0 {
        Seq::empty()
    } else if s.len() >= 2 && s[0] == a && s[1] == b {
        seq![r] + replace_pair(s.subrange(2, s.len() as int), a, b, r)
    } else {
        seq![s[0]] + replace_pair(s.drop_first(), a, b, r)
    }
}

/// A reference token with its escapes undone: every `~1` becomes `/`, then
/// every `~0` becomes `~`.
pub open spec fn decode_segment(s: Seq<char>) -> Seq<char> {
    replace_pair(replace_pair(s, '~', '1', '/'), '~', '0', '~')
}

/// The index of the last `/` in `s`, or -1.
pub open spec fn last_slash(s: Seq<char>) -> int
    decreases s.len(),
{
    if s.len() == 0 {
        -1
    } else if s.last() == '/' {
        s.len() - 1
    } else {
        last_slash(s.drop_last())
    }
}

/// The value of a string of decimal digits.
pub open spec fn decimal_value(d: Seq<char>) -> nat
    decreases d.len(),
{
    if d.len() == 0 {
        0
    } else {
        10 * decimal_value(d.drop_last()) + ((d.last() as int - '0' as int) as nat)
    }
}

/// Every character is a decimal digit.
pub open spec fn all_decimal(d: Seq<char>) -> bool {
    forall|i: int| 0 <= i < d.len() ==> is_digit(#[trigger] d[i])
}

/// The digits of an index, after an optional leading `+`.
pub open spec fn index_digits(s: Seq<char>) -> Seq<char> {
    if s.len() > 0 && s[0] == '+' {
        s.drop_first()
    } else {
        s
    }
}

/// The array index that a reference token denotes, read as a `usize` is
/// read from text: an optional `+`, then at least one decimal digit, with a
/// value that fits in a `usize`.
pub open spec fn parse_index(s: Seq<char>) -> Option<nat> {
    let d = index_digits(s);
    if d.len() > 0 && all_decimal(d) && decimal_value(d) <= usize::MAX {
        Some(decimal_value(d))
    } else {
        None
    }
}

// ----- walking a pointer -----

/// The index of the first `/` at or after `i`, or the length.
pub open spec fn next_slash(p: Seq<char>, i: int) -> int
    decreases p.len() - i,
{
    if i >= p.len() {
        p.len() as int
    } else if p[i] == '/' {
        i
    } else {
        next_slash(p, i + 1)
    }
}

pub proof fn lemma_next_slash(p: Seq<char>, i: int)
    requires
        0 <= i <= p.len(),
    ensures
        i <= next_slash(p, i) <= p.len(),
        next_slash(p, i) < p.len() ==> p[next_slash(p, i)] == '/',
        forall|t: int| i <= t < next_slash(p, i) ==> p[t] != '/',
    decreases p.len() - i,
{
    if i < p.len() && p[i] != '/' {
        lemma_next_slash(p, i + 1);
    }
}

/// The child of `v` that one reference token names.
pub open spec fn step(v: JsonModel, seg: Seq<char>) -> Option<JsonModel> {
    match v {
        JsonModel::Object(es) => member(es, decode_segment(seg)),
        JsonModel::Array(items) => match parse_index(seg) {
            Some(n) => if n < items.len() {
                Some(items[n as int])
            } else {
                None
            },
            None => None,
        },
        _ => None,
    }
}

/// Follows the reference tokens of `p` that start at index `i`.
pub open spec fn walk(v: JsonModel, p: Seq<char>, i: int) -> Option<JsonModel>
    decreases p.len() - i,
{
    if i < 0 || i > p.len() {
        None
    } else {
        let j = next_slash(p, i);
        proof {
            lemma_next_slash(p, i);
        }
        match step(v, p.subrange(i, j)) {
            None => None,
            Some(c) => if j >= p.len() {
                Some(c)
            } else {
                walk(c, p, j + 1)
            },
        }
    }
}

/// The value that the JSON pointer `p` names in `v`.
pub open spec fn resolve(v: JsonModel, p: Seq<char>) -> Option<JsonModel> {
    if p.len() == 0 {
        Some(v)
    } else if p[0] != '/' {
        None
    } else {
        walk(v, p, 1)
    }
}

/// `v` with the child that one reference token names set to `new`
/// (unchanged where it names nothing).
pub open spec fn put_step(v: JsonModel, seg: Seq<char>, new: JsonModel) -> JsonModel {
    match v {
        JsonModel::Object(es) => {
            let k = key_index(es, decode_segment(seg));
            if k < 0 {
                v
            } else {
                JsonModel::Object(es.update(k, (decode_segment(seg), new)))
            }
        },
        JsonModel::Array(items) => match parse_index(seg) {
            Some(n) => if n < items.len() {
                JsonModel::Array(items.update(n as int, new))
            } else {
                v
            },
            None => v,
        },
        _ => v,
    }
}

/// Setting a child to the value it has changes nothing.
pub proof fn lemma_put_step_same(v: JsonModel, seg: Seq<char>)
    requires
        step(v, seg) is Some,
    ensures
        put_step(v, seg, step(v, seg)->0) == v,
{
    match v {
        JsonModel::Object(es) => {
            crate::value::lemma_key_index_found(es, decode_segment(seg));
            let k = key_index(es, decode_segment(seg));
            assert(es.update(k, (decode_segment(seg), es[k].1)) =~= es);
        },
        JsonModel::Array(items) => {
            let n = parse_index(seg)->0;
            assert(items.update(n as int, items[n as int]) =~= items);
        },
        _ => {},
    }
}

/// `v` with the value that the reference tokens of `p` from index `i` name
/// set to `new` (unchanged where they name nothing).
pub open spec fn put_walk(v: JsonModel, p: Seq<char>, i: int, new: JsonModel) -> JsonModel
    decreases p.len() - i,
{
    if i < 0 || i > p.len() {
        v
    } else {
        let j = next_slash(p, i);
        proof {
            lemma_next_slash(p, i);
        }
        let seg = p.subrange(i, j);
        match step(v, seg) {
            None => v,
            Some(c) => put_step(
                v,
                seg,
                if j >= p.len() {
                    new
                } else {
                    put_walk(c, p, j + 1, new)
                },
            ),
        }
    }
}

/// `v` with the value that the JSON pointer `p` names set to `new`.
pub open spec fn put(v: JsonModel, p: Seq<char>, new: JsonModel) -> JsonModel {
    if p.len() == 0 {
        new
    } else if p[0] != '/' {
        v
    } else {
        put_walk(v, p, 1, new)
    }
}

/// Writing back the value a pointer names changes nothing.
pub proof fn lemma_put_walk_same(v: JsonModel, p: Seq<char>, i: int)
    requires
        walk(v, p, i) is Some,
    ensures
        put_walk(v, p, i, walk(v, p, i)->0) == v,
    decreases p.len() - i,
{
    let j = next_slash(p, i);
    lemma_next_slash(p, i);
    let seg = p.subrange(i, j);
    let c = step(v, seg)->0;
    lemma_put_step_same(v, seg);
    if j < p.len() {
        lemma_put_walk_same(c, p, j + 1);
    }
}

/// Writing back the value a pointer names changes nothing.
pub proof fn lemma_put_same(v: JsonModel, p: Seq<char>)
    requires
        resolve(v, p) is Some,
    ensures
        put(v, p, resolve(v, p)->0) == v,
{
    if p.len() > 0 {
        lemma_put_walk_same(v, p, 1);
    }
}

/// Reading a child just set gives the value set.
pub proof fn lemma_step_put_step(v: JsonModel, seg: Seq<char>, w: JsonModel)
    requires
        step(v, seg) is Some,
    ensures
        step(put_step(v, seg, w), seg) == Some(w),
{
    match v {
        JsonModel::Object(es) => {
            let key = decode_segment(seg);
            crate::value::lemma_key_index_found(es, key);
            let k = key_index(es, key);
            let es2 = es.update(k, (key, w));
            assert forall|j: int| 0 <= j < k implies (#[trigger] es2[j]).0 != key by {
                assert(es2[j] == es[j]);
            }
            crate::value::lemma_key_index(es2, key, k);
        },
        _ => {},
    }
}

/// Reading through a pointer just written through gives the value written.
pub proof fn lemma_walk_put_walk(v: JsonModel, p: Seq<char>, i: int, w: JsonModel)
    requires
        walk(v, p, i) is Some,
    ensures
        walk(put_walk(v, p, i, w), p, i) == Some(w),
    decreases p.len() - i,
{
    let j = next_slash(p, i);
    lemma_next_slash(p, i);
    let seg = p.subrange(i, j);
    let c = step(v, seg)->0;
    if j >= p.len() {
        lemma_step_put_step(v, seg, w);
    } else {
        lemma_walk_put_walk(c, p, j + 1, w);
        lemma_step_put_step(v, seg, put_walk(c, p, j + 1, w));
    }
}

/// The empty pointer names the whole document.
pub proof fn law_pointer_root(v: JsonModel)
    ensures
        resolve(v, Seq::empty()) == Some(v),
{
}

/// A value written where a pointer names something (by `replace`, or
/// through `pointer_mut`) is what the same pointer then reads back.
pub proof fn law_read_after_write(v: JsonModel, p: Seq<char>, w: JsonModel)
    requires
        resolve(v, p) is Some,
    ensures
        resolve(put(v, p, w), p) == Some(w),
{
    if p.len() > 0 {
        lemma_walk_put_walk(v, p, 1, w);
    }
}

// ----- pointers built from keys -----

/// The pointer `base` extended by the reference token `seg`, as written.
pub open spec fn join_spec(base: Seq<char>, seg: Seq<char>) -> Seq<char> {
    base + seq!['/'] + seg
}

/// A reference token that holds no `/`.
pub open spec fn no_slash(k: Seq<char>) -> bool {
    forall|i: int| 0 <= i < k.len() ==> k[i] != '/'
}

/// The escape of one key character in a reference token: `~` as `~0`, `/`
/// as `~1`, any other character as itself.
pub open spec fn escape_char(c: char) -> Seq<char> {
    if c == '~' {
        seq!['~', '0']
    } else if c == '/' {
        seq!['~', '1']
    } else {
        seq![c]
    }
}

/// The reference token that names the key `k`: each character escaped.
pub open spec fn escape_key(k: Seq<char>) -> Seq<char>
    decreases k.len(),
{
    if k.len() == 0 {
        Seq::empty()
    } else {
        escape_char(k[0]) + escape_key(k.drop_first())
    }
}

/// Escaping a key piece by piece.
pub proof fn lemma_escape_key_push(k: Seq<char>, c: char)
    ensures
        escape_key(k.push(c)) == escape_key(k) + escape_char(c),
    decreases k.len(),
{
    if k.len() == 0 {
        assert(k.push(c).drop_first() =~= Seq::<char>::empty());
        assert(escape_key(Seq::<char>::empty()) =~= Seq::<char>::empty());
        assert(escape_key(k.push(c)) =~= escape_key(k) + escape_char(c));
    } else {
        assert(k.push(c).drop_first() =~= k.drop_first().push(c));
        lemma_escape_key_push(k.drop_first(), c);
        assert(escape_key(k.push(c)) =~= escape_key(k) + escape_char(c));
    }
}

/// An escaped key holds no `/`.
pub proof fn lemma_escape_no_slash(k: Seq<char>)
    ensures
        no_slash(escape_key(k)),
    decreases k.len(),
{
    if k.len() > 0 {
        lemma_escape_no_slash(k.drop_first());
        let e = escape_char(k[0]);
        let t = escape_key(k.drop_first());
        assert forall|i: int| 0 <= i < escape_key(k).len() implies escape_key(k)[i] != '/' by {
            if i < e.len() {
                assert(escape_key(k)[i] == e[i]);
            } else {
                assert(escape_key(k)[i] == t[i - e.len()]);
            }
        }
    }
}

/// A key with each `/` kept and each `~` written `~0`: what is left of its
/// escape once the `~1` pairs are undone.
pub open spec fn escape_tilde(k: Seq<char>) -> Seq<char>
    decreases k.len(),
{
    if k.len() == 0 {
        Seq::empty()
    } else {
        (if k[0] == '~' {
            seq!['~', '0']
        } else {
            seq![k[0]]
        }) + escape_tilde(k.drop_first())
    }
}

proof fn lemma_undo_slash(k: Seq<char>)
    ensures
        replace_pair(escape_key(k), '~', '1', '/') == escape_tilde(k),
    decreases k.len(),
{
    if k.len() > 0 {
        let c = k[0];
        let t = escape_key(k.drop_first());
        let s = escape_key(k);
        lemma_undo_slash(k.drop_first());
        if c == '/' {
            assert(s.subrange(2, s.len() as int) =~= t);
        } else if c == '~' {
            let s1 = s.drop_first();
            assert(s1 =~= seq!['0'] + t);
            assert(s1.drop_first() =~= t);
            assert(s1[0] == '0');
            assert(replace_pair(s1, '~', '1', '/') == seq!['0'] + replace_pair(t, '~', '1', '/'));
            assert(s[0] == '~' && s[1] == '0');
            assert(replace_pair(s, '~', '1', '/') == seq!['~'] + replace_pair(s1, '~', '1', '/'));
            assert(replace_pair(s, '~', '1', '/') =~= seq!['~', '0'] + replace_pair(t, '~', '1', '/'));
        } else {
            assert(s.drop_first() =~= t);
        }
        assert(replace_pair(s, '~', '1', '/') =~= escape_tilde(k));
    }
}

proof fn lemma_undo_tilde(k: Seq<char>)
    ensures
        replace_pair(escape_tilde(k), '~', '0', '~') == k,
    decreases k.len(),
{
    if k.len() > 0 {
        let c = k[0];
        let t = escape_tilde(k.drop_first());
        let s = escape_tilde(k);
        lemma_undo_tilde(k.drop_first());
        if c == '~' {
            assert(s.subrange(2, s.len() as int) =~= t);
        } else {
            assert(s.drop_first() =~= t);
        }
        assert(replace_pair(s, '~', '0', '~') =~= k);
    }
}

/// Decoding the escape of a key gives the key back.
pub proof fn lemma_decode_escape(k: Seq<char>)
    ensures
        decode_segment(escape_key(k)) == k,
{
    lemma_undo_slash(k);
    lemma_undo_tilde(k);
}

/// The last `/` of a pointer extended by a token without `/` is the one added.
pub proof fn lemma_last_slash_join(p: Seq<char>, k: Seq<char>)
    requires
        no_slash(k),
    ensures
        last_slash(join_spec(p, k)) == p.len(),
        join_spec(p, k).subrange(0, p.len() as int) == p,
        join_spec(p, k).subrange(p.len() as int + 1, join_spec(p, k).len() as int) == k,
    decreases k.len(),
{
    let q = join_spec(p, k);
    if k.len() > 0 {
        let k1 = k.drop_last();
        lemma_last_slash_join(p, k1);
        assert(q.drop_last() =~= join_spec(p, k1));
    }
    assert(q.subrange(0, p.len() as int) =~= p);
    assert(q.subrange(p.len() as int + 1, q.len() as int) =~= k);
}

/// Where the next `/` of an extended pointer is, up to the old end.
proof fn lemma_next_slash_join(p: Seq<char>, k: Seq<char>, i: int)
    requires
        0 <= i <= p.len(),
    ensures
        next_slash(join_spec(p, k), i) == next_slash(p, i),
    decreases p.len() - i,
{
    let q = join_spec(p, k);
    if i < p.len() {
        assert(q[i] == p[i]);
        lemma_next_slash_join(p, k, i + 1);
    } else {
        assert(q[i] == '/');
    }
}

/// After a `/`, a token without `/` runs to the end.
proof fn lemma_next_slash_plain(q: Seq<char>, i: int)
    requires
        0 <= i <= q.len(),
        forall|t: int| i <= t < q.len() ==> q[t] != '/',
    ensures
        next_slash(q, i) == q.len(),
    decreases q.len() - i,
{
    if i < q.len() {
        lemma_next_slash_plain(q, i + 1);
    }
}

/// The part of an extended pointer after the added `/` is the key, and
/// holds no `/`.
proof fn lemma_join_tail(p: Seq<char>, k: Seq<char>)
    requires
        no_slash(k),
    ensures
        next_slash(join_spec(p, k), p.len() as int + 1) == join_spec(p, k).len(),
        join_spec(p, k).subrange(p.len() as int + 1, join_spec(p, k).len() as int) == k,
{
    let q = join_spec(p, k);
    assert forall|t: int| p.len() + 1 <= t < q.len() implies q[t] != '/' by {
        assert(q[t] == k[t - p.len() - 1]);
    }
    lemma_next_slash_plain(q, p.len() as int + 1);
    assert(q.subrange(p.len() as int + 1, q.len() as int) =~= k);
}

/// Following an extended pointer: the old pointer, then one more step.
proof fn lemma_walk_join(v: JsonModel, p: Seq<char>, k: Seq<char>, i: int)
    requires
        1 <= i <= p.len(),
        no_slash(k),
    ensures
        walk(v, join_spec(p, k), i) == match walk(v, p, i) {
            Some(x) => step(x, k),
            None => None,
        },
    decreases p.len() - i,
{
    let q = join_spec(p, k);
    let j = next_slash(p, i);
    lemma_next_slash(p, i);
    lemma_next_slash_join(p, k, i);
    assert(q.subrange(i, j) =~= p.subrange(i, j));
    let seg = p.subrange(i, j);
    match step(v, seg) {
        None => {},
        Some(c) => {
            if j < p.len() {
                lemma_walk_join(c, p, k, j + 1);
            } else {
                lemma_join_tail(p, k);
                assert(walk(c, q, j + 1) == step(c, k));
            }
        },
    }
}

/// Following a pointer extended by a token without `/`.
pub proof fn lemma_resolve_join(v: JsonModel, p: Seq<char>, k: Seq<char>)
    requires
        p.len() == 0 || p[0] == '/',
        no_slash(k),
    ensures
        resolve(v, join_spec(p, k)) == match resolve(v, p) {
            Some(x) => step(x, k),
            None => None,
        },
{
    let q = join_spec(p, k);
    if p.len() == 0 {
        lemma_join_tail(p, k);
    } else {
        assert(q[0] == '/');
        lemma_walk_join(v, p, k, 1);
    }
}

/// Writing through an extended pointer.
#[verifier::rlimit(40)]
#[verifier::spinoff_prover]
proof fn lemma_put_walk_join(v: JsonModel, p: Seq<char>, k: Seq<char>, i: int, w: JsonModel)
    requires
        1 <= i <= p.len(),
        no_slash(k),
        walk(v, p, i) is Some,
        step(walk(v, p, i)->0, k) is Some,
    ensures
        put_walk(v, join_spec(p, k), i, w) == put_walk(v, p, i, put_step(walk(v, p, i)->0, k, w)),
    decreases p.len() - i,
{
    let q = join_spec(p, k);
    let j = next_slash(p, i);
    lemma_next_slash(p, i);
    lemma_next_slash_join(p, k, i);
    assert(q.subrange(i, j) =~= p.subrange(i, j));
    let seg = p.subrange(i, j);
    let c = step(v, seg)->0;
    if j < p.len() {
        lemma_put_walk_join(c, p, k, j + 1, w);
        assert(walk(c, p, j + 1) == walk(v, p, i));
        assert(put_walk(v, q, i, w) == put_step(v, seg, put_walk(c, q, j + 1, w)));
    } else {
        lemma_join_tail(p, k);
        assert(walk(v, p, i) == Some(c));
        assert(put_walk(c, q, j + 1, w) == put_step(c, k, w));
        assert(put_walk(v, q, i, w) == put_step(v, seg, put_walk(c, q, j + 1, w)));
    }
}

/// Writing through a pointer extended by a token without `/` is writing the changed
/// child at the old pointer.
pub proof fn lemma_put_join(v: JsonModel, p: Seq<char>, k: Seq<char>, w: JsonModel)
    requires
        p.len() == 0 || p[0] == '/',
        no_slash(k),
        resolve(v, p) is Some,
        step(resolve(v, p)->0, k) is Some,
    ensures
        put(v, join_spec(p, k), w) == put(v, p, put_step(resolve(v, p)->0, k, w)),
{
    let q = join_spec(p, k);
    if p.len() == 0 {
        lemma_join_tail(p, k);
        assert(put_walk(v, q, 1, w) == put_step(v, k, w));
    } else {
        assert(q[0] == '/');
        lemma_put_walk_join(v, p, k, 1, w);
    }
}

/// Setting a child twice keeps the second value.
proof fn lemma_put_step_twice(v: JsonModel, seg: Seq<char>, a: JsonModel, b: JsonModel)
    requires
        step(v, seg) is Some,
    ensures
        put_step(put_step(v, seg, a), seg, b) == put_step(v, seg, b),
{
    lemma_step_put_step(v, seg, a);
    match v {
        JsonModel::Object(es) => {
            let key = decode_segment(seg);
            crate::value::lemma_key_index_found(es, key);
            let k = key_index(es, key);
            let es2 = es.update(k, (key, a));
            assert forall|j: int| 0 <= j < k implies (#[trigger] es2[j]).0 != key by {
                assert(es2[j] == es[j]);
            }
            crate::value::lemma_key_index(es2, key, k);
            assert(es2.update(k, (key, b)) =~= es.update(k, (key, b)));
        },
        JsonModel::Array(items) => {
            let n = parse_index(seg)->0;
            assert(items.update(n as int, a).update(n as int, b) =~= items.update(n as int, b));
        },
        _ => {},
    }
}

proof fn lemma_put_walk_twice(v: JsonModel, p: Seq<char>, i: int, a: JsonModel, b: JsonModel)
    requires
        walk(v, p, i) is Some,
    ensures
        put_walk(put_walk(v, p, i, a), p, i, b) == put_walk(v, p, i, b),
    decreases p.len() - i,
{
    let j = next_slash(p, i);
    lemma_next_slash(p, i);
    let seg = p.subrange(i, j);
    let c = step(v, seg)->0;
    let aa = if j >= p.len() {
        a
    } else {
        put_walk(c, p, j + 1, a)
    };
    lemma_step_put_step(v, seg, aa);
    if j < p.len() {
        lemma_put_walk_twice(c, p, j + 1, a, b);
    }
    let bb = if j >= p.len() {
        b
    } else {
        put_walk(c, p, j + 1, b)
    };
    lemma_put_step_twice(v, seg, aa, bb);
}

/// Writing twice through one pointer keeps the second value.
pub proof fn lemma_put_put(v: JsonModel, p: Seq<char>, a: JsonModel, b: JsonModel)
    requires
        resolve(v, p) is Some,
    ensures
        put(put(v, p, a), p, b) == put(v, p, b),
{
    if p.len() > 0 {
        lemma_put_walk_twice(v, p, 1, a, b);
    }
}

// ----- executable -----

/// `s` with each `a b` pair replaced by `r`.
fn replace_pair_in(s: &Vec<char>, a: char, b: char, r: char) -> (out: Vec<char>)
    ensures
        out@ == replace_pair(s@, a, b, r),
{
    let mut out: Vec<char> = Vec::new();
    let mut i: usize = 0;
    let n = s.len();
    assert(s@.subrange(0, n as int) =~= s@);
    while i < n
        invariant
            n == s@.len(),
            i <= n,
            out@ + replace_pair(s@.subrange(i as int, n as int), a, b, r) == replace_pair(s@, a, b, r),
        decreases n - i,
    {
        let ghost rest = s@.subrange(i as int, n as int);
        let ghost before = out@;
        if i + 1 < n && s[i] == a && s[i + 1] == b {
            assert(rest.subrange(2, rest.len() as int) =~= s@.subrange(i + 2, n as int));
            out.push(r);
            assert(out@ + replace_pair(s@.subrange(i + 2, n as int), a, b, r) =~= before + (seq![r]
                + replace_pair(rest.subrange(2, rest.len() as int), a, b, r)));
            i = i + 2;
        } else {
            assert(rest.drop_first() =~= s@.subrange(i + 1, n as int));
            let c = s[i];
            out.push(c);
            assert(out@ + replace_pair(s@.subrange(i + 1, n as int), a, b, r) =~= before + (seq![c]
                + replace_pair(rest.drop_first(), a, b, r)));
            i = i + 1;
        }
    }
    assert(s@.subrange(n as int, n as int) =~= Seq::<char>::empty());
    assert(out@ + Seq::<char>::empty() =~= out@);
    out
}

/// Undoes the escapes of a JSON pointer reference token: `~1` stands for
/// `/` and `~0` for `~`.
pub fn decode_pointer_segment(segment: &str) -> (r: String)
    ensures
        r@ == decode_segment(segment@),
{
    let cs = chars_of(segment);
    let once = replace_pair_in(&cs, '~', '1', '/');
    let twice = replace_pair_in(&once, '~', '0', '~');
    string_of(&twice)
}

/// The characters `from..to` of `cs`.
fn slice_chars(cs: &Vec<char>, from: usize, to: usize) -> (r: Vec<char>)
    requires
        from <= to <= cs@.len(),
    ensures
        r@ == cs@.subrange(from as int, to as int),
{
    let mut r: Vec<char> = Vec::new();
    let mut i: usize = from;
    while i < to
        invariant
            from <= i <= to <= cs@.len(),
            r@ == cs@.subrange(from as int, i as int),
        decreases to - i,
    {
        r.push(cs[i]);
        i = i + 1;
        assert(r@ =~= cs@.subrange(from as int, i as int));
    }
    r
}

/// Splits a pointer at its last `/` into the parent pointer and the last
/// reference token (still escaped); `None` when it has no `/`.
pub fn split_parent(pointer: &str) -> (r: Option<(String, String)>)
    ensures
        match r {
            Some((parent, child)) => {
                let k = last_slash(pointer@);
                &&& 0 <= k
                &&& parent@ == pointer@.subrange(0, k)
                &&& child@ == pointer@.subrange(k + 1, pointer@.len() as int)
            },
            None => last_slash(pointer@) < 0,
        },
{
    let cs = chars_of(pointer);
    let mut i: usize = cs.len();
    assert(cs@.subrange(0, i as int) =~= cs@);
    while i > 0
        invariant
            i <= cs@.len(),
            cs@ == pointer@,
            last_slash(cs@) == last_slash(cs@.subrange(0, i as int)),
        decreases i,
    {
        if cs[i - 1] == '/' {
            assert(cs@.subrange(0, i as int).last() == '/');
            let parent = slice_chars(&cs, 0, i - 1);
            let child = slice_chars(&cs, i, cs.len());
            let ps = string_of(&parent);
            let ch = string_of(&child);
            assert(last_slash(pointer@) == i - 1);
            assert(ps@ == pointer@.subrange(0, i - 1));
            return Some((ps, ch));
        }
        assert(cs@.subrange(0, i as int).drop_last() =~= cs@.subrange(0, i - 1));
        i = i - 1;
    }
    None
}

proof fn lemma_decimal_value_prefix(d: Seq<char>, j: int)
    requires
        0 <= j <= d.len(),
        forall|i: int| 0 <= i < d.len() ==> is_digit(#[trigger] d[i]),
    ensures
        decimal_value(d.subrange(0, j)) <= decimal_value(d),
    decreases d.len() - j,
{
    if j < d.len() {
        lemma_decimal_value_prefix(d, j + 1);
        assert(d.subrange(0, j + 1).drop_last() =~= d.subrange(0, j));
    } else {
        assert(d.subrange(0, j) =~= d);
    }
}

/// The array index that the reference token `seg` denotes, if any.
pub fn parse_index_in(seg: &Vec<char>) -> (r: Option<usize>)
    ensures
        match parse_index(seg@) {
            Some(n) => r == Some(n as usize),
            None => r is None,
        },
{
    let ghost d = index_digits(seg@);
    let start: usize = if seg.len() > 0 && seg[0] == '+' {
        1
    } else {
        0
    };
    assert(d =~= seg@.subrange(start as int, seg@.len() as int));
    if start >= seg.len() {
        assert(d.len() == 0);
        return None;
    }
    let mut value: usize = 0;
    let mut i: usize = start;
    while i < seg.len()
        invariant
            start <= i <= seg@.len(),
            d == index_digits(seg@),
            d == seg@.subrange(start as int, seg@.len() as int),
            forall|t: int| 0 <= t < i - start ==> is_digit(#[trigger] d[t]),
            value == decimal_value(d.subrange(0, i - start)),
        decreases seg@.len() - i,
    {
        let c = seg[i];
        assert(d[i - start] == c);
        if !('0' <= c && c <= '9') {
            assert(!is_digit(d[i - start]));
            assert(!all_decimal(d));
            return None;
        }
        let digit = ((c as u32) - ('0' as u32)) as usize;
        assert(d.subrange(0, i + 1 - start).drop_last() =~= d.subrange(0, i - start));
        assert(d.subrange(0, i + 1 - start).last() == c);
        assert(decimal_value(d.subrange(0, i + 1 - start)) == 10 * value + digit);
        let next = match value.checked_mul(10) {
            Some(t) => t.checked_add(digit),
            None => None,
        };
        match next {
            Some(v) => {
                value = v;
            },
            None => {
                assert(10 * value + digit > usize::MAX);
                proof {
                    if all_decimal(d) {
                        lemma_decimal_value_prefix(d, i + 1 - start);
                    }
                }
                return None;
            },
        }
        i = i + 1;
    }
    assert(d.subrange(0, i - start) =~= d);
    Some(value)
}

/// The index of the first `/` at or after `from`, or the length.
fn find_slash(cs: &Vec<char>, from: usize) -> (r: usize)
    requires
        from <= cs@.len(),
    ensures
        r == next_slash(cs@, from as int),
{
    let mut i = from;
    while i < cs.len() && cs[i] != '/'
        invariant
            from <= i <= cs@.len(),
            next_slash(cs@, i as int) == next_slash(cs@, from as int),
        decreases cs@.len() - i,
    {
        i = i + 1;
    }
    i
}

/// Element `n` of an array, to change in place.
fn element_mut(items: &mut Vec<JsonValue>, n: usize) -> (c: &mut JsonValue)
    requires
        n < old(items)@.len(),
    ensures
        (*c)@ == view_values(old(items)@)[n as int],
        view_values(final(items)@) == view_values(old(items)@).update(n as int, (*final(c))@),
{
    broadcast use group_view;
    proof {
        lemma_view_values_update(items@, n as int);
        lemma_view_values(items@);
    }
    &mut items[n]
}

/// The child of `v` that one reference token names, to change in place.
fn child_mut<'a>(v: &'a mut JsonValue, seg: &Vec<char>) -> (r: Option<&'a mut JsonValue>)
    ensures
        match r {
            Some(x) => step(old(v)@, seg@) == Some((*x)@) && final(v)@ == put_step(
                old(v)@,
                seg@,
                (*final(x))@,
            ),
            None => step(old(v)@, seg@) is None && final(v)@ == old(v)@,
        },
{
    broadcast use group_view;
    match v {
        JsonValue::Object(o) => {
            let raw = string_of(seg);
            let key = decode_pointer_segment(raw.as_str());
            proof {
                crate::value::lemma_key_index_found(o@, key@);
            }
            assert(key@ == decode_segment(seg@));
            assert(old(v)@ == JsonModel::Object(o@));
            assert(step(old(v)@, seg@) == member(o@, key@));
            o.get_mut(key.as_str())
        },
        JsonValue::Array(items) => match parse_index_in(seg) {
            Some(n) => {
                if n < items.len() {
                    Some(element_mut(items, n))
                } else {
                    assert(old(v)@ == JsonModel::Array(view_values(items@)));
                    None
                }
            },
            None => {
                assert(old(v)@ == JsonModel::Array(view_values(items@)));
                None
            },
        },
        _ => None,
    }
}

/// Follows the reference tokens of `p` from index `i`, giving the value
/// reached to change in place.
fn walk_mut<'a>(v: &'a mut JsonValue, p: &Vec<char>, i: usize) -> (r: Option<&'a mut JsonValue>)
    requires
        1 <= i <= p@.len(),
    ensures
        match r {
            Some(x) => walk(old(v)@, p@, i as int) == Some((*x)@) && final(v)@ == put_walk(
                old(v)@,
                p@,
                i as int,
                (*final(x))@,
            ),
            None => walk(old(v)@, p@, i as int) is None && final(v)@ == old(v)@,
        },
    decreases p@.len() - i,
{
    let j = find_slash(p, i);
    proof {
        lemma_next_slash(p@, i as int);
    }
    let seg = slice_chars(p, i, j);
    proof {
        if step(v@, seg@) is Some {
            lemma_put_step_same(v@, seg@);
        }
    }
    match child_mut(v, &seg) {
        None => None,
        Some(c) => {
            if j == p.len() {
                Some(c)
            } else {
                walk_mut(c, p, j + 1)
            }
        },
    }
}

impl JsonValue {
    /// The child of this value that one reference token names.
    fn step_ref(&self, seg: &Vec<char>) -> (r: Option<&JsonValue>)
        ensures
            match step(self@, seg@) {
                Some(c) => r matches Some(x) && x@ == c,
                None => r is None,
            },
    {
        broadcast use group_view;
        match self {
            JsonValue::Object(o) => {
                let raw = string_of(seg);
                let key = decode_pointer_segment(raw.as_str());
                assert(key@ == decode_segment(seg@));
                assert(self@ == JsonModel::Object(o@));
                assert(step(self@, seg@) == member(o@, key@));
                let r = o.get(key.as_str());
                r
            },
            JsonValue::Array(items) => match parse_index_in(seg) {
                Some(n) => {
                    if n < items.len() {
                        assert(view_values(items@)[n as int] == items@[n as int]@);
                        Some(&items[n])
                    } else {
                        None
                    }
                },
                None => None,
            },
            _ => None,
        }
    }

    /// The value that the JSON pointer `pointer` names: the whole document
    /// for the empty pointer, else the value reached by following each
    /// `/`-separated reference token (a key of an object, after `~1` → `/`
    /// and `~0` → `~`, or an index of an array).
    pub fn pointer(&self, pointer: &str) -> (r: Option<&JsonValue>)
        ensures
            match resolve(self@, pointer@) {
                Some(c) => r matches Some(x) && x@ == c,
                None => r is None,
            },
    {
        let p = chars_of(pointer);
        if p.len() == 0 {
            return Some(self);
        }
        if p[0] != '/' {
            return None;
        }
        let mut current = self;
        let mut i: usize = 1;
        loop
            invariant
                1 <= i <= p@.len(),
                p@ == pointer@,
                resolve(self@, p@) == walk(current@, p@, i as int),
            decreases p@.len() - i,
        {
            let j = find_slash(&p, i);
            proof {
                lemma_next_slash(p@, i as int);
            }
            let seg = slice_chars(&p, i, j);
            match current.step_ref(&seg) {
                None => {
                    return None;
                },
                Some(c) => {
                    if j == p.len() {
                        return Some(c);
                    }
                    current = c;
                },
            }
            i = j + 1;
        }
    }

    /// The value that the JSON pointer `pointer` names, to change in place;
    /// what is written through it lands at that place in this document.
    pub fn pointer_mut(&mut self, pointer: &str) -> (r: Option<&mut JsonValue>)
        ensures
            match r {
                Some(x) => resolve(old(self)@, pointer@) == Some((*x)@) && final(self)@ == put(
                    old(self)@,
                    pointer@,
                    (*final(x))@,
                ),
                None => resolve(old(self)@, pointer@) is None && final(self)@ == old(self)@,
            },
    {
        let p = chars_of(pointer);
        if p.len() == 0 {
            return Some(self);
        }
        if p[0] != '/' {
            return None;
        }
        walk_mut(self, &p, 1)
    }
}

// ----- decimal array indices -----

proof fn lemma_decimal_of_digits(ds: Seq<u8>)
    requires
        crate::number::all_digits(ds),
    ensures
        all_decimal(crate::number::digit_text(ds)),
        decimal_value(crate::number::digit_text(ds)) == crate::number::dval(ds),
        crate::number::digit_text(ds).len() == ds.len(),
    decreases ds.len(),
{
    let t = crate::number::digit_text(ds);
    assert forall|i: int| 0 <= i < t.len() implies is_digit(#[trigger] t[i]) by {
        crate::roundtrip::lemma_digit_char(ds[i]);
    }
    if ds.len() > 0 {
        let init = ds.drop_last();
        lemma_decimal_of_digits(init);
        assert(t.drop_last() =~= crate::number::digit_text(init));
        assert(t.last() == crate::text::digit_char(ds.last() as int));
        assert(crate::text::digit_char(ds.last() as int) as int == ds.last() + 48);
    }
}

/// A reference token made of the decimal digits of a number `n` (as
/// `n.to_string()` writes it) denotes the array index `n`, for every `n`
/// that fits in a `usize`.
pub proof fn law_decimal_index(n: nat)
    requires
        n <= usize::MAX,
    ensures
        parse_index(crate::number::digit_text(crate::number::nat_digits(n))) == Some(n),
{
    let ds = crate::number::nat_digits(n);
    crate::roundtrip::lemma_nat_digits(n);
    lemma_decimal_of_digits(ds);
    let t = crate::number::digit_text(ds);
    assert(is_digit(t[0]));
    assert(index_digits(t) == t);
}

/// Following `/` and the decimal digits of `n` into an array reaches its
/// element `n`.
pub proof fn law_decimal_pointer(items: Seq<JsonModel>, n: nat)
    requires
        n < items.len(),
        n <= usize::MAX,
    ensures
        resolve(JsonModel::Array(items), seq!['/'] + crate::number::digit_text(crate::number::nat_digits(n)))
            == Some(items[n as int]),
{
    let t = crate::number::digit_text(crate::number::nat_digits(n));
    let p = seq!['/'] + t;
    law_decimal_index(n);
    assert forall|k: int| 1 <= k < p.len() implies p[k] != '/' by {
        assert(p[k] == t[k - 1]);
        assert(is_digit(t[k - 1]));
    }
    lemma_next_slash_none(p, 1);
    assert(p.subrange(1, p.len() as int) =~= t);
}

proof fn lemma_next_slash_none(p: Seq<char>, i: int)
    requires
        1 <= i <= p.len(),
        forall|k: int| 1 <= k < p.len() ==> p[k] != '/',
    ensures
        next_slash(p, i) == p.len(),
    decreases p.len() - i,
{
    if i < p.len() {
        lemma_next_slash_none(p, i + 1);
    }
}

} // verus!
