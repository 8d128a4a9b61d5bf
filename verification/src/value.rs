use vstd::prelude::*;
use crate::number::{JsonNumber, NumberModel};
use crate::text::chars_of;

verus! {

/// The mathematical content of a JSON document.
pub enum JsonModel {
    Null,
    Bool(bool),
    Number(NumberModel),
    String(Seq<char>),
    Array(Seq<JsonModel>),
    /// Members in stored order (sorted by key, keys unique, for a
    /// well-formed object).
    Object(Seq<(Seq<char>, JsonModel)>),
}

/// A JSON document.
#[derive(Debug)]
pub enum JsonValue {
    Null,
    Bool(bool),
    Number(JsonNumber),
    String(String),
    Array(Vec<JsonValue>),
    Object(JsonObject),
}

/// The members of a JSON object, kept sorted by key with no key twice: the
/// field is private to the crate, the operations of this type keep that
/// order, and `model_wf` states it of a document.
#[derive(Debug)]
pub struct JsonObject {
    pub(crate) entries: Vec<(String, JsonValue)>,
}

impl JsonValue {
    pub open spec fn view(&self) -> JsonModel
        decreases self,
    {
        match self {
            JsonValue::Null => JsonModel::Null,
            JsonValue::Bool(b) => JsonModel::Bool(*b),
            JsonValue::Number(n) => JsonModel::Number(n@),
            JsonValue::String(s) => JsonModel::String(s@),
            JsonValue::Array(v) => JsonModel::Array(view_values(v@)),
            JsonValue::Object(o) => JsonModel::Object(o.view()),
        }
    }
}

impl JsonObject {
    pub closed spec fn view(&self) -> Seq<(Seq<char>, JsonModel)>
        decreases self,
    {
        view_entries(self.entries@)
    }
}

/// The members of an object are its entries, each seen as a model.
pub(crate) broadcast proof fn lemma_object_view(o: &JsonObject)
    ensures
        #[trigger] o.view() == view_entries(o.entries@),
{
}

pub open spec fn view_values(s: Seq<JsonValue>) -> Seq<JsonModel>
    decreases s,
{
    if s.len() == 0 {
        Seq::empty()
    } else {
        view_values(s.subrange(0, s.len() - 1)).push(s[s.len() - 1].view())
    }
}

pub open spec fn view_entries(s: Seq<(String, JsonValue)>) -> Seq<(Seq<char>, JsonModel)>
    decreases s,
{
    if s.len() == 0 {
        Seq::empty()
    } else {
        view_entries(s.subrange(0, s.len() - 1)).push((s[s.len() - 1].0@, s[s.len() - 1].1.view()))
    }
}

/// `view_values` views each element.
pub broadcast proof fn lemma_view_values(s: Seq<JsonValue>)
    ensures
        #[trigger] view_values(s).len() == s.len(),
        forall|i: int| 0 <= i < s.len() ==> #[trigger] view_values(s)[i] == s[i].view(),
    decreases s.len(),
{
    if s.len() > 0 {
        lemma_view_values(s.subrange(0, s.len() - 1));
        assert forall|i: int| 0 <= i < s.len() implies #[trigger] view_values(s)[i] == s[i].view() by {
            if i < s.len() - 1 {
                assert(s.subrange(0, s.len() - 1)[i] == s[i]);
            }
        }
    }
}

/// `view_entries` views each member.
pub broadcast proof fn lemma_view_entries(s: Seq<(String, JsonValue)>)
    ensures
        #[trigger] view_entries(s).len() == s.len(),
        forall|i: int|
            0 <= i < s.len() ==> #[trigger] view_entries(s)[i] == (s[i].0@, s[i].1.view()),
    decreases s.len(),
{
    if s.len() > 0 {
        lemma_view_entries(s.subrange(0, s.len() - 1));
        assert forall|i: int| 0 <= i < s.len() implies #[trigger] view_entries(s)[i] == (
        s[i].0@,
        s[i].1.view(),
        ) by {
            if i < s.len() - 1 {
                assert(s.subrange(0, s.len() - 1)[i] == s[i]);
            }
        }
    }
}

/// Viewing a sequence after one element changed.
pub proof fn lemma_view_values_update(s: Seq<JsonValue>, i: int)
    requires
        0 <= i < s.len(),
    ensures
        forall|e: JsonValue| #[trigger] view_values(s.update(i, e)) == view_values(s).update(i, e@),
{
    assert forall|e: JsonValue| #[trigger] view_values(s.update(i, e)) == view_values(s).update(i, e@) by {
        lemma_view_values(s);
        lemma_view_values(s.update(i, e));
        assert(view_values(s.update(i, e)) =~= view_values(s).update(i, e@));
    }
}

/// Viewing a sequence of members after one member changed.
pub proof fn lemma_view_entries_update(s: Seq<(String, JsonValue)>, i: int)
    requires
        0 <= i < s.len(),
    ensures
        forall|e: (String, JsonValue)| #[trigger] view_entries(s.update(i, e)) == view_entries(s).update(i, (e.0@, e.1@)),
{
    assert forall|e: (String, JsonValue)| #[trigger] view_entries(s.update(i, e)) == view_entries(s).update(i, (e.0@, e.1@)) by {
        lemma_view_entries(s);
        lemma_view_entries(s.update(i, e));
        assert(view_entries(s.update(i, e)) =~= view_entries(s).update(i, (e.0@, e.1@)));
    }
}

pub broadcast group group_view {
    lemma_view_values,
    lemma_view_entries,
    lemma_object_view,
}

// ----- object members, as a sequence sorted by key -----

/// Strict lexicographic order of keys by code point (the order of `str`).
pub open spec fn key_less(a: Seq<char>, b: Seq<char>) -> bool
    decreases a.len(),
{
    if b.len() == 0 {
        false
    } else if a.len() == 0 {
        true
    } else if (a[0] as u32) < (b[0] as u32) {
        true
    } else if a[0] == b[0] {
        key_less(a.drop_first(), b.drop_first())
    } else {
        false
    }
}

/// The index of the first member with key `k`, or -1.
pub open spec fn key_index<V>(es: Seq<(Seq<char>, V)>, k: Seq<char>) -> int
    decreases es.len(),
{
    if es.len() == 0 {
        -1
    } else if es[0].0 == k {
        0
    } else {
        let r = key_index(es.drop_first(), k);
        if r < 0 {
            -1
        } else {
            r + 1
        }
    }
}

/// The index of the first member whose key is greater than `k` (or the length).
pub open spec fn insert_index<V>(es: Seq<(Seq<char>, V)>, k: Seq<char>) -> int
    decreases es.len(),
{
    if es.len() == 0 {
        0
    } else if key_less(k, es[0].0) {
        0
    } else {
        insert_index(es.drop_first(), k) + 1
    }
}

/// The value under key `k`.
pub open spec fn member<V>(es: Seq<(Seq<char>, V)>, k: Seq<char>) -> Option<V> {
    let i = key_index(es, k);
    if i < 0 {
        None
    } else {
        Some(es[i].1)
    }
}

/// Setting key `k` to `v`: in place when present, else at its sorted place.
pub open spec fn with_member<V>(es: Seq<(Seq<char>, V)>, k: Seq<char>, v: V) -> Seq<(Seq<char>, V)> {
    let i = key_index(es, k);
    if i < 0 {
        es.insert(insert_index(es, k), (k, v))
    } else {
        es.update(i, (k, v))
    }
}

/// Removing key `k`.
pub open spec fn without_member<V>(es: Seq<(Seq<char>, V)>, k: Seq<char>) -> Seq<(Seq<char>, V)> {
    let i = key_index(es, k);
    if i < 0 {
        es
    } else {
        es.remove(i)
    }
}

/// Keys strictly increasing (hence unique).
pub open spec fn keys_sorted<V>(es: Seq<(Seq<char>, V)>) -> bool {
    forall|i: int, j: int| 0 <= i < j < es.len() ==> key_less(#[trigger] es[i].0, #[trigger] es[j].0)
}

/// Every object in the document has sorted, unique keys, and every number is canonical.
pub open spec fn model_wf(v: JsonModel) -> bool
    decreases v,
{
    match v {
        JsonModel::Number(n) => n.wf(),
        JsonModel::Array(items) => forall|i: int| 0 <= i < items.len() ==> model_wf(#[trigger] items[i]),
        JsonModel::Object(es) => keys_sorted(es) && forall|i: int|
            0 <= i < es.len() ==> model_wf(#[trigger] es[i].1),
        _ => true,
    }
}


impl JsonValue {
    /// A copy of this document.
    pub fn deep_copy(&self) -> (r: JsonValue)
        ensures
            r@ == self@,
        decreases self,
    {
        broadcast use group_view;
        match self {
            JsonValue::Null => JsonValue::Null,
            JsonValue::Bool(b) => JsonValue::Bool(*b),
            JsonValue::Number(n) => JsonValue::Number(n.duplicate()),
            JsonValue::String(s) => JsonValue::String(s.clone()),
            JsonValue::Array(items) => JsonValue::Array(copy_items(items)),
            JsonValue::Object(o) => JsonValue::Object(o.deep_copy()),
        }
    }

    /// Whether two documents are equal.
    pub fn same_as(&self, other: &JsonValue) -> (r: bool)
        ensures
            r == (self@ == other@),
        decreases self,
    {
        broadcast use group_view;
        match (self, other) {
            (JsonValue::Null, JsonValue::Null) => true,
            (JsonValue::Bool(a), JsonValue::Bool(b)) => *a == *b,
            (JsonValue::Number(a), JsonValue::Number(b)) => {
                let r = a.same_as(b);
                assert(r == (self@ == other@));
                r
            },
            (JsonValue::String(a), JsonValue::String(b)) => {
                let r = *a == *b;
                assert(r == (self@ == other@));
                r
            },
            (JsonValue::Array(a), JsonValue::Array(b)) => {
                if a.len() != b.len() {
                    assert(view_values(a@).len() != view_values(b@).len());
                    return false;
                }
                let mut i: usize = 0;
                while i < a.len()
                    invariant
                        *self == JsonValue::Array(*a),
                        *other == JsonValue::Array(*b),
                        i <= a@.len() == b@.len(),
                        forall|j: int| 0 <= j < i ==> (#[trigger] a@[j])@ == b@[j]@,
                    decreases a@.len() - i,
                {
                    if !a[i].same_as(&b[i]) {
                        proof {
                            lemma_view_values(a@);
                            lemma_view_values(b@);
                        }
                        assert(view_values(a@)[i as int] != view_values(b@)[i as int]);
                        return false;
                    }
                    i = i + 1;
                }
                proof {
                    lemma_view_values(a@);
                    lemma_view_values(b@);
                    assert forall|j: int| 0 <= j < a@.len() implies view_values(a@)[j] == view_values(b@)[j] by {
                        assert(a@[j]@ == b@[j]@);
                    }
                }
                assert(view_values(a@) =~= view_values(b@));
                assert(self@ == other@);
                true
            },
            (JsonValue::Object(a), JsonValue::Object(b)) => {
                let r = a.same_as(b);
                assert(r == (self@ == other@));
                r
            },
            _ => false,
        }
    }
}

/// Copies of the elements of an array.
fn copy_items(items: &Vec<JsonValue>) -> (out: Vec<JsonValue>)
    ensures
        view_values(out@) == view_values(items@),
    decreases items,
{
    broadcast use group_view;
    let mut out: Vec<JsonValue> = Vec::new();
    let mut i: usize = 0;
    while i < items.len()
        invariant
            i <= items@.len(),
            out@.len() == i,
            forall|j: int| 0 <= j < i ==> (#[trigger] out@[j])@ == items@[j]@,
        decreases items@.len() - i,
    {
        let c = items[i].deep_copy();
        out.push(c);
        i = i + 1;
    }
    proof {
        lemma_view_values(out@);
        lemma_view_values(items@);
        assert forall|j: int| 0 <= j < i implies view_values(out@)[j] == view_values(items@)[j] by {
            assert(out@[j]@ == items@[j]@);
        }
    }
    assert(view_values(out@) =~= view_values(items@));
    out
}


impl JsonObject {
    /// The members, in key order, to read or walk through.
    pub fn members(&self) -> (r: &Vec<(String, JsonValue)>)
        ensures
            view_entries(r@) == self@,
    {
        broadcast use group_view;
        &self.entries
    }

    /// An object with no members.
    pub fn new() -> (r: JsonObject)
        ensures
            r@ == Seq::<(Seq<char>, JsonModel)>::empty(),
    {
        JsonObject { entries: Vec::new() }
    }

    /// The number of members.
    pub fn len(&self) -> (r: usize)
        ensures
            r == self@.len(),
    {
        broadcast use group_view;
        self.entries.len()
    }

    /// A copy of this object.
    pub fn deep_copy(&self) -> (r: JsonObject)
        ensures
            r@ == self@,
        decreases self,
    {
        broadcast use group_view;
        let mut out: Vec<(String, JsonValue)> = Vec::new();
        let mut i: usize = 0;
        while i < self.entries.len()
            invariant
                i <= self.entries@.len(),
                out@.len() == i,
                forall|j: int|
                    0 <= j < i ==> (#[trigger] out@[j]).0@ == self.entries@[j].0@ && out@[j].1@
                        == self.entries@[j].1@,
            decreases self.entries@.len() - i,
        {
            let key = self.entries[i].0.clone();
            let value = self.entries[i].1.deep_copy();
            out.push((key, value));
            i = i + 1;
        }
        proof {
            lemma_view_entries(out@);
            lemma_view_entries(self.entries@);
            assert forall|j: int| 0 <= j < i implies view_entries(out@)[j] == view_entries(self.entries@)[j] by {
                assert(out@[j].0@ == self.entries@[j].0@);
            }
        }
        assert(view_entries(out@) =~= view_entries(self.entries@));
        JsonObject { entries: out }
    }

    /// Whether two objects have the same members in the same order.
    pub fn same_as(&self, other: &JsonObject) -> (r: bool)
        ensures
            r == (self@ == other@),
        decreases self,
    {
        broadcast use group_view;
        let a = &self.entries;
        let b = &other.entries;
        if a.len() != b.len() {
            assert(view_entries(a@).len() != view_entries(b@).len());
            return false;
        }
        let mut i: usize = 0;
        while i < a.len()
            invariant
                a == &self.entries,
                b == &other.entries,
                b == &other.entries,
                i <= a@.len() == b@.len(),
                forall|j: int|
                    0 <= j < i ==> (#[trigger] a@[j]).0@ == b@[j].0@ && a@[j].1@ == b@[j].1@,
            decreases a@.len() - i,
        {
            if a[i].0 != b[i].0 {
                proof {
                    lemma_view_entries(a@);
                    lemma_view_entries(b@);
                }
                assert(view_entries(a@)[i as int] != view_entries(b@)[i as int]);
                return false;
            }
            if !a[i].1.same_as(&b[i].1) {
                proof {
                    lemma_view_entries(a@);
                    lemma_view_entries(b@);
                }
                assert(view_entries(a@)[i as int] != view_entries(b@)[i as int]);
                return false;
            }
            i = i + 1;
        }
        proof {
            lemma_view_entries(a@);
            lemma_view_entries(b@);
            assert forall|j: int| 0 <= j < a@.len() implies view_entries(a@)[j] == view_entries(b@)[j] by {
                assert(a@[j].0@ == b@[j].0@);
            }
        }
        assert(view_entries(a@) =~= view_entries(b@));
        true
    }
}

impl Clone for JsonValue {
    fn clone(&self) -> (r: Self)
        ensures
            r@ == self@,
    {
        self.deep_copy()
    }
}

impl Clone for JsonObject {
    fn clone(&self) -> (r: Self)
        ensures
            r@ == self@,
    {
        self.deep_copy()
    }
}

impl PartialEq for JsonValue {
    fn eq(&self, other: &Self) -> (r: bool) {
        self.same_as(other)
    }
}

impl vstd::std_specs::cmp::PartialEqSpecImpl for JsonValue {
    open spec fn obeys_eq_spec() -> bool {
        true
    }

    open spec fn eq_spec(&self, other: &Self) -> bool {
        self@ == other@
    }
}


// ----- keys -----

/// Whether key `a` comes strictly before key `b`.
pub fn key_before(a: &Vec<char>, b: &Vec<char>) -> (r: bool)
    ensures
        r == key_less(a@, b@),
{
    let mut i: usize = 0;
    assert(a@.skip(0) =~= a@);
    assert(b@.skip(0) =~= b@);
    while i < a.len() && i < b.len()
        invariant
            i <= a@.len(),
            i <= b@.len(),
            key_less(a@, b@) == key_less(a@.skip(i as int), b@.skip(i as int)),
        decreases a@.len() - i,
    {
        let x = a[i];
        let y = b[i];
        assert(a@.skip(i as int)[0] == x);
        assert(b@.skip(i as int)[0] == y);
        if (x as u32) < (y as u32) {
            return true;
        } else if x != y {
            return false;
        }
        assert(a@.skip(i as int).drop_first() =~= a@.skip(i + 1));
        assert(b@.skip(i as int).drop_first() =~= b@.skip(i + 1));
        i = i + 1;
    }
    i < b.len()
}

/// Whether two keys are the same.
pub fn same_key(a: &Vec<char>, b: &Vec<char>) -> (r: bool)
    ensures
        r == (a@ == b@),
{
    if a.len() != b.len() {
        return false;
    }
    let mut i: usize = 0;
    while i < a.len()
        invariant
            i <= a@.len() == b@.len(),
            forall|j: int| 0 <= j < i ==> a@[j] == b@[j],
        decreases a@.len() - i,
    {
        if a[i] != b[i] {
            return false;
        }
        i = i + 1;
    }
    assert(a@ =~= b@);
    true
}

/// `key_index` is the first matching position.
pub proof fn lemma_key_index<V>(es: Seq<(Seq<char>, V)>, k: Seq<char>, i: int)
    requires
        0 <= i <= es.len(),
        forall|j: int| 0 <= j < i ==> (#[trigger] es[j]).0 != k,
        i == es.len() || es[i].0 == k,
    ensures
        key_index(es, k) == if i == es.len() { -1 } else { i },
    decreases i,
{
    if i > 0 {
        lemma_key_index(es.drop_first(), k, i - 1);
    }
}

/// `key_index` finds a member with the key, and none before it.
pub proof fn lemma_key_index_found<V>(es: Seq<(Seq<char>, V)>, k: Seq<char>)
    ensures
        -1 <= key_index(es, k) < es.len(),
        key_index(es, k) >= 0 ==> es[key_index(es, k)].0 == k,
        forall|j: int| 0 <= j < es.len() && (j < key_index(es, k) || key_index(es, k) < 0) ==> (#[trigger] es[j]).0 != k,
    decreases es.len(),
{
    if es.len() > 0 {
        lemma_key_index_found(es.drop_first(), k);
        assert forall|j: int| 0 <= j < es.len() && (j < key_index(es, k) || key_index(es, k) < 0) implies (#[trigger] es[j]).0 != k by {
            if j > 0 {
                assert(es[j] == es.drop_first()[j - 1]);
            }
        }
    }
}

/// `insert_index` is the first position whose key is greater.
pub proof fn lemma_insert_index<V>(es: Seq<(Seq<char>, V)>, k: Seq<char>, i: int)
    requires
        0 <= i <= es.len(),
        forall|j: int| 0 <= j < i ==> !key_less(k, (#[trigger] es[j]).0),
        i == es.len() || key_less(k, es[i].0),
    ensures
        insert_index(es, k) == i,
    decreases i,
{
    if i > 0 {
        lemma_insert_index(es.drop_first(), k, i - 1);
    }
}

/// `insert_index` is a place within the members.
pub proof fn lemma_insert_index_bounds<V>(es: Seq<(Seq<char>, V)>, k: Seq<char>)
    ensures
        0 <= insert_index(es, k) <= es.len(),
    decreases es.len(),
{
    if es.len() > 0 {
        lemma_insert_index_bounds(es.drop_first(), k);
    }
}

// ----- the order of keys -----

/// No key comes before itself.
pub proof fn lemma_key_less_irreflexive(a: Seq<char>)
    ensures
        !key_less(a, a),
    decreases a.len(),
{
    if a.len() > 0 {
        lemma_key_less_irreflexive(a.drop_first());
    }
}

/// Two keys are not each before the other.
pub proof fn lemma_key_less_asymmetric(a: Seq<char>, b: Seq<char>)
    requires
        key_less(a, b),
    ensures
        !key_less(b, a),
    decreases a.len(),
{
    if a.len() > 0 && b.len() > 0 && a[0] == b[0] {
        lemma_key_less_asymmetric(a.drop_first(), b.drop_first());
    }
}

/// The order of keys is transitive.
pub proof fn lemma_key_less_transitive(a: Seq<char>, b: Seq<char>, c: Seq<char>)
    requires
        key_less(a, b),
        key_less(b, c),
    ensures
        key_less(a, c),
    decreases a.len(),
{
    if a.len() > 0 && b.len() > 0 && c.len() > 0 && a[0] == b[0] && b[0] == c[0] {
        lemma_key_less_transitive(a.drop_first(), b.drop_first(), c.drop_first());
    }
}

/// Two different keys are ordered one way or the other.
pub proof fn lemma_key_less_total(a: Seq<char>, b: Seq<char>)
    requires
        a != b,
    ensures
        key_less(a, b) || key_less(b, a),
    decreases a.len(),
{
    if a.len() == 0 {
        assert(b.len() > 0) by {
            if b.len() == 0 {
                assert(a =~= b);
            }
        }
    } else if b.len() == 0 {
    } else if a[0] == b[0] {
        if a.drop_first() == b.drop_first() {
            assert(a =~= seq![a[0]] + a.drop_first());
            assert(b =~= seq![b[0]] + b.drop_first());
        }
        lemma_key_less_total(a.drop_first(), b.drop_first());
    } else {
        vstd::utf8::char_u32_cast(a[0], a[0] as u32);
        vstd::utf8::char_u32_cast(b[0], b[0] as u32);
        assert((a[0] as u32) != (b[0] as u32));
    }
}

/// In members with sorted keys, keys at different places differ, and each
/// key is found at its own place.
pub proof fn lemma_sorted_member<V>(es: Seq<(Seq<char>, V)>, i: int)
    requires
        keys_sorted(es),
        0 <= i < es.len(),
    ensures
        key_index(es, es[i].0) == i,
        member(es, es[i].0) == Some(es[i].1),
{
    assert forall|j: int| 0 <= j < i implies (#[trigger] es[j]).0 != es[i].0 by {
        assert(key_less(es[j].0, es[i].0));
        if es[j].0 == es[i].0 {
            lemma_key_less_irreflexive(es[i].0);
        }
    }
    lemma_key_index(es, es[i].0, i);
}

impl JsonObject {
    /// The index of the member with key `key`.
    fn find(&self, key: &Vec<char>) -> (r: Option<usize>)
        ensures
            match r {
                Some(i) => key_index(self@, key@) == i && i < self.entries@.len(),
                None => key_index(self@, key@) == -1,
            },
    {
        broadcast use group_view;
        let mut i: usize = 0;
        proof {
            lemma_view_entries(self.entries@);
        }
        while i < self.entries.len()
            invariant
                i <= self.entries@.len(),
                self@.len() == self.entries@.len(),
                forall|j: int| 0 <= j < self.entries@.len() ==> #[trigger] self@[j] == (self.entries@[j].0@, self.entries@[j].1@),
                forall|j: int| 0 <= j < i ==> (#[trigger] self@[j]).0 != key@,
            decreases self.entries@.len() - i,
        {
            let k = chars_of(self.entries[i].0.as_str());
            assert(self@[i as int].0 == k@);
            if same_key(&k, key) {
                proof {
                    lemma_key_index(self@, key@, i as int);
                }
                return Some(i);
            }
            i = i + 1;
        }
        proof {
            lemma_key_index(self@, key@, i as int);
        }
        None
    }

    /// The position at which a new member with key `key` belongs.
    fn place_for(&self, key: &Vec<char>) -> (r: usize)
        ensures
            r == insert_index(self@, key@),
            r <= self.entries@.len(),
    {
        broadcast use group_view;
        let mut i: usize = 0;
        proof {
            lemma_view_entries(self.entries@);
        }
        while i < self.entries.len()
            invariant
                i <= self.entries@.len(),
                self@.len() == self.entries@.len(),
                forall|j: int| 0 <= j < self.entries@.len() ==> #[trigger] self@[j] == (self.entries@[j].0@, self.entries@[j].1@),
                forall|j: int| 0 <= j < i ==> !key_less(key@, (#[trigger] self@[j]).0),
            decreases self.entries@.len() - i,
        {
            let k = chars_of(self.entries[i].0.as_str());
            assert(self@[i as int].0 == k@);
            if key_before(key, &k) {
                proof {
                    lemma_insert_index(self@, key@, i as int);
                }
                return i;
            }
            i = i + 1;
        }
        proof {
            lemma_insert_index(self@, key@, i as int);
        }
        i
    }

    /// The value of the member with key `key`.
    pub fn get(&self, key: &str) -> (r: Option<&JsonValue>)
        ensures
            match member(self@, key@) {
                Some(v) => r matches Some(x) && x@ == v,
                None => r is None,
            },
    {
        broadcast use group_view;
        let k = chars_of(key);
        proof {
            lemma_view_entries(self.entries@);
        }
        match self.find(&k) {
            Some(i) => {
                assert(self@[i as int].1 == self.entries@[i as int].1@);
                Some(&self.entries[i].1)
            },
            None => None,
        }
    }

    /// Whether a member has key `key`.
    pub fn contains_key(&self, key: &str) -> (r: bool)
        ensures
            r == (key_index(self@, key@) >= 0),
    {
        let k = chars_of(key);
        self.find(&k).is_some()
    }

    /// Sets the member `key` to `value`, keeping the keys sorted; gives the
    /// value it replaces.
    pub fn insert(&mut self, key: String, value: JsonValue) -> (r: Option<JsonValue>)
        ensures
            final(self)@ == with_member(old(self)@, key@, value@),
            match member(old(self)@, key@) {
                Some(v) => r matches Some(x) && x@ == v,
                None => r is None,
            },
    {
        broadcast use group_view;
        let k = chars_of(key.as_str());
        let ghost old_es = self.entries@;
        proof {
            lemma_view_entries(old_es);
        }
        match self.find(&k) {
            Some(i) => {
                let mut entry = (key, value);
                std::mem::swap(&mut entry, &mut self.entries[i]);
                assert(self.entries@ == old_es.update(i as int, self.entries@[i as int]));
                proof {
                    lemma_view_entries(self.entries@);
                }
                assert(view_entries(self.entries@) =~= view_entries(old_es).update(
                    i as int,
                    (self.entries@[i as int].0@, self.entries@[i as int].1@),
                ));
                Some(entry.1)
            },
            None => {
                let at = self.place_for(&k);
                self.entries.insert(at, (key, value));
                proof {
                    lemma_view_entries(self.entries@);
                }
                assert(view_entries(self.entries@) =~= view_entries(old_es).insert(
                    at as int,
                    (self.entries@[at as int].0@, self.entries@[at as int].1@),
                ));
                None
            },
        }
    }

    /// The value of the member with key `key`, to change in place.
    pub fn get_mut(&mut self, key: &str) -> (r: Option<&mut JsonValue>)
        ensures
            match r {
                Some(x) => {
                    let i = key_index(old(self)@, key@);
                    &&& 0 <= i
                    &&& (*x)@ == old(self)@[i].1
                    &&& final(self)@ == old(self)@.update(i, (key@, (*final(x))@))
                },
                None => key_index(old(self)@, key@) < 0 && final(self)@ == old(self)@,
            },
    {
        broadcast use group_view;
        let k = chars_of(key);
        proof {
            lemma_view_entries(self.entries@);
        }
        match self.find(&k) {
            Some(i) => {
                proof {
                    lemma_view_entries_update(self.entries@, i as int);
                    lemma_key_index_found(self@, key@);
                }
                let entry = &mut self.entries[i];
                Some(&mut entry.1)
            },
            None => None,
        }
    }

    /// Removes the member `key`, giving its value.
    pub fn remove(&mut self, key: &str) -> (r: Option<JsonValue>)
        ensures
            final(self)@ == without_member(old(self)@, key@),
            match member(old(self)@, key@) {
                Some(v) => r matches Some(x) && x@ == v,
                None => r is None,
            },
    {
        broadcast use group_view;
        let k = chars_of(key);
        let ghost old_es = self.entries@;
        proof {
            lemma_view_entries(old_es);
        }
        match self.find(&k) {
            Some(i) => {
                let entry = self.entries.remove(i);
                proof {
                    lemma_view_entries(self.entries@);
                }
                assert(view_entries(self.entries@) =~= view_entries(old_es).remove(i as int));
                Some(entry.1)
            },
            None => None,
        }
    }
}

} // verus!
