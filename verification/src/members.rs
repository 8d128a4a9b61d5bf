use vstd::prelude::*;
use crate::value::{
    insert_index, key_index, key_less, keys_sorted, lemma_insert_index, lemma_key_index,
    lemma_key_index_found, lemma_key_less_asymmetric, lemma_key_less_irreflexive,
    lemma_key_less_total, lemma_key_less_transitive, lemma_sorted_member, member, with_member,
    without_member,
};

verus! {

// Facts about members whose keys are sorted: each operation keeps them
// sorted, and changes what it names and nothing else.

/// `key_index` finds nothing when no member has the key.
pub proof fn lemma_absent<V>(es: Seq<(Seq<char>, V)>, k: Seq<char>)
    requires
        forall|j: int| 0 <= j < es.len() ==> (#[trigger] es[j]).0 != k,
    ensures
        key_index(es, k) == -1,
        member(es, k) is None,
{
    lemma_key_index(es, k, es.len() as int);
}

/// In sorted members, a member with key `k` sits where `key_index` says.
pub proof fn lemma_sorted_found<V>(es: Seq<(Seq<char>, V)>, k: Seq<char>, i: int)
    requires
        keys_sorted(es),
        0 <= i < es.len(),
        es[i].0 == k,
    ensures
        key_index(es, k) == i,
        member(es, k) == Some(es[i].1),
{
    lemma_sorted_member(es, i);
}

/// `insert_index` of an absent key in sorted members: every key before it is
/// smaller, every key from it on is greater.
pub proof fn lemma_insert_index_sorted<V>(es: Seq<(Seq<char>, V)>, k: Seq<char>)
    requires
        keys_sorted(es),
        key_index(es, k) < 0,
    ensures
        0 <= insert_index(es, k) <= es.len(),
        forall|j: int| 0 <= j < insert_index(es, k) ==> key_less(#[trigger] es[j].0, k),
        forall|j: int| insert_index(es, k) <= j < es.len() ==> key_less(k, #[trigger] es[j].0),
    decreases es.len(),
{
    lemma_key_index_found(es, k);
    if es.len() > 0 {
        let rest = es.drop_first();
        assert forall|i: int, j: int| 0 <= i < j < rest.len() implies key_less(
            #[trigger] rest[i].0,
            #[trigger] rest[j].0,
        ) by {
            assert(rest[i] == es[i + 1] && rest[j] == es[j + 1]);
        }
        assert(key_index(rest, k) < 0) by {
            lemma_key_index_found(rest, k);
            if key_index(rest, k) >= 0 {
                assert(rest[key_index(rest, k)] == es[key_index(rest, k) + 1]);
            }
        }
        lemma_insert_index_sorted(rest, k);
        let q = insert_index(es, k);
        if key_less(k, es[0].0) {
            assert forall|j: int| q <= j < es.len() implies key_less(k, #[trigger] es[j].0) by {
                if j > 0 {
                    lemma_key_less_transitive(k, es[0].0, es[j].0);
                }
            }
        } else {
            assert(es[0].0 != k);
            lemma_key_less_total(es[0].0, k);
            assert forall|j: int| 0 <= j < q implies key_less(#[trigger] es[j].0, k) by {
                if j > 0 {
                    assert(rest[j - 1] == es[j]);
                }
            }
            assert forall|j: int| q <= j < es.len() implies key_less(k, #[trigger] es[j].0) by {
                assert(rest[j - 1] == es[j]);
            }
        }
    }
}

/// Removing a key keeps the keys sorted, and removes that key and no other.
#[verifier::spinoff_prover]
pub proof fn lemma_without_member<V>(es: Seq<(Seq<char>, V)>, k: Seq<char>, k2: Seq<char>)
    requires
        keys_sorted(es),
    ensures
        keys_sorted(without_member(es, k)),
        member(without_member(es, k), k2) == if k2 == k {
            None
        } else {
            member(es, k2)
        },
{
    lemma_key_index_found(es, k);
    let i = key_index(es, k);
    if i >= 0 {
        let r = es.remove(i);
        assert forall|a: int, b: int| 0 <= a < b < r.len() implies key_less(
            #[trigger] r[a].0,
            #[trigger] r[b].0,
        ) by {
            let a2 = if a < i { a } else { a + 1 };
            let b2 = if b < i { b } else { b + 1 };
            assert(r[a] == es[a2] && r[b] == es[b2]);
        }
        if k2 == k {
            assert forall|j: int| 0 <= j < r.len() implies (#[trigger] r[j]).0 != k by {
                let j2 = if j < i { j } else { j + 1 };
                assert(r[j] == es[j2]);
                assert(j2 != i);
                if es[j2].0 == k {
                    lemma_sorted_member(es, j2);
                }
            }
            lemma_absent(r, k);
        } else {
            lemma_key_index_found(es, k2);
            let m = key_index(es, k2);
            if m >= 0 {
                let m2 = if m < i { m } else { m - 1 };
                assert(m != i);
                assert(r[m2] == es[m]);
                lemma_sorted_found(r, k2, m2);
            } else {
                assert forall|j: int| 0 <= j < r.len() implies (#[trigger] r[j]).0 != k2 by {
                    let j2 = if j < i { j } else { j + 1 };
                    assert(r[j] == es[j2]);
                }
                lemma_absent(r, k2);
            }
        }
    } else {
        if k2 == k {
            lemma_absent(es, k);
        }
    }
}

/// Setting a key keeps the keys sorted, and sets that key and no other.
#[verifier::spinoff_prover]
pub proof fn lemma_with_member<V>(es: Seq<(Seq<char>, V)>, k: Seq<char>, v: V, k2: Seq<char>)
    requires
        keys_sorted(es),
    ensures
        keys_sorted(with_member(es, k, v)),
        member(with_member(es, k, v), k2) == if k2 == k {
            Some(v)
        } else {
            member(es, k2)
        },
{
    lemma_key_index_found(es, k);
    lemma_key_index_found(es, k2);
    let i = key_index(es, k);
    let r = with_member(es, k, v);
    if i >= 0 {
        assert(r == es.update(i, (k, v)));
        assert forall|a: int, b: int| 0 <= a < b < r.len() implies key_less(
            #[trigger] r[a].0,
            #[trigger] r[b].0,
        ) by {
            assert(r[a].0 == es[a].0 && r[b].0 == es[b].0);
        }
        if k2 == k {
            lemma_sorted_found(r, k, i);
        } else {
            let m = key_index(es, k2);
            if m >= 0 {
                assert(m != i);
                assert(r[m] == es[m]);
                lemma_sorted_found(r, k2, m);
            } else {
                assert forall|j: int| 0 <= j < r.len() implies (#[trigger] r[j]).0 != k2 by {
                    assert(r[j].0 == es[j].0);
                }
                lemma_absent(r, k2);
            }
        }
    } else {
        lemma_insert_index_sorted(es, k);
        let q = insert_index(es, k);
        assert(r == es.insert(q, (k, v)));
        assert forall|a: int, b: int| 0 <= a < b < r.len() implies key_less(
            #[trigger] r[a].0,
            #[trigger] r[b].0,
        ) by {
            if a < q && b < q {
                assert(r[a] == es[a] && r[b] == es[b]);
            } else if a < q && b == q {
                assert(r[a] == es[a]);
            } else if a < q {
                assert(r[a] == es[a] && r[b] == es[b - 1]);
            } else if a == q {
                assert(r[b] == es[b - 1]);
            } else {
                assert(r[a] == es[a - 1] && r[b] == es[b - 1]);
            }
        }
        if k2 == k {
            lemma_sorted_found(r, k, q);
        } else {
            let m = key_index(es, k2);
            if m >= 0 {
                let m2 = if m < q { m } else { m + 1 };
                assert(r[m2] == es[m]);
                lemma_sorted_found(r, k2, m2);
            } else {
                assert forall|j: int| 0 <= j < r.len() implies (#[trigger] r[j]).0 != k2 by {
                    if j < q {
                        assert(r[j] == es[j]);
                    } else if j > q {
                        assert(r[j] == es[j - 1]);
                    }
                }
                lemma_absent(r, k2);
            }
        }
    }
}

/// Members with sorted keys are fixed by what each key names.
#[verifier::spinoff_prover]
pub proof fn lemma_sorted_ext<V>(s: Seq<(Seq<char>, V)>, t: Seq<(Seq<char>, V)>)
    requires
        keys_sorted(s),
        keys_sorted(t),
        forall|k: Seq<char>| #[trigger] member(s, k) == member(t, k),
    ensures
        s == t,
    decreases s.len() + t.len(),
{
    if s.len() == 0 && t.len() == 0 {
        assert(s =~= t);
    } else if s.len() == 0 {
        lemma_sorted_member(t, 0);
        lemma_absent(s, t[0].0);
        assert(member(s, t[0].0) == member(t, t[0].0));
    } else if t.len() == 0 {
        lemma_sorted_member(s, 0);
        lemma_absent(t, s[0].0);
        assert(member(s, s[0].0) == member(t, s[0].0));
    } else {
        // the first members agree
        lemma_sorted_member(s, 0);
        lemma_sorted_member(t, 0);
        assert(member(s, s[0].0) == member(t, s[0].0));
        assert(member(s, t[0].0) == member(t, t[0].0));
        lemma_key_index_found(t, s[0].0);
        lemma_key_index_found(s, t[0].0);
        let j = key_index(t, s[0].0);
        let i = key_index(s, t[0].0);
        if j > 0 {
            // t[0] < t[j] = s[0] <= s[i] = t[0]
            assert(key_less(t[0].0, t[j].0));
            if i > 0 {
                assert(key_less(s[0].0, s[i].0));
                lemma_key_less_transitive(t[0].0, s[0].0, t[0].0);
            }
            lemma_key_less_irreflexive(t[0].0);
        }
        assert(j == 0);
        assert(s[0] == t[0]);
        let s1 = s.drop_first();
        let t1 = t.drop_first();
        assert forall|a: int, b: int| 0 <= a < b < s1.len() implies key_less(
            #[trigger] s1[a].0,
            #[trigger] s1[b].0,
        ) by {
            assert(s1[a] == s[a + 1] && s1[b] == s[b + 1]);
        }
        assert forall|a: int, b: int| 0 <= a < b < t1.len() implies key_less(
            #[trigger] t1[a].0,
            #[trigger] t1[b].0,
        ) by {
            assert(t1[a] == t[a + 1] && t1[b] == t[b + 1]);
        }
        assert forall|k: Seq<char>| #[trigger] member(s1, k) == member(t1, k) by {
            lemma_drop_first_member(s, k);
            lemma_drop_first_member(t, k);
            assert(member(s, k) == member(t, k));
        }
        lemma_sorted_ext(s1, t1);
        assert(s =~= seq![s[0]] + s1);
        assert(t =~= seq![t[0]] + t1);
    }
}

/// The members after the first, with sorted keys.
pub proof fn lemma_drop_first_member<V>(es: Seq<(Seq<char>, V)>, k: Seq<char>)
    requires
        keys_sorted(es),
        es.len() > 0,
    ensures
        member(es.drop_first(), k) == if k == es[0].0 {
            None
        } else {
            member(es, k)
        },
{
    let r = es.drop_first();
    assert forall|a: int, b: int| 0 <= a < b < r.len() implies key_less(
        #[trigger] r[a].0,
        #[trigger] r[b].0,
    ) by {
        assert(r[a] == es[a + 1] && r[b] == es[b + 1]);
    }
    lemma_key_index_found(es, k);
    if k == es[0].0 {
        assert forall|j: int| 0 <= j < r.len() implies (#[trigger] r[j]).0 != k by {
            assert(r[j] == es[j + 1]);
            assert(key_less(es[0].0, es[j + 1].0));
            if es[j + 1].0 == k {
                lemma_key_less_irreflexive(k);
            }
        }
        lemma_absent(r, k);
    } else {
        let m = key_index(es, k);
        if m >= 0 {
            assert(m > 0);
            assert(r[m - 1] == es[m]);
            lemma_sorted_found(r, k, m - 1);
        } else {
            assert forall|j: int| 0 <= j < r.len() implies (#[trigger] r[j]).0 != k by {
                assert(r[j] == es[j + 1]);
            }
            lemma_absent(r, k);
        }
    }
}

} // verus!
