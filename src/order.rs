use vstd::prelude::*;

use crate::grammar::{dict_insert, dict_of, insert_pos, lex_lt, lex_lt_from};
use crate::value::Bencode;

verus! {

/// Keys strictly ascend.
pub open spec fn keys_ascend(d: Seq<(Seq<u8>, Bencode)>) -> bool {
    forall|i: int, j: int| 0 <= i < j < d.len() ==> lex_lt(#[trigger] d[i].0, #[trigger] d[j].0)
}

proof fn lemma_lex_irreflexive(a: Seq<u8>, i: int)
    requires
        0 <= i,
    ensures
        !lex_lt_from(a, a, i),
    decreases a.len() - i,
{
    if i < a.len() {
        lemma_lex_irreflexive(a, i + 1);
    }
}

proof fn lemma_lex_transitive(a: Seq<u8>, b: Seq<u8>, c: Seq<u8>, i: int)
    requires
        0 <= i,
        lex_lt_from(a, b, i),
        lex_lt_from(b, c, i),
    ensures
        lex_lt_from(a, c, i),
    decreases a.len() - i,
{
    if i < a.len() && i < b.len() && i < c.len() && a[i] == b[i] && b[i] == c[i] {
        lemma_lex_transitive(a, b, c, i + 1);
    }
}

proof fn lemma_lex_total(a: Seq<u8>, b: Seq<u8>, i: int)
    requires
        0 <= i <= a.len(),
        i <= b.len(),
        a.subrange(0, i) == b.subrange(0, i),
    ensures
        lex_lt_from(a, b, i) || lex_lt_from(b, a, i) || a == b,
    decreases a.len() - i,
{
    if i == a.len() && i == b.len() {
        assert(a =~= a.subrange(0, i));
        assert(b =~= b.subrange(0, i));
    } else if i < a.len() && i < b.len() && a[i] == b[i] {
        assert(a.subrange(0, i + 1) =~= a.subrange(0, i).push(a[i]));
        assert(b.subrange(0, i + 1) =~= b.subrange(0, i).push(b[i]));
        lemma_lex_total(a, b, i + 1);
    }
}

proof fn lemma_insert_pos(d: Seq<(Seq<u8>, Bencode)>, k: Seq<u8>, i: int)
    requires
        0 <= i <= d.len(),
        forall|j: int| 0 <= j < i ==> lex_lt(#[trigger] d[j].0, k),
    ensures
        i <= insert_pos(d, k, i) <= d.len(),
        forall|j: int| 0 <= j < insert_pos(d, k, i) ==> lex_lt(#[trigger] d[j].0, k),
        insert_pos(d, k, i) < d.len() ==> !lex_lt(d[insert_pos(d, k, i)].0, k),
    decreases d.len() - i,
{
    if i < d.len() && lex_lt(d[i].0, k) {
        lemma_insert_pos(d, k, i + 1);
    }
}

/// Setting a key in a dictionary whose keys ascend leaves them ascending.
pub proof fn lemma_insert_keeps_order(d: Seq<(Seq<u8>, Bencode)>, k: Seq<u8>, v: Bencode)
    requires
        keys_ascend(d),
    ensures
        keys_ascend(dict_insert(d, k, v)),
        forall|j: int|
            0 <= j < dict_insert(d, k, v).len() ==> (#[trigger] dict_insert(d, k, v)[j] == (k, v)
                || exists|i: int| 0 <= i < d.len() && d[i] == dict_insert(d, k, v)[j]),
{
    lemma_insert_pos(d, k, 0);
    let p = insert_pos(d, k, 0);
    let r = dict_insert(d, k, v);
    if p < d.len() && d[p].0 == k {
        assert forall|i: int, j: int| 0 <= i < j < r.len() implies lex_lt(
            #[trigger] r[i].0,
            #[trigger] r[j].0,
        ) by {
            assert(r[i].0 == d[i].0 && r[j].0 == d[j].0);
        }
        assert forall|j: int| 0 <= j < r.len() implies (#[trigger] r[j] == (k, v) || exists|i: int|
            0 <= i < d.len() && d[i] == r[j]) by {
            if j != p {
                assert(d[j] == r[j]);
            }
        }
    } else {
        if p < d.len() {
            assert(d[p].0.subrange(0, 0) =~= k.subrange(0, 0));
            lemma_lex_total(d[p].0, k, 0);
        }
        assert forall|j: int| p <= j < d.len() implies lex_lt(k, #[trigger] d[j].0) by {
            if j > p {
                assert(lex_lt(d[p].0, d[j].0));
                lemma_lex_transitive(k, d[p].0, d[j].0, 0);
            }
        }
        assert forall|i: int, j: int| 0 <= i < j < r.len() implies lex_lt(
            #[trigger] r[i].0,
            #[trigger] r[j].0,
        ) by {
            if j < p {
                assert(r[i] == d[i] && r[j] == d[j]);
            } else if j == p {
                assert(r[i] == d[i]);
            } else if i == p {
                assert(r[j] == d[j - 1]);
            } else if i < p {
                assert(r[i] == d[i] && r[j] == d[j - 1]);
                assert(lex_lt(k, d[j - 1].0));
                lemma_lex_transitive(d[i].0, k, d[j - 1].0, 0);
            } else {
                assert(r[i] == d[i - 1] && r[j] == d[j - 1]);
            }
        }
        assert forall|j: int| 0 <= j < r.len() implies (#[trigger] r[j] == (k, v) || exists|i: int|
            0 <= i < d.len() && d[i] == r[j]) by {
            if j < p {
                assert(d[j] == r[j]);
            } else if j > p {
                assert(d[j - 1] == r[j]);
            }
        }
    }
}

/// No two entries share a key.
pub open spec fn keys_distinct(es: Seq<(Seq<u8>, Bencode)>) -> bool {
    forall|i: int, j: int| 0 <= i < j < es.len() ==> #[trigger] es[i].0 != #[trigger] es[j].0
}

/// Keys in strict order differ.
pub proof fn lemma_lex_lt_ne(a: Seq<u8>, b: Seq<u8>)
    ensures
        lex_lt(a, b) ==> a != b,
{
    lemma_lex_irreflexive(a, 0);
}

proof fn lemma_lex_asymmetric(a: Seq<u8>, b: Seq<u8>)
    ensures
        !(lex_lt(a, b) && lex_lt(b, a)),
{
    if lex_lt(a, b) && lex_lt(b, a) {
        lemma_lex_transitive(a, b, a, 0);
        lemma_lex_irreflexive(a, 0);
    }
}

/// Building a dictionary from entries with distinct keys, in any order,
/// gives ascending keys and exactly those entries.
pub proof fn lemma_dict_of_contents(es: Seq<(Seq<u8>, Bencode)>)
    requires
        keys_distinct(es),
    ensures
        keys_ascend(dict_of(es)),
        forall|x: (Seq<u8>, Bencode)| dict_of(es).contains(x) <==> es.contains(x),
    decreases es.len(),
{
    if es.len() == 0 {
        assert(dict_of(es) =~= Seq::<(Seq<u8>, Bencode)>::empty());
    } else {
        let el = es.drop_last();
        let e = es.last();
        assert(keys_distinct(el)) by {
            assert forall|i: int, j: int| 0 <= i < j < el.len() implies #[trigger] el[i].0
                != #[trigger] el[j].0 by {
                assert(el[i] == es[i] && el[j] == es[j]);
            }
        }
        lemma_dict_of_contents(el);
        let acc = dict_of(el);
        assert(dict_of(es) == dict_insert(acc, e.0, e.1));
        lemma_insert_keeps_order(acc, e.0, e.1);
        lemma_insert_pos(acc, e.0, 0);
        let p = insert_pos(acc, e.0, 0);
        if p < acc.len() && acc[p].0 == e.0 {
            assert(acc.contains(acc[p]));
            assert(el.contains(acc[p]));
            let i = choose|i: int| 0 <= i < el.len() && el[i] == acc[p];
            assert(es[i] == el[i]);
            assert(es[es.len() - 1] == e);
            assert(es[i].0 != es[es.len() - 1].0);
        }
        let r = acc.insert(p, e);
        assert(r == dict_insert(acc, e.0, e.1));
        assert forall|x: (Seq<u8>, Bencode)| r.contains(x) <==> es.contains(x) by {
            if r.contains(x) {
                let j = choose|j: int| 0 <= j < r.len() && r[j] == x;
                if j < p {
                    assert(r[j] == acc[j]);
                    assert(acc.contains(acc[j]));
                } else if j > p {
                    assert(r[j] == acc[j - 1]);
                    assert(acc.contains(acc[j - 1]));
                } else {
                    assert(es[es.len() - 1] == x);
                }
                if x != e {
                    assert(acc.contains(x));
                    assert(el.contains(x));
                    let i = choose|i: int| 0 <= i < el.len() && el[i] == x;
                    assert(es[i] == x);
                } else {
                    assert(es[es.len() - 1] == x);
                }
            }
            if es.contains(x) {
                let i = choose|i: int| 0 <= i < es.len() && es[i] == x;
                if i == es.len() - 1 {
                    assert(r[p] == x);
                } else {
                    assert(el[i] == x);
                    assert(el.contains(x));
                    assert(acc.contains(x));
                    let j = choose|j: int| 0 <= j < acc.len() && acc[j] == x;
                    if j < p {
                        assert(r[j] == x);
                    } else {
                        assert(r[j + 1] == x);
                    }
                }
            }
        }
    }
}

/// Two dictionaries with ascending keys and the same entries are equal.
pub proof fn lemma_sorted_unique(a: Seq<(Seq<u8>, Bencode)>, b: Seq<(Seq<u8>, Bencode)>)
    requires
        keys_ascend(a),
        keys_ascend(b),
        forall|x: (Seq<u8>, Bencode)| a.contains(x) <==> b.contains(x),
    ensures
        a == b,
    decreases a.len(),
{
    if a.len() == 0 {
        if b.len() > 0 {
            assert(b.contains(b[0]));
        }
        assert(a =~= b);
    } else {
        assert(a.contains(a[0]));
        assert(b.len() > 0);
        assert(b.contains(b[0]));
        let j = choose|j: int| 0 <= j < b.len() && b[j] == a[0];
        let i = choose|i: int| 0 <= i < a.len() && a[i] == b[0];
        if j > 0 && i > 0 {
            assert(lex_lt(b[0].0, b[j].0));
            assert(lex_lt(a[0].0, a[i].0));
            lemma_lex_asymmetric(a[0].0, b[0].0);
        }
        if j > 0 && i == 0 {
            assert(lex_lt(b[0].0, b[j].0));
            lemma_lex_irreflexive(a[0].0, 0);
        }
        if j == 0 && i > 0 {
            assert(lex_lt(a[0].0, a[i].0));
            lemma_lex_irreflexive(a[0].0, 0);
        }
        assert(a[0] == b[0]);
        let a2 = a.drop_first();
        let b2 = b.drop_first();
        assert forall|x: (Seq<u8>, Bencode)| a2.contains(x) <==> b2.contains(x) by {
            if a2.contains(x) {
                let k = choose|k: int| 0 <= k < a2.len() && a2[k] == x;
                assert(a[k + 1] == x);
                assert(a.contains(x));
                let m = choose|m: int| 0 <= m < b.len() && b[m] == x;
                if m == 0 {
                    assert(lex_lt(a[0].0, a[k + 1].0));
                    lemma_lex_irreflexive(a[0].0, 0);
                }
                assert(b2[m - 1] == x);
            }
            if b2.contains(x) {
                let k = choose|k: int| 0 <= k < b2.len() && b2[k] == x;
                assert(b[k + 1] == x);
                assert(b.contains(x));
                let m = choose|m: int| 0 <= m < a.len() && a[m] == x;
                if m == 0 {
                    assert(lex_lt(b[0].0, b[k + 1].0));
                    lemma_lex_irreflexive(b[0].0, 0);
                }
                assert(a2[m - 1] == x);
            }
        }
        assert(keys_ascend(a2)) by {
            assert forall|p: int, q: int| 0 <= p < q < a2.len() implies lex_lt(
                #[trigger] a2[p].0,
                #[trigger] a2[q].0,
            ) by {
                assert(a2[p] == a[p + 1] && a2[q] == a[q + 1]);
            }
        }
        assert(keys_ascend(b2)) by {
            assert forall|p: int, q: int| 0 <= p < q < b2.len() implies lex_lt(
                #[trigger] b2[p].0,
                #[trigger] b2[q].0,
            ) by {
                assert(b2[p] == b[p + 1] && b2[q] == b[q + 1]);
            }
        }
        lemma_sorted_unique(a2, b2);
        assert(a =~= seq![a[0]] + a2);
        assert(b =~= seq![b[0]] + b2);
    }
}

/// Entries with distinct keys build the same dictionary in whatever order
/// they come: the one that holds them with keys ascending.
pub proof fn key_order_irrelevant(es: Seq<(Seq<u8>, Bencode)>, d: Seq<(Seq<u8>, Bencode)>)
    requires
        keys_distinct(es),
        keys_ascend(d),
        forall|x: (Seq<u8>, Bencode)| es.contains(x) <==> d.contains(x),
    ensures
        dict_of(es) == d,
{
    lemma_dict_of_contents(es);
    lemma_sorted_unique(dict_of(es), d);
}

} // verus!
