use vstd::prelude::*;

use crate::grammar::{dict_insert, insert_pos, lex_lt, lex_lt_from};
use crate::value::{dict_model, entry_model, Value};

verus! {

/// Whether `a` comes before `b` in byte-wise lexicographic order.
pub fn lex_less(a: &[u8], b: &[u8]) -> (r: bool)
    ensures
        r == lex_lt(a@, b@),
{
    let mut i: usize = 0;
    while i < a.len() && i < b.len() && a[i] == b[i]
        invariant
            i <= a@.len(),
            i <= b@.len(),
            lex_lt_from(a@, b@, 0) == lex_lt_from(a@, b@, i as int),
        decreases a@.len() - i,
    {
        i = i + 1;
    }
    if i >= a.len() {
        i < b.len()
    } else if i >= b.len() {
        false
    } else {
        a[i] < b[i]
    }
}

pub fn bytes_equal(a: &[u8], b: &[u8]) -> (r: bool)
    ensures
        r == (a@ == b@),
{
    if a.len() != b.len() {
        return false;
    }
    let mut i: usize = 0;
    while i < a.len()
        invariant
            i <= a@.len(),
            a@.len() == b@.len(),
            forall|j: int| 0 <= j < i ==> a@[j] == b@[j],
        decreases a@.len() - i,
    {
        if a[i] != b[i] {
            return false;
        }
        i = i + 1;
    }
    assert(a@ =~= b@);
    true
}

/// Sets key `k` to `v`, keeping the keys in ascending order; an entry with
/// an equal key is replaced.
pub fn insert_entry(d: &mut Vec<(Vec<u8>, Value)>, k: Vec<u8>, v: Value)
    ensures
        dict_model(final(d)@) == dict_insert(dict_model(old(d)@), k@, v.model()),
{
    let ghost m = dict_model(d@);
    let mut i: usize = 0;
    while i < d.len() && lex_less(d[i].0.as_slice(), k.as_slice())
        invariant
            i <= d@.len(),
            m == dict_model(d@),
            insert_pos(m, k@, 0) == insert_pos(m, k@, i as int),
        decreases d@.len() - i,
    {
        i = i + 1;
    }
    assert(insert_pos(m, k@, i as int) == i);
    let ghost e = (k@, v.model());
    if i < d.len() && bytes_equal(d[i].0.as_slice(), k.as_slice()) {
        d.remove(i);
        d.insert(i, (k, v));
        assert(dict_model(d@) =~= m.update(i as int, e));
    } else {
        d.insert(i, (k, v));
        assert(dict_model(d@) =~= m.insert(i as int, e));
    }
}

} // verus!
