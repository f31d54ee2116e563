use vstd::prelude::*;
use vstd::slice::{slice_subrange, slice_to_vec};

use crate::dict::insert_entry;
use crate::digits::{digits_upto, find_from, int_from_token, scan_digits};
use crate::error::{
    data_format, overrun_message, quote, BAD_INT_PREFIX, BAD_INT_SUFFIX, BAD_KEY, BAD_KEY_PREFIX,
    BAD_KEY_SUFFIX, BAD_LENGTH, BAD_LENGTH_PREFIX, BAD_LENGTH_SUFFIX, INT_NOT_UTF8, NEGATIVE_ZERO,
    NO_COLON, NO_DICT_END, NO_INT_END, NO_LIST_END, NO_VALUE,
};
pub use crate::error::BencodeError;
use crate::grammar::{
    canonical, dict_of, is_digit, parse, parse_bytes, parse_entries, parse_int, parse_items, Fault,
};
use crate::order::{keys_ascend, lemma_insert_keeps_order};
use crate::value::{dict_model, lemma_dict_model, lemma_list_model, list_model, Bencode, Value};

verus! {

pub open spec fn value_outcome(r: Result<(Value, usize), BencodeError>) -> Result<
    (Bencode, nat),
    Fault,
> {
    match r {
        Ok((v, n)) => Ok((v.model(), n as nat)),
        Err(e) => Err(e.fault()),
    }
}

pub open spec fn items_outcome(r: Result<(Vec<Value>, usize), BencodeError>) -> Result<
    (Seq<Bencode>, nat),
    Fault,
> {
    match r {
        Ok((l, n)) => Ok((list_model(l@), n as nat)),
        Err(e) => Err(e.fault()),
    }
}

pub open spec fn prepend_items(
    l0: Seq<Bencode>,
    off: nat,
    r: Result<(Seq<Bencode>, nat), Fault>,
) -> Result<(Seq<Bencode>, nat), Fault> {
    match r {
        Ok((l, n)) => Ok((l0 + l, off + n)),
        Err(f) => Err(f),
    }
}

pub open spec fn prepend_entries(
    es0: Seq<(Seq<u8>, Bencode)>,
    off: nat,
    r: Result<(Seq<(Seq<u8>, Bencode)>, nat), Fault>,
) -> Result<(Seq<(Seq<u8>, Bencode)>, nat), Fault> {
    match r {
        Ok((es, n)) => Ok((es0 + es, off + n)),
        Err(f) => Err(f),
    }
}

/// The dictionary that the entries decoded from `t` build, and the bytes taken.
pub open spec fn entries_outcome(r: Result<(Vec<(Vec<u8>, Value)>, usize), BencodeError>, t: Seq<u8>) -> bool {
    match parse_entries(t) {
        Ok((es, n)) => r matches Ok((d, m)) && dict_model(d@) == dict_of(es) && m == n,
        Err(f) => r matches Err(e) && e.fault() == f,
    }
}

fn decode_bytes(t: &[u8]) -> (r: Result<(Value, usize), BencodeError>)
    requires
        t@.len() > 0,
        is_digit(t@[0]),
    ensures
        value_outcome(r) == parse_bytes(t@),
        r matches Ok((_, n)) ==> 0 < n <= t@.len(),
{
    let k = scan_digits(t, 0);
    if k >= t.len() || t[k] != 58 {
        let c = find_from(t, k, 58);
        if c >= t.len() {
            return Err(data_format(NO_COLON));
        }
        let token = slice_subrange(t, 0, c);
        return Err(
            BencodeError::DataFormat(
                quote(BAD_LENGTH_PREFIX, token, BAD_LENGTH_SUFFIX, BAD_LENGTH),
            ),
        );
    }
    let digits = slice_subrange(t, 0, k);
    assert(forall|j: int| 0 <= j < digits@.len() ==> is_digit(#[trigger] digits@[j])) by {
        assert(forall|j: int| 0 <= j < k ==> is_digit(#[trigger] t@[j]));
    }
    let available = t.len() - k - 1;
    match digits_upto(digits, available as u64) {
        None => {
            match digits_upto(digits, u64::MAX) {
                Some(declared) => Err(BencodeError::DataFormat(overrun_message(declared, available))),
                None => Err(
                    BencodeError::DataFormat(
                        quote(BAD_LENGTH_PREFIX, digits, BAD_LENGTH_SUFFIX, BAD_LENGTH),
                    ),
                ),
            }
        },
        Some(n) => {
            let n = n as usize;
            let content = slice_to_vec(slice_subrange(t, k + 1, k + 1 + n));
            Ok((Value::Bytes(content), k + 1 + n))
        },
    }
}

fn decode_int(t: &[u8]) -> (r: Result<(Value, usize), BencodeError>)
    requires
        t@.len() > 0,
        t@[0] == 105,
    ensures
        value_outcome(r) == parse_int(t@),
        r matches Ok((_, n)) ==> 0 < n <= t@.len(),
{
    let e = find_from(t, 1, 101);
    if e >= t.len() {
        return Err(data_format(NO_INT_END));
    }
    let token = slice_subrange(t, 1, e);
    match int_from_token(token) {
        Some(n) => Ok((Value::Int(n), e + 1)),
        None => {
            if token.len() == 2 && token[0] == 45 && token[1] == 48 {
                assert(token@ =~= seq![45u8, 48]);
                Err(data_format(NEGATIVE_ZERO))
            } else {
                Err(BencodeError::DataFormat(quote(BAD_INT_PREFIX, token, BAD_INT_SUFFIX, INT_NOT_UTF8)))
            }
        },
    }
}

/// Decodes the value at the start of `encoded_value` and returns it with the
/// bytes that follow it.
pub fn decode_bencoded_value(encoded_value: &[u8]) -> (r: Result<(Value, &[u8]), BencodeError>)
    ensures
        match r {
            Ok((v, rest)) => parse(encoded_value@) matches Ok((m, n)) && m == v.model()
                && rest@ == encoded_value@.subrange(n as int, encoded_value@.len() as int),
            Err(e) => parse(encoded_value@) == Err::<(Bencode, nat), Fault>(e.fault()),
        },
        r matches Ok((v, _)) ==> canonical(v.model()),
{
    match decode(encoded_value) {
        Ok((v, n)) => Ok((v, slice_subrange(encoded_value, n, encoded_value.len()))),
        Err(e) => Err(e),
    }
}

/// Decodes one value at the start of `t`: the value and how many bytes it takes.
pub fn decode(t: &[u8]) -> (r: Result<(Value, usize), BencodeError>)
    ensures
        value_outcome(r) == parse(t@),
        r matches Ok((_, n)) ==> 0 < n <= t@.len(),
        r matches Ok((v, _)) ==> canonical(v.model()),
    decreases t@.len(), 0nat,
{
    if t.len() == 0 {
        return Err(BencodeError::UnexpectedEnd);
    }
    let c = t[0];
    if 48 <= c && c <= 57 {
        decode_bytes(t)
    } else if c == 105 {
        decode_int(t)
    } else if c == 108 {
        let rest = slice_subrange(t, 1, t.len());
        assert(rest@ =~= t@.drop_first());
        match decode_items(rest) {
            Ok((l, n)) => {
                proof {
                    lemma_list_model(l);
                }
                Ok((Value::List(l), n + 1))
            },
            Err(e) => Err(e),
        }
    } else if c == 100 {
        let rest = slice_subrange(t, 1, t.len());
        assert(rest@ =~= t@.drop_first());
        match decode_entries(rest) {
            Ok((d, n)) => {
                proof {
                    lemma_dict_model(d);
                }
                Ok((Value::Dict(d), n + 1))
            },
            Err(e) => Err(e),
        }
    } else {
        Err(BencodeError::UnknownValue(c))
    }
}

/// Decodes list items up to and including the terminating `e`.
fn decode_items(t: &[u8]) -> (r: Result<(Vec<Value>, usize), BencodeError>)
    ensures
        items_outcome(r) == parse_items(t@),
        r matches Ok((_, n)) ==> 0 < n <= t@.len(),
        r matches Ok((l, _)) ==> forall|i: int| 0 <= i < l@.len() ==> canonical(#[trigger] l@[i].model()),
    decreases t@.len(), 1nat,
{
    let mut items: Vec<Value> = Vec::new();
    let mut p: usize = 0;
    assert(t@.subrange(0, t@.len() as int) =~= t@);
    assert(list_model(items@) =~= Seq::<Bencode>::empty());
    loop
        invariant
            p <= t@.len(),
            forall|i: int| 0 <= i < items@.len() ==> canonical(#[trigger] items@[i].model()),
            parse_items(t@) == prepend_items(
                list_model(items@),
                p as nat,
                parse_items(t@.subrange(p as int, t@.len() as int)),
            ),
        decreases t@.len() - p,
    {
        let ghost u = t@.subrange(p as int, t@.len() as int);
        if p >= t.len() {
            return Err(data_format(NO_LIST_END));
        }
        if t[p] == 101 {
            assert(list_model(items@) + Seq::<Bencode>::empty() =~= list_model(items@));
            return Ok((items, p + 1));
        }
        let rest = slice_subrange(t, p, t.len());
        match decode(rest) {
            Err(e) => {
                return Err(e);
            },
            Ok((v, n)) => {
                let ghost u3 = t@.subrange(p + n, t@.len() as int);
                assert(u.subrange(n as int, u.len() as int) =~= u3);
                let ghost l0 = list_model(items@);
                let ghost vm = v.model();
                items.push(v);
                assert(list_model(items@) =~= l0.push(vm));
                proof {
                    match parse_items(u3) {
                        Ok((l, m)) => {
                            assert(l0 + (seq![vm] + l) =~= l0.push(vm) + l);
                        },
                        Err(_) => {},
                    }
                }
                p = p + n;
            },
        }
    }
}

/// Decodes dictionary entries up to and including the terminating `e`, and
/// builds the dictionary in ascending key order; a later equal key wins.
fn decode_entries(t: &[u8]) -> (r: Result<(Vec<(Vec<u8>, Value)>, usize), BencodeError>)
    ensures
        entries_outcome(r, t@),
        r matches Ok((_, n)) ==> 0 < n <= t@.len(),
        r matches Ok((d, _)) ==> keys_ascend(dict_model(d@)) && forall|i: int|
            0 <= i < d@.len() ==> canonical(#[trigger] dict_model(d@)[i].1),
    decreases t@.len(), 1nat,
{
    let mut d: Vec<(Vec<u8>, Value)> = Vec::new();
    let mut p: usize = 0;
    let ghost mut es0: Seq<(Seq<u8>, Bencode)> = Seq::empty();
    assert(t@.subrange(0, t@.len() as int) =~= t@);
    assert(dict_model(d@) =~= dict_of(es0));
    loop
        invariant
            p <= t@.len(),
            dict_model(d@) == dict_of(es0),
            keys_ascend(dict_model(d@)),
            forall|i: int| 0 <= i < d@.len() ==> canonical(#[trigger] dict_model(d@)[i].1),
            parse_entries(t@) == prepend_entries(
                es0,
                p as nat,
                parse_entries(t@.subrange(p as int, t@.len() as int)),
            ),
        decreases t@.len() - p,
    {
        let ghost u = t@.subrange(p as int, t@.len() as int);
        if p >= t.len() {
            return Err(data_format(NO_DICT_END));
        }
        if t[p] == 101 {
            assert(es0 + Seq::<(Seq<u8>, Bencode)>::empty() =~= es0);
            return Ok((d, p + 1));
        }
        let rest = slice_subrange(t, p, t.len());
        let (key, n) = match decode(rest) {
            Err(e) => {
                return Err(e);
            },
            Ok(kn) => kn,
        };
        let kb = match key {
            Value::Bytes(kb) => kb,
            _ => {
                let token = slice_subrange(t, p, p + n);
                assert(token@ =~= u.subrange(0, n as int));
                return Err(
                    BencodeError::DataFormat(quote(BAD_KEY_PREFIX, token, BAD_KEY_SUFFIX, BAD_KEY)),
                );
            },
        };
        if p + n >= t.len() {
            return Err(data_format(NO_VALUE));
        }
        let ghost u2 = t@.subrange(p + n, t@.len() as int);
        assert(u.subrange(n as int, u.len() as int) =~= u2);
        let rest2 = slice_subrange(t, p + n, t.len());
        let (val, m) = match decode(rest2) {
            Err(e) => {
                return Err(e);
            },
            Ok(vm) => vm,
        };
        let ghost u3 = t@.subrange(p + n + m, t@.len() as int);
        assert(u2.subrange(m as int, u2.len() as int) =~= u3);
        let ghost e = (kb@, val.model());
        let ghost before = dict_model(d@);
        proof {
            lemma_insert_keeps_order(before, kb@, val.model());
        }
        insert_entry(&mut d, kb, val);
        proof {
            assert forall|i: int| 0 <= i < d@.len() implies canonical(#[trigger] dict_model(d@)[i].1) by {
                let x = dict_model(d@)[i];
                if x != e {
                    let j = choose|j: int| 0 <= j < before.len() && before[j] == x;
                    assert(canonical(before[j].1));
                }
            }
            let es1 = es0.push(e);
            assert(es1.drop_last() =~= es0);
            match parse_entries(u3) {
                Ok((es, r)) => {
                    assert(es0 + (seq![e] + es) =~= es1 + es);
                },
                Err(_) => {},
            }
            es0 = es1;
        }
        p = p + n + m;
    }
}

} // verus!
