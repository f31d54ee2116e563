use vstd::prelude::*;

use crate::error::{
    bad_int_message, bad_key_message, bad_length_message, overrun_text, NO_COLON, NO_DICT_END,
    NO_INT_END, NO_LIST_END, NO_VALUE,
};
use crate::value::Bencode;

verus! {

/// Kinds of decoding failure.
pub enum Fault {
    UnknownValue(u8),
    /// Malformed input, with the message that describes it.
    DataFormat(Seq<char>),
    UnexpectedEnd,
}

pub open spec fn is_digit(c: u8) -> bool {
    48 <= c <= 57
}

pub open spec fn all_digits(t: Seq<u8>) -> bool {
    forall|j: int| 0 <= j < t.len() ==> is_digit(#[trigger] t[j])
}

/// Index of the first non-digit at or after `i`, or the length.
pub open spec fn digits_end(s: Seq<u8>, i: int) -> int
    decreases s.len() - i,
{
    if 0 <= i < s.len() && is_digit(s[i]) {
        digits_end(s, i + 1)
    } else {
        i
    }
}

/// Index of the first byte `b` at or after `i`, or the length.
pub open spec fn find_byte(s: Seq<u8>, i: int, b: u8) -> int
    decreases s.len() - i,
{
    if 0 <= i < s.len() && s[i] != b {
        find_byte(s, i + 1, b)
    } else {
        i
    }
}

/// The number written by a string of decimal digits.
pub open spec fn digits_value(t: Seq<u8>) -> nat
    decreases t.len(),
{
    if t.len() == 0 {
        0
    } else {
        digits_value(t.drop_last()) * 10 + (t.last() as int - 48) as nat
    }
}

/// The digits after an optional leading minus sign.
pub open spec fn magnitude(t: Seq<u8>) -> Seq<u8> {
    if t.len() > 0 && t[0] == 45 {
        t.drop_first()
    } else {
        t
    }
}

pub open spec fn int_token_value(t: Seq<u8>) -> int {
    if t.len() > 0 && t[0] == 45 {
        -(digits_value(t.drop_first()) as int)
    } else {
        digits_value(t) as int
    }
}

/// A canonical integer literal that fits 64 signed bits: no sign but a
/// leading minus, no leading zero, no negative zero.
pub open spec fn int_token_ok(t: Seq<u8>) -> bool {
    let m = magnitude(t);
    &&& m.len() > 0
    &&& all_digits(m)
    &&& m[0] == 48 ==> t.len() == 1
    &&& i64::MIN <= int_token_value(t) <= i64::MAX
}

/// Byte-wise lexicographic order, comparing from index `i` on.
pub open spec fn lex_lt_from(a: Seq<u8>, b: Seq<u8>, i: int) -> bool
    decreases a.len() - i,
{
    if i < 0 || i >= a.len() {
        i < b.len()
    } else if i >= b.len() {
        false
    } else if a[i] != b[i] {
        a[i] < b[i]
    } else {
        lex_lt_from(a, b, i + 1)
    }
}

pub open spec fn lex_lt(a: Seq<u8>, b: Seq<u8>) -> bool {
    lex_lt_from(a, b, 0)
}

/// Where a key goes in a dictionary: past the entries with smaller keys.
pub open spec fn insert_pos(d: Seq<(Seq<u8>, Bencode)>, k: Seq<u8>, i: int) -> int
    decreases d.len() - i,
{
    if 0 <= i < d.len() && lex_lt(d[i].0, k) {
        insert_pos(d, k, i + 1)
    } else {
        i
    }
}

/// Sets key `k` to `v`, replacing an entry with an equal key.
pub open spec fn dict_insert(d: Seq<(Seq<u8>, Bencode)>, k: Seq<u8>, v: Bencode) -> Seq<
    (Seq<u8>, Bencode),
> {
    let p = insert_pos(d, k, 0);
    if p < d.len() && d[p].0 == k {
        d.update(p, (k, v))
    } else {
        d.insert(p, (k, v))
    }
}

/// The dictionary built by inserting entries in input order; later keys win.
pub open spec fn dict_of(es: Seq<(Seq<u8>, Bencode)>) -> Seq<(Seq<u8>, Bencode)> {
    es.fold_left(Seq::empty(), |acc: Seq<(Seq<u8>, Bencode)>, e: (Seq<u8>, Bencode)| dict_insert(acc, e.0, e.1))
}

pub open spec fn parse_bytes(s: Seq<u8>) -> Result<(Bencode, nat), Fault> {
    let k = digits_end(s, 0);
    if k >= s.len() || s[k] != 58 {
        let c = find_byte(s, k, 58);
        if c >= s.len() {
            Err(Fault::DataFormat(NO_COLON@))
        } else {
            Err(Fault::DataFormat(bad_length_message(s.subrange(0, c))))
        }
    } else if digits_value(s.subrange(0, k)) > s.len() - k - 1 {
        if digits_value(s.subrange(0, k)) <= u64::MAX {
            Err(Fault::DataFormat(overrun_text(digits_value(s.subrange(0, k)), (s.len() - k - 1) as nat)))
        } else {
            Err(Fault::DataFormat(bad_length_message(s.subrange(0, k))))
        }
    } else {
        let n = digits_value(s.subrange(0, k)) as int;
        Ok((Bencode::Bytes(s.subrange(k + 1, k + 1 + n)), (k + 1 + n) as nat))
    }
}

pub open spec fn parse_int(s: Seq<u8>) -> Result<(Bencode, nat), Fault> {
    let e = find_byte(s, 1, 101);
    if e >= s.len() {
        Err(Fault::DataFormat(NO_INT_END@))
    } else if !int_token_ok(s.subrange(1, e)) {
        Err(Fault::DataFormat(bad_int_message(s.subrange(1, e))))
    } else {
        Ok((Bencode::Int(int_token_value(s.subrange(1, e))), (e + 1) as nat))
    }
}

/// Decodes one value at the start of `s`: the value and how many bytes it takes.
pub open spec fn parse(s: Seq<u8>) -> Result<(Bencode, nat), Fault>
    decreases s.len(), 0nat,
{
    if s.len() == 0 {
        Err(Fault::UnexpectedEnd)
    } else if is_digit(s[0]) {
        parse_bytes(s)
    } else if s[0] == 105 {
        parse_int(s)
    } else if s[0] == 108 {
        match parse_items(s.drop_first()) {
            Ok((l, n)) => Ok((Bencode::List(l), n + 1)),
            Err(f) => Err(f),
        }
    } else if s[0] == 100 {
        match parse_entries(s.drop_first()) {
            Ok((es, n)) => Ok((Bencode::Dict(dict_of(es)), n + 1)),
            Err(f) => Err(f),
        }
    } else {
        Err(Fault::UnknownValue(s[0]))
    }
}

/// Decodes list items up to and including the terminating `e`.
pub open spec fn parse_items(t: Seq<u8>) -> Result<(Seq<Bencode>, nat), Fault>
    decreases t.len(), 1nat,
{
    if t.len() == 0 {
        Err(Fault::DataFormat(NO_LIST_END@))
    } else if t[0] == 101 {
        Ok((Seq::empty(), 1))
    } else {
        match parse(t) {
            Err(f) => Err(f),
            Ok((v, n)) => if 0 < n <= t.len() {
                match parse_items(t.subrange(n as int, t.len() as int)) {
                    Ok((l, m)) => Ok((seq![v] + l, n + m)),
                    Err(f) => Err(f),
                }
            } else {
                Err(Fault::DataFormat(NO_LIST_END@))
            },
        }
    }
}

/// Decodes dictionary entries, in input order, up to and including the
/// terminating `e`.
pub open spec fn parse_entries(t: Seq<u8>) -> Result<(Seq<(Seq<u8>, Bencode)>, nat), Fault>
    decreases t.len(), 1nat,
{
    if t.len() == 0 {
        Err(Fault::DataFormat(NO_DICT_END@))
    } else if t[0] == 101 {
        Ok((Seq::empty(), 1))
    } else {
        match parse(t) {
            Err(f) => Err(f),
            Ok((k, n)) => if !(0 < n <= t.len()) {
                Err(Fault::DataFormat(NO_DICT_END@))
            } else if !(k is Bytes) {
                Err(Fault::DataFormat(bad_key_message(t.subrange(0, n as int))))
            } else if n == t.len() {
                Err(Fault::DataFormat(NO_VALUE@))
            } else {
                let t2 = t.subrange(n as int, t.len() as int);
                match parse(t2) {
                    Err(f) => Err(f),
                    Ok((v, m)) => if 0 < m <= t2.len() {
                        match parse_entries(t2.subrange(m as int, t2.len() as int)) {
                            Ok((es, r)) => Ok((seq![(k->Bytes_0, v)] + es, n + m + r)),
                            Err(f) => Err(f),
                        }
                    } else {
                        Err(Fault::DataFormat(NO_DICT_END@))
                    },
                }
            },
        }
    }
}

/// Decimal digits of a natural number, without leading zeros.
pub open spec fn nat_text(n: nat) -> Seq<u8>
    decreases n,
{
    if n < 10 {
        seq![(48 + n) as u8]
    } else {
        nat_text(n / 10) + seq![(48 + n % 10) as u8]
    }
}

pub open spec fn int_text(n: int) -> Seq<u8> {
    if n < 0 {
        seq![45u8] + nat_text((-n) as nat)
    } else {
        nat_text(n as nat)
    }
}

pub open spec fn enc_bytes(b: Seq<u8>) -> Seq<u8> {
    nat_text(b.len()) + seq![58u8] + b
}

/// The canonical encoding of a value.
pub open spec fn enc(v: Bencode) -> Seq<u8>
    decreases v,
{
    match v {
        Bencode::Bytes(b) => enc_bytes(b),
        Bencode::Int(n) => seq![105u8] + int_text(n) + seq![101u8],
        Bencode::List(l) => seq![108u8] + list_parts(l).flatten() + seq![101u8],
        Bencode::Dict(d) => seq![100u8] + dict_parts(d).flatten() + seq![101u8],
    }
}

/// The encodings of list items, one per item.
pub open spec fn list_parts(l: Seq<Bencode>) -> Seq<Seq<u8>>
    decreases l,
{
    Seq::new(
        l.len(),
        |i: int|
            if 0 <= i < l.len() {
                enc(l[i])
            } else {
                Seq::empty()
            },
    )
}

/// The encodings of dictionary entries, key then value, one per entry.
pub open spec fn dict_parts(d: Seq<(Seq<u8>, Bencode)>) -> Seq<Seq<u8>>
    decreases d,
{
    Seq::new(
        d.len(),
        |i: int|
            if 0 <= i < d.len() {
                enc_bytes(d[i].0) + enc(d[i].1)
            } else {
                Seq::empty()
            },
    )
}

/// Values that have a canonical encoding: integers fit 64 signed bits and
/// dictionary keys strictly ascend.
pub open spec fn canonical(v: Bencode) -> bool
    decreases v,
{
    match v {
        Bencode::Bytes(_) => true,
        Bencode::Int(n) => i64::MIN <= n <= i64::MAX,
        Bencode::List(l) => forall|i: int| 0 <= i < l.len() ==> canonical(#[trigger] l[i]),
        Bencode::Dict(d) => {
            &&& forall|i: int| 0 <= i < d.len() ==> canonical(#[trigger] d[i].1)
            &&& forall|i: int, j: int| 0 <= i < j < d.len() ==> lex_lt(#[trigger] d[i].0, #[trigger] d[j].0)
        },
    }
}

} // verus!
