use vstd::prelude::*;

use crate::decode::{prepend_entries, prepend_items};
use crate::grammar::{
    all_digits, canonical, dict_insert, dict_of, dict_parts, digits_end, digits_value, enc,
    enc_bytes, find_byte, insert_pos, int_text, int_token_ok, int_token_value, is_digit, lex_lt,
    list_parts, magnitude, nat_text, parse, parse_entries, parse_items, Fault,
};
use crate::error::{overrun_text, NO_DICT_END, NO_LIST_END};
use crate::order::{key_order_irrelevant, keys_ascend, keys_distinct, lemma_dict_of_contents,
    lemma_sorted_unique,
};
use crate::value::Bencode;

verus! {

proof fn lemma_nat_text(n: nat)
    ensures
        nat_text(n).len() >= 1,
        all_digits(nat_text(n)),
        digits_value(nat_text(n)) == n,
        nat_text(n)[0] == 48 ==> n == 0,
    decreases n,
{
    let t = nat_text(n);
    if n < 10 {
        assert(t.drop_last() =~= Seq::<u8>::empty());
        assert(digits_value(t.drop_last()) == 0);
        assert(t.last() == 48 + n);
    } else {
        lemma_nat_text(n / 10);
        assert(t.drop_last() =~= nat_text(n / 10));
        assert(t.last() == 48 + n % 10);
        assert(n == (n / 10) * 10 + n % 10);
        assert(t[0] == nat_text(n / 10)[0]);
        assert forall|j: int| 0 <= j < t.len() implies is_digit(#[trigger] t[j]) by {
            if j < t.len() - 1 {
                assert(t[j] == nat_text(n / 10)[j]);
            }
        }
    }
}

proof fn lemma_digits_end(s: Seq<u8>, i: int, k: int)
    requires
        0 <= i <= k <= s.len(),
        forall|j: int| i <= j < k ==> is_digit(#[trigger] s[j]),
        k == s.len() || !is_digit(s[k]),
    ensures
        digits_end(s, i) == k,
    decreases k - i,
{
    if i < k {
        lemma_digits_end(s, i + 1, k);
    }
}

proof fn lemma_find_byte(s: Seq<u8>, i: int, k: int, b: u8)
    requires
        0 <= i <= k < s.len(),
        forall|j: int| i <= j < k ==> #[trigger] s[j] != b,
        s[k] == b,
    ensures
        find_byte(s, i, b) == k,
    decreases k - i,
{
    if i < k {
        lemma_find_byte(s, i + 1, k, b);
    }
}

proof fn lemma_parse_bytes(b: Seq<u8>, rest: Seq<u8>)
    ensures
        parse(enc_bytes(b) + rest) == Ok::<(Bencode, nat), Fault>(
            (Bencode::Bytes(b), enc_bytes(b).len()),
        ),
{
    let d = nat_text(b.len());
    lemma_nat_text(b.len());
    let s = enc_bytes(b) + rest;
    let k = d.len() as int;
    assert(s =~= d + (seq![58u8] + (b + rest)));
    assert(forall|j: int| 0 <= j < k ==> s[j] == #[trigger] d[j]);
    assert(is_digit(s[0]));
    lemma_digits_end(s, 0, k);
    assert(s.subrange(0, k) =~= d);
    assert(s.subrange(k + 1, k + 1 + b.len()) =~= b);
}

/// A length, then a colon and fewer bytes than it names, do not decode: the
/// input is malformed, and the message gives the declared length and the
/// number of bytes that remain.
pub proof fn short_byte_string_fails(n: nat, content: Seq<u8>)
    requires
        content.len() < n <= u64::MAX,
    ensures
        parse(nat_text(n) + seq![58u8] + content) == Err::<(Bencode, nat), Fault>(
            Fault::DataFormat(overrun_text(n, content.len())),
        ),
{
    let d = nat_text(n);
    lemma_nat_text(n);
    let s = nat_text(n) + seq![58u8] + content;
    let k = d.len() as int;
    assert(forall|j: int| 0 <= j < k ==> s[j] == #[trigger] d[j]);
    assert(is_digit(s[0]));
    lemma_digits_end(s, 0, k);
    assert(s.subrange(0, k) =~= d);
    assert(s.len() - k - 1 == content.len());
}

proof fn lemma_parse_int(n: int, rest: Seq<u8>)
    requires
        i64::MIN <= n <= i64::MAX,
    ensures
        parse(enc(Bencode::Int(n)) + rest) == Ok::<(Bencode, nat), Fault>(
            (Bencode::Int(n), enc(Bencode::Int(n)).len()),
        ),
{
    let t = int_text(n);
    let s = enc(Bencode::Int(n)) + rest;
    let tl = t.len() as int;
    assert(s =~= seq![105u8] + (t + (seq![101u8] + rest)));
    if n < 0 {
        lemma_nat_text((-n) as nat);
        assert(t.drop_first() =~= nat_text((-n) as nat));
        assert(forall|j: int| 1 <= j < t.len() ==> t[j] == #[trigger] nat_text((-n) as nat)[j - 1]);
    } else {
        lemma_nat_text(n as nat);
    }
    assert(magnitude(t) =~= nat_text(if n < 0 { -n } else { n } as nat));
    assert forall|j: int| 1 <= j < 1 + tl implies #[trigger] s[j] != 101 by {
        assert(s[j] == t[j - 1]);
        if n < 0 && j > 1 {
            assert(is_digit(nat_text((-n) as nat)[j - 2]));
        }
        if n >= 0 {
            assert(is_digit(t[j - 1]));
        }
    }
    lemma_find_byte(s, 1, 1 + tl, 101);
    assert(s.subrange(1, 1 + tl) =~= t);
    assert(int_token_ok(t));
    assert(int_token_value(t) == n);
}

proof fn lemma_enc_first(v: Bencode)
    ensures
        enc(v).len() > 0,
        enc(v)[0] != 101,
{
    match v {
        Bencode::Bytes(b) => {
            lemma_nat_text(b.len());
            assert(enc(v)[0] == nat_text(b.len())[0]);
        },
        _ => {},
    }
}

proof fn lemma_items(l: Seq<Bencode>, t: Seq<u8>)
    requires
        forall|j: int, r: Seq<u8>|
            0 <= j < l.len() ==> #[trigger] parse(enc(l[j]) + r) == Ok::<(Bencode, nat), Fault>(
                (l[j], enc(l[j]).len()),
            ),
    ensures
        parse_items(list_parts(l).flatten() + t) == prepend_items(
            l,
            list_parts(l).flatten().len(),
            parse_items(t),
        ),
    decreases l.len(),
{
    let f = list_parts(l).flatten();
    if l.len() == 0 {
        assert(f =~= Seq::<u8>::empty());
        assert(f + t =~= t);
        match parse_items(t) {
            Ok((x, m)) => {
                assert(l + x =~= x);
            },
            Err(_) => {},
        }
    } else {
        let l2 = l.drop_first();
        assert(list_parts(l).drop_first() =~= list_parts(l2));
        let f2 = list_parts(l2).flatten();
        assert forall|j: int, r: Seq<u8>|
            0 <= j < l2.len() implies #[trigger] parse(enc(l2[j]) + r) == Ok::<
                (Bencode, nat),
                Fault,
            >((l2[j], enc(l2[j]).len())) by {
            assert(l2[j] == l[j + 1]);
            assert(parse(enc(l[j + 1]) + r) == Ok::<(Bencode, nat), Fault>(
                (l[j + 1], enc(l[j + 1]).len()),
            ));
        }
        lemma_items(l2, t);
        lemma_enc_first(l[0]);
        let e0 = enc(l[0]);
        let s = f + t;
        assert(s =~= e0 + (f2 + t));
        assert(parse(e0 + (f2 + t)) == Ok::<(Bencode, nat), Fault>((l[0], e0.len())));
        assert(s.subrange(e0.len() as int, s.len() as int) =~= f2 + t);
        match parse_items(t) {
            Ok((x, m)) => {
                assert(seq![l[0]] + (l2 + x) =~= l + x);
            },
            Err(_) => {},
        }
    }
}

proof fn lemma_entries(d: Seq<(Seq<u8>, Bencode)>, t: Seq<u8>)
    requires
        forall|j: int, r: Seq<u8>|
            0 <= j < d.len() ==> #[trigger] parse(enc(d[j].1) + r) == Ok::<(Bencode, nat), Fault>(
                (d[j].1, enc(d[j].1).len()),
            ),
    ensures
        parse_entries(dict_parts(d).flatten() + t) == prepend_entries(
            d,
            dict_parts(d).flatten().len(),
            parse_entries(t),
        ),
    decreases d.len(),
{
    let f = dict_parts(d).flatten();
    if d.len() == 0 {
        assert(f =~= Seq::<u8>::empty());
        assert(f + t =~= t);
        match parse_entries(t) {
            Ok((x, m)) => {
                assert(d + x =~= x);
            },
            Err(_) => {},
        }
    } else {
        let d2 = d.drop_first();
        assert(dict_parts(d).drop_first() =~= dict_parts(d2));
        let f2 = dict_parts(d2).flatten();
        assert forall|j: int, r: Seq<u8>|
            0 <= j < d2.len() implies #[trigger] parse(enc(d2[j].1) + r) == Ok::<
                (Bencode, nat),
                Fault,
            >((d2[j].1, enc(d2[j].1).len())) by {
            assert(d2[j] == d[j + 1]);
            assert(parse(enc(d[j + 1].1) + r) == Ok::<(Bencode, nat), Fault>(
                (d[j + 1].1, enc(d[j + 1].1).len()),
            ));
        }
        lemma_entries(d2, t);
        let (k0, v0) = d[0];
        lemma_enc_first(v0);
        let kb = enc_bytes(k0);
        let ev = enc(v0);
        let s = f + t;
        assert(s =~= kb + (ev + (f2 + t)));
        lemma_parse_bytes(k0, ev + (f2 + t));
        let t2 = s.subrange(kb.len() as int, s.len() as int);
        assert(t2 =~= ev + (f2 + t));
        assert(parse(ev + (f2 + t)) == Ok::<(Bencode, nat), Fault>((v0, ev.len())));
        assert(t2.subrange(ev.len() as int, t2.len() as int) =~= f2 + t);
        match parse_entries(t) {
            Ok((x, m)) => {
                assert(seq![(k0, v0)] + (d2 + x) =~= d + x);
            },
            Err(_) => {},
        }
    }
}

proof fn lemma_insert_pos_end(acc: Seq<(Seq<u8>, Bencode)>, k: Seq<u8>, i: int)
    requires
        0 <= i <= acc.len(),
        forall|j: int| 0 <= j < acc.len() ==> lex_lt(#[trigger] acc[j].0, k),
    ensures
        insert_pos(acc, k, i) == acc.len(),
    decreases acc.len() - i,
{
    if i < acc.len() {
        lemma_insert_pos_end(acc, k, i + 1);
    }
}

proof fn lemma_dict_of_sorted(d: Seq<(Seq<u8>, Bencode)>)
    requires
        forall|i: int, j: int| 0 <= i < j < d.len() ==> lex_lt(#[trigger] d[i].0, #[trigger] d[j].0),
    ensures
        dict_of(d) == d,
    decreases d.len(),
{
    if d.len() == 0 {
        assert(d =~= Seq::<(Seq<u8>, Bencode)>::empty());
    } else {
        let dl = d.drop_last();
        assert forall|i: int, j: int| 0 <= i < j < dl.len() implies lex_lt(
            #[trigger] dl[i].0,
            #[trigger] dl[j].0,
        ) by {
            assert(dl[i] == d[i] && dl[j] == d[j]);
        }
        lemma_dict_of_sorted(dl);
        let (k, v) = d.last();
        assert forall|j: int| 0 <= j < dl.len() implies lex_lt(#[trigger] dl[j].0, k) by {
            assert(dl[j] == d[j]);
        }
        lemma_insert_pos_end(dl, k, 0);
        assert(dict_of(d) == dict_insert(dict_of(dl), k, v));
        assert(dl.insert(dl.len() as int, (k, v)) =~= d);
    }
}

/// Decoding the canonical encoding of a value, followed by any bytes, gives
/// back the value and takes exactly the encoding.
pub proof fn decode_of_encoding(v: Bencode, rest: Seq<u8>)
    requires
        canonical(v),
    ensures
        parse(enc(v) + rest) == Ok::<(Bencode, nat), Fault>((v, enc(v).len())),
    decreases v,
{
    match v {
        Bencode::Bytes(b) => {
            lemma_parse_bytes(b, rest);
        },
        Bencode::Int(n) => {
            lemma_parse_int(n, rest);
        },
        Bencode::List(l) => {
            assert forall|j: int, r: Seq<u8>| 0 <= j < l.len() implies #[trigger] parse(
                enc(l[j]) + r,
            ) == Ok::<(Bencode, nat), Fault>((l[j], enc(l[j]).len())) by {
                decode_of_encoding(l[j], r);
            }
            let f = list_parts(l).flatten();
            let s = enc(v) + rest;
            lemma_items(l, seq![101u8] + rest);
            assert(s.drop_first() =~= f + (seq![101u8] + rest));
            assert(l + Seq::<Bencode>::empty() =~= l);
        },
        Bencode::Dict(d) => {
            assert forall|j: int, r: Seq<u8>| 0 <= j < d.len() implies #[trigger] parse(
                enc(d[j].1) + r,
            ) == Ok::<(Bencode, nat), Fault>((d[j].1, enc(d[j].1).len())) by {
                decode_of_encoding(d[j].1, r);
            }
            let f = dict_parts(d).flatten();
            let s = enc(v) + rest;
            lemma_entries(d, seq![101u8] + rest);
            assert(s.drop_first() =~= f + (seq![101u8] + rest));
            assert(d + Seq::<(Seq<u8>, Bencode)>::empty() =~= d);
            lemma_dict_of_sorted(d);
        },
    }
}

/// Bytes that are the canonical encoding of a value decode to a value whose
/// encoding is those bytes again.
pub proof fn encoding_of_decoding(b: Seq<u8>, v: Bencode)
    requires
        canonical(v),
        b == enc(v),
    ensures
        parse(b) matches Ok((w, n)) && n == b.len() && enc(w) == b,
{
    decode_of_encoding(v, Seq::empty());
    assert(b + Seq::<u8>::empty() =~= b);
}

/// A list or dictionary whose terminator is cut off does not decode: the
/// input is malformed, the message says which terminator is missing, and no
/// partial collection is returned.
pub proof fn truncated_collection_fails(v: Bencode)
    requires
        canonical(v),
        v is List || v is Dict,
    ensures
        v is List ==> parse(enc(v).drop_last()) == Err::<(Bencode, nat), Fault>(
            Fault::DataFormat(NO_LIST_END@),
        ),
        v is Dict ==> parse(enc(v).drop_last()) == Err::<(Bencode, nat), Fault>(
            Fault::DataFormat(NO_DICT_END@),
        ),
{
    let s = enc(v).drop_last();
    match v {
        Bencode::List(l) => {
            assert forall|j: int, r: Seq<u8>| 0 <= j < l.len() implies #[trigger] parse(
                enc(l[j]) + r,
            ) == Ok::<(Bencode, nat), Fault>((l[j], enc(l[j]).len())) by {
                decode_of_encoding(l[j], r);
            }
            let f = list_parts(l).flatten();
            lemma_items(l, Seq::empty());
            assert(s.drop_first() =~= f + Seq::<u8>::empty());
        },
        Bencode::Dict(d) => {
            assert forall|j: int, r: Seq<u8>| 0 <= j < d.len() implies #[trigger] parse(
                enc(d[j].1) + r,
            ) == Ok::<(Bencode, nat), Fault>((d[j].1, enc(d[j].1).len())) by {
                decode_of_encoding(d[j].1, r);
            }
            let f = dict_parts(d).flatten();
            lemma_entries(d, Seq::empty());
            assert(s.drop_first() =~= f + Seq::<u8>::empty());
        },
        _ => {},
    }
}

/// Whether a decoding outcome is a failure on malformed input.
pub open spec fn malformed(r: Result<(Bencode, nat), Fault>) -> bool {
    r matches Err(Fault::DataFormat(_))
}

proof fn lemma_no_byte(s: Seq<u8>, i: int, b: u8)
    requires
        0 <= i <= s.len(),
        forall|j: int| i <= j < s.len() ==> #[trigger] s[j] != b,
    ensures
        find_byte(s, i, b) == s.len(),
    decreases s.len() - i,
{
    if i < s.len() {
        lemma_no_byte(s, i + 1, b);
    }
}

proof fn lemma_bytes_prefix(b: Seq<u8>, k: int)
    requires
        0 < k < enc_bytes(b).len(),
    ensures
        malformed(parse(enc_bytes(b).take(k))),
{
    let d = nat_text(b.len());
    lemma_nat_text(b.len());
    let s = enc_bytes(b).take(k);
    let dl = d.len() as int;
    assert(forall|j: int| 0 <= j < k && j < dl ==> s[j] == #[trigger] d[j]);
    assert(is_digit(s[0]));
    if k <= dl {
        lemma_digits_end(s, 0, k);
        lemma_no_byte(s, k, 58);
    } else {
        assert(s[dl] == 58);
        lemma_digits_end(s, 0, dl);
        assert(s.subrange(0, dl) =~= d);
    }
}

proof fn lemma_int_prefix(n: int, k: int)
    requires
        i64::MIN <= n <= i64::MAX,
        0 < k < enc(Bencode::Int(n)).len(),
    ensures
        malformed(parse(enc(Bencode::Int(n)).take(k))),
{
    let t = int_text(n);
    let s = enc(Bencode::Int(n)).take(k);
    if n < 0 {
        lemma_nat_text((-n) as nat);
    } else {
        lemma_nat_text(n as nat);
    }
    assert forall|j: int| 1 <= j < s.len() implies #[trigger] s[j] != 101 by {
        assert(s[j] == t[j - 1]);
        if n < 0 && j > 1 {
            assert(t[j - 1] == nat_text((-n) as nat)[j - 2]);
            assert(is_digit(nat_text((-n) as nat)[j - 2]));
        }
        if n >= 0 {
            assert(is_digit(t[j - 1]));
        }
    }
    lemma_no_byte(s, 1, 101);
}

#[verifier::spinoff_prover]
proof fn lemma_items_prefix(l: Seq<Bencode>, j: int)
    requires
        0 <= j <= list_parts(l).flatten().len(),
        forall|i: int, r: Seq<u8>|
            0 <= i < l.len() ==> #[trigger] parse(enc(l[i]) + r) == Ok::<(Bencode, nat), Fault>(
                (l[i], enc(l[i]).len()),
            ),
        forall|i: int, c: int|
            0 <= i < l.len() && 0 < c < enc(l[i]).len() ==> malformed(
                #[trigger] parse(enc(l[i]).take(c)),
            ),
    ensures
        parse_items(list_parts(l).flatten().take(j)) matches Err(Fault::DataFormat(_)),
    decreases l.len(),
{
    let f = list_parts(l).flatten();
    let t = f.take(j);
    if j == 0 || l.len() == 0 {
        assert(t =~= Seq::<u8>::empty());
    } else {
        let l2 = l.drop_first();
        assert(list_parts(l).drop_first() =~= list_parts(l2));
        let f2 = list_parts(l2).flatten();
        let e0 = enc(l[0]);
        assert(f =~= e0 + f2);
        lemma_enc_first(l[0]);
        assert(t[0] == e0[0]);
        assert(t.len() > 0 && t[0] != 101);
        if j < e0.len() {
            assert(t =~= e0.take(j));
            assert(malformed(parse(enc(l[0]).take(j))));
            assert(parse(t) matches Err(Fault::DataFormat(_)));
        } else {
            assert forall|i: int, r: Seq<u8>| 0 <= i < l2.len() implies #[trigger] parse(
                enc(l2[i]) + r,
            ) == Ok::<(Bencode, nat), Fault>((l2[i], enc(l2[i]).len())) by {
                assert(l2[i] == l[i + 1]);
                assert(parse(enc(l[i + 1]) + r) == Ok::<(Bencode, nat), Fault>(
                    (l[i + 1], enc(l[i + 1]).len()),
                ));
            }
            assert forall|i: int, c: int|
                0 <= i < l2.len() && 0 < c < enc(l2[i]).len() implies malformed(
                #[trigger] parse(enc(l2[i]).take(c)),
            ) by {
                assert(l2[i] == l[i + 1]);
                assert(malformed(parse(enc(l[i + 1]).take(c))));
            }
            let j2 = j - e0.len();
            lemma_items_prefix(l2, j2);
            assert(t =~= e0 + f2.take(j2));
            assert(parse(e0 + f2.take(j2)) == Ok::<(Bencode, nat), Fault>((l[0], e0.len())));
            assert(t.subrange(e0.len() as int, t.len() as int) =~= f2.take(j2));
            assert(parse(t) == Ok::<(Bencode, nat), Fault>((l[0], e0.len())));
        }
    }
}

#[verifier::spinoff_prover]
proof fn lemma_entries_prefix(d: Seq<(Seq<u8>, Bencode)>, j: int)
    requires
        0 <= j <= dict_parts(d).flatten().len(),
        forall|i: int, r: Seq<u8>|
            0 <= i < d.len() ==> #[trigger] parse(enc(d[i].1) + r) == Ok::<(Bencode, nat), Fault>(
                (d[i].1, enc(d[i].1).len()),
            ),
        forall|i: int, c: int|
            0 <= i < d.len() && 0 < c < enc(d[i].1).len() ==> malformed(
                #[trigger] parse(enc(d[i].1).take(c)),
            ),
    ensures
        parse_entries(dict_parts(d).flatten().take(j)) matches Err(Fault::DataFormat(_)),
    decreases d.len(),
{
    let f = dict_parts(d).flatten();
    let t = f.take(j);
    if j == 0 || d.len() == 0 {
        assert(t =~= Seq::<u8>::empty());
    } else {
        let d2 = d.drop_first();
        assert(dict_parts(d).drop_first() =~= dict_parts(d2));
        let f2 = dict_parts(d2).flatten();
        let (k0, v0) = d[0];
        let kb = enc_bytes(k0);
        let ev = enc(v0);
        assert(f =~= kb + ev + f2);
        lemma_nat_text(k0.len());
        assert(t[0] == nat_text(k0.len())[0]);
        lemma_enc_first(v0);
        assert(t.len() > 0 && t[0] != 101);
        if j < kb.len() {
            assert(t =~= kb.take(j));
            lemma_bytes_prefix(k0, j);
            assert(parse(t) matches Err(Fault::DataFormat(_)));
        } else {
            let t2 = t.subrange(kb.len() as int, t.len() as int);
            lemma_parse_bytes(k0, t2);
            assert(t =~= kb + t2);
            assert(parse(t) == Ok::<(Bencode, nat), Fault>((Bencode::Bytes(k0), kb.len())));
            if j == kb.len() {
                assert(kb.len() == t.len());
            } else if j < kb.len() + ev.len() {
                assert(t2 =~= ev.take(j - kb.len()));
                assert(parse(t2) matches Err(Fault::DataFormat(_)));
            } else {
                assert forall|i: int, r: Seq<u8>| 0 <= i < d2.len() implies #[trigger] parse(
                    enc(d2[i].1) + r,
                ) == Ok::<(Bencode, nat), Fault>((d2[i].1, enc(d2[i].1).len())) by {
                    assert(d2[i] == d[i + 1]);
                    assert(parse(enc(d[i + 1].1) + r) == Ok::<(Bencode, nat), Fault>(
                        (d[i + 1].1, enc(d[i + 1].1).len()),
                    ));
                }
                assert forall|i: int, c: int|
                    0 <= i < d2.len() && 0 < c < enc(d2[i].1).len() implies malformed(
                    #[trigger] parse(enc(d2[i].1).take(c)),
                ) by {
                    assert(d2[i] == d[i + 1]);
                    assert(malformed(parse(enc(d[i + 1].1).take(c))));
                }
                let j2 = j - kb.len() - ev.len();
                lemma_entries_prefix(d2, j2);
                assert(t2 =~= ev + f2.take(j2));
                assert(parse(ev + f2.take(j2)) == Ok::<(Bencode, nat), Fault>((v0, ev.len())));
                assert(t2.subrange(ev.len() as int, t2.len() as int) =~= f2.take(j2));
            }
        }
    }
}

/// Any proper prefix of the canonical encoding of a value does not decode:
/// the input is malformed, and no partial string, integer, list or
/// dictionary is returned.
pub proof fn truncated_encoding_fails(v: Bencode, k: int)
    requires
        canonical(v),
        0 < k < enc(v).len(),
    ensures
        malformed(parse(enc(v).take(k))),
    decreases v,
{
    let s = enc(v).take(k);
    match v {
        Bencode::Bytes(b) => {
            lemma_bytes_prefix(b, k);
        },
        Bencode::Int(n) => {
            lemma_int_prefix(n, k);
        },
        Bencode::List(l) => {
            assert forall|j: int, r: Seq<u8>| 0 <= j < l.len() implies #[trigger] parse(
                enc(l[j]) + r,
            ) == Ok::<(Bencode, nat), Fault>((l[j], enc(l[j]).len())) by {
                decode_of_encoding(l[j], r);
            }
            assert forall|j: int, c: int|
                0 <= j < l.len() && 0 < c < enc(l[j]).len() implies malformed(
                #[trigger] parse(enc(l[j]).take(c)),
            ) by {
                truncated_encoding_fails(l[j], c);
            }
            let f = list_parts(l).flatten();
            lemma_items_prefix(l, k - 1);
            assert(s.drop_first() =~= f.take(k - 1));
        },
        Bencode::Dict(d) => {
            assert forall|j: int, r: Seq<u8>| 0 <= j < d.len() implies #[trigger] parse(
                enc(d[j].1) + r,
            ) == Ok::<(Bencode, nat), Fault>((d[j].1, enc(d[j].1).len())) by {
                decode_of_encoding(d[j].1, r);
            }
            assert forall|j: int, c: int|
                0 <= j < d.len() && 0 < c < enc(d[j].1).len() implies malformed(
                #[trigger] parse(enc(d[j].1).take(c)),
            ) by {
                truncated_encoding_fails(d[j].1, c);
            }
            let f = dict_parts(d).flatten();
            lemma_entries_prefix(d, k - 1);
            assert(s.drop_first() =~= f.take(k - 1));
        },
    }
}

/// A dictionary written with distinct keys in any order decodes to the
/// dictionary that holds the same entries with keys ascending.
pub proof fn dictionary_key_order_irrelevant(v: Bencode, es: Seq<(Seq<u8>, Bencode)>, rest: Seq<u8>)
    requires
        canonical(v),
        v is Dict,
        keys_distinct(es),
        forall|x: (Seq<u8>, Bencode)| es.contains(x) <==> v->Dict_0.contains(x),
    ensures
        parse(seq![100u8] + dict_parts(es).flatten() + seq![101u8] + rest) == Ok::<
            (Bencode, nat),
            Fault,
        >((v, dict_parts(es).flatten().len() + 2)),
{
    match v {
        Bencode::Dict(d) => {
            assert forall|j: int, r: Seq<u8>| 0 <= j < es.len() implies #[trigger] parse(
                enc(es[j].1) + r,
            ) == Ok::<(Bencode, nat), Fault>((es[j].1, enc(es[j].1).len())) by {
                assert(es.contains(es[j]));
                assert(d.contains(es[j]));
                let i = choose|i: int| 0 <= i < d.len() && d[i] == es[j];
                assert(canonical(d[i].1));
                decode_of_encoding(d[i].1, r);
            }
            let f = dict_parts(es).flatten();
            let s = seq![100u8] + f + seq![101u8] + rest;
            lemma_entries(es, seq![101u8] + rest);
            assert(s.drop_first() =~= f + (seq![101u8] + rest));
            assert(es + Seq::<(Seq<u8>, Bencode)>::empty() =~= es);
            assert(keys_ascend(d));
            key_order_irrelevant(es, d);
        },
        _ => {},
    }
}

/// A dictionary written with distinct keys in any order decodes to a
/// dictionary that holds exactly the entries written, with keys ascending.
pub proof fn dictionary_any_order(es: Seq<(Seq<u8>, Bencode)>, rest: Seq<u8>)
    requires
        keys_distinct(es),
        forall|j: int| 0 <= j < es.len() ==> canonical(#[trigger] es[j].1),
    ensures
        parse(seq![100u8] + dict_parts(es).flatten() + seq![101u8] + rest) matches Ok(
            (Bencode::Dict(m), n),
        ) && n == dict_parts(es).flatten().len() + 2 && keys_ascend(m) && forall|
            x: (Seq<u8>, Bencode),
        | m.contains(x) <==> es.contains(x),
{
    assert forall|j: int, r: Seq<u8>| 0 <= j < es.len() implies #[trigger] parse(
        enc(es[j].1) + r,
    ) == Ok::<(Bencode, nat), Fault>((es[j].1, enc(es[j].1).len())) by {
        decode_of_encoding(es[j].1, r);
    }
    let f = dict_parts(es).flatten();
    let s = seq![100u8] + f + seq![101u8] + rest;
    lemma_entries(es, seq![101u8] + rest);
    assert(s.drop_first() =~= f + (seq![101u8] + rest));
    assert(es + Seq::<(Seq<u8>, Bencode)>::empty() =~= es);
    lemma_dict_of_contents(es);
}

/// The same entries with distinct keys, written in two orders, decode to the
/// same dictionary.
pub proof fn dictionary_order_independent(
    es1: Seq<(Seq<u8>, Bencode)>,
    es2: Seq<(Seq<u8>, Bencode)>,
    rest1: Seq<u8>,
    rest2: Seq<u8>,
)
    requires
        keys_distinct(es1),
        keys_distinct(es2),
        forall|j: int| 0 <= j < es1.len() ==> canonical(#[trigger] es1[j].1),
        forall|x: (Seq<u8>, Bencode)| es1.contains(x) <==> es2.contains(x),
    ensures
        parse(seq![100u8] + dict_parts(es1).flatten() + seq![101u8] + rest1) matches Ok((v1, _))
            && parse(seq![100u8] + dict_parts(es2).flatten() + seq![101u8] + rest2) matches Ok(
            (v2, _),
        ) && v1 == v2,
{
    assert forall|j: int| 0 <= j < es2.len() implies canonical(#[trigger] es2[j].1) by {
        assert(es2.contains(es2[j]));
        assert(es1.contains(es2[j]));
        let i = choose|i: int| 0 <= i < es1.len() && es1[i] == es2[j];
        assert(canonical(es1[i].1));
    }
    dictionary_any_order(es1, rest1);
    dictionary_any_order(es2, rest2);
    let m1 = parse(seq![100u8] + dict_parts(es1).flatten() + seq![101u8] + rest1)->Ok_0.0->Dict_0;
    let m2 = parse(seq![100u8] + dict_parts(es2).flatten() + seq![101u8] + rest2)->Ok_0.0->Dict_0;
    lemma_sorted_unique(m1, m2);
}

} // verus!
