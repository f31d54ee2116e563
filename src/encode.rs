use vstd::prelude::*;

use crate::grammar::{dict_parts, enc, enc_bytes, list_parts, nat_text};
use crate::value::{Bencode, Value};

verus! {

fn push_nat_text(out: &mut Vec<u8>, n: u64)
    ensures
        final(out)@ == old(out)@ + nat_text(n as nat),
    decreases n,
{
    if n >= 10 {
        push_nat_text(out, n / 10);
    }
    out.push(48 + (n % 10) as u8);
    assert(final(out)@ =~= old(out)@ + nat_text(n as nat));
}

fn push_bytes(out: &mut Vec<u8>, b: &[u8])
    ensures
        final(out)@ == old(out)@ + enc_bytes(b@),
{
    push_nat_text(out, b.len() as u64);
    out.push(58);
    let mut i: usize = 0;
    let ghost start = out@;
    while i < b.len()
        invariant
            i <= b@.len(),
            out@ == start + b@.subrange(0, i as int),
        decreases b@.len() - i,
    {
        out.push(b[i]);
        assert(b@.subrange(0, i + 1) =~= b@.subrange(0, i as int).push(b@[i as int]));
        i = i + 1;
    }
    assert(b@.subrange(0, i as int) =~= b@);
    assert(final(out)@ =~= old(out)@ + enc_bytes(b@));
}

fn push_value(out: &mut Vec<u8>, v: &Value)
    ensures
        final(out)@ == old(out)@ + enc(v.model()),
    decreases v,
{
    match v {
        Value::Bytes(b) => {
            push_bytes(out, b.as_slice());
        },
        Value::Int(n) => {
            out.push(105);
            if *n < 0 {
                out.push(45);
                push_nat_text(out, (-(*n as i128)) as u64);
            } else {
                push_nat_text(out, *n as u64);
            }
            out.push(101);
            assert(final(out)@ =~= old(out)@ + enc(v.model()));
        },
        Value::List(l) => {
            let ghost m = v.model()->List_0;
            let ghost parts = list_parts(m);
            out.push(108);
            let ghost start = out@;
            let mut i: usize = 0;
            while i < l.len()
                invariant
                    *v == Value::List(*l),
                    m == v.model()->List_0,
                    parts == list_parts(m),
                    i <= l@.len(),
                    m.len() == l@.len(),
                    forall|j: int| 0 <= j < l@.len() ==> m[j] == (#[trigger] l@[j]).model(),
                    parts.len() == m.len(),
                    forall|j: int| 0 <= j < m.len() ==> parts[j] == enc(#[trigger] m[j]),
                    out@ == start + parts.take(i as int).flatten(),
                decreases l@.len() - i,
            {
                proof {
                    vstd::std_specs::vec::axiom_vec_index_decreases(*l, i as int);
                    assert(decreases_to!(*l => l[i as int]));
                    assert(decreases_to!(*v => *l));
                }
                push_value(out, &l[i]);
                proof {
                    assert(parts.take(i + 1) =~= parts.take(i as int).push(parts[i as int]));
                    parts.take(i as int).lemma_flatten_push(parts[i as int]);
                }
                i = i + 1;
            }
            assert(parts.take(i as int) =~= parts);
                        out.push(101);
            assert(final(out)@ =~= old(out)@ + enc(v.model()));
        },
        Value::Dict(d) => {
            let ghost m = v.model()->Dict_0;
            let ghost parts = dict_parts(m);
            out.push(100);
            let ghost start = out@;
            let mut i: usize = 0;
            while i < d.len()
                invariant
                    *v == Value::Dict(*d),
                    m == v.model()->Dict_0,
                    parts == dict_parts(m),
                    i <= d@.len(),
                    m.len() == d@.len(),
                    forall|j: int|
                        0 <= j < d@.len() ==> m[j].0 == (#[trigger] d@[j]).0@ && m[j].1 == d@[j].1.model(),
                    parts.len() == m.len(),
                    forall|j: int| 0 <= j < m.len() ==> parts[j] == enc_bytes(m[j].0) + enc(#[trigger] m[j].1),
                    out@ == start + parts.take(i as int).flatten(),
                decreases d@.len() - i,
            {
                push_bytes(out, d[i].0.as_slice());
                proof {
                    vstd::std_specs::vec::axiom_vec_index_decreases(*d, i as int);
                    assert(decreases_to!(*d => d[i as int]));
                    assert(decreases_to!(*v => *d));
                }
                push_value(out, &d[i].1);
                proof {
                    assert(parts.take(i + 1) =~= parts.take(i as int).push(parts[i as int]));
                    parts.take(i as int).lemma_flatten_push(parts[i as int]);
                }
                i = i + 1;
            }
            assert(parts.take(i as int) =~= parts);
                        out.push(101);
            assert(final(out)@ =~= old(out)@ + enc(v.model()));
        },
    }
}

/// The canonical bencoding of `v`.
pub fn encode(v: &Value) -> (r: Vec<u8>)
    ensures
        r@ == enc(v.model()),
{
    let mut out: Vec<u8> = Vec::new();
    push_value(&mut out, v);
    assert(out@ =~= enc(v.model()));
    out
}

} // verus!
