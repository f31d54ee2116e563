use vstd::prelude::*;

use crate::grammar::{
    all_digits, digits_end, digits_value, find_byte, int_token_ok, int_token_value, is_digit,
    magnitude,
};

verus! {

proof fn lemma_digits_step(t: Seq<u8>, i: int)
    requires
        0 <= i < t.len(),
    ensures
        digits_value(t.subrange(0, i + 1)) == digits_value(t.subrange(0, i)) * 10 + (t[i] as int
            - 48) as nat,
{
    assert(t.subrange(0, i + 1).drop_last() =~= t.subrange(0, i));
}

/// A prefix of a digit string writes no larger a number than the whole.
pub proof fn lemma_digits_prefix_le(t: Seq<u8>, i: int)
    requires
        0 <= i <= t.len(),
    ensures
        digits_value(t.subrange(0, i)) <= digits_value(t),
    decreases t.len() - i,
{
    if i == t.len() {
        assert(t.subrange(0, i) =~= t);
    } else {
        lemma_digits_prefix_le(t, i + 1);
        lemma_digits_step(t, i);
    }
}

/// Index of the first non-digit of `t` at or after `i`.
pub fn scan_digits(t: &[u8], i: usize) -> (k: usize)
    requires
        i <= t@.len(),
    ensures
        k == digits_end(t@, i as int),
        i <= k <= t@.len(),
        forall|j: int| i <= j < k ==> is_digit(#[trigger] t@[j]),
        k < t@.len() ==> !is_digit(t@[k as int]),
{
    let mut k = i;
    while k < t.len() && 48 <= t[k] && t[k] <= 57
        invariant
            i <= k <= t@.len(),
            digits_end(t@, i as int) == digits_end(t@, k as int),
            forall|j: int| i <= j < k ==> is_digit(#[trigger] t@[j]),
        decreases t@.len() - k,
    {
        k = k + 1;
    }
    k
}

/// Index of the first byte `b` of `t` at or after `i`.
pub fn find_from(t: &[u8], i: usize, b: u8) -> (k: usize)
    requires
        i <= t@.len(),
    ensures
        k == find_byte(t@, i as int, b),
        i <= k <= t@.len(),
        forall|j: int| i <= j < k ==> #[trigger] t@[j] != b,
        k < t@.len() ==> t@[k as int] == b,
{
    let mut k = i;
    while k < t.len() && t[k] != b
        invariant
            i <= k <= t@.len(),
            find_byte(t@, i as int, b) == find_byte(t@, k as int, b),
            forall|j: int| i <= j < k ==> #[trigger] t@[j] != b,
        decreases t@.len() - k,
    {
        k = k + 1;
    }
    k
}

/// The number that a string of digits writes, if it is at most `bound`.
pub fn digits_upto(t: &[u8], bound: u64) -> (r: Option<u64>)
    requires
        all_digits(t@),
    ensures
        r is Some <==> digits_value(t@) <= bound,
        r matches Some(n) ==> n == digits_value(t@),
{
    let mut acc: u64 = 0;
    let mut i: usize = 0;
    while i < t.len()
        invariant
            i <= t@.len(),
            all_digits(t@),
            acc == digits_value(t@.subrange(0, i as int)),
            acc <= bound,
        decreases t@.len() - i,
    {
        proof {
            lemma_digits_step(t@, i as int);
        }
        assert(is_digit(t@[i as int]));
        let next: u128 = (acc as u128) * 10 + ((t[i] - 48) as u128);
        if next > bound as u128 {
            proof {
                lemma_digits_prefix_le(t@, i as int + 1);
            }
            return None;
        }
        acc = next as u64;
        i = i + 1;
    }
    assert(t@.subrange(0, i as int) =~= t@);
    Some(acc)
}

/// The integer that a token writes, if it is a canonical 64-bit literal.
pub fn int_from_token(t: &[u8]) -> (r: Option<i64>)
    ensures
        r is Some <==> int_token_ok(t@),
        r matches Some(n) ==> n == int_token_value(t@),
{
    let neg = t.len() > 0 && t[0] == 45;
    let m: usize = if neg {
        1
    } else {
        0
    };
    let mag = vstd::slice::slice_subrange(t, m, t.len());
    assert(mag@ =~= magnitude(t@));
    if mag.len() == 0 {
        return None;
    }
    let k = scan_digits(mag, 0);
    if k < mag.len() {
        return None;
    }
    if mag[0] == 48 && t.len() != 1 {
        return None;
    }
    let bound: u64 = if neg {
        9223372036854775808
    } else {
        9223372036854775807
    };
    match digits_upto(mag, bound) {
        None => None,
        Some(v) => {
            if neg {
                assert(t@.drop_first() =~= mag@);
                if v == 9223372036854775808 {
                    Some(i64::MIN)
                } else {
                    Some(-(v as i64))
                }
            } else {
                Some(v as i64)
            }
        },
    }
}

} // verus!
