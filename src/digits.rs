//! Positional notation: the digits of a number in a radix, and the number
//! that a digit sequence stands for.
use vstd::arithmetic::div_mod::{lemma_fundamental_div_mod, lemma_div_decreases};
use vstd::prelude::*;

verus! {

/// The digits of `v` in radix `b`, most significant first, without leading
/// zeros; the digits of 0 are the empty sequence.
pub open spec fn digits_of(v: nat, b: nat) -> Seq<nat>
    decreases v,
{
    if b < 2 || v == 0 {
        Seq::empty()
    } else {
        proof {
            lemma_div_smaller(v, b);
        }
        digits_of(v / b, b).push(v % b)
    }
}

/// The digits by which `v` is written: those of `digits_of`, or a single
/// zero digit for 0.
pub open spec fn numeral(v: nat, b: nat) -> Seq<nat> {
    if v == 0 {
        seq![0nat]
    } else {
        digits_of(v, b)
    }
}

/// The number that the digit sequence `ds` stands for in radix `b`, most
/// significant digit first.
pub open spec fn value_of(ds: Seq<nat>, b: nat) -> nat
    decreases ds.len(),
{
    if ds.len() == 0 {
        0
    } else {
        value_of(ds.drop_last(), b) * b + ds.last()
    }
}

/// Digits held in bytes, as numbers.
pub open spec fn nats(ds: Seq<u8>) -> Seq<nat> {
    ds.map_values(|d: u8| d as nat)
}

/// Dividing by a radix of at least 2 makes a positive number smaller.
pub proof fn lemma_div_smaller(v: nat, b: nat)
    requires
        b >= 2,
        v > 0,
    ensures
        v / b < v,
{
    lemma_div_decreases(v as int, b as int);
}

/// Each digit of a numeral is below the radix.
pub proof fn lemma_numeral_digits_small(v: nat, b: nat)
    requires
        b >= 2,
    ensures
        forall|i: int| 0 <= i < numeral(v, b).len() ==> numeral(v, b)[i] < b,
        numeral(v, b).len() >= 1,
{
    lemma_digits_small(v, b);
}

proof fn lemma_digits_small(v: nat, b: nat)
    requires
        b >= 2,
    ensures
        forall|i: int| 0 <= i < digits_of(v, b).len() ==> digits_of(v, b)[i] < b,
        v > 0 ==> digits_of(v, b).len() >= 1,
    decreases v,
{
    if v > 0 {
        lemma_div_smaller(v, b);
        lemma_digits_small(v / b, b);
        let p = digits_of(v / b, b);
        let q = p.push(v % b);
        assert forall|i: int| 0 <= i < q.len() implies #[trigger] q[i] < b by {
            if i < p.len() {
                assert(q[i] == p[i]);
            }
        }
    }
}

/// The digits of a number stand for that number.
pub proof fn lemma_value_of_numeral(v: nat, b: nat)
    requires
        b >= 2,
    ensures
        value_of(numeral(v, b), b) == v,
{
    if v == 0 {
        let z = seq![0nat];
        assert(z.drop_last() =~= Seq::<nat>::empty());
        assert(value_of(z.drop_last(), b) == 0);
        assert(z.last() == 0);
        assert(value_of(z, b) == value_of(z.drop_last(), b) * b + z.last());
        assert(0 * b == 0);
    } else {
        lemma_value_of_digits(v, b);
    }
}

proof fn lemma_value_of_digits(v: nat, b: nat)
    requires
        b >= 2,
    ensures
        value_of(digits_of(v, b), b) == v,
    decreases v,
{
    if v > 0 {
        lemma_div_smaller(v, b);
        lemma_value_of_digits(v / b, b);
        let p = digits_of(v / b, b);
        assert(p.push(v % b).drop_last() =~= p);
        lemma_fundamental_div_mod(v as int, b as int);
        assert(value_of(p.push(v % b), b) == value_of(p, b) * b + v % b);
        assert((v / b) * b == b * (v / b)) by (nonlinear_arith);
    }
}

/// A longer prefix never stands for a smaller number.
pub proof fn lemma_value_of_prefix(ds: Seq<nat>, b: nat, i: int)
    requires
        b >= 1,
        0 <= i <= ds.len(),
    ensures
        value_of(ds.take(i), b) <= value_of(ds, b),
    decreases ds.len() - i,
{
    if i < ds.len() {
        lemma_value_of_prefix(ds, b, i + 1);
        assert(ds.take(i + 1).drop_last() =~= ds.take(i));
        let p = value_of(ds.take(i), b);
        assert(p * b >= p) by (nonlinear_arith)
            requires
                b >= 1,
        ;
    } else {
        assert(ds.take(i) =~= ds);
    }
}

/// The digits of `value` in radix `base`, most significant first; 0 is
/// written as a single zero digit.
pub fn to_digits(value: u64, base: u64) -> (r: Vec<u8>)
    requires
        2 <= base <= 255,
    ensures
        nats(r@) == numeral(value as nat, base as nat),
{
    if value == 0 {
        let r: Vec<u8> = vec![0u8];
        assert(nats(r@) =~= seq![0nat]);
        return r;
    }
    let mut number: u64 = value;
    let mut result: Vec<u8> = Vec::new();
    while number > 0
        invariant
            2 <= base <= 255,
            digits_of(value as nat, base as nat) == digits_of(number as nat, base as nat) + nats(
                result@,
            ),
        decreases number,
    {
        let d: u64 = number % base;
        let ghost rest = result@;
        result.insert(0, d as u8);
        proof {
            let p = digits_of((number / base) as nat, base as nat);
            assert(digits_of(number as nat, base as nat) == p.push(d as nat));
            assert(nats(result@) =~= seq![d as nat] + nats(rest));
            assert(p.push(d as nat) + nats(rest) =~= p + nats(result@));
        }
        number = number / base;
    }
    assert(nats(result@) =~= Seq::<nat>::empty() + nats(result@));
    result
}

/// The number that the digit sequence `ds` stands for in radix `base`, or
/// `None` where that number does not fit in a `u64`.
pub fn from_digits(ds: &[u8], base: u64) -> (r: Option<u64>)
    requires
        2 <= base <= 255,
    ensures
        match r {
            Some(v) => v as nat == value_of(nats(ds@), base as nat),
            None => value_of(nats(ds@), base as nat) > u64::MAX,
        },
{
    let ghost all = nats(ds@);
    let mut acc: u64 = 0;
    let mut i: usize = 0;
    while i < ds.len()
        invariant
            2 <= base <= 255,
            i <= ds@.len(),
            all == nats(ds@),
            acc as nat == value_of(all.take(i as int), base as nat),
        decreases ds@.len() - i,
    {
        proof {
            assert(all.take(i + 1).drop_last() =~= all.take(i as int));
            assert(all.take(i + 1).last() == ds@[i as int] as nat);
        }
        match acc.checked_mul(base) {
            Some(m) => match m.checked_add(ds[i] as u64) {
                Some(next) => {
                    acc = next;
                },
                None => {
                    proof {
                        lemma_value_of_prefix(all, base as nat, i + 1);
                    }
                    return None;
                },
            },
            None => {
                proof {
                    lemma_value_of_prefix(all, base as nat, i + 1);
                    assert((acc as nat) * (base as nat) + (ds@[i as int] as nat) >= (acc as nat)
                        * (base as nat));
                }
                return None;
            },
        }
        i = i + 1;
    }
    assert(all.take(i as int) =~= all);
    Some(acc)
}

} // verus!
