use vstd::prelude::*;
use vstd::arithmetic::div_mod::{lemma_div_decreases, lemma_fundamental_div_mod};

verus! {

/// The base-`base` digits of `n`, most significant first.
/// A zero value still has one digit.
pub open spec fn digits_of(n: nat, base: nat) -> Seq<nat>
    recommends
        base >= 2,
    decreases n,
    when base >= 2
    via digits_of_decreases
{
    if n < base {
        seq![n]
    } else {
        digits_of(n / base, base).push(n % base)
    }
}

#[via_fn]
proof fn digits_of_decreases(n: nat, base: nat) {
    if n >= base {
        lemma_div_decreases(n as int, base as int);
    }
}

/// The value denoted by a most-significant-first digit sequence.
pub open spec fn value_of(ds: Seq<nat>, base: nat) -> nat
    decreases ds.len(),
{
    if ds.len() == 0 {
        0
    } else {
        value_of(ds.drop_last(), base) * base + ds.last()
    }
}

/// Every digit of the sequence lies below the base.
pub open spec fn all_below(ds: Seq<nat>, base: nat) -> bool {
    forall|i: int| 0 <= i < ds.len() ==> ds[i] < base
}

/// Rendering a number as digits and reading the digits back yields the
/// number again; the digit sequence is nonempty and each digit is in range.
pub proof fn lemma_digits_value_roundtrip(n: nat, base: nat)
    requires
        base >= 2,
    ensures
        value_of(digits_of(n, base), base) == n,
        digits_of(n, base).len() >= 1,
        all_below(digits_of(n, base), base),
    decreases n,
{
    if n < base {
        let ds = digits_of(n, base);
        assert(ds =~= seq![n]);
        assert(ds.drop_last() =~= Seq::<nat>::empty());
        assert(value_of(ds.drop_last(), base) == 0);
        assert(ds.last() == n);
        assert(value_of(ds, base) == value_of(ds.drop_last(), base) * base + ds.last());
        assert(0 * base + n == n);
    } else {
        lemma_div_decreases(n as int, base as int);
        lemma_digits_value_roundtrip(n / base, base);
        let prefix = digits_of(n / base, base);
        let ds = digits_of(n, base);
        assert(ds == prefix.push(n % base));
        assert(ds.drop_last() =~= prefix);
        assert(ds.last() == n % base);
        lemma_fundamental_div_mod(n as int, base as int);
        assert(value_of(ds, base) == (n / base) * base + n % base);
    }
}

/// The value of a prefix of a digit sequence never exceeds the value of the
/// whole sequence.
pub proof fn lemma_value_prefix_le(ds: Seq<nat>, base: nat, i: int)
    requires
        base >= 1,
        0 <= i <= ds.len(),
    ensures
        value_of(ds.take(i), base) <= value_of(ds, base),
    decreases ds.len(),
{
    if i < ds.len() {
        assert(ds.drop_last().take(i) =~= ds.take(i));
        lemma_value_prefix_le(ds.drop_last(), base, i);
        let v = value_of(ds.drop_last(), base);
        assert(v * base >= v * 1) by (nonlinear_arith)
            requires
                base >= 1,
                v >= 0,
        ;
    } else {
        assert(ds.take(i) =~= ds);
    }
}

/// Reading one more digit multiplies the accumulated value by the base and
/// adds the digit.
pub proof fn lemma_value_step(ds: Seq<nat>, base: nat, i: int)
    requires
        0 <= i < ds.len(),
    ensures
        value_of(ds.take(i + 1), base) == value_of(ds.take(i), base) * base + ds[i],
{
    assert(ds.take(i + 1).drop_last() =~= ds.take(i));
    assert(ds.take(i + 1).last() == ds[i]);
}

} // verus!
