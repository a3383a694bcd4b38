//! Names for files that the vault writes.
use vstd::prelude::*;

verus! {

/// The ASCII decimal digits of `n`, most significant first.
pub open spec fn decimal(n: nat) -> Seq<u8>
    decreases n,
{
    if n < 10 {
        seq![(48 + n) as u8]
    } else {
        decimal(n / 10).push((48 + n % 10) as u8)
    }
}

/// The file name built from a random number and a time: `<random>-<time>`
/// in decimal.
pub open spec fn file_name(random: nat, millis: nat) -> Seq<u8> {
    decimal(random) + seq![45u8] + decimal(millis)
}

proof fn lemma_decimal_digits(n: nat)
    ensures
        decimal(n).len() >= 1,
        forall|i: int| 0 <= i < decimal(n).len() ==> 48 <= #[trigger] decimal(n)[i] <= 57,
    decreases n,
{
    if n >= 10 {
        lemma_decimal_digits(n / 10);
    }
}

proof fn lemma_decimal_injective(a: nat, b: nat)
    requires
        decimal(a) == decimal(b),
    ensures
        a == b,
    decreases a,
{
    if a >= 10 && b >= 10 {
        assert(decimal(a / 10) == decimal(a).drop_last());
        assert(decimal(b / 10) == decimal(b).drop_last());
        lemma_decimal_injective(a / 10, b / 10);
        assert(decimal(a).last() == decimal(b).last());
        assert(decimal(a).last() == (48 + a % 10) as u8);
        assert(decimal(b).last() == (48 + b % 10) as u8);
        assert(a % 10 == b % 10);
        assert(a == 10 * (a / 10) + a % 10) by (nonlinear_arith);
        assert(b == 10 * (b / 10) + b % 10) by (nonlinear_arith);
    } else if a < 10 && b < 10 {
        assert(decimal(a)[0] == decimal(b)[0]);
        assert(decimal(a)[0] == (48 + a) as u8);
        assert(decimal(b)[0] == (48 + b) as u8);
    } else if a >= 10 {
        lemma_decimal_digits(a / 10);
        assert(decimal(a).len() >= 2);
    } else if b >= 10 {
        lemma_decimal_digits(b / 10);
        assert(decimal(b).len() >= 2);
    }
}

/// Distinct random numbers or times give distinct file names: the name
/// determines both.
pub proof fn lemma_file_name_injective(r1: nat, m1: nat, r2: nat, m2: nat)
    requires
        file_name(r1, m1) == file_name(r2, m2),
    ensures
        r1 == r2,
        m1 == m2,
{
    let a1 = decimal(r1);
    let a2 = decimal(r2);
    lemma_decimal_digits(r1);
    lemma_decimal_digits(r2);
    lemma_decimal_digits(m1);
    lemma_decimal_digits(m2);
    let s = file_name(r1, m1);
    if a1.len() < a2.len() {
        assert(s[a1.len() as int] == 45u8);
        assert(file_name(r2, m2)[a1.len() as int] == a2[a1.len() as int]);
    } else if a2.len() < a1.len() {
        assert(file_name(r2, m2)[a2.len() as int] == 45u8);
        assert(s[a2.len() as int] == a1[a2.len() as int]);
    } else {
        assert(a1 =~= s.subrange(0, a1.len() as int));
        assert(a2 =~= file_name(r2, m2).subrange(0, a2.len() as int));
        lemma_decimal_injective(r1, r2);
        assert(decimal(m1) =~= s.subrange(a1.len() + 1int, s.len() as int));
        assert(decimal(m2) =~= file_name(r2, m2).subrange(a2.len() + 1int, s.len() as int));
        lemma_decimal_injective(m1, m2);
    }
}

/// Appends the decimal digits of `n` to `out`.
fn push_decimal(out: &mut Vec<u8>, n: u128)
    ensures
        final(out)@ == old(out)@ + decimal(n as nat),
{
    let mut digits: Vec<u8> = Vec::new();
    let mut m: u128 = n;
    // Least significant digit first.
    assert(digits@.reverse() =~= Seq::<u8>::empty());
    assert(decimal(n as nat) =~= decimal(m as nat) + digits@.reverse());
    while m >= 10
        invariant
            decimal(n as nat) == decimal(m as nat) + digits@.reverse(),
        decreases m,
    {
        let d = (48 + m % 10) as u8;
        let ghost before = digits@;
        digits.push(d);
        proof {
            assert(digits@.reverse() =~= seq![d] + before.reverse());
            assert(decimal(m as nat) == decimal((m / 10) as nat).push(d));
            assert(decimal((m / 10) as nat) + digits@.reverse() =~= decimal((m / 10) as nat).push(d)
                + before.reverse());
        }
        m = m / 10;
    }
    let d = (48 + m) as u8;
    let ghost before = digits@;
    digits.push(d);
    proof {
        assert(digits@.reverse() =~= seq![d] + before.reverse());
        assert(decimal(m as nat) == seq![d]);
    }
    let ghost start = out@;
    let mut i: usize = digits.len();
    while i > 0
        invariant
            i <= digits@.len(),
            out@ == start + digits@.reverse().subrange(0, (digits@.len() - i) as int),
            decimal(n as nat) == digits@.reverse(),
        decreases i,
    {
        i = i - 1;
        out.push(digits[i]);
        assert(out@ =~= start + digits@.reverse().subrange(0, (digits@.len() - i) as int));
    }
    assert(digits@.reverse().subrange(0, digits@.len() as int) =~= digits@.reverse());
}

/// The bytes of the file name `<random>-<millis>`.
pub fn file_name_from(random: u64, millis: u128) -> (r: Vec<u8>)
    ensures
        r@ == file_name(random as nat, millis as nat),
{
    let mut out: Vec<u8> = Vec::new();
    push_decimal(&mut out, random as u128);
    out.push(45u8);
    push_decimal(&mut out, millis);
    out
}

} // verus!
