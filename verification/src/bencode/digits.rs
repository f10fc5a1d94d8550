//! Decimal numbers as they stand in bencode: ASCII digits, no leading zero.

use vstd::prelude::*;

verus! {

/// True for the ASCII digits `0` to `9`.
pub open spec fn is_digit(b: u8) -> bool {
    0x30 <= b <= 0x39
}

/// `n` written in decimal, most significant digit first, without a leading zero.
pub open spec fn digits(n: nat) -> Seq<u8>
    decreases n,
{
    if n < 10 {
        seq![(0x30 + n) as u8]
    } else {
        digits(n / 10).push((0x30 + n % 10) as u8)
    }
}

/// The number that a run of ASCII digits writes, leading zeros included.
pub open spec fn number(s: Seq<u8>) -> nat
    decreases s.len(),
{
    if s.len() == 0 {
        0
    } else {
        number(s.drop_last()) * 10 + (s.last() - 0x30) as nat
    }
}

/// True when every byte of `s` is a digit.
pub open spec fn all_digits(s: Seq<u8>) -> bool {
    forall|i: int| 0 <= i < s.len() ==> is_digit(#[trigger] s[i])
}

/// True when `s` does not continue a run of digits: it is empty or starts with another byte.
pub open spec fn ends_digits(s: Seq<u8>) -> bool {
    s.len() == 0 || !is_digit(s[0])
}

/// Decimal text is a nonempty run of digits that starts with `0` only for zero itself.
pub proof fn lemma_digits_shape(n: nat)
    ensures
        digits(n).len() >= 1,
        all_digits(digits(n)),
        digits(n)[0] == 0x30 ==> n == 0,
    decreases n,
{
    if n >= 10 {
        lemma_digits_shape(n / 10);
    }
}

/// Reading decimal text gives back the number that was written.
pub proof fn lemma_number_of_digits(n: nat)
    ensures
        number(digits(n)) == n,
    decreases n,
{
    if n < 10 {
        let s = digits(n);
        assert(s.drop_last() =~= Seq::<u8>::empty());
        assert(number(s.drop_last()) == 0);
    } else {
        lemma_number_of_digits(n / 10);
        assert(digits(n).drop_last() =~= digits(n / 10));
    }
}

/// A run of digits without a superfluous leading zero is the decimal text of the number it writes.
pub proof fn lemma_digits_of_number(s: Seq<u8>)
    requires
        s.len() >= 1,
        all_digits(s),
        s.len() == 1 || s[0] != 0x30,
    ensures
        digits(number(s)) == s,
        s.len() > 1 ==> number(s) >= 10,
    decreases s.len(),
{
    let init = s.drop_last();
    assert(is_digit(s.last()));
    if s.len() == 1 {
        assert(number(init) == 0);
        assert(digits(number(s)) =~= s);
    } else {
        assert(all_digits(init)) by {
            assert forall|i: int| 0 <= i < init.len() implies is_digit(#[trigger] init[i]) by {
                assert(init[i] == s[i]);
            }
        }
        lemma_digits_of_number(init);
        if init.len() == 1 {
            assert(init[0] == s[0]);
            assert(init.last() == s[0] && is_digit(s[0]));
            assert(init.drop_last() =~= Seq::<u8>::empty());
            assert(number(init.drop_last()) == 0);
            assert(number(init) >= 1);
        }
        let d: nat = (s.last() - 0x30) as nat;
        assert(number(s) == number(init) * 10 + d);
        assert(number(s) / 10 == number(init));
        assert(number(s) % 10 == d);
        assert(digits(number(s)) =~= init.push(s.last()));
        assert(init.push(s.last()) =~= s);
    }
}

/// Decimal text ends where the digits end: two numbers followed by something that is no digit
/// agree as bytes only if they agree as numbers, and what follows them agrees too.
pub proof fn lemma_digits_unique(n: nat, s: Seq<u8>, m: nat, t: Seq<u8>)
    requires
        digits(n) + s == digits(m) + t,
        ends_digits(s),
        ends_digits(t),
    ensures
        n == m,
        s == t,
{
    let a = digits(n);
    let b = digits(m);
    lemma_digits_shape(n);
    lemma_digits_shape(m);
    let whole = a + s;
    if a.len() < b.len() {
        assert(whole[a.len() as int] == b[a.len() as int]);
        assert(whole[a.len() as int] == s[0]);
        assert(s.len() > 0);
    } else if b.len() < a.len() {
        assert(whole[b.len() as int] == a[b.len() as int]);
        assert((b + t)[b.len() as int] == t[0]);
        assert(t.len() > 0);
    }
    assert(a =~= whole.take(a.len() as int));
    assert(b =~= (b + t).take(b.len() as int));
    assert(s =~= whole.skip(a.len() as int));
    assert(t =~= (b + t).skip(b.len() as int));
    lemma_number_of_digits(n);
    lemma_number_of_digits(m);
}

} // verus!
