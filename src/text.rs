//! Decimal text of numbers, as the document format writes them.
use vstd::prelude::*;

verus! {

/// Decimal digits of `n`, without leading zeros.
pub open spec fn dec(n: nat) -> Seq<u8>
    decreases n,
{
    if n < 10 {
        seq![(48 + n) as u8]
    } else {
        dec(n / 10).push((48 + n % 10) as u8)
    }
}

/// The last `w` decimal digits of `n`, with leading zeros.
pub open spec fn pad(n: nat, w: nat) -> Seq<u8>
    decreases w,
{
    if w == 0 {
        seq![]
    } else {
        pad(n / 10, (w - 1) as nat).push((48 + n % 10) as u8)
    }
}

/// The number that a run of decimal digits spells.
pub open spec fn digits_value(s: Seq<u8>) -> int
    decreases s.len(),
{
    if s.len() == 0 {
        0
    } else {
        digits_value(s.drop_last()) * 10 + (s.last() - 48)
    }
}

pub open spec fn pow10(w: nat) -> nat
    decreases w,
{
    if w == 0 {
        1
    } else {
        10 * pow10((w - 1) as nat)
    }
}

/// Zero-padded digits read back give the number, when it fits the width.
pub proof fn lemma_pad_value(n: nat, w: nat)
    requires
        n < pow10(w),
    ensures
        pad(n, w).len() == w,
        digits_value(pad(n, w)) == n,
    decreases w,
{
    if w > 0 {
        assert(n / 10 < pow10((w - 1) as nat));
        lemma_pad_value(n / 10, (w - 1) as nat);
        let p = pad(n, w);
        assert(p.drop_last() =~= pad(n / 10, (w - 1) as nat));
    }
}

/// Appends the decimal digits of `n`.
pub fn push_dec(out: &mut Vec<u8>, n: u64)
    ensures
        final(out)@ == old(out)@ + dec(n as nat),
    decreases n,
{
    if n >= 10 {
        push_dec(out, n / 10);
    }
    out.push(48u8 + (n % 10) as u8);
    assert(final(out)@ =~= old(out)@ + dec(n as nat));
}

/// Appends the last `w` decimal digits of `n`, with leading zeros.
pub fn push_pad(out: &mut Vec<u8>, n: u64, w: u64)
    ensures
        final(out)@ == old(out)@ + pad(n as nat, w as nat),
    decreases w,
{
    if w > 0 {
        push_pad(out, n / 10, w - 1);
        out.push(48u8 + (n % 10) as u8);
        assert(final(out)@ =~= old(out)@ + pad(n as nat, w as nat));
    }
}

/// A signed whole number: a minus sign when negative, then its digits.
pub open spec fn int_text(n: int) -> Seq<u8> {
    if n < 0 {
        seq![45u8] + dec((-n) as nat)
    } else {
        dec(n as nat)
    }
}

/// A number given in thousandths, written with three decimals.
pub open spec fn fixed_text(n: int) -> Seq<u8> {
    let a: nat = (if n < 0 { -n } else { n }) as nat;
    (if n < 0 { seq![45u8] } else { Seq::<u8>::empty() }) + dec(a / 1000) + seq![46u8] + pad(
        a % 1000,
        3,
    )
}

/// Appends a signed whole number.
pub fn push_int(out: &mut Vec<u8>, n: i64)
    ensures
        final(out)@ == old(out)@ + int_text(n as int),
{
    let ghost start = out@;
    if n < 0 {
        out.push(45u8);
        let a: u64 = (-(n as i128)) as u64;
        push_dec(out, a);
    } else {
        push_dec(out, n as u64);
    }
    assert(out@ =~= start + int_text(n as int));
}

/// Appends a number given in thousandths, with three decimals.
pub fn push_fixed(out: &mut Vec<u8>, n: i64)
    ensures
        final(out)@ == old(out)@ + fixed_text(n as int),
{
    let ghost start = out@;
    let a: u64 = if n < 0 {
        out.push(45u8);
        (-(n as i128)) as u64
    } else {
        n as u64
    };
    push_dec(out, a / 1000);
    out.push(46u8);
    push_pad(out, a % 1000, 3);
    assert(out@ =~= start + fixed_text(n as int));
}

} // verus!
