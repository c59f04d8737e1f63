//! Decimal digit strings: the spec-level digit form of a number, its value,
//! and verified routines that format and parse digits on the wire.

use vstd::prelude::*;
use crate::frame::is_digit;

verus! {

/// Decimal digit bytes of `n`, most significant first, no leading zeros.
pub open spec fn spec_digits(n: nat) -> Seq<u8>
    decreases n,
{
    if n < 10 {
        seq![(48 + n) as u8]
    } else {
        spec_digits(n / 10) + seq![(48 + n % 10) as u8]
    }
}

/// Decimal form with a '-' sign exactly when `v` is negative.
pub open spec fn spec_decimal(v: int) -> Seq<u8> {
    if v >= 0 {
        spec_digits(v as nat)
    } else {
        seq![45u8] + spec_digits((-v) as nat)
    }
}

/// Decimal form with an explicit sign byte, as integer lines carry it.
pub open spec fn spec_signed(v: int) -> Seq<u8> {
    if v >= 0 {
        seq![43u8] + spec_digits(v as nat)
    } else {
        seq![45u8] + spec_digits((-v) as nat)
    }
}

pub open spec fn all_digits(s: Seq<u8>) -> bool {
    forall|i: int| 0 <= i < s.len() ==> is_digit(#[trigger] s[i])
}

/// The number a digit string denotes.
pub open spec fn digits_val(s: Seq<u8>) -> nat
    decreases s.len(),
{
    if s.len() == 0 {
        0
    } else {
        digits_val(s.drop_last()) * 10 + (s.last() - 48) as nat
    }
}

/// The digit strings the encoder emits: nonempty, digits only, and no
/// leading zero unless the string is exactly "0".
pub open spec fn digits_canonical(s: Seq<u8>) -> bool {
    s.len() >= 1 && all_digits(s) && (s.len() == 1 || s[0] != 48)
}

/// The digit form of a number is canonical and denotes the number.
pub proof fn lemma_spec_digits(n: nat)
    ensures
        digits_canonical(spec_digits(n)),
        digits_val(spec_digits(n)) == n,
        n < 10 ==> spec_digits(n).len() == 1,
        n >= 1 ==> spec_digits(n)[0] != 48,
    decreases n,
{
    if n < 10 {
        let s = spec_digits(n);
        assert(s == seq![(48 + n) as u8]);
        assert(s.drop_last() =~= Seq::<u8>::empty());
        assert(s.last() == (48 + n) as u8);
        assert(digits_val(s.drop_last()) == 0);
        assert(digits_val(s) == 0 * 10 + ((48 + n) as u8 - 48) as nat);
    } else {
        lemma_spec_digits(n / 10);
        let p = spec_digits(n / 10);
        let s = spec_digits(n);
        assert(s == p + seq![(48 + n % 10) as u8]);
        assert(s.drop_last() =~= p);
        assert(s.last() == (48 + n % 10) as u8);
        assert(digits_val(s) == digits_val(p) * 10 + n % 10);
        assert(n / 10 >= 1);
        assert(s[0] == p[0]);
    }
}

/// Reading one more digit multiplies the value by ten and adds the digit.
pub proof fn lemma_digits_val_step(s: Seq<u8>, j: int)
    requires
        0 <= j < s.len(),
    ensures
        digits_val(s.take(j + 1)) == digits_val(s.take(j)) * 10 + (s[j] - 48) as nat,
{
    assert(s.take(j + 1).drop_last() =~= s.take(j));
    assert(s.take(j + 1).last() == s[j]);
}

/// A digit string denotes at least as much as any of its prefixes.
pub proof fn lemma_digits_val_prefix_le(s: Seq<u8>, j: int)
    requires
        0 <= j <= s.len(),
    ensures
        digits_val(s.take(j)) <= digits_val(s),
    decreases s.len() - j,
{
    if j == s.len() {
        assert(s.take(j) =~= s);
    } else {
        lemma_digits_val_step(s, j);
        lemma_digits_val_prefix_le(s, j + 1);
    }
}

/// Checks that `buf[from..to]` holds decimal digits only.
pub fn check_all_digits(buf: &[u8], from: usize, to: usize) -> (r: bool)
    requires
        0 <= from <= to <= buf@.len(),
    ensures
        r == all_digits(buf@.subrange(from as int, to as int)),
{
    let ghost s = buf@.subrange(from as int, to as int);
    let mut j: usize = from;
    while j < to
        invariant
            from <= j <= to <= buf@.len(),
            s == buf@.subrange(from as int, to as int),
            forall|i: int| 0 <= i < j - from ==> is_digit(#[trigger] s[i]),
        decreases to - j,
    {
        let b = buf[j];
        proof {
            assert(s[j - from] == buf@[j as int]);
        }
        if !(48 <= b && b <= 57) {
            return false;
        }
        j = j + 1;
    }
    true
}

/// Parses the digits `buf[from..to]` as a number, refusing values above
/// `bound`; the refusal needs no more memory however long the run of
/// digits is.
pub fn parse_digits_bounded(buf: &[u8], from: usize, to: usize, bound: u128) -> (r: Option<u128>)
    requires
        0 <= from <= to <= buf@.len(),
        all_digits(buf@.subrange(from as int, to as int)),
    ensures
        match r {
            Option::Some(v) => v as nat == digits_val(buf@.subrange(from as int, to as int))
                && v <= bound,
            Option::None => digits_val(buf@.subrange(from as int, to as int)) > bound,
        },
{
    let ghost s = buf@.subrange(from as int, to as int);
    let mut acc: u128 = 0;
    let mut j: usize = from;
    while j < to
        invariant
            from <= j <= to <= buf@.len(),
            s == buf@.subrange(from as int, to as int),
            all_digits(s),
            acc as nat == digits_val(s.take(j - from)),
            acc <= bound,
        decreases to - j,
    {
        proof {
            assert(s[j - from] == buf@[j as int]);
            assert(is_digit(s[j - from]));
        }
        let d = buf[j] - 48;
        proof {
            lemma_digits_val_step(s, j - from);
        }
        let next = match acc.checked_mul(10) {
            Option::Some(m) => m.checked_add(d as u128),
            Option::None => Option::None,
        };
        match next {
            Option::Some(nv) => {
                if nv > bound {
                    proof {
                        lemma_digits_val_prefix_le(s, j + 1 - from);
                    }
                    return Option::None;
                }
                acc = nv;
            },
            Option::None => {
                proof {
                    assert(digits_val(s.take(j + 1 - from)) > u128::MAX);
                    lemma_digits_val_prefix_le(s, j + 1 - from);
                }
                return Option::None;
            },
        }
        j = j + 1;
    }
    proof {
        assert(s.take(to - from) =~= s);
    }
    Option::Some(acc)
}

/// Appends the decimal digits of `n` to `out`.
pub fn push_digits_u128(n: u128, out: &mut Vec<u8>)
    ensures
        final(out)@ == old(out)@ + spec_digits(n as nat),
    decreases n,
{
    if n < 10 {
        out.push(48 + n as u8);
    } else {
        push_digits_u128(n / 10, out);
        out.push(48 + (n % 10) as u8);
        proof {
            assert(out@ =~= old(out)@ + spec_digits(n as nat));
        }
    }
}

} // verus!
