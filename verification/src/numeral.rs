//! Positional numerals: digit sequences, most significant digit first, and the numbers they stand
//! for.

use vstd::arithmetic::div_mod::{lemma_fundamental_div_mod, lemma_fundamental_div_mod_converse};
use vstd::arithmetic::power::{lemma_pow0, lemma_pow1, lemma_pow_adds, pow};
use vstd::prelude::*;

verus! {

/// The number that `digits` stand for in `base`.
pub open spec fn value(digits: Seq<nat>, base: nat) -> nat
    decreases digits.len(),
{
    if digits.len() == 0 {
        0
    } else {
        value(digits.drop_last(), base) * base + digits.last()
    }
}

/// The digits of `n` in `base` without a leading zero; zero has no digits.
pub open spec fn numeral(n: nat, base: nat) -> Seq<nat>
    decreases n,
{
    if n == 0 || base < 2 {
        Seq::empty()
    } else {
        proof {
            assert(n / base < n) by (nonlinear_arith)
                requires
                    n > 0,
                    base >= 2,
            ;
        }
        numeral(n / base, base).push(n % base)
    }
}

/// `count` zero digits.
pub open spec fn zeros(count: nat) -> Seq<nat> {
    Seq::new(count, |i: int| 0)
}

/// How many zero digits `digits` begin with.
pub open spec fn leading_zeros(digits: Seq<nat>) -> nat
    decreases digits.len(),
{
    if digits.len() > 0 && digits[0] == 0 {
        1 + leading_zeros(digits.drop_first())
    } else {
        0
    }
}

/// Every digit is smaller than `base`.
pub open spec fn digits_below(digits: Seq<nat>, base: nat) -> bool {
    forall|i: int| 0 <= i < digits.len() ==> #[trigger] digits[i] < base
}

/// `digits`, read as a number in base `from` with a run of zeros in front, written in base `to`
/// with the same run of zeros in front.
pub open spec fn convert(digits: Seq<nat>, from: nat, to: nat) -> Seq<nat> {
    zeros(leading_zeros(digits)) + numeral(value(digits, from), to)
}

/// A numeral stands for the number that it was made from, has digits below its base and does not
/// begin with a zero.
pub proof fn lemma_numeral(n: nat, base: nat)
    requires
        base >= 2,
    ensures
        value(numeral(n, base), base) == n,
        digits_below(numeral(n, base), base),
        numeral(n, base).len() > 0 ==> numeral(n, base)[0] != 0,
        n == 0 <==> numeral(n, base).len() == 0,
    decreases n,
{
    if n > 0 {
        let rest = numeral(n / base, base);
        assert(n / base < n) by (nonlinear_arith)
            requires
                n > 0,
                base >= 2,
        ;
        lemma_numeral(n / base, base);
        lemma_fundamental_div_mod(n as int, base as int);
        assert(rest.push(n % base).drop_last() =~= rest);
        assert((n / base) * base == base * (n / base)) by (nonlinear_arith);
        assert(n % base < base) by (nonlinear_arith)
            requires
                base >= 2,
        ;
        if rest.len() == 0 {
            assert(n / base == 0);
            assert(n % base == n);
        }
    }
}

/// Digits that do not begin with a zero are the numeral of the number that they stand for.
pub proof fn lemma_numeral_of_value(digits: Seq<nat>, base: nat)
    requires
        base >= 2,
        digits_below(digits, base),
        digits.len() > 0 ==> digits[0] != 0,
    ensures
        numeral(value(digits, base), base) == digits,
        digits.len() > 0 ==> value(digits, base) > 0,
    decreases digits.len(),
{
    if digits.len() > 0 {
        let front = digits.drop_last();
        let last = digits.last();
        assert(digits[digits.len() - 1] < base);
        assert forall|i: int| 0 <= i < front.len() implies #[trigger] front[i] < base by {
            assert(front[i] == digits[i]);
        }
        lemma_numeral_of_value(front, base);
        let high = value(front, base);
        let n = value(digits, base);
        assert(n == high * base + last);
        lemma_fundamental_div_mod_converse(n as int, base as int, high as int, last as int);
        assert(n > 0) by {
            if front.len() == 0 {
                assert(digits[0] == last);
            } else {
                assert(high * base > 0) by (nonlinear_arith)
                    requires
                        high > 0,
                        base >= 2,
                ;
            }
        }
        assert(front.push(last) =~= digits);
    }
}

/// Zeros in front do not change the number.
pub proof fn lemma_value_of_padded(count: nat, digits: Seq<nat>, base: nat)
    ensures
        value(zeros(count) + digits, base) == value(digits, base),
    decreases count + digits.len(),
{
    let padded = zeros(count) + digits;
    if digits.len() > 0 {
        assert(padded.drop_last() =~= zeros(count) + digits.drop_last());
        assert(padded.last() == digits.last());
        lemma_value_of_padded(count, digits.drop_last(), base);
    } else if count > 0 {
        assert(padded.drop_last() =~= zeros((count - 1) as nat) + digits);
        assert(padded.last() == 0);
        lemma_value_of_padded((count - 1) as nat, digits, base);
        assert(0 * base == 0) by (nonlinear_arith);
    } else {
        assert(padded =~= digits);
    }
}

/// Digits are a run of zeros followed by digits that do not begin with a zero.
pub proof fn lemma_split_leading_zeros(digits: Seq<nat>)
    ensures
        leading_zeros(digits) <= digits.len(),
        digits == zeros(leading_zeros(digits)) + digits.skip(leading_zeros(digits) as int),
        leading_zeros(digits) < digits.len() ==> digits[leading_zeros(digits) as int] != 0,
    decreases digits.len(),
{
    let count = leading_zeros(digits);
    if digits.len() > 0 && digits[0] == 0 {
        let rest = digits.drop_first();
        lemma_split_leading_zeros(rest);
        let inner = leading_zeros(rest);
        assert(rest =~= zeros(inner) + rest.skip(inner as int));
        assert forall|i: int| 0 <= i < digits.len() implies digits[i] == (zeros(count)
            + digits.skip(count as int))[i] by {
            if 0 < i {
                assert(digits[i] == rest[i - 1]);
                assert(rest[i - 1] == (zeros(inner) + rest.skip(inner as int))[i - 1]);
            }
        }
        assert(digits =~= zeros(count) + digits.skip(count as int));
    } else {
        assert(digits =~= zeros(count) + digits.skip(count as int));
    }
}

/// A run of zeros in front of digits that do not begin with a zero is all of the leading zeros.
pub proof fn lemma_leading_zeros_of_padded(count: nat, digits: Seq<nat>)
    requires
        digits.len() > 0 ==> digits[0] != 0,
    ensures
        leading_zeros(zeros(count) + digits) == count,
    decreases count,
{
    let padded = zeros(count) + digits;
    if count > 0 {
        assert(padded.drop_first() =~= zeros((count - 1) as nat) + digits);
        lemma_leading_zeros_of_padded((count - 1) as nat, digits);
    } else {
        assert(padded =~= digits);
    }
}

/// Converting digits to another base and back gives the digits that were started from.
pub proof fn lemma_convert_roundtrip(digits: Seq<nat>, from: nat, to: nat)
    requires
        from >= 2,
        to >= 2,
        digits_below(digits, from),
    ensures
        digits_below(convert(digits, from, to), to),
        convert(convert(digits, from, to), to, from) == digits,
{
    let count = leading_zeros(digits);
    let rest = digits.skip(count as int);
    let n = value(digits, from);
    lemma_split_leading_zeros(digits);
    lemma_value_of_padded(count, rest, from);
    assert forall|i: int| 0 <= i < rest.len() implies #[trigger] rest[i] < from by {
        assert(rest[i] == digits[i + count]);
    }
    if rest.len() > 0 {
        assert(rest[0] == digits[count as int]);
    }
    lemma_numeral_of_value(rest, from);
    lemma_numeral(n, to);
    lemma_leading_zeros_of_padded(count, numeral(n, to));
    lemma_value_of_padded(count, numeral(n, to), to);
    let converted = convert(digits, from, to);
    assert forall|i: int| 0 <= i < converted.len() implies #[trigger] converted[i] < to by {
        if i >= count {
            assert(converted[i] == numeral(n, to)[i - count]);
        }
    }
}

/// Bytes taken as digits.
pub open spec fn as_digits(bytes: Seq<u8>) -> Seq<nat> {
    bytes.map_values(|b: u8| b as nat)
}

/// The number that `digits`, least significant digit first, stand for in `base`.
spec fn low_first_value(digits: Seq<nat>, base: nat) -> nat
    decreases digits.len(),
{
    if digits.len() == 0 {
        0
    } else {
        low_first_value(digits.drop_first(), base) * base + digits[0]
    }
}

/// The digits of `acc * factor + carry` in `base`, least significant digit first, as schoolbook
/// multiplication writes them.
spec fn multiplied(acc: Seq<nat>, factor: nat, carry: nat, base: nat) -> Seq<nat>
    decreases acc.len(), carry,
    when base >= 2
{
    if acc.len() > 0 {
        let sum = acc[0] * factor + carry;
        seq![sum % base] + multiplied(acc.drop_first(), factor, sum / base, base)
    } else if carry > 0 {
        proof {
            assert(carry / base < carry) by (nonlinear_arith)
                requires
                    carry > 0,
                    base >= 2,
            ;
        }
        seq![carry % base] + multiplied(acc, factor, carry / base, base)
    } else {
        Seq::empty()
    }
}

/// Digits, least significant first, that are below `base` and do not end with a zero.
spec fn low_first_wf(digits: Seq<nat>, base: nat) -> bool {
    &&& digits_below(digits, base)
    &&& digits.len() > 0 ==> digits.last() != 0
}

proof fn lemma_multiplied(acc: Seq<nat>, factor: nat, carry: nat, base: nat)
    requires
        base >= 2,
        factor >= 1,
        low_first_wf(acc, base),
    ensures
        low_first_value(multiplied(acc, factor, carry, base), base) == low_first_value(acc, base)
            * factor + carry,
        low_first_wf(multiplied(acc, factor, carry, base), base),
        acc.len() > 0 || carry > 0 ==> multiplied(acc, factor, carry, base).len() > 0,
    decreases acc.len(), carry,
{
    let result = multiplied(acc, factor, carry, base);
    if acc.len() > 0 || carry > 0 {
        let first: nat = if acc.len() > 0 {
            acc[0]
        } else {
            0
        };
        let sum = first * factor + carry;
        let high = if acc.len() > 0 {
            acc.drop_first()
        } else {
            acc
        };
        assert(0 * factor == 0) by (nonlinear_arith);
        if acc.len() > 0 {
            assert forall|i: int| 0 <= i < high.len() implies #[trigger] high[i] < base by {
                assert(high[i] == acc[i + 1]);
            }
        } else {
            assert(carry / base < carry) by (nonlinear_arith)
                requires
                    carry > 0,
                    base >= 2,
            ;
        }
        lemma_multiplied(high, factor, sum / base, base);
        let rest = multiplied(high, factor, sum / base, base);
        assert(result =~= seq![sum % base] + rest);
        assert(result.drop_first() =~= rest);
        lemma_fundamental_div_mod(sum as int, base as int);
        assert(sum % base < base) by (nonlinear_arith)
            requires
                base >= 2,
        ;
        assert forall|i: int| 0 <= i < result.len() implies #[trigger] result[i] < base by {
            if i > 0 {
                assert(result[i] == rest[i - 1]);
            }
        }
        let h = low_first_value(high, base);
        assert((h * factor + sum / base) * base + sum % base == (h * base + first) * factor + carry)
            by (nonlinear_arith)
            requires
                sum == base * (sum / base) + sum % base,
                sum == first * factor + carry,
        ;
        if acc.len() == 0 {
            assert(low_first_value(acc, base) == 0);
            assert(0 * base == 0) by (nonlinear_arith);
        }
        if rest.len() == 0 {
            assert(sum / base == 0);
            assert(sum % base == sum);
            if acc.len() > 0 {
                assert(first * factor > 0) by (nonlinear_arith)
                    requires
                        first > 0,
                        factor >= 1,
                ;
            }
            assert(result.last() == sum);
        } else {
            assert(result.last() == rest.last());
        }
    } else {
        assert(0 * factor == 0) by (nonlinear_arith);
    }
}

/// Digits written the other way round stand for the same number read the other way round.
proof fn lemma_reversed_value(digits: Seq<nat>, base: nat)
    ensures
        value(digits.reverse(), base) == low_first_value(digits, base),
    decreases digits.len(),
{
    if digits.len() > 0 {
        lemma_reversed_value(digits.drop_first(), base);
        assert(digits.reverse().drop_last() =~= digits.drop_first().reverse());
        assert(digits.reverse().last() == digits[0]);
    }
}

/// Replaces `acc`, digits in base `base` with the least significant first, by the digits of
/// `acc * factor + carry`.
fn multiply_digits(acc: &mut Vec<u8>, factor: u32, carry: u32, base: u32)
    requires
        2 <= base <= 256,
        2 <= factor <= 256,
        carry < factor,
        digits_below(as_digits(old(acc)@), base as nat),
    ensures
        as_digits(final(acc)@) == multiplied(
            as_digits(old(acc)@),
            factor as nat,
            carry as nat,
            base as nat,
        ),
{
    let ghost before = as_digits(acc@);
    let ghost whole = multiplied(before, factor as nat, carry as nat, base as nat);
    let len = acc.len();
    let mut carry: u32 = carry;
    let mut j: usize = 0;
    assert(before.skip(0) =~= before);
    assert(as_digits(acc@).take(0) + whole =~= whole);
    while j < len
        invariant
            j <= len,
            len == acc@.len(),
            len == before.len(),
            2 <= base <= 256,
            2 <= factor <= 256,
            carry < factor,
            digits_below(before, base as nat),
            forall|k: int| j <= k < len ==> as_digits(acc@)[k] == before[k],
            whole == as_digits(acc@).take(j as int) + multiplied(
                before.skip(j as int),
                factor as nat,
                carry as nat,
                base as nat,
            ),
        decreases len - j,
    {
        let ghost rest = before.skip(j as int);
        let ghost taken = as_digits(acc@).take(j as int);
        assert(as_digits(acc@)[j as int] == before[j as int]);
        assert(acc@[j as int] < base);
        assert(acc@[j as int] * factor <= 255 * 256) by (nonlinear_arith)
            requires
                acc@[j as int] <= 255,
                factor <= 256,
        ;
        let ghost low = acc@[j as int] as nat;
        let sum: u32 = acc[j] as u32 * factor + carry;
        assert(sum / base < factor) by (nonlinear_arith)
            requires
                sum == low * factor + carry,
                low < base,
                carry < factor,
                base >= 2,
        ;
        assert(sum % base < 256) by (nonlinear_arith)
            requires
                2 <= base <= 256,
        ;
        let digit: u8 = (sum % base) as u8;
        acc.set(j, digit);
        proof {
            assert(rest.drop_first() =~= before.skip(j + 1));
            assert(rest[0] == low);
            let step = seq![(sum % base) as nat];
            assert(as_digits(acc@).take(j + 1) =~= taken + step);
            let tail = multiplied(
                before.skip(j + 1),
                factor as nat,
                (sum / base) as nat,
                base as nat,
            );
            assert(taken + (step + tail) =~= taken + step + tail);
        }
        carry = sum / base;
        j += 1;
    }
    assert(before.skip(len as int) =~= Seq::<nat>::empty());
    assert(as_digits(acc@).take(len as int) =~= as_digits(acc@));
    while carry > 0
        invariant
            2 <= base <= 256,
            carry < 256,
            whole == as_digits(acc@) + multiplied(
                Seq::<nat>::empty(),
                factor as nat,
                carry as nat,
                base as nat,
            ),
        decreases carry,
    {
        let ghost done = as_digits(acc@);
        assert(carry % base < 256) by (nonlinear_arith)
            requires
                2 <= base <= 256,
        ;
        assert(carry / base < carry) by (nonlinear_arith)
            requires
                carry > 0,
                base >= 2,
        ;
        let digit: u8 = (carry % base) as u8;
        acc.push(digit);
        proof {
            let step = seq![(carry % base) as nat];
            assert(as_digits(acc@) =~= done + step);
            let tail = multiplied(
                Seq::<nat>::empty(),
                factor as nat,
                (carry / base) as nat,
                base as nat,
            );
            assert(done + (step + tail) =~= done + step + tail);
        }
        carry = carry / base;
    }
    assert(as_digits(acc@) =~= whole);
}

/// Rewrites a number from base `from` to base `to`, digit for digit with the most significant
/// first; each zero digit in front of the number stays one zero digit.
pub fn convert_digits(digits: &[u8], from: u32, to: u32) -> (converted: Vec<u8>)
    requires
        2 <= from <= 256,
        2 <= to <= 256,
        digits_below(as_digits(digits@), from as nat),
    ensures
        as_digits(converted@) == convert(as_digits(digits@), from as nat, to as nat),
{
    let ghost source = as_digits(digits@);
    let mut acc: Vec<u8> = Vec::new();
    let mut i: usize = 0;
    assert(as_digits(acc@) =~= Seq::<nat>::empty());
    assert(source.take(0) =~= Seq::<nat>::empty());
    while i < digits.len()
        invariant
            i <= digits@.len(),
            2 <= from <= 256,
            2 <= to <= 256,
            source == as_digits(digits@),
            digits_below(source, from as nat),
            low_first_wf(as_digits(acc@), to as nat),
            low_first_value(as_digits(acc@), to as nat) == value(source.take(i as int), from as nat),
        decreases digits@.len() - i,
    {
        assert(source[i as int] < from);
        let digit: u32 = digits[i] as u32;
        proof {
            lemma_multiplied(as_digits(acc@), from as nat, digit as nat, to as nat);
            assert(source.take(i + 1).drop_last() =~= source.take(i as int));
        }
        multiply_digits(&mut acc, from, digit, to);
        i += 1;
    }
    let mut converted: Vec<u8> = Vec::new();
    let mut z: usize = 0;
    assert(source.take(i as int) =~= source);
    assert(source.skip(0) =~= source);
    assert(as_digits(converted@) =~= zeros(0));
    while z < digits.len() && digits[z] == 0
        invariant
            z <= digits@.len(),
            source == as_digits(digits@),
            as_digits(converted@) =~= zeros(z as nat),
            leading_zeros(source) == z + leading_zeros(source.skip(z as int)),
        decreases digits@.len() - z,
    {
        assert(source.skip(z as int)[0] == source[z as int]);
        assert(source.skip(z as int).drop_first() =~= source.skip(z + 1));
        let ghost done = as_digits(converted@);
        converted.push(0);
        assert(as_digits(converted@) =~= done.push(0));
        assert(zeros(z as nat + 1) =~= zeros(z as nat).push(0));
        z += 1;
    }
    proof {
        if z < digits@.len() {
            assert(source.skip(z as int)[0] == source[z as int]);
        }
        assert(leading_zeros(source) == z);
    }
    let ghost number = as_digits(acc@).reverse();
    let ghost front = as_digits(converted@);
    let mut k: usize = acc.len();
    assert(number.take(0) =~= Seq::<nat>::empty());
    assert(front + Seq::<nat>::empty() =~= front);
    while k > 0
        invariant
            k <= acc@.len(),
            number == as_digits(acc@).reverse(),
            as_digits(converted@) == front + number.take(acc@.len() - k),
        decreases k,
    {
        k -= 1;
        let ghost done = as_digits(converted@);
        converted.push(acc[k]);
        proof {
            assert(as_digits(converted@) =~= done.push(acc@[k as int] as nat));
            assert(number.take(acc@.len() - k) =~= number.take(acc@.len() - k - 1).push(
                acc@[k as int] as nat,
            ));
            assert(as_digits(converted@) =~= front + number.take(acc@.len() - k));
        }
    }
    proof {
        assert(number.take(acc@.len() as int) =~= number);
        lemma_reversed_value(as_digits(acc@), to as nat);
        assert forall|i: int| 0 <= i < number.len() implies #[trigger] number[i] < to by {
            assert(number[i] == as_digits(acc@)[acc@.len() - 1 - i]);
        }
        if number.len() > 0 {
            assert(number[0] == as_digits(acc@).last());
        }
        lemma_numeral_of_value(number, to as nat);
    }
    converted
}

/// A digit stands for itself, and digits with more digits after them stand for the number that they
/// stand for times a power of the base, plus the number that the digits after them stand for.
pub proof fn lemma_value_of_concatenation(high: Seq<nat>, low: Seq<nat>, digit: nat, base: nat)
    ensures
        value(seq![digit], base) == digit,
        value(high + low, base) == value(high, base) * pow(base as int, low.len()) + value(
            low,
            base,
        ),
    decreases low.len(),
{
    let one = seq![digit];
    assert(one.drop_last() =~= Seq::<nat>::empty());
    assert(value(one.drop_last(), base) == 0);
    assert(0 * base == 0) by (nonlinear_arith);
    if low.len() > 0 {
        let front = low.drop_last();
        lemma_value_of_concatenation(high, front, digit, base);
        assert((high + low).drop_last() =~= high + front);
        lemma_pow_adds(base as int, front.len(), 1);
        lemma_pow1(base as int);
        let h = value(high, base);
        let p = pow(base as int, front.len());
        let f = value(front, base);
        assert((h * p + f) * base == h * (p * base) + f * base) by (nonlinear_arith);
    } else {
        assert(high + low =~= high);
        lemma_pow0(base as int);
        assert(value(high, base) * 1 == value(high, base)) by (nonlinear_arith);
    }
}

/// Converting digits keeps the number and the count of the zeros in front of it, and writes the
/// number without another zero in front and with digits of the new base.
pub proof fn lemma_convert(digits: Seq<nat>, count: nat, from: nat, to: nat)
    requires
        from >= 2,
        to >= 2,
        forall|i: int| 0 <= i < digits.len() ==> #[trigger] digits[i] < from,
        count <= digits.len(),
        forall|i: int| 0 <= i < count ==> #[trigger] digits[i] == 0,
        count < digits.len() ==> digits[count as int] != 0,
    ensures
        value(convert(digits, from, to), to) == value(digits, from),
        forall|i: int|
            0 <= i < convert(digits, from, to).len() ==> #[trigger] convert(digits, from, to)[i] < to,
        count <= convert(digits, from, to).len(),
        forall|i: int| 0 <= i < count ==> #[trigger] convert(digits, from, to)[i] == 0,
        count < convert(digits, from, to).len() ==> convert(digits, from, to)[count as int] != 0,
        count == digits.len() <==> count == convert(digits, from, to).len(),
{
    let rest = digits.skip(count as int);
    let n = value(digits, from);
    let converted = convert(digits, from, to);
    assert(zeros(count) + rest =~= digits);
    lemma_leading_zeros_of_padded(count, rest);
    lemma_convert_roundtrip(digits, from, to);
    lemma_value_of_padded(count, numeral(n, to), to);
    lemma_value_of_padded(count, rest, from);
    lemma_numeral(n, to);
    assert forall|i: int| 0 <= i < rest.len() implies #[trigger] rest[i] < from by {
        assert(rest[i] == digits[i + count]);
    }
    lemma_numeral_of_value(rest, from);
    if count < converted.len() {
        assert(converted[count as int] == numeral(n, to)[0]);
    }
    assert(rest.len() == 0 ==> value(rest, from) == 0);
}

} // verus!
