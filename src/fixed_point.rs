use vstd::prelude::*;
use crate::word::{
    be_nat, lemma_be_nat_bound, lemma_be_nat_split_first, lemma_pow256_positive, pow256, signed_of, Word,
};

verus! {

/// The largest number of decimal places that `format` accepts: `10^77` is the
/// largest power of ten below `2^256`, so the divisor always fits in a word.
pub const MAX_DECIMALS: u32 = 77;

/// Why a value could not be rendered.
#[derive(Clone, Copy, Debug, PartialEq, Eq)]
pub enum FormatError {
    /// `10^decimals` does not fit in 256 bits.
    DecimalsOutOfRange,
}

/// `10` to the power `n`.
pub open spec fn pow10(n: nat) -> nat
    decreases n,
{
    if n == 0 {
        1
    } else {
        10 * pow10((n - 1) as nat)
    }
}

/// The character of a decimal digit.
pub open spec fn digit_char(d: nat) -> char {
    (48 + d) as char
}

/// The decimal representation of `n`, without leading zeros (`"0"` for zero).
pub open spec fn decimal(n: nat) -> Seq<char>
    decreases n,
{
    if n < 10 {
        seq![digit_char(n)]
    } else {
        decimal(n / 10).push(digit_char(n % 10))
    }
}

/// The `k` lowest decimal digits of `n`, most significant first: `n % 10^k`
/// padded with zeros on the left to exactly `k` digits.
pub open spec fn low_digits(n: nat, k: nat) -> Seq<char>
    decreases k,
{
    if k == 0 {
        Seq::empty()
    } else {
        low_digits(n / 10, (k - 1) as nat).push(digit_char(n % 10))
    }
}

/// `v / 10^d` in decimal, then, when `d > 0`, a point and the `d` lowest
/// digits of `v`. With no decimal places there is no point and no fraction.
pub open spec fn fixed_point(v: nat, d: nat) -> Seq<char> {
    if d == 0 {
        decimal(v)
    } else {
        decimal(v / pow10(d)) + seq!['.'] + low_digits(v, d)
    }
}

/// Relies on String::push: the character is appended.
#[verifier::external_body]
fn push_char(s: &mut String, c: char)
    ensures
        final(s)@ == old(s)@.push(c),
{
    s.push(c);
}

fn digit(d: u8) -> (c: char)
    requires
        d < 10,
    ensures
        c == digit_char(d as nat),
{
    (48u8 + d) as char
}

/// Divides a word by ten.
pub fn div10(w: &Word) -> (r: (Word, u8))
    ensures
        r.0.value() == w.value() / 10,
        r.1 as nat == w.value() % 10,
{
    let mut q = [0u8; 32];
    let mut rem: u32 = 0;
    let mut i: usize = 0;
    assert(w@.take(0) =~= Seq::<u8>::empty());
    assert(q@.take(0) =~= Seq::<u8>::empty());
    while i < 32
        invariant
            0 <= i <= 32,
            rem < 10,
            be_nat(w@.take(i as int)) == be_nat(q@.take(i as int)) * 10 + rem as nat,
        decreases 32 - i,
    {
        let t: u32 = rem * 256 + w.bytes[i] as u32;
        let old_q = q;
        q[i] = (t / 10) as u8;
        proof {
            let a = be_nat(q@.take(i as int));
            assert(q@.take(i as int) =~= old_q@.take(i as int));
            assert(q@.take(i + 1).drop_last() =~= q@.take(i as int));
            assert(w@.take(i + 1).drop_last() =~= w@.take(i as int));
            let wi = w.bytes[i as int] as nat;
            let r = rem as nat;
            assert(be_nat(w@.take(i + 1)) == be_nat(w@.take(i as int)) * 256 + wi);
            assert(be_nat(q@.take(i + 1)) == a * 256 + (t / 10) as nat);
            assert((a * 10 + r) * 256 + wi == (a * 256 + (t as nat) / 10) * 10 + (t as nat) % 10)
                by (nonlinear_arith)
                requires
                    t as nat == r * 256 + wi,
            ;
        }
        rem = t % 10;
        i = i + 1;
    }
    assert(w@.take(32) =~= w@);
    assert(q@.take(32) =~= q@);
    (Word { bytes: q }, rem as u8)
}

fn is_zero(w: &Word) -> (r: bool)
    ensures
        r == (w.value() == 0),
{
    let mut i: usize = 0;
    while i < 32
        invariant
            0 <= i <= 32,
            forall|j: int| 0 <= j < i ==> w@[j] == 0,
        decreases 32 - i,
    {
        if w.bytes[i] != 0 {
            proof {
                lemma_nonzero_byte(w@, i as int);
            }
            return false;
        }
        i = i + 1;
    }
    proof {
        crate::word::lemma_be_nat_leading_zeros(w@, 32);
    }
    true
}

proof fn lemma_nonzero_byte(s: Seq<u8>, k: int)
    requires
        0 <= k < s.len(),
        s[k] != 0,
    ensures
        be_nat(s) > 0,
    decreases s.len(),
{
    if k == s.len() - 1 {
    } else {
        lemma_nonzero_byte(s.drop_last(), k);
    }
}

/// Renders `value / 10^decimals`, a point, and `value % 10^decimals` padded to
/// `decimals` digits; with `decimals == 0` the point and fraction are left
/// out. No rounding takes place. Any `decimals` up to `MAX_DECIMALS` is
/// accepted; a larger one is refused.
pub fn format(value: &Word, decimals: u32) -> (r: Result<String, FormatError>)
    ensures
        decimals > MAX_DECIMALS ==> r == Err::<String, FormatError>(FormatError::DecimalsOutOfRange),
        decimals <= MAX_DECIMALS ==> r is Ok && r->Ok_0@ == fixed_point(value.value(), decimals as nat),
{
    if decimals > MAX_DECIMALS {
        return Err(FormatError::DecimalsOutOfRange);
    }
    let chars = render(value, decimals);
    let mut out = String::new();
    append_chars(&mut out, &chars);
    Ok(out)
}

/// The signed value `x` in fixed point: a minus sign before the rendering of
/// its magnitude when it is negative.
pub open spec fn signed_fixed_point(x: int, d: nat) -> Seq<char> {
    if x < 0 {
        seq!['-'] + fixed_point((-x) as nat, d)
    } else {
        fixed_point(x as nat, d)
    }
}

/// Renders a two's-complement word as `format` renders its magnitude, with a
/// leading minus sign when it is negative.
pub fn format_signed(value: &Word, decimals: u32) -> (r: Result<String, FormatError>)
    ensures
        decimals > MAX_DECIMALS ==> r == Err::<String, FormatError>(FormatError::DecimalsOutOfRange),
        decimals <= MAX_DECIMALS ==> r is Ok && r->Ok_0@ == signed_fixed_point(
            signed_of(value@),
            decimals as nat,
        ),
{
    if decimals > MAX_DECIMALS {
        return Err(FormatError::DecimalsOutOfRange);
    }
    let mut out = String::new();
    if value.bytes[0] >= 128 {
        let magnitude = negate(value);
        push_char(&mut out, '-');
        let chars = render(&magnitude, decimals);
        append_chars(&mut out, &chars);
        proof {
            lemma_be_nat_bound(value@);
        }
        assert(out@ =~= seq!['-'] + chars@);
        assert(signed_of(value@) == value.value() - pow256(32));
    } else {
        let chars = render(value, decimals);
        append_chars(&mut out, &chars);
        assert(out@ =~= chars@);
    }
    Ok(out)
}

fn append_chars(out: &mut String, chars: &Vec<char>)
    ensures
        final(out)@ == old(out)@ + chars@,
{
    let ghost head = out@;
    let mut j: usize = 0;
    while j < chars.len()
        invariant
            0 <= j <= chars.len(),
            out@ == head + chars@.take(j as int),
        decreases chars.len() - j,
    {
        push_char(out, chars[j]);
        assert(chars@.take(j + 1) =~= chars@.take(j as int).push(chars@[j as int]));
        j = j + 1;
    }
    assert(chars@.take(chars.len() as int) =~= chars@);
}

/// The magnitude of a negative two's-complement word: `2^256` less its
/// unsigned value.
fn negate(w: &Word) -> (r: Word)
    requires
        w@[0] >= 128,
    ensures
        r.value() == pow256(32) - w.value(),
{
    let mut out = [0u8; 32];
    let mut borrow: u8 = 0;
    let mut i: usize = 32;
    assert(be_nat(out@.subrange(32, 32)) == 0);
    assert(be_nat(w@.subrange(32, 32)) == 0);
    assert(pow256(0) == 1);
    while i > 0
        invariant
            0 <= i <= 32,
            borrow <= 1,
            be_nat(out@.subrange(i as int, 32)) + be_nat(w@.subrange(i as int, 32)) == borrow as nat
                * pow256((32 - i) as nat),
        decreases i,
    {
        let t: u16 = w.bytes[i - 1] as u16 + borrow as u16;
        let old_out = out;
        let (b, nb): (u8, u8) = if t == 0 {
            (0, 0)
        } else {
            ((256 - t) as u8, 1)
        };
        out[i - 1] = b;
        proof {
            let so = out@.subrange(i - 1, 32);
            let sw = w@.subrange(i - 1, 32);
            lemma_be_nat_split_first(so);
            lemma_be_nat_split_first(sw);
            assert(so.drop_first() =~= old_out@.subrange(i as int, 32));
            assert(sw.drop_first() =~= w@.subrange(i as int, 32));
            let p = pow256((32 - i) as nat);
            assert(pow256((32 - (i - 1)) as nat) == 256 * p);
            let bo = b as nat;
            let bw = w@[i - 1] as nat;
            assert(bo * p + bw * p + borrow as nat * p == (bo + bw + borrow as nat) * p)
                by (nonlinear_arith);
            assert((bo + bw + borrow as nat) == nb as nat * 256);
            assert((nb as nat * 256) * p == nb as nat * (256 * p)) by (nonlinear_arith);
        }
        borrow = nb;
        i = i - 1;
    }
    proof {
        assert(out@.subrange(0, 32) =~= out@);
        assert(w@.subrange(0, 32) =~= w@);
        lemma_be_nat_split_first(w@);
        lemma_pow256_positive(31);
        assert(w@[0] as nat * pow256(31) >= 1) by (nonlinear_arith)
            requires
                w@[0] >= 128,
                pow256(31) >= 1,
        ;
        if borrow == 0 {
            assert(false);
        }
    }
    Word { bytes: out }
}

/// The characters of `fixed_point(value, decimals)`.
fn render(value: &Word, decimals: u32) -> (r: Vec<char>)
    ensures
        r@ == fixed_point(value.value(), decimals as nat),
{
    let ghost v = value.value();
    let mut q = *value;
    let mut frac: Vec<char> = Vec::new();
    let mut k: u32 = 0;
    assert(pow10(0) == 1);
    while k < decimals
        invariant
            k <= decimals,
            q.value() == v / pow10(k as nat),
            low_digits(v, decimals as nat) == low_digits(q.value(), (decimals - k) as nat) + frac@,
        decreases decimals - k,
    {
        let (q2, d) = div10(&q);
        proof {
            let qv = q.value();
            let n = (decimals - k) as nat;
            assert(low_digits(qv, n) == low_digits(qv / 10, (n - 1) as nat).push(digit_char(qv % 10)));
            assert(low_digits(qv / 10, (n - 1) as nat) + seq![digit_char(qv % 10)] + frac@
                =~= low_digits(qv / 10, (n - 1) as nat) + (seq![digit_char(qv % 10)] + frac@));
            assert(low_digits(qv / 10, (n - 1) as nat).push(digit_char(qv % 10))
                =~= low_digits(qv / 10, (n - 1) as nat) + seq![digit_char(qv % 10)]);
            lemma_pow10_positive(k as nat);
            vstd::arithmetic::div_mod::lemma_div_denominator(v as int, pow10(k as nat) as int, 10);
            assert(pow10(k as nat + 1) == pow10(k as nat) * 10);
        }
        let c = digit(d);
        let ghost before = frac@;
        frac.insert(0, c);
        assert(frac@ =~= seq![c] + before);
        q = q2;
        k = k + 1;
    }
    assert(low_digits(q.value(), 0) =~= Seq::<char>::empty());
    assert(frac@ =~= low_digits(v, decimals as nat));
    let whole = decimal_of(&q);
    if decimals == 0 {
        return whole;
    }
    let mut out = whole;
    out.push('.');
    let mut frac2 = frac;
    out.append(&mut frac2);
    assert(out@ =~= decimal(q.value()) + seq!['.'] + low_digits(v, decimals as nat));
    out
}

/// The lowest `d` digits of two numbers agree when the numbers agree modulo
/// `10^d`.
proof fn lemma_low_digits_mod(a: nat, b: nat, d: nat)
    requires
        a % pow10(d) == b % pow10(d),
    ensures
        low_digits(a, d) == low_digits(b, d),
    decreases d,
{
    if d > 0 {
        let p = pow10((d - 1) as nat);
        lemma_pow10_positive((d - 1) as nat);
        vstd::arithmetic::div_mod::lemma_breakdown(a as int, 10, p as int);
        vstd::arithmetic::div_mod::lemma_breakdown(b as int, 10, p as int);
        vstd::arithmetic::div_mod::lemma_mod_mod(a as int, 10, p as int);
        vstd::arithmetic::div_mod::lemma_mod_mod(b as int, 10, p as int);
        assert(a % 10 == b % 10);
        assert((a / 10) % p == (b / 10) % p);
        lemma_low_digits_mod(a / 10, b / 10, (d - 1) as nat);
    }
}

/// The fraction that `format` renders is `v % 10^d` padded with zeros to
/// exactly `d` digits: its digits are those of the remainder, and there are
/// `d` of them.
pub proof fn lemma_fraction_is_remainder(v: nat, d: nat)
    ensures
        low_digits(v, d) == low_digits(v % pow10(d), d),
        low_digits(v, d).len() == d,
    decreases d,
{
    lemma_pow10_positive(d);
    vstd::arithmetic::div_mod::lemma_mod_twice(v as int, pow10(d) as int);
    lemma_low_digits_mod(v, v % pow10(d), d);
    if d > 0 {
        lemma_fraction_is_remainder(v / 10, (d - 1) as nat);
    }
}

proof fn lemma_pow10_positive(n: nat)
    ensures
        pow10(n) >= 1,
    decreases n,
{
    if n > 0 {
        lemma_pow10_positive((n - 1) as nat);
    }
}

/// The decimal digits of a word's value.
fn decimal_of(w: &Word) -> (r: Vec<char>)
    ensures
        r@ == decimal(w.value()),
{
    let mut q = *w;
    let mut digits: Vec<char> = Vec::new();
    loop
        invariant
            decimal(w.value()) == decimal(q.value()) + digits@,
        decreases q.value(),
    {
        let (q2, d) = div10(&q);
        let c = digit(d);
        let ghost before = digits@;
        digits.insert(0, c);
        proof {
            let qv = q.value();
            assert(digits@ =~= seq![c] + before);
            if qv < 10 {
                assert(decimal(qv) =~= seq![c]);
            } else {
                assert(decimal(qv) =~= decimal(qv / 10).push(c));
                assert(decimal(qv / 10) + digits@ =~= decimal(qv / 10).push(c) + before);
            }
        }
        if is_zero(&q2) {
            assert(decimal(w.value()) =~= digits@);
            return digits;
        }
        q = q2;
    }
}

} // verus!
