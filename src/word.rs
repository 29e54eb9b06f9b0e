use vstd::prelude::*;

verus! {

/// The natural number that a big-endian byte string denotes.
pub open spec fn be_nat(s: Seq<u8>) -> nat
    decreases s.len(),
{
    if s.len() == 0 {
        0
    } else {
        be_nat(s.drop_last()) * 256 + s.last() as nat
    }
}

/// `256` to the power `n`.
pub open spec fn pow256(n: nat) -> nat
    decreases n,
{
    if n == 0 {
        1
    } else {
        256 * pow256((n - 1) as nat)
    }
}

/// The two's-complement value of a big-endian byte string: its unsigned value,
/// less `256^len` when the top bit of its first byte is set.
pub open spec fn signed_of(s: Seq<u8>) -> int {
    if s.len() > 0 && s[0] >= 128 {
        be_nat(s) - pow256(s.len())
    } else {
        be_nat(s) as int
    }
}

pub proof fn lemma_pow256_positive(n: nat)
    ensures
        pow256(n) >= 1,
    decreases n,
{
    if n > 0 {
        lemma_pow256_positive((n - 1) as nat);
    }
}

/// A big-endian string of `n` bytes denotes less than `256^n`.
pub proof fn lemma_be_nat_bound(s: Seq<u8>)
    ensures
        be_nat(s) < pow256(s.len()),
    decreases s.len(),
{
    if s.len() > 0 {
        lemma_be_nat_bound(s.drop_last());
        let a = be_nat(s.drop_last());
        let p = pow256((s.len() - 1) as nat);
        let b = s.last() as nat;
        assert(a * 256 + b < p * 256) by (nonlinear_arith)
            requires
                a < p,
                b < 256,
        ;
    }
}

/// A 256-bit word, as the chain stores it: 32 bytes, most significant first.
#[derive(Clone, Copy, Debug, PartialEq, Eq)]
pub struct Word {
    pub bytes: [u8; 32],
}

impl View for Word {
    type V = Seq<u8>;

    open spec fn view(&self) -> Seq<u8> {
        self.bytes@
    }
}

/// A 160-bit account address, most significant byte first.
#[derive(Clone, Copy, Debug, PartialEq, Eq)]
pub struct Address {
    pub bytes: [u8; 20],
}

impl View for Address {
    type V = Seq<u8>;

    open spec fn view(&self) -> Seq<u8> {
        self.bytes@
    }
}

impl Word {
    /// The unsigned value of the word.
    pub open spec fn value(&self) -> nat {
        be_nat(self@)
    }

    /// The word that holds zero.
    pub fn zero() -> (r: Word)
        ensures
            forall|i: int| 0 <= i < 32 ==> r@[i] == 0,
    {
        Word { bytes: [0u8; 32] }
    }

    /// The word that holds `v`.
    pub fn from_u128(v: u128) -> (r: Word)
        ensures
            r.value() == v as nat,
    {
        let mut bytes = [0u8; 32];
        let mut rest: u128 = v;
        let mut i: usize = 32;
        assert(forall|j: int| 0 <= j < 32 ==> bytes@[j] == 0);
        assert(be_nat(bytes@.subrange(32, 32)) == 0);
        assert(pow256((32 - i) as nat) == 1);
        assert(v as nat == rest as nat * 1 + 0);
        while i > 16
            invariant
                16 <= i <= 32,
                forall|j: int| 0 <= j < i ==> bytes@[j] == 0,
                v as nat == rest as nat * pow256((32 - i) as nat) + be_nat(bytes@.subrange(i as int, 32)),
            decreases i,
        {
            let b: u8 = (rest % 256) as u8;
            let old_bytes = bytes;
            bytes[i - 1] = b;
            proof {
                let s = bytes@.subrange(i - 1, 32);
                let t = bytes@.subrange(i as int, 32);
                assert(old_bytes@.subrange(i as int, 32) =~= t);
                lemma_be_nat_split_first(s);
                assert(s.drop_first() =~= t);
                let p = pow256((32 - i) as nat);
                let r = rest as nat;
                assert(r == (r / 256) * 256 + b as nat);
                assert(r * p == (r / 256) * (256 * p) + b as nat * p) by (nonlinear_arith)
                    requires
                        r == (r / 256) * 256 + b as nat,
                ;
            }
            rest = rest / 256;
            i = i - 1;
        }
        proof {
            assert(rest == 0) by {
                lemma_u128_bound(v);
                lemma_be_nat_bound(bytes@.subrange(16, 32));
                lemma_pow256_positive(16);
                let r = rest as nat;
                let p = pow256(16);
                let l = be_nat(bytes@.subrange(16, 32));
                assert(v as nat >= r * p);
                if r > 0 {
                    assert(r * p >= p) by (nonlinear_arith)
                        requires
                            r >= 1,
                    ;
                }
            }
            lemma_be_nat_leading_zeros(bytes@, 16);
        }
        Word { bytes }
    }
}

pub proof fn lemma_u128_bound(v: u128)
    ensures
        (v as nat) < pow256(16),
        pow256(16) == 0x1_0000_0000_0000_0000_0000_0000_0000_0000nat,
{
    reveal_with_fuel(pow256, 17);
    assert(pow256(16) == 0x1_0000_0000_0000_0000_0000_0000_0000_0000nat);
}

/// The value of a byte string is its first byte, weighted by its place, plus
/// the value of the rest.
pub proof fn lemma_be_nat_split_first(s: Seq<u8>)
    requires
        s.len() > 0,
    ensures
        be_nat(s) == s[0] as nat * pow256((s.len() - 1) as nat) + be_nat(s.drop_first()),
    decreases s.len(),
{
    if s.len() > 1 {
        let d = s.drop_last();
        lemma_be_nat_split_first(d);
        assert(d.drop_first() =~= s.drop_first().drop_last());
        let p = pow256((d.len() - 1) as nat);
        let x = s[0] as nat;
        let rest = be_nat(d.drop_first());
        assert(be_nat(d) == x * p + rest);
        let t = s.drop_first();
        assert(be_nat(t) == be_nat(t.drop_last()) * 256 + t.last() as nat);
        assert(t.last() == s.last());
        assert(d[0] == s[0]);
        assert(be_nat(s) == be_nat(d) * 256 + s.last() as nat);
        assert(pow256((s.len() - 1) as nat) == 256 * p);
        let q = pow256((s.len() - 1) as nat);
        let l = s.last() as nat;
        assert(be_nat(s) == x * q + be_nat(t)) by (nonlinear_arith)
            requires
                be_nat(s) == be_nat(d) * 256 + l,
                be_nat(d) == x * p + rest,
                be_nat(t) == rest * 256 + l,
                q == 256 * p,
        ;
    } else {
        assert(be_nat(s.drop_first()) == 0);
        assert(be_nat(s.drop_last()) == 0);
        assert(pow256(0) == 1);
        assert(s.last() == s[0]);
        assert(be_nat(s) == be_nat(s.drop_last()) * 256 + s.last() as nat);
    }
}

/// Leading zero bytes do not change the value of a byte string.
pub proof fn lemma_be_nat_leading_zeros(s: Seq<u8>, k: int)
    requires
        0 <= k <= s.len(),
        forall|j: int| 0 <= j < k ==> s[j] == 0,
    ensures
        be_nat(s) == be_nat(s.subrange(k, s.len() as int)),
    decreases k,
{
    if k > 0 {
        lemma_be_nat_split_first(s);
        let t = s.drop_first();
        lemma_be_nat_leading_zeros(t, k - 1);
        assert(t.subrange(k - 1, t.len() as int) =~= s.subrange(k, s.len() as int));
    } else {
        assert(s.subrange(0, s.len() as int) =~= s);
    }
}

/// The value of a concatenation: the first part shifted by the length of the
/// second, plus the second.
pub proof fn lemma_be_nat_append(s: Seq<u8>, t: Seq<u8>)
    ensures
        be_nat(s + t) == be_nat(s) * pow256(t.len()) + be_nat(t),
    decreases t.len(),
{
    if t.len() == 0 {
        assert(s + t =~= s);
        assert(pow256(0) == 1);
        assert(be_nat(t) == 0);
    } else {
        lemma_be_nat_append(s, t.drop_last());
        assert((s + t).drop_last() =~= s + t.drop_last());
        let a = be_nat(s);
        let p = pow256((t.len() - 1) as nat);
        let b = be_nat(t.drop_last());
        let l = t.last() as nat;
        assert((a * p + b) * 256 + l == a * (256 * p) + (b * 256 + l)) by (nonlinear_arith);
        assert((s + t).last() == t.last());
        assert(be_nat(s + t) == be_nat((s + t).drop_last()) * 256 + l);
        assert(pow256(t.len()) == 256 * p);
        assert(be_nat(t) == b * 256 + l);
    }
}

/// A string of `0xff` bytes denotes `256^n - 1`.
pub proof fn lemma_be_nat_all_ff(s: Seq<u8>)
    requires
        forall|j: int| 0 <= j < s.len() ==> s[j] == 0xff,
    ensures
        be_nat(s) + 1 == pow256(s.len()),
    decreases s.len(),
{
    if s.len() > 0 {
        lemma_be_nat_all_ff(s.drop_last());
    }
}

pub proof fn lemma_pow256_add(a: nat, b: nat)
    ensures
        pow256(a) * pow256(b) == pow256(a + b),
    decreases b,
{
    if b > 0 {
        lemma_pow256_add(a, (b - 1) as nat);
        let x = pow256(a);
        let y = pow256((b - 1) as nat);
        assert(x * (256 * y) == 256 * (x * y)) by (nonlinear_arith);
        assert(pow256(a + b) == 256 * pow256((a + b - 1) as nat));
        assert(pow256(b) == 256 * y);
    } else {
        assert(pow256(0) == 1);
        assert(pow256(a) * 1 == pow256(a));
    }
}

/// Sign extension keeps the two's-complement value: a string whose first `k`
/// bytes all copy the sign of the rest denotes the same signed value as the
/// rest.
pub proof fn lemma_sign_extension(w: Seq<u8>, k: int)
    requires
        0 <= k < w.len(),
        forall|j: int| 0 <= j < k ==> w[j] == if w[k] >= 128 { 0xffu8 } else { 0u8 },
    ensures
        signed_of(w) == signed_of(w.subrange(k, w.len() as int)),
{
    let hi = w.subrange(0, k);
    let lo = w.subrange(k, w.len() as int);
    assert(w =~= hi + lo);
    lemma_be_nat_append(hi, lo);
    if w[k] >= 128 {
        lemma_be_nat_all_ff(hi);
        lemma_pow256_add(hi.len(), lo.len());
        let p = pow256(lo.len());
        let h = be_nat(hi);
        assert(h * p == pow256(w.len()) - p) by (nonlinear_arith)
            requires
                h + 1 == pow256(hi.len()),
                pow256(hi.len()) * p == pow256(w.len()),
        ;
        if k == 0 {
            assert(lo =~= w);
        }
    } else {
        lemma_be_nat_leading_zeros(w, k);
        if k == 0 {
            assert(lo =~= w);
        }
    }
}

} // verus!
