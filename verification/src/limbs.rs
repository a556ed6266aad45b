//! The mathematical model of a limb sequence: the number a sequence of
//! 32-bit limbs denotes in little-endian order, and the lemmas about it
//! that the arithmetic routines rest on.
use vstd::prelude::*;

verus! {

/// The number denoted by a limb sequence, least-significant limb first.
pub open spec fn limbs_val(s: Seq<u32>) -> nat
    decreases s.len(),
{
    if s.len() == 0 {
        0
    } else {
        s[0] as nat + 0x1_0000_0000 * limbs_val(s.drop_first())
    }
}

/// 2^32 raised to the power `e`: the weight of the limb at index `e`.
pub open spec fn pow_base(e: nat) -> nat
    decreases e,
{
    if e == 0 {
        1
    } else {
        0x1_0000_0000 * pow_base((e - 1) as nat)
    }
}

/// A limb sequence in canonical form: never empty, and no superfluous
/// most-significant zero limb (a single zero limb denotes zero).
pub open spec fn is_normal(s: Seq<u32>) -> bool {
    s.len() >= 1 && (s.len() > 1 ==> s.last() != 0)
}

/// The limb at index `i`, reading absent positions as zero.
pub open spec fn limb_at(s: Seq<u32>, i: int) -> u32 {
    if 0 <= i < s.len() {
        s[i]
    } else {
        0
    }
}

/// The number denoted by the first `n` limb positions, reading positions
/// beyond the end of the sequence as zero.
pub open spec fn val_ext(s: Seq<u32>, n: nat) -> nat
    decreases n,
{
    if n == 0 {
        0
    } else {
        val_ext(s, (n - 1) as nat) + limb_at(s, n - 1) as nat * pow_base((n - 1) as nat)
    }
}

/// The number denoted by the limbs from index `i` up, with limb `i`
/// as the least significant.
pub open spec fn val_from(s: Seq<u32>, i: nat) -> nat
    decreases s.len() - i,
{
    if i >= s.len() {
        0
    } else {
        s[i as int] as nat + 0x1_0000_0000 * val_from(s, i + 1)
    }
}

pub proof fn lemma_pow_base_pos(e: nat)
    ensures
        pow_base(e) >= 1,
    decreases e,
{
    if e > 0 {
        lemma_pow_base_pos((e - 1) as nat);
    }
}

pub proof fn lemma_pow_base_increases(a: nat, b: nat)
    requires
        a <= b,
    ensures
        pow_base(a) <= pow_base(b),
    decreases b,
{
    if a < b {
        lemma_pow_base_increases(a, (b - 1) as nat);
        lemma_pow_base_pos((b - 1) as nat);
    }
}

pub proof fn lemma_pow_base_adds(a: nat, b: nat)
    ensures
        pow_base(a) * pow_base(b) == pow_base(a + b),
    decreases a,
{
    if a == 0 {
        assert(pow_base(a) == 1);
        assert(1 * pow_base(b) == pow_base(b)) by (nonlinear_arith);
    } else {
        lemma_pow_base_adds((a - 1) as nat, b);
        let p = pow_base((a - 1) as nat);
        let q = pow_base(b);
        assert(pow_base(a) == 0x1_0000_0000 * p);
        assert(pow_base(a + b) == 0x1_0000_0000 * pow_base((a + b - 1) as nat));
        assert((a + b - 1) as nat == (a - 1) as nat + b);
        assert((0x1_0000_0000 * p) * q == 0x1_0000_0000 * (p * q)) by (nonlinear_arith);
    }
}

/// Appending a limb on the most-significant end adds its weighted value.
pub proof fn lemma_val_push(s: Seq<u32>, c: u32)
    ensures
        limbs_val(s.push(c)) == limbs_val(s) + c as nat * pow_base(s.len()),
    decreases s.len(),
{
    if s.len() == 0 {
        let e = s.push(c).drop_first();
        assert(e =~= Seq::<u32>::empty());
        assert(limbs_val(e) == 0);
        assert(s.push(c)[0] == c);
        assert(limbs_val(s.push(c)) == c as nat + 0x1_0000_0000 * limbs_val(e));
        assert(limbs_val(s.push(c)) == c as nat);
        assert(pow_base(s.len()) == 1);
        assert(c as nat * 1 == c as nat) by (nonlinear_arith);
    } else {
        let d = s.drop_first();
        assert(s.push(c).drop_first() =~= d.push(c));
        lemma_val_push(d, c);
        let p = pow_base(d.len());
        assert(limbs_val(s.push(c))
            == s[0] as nat + 0x1_0000_0000 * (limbs_val(d) + c as nat * p));
        assert(0x1_0000_0000 * (limbs_val(d) + c as nat * p)
            == 0x1_0000_0000 * limbs_val(d) + c as nat * (0x1_0000_0000 * p)) by (nonlinear_arith);
        assert(pow_base(s.len()) == 0x1_0000_0000 * p);
    }
}

/// The first `n` positions of `s` denote the value of the prefix of length `n`.
pub proof fn lemma_val_ext_take(s: Seq<u32>, n: nat)
    requires
        n <= s.len(),
    ensures
        val_ext(s, n) == limbs_val(s.take(n as int)),
    decreases n,
{
    if n == 0 {
        assert(s.take(0) =~= Seq::<u32>::empty());
    } else {
        lemma_val_ext_take(s, (n - 1) as nat);
        assert(s.take(n as int) =~= s.take(n - 1).push(s[n - 1]));
        lemma_val_push(s.take(n - 1), s[n - 1]);
    }
}

/// Once `n` covers the whole sequence, the extended prefix value is the value.
pub proof fn lemma_val_ext_full(s: Seq<u32>, n: nat)
    requires
        n >= s.len(),
    ensures
        val_ext(s, n) == limbs_val(s),
    decreases n,
{
    if n == s.len() {
        lemma_val_ext_take(s, n);
        assert(s.take(n as int) =~= s);
    } else {
        lemma_val_ext_full(s, (n - 1) as nat);
    }
}

/// Replacing the limb at index `k` changes the value by the weighted difference.
pub proof fn lemma_val_update(s: Seq<u32>, k: int, c: u32)
    requires
        0 <= k < s.len(),
    ensures
        limbs_val(s.update(k, c)) + s[k] as nat * pow_base(k as nat)
            == limbs_val(s) + c as nat * pow_base(k as nat),
    decreases k,
{
    if k == 0 {
        assert(s.update(0, c).drop_first() =~= s.drop_first());
        assert(s.update(0, c)[0] == c);
        assert(s[0] as nat * 1 == s[0] as nat) by (nonlinear_arith);
        assert(c as nat * 1 == c as nat) by (nonlinear_arith);
    } else {
        assert(s.update(k, c).drop_first() =~= s.drop_first().update(k - 1, c));
        lemma_val_update(s.drop_first(), k - 1, c);
        let d = s.drop_first();
        assert(0x1_0000_0000 * (limbs_val(d.update(k - 1, c)) + d[k - 1] as nat * pow_base((k - 1) as nat))
            == 0x1_0000_0000 * limbs_val(d.update(k - 1, c))
               + d[k - 1] as nat * (0x1_0000_0000 * pow_base((k - 1) as nat))) by (nonlinear_arith);
        assert(0x1_0000_0000 * (limbs_val(d) + c as nat * pow_base((k - 1) as nat))
            == 0x1_0000_0000 * limbs_val(d)
               + c as nat * (0x1_0000_0000 * pow_base((k - 1) as nat))) by (nonlinear_arith);
    }
}

/// The value of a sequence is below the weight of the position just past its end.
pub proof fn lemma_val_bound(s: Seq<u32>)
    ensures
        limbs_val(s) < pow_base(s.len()),
    decreases s.len(),
{
    if s.len() == 0 {
    } else {
        lemma_val_bound(s.drop_first());
    }
}

/// The value of a non-empty sequence is at least its top limb's weighted value.
pub proof fn lemma_val_lower(s: Seq<u32>)
    requires
        s.len() >= 1,
    ensures
        limbs_val(s) >= s.last() as nat * pow_base((s.len() - 1) as nat),
    decreases s.len(),
{
    if s.len() == 1 {
        assert(s.last() as nat * 1 == s.last() as nat) by (nonlinear_arith);
    } else {
        let d = s.drop_first();
        lemma_val_lower(d);
        assert(d.last() == s.last());
        assert(0x1_0000_0000 * limbs_val(d)
            >= s.last() as nat * (0x1_0000_0000 * pow_base((s.len() - 2) as nat))) by (nonlinear_arith)
            requires
                limbs_val(d) >= s.last() as nat * pow_base((s.len() - 2) as nat),
        ;
    }
}

/// Equal-length sequences denoting the same number are the same sequence.
pub proof fn lemma_same_len_injective(x: Seq<u32>, y: Seq<u32>)
    requires
        x.len() == y.len(),
        limbs_val(x) == limbs_val(y),
    ensures
        x =~= y,
    decreases x.len(),
{
    if x.len() == 0 {
        assert(x =~= y);
    } else {
        let v = limbs_val(x.drop_first());
        let w = limbs_val(y.drop_first());
        assert(x[0] as nat + 0x1_0000_0000 * v == y[0] as nat + 0x1_0000_0000 * w);
        assert(x[0] == y[0] && v == w) by (nonlinear_arith)
            requires
                x[0] as nat + 0x1_0000_0000 * v == y[0] as nat + 0x1_0000_0000 * w,
                (x[0] as nat) < 0x1_0000_0000,
                (y[0] as nat) < 0x1_0000_0000,
        ;
        lemma_same_len_injective(x.drop_first(), y.drop_first());
        assert forall|i: int| 0 <= i < x.len() implies x[i] == y[i] by {
            if i > 0 {
                assert(x[i] == x.drop_first()[i - 1]);
                assert(y[i] == y.drop_first()[i - 1]);
            }
        }
        assert(x =~= y);
    }
}

/// Two canonical sequences denoting the same number are the same sequence:
/// the canonical form of a value is unique.
pub proof fn lemma_normal_val_injective(x: Seq<u32>, y: Seq<u32>)
    requires
        is_normal(x),
        is_normal(y),
        limbs_val(x) == limbs_val(y),
    ensures
        x == y,
{
    if x.len() < y.len() {
        lemma_len_order(x, y);
    } else if y.len() < x.len() {
        lemma_len_order(y, x);
    }
    lemma_same_len_injective(x, y);
    assert(x =~= y);
}

/// A strictly longer canonical sequence denotes a strictly larger number.
proof fn lemma_len_order(x: Seq<u32>, y: Seq<u32>)
    requires
        is_normal(x),
        is_normal(y),
        x.len() < y.len(),
    ensures
        limbs_val(x) < limbs_val(y),
{
    lemma_val_bound(x);
    lemma_val_lower(y);
    lemma_pow_base_increases(x.len(), (y.len() - 1) as nat);
    lemma_pow_base_pos((y.len() - 1) as nat);
    assert(y.last() as nat * pow_base((y.len() - 1) as nat) >= pow_base((y.len() - 1) as nat))
        by (nonlinear_arith)
        requires
            y.last() as nat >= 1,
            pow_base((y.len() - 1) as nat) >= 1,
    ;
}

/// The tail value from index `i` unfolds one limb at a time.
pub proof fn lemma_val_from_skip(s: Seq<u32>, i: nat)
    requires
        i <= s.len(),
    ensures
        val_from(s, i) == limbs_val(s.skip(i as int)),
    decreases s.len() - i,
{
    if i == s.len() {
        assert(s.skip(i as int) =~= Seq::<u32>::empty());
    } else {
        lemma_val_from_skip(s, i + 1);
        assert(s.skip(i as int).drop_first() =~= s.skip(i as int + 1));
        assert(s.skip(i as int)[0] == s[i as int]);
    }
}

/// Below the top limb of a canonical non-zero sequence, every tail value is positive.
pub proof fn lemma_val_from_pos(s: Seq<u32>, i: nat)
    requires
        s.len() >= 1,
        s.last() != 0,
        i < s.len(),
    ensures
        val_from(s, i) >= 1,
    decreases s.len() - i,
{
    if i == s.len() - 1 {
    } else {
        lemma_val_from_pos(s, i + 1);
    }
}

} // verus!
