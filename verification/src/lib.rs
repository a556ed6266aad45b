//! Arbitrary-precision unsigned integers built from 32-bit limbs, with
//! hexadecimal parsing and serialization, addition, and multiplication.
//!
//! A value is a little-endian sequence of `u32` limbs in canonical form:
//! never empty, and with no superfluous most-significant zero limb. It is
//! constructed by parsing a hexadecimal numeral or as the result of an
//! arithmetic operation, and serializes back to canonical lowercase
//! hexadecimal text.
pub mod hex;
pub mod limbs;

use vstd::prelude::*;
use vstd::string::StrSliceExecFns;

use crate::hex::{
    digits_val, hex_digit_value, hex_repr, hex_val, is_hex_digit, is_valid_hex,
    lemma_digits_match_hex, lemma_digits_val_pos, lemma_digits_val_split, lemma_pad_split,
    lemma_pow16_increases, lemma_pow16_limb, pad_repr, pow16, push_hex_min, push_hex_padded,
};
use crate::limbs::{
    is_normal, lemma_normal_val_injective, lemma_pow_base_adds, lemma_val_ext_full,
    lemma_val_from_pos, lemma_val_from_skip, lemma_val_push, lemma_val_update, limb_at, limbs_val,
    pow_base, val_ext, val_from,
};

verus! {

/// The error returned when a string is not a valid hexadecimal numeral.
#[derive(Debug, Clone, Copy, PartialEq, Eq)]
pub enum ParseError {
    InvalidFormat,
}

impl ParseError {
    /// A short description of the error.
    pub fn message(&self) -> (m: &'static str)
        ensures
            m@ == "String is not a valid hexadecimal number"@,
    {
        "String is not a valid hexadecimal number"
    }
}

/// An arbitrary-precision unsigned integer: a canonical little-endian
/// sequence of 32-bit limbs.
#[derive(Debug)]
pub struct BigUint {
    v: Vec<u32>,
}

impl View for BigUint {
    type V = Seq<u32>;

    closed spec fn view(&self) -> Seq<u32> {
        self.v@
    }
}

impl BigUint {
    /// The canonical-form invariant: at least one limb, and no superfluous
    /// most-significant zero limb.
    pub open spec fn wf(&self) -> bool {
        is_normal(self@)
    }

    /// The number this value denotes.
    pub open spec fn value(&self) -> nat {
        limbs_val(self@)
    }

    /// Parses a hexadecimal numeral of either case: at least one digit,
    /// no leading zero digit, nothing but hexadecimal digits. Returns the
    /// denoted value in canonical form, or `ParseError::InvalidFormat`
    /// exactly when the text breaks that grammar.
    pub fn from_hex_string(arb_hex: String) -> (r: Result<BigUint, ParseError>)
        ensures
            match r {
                Ok(b) => is_valid_hex(arb_hex@) && b.wf() && b.value() == hex_val(arb_hex@),
                Err(e) => !is_valid_hex(arb_hex@) && e == ParseError::InvalidFormat,
            },
    {
        let s = arb_hex.as_str();
        let n = s.unicode_len();
        if n == 0 {
            return Err(ParseError::InvalidFormat);
        }
        let mut digits: Vec<u8> = Vec::new();
        let mut k: usize = 0;
        while k < n
            invariant
                k <= n,
                n == arb_hex@.len(),
                s@ == arb_hex@,
                digits@.len() == k,
                forall|i: int| 0 <= i < k ==> is_hex_digit(#[trigger] arb_hex@[i]),
                forall|i: int|
                    0 <= i < k ==> (#[trigger] digits@[i]) < 16 && digits@[i] as nat
                        == crate::hex::hex_digit_val(arb_hex@[i]),
                k > 0 ==> arb_hex@[0] != '0',
            decreases n - k,
        {
            let c = s.get_char(k);
            match hex_digit_value(c) {
                None => {
                    proof {
                        assert(!is_hex_digit(arb_hex@[k as int]));
                    }
                    return Err(ParseError::InvalidFormat);
                },
                Some(d) => {
                    if k == 0 && d == 0 {
                        proof {
                            assert(arb_hex@[0] == '0');
                        }
                        return Err(ParseError::InvalidFormat);
                    }
                    digits.push(d);
                },
            }
            k = k + 1;
        }
        proof {
            assert(is_valid_hex(arb_hex@));
            assert(crate::hex::hex_digit_val(arb_hex@[0]) != 0);
            assert(digits@[0] >= 1);
        }
        let mut v: Vec<u32> = Vec::new();
        let mut pos: usize = n;
        proof {
            assert(digits@.take(n as int) =~= digits@);
            assert(v@ =~= Seq::<u32>::empty());
            assert(limbs_val(v@) == 0);
            assert(pow_base(v@.len()) == 1);
            assert(digits_val(digits@) * 1 == digits_val(digits@)) by (nonlinear_arith);
        }
        while pos > 0
            invariant
                pos <= n,
                n >= 1,
                n == digits@.len(),
                forall|i: int| 0 <= i < n ==> (#[trigger] digits@[i]) < 16,
                digits@[0] >= 1,
                pos > 0 ==> n - pos == 8 * v@.len(),
                pos == 0 ==> is_normal(v@),
                digits_val(digits@) == digits_val(digits@.take(pos as int)) * pow_base(v@.len())
                    + limbs_val(v@),
            decreases pos,
        {
            let start = if pos >= 8 {
                pos - 8
            } else {
                0
            };
            let chunk = parse_chunk(&digits, start, pos);
            let ghost vold = v@;
            v.push(chunk);
            proof {
                let d = digits@;
                lemma_digits_val_split(d.take(pos as int), start as int);
                assert(d.take(pos as int).take(start as int) =~= d.take(start as int));
                assert(d.take(pos as int).skip(start as int) =~= d.subrange(
                    start as int,
                    pos as int,
                ));
                lemma_val_push(vold, chunk);
                lemma_pow16_limb();
                if start == 0 {
                    assert(d.subrange(0, pos as int) =~= d.take(pos as int));
                    assert(d.take(pos as int)[0] == d[0]);
                    lemma_digits_val_pos(d.take(pos as int));
                    assert(chunk >= 1);
                    assert(v@.last() == chunk);
                    assert(is_normal(v@));
                    assert(d.take(0) =~= Seq::<u8>::empty());
                    assert(digits_val(d.take(0)) == 0);
                } else {
                    assert(pos - start == 8);
                }
                assert(pow_base(v@.len()) == 0x1_0000_0000 * pow_base(vold.len()));
                lemma_chunk_step(
                    digits_val(d),
                    digits_val(d.take(pos as int)),
                    digits_val(d.take(start as int)),
                    pow16((pos - start) as nat),
                    chunk as nat,
                    pow_base(vold.len()),
                    pow_base(v@.len()),
                    limbs_val(vold),
                    limbs_val(v@),
                );
            }
            pos = start;
        }
        proof {
            let d = digits@;
            assert(d.take(0) =~= Seq::<u8>::empty());
            assert(digits_val(d.take(0)) * pow_base(v@.len()) == 0) by (nonlinear_arith)
                requires
                    digits_val(d.take(0)) == 0,
            ;
            lemma_digits_match_hex(d, arb_hex@);
        }
        Ok(BigUint { v })
    }

    /// The sum of the two operands, in canonical form. Total: ripple-carry
    /// addition over limbs never fails, whatever the magnitudes.
    pub fn add(self, other: BigUint) -> (r: BigUint)
        ensures
            r.wf(),
            r.value() == self.value() + other.value(),
    {
        let v1 = self.v;
        let v2 = other.v;
        let l1 = v1.len();
        let l2 = v2.len();
        let maxlen = if l1 > l2 {
            l1
        } else {
            l2
        };
        let mut res: Vec<u32> = Vec::new();
        let mut carry: u64 = 0;
        let mut i: usize = 0;
        while i < maxlen
            invariant
                i <= maxlen,
                l1 == v1@.len(),
                l2 == v2@.len(),
                maxlen >= l1,
                maxlen >= l2,
                carry <= 1,
                res@.len() == i,
                val_ext(v1@, i as nat) + val_ext(v2@, i as nat) == limbs_val(res@) + carry as nat
                    * pow_base(i as nat),
            decreases maxlen - i,
        {
            let ghost c0 = carry;
            let mut current: u64 = carry;
            carry = 0;
            if i < l1 {
                current = current + v1[i] as u64;
            }
            if i < l2 {
                current = current + v2[i] as u64;
            }
            proof {
                assert(current as nat == c0 as nat + limb_at(v1@, i as int) as nat + limb_at(
                    v2@,
                    i as int,
                ) as nat);
            }
            if current > 0xFFFF_FFFF {
                current = current - 0x1_0000_0000;
                carry = 1;
            }
            let limb = current as u32;
            let ghost rold = res@;
            res.push(limb);
            proof {
                lemma_val_push(rold, limb);
                assert(val_ext(v1@, (i + 1) as nat) == val_ext(v1@, i as nat) + limb_at(
                    v1@,
                    i as int,
                ) as nat * pow_base(i as nat));
                assert(val_ext(v2@, (i + 1) as nat) == val_ext(v2@, i as nat) + limb_at(
                    v2@,
                    i as int,
                ) as nat * pow_base(i as nat));
                assert(pow_base((i + 1) as nat) == 0x1_0000_0000 * pow_base(i as nat));
                lemma_add_step(
                    val_ext(v1@, i as nat),
                    val_ext(v2@, i as nat),
                    val_ext(v1@, (i + 1) as nat),
                    val_ext(v2@, (i + 1) as nat),
                    limbs_val(rold),
                    limbs_val(res@),
                    c0 as nat,
                    carry as nat,
                    limb_at(v1@, i as int) as nat,
                    limb_at(v2@, i as int) as nat,
                    limb as nat,
                    pow_base(i as nat),
                    pow_base((i + 1) as nat),
                );
            }
            i = i + 1;
        }
        proof {
            lemma_val_ext_full(v1@, maxlen as nat);
            lemma_val_ext_full(v2@, maxlen as nat);
        }
        if carry > 0 {
            let ghost rold = res@;
            res.push(1);
            proof {
                lemma_val_push(rold, 1u32);
            }
        }
        let w = trim(res);
        BigUint { v: w }
    }

    /// The product of the two operands, in canonical form: full schoolbook
    /// cross-products with carry propagation. Total but for the machine
    /// limit on the result buffer's length.
    pub fn multiply(self, other: BigUint) -> (r: BigUint)
        requires
            self@.len() + other@.len() <= usize::MAX,
        ensures
            r.wf(),
            r.value() == self.value() * other.value(),
    {
        let v1 = self.v;
        let v2 = other.v;
        let l1 = v1.len();
        let l2 = v2.len();
        let total = l1 + l2;
        let mut res: Vec<u32> = Vec::new();
        let mut k: usize = 0;
        while k < total
            invariant
                k <= total,
                res@.len() == k,
                limbs_val(res@) == 0,
                forall|t: int| 0 <= t < k ==> res@[t] == 0,
            decreases total - k,
        {
            let ghost rold = res@;
            res.push(0);
            proof {
                lemma_val_push(rold, 0u32);
            }
            k = k + 1;
        }
        let mut i: usize = 0;
        proof {
            assert(val_ext(v1@, 0) * limbs_val(v2@) == 0) by (nonlinear_arith)
                requires
                    val_ext(v1@, 0) == 0,
            ;
        }
        while i < l1
            invariant
                i <= l1,
                l1 + l2 <= usize::MAX,
                l1 == v1@.len(),
                l2 == v2@.len(),
                res@.len() == l1 + l2,
                limbs_val(res@) == val_ext(v1@, i as nat) * limbs_val(v2@),
                forall|t: int| i + l2 <= t < l1 + l2 ==> res@[t] == 0,
            decreases l1 - i,
        {
            let mut carry: u64 = 0;
            let mut j: usize = 0;
            proof {
                assert(val_ext(v2@, 0) == 0);
                assert(v1@[i as int] as nat * val_ext(v2@, 0) * pow_base(i as nat) == 0)
                    by (nonlinear_arith)
                    requires
                        val_ext(v2@, 0) == 0,
                ;
            }
            while j < l2
                invariant
                    j <= l2,
                    i < l1,
                    l1 + l2 <= usize::MAX,
                    l1 == v1@.len(),
                    l2 == v2@.len(),
                    res@.len() == l1 + l2,
                    carry <= 0xFFFF_FFFF,
                    limbs_val(res@) + carry as nat * pow_base((i + j) as nat) == val_ext(
                        v1@,
                        i as nat,
                    ) * limbs_val(v2@) + v1@[i as int] as nat * val_ext(v2@, j as nat) * pow_base(
                        i as nat,
                    ),
                    forall|t: int| i + l2 <= t < l1 + l2 ==> res@[t] == 0,
                decreases l2 - j,
            {
                let idx = i + j;
                proof {
                    assert((v1@[i as int] as nat) * (v2@[j as int] as nat) <= 0xFFFF_FFFF
                        * 0xFFFF_FFFF) by (nonlinear_arith)
                        requires
                            (v1@[i as int] as nat) <= 0xFFFF_FFFF,
                            (v2@[j as int] as nat) <= 0xFFFF_FFFF,
                    ;
                }
                let t64: u64 = res[idx] as u64 + (v1[i] as u64) * (v2[j] as u64) + carry;
                let lo = (t64 % 0x1_0000_0000) as u32;
                let new_carry = t64 / 0x1_0000_0000;
                let ghost rold = res@;
                res[idx] = lo;
                proof {
                    lemma_val_update(rold, idx as int, lo);
                    assert(val_ext(v2@, (j + 1) as nat) == val_ext(v2@, j as nat) + limb_at(
                        v2@,
                        j as int,
                    ) as nat * pow_base(j as nat));
                    lemma_pow_base_adds(i as nat, j as nat);
                    assert(pow_base((i + j + 1) as nat) == 0x1_0000_0000 * pow_base((i + j) as nat));
                    lemma_mul_step(
                        limbs_val(rold),
                        limbs_val(res@),
                        carry as nat,
                        new_carry as nat,
                        val_ext(v1@, i as nat) * limbs_val(v2@),
                        v1@[i as int] as nat,
                        v2@[j as int] as nat,
                        val_ext(v2@, j as nat),
                        val_ext(v2@, (j + 1) as nat),
                        pow_base(i as nat),
                        pow_base(j as nat),
                        pow_base((i + j) as nat),
                        pow_base((i + j + 1) as nat),
                        rold[idx as int] as nat,
                        lo as nat,
                    );
                }
                carry = new_carry;
                j = j + 1;
            }
            let idx2 = i + l2;
            let c32 = carry as u32;
            let ghost rold = res@;
            res[idx2] = c32;
            proof {
                lemma_val_update(rold, idx2 as int, c32);
                lemma_val_ext_full(v2@, l2 as nat);
                assert(rold[idx2 as int] == 0);
                assert(val_ext(v1@, (i + 1) as nat) == val_ext(v1@, i as nat) + limb_at(
                    v1@,
                    i as int,
                ) as nat * pow_base(i as nat));
                lemma_mul_row(
                    limbs_val(rold),
                    limbs_val(res@),
                    carry as nat,
                    val_ext(v1@, i as nat),
                    val_ext(v1@, (i + 1) as nat),
                    v1@[i as int] as nat,
                    limbs_val(v2@),
                    pow_base(i as nat),
                    pow_base((i + l2) as nat),
                );
            }
            i = i + 1;
        }
        proof {
            lemma_val_ext_full(v1@, l1 as nat);
        }
        let w = trim(res);
        BigUint { v: w }
    }

    /// The canonical lowercase hexadecimal text for this value: the
    /// most-significant limb unpadded, every further limb zero-padded to
    /// eight digits, and `"0"` for the single-limb zero.
    pub fn to_hex_string(&self) -> (r: String)
        requires
            self.wf(),
        ensures
            r@ == hex_repr(self.value()),
    {
        let len = self.v.len();
        let mut out = String::new();
        push_hex_min(self.v[len - 1], &mut out);
        proof {
            assert(val_from(self@, len as nat) == 0);
            assert(val_from(self@, (len - 1) as nat) == self@[len - 1] as nat + 0x1_0000_0000
                * val_from(self@, len as nat));
            assert(Seq::<char>::empty() + hex_repr(self@[len - 1] as nat) =~= hex_repr(
                self@[len - 1] as nat,
            ));
        }
        let mut idx = len - 1;
        while idx > 0
            invariant
                idx < len,
                len == self@.len(),
                self.wf(),
                out@ == hex_repr(val_from(self@, idx as nat)),
            decreases idx,
        {
            idx = idx - 1;
            let ghost pre = out@;
            push_hex_padded(self.v[idx], 8, &mut out);
            proof {
                let s = self@;
                let hi = val_from(s, (idx + 1) as nat);
                lemma_val_from_pos(s, (idx + 1) as nat);
                lemma_pow16_limb();
                lemma_pad_split(hi, s[idx as int] as nat, 8);
                assert(val_from(s, idx as nat) == s[idx as int] as nat + 0x1_0000_0000 * hi);
                assert(hi * pow16(8) == 0x1_0000_0000 * hi) by (nonlinear_arith)
                    requires
                        pow16(8) == 0x1_0000_0000,
                ;
                assert(hex_repr(hi * pow16(8) + s[idx as int] as nat) == hex_repr(hi) + pad_repr(
                    s[idx as int] as nat,
                    8,
                ));
                assert(out@ == hex_repr(val_from(s, idx as nat)));
            }
        }
        proof {
            lemma_val_from_skip(self@, 0);
            assert(self@.skip(0) =~= self@);
        }
        out
    }
}

/// Parses the digit values in `digits[start..end]` as one base-16 chunk of
/// at most eight digits, most significant first.
fn parse_chunk(digits: &Vec<u8>, start: usize, end: usize) -> (r: u32)
    requires
        start < end,
        end <= digits@.len(),
        end - start <= 8,
        forall|i: int| start <= i < end ==> (#[trigger] digits@[i]) < 16,
    ensures
        r as nat == digits_val(digits@.subrange(start as int, end as int)),
{
    let mut acc: u64 = 0;
    let mut k = start;
    while k < end
        invariant
            start <= k <= end,
            end <= digits@.len(),
            end - start <= 8,
            forall|i: int| start <= i < end ==> (#[trigger] digits@[i]) < 16,
            acc as nat == digits_val(digits@.subrange(start as int, k as int)),
            (acc as nat) < pow16((k - start) as nat),
        decreases end - k,
    {
        proof {
            lemma_pow16_limb();
            lemma_pow16_increases((k - start) as nat, 7);
            assert(digits@.subrange(start as int, k + 1).drop_last() =~= digits@.subrange(
                start as int,
                k as int,
            ));
            assert(digits@.subrange(start as int, k + 1).last() == digits@[k as int]);
        }
        acc = acc * 16 + digits[k] as u64;
        k = k + 1;
    }
    proof {
        lemma_pow16_limb();
        lemma_pow16_increases((end - start) as nat, 8);
    }
    acc as u32
}

/// The recombination step of the chunking loop: consuming one more chunk
/// of eight digits (or the final, possibly shorter, leading chunk) moves
/// its value from the unconsumed prefix into the limb sequence.
proof fn lemma_chunk_step(
    dd: nat,
    tpos: nat,
    tstart: nat,
    p16: nat,
    c: nat,
    pl: nat,
    pl1: nat,
    v: nat,
    vnew: nat,
)
    by (nonlinear_arith)
    requires
        dd == tpos * pl + v,
        tpos == tstart * p16 + c,
        vnew == v + c * pl,
        pl1 == 0x1_0000_0000 * pl,
        tstart == 0 || p16 == 0x1_0000_0000,
    ensures
        dd == tstart * pl1 + vnew,
{
}

/// Round trip: a canonical lowercase numeral is accepted by the parser, and
/// the value parsed from it serializes back to exactly that numeral, since
/// serialization renders exactly the canonical text of the denoted number.
pub proof fn lemma_parse_serialize_round_trip(s: Seq<char>, b: BigUint)
    requires
        crate::hex::is_canonical_hex(s),
        b.value() == hex_val(s),
    ensures
        is_valid_hex(s),
        hex_repr(b.value()) == s,
{
    crate::hex::lemma_canonical_is_valid(s);
    crate::hex::lemma_hex_round_trip(s);
}

/// Addition is commutative: canonical sums of the same operands taken in
/// either order are the same value, limb for limb.
pub proof fn lemma_add_commutative(a: BigUint, b: BigUint, r1: BigUint, r2: BigUint)
    requires
        r1.wf(),
        r2.wf(),
        r1.value() == a.value() + b.value(),
        r2.value() == b.value() + a.value(),
    ensures
        r1@ == r2@,
{
    lemma_normal_val_injective(r1@, r2@);
}

/// Adding the single-limb zero is the identity: the canonical sum is the
/// canonical operand itself.
pub proof fn lemma_add_identity(a: BigUint, zero: BigUint, r: BigUint)
    requires
        a.wf(),
        r.wf(),
        zero@ == seq![0u32],
        r.value() == a.value() + zero.value(),
    ensures
        r@ == a@,
{
    assert(zero@.drop_first() =~= Seq::<u32>::empty());
    assert(limbs_val(zero@.drop_first()) == 0);
    assert(zero@.len() == 1 && zero@[0] == 0u32);
    assert(zero.value() == zero@[0] as nat + 0x1_0000_0000 * limbs_val(zero@.drop_first()));
    assert(zero.value() == 0);
    lemma_normal_val_injective(r@, a@);
}

/// Multiplication is commutative: canonical products of the same operands
/// taken in either order are the same value, limb for limb.
pub proof fn lemma_multiply_commutative(a: BigUint, b: BigUint, r1: BigUint, r2: BigUint)
    requires
        r1.wf(),
        r2.wf(),
        r1.value() == a.value() * b.value(),
        r2.value() == b.value() * a.value(),
    ensures
        r1@ == r2@,
{
    assert(a.value() * b.value() == b.value() * a.value()) by (nonlinear_arith);
    lemma_normal_val_injective(r1@, r2@);
}

/// Multiplying by the single-limb one is the identity: the canonical
/// product is the canonical operand itself.
pub proof fn lemma_multiply_identity(a: BigUint, one: BigUint, r: BigUint)
    requires
        a.wf(),
        r.wf(),
        one@ == seq![1u32],
        r.value() == a.value() * one.value(),
    ensures
        r@ == a@,
{
    assert(one@.drop_first() =~= Seq::<u32>::empty());
    assert(limbs_val(one@.drop_first()) == 0);
    assert(one@.len() == 1 && one@[0] == 1u32);
    assert(one.value() == one@[0] as nat + 0x1_0000_0000 * limbs_val(one@.drop_first()));
    assert(one.value() == 1);
    assert(a.value() * 1 == a.value()) by (nonlinear_arith);
    lemma_normal_val_injective(r@, a@);
}

/// The carry step of ripple-carry addition: what was pushed plus the new
/// carry's weight accounts exactly for both operands' next limbs.
proof fn lemma_add_step(
    a1: nat,
    b1: nat,
    a2: nat,
    b2: nat,
    v: nat,
    vnew: nat,
    c0: nat,
    c1: nat,
    av: nat,
    bv: nat,
    limb: nat,
    p: nat,
    pnext: nat,
)
    by (nonlinear_arith)
    requires
        a1 + b1 == v + c0 * p,
        vnew == v + limb * p,
        c0 + av + bv == limb + c1 * 0x1_0000_0000,
        a2 == a1 + av * p,
        b2 == b1 + bv * p,
        pnext == 0x1_0000_0000 * p,
    ensures
        a2 + b2 == vnew + c1 * pnext,
{
}

/// The accumulation step of schoolbook multiplication: adding one partial
/// product into position `i + j` and carrying the overflow one position up
/// preserves the running account of the product.
proof fn lemma_mul_step(
    vv: nat,
    vv2: nat,
    c: nat,
    q: nat,
    s: nat,
    ai: nat,
    bj: nat,
    ej: nat,
    ej1: nat,
    pi: nat,
    pj: nat,
    pij: nat,
    pij1: nat,
    rold: nat,
    lo: nat,
)
    requires
        vv + c * pij == s + ai * ej * pi,
        vv2 + rold * pij == vv + lo * pij,
        rold + ai * bj + c == lo + q * 0x1_0000_0000,
        pij == pi * pj,
        ej1 == ej + bj * pj,
        pij1 == 0x1_0000_0000 * pij,
    ensures
        vv2 + q * pij1 == s + ai * ej1 * pi,
{
    assert(ai * ej1 * pi == ai * ej * pi + ai * bj * (pi * pj)) by (nonlinear_arith)
        requires
            ej1 == ej + bj * pj,
    ;
    assert(ai * bj * (pi * pj) == ai * bj * pij);
    assert(q * pij1 == q * 0x1_0000_0000 * pij) by (nonlinear_arith)
        requires
            pij1 == 0x1_0000_0000 * pij,
    ;
    assert((rold + ai * bj + c) * pij == rold * pij + ai * bj * pij + c * pij) by (nonlinear_arith);
    assert((lo + q * 0x1_0000_0000) * pij == lo * pij + q * 0x1_0000_0000 * pij)
        by (nonlinear_arith);
    assert((rold + ai * bj + c) * pij == (lo + q * 0x1_0000_0000) * pij);
}

/// The row step of schoolbook multiplication: depositing the final carry
/// of row `i` completes that row's contribution to the product.
proof fn lemma_mul_row(
    vv: nat,
    vv2: nat,
    c: nat,
    si: nat,
    si1: nat,
    ai: nat,
    m: nat,
    pi: nat,
    pil2: nat,
)
    by (nonlinear_arith)
    requires
        vv + c * pil2 == si * m + ai * m * pi,
        vv2 == vv + c * pil2,
        si1 == si + ai * pi,
    ensures
        vv2 == si1 * m,
{
}

/// Strips superfluous most-significant zero limbs, keeping at least one
/// limb, so the result is in canonical form with the same value.
fn trim(v: Vec<u32>) -> (r: Vec<u32>)
    ensures
        is_normal(r@),
        limbs_val(r@) == limbs_val(v@),
{
    let mut w = v;
    while w.len() > 1 && w[w.len() - 1] == 0
        invariant
            limbs_val(w@) == limbs_val(v@),
        decreases w@.len(),
    {
        let ghost before = w@;
        w.pop();
        proof {
            assert(before.drop_last().push(before.last()) =~= before);
            lemma_val_push(before.drop_last(), before.last());
            assert(w@ =~= before.drop_last());
        }
    }
    if w.len() == 0 {
        w.push(0);
        proof {
            assert(w@ =~= Seq::<u32>::empty().push(0u32));
            lemma_val_push(Seq::<u32>::empty(), 0u32);
        }
    }
    w
}

} // verus!
