//! Hexadecimal text: what a numeral denotes, what the canonical rendering
//! of a number is, and the character-level helpers the parser and the
//! serializer are built from.
use vstd::prelude::*;
use vstd::string::StringExecFns;

verus! {

/// One of the sixteen lowercase hexadecimal digit characters.
pub open spec fn is_lower_hex_digit(c: char) -> bool {
    c == '0' || c == '1' || c == '2' || c == '3' || c == '4' || c == '5' || c == '6' || c == '7'
        || c == '8' || c == '9' || c == 'a' || c == 'b' || c == 'c' || c == 'd' || c == 'e'
        || c == 'f'
}

/// A hexadecimal digit character of either case.
pub open spec fn is_hex_digit(c: char) -> bool {
    is_lower_hex_digit(c) || c == 'A' || c == 'B' || c == 'C' || c == 'D' || c == 'E' || c == 'F'
}

/// The value of a hexadecimal digit character, case-insensitively;
/// zero for any other character.
pub open spec fn hex_digit_val(c: char) -> nat {
    if c == '0' {
        0
    } else if c == '1' {
        1
    } else if c == '2' {
        2
    } else if c == '3' {
        3
    } else if c == '4' {
        4
    } else if c == '5' {
        5
    } else if c == '6' {
        6
    } else if c == '7' {
        7
    } else if c == '8' {
        8
    } else if c == '9' {
        9
    } else if c == 'a' || c == 'A' {
        10
    } else if c == 'b' || c == 'B' {
        11
    } else if c == 'c' || c == 'C' {
        12
    } else if c == 'd' || c == 'D' {
        13
    } else if c == 'e' || c == 'E' {
        14
    } else if c == 'f' || c == 'F' {
        15
    } else {
        0
    }
}

/// The lowercase digit character for a value below sixteen.
pub open spec fn digit_char(d: nat) -> char {
    if d == 0 {
        '0'
    } else if d == 1 {
        '1'
    } else if d == 2 {
        '2'
    } else if d == 3 {
        '3'
    } else if d == 4 {
        '4'
    } else if d == 5 {
        '5'
    } else if d == 6 {
        '6'
    } else if d == 7 {
        '7'
    } else if d == 8 {
        '8'
    } else if d == 9 {
        '9'
    } else if d == 10 {
        'a'
    } else if d == 11 {
        'b'
    } else if d == 12 {
        'c'
    } else if d == 13 {
        'd'
    } else if d == 14 {
        'e'
    } else {
        'f'
    }
}

/// The accepted grammar: at least one digit, every character a hexadecimal
/// digit of either case, and no leading zero digit.
pub open spec fn is_valid_hex(s: Seq<char>) -> bool {
    s.len() >= 1 && s[0] != '0' && (forall|i: int| 0 <= i < s.len() ==> is_hex_digit(#[trigger] s[i]))
}

/// A valid numeral written entirely in lowercase: the form the serializer
/// produces, and the only form the round trip reproduces verbatim.
pub open spec fn is_canonical_hex(s: Seq<char>) -> bool {
    s.len() >= 1 && s[0] != '0' && (forall|i: int|
        0 <= i < s.len() ==> is_lower_hex_digit(#[trigger] s[i]))
}

/// The number a sequence of digit characters denotes, most significant first.
pub open spec fn hex_val(s: Seq<char>) -> nat
    decreases s.len(),
{
    if s.len() == 0 {
        0
    } else {
        16 * hex_val(s.drop_last()) + hex_digit_val(s.last())
    }
}

/// The number a sequence of digit values denotes, most significant first.
pub open spec fn digits_val(d: Seq<u8>) -> nat
    decreases d.len(),
{
    if d.len() == 0 {
        0
    } else {
        16 * digits_val(d.drop_last()) + d.last() as nat
    }
}

/// The canonical lowercase rendering of a number: minimal, so with no
/// leading zero digit, and `"0"` for zero.
pub open spec fn hex_repr(n: nat) -> Seq<char>
    decreases n,
{
    if n < 16 {
        seq![digit_char(n)]
    } else {
        hex_repr(n / 16).push(digit_char(n % 16))
    }
}

/// The rendering of a number's lowest `w` digits, zero-padded to width `w`.
pub open spec fn pad_repr(n: nat, w: nat) -> Seq<char>
    decreases w,
{
    if w == 0 {
        Seq::empty()
    } else {
        pad_repr(n / 16, (w - 1) as nat).push(digit_char(n % 16))
    }
}

/// Sixteen raised to the power `e`: the weight of a digit position.
pub open spec fn pow16(e: nat) -> nat
    decreases e,
{
    if e == 0 {
        1
    } else {
        16 * pow16((e - 1) as nat)
    }
}

pub proof fn lemma_pow16_pos(e: nat)
    ensures
        pow16(e) >= 1,
    decreases e,
{
    if e > 0 {
        lemma_pow16_pos((e - 1) as nat);
    }
}

pub proof fn lemma_pow16_increases(a: nat, b: nat)
    requires
        a <= b,
    ensures
        pow16(a) <= pow16(b),
    decreases b,
{
    if a < b {
        lemma_pow16_increases(a, (b - 1) as nat);
        lemma_pow16_pos((b - 1) as nat);
    }
}

/// The numeric values of the digit weights up to a full 32-bit limb.
pub proof fn lemma_pow16_limb()
    ensures
        pow16(7) == 0x1000_0000,
        pow16(8) == 0x1_0000_0000,
{
    assert(pow16(0) == 1);
    assert(pow16(1) == 16);
    assert(pow16(2) == 0x100);
    assert(pow16(3) == 0x1000);
    assert(pow16(4) == 0x1_0000);
    assert(pow16(5) == 0x10_0000);
    assert(pow16(6) == 0x100_0000);
    assert(pow16(7) == 0x1000_0000);
    assert(pow16(8) == 0x1_0000_0000);
}

/// A lowercase digit character is reproduced by rendering its value.
pub proof fn lemma_char_digit(c: char)
    requires
        is_lower_hex_digit(c),
    ensures
        digit_char(hex_digit_val(c)) == c,
{
}

/// A numeral whose leading digit is not zero denotes a positive number.
pub proof fn lemma_hex_val_pos(s: Seq<char>)
    requires
        s.len() >= 1,
        is_hex_digit(s[0]),
        s[0] != '0',
    ensures
        hex_val(s) >= 1,
    decreases s.len(),
{
    if s.len() == 1 {
        assert(s.drop_last() =~= Seq::<char>::empty());
        assert(s.last() == s[0]);
        assert(hex_digit_val(s[0]) >= 1);
    } else {
        assert(s.drop_last()[0] == s[0]);
        lemma_hex_val_pos(s.drop_last());
    }
}

/// A canonical lowercase numeral is in particular a valid numeral.
pub proof fn lemma_canonical_is_valid(s: Seq<char>)
    requires
        is_canonical_hex(s),
    ensures
        is_valid_hex(s),
{
    assert forall|i: int| 0 <= i < s.len() implies is_hex_digit(#[trigger] s[i]) by {
        assert(is_lower_hex_digit(s[i]));
    }
}

/// A digit sequence with a non-zero leading digit denotes a positive number.
pub proof fn lemma_digits_val_pos(d: Seq<u8>)
    requires
        d.len() >= 1,
        d[0] >= 1,
    ensures
        digits_val(d) >= 1,
    decreases d.len(),
{
    if d.len() == 1 {
        assert(d.last() == d[0]);
    } else {
        assert(d.drop_last()[0] == d[0]);
        lemma_digits_val_pos(d.drop_last());
    }
}

/// Cutting a digit sequence at `k` splits its value into a high and a low part.
pub proof fn lemma_digits_val_split(d: Seq<u8>, k: int)
    requires
        0 <= k <= d.len(),
    ensures
        digits_val(d) == digits_val(d.take(k)) * pow16((d.len() - k) as nat) + digits_val(d.skip(k)),
    decreases d.len() - k,
{
    if k == d.len() {
        assert(d.take(k) =~= d);
        assert(d.skip(k) =~= Seq::<u8>::empty());
        assert(digits_val(d) * 1 == digits_val(d)) by (nonlinear_arith);
    } else {
        let dl = d.drop_last();
        lemma_digits_val_split(dl, k);
        assert(dl.take(k) =~= d.take(k));
        assert(dl.skip(k) =~= d.skip(k).drop_last());
        assert(d.skip(k).last() == d.last());
        let t = digits_val(d.take(k));
        let p = pow16((d.len() - 1 - k) as nat);
        let low = digits_val(dl.skip(k));
        assert(digits_val(dl) == t * p + low);
        assert(digits_val(d) == 16 * (t * p + low) + d.last() as nat);
        assert(digits_val(d.skip(k)) == 16 * low + d.last() as nat);
        assert(pow16((d.len() - k) as nat) == 16 * p);
        assert(16 * (t * p + low) == t * (16 * p) + 16 * low) by (nonlinear_arith);
    }
}

/// Digit values that match a character sequence denote the same number.
pub proof fn lemma_digits_match_hex(d: Seq<u8>, s: Seq<char>)
    requires
        d.len() == s.len(),
        forall|i: int| 0 <= i < d.len() ==> d[i] as nat == hex_digit_val(#[trigger] s[i]),
    ensures
        digits_val(d) == hex_val(s),
    decreases d.len(),
{
    if d.len() > 0 {
        assert(forall|i: int|
            0 <= i < d.drop_last().len() ==> d.drop_last()[i] as nat == hex_digit_val(
                #[trigger] s.drop_last()[i],
            ));
        lemma_digits_match_hex(d.drop_last(), s.drop_last());
        assert(d.last() as nat == hex_digit_val(s.last()));
    }
}

/// Rendering a number above one digit splits into the rendering of the high
/// part and the padded rendering of the `w` low digits.
pub proof fn lemma_pad_split(n: nat, m: nat, w: nat)
    requires
        n >= 1,
        m < pow16(w),
    ensures
        hex_repr(n * pow16(w) + m) == hex_repr(n) + pad_repr(m, w),
    decreases w,
{
    if w == 0 {
        assert(pow16(w) == 1);
        assert(n * 1 == n) by (nonlinear_arith);
        assert(pad_repr(m, 0) =~= Seq::<char>::empty());
        assert(hex_repr(n) + Seq::<char>::empty() =~= hex_repr(n));
    } else {
        let p = pow16((w - 1) as nat);
        lemma_pow16_pos((w - 1) as nat);
        assert(pow16(w) == 16 * p);
        let total = n * pow16(w) + m;
        assert(n * (16 * p) == 16 * (n * p)) by (nonlinear_arith);
        assert(total == 16 * (n * p + m / 16) + m % 16);
        assert(total >= 16 * p) by (nonlinear_arith)
            requires
                n >= 1,
                p >= 1,
                total == n * (16 * p) + m,
        ;
        assert(total >= 16);
        assert(total / 16 == n * p + m / 16);
        assert(total % 16 == m % 16);
        assert(m / 16 < p);
        lemma_pad_split(n, m / 16, (w - 1) as nat);
        assert(hex_repr(total) == hex_repr(n * p + m / 16).push(digit_char(total % 16)));
        assert(pad_repr(m, w) == pad_repr(m / 16, (w - 1) as nat).push(digit_char(m % 16)));
        assert((hex_repr(n) + pad_repr(m / 16, (w - 1) as nat)).push(digit_char(m % 16)) =~= hex_repr(
            n,
        ) + pad_repr(m, w));
    }
}

/// Parsing then rendering reproduces a canonical lowercase numeral exactly.
pub proof fn lemma_hex_round_trip(s: Seq<char>)
    requires
        is_canonical_hex(s),
    ensures
        hex_repr(hex_val(s)) == s,
    decreases s.len(),
{
    assert(is_lower_hex_digit(s[0]));
    if s.len() == 1 {
        assert(s.drop_last() =~= Seq::<char>::empty());
        assert(hex_val(s.drop_last()) == 0);
        assert(s.last() == s[0]);
        assert(hex_val(s) == 16 * hex_val(s.drop_last()) + hex_digit_val(s.last()));
        assert(hex_val(s) == hex_digit_val(s[0]));
        assert(hex_digit_val(s[0]) < 16);
        lemma_char_digit(s[0]);
        assert(seq![digit_char(hex_val(s))] =~= s);
    } else {
        let dl = s.drop_last();
        assert(dl[0] == s[0]);
        assert(forall|i: int| 0 <= i < dl.len() ==> is_lower_hex_digit(#[trigger] dl[i]));
        lemma_hex_round_trip(dl);
        lemma_hex_val_pos(dl);
        let v = hex_digit_val(s.last());
        assert(is_lower_hex_digit(s.last()));
        assert(v < 16);
        assert(hex_val(s) == 16 * hex_val(dl) + v);
        assert(hex_val(s) >= 16);
        assert(hex_val(s) / 16 == hex_val(dl));
        assert(hex_val(s) % 16 == v);
        assert(hex_repr(hex_val(s)) == hex_repr(hex_val(dl)).push(digit_char(v)));
        lemma_char_digit(s.last());
        assert(dl.push(s.last()) =~= s);
    }
}

/// The exec classification of one character: its digit value if it is a
/// hexadecimal digit of either case, and nothing otherwise.
pub fn hex_digit_value(c: char) -> (r: Option<u8>)
    ensures
        match r {
            Some(d) => is_hex_digit(c) && d < 16 && d as nat == hex_digit_val(c),
            None => !is_hex_digit(c),
        },
{
    if c == '0' {
        Some(0)
    } else if c == '1' {
        Some(1)
    } else if c == '2' {
        Some(2)
    } else if c == '3' {
        Some(3)
    } else if c == '4' {
        Some(4)
    } else if c == '5' {
        Some(5)
    } else if c == '6' {
        Some(6)
    } else if c == '7' {
        Some(7)
    } else if c == '8' {
        Some(8)
    } else if c == '9' {
        Some(9)
    } else if c == 'a' || c == 'A' {
        Some(10)
    } else if c == 'b' || c == 'B' {
        Some(11)
    } else if c == 'c' || c == 'C' {
        Some(12)
    } else if c == 'd' || c == 'D' {
        Some(13)
    } else if c == 'e' || c == 'E' {
        Some(14)
    } else if c == 'f' || c == 'F' {
        Some(15)
    } else {
        None
    }
}

/// The one-character lowercase string for a digit value.
pub fn digit_str(d: u8) -> (r: &'static str)
    requires
        d < 16,
    ensures
        r@ == seq![digit_char(d as nat)],
{
    if d == 0 {
        proof {
            reveal_strlit("0");
            assert("0"@ =~= seq![digit_char(0)]);
        }
        "0"
    } else if d == 1 {
        proof {
            reveal_strlit("1");
            assert("1"@ =~= seq![digit_char(1)]);
        }
        "1"
    } else if d == 2 {
        proof {
            reveal_strlit("2");
            assert("2"@ =~= seq![digit_char(2)]);
        }
        "2"
    } else if d == 3 {
        proof {
            reveal_strlit("3");
            assert("3"@ =~= seq![digit_char(3)]);
        }
        "3"
    } else if d == 4 {
        proof {
            reveal_strlit("4");
            assert("4"@ =~= seq![digit_char(4)]);
        }
        "4"
    } else if d == 5 {
        proof {
            reveal_strlit("5");
            assert("5"@ =~= seq![digit_char(5)]);
        }
        "5"
    } else if d == 6 {
        proof {
            reveal_strlit("6");
            assert("6"@ =~= seq![digit_char(6)]);
        }
        "6"
    } else if d == 7 {
        proof {
            reveal_strlit("7");
            assert("7"@ =~= seq![digit_char(7)]);
        }
        "7"
    } else if d == 8 {
        proof {
            reveal_strlit("8");
            assert("8"@ =~= seq![digit_char(8)]);
        }
        "8"
    } else if d == 9 {
        proof {
            reveal_strlit("9");
            assert("9"@ =~= seq![digit_char(9)]);
        }
        "9"
    } else if d == 10 {
        proof {
            reveal_strlit("a");
            assert("a"@ =~= seq![digit_char(10)]);
        }
        "a"
    } else if d == 11 {
        proof {
            reveal_strlit("b");
            assert("b"@ =~= seq![digit_char(11)]);
        }
        "b"
    } else if d == 12 {
        proof {
            reveal_strlit("c");
            assert("c"@ =~= seq![digit_char(12)]);
        }
        "c"
    } else if d == 13 {
        proof {
            reveal_strlit("d");
            assert("d"@ =~= seq![digit_char(13)]);
        }
        "d"
    } else if d == 14 {
        proof {
            reveal_strlit("e");
            assert("e"@ =~= seq![digit_char(14)]);
        }
        "e"
    } else {
        proof {
            reveal_strlit("f");
            assert("f"@ =~= seq![digit_char(15)]);
        }
        "f"
    }
}

/// Appends the minimal (unpadded) rendering of `x` to `out`.
pub fn push_hex_min(x: u32, out: &mut String)
    ensures
        final(out)@ == old(out)@ + hex_repr(x as nat),
    decreases x,
{
    if x < 16 {
        let ghost pre = out@;
        out.append(digit_str(x as u8));
        proof {
            assert(pre + seq![digit_char(x as nat)] =~= pre + hex_repr(x as nat));
        }
    } else {
        let ghost pre = out@;
        push_hex_min(x / 16, out);
        out.append(digit_str((x % 16) as u8));
        proof {
            assert(hex_repr(x as nat) == hex_repr(x as nat / 16).push(digit_char(x as nat % 16)));
            assert(x as nat / 16 == (x / 16) as nat);
            assert(x as nat % 16 == (x % 16) as nat);
            assert((pre + hex_repr((x / 16) as nat)) + seq![digit_char((x % 16) as nat)] =~= pre
                + hex_repr(x as nat));
        }
    }
}

/// Appends the rendering of the low `w` digits of `x`, zero-padded to
/// exactly `w` characters, to `out`.
pub fn push_hex_padded(x: u32, w: u8, out: &mut String)
    ensures
        final(out)@ == old(out)@ + pad_repr(x as nat, w as nat),
    decreases w,
{
    if w == 0 {
        proof {
            assert(out@ + pad_repr(x as nat, 0) =~= out@);
        }
    } else {
        let ghost pre = out@;
        push_hex_padded(x / 16, w - 1, out);
        out.append(digit_str((x % 16) as u8));
        proof {
            assert(pad_repr(x as nat, w as nat) == pad_repr(x as nat / 16, (w - 1) as nat).push(
                digit_char(x as nat % 16),
            ));
            assert(x as nat / 16 == (x / 16) as nat);
            assert(x as nat % 16 == (x % 16) as nat);
            assert((pre + pad_repr((x / 16) as nat, (w - 1) as nat)) + seq![digit_char(
                (x % 16) as nat,
            )] =~= pre + pad_repr(x as nat, w as nat));
        }
    }
}

} // verus!
