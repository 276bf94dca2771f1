//! Number text: decimal integers and JSON float literals.
use vstd::prelude::*;

verus! {

pub open spec fn is_digit(c: u8) -> bool {
    48 <= c <= 57
}

/// The decimal digits of a natural number.
pub open spec fn decimal(n: nat) -> Seq<u8>
    decreases n,
{
    if n < 10 {
        seq![(48 + n) as u8]
    } else {
        decimal(n / 10).push((48 + n % 10) as u8)
    }
}

/// The JSON text of an integer: its decimal digits, after a minus sign if it
/// is negative.
pub open spec fn int_text(i: int) -> Seq<u8> {
    if i < 0 {
        seq![45u8] + decimal((-i) as nat)
    } else {
        decimal(i as nat)
    }
}

fn write_decimal(n: u128, out: &mut Vec<u8>)
    ensures
        final(out)@ == old(out)@ + decimal(n as nat),
    decreases n,
{
    if n >= 10 {
        write_decimal(n / 10, out);
    }
    let d: u8 = (n % 10) as u8;
    out.push(48 + d);
    proof {
        if n >= 10 {
            assert(decimal(n as nat) == decimal((n / 10) as nat).push((48 + n % 10) as u8));
        }
    }
    assert(final(out)@ =~= old(out)@ + decimal(n as nat));
}

/// Appends the JSON text of an integer.
pub fn write_int(i: i128, out: &mut Vec<u8>)
    ensures
        final(out)@ == old(out)@ + int_text(i as int),
{
    if i < 0 {
        out.push(45);
        let m: u128 = ((-(i + 1)) as u128) + 1;
        write_decimal(m, out);
        assert(final(out)@ =~= old(out)@ + int_text(i as int));
    } else {
        write_decimal(i as u128, out);
    }
}

/// The first index at or after `i` that holds no digit.
pub open spec fn digits_end(s: Seq<u8>, i: int) -> int
    decreases s.len() - i,
{
    if i < 0 || i >= s.len() || !is_digit(s[i]) {
        i
    } else {
        digits_end(s, i + 1)
    }
}

/// Where the integer part of a JSON number starting at `a` ends, or -1 where
/// there is none (no digit, or a leading zero followed by a digit is left to
/// the caller).
pub open spec fn int_part_end(s: Seq<u8>, a: int) -> int {
    if a < s.len() && s[a] == 48 {
        a + 1
    } else if a < s.len() && is_digit(s[a]) {
        digits_end(s, a)
    } else {
        -1
    }
}

/// Where the fraction starting at `b` ends (`b` itself where there is none),
/// or -1 where a point has no digit after it.
pub open spec fn frac_end(s: Seq<u8>, b: int) -> int {
    if b < s.len() && s[b] == 46 {
        if digits_end(s, b + 1) > b + 1 {
            digits_end(s, b + 1)
        } else {
            -1
        }
    } else {
        b
    }
}

/// Where the exponent starting at `c` ends (`c` itself where there is none),
/// or -1 where it is not `e`, a sign and digits. This is the one form the
/// JSON parser hands back, so a float's text reads back unchanged.
pub open spec fn exp_end(s: Seq<u8>, c: int) -> int {
    if c < s.len() && (s[c] == 101 || s[c] == 69) {
        if s[c] == 101 && c + 1 < s.len() && (s[c + 1] == 43 || s[c + 1] == 45) && digits_end(
            s,
            c + 2,
        ) > c + 2 {
            digits_end(s, c + 2)
        } else {
            -1
        }
    } else {
        c
    }
}

/// A JSON number with a fraction or an exponent, its exponent written `e`
/// and a sign: the text of a float.
pub open spec fn is_float_text(s: Seq<u8>) -> bool {
    let a: int = if s.len() > 0 && s[0] == 45 {
        1
    } else {
        0
    };
    let b = int_part_end(s, a);
    let c = if b >= 0 {
        frac_end(s, b)
    } else {
        -1
    };
    let e = if c >= 0 {
        exp_end(s, c)
    } else {
        -1
    };
    b >= 0 && c >= 0 && e == s.len() && (c > b || e > c)
}

fn scan_digits(s: &[u8], i: usize) -> (r: usize)
    requires
        i <= s@.len(),
    ensures
        r as int == digits_end(s@, i as int),
        i <= r <= s@.len(),
    decreases s@.len() - i,
{
    if i < s.len() && 48 <= s[i] && s[i] <= 57 {
        scan_digits(s, i + 1)
    } else {
        i
    }
}

/// Tells whether the bytes are the text of a float.
pub fn check_float_text(s: &[u8]) -> (r: bool)
    ensures
        r == is_float_text(s@),
{
    let a: usize = if s.len() > 0 && s[0] == 45 {
        1
    } else {
        0
    };
    let b: usize;
    if a < s.len() && s[a] == 48 {
        b = a + 1;
    } else if a < s.len() && 48 <= s[a] && s[a] <= 57 {
        b = scan_digits(s, a);
    } else {
        return false;
    }
    let c: usize;
    if b < s.len() && s[b] == 46 {
        let d = scan_digits(s, b + 1);
        if d == b + 1 {
            return false;
        }
        c = d;
    } else {
        c = b;
    }
    let e: usize;
    if c < s.len() && (s[c] == 101 || s[c] == 69) {
        if !(s[c] == 101 && c + 1 < s.len() && (s[c + 1] == 43 || s[c + 1] == 45)) {
            return false;
        }
        let f = scan_digits(s, c + 2);
        if f == c + 2 {
            return false;
        }
        e = f;
    } else {
        e = c;
    }
    e == s.len() && (c > b || e > c)
}

} // verus!

verus! {

/// The value of the digits `s[i..j]`.
pub open spec fn digits_value(s: Seq<u8>, i: int, j: int) -> nat
    decreases j - i,
{
    if j <= i {
        0
    } else {
        digits_value(s, i, j - 1) * 10 + (s[j - 1] - 48) as nat
    }
}

/// Where the digits of a number start: after a minus sign, if any.
pub open spec fn sign_len(s: Seq<u8>) -> int {
    if s.len() > 0 && s[0] == 45 {
        1
    } else {
        0
    }
}

/// The integer that a JSON integer literal stands for; nothing for a number
/// with a fraction or an exponent, or for text that is no number.
pub open spec fn number_int(s: Seq<u8>) -> Option<int> {
    let a = sign_len(s);
    if int_part_end(s, a) == s.len() {
        let v = digits_value(s, a, s.len() as int) as int;
        Some(if a == 1 {
            -v
        } else {
            v
        })
    } else {
        None
    }
}

proof fn lemma_digits_value_grows(s: Seq<u8>, i: int, j: int, k: int)
    requires
        i <= j <= k <= s.len(),
        forall|m: int| i <= m < k ==> is_digit(#[trigger] s[m]),
    ensures
        digits_value(s, i, j) <= digits_value(s, i, k),
    decreases k - j,
{
    if j < k {
        lemma_digits_value_grows(s, i, j, k - 1);
    }
}

proof fn lemma_digits_end(s: Seq<u8>, i: int)
    requires
        0 <= i <= s.len(),
    ensures
        i <= digits_end(s, i) <= s.len(),
        forall|m: int| i <= m < digits_end(s, i) ==> is_digit(#[trigger] s[m]),
    decreases s.len() - i,
{
    if i < s.len() && is_digit(s[i]) {
        lemma_digits_end(s, i + 1);
    }
}

/// Tells whether the bytes are a JSON integer literal.
pub fn check_int_text(s: &[u8]) -> (r: bool)
    ensures
        r == number_int(s@) is Some,
{
    let a: usize = if s.len() > 0 && s[0] == 45 {
        1
    } else {
        0
    };
    if a < s.len() && s[a] == 48 {
        a + 1 == s.len()
    } else if a < s.len() && 48 <= s[a] && s[a] <= 57 {
        scan_digits(s, a) == s.len()
    } else {
        false
    }
}

/// The value of a JSON integer literal, where it fits in an `i128`.
pub fn int_of_text(s: &[u8]) -> (r: Option<i128>)
    requires
        number_int(s@) is Some,
    ensures
        r is Some <==> i128::MIN <= number_int(s@)->0 <= i128::MAX,
        r matches Some(v) ==> v as int == number_int(s@)->0,
{
    let a: usize = if s.len() > 0 && s[0] == 45 {
        1
    } else {
        0
    };
    let limit: u128 = if a == 1 {
        0x8000_0000_0000_0000_0000_0000_0000_0000
    } else {
        0x7fff_ffff_ffff_ffff_ffff_ffff_ffff_ffff
    };
    proof {
        lemma_digits_end(s@, a as int);
        if !(a < s@.len() && s@[a as int] == 48) {
            assert(digits_end(s@, a as int) == s@.len());
        }
        assert forall|m: int| a <= m < s@.len() implies is_digit(#[trigger] s@[m]) by {
            if a < s@.len() && s@[a as int] == 48 {
                assert(m == a);
            }
        }
    }
    let mut acc: u128 = 0;
    let mut i: usize = a;
    while i < s.len()
        invariant
            a <= i <= s@.len(),
            a == sign_len(s@),
            number_int(s@) is Some,
            forall|m: int| a <= m < s@.len() ==> is_digit(#[trigger] s@[m]),
            acc as int == digits_value(s@, a as int, i as int),
            acc <= limit,
            limit == if a == 1 { 0x8000_0000_0000_0000_0000_0000_0000_0000u128 } else { 0x7fff_ffff_ffff_ffff_ffff_ffff_ffff_ffffu128 },
        decreases s@.len() - i,
    {
        let d: u128 = (s[i] - 48) as u128;
        if acc > (limit - d) / 10 {
            proof {
                assert(is_digit(s@[i as int]));
                assert(d <= 9);
                assert(acc * 10 + d > limit) by (nonlinear_arith)
                    requires
                        acc > (limit - d) / 10,
                        d <= 9,
                        d <= limit,
                ;
                assert(digits_value(s@, a as int, i + 1) == acc * 10 + d);
                lemma_digits_value_grows(s@, a as int, i + 1, s@.len() as int);
                let v = digits_value(s@, a as int, s@.len() as int) as int;
                assert(v > limit);
                assert(number_int(s@) == Some(if a == 1 { -v } else { v }));
            }
            return None;
        }
        acc = acc * 10 + d;
        i = i + 1;
    }
    if a == 1 {
        if acc == 0x8000_0000_0000_0000_0000_0000_0000_0000 {
            Some(i128::MIN)
        } else {
            Some(-(acc as i128))
        }
    } else {
        Some(acc as i128)
    }
}

} // verus!

verus! {

proof fn lemma_digits_value_shift(s: Seq<u8>, t: Seq<u8>, k: int, i: int, j: int)
    requires
        forall|x: int| i <= x < j ==> s[x + k] == #[trigger] t[x],
    ensures
        digits_value(s, i + k, j + k) == digits_value(t, i, j),
    decreases j - i,
{
    if j > i {
        lemma_digits_value_shift(s, t, k, i, j - 1);
        assert(s[j - 1 + k] == t[j - 1]);
    }
}

proof fn lemma_digits_end_all(s: Seq<u8>, i: int)
    requires
        0 <= i <= s.len(),
        forall|x: int| i <= x < s.len() ==> is_digit(#[trigger] s[x]),
    ensures
        digits_end(s, i) == s.len(),
    decreases s.len() - i,
{
    if i < s.len() {
        lemma_digits_end_all(s, i + 1);
    }
}

proof fn lemma_decimal(n: nat)
    ensures
        decimal(n).len() >= 1,
        forall|x: int| 0 <= x < decimal(n).len() ==> is_digit(#[trigger] decimal(n)[x]),
        decimal(n)[0] == 48 ==> n == 0 && decimal(n).len() == 1,
        digits_value(decimal(n), 0, decimal(n).len() as int) == n,
    decreases n,
{
    let s = decimal(n);
    if n < 10 {
        assert(digits_value(s, 0, 0) == 0);
    } else {
        let p = decimal(n / 10);
        lemma_decimal(n / 10);
        assert(s == p.push((48 + n % 10) as u8));
        assert forall|x: int| 0 <= x < p.len() implies s[x + 0] == #[trigger] p[x] by {}
        lemma_digits_value_shift(s, p, 0, 0, p.len() as int);
        assert(digits_value(s, 0, s.len() as int) == digits_value(s, 0, p.len() as int) * 10 + (s[
            p.len() as int
        ] - 48) as nat);
        assert(s[0] == p[0]);
    }
}

/// The text of an integer reads back as that integer.
pub proof fn lemma_int_text_reads_back(i: int)
    ensures
        number_int(int_text(i)) == Some(i),
{
    let m: nat = if i < 0 {
        (-i) as nat
    } else {
        i as nat
    };
    let d = decimal(m);
    lemma_decimal(m);
    let s = int_text(i);
    let a: int = if i < 0 {
        1
    } else {
        0
    };
    if i < 0 {
        assert(s == seq![45u8] + d);
        assert(s[0] == 45);
    } else {
        assert(s == d);
        assert(is_digit(d[0]));
    }
    assert(sign_len(s) == a);
    assert forall|x: int| 0 <= x < d.len() implies s[x + a] == #[trigger] d[x] by {}
    assert forall|x: int| a <= x < s.len() implies is_digit(#[trigger] s[x]) by {
        assert(s[x] == d[x - a]);
    }
    lemma_digits_value_shift(s, d, a, 0, d.len() as int);
    lemma_digits_end_all(s, a);
    assert(s[a] == d[0]);
}

/// Float text is no integer literal.
pub proof fn lemma_float_text_is_no_int(s: Seq<u8>)
    requires
        is_float_text(s),
    ensures
        number_int(s) is None,
{
}

} // verus!
