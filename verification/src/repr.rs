use vstd::prelude::*;
use crate::intmath::abs_spec;

verus! {

/// The text made of the given characters.
#[verifier::external_body]
fn chars_to_string(chars: &Vec<char>) -> (s: String)
    ensures
        s@ == chars@,
{
    chars.iter().collect()
}

/// Character for digit `d` (`0-9`, then `A-Z`).
pub open spec fn digit_char(d: nat) -> char {
    if d < 10 { ((48 + d) as u8) as char } else { ((55 + d) as u8) as char }
}

/// Digits of `n` in base `base`, most significant first (`"0"` for zero).
pub open spec fn base_digits(n: nat, base: nat) -> Seq<char>
    decreases n,
{
    if base < 2 || n < base {
        seq![digit_char(n)]
    } else {
        proof {
            vstd::arithmetic::div_mod::lemma_div_decreases(n as int, base as int);
        }
        base_digits(n / base, base).push(digit_char(n % base))
    }
}

/// Number of binary digits of `n` (zero has none).
pub open spec fn bit_length(n: nat) -> nat
    decreases n,
{
    if n == 0 { 0 } else { 1 + bit_length(n / 2) }
}

/// `s` left-padded with `'0'` to at least `w` characters.
pub open spec fn zero_padded(s: Seq<char>, w: nat) -> Seq<char> {
    if s.len() < w { Seq::new((w - s.len()) as nat, |i: int| '0') + s } else { s }
}

/// Two to the power `e`.
pub open spec fn pow2(e: nat) -> nat
    decreases e,
{
    if e == 0 { 1 } else { 2 * pow2((e - 1) as nat) }
}

/// The digit character for `d < 36`.
fn digit_char_exec(d: u64) -> (c: char)
    requires
        d < 36,
    ensures
        c == digit_char(d as nat),
{
    if d < 10 { ((48 + d) as u8) as char } else { ((55 + d) as u8) as char }
}

/// Digits of `n` in base `base` (`2 <= base <= 36`), most significant first.
fn base_digits_exec(n: u64, base: u64) -> (r: Vec<char>)
    requires
        2 <= base <= 36,
    ensures
        r@ == base_digits(n as nat, base as nat),
    decreases n,
{
    if n < base {
        let mut r: Vec<char> = Vec::new();
        r.push(digit_char_exec(n));
        r
    } else {
        proof {
            vstd::arithmetic::div_mod::lemma_div_decreases(n as int, base as int);
        }
        let mut r = base_digits_exec(n / base, base);
        r.push(digit_char_exec(n % base));
        r
    }
}

/// `s` left-padded with zeros to `w` characters.
fn pad_zeros(s: &Vec<char>, w: usize) -> (r: Vec<char>)
    ensures
        r@ == zero_padded(s@, w as nat),
{
    let mut r: Vec<char> = Vec::new();
    if s.len() < w {
        let k = w - s.len();
        let mut i: usize = 0;
        while i < k
            invariant
                0 <= i <= k,
                r@ =~= Seq::new(i as nat, |j: int| '0'),
            decreases k - i,
        {
            r.push('0');
            i = i + 1;
        }
    }
    let mut j: usize = 0;
    let start = r.len();
    while j < s.len()
        invariant
            0 <= j <= s@.len(),
            start == r@.len() - j,
            r@ =~= (if s@.len() < w { Seq::new((w - s@.len()) as nat, |i: int| '0') } else { Seq::<char>::empty() }) + s@.take(j as int),
        decreases s@.len() - j,
    {
        r.push(s[j]);
        j = j + 1;
    }
    assert(s@.take(s@.len() as int) =~= s@);
    assert(r@ =~= zero_padded(s@, w as nat));
    r
}

/// Width used by `binary_repr`: the given width, or the bit length of `|num|` (at least one).
pub open spec fn binary_width(num: int, width: Option<usize>) -> nat {
    match width {
        Some(w) => w as nat,
        None => if bit_length(abs_spec(num)) == 0 { 1 } else { bit_length(abs_spec(num)) },
    }
}

/// Value whose binary digits `binary_repr` prints: `num` itself, or for a negative number its
/// two's complement `2^w + num` (as the unsigned 64-bit pattern of that sum).
pub open spec fn binary_value(num: int, w: nat) -> nat {
    if num >= 0 { num as nat } else { ((pow2(w) + num) as i64 as u64) as nat }
}

/// Binary representation of `num`, zero-padded to the width; a negative number is written
/// in two's complement over `width` bits (the bit length of `|num|` when no width is given).
pub fn binary_repr(num: i64, width: Option<usize>) -> (r: String)
    requires
        width is None ==> num != i64::MIN,
        num < 0 ==> binary_width(num as int, width) <= 62,
    ensures
        r@ == zero_padded(base_digits(binary_value(num as int, binary_width(num as int, width)), 2),
            binary_width(num as int, width)),
{
    let w: usize = match width {
        Some(w) => w,
        None => {
            let mut a: u64 = if num < 0 { (0 - num) as u64 } else { num as u64 };
            let mut bits: usize = 0;
            proof {
                lemma_pow2_64();
                lemma_bit_length_bound(a as nat, 64);
            }
            while a > 0
                invariant
                    bits as nat + bit_length(a as nat) == bit_length(abs_spec(num as int)),
                    bit_length(a as nat) <= 64 - bits,
                decreases a,
            {
                bits = bits + 1;
                a = a / 2;
            }
            if bits == 0 { 1 } else { bits }
        },
    };
    let v: u64 = if num >= 0 {
        num as u64
    } else {
        let p = pow2_i64(w);
        let t: i64 = p + num;
        t as u64
    };
    let digits = base_digits_exec(v, 2);
    chars_to_string(&pad_zeros(&digits, w))
}

/// `2^62` and `2^64` written out.
pub proof fn lemma_pow2_64()
    ensures
        pow2(62) == 4611686018427387904nat,
        pow2(64) == 18446744073709551616nat,
{
    reveal_with_fuel(pow2, 65);
}

/// `2^w` for `w <= 62`.
fn pow2_i64(w: usize) -> (p: i64)
    requires
        w <= 62,
    ensures
        p as nat == pow2(w as nat),
        p >= 1,
{
    let mut p: i64 = 1;
    let mut k: usize = 0;
    proof { lemma_pow2_64(); }
    while k < w
        invariant
            0 <= k <= w,
            w <= 62,
            p >= 1,
            p as int == pow2(k as nat) as int,
            pow2(62) == 4611686018427387904nat,
        decreases w - k,
    {
        proof {
            lemma_pow2_mono((k + 1) as nat, 62);
            assert(pow2((k + 1) as nat) == 2 * pow2(k as nat));
        }
        p = p * 2;
        k = k + 1;
    }
    proof { lemma_pow2_mono(w as nat, 62); }
    p
}

/// A number below `2^k` has at most `k` binary digits.
pub proof fn lemma_bit_length_bound(n: nat, k: nat)
    requires
        n < pow2(k),
    ensures
        bit_length(n) <= k,
    decreases k,
{
    if k > 0 && n > 0 {
        lemma_bit_length_bound(n / 2, (k - 1) as nat);
    }
    if k == 0 {
        assert(n == 0);
    }
}

/// Powers of two grow with the exponent.
pub proof fn lemma_pow2_mono(a: nat, b: nat)
    requires
        a <= b,
    ensures
        pow2(a) <= pow2(b),
        pow2(a) >= 1,
    decreases b,
{
    if b > 0 {
        if a <= b - 1 {
            lemma_pow2_mono(a, (b - 1) as nat);
        } else {
            lemma_pow2_mono((b - 1) as nat, (b - 1) as nat);
        }
    }
}

/// Representation of `number` in base `base` (2 to 36, otherwise empty), with `padding`
/// zeros in front of the digits and a leading minus sign for negative numbers.
pub fn base_repr(number: i64, base: u32, padding: usize) -> (r: String)
    ensures
        !(2 <= base <= 36) ==> r@.len() == 0,
        2 <= base <= 36 ==> r@ == (if number < 0 { seq!['-'] } else { Seq::<char>::empty() })
            + Seq::new(padding as nat, |i: int| '0') + base_digits(abs_spec(number as int), base as nat),
{
    if !(2 <= base && base <= 36) {
        let empty: Vec<char> = Vec::new();
        return chars_to_string(&empty);
    }
    let neg = number < 0;
    let mag: u64 = if neg { ((0 - (number as i128)) as u64) } else { number as u64 };
    let digits = base_digits_exec(mag, base as u64);
    let mut out: Vec<char> = Vec::new();
    if neg {
        out.push('-');
    }
    let mut i: usize = 0;
    while i < padding
        invariant
            0 <= i <= padding,
            out@ =~= (if neg { seq!['-'] } else { Seq::<char>::empty() }) + Seq::new(i as nat, |j: int| '0'),
        decreases padding - i,
    {
        out.push('0');
        i = i + 1;
    }
    let mut j: usize = 0;
    while j < digits.len()
        invariant
            0 <= j <= digits@.len(),
            out@ =~= (if neg { seq!['-'] } else { Seq::<char>::empty() }) + Seq::new(padding as nat, |k: int| '0')
                + digits@.take(j as int),
        decreases digits@.len() - j,
    {
        out.push(digits[j]);
        j = j + 1;
    }
    assert(digits@.take(digits@.len() as int) =~= digits@);
    chars_to_string(&out)
}

} // verus!
