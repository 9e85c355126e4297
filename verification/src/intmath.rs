use vstd::prelude::*;
use crate::array::ArrayError;

verus! {

/// Greatest common divisor, as a mathematical function on naturals.
pub open spec fn gcd_spec(a: nat, b: nat) -> nat
    decreases b,
{
    if b == 0 { a } else { gcd_spec(b, a % b) }
}

/// Absolute value.
pub open spec fn abs_spec(x: int) -> nat {
    if x < 0 { (-x) as nat } else { x as nat }
}

/// The greatest common divisor divides both arguments, and is zero only for two zeros.
pub proof fn lemma_gcd_divides(a: nat, b: nat)
    ensures
        gcd_spec(a, b) == 0 ==> a == 0 && b == 0,
        gcd_spec(a, b) > 0 ==> a % gcd_spec(a, b) == 0 && b % gcd_spec(a, b) == 0,
    decreases b,
{
    if b > 0 {
        lemma_gcd_divides(b, a % b);
        let g = gcd_spec(b, a % b);
        if g > 0 {
            vstd::arithmetic::div_mod::lemma_fundamental_div_mod(a as int, b as int);
            vstd::arithmetic::div_mod::lemma_fundamental_div_mod(b as int, g as int);
            vstd::arithmetic::div_mod::lemma_fundamental_div_mod((a % b) as int, g as int);
            let q = (a / b) as int;
            let kb = (b / g) as int;
            let kr = ((a % b) / g) as int;
            assert(a as int == g * (kb * q + kr)) by (nonlinear_arith)
                requires a as int == b * q + (a % b), b as int == g * kb, (a % b) as int == g * kr;
            vstd::arithmetic::div_mod::lemma_mod_multiples_basic(kb * q + kr, g as int);
            assert((g * (kb * q + kr)) % (g as int) == 0) by {
                vstd::arithmetic::mul::lemma_mul_is_commutative(g as int, kb * q + kr);
            }
        }
    }
}

/// A common divisor of `a` and `b` divides `a % b` as well.
proof fn lemma_common_divisor_mod(a: nat, b: nat, d: int)
    requires
        b > 0,
        d > 0,
        a as int % d == 0,
        b as int % d == 0,
    ensures
        (a % b) as int % d == 0,
{
    vstd::arithmetic::div_mod::lemma_fundamental_div_mod(a as int, d);
    vstd::arithmetic::div_mod::lemma_fundamental_div_mod(b as int, d);
    vstd::arithmetic::div_mod::lemma_fundamental_div_mod(a as int, b as int);
    let ka = a as int / d;
    let kb = b as int / d;
    let q = a as int / b as int;
    assert((a % b) as int == d * (ka - kb * q)) by (nonlinear_arith)
        requires a as int == d * ka, b as int == d * kb, a as int == b * q + (a % b) as int;
    vstd::arithmetic::div_mod::lemma_mod_multiples_basic(ka - kb * q, d);
    assert((d * (ka - kb * q)) % d == ((ka - kb * q) * d) % d) by {
        vstd::arithmetic::mul::lemma_mul_is_commutative(d, ka - kb * q);
    }
}

/// The greatest common divisor is greatest for divisibility: every common divisor of `a`
/// and `b` divides it.
proof fn lemma_gcd_greatest(a: nat, b: nat, d: int)
    requires
        d > 0,
        a as int % d == 0,
        b as int % d == 0,
    ensures
        gcd_spec(a, b) as int % d == 0,
    decreases b,
{
    if b > 0 {
        lemma_common_divisor_mod(a, b, d);
        lemma_gcd_greatest(b, a % b, d);
    }
}

/// `gcd_i64` computes the greatest common divisor of `|x|` and `|y|`: a non-negative `g`
/// that divides both (it is zero only when both are), and that every positive common
/// divisor `d` of `|x|` and `|y|` divides, so that no common divisor exceeds it.
pub proof fn law_gcd_is_greatest_common_divisor(x: int, y: int, d: int)
    ensures
        ({
            let g = gcd_spec(abs_spec(x), abs_spec(y));
            &&& g == 0 <==> (x == 0 && y == 0)
            &&& g > 0 ==> abs_spec(x) % g == 0 && abs_spec(y) % g == 0
            &&& (d > 0 && abs_spec(x) as int % d == 0 && abs_spec(y) as int % d == 0) ==> g as int % d == 0
            &&& (d > 0 && g > 0 && abs_spec(x) as int % d == 0 && abs_spec(y) as int % d == 0) ==> d <= g
        }),
{
    let a = abs_spec(x);
    let b = abs_spec(y);
    lemma_gcd_divides(a, b);
    if a == 0 && b == 0 {
        assert(gcd_spec(a, b) == 0);
    }
    if d > 0 && a as int % d == 0 && b as int % d == 0 {
        lemma_gcd_greatest(a, b, d);
        let g = gcd_spec(a, b);
        if g > 0 {
            vstd::arithmetic::div_mod::lemma_fundamental_div_mod(g as int, d);
            assert(g as int == d * (g as int / d));
            assert(d <= g) by (nonlinear_arith)
                requires g as int == d * (g as int / d), g > 0, d > 0;
        }
    }
}

/// Greatest common divisor of two integers, always non-negative.
pub fn gcd_i64(x: i64, y: i64) -> (r: i64)
    requires
        x != i64::MIN,
        y != i64::MIN,
    ensures
        r as int == gcd_spec(abs_spec(x as int), abs_spec(y as int)),
        r >= 0,
{
    let mut a: i64 = if x < 0 { -x } else { x };
    let mut b: i64 = if y < 0 { -y } else { y };
    while b != 0
        invariant
            a >= 0,
            b >= 0,
            gcd_spec(a as nat, b as nat) == gcd_spec(abs_spec(x as int), abs_spec(y as int)),
        decreases b,
    {
        let t = b;
        b = a % b;
        a = t;
    }
    a
}

/// For non-zero `x` and `y`, `|(x / g) * y|` with `g` the greatest common divisor of `|x|`
/// and `|y|` is a positive common multiple of `|x|` and `|y|`, and times `g` it gives
/// `|x| * |y|`.
pub proof fn law_lcm_is_common_multiple(x: int, y: int)
    requires
        x != 0,
        y != 0,
    ensures
        ({
            let g = gcd_spec(abs_spec(x), abs_spec(y)) as int;
            let l = abs_spec((x / g) * y) as int;
            &&& l > 0
            &&& l % (abs_spec(x) as int) == 0
            &&& l % (abs_spec(y) as int) == 0
            &&& l * g == abs_spec(x) * abs_spec(y)
        }),
{
    let ax = abs_spec(x) as int;
    let ay = abs_spec(y) as int;
    lemma_gcd_divides(abs_spec(x), abs_spec(y));
    let g = gcd_spec(abs_spec(x), abs_spec(y)) as int;
    assert(g > 0);
    vstd::arithmetic::div_mod::lemma_fundamental_div_mod(ax, g);
    vstd::arithmetic::div_mod::lemma_fundamental_div_mod(ay, g);
    let qa = ax / g;
    let ry = ay / g;
    assert(ax == g * qa);
    assert(ay == g * ry);
    let sx: int = if x < 0 { -1 } else { 1 };
    assert(x == g * (sx * qa)) by (nonlinear_arith)
        requires ax == g * qa, (x < 0 ==> ax == -x && sx == -1), (x >= 0 ==> ax == x && sx == 1);
    vstd::arithmetic::div_mod::lemma_fundamental_div_mod_converse(x, g, sx * qa, 0);
    assert(x / g == sx * qa);
    let l = abs_spec((x / g) * y) as int;
    assert(qa > 0) by (nonlinear_arith)
        requires ax == g * qa, ax > 0, g > 0;
    assert(l == qa * ay) by (nonlinear_arith)
        requires l == abs_spec((sx * qa) * y) as int, (sx == 1 || sx == -1), qa > 0, ay == abs_spec(y) as int,
            abs_spec(y) as int == (if y < 0 { -y } else { y }),
            abs_spec((sx * qa) * y) as int == (if (sx * qa) * y < 0 { -((sx * qa) * y) } else { (sx * qa) * y });
    assert(l > 0) by (nonlinear_arith)
        requires l == qa * ay, qa > 0, ay > 0;
    vstd::arithmetic::div_mod::lemma_mod_multiples_basic(qa, ay);
    assert(l == ry * ax) by (nonlinear_arith)
        requires l == qa * ay, ay == g * ry, ax == g * qa;
    vstd::arithmetic::div_mod::lemma_mod_multiples_basic(ry, ax);
    assert(l == qa * ay);
    assert(l % ay == 0) by {
        vstd::arithmetic::mul::lemma_mul_is_commutative(qa, ay);
    }
    assert(l * g == ax * ay) by (nonlinear_arith)
        requires l == qa * ay, ax == g * qa;
}

/// Least common multiple of two integers: zero when either is
/// zero, otherwise `|(x / gcd) * y|`.
pub fn lcm_i64(x: i64, y: i64) -> (r: i64)
    requires
        x != i64::MIN,
        y != i64::MIN,
        x != 0 && y != 0 ==> i64::MIN < (x as int / gcd_spec(abs_spec(x as int), abs_spec(y as int)) as int) * (y as int) <= i64::MAX,
    ensures
        x == 0 || y == 0 ==> r == 0,
        x != 0 && y != 0 ==> r as int == abs_spec((x as int / gcd_spec(abs_spec(x as int), abs_spec(y as int)) as int) * (y as int)),
{
    if x == 0 || y == 0 {
        return 0;
    }
    let g = gcd_i64(x, y);
    proof {
        lemma_gcd_divides(abs_spec(x as int), abs_spec(y as int));
        // g divides x exactly, so truncating and Euclidean division agree
        vstd::arithmetic::div_mod::lemma_fundamental_div_mod(abs_spec(x as int) as int, g as int);
        let qa = abs_spec(x as int) as int / g as int;
        if x < 0 {
            assert(x as int == g * (-qa)) by (nonlinear_arith)
                requires abs_spec(x as int) as int == g * qa, x < 0, abs_spec(x as int) == -(x as int);
            vstd::arithmetic::div_mod::lemma_fundamental_div_mod_converse(x as int, g as int, -qa, 0);
        } else {
            assert(x as int == g * qa);
            vstd::arithmetic::div_mod::lemma_fundamental_div_mod_converse(x as int, g as int, qa, 0);
        }
    }
    let q = x / g;
    let m = q * y;
    if m < 0 { -m } else { m }
}

/// Sum of a sequence of integers.
pub open spec fn seq_sum(s: Seq<i64>) -> int
    decreases s.len(),
{
    if s.len() == 0 { 0 } else { seq_sum(s.drop_last()) + s.last() }
}

/// Every running sum of the sequence fits in an `i64`.
pub open spec fn running_sums_fit(s: Seq<i64>) -> bool {
    forall|i: int| 0 <= i <= s.len() ==> i64::MIN <= #[trigger] seq_sum(s.take(i)) <= i64::MAX
}

/// Sum of the values.
pub fn isum(values: Vec<i64>) -> (r: i64)
    requires
        running_sums_fit(values@),
    ensures
        r as int == seq_sum(values@),
{
    let mut acc: i64 = 0;
    let mut i: usize = 0;
    while i < values.len()
        invariant
            0 <= i <= values@.len(),
            running_sums_fit(values@),
            acc as int == seq_sum(values@.take(i as int)),
        decreases values@.len() - i,
    {
        proof {
            assert(values@.take(i as int + 1).drop_last() =~= values@.take(i as int));
            assert(i64::MIN <= seq_sum(values@.take(i as int + 1)) <= i64::MAX);
        }
        acc = acc + values[i];
        i = i + 1;
    }
    assert(values@.take(values@.len() as int) =~= values@);
    acc
}

/// Largest of the values; refused for an empty list.
pub fn imax(values: Vec<i64>) -> (r: Result<i64, ArrayError>)
    ensures
        r is Err <==> values@.len() == 0,
        r is Err ==> r == Err::<i64, ArrayError>(ArrayError::EmptyInput),
        r matches Ok(m) ==> values@.contains(m) && forall|i: int| 0 <= i < values@.len() ==> values@[i] <= m,
{
    if values.len() == 0 {
        return Err(ArrayError::EmptyInput);
    }
    let mut m = values[0];
    let mut i: usize = 1;
    while i < values.len()
        invariant
            1 <= i <= values@.len(),
            values@.contains(m),
            forall|j: int| 0 <= j < i ==> values@[j] <= m,
        decreases values@.len() - i,
    {
        if values[i] > m {
            m = values[i];
        }
        i = i + 1;
    }
    Ok(m)
}

/// Number of decimal digits of `n` (zero has none).
pub open spec fn decimal_len(n: nat) -> nat
    decreases n,
{
    if n == 0 { 0 } else { 1 + decimal_len(n / 10) }
}

/// Ten to the power `k`.
pub open spec fn pow10(k: nat) -> nat
    decreases k,
{
    if k == 0 { 1 } else { 10 * pow10((k - 1) as nat) }
}

/// A number below `10^k` has at most `k` decimal digits.
pub proof fn lemma_decimal_len_bound(n: nat, k: nat)
    requires
        n < pow10(k),
    ensures
        decimal_len(n) <= k,
    decreases k,
{
    if k > 0 && n > 0 {
        assert(n / 10 < pow10((k - 1) as nat)) by {
            vstd::arithmetic::div_mod::lemma_fundamental_div_mod(n as int, 10);
        }
        lemma_decimal_len_bound(n / 10, (k - 1) as nat);
    }
}

/// Number of digits used to print an exponent: those of its magnitude, at least two.
pub fn exp_digit_count(exp: i32) -> (r: usize)
    ensures
        r == (if decimal_len(abs_spec(exp as int)) >= 2 { decimal_len(abs_spec(exp as int)) } else { 2 }),
{
    let mut a: u32 = if exp < 0 { (0 - (exp as i64)) as u32 } else { exp as u32 };
    let mut d: usize = 0;
    proof {
        reveal_with_fuel(pow10, 11);
        assert(pow10(10) == 10000000000);
        lemma_decimal_len_bound(a as nat, 10);
    }
    while a > 0
        invariant
            decimal_len(a as nat) + d == decimal_len(abs_spec(exp as int)),
            d <= 10,
            decimal_len(a as nat) <= 10 - d,
        decreases a,
    {
        d = d + 1;
        a = a / 10;
    }
    if d >= 2 { d } else { 2 }
}

} // verus!
