use vstd::prelude::*;
use crate::array::{ArrayError, NdArray};
use crate::broadcast::{broadcast_map, operand_at, operands_combine, result_shape};
use crate::shape::dims_fit;
use crate::strides::{in_bounds, ravel};

verus! {

/// Elementwise `&` of two integer operands broadcast together.
pub fn bitwise_and(a: &NdArray<i64>, b: &NdArray<i64>) -> (r: Result<NdArray<i64>, ArrayError>)
    requires
        a.wf(),
        b.wf(),
        dims_fit(a.shape@),
        dims_fit(b.shape@),
        operands_combine(a.shape@, b.shape@) ==> dims_fit(result_shape(a.shape@, b.shape@)),
    ensures
        r is Ok <==> operands_combine(a.shape@, b.shape@),
        r is Err ==> r == Err::<NdArray<i64>, ArrayError>(ArrayError::ShapeMismatch),
        r matches Ok(out) ==> {
            &&& out.wf()
            &&& out.shape@ == result_shape(a.shape@, b.shape@)
            &&& forall|m: Seq<int>| in_bounds(m, out.shape@) ==>
                #[trigger] out.data@[ravel(m, out.shape@)] == operand_at(*a, m) & operand_at(*b, m)
        },
{
    broadcast_map(a, b, |x: i64, y: i64| -> (z: i64) ensures z == x & y { x & y })
}

/// Elementwise `|` of two integer operands broadcast together.
pub fn bitwise_or(a: &NdArray<i64>, b: &NdArray<i64>) -> (r: Result<NdArray<i64>, ArrayError>)
    requires
        a.wf(),
        b.wf(),
        dims_fit(a.shape@),
        dims_fit(b.shape@),
        operands_combine(a.shape@, b.shape@) ==> dims_fit(result_shape(a.shape@, b.shape@)),
    ensures
        r is Ok <==> operands_combine(a.shape@, b.shape@),
        r is Err ==> r == Err::<NdArray<i64>, ArrayError>(ArrayError::ShapeMismatch),
        r matches Ok(out) ==> {
            &&& out.wf()
            &&& out.shape@ == result_shape(a.shape@, b.shape@)
            &&& forall|m: Seq<int>| in_bounds(m, out.shape@) ==>
                #[trigger] out.data@[ravel(m, out.shape@)] == operand_at(*a, m) | operand_at(*b, m)
        },
{
    broadcast_map(a, b, |x: i64, y: i64| -> (z: i64) ensures z == x | y { x | y })
}

/// Elementwise `^` of two integer operands broadcast together.
pub fn bitwise_xor(a: &NdArray<i64>, b: &NdArray<i64>) -> (r: Result<NdArray<i64>, ArrayError>)
    requires
        a.wf(),
        b.wf(),
        dims_fit(a.shape@),
        dims_fit(b.shape@),
        operands_combine(a.shape@, b.shape@) ==> dims_fit(result_shape(a.shape@, b.shape@)),
    ensures
        r is Ok <==> operands_combine(a.shape@, b.shape@),
        r is Err ==> r == Err::<NdArray<i64>, ArrayError>(ArrayError::ShapeMismatch),
        r matches Ok(out) ==> {
            &&& out.wf()
            &&& out.shape@ == result_shape(a.shape@, b.shape@)
            &&& forall|m: Seq<int>| in_bounds(m, out.shape@) ==>
                #[trigger] out.data@[ravel(m, out.shape@)] == operand_at(*a, m) ^ operand_at(*b, m)
        },
{
    broadcast_map(a, b, |x: i64, y: i64| -> (z: i64) ensures z == x ^ y { x ^ y })
}

/// Elementwise `<<` of two integer operands broadcast together; every shift amount that is
/// used lies in `0..64`.
pub fn left_shift(a: &NdArray<i64>, b: &NdArray<i64>) -> (r: Result<NdArray<i64>, ArrayError>)
    requires
        a.wf(),
        b.wf(),
        dims_fit(a.shape@),
        dims_fit(b.shape@),
        operands_combine(a.shape@, b.shape@) ==> dims_fit(result_shape(a.shape@, b.shape@)),
        operands_combine(a.shape@, b.shape@) ==> forall|m: Seq<int>| in_bounds(m, result_shape(a.shape@, b.shape@))
            ==> 0 <= #[trigger] operand_at(*b, m) < 64,
    ensures
        r is Ok <==> operands_combine(a.shape@, b.shape@),
        r is Err ==> r == Err::<NdArray<i64>, ArrayError>(ArrayError::ShapeMismatch),
        r matches Ok(out) ==> {
            &&& out.wf()
            &&& out.shape@ == result_shape(a.shape@, b.shape@)
            &&& forall|m: Seq<int>| in_bounds(m, out.shape@) ==>
                #[trigger] out.data@[ravel(m, out.shape@)] == operand_at(*a, m) << operand_at(*b, m)
        },
{
    broadcast_map(a, b, |x: i64, y: i64| -> (z: i64)
        requires
            0 <= y < 64,
        ensures
            z == x << y,
    {
        x << y
    })
}

/// Elementwise arithmetic `>>` of two integer operands broadcast together; every shift amount
/// that is used lies in `0..64`.
pub fn right_shift(a: &NdArray<i64>, b: &NdArray<i64>) -> (r: Result<NdArray<i64>, ArrayError>)
    requires
        a.wf(),
        b.wf(),
        dims_fit(a.shape@),
        dims_fit(b.shape@),
        operands_combine(a.shape@, b.shape@) ==> dims_fit(result_shape(a.shape@, b.shape@)),
        operands_combine(a.shape@, b.shape@) ==> forall|m: Seq<int>| in_bounds(m, result_shape(a.shape@, b.shape@))
            ==> 0 <= #[trigger] operand_at(*b, m) < 64,
    ensures
        r is Ok <==> operands_combine(a.shape@, b.shape@),
        r is Err ==> r == Err::<NdArray<i64>, ArrayError>(ArrayError::ShapeMismatch),
        r matches Ok(out) ==> {
            &&& out.wf()
            &&& out.shape@ == result_shape(a.shape@, b.shape@)
            &&& forall|m: Seq<int>| in_bounds(m, out.shape@) ==>
                #[trigger] out.data@[ravel(m, out.shape@)] == operand_at(*a, m) >> operand_at(*b, m)
        },
{
    broadcast_map(a, b, |x: i64, y: i64| -> (z: i64)
        requires
            0 <= y < 64,
        ensures
            z == x >> y,
    {
        x >> y
    })
}

/// Elementwise `!` of an integer array.
pub fn bitwise_not(a: &NdArray<i64>) -> (r: NdArray<i64>)
    ensures
        r.shape@ == a.shape@,
        r.data@.len() == a.data@.len(),
        forall|i: int| 0 <= i < a.data@.len() ==> #[trigger] r.data@[i] == !a.data@[i],
{
    let mut data: Vec<i64> = Vec::new();
    let mut i: usize = 0;
    while i < a.data.len()
        invariant
            0 <= i <= a.data@.len(),
            data@.len() == i,
            forall|k: int| 0 <= k < i ==> #[trigger] data@[k] == !a.data@[k],
        decreases a.data@.len() - i,
    {
        let x: i64 = a.data[i];
        let v: i64 = x ^ -1i64;
        assert(v == !x) by (bit_vector)
            requires
                v == x ^ -1i64;
        data.push(v);
        i = i + 1;
    }
    NdArray { data, shape: a.shape.clone() }
}

/// The number of one bits in `x`.
pub open spec fn ones(x: u64) -> nat
    decreases x,
{
    if x == 0 { 0 } else { (x % 2) as nat + ones(x / 2) }
}

proof fn lemma_ones_bound(x: u64)
    ensures
        ones(x) <= x,
    decreases x,
{
    if x > 0 {
        lemma_ones_bound(x / 2);
    }
}

/// The number of one bits in the two's-complement form of `x`.
fn count_ones_of(x: i64) -> (r: u64)
    ensures
        r == ones(x as u64),
{
    let mut v: u64 = x as u64;
    let mut c: u64 = 0;
    proof {
        lemma_ones_bound(v);
    }
    while v > 0
        invariant
            c + ones(v) == ones(x as u64),
            ones(x as u64) <= x as u64,
        decreases v,
    {
        proof {
            lemma_ones_bound(v / 2);
        }
        c = c + v % 2;
        v = v / 2;
    }
    c
}

/// Elementwise count of one bits, each integer read in two's complement.
pub fn bitwise_count(a: &NdArray<i64>) -> (r: NdArray<u64>)
    ensures
        r.shape@ == a.shape@,
        r.data@.len() == a.data@.len(),
        forall|i: int| 0 <= i < a.data@.len() ==> #[trigger] r.data@[i] == ones(a.data@[i] as u64),
{
    let mut data: Vec<u64> = Vec::new();
    let mut i: usize = 0;
    while i < a.data.len()
        invariant
            0 <= i <= a.data@.len(),
            data@.len() == i,
            forall|k: int| 0 <= k < i ==> #[trigger] data@[k] == ones(a.data@[k] as u64),
        decreases a.data@.len() - i,
    {
        data.push(count_ones_of(a.data[i]));
        i = i + 1;
    }
    NdArray { data, shape: a.shape.clone() }
}

/// Bit `p` (0 is the least significant) of a byte is set.
pub open spec fn bit_of(x: u8, p: int) -> bool {
    (x >> (p as u8)) & 1u8 == 1u8
}

/// Position within its byte of bit `b` of a group of eight: from the most significant bit in
/// big-endian order, from the least significant in little-endian order.
pub open spec fn bit_pos(b: int, big: bool) -> int {
    if big { 7 - b } else { b }
}

/// Setting bit `q` of a byte sets that bit and keeps the others.
proof fn lemma_set_bit(x: u8, q: u8, p: u8)
    requires
        q < 8,
        p < 8,
    ensures
        bit_of(x | (1u8 << q), p as int) == (bit_of(x, p as int) || p == q),
{
    assert(((x | (1u8 << q)) >> p) & 1u8 == 1u8 <==> (((x >> p) & 1u8 == 1u8) || p == q)) by (bit_vector)
        requires q < 8, p < 8;
}

/// Zero has no bit set.
proof fn lemma_zero_bits(p: u8)
    requires
        p < 8,
    ensures
        !bit_of(0u8, p as int),
{
    assert((0u8 >> p) & 1u8 == 0u8) by (bit_vector);
}

/// Packs flags into bytes, eight per byte in order, the last byte padded with clear bits: flag
/// `8 * k + b` is bit `bit_pos(b)` of byte `k`.
pub fn packbits(bits: &Vec<bool>, big: bool) -> (r: Vec<u8>)
    ensures
        r@.len() == (bits@.len() + 7) / 8,
        forall|k: int, b: int| 0 <= k < r@.len() && 0 <= b < 8 ==>
            #[trigger] bit_of(r@[k], bit_pos(b, big)) == (8 * k + b < bits@.len() && bits@[8 * k + b]),
{
    let n = bits.len();
    let nbytes = n / 8 + if n % 8 == 0 { 0 } else { 1 };
    assert(nbytes == (n + 7) / 8);
    let mut out: Vec<u8> = Vec::new();
    let mut k: usize = 0;
    while k < nbytes
        invariant
            0 <= k <= nbytes,
            n == bits@.len(),
            nbytes == (n + 7) / 8,
            out@.len() == k,
            forall|k2: int, b: int| 0 <= k2 < k && 0 <= b < 8 ==>
                #[trigger] bit_of(out@[k2], bit_pos(b, big)) == (8 * k2 + b < n && bits@[8 * k2 + b]),
        decreases nbytes - k,
    {
        let mut byte: u8 = 0;
        proof {
            assert forall|p: u8| p < 8 implies !bit_of(0u8, p as int) by {
                lemma_zero_bits(p);
            }
        }
        let mut b: usize = 0;
        while b < 8
            invariant
                0 <= b <= 8,
                k < nbytes,
                nbytes == (n + 7) / 8,
                n == bits@.len(),
                forall|b2: int| 0 <= b2 < 8 ==> #[trigger] bit_of(byte, bit_pos(b2, big)) == (b2 < b && 8 * k + b2 < n && bits@[8 * k + b2]),
            decreases 8 - b,
        {
            let ghost old_byte = byte;
            let q: u8 = if big { (7 - b) as u8 } else { b as u8 };
            if 8 * k + b < n && bits[8 * k + b] {
                byte = byte | (1u8 << q);
                proof {
                    assert forall|b2: int| 0 <= b2 < 8 implies #[trigger] bit_of(byte, bit_pos(b2, big))
                        == (b2 < b + 1 && 8 * k + b2 < n && bits@[8 * k + b2]) by {
                        lemma_set_bit(old_byte, q, bit_pos(b2, big) as u8);
                    }
                }
            }
            b = b + 1;
        }
        out.push(byte);
        k = k + 1;
    }
    out
}

/// Unpacks bytes into bits, eight per byte: entry `8 * i + j` is bit `bit_pos(j)` of byte `i`
/// as `0` or `1`; with a count, only that many leading entries are kept.
pub fn unpackbits(vals: &Vec<u8>, count: Option<usize>, big: bool) -> (r: Vec<u8>)
    requires
        vals@.len() * 8 <= usize::MAX,
    ensures
        r@.len() == match count {
            Some(c) => if c < vals@.len() * 8 { c as int } else { (vals@.len() * 8) as int },
            None => (vals@.len() * 8) as int,
        },
        forall|i: int, j: int| 0 <= i < vals@.len() && 0 <= j < 8 && 8 * i + j < r@.len() ==>
            #[trigger] r@[8 * i + j] == (if bit_of(vals@[i], bit_pos(j, big)) { 1u8 } else { 0u8 }),
{
    let n = vals.len();
    let limit: usize = match count {
        Some(c) => if c < n * 8 { c } else { n * 8 },
        None => n * 8,
    };
    let mut out: Vec<u8> = Vec::new();
    let mut i: usize = 0;
    while i < n
        invariant
            0 <= i <= n,
            n == vals@.len(),
            n * 8 <= usize::MAX,
            out@.len() == 8 * i,
            forall|i2: int, j: int| 0 <= i2 < i && 0 <= j < 8 ==>
                #[trigger] out@[8 * i2 + j] == (if bit_of(vals@[i2], bit_pos(j, big)) { 1u8 } else { 0u8 }),
        decreases n - i,
    {
        let v = vals[i];
        let mut j: usize = 0;
        while j < 8
            invariant
                0 <= j <= 8,
                i < n,
                n == vals@.len(),
                v == vals@[i as int],
                out@.len() == 8 * i + j,
                forall|i2: int, j2: int| 0 <= i2 < i && 0 <= j2 < 8 ==>
                    #[trigger] out@[8 * i2 + j2] == (if bit_of(vals@[i2], bit_pos(j2, big)) { 1u8 } else { 0u8 }),
                forall|j2: int| 0 <= j2 < j ==> #[trigger] out@[8 * i + j2] == (if bit_of(v, bit_pos(j2, big)) { 1u8 } else { 0u8 }),
            decreases 8 - j,
        {
            let q: u8 = if big { (7 - j) as u8 } else { j as u8 };
            let bit = (v >> q) & 1u8;
            proof {
                assert(bit == 0u8 || bit == 1u8) by (bit_vector) requires bit == (v >> q) & 1u8;
            }
            out.push(bit);
            j = j + 1;
        }
        i = i + 1;
    }
    let mut res: Vec<u8> = Vec::new();
    let mut k: usize = 0;
    while k < limit
        invariant
            0 <= k <= limit,
            limit <= out@.len(),
            res@ =~= out@.take(k as int),
        decreases limit - k,
    {
        res.push(out[k]);
        k = k + 1;
    }
    proof {
        assert forall|i2: int, j: int| 0 <= i2 < vals@.len() && 0 <= j < 8 && 8 * i2 + j < res@.len() implies
            #[trigger] res@[8 * i2 + j] == (if bit_of(vals@[i2], bit_pos(j, big)) { 1u8 } else { 0u8 }) by {
            assert(res@[8 * i2 + j] == out@[8 * i2 + j]);
        }
    }
    res
}

/// Unpacking what was packed, with the number of flags as the count and the same bit order,
/// gives back the flags as ones and zeros.
pub proof fn law_unpack_after_pack(bits: Seq<bool>, big: bool, packed: Seq<u8>, unpacked: Seq<u8>)
    requires
        packed.len() == (bits.len() + 7) / 8,
        forall|k: int, b: int| 0 <= k < packed.len() && 0 <= b < 8 ==>
            #[trigger] bit_of(packed[k], bit_pos(b, big)) == (8 * k + b < bits.len() && bits[8 * k + b]),
        unpacked.len() == bits.len(),
        forall|i: int, j: int| 0 <= i < packed.len() && 0 <= j < 8 && 8 * i + j < unpacked.len() ==>
            #[trigger] unpacked[8 * i + j] == (if bit_of(packed[i], bit_pos(j, big)) { 1u8 } else { 0u8 }),
    ensures
        forall|t: int| 0 <= t < bits.len() ==> #[trigger] unpacked[t] == (if bits[t] { 1u8 } else { 0u8 }),
{
    assert forall|t: int| 0 <= t < bits.len() implies #[trigger] unpacked[t] == (if bits[t] { 1u8 } else { 0u8 }) by {
        let i = t / 8;
        let j = t % 8;
        assert(t == 8 * i + j);
        assert(0 <= i < packed.len());
        assert(bit_of(packed[i], bit_pos(j, big)) == (8 * i + j < bits.len() && bits[8 * i + j]));
        assert(unpacked[8 * i + j] == (if bit_of(packed[i], bit_pos(j, big)) { 1u8 } else { 0u8 }));
    }
}

} // verus!
