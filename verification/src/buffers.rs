use vstd::prelude::*;
use vstd::string::StrSliceExecFns;
use crate::array::{ArrayError, NdArray};
use crate::layout::copy_vec;
use crate::shape::{checked_size, prod};

verus! {

/// A scalar decoded from a buffer. Floating-point scalars are kept as their bit patterns.
#[derive(Clone, Copy, Debug, PartialEq, Eq, Structural)]
pub enum BufferScalar {
    Bool(bool),
    Unsigned(u64),
    Signed(i64),
    Float32Bits(u32),
    Float64Bits(u64),
}

/// `256` to the power `n`.
pub open spec fn pow256(n: nat) -> nat
    decreases n,
{
    if n == 0 { 1 } else { 256 * pow256((n - 1) as nat) }
}

/// The unsigned integer whose bytes, least significant first, are `b`.
pub open spec fn le_int(b: Seq<u8>) -> nat
    decreases b.len(),
{
    if b.len() == 0 { 0 } else { b[0] as nat + 256 * le_int(b.drop_first()) }
}

/// The unsigned integer whose bytes, most significant first, are `b`.
pub open spec fn be_int(b: Seq<u8>) -> nat
    decreases b.len(),
{
    if b.len() == 0 { 0 } else { be_int(b.drop_last()) * 256 + b.last() as nat }
}

/// The unsigned integer that the bytes encode in the given byte order.
pub open spec fn unsigned_of(b: Seq<u8>, little: bool) -> nat {
    if little { le_int(b) } else { be_int(b) }
}

/// The two's complement reading of the same bytes.
pub open spec fn signed_of(b: Seq<u8>, little: bool) -> int {
    let u = unsigned_of(b, little) as int;
    if b.len() > 0 && u >= pow256(b.len()) / 2 { u - pow256(b.len()) } else { u }
}

/// What a chunk of a buffer decodes to for a type kind (`b` boolean, `u` unsigned, `i`
/// signed, `f` floating point) and the chunk's size; `None` for any other combination.
pub open spec fn decoded(kind: char, b: Seq<u8>, little: bool) -> Option<BufferScalar> {
    let n = b.len();
    if kind == 'b' && n == 1 {
        Some(BufferScalar::Bool(b[0] != 0))
    } else if kind == 'u' && (n == 1 || n == 2 || n == 4 || n == 8) {
        Some(BufferScalar::Unsigned(unsigned_of(b, little) as u64))
    } else if kind == 'i' && (n == 1 || n == 2 || n == 4 || n == 8) {
        Some(BufferScalar::Signed(signed_of(b, little) as i64))
    } else if kind == 'f' && n == 4 {
        Some(BufferScalar::Float32Bits(unsigned_of(b, little) as u32))
    } else if kind == 'f' && n == 8 {
        Some(BufferScalar::Float64Bits(unsigned_of(b, little) as u64))
    } else {
        None
    }
}

proof fn lemma_le_bound(b: Seq<u8>)
    ensures
        le_int(b) < pow256(b.len()),
    decreases b.len(),
{
    if b.len() > 0 {
        lemma_le_bound(b.drop_first());
    }
}

proof fn lemma_be_bound(b: Seq<u8>)
    ensures
        be_int(b) < pow256(b.len()),
    decreases b.len(),
{
    if b.len() > 0 {
        lemma_be_bound(b.drop_last());
        let p = pow256((b.len() - 1) as nat);
        assert(be_int(b.drop_last()) * 256 + (b.last() as nat) < p * 256) by (nonlinear_arith)
            requires be_int(b.drop_last()) < p, (b.last() as nat) < 256;
    }
}

proof fn lemma_pow256_values()
    ensures
        pow256(1) == 0x100,
        pow256(2) == 0x1_0000,
        pow256(4) == 0x1_0000_0000,
        pow256(8) == 0x1_0000_0000_0000_0000,
{
    reveal_with_fuel(pow256, 9);
}

/// The unsigned value of at most eight bytes in the given order.
fn read_unsigned(chunk: &[u8], little: bool) -> (r: u64)
    requires
        chunk@.len() <= 8,
    ensures
        r as nat == unsigned_of(chunk@, little),
{
    let n = chunk.len();
    let mut acc: u64 = 0;
    proof {
        lemma_pow256_values();
    }
    if little {
        let mut i: usize = n;
        while i > 0
            invariant
                0 <= i <= n,
                n == chunk@.len(),
                n <= 8,
                acc as nat == le_int(chunk@.subrange(i as int, n as int)),
            decreases i,
        {
            let ghost rest = chunk@.subrange(i as int, n as int);
            i = i - 1;
            proof {
                let t = chunk@.subrange(i as int, n as int);
                assert(t.drop_first() =~= rest);
                lemma_le_bound(rest);
                reveal_with_fuel(pow256, 9);
                assert(pow256(rest.len()) <= pow256(7)) by {
                    assert(rest.len() <= 7);
                    if rest.len() < 7 {
                        lemma_pow256_mono(rest.len(), 7);
                    }
                }
                assert(acc as nat * 256 + chunk@[i as int] as nat <= 0xffff_ffff_ffff_ffff) by (nonlinear_arith)
                    requires acc < pow256(7), pow256(7) == 0x100_0000_0000_0000, chunk@[i as int] < 256;
            }
            acc = acc * 256 + chunk[i] as u64;
        }
        assert(chunk@.subrange(0, n as int) =~= chunk@);
    } else {
        let mut i: usize = 0;
        while i < n
            invariant
                0 <= i <= n,
                n == chunk@.len(),
                n <= 8,
                acc as nat == be_int(chunk@.subrange(0, i as int)),
            decreases n - i,
        {
            proof {
                let t = chunk@.subrange(0, i as int + 1);
                assert(t.drop_last() =~= chunk@.subrange(0, i as int));
                lemma_be_bound(chunk@.subrange(0, i as int));
                reveal_with_fuel(pow256, 9);
                assert(pow256(i as nat) <= pow256(7)) by {
                    if i < 7 {
                        lemma_pow256_mono(i as nat, 7);
                    }
                }
                assert(acc as nat * 256 + chunk@[i as int] as nat <= 0xffff_ffff_ffff_ffff) by (nonlinear_arith)
                    requires acc < pow256(7), pow256(7) == 0x100_0000_0000_0000, chunk@[i as int] < 256;
            }
            acc = acc * 256 + chunk[i] as u64;
            i = i + 1;
        }
        assert(chunk@.subrange(0, n as int) =~= chunk@);
    }
    acc
}

proof fn lemma_pow256_mono(a: nat, b: nat)
    requires
        a <= b,
    ensures
        pow256(a) <= pow256(b),
    decreases b,
{
    if a < b {
        lemma_pow256_mono(a, (b - 1) as nat);
    }
}

/// The value of eight bytes, least significant first.
pub(crate) fn read_le_u64(chunk: &[u8]) -> (r: u64)
    requires
        chunk@.len() == 8,
    ensures
        r as nat == le_int(chunk@),
{
    read_unsigned(chunk, true)
}

/// Decodes one scalar of kind `kind` from a chunk of its size, in the given byte order
/// (`little` for least significant byte first).
pub fn decode_buffer_scalar(kind: char, chunk: &[u8], little: bool) -> (r: Option<BufferScalar>)
    ensures
        r == decoded(kind, chunk@, little),
{
    let n = chunk.len();
    proof {
        lemma_pow256_values();
    }
    if kind == 'b' && n == 1 {
        Some(BufferScalar::Bool(chunk[0] != 0))
    } else if kind == 'u' && (n == 1 || n == 2 || n == 4 || n == 8) {
        Some(BufferScalar::Unsigned(read_unsigned(chunk, little)))
    } else if kind == 'i' && (n == 1 || n == 2 || n == 4 || n == 8) {
        let u = read_unsigned(chunk, little);
        proof {
            if little { lemma_le_bound(chunk@); } else { lemma_be_bound(chunk@); }
        }
        let full: u128 = if n == 1 { 0x100 } else if n == 2 { 0x1_0000 } else if n == 4 { 0x1_0000_0000 } else { 0x1_0000_0000_0000_0000 };
        let v: i128 = if (u as u128) >= full / 2 { u as i128 - full as i128 } else { u as i128 };
        assert(v == signed_of(chunk@, little));
        Some(BufferScalar::Signed(v as i64))
    } else if kind == 'f' && n == 4 {
        let u = read_unsigned(chunk, little);
        proof {
            if little { lemma_le_bound(chunk@); } else { lemma_be_bound(chunk@); }
        }
        Some(BufferScalar::Float32Bits(u as u32))
    } else if kind == 'f' && n == 8 {
        Some(BufferScalar::Float64Bits(read_unsigned(chunk, little)))
    } else {
        None
    }
}

/// Whether every character is a decimal digit.
pub open spec fn all_digits(s: Seq<char>) -> bool {
    forall|i: int| 0 <= i < s.len() ==> '0' <= #[trigger] s[i] <= '9'
}

/// The number that the decimal digits `s` write.
pub open spec fn digits_value(s: Seq<char>) -> nat
    decreases s.len(),
{
    if s.len() == 0 { 0 } else { digits_value(s.drop_last()) * 10 + ((s.last() as u32) - ('0' as u32)) as nat }
}

/// A `usize` written in decimal, as `str::parse` reads it: an optional `+`, then at least
/// one digit and nothing else, with a value that fits.
pub open spec fn parsed_usize(s: Seq<char>) -> Option<nat> {
    let body = if s.len() > 0 && s[0] == '+' { s.drop_first() } else { s };
    if body.len() > 0 && all_digits(body) && digits_value(body) <= usize::MAX {
        Some(digits_value(body))
    } else {
        None
    }
}

/// Reads `s[lo..hi]` as `parsed_usize` does.
pub(crate) fn parse_usize_chars(s: &Vec<char>, lo: usize, hi: usize) -> (r: Option<usize>)
    requires
        lo <= hi <= s@.len(),
    ensures
        r matches Some(v) ==> parsed_usize(s@.subrange(lo as int, hi as int)) == Some(v as nat),
        r is None ==> parsed_usize(s@.subrange(lo as int, hi as int)) is None,
{
    let ghost t = s@.subrange(lo as int, hi as int);
    let mut i = lo;
    if i < hi && s[i] == '+' {
        i = i + 1;
    }
    let ghost body = s@.subrange(i as int, hi as int);
    proof {
        assert(body =~= if t.len() > 0 && t[0] == '+' { t.drop_first() } else { t });
    }
    if i >= hi {
        return None;
    }
    let start = i;
    let mut acc: usize = 0;
    while i < hi
        invariant
            start <= i <= hi,
            lo <= start,
            hi <= s@.len(),
            t == s@.subrange(lo as int, hi as int),
            body == (if t.len() > 0 && t[0] == '+' { t.drop_first() } else { t }),
            body == s@.subrange(start as int, hi as int),
            all_digits(s@.subrange(start as int, i as int)),
            acc as nat == digits_value(s@.subrange(start as int, i as int)),
        decreases hi - i,
    {
        let c = s[i];
        let ghost pre = s@.subrange(start as int, i as int);
        let ghost ext = s@.subrange(start as int, i as int + 1);
        proof {
            assert(ext.drop_last() =~= pre);
            assert(ext.last() == c);
        }
        if c < '0' || c > '9' {
            proof {
                assert(body[i - start] == c);
            }
            return None;
        }
        let dv = (c as u32 - '0' as u32) as usize;
        let next = match acc.checked_mul(10) {
            Some(x) => x.checked_add(dv),
            None => None,
        };
        match next {
            Some(x) => { acc = x; },
            None => {
                proof {
                    assert(digits_value(ext) > usize::MAX);
                    if all_digits(body) {
                        lemma_digits_prefix_le(body, (i - start + 1) as int);
                        assert(body.subrange(0, i - start + 1) =~= ext);
                    }
                }
                return None;
            },
        }
        i = i + 1;
        proof {
            assert(all_digits(s@.subrange(start as int, i as int))) by {
                assert forall|k: int| 0 <= k < ext.len() implies '0' <= #[trigger] ext[k] <= '9' by {
                    if k < pre.len() {
                        assert(ext[k] == pre[k]);
                    }
                }
            }
        }
    }
    proof {
        assert(s@.subrange(start as int, hi as int) =~= body);
    }
    Some(acc)
}

proof fn lemma_digits_prefix_le(s: Seq<char>, k: int)
    requires
        0 <= k <= s.len(),
        all_digits(s),
    ensures
        digits_value(s.subrange(0, k)) <= digits_value(s),
    decreases s.len() - k,
{
    if k < s.len() {
        lemma_digits_prefix_le(s, k + 1);
        let a = s.subrange(0, k + 1);
        assert(a.drop_last() =~= s.subrange(0, k));
        assert('0' <= a.last() <= '9');
    } else {
        assert(s.subrange(0, k) =~= s);
    }
}

/// How a buffer's elements are typed: byte order, kind and size in bytes.
pub struct TypeCode {
    pub little: bool,
    pub kind: char,
    pub itemsize: usize,
}

/// The type code that an array-interface type string names: its first character is the byte
/// order (`>` is big-endian, anything else little-endian), the second the kind, the rest
/// the item size in bytes; a string that is too short, has no readable size, or names size
/// 0 is refused.
pub open spec fn type_code_of(t: Seq<char>) -> Result<(bool, char, nat), ArrayError> {
    if t.len() < 2 {
        Err(ArrayError::InvalidArgument)
    } else {
        match parsed_usize(t.subrange(2, t.len() as int)) {
            None => Err(ArrayError::InvalidArgument),
            Some(size) => if size == 0 { Err(ArrayError::InvalidArgument) } else { Ok((t[0] != '>', t[1], size)) },
        }
    }
}

/// Reads an array-interface type string such as `|u1`, `<f8` or `>i4`, as `type_code_of`
/// states.
pub fn parse_typestr(typestr: &str) -> (r: Result<TypeCode, ArrayError>)
    ensures
        match type_code_of(typestr@) {
            Err(e) => r == Err::<TypeCode, ArrayError>(e),
            Ok((little, kind, size)) => r matches Ok(c) && c.little == little && c.kind == kind && c.itemsize == size,
        },
{
    let len = typestr.unicode_len();
    if len < 2 {
        return Err(ArrayError::InvalidArgument);
    }
    let mut chars: Vec<char> = Vec::new();
    let mut i: usize = 0;
    while i < len
        invariant
            0 <= i <= len,
            len == typestr@.len(),
            chars@ == typestr@.take(i as int),
        decreases len - i,
    {
        chars.push(typestr.get_char(i));
        i = i + 1;
        proof {
            assert(chars@ =~= typestr@.take(i as int));
        }
    }
    assert(chars@ =~= typestr@);
    let order = chars[0];
    let kind = chars[1];
    match parse_usize_chars(&chars, 2, len) {
        None => Err(ArrayError::InvalidArgument),
        Some(size) => {
            if size == 0 {
                Err(ArrayError::InvalidArgument)
            } else {
                Ok(TypeCode { little: order != '>', kind, itemsize: size })
            }
        },
    }
}

/// Decodes `prod(shape)` elements of the type that `typestr` names from the front of
/// `bytes` into an array of that shape. A malformed type string is refused, so is a buffer
/// shorter than the elements need, and so is a type that cannot be decoded when there is an
/// element to decode.
pub fn from_buffer_typed(bytes: &[u8], typestr: &str, shape: &Vec<usize>) -> (r: Result<NdArray<BufferScalar>, ArrayError>)
    requires
        typestr@.len() >= 2 ==> typestr@[0] as int <= 0x7f && typestr@[1] as int <= 0x7f,
        prod(shape@) <= usize::MAX,
        bytes@.len() <= isize::MAX,
    ensures
        match type_code_of(typestr@) {
            Err(e) => r == Err::<NdArray<BufferScalar>, ArrayError>(e),
            Ok((little, kind, size)) => {
                let count = prod(shape@);
                if count * size > bytes@.len() {
                    r == Err::<NdArray<BufferScalar>, ArrayError>(ArrayError::ShapeMismatch)
                } else if count > 0 && decoded(kind, bytes@.subrange(0, size as int), little) is None {
                    r == Err::<NdArray<BufferScalar>, ArrayError>(ArrayError::UnsupportedType)
                } else {
                    r matches Ok(t) && {
                        &&& t.wf()
                        &&& t.shape@ == shape@
                        &&& forall|k: int| 0 <= k < count ==> Some(#[trigger] t.data@[k])
                            == decoded(kind, bytes@.subrange(k * size, (k + 1) * size), little)
                    }
                }
            },
        },
{
    let code = match parse_typestr(typestr) {
        Ok(c) => c,
        Err(e) => { return Err(e); },
    };
    let size = code.itemsize;
    let count = match checked_size(shape) {
        Some(c) => c,
        None => 0,
    };
    let needed: usize = match count.checked_mul(size) {
        Some(x) => x,
        None => usize::MAX,
    };
    if needed > bytes.len() {
        return Err(ArrayError::ShapeMismatch);
    }
    let mut data: Vec<BufferScalar> = Vec::new();
    let mut k: usize = 0;
    while k < count
        invariant
            0 <= k <= count,
            count == prod(shape@),
            size == code.itemsize,
            size > 0,
            count * size <= bytes@.len(),
            bytes@.len() <= isize::MAX,
            type_code_of(typestr@) == Ok::<(bool, char, nat), ArrayError>((code.little, code.kind, size as nat)),
            data@.len() == k,
            forall|k2: int| 0 <= k2 < k ==> Some(#[trigger] data@[k2])
                == decoded(code.kind, bytes@.subrange(k2 * size, (k2 + 1) * size), code.little),
        decreases count - k,
    {
        proof {
            assert((k + 1) * size <= count * size) by (nonlinear_arith) requires k < count, size > 0;
            assert(k * size + size == (k + 1) * size) by (nonlinear_arith);
        }
        let chunk = vstd::slice::slice_subrange(bytes, k * size, (k + 1) * size);
        match decode_buffer_scalar(code.kind, chunk, code.little) {
            Some(v) => { data.push(v); },
            None => {
                proof {
                    assert(size <= count * size) by (nonlinear_arith) requires count >= 1, size > 0;
                    let c0 = bytes@.subrange(0, size as int);
                    assert(k * size + size == (k + 1) * size) by (nonlinear_arith);
                    assert(decoded(code.kind, c0, code.little) is None) by {
                        assert(chunk@.len() == c0.len());
                    }
                }
                return Err(ArrayError::UnsupportedType);
            },
        }
        k = k + 1;
    }
    proof {
        if count > 0 {
            assert(size <= count * size) by (nonlinear_arith) requires count >= 1, size > 0;
            assert(0 * size == 0 && (0 + 1) * size == size) by (nonlinear_arith);
            assert(bytes@.subrange(0 * size, (0 + 1) * size) =~= bytes@.subrange(0, size as int));
            assert(Some(data@[0]) == decoded(code.kind, bytes@.subrange(0 * size, (0 + 1) * size), code.little));
        }
    }
    Ok(NdArray { data, shape: copy_vec(shape) })
}

/// How many 8-byte groups `bytes_to_floats` reads: all complete groups, or at most `count`
/// of them when `count` is not negative.
pub open spec fn float_group_count(len: int, count: int) -> int {
    let n = len / 8;
    if count < 0 || count > n { n } else { count }
}

/// The bit patterns of consecutive little-endian 64-bit floats at the front of `bytes`: as
/// many as `float_group_count` gives.
pub fn bytes_to_floats(bytes: &[u8], count: isize) -> (r: NdArray<u64>)
    ensures
        r.wf(),
        r.shape@ == seq![float_group_count(bytes@.len() as int, count as int) as usize],
        forall|i: int| 0 <= i < r.data@.len() ==> #[trigger] r.data@[i] as nat == le_int(bytes@.subrange(8 * i, 8 * i + 8)),
{
    let len = bytes.len();
    let n = len / 8;
    let actual: usize = if count < 0 || count as usize > n { n } else { count as usize };
    let mut data: Vec<u64> = Vec::new();
    let mut i: usize = 0;
    while i < actual
        invariant
            0 <= i <= actual,
            actual <= n,
            n == len / 8,
            len == bytes@.len(),
            data@.len() == i,
            forall|i2: int| 0 <= i2 < i ==> #[trigger] data@[i2] as nat == le_int(bytes@.subrange(8 * i2, 8 * i2 + 8)),
        decreases actual - i,
    {
        let chunk = vstd::slice::slice_subrange(bytes, i * 8, i * 8 + 8);
        let v = read_unsigned(chunk, true);
        data.push(v);
        i = i + 1;
    }
    let shape = vec![actual];
    proof {
        assert(shape@ =~= seq![actual]);
        crate::shape::lemma_prod_single(shape@);
    }
    NdArray { data, shape }
}

} // verus!
