use vstd::prelude::*;
use crate::array::{ArrayError, NdArray};
use crate::buffers::{le_int, parse_usize_chars, parsed_usize};
use crate::shape::prod;
use crate::textfmt::{is_white, trim_end, trim_start, trimmed};

verus! {

/// The bytes that open every file of the format: `\x93NUMPY`.
pub open spec fn npy_magic() -> Seq<u8> {
    seq![0x93u8, 78u8, 85u8, 77u8, 80u8, 89u8]
}

/// The header text up to the shape's digits: `{'descr': '<f8', 'fortran_order': False, 'shape': (`.
pub open spec fn header_prefix() -> Seq<u8> {
    seq![123u8, 39, 100, 101, 115, 99, 114, 39, 58, 32, 39, 60, 102, 56, 39, 44, 32, 39, 102, 111, 114, 116,
        114, 97, 110, 95, 111, 114, 100, 101, 114, 39, 58, 32, 70, 97, 108, 115, 101, 44, 32, 39, 115, 104, 97, 112,
        101, 39, 58, 32, 40]
}

/// The header text after the shape's digits: `), }`.
pub open spec fn header_suffix() -> Seq<u8> {
    seq![41u8, 44, 32, 125]
}

/// The decimal digits of `v`, most significant first, as ASCII bytes.
pub open spec fn decimal(v: nat) -> Seq<u8>
    decreases v,
{
    if v < 10 {
        seq![(48 + v) as u8]
    } else {
        decimal(v / 10).push((48 + v % 10) as u8)
    }
}

/// The dimensions in decimal, separated by `, `.
pub open spec fn joined_dims(shape: Seq<usize>) -> Seq<u8>
    decreases shape.len(),
{
    if shape.len() == 0 {
        Seq::empty()
    } else if shape.len() == 1 {
        decimal(shape[0] as nat)
    } else {
        joined_dims(shape.drop_last()) + seq![44u8, 32u8] + decimal(shape.last() as nat)
    }
}

/// The header text describing an array of little-endian 64-bit floats of the given shape.
pub open spec fn header_text(shape: Seq<usize>) -> Seq<u8> {
    header_prefix() + joined_dims(shape) + header_suffix()
}

/// The header length once padded so that the header ends on a multiple of 64 bytes of the
/// file (10 bytes precede it).
pub open spec fn padded_len(h: int) -> int {
    ((h + 10 + 63) / 64) * 64 - 10
}

/// `n` spaces.
pub open spec fn spaces(n: int) -> Seq<u8> {
    Seq::new(n as nat, |i: int| 32u8)
}

/// The eight bytes of `v`, least significant first.
pub open spec fn le8(v: u64) -> Seq<u8> {
    Seq::new(8, |i: int| ((v >> (8 * i) as u64) & 0xff) as u8)
}

/// The bytes of the values, eight per value, in order.
pub open spec fn le_values(vals: Seq<u64>) -> Seq<u8>
    decreases vals.len(),
{
    if vals.len() == 0 { Seq::empty() } else { le_values(vals.drop_last()) + le8(vals.last()) }
}

/// The whole file for an array of the given shape whose elements have the bit patterns
/// `vals`: magic, version 1.0, the padded header length as a 16-bit little-endian number
/// (kept to its low 16 bits), the header padded with spaces, then the values.
pub open spec fn npy_file(shape: Seq<usize>, vals: Seq<u64>) -> Seq<u8> {
    let h = header_text(shape);
    let pl = padded_len(h.len() as int);
    npy_magic() + seq![1u8, 0u8] + seq![(pl % 256) as u8, ((pl / 256) % 256) as u8] + h + spaces(pl - h.len())
        + le_values(vals)
}

/// Appends the decimal digits of `v`.
fn push_decimal(out: &mut Vec<u8>, v: usize)
    ensures
        final(out)@ == old(out)@ + decimal(v as nat),
    decreases v,
{
    if v >= 10 {
        push_decimal(out, v / 10);
    }
    let d = (v % 10) as u8;
    out.push(48 + d);
    proof {
        if v >= 10 {
            assert(decimal(v as nat) == decimal((v / 10) as nat).push((48 + v % 10) as u8));
        }
    }
}

/// Appends the bytes of `vals`.
fn push_values(out: &mut Vec<u8>, vals: &Vec<u64>)
    ensures
        final(out)@ == old(out)@ + le_values(vals@),
{
    let ghost start = out@;
    let mut i: usize = 0;
    while i < vals.len()
        invariant
            0 <= i <= vals@.len(),
            out@ == start + le_values(vals@.take(i as int)),
        decreases vals@.len() - i,
    {
        let v = vals[i];
        let mut k: u64 = 0;
        let ghost before = out@;
        while k < 8
            invariant
                0 <= k <= 8,
                out@ == before + le8(v).take(k as int),
            decreases 8 - k,
        {
            let b = ((v >> (8 * k)) & 0xff) as u8;
            out.push(b);
            proof {
                assert(le8(v).take(k as int + 1) =~= le8(v).take(k as int).push(b));
            }
            k = k + 1;
        }
        proof {
            assert(le8(v).take(8) =~= le8(v));
            assert(vals@.take(i as int + 1).drop_last() =~= vals@.take(i as int));
            assert(out@ =~= start + le_values(vals@.take(i as int + 1)));
        }
        i = i + 1;
    }
    assert(vals@.take(vals@.len() as int) =~= vals@);
}

/// The bytes of the file that stores an array of 64-bit floats, given by their bit patterns:
/// exactly `npy_file`.
pub fn npy_bytes(a: &NdArray<u64>) -> (r: Vec<u8>)
    requires
        a.wf(),
        header_text(a.shape@).len() + 128 <= usize::MAX,
    ensures
        r@ == npy_file(a.shape@, a.data@),
{
    let mut out: Vec<u8> = vec![0x93u8, 78, 85, 77, 80, 89, 1, 0];
    let mut header: Vec<u8> = vec![123u8, 39, 100, 101, 115, 99, 114, 39, 58, 32, 39, 60, 102, 56, 39, 44, 32, 39, 102, 111,
        114, 116, 114, 97, 110, 95, 111, 114, 100, 101, 114, 39, 58, 32, 70, 97, 108, 115, 101, 44, 32, 39, 115, 104, 97,
        112, 101, 39, 58, 32, 40];
    assert(header@ =~= header_prefix());
    let n = a.shape.len();
    let mut i: usize = 0;
    while i < n
        invariant
            0 <= i <= n,
            n == a.shape@.len(),
            header@ == header_prefix() + joined_dims(a.shape@.take(i as int)),
        decreases n - i,
    {
        if i > 0 {
            header.push(44);
            header.push(32);
        }
        push_decimal(&mut header, a.shape[i]);
        proof {
            lemma_joined_push(a.shape@.take(i as int), a.shape@[i as int]);
            assert(a.shape@.take(i as int + 1) =~= a.shape@.take(i as int).push(a.shape@[i as int]));
            if i > 0 {
                assert(header@ =~= header_prefix() + joined_dims(a.shape@.take(i as int)) + seq![44u8, 32u8]
                    + decimal(a.shape@[i as int] as nat));
            } else {
                assert(a.shape@.take(0) =~= Seq::<usize>::empty());
                assert(header@ =~= header_prefix() + decimal(a.shape@[0] as nat));
            }
        }
        i = i + 1;
    }
    header.push(41);
    header.push(44);
    header.push(32);
    header.push(125);
    proof {
        assert(a.shape@.take(n as int) =~= a.shape@);
        assert(header@ =~= header_text(a.shape@));
    }
    let h = header.len();
    assert((h + 10 + 63) / 64 * 64 <= h + 73 && (h + 10 + 63) / 64 * 64 >= h + 10) by (nonlinear_arith);
    let pl = (h + 10 + 63) / 64 * 64 - 10;
    assert(pl as int == padded_len(h as int));
    assert(pl >= h) by {
        assert((h + 10 + 63) / 64 * 64 >= h + 10) by (nonlinear_arith);
    }
    out.push((pl % 256) as u8);
    out.push(((pl / 256) % 256) as u8);
    let mut k = h;
    while k < pl
        invariant
            h <= k <= pl,
            h == header_text(a.shape@).len(),
            header@ == header_text(a.shape@) + spaces(k - h),
        decreases pl - k,
    {
        header.push(32);
        k = k + 1;
        proof {
            assert(header@ =~= header_text(a.shape@) + spaces(k - h));
        }
    }
    let mut j: usize = 0;
    while j < header.len()
        invariant
            0 <= j <= header@.len(),
            out@ == npy_magic() + seq![1u8, 0u8] + seq![(pl % 256) as u8, ((pl / 256) % 256) as u8] + header@.take(j as int),
        decreases header@.len() - j,
    {
        out.push(header[j]);
        proof {
            assert(header@.take(j as int + 1) =~= header@.take(j as int).push(header@[j as int]));
        }
        j = j + 1;
    }
    proof {
        assert(header@.take(header@.len() as int) =~= header@);
    }
    push_values(&mut out, &a.data);
    proof {
        assert(out@ =~= npy_file(a.shape@, a.data@));
    }
    out
}

proof fn lemma_joined_push(s: Seq<usize>, v: usize)
    ensures
        joined_dims(s.push(v)) == if s.len() == 0 { decimal(v as nat) } else { joined_dims(s) + seq![44u8, 32u8] + decimal(v as nat) },
{
    assert(s.push(v).drop_last() =~= s);
}

/// The length of the header of a file of the format, as its bytes 8 and 9 give it; a file
/// shorter than its magic, length field or header is refused as truncated, and one that does
/// not start with the magic as invalid.
pub open spec fn header_len_of(f: Seq<u8>) -> Result<nat, ArrayError> {
    if f.len() < 6 {
        Err(ArrayError::Truncated)
    } else if f.subrange(0, 6) != npy_magic() {
        Err(ArrayError::InvalidArgument)
    } else if f.len() < 10 {
        Err(ArrayError::Truncated)
    } else if f.len() < 10 + f[8] as nat + 256 * (f[9] as nat) {
        Err(ArrayError::Truncated)
    } else {
        Ok(f[8] as nat + 256 * (f[9] as nat))
    }
}

/// Checks the start of a file of the format and reads its header length, as `header_len_of`
/// states; the header occupies the bytes `10..10 + len`.
pub fn npy_header_len(file: &[u8]) -> (r: Result<usize, ArrayError>)
    ensures
        match header_len_of(file@) {
            Ok(h) => r == Ok::<usize, ArrayError>(h as usize),
            Err(e) => r == Err::<usize, ArrayError>(e),
        },
{
    let len = file.len();
    if len < 6 {
        return Err(ArrayError::Truncated);
    }
    let magic: [u8; 6] = [0x93u8, 78, 85, 77, 80, 89];
    let mut i: usize = 0;
    while i < 6
        invariant
            0 <= i <= 6,
            len == file@.len(),
            len >= 6,
            magic@ == npy_magic(),
            forall|j: int| 0 <= j < i ==> file@[j] == #[trigger] npy_magic()[j],
        decreases 6 - i,
    {
        if file[i] != magic[i] {
            proof {
                assert(file@.subrange(0, 6)[i as int] != npy_magic()[i as int]);
            }
            return Err(ArrayError::InvalidArgument);
        }
        i = i + 1;
    }
    assert(file@.subrange(0, 6) =~= npy_magic());
    if len < 10 {
        return Err(ArrayError::Truncated);
    }
    let h = file[8] as usize + 256 * (file[9] as usize);
    if len - 10 < h {
        return Err(ArrayError::Truncated);
    }
    Ok(h)
}

/// The values stored after the header: the value of each group of eight bytes, least
/// significant first, and 0 for each of the `total` values that the data does not reach.
pub open spec fn stored_values(data: Seq<u8>, total: int) -> Seq<u64> {
    Seq::new(total as nat, |j: int| if 8 * j + 8 <= data.len() { le_int(data.subrange(8 * j, 8 * j + 8)) as u64 } else { 0u64 })
}

/// Reads `total` values from the data after the header, as `stored_values` states.
pub fn npy_values(data: &[u8], total: usize) -> (r: Vec<u64>)
    ensures
        r@ == stored_values(data@, total as int),
{
    let len = data.len();
    let mut out: Vec<u64> = Vec::new();
    let mut j: usize = 0;
    let mut reached = true;
    while j < total
        invariant
            0 <= j <= total,
            len == data@.len(),
            out@.len() == j,
            reached == (8 * j <= len),
            forall|j2: int| 0 <= j2 < j ==> #[trigger] out@[j2] == stored_values(data@, total as int)[j2],
        decreases total - j,
    {
        let mut v: u64 = 0;
        if reached && len - 8 * j >= 8 {
            let chunk = vstd::slice::slice_subrange(data, 8 * j, 8 * j + 8);
            v = crate::buffers::read_le_u64(chunk);
        }
        out.push(v);
        reached = reached && len - 8 * j >= 8;
        j = j + 1;
    }
    assert(out@ =~= stored_values(data@, total as int));
    out
}

/// The first position at or after `i` where `c` occurs.
pub open spec fn find_char(s: Seq<char>, c: char, i: int) -> Option<int>
    decreases s.len() - i,
{
    if i < 0 || i >= s.len() { None } else if s[i] == c { Some(i) } else { find_char(s, c, i + 1) }
}

/// The word `shape`.
pub open spec fn shape_word() -> Seq<char> {
    seq!['s', 'h', 'a', 'p', 'e']
}

/// The first position at or after `i` where `shape` starts.
pub open spec fn find_shape(s: Seq<char>, i: int) -> Option<int>
    decreases s.len() - i,
{
    if i < 0 || i + 5 > s.len() { None } else if s.subrange(i, i + 5) == shape_word() { Some(i) } else { find_shape(s, i + 1) }
}

/// The pieces of the text between commas (one piece more than there are commas).
pub open spec fn comma_pieces(s: Seq<char>) -> Seq<Seq<char>>
    decreases s.len(),
{
    if s.len() == 0 {
        seq![Seq::empty()]
    } else {
        let p = comma_pieces(s.drop_last());
        if s.last() == ',' { p.push(Seq::empty()) } else { p.update(p.len() - 1, p.last().push(s.last())) }
    }
}

/// The pieces that read as dimensions once trimmed, read; the others are skipped.
pub open spec fn dims_of_pieces(ps: Seq<Seq<char>>) -> Seq<usize>
    decreases ps.len(),
{
    if ps.len() == 0 {
        Seq::empty()
    } else {
        let t = dims_of_pieces(ps.drop_last());
        match parsed_usize(trimmed(ps.last())) {
            Some(v) => t.push(v as usize),
            None => t,
        }
    }
}

/// The text after the word `shape` and the character that follows it.
pub open spec fn after_shape(s: Seq<char>) -> Option<Seq<char>> {
    match find_shape(s, 0) {
        None => None,
        Some(st) => Some(s.subrange(st + 6, s.len() as int)),
    }
}

/// The shape a header gives: after the first `shape`, the text between the first `(` and the
/// first `)`, split at commas, each piece trimmed and read as a dimension (pieces that do not
/// read are skipped); no shape when any of these is missing.
pub open spec fn header_shape(s: Seq<char>) -> Seq<usize> {
    match after_shape(s) {
        None => Seq::empty(),
        Some(rest) => match (find_char(rest, '(', 0), find_char(rest, ')', 0)) {
            (Some(o), Some(c)) => dims_of_pieces(comma_pieces(rest.subrange(o + 1, c))),
            _ => Seq::empty(),
        },
    }
}

/// The header can be read as text: the word `shape`, when present, is followed by one more
/// character, which is ASCII, and, after it, a `(` and a `)` do not come in the wrong order.
pub open spec fn header_readable(s: Seq<char>) -> bool {
    match find_shape(s, 0) {
        None => true,
        Some(st) => {
            &&& st + 6 <= s.len()
            &&& (s[st + 5] as int) < 0x80
            &&& match (find_char(s.subrange(st + 6, s.len() as int), '(', 0), find_char(s.subrange(st + 6, s.len() as int), ')', 0)) {
                (Some(o), Some(c)) => o < c,
                _ => true,
            }
        },
    }
}

proof fn lemma_find_char_bounds(s: Seq<char>, c: char, i: int)
    ensures
        find_char(s, c, i) matches Some(k) ==> i <= k < s.len() && s[k] == c,
    decreases s.len() - i,
{
    if 0 <= i < s.len() && s[i] != c {
        lemma_find_char_bounds(s, c, i + 1);
    }
}

fn white(c: char) -> (r: bool)
    ensures
        r == is_white(c),
{
    ('\u{9}' <= c && c <= '\u{d}') || c == ' ' || c == '\u{85}' || c == '\u{a0}' || c == '\u{1680}'
        || ('\u{2000}' <= c && c <= '\u{200a}') || c == '\u{2028}' || c == '\u{2029}' || c == '\u{202f}'
        || c == '\u{205f}' || c == '\u{3000}'
}

/// Reads the trimmed piece `s[lo..hi]` as a dimension.
fn piece_dim(s: &Vec<char>, lo: usize, hi: usize) -> (r: Option<usize>)
    requires
        lo <= hi <= s@.len(),
    ensures
        r matches Some(v) ==> parsed_usize(trimmed(s@.subrange(lo as int, hi as int))) == Some(v as nat),
        r is None ==> parsed_usize(trimmed(s@.subrange(lo as int, hi as int))) is None,
{
    let mut a = lo;
    while a < hi && white(s[a])
        invariant
            lo <= a <= hi,
            hi <= s@.len(),
            trim_start(s@.subrange(lo as int, hi as int)) == trim_start(s@.subrange(a as int, hi as int)),
        decreases hi - a,
    {
        proof {
            assert(s@.subrange(a as int, hi as int).drop_first() =~= s@.subrange(a as int + 1, hi as int));
        }
        a = a + 1;
    }
    let ghost mid = s@.subrange(a as int, hi as int);
    assert(trim_start(mid) == mid);
    let mut b = hi;
    while b > a && white(s[b - 1])
        invariant
            a <= b <= hi,
            hi <= s@.len(),
            mid == s@.subrange(a as int, hi as int),
            trim_end(mid) == trim_end(s@.subrange(a as int, b as int)),
        decreases b - a,
    {
        proof {
            assert(s@.subrange(a as int, b as int).drop_last() =~= s@.subrange(a as int, b as int - 1));
        }
        b = b - 1;
    }
    assert(trim_end(s@.subrange(a as int, b as int)) == s@.subrange(a as int, b as int));
    parse_usize_chars(s, a, b)
}

/// The first position in `s[from..]`, counted from `from`, where `c` occurs.
fn find_char_exec(s: &Vec<char>, from: usize, c: char) -> (r: Option<usize>)
    requires
        from <= s@.len(),
    ensures
        r matches Some(v) ==> find_char(s@.subrange(from as int, s@.len() as int), c, 0) == Some(v as int),
        r is None ==> find_char(s@.subrange(from as int, s@.len() as int), c, 0) is None,
{
    let ghost rest = s@.subrange(from as int, s@.len() as int);
    let len = s.len();
    let mut i = from;
    while i < len
        invariant
            from <= i <= len,
            len == s@.len(),
            rest == s@.subrange(from as int, len as int),
            find_char(rest, c, 0) == find_char(rest, c, i - from),
        decreases len - i,
    {
        if s[i] == c {
            proof {
                assert(rest[i - from] == c);
            }
            return Some(i - from);
        }
        i = i + 1;
    }
    None
}

/// The first position where `shape` starts.
fn find_shape_exec(s: &Vec<char>) -> (r: Option<usize>)
    ensures
        r matches Some(v) ==> find_shape(s@, 0) == Some(v as int),
        r is None ==> find_shape(s@, 0) is None,
{
    let len = s.len();
    let mut i: usize = 0;
    while len >= 5 && i <= len - 5
        invariant
            0 <= i,
            len == s@.len(),
            find_shape(s@, 0) == find_shape(s@, i as int),
        decreases len - i,
    {
        if s[i] == 's' && s[i + 1] == 'h' && s[i + 2] == 'a' && s[i + 3] == 'p' && s[i + 4] == 'e' {
            proof {
                assert(s@.subrange(i as int, i as int + 5) =~= shape_word());
            }
            return Some(i);
        }
        proof {
            assert(s@.subrange(i as int, i as int + 5) != shape_word()) by {
                if s@.subrange(i as int, i as int + 5) == shape_word() {
                    assert(s@.subrange(i as int, i as int + 5)[0] == 's');
                    assert(s@.subrange(i as int, i as int + 5)[1] == 'h');
                    assert(s@.subrange(i as int, i as int + 5)[2] == 'a');
                    assert(s@.subrange(i as int, i as int + 5)[3] == 'p');
                    assert(s@.subrange(i as int, i as int + 5)[4] == 'e');
                }
            }
        }
        i = i + 1;
    }
    None
}

/// The dimensions written in `s[lo..hi]`: as `dims_of_pieces` of its comma pieces.
fn dims_in(s: &Vec<char>, lo: usize, hi: usize) -> (r: Vec<usize>)
    requires
        lo <= hi <= s@.len(),
    ensures
        r@ == dims_of_pieces(comma_pieces(s@.subrange(lo as int, hi as int))),
{
    let mut out: Vec<usize> = Vec::new();
    let mut ps = lo;
    let mut p = lo;
    let ghost mut done: Seq<Seq<char>> = Seq::empty();
    proof {
        assert(s@.subrange(lo as int, lo as int) =~= Seq::<char>::empty());
        assert(comma_pieces(Seq::<char>::empty()) =~= done.push(s@.subrange(ps as int, p as int)));
    }
    while p < hi
        invariant
            lo <= ps <= p <= hi,
            hi <= s@.len(),
            comma_pieces(s@.subrange(lo as int, p as int)) == done.push(s@.subrange(ps as int, p as int)),
            out@ == dims_of_pieces(done),
        decreases hi - p,
    {
        let ghost sub = s@.subrange(lo as int, p as int + 1);
        proof {
            assert(sub.drop_last() =~= s@.subrange(lo as int, p as int));
            assert(sub.last() == s@[p as int]);
        }
        if s[p] == ',' {
            let d = piece_dim(s, ps, p);
            proof {
                let cur = s@.subrange(ps as int, p as int);
                assert(done.push(cur).drop_last() =~= done);
                assert(done.push(cur).last() == cur);
            }
            match d {
                Some(v) => { out.push(v); },
                None => {},
            }
            proof {
                done = done.push(s@.subrange(ps as int, p as int));
                assert(s@.subrange(p as int + 1, p as int + 1) =~= Seq::<char>::empty());
                assert(comma_pieces(sub) =~= done.push(s@.subrange(p as int + 1, p as int + 1)));
            }
            ps = p + 1;
        } else {
            proof {
                let old_pieces = done.push(s@.subrange(ps as int, p as int));
                assert(s@.subrange(ps as int, p as int).push(s@[p as int]) =~= s@.subrange(ps as int, p as int + 1));
                assert(old_pieces.update(old_pieces.len() - 1, old_pieces.last().push(s@[p as int]))
                    =~= done.push(s@.subrange(ps as int, p as int + 1)));
            }
        }
        p = p + 1;
    }
    let d = piece_dim(s, ps, hi);
    proof {
        let cur = s@.subrange(ps as int, hi as int);
        assert(done.push(cur).drop_last() =~= done);
        assert(done.push(cur).last() == cur);
    }
    match d {
        Some(v) => { out.push(v); },
        None => {},
    }
    out
}

/// The shape that the header text gives, as `header_shape` states.
pub fn npy_shape(header: &Vec<char>) -> (r: Vec<usize>)
    requires
        header_readable(header@),
    ensures
        r@ == header_shape(header@),
{
    match find_shape_exec(header) {
        None => Vec::new(),
        Some(st) => {
            assert(find_shape(header@, 0) == Some(st as int));
            let _len = header.len();
            let b = st + 6;
            let ghost rest = header@.subrange(b as int, header@.len() as int);
            let o = find_char_exec(header, b, '(');
            let c = find_char_exec(header, b, ')');
            match (o, c) {
                (Some(o), Some(c)) => {
                    proof {
                        lemma_find_char_bounds(rest, '(', 0);
                        lemma_find_char_bounds(rest, ')', 0);
                        assert(header@.subrange(b + o + 1, b + c) =~= rest.subrange(o + 1, c as int));
                    }
                    dims_in(header, b + o + 1, b + c)
                },
                _ => Vec::new(),
            }
        },
    }
}

proof fn lemma_byte_split(x: u64)
    ensures
        x as nat == (x & 0xff) as nat + 256 * ((x >> 8u64) as nat),
{
    assert(x == (x & 0xff) + 256 * (x >> 8u64)) by (bit_vector);
}

proof fn lemma_le8_tail(v: u64, i: int)
    requires
        0 <= i <= 8,
    ensures
        le_int(le8(v).subrange(i, 8)) == (v >> (8 * i) as u64) as nat,
    decreases 8 - i,
{
    if i == 8 {
        assert(le8(v).subrange(8, 8).len() == 0);
        assert(v >> 64u64 == 0) by (bit_vector);
    } else {
        lemma_le8_tail(v, i + 1);
        let t = le8(v).subrange(i, 8);
        assert(t.drop_first() =~= le8(v).subrange(i + 1, 8));
        let a = (8 * i) as u64;
        let x = v >> a;
        lemma_byte_split(x);
        assert((v >> a) >> 8u64 == v >> ((a + 8) as u64)) by (bit_vector) requires a <= 56;
        assert((8 * (i + 1)) as u64 == (a + 8) as u64);
        assert(t[0] == ((x & 0xff) as u8));
        assert(((x & 0xff) as u8) as nat == (x & 0xff) as nat) by {
            assert(x & 0xff <= 0xff) by (bit_vector);
        }
    }
}

proof fn lemma_le8_roundtrip(v: u64)
    ensures
        le_int(le8(v)) == v as nat,
{
    lemma_le8_tail(v, 0);
    assert(le8(v).subrange(0, 8) =~= le8(v));
    assert(v >> 0u64 == v) by (bit_vector);
}

proof fn lemma_le_values(vals: Seq<u64>)
    ensures
        le_values(vals).len() == 8 * vals.len(),
        forall|j: int| 0 <= j < vals.len() ==> #[trigger] le_values(vals).subrange(8 * j, 8 * j + 8) == le8(vals[j]),
    decreases vals.len(),
{
    if vals.len() > 0 {
        let p = vals.drop_last();
        lemma_le_values(p);
        assert forall|j: int| 0 <= j < vals.len() implies #[trigger] le_values(vals).subrange(8 * j, 8 * j + 8) == le8(vals[j]) by {
            if j < p.len() {
                assert(le_values(vals).subrange(8 * j, 8 * j + 8) =~= le_values(p).subrange(8 * j, 8 * j + 8));
                assert(vals[j] == p[j]);
            } else {
                assert(le_values(vals).subrange(8 * j, 8 * j + 8) =~= le8(vals.last()));
            }
        }
    }
}

/// Reading back the values written after a header gives them again.
proof fn lemma_values_roundtrip(vals: Seq<u64>)
    ensures
        stored_values(le_values(vals), vals.len() as int) == vals,
{
    lemma_le_values(vals);
    assert forall|j: int| 0 <= j < vals.len() implies #[trigger] stored_values(le_values(vals), vals.len() as int)[j] == vals[j] by {
        assert(8 * j + 8 <= 8 * vals.len());
        lemma_le8_roundtrip(vals[j]);
    }
    assert(stored_values(le_values(vals), vals.len() as int) =~= vals);
}

/// The padded header length fits its 16-bit field exactly when it is at most 65535.
proof fn lemma_len_field(pl: int)
    requires
        0 <= pl <= 0xffff,
    ensures
        ((pl % 256) as u8) as nat + 256 * (((pl / 256) % 256) as u8) as nat == pl,
{
    assert(pl / 256 < 256);
    assert((pl / 256) % 256 == pl / 256);
    assert(pl == 256 * (pl / 256) + pl % 256);
}

/// The text that ASCII bytes read as.
pub open spec fn ascii_text(b: Seq<u8>) -> Seq<char> {
    b.map_values(|x: u8| x as char)
}

proof fn lemma_prefix_find(t: Seq<char>)
    requires
        t.len() >= 51,
        forall|k: int| 0 <= k < 51 ==> #[trigger] t[k] == ascii_text(header_prefix())[k],
    ensures
        find_shape(t, 0) == Some(42int),
{
    let p = ascii_text(header_prefix());
    assert(p =~= seq!['{', '\'', 'd', 'e', 's', 'c', 'r', '\'', ':', ' ', '\'', '<', 'f', '8', '\'', ',', ' ', '\'',
        'f', 'o', 'r', 't', 'r', 'a', 'n', '_', 'o', 'r', 'd', 'e', 'r', '\'', ':', ' ', 'F', 'a', 'l', 's', 'e', ',', ' ',
        '\'', 's', 'h', 'a', 'p', 'e', '\'', ':', ' ', '(']);
    assert forall|k: int| 0 <= k < 51 implies #[trigger] t[k] == p[k] by {}
    assert(t[0] == '{' && t.subrange(0, 5)[0] == t[0]);
    assert(find_shape(t, 0) == find_shape(t, 1));
    assert(t[1] == '\'' && t.subrange(1, 6)[0] == t[1]);
    assert(find_shape(t, 1) == find_shape(t, 2));
    assert(t[2] == 'd' && t.subrange(2, 7)[0] == t[2]);
    assert(find_shape(t, 2) == find_shape(t, 3));
    assert(t[3] == 'e' && t.subrange(3, 8)[0] == t[3]);
    assert(find_shape(t, 3) == find_shape(t, 4));
    assert(t[5] == 'c' && t.subrange(4, 9)[1] == t[5]);
    assert(find_shape(t, 4) == find_shape(t, 5));
    assert(t[5] == 'c' && t.subrange(5, 10)[0] == t[5]);
    assert(find_shape(t, 5) == find_shape(t, 6));
    assert(t[6] == 'r' && t.subrange(6, 11)[0] == t[6]);
    assert(find_shape(t, 6) == find_shape(t, 7));
    assert(t[7] == '\'' && t.subrange(7, 12)[0] == t[7]);
    assert(find_shape(t, 7) == find_shape(t, 8));
    assert(t[8] == ':' && t.subrange(8, 13)[0] == t[8]);
    assert(find_shape(t, 8) == find_shape(t, 9));
    assert(t[9] == ' ' && t.subrange(9, 14)[0] == t[9]);
    assert(find_shape(t, 9) == find_shape(t, 10));
    assert(t[10] == '\'' && t.subrange(10, 15)[0] == t[10]);
    assert(find_shape(t, 10) == find_shape(t, 11));
    assert(t[11] == '<' && t.subrange(11, 16)[0] == t[11]);
    assert(find_shape(t, 11) == find_shape(t, 12));
    assert(t[12] == 'f' && t.subrange(12, 17)[0] == t[12]);
    assert(find_shape(t, 12) == find_shape(t, 13));
    assert(t[13] == '8' && t.subrange(13, 18)[0] == t[13]);
    assert(find_shape(t, 13) == find_shape(t, 14));
    assert(t[14] == '\'' && t.subrange(14, 19)[0] == t[14]);
    assert(find_shape(t, 14) == find_shape(t, 15));
    assert(t[15] == ',' && t.subrange(15, 20)[0] == t[15]);
    assert(find_shape(t, 15) == find_shape(t, 16));
    assert(t[16] == ' ' && t.subrange(16, 21)[0] == t[16]);
    assert(find_shape(t, 16) == find_shape(t, 17));
    assert(t[17] == '\'' && t.subrange(17, 22)[0] == t[17]);
    assert(find_shape(t, 17) == find_shape(t, 18));
    assert(t[18] == 'f' && t.subrange(18, 23)[0] == t[18]);
    assert(find_shape(t, 18) == find_shape(t, 19));
    assert(t[19] == 'o' && t.subrange(19, 24)[0] == t[19]);
    assert(find_shape(t, 19) == find_shape(t, 20));
    assert(t[20] == 'r' && t.subrange(20, 25)[0] == t[20]);
    assert(find_shape(t, 20) == find_shape(t, 21));
    assert(t[21] == 't' && t.subrange(21, 26)[0] == t[21]);
    assert(find_shape(t, 21) == find_shape(t, 22));
    assert(t[22] == 'r' && t.subrange(22, 27)[0] == t[22]);
    assert(find_shape(t, 22) == find_shape(t, 23));
    assert(t[23] == 'a' && t.subrange(23, 28)[0] == t[23]);
    assert(find_shape(t, 23) == find_shape(t, 24));
    assert(t[24] == 'n' && t.subrange(24, 29)[0] == t[24]);
    assert(find_shape(t, 24) == find_shape(t, 25));
    assert(t[25] == '_' && t.subrange(25, 30)[0] == t[25]);
    assert(find_shape(t, 25) == find_shape(t, 26));
    assert(t[26] == 'o' && t.subrange(26, 31)[0] == t[26]);
    assert(find_shape(t, 26) == find_shape(t, 27));
    assert(t[27] == 'r' && t.subrange(27, 32)[0] == t[27]);
    assert(find_shape(t, 27) == find_shape(t, 28));
    assert(t[28] == 'd' && t.subrange(28, 33)[0] == t[28]);
    assert(find_shape(t, 28) == find_shape(t, 29));
    assert(t[29] == 'e' && t.subrange(29, 34)[0] == t[29]);
    assert(find_shape(t, 29) == find_shape(t, 30));
    assert(t[30] == 'r' && t.subrange(30, 35)[0] == t[30]);
    assert(find_shape(t, 30) == find_shape(t, 31));
    assert(t[31] == '\'' && t.subrange(31, 36)[0] == t[31]);
    assert(find_shape(t, 31) == find_shape(t, 32));
    assert(t[32] == ':' && t.subrange(32, 37)[0] == t[32]);
    assert(find_shape(t, 32) == find_shape(t, 33));
    assert(t[33] == ' ' && t.subrange(33, 38)[0] == t[33]);
    assert(find_shape(t, 33) == find_shape(t, 34));
    assert(t[34] == 'F' && t.subrange(34, 39)[0] == t[34]);
    assert(find_shape(t, 34) == find_shape(t, 35));
    assert(t[35] == 'a' && t.subrange(35, 40)[0] == t[35]);
    assert(find_shape(t, 35) == find_shape(t, 36));
    assert(t[36] == 'l' && t.subrange(36, 41)[0] == t[36]);
    assert(find_shape(t, 36) == find_shape(t, 37));
    assert(t[38] == 'e' && t.subrange(37, 42)[1] == t[38]);
    assert(find_shape(t, 37) == find_shape(t, 38));
    assert(t[38] == 'e' && t.subrange(38, 43)[0] == t[38]);
    assert(find_shape(t, 38) == find_shape(t, 39));
    assert(t[39] == ',' && t.subrange(39, 44)[0] == t[39]);
    assert(find_shape(t, 39) == find_shape(t, 40));
    assert(t[40] == ' ' && t.subrange(40, 45)[0] == t[40]);
    assert(find_shape(t, 40) == find_shape(t, 41));
    assert(t[41] == '\'' && t.subrange(41, 46)[0] == t[41]);
    assert(find_shape(t, 41) == find_shape(t, 42));
    assert(t.subrange(42, 47) =~= shape_word()) by {
        assert(t[42] == 's' && t[43] == 'h' && t[44] == 'a' && t[45] == 'p' && t[46] == 'e');
    }
}

proof fn lemma_decimal_text(v: nat)
    ensures
        ascii_text(decimal(v)).len() >= 1,
        crate::buffers::all_digits(ascii_text(decimal(v))),
        crate::buffers::digits_value(ascii_text(decimal(v))) == v,
    decreases v,
{
    let t = ascii_text(decimal(v));
    let c = ((48 + v % 10) as u8) as char;
    assert(c as u32 == 48 + v % 10);
    assert('0' as u32 == 48);
    assert(((c as u32) - ('0' as u32)) as nat == v % 10);
    if v < 10 {
        assert(t.drop_last() =~= Seq::<char>::empty());
        assert(t.last() == c);
        assert(crate::buffers::digits_value(t) == crate::buffers::digits_value(t.drop_last()) * 10 + ((t.last() as u32) - ('0' as u32)) as nat);
    } else {
        lemma_decimal_text(v / 10);
        let u = ascii_text(decimal(v / 10));
        assert(t.drop_last() =~= u);
        assert(t.last() == c);
        assert(v == (v / 10) * 10 + v % 10);
        assert(crate::buffers::digits_value(t) == crate::buffers::digits_value(t.drop_last()) * 10 + ((t.last() as u32) - ('0' as u32)) as nat);
        assert forall|i: int| 0 <= i < t.len() implies '0' <= #[trigger] t[i] <= '9' by {
            if i < u.len() {
                assert(t[i] == u[i]);
            }
        }
    }
}

/// Every byte of the joined dimensions is a digit, a comma or a space.
proof fn lemma_joined_chars(shape: Seq<usize>)
    ensures
        forall|i: int| 0 <= i < joined_dims(shape).len() ==> {
            let c = #[trigger] joined_dims(shape)[i];
            (48 <= c <= 57) || c == 44 || c == 32
        },
    decreases shape.len(),
{
    if shape.len() == 1 {
        lemma_decimal_bytes(shape[0] as nat);
    } else if shape.len() > 1 {
        lemma_joined_chars(shape.drop_last());
        lemma_decimal_bytes(shape.last() as nat);
        let a = joined_dims(shape.drop_last());
        let d = decimal(shape.last() as nat);
        assert forall|i: int| 0 <= i < joined_dims(shape).len() implies {
            let c = #[trigger] joined_dims(shape)[i];
            (48 <= c <= 57) || c == 44 || c == 32
        } by {
            if i < a.len() {
                assert(joined_dims(shape)[i] == a[i]);
            } else if i >= a.len() + 2 {
                assert(joined_dims(shape)[i] == d[i - a.len() - 2]);
            }
        }
    }
}

proof fn lemma_decimal_bytes(v: nat)
    ensures
        forall|i: int| 0 <= i < decimal(v).len() ==> 48 <= #[trigger] decimal(v)[i] <= 57,
    decreases v,
{
    if v >= 10 {
        lemma_decimal_bytes(v / 10);
        assert forall|i: int| 0 <= i < decimal(v).len() implies 48 <= #[trigger] decimal(v)[i] <= 57 by {
            if i < decimal(v / 10).len() {
                assert(decimal(v)[i] == decimal(v / 10)[i]);
            }
        }
    }
}

proof fn lemma_pieces_nonempty(s: Seq<char>)
    ensures
        comma_pieces(s).len() >= 1,
    decreases s.len(),
{
    if s.len() > 0 {
        lemma_pieces_nonempty(s.drop_last());
    }
}

/// Appending text without commas extends the last piece.
proof fn lemma_pieces_append(x: Seq<char>, y: Seq<char>)
    requires
        forall|i: int| 0 <= i < y.len() ==> #[trigger] y[i] != ',',
    ensures
        comma_pieces(x + y) == comma_pieces(x).update(comma_pieces(x).len() - 1, comma_pieces(x).last() + y),
    decreases y.len(),
{
    lemma_pieces_nonempty(x);
    if y.len() == 0 {
        assert(x + y =~= x);
        assert(comma_pieces(x).last() + y =~= comma_pieces(x).last());
        assert(comma_pieces(x).update(comma_pieces(x).len() - 1, comma_pieces(x).last()) =~= comma_pieces(x));
    } else {
        lemma_pieces_append(x, y.drop_last());
        assert((x + y).drop_last() =~= x + y.drop_last());
        assert((x + y).last() == y.last());
        let p = comma_pieces(x);
        assert((p.last() + y.drop_last()).push(y.last()) =~= p.last() + y);
        assert(p.update(p.len() - 1, p.last() + y.drop_last()).update(p.len() - 1, p.last() + y)
            =~= p.update(p.len() - 1, p.last() + y));
    }
}

/// The piece of the joined dimensions that holds dimension `k`.
pub open spec fn dim_piece(shape: Seq<usize>, k: int) -> Seq<char> {
    if k == 0 { ascii_text(decimal(shape[0] as nat)) } else { seq![' '] + ascii_text(decimal(shape[k] as nat)) }
}

proof fn lemma_joined_pieces(shape: Seq<usize>)
    requires
        shape.len() >= 1,
    ensures
        comma_pieces(ascii_text(joined_dims(shape))) == Seq::new(shape.len(), |k: int| dim_piece(shape, k)),
    decreases shape.len(),
{
    if shape.len() == 1 {
        let d = ascii_text(decimal(shape[0] as nat));
        lemma_decimal_text(shape[0] as nat);
        lemma_pieces_append(Seq::empty(), d);
        assert(Seq::<char>::empty() + d =~= d);
        assert(Seq::<char>::empty() + d =~= d);
        assert(comma_pieces(d) =~= Seq::new(1, |k: int| dim_piece(shape, k)));
    } else {
        let dl = shape.drop_last();
        lemma_joined_pieces(dl);
        let a = ascii_text(joined_dims(dl));
        let d = ascii_text(decimal(shape.last() as nat));
        lemma_decimal_text(shape.last() as nat);
        assert(ascii_text(joined_dims(shape)) =~= a.push(',') + (seq![' '] + d));
        assert forall|i: int| 0 <= i < (seq![' '] + d).len() implies #[trigger] (seq![' '] + d)[i] != ',' by {
            if i > 0 {
                assert((seq![' '] + d)[i] == d[i - 1]);
            }
        }
        lemma_pieces_append(a.push(','), seq![' '] + d);
        assert(a.push(',').drop_last() =~= a);
        lemma_pieces_nonempty(a);
        let pa = comma_pieces(a);
        assert(comma_pieces(a.push(',')) == pa.push(Seq::<char>::empty()));
        assert(Seq::<char>::empty() + (seq![' '] + d) =~= seq![' '] + d);
        assert(pa.push(Seq::<char>::empty()).update(pa.len() as int, seq![' '] + d) =~= Seq::new(shape.len(), |k: int| dim_piece(shape, k))) by {
            assert forall|k: int| 0 <= k < shape.len() - 1 implies #[trigger] dim_piece(shape, k) == dim_piece(dl, k) by {
                assert(shape[k] == dl[k]);
            }
        }
    }
}

proof fn lemma_trim_digits(s: Seq<char>, lead: bool)
    requires
        s.len() >= 1,
        crate::buffers::all_digits(s),
    ensures
        trimmed(if lead { seq![' '] + s } else { s }) == s,
{
    let t = if lead { seq![' '] + s } else { s };
    assert('0' <= s[0] <= '9');
    assert(!is_white(s[0]));
    assert(trim_start(s) == s);
    if lead {
        assert(t.drop_first() =~= s);
        assert(is_white(t[0]));
        assert(trim_start(t) == trim_start(t.drop_first()));
    }
    assert(trim_start(t) == s);
    assert('0' <= s.last() <= '9');
    assert(!is_white(s.last()));
    assert(trim_end(s) == s);
}

proof fn lemma_dims_of_pieces(shape: Seq<usize>, n: int)
    requires
        1 <= n <= shape.len(),
    ensures
        dims_of_pieces(Seq::new(n as nat, |k: int| dim_piece(shape, k))) == shape.take(n),
    decreases n,
{
    let ps = Seq::new(n as nat, |k: int| dim_piece(shape, k));
    let v = shape[n - 1];
    lemma_decimal_text(v as nat);
    let d = ascii_text(decimal(v as nat));
    lemma_trim_digits(d, n - 1 > 0);
    assert(ps.last() == dim_piece(shape, n - 1));
    assert(trimmed(ps.last()) == d);
    assert(d[0] != '+');
    assert(parsed_usize(d) == Some(v as nat));
    assert(dims_of_pieces(ps) == dims_of_pieces(ps.drop_last()).push(v));
    if n > 1 {
        lemma_dims_of_pieces(shape, n - 1);
        assert(ps.drop_last() =~= Seq::new((n - 1) as nat, |k: int| dim_piece(shape, k)));
        assert(shape.take(n - 1).push(v) =~= shape.take(n));
    } else {
        assert(ps.drop_last() =~= Seq::<Seq<char>>::empty());
        assert(Seq::<usize>::empty().push(v) =~= shape.take(1));
    }
}

/// The dimensions written into a header are read back from it.
proof fn lemma_dims_roundtrip(shape: Seq<usize>)
    ensures
        dims_of_pieces(comma_pieces(ascii_text(joined_dims(shape)))) == shape,
{
    if shape.len() == 0 {
        assert(ascii_text(joined_dims(shape)) =~= Seq::<char>::empty());
        assert(comma_pieces(Seq::<char>::empty()) == seq![Seq::<char>::empty()]);
        assert(trimmed(Seq::<char>::empty()) =~= Seq::<char>::empty());
        assert(seq![Seq::<char>::empty()].drop_last() =~= Seq::<Seq<char>>::empty());
        assert(parsed_usize(Seq::<char>::empty()) is None);
        assert(seq![Seq::<char>::empty()].last() == Seq::<char>::empty());
        assert(dims_of_pieces(seq![Seq::<char>::empty()]) == dims_of_pieces(Seq::<Seq<char>>::empty()));
        assert(shape =~= Seq::<usize>::empty());
    } else {
        lemma_joined_pieces(shape);
        lemma_dims_of_pieces(shape, shape.len() as int);
        assert(shape.take(shape.len() as int) =~= shape);
        assert(comma_pieces(ascii_text(joined_dims(shape))) == Seq::new(shape.len() as int as nat, |k: int| dim_piece(shape, k)));
    }
}

proof fn lemma_find_char_at(s: Seq<char>, c: char, i: int, j: int)
    requires
        0 <= i <= j < s.len(),
        s[j] == c,
        forall|k: int| i <= k < j ==> #[trigger] s[k] != c,
    ensures
        find_char(s, c, i) == Some(j),
    decreases j - i,
{
    if i < j {
        lemma_find_char_at(s, c, i + 1, j);
    }
}

/// Reading back a file written by `npy_bytes` gives the array back: the header length field
/// holds the padded header length, the header text is readable and gives the shape, and the
/// values after it are those written. This holds whenever the padded header length fits its
/// 16-bit field.
pub proof fn law_npy_roundtrip(shape: Seq<usize>, vals: Seq<u64>)
    requires
        vals.len() == prod(shape),
        padded_len(header_text(shape).len() as int) <= 0xffff,
    ensures
        ({
            let f = npy_file(shape, vals);
            let pl = padded_len(header_text(shape).len() as int);
            &&& header_len_of(f) == Ok::<nat, ArrayError>(pl as nat)
            &&& header_readable(ascii_text(f.subrange(10, 10 + pl)))
            &&& header_shape(ascii_text(f.subrange(10, 10 + pl))) == shape
            &&& stored_values(f.subrange(10 + pl, f.len() as int), prod(shape) as int) == vals
        }),
{
    let h = header_text(shape);
    let hl = h.len() as int;
    let pl = padded_len(hl);
    let jd = joined_dims(shape);
    let jl = jd.len() as int;
    assert(pl >= hl) by {
        assert((hl + 10 + 63) / 64 * 64 >= hl + 10) by (nonlinear_arith);
    }
    let head = npy_magic() + seq![1u8, 0u8] + seq![(pl % 256) as u8, ((pl / 256) % 256) as u8];
    let sp = spaces(pl - hl);
    let d = le_values(vals);
    let f = npy_file(shape, vals);
    assert(f =~= head + (h + sp) + d);
    lemma_le_values(vals);
    // the header length field
    lemma_len_field(pl);
    assert(f.subrange(0, 6) =~= npy_magic());
    assert(f[8] == (pl % 256) as u8 && f[9] == ((pl / 256) % 256) as u8);
    assert(header_len_of(f) == Ok::<nat, ArrayError>(pl as nat));
    // the header text
    assert(f.subrange(10, 10 + pl) =~= h + sp);
    let t = ascii_text(h + sp);
    assert(forall|k: int| 0 <= k < 51 ==> #[trigger] t[k] == ascii_text(header_prefix())[k]);
    lemma_prefix_find(t);
    let rest = t.subrange(48, t.len() as int);
    let a = ascii_text(jd);
    assert(rest =~= seq![':', ' ', '('] + a + ascii_text(header_suffix()) + ascii_text(sp)) by {
        assert(ascii_text(header_prefix()).subrange(48, 51) =~= seq![':', ' ', '(']);
    }
    assert(rest[0] == ':' && rest[1] == ' ' && rest[2] == '(');
    lemma_find_char_at(rest, '(', 0, 2);
    lemma_joined_chars(shape);
    assert(rest[3 + jl] == ')');
    assert forall|k: int| 0 <= k < 3 + jl implies #[trigger] rest[k] != ')' by {
        if k >= 3 {
            assert(rest[k] == (jd[k - 3] as char));
        }
    }
    lemma_find_char_at(rest, ')', 0, 3 + jl);
    assert(t[47] == '\'');
    assert(rest.subrange(3, 3 + jl) =~= a);
    lemma_dims_roundtrip(shape);
    assert(after_shape(t) == Some(rest));
    // the values
    assert(f.subrange(10 + pl, f.len() as int) =~= d);
    lemma_values_roundtrip(vals);
}

} // verus!
