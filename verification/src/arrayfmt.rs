use vstd::prelude::*;
use vstd::string::StringExecFns;
use vstd::utf8::{decode_utf8, encode_utf8, encode_utf8_decode_utf8, is_char_boundary};
use crate::shape::{dims_fit, lemma_prod_single, lemma_prod_split, prod, sub_prod};
use crate::textfmt::{byte_len, extend_line, is_white, line_wraps, trim_end, trim_end_str};

verus! {

/// The characters of each text.
pub open spec fn texts(ws: Seq<String>) -> Seq<Seq<char>> {
    ws.map_values(|w: String| w@)
}

/// Total length in bytes of the texts.
pub open spec fn bytes_sum(ws: Seq<Seq<char>>) -> nat
    decreases ws.len(),
{
    if ws.len() == 0 { 0 } else { bytes_sum(ws.drop_last()) + byte_len(ws.last()) }
}

/// `n` newlines.
pub open spec fn newlines(n: nat) -> Seq<char>
    decreases n,
{
    if n == 0 { Seq::empty() } else { newlines((n - 1) as nat).push('\n') }
}

/// `a - b`, or zero when `b` is larger.
pub open spec fn sat_sub(a: int, b: int) -> int {
    if a >= b { a - b } else { 0 }
}

/// The text laid out so far and the current line after the first `k` words have been placed
/// on lines of at most `width` bytes that start with `indent`, the words joined by `sep`: a
/// line is closed (without its trailing white space) when the next word would take it past
/// the width, unless it holds nothing but its indentation.
pub open spec fn filled(words: Seq<Seq<char>>, k: int, width: int, indent: Seq<char>, sep: Seq<char>) -> (Seq<char>, Seq<char>)
    decreases k,
{
    if k <= 0 {
        (Seq::empty(), indent)
    } else {
        let prev = filled(words, k - 1, width, indent, sep);
        let line = if k > 1 { prev.1 + sep } else { prev.1 };
        let w = words[k - 1];
        if line_wraps(line, w, width, indent) {
            (prev.0 + trim_end(line) + seq!['\n'], indent + w)
        } else {
            (prev.0, line + w)
        }
    }
}

/// The first `k` bytes of the UTF-8 encoding of `t` end on a character boundary.
pub open spec fn on_char_boundary(t: Seq<char>, k: int) -> bool {
    is_char_boundary(encode_utf8(t), k)
}

/// The characters that follow the first `k` bytes of `t`, when they end on a character
/// boundary.
pub open spec fn after_bytes(t: Seq<char>, k: int) -> Option<Seq<char>> {
    if on_char_boundary(t, k) {
        Some(decode_utf8(encode_utf8(t).subrange(k, encode_utf8(t).len() as int)))
    } else {
        None
    }
}

/// A row of words in brackets: laid out on lines of at most `width` bytes less the width of
/// the separator's visible part, the first line's indentation dropped.
pub open spec fn row_text(words: Seq<Seq<char>>, indent: Seq<char>, width: int, sep: Seq<char>) -> Option<Seq<char>> {
    let sw = byte_len(trim_end(sep)) as int;
    let f = filled(words, words.len() as int, sat_sub(width, if sw >= 1 { sw } else { 1 }), indent, sep);
    match after_bytes(f.0 + f.1, byte_len(indent) as int) {
        Some(t) => Some(seq!['['] + t + seq![']']),
        None => None,
    }
}

/// The bracketed text of an array of `shape` whose elements, in C order, read as `words`: a
/// row is laid out by `row_text`; the sub-arrays along the first axis are laid out one level
/// deeper (one more space of indentation, one byte less of width) and joined by the
/// separator's visible part, as many newlines as the sub-arrays have dimensions, and the
/// indentation. `None` where no text can be made: no sub-array under a non-empty
/// indentation, or a row whose first line loses its indentation.
pub open spec fn layout(words: Seq<Seq<char>>, shape: Seq<usize>, indent: Seq<char>, width: int, sep: Seq<char>) -> Option<Seq<char>>
    decreases shape.len(), 1int, 0int,
{
    if shape.len() == 0 {
        Some(words[0])
    } else if shape.len() == 1 {
        row_text(words, indent, width, sep)
    } else if shape[0] == 0 {
        if byte_len(indent) == 0 { Some(seq!['[', ']']) } else { None }
    } else {
        match blocks(words, shape, indent, width, sep, shape[0] as int) {
            Some(t) => Some(seq!['['] + t + seq![']']),
            None => None,
        }
    }
}

/// The first `k` sub-arrays along the first axis laid out and joined (see `layout`).
pub open spec fn blocks(words: Seq<Seq<char>>, shape: Seq<usize>, indent: Seq<char>, width: int, sep: Seq<char>, k: int) -> Option<Seq<char>>
    decreases shape.len(), 0int, k,
{
    if k <= 0 || shape.len() == 0 {
        Some(Seq::empty())
    } else {
        let b = prod(shape.skip(1)) as int;
        let inner = layout(words.subrange((k - 1) * b, k * b), shape.skip(1), indent + seq![' '], sat_sub(width, 1), sep);
        match (blocks(words, shape, indent, width, sep, k - 1), inner) {
            (Some(acc), Some(nested)) => Some(
                if k > 1 { acc + trim_end(sep) + newlines((shape.len() - 1) as nat) + indent + nested } else { nested },
            ),
            _ => None,
        }
    }
}

proof fn lemma_byte_len_concat(a: Seq<char>, b: Seq<char>)
    ensures
        byte_len(a + b) == byte_len(a) + byte_len(b),
    decreases a.len(),
{
    if a.len() > 0 {
        assert((a + b).drop_first() =~= a.drop_first() + b);
        lemma_byte_len_concat(a.drop_first(), b);
    } else {
        assert(a + b =~= b);
    }
}

proof fn lemma_trim_end_bytes(t: Seq<char>)
    ensures
        byte_len(trim_end(t)) <= byte_len(t),
    decreases t.len(),
{
    if t.len() > 0 && is_white(t.last()) {
        lemma_trim_end_bytes(t.drop_last());
        assert(t =~= t.drop_last() + seq![t.last()]);
        lemma_byte_len_concat(t.drop_last(), seq![t.last()]);
    }
}

proof fn lemma_bytes_sum_concat(a: Seq<Seq<char>>, b: Seq<Seq<char>>)
    ensures
        bytes_sum(a + b) == bytes_sum(a) + bytes_sum(b),
    decreases b.len(),
{
    if b.len() == 0 {
        assert(a + b =~= a);
    } else {
        assert((a + b).drop_last() =~= a + b.drop_last());
        lemma_bytes_sum_concat(a, b.drop_last());
    }
}

/// The texts of a stretch weigh no more than all of them, and one text no more than its stretch.
proof fn lemma_bytes_sum_subrange(ws: Seq<Seq<char>>, a: int, b: int)
    requires
        0 <= a <= b <= ws.len(),
    ensures
        bytes_sum(ws.subrange(a, b)) <= bytes_sum(ws),
        a < b ==> byte_len(ws[a]) <= bytes_sum(ws.subrange(a, b)),
{
    assert(ws =~= ws.subrange(0, a) + ws.subrange(a, b) + ws.subrange(b, ws.len() as int));
    lemma_bytes_sum_concat(ws.subrange(0, a) + ws.subrange(a, b), ws.subrange(b, ws.len() as int));
    lemma_bytes_sum_concat(ws.subrange(0, a), ws.subrange(a, b));
    if a < b {
        let t = ws.subrange(a, b);
        assert(t =~= seq![ws[a]] + t.subrange(1, t.len() as int));
        lemma_bytes_sum_concat(seq![ws[a]], t.subrange(1, t.len() as int));
        assert(seq![ws[a]].drop_last() =~= Seq::<Seq<char>>::empty());
    }
}

/// The bracketed row of the `n` words from `lo` (see `row_text`).
fn row_exec(words: &Vec<String>, lo: usize, n: usize, indent: &str, width: usize, sep: &str) -> (r: Option<String>)
    requires
        lo + n <= words@.len(),
        byte_len(indent@) + bytes_sum(texts(words@).subrange(lo as int, lo + n)) + n * byte_len(sep@) <= usize::MAX,
        byte_len(sep@) <= usize::MAX,
    ensures
        row_text(texts(words@).subrange(lo as int, lo + n), indent@, width as int, sep@) == match r {
            Some(t) => Some(t@),
            None => None::<Seq<char>>,
        },
{
    let ghost ws = texts(words@).subrange(lo as int, lo + n);
    let sep_t = trim_end_str(sep);
    proof {
        lemma_trim_end_bytes(sep@);
        assert(n * byte_len(sep@) >= 0) by (nonlinear_arith);
        lemma_bytes_sum_subrange(ws, 0, n as int);
        assert(ws.subrange(0, n as int) =~= ws);
    }
    let sw = sep_t.len();
    let m: usize = if sw >= 1 { sw } else { 1 };
    let elem_width = width.saturating_sub(m);
    let ghost ew = sat_sub(width as int, if byte_len(trim_end(sep@)) >= 1 { byte_len(trim_end(sep@)) as int } else { 1 });
    assert(elem_width as int == ew);
    let total_words = words.len();
    let mut s = String::new();
    let mut line = String::from_str(indent);
    let mut i: usize = 0;
    while i < n
        invariant
            0 <= i <= n,
            lo + n <= words@.len(),
            total_words == words@.len(),
            ws == texts(words@).subrange(lo as int, lo + n),
            (s@, line@) == filled(ws, i as int, ew, indent@, sep@),
            elem_width as int == ew,
            byte_len(line@) <= byte_len(indent@) + bytes_sum(ws.take(i as int)) + i * byte_len(sep@),
            byte_len(indent@) + bytes_sum(ws) + n * byte_len(sep@) <= usize::MAX,
        decreases n - i,
    {
        let ghost prev_line = line@;
        if i > 0 {
            line.append(sep);
        }
        proof {
            if i > 0 {
                lemma_byte_len_concat(prev_line, sep@);
            }
            lemma_bytes_sum_subrange(ws, 0, i + 1);
            assert(ws.subrange(0, i + 1) =~= ws.take(i + 1));
            assert(ws.take(i + 1).drop_last() =~= ws.take(i as int));
            assert(ws.take(i + 1).last() == ws[i as int]);
            lemma_bytes_sum_subrange(ws, 0, n as int);
            assert(ws.subrange(0, n as int) =~= ws);
            assert(bytes_sum(ws.take(i + 1)) <= bytes_sum(ws)) by {
                lemma_bytes_sum_subrange(ws, 0, i + 1);
                assert(ws.subrange(0, i + 1) =~= ws.take(i + 1));
            }
            assert(i * byte_len(sep@) + byte_len(sep@) <= n * byte_len(sep@)) by (nonlinear_arith)
                requires i < n;
            assert(words@[lo + i]@ == ws[i as int]);
        }
        let ghost before = line@;
        extend_line(&mut s, &mut line, words[lo + i].as_str(), elem_width, indent);
        proof {
            lemma_byte_len_concat(before, ws[i as int]);
            lemma_byte_len_concat(indent@, ws[i as int]);
            assert((i + 1) * byte_len(sep@) == i * byte_len(sep@) + byte_len(sep@)) by (nonlinear_arith);
        }
        i = i + 1;
    }
    let ghost fin = filled(ws, n as int, ew, indent@, sep@);
    s.append(line.as_str());
    proof {
        assert(s@ == fin.0 + fin.1);
    }
    let k = indent.len();
    let whole = s.as_str();
    if !whole.is_char_boundary(k) {
        return None;
    }
    let (_, rest) = whole.split_at(k);
    proof {
        encode_utf8_decode_utf8(rest@);
    }
    let open_b = "[";
    let close_b = "]";
    proof {
        reveal_strlit("[");
        reveal_strlit("]");
    }
    let mut out = String::from_str(open_b);
    out.append(rest);
    out.append(close_b);
    Some(out)
}

/// One sub-array without a text leaves the whole without one.
proof fn lemma_blocks_none(words: Seq<Seq<char>>, shape: Seq<usize>, indent: Seq<char>, width: int, sep: Seq<char>, j: int, k: int)
    requires
        1 <= j <= k,
        shape.len() > 0,
        blocks(words, shape, indent, width, sep, j) is None
            || layout(words.subrange((j - 1) * (prod(shape.skip(1)) as int), j * (prod(shape.skip(1)) as int)), shape.skip(1),
            indent + seq![' '], sat_sub(width, 1), sep) is None,
    ensures
        blocks(words, shape, indent, width, sep, k) is None,
    decreases k - j,
{
    if j < k {
        lemma_blocks_none(words, shape, indent, width, sep, j, k - 1);
    }
}

/// The layout of the sub-array of `shape[d..]` whose words start at `lo` (see `layout`).
fn layout_at(words: &Vec<String>, lo: usize, shape: &Vec<usize>, d: usize, indent: &String, width: usize, sep: &str) -> (r: Option<String>)
    requires
        d <= shape@.len(),
        dims_fit(shape@),
        lo + prod(shape@.skip(d as int)) <= words@.len(),
        byte_len(indent@) + (shape@.len() - d) + bytes_sum(texts(words@).subrange(lo as int, lo + prod(shape@.skip(d as int))))
            + prod(shape@.skip(d as int)) * byte_len(sep@) <= usize::MAX,
        byte_len(sep@) <= usize::MAX,
    ensures
        layout(texts(words@).subrange(lo as int, lo + prod(shape@.skip(d as int))), shape@.skip(d as int), indent@,
            width as int, sep@) == match r {
            Some(x) => Some(x@),
            None => None::<Seq<char>>,
        },
    decreases shape@.len() - d,
{
    let ghost t = shape@.skip(d as int);
    let ghost ws = texts(words@).subrange(lo as int, lo + prod(t));
    let rem = shape.len() - d;
    if rem == 0 {
        proof {
            assert(t.len() == 0);
            assert(prod(t) == 1);
        }
        return Some(words[lo].clone());
    }
    if rem == 1 {
        proof {
            lemma_prod_single(t);
        }
        return row_exec(words, lo, shape[d], indent.as_str(), width, sep);
    }
    let n = shape[d];
    let len = shape.len();
    let b = sub_prod(shape, d + 1, len);
    proof {
        assert(shape@.subrange(d + 1, len as int) =~= t.skip(1));
        lemma_prod_split(t, 1);
        lemma_prod_single(t.take(1));
        assert(prod(t) == n * b);
    }
    if n == 0 {
        if indent.as_str().len() != 0 {
            return None;
        }
        let empty = "[]";
        proof {
            reveal_strlit("[]");
        }
        return Some(String::from_str(empty));
    }
    let mut next_indent = indent.clone();
    let space = " ";
    proof {
        reveal_strlit(" ");
    }
    next_indent.append(space);
    proof {
        assert(space@ =~= seq![' ']);
        assert(next_indent@ =~= indent@ + seq![' ']);
        lemma_byte_len_concat(indent@, seq![' ']);
        assert(byte_len(seq![' ']) == 1) by {
            let sp = seq![' '];
            assert(sp.drop_first() =~= Seq::<char>::empty());
            assert((sp[0] as u32) == 0x20u32);
            assert(encode_utf8(sp) == vstd::utf8::encode_scalar(sp[0] as u32) + encode_utf8(sp.drop_first()));
        }
    }
    let next_width = width.saturating_sub(1);
    let sep_t = trim_end_str(sep);
    let nl = "\n";
    proof {
        reveal_strlit("\n");
    }
    let total_words = words.len();
    let mut out = String::new();
    let mut i: usize = 0;
    while i < n
        invariant
            0 <= i <= n,
            total_words == words@.len(),
            len == shape@.len(),
            rem == shape@.len() - d,
            rem >= 2,
            t == shape@.skip(d as int),
            ws == texts(words@).subrange(lo as int, lo + prod(t)),
            prod(t) == n * b,
            t[0] == n,
            t.skip(1) == shape@.skip(d + 1),
            b == prod(shape@.skip(d + 1)),
            n > 0,
            d + 1 <= shape@.len(),
            dims_fit(shape@),
            lo + prod(t) <= words@.len(),
            byte_len(indent@) + rem + bytes_sum(ws) + prod(t) * byte_len(sep@) <= usize::MAX,
            byte_len(sep@) <= usize::MAX,
            next_indent@ == indent@ + seq![' '],
            byte_len(next_indent@) == byte_len(indent@) + 1,
            next_width as int == sat_sub(width as int, 1),
            sep_t@ == trim_end(sep@),
            nl@ == seq!['\n'],
            blocks(ws, t, indent@, width as int, sep@, i as int) == Some(out@),
        decreases n - i,
    {
        proof {
            assert((i + 1) * b <= n * b) by (nonlinear_arith) requires i < n;
            assert((i + 1) * b == i * b + b) by (nonlinear_arith);
            assert(ws.subrange(i * b, (i + 1) * b) =~= texts(words@).subrange(lo + i * b, lo + i * b + b));
            lemma_bytes_sum_subrange(ws, i * b, (i + 1) * b);
            assert(b * byte_len(sep@) <= n * b * byte_len(sep@)) by (nonlinear_arith) requires n >= 1;
        }
        let nested = match layout_at(words, lo + i * b, shape, d + 1, &next_indent, next_width, sep) {
            Some(x) => x,
            None => {
                proof {
                    lemma_blocks_none(ws, t, indent@, width as int, sep@, i + 1, n as int);
                }
                return None;
            },
        };
        let ghost before = out@;
        if i > 0 {
            out.append(sep_t);
            let mut j: usize = 0;
            while j < rem - 1
                invariant
                    0 <= j <= rem - 1,
                    nl@ == seq!['\n'],
                    out@ == before + trim_end(sep@) + newlines(j as nat),
                decreases rem - 1 - j,
            {
                out.append(nl);
                j = j + 1;
            }
            out.append(indent.as_str());
        }
        out.append(nested.as_str());
        proof {
            if i == 0 {
                assert(before == Seq::<char>::empty());
                assert(out@ =~= nested@);
            }
        }
        i = i + 1;
    }
    let open_b = "[";
    let close_b = "]";
    proof {
        reveal_strlit("[");
        reveal_strlit("]");
    }
    let mut res = String::from_str(open_b);
    res.append(out.as_str());
    res.append(close_b);
    Some(res)
}

/// The bracketed text of an array of `shape` whose elements, in C order, read as `words`:
/// continuation lines indented by `hanging_indent`, rows wrapped at `curr_width` bytes,
/// elements separated by `separator` (see `layout`); `None` where `layout` gives none.
pub fn wrap_recurse(words: &Vec<String>, shape: &Vec<usize>, hanging_indent: &str, curr_width: usize, separator: &str)
    -> (r: Option<String>)
    requires
        words@.len() == prod(shape@),
        dims_fit(shape@),
        byte_len(hanging_indent@) + shape@.len() + bytes_sum(texts(words@)) + words@.len() * byte_len(separator@) <= usize::MAX,
        byte_len(separator@) <= usize::MAX,
    ensures
        layout(texts(words@), shape@, hanging_indent@, curr_width as int, separator@) == match r {
            Some(x) => Some(x@),
            None => None::<Seq<char>>,
        },
{
    let indent = String::from_str(hanging_indent);
    proof {
        assert(shape@.skip(0) =~= shape@);
        assert(texts(words@).subrange(0, prod(shape@) as int) =~= texts(words@));
    }
    layout_at(words, 0, shape, 0, &indent, curr_width, separator)
}

} // verus!
