use vstd::prelude::*;
use vstd::string::StringExecFns;
use vstd::utf8::encode_utf8;

verus! {

/// Length in bytes of the UTF-8 encoding of the characters.
pub open spec fn byte_len(c: Seq<char>) -> nat {
    encode_utf8(c).len()
}

/// Index of the first `.` byte at or after `i`, or the length when there is none.
pub open spec fn first_dot(b: Seq<u8>, i: int) -> int
    decreases b.len() - i,
{
    if i < 0 || i >= b.len() {
        b.len() as int
    } else if b[i] == 46u8 {
        i
    } else {
        first_dot(b, i + 1)
    }
}

/// Lengths of the integer part (sign included) and of the fractional part (point excluded) of
/// a number written in positional notation: split at the first `.`; without one, all of it is
/// the integer part.
pub fn split_pos_float(s: &str) -> (r: (usize, usize))
    ensures
        ({
            let b = encode_utf8(s@);
            let p = first_dot(b, 0);
            &&& r.0 as int == p
            &&& r.1 as int == if p < b.len() { b.len() - p - 1 } else { 0 }
        }),
{
    let b = s.as_bytes();
    let n = b.len();
    let mut i: usize = 0;
    while i < n
        invariant
            0 <= i <= n,
            n == b@.len(),
            b@ == encode_utf8(s@),
            first_dot(b@, 0) == first_dot(b@, i as int),
        decreases n - i,
    {
        if b[i] == 46u8 {
            return (i, n - i - 1);
        }
        i = i + 1;
    }
    (n, 0)
}

/// Whether a character is white space (the Unicode `White_Space` property, as `str::trim`
/// uses it).
pub open spec fn is_white(c: char) -> bool {
    ||| ('\u{9}' <= c && c <= '\u{d}')
    ||| c == ' '
    ||| c == '\u{85}'
    ||| c == '\u{a0}'
    ||| c == '\u{1680}'
    ||| ('\u{2000}' <= c && c <= '\u{200a}')
    ||| c == '\u{2028}'
    ||| c == '\u{2029}'
    ||| c == '\u{202f}'
    ||| c == '\u{205f}'
    ||| c == '\u{3000}'
}

/// The text without its leading white space.
pub open spec fn trim_start(s: Seq<char>) -> Seq<char>
    decreases s.len(),
{
    if s.len() > 0 && is_white(s[0]) { trim_start(s.drop_first()) } else { s }
}

/// The text without its trailing white space.
pub open spec fn trim_end(s: Seq<char>) -> Seq<char>
    decreases s.len(),
{
    if s.len() > 0 && is_white(s.last()) { trim_end(s.drop_last()) } else { s }
}

/// The text without white space at either end.
pub open spec fn trimmed(s: Seq<char>) -> Seq<char> {
    trim_end(trim_start(s))
}

/// Calls `str::trim_end`, which removes the trailing characters of the Unicode `White_Space`
/// property.
#[verifier::external_body]
pub(crate) fn trim_end_str<'a>(s: &'a str) -> (r: &'a str)
    ensures
        r@ == trim_end(s@),
{
    s.trim_end()
}

/// The line is wrapped before the word is added: the word would take it past the width, and
/// it holds more than its indentation.
pub open spec fn line_wraps(line: Seq<char>, word: Seq<char>, width: int, prefix: Seq<char>) -> bool {
    byte_len(line) + byte_len(word) > width && byte_len(line) > byte_len(prefix)
}

/// Adds a word to the current line of a text being laid out. When the word would take the
/// line past `line_width` bytes and the line holds more than its indentation, the line goes
/// to the text first (without trailing whitespace, ended by a newline) and a new line starts
/// with `next_line_prefix`.
pub fn extend_line(s: &mut String, line: &mut String, word: &str, line_width: usize, next_line_prefix: &str)
    requires
        byte_len(old(line)@) <= usize::MAX,
        byte_len(word@) <= usize::MAX,
        byte_len(next_line_prefix@) <= usize::MAX,
    ensures
        line_wraps(old(line)@, word@, line_width as int, next_line_prefix@) ==> {
            &&& final(s)@ == old(s)@ + trim_end(old(line)@) + seq!['\n']
            &&& final(line)@ == next_line_prefix@ + word@
        },
        !line_wraps(old(line)@, word@, line_width as int, next_line_prefix@) ==> {
            &&& final(s)@ == old(s)@
            &&& final(line)@ == old(line)@ + word@
        },
{
    let ll = line.as_str().len();
    let wl = word.len();
    let pl = next_line_prefix.len();
    let mut needs_wrap = ll > line_width || wl > line_width - ll;
    if ll <= pl {
        needs_wrap = false;
    }
    if needs_wrap {
        let t = trim_end_str(line.as_str());
        s.append(t);
        let nl = "\n";
        proof {
            reveal_strlit("\n");
        }
        s.append(nl);
        *line = String::new();
        line.append(next_line_prefix);
    }
    line.append(word);
}

} // verus!
