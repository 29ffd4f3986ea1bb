//! Text in the format: NUL-terminated strings whose non-ASCII characters are
//! stored as UTF-8, decimal numbers used as keys, and the case folding of keys.
use vstd::prelude::*;
use vstd::utf8::*;
use vstd::string::StrSliceExecFns;
use crate::cursor::{consume_byte, peek_byte};

verus! {

/// The text of a successful read; empty otherwise.
pub open spec fn text_of(r: Option<(Seq<char>, int)>) -> Seq<char> {
    match r {
        Some((v, _)) => v,
        None => Seq::empty(),
    }
}

/// Where the run of bytes with the high bit set that starts at `pos` ends.
pub open spec fn run_end(buf: Seq<u8>, pos: int) -> int
    decreases buf.len() - pos,
{
    if 0 <= pos < buf.len() && buf[pos] >= 0x80 {
        run_end(buf, pos + 1)
    } else {
        pos
    }
}

/// `w` put in front of the text of a successful read.
pub open spec fn prefixed(w: Seq<char>, r: Option<(Seq<char>, int)>) -> Option<(Seq<char>, int)> {
    match r {
        Some((v, e)) => Some((w + v, e)),
        None => None,
    }
}

/// The string stored at `pos` and the position after it. `started` tells
/// whether characters of the same string were read before `pos`.
///
/// A NUL byte ends the string and is consumed. A byte below 0x80 is one
/// character. A byte from 0x80 up starts a run of such bytes that ends before
/// the next byte below 0x80; the run must be at least two bytes of valid
/// UTF-8, and must not reach the end of the buffer. The end of the buffer ends
/// a string that has at least one character and fails an empty one.
pub open spec fn str_at(buf: Seq<u8>, pos: int, started: bool) -> Option<(Seq<char>, int)>
    decreases buf.len() - pos,
{
    if pos < 0 || pos >= buf.len() {
        if started {
            Some((Seq::empty(), pos))
        } else {
            None
        }
    } else if buf[pos] == 0 {
        Some((Seq::empty(), pos + 1))
    } else if buf[pos] < 0x80 {
        prefixed(seq![buf[pos] as char], str_at(buf, pos + 1, true))
    } else {
        let end = run_end(buf, pos);
        if end >= buf.len() || end - pos <= 1 || !valid_utf8(buf.subrange(pos, end)) {
            None
        } else {
            prefixed(decode_utf8(buf.subrange(pos, end)), str_at(buf, end, true))
        }
    }
}

/// The bytes that store the string `s`: its UTF-8 encoding and a NUL.
pub open spec fn enc_str(s: Seq<char>) -> Seq<u8> {
    encode_utf8(s).push(0u8)
}

/// Relies on std::str::from_utf8: it accepts exactly the well-formed UTF-8
/// byte sequences, and its text is what they encode.
#[verifier::external_body]
fn utf8_text(bytes: &[u8]) -> (r: Option<&str>)
    ensures
        r is Some <==> valid_utf8(bytes@),
        r matches Some(s) ==> s@ == decode_utf8(bytes@),
{
    std::str::from_utf8(bytes).ok()
}

/// Relies on String::push: appends one character.
#[verifier::external_body]
pub(crate) fn push_char(s: &mut String, c: char)
    ensures
        final(s)@ == old(s)@.push(c),
{
    s.push(c)
}

/// Relies on String::push_str: appends a string slice.
#[verifier::external_body]
fn push_text(s: &mut String, t: &str)
    ensures
        final(s)@ == old(s)@ + t@,
{
    s.push_str(t)
}

proof fn lemma_prefixed_twice(a: Seq<char>, b: Seq<char>, r: Option<(Seq<char>, int)>)
    ensures
        prefixed(a, prefixed(b, r)) == prefixed(a + b, r),
{
    if let Some((v, e)) = r {
        assert(a + (b + v) =~= (a + b) + v);
    }
}

pub proof fn lemma_run_end_bounds(buf: Seq<u8>, pos: int)
    requires
        0 <= pos <= buf.len(),
    ensures
        pos <= run_end(buf, pos) <= buf.len(),
        forall|j: int| pos <= j < run_end(buf, pos) ==> buf[j] >= 0x80,
        run_end(buf, pos) < buf.len() ==> buf[run_end(buf, pos)] < 0x80,
    decreases buf.len() - pos,
{
    if pos < buf.len() && buf[pos] >= 0x80 {
        lemma_run_end_bounds(buf, pos + 1);
    }
}

/// Reads a NUL-terminated string (see `str_at`).
pub fn consume_string(buffer: &[u8], index: &mut usize) -> (r: Option<String>)
    ensures
        match str_at(buffer@, *old(index) as int, false) {
            Some((w, e)) => r matches Some(s) && s@ == w && *final(index) == e,
            None => r is None,
        },
{
    let ghost buf = buffer@;
    let ghost start = *index as int;
    let len = buffer.len();
    if *index > len {
        return None;
    }
    let mut word = String::new();
    let mut started = false;
    loop
        invariant_except_break
            str_at(buf, start, false) == prefixed(word@, str_at(buf, *index as int, started)),
        invariant
            buf == buffer@,
            start == *old(index),
            len == buffer@.len(),
            *index <= len,
        ensures
            str_at(buf, start, false) == Some((word@, *index as int)),
        decreases len - *index,
    {
        let ghost pos = *index as int;
        match consume_byte(buffer, index) {
            Some(0) => {
                assert(word@ + Seq::<char>::empty() =~= word@);
                break ;
            },
            Some(c) => {
                if c >= 128 {
                    let mut utf8_arr: Vec<u8> = Vec::new();
                    utf8_arr.push(c);
                    proof {
                        lemma_run_end_bounds(buf, pos);
                        assert(utf8_arr@ =~= buf.subrange(pos, pos + 1));
                    }
                    loop
                        invariant
                            buf == buffer@,
                            start == *old(index),
                            len == buffer@.len(),
                            0 <= pos < *index <= len,
                            str_at(buf, start, false) == prefixed(word@, str_at(buf, pos, started)),
                            buf[pos] >= 0x80,
                            utf8_arr@ == buf.subrange(pos, *index as int),
                            run_end(buf, pos) == run_end(buf, *index as int),
                        ensures
                            run_end(buf, pos) == *index as int,
                            *index < len,
                        decreases len - *index,
                    {
                        match peek_byte(buffer, *index) {
                            Some(b) => {
                                if b < 128 {
                                    break ;
                                } else {
                                    utf8_arr.push(b);
                                    *index += 1;
                                    assert(utf8_arr@ =~= buf.subrange(pos, *index as int));
                                }
                            },
                            None => {
                                return None;
                            },
                        }
                    }
                    if utf8_arr.len() <= 1 {
                        return None;
                    }
                    match utf8_text(utf8_arr.as_slice()) {
                        Some(st) => {
                            let ghost before = word@;
                            push_text(&mut word, st);
                            proof {
                                let rest = str_at(buf, *index as int, true);
                                assert(str_at(buf, pos, started) == prefixed(st@, rest));
                                lemma_prefixed_twice(before, st@, rest);
                            }
                        },
                        None => {
                            return None;
                        },
                    }
                } else {
                    let ghost before = word@;
                    push_char(&mut word, c as char);
                    proof {
                        lemma_prefixed_twice(before, seq![c as char], str_at(buf, *index as int, true));
                        assert(before + seq![c as char] =~= word@);
                    }
                }
                started = true;
            },
            None => {
                if started {
                    assert(word@ + Seq::<char>::empty() =~= word@);
                    break ;
                } else {
                    return None;
                }
            },
        }
    }
    Some(word)
}

/// Appends the bytes that store `s` (see `enc_str`).
pub fn write_string(out: &mut Vec<u8>, s: &str)
    ensures
        final(out)@ == old(out)@ + enc_str(s@),
{
    let bytes = s.as_bytes();
    let ghost start = out@;
    let mut i: usize = 0;
    while i < bytes.len()
        invariant
            bytes@ == encode_utf8(s@),
            i <= bytes@.len(),
            out@ == start + bytes@.subrange(0, i as int),
        decreases bytes@.len() - i,
    {
        out.push(bytes[i]);
        i += 1;
        assert(out@ =~= start + bytes@.subrange(0, i as int));
    }
    out.push(0u8);
    assert(out@ =~= start + enc_str(s@));
}

/// The character of the decimal digit `d`.
pub open spec fn digit_char(d: int) -> char {
    ((48 + d) as u8) as char
}

/// The decimal text of `n`, without sign or leading zeros.
pub open spec fn dec_str(n: nat) -> Seq<char>
    decreases n,
{
    if n < 10 {
        seq![digit_char(n as int)]
    } else {
        dec_str(n / 10).push(digit_char((n % 10) as int))
    }
}

/// The decimal text of `n`.
pub fn decimal(n: u64) -> (s: String)
    ensures
        s@ == dec_str(n as nat),
    decreases n,
{
    if n < 10 {
        let mut s = String::new();
        push_char(&mut s, (48 + n as u8) as char);
        s
    } else {
        let mut s = decimal(n / 10);
        push_char(&mut s, (48 + (n % 10) as u8) as char);
        s
    }
}

pub open spec fn is_digit(c: char) -> bool {
    '0' <= c <= '9'
}

/// The value of a string of decimal digits.
pub open spec fn digits_value(s: Seq<char>) -> int
    decreases s.len(),
{
    if s.len() == 0 {
        0
    } else {
        10 * digits_value(s.drop_last()) + (s.last() as int - 48)
    }
}

/// The digits of a number's text: the text without one leading `+`.
pub open spec fn unsigned_digits(s: Seq<char>) -> Seq<char> {
    if s.len() > 0 && s[0] == '+' {
        s.drop_first()
    } else {
        s
    }
}

/// The `u32` that `s` writes in decimal, with an optional leading `+`; `None`
/// where `s` is empty, holds anything but digits, or is too large.
pub open spec fn u32_of_text(s: Seq<char>) -> Option<u32> {
    let d = unsigned_digits(s);
    if d.len() > 0 && (forall|i: int| 0 <= i < d.len() ==> is_digit(#[trigger] d[i]))
        && digits_value(d) <= u32::MAX {
        Some(digits_value(d) as u32)
    } else {
        None
    }
}

/// Reads a decimal `u32` (see `u32_of_text`).
pub fn parse_u32(s: &str) -> (r: Option<u32>)
    ensures
        r == u32_of_text(s@),
{
    let n = s.unicode_len();
    let mut i: usize = 0;
    if n > 0 && s.get_char(0) == '+' {
        i = 1;
    }
    if i == n {
        return None;
    }
    let ghost d = unsigned_digits(s@);
    assert(d =~= s@.subrange(i as int, n as int));
    let mut acc: u64 = 0;
    let mut j: usize = i;
    while j < n
        invariant
            n == s@.len(),
            d == unsigned_digits(s@),
            i <= j <= n,
            d == s@.subrange(i as int, n as int),
            forall|k: int| 0 <= k < j - i ==> is_digit(#[trigger] d[k]),
            acc == if digits_value(d.subrange(0, j - i)) <= u32::MAX {
                digits_value(d.subrange(0, j - i))
            } else {
                u32::MAX + 1
            },
        decreases n - j,
    {
        let c = s.get_char(j);
        if !('0' <= c && c <= '9') {
            assert(!is_digit(d[j - i]));
            assert(d == unsigned_digits(s@));
            assert(!(forall|k: int| 0 <= k < d.len() ==> is_digit(#[trigger] d[k])));
            return None;
        }
        let dv = (c as u32 - 48) as u64;
        assert(d.subrange(0, j + 1 - i).drop_last() =~= d.subrange(0, j - i));
        if acc * 10 + dv > u32::MAX as u64 {
            acc = u32::MAX as u64 + 1;
        } else {
            acc = acc * 10 + dv;
        }
        j += 1;
    }
    assert(d.subrange(0, n - i) =~= d);
    if acc > u32::MAX as u64 {
        return None;
    }
    Some(acc as u32)
}

/// `c` with `A`..`Z` folded to `a`..`z`.
pub open spec fn lower_char(c: char) -> char {
    if 'A' <= c <= 'Z' {
        ((c as u32) + 32) as char
    } else {
        c
    }
}

/// `s` with its ASCII capitals folded to lower case.
pub open spec fn ascii_lower(s: Seq<char>) -> Seq<char> {
    s.map_values(|c: char| lower_char(c))
}

/// Folds the ASCII capitals of `s` to lower case; keys compare that way.
pub fn fold_case(s: &str) -> (r: String)
    ensures
        r@ == ascii_lower(s@),
{
    let n = s.unicode_len();
    let mut r = String::new();
    let mut i: usize = 0;
    while i < n
        invariant
            n == s@.len(),
            i <= n,
            r@ == ascii_lower(s@.subrange(0, i as int)),
        decreases n - i,
    {
        let c = s.get_char(i);
        let l = if 'A' <= c && c <= 'Z' {
            ((c as u8) + 32) as char
        } else {
            c
        };
        push_char(&mut r, l);
        i += 1;
        assert(r@ =~= ascii_lower(s@.subrange(0, i as int)));
    }
    assert(s@.subrange(0, n as int) =~= s@);
    r
}

/// What a backslash or a double quote becomes in a list item; any other
/// character stays.
pub open spec fn escaped_char(c: char) -> Seq<char> {
    if c == '\\' {
        seq!['\\', '\\']
    } else if c == '"' {
        seq!['\\', '"']
    } else {
        seq![c]
    }
}

/// `s` with each backslash doubled and each double quote behind a backslash.
pub open spec fn escaped(s: Seq<char>) -> Seq<char>
    decreases s.len(),
{
    if s.len() == 0 {
        s
    } else {
        escaped(s.drop_last()) + escaped_char(s.last())
    }
}

/// Escapes backslashes and double quotes (see `escaped`).
pub fn escape_json_string(s: &str) -> (r: String)
    ensures
        r@ == escaped(s@),
{
    let n = s.unicode_len();
    let mut r = String::new();
    let mut i: usize = 0;
    while i < n
        invariant
            n == s@.len(),
            i <= n,
            r@ == escaped(s@.subrange(0, i as int)),
        decreases n - i,
    {
        let c = s.get_char(i);
        let ghost before = r@;
        assert(s@.subrange(0, i + 1).drop_last() =~= s@.subrange(0, i as int));
        if c == '\\' || c == '"' {
            push_char(&mut r, '\\');
        }
        push_char(&mut r, c);
        i += 1;
        assert(r@ =~= before + escaped_char(c));
    }
    assert(s@.subrange(0, n as int) =~= s@);
    r
}

/// A read string ends within the buffer and not before where it started;
/// one read from scratch takes at least its terminator or one character.
pub proof fn lemma_str_advances(buf: Seq<u8>, pos: int, started: bool)
    requires
        0 <= pos <= buf.len(),
    ensures
        str_at(buf, pos, started) matches Some((_, e)) ==> pos <= e <= buf.len() && (!started ==> pos
            < e),
    decreases buf.len() - pos,
{
    if pos < buf.len() && buf[pos] != 0 {
        if buf[pos] < 0x80 {
            lemma_str_advances(buf, pos + 1, true);
        } else {
            lemma_run_end_bounds(buf, pos);
            let end = run_end(buf, pos);
            if end < buf.len() && end - pos > 1 {
                lemma_str_advances(buf, end, true);
            }
        }
    }
}

} // verus!
