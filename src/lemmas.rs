//! Facts about the bytes that the writer produces, as the reader sees them.
use vstd::prelude::*;
use vstd::utf8::*;
use crate::text::{
    ascii_lower, dec_str, digit_char, digits_value, enc_str, escaped, escaped_char, is_digit,
    lower_char, run_end, str_at, u32_of_text, unsigned_digits,
};

verus! {

/// `x` stands in `buf` from `p` on.
pub open spec fn holds_at(buf: Seq<u8>, p: int, x: Seq<u8>) -> bool {
    &&& 0 <= p
    &&& p + x.len() <= buf.len()
    &&& buf.subrange(p, p + x.len()) == x
}

/// `s` holds no NUL character, which would end it on disk.
pub open spec fn no_nul(s: Seq<char>) -> bool {
    forall|i: int| 0 <= i < s.len() ==> s[i] != '\0'
}

pub proof fn lemma_holds_split(buf: Seq<u8>, p: int, x: Seq<u8>, y: Seq<u8>)
    requires
        holds_at(buf, p, x + y),
    ensures
        holds_at(buf, p, x),
        holds_at(buf, p + x.len(), y),
{
    let whole = buf.subrange(p, p + x.len() + y.len());
    assert forall|i: int| 0 <= i < x.len() implies buf.subrange(p, p + x.len())[i] == x[i] by {
        assert(whole[i] == (x + y)[i]);
    }
    assert(buf.subrange(p, p + x.len()) =~= x);
    assert forall|i: int| 0 <= i < y.len() implies buf.subrange(p + x.len(), p + x.len() + y.len())[i]
        == y[i] by {
        assert(whole[x.len() + i] == (x + y)[x.len() + i]);
    }
    assert(buf.subrange(p + x.len(), p + x.len() + y.len()) =~= y);
}

pub proof fn lemma_holds_byte(buf: Seq<u8>, p: int, x: Seq<u8>, i: int)
    requires
        holds_at(buf, p, x),
        0 <= i < x.len(),
    ensures
        buf[p + i] == x[i],
{
    assert(buf.subrange(p, p + x.len())[i] == buf[p + i]);
}

proof fn lemma_or_high(y: u8)
    by (bit_vector)
    ensures
        (0x80u8 | y) >= 0x80u8,
        (0xC0u8 | y) >= 0x80u8,
        (0xE0u8 | y) >= 0x80u8,
        (0xF0u8 | y) >= 0x80u8,
{
}

proof fn lemma_low_scalar(v: u32)
    by (bit_vector)
    requires
        v <= 0x7F,
    ensures
        (v & 0x7F) == v,
{
}

/// A character below 0x80 is stored as its own code, one byte.
proof fn lemma_ascii_scalar(c: char)
    requires
        (c as u32) < 0x80,
    ensures
        encode_scalar(c as u32) == seq![c as u8],
        (c as u8) as char == c,
{
    lemma_low_scalar(c as u32);
    let b = c as u8;
    assert(b as u32 == c as u32);
    char_u32_cast(c, c as u32);
    char_u32_cast(b as char, b as u32);
}

/// A character from 0x80 up is stored as at least two bytes, each from 0x80 up.
proof fn lemma_high_scalar(c: char)
    requires
        (c as u32) >= 0x80,
    ensures
        encode_scalar(c as u32).len() >= 2,
        forall|i: int|
            0 <= i < encode_scalar(c as u32).len() ==> #[trigger] encode_scalar(c as u32)[i] >= 0x80,
{
    let v = c as u32;
    char_is_scalar(c);
    lemma_or_high(((v >> 6) & 0x1F) as u8);
    lemma_or_high(((v >> 12) & 0x0F) as u8);
    lemma_or_high(((v >> 18) & 0x7) as u8);
    lemma_or_high((v & 0x3F) as u8);
    lemma_or_high(((v >> 6) & 0x3F) as u8);
    lemma_or_high(((v >> 12) & 0x3F) as u8);
}

pub proof fn lemma_encode_concat(a: Seq<char>, b: Seq<char>)
    ensures
        encode_utf8(a + b) == encode_utf8(a) + encode_utf8(b),
    decreases a.len(),
{
    if a.len() == 0 {
        assert(a + b =~= b);
    } else {
        assert((a + b).drop_first() =~= a.drop_first() + b);
        assert((a + b)[0] == a[0]);
        lemma_encode_concat(a.drop_first(), b);
    }
}

/// The first place from `i` on that holds a character below 0x80, or the end.
pub open spec fn high_end(s: Seq<char>, i: int) -> int
    decreases s.len() - i,
{
    if 0 <= i < s.len() && (s[i] as u32) >= 0x80 {
        high_end(s, i + 1)
    } else {
        i
    }
}

proof fn lemma_high_end(s: Seq<char>, i: int)
    requires
        0 <= i <= s.len(),
    ensures
        i <= high_end(s, i) <= s.len(),
        forall|j: int| i <= j < high_end(s, i) ==> (#[trigger] s[j] as u32) >= 0x80,
        high_end(s, i) < s.len() ==> (s[high_end(s, i)] as u32) < 0x80,
    decreases s.len() - i,
{
    if 0 <= i < s.len() && (s[i] as u32) >= 0x80 {
        lemma_high_end(s, i + 1);
    }
}

/// The bytes of characters from 0x80 up are all from 0x80 up, at least two
/// for each.
proof fn lemma_high_bytes(r: Seq<char>)
    requires
        forall|j: int| 0 <= j < r.len() ==> (#[trigger] r[j] as u32) >= 0x80,
    ensures
        encode_utf8(r).len() >= 2 * r.len(),
        forall|i: int| 0 <= i < encode_utf8(r).len() ==> #[trigger] encode_utf8(r)[i] >= 0x80,
    decreases r.len(),
{
    if r.len() > 0 {
        lemma_high_scalar(r[0]);
        lemma_high_bytes(r.drop_first());
        let x = encode_scalar(r[0] as u32);
        let y = encode_utf8(r.drop_first());
        assert(encode_utf8(r) == x + y);
        assert forall|i: int| 0 <= i < encode_utf8(r).len() implies encode_utf8(r)[i] >= 0x80 by {
            if i < x.len() {
                assert((x + y)[i] == x[i]);
            } else {
                assert((x + y)[i] == y[i - x.len()]);
            }
        }
    }
}

proof fn lemma_run_end_at(buf: Seq<u8>, p: int, q: int)
    requires
        0 <= p <= q < buf.len(),
        forall|j: int| p <= j < q ==> #[trigger] buf[j] >= 0x80,
        buf[q] < 0x80,
    ensures
        run_end(buf, p) == q,
    decreases q - p,
{
    if p < q {
        lemma_run_end_at(buf, p + 1, q);
    }
}

/// A string without NUL, read back from its bytes, is itself, and the reader
/// stops right after its terminator.
pub proof fn lemma_str_round_trip(buf: Seq<u8>, p: int, s: Seq<char>, started: bool)
    requires
        no_nul(s),
        holds_at(buf, p, enc_str(s)),
    ensures
        str_at(buf, p, started) == Some((s, p + enc_str(s).len())),
    decreases s.len(),
{
    let bytes = enc_str(s);
    if s.len() == 0 {
        lemma_holds_byte(buf, p, bytes, 0);
    } else {
        let rest_len = s.len();
        if (s[0] as u32) < 0x80 {
            lemma_ascii_scalar(s[0]);
            let tail = s.drop_first();
            assert(encode_utf8(s) == encode_scalar(s[0] as u32) + encode_utf8(tail));
            assert(bytes =~= seq![s[0] as u8] + enc_str(tail));
            lemma_holds_split(buf, p, seq![s[0] as u8], enc_str(tail));
            lemma_holds_byte(buf, p, seq![s[0] as u8], 0);
            assert(no_nul(tail));
            assert(s[0] != '\0');
            assert((s[0] as u8) != 0) by {
                char_u32_cast(s[0], s[0] as u32);
            }
            lemma_str_round_trip(buf, p + 1, tail, true);
            assert(seq![s[0]] + tail =~= s);
        } else {
            lemma_high_end(s, 0);
            let n = high_end(s, 0);
            let r = s.subrange(0, n);
            let rest = s.subrange(n, s.len() as int);
            assert(s =~= r + rest);
            lemma_encode_concat(r, rest);
            lemma_high_bytes(r);
            let er = encode_utf8(r);
            assert(bytes =~= er + enc_str(rest));
            lemma_holds_split(buf, p, er, enc_str(rest));
            let q = p + er.len();
            assert forall|j: int| p <= j < q implies buf[j] >= 0x80 by {
                lemma_holds_byte(buf, p, er, j - p);
            }
            lemma_holds_byte(buf, q, enc_str(rest), 0);
            if rest.len() > 0 {
                lemma_ascii_scalar(rest[0]);
                assert(encode_utf8(rest) == encode_scalar(rest[0] as u32) + encode_utf8(
                    rest.drop_first(),
                ));
                assert(enc_str(rest)[0] == rest[0] as u8);
            } else {
                assert(enc_str(rest)[0] == 0);
            }
            lemma_run_end_at(buf, p, q);
            assert(buf.subrange(p, q) == er);
            assert(no_nul(rest));
            lemma_str_round_trip(buf, q, rest, true);
            encode_utf8_valid_utf8(r);
            encode_utf8_decode_utf8(r);
            assert(buf[p] >= 0x80);
        }
    }
}

proof fn lemma_digit_char(d: int)
    requires
        0 <= d < 10,
    ensures
        is_digit(digit_char(d)),
        digit_char(d) as int == 48 + d,
        lower_char(digit_char(d)) == digit_char(d),
        digit_char(d) != '\0',
        digit_char(d) != '+',
{
    let b = (48 + d) as u8;
    assert(b as int == 48 + d);
    assert((b as char) as u32 == b as u32);
}

/// Facts about the decimal text of a number: digits only, its value, and
/// nothing for case folding to change.
pub proof fn lemma_dec_str(n: nat)
    ensures
        dec_str(n).len() >= 1,
        forall|i: int| 0 <= i < dec_str(n).len() ==> is_digit(#[trigger] dec_str(n)[i]),
        digits_value(dec_str(n)) == n,
        no_nul(dec_str(n)),
        ascii_lower(dec_str(n)) == dec_str(n),
        dec_str(n)[0] != '+',
    decreases n,
{
    let s = dec_str(n);
    if n < 10 {
        lemma_digit_char(n as int);
        assert(s.drop_last() =~= Seq::<char>::empty());
        assert(digits_value(s.drop_last()) == 0);
        assert(s.last() as int == 48 + n);
    } else {
        lemma_dec_str(n / 10);
        lemma_digit_char((n % 10) as int);
        let h = dec_str(n / 10);
        assert(s.drop_last() =~= h);
        assert forall|i: int| 0 <= i < s.len() implies is_digit(#[trigger] s[i]) && s[i] != '\0'
            && lower_char(s[i]) == s[i] by {
            if i < h.len() {
                assert(s[i] == h[i]);
                assert(h[i] != '\0');
                assert(ascii_lower(h)[i] == lower_char(h[i]));
            }
        }
        assert(ascii_lower(s) =~= s);
        assert(s[0] == h[0]);
        assert(s.last() as int == 48 + n % 10);
        assert(n == 10 * (n / 10) + n % 10);
    }
}

/// A number's decimal text reads back as the number.
pub proof fn lemma_u32_of_dec(n: u32)
    ensures
        u32_of_text(dec_str(n as nat)) == Some(n),
{
    lemma_dec_str(n as nat);
    assert(unsigned_digits(dec_str(n as nat)) == dec_str(n as nat));
}

/// Different numbers have different decimal texts.
pub proof fn lemma_dec_str_injective(a: nat, b: nat)
    requires
        a != b,
    ensures
        dec_str(a) != dec_str(b),
{
    lemma_dec_str(a);
    lemma_dec_str(b);
}

/// Text without backslashes and double quotes is not changed by escaping.
pub proof fn lemma_escaped_plain(s: Seq<char>)
    requires
        forall|i: int| 0 <= i < s.len() ==> #[trigger] s[i] != '\\' && s[i] != '"',
    ensures
        escaped(s) == s,
    decreases s.len(),
{
    if s.len() > 0 {
        lemma_escaped_plain(s.drop_last());
        assert(escaped_char(s.last()) == seq![s.last()]);
        assert(s.drop_last().push(s.last()) =~= s);
        assert(s.drop_last() + seq![s.last()] =~= s);
    }
}

} // verus!
