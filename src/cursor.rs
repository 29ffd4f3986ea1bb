//! A forward-only cursor over a byte buffer, and the little-endian integers
//! that the format stores.
use vstd::prelude::*;

verus! {

/// The byte at `pos`, or `None` past either end of the buffer.
pub open spec fn byte_at(buf: Seq<u8>, pos: int) -> Option<u8> {
    if 0 <= pos < buf.len() {
        Some(buf[pos])
    } else {
        None
    }
}

/// The value of four bytes read least significant first.
pub open spec fn le_value(b0: u8, b1: u8, b2: u8, b3: u8) -> int {
    b0 as int + 256 * (b1 as int) + 65536 * (b2 as int) + 16777216 * (b3 as int)
}

/// The four bytes of `n`, least significant first.
pub open spec fn u32_le_bytes(n: u32) -> Seq<u8> {
    seq![
        (n % 256) as u8,
        ((n / 256) % 256) as u8,
        ((n / 65536) % 256) as u8,
        (n / 16777216) as u8,
    ]
}

/// The integer stored at `pos` and the position after it, or `None` where
/// fewer than four bytes remain.
pub open spec fn u32_at(buf: Seq<u8>, pos: int) -> Option<(u32, int)> {
    if 0 <= pos && pos + 4 <= buf.len() {
        Some((le_value(buf[pos], buf[pos + 1], buf[pos + 2], buf[pos + 3]) as u32, pos + 4))
    } else {
        None
    }
}

pub proof fn lemma_le_value_bounds(b0: u8, b1: u8, b2: u8, b3: u8)
    ensures
        0 <= le_value(b0, b1, b2, b3) <= u32::MAX,
{
    assert(0 <= le_value(b0, b1, b2, b3) <= u32::MAX) by (nonlinear_arith)
        requires
            b0 < 256,
            b1 < 256,
            b2 < 256,
            b3 < 256,
    ;
}

/// Reading back the bytes of `n` gives `n`.
pub proof fn lemma_u32_le_round_trip(n: u32)
    ensures
        ({
            let b = u32_le_bytes(n);
            le_value(b[0], b[1], b[2], b[3]) == n
        }),
{
    let x = n as int;
    assert(x % 256 + 256 * ((x / 256) % 256) + 65536 * ((x / 65536) % 256) + 16777216 * (x
        / 16777216) == x) by (nonlinear_arith)
        requires
            0 <= x < 0x1_0000_0000,
    {
        assert(x == 256 * (x / 256) + x % 256);
        let y = x / 256;
        assert(y == 256 * (y / 256) + y % 256);
        assert(y / 256 == x / 65536);
        let z = x / 65536;
        assert(z == 256 * (z / 256) + z % 256);
        assert(z / 256 == x / 16777216);
    }
}

/// The byte at `index`, if there is one.
pub fn peek_byte(buffer: &[u8], index: usize) -> (r: Option<u8>)
    ensures
        r == byte_at(buffer@, index as int),
{
    if index >= buffer.len() {
        return None;
    }
    Some(buffer[index])
}

/// Takes the byte at `*index` and steps past it; at the end of the buffer the
/// position stays where it is.
pub fn consume_byte(buffer: &[u8], index: &mut usize) -> (r: Option<u8>)
    ensures
        r == byte_at(buffer@, *old(index) as int),
        *final(index) == if r is Some {
            *old(index) + 1
        } else {
            *old(index) as int
        },
{
    let c = peek_byte(buffer, *index);
    if c.is_some() {
        let len = buffer.len();
        assert(*index < len);
        *index += 1;
        return c;
    }
    return None;
}

/// Takes a little-endian `u32`; fails where fewer than four bytes remain.
pub fn consume_u32(buffer: &[u8], index: &mut usize) -> (r: Option<u32>)
    ensures
        r == match u32_at(buffer@, *old(index) as int) {
            Some((n, _)) => Some(n),
            None => None::<u32>,
        },
        r is Some ==> *final(index) == *old(index) + 4,
{
    let start = *index;
    let b0 = match consume_byte(buffer, index) {
        Some(b) => b,
        None => return None,
    };
    let b1 = match consume_byte(buffer, index) {
        Some(b) => b,
        None => return None,
    };
    let b2 = match consume_byte(buffer, index) {
        Some(b) => b,
        None => return None,
    };
    let b3 = match consume_byte(buffer, index) {
        Some(b) => b,
        None => return None,
    };
    proof {
        lemma_le_value_bounds(b0, b1, b2, b3);
    }
    let v: u32 = b0 as u32 + 256 * (b1 as u32) + 65536 * (b2 as u32) + 16777216 * (b3 as u32);
    Some(v)
}

} // verus!
