//! Fixed-width integers in a byte order chosen once per stream.
use vstd::prelude::*;

verus! {

/// The byte order applied to every multi-byte field of one stream.
#[derive(Debug, Clone, Copy, PartialEq, Eq, Structural)]
pub enum Endian {
    Little,
    Big,
}

/// The four bytes of `v`, least significant first.
pub open spec fn le_bytes(v: u32) -> Seq<u8> {
    seq![
        (v % 256) as u8,
        ((v / 256) % 256) as u8,
        ((v / 65536) % 256) as u8,
        ((v / 16777216) % 256) as u8,
    ]
}

/// The value of four bytes read least significant first.
pub open spec fn le_value(b: Seq<u8>) -> int {
    b[0] + 256 * b[1] + 65536 * b[2] + 16777216 * b[3]
}

/// The encoding of `v` as four bytes in byte order `e`.
pub open spec fn u32_bytes(e: Endian, v: u32) -> Seq<u8> {
    match e {
        Endian::Little => le_bytes(v),
        Endian::Big => le_bytes(v).reverse(),
    }
}

/// The value of the four bytes `b` read in byte order `e`.
pub open spec fn u32_of(e: Endian, b: Seq<u8>) -> u32 {
    match e {
        Endian::Little => le_value(b) as u32,
        Endian::Big => le_value(b.reverse()) as u32,
    }
}

/// The encoding of a signed value: its two's complement bits as a `u32`.
pub open spec fn i32_bytes(e: Endian, v: i32) -> Seq<u8> {
    u32_bytes(e, v as u32)
}

pub open spec fn i32_of(e: Endian, b: Seq<u8>) -> i32 {
    u32_of(e, b) as i32
}

/// Reading back the four bytes written for `v` gives `v`.
pub proof fn lemma_u32_round_trip(e: Endian, v: u32)
    ensures
        u32_bytes(e, v).len() == 4,
        u32_of(e, u32_bytes(e, v)) == v,
{
    let b = le_bytes(v);
    assert(le_value(b) == v) by (nonlinear_arith)
        requires
            b[0] == v % 256,
            b[1] == (v / 256) % 256,
            b[2] == (v / 65536) % 256,
            b[3] == (v / 16777216) % 256,
            v <= u32::MAX,
    {
    }
    if e == Endian::Big {
        assert(b.reverse().reverse() =~= b);
    }
}

/// Reading back the four bytes written for a signed `v` gives `v`.
pub proof fn lemma_i32_round_trip(e: Endian, v: i32)
    ensures
        i32_bytes(e, v).len() == 4,
        i32_of(e, i32_bytes(e, v)) == v,
{
    lemma_u32_round_trip(e, v as u32);
    assert((v as u32) as i32 == v) by (bit_vector);
}

/// Appends the four bytes of `v` in byte order `e`.
pub fn push_u32(e: Endian, buf: &mut Vec<u8>, v: u32)
    ensures
        final(buf)@ == old(buf)@ + u32_bytes(e, v),
{
    let b0 = (v % 256) as u8;
    let b1 = ((v / 256) % 256) as u8;
    let b2 = ((v / 65536) % 256) as u8;
    let b3 = ((v / 16777216) % 256) as u8;
    match e {
        Endian::Little => {
            buf.push(b0);
            buf.push(b1);
            buf.push(b2);
            buf.push(b3);
        },
        Endian::Big => {
            buf.push(b3);
            buf.push(b2);
            buf.push(b1);
            buf.push(b0);
        },
    }
    assert(final(buf)@ =~= old(buf)@ + u32_bytes(e, v));
}

/// Appends the four bytes of the signed `v` in byte order `e`.
pub fn push_i32(e: Endian, buf: &mut Vec<u8>, v: i32)
    ensures
        final(buf)@ == old(buf)@ + i32_bytes(e, v),
{
    push_u32(e, buf, v as u32);
}

/// Reads the four bytes at `pos` in byte order `e`.
pub fn read_u32(e: Endian, b: &[u8], pos: usize) -> (r: u32)
    requires
        pos + 4 <= b@.len(),
    ensures
        r == u32_of(e, b@.subrange(pos as int, pos + 4)),
{
    let s = Ghost(b@.subrange(pos as int, pos + 4));
    let len = b.len();
    assert(pos + 3 < len);
    let (x0, x1, x2, x3) = match e {
        Endian::Little => (b[pos], b[pos + 1], b[pos + 2], b[pos + 3]),
        Endian::Big => (b[pos + 3], b[pos + 2], b[pos + 1], b[pos]),
    };
    let r = x0 as u32 + 256 * (x1 as u32) + 65536 * (x2 as u32) + 16777216 * (x3 as u32);
    proof {
        if e == Endian::Big {
            assert(s@.reverse()[0] == x0 && s@.reverse()[1] == x1);
            assert(s@.reverse()[2] == x2 && s@.reverse()[3] == x3);
        }
    }
    r
}

/// Reads the four bytes at `pos` in byte order `e` as a signed value.
pub fn read_i32(e: Endian, b: &[u8], pos: usize) -> (r: i32)
    requires
        pos + 4 <= b@.len(),
    ensures
        r == i32_of(e, b@.subrange(pos as int, pos + 4)),
{
    read_u32(e, b, pos) as i32
}

} // verus!
