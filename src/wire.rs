use vstd::prelude::*;

use crate::buffer::DnsError;

verus! {

/// The buffer after `bytes` are stored from index `at` on; what would fall past the
/// end of the buffer is dropped.
pub open spec fn put(buf: Seq<u8>, at: int, bytes: Seq<u8>) -> Seq<u8> {
    Seq::new(buf.len(), |j: int| if at <= j < at + bytes.len() { bytes[j - at] } else { buf[j] })
}

/// Whether `n` bytes taken from cursor `pos` on run past the end of a 512-byte buffer.
pub open spec fn overflows(pos: int, n: int) -> bool {
    n > 0 && pos + n > 512
}

/// The cursor after an attempt to move it over `n` bytes one at a time: each step fails
/// at the end of the buffer, so a cursor that runs over stops at the end.
pub open spec fn advance(pos: int, n: int) -> int {
    if !overflows(pos, n) {
        pos + n
    } else if pos < 512 {
        512
    } else {
        pos
    }
}

/// Big-endian bytes of a 16-bit value.
pub open spec fn u16_bytes(v: u16) -> Seq<u8> {
    seq![(v / 256) as u8, (v % 256) as u8]
}

/// Big-endian bytes of a 32-bit value.
pub open spec fn u32_bytes(v: u32) -> Seq<u8> {
    seq![(v / 0x100_0000) as u8, ((v / 0x1_0000) % 256) as u8, ((v / 256) % 256) as u8, (v % 256) as u8]
}

/// The big-endian 16-bit value at index `p`.
pub open spec fn u16_at(buf: Seq<u8>, p: int) -> u16 {
    (buf[p] as int * 256 + buf[p + 1] as int) as u16
}

/// The big-endian 32-bit value at index `p`.
pub open spec fn u32_at(buf: Seq<u8>, p: int) -> u32 {
    (buf[p] as int * 0x100_0000 + buf[p + 1] as int * 0x1_0000 + buf[p + 2] as int * 256
        + buf[p + 3] as int) as u32
}

/// What an encoder puts out: the bytes it attempts to write, and whether it reached its
/// end (`complete` is false when a name could not be encoded; the bytes are then those
/// attempted before that name).
pub struct Emission {
    pub bytes: Seq<u8>,
    pub complete: bool,
}

pub open spec fn emit(bytes: Seq<u8>) -> Emission {
    Emission { bytes, complete: true }
}

/// `a`, followed by `b` when `a` completed.
pub open spec fn then(a: Emission, b: Emission) -> Emission {
    if a.complete {
        Emission { bytes: a.bytes + b.bytes, complete: b.complete }
    } else {
        a
    }
}

/// The outcome of writing an emission from cursor `pos`.
pub open spec fn write_result(pos: int, e: Emission) -> Result<(), DnsError> {
    if overflows(pos, e.bytes.len() as int) {
        Err(DnsError::OutOfBounds)
    } else if !e.complete {
        Err(DnsError::LabelFormat)
    } else {
        Ok(())
    }
}

/// Whether `y` starts as `x` does: a writer that failed within `x` failed the same way
/// within `y`.
pub open spec fn extends(y: Emission, x: Emission) -> bool {
    if x.complete {
        x.bytes.len() <= y.bytes.len() && y.bytes.subrange(0, x.bytes.len() as int) == x.bytes
    } else {
        y == x
    }
}

pub proof fn lemma_then_extends(x: Emission, b: Emission)
    ensures
        extends(then(x, b), x),
{
    if x.complete {
        assert((x.bytes + b.bytes).subrange(0, x.bytes.len() as int) =~= x.bytes);
    }
}

pub proof fn lemma_extends_refl(x: Emission)
    ensures
        extends(x, x),
{
    assert(x.bytes.subrange(0, x.bytes.len() as int) =~= x.bytes);
}

pub proof fn lemma_extends_trans(z: Emission, y: Emission, x: Emission)
    requires
        extends(z, y),
        extends(y, x),
    ensures
        extends(z, x),
{
    if x.complete && y.complete {
        assert(z.bytes.subrange(0, x.bytes.len() as int) =~= y.bytes.subrange(0, x.bytes.len() as int));
    }
}

} // verus!
