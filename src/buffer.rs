use vstd::prelude::*;
use vstd::string::StringExecFns;
use vstd::utf8::encode_utf8;

use crate::name::{
    label_emission, label_wire, label_wire_from, labels_fit_from, lemma_name_text_push, lossy_text,
    name_text, parse_name, resume, seg_len_from, walk, DOT, MAX_JUMPS, MAX_LABEL_LEN,
};

use crate::wire::{advance, emit, extends, put, then, u16_at, u16_bytes, u32_at, u32_bytes, write_result, Emission};

verus! {

/// Capacity of a message buffer: the largest DNS message carried over UDP.
pub const CAPACITY: usize = 512;

/// Ways in which encoding or decoding a message can fail.
#[derive(Clone, Copy, Debug, PartialEq, Eq, Structural)]
pub enum DnsError {
    /// An access at or beyond the end of the buffer.
    OutOfBounds,
    /// A label longer than 63 bytes, or a name with too many compression pointers.
    LabelFormat,
}

/// A fixed-capacity byte buffer with a read/write cursor.
pub struct DnsBuffer {
    pub pos: usize,
    pub buf: [u8; 512],
}

impl DnsBuffer {
    /// Whether `after` is this buffer once `e` has been written from the cursor on, one
    /// byte at a time, and `r` is what the writer returned.
    pub open spec fn wrote(self, after: DnsBuffer, e: Emission, r: Result<(), DnsError>) -> bool {
        &&& after.buf@ == put(self.buf@, self.pos as int, e.bytes)
        &&& after.pos == advance(self.pos as int, e.bytes.len() as int)
        &&& r == write_result(self.pos as int, e)
    }

    /// Whether `after` is this buffer once `n` bytes have been read (or skipped) from the
    /// cursor on, and the read did not fail.
    pub open spec fn consumed(self, after: DnsBuffer, n: int) -> bool {
        &&& after.buf@ == self.buf@
        &&& after.pos == self.pos + n
    }

    /// A successful write of `a` followed by a write of `b` is a write of `a` then `b`.
    pub proof fn lemma_wrote_then(
        self,
        mid: DnsBuffer,
        after: DnsBuffer,
        a: Emission,
        b: Emission,
        r: Result<(), DnsError>,
    )
        requires
            self.wrote(mid, a, Ok(())),
            mid.wrote(after, b, r),
        ensures
            self.wrote(after, then(a, b), r),
    {
        assert(self.buf@.len() == 512);
        assert(put(self.buf@, self.pos as int, a.bytes + b.bytes) =~= after.buf@);
    }

    /// A write of `a` that failed is a failed write of `a` then anything.
    pub proof fn lemma_wrote_stop(self, after: DnsBuffer, a: Emission, b: Emission, r: Result<(), DnsError>)
        requires
            self.wrote(after, a, r),
            r is Err,
        ensures
            self.wrote(after, then(a, b), r),
    {
        if a.complete {
            assert(self.buf@.len() == 512);
            assert(put(self.buf@, self.pos as int, a.bytes + b.bytes) =~= after.buf@);
        }
    }

    /// Chains a successful write of `prefix` with a write of `piece`; when the second
    /// fails, the failure stands for the whole of `prefix + piece + rest`.
    pub proof fn lemma_wrote_chain(
        self,
        mid: DnsBuffer,
        after: DnsBuffer,
        prefix: Seq<u8>,
        piece: Seq<u8>,
        rest: Seq<u8>,
        r: Result<(), DnsError>,
    )
        requires
            self.wrote(mid, emit(prefix), Ok(())),
            mid.wrote(after, emit(piece), r),
        ensures
            r is Ok ==> self.wrote(after, emit(prefix + piece), r),
            r is Err ==> self.wrote(after, emit(prefix + piece + rest), r),
    {
        self.lemma_wrote_then(mid, after, emit(prefix), emit(piece), r);
        if r is Err {
            self.lemma_wrote_stop(after, emit(prefix + piece), emit(rest), r);
        }
    }

    /// Chains a fixed-size field after a write of `head` followed by fields `fields`; when
    /// the field fails, the failure stands for the fields still to come, `rest`, too.
    pub proof fn lemma_wrote_field(
        self,
        mid: DnsBuffer,
        after: DnsBuffer,
        head: Emission,
        fields: Seq<u8>,
        field: Seq<u8>,
        rest: Seq<u8>,
        r: Result<(), DnsError>,
    )
        requires
            self.wrote(mid, then(head, emit(fields)), Ok(())),
            mid.wrote(after, emit(field), r),
        ensures
            r is Ok ==> self.wrote(after, then(head, emit(fields + field)), r),
            r is Err ==> self.wrote(after, then(head, emit(fields + field + rest)), r),
    {
        self.lemma_wrote_then(mid, after, then(head, emit(fields)), emit(field), r);
        assert(head.bytes + fields + field =~= head.bytes + (fields + field));
        if r is Err {
            self.lemma_wrote_stop(after, then(head, emit(fields + field)), emit(rest), r);
            assert(head.bytes + (fields + field) + rest =~= head.bytes + (fields + field + rest));
        }
    }

    /// A failure within `x` is the same failure within any `y` that starts as `x` does.
    pub proof fn lemma_wrote_extends(self, after: DnsBuffer, x: Emission, y: Emission, r: Result<(), DnsError>)
        requires
            self.wrote(after, x, r),
            r is Err,
            extends(y, x),
        ensures
            self.wrote(after, y, r),
    {
        if x.complete {
            assert(self.buf@.len() == 512);
            assert(y.bytes =~= x.bytes + y.bytes.subrange(x.bytes.len() as int, y.bytes.len() as int));
            assert(put(self.buf@, self.pos as int, y.bytes) =~= after.buf@);
        }
    }

    /// Nothing written: the buffer as it is.
    pub proof fn lemma_wrote_nothing(self)
        ensures
            self.wrote(self, emit(seq![]), Ok(())),
            self.wrote(self, Emission { bytes: seq![], complete: false }, Err(DnsError::LabelFormat)),
    {
        assert(put(self.buf@, self.pos as int, seq![]) =~= self.buf@);
    }

    /// An empty buffer: all zero bytes, cursor at the start.
    pub fn new() -> (r: DnsBuffer)
        ensures
            r.pos == 0,
            r.buf@ == Seq::new(512, |i: int| 0u8),
    {
        let r = DnsBuffer { pos: 0, buf: [0u8; 512] };
        assert(r.buf@ =~= Seq::new(512, |i: int| 0u8));
        r
    }

    /// The byte at `pos`.
    pub fn get(&self, pos: usize) -> (r: Result<u8, DnsError>)
        ensures
            pos < CAPACITY ==> r == Ok::<u8, DnsError>(self.buf@[pos as int]),
            pos >= CAPACITY ==> r == Err::<u8, DnsError>(DnsError::OutOfBounds),
    {
        if pos >= CAPACITY {
            return Err(DnsError::OutOfBounds);
        }
        Ok(self.buf[pos])
    }

    /// The big-endian 16-bit value at `pos`, without moving the cursor.
    pub fn get_u16(&self, pos: usize) -> (r: Result<u16, DnsError>)
        ensures
            pos + 2 <= CAPACITY ==> r == Ok::<u16, DnsError>(u16_at(self.buf@, pos as int)),
            pos + 2 > CAPACITY ==> r == Err::<u16, DnsError>(DnsError::OutOfBounds),
    {
        let hi = self.get(pos)?;
        let lo = self.get(pos + 1)?;
        let res = (hi as u16) << 8 | (lo as u16);
        assert((hi as u16) << 8 | (lo as u16) == (hi as int * 256 + lo as int) as u16) by (bit_vector);
        Ok(res)
    }

    /// The big-endian 32-bit value at `pos`, without moving the cursor.
    pub fn get_u32(&self, pos: usize) -> (r: Result<u32, DnsError>)
        ensures
            pos + 4 <= CAPACITY ==> r == Ok::<u32, DnsError>(u32_at(self.buf@, pos as int)),
            pos + 4 > CAPACITY ==> r == Err::<u32, DnsError>(DnsError::OutOfBounds),
    {
        let b0 = self.get(pos)?;
        let b1 = self.get(pos + 1)?;
        let b2 = self.get(pos + 2)?;
        let b3 = self.get(pos + 3)?;
        let res = (b0 as u32) << 24 | (b1 as u32) << 16 | (b2 as u32) << 8 | (b3 as u32);
        assert((b0 as u32) << 24 | (b1 as u32) << 16 | (b2 as u32) << 8 | (b3 as u32) == (b0 as int
            * 0x100_0000 + b1 as int * 0x1_0000 + b2 as int * 256 + b3 as int) as u32) by (bit_vector);
        Ok(res)
    }

    /// Stores `val` at `pos`, without moving the cursor.
    pub fn set(&mut self, pos: usize, val: u8) -> (r: Result<(), DnsError>)
        ensures
            final(self).pos == old(self).pos,
            pos < CAPACITY ==> r is Ok && final(self).buf@ == old(self).buf@.update(pos as int, val),
            pos >= CAPACITY ==> r == Err::<(), DnsError>(DnsError::OutOfBounds) && final(self).buf@
                == old(self).buf@,
    {
        if pos >= CAPACITY {
            return Err(DnsError::OutOfBounds);
        }
        self.buf[pos] = val;
        Ok(())
    }

    /// Stores `val` big-endian at `pos` and `pos + 1`, one byte at a time.
    pub fn set_u16(&mut self, pos: usize, val: u16) -> (r: Result<(), DnsError>)
        ensures
            final(self).pos == old(self).pos,
            final(self).buf@ == put(old(self).buf@, pos as int, u16_bytes(val)),
            pos + 2 <= CAPACITY ==> r is Ok,
            pos + 2 > CAPACITY ==> r == Err::<(), DnsError>(DnsError::OutOfBounds),
    {
        let hi = (val >> 8) as u8;
        let lo = (val & 0xFF) as u8;
        assert((val >> 8) as u8 == (val / 256) as u8) by (bit_vector);
        assert((val & 0xFF) as u8 == (val % 256) as u8) by (bit_vector);
        let ghost before = self.buf@;
        let r = self.set(pos, hi);
        if r.is_err() {
            assert(put(before, pos as int, u16_bytes(val)) =~= before);
            return r;
        }
        let r = self.set(pos + 1, lo);
        assert(put(before, pos as int, u16_bytes(val)) =~= self.buf@);
        r
    }

    /// Reads `len` bytes from `pos` on, without moving the cursor.
    pub fn get_range(&self, pos: usize, len: usize) -> (r: Result<&[u8], DnsError>)
        ensures
            pos + len <= CAPACITY ==> r is Ok && r->Ok_0@ == self.buf@.subrange(pos as int, pos + len),
            pos + len > CAPACITY ==> r == Err::<&[u8], DnsError>(DnsError::OutOfBounds),
    {
        if pos > CAPACITY || len > CAPACITY - pos {
            return Err(DnsError::OutOfBounds);
        }
        Ok(vstd::slice::slice_subrange(self.buf.as_slice(), pos, pos + len))
    }

    /// Moves the cursor to `pos`.
    pub fn seek(&mut self, pos: usize) -> (r: Result<(), DnsError>)
        ensures
            final(self).buf@ == old(self).buf@,
            pos < CAPACITY ==> r is Ok && final(self).pos == pos,
            pos >= CAPACITY ==> r == Err::<(), DnsError>(DnsError::OutOfBounds) && final(self).pos
                == old(self).pos,
    {
        if pos >= CAPACITY {
            return Err(DnsError::OutOfBounds);
        }
        self.pos = pos;
        Ok(())
    }

    /// Reads the byte at the cursor and moves past it; a failed read leaves the buffer as it was.
    pub fn read(&mut self) -> (r: Result<u8, DnsError>)
        ensures
            old(self).pos + 1 <= CAPACITY ==> r == Ok::<u8, DnsError>(old(self).buf@[old(self).pos as int])
                && old(self).consumed(*final(self), 1),
            old(self).pos + 1 > CAPACITY ==> r == Err::<u8, DnsError>(DnsError::OutOfBounds)
                && old(self).consumed(*final(self), 0),
    {
        if self.pos >= CAPACITY {
            return Err(DnsError::OutOfBounds);
        }
        let res = self.buf[self.pos];
        self.pos += 1;
        Ok(res)
    }

    /// Writes a byte at the cursor and moves past it.
    pub fn write(&mut self, byte: u8) -> (r: Result<(), DnsError>)
        ensures
            old(self).wrote(*final(self), emit(seq![byte]), r),
    {
        assert(self.buf@.len() == 512);
        if self.pos >= CAPACITY {
            assert(put(self.buf@, self.pos as int, seq![byte]) =~= self.buf@);
            return Err(DnsError::OutOfBounds);
        }
        let ghost before = self.buf@;
        self.buf[self.pos] = byte;
        assert(put(before, old(self).pos as int, seq![byte]) =~= self.buf@);
        self.pos += 1;
        Ok(())
    }
    /// Reads a big-endian 16-bit value at the cursor and moves past it; a failed read
    /// leaves the buffer as it was.
    pub fn read_u16(&mut self) -> (r: Result<u16, DnsError>)
        ensures
            old(self).pos + 2 <= CAPACITY ==> r == Ok::<u16, DnsError>(u16_at(old(self).buf@, old(self).pos as int))
                && old(self).consumed(*final(self), 2),
            old(self).pos + 2 > CAPACITY ==> r == Err::<u16, DnsError>(DnsError::OutOfBounds)
                && old(self).consumed(*final(self), 0),
    {
        let start = self.pos;
        let hi = self.read()?;
        let lo = match self.read() {
            Ok(b) => b,
            Err(e) => {
                self.pos = start;
                return Err(e);
            },
        };
        assert((hi as u16) << 8 | (lo as u16) == (hi as int * 256 + lo as int) as u16) by (bit_vector);
        Ok((hi as u16) << 8 | (lo as u16))
    }

    /// Writes a big-endian 16-bit value at the cursor, one byte at a time.
    pub fn write_u16(&mut self, bytes: u16) -> (r: Result<(), DnsError>)
        ensures
            old(self).wrote(*final(self), emit(u16_bytes(bytes)), r),
    {
        let b1 = (bytes >> 8) as u8;
        let b2 = (bytes & 0xFF) as u8;
        assert((bytes >> 8) as u8 == (bytes / 256) as u8) by (bit_vector);
        assert((bytes & 0xFF) as u8 == (bytes % 256) as u8) by (bit_vector);
        assert(seq![b1] + seq![b2] =~= u16_bytes(bytes));
        let ghost s0 = *self;
        let r = self.write(b1);
        if r.is_err() {
            proof { s0.lemma_wrote_stop(*self, emit(seq![b1]), emit(seq![b2]), r) }
            return r;
        }
        let ghost s1 = *self;
        let r = self.write(b2);
        proof { s0.lemma_wrote_then(s1, *self, emit(seq![b1]), emit(seq![b2]), r) }
        r
    }

    /// Reads a big-endian 32-bit value at the cursor and moves past it; a failed read
    /// leaves the buffer as it was.
    pub fn read_u32(&mut self) -> (r: Result<u32, DnsError>)
        ensures
            old(self).pos + 4 <= CAPACITY ==> r == Ok::<u32, DnsError>(u32_at(old(self).buf@, old(self).pos as int))
                && old(self).consumed(*final(self), 4),
            old(self).pos + 4 > CAPACITY ==> r == Err::<u32, DnsError>(DnsError::OutOfBounds)
                && old(self).consumed(*final(self), 0),
    {
        let start = self.pos;
        let hi = self.read_u16()?;
        let lo = match self.read_u16() {
            Ok(v) => v,
            Err(e) => {
                self.pos = start;
                return Err(e);
            },
        };
        assert((hi as u32) << 16 | (lo as u32) == (hi as int * 0x1_0000 + lo as int) as u32) by (bit_vector);
        Ok((hi as u32) << 16 | (lo as u32))
    }

    /// Writes a big-endian 32-bit value at the cursor, one byte at a time.
    pub fn write_u32(&mut self, bytes: u32) -> (r: Result<(), DnsError>)
        ensures
            old(self).wrote(*final(self), emit(u32_bytes(bytes)), r),
    {
        let hi = (bytes >> 16) as u16;
        let lo = (bytes & 0xFFFF) as u16;
        assert((bytes >> 16) as u16 == (bytes / 0x1_0000) as u16) by (bit_vector);
        assert((bytes & 0xFFFF) as u16 == (bytes % 0x1_0000) as u16) by (bit_vector);
        assert(u16_bytes(hi) + u16_bytes(lo) =~= u32_bytes(bytes));
        let ghost s0 = *self;
        let r = self.write_u16(hi);
        if r.is_err() {
            proof { s0.lemma_wrote_stop(*self, emit(u16_bytes(hi)), emit(u16_bytes(lo)), r) }
            return r;
        }
        let ghost s1 = *self;
        let r = self.write_u16(lo);
        proof { s0.lemma_wrote_then(s1, *self, emit(u16_bytes(hi)), emit(u16_bytes(lo)), r) }
        r
    }
    /// Decodes the possibly compressed name at the cursor, appends its text to
    /// `output_str`, and moves the cursor past the bytes the name occupies where it starts:
    /// past its zero byte, or past the first compression pointer met. On failure the
    /// buffer and `output_str` are left as they were.
    ///
    /// It always returns: each step either follows one of at most 10 pointers or moves
    /// forward in the buffer, and an eleventh pointer is refused with `LabelFormat`.
    pub fn read_label(&mut self, output_str: &mut String) -> (r: Result<(), DnsError>)
        ensures
            match parse_name(old(self).buf@, old(self).pos as int) {
                Ok((text, end)) => r is Ok && final(output_str)@ == old(output_str)@ + text
                    && old(self).consumed(*final(self), end - old(self).pos),
                Err(e) => r == Err::<(), DnsError>(e) && final(output_str)@ == old(output_str)@
                    && old(self).consumed(*final(self), 0),
            },
    {
        let mut pos: usize = self.pos;
        let mut jumps: usize = 0;
        let mut has_pointer = false;
        let mut first_pointer: usize = 0;
        let mut text = String::new();
        let mut first_label = true;
        let ghost mut done: Seq<Seq<u8>> = seq![];
        loop
            invariant
                self.buf@ == old(self).buf@,
                self.pos == old(self).pos,
                output_str@ == old(output_str)@,
                jumps <= MAX_JUMPS,
                text@ == name_text(done),
                first_label == (done.len() == 0),
                has_pointer ==> first_pointer + 2 <= CAPACITY,
                walk(self.buf@, old(self).pos as int, 0) == resume(
                    done,
                    if has_pointer { Some(first_pointer as int) } else { None },
                    walk(self.buf@, pos as int, jumps as nat),
                ),
            decreases MAX_JUMPS - jumps, CAPACITY - pos,
        {
            let ghost fp: Option<int> = if has_pointer { Some(first_pointer as int) } else { None };
            let b = match self.get(pos) {
                Ok(b) => b,
                Err(e) => return Err(e),
            };
            if b >= 0xC0 {
                // a compression pointer: the low 14 bits of two bytes give the offset
                let lo = match self.get(pos + 1) {
                    Ok(lo) => lo,
                    Err(e) => return Err(e),
                };
                if jumps >= MAX_JUMPS {
                    return Err(DnsError::LabelFormat);
                }
                if !has_pointer {
                    has_pointer = true;
                    first_pointer = pos;
                }
                pos = ((b - 0xC0) as usize) * 256 + lo as usize;
                jumps += 1;
            } else if b == 0 {
                assert(done + seq![] =~= done);
                self.pos = if has_pointer { first_pointer + 2 } else { pos + 1 };
                output_str.append(text.as_str());
                return Ok(());
            } else {
                let len = b as usize;
                let bytes = match self.get_range(pos + 1, len) {
                    Ok(bytes) => bytes,
                    Err(e) => return Err(e),
                };
                let piece = lossy_text(bytes);
                proof {
                    lemma_name_text_push(done, bytes@);
                    reveal_strlit(".");
                }
                if !first_label {
                    text.append(".");
                }
                first_label = false;
                text.append(piece.as_str());
                proof {
                    match walk(self.buf@, pos + 1 + len, jumps as nat) {
                        Ok((labels, end)) => {
                            assert(done + (seq![bytes@] + labels) =~= done.push(bytes@) + labels);
                        },
                        Err(_) => {},
                    }
                    done = done.push(bytes@);
                }
                pos = pos + 1 + len;
            }
        }
    }
    /// The text of the name at `pos`, read without moving the cursor.
    pub fn get_label(&mut self, pos: usize) -> (r: Result<String, DnsError>)
        ensures
            old(self).consumed(*final(self), 0),
            match parse_name(old(self).buf@, pos as int) {
                Ok((text, _)) => r is Ok && r->Ok_0@ == text,
                Err(e) => r == Err::<String, DnsError>(e),
            },
    {
        let saved = self.pos;
        self.pos = pos;
        let mut output_str = String::new();
        let r = self.read_label(&mut output_str);
        self.pos = saved;
        match r {
            Ok(()) => Ok(output_str),
            Err(e) => Err(e),
        }
    }

    /// The index of the dot that ends the label of `b` starting at `i`, or the length of `b`.
    fn label_end(b: &[u8], i: usize) -> (j: usize)
        requires
            i <= b@.len(),
        ensures
            j == i + seg_len_from(b@, i as int),
            i <= j <= b@.len(),
    {
        let mut j = i;
        while j < b.len() && b[j] != DOT
            invariant
                i <= j <= b@.len(),
                i + seg_len_from(b@, i as int) == j + seg_len_from(b@, j as int),
            decreases b@.len() - j,
        {
            j += 1;
        }
        j
    }

    /// Writes `b[from..to]` at the cursor, one byte at a time.
    pub(crate) fn write_slice(&mut self, b: &[u8], from: usize, to: usize) -> (r: Result<(), DnsError>)
        requires
            from <= to <= b@.len(),
        ensures
            old(self).wrote(*final(self), emit(b@.subrange(from as int, to as int)), r),
    {
        let ghost s0 = *self;
        proof {
            s0.lemma_wrote_nothing();
            assert(b@.subrange(from as int, from as int) =~= seq![]);
        }
        let mut k = from;
        while k < to
            invariant
                from <= k <= to,
                to <= b@.len(),
                s0 == *old(self),
                s0.wrote(*self, emit(b@.subrange(from as int, k as int)), Ok(())),
            decreases to - k,
        {
            let ghost s1 = *self;
            let r = self.write(b[k]);
            proof {
                s0.lemma_wrote_chain(
                    s1,
                    *self,
                    b@.subrange(from as int, k as int),
                    seq![b@[k as int]],
                    b@.subrange(k + 1, to as int),
                    r,
                );
                assert(b@.subrange(from as int, k as int) + seq![b@[k as int]] =~= b@.subrange(
                    from as int,
                    k + 1,
                ));
                assert(b@.subrange(from as int, k + 1) + b@.subrange(k + 1, to as int) =~= b@.subrange(
                    from as int,
                    to as int,
                ));
            }
            if r.is_err() {
                return r;
            }
            k += 1;
        }
        Ok(())
    }

    /// Writes `label` as an uncompressed name: each dot-separated label as its length and
    /// its bytes, then a zero byte. A label longer than 63 bytes is refused before anything
    /// is written.
    pub fn write_label(&mut self, label: &str) -> (r: Result<(), DnsError>)
        ensures
            old(self).wrote(*final(self), label_emission(encode_utf8(label@)), r),
    {
        let b = label.as_bytes();
        assert(b@ == encode_utf8(label@));
        let mut i: usize = 0;
        loop
            invariant
                i <= b@.len(),
                b@ == encode_utf8(label@),
                labels_fit_from(b@, 0) == labels_fit_from(b@, i as int),
            ensures
                labels_fit_from(b@, 0),
            decreases b@.len() - i,
        {
            let j = Self::label_end(b, i);
            if j - i > MAX_LABEL_LEN {
                proof { self.lemma_wrote_nothing() }
                return Err(DnsError::LabelFormat);
            }
            if j >= b.len() {
                break;
            }
            i = j + 1;
        }
        let ghost s0 = *self;
        let ghost whole = label_wire(b@);
        let ghost mut prefix: Seq<u8> = seq![];
        proof {
            s0.lemma_wrote_nothing();
            assert(whole =~= prefix + label_wire_from(b@, 0));
        }
        i = 0;
        loop
            invariant
                i <= b@.len(),
                b@ == encode_utf8(label@),
                s0 == *old(self),
                whole == label_wire(b@),
                labels_fit_from(b@, 0),
                labels_fit_from(b@, i as int),
                whole == prefix + label_wire_from(b@, i as int),
                s0.wrote(*self, emit(prefix), Ok(())),
            decreases b@.len() - i,
        {
            let j = Self::label_end(b, i);
            let ghost head = seq![(j - i) as u8];
            let ghost body = b@.subrange(i as int, j as int);
            let ghost tail = if j >= b@.len() { seq![0u8] } else { label_wire_from(b@, j + 1) };
            assert(label_wire_from(b@, i as int) == head + body + tail);
            let ghost s1 = *self;
            let r = self.write((j - i) as u8);
            proof {
                s0.lemma_wrote_chain(s1, *self, prefix, head, body + tail, r);
                assert(prefix + head + (body + tail) =~= whole);
            }
            if r.is_err() {
                return r;
            }
            let ghost s2 = *self;
            let r = self.write_slice(b, i, j);
            proof {
                s0.lemma_wrote_chain(s2, *self, prefix + head, body, tail, r);
                assert(prefix + head + body + tail =~= whole);
            }
            if r.is_err() {
                return r;
            }
            if j >= b.len() {
                let ghost s3 = *self;
                let r = self.write(0);
                proof {
                    s0.lemma_wrote_chain(s3, *self, prefix + head + body, tail, seq![], r);
                    assert(prefix + head + body + tail + seq![] =~= whole);
                    assert(prefix + head + body + tail =~= whole);
                }
                return r;
            }
            proof {
                prefix = prefix + head + body;
                assert(whole =~= prefix + label_wire_from(b@, j + 1));
            }
            i = j + 1;
        }
    }
}

} // verus!
