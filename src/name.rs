use vstd::prelude::*;
use vstd::utf8::{
    decode_utf8, decode_utf8_split, encode_utf8, encode_utf8_decode_utf8, encode_utf8_valid_utf8,
    is_ascii_chars, is_ascii_chars_encode_utf8, is_char_boundary, is_char_boundary_iff_not_is_continuation_byte,
    valid_utf8, valid_utf8_split,
};

use crate::buffer::{DnsError, CAPACITY};
use crate::wire::{emit, put, Emission};

verus! {

/// The byte that separates the labels of a dotted name.
pub const DOT: u8 = 46;

/// The longest label that the wire format allows.
pub const MAX_LABEL_LEN: usize = 63;

/// How many compression pointers one name may follow before it is rejected.
pub const MAX_JUMPS: usize = 10;

/// The text that `String::from_utf8_lossy` makes of some bytes.
pub uninterp spec fn utf8_lossy(b: Seq<u8>) -> Seq<char>;

/// The text of a label's bytes: their UTF-8 decoding when they are valid UTF-8.
pub open spec fn label_text(b: Seq<u8>) -> Seq<char> {
    if valid_utf8(b) {
        decode_utf8(b)
    } else {
        utf8_lossy(b)
    }
}

/// Relies on `String::from_utf8_lossy`: the text of the bytes, where valid UTF-8 decodes
/// unchanged and each invalid sequence becomes U+FFFD.
#[verifier::external_body]
pub(crate) fn lossy_text(b: &[u8]) -> (r: String)
    ensures
        r@ == utf8_lossy(b@),
        r@ == label_text(b@),
{
    String::from_utf8_lossy(b).into_owned()
}

// ---- the dotted text of a name, split into labels ----

/// The length of the label of `b` that starts at index `i`: the bytes up to the next
/// dot, or up to the end.
pub open spec fn seg_len_from(b: Seq<u8>, i: int) -> nat
    decreases b.len() - i,
{
    if i < 0 || i >= b.len() || b[i] == DOT {
        0
    } else {
        1 + seg_len_from(b, i + 1)
    }
}

/// The labels of the dotted text `b`, from index `i` on.
pub open spec fn labels_from(b: Seq<u8>, i: int) -> Seq<Seq<u8>>
    decreases b.len() - i,
{
    let j = i + seg_len_from(b, i);
    if i < 0 || j >= b.len() {
        seq![b.subrange(i, j)]
    } else {
        seq![b.subrange(i, j)] + labels_from(b, j + 1)
    }
}

/// The wire form of the dotted text `b` from index `i` on: each label as its length and
/// its bytes, then a zero byte.
pub open spec fn label_wire_from(b: Seq<u8>, i: int) -> Seq<u8>
    decreases b.len() - i,
{
    let j = i + seg_len_from(b, i);
    let head = seq![seg_len_from(b, i) as u8] + b.subrange(i, j);
    if i < 0 || j >= b.len() {
        head + seq![0u8]
    } else {
        head + label_wire_from(b, j + 1)
    }
}

/// Whether every label of `b` from index `i` on is at most 63 bytes long.
pub open spec fn labels_fit_from(b: Seq<u8>, i: int) -> bool
    decreases b.len() - i,
{
    let j = i + seg_len_from(b, i);
    seg_len_from(b, i) <= MAX_LABEL_LEN && (i < 0 || j >= b.len() || labels_fit_from(b, j + 1))
}

/// Whether every label of `b` from index `i` on is 1 to 63 bytes long.
pub open spec fn host_labels_from(b: Seq<u8>, i: int) -> bool
    decreases b.len() - i,
{
    let j = i + seg_len_from(b, i);
    1 <= seg_len_from(b, i) <= MAX_LABEL_LEN && (i < 0 || j >= b.len() || host_labels_from(
        b,
        j + 1,
    ))
}

pub open spec fn label_wire(b: Seq<u8>) -> Seq<u8> {
    label_wire_from(b, 0)
}

/// What writing the dotted text `b` as a name puts out: nothing when a label is too long.
pub open spec fn label_emission(b: Seq<u8>) -> Emission {
    if labels_fit_from(b, 0) {
        Emission { bytes: label_wire(b), complete: true }
    } else {
        Emission { bytes: seq![], complete: false }
    }
}

/// Whether `name` is a host name that survives the wire form unchanged: its UTF-8
/// encoding splits at dots into labels of 1 to 63 bytes.
pub open spec fn is_host_name(name: Seq<char>) -> bool {
    host_labels_from(encode_utf8(name), 0)
}

// ---- decoding a possibly compressed name ----

pub open spec fn is_pointer(b: u8) -> bool {
    b >= 0xC0
}

/// The offset that a compression pointer made of bytes `hi` and `lo` refers to.
pub open spec fn pointer_target(hi: u8, lo: u8) -> int {
    (hi - 0xC0) * 256 + lo
}

/// Decodes the name at `pos`, after `jumps` pointers were followed: its labels, and the
/// index just past its zero byte, or just past the first pointer met on the way.
pub open spec fn walk(buf: Seq<u8>, pos: int, jumps: nat) -> Result<(Seq<Seq<u8>>, int), DnsError>
    decreases MAX_JUMPS - jumps, buf.len() - pos,
{
    if pos < 0 || pos >= buf.len() {
        Err(DnsError::OutOfBounds)
    } else if is_pointer(buf[pos]) {
        if pos + 1 >= buf.len() {
            Err(DnsError::OutOfBounds)
        } else if jumps >= MAX_JUMPS {
            Err(DnsError::LabelFormat)
        } else {
            match walk(buf, pointer_target(buf[pos], buf[pos + 1]), jumps + 1) {
                Ok((labels, _)) => Ok((labels, pos + 2)),
                Err(e) => Err(e),
            }
        }
    } else if buf[pos] == 0 {
        Ok((seq![], pos + 1))
    } else {
        let next = pos + 1 + buf[pos];
        if next > buf.len() {
            Err(DnsError::OutOfBounds)
        } else {
            match walk(buf, next, jumps) {
                Ok((labels, end)) => Ok((seq![buf.subrange(pos + 1, next)] + labels, end)),
                Err(e) => Err(e),
            }
        }
    }
}

/// The labels' text joined by dots.
pub open spec fn name_text(labels: Seq<Seq<u8>>) -> Seq<char>
    decreases labels.len(),
{
    if labels.len() == 0 {
        seq![]
    } else if labels.len() == 1 {
        label_text(labels[0])
    } else {
        label_text(labels[0]) + seq!['.'] + name_text(labels.drop_first())
    }
}

/// The name at `pos` of a message buffer, as text, and where the cursor goes after it.
pub open spec fn parse_name(buf: Seq<u8>, pos: int) -> Result<(Seq<char>, int), DnsError> {
    match walk(buf, pos, 0) {
        Ok((labels, end)) => Ok((name_text(labels), end)),
        Err(e) => Err(e),
    }
}

/// The result of a walk that already collected `done` and met its first pointer at
/// `first_pointer` (if any), once the rest of it gives `rest`.
pub open spec fn resume(
    done: Seq<Seq<u8>>,
    first_pointer: Option<int>,
    rest: Result<(Seq<Seq<u8>>, int), DnsError>,
) -> Result<(Seq<Seq<u8>>, int), DnsError> {
    match rest {
        Ok((labels, end)) => Ok(
            (
                done + labels,
                match first_pointer {
                    Some(p) => p + 2,
                    None => end,
                },
            ),
        ),
        Err(e) => Err(e),
    }
}

pub proof fn lemma_name_text_push(labels: Seq<Seq<u8>>, last: Seq<u8>)
    ensures
        name_text(labels.push(last)) == if labels.len() == 0 {
            label_text(last)
        } else {
            name_text(labels) + seq!['.'] + label_text(last)
        },
    decreases labels.len(),
{
    let longer = labels.push(last);
    assert(longer[labels.len() as int] == last);
    if labels.len() > 0 {
        assert(longer[0] == labels[0]);
    }
    if labels.len() > 1 {
        lemma_name_text_push(labels.drop_first(), last);
        assert(longer.drop_first() =~= labels.drop_first().push(last));
        let head = label_text(labels[0]) + seq!['.'];
        assert(head + (name_text(labels.drop_first()) + seq!['.'] + label_text(last)) =~= (head
            + name_text(labels.drop_first())) + seq!['.'] + label_text(last));
    } else if labels.len() == 1 {
        assert(longer.drop_first() =~= seq![last]);
        assert(name_text(seq![last]) == label_text(last));
    }
}

// ---- laws ----

pub proof fn lemma_seg_len_bound(b: Seq<u8>, i: int)
    requires
        0 <= i <= b.len(),
    ensures
        i + seg_len_from(b, i) <= b.len(),
        forall|k: int| i <= k < i + seg_len_from(b, i) ==> b[k] != DOT,
        i + seg_len_from(b, i) < b.len() ==> b[i + seg_len_from(b, i)] == DOT,
    decreases b.len() - i,
{
    if i < b.len() && b[i] != DOT {
        lemma_seg_len_bound(b, i + 1);
    }
}

pub proof fn lemma_host_labels_fit(b: Seq<u8>, i: int)
    requires
        0 <= i <= b.len(),
        host_labels_from(b, i),
    ensures
        labels_fit_from(b, i),
    decreases b.len() - i,
{
    lemma_seg_len_bound(b, i);
    let j = i + seg_len_from(b, i);
    if j < b.len() {
        lemma_host_labels_fit(b, j + 1);
    }
}

/// The wire form of a dotted text is two bytes longer than the text.
pub proof fn lemma_label_wire_len(b: Seq<u8>, i: int)
    requires
        0 <= i <= b.len(),
    ensures
        label_wire_from(b, i).len() == b.len() - i + 2,
    decreases b.len() - i,
{
    lemma_seg_len_bound(b, i);
    let j = i + seg_len_from(b, i);
    if j < b.len() {
        lemma_label_wire_len(b, j + 1);
    }
}

/// A name held in its uncompressed wire form at `p` decodes to its labels, with the cursor
/// just past it.
pub proof fn lemma_walk_wire(b: Seq<u8>, i: int, buf: Seq<u8>, p: int, jumps: nat)
    requires
        0 <= i <= b.len(),
        host_labels_from(b, i),
        0 <= p,
        p + b.len() - i + 2 <= buf.len(),
        buf.subrange(p, p + b.len() - i + 2) == label_wire_from(b, i),
        jumps <= MAX_JUMPS,
    ensures
        walk(buf, p, jumps) == Ok::<(Seq<Seq<u8>>, int), DnsError>((labels_from(b, i), p + b.len() - i + 2)),
    decreases b.len() - i,
{
    lemma_seg_len_bound(b, i);
    lemma_label_wire_len(b, i);
    let n: int = seg_len_from(b, i) as int;
    let j = i + n;
    let w = label_wire_from(b, i);
    assert forall|k: int| 0 <= k < w.len() implies buf[p + k] == w[k] by {
        assert(buf.subrange(p, p + w.len())[k] == buf[p + k]);
    }
    let head = seq![n as u8] + b.subrange(i, j);
    let tail = if j >= b.len() { seq![0u8] } else { label_wire_from(b, j + 1) };
    assert(w == head + tail);
    assert(w[0] == head[0]);
    assert(buf[p + 0] == w[0]);
    assert(buf[p] == n as u8);
    let next = p + 1 + n;
    assert(buf.subrange(p + 1, next) =~= b.subrange(i, j)) by {
        assert forall|k: int| 0 <= k < n implies buf.subrange(p + 1, next)[k] == b.subrange(i, j)[k] by {
            assert(w[1 + k] == head[1 + k]);
        }
    }
    if j >= b.len() {
        assert(w[1 + n] == 0);
        assert(buf[next] == 0);
        assert(labels_from(b, i) =~= seq![b.subrange(i, j)]);
        assert(seq![b.subrange(i, j)] + seq![] =~= seq![b.subrange(i, j)]);
    } else {
        lemma_label_wire_len(b, j + 1);
        assert(buf.subrange(next, next + b.len() - (j + 1) + 2) =~= label_wire_from(b, j + 1)) by {
            assert forall|k: int| 0 <= k < tail.len() implies buf[next + k] == tail[k] by {
                assert(w[1 + n + k] == tail[k]);
            }
        }
        lemma_walk_wire(b, j + 1, buf, next, jumps);
    }
}

/// The text of the labels of valid UTF-8, joined by dots, is the text the bytes encode: a
/// dot byte always stands alone as a character, so the labels split no character.
pub proof fn lemma_labels_text(b: Seq<u8>, i: int)
    requires
        0 <= i <= b.len(),
        valid_utf8(b.subrange(i, b.len() as int)),
    ensures
        name_text(labels_from(b, i)) == decode_utf8(b.subrange(i, b.len() as int)),
    decreases b.len() - i,
{
    lemma_seg_len_bound(b, i);
    let j = i + seg_len_from(b, i);
    let s = b.subrange(i, b.len() as int);
    if j >= b.len() {
        assert(labels_from(b, i) =~= seq![b.subrange(i, j)]);
        assert(b.subrange(i, j) =~= s);
    } else {
        let k = j - i;
        assert(s[k] == DOT);
        is_char_boundary_iff_not_is_continuation_byte(s, k);
        valid_utf8_split(s, k);
        decode_utf8_split(s, k);
        assert(s.subrange(0, k) =~= b.subrange(i, j));
        let t = s.subrange(k, s.len() as int);
        assert(t =~= b.subrange(j, b.len() as int));
        assert(t[0] == DOT);
        assert(is_char_boundary(t, 1)) by {
            reveal_with_fuel(is_char_boundary, 2);
        }
        valid_utf8_split(t, 1);
        decode_utf8_split(t, 1);
        assert(t.subrange(1, t.len() as int) =~= b.subrange(j + 1, b.len() as int));
        assert(decode_utf8(t.subrange(0, 1)) == seq!['.']) by {
            assert(t.subrange(0, 1) =~= seq![DOT]);
            let dot = seq!['.'];
            assert(is_ascii_chars(dot));
            is_ascii_chars_encode_utf8(dot);
            assert(encode_utf8(dot) =~= seq![DOT]);
            encode_utf8_decode_utf8(seq!['.']);
        }
        lemma_labels_text(b, j + 1);
        let rest = labels_from(b, j + 1);
        assert(labels_from(b, i) =~= seq![b.subrange(i, j)] + rest);
        assert((seq![b.subrange(i, j)] + rest).drop_first() =~= rest);
    }
}

/// The labels of the encoding of `name`, joined by dots, give `name` back.
pub proof fn lemma_name_text(name: Seq<char>)
    ensures
        name_text(labels_from(encode_utf8(name), 0)) == name,
{
    let b = encode_utf8(name);
    encode_utf8_valid_utf8(name);
    encode_utf8_decode_utf8(name);
    assert(b.subrange(0, b.len() as int) =~= b);
    lemma_labels_text(b, 0);
}

/// Label round trip: writing a host name at `at` and then decoding the name at `at` gives
/// the name back, and the cursor ends past one length byte per label, the labels' bytes
/// and the zero byte: two bytes past the name's length.
pub proof fn lemma_label_round_trip(buf: Seq<u8>, at: int, name: Seq<char>)
    requires
        buf.len() == CAPACITY,
        is_host_name(name),
        0 <= at,
        at + encode_utf8(name).len() + 2 <= CAPACITY,
    ensures
        label_emission(encode_utf8(name)) == emit(label_wire(encode_utf8(name))),
        label_wire(encode_utf8(name)).len() == encode_utf8(name).len() + 2,
        parse_name(put(buf, at, label_wire(encode_utf8(name))), at) == Ok::<(Seq<char>, int), DnsError>(
            (name, at + encode_utf8(name).len() + 2),
        ),
{
    let b = encode_utf8(name);
    lemma_host_labels_fit(b, 0);
    lemma_label_wire_len(b, 0);
    let w = label_wire(b);
    let after = put(buf, at, w);
    assert(after.subrange(at, at + b.len() + 2) =~= w);
    lemma_walk_wire(b, 0, after, at, 0);
    lemma_name_text(name);
}

/// A compression pointer to a host name held uncompressed at `at` decodes to that name,
/// and the cursor ends just past the two pointer bytes.
pub proof fn lemma_pointer_round_trip(buf: Seq<u8>, at: int, name: Seq<char>, ptr: int)
    requires
        buf.len() == CAPACITY,
        is_host_name(name),
        0 <= at,
        at + encode_utf8(name).len() + 2 <= CAPACITY,
        buf.subrange(at, at + encode_utf8(name).len() + 2) == label_wire(encode_utf8(name)),
        0 <= ptr,
        ptr + 2 <= CAPACITY,
        is_pointer(buf[ptr]),
        pointer_target(buf[ptr], buf[ptr + 1]) == at,
    ensures
        parse_name(buf, ptr) == Ok::<(Seq<char>, int), DnsError>((name, ptr + 2)),
{
    let b = encode_utf8(name);
    lemma_walk_wire(b, 0, buf, at, 1);
    lemma_name_text(name);
}

/// Whether the positions `ring` hold compression pointers, each to the next, the last to
/// the first.
pub open spec fn pointer_ring(buf: Seq<u8>, ring: Seq<int>) -> bool {
    &&& ring.len() > 0
    &&& forall|k: int|
        0 <= k < ring.len() ==> {
            &&& 0 <= #[trigger] ring[k]
            &&& ring[k] + 2 <= buf.len()
            &&& is_pointer(buf[ring[k]])
            &&& pointer_target(buf[ring[k]], buf[ring[k] + 1]) == ring[(k + 1) % (ring.len() as int)]
        }
}

proof fn lemma_ring_from(buf: Seq<u8>, ring: Seq<int>, jumps: nat)
    requires
        pointer_ring(buf, ring),
        jumps <= MAX_JUMPS,
    ensures
        forall|k: int|
            0 <= k < ring.len() ==> walk(buf, #[trigger] ring[k], jumps) == Err::<(Seq<Seq<u8>>, int), DnsError>(
                DnsError::LabelFormat,
            ),
    decreases MAX_JUMPS - jumps,
{
    if jumps < MAX_JUMPS {
        lemma_ring_from(buf, ring, jumps + 1);
    }
    assert forall|k: int| 0 <= k < ring.len() implies walk(buf, #[trigger] ring[k], jumps) == Err::<
        (Seq<Seq<u8>>, int),
        DnsError,
    >(DnsError::LabelFormat) by {
        let next = (k + 1) % (ring.len() as int);
        assert(0 <= next < ring.len()) by (nonlinear_arith)
            requires
                0 <= k < ring.len(),
                next == (k + 1) % (ring.len() as int),
        ;
        assert(ring[next] == ring[next]);
    }
}

/// Loop protection: a name that starts on a ring of compression pointers, each leading to
/// the next and the last back to the first, is rejected as malformed; no such name can
/// be followed forever.
pub proof fn lemma_pointer_ring(buf: Seq<u8>, ring: Seq<int>, k: int)
    requires
        pointer_ring(buf, ring),
        0 <= k < ring.len(),
    ensures
        parse_name(buf, ring[k]) == Err::<(Seq<char>, int), DnsError>(DnsError::LabelFormat),
{
    lemma_ring_from(buf, ring, 0);
}

/// Loop protection: a name whose pointer leads to a pointer back to the first is
/// rejected as malformed.
pub proof fn lemma_pointer_cycle(buf: Seq<u8>, a: int, b: int)
    requires
        buf.len() == CAPACITY,
        0 <= a,
        a + 2 <= CAPACITY,
        0 <= b,
        b + 2 <= CAPACITY,
        is_pointer(buf[a]),
        is_pointer(buf[b]),
        pointer_target(buf[a], buf[a + 1]) == b,
        pointer_target(buf[b], buf[b + 1]) == a,
    ensures
        parse_name(buf, a) == Err::<(Seq<char>, int), DnsError>(DnsError::LabelFormat),
{
    let ring = seq![a, b];
    assert((0int + 1) % 2 == 1 && (1int + 1) % 2 == 0);
    assert(pointer_ring(buf, ring)) by {
        assert forall|k: int| 0 <= k < ring.len() implies {
            &&& 0 <= #[trigger] ring[k]
            &&& ring[k] + 2 <= buf.len()
            &&& is_pointer(buf[ring[k]])
            &&& pointer_target(buf[ring[k]], buf[ring[k] + 1]) == ring[(k + 1) % (ring.len() as int)]
        } by {
            if k == 0 {
                assert(ring[(k + 1) % (ring.len() as int)] == b);
            } else {
                assert(ring[(k + 1) % (ring.len() as int)] == a);
            }
        }
    }
    lemma_pointer_ring(buf, ring, 0);
}

} // verus!
