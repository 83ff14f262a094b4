use vstd::arithmetic::div_mod::{
    lemma_add_mod_noop_right,
    lemma_small_mod,
    lemma_sub_mod_noop,
    lemma_sub_mod_noop_right,
};
use vstd::prelude::*;

use crate::error::{Error, ErrorView, Result};

verus! {

// ---------------------------------------------------------------------------
// Little-endian integers
// ---------------------------------------------------------------------------

/// The eight little-endian bytes of `x`.
pub open spec fn u64_le(x: u64) -> Seq<u8> {
    seq![
        x as u8,
        (x >> 8u64) as u8,
        (x >> 16u64) as u8,
        (x >> 24u64) as u8,
        (x >> 32u64) as u8,
        (x >> 40u64) as u8,
        (x >> 48u64) as u8,
        (x >> 56u64) as u8,
    ]
}

/// The four little-endian bytes of `x`.
pub open spec fn u32_le(x: u32) -> Seq<u8> {
    seq![x as u8, (x >> 8u32) as u8, (x >> 16u32) as u8, (x >> 24u32) as u8]
}

pub open spec fn u64_of_bytes(b0: u8, b1: u8, b2: u8, b3: u8, b4: u8, b5: u8, b6: u8, b7: u8) -> u64 {
    (b0 as u64) | ((b1 as u64) << 8u64) | ((b2 as u64) << 16u64) | ((b3 as u64) << 24u64) | ((
    b4 as u64) << 32u64) | ((b5 as u64) << 40u64) | ((b6 as u64) << 48u64) | ((b7 as u64)
        << 56u64)
}

pub open spec fn u32_of_bytes(b0: u8, b1: u8, b2: u8, b3: u8) -> u32 {
    (b0 as u32) | ((b1 as u32) << 8u32) | ((b2 as u32) << 16u32) | ((b3 as u32) << 24u32)
}

/// The `u64` whose little-endian bytes open `s`.
pub open spec fn u64_from_le(s: Seq<u8>) -> u64 {
    u64_of_bytes(s[0], s[1], s[2], s[3], s[4], s[5], s[6], s[7])
}

/// The `u32` whose little-endian bytes open `s`.
pub open spec fn u32_from_le(s: Seq<u8>) -> u32 {
    u32_of_bytes(s[0], s[1], s[2], s[3])
}

/// Reading back the little-endian bytes of a `u64` gives the `u64`.
pub proof fn lemma_u64_le_roundtrip(x: u64)
    ensures
        u64_from_le(u64_le(x)) == x,
{
    assert(u64_of_bytes(
        x as u8,
        (x >> 8u64) as u8,
        (x >> 16u64) as u8,
        (x >> 24u64) as u8,
        (x >> 32u64) as u8,
        (x >> 40u64) as u8,
        (x >> 48u64) as u8,
        (x >> 56u64) as u8,
    ) == x) by (bit_vector);
}

/// Reading back the little-endian bytes of a `u32` gives the `u32`.
pub proof fn lemma_u32_le_roundtrip(x: u32)
    ensures
        u32_from_le(u32_le(x)) == x,
{
    assert(u32_of_bytes(x as u8, (x >> 8u32) as u8, (x >> 16u32) as u8, (x >> 24u32) as u8)
        == x) by (bit_vector);
}

fn push_u64_le(out: &mut Vec<u8>, x: u64)
    ensures
        final(out)@ == old(out)@ + u64_le(x),
{
    out.push(x as u8);
    out.push((x >> 8u64) as u8);
    out.push((x >> 16u64) as u8);
    out.push((x >> 24u64) as u8);
    out.push((x >> 32u64) as u8);
    out.push((x >> 40u64) as u8);
    out.push((x >> 48u64) as u8);
    out.push((x >> 56u64) as u8);
}

fn push_u32_le(out: &mut Vec<u8>, x: u32)
    ensures
        final(out)@ == old(out)@ + u32_le(x),
{
    out.push(x as u8);
    out.push((x >> 8u32) as u8);
    out.push((x >> 16u32) as u8);
    out.push((x >> 24u32) as u8);
}


// ---------------------------------------------------------------------------
// Positions on a ring of `n` bytes
// ---------------------------------------------------------------------------

/// The `len` bytes of the ring `bytes` that follow position `pos`, wrapping
/// around at the end.
#[verifier::opaque]
pub open spec fn ring_window(bytes: Seq<u8>, pos: int, len: int) -> Seq<u8> {
    Seq::new(len as nat, |i: int| bytes[(pos + i) % (bytes.len() as int)])
}

/// The ring `bytes` after `src` is laid down from position `pos` on,
/// wrapping around at the end (`src` is no longer than the ring).
#[verifier::opaque]
pub open spec fn ring_put(bytes: Seq<u8>, pos: int, src: Seq<u8>) -> Seq<u8> {
    Seq::new(
        bytes.len(),
        |k: int|
            {
                let off = (k - pos) % (bytes.len() as int);
                if off < src.len() {
                    src[off]
                } else {
                    bytes[k]
                }
            },
    )
}

proof fn lemma_window_len(bytes: Seq<u8>, pos: int, len: int)
    requires
        0 <= len,
    ensures
        ring_window(bytes, pos, len).len() == len,
{
    reveal(ring_window);
}

/// Laying bytes down keeps the ring's length.
pub proof fn lemma_put_len(bytes: Seq<u8>, pos: int, src: Seq<u8>)
    ensures
        ring_put(bytes, pos, src).len() == bytes.len(),
{
    reveal(ring_put);
}

proof fn lemma_mod_step(x: int, n: int)
    requires
        n > 0,
    ensures
        (x + 1) % n == (if x % n + 1 == n { 0 } else { x % n + 1 }),
{
    lemma_add_mod_noop_right(1, x, n);
    assert((x + 1) % n == (x % n + 1) % n);
    if x % n + 1 == n {
        vstd::arithmetic::div_mod::lemma_mod_self_0(n);
    } else {
        lemma_small_mod((x % n + 1) as nat, n as nat);
    }
}

/// The offset from `pos` of the ring slot `(pos + i) % n` is `i`.
proof fn lemma_offset_of_slot(pos: int, i: int, n: int)
    requires
        n > 0,
        0 <= i < n,
    ensures
        (((pos + i) % n) - pos) % n == i,
{
    lemma_sub_mod_noop_right((pos + i) % n, pos, n);
    lemma_sub_mod_noop(pos + i, pos, n);
    assert(((pos + i) % n) % n == (pos + i) % n) by {
        vstd::arithmetic::div_mod::lemma_mod_twice(pos + i, n);
    }
    assert(pos + i - pos == i);
    lemma_small_mod(i as nat, n as nat);
}

/// A slot `k` of the ring has offset `i` from `pos` exactly when it is the
/// slot `(pos + i) % n`.
proof fn lemma_slot_of_offset(pos: int, i: int, k: int, n: int)
    requires
        n > 0,
        0 <= i < n,
        0 <= k < n,
    ensures
        ((k - pos) % n == i) <==> (k == (pos + i) % n),
{
    lemma_offset_of_slot(pos, i, n);
    if (k - pos) % n == i {
        lemma_add_mod_noop_right(pos, k - pos, n);
        assert((pos + (k - pos)) % n == (pos + i) % n);
        assert(pos + (k - pos) == k);
        lemma_small_mod(k as nat, n as nat);
    }
}

/// Reading back the bytes just laid down gives them back.
pub proof fn lemma_window_of_put(bytes: Seq<u8>, pos: int, src: Seq<u8>)
    requires
        bytes.len() > 0,
        src.len() <= bytes.len(),
    ensures
        ring_put(bytes, pos, src).len() == bytes.len(),
        ring_window(ring_put(bytes, pos, src), pos, src.len() as int) == src,
{
    reveal(ring_window);
    reveal(ring_put);
    let n = bytes.len() as int;
    let after = ring_put(bytes, pos, src);
    assert forall|i: int| 0 <= i < src.len() implies #[trigger] ring_window(after, pos, src.len() as int)[i] == src[i] by {
        lemma_offset_of_slot(pos, i, n);
        vstd::arithmetic::div_mod::lemma_mod_bound(pos + i, n);
    }
    assert(ring_window(after, pos, src.len() as int) == src);
}

/// Laying down bytes leaves every slot at offset `src.len()` or more from
/// `pos` as it was.
pub proof fn lemma_window_outside_put(bytes: Seq<u8>, pos: int, src: Seq<u8>, q: int, len: int)
    requires
        bytes.len() > 0,
        src.len() <= bytes.len(),
        0 <= len,
        forall|i: int| 0 <= i < len ==> #[trigger] ((q + i - pos) % (bytes.len() as int)) >= src.len(),
    ensures
        ring_window(ring_put(bytes, pos, src), q, len) == ring_window(bytes, q, len),
{
    reveal(ring_window);
    reveal(ring_put);
    let n = bytes.len() as int;
    assert forall|i: int| 0 <= i < len implies #[trigger] ring_window(ring_put(bytes, pos, src), q, len)[i]
        == ring_window(bytes, q, len)[i] by {
        vstd::arithmetic::div_mod::lemma_mod_bound(q + i, n);
        lemma_sub_mod_noop_right((q + i) % n, pos, n);
        lemma_sub_mod_noop(q + i, pos, n);
        vstd::arithmetic::div_mod::lemma_mod_twice(q + i, n);
        assert(((q + i - pos) % n) >= src.len());
    }
    assert(ring_window(ring_put(bytes, pos, src), q, len) == ring_window(bytes, q, len));
}


/// Ring windows starting at positions that agree modulo the ring length are
/// the same.
proof fn lemma_window_same_start(bytes: Seq<u8>, a: int, b: int, len: int)
    requires
        bytes.len() > 0,
        a % (bytes.len() as int) == b % (bytes.len() as int),
        0 <= len,
    ensures
        ring_window(bytes, a, len) == ring_window(bytes, b, len),
{
    reveal(ring_window);
    let n = bytes.len() as int;
    assert forall|i: int| 0 <= i < len implies #[trigger] ring_window(bytes, a, len)[i]
        == ring_window(bytes, b, len)[i] by {
        lemma_add_mod_noop_right(i, a, n);
        lemma_add_mod_noop_right(i, b, n);
        assert(i + a == a + i);
        assert(i + b == b + i);
    }
    assert(ring_window(bytes, a, len) == ring_window(bytes, b, len));
}

/// Laying bytes down from positions that agree modulo the ring length gives
/// the same ring.
proof fn lemma_put_same_start(bytes: Seq<u8>, a: int, b: int, src: Seq<u8>)
    requires
        bytes.len() > 0,
        a % (bytes.len() as int) == b % (bytes.len() as int),
    ensures
        ring_put(bytes, a, src) == ring_put(bytes, b, src),
{
    reveal(ring_put);
    let n = bytes.len() as int;
    assert forall|k: int| 0 <= k < n implies #[trigger] ring_put(bytes, a, src)[k] == ring_put(
        bytes,
        b,
        src,
    )[k] by {
        lemma_sub_mod_noop_right(k, a, n);
        lemma_sub_mod_noop_right(k, b, n);
    }
    assert(ring_put(bytes, a, src) == ring_put(bytes, b, src));
}

/// `(p + k) % n` for a position `p` already on the ring, without overflow.
fn wrap_add(p: usize, k: usize, n: usize) -> (res: usize)
    requires
        p < n,
    ensures
        res as int == (p + k) % (n as int),
        res < n,
{
    let k2 = k % n;
    proof {
        lemma_add_mod_noop_right(p as int, k as int, n as int);
    }
    if k2 < n - p {
        proof {
            lemma_small_mod((p + k2) as nat, n as nat);
        }
        p + k2
    } else {
        proof {
            vstd::arithmetic::div_mod::lemma_mod_sub_multiples_vanish((p + k2) as int, n as int);
            lemma_small_mod((p + k2 - n) as nat, n as nat);
        }
        k2 - (n - p)
    }
}

// ---------------------------------------------------------------------------
// The ring buffer
// ---------------------------------------------------------------------------

/// Marks a metadata block written by this library ("ROKER_MD").
pub const METADATA_MAGIC: u64 = 0x524F4B45525F4D44;

/// The layout version of the metadata block.
pub const METADATA_VERSION: u32 = 1;

/// The bytes a region reserves for the metadata block before the ring data.
pub const DATA_OFFSET: usize = 528;

/// The bytes at the start of the metadata block that hold its fields: write
/// position, sequence number, magic number and version.
pub const METADATA_FIELDS_LEN: usize = 28;

/// The bytes in front of every record: its sequence number and its length.
pub const RECORD_HEADER_LEN: usize = 12;

/// The state of a ring buffer: the ring's bytes (as many as the ring is
/// long), the position of the next write, and the next sequence number.
pub struct RingState {
    pub bytes: Seq<u8>,
    pub write_pos: usize,
    pub sequence: u64,
}

/// A record: the sequence number, the payload length as a `u32` (truncated
/// where the payload is longer), and the payload.
pub open spec fn record(sequence: u64, payload: Seq<u8>) -> Seq<u8> {
    u64_le(sequence) + u32_le(payload.len() as u32) + payload
}

/// Whether a record holding `len` payload bytes fits on a ring of `size`
/// bytes: it must be shorter than the ring, since a record as long as the
/// ring would bring the write position back where it was and read as an
/// empty buffer.
pub open spec fn record_fits(size: int, len: int) -> bool {
    RECORD_HEADER_LEN + len < size
}

/// The state after `payload` is written as the next record.
pub open spec fn state_after_write(r: RingState, payload: Seq<u8>) -> RingState {
    let n = r.bytes.len() as int;
    RingState {
        bytes: ring_put(r.bytes, r.write_pos as int, record(r.sequence, payload)),
        write_pos: ((r.write_pos + RECORD_HEADER_LEN + payload.len()) % n) as usize,
        sequence: r.sequence.wrapping_add(1),
    }
}

/// What reading the record at `pos` gives: the payload and the position just
/// after the record, or the reason there is none.
pub open spec fn read_result(r: RingState, pos: usize) -> core::result::Result<(Seq<u8>, usize), ErrorView> {
    let n = r.bytes.len() as int;
    if pos == r.write_pos {
        Err(ErrorView::BufferEmpty)
    } else {
        let len = u32_from_le(ring_window(r.bytes, pos + 8, 4)) as int;
        if len == 0 || len > n {
            Err(ErrorView::InvalidConfig("Invalid message size"@))
        } else {
            Ok((ring_window(r.bytes, pos + RECORD_HEADER_LEN, len), ((pos + RECORD_HEADER_LEN + len) % n) as usize))
        }
    }
}

/// A window inside a window is a window.
proof fn lemma_subwindow(bytes: Seq<u8>, pos: int, len: int, a: int, m: int)
    requires
        0 <= a,
        0 <= m,
        a + m <= len,
    ensures
        ring_window(bytes, pos + a, m) == ring_window(bytes, pos, len).subrange(a, a + m),
{
    reveal(ring_window);
    assert forall|i: int| 0 <= i < m implies #[trigger] ring_window(bytes, pos + a, m)[i]
        == ring_window(bytes, pos, len).subrange(a, a + m)[i] by {
        assert(pos + a + i == pos + (a + i));
    }
    assert(ring_window(bytes, pos + a, m) == ring_window(bytes, pos, len).subrange(a, a + m));
}

/// Advancing a position by less than the ring length, but by something,
/// never lands on the position itself.
proof fn lemma_write_pos_moves(p: int, k: int, n: int)
    requires
        0 <= p,
        0 < k < n,
    ensures
        (p + k) % n != p,
{
    vstd::arithmetic::div_mod::lemma_mod_bound(p + k, n);
    if p < n {
        lemma_add_mod_noop_right(k, p, n);
        lemma_small_mod(p as nat, n as nat);
        assert((k + p) % n == (k + p % n) % n);
        if p + k < n {
            lemma_small_mod((p + k) as nat, n as nat);
        } else {
            vstd::arithmetic::div_mod::lemma_mod_sub_multiples_vanish(p + k, n);
            lemma_small_mod((p + k - n) as nat, n as nat);
        }
    }
}

/// The length and payload fields of a record, read from where it lies.
proof fn lemma_record_fields(bytes: Seq<u8>, p: int, sequence: u64, payload: Seq<u8>)
    requires
        payload.len() <= u32::MAX,
        ring_window(bytes, p, RECORD_HEADER_LEN + payload.len()) == record(sequence, payload),
    ensures
        u32_from_le(ring_window(bytes, p + 8, 4)) as int == payload.len(),
        ring_window(bytes, p + RECORD_HEADER_LEN, payload.len() as int) == payload,
{
    let rec = record(sequence, payload);
    let len = payload.len() as int;
    lemma_subwindow(bytes, p, 12 + len, 8, 4);
    assert(rec.subrange(8, 12) =~= u32_le(len as u32));
    lemma_u32_le_roundtrip(len as u32);
    lemma_subwindow(bytes, p, 12 + len, 12, len);
    assert(rec.subrange(12, 12 + len) =~= payload);
}

/// Reading at the old write position right after a write gives back the
/// payload just written, and the new write position as the next position.
/// The record must fit (see `record_fits`, which `write` checks). A payload
/// of zero bytes reads back as `InvalidConfig` and is left out.
pub proof fn lemma_read_after_write(r: RingState, payload: Seq<u8>)
    requires
        0 < r.bytes.len() <= usize::MAX,
        0 < payload.len() <= u32::MAX,
        RECORD_HEADER_LEN + payload.len() < r.bytes.len(),
    ensures
        read_result(state_after_write(r, payload), r.write_pos) == Ok::<(Seq<u8>, usize), ErrorView>(
            (payload, state_after_write(r, payload).write_pos),
        ),
{
    let n = r.bytes.len() as int;
    let rec = record(r.sequence, payload);
    let after = state_after_write(r, payload);
    let p = r.write_pos as int;
    assert(rec.len() == RECORD_HEADER_LEN + payload.len());
    lemma_window_of_put(r.bytes, p, rec);
    lemma_record_fields(after.bytes, p, r.sequence, payload);
    assert(after.write_pos != r.write_pos) by {
        lemma_write_pos_moves(p, rec.len() as int, n);
    }
}

/// Writing a record leaves a record elsewhere on the ring readable as it
/// was: if none of the slots of the record at `q` (header and payload) lie
/// among the slots the new record takes, and `q` is not the new write
/// position, reading at `q` gives what it gave before.
pub proof fn lemma_write_keeps_other_records(r: RingState, payload: Seq<u8>, q: usize)
    requires
        0 < r.bytes.len() <= usize::MAX,
        record_fits(r.bytes.len() as int, payload.len() as int),
        q != state_after_write(r, payload).write_pos,
        read_result(r, q) is Ok,
        forall|i: int|
            0 <= i < RECORD_HEADER_LEN + read_result(r, q)->Ok_0.0.len() ==> #[trigger] ((q + i
                - r.write_pos) % (r.bytes.len() as int)) >= RECORD_HEADER_LEN + payload.len(),
    ensures
        read_result(state_after_write(r, payload), q) == read_result(r, q),
{
    let rec = record(r.sequence, payload);
    let after = state_after_write(r, payload);
    let len = read_result(r, q)->Ok_0.0.len() as int;
    let whole = RECORD_HEADER_LEN + len;
    lemma_window_len(r.bytes, q + RECORD_HEADER_LEN, u32_from_le(ring_window(r.bytes, q + 8, 4)) as int);
    assert(rec.len() == RECORD_HEADER_LEN + payload.len());
    lemma_window_outside_put(r.bytes, r.write_pos as int, rec, q as int, whole);
    lemma_subwindow(after.bytes, q as int, whole, 8, 4);
    lemma_subwindow(r.bytes, q as int, whole, 8, 4);
    lemma_subwindow(after.bytes, q as int, whole, 12, len);
    lemma_subwindow(r.bytes, q as int, whole, 12, len);
    let n = r.bytes.len() as int;
    let after_len = u32_from_le(ring_window(after.bytes, q + 8, 4)) as int;
    assert(ring_window(after.bytes, q + 8, 4) == ring_window(r.bytes, q + 8, 4));
    assert(after_len == len);
    assert(ring_window(after.bytes, q + RECORD_HEADER_LEN, len) == ring_window(r.bytes, q + RECORD_HEADER_LEN, len));
    assert(after.bytes.len() == r.bytes.len()) by {
        lemma_window_of_put(r.bytes, r.write_pos as int, rec);
    }
}

/// Records come back in the order they were written: after two writes
/// whose records together are shorter than the ring, the first reads back
/// from the old write position, and the second from where the first ends.
pub proof fn lemma_two_writes_in_order(r: RingState, first: Seq<u8>, second: Seq<u8>)
    requires
        0 < r.bytes.len() <= usize::MAX,
        0 < first.len() <= u32::MAX,
        0 < second.len() <= u32::MAX,
        2 * RECORD_HEADER_LEN + first.len() + second.len() < r.bytes.len(),
    ensures
        ({
            let mid = state_after_write(r, first);
            let last = state_after_write(mid, second);
            &&& read_result(last, r.write_pos) == Ok::<(Seq<u8>, usize), ErrorView>((first, mid.write_pos))
            &&& read_result(last, mid.write_pos) == Ok::<(Seq<u8>, usize), ErrorView>(
                (second, last.write_pos),
            )
        }),
{
    let n = r.bytes.len() as int;
    let mid = state_after_write(r, first);
    let last = state_after_write(mid, second);
    let q = r.write_pos as int;
    let ra = RECORD_HEADER_LEN + first.len();
    let rb = RECORD_HEADER_LEN + second.len();
    lemma_read_after_write(r, first);
    lemma_put_len(r.bytes, q, record(r.sequence, first));
    lemma_read_after_write(mid, second);
    // the second record ends before the first begins again
    vstd::arithmetic::div_mod::lemma_mod_bound(q + ra, n);
    lemma_add_mod_noop_right(rb, q + ra, n);
    assert(rb + (q + ra) == q + (ra + rb));
    lemma_write_pos_moves(q, ra + rb, n);
    assert(last.write_pos as int == (q + (ra + rb)) % n);
    assert forall|i: int| 0 <= i < ra implies #[trigger] ((q + i - mid.write_pos) % n) >= rb by {
        lemma_sub_mod_noop_right(q + i, q + ra, n);
        assert(q + i - (q + ra) == i - ra);
        vstd::arithmetic::div_mod::lemma_mod_add_multiples_vanish(i - ra, n);
        lemma_small_mod((i - ra + n) as nat, n as nat);
    }
    lemma_write_keeps_other_records(mid, second, r.write_pos);
}

/// The state after each of `payloads` is written in turn.
pub open spec fn writes(r: RingState, payloads: Seq<Seq<u8>>) -> RingState
    decreases payloads.len(),
{
    if payloads.len() == 0 {
        r
    } else {
        state_after_write(writes(r, payloads.drop_last()), payloads.last())
    }
}

/// The ring bytes the records of `payloads` take: each its header and its
/// payload.
pub open spec fn records_len(payloads: Seq<Seq<u8>>) -> int
    decreases payloads.len(),
{
    if payloads.len() == 0 {
        0
    } else {
        records_len(payloads.drop_last()) + RECORD_HEADER_LEN + payloads.last().len()
    }
}

/// The records of a prefix take no more than the records of the whole.
pub proof fn lemma_records_len_prefix(payloads: Seq<Seq<u8>>, i: int)
    requires
        0 <= i <= payloads.len(),
    ensures
        0 <= records_len(payloads.take(i)) <= records_len(payloads),
        i < payloads.len() ==> records_len(payloads.take(i + 1)) == records_len(payloads.take(i))
            + RECORD_HEADER_LEN + payloads[i].len(),
    decreases payloads.len(),
{
    if i < payloads.len() {
        assert(payloads.take(i + 1).drop_last() =~= payloads.take(i));
    }
    if payloads.len() > 0 {
        if i == payloads.len() {
            assert(payloads.take(i) =~= payloads);
            lemma_records_len_prefix(payloads.drop_last(), 0);
        } else {
            lemma_records_len_prefix(payloads.drop_last(), i);
            assert(payloads.drop_last().take(i) =~= payloads.take(i));
            if i + 1 < payloads.len() {
                assert(payloads.drop_last().take(i + 1) =~= payloads.take(i + 1));
            }
        }
    } else {
        assert(payloads.take(i) =~= payloads);
    }
}

/// Writes keep the ring's length and move the write position by the
/// records written.
pub proof fn lemma_writes_position(r: RingState, payloads: Seq<Seq<u8>>)
    requires
        0 < r.bytes.len() <= usize::MAX,
    ensures
        writes(r, payloads).bytes.len() == r.bytes.len(),
        payloads.len() > 0 ==> writes(r, payloads).write_pos as int == (r.write_pos + records_len(
            payloads,
        )) % (r.bytes.len() as int),
    decreases payloads.len(),
{
    if payloads.len() > 0 {
        let qs = payloads.drop_last();
        let p = payloads.last();
        let s = writes(r, qs);
        lemma_writes_position(r, qs);
        let n = r.bytes.len() as int;
        lemma_put_len(s.bytes, s.write_pos as int, record(s.sequence, p));
        vstd::arithmetic::div_mod::lemma_mod_bound(s.write_pos + RECORD_HEADER_LEN + p.len(), n);
        assert(records_len(payloads) == records_len(qs) + RECORD_HEADER_LEN + p.len());
        if qs.len() == 0 {
            assert(records_len(qs) == 0);
        }
        if qs.len() > 0 {
            lemma_add_mod_noop_right(
                RECORD_HEADER_LEN + p.len(),
                r.write_pos + records_len(qs),
                n,
            );
            assert(RECORD_HEADER_LEN + p.len() + (r.write_pos + records_len(qs)) == r.write_pos
                + records_len(payloads));
            assert((RECORD_HEADER_LEN + p.len() + s.write_pos) == s.write_pos + RECORD_HEADER_LEN
                + p.len());
        }
    }
}

/// The distance, going forward around the ring, from the write position
/// to a slot of an earlier record.
proof fn lemma_slot_gap(q: int, w0: int, a: int, b: int, k: int, n: int)
    requires
        n > 0,
        q % n == (w0 + a) % n,
        0 <= k,
        a + k < b,
        b - a - k < n,
    ensures
        (q + k - (w0 + b) % n) % n == n + a + k - b,
{
    lemma_sub_mod_noop_right(q + k, w0 + b, n);
    lemma_sub_mod_noop(q, w0 + a, n);
    vstd::arithmetic::div_mod::lemma_mod_self_0(n);
    assert((q % n - (w0 + a) % n) == 0);
    vstd::arithmetic::div_mod::lemma_small_mod(0, n as nat);
    vstd::arithmetic::div_mod::lemma_add_mod_noop(q - (w0 + a), a + k - b, n);
    assert(q - (w0 + a) + (a + k - b) == q + k - (w0 + b));
    vstd::arithmetic::div_mod::lemma_mod_twice(a + k - b, n);
    vstd::arithmetic::div_mod::lemma_mod_add_multiples_vanish(a + k - b, n);
    lemma_small_mod((n + a + k - b) as nat, n as nat);
}

/// A position where an earlier record starts is not where the last one
/// ends.
proof fn lemma_start_is_not_end(q: int, w0: int, a: int, b: int, n: int)
    requires
        n > 0,
        0 <= q,
        q % n == (w0 + a) % n,
        0 <= a < b,
        b - a < n,
    ensures
        q != (w0 + b) % n,
{
    vstd::arithmetic::div_mod::lemma_mod_bound(w0 + b, n);
    if q < n {
        lemma_small_mod(q as nat, n as nat);
        lemma_slot_gap(q, w0, a, b, 0, n);
        if q == (w0 + b) % n {
            vstd::arithmetic::div_mod::lemma_mod_self_0(n);
            vstd::arithmetic::div_mod::lemma_small_mod(0, n as nat);
            assert((q + 0 - (w0 + b) % n) == 0);
        }
    }
}

/// Records come back in the order they were written, however many: after
/// writing `payloads` in turn, where their records together are shorter
/// than the ring, reading at the write position each write started from
/// gives that write's payload and the position the next write started
/// from; the last of these is the write position, where the ring reads as
/// empty. (Empty payloads read back as `InvalidConfig` and are left out.)
pub proof fn lemma_writes_read_back(r: RingState, payloads: Seq<Seq<u8>>)
    requires
        0 < r.bytes.len() <= usize::MAX,
        forall|i: int| 0 <= i < payloads.len() ==> 0 < #[trigger] payloads[i].len() <= u32::MAX,
        records_len(payloads) < r.bytes.len(),
    ensures
        forall|i: int|
            0 <= i < payloads.len() ==> read_result(writes(r, payloads), #[trigger] writes(
                r,
                payloads.take(i),
            ).write_pos) == Ok::<(Seq<u8>, usize), ErrorView>(
                (payloads[i], writes(r, payloads.take(i + 1)).write_pos),
            ),
        read_result(writes(r, payloads), writes(r, payloads).write_pos) == Err::<(Seq<u8>, usize), ErrorView>(
            ErrorView::BufferEmpty,
        ),
    decreases payloads.len(),
{
    if payloads.len() > 0 {
        let n = r.bytes.len() as int;
        let qs = payloads.drop_last();
        let p = payloads.last();
        let s = writes(r, qs);
        let last = writes(r, payloads);
        lemma_records_len_prefix(payloads, qs.len() as int);
        assert(payloads.take(qs.len() as int) =~= qs);
        assert forall|i: int| 0 <= i < qs.len() implies 0 < #[trigger] qs[i].len() <= u32::MAX by {
            assert(qs[i] == payloads[i]);
        }
        lemma_writes_read_back(r, qs);
        lemma_writes_position(r, qs);
        lemma_writes_position(r, payloads);
        let lq = records_len(qs);
        let lp = records_len(payloads);
        assert(lp == lq + RECORD_HEADER_LEN + p.len());
        assert(payloads[qs.len() as int] == p);
        assert forall|i: int| 0 <= i < payloads.len() implies read_result(last, #[trigger] writes(
            r,
            payloads.take(i),
        ).write_pos) == Ok::<(Seq<u8>, usize), ErrorView>(
            (payloads[i], writes(r, payloads.take(i + 1)).write_pos),
        ) by {
            if i == qs.len() {
                assert(payloads.take(i) =~= qs);
                assert(payloads.take(i + 1) =~= payloads);
                lemma_read_after_write(s, p);
            } else {
                assert(payloads.take(i) =~= qs.take(i));
                assert(payloads.take(i + 1) =~= qs.take(i + 1));
                assert(payloads[i] == qs[i]);
                let q = writes(r, qs.take(i)).write_pos;
                let li = records_len(qs.take(i));
                lemma_records_len_prefix(qs, i);
                lemma_records_len_prefix(qs, i + 1);
                lemma_writes_position(r, qs.take(i));
                let len_i = read_result(s, q)->Ok_0.0.len() as int;
                assert(len_i == qs[i].len());
                assert(q as int % n == (r.write_pos + li) % n) by {
                    if i == 0 {
                        assert(qs.take(0) =~= Seq::<Seq<u8>>::empty());
                        assert(li == 0);
                    } else {
                        vstd::arithmetic::div_mod::lemma_mod_twice(r.write_pos + li, n);
                    }
                }
                assert forall|k: int| 0 <= k < RECORD_HEADER_LEN + len_i implies #[trigger] ((q + k
                    - s.write_pos) % n) >= RECORD_HEADER_LEN + p.len() by {
                    lemma_slot_gap(q as int, r.write_pos as int, li, lq, k, n);
                }
                // the new write position is not `q`
                assert(last.write_pos as int == (r.write_pos + lp) % n);
                lemma_start_is_not_end(q as int, r.write_pos as int, li, lp, n);
                lemma_write_keeps_other_records(s, p, q);
            }
        }
        lemma_write_pos_moves(s.write_pos as int, RECORD_HEADER_LEN + p.len(), n);
    }
}

/// The metadata block in front of the ring data: write position, next
/// sequence number, magic number and layout version, little-endian, padded
/// with zeros to `DATA_OFFSET` bytes.
pub open spec fn metadata_block(write_pos: usize, sequence: u64) -> Seq<u8> {
    u64_le(write_pos as u64) + u64_le(sequence) + u64_le(METADATA_MAGIC) + u32_le(METADATA_VERSION)
        + Seq::new((DATA_OFFSET - 28) as nat, |i: int| 0u8)
}

/// The region that holds the ring `r`: its metadata block, then its bytes.
pub open spec fn region_of(r: RingState) -> Seq<u8> {
    metadata_block(r.write_pos, r.sequence) + r.bytes
}

/// What opening a region as a ring of `size` bytes gives. The fields of the
/// metadata block are read first: unless `initialize` is set, a region that
/// holds them (`METADATA_FIELDS_LEN` bytes) must carry this library's magic
/// number and version, or it is refused with `InvalidConfig`, whatever its
/// size. Then a region too short for the whole block, a `size` of zero (a
/// ring of no bytes holds no record), or a region too short for the block
/// and `size` bytes is refused with `InvalidBufferSize`. Without
/// `initialize` the write position and sequence number are taken from the
/// block; with it both start at zero. The ring's bytes are the `size` bytes
/// after the block.
pub open spec fn open_result(region: Seq<u8>, size: usize, initialize: bool) -> core::result::Result<RingState, ErrorView> {
    if !initialize && region.len() >= METADATA_FIELDS_LEN && u64_from_le(region.subrange(16, 24))
        != METADATA_MAGIC {
        Err(ErrorView::InvalidConfig("Invalid metadata magic number"@))
    } else if !initialize && region.len() >= METADATA_FIELDS_LEN && u32_from_le(
        region.subrange(24, 28),
    ) != METADATA_VERSION {
        Err(ErrorView::InvalidConfig("Incompatible metadata version"@))
    } else if region.len() < DATA_OFFSET || size == 0 || region.len() < DATA_OFFSET + size {
        Err(ErrorView::InvalidBufferSize)
    } else {
        Ok(
            RingState {
                bytes: region.subrange(DATA_OFFSET as int, DATA_OFFSET + size),
                write_pos: if initialize {
                    0
                } else {
                    u64_from_le(region.subrange(0, 8)) as usize
                },
                sequence: if initialize {
                    0
                } else {
                    u64_from_le(region.subrange(8, 16))
                },
            },
        )
    }
}

fn read_u64_le(region: &[u8], at: usize) -> (res: u64)
    requires
        at + 8 <= region@.len(),
    ensures
        res == u64_from_le(region@.subrange(at as int, at + 8)),
{
    region[at] as u64 | (region[at + 1] as u64) << 8u64 | (region[at + 2] as u64) << 16u64 | (
    region[at + 3] as u64) << 24u64 | (region[at + 4] as u64) << 32u64 | (region[at + 5] as u64)
        << 40u64 | (region[at + 6] as u64) << 48u64 | (region[at + 7] as u64) << 56u64
}

fn read_u32_le(region: &[u8], at: usize) -> (res: u32)
    requires
        at + 4 <= region@.len(),
    ensures
        res == u32_from_le(region@.subrange(at as int, at + 4)),
{
    region[at] as u32 | (region[at + 1] as u32) << 8u32 | (region[at + 2] as u32) << 16u32 | (
    region[at + 3] as u32) << 24u32
}

/// Opening the region of a ring, without initializing, gives the ring back.
#[verifier::spinoff_prover]
pub proof fn lemma_reopen_region(r: RingState)
    requires
        0 < r.bytes.len() <= usize::MAX,
    ensures
        open_result(region_of(r), r.bytes.len() as usize, false) == Ok::<RingState, ErrorView>(r),
{
    let region = region_of(r);
    let size = r.bytes.len() as usize;
    let block = metadata_block(r.write_pos, r.sequence);
    assert(block.len() == DATA_OFFSET);
    assert(region.len() == DATA_OFFSET + size);
    assert(region.subrange(16, 24) == u64_le(METADATA_MAGIC));
    lemma_u64_le_roundtrip(METADATA_MAGIC);
    assert(region.subrange(24, 28) == u32_le(METADATA_VERSION));
    lemma_u32_le_roundtrip(METADATA_VERSION);
    assert(region.subrange(0, 8) == u64_le(r.write_pos as u64));
    lemma_u64_le_roundtrip(r.write_pos as u64);
    assert(region.subrange(8, 16) == u64_le(r.sequence));
    lemma_u64_le_roundtrip(r.sequence);
    assert(region.subrange(DATA_OFFSET as int, DATA_OFFSET + size) == r.bytes);
}

/// A ring of bytes holding length-prefixed records, written one after the
/// other and wrapping around at the end.
pub struct RingBuffer {
    data: Vec<u8>,
    write_pos: usize,
    sequence: u64,
}

impl View for RingBuffer {
    type V = RingState;

    closed spec fn view(&self) -> RingState {
        RingState { bytes: self.data@, write_pos: self.write_pos, sequence: self.sequence }
    }
}

impl RingBuffer {
    /// The ring is not empty.
    pub closed spec fn wf(&self) -> bool {
        self.data@.len() > 0
    }

    pub proof fn lemma_wf(&self)
        requires
            self.wf(),
        ensures
            self@.bytes.len() > 0,
    {
    }

    /// Opens `region` as a ring of `size` bytes: see `open_result`.
    pub fn from_raw_parts(region: &[u8], size: usize, initialize: bool) -> (res: Result<RingBuffer>)
        ensures
            match res {
                Ok(ring) => ring.wf() && open_result(region@, size, initialize) == Ok::<RingState, ErrorView>(ring@),
                Err(e) => open_result(region@, size, initialize) == Err::<RingState, ErrorView>(e@),
            },
    {
        if !initialize && region.len() >= METADATA_FIELDS_LEN {
            if read_u64_le(region, 16) != METADATA_MAGIC {
                return Err(Error::InvalidConfig("Invalid metadata magic number".to_string()));
            }
            if read_u32_le(region, 24) != METADATA_VERSION {
                return Err(Error::InvalidConfig("Incompatible metadata version".to_string()));
            }
        }
        if region.len() < DATA_OFFSET || size == 0 || region.len() - DATA_OFFSET < size {
            return Err(Error::InvalidBufferSize);
        }
        let mut write_pos: usize = 0;
        let mut sequence: u64 = 0;
        if !initialize {
            write_pos = #[verifier::truncate] (read_u64_le(region, 0) as usize);
            sequence = read_u64_le(region, 8);
        }
        let mut data: Vec<u8> = Vec::with_capacity(size);
        let mut i: usize = 0;
        while i < size
            invariant
                i <= size,
                DATA_OFFSET + size <= region.len(),
                data@ == region@.subrange(DATA_OFFSET as int, DATA_OFFSET + i),
            decreases size - i,
        {
            data.push(region[DATA_OFFSET + i]);
            i = i + 1;
            assert(data@ == region@.subrange(DATA_OFFSET as int, DATA_OFFSET + i));
        }
        Ok(RingBuffer { data, write_pos, sequence })
    }

    /// The region that holds this ring: see `region_of`.
    pub fn region(&self) -> (res: Vec<u8>)
        ensures
            res@ == region_of(self@),
    {
        let mut out: Vec<u8> = Vec::new();
        push_u64_le(&mut out, self.write_pos as u64);
        push_u64_le(&mut out, self.sequence);
        push_u64_le(&mut out, METADATA_MAGIC);
        push_u32_le(&mut out, METADATA_VERSION);
        let mut i: usize = 28;
        while i < DATA_OFFSET
            invariant
                28 <= i <= DATA_OFFSET,
                out@ == u64_le(self.write_pos as u64) + u64_le(self.sequence) + u64_le(METADATA_MAGIC)
                    + u32_le(METADATA_VERSION) + Seq::new((i - 28) as nat, |k: int| 0u8),
            decreases DATA_OFFSET - i,
        {
            out.push(0u8);
            i = i + 1;
            assert(out@ == u64_le(self.write_pos as u64) + u64_le(self.sequence) + u64_le(METADATA_MAGIC)
                + u32_le(METADATA_VERSION) + Seq::new((i - 28) as nat, |k: int| 0u8));
        }
        out.extend_from_slice(self.data.as_slice());
        out
    }

    /// The number of bytes on the ring.
    pub fn size(&self) -> (res: usize)
        ensures
            res == self@.bytes.len(),
    {
        self.data.len()
    }

    /// The position of the next write.
    pub fn write_pos(&self) -> (res: usize)
        ensures
            res == self@.write_pos,
    {
        self.write_pos
    }

    /// The oldest position any reader may still read from; readers are not
    /// tracked, so it is the start of the ring.
    pub fn oldest_read_pos(&self) -> (res: usize)
        ensures
            res == 0,
    {
        0
    }

    /// The bytes of the ring in front of the write position, counted from the
    /// oldest read position.
    pub fn used_bytes(&self) -> (res: usize)
        ensures
            res == self@.write_pos,
    {
        self.write_pos - self.oldest_read_pos()
    }

    fn read_window(&self, at: usize, len: usize) -> (res: Vec<u8>)
        requires
            self.wf(),
            at < self@.bytes.len(),
        ensures
            res@ == ring_window(self@.bytes, at as int, len as int),
            res@.len() == len,
    {
        let n = self.data.len();
        let mut out: Vec<u8> = Vec::with_capacity(len);
        let mut idx = at;
        let mut i: usize = 0;
        proof {
            reveal(ring_window);
            lemma_small_mod(at as nat, n as nat);
        }
        while i < len
            invariant
                out@.len() == i,
                n == self.data@.len(),
                n > 0,
                i <= len,
                idx < n,
                idx as int == (at + i) % (n as int),
                out@ == ring_window(self.data@, at as int, i as int),
            decreases len - i,
        {
            out.push(self.data[idx]);
            proof {
                reveal(ring_window);
                lemma_mod_step(at + i, n as int);
            }
            idx = if idx + 1 == n { 0 } else { idx + 1 };
            i = i + 1;
            assert(out@ == ring_window(self.data@, at as int, i as int));
        }
        out
    }

    fn put(&mut self, at: usize, src: &Vec<u8>)
        requires
            old(self).wf(),
            at < old(self)@.bytes.len(),
            src@.len() <= old(self)@.bytes.len(),
        ensures
            final(self).wf(),
            final(self)@ == (RingState { bytes: ring_put(old(self)@.bytes, at as int, src@), ..old(self)@ }),
    {
        let n = self.data.len();
        let ghost before = self.data@;
        let mut idx = at;
        let mut i: usize = 0;
        proof {
            lemma_small_mod(at as nat, n as nat);
            reveal(ring_put);
            assert(ring_put(before, at as int, src@.take(0)) == before);
        }
        while i < src.len()
            invariant
                n == self.data@.len(),
                n == before.len(),
                n > 0,
                src@.len() <= n,
                i <= src@.len(),
                idx < n,
                idx as int == (at + i) % (n as int),
                self.data@ == ring_put(before, at as int, src@.take(i as int)),
                self.write_pos == old(self).write_pos,
                self.sequence == old(self).sequence,
            decreases src@.len() - i,
        {
            self.data.set(idx, src[i]);
            proof {
                reveal(ring_put);
                let next = ring_put(before, at as int, src@.take(i + 1));
                assert forall|k: int| 0 <= k < n implies #[trigger] self.data@[k] == next[k] by {
                    lemma_slot_of_offset(at as int, i as int, k, n as int);
                }
                assert(self.data@ == next);
                lemma_mod_step(at + i, n as int);
            }
            idx = if idx + 1 == n { 0 } else { idx + 1 };
            i = i + 1;
        }
        assert(src@.take(src@.len() as int) == src@);
    }

    /// Writes `data` as the next record: its sequence number, its length and
    /// the bytes themselves, from the write position on, wrapping around at
    /// the end of the ring. A record that would not fit on the ring (its
    /// header and payload as long as the ring or longer) is refused with
    /// `BufferFull` and nothing changes.
    pub fn write(&mut self, data: &[u8]) -> (res: Result<()>)
        requires
            old(self).wf(),
        ensures
            final(self).wf(),
            record_fits(old(self)@.bytes.len() as int, data@.len() as int) ==> {
                &&& res is Ok
                &&& final(self)@ == state_after_write(old(self)@, data@)
            },
            !record_fits(old(self)@.bytes.len() as int, data@.len() as int) ==> {
                &&& res matches Err(e) && e@ == ErrorView::BufferFull
                &&& final(self)@ == old(self)@
            },
    {
        let n = self.data.len();
        if data.len() >= n || n - data.len() <= RECORD_HEADER_LEN {
            return Err(Error::BufferFull);
        }
        let ghost before = self@;
        let sequence = self.sequence;
        let mut rec: Vec<u8> = Vec::with_capacity(RECORD_HEADER_LEN + data.len());
        push_u64_le(&mut rec, sequence);
        push_u32_le(&mut rec, data.len() as u32);
        rec.extend_from_slice(data);
        assert(rec@ == record(sequence, data@));
        let start = self.write_pos % n;
        self.put(start, &rec);
        proof {
            vstd::arithmetic::div_mod::lemma_mod_twice(before.write_pos as int, n as int);
            lemma_put_same_start(before.bytes, start as int, before.write_pos as int, rec@);
            lemma_add_mod_noop_right(rec@.len() as int, before.write_pos as int, n as int);
        }
        self.write_pos = wrap_add(start, rec.len(), n);
        self.sequence = sequence.wrapping_add(1);
        assert(self.write_pos as int == (before.write_pos + RECORD_HEADER_LEN + data@.len()) % (n as int));
        Ok(())
    }

    /// Reads the record at `read_pos`: its payload and the position just
    /// after it. There is none where `read_pos` is the write position
    /// (`BufferEmpty`); a length of zero or more than the ring holds is
    /// refused (`InvalidConfig`).
    pub fn read_message(&self, read_pos: usize) -> (res: Result<(Vec<u8>, usize)>)
        requires
            self.wf(),
        ensures
            match res {
                Ok((bytes, next)) => read_result(self@, read_pos) == Ok::<(Seq<u8>, usize), ErrorView>((bytes@, next)),
                Err(e) => read_result(self@, read_pos) == Err::<(Seq<u8>, usize), ErrorView>(e@),
            },
    {
        let n = self.data.len();
        if read_pos == self.write_pos {
            return Err(Error::BufferEmpty);
        }
        let start = read_pos % n;
        let len_at = wrap_add(start, 8, n);
        let len_bytes = self.read_window(len_at, 4);
        proof {
            vstd::arithmetic::div_mod::lemma_mod_twice(read_pos as int, n as int);
            lemma_add_mod_noop_right(8, read_pos as int, n as int);
            lemma_small_mod(len_at as nat, n as nat);
            assert(8 + (read_pos as int) % (n as int) == start + 8);
            assert(8 + read_pos == read_pos + 8);
            lemma_window_same_start(self.data@, len_at as int, read_pos + 8, 4);
        }
        let data_len = (len_bytes[0] as u32 | (len_bytes[1] as u32) << 8u32 | (len_bytes[2] as u32) << 16u32
            | (len_bytes[3] as u32) << 24u32) as usize;
        if data_len == 0 || data_len > n {
            return Err(Error::InvalidConfig("Invalid message size".to_string()));
        }
        let data_at = wrap_add(start, RECORD_HEADER_LEN, n);
        let data = self.read_window(data_at, data_len);
        let next = wrap_add(data_at, data_len, n);
        proof {
            lemma_add_mod_noop_right(RECORD_HEADER_LEN as int, read_pos as int, n as int);
            lemma_small_mod(data_at as nat, n as nat);
            assert(RECORD_HEADER_LEN + (read_pos as int) % (n as int) == start + RECORD_HEADER_LEN);
            assert(RECORD_HEADER_LEN + read_pos == read_pos + RECORD_HEADER_LEN);
            lemma_window_same_start(self.data@, data_at as int, read_pos + RECORD_HEADER_LEN, data_len as int);
            lemma_add_mod_noop_right(data_len as int, read_pos + RECORD_HEADER_LEN, n as int);
        }
        Ok((data, next))
    }
}

} // verus!
