//! The ring as mathematics: frame sizes, positions that wrap, the bytes of a
//! frame, and the messages that lie between two indices.
//!
//! A ring is a byte sequence `data` of length `n`, a multiple of four. Indices
//! are multiples of four below `n`; positions past the end continue at zero.

use vstd::arithmetic::div_mod::lemma_fundamental_div_mod_converse;
use vstd::prelude::*;

verus! {

/// The number of bytes that a payload of `len` bytes takes once padded to a
/// multiple of four.
pub open spec fn padded_len(len: int) -> int {
    len + (4 - len % 4) % 4
}

/// The number of ring bytes that a message of `len` bytes takes: header,
/// payload and padding.
pub open spec fn frame_len(len: int) -> int {
    4 + padded_len(len)
}

/// The bytes that may still be written when the reader stands at `rd` and the
/// writer at `wr`: one byte of the ring always stays unused.
pub open spec fn free_space(rd: int, wr: int, n: int) -> int {
    (rd - wr - 1) % n
}

/// The bytes written and not yet read.
pub open spec fn used_space(rd: int, wr: int, n: int) -> int {
    (wr - rd) % n
}

/// Whether `idx` can be an index of a ring of `n` bytes.
pub open spec fn valid_index(idx: int, n: int) -> bool {
    0 <= idx < n && idx % 4 == 0
}

/// Whether `n` can be the length of a ring.
pub open spec fn valid_len(n: int) -> bool {
    n > 0 && n % 4 == 0
}

/// The position `k` bytes after `at`, for `k` of at most one turn.
pub open spec fn ring_at(at: int, k: int, n: int) -> int {
    if at + k < n {
        at + k
    } else {
        at + k - n
    }
}

/// How many bytes after `at` the position `i` lies.
pub open spec fn offset_from(at: int, i: int, n: int) -> int {
    if i >= at {
        i - at
    } else {
        i - at + n
    }
}

/// The frame of a message as it lies in the ring: the length in two bytes,
/// most significant first, two reserved bytes, the payload, and zero bytes up
/// to a multiple of four.
pub open spec fn frame(msg: Seq<u8>) -> Seq<u8> {
    Seq::new(
        frame_len(msg.len() as int) as nat,
        |k: int|
            if k == 0 {
                (msg.len() / 256) as u8
            } else if k == 1 {
                (msg.len() % 256) as u8
            } else if 4 <= k < 4 + msg.len() {
                msg[k - 4]
            } else {
                0u8
            },
    )
}

/// The bytes after `bytes` were copied to position `at`, in one piece.
pub open spec fn overwrite(data: Seq<u8>, at: int, bytes: Seq<u8>) -> Seq<u8> {
    Seq::new(
        data.len(),
        |i: int|
            if at <= i < at + bytes.len() {
                bytes[i - at]
            } else {
                data[i]
            },
    )
}

/// The ring after `bytes` were written from position `at` on, wrapping at the
/// end.
pub open spec fn ring_write(data: Seq<u8>, at: int, bytes: Seq<u8>) -> Seq<u8> {
    Seq::new(
        data.len(),
        |i: int|
            if offset_from(at, i, data.len() as int) < bytes.len() {
                bytes[offset_from(at, i, data.len() as int)]
            } else {
                data[i]
            },
    )
}

/// The `count` bytes found from position `at` on, wrapping at the end.
pub open spec fn ring_read(data: Seq<u8>, at: int, count: int) -> Seq<u8> {
    Seq::new(count as nat, |k: int| data[ring_at(at, k, data.len() as int)])
}

/// The payload length that the header at `at` announces.
pub open spec fn header_len(data: Seq<u8>, at: int) -> int {
    data[at] * 256 + data[at + 1]
}

/// The payload of the frame whose header stands at `at`.
pub open spec fn payload_at(data: Seq<u8>, at: int) -> Seq<u8> {
    ring_read(data, ring_at(at, 4, data.len() as int), header_len(data, at))
}

/// The ring's bytes in the order in which they are met from `at` on, for one
/// turn.
pub open spec fn unrolled(data: Seq<u8>, at: int) -> Seq<u8> {
    Seq::new(data.len(), |j: int| data[ring_at(at, j, data.len() as int)])
}

/// The messages whose frames fill `bytes` exactly from `from` up to `to`, oldest
/// first; `None` where those bytes are not a row of whole frames.
pub open spec fn frames(bytes: Seq<u8>, from: int, to: int) -> Option<Seq<Seq<u8>>>
    decreases to - from,
{
    let len = bytes[from] * 256 + bytes[from + 1];
    if from > to {
        None
    } else if from == to {
        Some(Seq::empty())
    } else if from + frame_len(len) > to {
        None
    } else {
        match frames(bytes, from + frame_len(len), to) {
            Some(rest) => Some(seq![bytes.subrange(from + 4, from + 4 + len)] + rest),
            None => None,
        }
    }
}

/// The messages queued in a ring whose reader stands at `rd` and whose writer
/// stands at `wr`; `None` where an index is out of place or the bytes from the
/// one to the other are not whole frames.
pub open spec fn queued(data: Seq<u8>, rd: int, wr: int) -> Option<Seq<Seq<u8>>> {
    let n = data.len() as int;
    if valid_len(n) && valid_index(rd, n) && valid_index(wr, n) {
        frames(unrolled(data, rd), 0, offset_from(rd, wr, n))
    } else {
        None
    }
}

/// A position one turn or less ahead is the sum modulo the ring's length.
pub proof fn lemma_ring_at_mod(at: int, k: int, n: int)
    requires
        0 <= at < n,
        0 <= k <= n,
    ensures
        ring_at(at, k, n) == (at + k) % n,
        0 <= ring_at(at, k, n) < n,
{
    if at + k < n {
        lemma_fundamental_div_mod_converse(at + k, n, 0, at + k);
    } else {
        lemma_fundamental_div_mod_converse(at + k, n, 1, at + k - n);
    }
}

/// Two steps of one turn or less each lead to the sum modulo the ring's length.
pub proof fn lemma_ring_at_twice(at: int, a: int, b: int, n: int)
    requires
        0 <= at < n,
        0 <= a <= n,
        0 <= b <= n,
    ensures
        ring_at(ring_at(at, a, n), b, n) == (at + a + b) % n,
        0 <= ring_at(ring_at(at, a, n), b, n) < n,
{
    let r = ring_at(ring_at(at, a, n), b, n);
    if at + a + b < n {
        lemma_fundamental_div_mod_converse(at + a + b, n, 0, r);
    } else if at + a + b < 2 * n {
        lemma_fundamental_div_mod_converse(at + a + b, n, 1, r);
    } else {
        lemma_fundamental_div_mod_converse(at + a + b, n, 2, r);
    }
}

/// The distance between two positions of the ring is the difference modulo the
/// ring's length.
pub proof fn lemma_offset_from_mod(at: int, i: int, n: int)
    requires
        0 <= at < n,
        0 <= i < n,
    ensures
        offset_from(at, i, n) == (i - at) % n,
        0 <= offset_from(at, i, n) < n,
{
    if i >= at {
        lemma_fundamental_div_mod_converse(i - at, n, 0, i - at);
    } else {
        lemma_fundamental_div_mod_converse(i - at, n, -1, i - at + n);
    }
}

/// Used and free bytes add up to the ring's length less the one byte that is
/// never written.
pub proof fn lemma_free_plus_used(rd: int, wr: int, n: int)
    requires
        0 <= rd < n,
        0 <= wr < n,
    ensures
        free_space(rd, wr, n) + used_space(rd, wr, n) == n - 1,
        used_space(rd, wr, n) == offset_from(rd, wr, n),
        0 <= free_space(rd, wr, n) < n,
{
    lemma_offset_from_mod(rd, wr, n);
    if rd > wr {
        lemma_fundamental_div_mod_converse(rd - wr - 1, n, 0, rd - wr - 1);
    } else {
        lemma_fundamental_div_mod_converse(rd - wr - 1, n, -1, rd - wr - 1 + n);
    }
}

/// Rows of frames in equal bytes are equal, wherever the bytes lie.
proof fn lemma_frames_same(a: Seq<u8>, b: Seq<u8>, shift: int, from: int, to: int)
    requires
        0 <= from,
        0 <= from + shift,
        to <= b.len(),
        to + shift <= a.len(),
        forall|j: int| from <= j < to ==> a[j + shift] == b[j],
    ensures
        frames(a, from + shift, to + shift) == frames(b, from, to),
    decreases to - from,
{
    if from + 1 == to {
        // One byte holds no frame, whatever length its header seems to announce.
        lemma_padded_len(a[from + shift] * 256 + a[from + shift + 1]);
        lemma_padded_len(b[from] * 256 + b[from + 1]);
    } else if from < to {
        let len = b[from] * 256 + b[from + 1];
        let next = from + frame_len(len);
        assert(a[from + shift] == b[from]);
        assert(a[from + 1 + shift] == b[from + 1]);
        if next <= to {
            lemma_frames_same(a, b, shift, next, to);
            assert(a.subrange(from + shift + 4, from + shift + 4 + len) =~= b.subrange(
                from + 4,
                from + 4 + len,
            ));
        }
    }
}

/// A row of whole frames with one more frame behind it is the row with that
/// frame's message at its end.
proof fn lemma_frames_append(bytes: Seq<u8>, from: int, to: int, msg: Seq<u8>)
    requires
        0 <= from,
        frames(bytes, from, to) is Some,
        to + frame_len(msg.len() as int) <= bytes.len(),
        bytes[to] * 256 + bytes[to + 1] == msg.len(),
        bytes.subrange(to + 4, to + 4 + msg.len()) == msg,
    ensures
        frames(bytes, from, to + frame_len(msg.len() as int)) == Some(
            frames(bytes, from, to).unwrap().push(msg),
        ),
    decreases to - from,
{
    let f = frame_len(msg.len() as int);
    if from == to {
        assert(frames(bytes, to + f, to + f) == Some(Seq::<Seq<u8>>::empty()));
        assert(seq![msg] + Seq::<Seq<u8>>::empty() =~= Seq::<Seq<u8>>::empty().push(msg));
    } else {
        let len = bytes[from] * 256 + bytes[from + 1];
        let next = from + frame_len(len);
        lemma_frames_append(bytes, next, to, msg);
        let first = bytes.subrange(from + 4, from + 4 + len);
        let rest = frames(bytes, next, to).unwrap();
        assert(seq![first] + rest.push(msg) =~= (seq![first] + rest).push(msg));
    }
}

/// A row of frames holds no message exactly if it takes no bytes.
proof fn lemma_frames_empty(bytes: Seq<u8>, from: int, to: int)
    requires
        frames(bytes, from, to) is Some,
    ensures
        from <= to,
        frames(bytes, from, to).unwrap().len() == 0 <==> from == to,
{
}

/// The frame written at `wr` is found there again: its header announces the
/// message's length, and its payload is the message.
pub proof fn lemma_written_frame(data: Seq<u8>, wr: int, msg: Seq<u8>)
    requires
        valid_len(data.len() as int),
        valid_index(wr, data.len() as int),
        msg.len() <= 65535,
        frame_len(msg.len() as int) < data.len(),
    ensures
        header_len(ring_write(data, wr, frame(msg)), wr) == msg.len(),
        payload_at(ring_write(data, wr, frame(msg)), wr) == msg,
{
    let n = data.len() as int;
    let after = ring_write(data, wr, frame(msg));
    lemma_padded_len(msg.len() as int);
    assert(offset_from(wr, wr, n) == 0);
    assert(offset_from(wr, wr + 1, n) == 1);
    assert(after[wr] == frame(msg)[0]);
    assert(after[wr + 1] == frame(msg)[1]);
    let hi = (msg.len() / 256) as u8;
    let lo = (msg.len() % 256) as u8;
    assert(hi * 256 + lo == msg.len());
    let start = ring_at(wr, 4, n);
    assert forall|k: int| 0 <= k < msg.len() implies after[ring_at(start, k, n)] == msg[k] by {
        let p = ring_at(start, k, n);
        assert(offset_from(wr, p, n) == 4 + k);
        assert(frame(msg)[4 + k] == msg[k]);
    }
    assert(payload_at(after, wr) =~= msg);
}

/// The first frame of the unrolled ring is the frame at the index from which it
/// was unrolled.
proof fn lemma_unrolled_frame(data: Seq<u8>, at: int)
    requires
        valid_len(data.len() as int),
        valid_index(at, data.len() as int),
        frame_len(header_len(data, at)) <= data.len(),
    ensures
        unrolled(data, at)[0] * 256 + unrolled(data, at)[1] == header_len(data, at),
        unrolled(data, at).subrange(4, 4 + header_len(data, at)) == payload_at(data, at),
{
    let n = data.len() as int;
    let len = header_len(data, at);
    let u = unrolled(data, at);
    lemma_padded_len(len);
    assert(u[0] == data[at]);
    assert(u[1] == data[at + 1]);
    assert forall|k: int| 0 <= k < len implies u[4 + k] == data[ring_at(ring_at(at, 4, n), k, n)] by {
        assert(ring_at(at, 4 + k, n) == ring_at(ring_at(at, 4, n), k, n));
    }
    assert(u.subrange(4, 4 + len) =~= payload_at(data, at));
}

/// Bytes written behind the `used` bytes from `rd` on leave those as they were.
proof fn lemma_unrolled_kept(data: Seq<u8>, rd: int, used: int, bytes: Seq<u8>)
    requires
        0 <= rd < data.len(),
        0 <= used,
        used + bytes.len() < data.len(),
    ensures
        forall|j: int|
            0 <= j < used ==> unrolled(
                ring_write(data, ring_at(rd, used, data.len() as int), bytes),
                rd,
            )[j] == #[trigger] unrolled(data, rd)[j],
{
    let n = data.len() as int;
    let wr = ring_at(rd, used, n);
    let after = ring_write(data, wr, bytes);
    assert forall|j: int| 0 <= j < used implies unrolled(after, rd)[j] == #[trigger] unrolled(
        data,
        rd,
    )[j] by {
        let p = ring_at(rd, j, n);
        assert(offset_from(wr, p, n) == j + n - used);
        assert(after[p] == data[p]);
    }
}

/// A frame written behind the `used` bytes from `rd` on is found there in the
/// ring unrolled from `rd`.
proof fn lemma_unrolled_written(data: Seq<u8>, rd: int, used: int, msg: Seq<u8>)
    requires
        valid_len(data.len() as int),
        valid_index(rd, data.len() as int),
        0 <= used,
        used % 4 == 0,
        msg.len() <= 65535,
        used + frame_len(msg.len() as int) < data.len(),
    ensures
        ({
            let wr = ring_at(rd, used, data.len() as int);
            let after = unrolled(ring_write(data, wr, frame(msg)), rd);
            &&& after[used] * 256 + after[used + 1] == msg.len()
            &&& after.subrange(used + 4, used + 4 + msg.len()) == msg
        }),
{
    let n = data.len() as int;
    let wr = ring_at(rd, used, n);
    let written = ring_write(data, wr, frame(msg));
    let after = unrolled(written, rd);
    lemma_padded_len(msg.len() as int);
    lemma_written_frame(data, wr, msg);
    assert(ring_at(rd, used, n) == wr);
    assert(ring_at(rd, used + 1, n) == wr + 1);
    assert(after[used] == written[wr]);
    assert(after[used + 1] == written[wr + 1]);
    let start = ring_at(wr, 4, n);
    assert forall|k: int| 0 <= k < msg.len() implies after[used + 4 + k] == msg[k] by {
        assert(ring_at(rd, used + 4 + k, n) == ring_at(start, k, n));
        assert(payload_at(written, wr)[k] == written[ring_at(start, k, n)]);
    }
    assert(after.subrange(used + 4, used + 4 + msg.len()) =~= msg);
}

/// A frame written behind a row of whole frames, into free bytes, adds its
/// message at the end of the row and leaves the others as they were.
proof fn lemma_push_at(data: Seq<u8>, rd: int, used: int, msg: Seq<u8>)
    requires
        valid_len(data.len() as int),
        valid_index(rd, data.len() as int),
        used % 4 == 0,
        msg.len() <= 65535,
        used + frame_len(msg.len() as int) < data.len(),
        frames(unrolled(data, rd), 0, used) is Some,
    ensures
        frames(
            unrolled(ring_write(data, ring_at(rd, used, data.len() as int), frame(msg)), rd),
            0,
            used + frame_len(msg.len() as int),
        ) == Some(frames(unrolled(data, rd), 0, used).unwrap().push(msg)),
{
    let n = data.len() as int;
    let wr = ring_at(rd, used, n);
    let before = unrolled(data, rd);
    let after = unrolled(ring_write(data, wr, frame(msg)), rd);
    lemma_frames_empty(before, 0, used);
    lemma_padded_len(msg.len() as int);
    lemma_unrolled_kept(data, rd, used, frame(msg));
    lemma_frames_same(after, before, 0, 0, used);
    lemma_unrolled_written(data, rd, used, msg);
    lemma_frames_append(after, 0, used, msg);
}

/// Behind the first frame of a row of whole frames lies the row of the others.
proof fn lemma_pop_at(data: Seq<u8>, rd: int, used: int)
    requires
        valid_len(data.len() as int),
        valid_index(rd, data.len() as int),
        0 < used < data.len(),
        frames(unrolled(data, rd), 0, used) is Some,
    ensures
        ({
            let f = frame_len(header_len(data, rd));
            let all = frames(unrolled(data, rd), 0, used).unwrap();
            &&& 4 <= f <= used
            &&& f % 4 == 0
            &&& all.len() > 0
            &&& all[0] == payload_at(data, rd)
            &&& frames(unrolled(data, ring_at(rd, f, data.len() as int)), 0, used - f) == Some(
                all.drop_first(),
            )
        }),
{
    let n = data.len() as int;
    let u = unrolled(data, rd);
    let len = header_len(data, rd);
    let f = frame_len(len);
    lemma_padded_len(len);
    assert(u[0] == data[rd]);
    assert(u[1] == data[rd + 1]);
    assert(u[0] * 256 + u[1] == len);
    assert(f <= used);
    lemma_unrolled_frame(data, rd);
    let next = ring_at(rd, f, n);
    let v = unrolled(data, next);
    assert forall|j: int| 0 <= j < used - f implies u[j + f] == v[j] by {
        assert(ring_at(rd, j + f, n) == ring_at(next, j, n));
    }
    lemma_frames_same(u, v, f, 0, used - f);
    let rest = frames(u, f, used).unwrap();
    assert((seq![payload_at(data, rd)] + rest).drop_first() =~= rest);
}

/// The queue lies in the bytes from the reader's index up to the writer's:
/// whatever the others hold, it is the same.
pub proof fn lemma_queued_ignores_free(data: Seq<u8>, other: Seq<u8>, rd: int, wr: int)
    requires
        other.len() == data.len(),
        0 <= rd < data.len(),
        0 <= wr < data.len(),
        forall|p: int|
            0 <= p < data.len() && offset_from(rd, p, data.len() as int) < offset_from(
                rd,
                wr,
                data.len() as int,
            ) ==> other[p] == data[p],
    ensures
        queued(other, rd, wr) == queued(data, rd, wr),
{
    let n = data.len() as int;
    let used = offset_from(rd, wr, n);
    assert forall|j: int| 0 <= j < used implies unrolled(other, rd)[j] == unrolled(data, rd)[j] by {
        assert(offset_from(rd, ring_at(rd, j, n), n) == j);
    }
    lemma_frames_same(unrolled(other, rd), unrolled(data, rd), 0, 0, used);
}

/// A writer that moves over free bytes by a multiple of four stands at an
/// index again, that much further from the reader.
proof fn lemma_writer_moves(rd: int, wr: int, by: int, n: int)
    requires
        valid_len(n),
        valid_index(rd, n),
        valid_index(wr, n),
        0 <= by,
        by % 4 == 0,
        offset_from(rd, wr, n) + by < n,
    ensures
        valid_index(ring_at(wr, by, n), n),
        offset_from(rd, ring_at(wr, by, n), n) == offset_from(rd, wr, n) + by,
        ring_at(rd, offset_from(rd, wr, n), n) == wr,
        offset_from(rd, wr, n) % 4 == 0,
{
}

/// A reader that moves over used bytes by a multiple of four stands at an
/// index again, that much nearer to the writer.
proof fn lemma_reader_moves(rd: int, wr: int, by: int, n: int)
    requires
        valid_len(n),
        valid_index(rd, n),
        valid_index(wr, n),
        0 <= by <= offset_from(rd, wr, n),
        by % 4 == 0,
    ensures
        valid_index(ring_at(rd, by, n), n),
        offset_from(ring_at(rd, by, n), wr, n) == offset_from(rd, wr, n) - by,
{
}

/// A message sent into a ring in order, while its frame fits into the free
/// bytes, joins the queue at the end.
pub proof fn lemma_queued_push(data: Seq<u8>, rd: int, wr: int, msg: Seq<u8>)
    requires
        queued(data, rd, wr) is Some,
        msg.len() <= 65535,
        frame_len(msg.len() as int) <= free_space(rd, wr, data.len() as int),
    ensures
        queued(
            ring_write(data, wr, frame(msg)),
            rd,
            (wr + frame_len(msg.len() as int)) % (data.len() as int),
        ) == Some(queued(data, rd, wr).unwrap().push(msg)),
{
    let n = data.len() as int;
    let f = frame_len(msg.len() as int);
    let used = offset_from(rd, wr, n);
    lemma_padded_len(msg.len() as int);
    lemma_free_plus_used(rd, wr, n);
    lemma_ring_at_mod(wr, f, n);
    lemma_writer_moves(rd, wr, f, n);
    lemma_push_at(data, rd, used, msg);
    assert(ring_write(data, wr, frame(msg)).len() == n);
}

/// The oldest message of a queue lies at the reader's index; behind its frame
/// the others are queued.
pub proof fn lemma_queued_pop(data: Seq<u8>, rd: int, wr: int)
    requires
        queued(data, rd, wr) is Some,
    ensures
        rd == wr <==> queued(data, rd, wr).unwrap().len() == 0,
        rd != wr ==> {
            &&& 0 <= header_len(data, rd)
            &&& frame_len(header_len(data, rd)) < data.len()
            &&& queued(data, rd, wr).unwrap()[0] == payload_at(data, rd)
            &&& queued(data, (rd + frame_len(header_len(data, rd))) % (data.len() as int), wr)
                == Some(queued(data, rd, wr).unwrap().drop_first())
        },
{
    let n = data.len() as int;
    let used = offset_from(rd, wr, n);
    lemma_frames_empty(unrolled(data, rd), 0, used);
    if rd != wr {
        let f = frame_len(header_len(data, rd));
        lemma_pop_at(data, rd, used);
        lemma_ring_at_mod(rd, f, n);
        lemma_reader_moves(rd, wr, f, n);
    }
}

/// The ring bytes that the frames of `msgs` take together.
pub open spec fn total_len(msgs: Seq<Seq<u8>>) -> int
    decreases msgs.len(),
{
    if msgs.len() == 0 {
        0
    } else {
        frame_len(msgs[0].len() as int) + total_len(msgs.drop_first())
    }
}

/// One more message takes its frame's bytes more.
pub proof fn lemma_total_len_push(msgs: Seq<Seq<u8>>, msg: Seq<u8>)
    ensures
        total_len(msgs.push(msg)) == total_len(msgs) + frame_len(msg.len() as int),
    decreases msgs.len(),
{
    if msgs.len() == 0 {
        assert(msgs.push(msg).drop_first() =~= msgs);
    } else {
        lemma_total_len_push(msgs.drop_first(), msg);
        assert(msgs.push(msg).drop_first() =~= msgs.drop_first().push(msg));
    }
}

/// A row of frames is as many bytes long as its frames are together.
proof fn lemma_frames_size(bytes: Seq<u8>, from: int, to: int)
    requires
        0 <= from,
        to <= bytes.len(),
        frames(bytes, from, to) is Some,
    ensures
        total_len(frames(bytes, from, to).unwrap()) == to - from,
    decreases to - from,
{
    if from < to {
        let len = bytes[from] * 256 + bytes[from + 1];
        let next = from + frame_len(len);
        lemma_frames_size(bytes, next, to);
        let first = bytes.subrange(from + 4, from + 4 + len);
        let rest = frames(bytes, next, to).unwrap();
        lemma_padded_len(len);
        assert(first.len() == len);
        assert((seq![first] + rest).drop_first() =~= rest);
    }
}

/// The bytes between the two indices of a ring in order are those of the
/// frames queued, and the free bytes are the others but one.
pub proof fn lemma_queued_size(data: Seq<u8>, rd: int, wr: int)
    requires
        queued(data, rd, wr) is Some,
    ensures
        used_space(rd, wr, data.len() as int) == total_len(queued(data, rd, wr).unwrap()),
        free_space(rd, wr, data.len() as int) == data.len() - 1 - total_len(
            queued(data, rd, wr).unwrap(),
        ),
{
    let n = data.len() as int;
    lemma_free_plus_used(rd, wr, n);
    lemma_frames_size(unrolled(data, rd), 0, offset_from(rd, wr, n));
}

/// Padding rounds up to the next multiple of four.
pub proof fn lemma_padded_len(len: int)
    requires
        0 <= len,
    ensures
        padded_len(len) % 4 == 0,
        len <= padded_len(len) < len + 4,
        frame_len(len) % 4 == 0,
        frame_len(len) >= 4,
{
}

/// A payload that is no longer than the ring is, padded, no longer either.
pub proof fn lemma_padded_fits(len: int, n: int)
    requires
        0 <= len <= n,
        n % 4 == 0,
    ensures
        padded_len(len) <= n,
{
}

/// Computes `padded_len`.
pub fn pad(len: u16) -> (padded: u32)
    ensures
        padded == padded_len(len as int),
        padded % 4 == 0,
        len <= padded < len + 4,
{
    let len: u32 = len as u32;
    len + (4 - len % 4) % 4
}

/// Computes `free_space`, whatever the reader's index holds.
pub fn free(rd: u32, wr: u32, n: u32) -> (space: u32)
    requires
        wr < n,
    ensures
        space == free_space(rd as int, wr as int, n as int),
        space < n,
{
    let r: u32 = rd % n;
    let space: u32 = if r > wr {
        r - wr - 1
    } else {
        (n - 1 - wr) + r
    };
    proof {
        let q = (rd / n) as int;
        assert(rd as int == q * n + r) by {
            vstd::arithmetic::div_mod::lemma_fundamental_div_mod(rd as int, n as int);
            assert(n * q == q * n) by (nonlinear_arith);
        }
        if r > wr {
            lemma_fundamental_div_mod_converse(rd - wr - 1, n as int, q, space as int);
        } else {
            assert((q - 1) * n == q * n - n) by (nonlinear_arith);
            lemma_fundamental_div_mod_converse(rd - wr - 1, n as int, q - 1, space as int);
        }
    }
    space
}

/// Moves an index `by` bytes forward, wrapping at the end.
pub fn advance(idx: u32, by: u32, n: u32) -> (next: u32)
    requires
        idx < n,
        by <= n,
    ensures
        next == ring_at(idx as int, by as int, n as int),
        next < n,
{
    if by >= n - idx {
        by - (n - idx)
    } else {
        idx + by
    }
}

} // verus!
