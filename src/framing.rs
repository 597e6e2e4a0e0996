use vstd::prelude::*;
use crate::crc::{crc_spec, differ_at, lemma_crc_detects_one_byte_change};
use crate::packet::{encode_spec, START_BYTE};
use crate::response::{
    completed_frame, length_field, le_value, parse_step, parser_wf, ParserView, ResponseParseState, MAX_REMAINING,
};

verus! {

/// The parser after taking `bytes` in order.
pub open spec fn feed(v: ParserView, bytes: Seq<u8>) -> ParserView
    decreases bytes.len(),
{
    if bytes.len() == 0 {
        v
    } else {
        parse_step(feed(v, bytes.drop_last()), bytes.last()).0
    }
}

/// Byte `i` of `bytes` completes a checksum-valid frame when the parser
/// starts at `v`.
pub open spec fn completes_at(v: ParserView, bytes: Seq<u8>, i: int) -> bool {
    parse_step(feed(v, bytes.take(i)), bytes[i]).1
}

/// `g` opens with the start marker and its length field gives exactly its
/// own length, within what the receive buffer takes.
pub open spec fn frame_header_ok(g: Seq<u8>) -> bool {
    &&& g.len() >= 5
    &&& g[0] == START_BYTE
    &&& length_field(g[1], g[2]) + 2 == g.len() - 3
    &&& g.len() - 3 <= MAX_REMAINING
}

/// The checksum at the end of `g` is the checksum of the rest of it.
pub open spec fn checksum_ok(g: Seq<u8>) -> bool {
    crc_spec(g.subrange(0, g.len() - 2)) as int == le_value(g[g.len() - 2], g[g.len() - 1])
}

/// Feeding one more byte of `g` is one more parser step.
pub proof fn lemma_feed_take_step(v: ParserView, g: Seq<u8>, k: int)
    requires
        0 <= k < g.len(),
    ensures
        feed(v, g.take(k + 1)) == parse_step(feed(v, g.take(k)), g[k]).0,
{
    assert(g.take(k + 1).drop_last() =~= g.take(k));
}

/// Where the parser stands after the first `k` bytes of a frame.
proof fn lemma_frame_state(v: ParserView, g: Seq<u8>, k: int)
    requires
        parser_wf(v),
        v.state == ResponseParseState::StartByte,
        frame_header_ok(g),
        0 <= k <= g.len(),
    ensures
        parser_wf(feed(v, g.take(k))),
        k == 0 ==> feed(v, g.take(k)) == v,
        k == 1 ==> feed(v, g.take(k)).state == ResponseParseState::PayloadSize0,
        k == 2 ==> feed(v, g.take(k)).state == ResponseParseState::PayloadSize1,
        k == 2 ==> feed(v, g.take(k)).data[1] == g[1],
        1 <= k <= 2 ==> feed(v, g.take(k)).data[0] == g[0],
        3 <= k < g.len() ==> {
            let w = feed(v, g.take(k));
            &&& w.state == ResponseParseState::Payload
            &&& w.size == k
            &&& w.remaining == g.len() - k
            &&& w.data.subrange(0, k) == g.take(k)
        },
        k == g.len() ==> {
            let w = feed(v, g.take(k));
            &&& w.state == ResponseParseState::StartByte
            &&& w.size == k
            &&& w.data.subrange(0, k) == g
        },
    decreases k,
{
    if k == 0 {
        assert(g.take(0) =~= Seq::<u8>::empty());
    } else {
        lemma_frame_state(v, g, k - 1);
        lemma_feed_take_step(v, g, k - 1);
        let w0 = feed(v, g.take(k - 1));
        let w = feed(v, g.take(k));
        if k == 3 {
            assert(w.data.subrange(0, k) =~= g.take(k));
        } else if k > 3 {
            assert(w.data.subrange(0, k) =~= w0.data.subrange(0, k - 1).push(g[k - 1]));
            assert(g.take(k) =~= g.take(k - 1).push(g[k - 1]));
            if k == g.len() {
                assert(g.take(k) =~= g);
            }
        }
    }
}

/// A parser waiting for a start marker, fed a frame with a sound header,
/// signals nothing before the frame's last byte, signals there exactly when
/// the checksum is right, and ends waiting for a start marker with the
/// frame stored at the front of its buffer.
pub proof fn lemma_frame(v: ParserView, g: Seq<u8>)
    requires
        parser_wf(v),
        v.state == ResponseParseState::StartByte,
        frame_header_ok(g),
    ensures
        forall|i: int| 0 <= i < g.len() - 1 ==> !completes_at(v, g, i),
        completes_at(v, g, g.len() - 1) == checksum_ok(g),
        parser_wf(feed(v, g)),
        feed(v, g).state == ResponseParseState::StartByte,
        feed(v, g).data.subrange(0, g.len() as int) == g,
        feed(v, g).size == g.len(),
{
    assert forall|i: int| 0 <= i < g.len() - 1 implies !completes_at(v, g, i) by {
        lemma_frame_state(v, g, i);
    }
    let n = g.len() as int;
    lemma_frame_state(v, g, n - 1);
    lemma_frame_state(v, g, n);
    lemma_feed_take_step(v, g, n - 1);
    assert(g.take(n) =~= g);
    let w = feed(v, g);
    assert(w.data.subrange(0, n - 2) =~= g.subrange(0, n - 2));
    assert(w.data[n - 2] == g[n - 2]);
    assert(w.data[n - 1] == g[n - 1]);
}

/// The largest data length whose frame the parser takes whole.
pub open spec fn max_parsed_data_len() -> nat {
    (MAX_REMAINING - 3) as nat
}

/// An encoded request has a sound header and a right checksum, and holds
/// its command id and data at their offsets.
pub proof fn lemma_encoded_frame(command_id: u8, write: bool, data: Seq<u8>)
    requires
        data.len() <= max_parsed_data_len(),
    ensures
        frame_header_ok(encode_spec(command_id, write, data)),
        checksum_ok(encode_spec(command_id, write, data)),
        encode_spec(command_id, write, data).len() == data.len() + 6,
        encode_spec(command_id, write, data)[3] == command_id,
        (encode_spec(command_id, write, data)[1] % 2 == 1) == write,
        encode_spec(command_id, write, data).subrange(4, 4 + data.len() as int) == data,
{
    let g = encode_spec(command_id, write, data);
    let f = crate::packet::flags_spec(data.len(), write);
    let lo = (f % 256) as u8;
    let hi = (f / 256) as u8;
    assert(0 <= f < 65536);
    assert(g[1] == lo && g[2] == hi);
    assert(lo as int + hi as int * 256 == f);
    assert(length_field(g[1], g[2]) == data.len() + 1);
    let n = g.len() as int;
    let body = crate::packet::frame_body(command_id, write, data);
    assert(g.subrange(0, n - 2) =~= body);
    let c = crc_spec(body) as int;
    assert(g[n - 2] as int + g[n - 1] as int * 256 == c);
    assert(g.subrange(4, 4 + data.len() as int) =~= data);
}

/// Round trip: a parser waiting for a start marker, fed an encoded request,
/// signals a valid frame at its last byte and not before, and then holds
/// the request's command id and data.
pub proof fn lemma_round_trip(v: ParserView, command_id: u8, write: bool, data: Seq<u8>)
    requires
        parser_wf(v),
        v.state == ResponseParseState::StartByte,
        data.len() <= max_parsed_data_len(),
    ensures
        ({
            let g = encode_spec(command_id, write, data);
            &&& forall|i: int| 0 <= i < g.len() - 1 ==> !completes_at(v, g, i)
            &&& completes_at(v, g, g.len() - 1)
            &&& feed(v, g).data[3] == command_id
            &&& feed(v, g).data.subrange(4, 4 + data.len() as int) == data
            &&& feed(v, g).size == data.len() + 6
            &&& (feed(v, g).data[1] % 2 == 1) == write
        }),
{
    let g = encode_spec(command_id, write, data);
    lemma_encoded_frame(command_id, write, data);
    lemma_frame(v, g);
    let w = feed(v, g);
    assert(w.data[3] == w.data.subrange(0, g.len() as int)[3]);
    assert(w.data.subrange(4, 4 + data.len() as int) =~= g.subrange(4, 4 + data.len() as int));
    assert(w.data[1] == w.data.subrange(0, g.len() as int)[1]);
}

proof fn lemma_write_bit(n: nat, write: bool)
    requires
        n <= crate::packet::MAX_DATA_LEN,
    ensures
        ((crate::packet::flags_spec(n, write) % 256) as u8 % 2 == 1) == write,
{
    let f = crate::packet::flags_spec(n, write);
    assert((n + 1) * 64 % 2 == 0) by (nonlinear_arith);
    assert(f % 256 % 2 == f % 2) by (nonlinear_arith);
}

/// `b` has exactly one bit set.
pub open spec fn single_bit(b: u8) -> bool {
    b == 1 || b == 2 || b == 4 || b == 8 || b == 16 || b == 32 || b == 64 || b == 128
}

/// Checksum sensitivity: an encoded request with one bit flipped in its
/// command id, data or checksum, or in the low six bits of its flags (the
/// write flag and the bits below the length field), never makes a waiting
/// parser signal a frame: the header still delimits the same frame, and the
/// checksum catches every single-bit error.
pub proof fn lemma_bit_flip_rejected(
    v: ParserView,
    command_id: u8,
    write: bool,
    data: Seq<u8>,
    pos: int,
    bit: u8,
)
    requires
        parser_wf(v),
        v.state == ResponseParseState::StartByte,
        data.len() <= max_parsed_data_len(),
        single_bit(bit),
        (3 <= pos < data.len() + 6) || (pos == 1 && bit < 64),
    ensures
        ({
            let g = encode_spec(command_id, write, data);
            let h = g.update(pos, g[pos] ^ bit);
            forall|i: int| 0 <= i < h.len() ==> !completes_at(v, h, i)
        }),
{
    let g = encode_spec(command_id, write, data);
    lemma_encoded_frame(command_id, write, data);
    lemma_flip_rejected(v, g, pos, bit);
}

proof fn lemma_flip_rejected(v: ParserView, g: Seq<u8>, pos: int, bit: u8)
    requires
        parser_wf(v),
        v.state == ResponseParseState::StartByte,
        frame_header_ok(g),
        checksum_ok(g),
        single_bit(bit),
        (3 <= pos < g.len()) || (pos == 1 && bit < 64),
    ensures
        forall|i: int|
            0 <= i < g.len() ==> !completes_at(v, g.update(pos, g[pos] ^ bit), i),
{
    let h = g.update(pos, g[pos] ^ bit);
    let x = g[pos];
    assert(bit != 0u8 ==> x ^ bit != x) by (bit_vector);
    if pos == 1 {
        lemma_low_flag_bits(g[1], bit, g[2]);
        assert(h.len() == g.len() && h[0] == g[0] && h[2] == g[2] && h[1] == g[1] ^ bit);
    } else {
        lemma_header_kept(g, pos, g[pos] ^ bit);
    }
    lemma_flip_fails_checksum(g, pos, g[pos] ^ bit);
    lemma_frame(v, h);
}

proof fn lemma_header_kept(g: Seq<u8>, pos: int, b: u8)
    requires
        frame_header_ok(g),
        3 <= pos < g.len(),
    ensures
        frame_header_ok(g.update(pos, b)),
{
    let h = g.update(pos, b);
    assert(h.len() == g.len() && h[0] == g[0] && h[1] == g[1] && h[2] == g[2]);
}

proof fn lemma_low_flag_bits(lo: u8, bit: u8, hi: u8)
    requires
        bit < 64,
    ensures
        length_field(lo ^ bit, hi) == length_field(lo, hi),
{
    assert(bit < 64u8 ==> (lo ^ bit) / 64u8 == lo / 64u8) by (bit_vector);
    let a = (lo ^ bit) as int;
    let b = lo as int;
    assert(a / 64 == b / 64);
    assert((a + hi as int * 256) / 64 == a / 64 + hi as int * 4);
    assert((b + hi as int * 256) / 64 == b / 64 + hi as int * 4);
}

proof fn lemma_flip_fails_checksum(g: Seq<u8>, pos: int, b: u8)
    requires
        g.len() >= 5,
        checksum_ok(g),
        0 <= pos < g.len(),
        b != g[pos],
    ensures
        !checksum_ok(g.update(pos, b)),
{
    let n = g.len() as int;
    let h = g.update(pos, b);
    if pos < n - 2 {
        assert(differ_at(g.subrange(0, n - 2), h.subrange(0, n - 2), pos));
        lemma_crc_detects_one_byte_change(g.subrange(0, n - 2), h.subrange(0, n - 2), pos);
    } else {
        assert(h.subrange(0, n - 2) =~= g.subrange(0, n - 2));
    }
}

/// Feeding two sequences one after the other is feeding their concatenation.
pub proof fn lemma_feed_append(v: ParserView, a: Seq<u8>, b: Seq<u8>)
    ensures
        feed(v, a + b) == feed(feed(v, a), b),
    decreases b.len(),
{
    if b.len() == 0 {
        assert(a + b =~= a);
    } else {
        lemma_feed_append(v, a, b.drop_last());
        assert((a + b).drop_last() =~= a + b.drop_last());
    }
}

/// Bytes other than the start marker leave a parser that waits for one
/// unchanged.
proof fn lemma_noise(v: ParserView, noise: Seq<u8>, k: int)
    requires
        v.state == ResponseParseState::StartByte,
        forall|i: int| 0 <= i < noise.len() ==> noise[i] != START_BYTE,
        0 <= k <= noise.len(),
    ensures
        feed(v, noise.take(k)) == v,
    decreases k,
{
    if k > 0 {
        lemma_noise(v, noise, k - 1);
        assert(noise.take(k).drop_last() =~= noise.take(k - 1));
    } else {
        assert(noise.take(0) =~= Seq::<u8>::empty());
    }
}

/// Resynchronization: noise that holds no start marker, followed by an
/// encoded request, makes a waiting parser signal exactly once, at the
/// request's last byte.
pub proof fn lemma_resync(
    v: ParserView,
    noise: Seq<u8>,
    command_id: u8,
    write: bool,
    data: Seq<u8>,
)
    requires
        parser_wf(v),
        v.state == ResponseParseState::StartByte,
        forall|i: int| 0 <= i < noise.len() ==> noise[i] != START_BYTE,
        data.len() <= max_parsed_data_len(),
    ensures
        ({
            let s = noise + encode_spec(command_id, write, data);
            &&& forall|i: int| 0 <= i < s.len() - 1 ==> !completes_at(v, s, i)
            &&& completes_at(v, s, s.len() - 1)
        }),
{
    let g = encode_spec(command_id, write, data);
    let s = noise + g;
    lemma_encoded_frame(command_id, write, data);
    lemma_frame(v, g);
    lemma_noise(v, noise, noise.len() as int);
    assert(noise.take(noise.len() as int) =~= noise);
    assert forall|i: int| 0 <= i < s.len() implies completes_at(v, s, i) == (i == s.len() - 1) by {
        if i < noise.len() {
            lemma_noise(v, noise, i);
            assert(s.take(i) =~= noise.take(i));
            assert(s[i] == noise[i]);
        } else {
            let j = i - noise.len();
            assert(s.take(i) =~= noise + g.take(j));
            lemma_feed_append(v, noise, g.take(j));
            assert(s[i] == g[j]);
            assert(completes_at(v, g, j) == (j == g.len() - 1));
        }
    }
}

/// Length guard: a header whose length field asks for more than the buffer
/// takes sends the parser back to waiting for a start marker, with no
/// signal.
pub proof fn lemma_length_guard(v: ParserView, lo: u8, hi: u8)
    requires
        parser_wf(v),
        v.state == ResponseParseState::StartByte,
        length_field(lo, hi) + 2 > MAX_REMAINING,
    ensures
        ({
            let h = seq![START_BYTE, lo, hi];
            &&& feed(v, h).state == ResponseParseState::StartByte
            &&& parser_wf(feed(v, h))
            &&& forall|i: int| 0 <= i < 3 ==> !completes_at(v, h, i)
            &&& forall|b: u8| b != START_BYTE ==> parse_step(feed(v, h), b) == (feed(v, h), false)
        }),
{
    let h = seq![START_BYTE, lo, hi];
    assert(h.take(0) =~= Seq::<u8>::empty());
    assert(h.take(1).drop_last() =~= h.take(0));
    assert(h.take(2).drop_last() =~= h.take(1));
    assert(h.drop_last() =~= h.take(2));
    let w1 = parse_step(v, START_BYTE).0;
    let w2 = parse_step(w1, lo).0;
    assert(feed(v, h.take(0)) == v);
    assert(feed(v, h.take(1)) == w1);
    assert(feed(v, h.take(2)) == w2);
    assert(feed(v, h) == parse_step(w2, hi).0);
    assert(!completes_at(v, h, 0));
    assert(!completes_at(v, h, 1));
    assert(!completes_at(v, h, 2));
}

/// Two sound frames back to back: the parser signals exactly at the last
/// byte of each, and holds each frame when it has signalled for it.
pub proof fn lemma_two_frames(v: ParserView, fa: Seq<u8>, fb: Seq<u8>)
    requires
        parser_wf(v),
        v.state == ResponseParseState::StartByte,
        frame_header_ok(fa),
        checksum_ok(fa),
        frame_header_ok(fb),
        checksum_ok(fb),
    ensures
        forall|i: int|
            0 <= i < fa.len() + fb.len() ==> completes_at(v, fa + fb, i) == (i == fa.len() - 1 || i
                == fa.len() + fb.len() - 1),
        feed(v, (fa + fb).take(fa.len() as int)).data.subrange(0, fa.len() as int) == fa,
        feed(v, fa + fb).data.subrange(0, fb.len() as int) == fb,
        parser_wf(feed(v, fa + fb)),
        parser_wf(feed(v, (fa + fb).take(fa.len() as int))),
{
    let s = fa + fb;
    let q = feed(v, fa);
    lemma_frame(v, fa);
    lemma_frame(q, fb);
    assert(s.take(fa.len() as int) =~= fa);
    lemma_feed_append(v, fa, fb);
    assert forall|i: int| 0 <= i < s.len() implies completes_at(v, s, i) == (i == fa.len() - 1 || i
        == s.len() - 1) by {
        if i < fa.len() {
            assert(s.take(i) =~= fa.take(i));
            assert(s[i] == fa[i]);
            assert(completes_at(v, fa, i) == (i == fa.len() - 1));
        } else {
            let j = i - fa.len();
            assert(s.take(i) =~= fa + fb.take(j));
            lemma_feed_append(v, fa, fb.take(j));
            assert(s[i] == fb[j]);
            assert(completes_at(q, fb, j) == (j == fb.len() - 1));
        }
    }
}

/// One parser step keeps the invariant, and it signals only on a whole,
/// checksum-valid frame.
pub proof fn lemma_step_sound(v: ParserView, b: u8)
    requires
        parser_wf(v),
    ensures
        parser_wf(parse_step(v, b).0),
        parse_step(v, b).1 ==> completed_frame(parse_step(v, b).0),
{
}

/// Whatever bytes a parser is fed, from any consistent state, it signals
/// only where the bytes it has stored since the last start marker form a
/// whole frame: the start marker, the length its header gives, and a
/// checksum that matches. A corrupted stream gives no signal unless some
/// frame in it passes the checksum.
pub proof fn lemma_signal_is_valid_frame(v: ParserView, q: Seq<u8>, i: int)
    requires
        parser_wf(v),
        0 <= i < q.len(),
    ensures
        parser_wf(feed(v, q.take(i))),
        completes_at(v, q, i) ==> completed_frame(feed(v, q.take(i + 1))),
    decreases i,
{
    if i == 0 {
        assert(q.take(0) =~= Seq::<u8>::empty());
    } else {
        lemma_signal_is_valid_frame(v, q, i - 1);
        lemma_feed_take_step(v, q, i - 1);
        lemma_step_sound(feed(v, q.take(i - 1)), q[i - 1]);
    }
    lemma_feed_take_step(v, q, i);
    lemma_step_sound(feed(v, q.take(i)), q[i]);
}

} // verus!
