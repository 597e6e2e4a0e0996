use vstd::prelude::*;
use vstd::slice::slice_subrange;
use crate::crc::{create_crc, crc_spec};

verus! {

/// The start marker that opens every frame.
pub const START_BYTE: u8 = 0xAA;

/// The largest data length that the 10-bit length field can describe
/// (the field counts the command byte too).
pub const MAX_DATA_LEN: usize = 1022;

/// The 16-bit flags word: the payload length (command byte plus data) in
/// bits 6..15, the write flag in bit 0.
pub open spec fn flags_spec(data_len: nat, write: bool) -> int {
    (data_len + 1) * 64 + if write { 1int } else { 0int }
}

/// A 16-bit value as two bytes, little-endian.
pub open spec fn le16(v: int) -> Seq<u8> {
    seq![(v % 256) as u8, (v / 256) as u8]
}

/// The frame without its checksum: start marker, flags, command id, data.
pub open spec fn frame_body(command_id: u8, write: bool, data: Seq<u8>) -> Seq<u8> {
    seq![START_BYTE] + le16(flags_spec(data.len(), write)) + seq![command_id] + data
}

/// The whole wire form of a request: the body followed by the checksum of
/// the body, little-endian.
pub open spec fn encode_spec(command_id: u8, write: bool, data: Seq<u8>) -> Seq<u8> {
    let body = frame_body(command_id, write, data);
    body + le16(crc_spec(body) as int)
}

/// Writes the frame for `command_id`, `write` and `data` to the front of
/// `buffer` and returns that part of it.
pub fn create_packet_bytes<'a>(
    buffer: &'a mut [u8],
    command_id: u8,
    write: bool,
    data: &[u8],
) -> (r: &'a [u8])
    requires
        data@.len() <= MAX_DATA_LEN,
        old(buffer)@.len() >= data@.len() + 6,
    ensures
        r@ == encode_spec(command_id, write, data@),
        final(buffer)@.len() == old(buffer)@.len(),
        final(buffer)@.subrange(0, data@.len() + 6int) == r@,
        final(buffer)@.subrange(data@.len() + 6int, old(buffer)@.len() as int) == old(
            buffer,
        )@.subrange(data@.len() + 6int, old(buffer)@.len() as int),
{
    let data_size = data.len();
    let flags: u16 = if write {
        ((data_size + 1) * 64 + 1) as u16
    } else {
        ((data_size + 1) * 64) as u16
    };
    buffer[0] = START_BYTE;
    buffer[1] = (flags % 256) as u8;
    buffer[2] = (flags / 256) as u8;
    buffer[3] = command_id;
    let mut i: usize = 0;
    while i < data_size
        invariant
            data_size == data@.len(),
            data_size <= MAX_DATA_LEN,
            buffer@.len() == old(buffer)@.len(),
            buffer@.len() >= data_size + 6,
            i <= data_size,
            buffer@.subrange(0, 4) == frame_body(command_id, write, data@).subrange(0, 4),
            forall|j: int| 0 <= j < i ==> buffer@[4 + j] == data@[j],
            forall|j: int| data_size + 6 <= j < buffer@.len() ==> buffer@[j] == old(buffer)@[j],
        decreases data_size - i,
    {
        buffer[4 + i] = data[i];
        i = i + 1;
    }
    let ghost body = frame_body(command_id, write, data@);
    proof {
        assert(buffer@.subrange(0, data_size + 4) =~= body);
    }
    let crc = create_crc(slice_subrange(buffer, 0, data_size + 4));
    buffer[4 + data_size] = (crc % 256) as u8;
    buffer[5 + data_size] = (crc / 256) as u8;
    proof {
        assert(buffer@.subrange(0, data_size + 6) =~= encode_spec(command_id, write, data@));
        assert(buffer@.subrange(data_size + 6, buffer@.len() as int) =~= old(buffer)@.subrange(
            data_size + 6,
            buffer@.len() as int,
        ));
    }
    slice_subrange(buffer, 0, data_size + 6)
}

} // verus!
