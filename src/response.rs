use vstd::prelude::*;
use vstd::slice::slice_subrange;
use crate::crc::{create_crc, crc_spec};
use crate::packet::START_BYTE;

verus! {

/// Capacity of the receive buffer.
pub const BUFFER_LEN: usize = 1024;

/// The largest count of bytes that may follow the flags word of a frame
/// (command byte, data and checksum) for the frame to fit the buffer.
pub const MAX_REMAINING: i32 = 1019;

/// Offset of the data in a stored frame: start marker, flags, command id.
pub const PAYLOAD_OFFSET: usize = 4;

/// Width of the fixed string field at the front of a payload.
pub const STRING_FIELD_LEN: usize = 16;

/// Where the parser stands in the current frame.
#[derive(PartialEq, Eq, Structural, Clone, Copy, Debug)]
pub enum ResponseParseState {
    StartByte,
    PayloadSize0,
    PayloadSize1,
    Payload,
}

/// The parser as a mathematical value.
pub struct ParserView {
    /// The receive buffer.
    pub data: Seq<u8>,
    /// Bytes stored in the current frame.
    pub size: int,
    /// Bytes of the current frame still to read.
    pub remaining: int,
    pub state: ResponseParseState,
}

/// The payload length field held in the two flag bytes.
pub open spec fn length_field(lo: u8, hi: u8) -> int {
    (lo as int + hi as int * 256) / 64
}

/// A little-endian 16-bit value from two bytes.
pub open spec fn le_value(lo: u8, hi: u8) -> int {
    lo as int + hi as int * 256
}

/// What the parser's fields may hold.
pub open spec fn parser_wf(v: ParserView) -> bool {
    &&& v.data.len() == BUFFER_LEN
    &&& 0 <= v.size <= BUFFER_LEN
    &&& v.state != ResponseParseState::StartByte ==> v.data[0] == START_BYTE
    &&& v.state == ResponseParseState::Payload ==> {
        &&& 3 <= v.size
        &&& 1 <= v.remaining
        &&& v.size + v.remaining <= BUFFER_LEN - 2
        &&& v.size + v.remaining == 5 + length_field(v.data[1], v.data[2])
    }
}

/// The buffer holds a whole frame of `size` bytes: it opens with the start
/// marker, has the length its header gives, and ends in the right checksum.
pub open spec fn completed_frame(v: ParserView) -> bool {
    &&& 5 <= v.size <= v.data.len()
    &&& v.data[0] == START_BYTE
    &&& v.size == 5 + length_field(v.data[1], v.data[2])
    &&& crc_spec(v.data.subrange(0, v.size - 2)) as int == le_value(
        v.data[v.size - 2],
        v.data[v.size - 1],
    )
}

/// The parser after one byte, and whether a checksum-valid frame has just
/// been completed.
pub open spec fn parse_step(v: ParserView, b: u8) -> (ParserView, bool) {
    match v.state {
        ResponseParseState::StartByte => {
            if b == START_BYTE {
                (ParserView { data: v.data.update(0, b), state: ResponseParseState::PayloadSize0, ..v }, false)
            } else {
                (v, false)
            }
        },
        ResponseParseState::PayloadSize0 => {
            (ParserView { data: v.data.update(1, b), state: ResponseParseState::PayloadSize1, ..v }, false)
        },
        ResponseParseState::PayloadSize1 => {
            let rem = length_field(v.data[1], b) + 2;
            let state = if rem > MAX_REMAINING {
                ResponseParseState::StartByte
            } else {
                ResponseParseState::Payload
            };
            (ParserView { data: v.data.update(2, b), size: 3, remaining: rem, state }, false)
        },
        ResponseParseState::Payload => {
            let data = v.data.update(v.size, b);
            let size = v.size + 1;
            let remaining = v.remaining - 1;
            if remaining == 0 {
                let ok = crc_spec(data.subrange(0, size - 2)) as int == le_value(
                    data[size - 2],
                    data[size - 1],
                );
                (ParserView { data, size, remaining, state: ResponseParseState::StartByte }, ok)
            } else {
                (ParserView { data, size, remaining, state: ResponseParseState::Payload }, false)
            }
        },
    }
}

/// A little-endian unsigned value of `width` bytes at `off`.
pub open spec fn le_unsigned(s: Seq<u8>, off: int, width: nat) -> int
    decreases width,
{
    if width == 0 {
        0
    } else {
        s[off] as int + 256 * le_unsigned(s, off + 1, (width - 1) as nat)
    }
}

/// The two's complement reading of an unsigned value below `modulus`.
pub open spec fn to_signed(v: int, modulus: int) -> int {
    if v >= modulus / 2 {
        v - modulus
    } else {
        v
    }
}

/// The payload bytes of the stored frame, from `PAYLOAD_OFFSET` on.
pub open spec fn payload_at(v: ParserView, i: int) -> u8 {
    v.data[PAYLOAD_OFFSET + i]
}

/// The fixed-width string field at the front of the payload.
pub open spec fn string_window(v: ParserView) -> Seq<u8> {
    v.data.subrange(PAYLOAD_OFFSET as int, PAYLOAD_OFFSET + STRING_FIELD_LEN)
}

/// `n` is the index of the first zero byte of `w`, or its length when it
/// holds none.
pub open spec fn first_zero_of(w: Seq<u8>, n: int) -> bool {
    ||| (0 <= n < w.len() && w[n] == 0 && forall|j: int| 0 <= j < n ==> w[j] != 0)
    ||| (n == w.len() && forall|j: int| 0 <= j < w.len() ==> w[j] != 0)
}

/// `r` is what `utf8_to_string` makes of `b`.
pub open spec fn text_of(r: Option<String>, b: Seq<u8>) -> bool {
    &&& r.is_some() == utf8_text(b).is_some()
    &&& r.is_some() ==> r.unwrap()@ == utf8_text(b).unwrap()
    &&& all_ascii(b) ==> r.is_some() && r.unwrap()@ == ascii_text(b)
}

/// `n` is the length of the text in a fixed-width string field: the index of
/// the first zero byte, or 0 when the field holds none.
pub open spec fn string_len_of(w: Seq<u8>, n: int) -> bool {
    ||| (0 <= n < w.len() && w[n] == 0 && forall|j: int| 0 <= j < n ==> w[j] != 0)
    ||| (n == 0 && forall|j: int| 0 <= j < w.len() ==> w[j] != 0)
}

/// What `std::str::from_utf8` makes of a byte sequence: the text, or
/// nothing where the bytes are not UTF-8.
pub uninterp spec fn utf8_text(b: Seq<u8>) -> Option<Seq<char>>;

/// Every byte is below 128.
pub open spec fn all_ascii(b: Seq<u8>) -> bool {
    forall|i: int| 0 <= i < b.len() ==> b[i] < 128
}

/// Bytes below 128 are ASCII: valid UTF-8, one character each.
pub open spec fn ascii_text(b: Seq<u8>) -> Seq<char> {
    Seq::new(b.len(), |i: int| b[i] as char)
}

/// Relies on `std::str::from_utf8` and `str::to_owned`: the text when the
/// bytes are UTF-8 (as they are when all are ASCII), else nothing.
#[verifier::external_body]
fn utf8_to_string(b: &[u8]) -> (r: Option<String>)
    ensures
        r.is_some() == utf8_text(b@).is_some(),
        r.is_some() ==> r.unwrap()@ == utf8_text(b@).unwrap(),
        all_ascii(b@) ==> r.is_some() && r.unwrap()@ == ascii_text(b@),
{
    match std::str::from_utf8(b) {
        Ok(s) => Some(s.to_owned()),
        Err(_) => None,
    }
}

/// A restartable parser of response frames, fed one byte at a time.
pub struct Response {
    data: Vec<u8>,
    size: i32,
    payload_size: i32,
    parse_state: ResponseParseState,
}

impl View for Response {
    type V = ParserView;

    closed spec fn view(&self) -> ParserView {
        ParserView {
            data: self.data@,
            size: self.size as int,
            remaining: self.payload_size as int,
            state: self.parse_state,
        }
    }
}

impl Response {
    /// The parser's fields are consistent.
    pub open spec fn wf(&self) -> bool {
        parser_wf(self@)
    }

    /// A parser waiting for a start marker, with a zeroed buffer.
    pub fn new() -> (r: Response)
        ensures
            r.wf(),
            r@.state == ResponseParseState::StartByte,
            r@.size == 0,
            r@.remaining == 0,
            r@.data == Seq::new(BUFFER_LEN as nat, |i: int| 0u8),
    {
        let mut data: Vec<u8> = Vec::new();
        let mut i: usize = 0;
        while i < BUFFER_LEN
            invariant
                i <= BUFFER_LEN,
                data@.len() == i,
                forall|j: int| 0 <= j < i ==> data@[j] == 0u8,
            decreases BUFFER_LEN - i,
        {
            data.push(0u8);
            i = i + 1;
        }
        let r = Response { data, size: 0, payload_size: 0, parse_state: ResponseParseState::StartByte };
        proof {
            assert(r@.data =~= Seq::new(BUFFER_LEN as nat, |i: int| 0u8));
        }
        r
    }

    /// Clears the parser for a new receive; the buffer is left as it is.
    pub fn reset(&mut self)
        requires
            old(self).wf(),
        ensures
            final(self).wf(),
            final(self)@ == (ParserView {
                size: 0,
                remaining: 0,
                state: ResponseParseState::StartByte,
                ..old(self)@
            }),
    {
        self.size = 0;
        self.payload_size = 0;
        self.parse_state = ResponseParseState::StartByte;
    }

    /// The command id of the stored frame.
    pub fn get_command(&self) -> (r: u8)
        requires
            self.wf(),
        ensures
            r == self@.data[3],
    {
        self.data[3]
    }

    /// Bytes stored in the current frame.
    pub fn get_size(&self) -> (r: i32)
        ensures
            r as int == self@.size,
    {
        self.size
    }

    /// Takes one byte; true exactly when it completes a frame whose
    /// checksum is valid.
    pub fn parse_data(&mut self, data: u8) -> (r: bool)
        requires
            old(self).wf(),
        ensures
            final(self).wf(),
            (final(self)@, r) == parse_step(old(self)@, data),
            r ==> completed_frame(final(self)@) && final(self)@.state
                == ResponseParseState::StartByte,
    {
        match self.parse_state {
            ResponseParseState::StartByte => {
                if data == START_BYTE {
                    self.parse_state = ResponseParseState::PayloadSize0;
                    self.data.set(0, data);
                }
                false
            },
            ResponseParseState::PayloadSize0 => {
                self.parse_state = ResponseParseState::PayloadSize1;
                self.data.set(1, data);
                false
            },
            ResponseParseState::PayloadSize1 => {
                self.parse_state = ResponseParseState::Payload;
                self.data.set(2, data);
                self.payload_size = ((self.data[1] as i32) + (data as i32) * 256) / 64;
                self.payload_size = self.payload_size + 2;
                self.size = 3;
                if self.payload_size > MAX_REMAINING {
                    self.parse_state = ResponseParseState::StartByte;
                }
                false
            },
            ResponseParseState::Payload => {
                self.data.set(self.size as usize, data);
                self.size = self.size + 1;
                self.payload_size = self.payload_size - 1;
                if self.payload_size == 0 {
                    self.parse_state = ResponseParseState::StartByte;
                    let n = (self.size - 2) as usize;
                    let crc: u16 = (self.data[n] as u16) + (self.data[n + 1] as u16) * 256;
                    let verify_crc = create_crc(slice_subrange(self.data.as_slice(), 0, n));
                    crc == verify_crc
                } else {
                    false
                }
            },
        }
    }

    /// The text of the 16-byte string field: its bytes before the first
    /// zero byte, or all 16 when it holds none; `None` where those bytes are
    /// not UTF-8.
    pub fn get_string_data(&self) -> (r: Option<String>)
        requires
            self.wf(),
        ensures
            exists|k: int|
                #![trigger first_zero_of(string_window(self@), k)]
                first_zero_of(string_window(self@), k) && text_of(
                    r,
                    string_window(self@).subrange(0, k),
                ),
    {
        let k = self.first_zero();
        let w = slice_subrange(self.data.as_slice(), PAYLOAD_OFFSET, PAYLOAD_OFFSET + k);
        proof {
            assert(w@ =~= string_window(self@).subrange(0, k as int));
        }
        let r = utf8_to_string(w);
        proof {
            assert(first_zero_of(string_window(self@), k as int));
        }
        r
    }

    /// Index of the first zero byte in the string field, or its width.
    fn first_zero(&self) -> (n: usize)
        requires
            self.wf(),
        ensures
            n <= STRING_FIELD_LEN,
            first_zero_of(string_window(self@), n as int),
    {
        let mut i: usize = 0;
        while i < STRING_FIELD_LEN
            invariant
                self.wf(),
                i <= STRING_FIELD_LEN,
                forall|j: int| 0 <= j < i ==> string_window(self@)[j] != 0,
            decreases STRING_FIELD_LEN - i,
        {
            if self.data[PAYLOAD_OFFSET + i] == 0 {
                return i;
            }
            i = i + 1;
        }
        STRING_FIELD_LEN
    }

    /// The payload's first four bytes as a little-endian `u32`.
    pub fn get_uint32_data(&self) -> (r: u32)
        requires
            self.wf(),
        ensures
            r as int == le_unsigned(self@.data, 4, 4),
    {
        proof {
            reveal_with_fuel(le_unsigned, 5);
        }
        (self.data[4] as u32) + (self.data[5] as u32) * 256 + (self.data[6] as u32) * 65536
            + (self.data[7] as u32) * 16777216
    }

    /// The payload's first two bytes as a little-endian `u16`.
    pub fn get_uint16_data(&self) -> (r: u16)
        requires
            self.wf(),
        ensures
            r as int == le_unsigned(self@.data, 4, 2),
    {
        proof {
            reveal_with_fuel(le_unsigned, 3);
        }
        (self.data[4] as u16) + (self.data[5] as u16) * 256
    }

    /// The payload's first byte.
    pub fn get_uint8_data(&self) -> (r: u8)
        requires
            self.wf(),
        ensures
            r == payload_at(self@, 0),
    {
        self.data[PAYLOAD_OFFSET]
    }

    /// The payload's first byte as a signed value.
    pub fn get_int8_data(&self) -> (r: i8)
        requires
            self.wf(),
        ensures
            r as int == to_signed(payload_at(self@, 0) as int, 256),
    {
        let v = self.data[PAYLOAD_OFFSET];
        if v >= 128 {
            (v as i16 - 256) as i8
        } else {
            v as i8
        }
    }

    /// The payload's first two bytes as a little-endian `i16`.
    pub fn get_int16_data(&self) -> (r: i16)
        requires
            self.wf(),
        ensures
            r as int == to_signed(le_unsigned(self@.data, 4, 2), 65536),
    {
        let v = self.get_uint16_data();
        if v >= 32768 {
            (v as i32 - 65536) as i16
        } else {
            v as i16
        }
    }

    /// The payload's first four bytes as a little-endian `i32`.
    pub fn get_int32_data(&self) -> (r: i32)
        requires
            self.wf(),
        ensures
            r as int == to_signed(le_unsigned(self@.data, 4, 4), 4294967296),
    {
        let v = self.get_uint32_data();
        if v >= 2147483648 {
            (v as i64 - 4294967296) as i32
        } else {
            v as i32
        }
    }

    /// The length of the text in the string field: the index of its first
    /// zero byte, or 0 when it holds none.
    pub fn get_string_len(&self) -> (n: usize)
        requires
            self.wf(),
        ensures
            n < STRING_FIELD_LEN,
            string_len_of(string_window(self@), n as int),
    {
        let k = self.first_zero();
        if k == STRING_FIELD_LEN {
            0
        } else {
            k
        }
    }

    /// The text of the string field: the bytes before its first zero byte,
    /// or nothing at all when it holds no zero byte; `None` where those
    /// bytes are not UTF-8.
    pub fn get_string_field(&self) -> (r: Option<String>)
        requires
            self.wf(),
        ensures
            exists|n: int|
                #![trigger string_len_of(string_window(self@), n)]
                string_len_of(string_window(self@), n) && text_of(
                    r,
                    string_window(self@).subrange(0, n),
                ),
            (forall|j: int| 0 <= j < STRING_FIELD_LEN ==> string_window(self@)[j] != 0) ==> (
            r.is_some() && r.unwrap()@.len() == 0),
    {
        let n = self.get_string_len();
        let w = slice_subrange(self.data.as_slice(), PAYLOAD_OFFSET, PAYLOAD_OFFSET + n);
        proof {
            assert(w@ =~= string_window(self@).subrange(0, n as int));
        }
        proof {
            if n == 0 {
                assert(all_ascii(w@));
            }
        }
        let r = utf8_to_string(w);
        proof {
            assert(string_len_of(string_window(self@), n as int));
        }
        r
    }

    /// Copies the first `buffer.len()` payload bytes into `buffer`.
    pub fn copy_data(&self, buffer: &mut [u8])
        requires
            self.wf(),
            old(buffer)@.len() <= BUFFER_LEN - PAYLOAD_OFFSET,
        ensures
            final(buffer)@ == self@.data.subrange(
                PAYLOAD_OFFSET as int,
                PAYLOAD_OFFSET + old(buffer)@.len(),
            ),
    {
        let mut i: usize = 0;
        while i < buffer.len()
            invariant
                self.wf(),
                buffer@.len() == old(buffer)@.len(),
                buffer@.len() <= BUFFER_LEN - PAYLOAD_OFFSET,
                i <= buffer@.len(),
                forall|j: int| 0 <= j < i ==> buffer@[j] == self@.data[PAYLOAD_OFFSET + j],
            decreases buffer@.len() - i,
        {
            buffer[i] = self.data[PAYLOAD_OFFSET + i];
            i = i + 1;
        }
        proof {
            assert(buffer@ =~= self@.data.subrange(
                PAYLOAD_OFFSET as int,
                PAYLOAD_OFFSET + old(buffer)@.len(),
            ));
        }
    }
}

} // verus!
