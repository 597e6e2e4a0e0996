use lwnx::{
    cmd_read, cmd_write, create_crc, create_packet_bytes, engage_lwnx_mode, write_report, Action,
    DeviceContext, Dispatcher, LwnxError, Response, UserPlatform,
};

fn encode(command_id: u8, write: bool, data: &[u8]) -> Vec<u8> {
    let mut buffer = vec![0u8; 1024];
    create_packet_bytes(&mut buffer, command_id, write, data).to_vec()
}

fn feed_all(response: &mut Response, bytes: &[u8]) -> Vec<usize> {
    let mut done = Vec::new();
    for (i, b) in bytes.iter().enumerate() {
        if response.parse_data(*b) {
            done.push(i);
        }
    }
    done
}

fn parsed(bytes: &[u8]) -> Response {
    let mut r = Response::new();
    let done = feed_all(&mut r, bytes);
    assert_eq!(done, vec![bytes.len() - 1]);
    r
}

#[test]
fn crc_of_empty_input_is_zero() {
    assert_eq!(create_crc(&[]), 0);
}

#[test]
fn crc_matches_xmodem_vector() {
    assert_eq!(create_crc(b"123456789"), 0x31C3);
    assert_eq!(create_crc(&[0xAA, 0x40, 0x00, 0x01]), 0x8F51);
}

#[test]
fn encode_command_one_read_empty() {
    let bytes = encode(1, false, &[]);
    assert_eq!(bytes, vec![0xAA, 0x40, 0x00, 0x01, 0x51, 0x8F]);
    let crc = create_crc(&bytes[..4]);
    assert_eq!(bytes[4..6], crc.to_le_bytes());
}

#[test]
fn encode_write_flag_and_data() {
    let bytes = encode(27, true, &[1, 2, 3, 4]);
    assert_eq!(bytes.len(), 10);
    assert_eq!(&bytes[..8], &[0xAA, 0x41, 0x01, 27, 1, 2, 3, 4]);
    assert_eq!(bytes[8..10], create_crc(&bytes[..8]).to_le_bytes());
}

#[test]
fn encode_returns_front_of_buffer() {
    let mut buffer = vec![0xEEu8; 12];
    let n = create_packet_bytes(&mut buffer, 0, false, &[]).len();
    assert_eq!(n, 6);
    assert_eq!(&buffer[..6], &[0xAA, 0x40, 0x00, 0x00, 0x70, 0x9F]);
    assert_eq!(&buffer[6..], &[0xEE; 6]);
}

#[test]
fn parse_round_trip() {
    for (cmd, write, data) in [
        (27u8, false, vec![1u8, 2, 3, 4]),
        (0, true, vec![]),
        (255, true, (0..200u32).map(|i| i as u8).collect::<Vec<u8>>()),
    ] {
        let bytes = encode(cmd, write, &data);
        let r = parsed(&bytes);
        assert_eq!(r.get_command(), cmd);
        assert_eq!(r.get_size() as usize, bytes.len());
        let mut out = vec![0u8; data.len()];
        r.copy_data(&mut out);
        assert_eq!(out, data);
    }
}

#[test]
fn parse_largest_accepted_frame() {
    let data = vec![0x5Au8; 1016];
    let bytes = encode(9, false, &data);
    let r = parsed(&bytes);
    let mut out = vec![0u8; 1016];
    r.copy_data(&mut out);
    assert_eq!(out, data);
}

#[test]
fn parse_rejects_single_bit_flips() {
    let bytes = encode(27, false, &[1, 2, 3, 4]);
    for pos in 3..bytes.len() {
        for bit in 0..8 {
            let mut flipped = bytes.clone();
            flipped[pos] ^= 1 << bit;
            let mut r = Response::new();
            assert!(feed_all(&mut r, &flipped).is_empty(), "pos {} bit {}", pos, bit);
        }
    }
}

#[test]
fn parse_resynchronizes_after_noise() {
    let frame = encode(2, false, &[7, 0, 0, 0]);
    let mut bytes = vec![0x00, 0x55, 0xFF, 0x12, 0xAB];
    bytes.extend_from_slice(&frame);
    let mut r = Response::new();
    assert_eq!(feed_all(&mut r, &bytes), vec![bytes.len() - 1]);
    assert_eq!(r.get_command(), 2);
    assert_eq!(r.get_uint32_data(), 7);
}

#[test]
fn parse_length_guard_returns_to_start() {
    let mut r = Response::new();
    // Length field 1023: 1025 bytes would follow, more than the buffer holds.
    assert!(feed_all(&mut r, &[0xAA, 0xC0, 0xFF]).is_empty());
    let frame = encode(5, false, &[]);
    assert_eq!(feed_all(&mut r, &frame), vec![frame.len() - 1]);
    assert_eq!(r.get_command(), 5);
}

#[test]
fn parse_reset_discards_partial_frame() {
    let frame = encode(4, false, &[1]);
    let mut r = Response::new();
    assert!(feed_all(&mut r, &frame[..4]).is_empty());
    r.reset();
    assert_eq!(r.get_size(), 0);
    assert_eq!(feed_all(&mut r, &frame), vec![frame.len() - 1]);
}

#[test]
fn decode_integers() {
    let r = parsed(&encode(1, false, &[0xFE, 0xFF, 0xFF, 0xFF]));
    assert_eq!(r.get_uint8_data(), 0xFE);
    assert_eq!(r.get_int8_data(), -2);
    assert_eq!(r.get_uint16_data(), 0xFFFE);
    assert_eq!(r.get_int16_data(), -2);
    assert_eq!(r.get_uint32_data(), 0xFFFF_FFFE);
    assert_eq!(r.get_int32_data(), -2);
    let r = parsed(&encode(1, false, &[0x01, 0x02, 0x03, 0x04]));
    assert_eq!(r.get_uint32_data(), 0x0403_0201);
    assert_eq!(r.get_int16_data(), 0x0201);
    assert_eq!(r.get_int8_data(), 1);
}

fn string_payload(text: &[u8]) -> Vec<u8> {
    let mut data = text.to_vec();
    data.resize(16, 0);
    data
}

#[test]
fn decode_string_field() {
    let r = parsed(&encode(0, false, &string_payload(b"LW20/C")));
    assert_eq!(r.get_string_len(), 6);
    assert_eq!(r.get_string_field(), Some(String::from("LW20/C")));
    assert_eq!(r.get_string_data(), Some(String::from("LW20/C")));
}

#[test]
fn decode_string_without_terminator_is_empty() {
    let r = parsed(&encode(3, false, b"ABCDEFGHIJKLMNOP"));
    assert_eq!(r.get_string_len(), 0);
    assert_eq!(r.get_string_field(), Some(String::new()));
    assert_eq!(r.get_string_data(), Some(String::from("ABCDEFGHIJKLMNOP")));
}

#[test]
fn decode_string_rejects_invalid_utf8() {
    let r = parsed(&encode(3, false, &string_payload(&[0xC3, 0x28, 0x41])));
    assert_eq!(r.get_string_field(), None);
    assert_eq!(r.get_string_data(), None);
}

fn run_silent(retries: i32) -> (usize, Action) {
    let mut d = Dispatcher::new(27, false, &[], retries, 500);
    let mut writes = 0usize;
    let mut action = d.start();
    loop {
        match action {
            Action::Write => {
                writes += 1;
                let n = d.packet().len();
                action = d.on_write(Ok(n));
            }
            Action::Read => {
                action = d.on_read(Ok(None), 10);
                if let Action::Read = action {
                    action = d.on_read(Ok(None), 500);
                }
            }
            Action::Done(_) => return (writes, action),
        }
    }
}

#[test]
fn dispatch_retries_exhausted_after_configured_writes() {
    for retries in [0, 1, 4, 7] {
        let (writes, action) = run_silent(retries);
        assert_eq!(writes, retries as usize);
        assert!(matches!(action, Action::Done(Err(LwnxError::CommandRetriesExhausted))));
    }
}

#[test]
fn dispatch_skips_frame_for_other_command() {
    let mut d = Dispatcher::new(27, false, &[], 4, 500);
    assert!(matches!(d.start(), Action::Write));
    assert_eq!(d.packet(), &encode(27, false, &[])[..]);
    assert!(matches!(d.on_write(Ok(6)), Action::Read));
    let mut bytes = encode(3, false, &[0x99, 0, 0, 0]);
    bytes.extend_from_slice(&encode(27, false, &[0x10, 0, 0, 0]));
    for (i, b) in bytes.iter().enumerate() {
        let a = d.on_read(Ok(Some(*b)), 1);
        if i + 1 < bytes.len() {
            assert!(matches!(a, Action::Read), "byte {}", i);
        } else {
            assert!(matches!(a, Action::Done(Ok(()))));
        }
    }
    assert_eq!(d.response().get_command(), 27);
    assert_eq!(d.response().get_uint32_data(), 16);
}

#[test]
fn dispatch_write_failures() {
    let mut d = Dispatcher::new(1, true, &[9, 9], 4, 500);
    assert!(matches!(d.on_write(Err(LwnxError::DeviceError)), Action::Done(Err(LwnxError::WriteError))));
    let mut d = Dispatcher::new(1, true, &[9, 9], 4, 500);
    assert!(matches!(d.on_write(Ok(3)), Action::Done(Err(LwnxError::WriteError))));
}

#[test]
fn dispatch_read_failure_is_not_retried() {
    let mut d = Dispatcher::new(1, false, &[], 4, 500);
    assert!(matches!(d.on_write(Ok(6)), Action::Read));
    assert!(matches!(
        d.on_read(Err(LwnxError::DeviceError), 0),
        Action::Done(Err(LwnxError::ReadError))
    ));
}

#[test]
fn dispatch_timeout_starts_next_attempt() {
    let mut d = Dispatcher::new(1, false, &[], 2, 100);
    assert!(matches!(d.on_write(Ok(6)), Action::Read));
    assert!(matches!(d.on_read(Ok(None), 99), Action::Read));
    assert!(matches!(d.on_read(Ok(None), 100), Action::Write));
    assert!(matches!(d.on_write(Ok(6)), Action::Read));
    let reply = encode(1, false, &[42]);
    let mut last = Action::Read;
    for b in reply {
        last = d.on_read(Ok(Some(b)), 5);
    }
    assert!(matches!(last, Action::Done(Ok(()))));
    assert_eq!(d.response().get_uint8_data(), 42);
}

struct Recorder {
    written: Vec<Vec<u8>>,
    short_by: usize,
    fail: bool,
    incoming: Vec<u8>,
}

impl UserPlatform for Recorder {
    fn write_callback(&mut self, data: &[u8]) -> Result<usize, LwnxError> {
        if self.fail {
            return Err(LwnxError::DeviceError);
        }
        self.written.push(data.to_vec());
        Ok(data.len() - self.short_by)
    }

    fn read_callback<'a>(&mut self, data: &'a mut [u8]) -> Result<&'a [u8], LwnxError> {
        if self.fail {
            return Err(LwnxError::DeviceError);
        }
        let n = self.incoming.len().min(data.len());
        data[..n].copy_from_slice(&self.incoming[..n]);
        self.incoming.drain(..n);
        Ok(&data[..n])
    }

    fn delay_callback(&mut self, _duration_ms: u64) {}
}

fn recorder() -> Recorder {
    Recorder { written: Vec::new(), short_by: 0, fail: false, incoming: Vec::new() }
}

#[test]
fn device_context_defaults() {
    let ctx = DeviceContext::new(recorder());
    assert_eq!(ctx.command_timeout, 500);
    assert_eq!(ctx.command_retries, 4);
}

#[test]
fn engage_mode_sends_command_zero() {
    let mut ctx = DeviceContext::new(recorder());
    assert!(engage_lwnx_mode(&mut ctx).is_ok());
    assert_eq!(ctx.user_platform.written, vec![encode(0, false, &[])]);
}

#[test]
fn cmd_write_reports_partial_and_failed_writes() {
    let mut ctx = DeviceContext::new(recorder());
    assert!(matches!(cmd_write(&mut ctx, &[1, 2, 3]), Ok(3)));
    ctx.user_platform.short_by = 1;
    assert!(matches!(cmd_write(&mut ctx, &[1, 2, 3]), Err(LwnxError::WriteError)));
    ctx.user_platform.fail = true;
    assert!(matches!(cmd_write(&mut ctx, &[1]), Err(LwnxError::WriteError)));
    assert!(matches!(engage_lwnx_mode(&mut ctx), Err(LwnxError::WriteError)));
}

#[test]
fn cmd_read_passes_bytes_and_maps_failures() {
    let mut ctx = DeviceContext::new(recorder());
    ctx.user_platform.incoming = vec![0xAA, 0x40];
    let mut byte = [0u8; 1];
    assert_eq!(cmd_read(&mut ctx, &mut byte).unwrap(), &[0xAA]);
    ctx.user_platform.incoming.clear();
    assert!(cmd_read(&mut ctx, &mut byte).unwrap().is_empty());
    ctx.user_platform.fail = true;
    assert!(matches!(cmd_read(&mut ctx, &mut byte), Err(LwnxError::ReadError)));
}

#[test]
fn write_report_maps_transport_outcomes() {
    assert_eq!(write_report(Ok(6), 6), Ok(6));
    assert_eq!(write_report(Ok(5), 6), Err(LwnxError::WriteError));
    assert_eq!(write_report(Ok(7), 6), Err(LwnxError::WriteError));
    assert_eq!(write_report(Err(LwnxError::DeviceError), 6), Err(LwnxError::WriteError));
    assert_eq!(write_report(Err(LwnxError::DeviceClosed), 0), Err(LwnxError::WriteError));
}

#[test]
fn encode_leaves_rest_of_buffer() {
    let mut buffer = vec![0x33u8; 20];
    let n = create_packet_bytes(&mut buffer, 7, true, &[1, 2]).len();
    assert_eq!(n, 8);
    assert_eq!(&buffer[8..], &[0x33; 12]);
}

#[test]
fn decode_string_data_stops_at_first_zero() {
    let r = parsed(&encode(0, false, &string_payload(b"AB\0CD")));
    assert_eq!(r.get_string_data(), Some(String::from("AB")));
    assert_eq!(r.get_string_field(), Some(String::from("AB")));
    let r = parsed(&encode(0, false, &string_payload(b"")));
    assert_eq!(r.get_string_data(), Some(String::new()));
    assert_eq!(r.get_string_field(), Some(String::new()));
}

#[test]
fn parse_rejects_flips_of_low_flag_bits() {
    let bytes = encode(27, true, &[1, 2, 3, 4]);
    for bit in 0..6 {
        let mut flipped = bytes.clone();
        flipped[1] ^= 1 << bit;
        let mut r = Response::new();
        assert!(feed_all(&mut r, &flipped).is_empty(), "bit {}", bit);
    }
}

#[test]
fn crc_changes_on_every_single_bit_flip() {
    let data: Vec<u8> = (0..64u32).map(|i| (i * 37 + 11) as u8).collect();
    let base = create_crc(&data);
    for pos in 0..data.len() {
        for bit in 0..8 {
            let mut flipped = data.clone();
            flipped[pos] ^= 1 << bit;
            assert_ne!(create_crc(&flipped), base, "pos {} bit {}", pos, bit);
        }
    }
}
