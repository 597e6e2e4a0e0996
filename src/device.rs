use vstd::prelude::*;
use crate::packet::create_packet_bytes;

verus! {

/// What a command can fail with.
#[derive(Debug, PartialEq, Eq, Structural, Clone, Copy)]
pub enum LwnxError {
    DeviceError,
    ReadError,
    WriteError,
    DeviceClosed,
    PacketTimeout,
    CommandRetriesExhausted,
}

/// The byte channel a session talks over, implemented by each transport.
pub trait UserPlatform {
    /// Writes the whole of `data`, or fails.
    fn write_callback(&mut self, data: &[u8]) -> Result<usize, LwnxError>;

    /// Reads what is available within a short wait into `data` and returns
    /// the part of it that was filled.
    fn read_callback<'a>(&mut self, data: &'a mut [u8]) -> Result<&'a [u8], LwnxError>;

    /// Waits for `duration_ms` milliseconds.
    fn delay_callback(&mut self, duration_ms: u64);
}

/// Default time budget of one attempt, in milliseconds.
pub const DEFAULT_COMMAND_TIMEOUT: u64 = 500;

/// Default number of attempts of one command.
pub const DEFAULT_COMMAND_RETRIES: i32 = 4;

/// A connected device: its transport and its retry policy.
pub struct DeviceContext<T: UserPlatform> {
    pub user_platform: T,
    pub command_timeout: u64,
    pub command_retries: i32,
}

impl<T: UserPlatform> DeviceContext<T> {
    /// A session over `user_platform` with the default timeout and retries.
    pub fn new(user_platform: T) -> (r: DeviceContext<T>)
        ensures
            r.user_platform == user_platform,
            r.command_timeout == DEFAULT_COMMAND_TIMEOUT,
            r.command_retries == DEFAULT_COMMAND_RETRIES,
    {
        DeviceContext {
            user_platform,
            command_timeout: DEFAULT_COMMAND_TIMEOUT,
            command_retries: DEFAULT_COMMAND_RETRIES,
        }
    }
}

/// What a transport's write report means to the protocol: a full write is
/// a success, a partial write or a failure is a write error.
pub open spec fn write_outcome(r: Result<usize, LwnxError>, len: nat) -> Result<usize, LwnxError> {
    match r {
        Ok(n) => if n == len { Ok(n) } else { Err(LwnxError::WriteError) },
        Err(_) => Err(LwnxError::WriteError),
    }
}

/// Maps a transport's report on writing `len` bytes to the protocol's
/// outcome.
pub fn write_report(w: Result<usize, LwnxError>, len: usize) -> (r: Result<usize, LwnxError>)
    ensures
        r == write_outcome(w, len as nat),
{
    match w {
        Ok(n) => {
            if n == len {
                Ok(n)
            } else {
                Err(LwnxError::WriteError)
            }
        },
        Err(_) => Err(LwnxError::WriteError),
    }
}

/// Writes `buffer` through the session's transport; the result is the
/// transport's report as `write_report` maps it.
pub fn cmd_write<T: UserPlatform>(device_context: &mut DeviceContext<T>, buffer: &[u8]) -> (r:
    Result<usize, LwnxError>)
    ensures
        r is Ok ==> r == Ok::<usize, LwnxError>(buffer@.len() as usize),
        r is Err ==> r == Err::<usize, LwnxError>(LwnxError::WriteError),
        final(device_context).command_timeout == old(device_context).command_timeout,
        final(device_context).command_retries == old(device_context).command_retries,
{
    let w = device_context.user_platform.write_callback(buffer);
    write_report(w, buffer.len())
}

/// Reads what the transport has into `buffer`; any transport failure is a
/// read error.
pub fn cmd_read<'a, T: UserPlatform>(
    platform: &mut DeviceContext<T>,
    buffer: &'a mut [u8],
) -> (r: Result<&'a [u8], LwnxError>)
    ensures
        r is Err ==> r == Err::<&'a [u8], LwnxError>(LwnxError::ReadError),
        final(platform).command_timeout == old(platform).command_timeout,
        final(platform).command_retries == old(platform).command_retries,
{
    let read_result = platform.user_platform.read_callback(buffer);
    match read_result {
        Ok(s) => Ok(s),
        Err(_) => Err(LwnxError::ReadError),
    }
}

/// Sends a command 0 request to wake a device into this protocol, without
/// waiting for any response.
pub fn engage_lwnx_mode<T: UserPlatform>(device_context: &mut DeviceContext<T>) -> (r: Result<
    (),
    LwnxError,
>)
    ensures
        r is Err ==> r == Err::<(), LwnxError>(LwnxError::WriteError),
{
    let mut packet_buffer: Vec<u8> = vec![0u8; 6];
    let empty: Vec<u8> = Vec::new();
    let packet_bytes = create_packet_bytes(packet_buffer.as_mut_slice(), 0, false, empty.as_slice());
    match cmd_write(device_context, packet_bytes) {
        Ok(_) => Ok(()),
        Err(e) => Err(e),
    }
}

} // verus!
