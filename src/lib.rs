//! Master-side driver for the LWNX binary command/response protocol.
//!
//! The library holds the protocol engine: the CRC16 checksum, the packet
//! encoder, the byte-at-a-time response parser and the command dispatcher.
//! A command is a state machine (`Dispatcher`) that says what to do next:
//! write the request, read a byte, or stop with a result. The caller owns
//! the transport and the clock and reports each outcome back.
pub mod crc;
pub mod device;
pub mod dispatch;
pub mod framing;
pub mod packet;
pub mod response;

pub use crate::crc::create_crc;
pub use crate::device::{
    cmd_read, cmd_write, engage_lwnx_mode, write_report, DeviceContext, LwnxError, UserPlatform,
};
pub use crate::dispatch::{Action, Dispatcher};
pub use crate::packet::create_packet_bytes;
pub use crate::response::{Response, ResponseParseState};
