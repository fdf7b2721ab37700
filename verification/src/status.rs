//! TCP connection states as the kernel table encodes them: a single byte
//! whose value names one of twelve standard states. Only `SynSent` marks a
//! destination as pending for this system.

use vstd::prelude::*;

verus! {

#[derive(Clone, Copy, PartialEq, Eq, Structural, Debug)]
pub enum TcpConnectionStatus {
    Established,
    SynSent,
    SynRecv,
    FinWait1,
    FinWait2,
    TimeWait,
    Close,
    CloseWait,
    LastAck,
    Listen,
    Closing,
    NewSynRecv,
}

/// The status a kernel code denotes: codes 1 through 12, in order, name the
/// twelve states; every other code is out of range.
pub open spec fn status_of_code(value: u8) -> Option<TcpConnectionStatus> {
    match value {
        1u8 => Some(TcpConnectionStatus::Established),
        2u8 => Some(TcpConnectionStatus::SynSent),
        3u8 => Some(TcpConnectionStatus::SynRecv),
        4u8 => Some(TcpConnectionStatus::FinWait1),
        5u8 => Some(TcpConnectionStatus::FinWait2),
        6u8 => Some(TcpConnectionStatus::TimeWait),
        7u8 => Some(TcpConnectionStatus::Close),
        8u8 => Some(TcpConnectionStatus::CloseWait),
        9u8 => Some(TcpConnectionStatus::LastAck),
        10u8 => Some(TcpConnectionStatus::Listen),
        11u8 => Some(TcpConnectionStatus::Closing),
        12u8 => Some(TcpConnectionStatus::NewSynRecv),
        _ => None,
    }
}

/// A status byte outside the range 1 through 12.
#[derive(Clone, Copy, PartialEq, Eq, Structural, Debug)]
pub struct ParseConnectionStatusError;

impl TcpConnectionStatus {
    /// Decode a status byte; exactly the codes 1 through 12 succeed.
    pub fn try_from(value: u8) -> (r: Result<TcpConnectionStatus, ParseConnectionStatusError>)
        ensures
            match r {
                Ok(status) => status_of_code(value) == Some(status),
                Err(_) => status_of_code(value) is None,
            },
    {
        match value {
            1u8 => Ok(TcpConnectionStatus::Established),
            2u8 => Ok(TcpConnectionStatus::SynSent),
            3u8 => Ok(TcpConnectionStatus::SynRecv),
            4u8 => Ok(TcpConnectionStatus::FinWait1),
            5u8 => Ok(TcpConnectionStatus::FinWait2),
            6u8 => Ok(TcpConnectionStatus::TimeWait),
            7u8 => Ok(TcpConnectionStatus::Close),
            8u8 => Ok(TcpConnectionStatus::CloseWait),
            9u8 => Ok(TcpConnectionStatus::LastAck),
            10u8 => Ok(TcpConnectionStatus::Listen),
            11u8 => Ok(TcpConnectionStatus::Closing),
            12u8 => Ok(TcpConnectionStatus::NewSynRecv),
            _ => Err(ParseConnectionStatusError),
        }
    }
}

} // verus!
