//! File transfer messages sent over F connections.
//!
//! File messages carry no codes and no framing: they are raw token and
//! offset values.

use vstd::prelude::*;

use crate::protocol::{enc_u32, enc_u64, read_u32, read_u64, write_u32, write_u64, Error};

verus! {

/// File transfer initialization, sent at the start of an F connection
/// to identify the transfer.
#[derive(Debug, Clone, PartialEq, Eq, Structural)]
pub struct FileTransferInit {
    /// Token from the `TransferRequest` message.
    pub token: u32,
}

impl FileTransferInit {
    pub fn new(token: u32) -> (r: FileTransferInit)
        ensures
            r == (FileTransferInit { token }),
    {
        FileTransferInit { token }
    }

    pub fn read_from(data: &Vec<u8>, pos: &mut usize) -> (r: Result<FileTransferInit, Error>)
        requires
            *old(pos) <= data@.len(),
        ensures
            match r {
                Ok(v) => *final(pos) == *old(pos) + 4 && *old(pos) + 4 <= data@.len()
                    && data@.subrange(*old(pos) as int, *old(pos) + 4) == enc_u32(v.token),
                Err(_) => *final(pos) == *old(pos) && data@.len() < *old(pos) + 4,
            },
    {
        match read_u32(data, pos) {
            Ok(token) => Ok(FileTransferInit { token }),
            Err(e) => Err(e),
        }
    }

    pub fn write_to(&self, out: &mut Vec<u8>)
        ensures
            final(out)@ == old(out)@ + enc_u32(self.token),
    {
        write_u32(out, self.token);
    }
}

/// File offset message, sent by the downloader to say where the
/// transfer should resume (`0` for fresh downloads).
#[derive(Debug, Clone, PartialEq, Eq, Structural)]
pub struct FileOffset {
    /// Byte offset to resume from.
    pub offset: u64,
}

impl FileOffset {
    pub fn new(offset: u64) -> (r: FileOffset)
        ensures
            r == (FileOffset { offset }),
    {
        FileOffset { offset }
    }

    pub fn read_from(data: &Vec<u8>, pos: &mut usize) -> (r: Result<FileOffset, Error>)
        requires
            *old(pos) <= data@.len(),
        ensures
            match r {
                Ok(v) => *final(pos) == *old(pos) + 8 && *old(pos) + 8 <= data@.len()
                    && data@.subrange(*old(pos) as int, *old(pos) + 8) == enc_u64(v.offset),
                Err(_) => *final(pos) == *old(pos) && data@.len() < *old(pos) + 8,
            },
    {
        match read_u64(data, pos) {
            Ok(offset) => Ok(FileOffset { offset }),
            Err(e) => Err(e),
        }
    }

    pub fn write_to(&self, out: &mut Vec<u8>)
        ensures
            final(out)@ == old(out)@ + enc_u64(self.offset),
    {
        write_u64(out, self.offset);
    }
}

} // verus!
