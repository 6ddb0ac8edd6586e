//! The pure step of a connection's read side: deciding whether the
//! read buffer holds a complete frame and extracting it.  The socket
//! reads that refill the buffer, and the buffered writes, live outside;
//! they hand the raw bytes in and carry the serialized replies out.
use crate::frame::{parse_bytes, Error, Frame, Parsed};
use vstd::prelude::*;

verus! {

/// Tries to extract one frame from the front of the read buffer.
/// `Ok(Some((f, n)))` carries the frame and the count of bytes it
/// occupied, which the caller discards from the buffer.  `Ok(None)`
/// means no complete frame is buffered yet and more bytes are needed.
/// An error means the bytes break the grammar and the connection is
/// beyond recovery.
pub fn parse_frame(buf: &Vec<u8>) -> (r: Result<Option<(Frame, usize)>, Error>)
    ensures
        ({
            let p = parse_bytes(buf@);
            match r {
                Ok(Option::Some((f, n))) => p == Parsed::Frame(f.data(), n as nat) && 0 < n
                    <= buf@.len(),
                Ok(Option::None) => p is Incomplete,
                Err(_) => p is Malformed,
            }
        }),
{
    proof {
        assert(buf@.skip(0) =~= buf@);
    }
    match Frame::check(buf, 0) {
        Ok(_) => match Frame::parse(buf, 0) {
            Ok((f, end)) => Ok(Option::Some((f, end))),
            Err(e) => Err(e),
        },
        Err(Error::Incomplete) => Ok(Option::None),
        Err(e) => Err(e),
    }
}

} // verus!
