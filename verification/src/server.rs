//! The per-request step of a connection handler.
//!
//! The accept loop, the tasks, the stop broadcast and the drain channel
//! live outside: they race socket reads against shutdown and hand every
//! complete frame here.  This module holds the decision the handler
//! makes for one frame — decode, run against the store, shape the reply
//! — and the one error reply it may send before giving up.
use crate::cmd::{command_post, decode_command, Command, Decoded};
use crate::db::Database;
use crate::frame::{Frame, FrameData};
use crate::parser::ParseError;
use vstd::prelude::*;
use vstd::string::StringExecFns;

verus! {

/// Handles one request frame at time `now`: decodes it and runs the
/// command.  `Ok` carries the reply to write and whether the sweeper
/// must be woken; `Err` leaves the store untouched and names what was
/// wrong with the request.
pub fn handle_frame(frame: Frame, db: &mut Database, now: u64) -> (r: Result<
    (Frame, bool),
    ParseError,
>)
    requires
        old(db).wf(),
    ensures
        final(db).wf(),
        ({
            let o = decode_command(frame.data());
            match r {
                Ok((reply, wake)) => (o matches Decoded::Cmd(c) && command_post(
                    c,
                    *old(db),
                    *final(db),
                    now,
                    reply.data(),
                    wake,
                )),
                Err(e) => *final(db) == *old(db) && !(o is Cmd) && (e is EndOfStream <==> o
                    is MissingArg) && (e is Other <==> o is Invalid),
            }
        }),
{
    match Command::from_frame(frame) {
        Ok(cmd) => Ok(cmd.execute(db, now)),
        Err(e) => Err(e),
    }
}

/// The single best-effort reply a handler writes before terminating on
/// an error.
pub fn error_reply(msg: &str) -> (f: Frame)
    ensures
        f.data() == FrameData::Simple("error: "@ + msg@),
{
    let s = String::from_str("error: ");
    let t = s.concat(msg);
    Frame::Simple(t)
}

} // verus!
