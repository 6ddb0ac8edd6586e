//! Walking a request array as a positional argument stream.
use crate::frame::{frames_data, lemma_frames_data_len, lossy_text, utf8_lossy, Frame, FrameData};
use vstd::prelude::*;
use vstd::string::StringExecFns;

verus! {

/// Consumes the elements of a `Frame::Array` in order, with typed
/// extractors.
pub struct Parser {
    frames: Vec<Frame>,
}

/// Failure of an extractor: the arguments ran out, or the next one has
/// the wrong shape.  Callers treat `EndOfStream` as "optional argument
/// absent".
#[derive(Debug)]
pub enum ParseError {
    EndOfStream,
    Other(String),
}

/// The text an argument yields: a simple line as it is, a bulk payload
/// decoded leniently, nothing from any other frame.
pub open spec fn string_of(d: FrameData) -> Option<Seq<char>> {
    match d {
        FrameData::Simple(s) => Option::Some(s),
        FrameData::Bulk(b) => Option::Some(lossy_text(b)),
        _ => Option::None,
    }
}

impl Parser {
    /// The arguments not yet consumed.
    pub closed spec fn items(self) -> Seq<FrameData> {
        frames_data(self.frames@)
    }

    /// Wraps an `Array` frame; any other frame is refused.
    pub fn new(frame: Frame) -> (r: Result<Parser, ParseError>)
        ensures
            match r {
                Ok(p) => frame.data() matches FrameData::Array(items) && p.items() == items,
                Err(e) => !(frame.data() is Array) && e is Other,
            },
    {
        match frame {
            Frame::Array(frames) => Ok(Parser { frames }),
            _ => Err(ParseError::Other(String::from_str("invalid frame type for parser"))),
        }
    }

    fn next(&mut self) -> (r: Result<Frame, ParseError>)
        ensures
            old(self).items().len() == 0 ==> (r matches Err(e) && e is EndOfStream && final(self).items() == old(self).items()),
            old(self).items().len() > 0 ==> (r matches Ok(f) && f.data() == old(self).items()[0]
                && final(self).items() == old(self).items().drop_first()),
    {
        proof {
            lemma_frames_data_len(self.frames@);
        }
        if self.frames.len() == 0 {
            Err(ParseError::EndOfStream)
        } else {
            let ghost olds = self.frames@;
            let f = self.frames.remove(0);
            proof {
                assert(self.frames@ =~= olds.drop_first());
                assert((seq![olds[0].data()] + frames_data(olds.drop_first())).drop_first()
                    =~= frames_data(olds.drop_first()));
                assert((seq![olds[0].data()] + frames_data(olds.drop_first()))[0] == olds[
                    0].data());
            }
            Ok(f)
        }
    }

    /// The next argument as text: accepts `Simple` or `Bulk`.
    pub fn next_string(&mut self) -> (r: Result<String, ParseError>)
        ensures
            old(self).items().len() == 0 ==> (r matches Err(e) && e is EndOfStream && final(self).items() == old(self).items()),
            old(self).items().len() > 0 ==> final(self).items() == old(self).items().drop_first()
                && (match string_of(old(self).items()[0]) {
                Option::Some(t) => r matches Ok(s) && s@ == t,
                Option::None => r matches Err(e) && e is Other,
            }),
    {
        match self.next() {
            Ok(f) => match f {
                Frame::Simple(s) => Ok(s),
                Frame::Bulk(data) => Ok(utf8_lossy(data.as_slice())),
                _ => Err(ParseError::Other(String::from_str(
                    "cannot read a string from the argument",
                ))),
            },
            Err(e) => Err(e),
        }
    }

    /// The next argument as opaque bytes: accepts only `Bulk`.
    pub fn next_bytes(&mut self) -> (r: Result<Vec<u8>, ParseError>)
        ensures
            old(self).items().len() == 0 ==> (r matches Err(e) && e is EndOfStream && final(self).items() == old(self).items()),
            old(self).items().len() > 0 ==> final(self).items() == old(self).items().drop_first()
                && (match old(self).items()[0] {
                FrameData::Bulk(b) => r matches Ok(v) && v@ == b,
                _ => r matches Err(e) && e is Other,
            }),
    {
        match self.next() {
            Ok(f) => match f {
                Frame::Bulk(data) => Ok(data),
                _ => Err(ParseError::Other(String::from_str(
                    "cannot read bytes from the argument",
                ))),
            },
            Err(e) => Err(e),
        }
    }

    /// The next argument as a signed number: accepts only `Integer`.
    pub fn next_int(&mut self) -> (r: Result<i64, ParseError>)
        ensures
            old(self).items().len() == 0 ==> (r matches Err(e) && e is EndOfStream && final(self).items() == old(self).items()),
            old(self).items().len() > 0 ==> final(self).items() == old(self).items().drop_first()
                && (match old(self).items()[0] {
                FrameData::Integer(n) => r matches Ok(i) && i as int == n,
                _ => r matches Err(e) && e is Other,
            }),
    {
        match self.next() {
            Ok(f) => match f {
                Frame::Integer(i) => Ok(i),
                _ => Err(ParseError::Other(String::from_str(
                    "cannot read an integer from the argument",
                ))),
            },
            Err(e) => Err(e),
        }
    }

    /// Succeeds only when every argument has been consumed.
    pub fn check_finished(&mut self) -> (r: Result<(), ParseError>)
        ensures
            old(self).items().len() == 0 ==> r is Ok && final(self).items() == old(self).items(),
            old(self).items().len() > 0 ==> (r matches Err(e) && e is Other && final(self).items()
                == old(self).items().drop_first()),
    {
        match self.next() {
            Ok(_) => Err(ParseError::Other(String::from_str(
                "expected end of stream, but there was more data",
            ))),
            Err(_) => Ok(()),
        }
    }
}

} // verus!
