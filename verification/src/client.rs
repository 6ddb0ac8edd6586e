//! The client side's pure halves: interpreting the server's reply
//! frames and converting command-line arguments.  The socket work of a
//! client — connecting, writing a request, reading the reply — lives
//! outside and hands the frames in.
use crate::frame::{
    count_line_val, frames_data, lemma_frames_data_index, lemma_frames_data_len, lossy_text,
    parse_u64_digits, utf8_lossy, Frame, FrameData,
};
use vstd::bytes::{spec_u64_to_le_bytes, u64_to_le_bytes};
use vstd::prelude::*;
use vstd::string::{StrSliceExecFns, StringExecFns};
use vstd::utf8::encode_utf8;

verus! {

/// The little-endian bytes of a signed number's two's-complement form.
pub open spec fn le_bytes_of_int(i: int) -> Seq<u8>
    recommends
        i64::MIN <= i <= i64::MAX,
{
    if 0 <= i {
        spec_u64_to_le_bytes(i as u64)
    } else {
        spec_u64_to_le_bytes((i + 0x10000000000000000) as u64)
    }
}

/// The bytes a reply frame flattens to: text encoded as UTF-8, bulk as
/// it is, integers in little-endian order, arrays concatenated with
/// null elements skipped, a bare null nothing at all, and an error
/// frame its message.
pub open spec fn flat_frame(d: FrameData) -> Result<Option<Seq<u8>>, Seq<char>>
    decreases d,
{
    match d {
        FrameData::Simple(s) => Result::Ok(Option::Some(encode_utf8(s))),
        FrameData::Bulk(b) => Result::Ok(Option::Some(b)),
        FrameData::Integer(i) => Result::Ok(Option::Some(le_bytes_of_int(i))),
        FrameData::Error(s) => Result::Err(s),
        FrameData::Array(a) => match flat_items(a) {
            Result::Ok(b) => Result::Ok(Option::Some(b)),
            Result::Err(e) => Result::Err(e),
        },
        FrameData::Null => Result::Ok(Option::None),
    }
}

/// The concatenated bytes of a run of reply frames; the first error
/// frame wins.
pub open spec fn flat_items(a: Seq<FrameData>) -> Result<Seq<u8>, Seq<char>>
    decreases a,
{
    if a.len() == 0 {
        Result::Ok(Seq::empty())
    } else {
        match flat_frame(a[0]) {
            Result::Err(e) => Result::Err(e),
            Result::Ok(first) => match flat_items(a.drop_first()) {
                Result::Err(e) => Result::Err(e),
                Result::Ok(rest) => Result::Ok(
                    (match first {
                        Option::Some(b) => b,
                        Option::None => Seq::<u8>::empty(),
                    }) + rest,
                ),
            },
        }
    }
}

/// Flattens a reply frame to the bytes it carries, as `flat_frame`
/// describes.
#[verifier::loop_isolation(false)]
pub fn parse_frame(frame: &Frame) -> (r: Result<Option<Vec<u8>>, String>)
    ensures
        match r {
            Ok(Option::Some(v)) => flat_frame(frame.data()) == Result::<
                Option<Seq<u8>>,
                Seq<char>,
            >::Ok(Option::Some(v@)),
            Ok(Option::None) => flat_frame(frame.data()) == Result::<
                Option<Seq<u8>>,
                Seq<char>,
            >::Ok(Option::<Seq<u8>>::None),
            Err(s) => flat_frame(frame.data()) == Result::<Option<Seq<u8>>, Seq<char>>::Err(s@),
        },
    decreases frame,
{
    match frame {
        Frame::Simple(s) => Ok(Option::Some(s.as_str().as_bytes_vec())),
        Frame::Bulk(b) => Ok(Option::Some(vstd::slice::slice_to_vec(b.as_slice()))),
        Frame::Integer(i) => {
            let v = *i;
            let u: u64 = if v >= 0 {
                v as u64
            } else {
                u64::MAX - ((-(v + 1)) as u64)
            };
            proof {
                if v < 0 {
                    assert(u == v + 0x10000000000000000);
                }
            }
            Ok(Option::Some(u64_to_le_bytes(u)))
        },
        Frame::Error(s) => Err(s.clone()),
        Frame::Null => Ok(Option::None),
        Frame::Array(arr) => {
            let ghost items = frames_data(arr@);
            let mut out: Vec<u8> = Vec::new();
            let mut i: usize = 0;
            proof {
                lemma_frames_data_len(arr@);
                assert(items.skip(0) =~= items);
            }
            while i < arr.len()
                invariant
                    i <= arr@.len(),
                    flat_items(items) == (match flat_items(items.skip(i as int)) {
                        Result::Ok(rest) => Result::<Seq<u8>, Seq<char>>::Ok(out@ + rest),
                        Result::Err(e) => Result::<Seq<u8>, Seq<char>>::Err(e),
                    }),
                decreases arr@.len() - i,
            {
                proof {
                    lemma_frames_data_index(arr@, i as int);
                    assert(items.skip(i as int)[0] == items[i as int]);
                    assert(items.skip(i as int).drop_first() =~= items.skip(i + 1));
                    assert(frame->Array_0 == *arr);
                    assert(decreases_to!(*frame => frame->Array_0));
                    assert(decreases_to!(*arr => arr@));
                    assert(decreases_to!(arr@ => arr@[i as int]));
                    assert(decreases_to!(frame => arr@[i as int]));
                }
                match parse_frame(&arr[i]) {
                    Ok(Option::Some(mut b)) => {
                        let ghost outp = out@;
                        let ghost bv = b@;
                        out.append(&mut b);
                        proof {
                            match flat_items(items.skip(i + 1)) {
                                Result::Ok(rest) => {
                                    assert(outp + (bv + rest) =~= (outp + bv) + rest);
                                },
                                Result::Err(_) => {},
                            }
                        }
                    },
                    Ok(Option::None) => {
                        proof {
                            match flat_items(items.skip(i + 1)) {
                                Result::Ok(rest) => {
                                    assert(Seq::<u8>::empty() + rest =~= rest);
                                },
                                Result::Err(_) => {},
                            }
                        }
                    },
                    Err(e) => {
                        return Err(e);
                    },
                }
                i = i + 1;
            }
            proof {
                assert(items.skip(items.len() as int) =~= Seq::<FrameData>::empty());
                assert(out@ + Seq::<u8>::empty() =~= out@);
            }
            Ok(Option::Some(out))
        },
    }
}

/// What a `ping` reply means to the client: the status text of a
/// `Simple` line, the lenient decoding of a `Bulk` payload, an error
/// for anything else or for no reply at all.
pub fn interpret_ping(resp: Option<Frame>) -> (r: Result<String, String>)
    ensures
        match resp {
            Option::Some(f) => match f.data() {
                FrameData::Simple(s) => r matches Ok(x) && x@ == s,
                FrameData::Bulk(b) => r matches Ok(x) && x@ == lossy_text(b),
                _ => r is Err,
            },
            Option::None => r is Err,
        },
{
    match resp {
        Option::Some(frame) => match frame {
            Frame::Simple(s) => Ok(s),
            Frame::Bulk(b) => Ok(utf8_lossy(b.as_slice())),
            _ => Err(String::from_str("the server response is not a text frame")),
        },
        Option::None => Err(String::from_str("no response from server")),
    }
}

/// What a `get` reply means to the client: no reply at all is a clean
/// miss, anything else flattens as `flat_frame` describes.
pub fn interpret_get(resp: Option<Frame>) -> (r: Result<Option<Vec<u8>>, String>)
    ensures
        match resp {
            Option::Some(f) => match r {
                Ok(Option::Some(v)) => flat_frame(f.data()) == Result::<
                    Option<Seq<u8>>,
                    Seq<char>,
                >::Ok(Option::Some(v@)),
                Ok(Option::None) => flat_frame(f.data()) == Result::<
                    Option<Seq<u8>>,
                    Seq<char>,
                >::Ok(Option::<Seq<u8>>::None),
                Err(s) => flat_frame(f.data()) == Result::<Option<Seq<u8>>, Seq<char>>::Err(s@),
            },
            Option::None => r matches Ok(o) && o is None,
        },
{
    match resp {
        Option::Some(frame) => parse_frame(&frame),
        Option::None => Ok(Option::None),
    }
}

/// What a `set` reply means to the client: any `Simple` line is
/// success, anything else or no reply is an error.
pub fn interpret_set(resp: Option<Frame>) -> (r: Result<(), String>)
    ensures
        match resp {
            Option::Some(f) => (r is Ok <==> f.data() is Simple),
            Option::None => r is Err,
        },
{
    match resp {
        Option::Some(frame) => match frame {
            Frame::Simple(_) => Ok(()),
            _ => Err(String::from_str("the server response is not a status line")),
        },
        Option::None => Err(String::from_str("no response from server")),
    }
}

/// The value an unsigned decimal argument spells: an optional single
/// leading `+`, then one or more ASCII digits, within 64 bits.
pub open spec fn unsigned_arg_val(b: Seq<u8>) -> Option<nat> {
    if b.len() >= 1 && b[0] == 43 {
        count_line_val(b.drop_first())
    } else {
        count_line_val(b)
    }
}

/// Reads a whole number of milliseconds from a command-line argument,
/// as `unsigned_arg_val` describes.
pub fn duration_from_str(s: &str) -> (r: Option<u64>)
    ensures
        match r {
            Option::Some(ms) => unsigned_arg_val(encode_utf8(s@)) == Option::Some(ms as nat),
            Option::None => unsigned_arg_val(encode_utf8(s@)) is None,
        },
{
    let bytes = s.as_bytes_vec();
    let n = bytes.len();
    if n >= 1 && bytes[0] == 43 {
        proof {
            assert(bytes@.subrange(1, n as int) =~= encode_utf8(s@).drop_first());
        }
        parse_u64_digits(&bytes, 1, n)
    } else {
        proof {
            assert(bytes@.subrange(0, n as int) =~= encode_utf8(s@));
        }
        parse_u64_digits(&bytes, 0, n)
    }
}

} // verus!
